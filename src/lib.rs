pub mod database;
pub mod inventory;
pub mod item_list;
pub mod lemmas;
pub mod recipe;
