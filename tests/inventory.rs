use crafting::database::RecipeDatabase;
use crafting::inventory::{CraftError, Inventory};
use crafting::item_list::ItemList;
use crafting::recipe::Recipe;

fn list(entries: &[(&str, usize)]) -> ItemList {
    let mut l = ItemList::new();
    for (name, count) in entries {
        l.insert(name, *count);
    }
    l
}

fn test_database() -> RecipeDatabase {
    let mut db = RecipeDatabase::new();
    db.insert(
        "Coarse Bone Powder",
        Recipe::new(list(&[("Animal Bone", 10)]), 1),
    );
    db.insert(
        "Varnish of Purity",
        Recipe::new(
            list(&[
                ("Stone of Purity", 1),
                ("Varnish", 3),
                ("Coarse Bone Powder", 3),
            ]),
            1,
        ),
    );
    db
}

fn missing_of(r: Result<(), CraftError>) -> ItemList {
    match r {
        Err(CraftError::Missing(m)) => m,
        Err(_) => panic!("unexpected error kind"),
        Ok(()) => panic!("crafted from insufficient items"),
    }
}

#[test]
fn test_success() {
    let database = test_database();
    let mut inventory = Inventory { items: list(&[("Animal Bone", 10)]) };
    let r = inventory.craft(list(&[("Coarse Bone Powder", 1)]), &database);
    assert!(r.is_ok(), "Failed to craft cbp");
    assert_eq!(inventory.items.get("Coarse Bone Powder"), Some(1));
    assert_eq!(inventory.items.get("Animal Bone"), Some(0));
}

#[test]
fn test_failure() {
    let database = test_database();
    let mut inventory = Inventory { items: list(&[("Animal Bone", 9)]) };
    let missing = missing_of(inventory.craft(list(&[("Coarse Bone Powder", 1)]), &database));
    assert_eq!(missing.get("Animal Bone"), Some(1));
    assert_eq!(missing.len(), 1);
    assert_eq!(inventory.items.get("Animal Bone"), Some(9));
    assert_eq!(inventory.items.len(), 1);
}

#[test]
fn test_vop() {
    let database = test_database();
    let mut inventory = Inventory {
        items: list(&[
            ("Animal Bone", 21),
            ("Coarse Bone Powder", 1),
            ("Stone of Purity", 2),
            ("Varnish", 5),
            ("Varnish of Purity", 1),
        ]),
    };
    let r = inventory.craft(list(&[("Varnish of Purity", 1)]), &database);
    assert!(r.is_ok(), "Failed to craft VoP");
    assert_eq!(inventory.items.get("Varnish of Purity"), Some(2));
    assert_eq!(inventory.items.get("Stone of Purity"), Some(1));
    assert_eq!(inventory.items.get("Coarse Bone Powder"), Some(0));
    assert_eq!(inventory.items.get("Animal Bone"), Some(1));
    assert_eq!(inventory.items.get("Varnish"), Some(2));
}

#[test]
fn test_failure_vop() {
    let database = test_database();
    let mut inventory = Inventory {
        items: list(&[
            ("Animal Bone", 19),
            ("Coarse Bone Powder", 1),
            ("Stone of Purity", 2),
            ("Varnish", 5),
        ]),
    };
    let missing = missing_of(inventory.craft(list(&[("Varnish of Purity", 1)]), &database));
    assert_eq!(missing.get("Animal Bone"), Some(1));
    assert_eq!(missing.len(), 1);
    assert_eq!(inventory.items.get("Animal Bone"), Some(19));
    assert_eq!(inventory.items.get("Coarse Bone Powder"), Some(1));
    assert_eq!(inventory.items.get("Stone of Purity"), Some(2));
    assert_eq!(inventory.items.get("Varnish"), Some(5));
    assert_eq!(inventory.items.get("Varnish of Purity"), None);
}

#[test]
fn failure_repeats_identically() {
    let database = test_database();
    let mut inventory = Inventory {
        items: list(&[("Animal Bone", 19), ("Coarse Bone Powder", 1), ("Varnish", 5)]),
    };
    let first = missing_of(inventory.craft(list(&[("Varnish of Purity", 1)]), &database));
    let second = missing_of(inventory.craft(list(&[("Varnish of Purity", 1)]), &database));
    assert_eq!(first.len(), second.len());
    assert_eq!(first.get("Animal Bone"), Some(1));
    assert_eq!(first.get("Stone of Purity"), Some(1));
    assert_eq!(second.get("Animal Bone"), Some(1));
    assert_eq!(second.get("Stone of Purity"), Some(1));
}

#[test]
fn shortfall_order_does_not_matter() {
    let mut db = RecipeDatabase::new();
    db.insert("Kit", Recipe::new(list(&[("Rope", 2), ("Nail", 5), ("Plank", 1)]), 1));
    db.insert("Kit Reversed", Recipe::new(list(&[("Plank", 1), ("Nail", 5), ("Rope", 2)]), 1));
    let stock = [("Rope", 1), ("Nail", 7)];
    let mut a = Inventory { items: list(&stock) };
    let mut b = Inventory { items: list(&stock) };
    let ma = missing_of(a.craft(list(&[("Kit", 1)]), &db));
    let mb = missing_of(b.craft(list(&[("Kit Reversed", 1)]), &db));
    for m in [&ma, &mb] {
        assert_eq!(m.len(), 2);
        assert_eq!(m.get("Rope"), Some(1));
        assert_eq!(m.get("Plank"), Some(1));
    }
}

#[test]
fn base_item_deficit_is_reported_as_is() {
    let database = test_database();
    let mut inventory = Inventory { items: list(&[("Animal Bone", 30), ("Varnish", 1)]) };
    let missing = missing_of(inventory.craft(list(&[("Varnish of Purity", 2)]), &database));
    assert_eq!(missing.get("Varnish"), Some(5));
    assert_eq!(missing.get("Stone of Purity"), Some(2));
    assert_eq!(missing.get("Animal Bone"), Some(30));
    assert_eq!(missing.len(), 3);
}

#[test]
fn empty_plan_succeeds_unchanged() {
    let database = test_database();
    let mut inventory = Inventory { items: list(&[("Animal Bone", 3)]) };
    assert!(inventory.craft(ItemList::new(), &database).is_ok());
    assert_eq!(inventory.items.get("Animal Bone"), Some(3));
    assert_eq!(inventory.items.len(), 1);
}

#[test]
fn batches_multiply_yield() {
    let mut db = RecipeDatabase::new();
    db.insert("Arrow", Recipe::new(list(&[("Stick", 1), ("Feather", 2)]), 10));
    let mut inventory = Inventory { items: list(&[("Stick", 3), ("Feather", 6), ("Arrow", 4)]) };
    assert!(inventory.craft(list(&[("Arrow", 3)]), &db).is_ok());
    assert_eq!(inventory.items.get("Arrow"), Some(34));
    assert_eq!(inventory.items.get("Stick"), Some(0));
    assert_eq!(inventory.items.get("Feather"), Some(0));
}

#[test]
fn plan_item_without_recipe_contributes_nothing() {
    let database = test_database();
    let mut inventory = Inventory { items: list(&[("Animal Bone", 10)]) };
    let r = inventory.craft(list(&[("Coarse Bone Powder", 1), ("Pebble", 4)]), &database);
    assert!(r.is_ok());
    assert_eq!(inventory.items.get("Coarse Bone Powder"), Some(1));
    assert_eq!(inventory.items.get("Pebble"), None);
}

#[test]
fn recipe_without_ingredients_is_terminal() {
    let mut db = RecipeDatabase::new();
    db.insert("Dust", Recipe::new(ItemList::new(), 1));
    db.insert("Brick", Recipe::new(list(&[("Dust", 4)]), 1));
    let mut inventory = Inventory { items: list(&[("Dust", 1)]) };
    let missing = missing_of(inventory.craft(list(&[("Brick", 1)]), &db));
    assert_eq!(missing.get("Dust"), Some(3));
    assert_eq!(inventory.items.get("Dust"), Some(1));
}

#[test]
fn cyclic_recipes_stop_with_depth_error() {
    let mut db = RecipeDatabase::new();
    db.insert("Egg", Recipe::new(list(&[("Chicken", 1)]), 1));
    db.insert("Chicken", Recipe::new(list(&[("Egg", 1)]), 1));
    db.insert("Omelette", Recipe::new(list(&[("Egg", 2)]), 1));
    let mut inventory = Inventory { items: list(&[("Egg", 1)]) };
    let r = inventory.craft(list(&[("Omelette", 1)]), &db);
    assert!(matches!(r, Err(CraftError::DepthExceeded)));
    assert_eq!(inventory.items.get("Egg"), Some(1));
    assert_eq!(inventory.items.len(), 1);
}

#[test]
fn overflow_is_reported_and_rolled_back() {
    let mut db = RecipeDatabase::new();
    db.insert("Big", Recipe::new(list(&[("Grain", usize::MAX)]), 1));
    let mut inventory = Inventory { items: list(&[("Grain", 5)]) };
    let r = inventory.craft(list(&[("Big", 2)]), &db);
    assert!(matches!(r, Err(CraftError::Overflow)));
    assert_eq!(inventory.items.get("Grain"), Some(5));
}

#[test]
fn take_is_atomic() {
    let mut inventory = Inventory { items: list(&[("Ore", 4)]) };
    assert_eq!(inventory.take("Ore", 5), Err(4));
    assert_eq!(inventory.items.get("Ore"), Some(4));
    assert_eq!(inventory.take("Gem", 1), Err(0));
    assert_eq!(inventory.items.get("Gem"), None);
    assert_eq!(inventory.take("Ore", 4), Ok(()));
    assert_eq!(inventory.items.get("Ore"), Some(0));
    assert_eq!(inventory.take("Gem", 0), Ok(()));
}

#[test]
fn add_inserts_or_increments() {
    let mut inventory = Inventory { items: ItemList::new() };
    inventory.add("Ore", 3);
    inventory.add("Ore", 2);
    inventory.add("Gem", 0);
    assert_eq!(inventory.items.get("Ore"), Some(5));
    assert_eq!(inventory.items.get("Gem"), Some(0));
    assert_eq!(inventory.items.amount("Sand"), 0);
    assert_eq!(inventory.items.len(), 2);
}

#[test]
fn merge_prefers_incoming_recipes() {
    let mut a = RecipeDatabase::new();
    a.insert("Rope", Recipe::new(list(&[("Fiber", 3)]), 1));
    a.insert("Cloth", Recipe::new(list(&[("Fiber", 5)]), 1));
    let mut b = RecipeDatabase::new();
    b.insert("Rope", Recipe::new(list(&[("Fiber", 2)]), 2));
    b.insert("Net", Recipe::new(list(&[("Rope", 4)]), 1));
    a.add(b);
    assert_eq!(a.len(), 3);
    let rope = a.get("Rope").unwrap();
    assert_eq!(rope.result_count, 2);
    assert_eq!(rope.ingredients.get("Fiber"), Some(2));
    assert_eq!(a.get("Cloth").unwrap().ingredients.get("Fiber"), Some(5));
    assert!(a.get("Net").is_some());
    assert!(a.get("Fiber").is_none());
}
