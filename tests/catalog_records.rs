use rustpos::catalog::{precedes, Catalog, ItemUpdate};
use rustpos::model::EngineError;

fn sample() -> Catalog {
    let mut c = Catalog::new();
    c.create_category(1, "Drinks".to_string(), Some("Cold and hot".to_string()), 10).unwrap();
    c.create_category(2, "Food".to_string(), None, 10).unwrap();
    c.create_item(10, "Tea".to_string(), None, 250, 1, Some("T-1".to_string()), None, 11).unwrap();
    c.create_item(11, "Bagel".to_string(), None, 325, 2, None, Some(false), 11).unwrap();
    c.create_item(12, "Juice".to_string(), None, 400, 1, None, Some(true), 11).unwrap();
    c
}

#[test]
fn items_default_to_in_stock() {
    let c = sample();
    let tea = c.get_item(10).unwrap();
    assert!(tea.in_stock);
    assert_eq!(tea.created_at, 11);
    assert!(!c.get_item(11).unwrap().in_stock);
    assert_eq!(c.get_item(99).unwrap_err(), EngineError::NotFound);
}

#[test]
fn duplicate_catalog_identities_refused() {
    let mut c = sample();
    assert_eq!(c.create_category(1, "X".to_string(), None, 0).unwrap_err(), EngineError::StoreError);
    assert_eq!(c.create_item(10, "X".to_string(), None, 1, 1, None, None, 0).unwrap_err(), EngineError::StoreError);
    assert_eq!(c.get_categories().len(), 2);
    assert_eq!(c.get_items().len(), 3);
}

#[test]
fn update_item_replaces_only_given_fields() {
    let mut c = sample();
    let up = ItemUpdate { name: Some("Green tea".to_string()), description: None, price: None, category_id: None, sku: None, in_stock: Some(false) };
    let it = c.update_item(10, up, 20).unwrap();
    assert_eq!(it.name, "Green tea");
    assert_eq!(it.price, 250);
    assert_eq!(it.sku.as_deref(), Some("T-1"));
    assert!(!it.in_stock);
    assert_eq!(it.updated_at, 20);
    assert_eq!(it.created_at, 11);
    let up = ItemUpdate { name: None, description: None, price: None, category_id: None, sku: None, in_stock: None };
    assert_eq!(c.update_item(77, up, 21).unwrap_err(), EngineError::NotFound);
}

#[test]
fn update_category_keeps_description_unless_given() {
    let mut c = sample();
    let cat = c.update_category(1, Some("Beverages".to_string()), None, 30).unwrap();
    assert_eq!(cat.name, "Beverages");
    assert_eq!(cat.description.as_deref(), Some("Cold and hot"));
    let cat = c.update_category(2, None, Some("Baked".to_string()), 31).unwrap();
    assert_eq!(cat.name, "Food");
    assert_eq!(cat.description.as_deref(), Some("Baked"));
    assert_eq!(c.get_category(2).unwrap().updated_at, 31);
}

#[test]
fn deletes_report_missing_records() {
    let mut c = sample();
    c.delete_item(11).unwrap();
    assert_eq!(c.delete_item(11).unwrap_err(), EngineError::NotFound);
    c.delete_category(2).unwrap();
    assert_eq!(c.delete_category(2).unwrap_err(), EngineError::NotFound);
    assert_eq!(c.get_category(2).unwrap_err(), EngineError::NotFound);
    let names: Vec<String> = c.get_items().into_iter().map(|i| i.name).collect();
    assert_eq!(names, vec!["Juice".to_string(), "Tea".to_string()]);
}

#[test]
fn items_by_category_in_order() {
    let c = sample();
    let ids: Vec<u128> = c.get_items_by_category(1).iter().map(|i| i.id).collect();
    assert_eq!(ids, vec![12, 10]);
    assert!(c.get_items_by_category(5).is_empty());
    assert_eq!(c.item_info(11).map(|i| i.price), Some(325));
}

#[test]
fn names_order_by_code_point() {
    assert!(precedes("Te", "Tea"));
    assert!(!precedes("Tea", "Te"));
    assert!(precedes("B", "a"));
    assert!(precedes("z", "é"));
    assert!(!precedes("same", "same"));
    assert!(precedes("", "x"));
    assert!(!precedes("", ""));
}

#[test]
fn listings_order_by_name_keeping_ties() {
    let mut c = Catalog::new();
    c.create_category(3, "Snacks".to_string(), None, 0).unwrap();
    c.create_category(4, "Bakery".to_string(), None, 0).unwrap();
    c.create_item(1, "Muffin".to_string(), None, 1, 3, None, None, 0).unwrap();
    c.create_item(2, "Apple".to_string(), None, 1, 3, None, None, 0).unwrap();
    c.create_item(3, "Muffin".to_string(), None, 2, 4, None, None, 0).unwrap();
    c.create_item(4, "Mu".to_string(), None, 1, 3, None, None, 0).unwrap();
    let ids: Vec<u128> = c.get_items().iter().map(|i| i.id).collect();
    assert_eq!(ids, vec![2, 4, 1, 3]);
    let cats: Vec<String> = c.get_categories().into_iter().map(|k| k.name).collect();
    assert_eq!(cats, vec!["Bakery".to_string(), "Snacks".to_string()]);
    let in_three: Vec<u128> = c.get_items_by_category(3).iter().map(|i| i.id).collect();
    assert_eq!(in_three, vec![2, 4, 1]);
}
