use rustpos::catalog::{Catalog, ItemUpdate};
use rustpos::model::{EngineError, Status, TransactionItem};
use rustpos::store::Store;

const TXN: u128 = 100;

fn catalog_with(items: &[(u128, &str, u64, bool)]) -> Catalog {
    let mut c = Catalog::new();
    c.create_category(1, "Drinks".to_string(), None, 0).unwrap();
    for (id, name, price, stock) in items {
        c.create_item(*id, name.to_string(), None, *price, 1, None, Some(*stock), 0).unwrap();
    }
    c
}

fn open_store() -> Store {
    let mut s = Store::new();
    s.create_transaction(TXN, Some("Ann".to_string()), 1).unwrap();
    s
}

fn total_of(s: &Store, id: u128) -> u64 {
    s.get_transaction(id).unwrap().total
}

fn line_sum(items: &[TransactionItem]) -> u64 {
    items.iter().map(|l| l.total_price).sum()
}

#[test]
fn scenario_add_update_close() {
    let cat = catalog_with(&[(7, "Coffee", 1000, true)]);
    let mut s = open_store();
    s.add_transaction_item(&cat, TXN, 7, 2, 1, 2).unwrap();
    assert_eq!(total_of(&s, TXN), 2000);
    let line = s.update_transaction_item(&cat, TXN, 7, 3, 3).unwrap();
    assert_eq!(line.quantity, 3);
    assert_eq!(line.total_price, 3000);
    assert_eq!(total_of(&s, TXN), 3000);
    let settled = s.close_transaction(TXN, 5000, 4).unwrap();
    assert_eq!(settled.change_amount, 2000);
    assert_eq!(settled.transaction.status, Status::Closed);
    assert_eq!(settled.transaction.paid_amount, Some(5000));
    assert_eq!(settled.transaction.change_amount, Some(2000));
    assert_eq!(settled.transaction.closed_at, Some(4));
}

#[test]
fn scenario_close_empty_with_zero() {
    let mut s = open_store();
    let settled = s.close_transaction(TXN, 0, 2).unwrap();
    assert_eq!(settled.change_amount, 0);
    assert_eq!(settled.transaction.total, 0);
    assert_eq!(settled.transaction.status, Status::Closed);
}

#[test]
fn scenario_add_two_remove_one() {
    let cat = catalog_with(&[(1, "A", 500, true), (2, "B", 750, true)]);
    let mut s = open_store();
    s.add_transaction_item(&cat, TXN, 1, 1, 11, 2).unwrap();
    s.add_transaction_item(&cat, TXN, 2, 2, 12, 3).unwrap();
    assert_eq!(total_of(&s, TXN), 2000);
    let t = s.remove_transaction_item(TXN, 1, 4).unwrap();
    assert_eq!(t.total, 1500);
    assert_eq!(t.items.len(), 1);
    assert_eq!(t.items[0].item_id, 2);
    assert_eq!(total_of(&s, TXN), 1500);
}

#[test]
fn scenario_close_twice() {
    let mut s = open_store();
    s.close_transaction(TXN, 100, 2).unwrap();
    let before = s.get_transaction(TXN).unwrap();
    assert_eq!(s.close_transaction(TXN, 100, 3).unwrap_err(), EngineError::InvalidState);
    let after = s.get_transaction(TXN).unwrap();
    assert_eq!(after.paid_amount, before.paid_amount);
    assert_eq!(after.change_amount, before.change_amount);
    assert_eq!(after.closed_at, before.closed_at);
    assert_eq!(after.updated_at, before.updated_at);
}

#[test]
fn scenario_unknown_item() {
    let cat = catalog_with(&[(1, "A", 500, true)]);
    let mut s = open_store();
    s.add_transaction_item(&cat, TXN, 1, 1, 11, 2).unwrap();
    assert_eq!(s.add_transaction_item(&cat, TXN, 99, 1, 12, 3).unwrap_err(), EngineError::NotFound);
    assert_eq!(total_of(&s, TXN), 500);
    assert_eq!(s.get_transaction(TXN).unwrap().items.len(), 1);
}

#[test]
fn total_tracks_lines_after_each_mutation() {
    let cat = catalog_with(&[(1, "A", 125, true), (2, "B", 990, true), (3, "C", 1, true)]);
    let mut s = open_store();
    let steps: Vec<Box<dyn Fn(&mut Store)>> = vec![
        Box::new(|s| { s.add_transaction_item(&cat, TXN, 1, 4, 1, 2).unwrap(); }),
        Box::new(|s| { s.add_transaction_item(&cat, TXN, 2, 1, 2, 3).unwrap(); }),
        Box::new(|s| { s.update_transaction_item(&cat, TXN, 1, 9, 4).unwrap(); }),
        Box::new(|s| { s.add_transaction_item(&cat, TXN, 3, 7, 3, 5).unwrap(); }),
        Box::new(|s| { s.remove_transaction_item(TXN, 2, 6).unwrap(); }),
        Box::new(|s| { s.update_transaction_item(&cat, TXN, 3, 1, 7).unwrap(); }),
    ];
    for step in steps.iter() {
        step(&mut s);
        let t = s.get_transaction(TXN).unwrap();
        assert_eq!(t.total, line_sum(&t.items));
    }
    assert_eq!(total_of(&s, TXN), 9 * 125 + 1);
}

#[test]
fn insufficient_payment_rejected() {
    let cat = catalog_with(&[(1, "A", 1999, true)]);
    let mut s = open_store();
    s.add_transaction_item(&cat, TXN, 1, 1, 1, 2).unwrap();
    assert_eq!(s.close_transaction(TXN, 1998, 3).unwrap_err(), EngineError::InsufficientPayment);
    let t = s.get_transaction(TXN).unwrap();
    assert_eq!(t.status, Status::Open);
    assert_eq!(t.paid_amount, None);
    let settled = s.close_transaction(TXN, 1999, 4).unwrap();
    assert_eq!(settled.change_amount, 0);
}

#[test]
fn terminal_transactions_reject_every_mutation() {
    let cat = catalog_with(&[(1, "A", 100, true)]);
    for cancel in [false, true] {
        let mut s = open_store();
        s.add_transaction_item(&cat, TXN, 1, 1, 1, 2).unwrap();
        if cancel {
            s.cancel_transaction(TXN, 3).unwrap();
        } else {
            s.close_transaction(TXN, 100, 3).unwrap();
        }
        let before = s.get_transaction(TXN).unwrap();
        assert_eq!(s.add_transaction_item(&cat, TXN, 1, 1, 2, 4).unwrap_err(), EngineError::InvalidState);
        assert_eq!(s.update_transaction_item(&cat, TXN, 1, 5, 4).unwrap_err(), EngineError::InvalidState);
        assert_eq!(s.remove_transaction_item(TXN, 1, 4).unwrap_err(), EngineError::InvalidState);
        assert_eq!(s.update_transaction(TXN, None, 4).unwrap_err(), EngineError::InvalidState);
        assert_eq!(s.close_transaction(TXN, 100, 4).unwrap_err(), EngineError::InvalidState);
        assert_eq!(s.cancel_transaction(TXN, 4).unwrap_err(), EngineError::InvalidState);
        assert_eq!(s.update_transaction_total(TXN, 4).unwrap_err(), EngineError::InvalidState);
        let after = s.get_transaction(TXN).unwrap();
        assert_eq!(after.status, before.status);
        assert_eq!(after.total, before.total);
        assert_eq!(after.items, before.items);
        assert_eq!(after.customer_name, before.customer_name);
        assert_eq!(after.updated_at, before.updated_at);
        assert_eq!(after.paid_amount, before.paid_amount);
    }
}

#[test]
fn cancel_leaves_payment_unset() {
    let mut s = open_store();
    let t = s.cancel_transaction(TXN, 5).unwrap();
    assert_eq!(t.status, Status::Cancelled);
    assert_eq!(t.paid_amount, None);
    assert_eq!(t.change_amount, None);
    assert_eq!(t.closed_at, None);
    assert_eq!(t.updated_at, 5);
}

#[test]
fn out_of_stock_item_rejected() {
    let cat = catalog_with(&[(1, "A", 100, false)]);
    let mut s = open_store();
    for q in [1, 0, -3] {
        assert_eq!(s.add_transaction_item(&cat, TXN, 1, q, 1, 2).unwrap_err(), EngineError::Unavailable);
    }
    let t = s.get_transaction(TXN).unwrap();
    assert!(t.items.is_empty());
    assert_eq!(t.total, 0);
}

#[test]
fn close_then_add_keeps_closed_record() {
    let cat = catalog_with(&[(1, "A", 100, true)]);
    let mut s = open_store();
    s.close_transaction(TXN, 0, 2).unwrap();
    assert_eq!(s.add_transaction_item(&cat, TXN, 1, 1, 1, 3).unwrap_err(), EngineError::InvalidState);
    let t = s.get_transaction(TXN).unwrap();
    assert!(t.items.is_empty());
    assert_eq!(t.status, Status::Closed);
}

#[test]
fn add_then_close_settles_with_line() {
    let cat = catalog_with(&[(1, "A", 100, true)]);
    let mut s = open_store();
    s.add_transaction_item(&cat, TXN, 1, 1, 1, 2).unwrap();
    assert_eq!(s.close_transaction(TXN, 50, 3).unwrap_err(), EngineError::InsufficientPayment);
    let settled = s.close_transaction(TXN, 150, 3).unwrap();
    assert_eq!(settled.transaction.total, 100);
    assert_eq!(settled.change_amount, 50);
}

#[test]
fn unknown_transaction_not_found() {
    let cat = catalog_with(&[(1, "A", 100, true)]);
    let mut s = Store::new();
    assert_eq!(s.add_transaction_item(&cat, 5, 1, 1, 1, 2).unwrap_err(), EngineError::NotFound);
    assert_eq!(s.close_transaction(5, 0, 2).unwrap_err(), EngineError::NotFound);
    assert_eq!(s.cancel_transaction(5, 2).unwrap_err(), EngineError::NotFound);
    assert_eq!(s.get_transaction(5).unwrap_err(), EngineError::NotFound);
}

#[test]
fn non_positive_quantity_rejected() {
    let cat = catalog_with(&[(1, "A", 100, true)]);
    let mut s = open_store();
    assert_eq!(s.add_transaction_item(&cat, TXN, 1, 0, 1, 2).unwrap_err(), EngineError::ValidationError);
    assert_eq!(s.add_transaction_item(&cat, TXN, 1, -1, 1, 2).unwrap_err(), EngineError::ValidationError);
    s.add_transaction_item(&cat, TXN, 1, 2, 1, 2).unwrap();
    assert_eq!(s.update_transaction_item(&cat, TXN, 1, 0, 3).unwrap_err(), EngineError::ValidationError);
    assert_eq!(total_of(&s, TXN), 200);
}

#[test]
fn amount_overflow_rejected() {
    let cat = catalog_with(&[(1, "A", u64::MAX / 2, true)]);
    let mut s = open_store();
    assert_eq!(s.add_transaction_item(&cat, TXN, 1, 3, 1, 2).unwrap_err(), EngineError::ValidationError);
    s.add_transaction_item(&cat, TXN, 1, 2, 1, 2).unwrap();
    assert_eq!(s.add_transaction_item(&cat, TXN, 1, 1, 2, 3).unwrap_err(), EngineError::ValidationError);
    assert_eq!(total_of(&s, TXN), (u64::MAX / 2) * 2);
}

#[test]
fn duplicate_identities_refused() {
    let cat = catalog_with(&[(1, "A", 100, true)]);
    let mut s = open_store();
    assert_eq!(s.create_transaction(TXN, None, 3).unwrap_err(), EngineError::StoreError);
    s.add_transaction_item(&cat, TXN, 1, 1, 9, 2).unwrap();
    s.create_transaction(200, None, 3).unwrap();
    assert_eq!(s.add_transaction_item(&cat, 200, 1, 1, 9, 4).unwrap_err(), EngineError::StoreError);
}

#[test]
fn update_and_remove_need_a_line() {
    let cat = catalog_with(&[(1, "A", 100, true), (2, "B", 100, true), (3, "C", 100, false)]);
    let mut s = open_store();
    s.add_transaction_item(&cat, TXN, 1, 1, 1, 2).unwrap();
    assert_eq!(s.update_transaction_item(&cat, TXN, 2, 1, 3).unwrap_err(), EngineError::NotFound);
    assert_eq!(s.update_transaction_item(&cat, TXN, 3, 1, 3).unwrap_err(), EngineError::Unavailable);
    assert_eq!(s.update_transaction_item(&cat, TXN, 9, 1, 3).unwrap_err(), EngineError::NotFound);
    assert_eq!(s.remove_transaction_item(TXN, 2, 3).unwrap_err(), EngineError::NotFound);
}

#[test]
fn price_is_snapshot_at_write() {
    let mut cat = catalog_with(&[(1, "A", 100, true)]);
    let mut s = open_store();
    s.add_transaction_item(&cat, TXN, 1, 2, 1, 2).unwrap();
    let up = ItemUpdate { name: None, description: None, price: Some(300), category_id: None, sku: None, in_stock: None };
    cat.update_item(1, up, 3).unwrap();
    assert_eq!(total_of(&s, TXN), 200);
    let line = s.update_transaction_item(&cat, TXN, 1, 2, 4).unwrap();
    assert_eq!(line.unit_price, 300);
    assert_eq!(total_of(&s, TXN), 600);
}

#[test]
fn rename_open_transaction() {
    let mut s = open_store();
    let t = s.update_transaction(TXN, Some("Bob".to_string()), 9).unwrap();
    assert_eq!(t.customer_name.as_deref(), Some("Bob"));
    assert_eq!(t.updated_at, 9);
    let t = s.update_transaction(TXN, None, 10).unwrap();
    assert_eq!(t.customer_name, None);
}

#[test]
fn recompute_only_touches_timestamp() {
    let cat = catalog_with(&[(1, "A", 100, true)]);
    let mut s = open_store();
    s.add_transaction_item(&cat, TXN, 1, 3, 1, 2).unwrap();
    s.update_transaction_total(TXN, 7).unwrap();
    s.update_transaction_total(TXN, 8).unwrap();
    let t = s.get_transaction(TXN).unwrap();
    assert_eq!(t.total, 300);
    assert_eq!(t.updated_at, 8);
    assert_eq!(t.items.len(), 1);
}

#[test]
fn listings_newest_first() {
    let mut s = Store::new();
    for id in 1..=4u128 {
        s.create_transaction(id, None, id as i64).unwrap();
    }
    s.close_transaction(2, 0, 9).unwrap();
    s.cancel_transaction(3, 9).unwrap();
    let all: Vec<u128> = s.get_transactions().iter().map(|t| t.id).collect();
    assert_eq!(all, vec![4, 3, 2, 1]);
    let open: Vec<u128> = s.get_open_transactions().iter().map(|t| t.id).collect();
    assert_eq!(open, vec![4, 1]);
}

#[test]
fn details_name_lines_from_catalog() {
    let mut cat = catalog_with(&[(1, "Tea", 250, true), (2, "Cake", 400, true)]);
    let mut s = open_store();
    s.add_transaction_item(&cat, TXN, 1, 2, 1, 2).unwrap();
    s.add_transaction_item(&cat, TXN, 2, 1, 2, 2).unwrap();
    let d = s.transaction_details(&cat, TXN).unwrap();
    assert_eq!(d.items.len(), 2);
    assert_eq!(d.items[0].item_name, "Tea");
    assert_eq!(d.items[1].item_name, "Cake");
    assert_eq!(d.items[1].total_price, 400);
    cat.delete_item(1).unwrap();
    let d = s.transaction_details(&cat, TXN).unwrap();
    assert_eq!(d.items.len(), 1);
    assert_eq!(d.transaction.total, 900);
}

#[test]
fn update_keeps_line_identity_and_creation_time() {
    let cat = catalog_with(&[(1, "A", 100, true), (2, "B", 50, true)]);
    let mut s = open_store();
    s.add_transaction_item(&cat, TXN, 1, 1, 31, 2).unwrap();
    s.add_transaction_item(&cat, TXN, 2, 1, 32, 3).unwrap();
    let line = s.update_transaction_item(&cat, TXN, 1, 4, 9).unwrap();
    assert_eq!(line.id, 31);
    assert_eq!(line.created_at, 2);
    assert_eq!(line.quantity, 4);
    let t = s.get_transaction(TXN).unwrap();
    assert_eq!(t.items[0], line);
    assert_eq!(t.items[1].quantity, 1);
    assert_eq!(t.items[1].created_at, 3);
    assert_eq!(t.updated_at, 9);
    assert_eq!(t.total, 450);
}

#[test]
fn export_and_restore_round_trip() {
    let cat = catalog_with(&[(1, "A", 100, true)]);
    let mut s = open_store();
    s.add_transaction_item(&cat, TXN, 1, 2, 1, 2).unwrap();
    s.create_transaction(200, None, 3).unwrap();
    s.close_transaction(TXN, 500, 4).unwrap();
    let restored = Store::restore(s.export()).unwrap();
    let t = restored.get_transaction(TXN).unwrap();
    assert_eq!(t.total, 200);
    assert_eq!(t.change_amount, Some(300));
    assert_eq!(t.items.len(), 1);
    let ids: Vec<u128> = restored.get_transactions().iter().map(|t| t.id).collect();
    assert_eq!(ids, vec![200, TXN]);
    let (cats, items) = cat.export();
    let again = Catalog::restore(cats, items).unwrap();
    assert_eq!(again.get_item(1).unwrap().price, 100);
}

#[test]
fn restore_rejects_inconsistent_records() {
    let cat = catalog_with(&[(1, "A", 100, true)]);
    let mut s = open_store();
    s.add_transaction_item(&cat, TXN, 1, 2, 1, 2).unwrap();
    let mut records = s.export();
    records[0].total = 150;
    assert!(!rustpos::model::is_well_formed(&records[0]));
    assert_eq!(Store::restore(records).err(), Some(EngineError::ValidationError));
    let mut records = s.export();
    records[0].paid_amount = Some(200);
    assert_eq!(Store::restore(records).err(), Some(EngineError::ValidationError));
    let mut records = s.export();
    records.extend(s.export());
    assert_eq!(Store::restore(records).err(), Some(EngineError::ValidationError));
    let (mut cats, items) = cat.export();
    cats.extend(cat.export().0);
    assert_eq!(Catalog::restore(cats, items).err(), Some(EngineError::ValidationError));
}
