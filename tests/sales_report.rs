use rustpos::catalog::Catalog;
use rustpos::model::EngineError;
use rustpos::report::{generate_sales_report, get_daily_report, get_monthly_report, DAY_MILLIS};
use rustpos::store::Store;

fn catalog() -> Catalog {
    let mut c = Catalog::new();
    c.create_category(1, "Drinks".to_string(), None, 0).unwrap();
    c.create_category(2, "Food".to_string(), None, 0).unwrap();
    c.create_item(10, "Tea".to_string(), None, 200, 1, None, None, 0).unwrap();
    c.create_item(11, "Cake".to_string(), None, 500, 2, None, None, 0).unwrap();
    c.create_item(12, "Soup".to_string(), None, 300, 2, None, None, 0).unwrap();
    c
}

fn sale(s: &mut Store, c: &Catalog, id: u128, lines: &[(u128, i32)], closed_at: Option<i64>) {
    s.create_transaction(id, None, 0).unwrap();
    for (k, (item, q)) in lines.iter().enumerate() {
        s.add_transaction_item(c, id, *item, *q, id * 100 + k as u128, 1).unwrap();
    }
    if let Some(at) = closed_at {
        let total = s.get_transaction(id).unwrap().total;
        s.close_transaction(id, total, at).unwrap();
    }
}

#[test]
fn report_aggregates_closed_sales_in_window() {
    let c = catalog();
    let mut s = Store::new();
    sale(&mut s, &c, 1, &[(10, 3), (11, 1)], Some(100));
    sale(&mut s, &c, 2, &[(10, 1), (12, 2)], Some(150));
    sale(&mut s, &c, 3, &[(11, 9)], Some(200));
    sale(&mut s, &c, 4, &[(11, 9)], None);
    sale(&mut s, &c, 5, &[], Some(120));
    let r = generate_sales_report(&s, &c, 100, 200).unwrap();
    assert_eq!(r.start_date, 100);
    assert_eq!(r.end_date, 200);
    let rows: Vec<(u128, u128, u128, u128)> =
        r.items.iter().map(|i| (i.item_id, i.quantity_sold, i.total_revenue, i.transaction_count)).collect();
    assert_eq!(rows, vec![(10, 4, 800, 2), (12, 2, 600, 1), (11, 1, 500, 1)]);
    assert_eq!(r.items[0].item_name, "Tea");
    assert_eq!(r.items[0].category_name, "Drinks");
    assert_eq!(r.items[0].average_price, 200);
    assert_eq!(r.summary.total_revenue, 1900);
    assert_eq!(r.summary.total_items_sold, 7);
    assert_eq!(r.summary.total_transactions, 3);
    assert_eq!(r.summary.average_transaction_value, 633);
    assert_eq!(r.summary.top_selling_item.as_deref(), Some("Tea"));
    assert_eq!(r.summary.top_revenue_item.as_deref(), Some("Tea"));
}

#[test]
fn report_ties_keep_first_sold() {
    let c = catalog();
    let mut s = Store::new();
    sale(&mut s, &c, 1, &[(12, 5), (11, 3)], Some(10));
    let r = generate_sales_report(&s, &c, 0, 20).unwrap();
    let ids: Vec<u128> = r.items.iter().map(|i| i.item_id).collect();
    assert_eq!(ids, vec![12, 11]);
    assert_eq!(r.items[0].total_revenue, r.items[1].total_revenue);
    assert_eq!(r.summary.top_revenue_item.as_deref(), Some("Soup"));
    assert_eq!(r.summary.top_selling_item.as_deref(), Some("Soup"));
    let mut s = Store::new();
    sale(&mut s, &c, 1, &[(12, 5), (11, 3)], Some(10));
    sale(&mut s, &c, 2, &[(11, 2)], Some(11));
    let r = generate_sales_report(&s, &c, 0, 20).unwrap();
    assert_eq!(r.items[0].item_id, 11);
    assert_eq!(r.items[0].quantity_sold, 5);
    assert_eq!(r.items[1].quantity_sold, 5);
    assert_eq!(r.summary.top_selling_item.as_deref(), Some("Cake"));
}

#[test]
fn report_counts_a_transaction_once_per_item() {
    let c = catalog();
    let mut s = Store::new();
    sale(&mut s, &c, 1, &[(10, 1), (10, 2)], Some(10));
    let r = generate_sales_report(&s, &c, 0, 20).unwrap();
    assert_eq!(r.items.len(), 1);
    assert_eq!(r.items[0].transaction_count, 1);
    assert_eq!(r.items[0].quantity_sold, 3);
}

#[test]
fn empty_window_rejected() {
    let c = catalog();
    let s = Store::new();
    assert_eq!(generate_sales_report(&s, &c, 10, 10).unwrap_err(), EngineError::ValidationError);
    assert_eq!(generate_sales_report(&s, &c, 10, 5).unwrap_err(), EngineError::ValidationError);
    let r = generate_sales_report(&s, &c, 0, 5).unwrap();
    assert!(r.items.is_empty());
    assert_eq!(r.summary.total_transactions, 0);
    assert_eq!(r.summary.average_transaction_value, 0);
    assert_eq!(r.summary.top_selling_item, None);
}

#[test]
fn daily_and_monthly_windows_end_now() {
    let c = catalog();
    let mut s = Store::new();
    let now: i64 = 40 * DAY_MILLIS;
    sale(&mut s, &c, 1, &[(10, 1)], Some(now - 1));
    sale(&mut s, &c, 2, &[(11, 1)], Some(now - 2 * DAY_MILLIS));
    sale(&mut s, &c, 3, &[(12, 1)], Some(now));
    let d = get_daily_report(&s, &c, now).unwrap();
    assert_eq!(d.end_date, now);
    assert_eq!(d.start_date, now - DAY_MILLIS);
    assert_eq!(d.summary.total_revenue, 200);
    let m = get_monthly_report(&s, &c, now).unwrap();
    assert_eq!(m.start_date, now - 30 * DAY_MILLIS);
    assert_eq!(m.summary.total_revenue, 700);
    assert_eq!(m.summary.total_transactions, 2);
    assert_eq!(get_daily_report(&s, &c, i64::MIN + 5).unwrap_err(), EngineError::ValidationError);
}

#[test]
fn report_keeps_sales_of_deleted_items() {
    let mut c = catalog();
    let mut s = Store::new();
    sale(&mut s, &c, 1, &[(10, 2), (11, 1)], Some(10));
    c.delete_item(10).unwrap();
    c.delete_category(2).unwrap();
    let r = generate_sales_report(&s, &c, 0, 20).unwrap();
    assert_eq!(r.items.len(), 2);
    assert_eq!(r.items[0].item_id, 11);
    assert_eq!(r.items[0].item_name, "Cake");
    assert_eq!(r.items[0].category_name, "");
    assert_eq!(r.items[1].item_id, 10);
    assert_eq!(r.items[1].item_name, "");
    assert_eq!(r.items[1].total_revenue, 400);
    assert_eq!(r.summary.total_revenue, 900);
    assert_eq!(r.summary.total_items_sold, 3);
}
