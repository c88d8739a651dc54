use rustpos::catalog::Catalog;
use rustpos::model::EngineError;
use rustpos::receipt::{
    format_amount, format_digits, format_item_line, receipt_commands, Alignment, ReceiptCommand, ReceiptLine,
};
use rustpos::store::Store;

fn texts(cmds: &[ReceiptCommand]) -> Vec<String> {
    cmds.iter()
        .filter_map(|c| match c {
            ReceiptCommand::Text(t) => Some(t.clone()),
            _ => None,
        })
        .collect()
}

#[test]
fn amounts_in_cents_render_with_two_decimals() {
    assert_eq!(format_amount(0), "0.00");
    assert_eq!(format_amount(5), "0.05");
    assert_eq!(format_amount(1250), "12.50");
    assert_eq!(format_amount(100000), "1000.00");
    assert_eq!(format_amount(u64::MAX), "184467440737095516.15");
    assert_eq!(format_digits(0), "0");
    assert_eq!(format_digits(907), "907");
}

#[test]
fn item_line_matches_column_layout() {
    assert_eq!(format_item_line("Tea", 3, 250), "Tea                   3 x      2.50         7.50\n");
    assert_eq!(format_item_line("Coffee", 2, 1250), format!("{:<20} {:>2} x {:>9.2} {:>12.2}\n", "Coffee", 2, 12.5, 25.0));
    let long = "A very long item name indeed";
    assert_eq!(format_item_line(long, 123, 7), format!("{:<20} {:>2} x {:>9.2} {:>12.2}\n", long, 123, 0.07, 8.61));
    assert_eq!(format_item_line("Café", 1, 99), format!("{:<20} {:>2} x {:>9.2} {:>12.2}\n", "Café", 1, 0.99, 0.99));
}

#[test]
fn receipt_has_header_lines_and_footer() {
    let items = vec![
        ReceiptLine { name: "Coffee".to_string(), quantity: 2, unit_price: 1250 },
        ReceiptLine { name: "Cake".to_string(), quantity: 1, unit_price: 400 },
    ];
    let cmds = receipt_commands(&items, 5000, 2100);
    let rule = format!("{}\n", "-".repeat(48));
    assert!(matches!(cmds[0], ReceiptCommand::Init));
    assert!(matches!(cmds[1], ReceiptCommand::Align(Alignment::Center)));
    assert!(matches!(cmds[2], ReceiptCommand::LineSpacing(1)));
    assert!(matches!(cmds[5], ReceiptCommand::Align(Alignment::Left)));
    assert!(matches!(cmds[cmds.len() - 1], ReceiptCommand::Cut));
    assert!(matches!(cmds[cmds.len() - 2], ReceiptCommand::Feed(6)));
    assert_eq!(cmds.len(), 6 + 2 + 12);
    assert_eq!(
        texts(&cmds),
        vec![
            "RECEIPT\n".to_string(),
            rule.clone(),
            format!("{:<20} {:>2} x {:>9.2} {:>12.2}\n", "Coffee", 2, 12.5, 25.0),
            format!("{:<20} {:>2} x {:>9.2} {:>12.2}\n", "Cake", 1, 4.0, 4.0),
            rule.clone(),
            format!("TOTAL: {:>35.2}\n", 29.0),
            rule,
            "Paid: 50.00\n".to_string(),
            "Change: 21.00\n".to_string(),
        ]
    );
}

#[test]
fn store_receipt_only_for_closed() {
    let mut cat = Catalog::new();
    cat.create_category(1, "Food".to_string(), None, 0).unwrap();
    cat.create_item(5, "Bagel".to_string(), None, 325, 1, None, None, 0).unwrap();
    let mut s = Store::new();
    s.create_transaction(1, None, 0).unwrap();
    s.add_transaction_item(&cat, 1, 5, 3, 1, 1).unwrap();
    assert_eq!(s.receipt(&cat, 1).unwrap_err(), EngineError::InvalidState);
    assert_eq!(s.receipt(&cat, 2).unwrap_err(), EngineError::NotFound);
    let settled = s.close_transaction(1, 1000, 2).unwrap();
    let cmds = s.receipt(&cat, 1).unwrap();
    let t = texts(&cmds);
    assert_eq!(t[2], format!("{:<20} {:>2} x {:>9.2} {:>12.2}\n", "Bagel", 3, 3.25, 9.75));
    assert_eq!(t[4], format!("TOTAL: {:>35.2}\n", 9.75));
    assert_eq!(t[6], "Paid: 10.00\n");
    assert_eq!(t[7], "Change: 0.25\n");
    let again = s.get_transaction(1).unwrap();
    assert_eq!(again.change_amount, Some(settled.change_amount));
    assert_eq!(again.total, settled.transaction.total);
}
