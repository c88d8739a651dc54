use rustpos::cart::{plan_add_item, plan_remove_item, CartAction};
use rustpos::model::EngineError;

#[test]
fn adding_to_an_absent_line_creates_it() {
    assert_eq!(plan_add_item(None, 1), Ok(CartAction::Add(1)));
    assert_eq!(plan_add_item(None, 3), Ok(CartAction::Add(3)));
    assert_eq!(plan_add_item(None, 0), Ok(CartAction::Nothing));
    assert_eq!(plan_add_item(None, -2), Ok(CartAction::Nothing));
}

#[test]
fn adding_to_an_existing_line_updates_or_removes_it() {
    assert_eq!(plan_add_item(Some(2), 1), Ok(CartAction::Update(3)));
    assert_eq!(plan_add_item(Some(2), -1), Ok(CartAction::Update(1)));
    assert_eq!(plan_add_item(Some(2), -2), Ok(CartAction::Remove));
    assert_eq!(plan_add_item(Some(2), -5), Ok(CartAction::Remove));
    assert_eq!(plan_add_item(Some(i32::MAX), 1), Err(EngineError::ValidationError));
}

#[test]
fn taking_one_off() {
    assert_eq!(plan_remove_item(Some(3)), CartAction::Update(2));
    assert_eq!(plan_remove_item(Some(1)), CartAction::Remove);
    assert_eq!(plan_remove_item(Some(0)), CartAction::Nothing);
    assert_eq!(plan_remove_item(None), CartAction::Nothing);
}
