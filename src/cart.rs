//! Decisions of a sale screen's quantity buttons: from the quantity already
//! on a transaction's line for an item, which single engine call keeps one
//! line per item with the intended quantity.
use vstd::prelude::*;
use crate::model::EngineError;

verus! {

/// The engine call a quantity change turns into.
#[derive(Clone, Copy, Debug, PartialEq, Eq, Structural)]
pub enum CartAction {
    /// Add a new line with this quantity.
    Add(i32),
    /// Set the existing line to this quantity.
    Update(i32),
    /// Remove the existing line.
    Remove,
    /// Leave the transaction as it is.
    Nothing,
}

/// The call for changing an item's quantity by `delta`, where `existing` is
/// the quantity of its line if the transaction has one.  A resulting
/// quantity of zero or less removes the line.
pub open spec fn add_plan(existing: Option<i32>, delta: i32) -> Result<CartAction, EngineError> {
    let current: int = match existing {
        Some(q) => q as int,
        None => 0,
    };
    let wanted = current + delta;
    if wanted < i32::MIN || wanted > i32::MAX {
        Err(EngineError::ValidationError)
    } else if wanted <= 0 {
        Ok(
            match existing {
                Some(_) => CartAction::Remove,
                None => CartAction::Nothing,
            },
        )
    } else {
        Ok(
            match existing {
                Some(_) => CartAction::Update(wanted as i32),
                None => CartAction::Add(wanted as i32),
            },
        )
    }
}

/// The call for taking one unit of an item off: a line of more than one
/// unit loses one, a line of one unit is removed, and otherwise nothing
/// changes.
pub open spec fn remove_plan(existing: Option<i32>) -> CartAction {
    match existing {
        Some(q) => if q > 1 {
            CartAction::Update((q - 1) as i32)
        } else if q == 1 {
            CartAction::Remove
        } else {
            CartAction::Nothing
        },
        None => CartAction::Nothing,
    }
}

/// Decides the call for changing an item's quantity by `delta`.
pub fn plan_add_item(existing: Option<i32>, delta: i32) -> (r: Result<CartAction, EngineError>)
    ensures
        r == add_plan(existing, delta),
{
    let current: i32 = match existing {
        Some(q) => q,
        None => 0,
    };
    let wanted = match current.checked_add(delta) {
        Some(w) => w,
        None => return Err(EngineError::ValidationError),
    };
    if wanted <= 0 {
        match existing {
            Some(_) => Ok(CartAction::Remove),
            None => Ok(CartAction::Nothing),
        }
    } else {
        match existing {
            Some(_) => Ok(CartAction::Update(wanted)),
            None => Ok(CartAction::Add(wanted)),
        }
    }
}

/// Decides the call for taking one unit of an item off.
pub fn plan_remove_item(existing: Option<i32>) -> (r: CartAction)
    ensures
        r == remove_plan(existing),
{
    match existing {
        Some(q) => if q > 1 {
            CartAction::Update(q - 1)
        } else if q == 1 {
            CartAction::Remove
        } else {
            CartAction::Nothing
        },
        None => CartAction::Nothing,
    }
}

} // verus!
