use vstd::prelude::*;

use crate::error::OrderError;

verus! {

/// Where an item sits: the scope that orders it and that scope's top-level
/// owner (a card's column and board).
#[derive(Debug)]
pub struct Placement {
    pub scope: String,
    pub owner: String,
}

/// Checks that an item's stored parent is the one the caller named. `actual`
/// is the stored parent, `None` when the item does not exist.
pub fn check_belongs(actual: Option<String>, expected: &String) -> (r: Result<(), OrderError>)
    ensures
        match actual {
            None => r == Err::<(), OrderError>(OrderError::NotFound),
            Some(p) => if p@ == expected@ {
                r is Ok
            } else {
                r == Err::<(), OrderError>(OrderError::OwnershipViolation)
            },
        },
{
    match actual {
        None => Err(OrderError::NotFound),
        Some(p) => {
            if p == *expected {
                Ok(())
            } else {
                Err(OrderError::OwnershipViolation)
            }
        },
    }
}

/// Checks a move request before any order changes. `item` is where the item
/// sits, `None` when it does not exist; `owner` and `source` are the owner and
/// scope the caller named; `dest_owner` is the owner of scope `dest`, `None`
/// when that scope does not exist. The item must sit in `source` under
/// `owner`; a different `dest` must exist under the same owner.
pub fn check_move(
    item: Option<Placement>,
    owner: &String,
    source: &String,
    dest: &String,
    dest_owner: Option<String>,
) -> (r: Result<(), OrderError>)
    ensures
        match item {
            None => r == Err::<(), OrderError>(OrderError::NotFound),
            Some(p) => if p.owner@ != owner@ || p.scope@ != source@ {
                r == Err::<(), OrderError>(OrderError::OwnershipViolation)
            } else if dest@ == source@ {
                r is Ok
            } else {
                match dest_owner {
                    None => r == Err::<(), OrderError>(OrderError::NotFound),
                    Some(o) => if o@ == owner@ {
                        r is Ok
                    } else {
                        r == Err::<(), OrderError>(OrderError::ScopeMismatch)
                    },
                }
            },
        },
{
    match item {
        None => Err(OrderError::NotFound),
        Some(p) => {
            if !(p.owner == *owner) || !(p.scope == *source) {
                return Err(OrderError::OwnershipViolation);
            }
            if *dest == *source {
                return Ok(());
            }
            match dest_owner {
                None => Err(OrderError::NotFound),
                Some(o) => {
                    if o == *owner {
                        Ok(())
                    } else {
                        Err(OrderError::ScopeMismatch)
                    }
                },
            }
        },
    }
}

/// Accepts the card priorities `none`, `low`, `medium` and `high`.
pub fn validate_priority(priority: &str) -> (r: Result<(), String>)
    ensures
        r is Ok <==> (priority@ == "none"@ || priority@ == "low"@ || priority@ == "medium"@
            || priority@ == "high"@),
{
    let p = priority.to_owned();
    if p == "none".to_owned() || p == "low".to_owned() || p == "medium".to_owned() || p
        == "high".to_owned() {
        Ok(())
    } else {
        Err("Prioridade inválida. Utilize 'none', 'low', 'medium' ou 'high'.".to_owned())
    }
}

} // verus!
