use vstd::prelude::*;

use crate::error::{DatabaseError, ModelResult};

verus! {

/// A request to buy coins.
pub struct PurchaseCoinsRequest {
    pub coins: i32,
    pub payment_reference: Option<String>,
}

impl PurchaseCoinsRequest {
    /// The number of coins to credit: a purchase must be of a positive number
    /// of coins.
    pub fn coins_to_credit(&self) -> (res: ModelResult<i32>)
        ensures
            res is Ok <==> self.coins > 0,
            res matches Ok(c) ==> c == self.coins,
            res matches Err(e) ==> e matches DatabaseError::InvalidInput(m) && m
                == "coins must be greater than zero",
    {
        if self.coins <= 0 {
            return Err(DatabaseError::InvalidInput("coins must be greater than zero"));
        }
        Ok(self.coins)
    }
}

} // verus!
