//! The expense record and its validation.

use crate::amount::{decimal_text, Amount, Decimal};
use crate::date::Date;
use crate::text::{pad_right, padded_right};
use vstd::prelude::*;

verus! {

/// Why a record was refused.
#[derive(Clone, Copy, PartialEq, Eq, Debug, Structural)]
pub enum ValidationError {
    /// The amount is below zero.
    NegativeAmount,
}

impl ValidationError {
    /// The message shown to the user.
    pub fn message(&self) -> (s: String)
        ensures
            s@ == "Amount must be positive"@,
    {
        "Amount must be positive".to_owned()
    }
}

/// One expense. A record without an `id` is a draft that no store holds yet.
#[derive(Debug)]
pub struct Expense {
    pub id: Option<i64>,
    pub date: String,
    pub name: String,
    pub category: String,
    pub amount: Amount,
}

/// An expense as mathematics sees it.
pub struct ExpenseView {
    pub id: Option<i64>,
    pub date: Seq<char>,
    pub name: Seq<char>,
    pub category: Seq<char>,
    pub amount: Decimal,
}

impl ExpenseView {
    /// The same record under another identity.
    pub open spec fn with_id(self, id: Option<i64>) -> ExpenseView {
        ExpenseView { id, ..self }
    }

    /// What the record says, its identity left aside.
    pub open spec fn fields(self) -> (Seq<char>, Seq<char>, Seq<char>, Decimal) {
        (self.date, self.name, self.category, self.amount)
    }

    /// Whether a store accepts the record: its amount is not below zero.
    pub open spec fn valid(self) -> bool {
        !self.amount.is_negative()
    }

    /// Whether the record leaves no text empty. A store does not ask for
    /// this; a front end may, before it hands a draft over.
    pub open spec fn complete(self) -> bool {
        self.date.len() > 0 && self.name.len() > 0 && self.category.len() > 0
    }
}

impl View for Expense {
    type V = ExpenseView;

    open spec fn view(&self) -> ExpenseView {
        ExpenseView {
            id: self.id,
            date: self.date@,
            name: self.name@,
            category: self.category@,
            amount: self.amount@,
        }
    }
}

/// The records of a list as mathematics sees them.
pub open spec fn views(s: Seq<Expense>) -> Seq<ExpenseView> {
    s.map_values(|e: Expense| e@)
}

impl Clone for Expense {
    fn clone(&self) -> (r: Self)
        ensures
            r@ == self@,
    {
        Expense {
            id: self.id,
            date: self.date.clone(),
            name: self.name.clone(),
            category: self.category.clone(),
            amount: self.amount,
        }
    }
}

impl Expense {
    /// A draft record for the given day. Refused with `NegativeAmount`
    /// exactly when `amount` is below zero; the texts may be empty.
    pub fn new(date: Date, name: &str, category: &str, amount: Amount) -> (r: Result<
        Expense,
        ValidationError,
    >)
        ensures
            match r {
                Ok(e) => !amount@.is_negative() && e@ == (ExpenseView {
                    id: None,
                    date: date@.iso_text(),
                    name: name@,
                    category: category@,
                    amount: amount@,
                }),
                Err(e) => amount@.is_negative() && e == ValidationError::NegativeAmount,
            },
    {
        if amount.is_negative() {
            return Err(ValidationError::NegativeAmount);
        }
        Ok(
            Expense {
                id: None,
                date: date.to_iso_string(),
                name: name.to_owned(),
                category: category.to_owned(),
                amount,
            },
        )
    }

    /// Whether a store accepts the record.
    pub fn is_valid(&self) -> (r: bool)
        ensures
            r == self@.valid(),
    {
        !self.amount.is_negative()
    }

    /// The record as a row of the list: date, name, category and amount,
    /// with spaces behind them up to 12, 20, 15 and 15 characters.
    pub fn columns(&self) -> (r: (String, String, String, String))
        ensures
            r.0@ == padded_right(self@.date, 12),
            r.1@ == padded_right(self@.name, 20),
            r.2@ == padded_right(self@.category, 15),
            r.3@ == padded_right(decimal_text(self@.amount), 15),
    {
        let amount = self.amount.to_text();
        (
            pad_right(self.date.as_str(), 12),
            pad_right(self.name.as_str(), 20),
            pad_right(self.category.as_str(), 15),
            pad_right(amount.as_str(), 15),
        )
    }

    /// Whether the record leaves no text empty.
    pub fn is_complete(&self) -> (r: bool)
        ensures
            r == self@.complete(),
    {
        !self.date.as_str().is_empty() && !self.name.as_str().is_empty()
            && !self.category.as_str().is_empty()
    }
}

} // verus!
