//! A little restaurant front: a waitlist, order flow, and a breakfast
//! with a private seasonal fruit that only the constructor can set.

use vstd::prelude::*;

verus! {

/// Adds a party to the waitlist. Nothing is recorded yet.
pub fn add_to_waitlist() {
}

/// Eating here starts with joining the waitlist.
pub fn eat_at_restraunt() {
    add_to_waitlist()
}

/// Hands a finished order over.
pub fn deliver_order() {
}

/// Cooks an order.
pub fn cook_order() {
}

/// A wrong order is cooked again and delivered again.
pub fn fix_incorrect_order() {
    cook_order();
    deliver_order()
}

/// A breakfast: the toast can be chosen and changed, the seasonal
/// fruit is the kitchen's pick and stays private.
pub struct Breakfast {
    pub toast: String,
    seasonal_fruit: String,
}

impl Breakfast {
    /// The seasonal fruit, visible to specifications only.
    pub closed spec fn fruit(&self) -> Seq<char> {
        self.seasonal_fruit@
    }

    /// The toast, as specifications see it.
    pub closed spec fn toast_view(&self) -> Seq<char> {
        self.toast@
    }

    /// The summer breakfast: the chosen toast with mangoes.
    pub fn summer(toast: &str) -> (b: Breakfast)
        ensures
            b.toast_view() == toast@,
            b.fruit() == "Mangoes"@,
    {
        Breakfast {
            toast: String::from_str(toast),
            seasonal_fruit: String::from_str("Mangoes"),
        }
    }
}

/// The appetizers on offer.
#[derive(Debug, Clone, Copy, PartialEq, Eq)]
pub enum Appetizer {
    Soup,
    Salad,
}

} // verus!
