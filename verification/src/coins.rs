//! Coins and the states on their quarters: face values, statehood
//! years, and a short description of a state quarter.

use vstd::prelude::*;

verus! {

/// A state that may appear on a quarter.
#[derive(Debug, Clone, Copy, PartialEq, Eq)]
pub enum UsState {
    Albama,
    Alaska,
    Atlanta,
}

impl UsState {
    /// Whether the state existed in the given year.
    pub open spec fn spec_existed_in(self, year: u16) -> bool {
        match self {
            UsState::Alaska => year >= 1819,
            UsState::Albama => year >= 1959,
            UsState::Atlanta => year >= 1845,
        }
    }

    /// Decides [`UsState::spec_existed_in`].
    pub fn existed_in(&self, year: u16) -> (r: bool)
        ensures
            r == self.spec_existed_in(year),
    {
        match self {
            UsState::Alaska => year >= 1819,
            UsState::Albama => year >= 1959,
            UsState::Atlanta => year >= 1845,
        }
    }

    /// The state's name.
    pub open spec fn spec_name(self) -> Seq<char> {
        match self {
            UsState::Albama => "Albama"@,
            UsState::Alaska => "Alaska"@,
            UsState::Atlanta => "Atlanta"@,
        }
    }

    /// Returns the state's name as text.
    pub fn name(&self) -> (r: String)
        ensures
            r@ == self.spec_name(),
    {
        match self {
            UsState::Albama => String::from_str("Albama"),
            UsState::Alaska => String::from_str("Alaska"),
            UsState::Atlanta => String::from_str("Atlanta"),
        }
    }
}

/// A coin; a quarter carries the state it celebrates.
#[derive(Debug, Clone, Copy, PartialEq, Eq)]
pub enum Coin {
    Penny,
    Nickel,
    Dime,
    Quarter(UsState),
}

impl Coin {
    /// The coin's face value in cents.
    pub open spec fn spec_value_in_cents(self) -> u8 {
        match self {
            Coin::Penny => 1,
            Coin::Nickel => 5,
            Coin::Dime => 10,
            Coin::Quarter(_) => 25,
        }
    }

    /// Returns the coin's face value in cents.
    pub fn value_in_cents(&self) -> (r: u8)
        ensures
            r == self.spec_value_in_cents(),
    {
        match self {
            Coin::Penny => 1,
            Coin::Nickel => 5,
            Coin::Dime => 10,
            Coin::Quarter(_) => 25,
        }
    }

    /// The description a state quarter earns: old for America if the
    /// state existed in 1900, new otherwise. Other coins earn none.
    pub open spec fn spec_describe(self) -> Option<Seq<char>> {
        match self {
            Coin::Quarter(state) => Some(
                state.spec_name() + if state.spec_existed_in(1900) {
                    " is pretty old for America"@
                } else {
                    " is pretty new for America"@
                },
            ),
            _ => None,
        }
    }

    /// Describes a state quarter; any other coin yields nothing.
    pub fn describe_state_quarter(&self) -> (r: Option<String>)
        ensures
            match r {
                Some(s) => self.spec_describe() == Some(s@),
                None => self.spec_describe() is None,
            },
    {
        let state = if let Coin::Quarter(state) = self {
            state
        } else {
            return None;
        };
        let mut s = state.name();
        if state.existed_in(1900) {
            s.append(" is pretty old for America");
        } else {
            s.append(" is pretty new for America");
        }
        Some(s)
    }

    /// Describes a state quarter, binding the state with a let-else.
    pub fn describe_state_quarter_using_let_else(&self) -> (r: Option<String>)
        ensures
            match r {
                Some(s) => self.spec_describe() == Some(s@),
                None => self.spec_describe() is None,
            },
    {
        let Coin::Quarter(state) = self else {
            return None;
        };
        let mut s = state.name();
        if state.existed_in(1900) {
            s.append(" is pretty old for America");
        } else {
            s.append(" is pretty new for America");
        }
        Some(s)
    }
}

/// The successor of an optional number: `None` stays `None`.
pub fn plus_one(x: Option<i32>) -> (r: Option<i32>)
    requires
        x matches Some(v) ==> v < i32::MAX,
    ensures
        match x {
            None => r is None,
            Some(v) => r matches Some(w) && w == v + 1,
        },
{
    match x {
        None => None,
        Some(v) => Some(v + 1),
    }
}

} // verus!
