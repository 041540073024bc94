//! Tests of the small demonstration types: guesses, coins, rectangles,
//! the restaurant front, and the generic largest-element search.

use employee_directory::basics::{
    build_user, calculate_length, change, five, gives_ownership, no_dangle, plus_one,
};
use employee_directory::coins::{Coin, UsState};
use employee_directory::generics::{largest, largest_char, largest_number};
use employee_directory::guessing_game::Guess;
use employee_directory::rectangle::{area, Rectangle};
use employee_directory::coins::plus_one as option_plus_one;
use employee_directory::restaurant::{eat_at_restraunt, fix_incorrect_order, Breakfast};

#[test]
fn five_and_plus_one() {
    assert_eq!(five(), 5);
    assert_eq!(plus_one(8), 9);
}

#[test]
fn ownership_helpers() {
    assert_eq!(gives_ownership(), "Hello");
    assert_eq!(no_dangle(), "Hello");
    let s = String::from("Maverick");
    assert_eq!(calculate_length(&s), 8);
    let mut hello = String::from("Hello");
    change(&mut hello);
    assert_eq!(hello, "Hello, World");
}

#[test]
fn build_user_fills_defaults() {
    let user = build_user("user2".to_string(), "user2@x.com".to_string());
    assert_eq!(user.username, "user2");
    assert_eq!(user.email, "user2@x.com");
    assert!(user.active);
    assert_eq!(user.sign_in_count, 1);
}

#[test]
fn guess_round_trip() {
    assert_eq!(Guess::new(50).value(), 50);
    assert_eq!(Guess::new(1).value(), 1);
    assert_eq!(Guess::new(100).value(), 100);
}

#[test]
fn coin_values() {
    assert_eq!(Coin::Penny.value_in_cents(), 1);
    assert_eq!(Coin::Nickel.value_in_cents(), 5);
    assert_eq!(Coin::Dime.value_in_cents(), 10);
    assert_eq!(Coin::Quarter(UsState::Atlanta).value_in_cents(), 25);
}

#[test]
fn state_quarter_description() {
    let coin = Coin::Quarter(UsState::Atlanta);
    assert_eq!(
        coin.describe_state_quarter(),
        Some("Atlanta is pretty old for America".to_string())
    );
    assert_eq!(Coin::Penny.describe_state_quarter(), None);
    assert_eq!(
        Coin::Quarter(UsState::Albama).describe_state_quarter_using_let_else(),
        Some("Albama is pretty new for America".to_string())
    );
    assert_eq!(Coin::Dime.describe_state_quarter_using_let_else(), None);
}

#[test]
fn optional_plus_one() {
    assert_eq!(option_plus_one(Some(5)), Some(6));
    assert_eq!(option_plus_one(None), None);
}

#[test]
fn states_existed_in() {
    assert!(UsState::Alaska.existed_in(1900));
    assert!(!UsState::Albama.existed_in(1900));
    assert!(UsState::Atlanta.existed_in(1900));
}

#[test]
fn rectangle_operations() {
    let rect1 = Rectangle { width: 30, height: 30 };
    assert_eq!(rect1.area(), 900);
    assert_eq!(area(&rect1), 900);
    let mut rect2 = Rectangle { width: 10, height: 10 };
    rect2.double_the_width();
    assert_eq!(rect2, Rectangle { width: 20, height: 10 });
    assert!(rect2.width());
    assert!(rect1.can_hold(&rect2));
    assert!(!rect2.can_hold(&rect1));
    let sqr = Rectangle::square(3);
    assert_eq!(sqr.area(), 9);
}

#[test]
fn breakfast_toast_can_change() {
    let mut meal = Breakfast::summer("Rye");
    assert_eq!(meal.toast, "Rye");
    meal.toast = String::from("Wheat");
    assert_eq!(meal.toast, "Wheat");
}

#[test]
fn restaurant_flow_runs() {
    eat_at_restraunt();
    fix_incorrect_order();
}

#[test]
fn largest_of_each_kind() {
    let num_list = [1, 12, 3, 4];
    assert_eq!(*largest_number(&num_list), 12);
    let char_list = ['a', 'z', 'b', 'd'];
    assert_eq!(*largest_char(&char_list), 'z');
    assert_eq!(*largest(&num_list), 12);
    assert_eq!(*largest(&char_list), 'z');
}
