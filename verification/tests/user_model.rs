use decl_parser::utils::format_name;
use decl_parser::{create_user, Status, User, Validate};

#[test]
fn test_user_creation() {
    let user = create_user("John Doe", "john@example.com");
    assert!(user.is_ok());
}

#[test]
fn created_user_keeps_its_name() {
    let user = create_user("John Doe", "john@example.com").unwrap();
    assert_eq!(user.get_name(), "John Doe");
    assert!(user.is_valid());
}

#[test]
fn empty_name_is_refused() {
    let refused = create_user("", "john@example.com");
    assert_eq!(refused.unwrap_err(), "Name cannot be empty");
}

#[test]
fn empty_name_is_refused_before_the_address_is_looked_at() {
    let refused = create_user("", "nowhere");
    assert_eq!(refused.unwrap_err(), "Name cannot be empty");
}

#[test]
fn address_without_at_is_refused() {
    let refused = create_user("John Doe", "john.example.com");
    assert_eq!(refused.unwrap_err(), "Invalid user data");
}

#[test]
fn empty_address_is_refused() {
    let refused = create_user("John Doe", "");
    assert_eq!(refused.unwrap_err(), "Invalid user data");
}

#[test]
fn a_lone_at_is_address_enough() {
    assert!(create_user("J", "@").is_ok());
}

#[test]
fn new_user_is_valid_by_name_and_address() {
    let good = User::new(7, "Ann".to_string(), "ann@example.com".to_string());
    assert!(good.is_valid());
    assert_eq!(good.get_name(), "Ann");
    let nameless = User::new(8, String::new(), "ann@example.com".to_string());
    assert!(!nameless.is_valid());
    assert_eq!(nameless.get_name(), "");
    let unreachable = User::new(9, "Ann".to_string(), "ann".to_string());
    assert!(!unreachable.is_valid());
}

#[test]
fn status_has_three_states() {
    let all = [Status::Active, Status::Inactive, Status::Pending];
    let mut active = 0;
    for status in all {
        if let Status::Active = status {
            active += 1;
        }
    }
    assert_eq!(active, 1);
}

#[test]
fn format_name_trims_and_lowers() {
    assert_eq!(format_name("  John DOE \n"), "john doe");
}

#[test]
fn format_name_keeps_inner_space() {
    assert_eq!(format_name("\tAnn  Lee"), "ann  lee");
}

#[test]
fn format_name_of_spaces_is_empty() {
    assert_eq!(format_name(" \t\n "), "");
    assert_eq!(format_name(""), "");
}

#[test]
fn format_name_knows_letters_beyond_ascii() {
    assert_eq!(format_name("\u{a0}ÉMILE\u{2003}"), "émile");
}
