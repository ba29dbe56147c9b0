use edlint_config::user::User;

#[test]
fn user_is_adult_from_eighteen() {
    assert!(User::new("a".to_string(), 18).is_adult());
    assert!(User::new("a".to_string(), 255).is_adult());
    assert!(!User::new("a".to_string(), 17).is_adult());
    assert!(!User::new("a".to_string(), 0).is_adult());
}

#[test]
fn user_name_can_be_updated() {
    let mut user = User::new("Ann".to_string(), 30);
    assert_eq!(user.get_name(), "Ann");
    user.update_name("Bob".to_string());
    assert_eq!(user.get_name(), "Bob");
    assert!(user.is_adult());
}
