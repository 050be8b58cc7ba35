use password_manager::error::Error;
use password_manager::generator::{
    PasswordBuildOptions, PasswordBuilder, LOWERCASE_CHARACTERS, NUMBERS, SPECIAL_CHARACTERS, UPPERCASE_CHARACTERS,
};

fn options(length: usize, upper: bool, numbers: bool, special: bool, exclude: &str) -> PasswordBuildOptions {
    PasswordBuildOptions {
        length,
        use_special: special,
        use_numbers: numbers,
        use_upper: upper,
        exclude_char: exclude.chars().collect(),
    }
}

#[test]
fn scenario_upper_and_digits_thousand_times() {
    let o = options(12, true, true, false, "");
    for _ in 0..1000 {
        let p = PasswordBuilder::generate_valid_password(&o).unwrap();
        assert_eq!(p.chars().count(), 12);
        assert!(p.chars().any(|c| c.is_ascii_uppercase()));
        assert!(p.chars().any(|c| c.is_ascii_digit()));
        assert!(!p.chars().any(|c| SPECIAL_CHARACTERS.contains(c)));
    }
}

#[test]
fn generated_password_meets_options() {
    let o = options(20, true, true, true, "aeiouAEIOU01!");
    for _ in 0..200 {
        let p = PasswordBuilder::generate_valid_password(&o).unwrap();
        assert_eq!(p.chars().count(), 20);
        assert!(!p.chars().any(|c| o.exclude_char.contains(&c)));
        assert!(p.chars().any(|c| UPPERCASE_CHARACTERS.contains(c)));
        assert!(p.chars().any(|c| NUMBERS.contains(c)));
        assert!(p.chars().any(|c| SPECIAL_CHARACTERS.contains(c)));
        assert!(PasswordBuilder::verify_password(&o, &p));
    }
}

#[test]
fn class_wholly_excluded_is_not_required() {
    let o = options(8, true, true, false, NUMBERS);
    let p = PasswordBuilder::generate_valid_password(&o).unwrap();
    assert!(!p.chars().any(|c| c.is_ascii_digit()));
    assert!(p.chars().any(|c| c.is_ascii_uppercase()));
}

#[test]
fn empty_alphabet_is_refused() {
    let o = options(5, false, false, false, LOWERCASE_CHARACTERS);
    assert_eq!(PasswordBuilder::generate_valid_password(&o), Err(Error::EmptyAlphabet));
    assert_eq!(PasswordBuilder::generate_password(&o), Err(Error::EmptyAlphabet));
}

#[test]
fn too_short_for_the_classes_is_refused() {
    let o = options(2, true, true, true, "");
    assert_eq!(PasswordBuilder::generate_valid_password(&o), Err(Error::Unsatisfiable));
    let o = options(3, true, true, true, "");
    assert_eq!(PasswordBuilder::generate_valid_password(&o).map(|p| p.chars().count()), Ok(3));
}

#[test]
fn charset_order_and_exclusion() {
    let o = options(1, true, true, true, "bZ9?");
    let cs: String = PasswordBuilder::build_charset(&o).into_iter().collect();
    assert_eq!(cs, "acdefghijklmnopqrstuvwxyzABCDEFGHIJKLMNOPQRSTUVWXY012345678!@#$%^&*()-_=+[]{}<>/");
    let lower_only = options(1, false, false, false, "");
    assert_eq!(PasswordBuilder::build_charset(&lower_only).len(), 26);
}

#[test]
fn plain_draw_has_length_and_alphabet() {
    let o = options(50, false, true, false, "xyz");
    let p = PasswordBuilder::generate_password(&o).unwrap();
    assert_eq!(p.chars().count(), 50);
    assert!(p.chars().all(|c| (c.is_ascii_lowercase() || c.is_ascii_digit()) && !"xyz".contains(c)));
}

#[test]
fn verify_password_checks_each_rule() {
    let o = options(4, true, true, false, "q");
    assert!(PasswordBuilder::verify_password(&o, "aB3c"));
    assert!(!PasswordBuilder::verify_password(&o, "aB3"));
    assert!(!PasswordBuilder::verify_password(&o, "aBcd"));
    assert!(!PasswordBuilder::verify_password(&o, "ab3d"));
    assert!(PasswordBuilder::verify_password(&o, "qB3c"));
    assert!(PasswordBuilder::verify_password(&o, "aB3!"));
    assert!(PasswordBuilder::verify_password(&options(1, false, false, false, ""), "A"));
    assert!(PasswordBuilder::verify_password(&options(0, false, false, false, ""), ""));
}

#[test]
fn builder_makes_plaintext_credential() {
    let b = PasswordBuilder::from("me".to_string(), "site".to_string(), options(10, true, false, false, ""));
    let p = b.to_password().unwrap();
    assert_eq!(p.place, "site");
    assert_eq!(p.username, "me");
    assert!(!p.encrypted);
    assert_eq!(p.password.chars().count(), 10);
    let bad = PasswordBuilder::from("me".to_string(), "site".to_string(), options(10, false, false, false, LOWERCASE_CHARACTERS));
    assert_eq!(bad.to_password().map(|p| p.place), Err(Error::EmptyAlphabet));
}

#[test]
fn no_required_class_succeeds_at_once() {
    let o = options(6, true, false, false, UPPERCASE_CHARACTERS);
    let p = PasswordBuilder::generate_valid_password(&o).unwrap();
    assert_eq!(p.chars().count(), 6);
    assert!(p.chars().all(|c| c.is_ascii_lowercase()));
    assert_eq!(PasswordBuilder::generate_valid_password(&options(0, false, false, false, LOWERCASE_CHARACTERS)), Err(Error::EmptyAlphabet));
}
