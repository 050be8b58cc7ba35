use password_manager::cli::{parse_yes_no, CLI};
use password_manager::error::Error;

fn cli(args: &[&str]) -> CLI {
    CLI::from(args.iter().map(|a| a.to_string()).collect())
}

#[test]
fn flags_and_arguments() {
    let c = cli(&["prog", "generate", "--save", "-l", "12", "-p", "site"]);
    assert!(c.contains_flag("save"));
    assert!(!c.contains_flag("all"));
    assert_eq!(c.get_command(), Some(&"generate".to_string()));
    assert_eq!(c.get_argument(1), Some(&"--save".to_string()));
    assert_eq!(c.get_argument(6), None);
    assert_eq!(c.get_argument(usize::MAX), None);
    assert_eq!(c.find_argument("-l"), Some(2));
    assert_eq!(c.find_argument("-x"), None);
    assert_eq!(c.get_option_value("-l"), Some(&"12".to_string()));
    assert_eq!(c.get_option_value("-p"), Some(&"site".to_string()));
    assert_eq!(c.get_option_value("-u"), None);
}

#[test]
fn option_at_the_end_has_no_value() {
    let c = cli(&["prog", "load", "-p"]);
    assert_eq!(c.get_option_value("-p"), None);
}

#[test]
fn program_name_is_not_searched() {
    let c = cli(&["prog", "prog"]);
    assert_eq!(c.find_argument("prog"), Some(0));
    let empty = CLI::new();
    assert_eq!(empty.get_command(), None);
    assert_eq!(empty.find_argument("x"), None);
    assert!(!empty.contains_flag("x"));
}

#[test]
fn yes_no_answers() {
    assert_eq!(parse_yes_no(Some("y".to_string())), Ok(true));
    assert_eq!(parse_yes_no(Some("n".to_string())), Ok(false));
    assert_eq!(parse_yes_no(Some("yes".to_string())), Err(Error::BadInput("yes".to_string())));
    assert_eq!(parse_yes_no(None), Err(Error::EmptyInput));
}
