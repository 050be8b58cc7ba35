use password_manager::cipher::encrypt;
use password_manager::codec::{
    create_backup, display_passwords, export_dump, find_clomun_index, parse_dump, restore_backup, DumpColumns,
};
use password_manager::credential::Password;
use password_manager::error::{Column, Error};

fn cred(place: &str, username: &str, password: &str, encrypted: bool) -> Password {
    Password { place: place.to_string(), username: username.to_string(), password: password.to_string(), encrypted }
}

fn fields(p: &Password) -> (String, String, String, bool) {
    (p.place.clone(), p.username.clone(), p.password.clone(), p.encrypted)
}

#[test]
fn dump_round_trip_with_ciphertext() {
    let cs = vec![
        cred("example.com", "alice", &encrypt("s3cr3t", "correct-horse"), true),
        cred("b", "bob", "plain", false),
        cred("c", "", &encrypt("a,b\nc", "k"), true),
        cred("d", "dan", "", false),
    ];
    let text = export_dump(&cs);
    let back = parse_dump(&text, &DumpColumns::new()).unwrap();
    assert_eq!(back.iter().map(fields).collect::<Vec<_>>(), cs.iter().map(fields).collect::<Vec<_>>());
}

#[test]
fn dump_of_nothing_reads_back_as_nothing() {
    let text = export_dump(&Vec::new());
    assert_eq!(text, "place,username,password,encrypted\n");
    assert!(parse_dump(&text, &DumpColumns::new()).unwrap().is_empty());
}

#[test]
fn export_dump_exact_text() {
    let cs = vec![cred("a", "u", "p", false), cred("b", "v", "q", true)];
    assert_eq!(export_dump(&cs), "place,username,password,encrypted\na,u,p,0\nb,v,q,1\n");
}

#[test]
fn backup_exact_text() {
    let cs = vec![cred("a", "u", "p", false), cred("b", "v", "q", true)];
    assert_eq!(create_backup(&cs), "place,username,password\na,u,p\nb,v,q\n");
}

#[test]
fn reordered_columns_are_resolved_by_name() {
    let text = "encrypted,password,extra,username,place\n1,pw,x,me,site";
    let back = parse_dump(text, &DumpColumns::new()).unwrap();
    assert_eq!(back.iter().map(fields).collect::<Vec<_>>(), vec![("site".to_string(), "me".to_string(), "pw".to_string(), true)]);
}

#[test]
fn renamed_columns_with_a_mapping() {
    let text = "site,login,secret,enc\ns,l,p,0\n";
    assert_eq!(parse_dump(text, &DumpColumns::new()).err(), Some(Error::NoHeader("place".to_string())));
    let mut cols = DumpColumns::new();
    cols.place = "site".to_string();
    assert_eq!(parse_dump(text, &cols).err(), Some(Error::NoHeader("username".to_string())));
    cols.username = "login".to_string();
    cols.password = "secret".to_string();
    cols.encrypted = "enc".to_string();
    let back = parse_dump(text, &cols).unwrap();
    assert_eq!(fields(&back[0]), ("s".to_string(), "l".to_string(), "p".to_string(), false));
}

#[test]
fn too_few_headers() {
    assert_eq!(parse_dump("place,username,password\n", &DumpColumns::new()).err(), Some(Error::BadHeaders));
    assert_eq!(restore_backup("place,username\n", &DumpColumns::new()).err(), Some(Error::BadHeaders));
}

#[test]
fn empty_text_has_too_few_headers() {
    assert_eq!(parse_dump("", &DumpColumns::new()).err(), Some(Error::BadHeaders));
    assert_eq!(parse_dump(" \n\t", &DumpColumns::new()).err(), Some(Error::BadHeaders));
}

#[test]
fn line_breaks_at_the_ends_are_dropped() {
    let text = "\n\nplace,username,password,encrypted\na,u,p,1\n\n\n";
    let back = parse_dump(text, &DumpColumns::new()).unwrap();
    assert_eq!(back.iter().map(fields).collect::<Vec<_>>(), vec![("a".to_string(), "u".to_string(), "p".to_string(), true)]);
}

#[test]
fn missing_field_names_column_and_line() {
    let head = "place,username,password,encrypted\n";
    let cases = [
        ("a,u,p,1\n\nb,v,q,0\n", Column::Username, 3),
        ("a\n", Column::Username, 2),
        ("a,u\n", Column::Password, 2),
        ("a,u,p,0\nb,v,q\n", Column::Encrypted, 3),
    ];
    for (rows, column, line) in cases {
        let text = format!("{}{}", head, rows);
        assert_eq!(parse_dump(&text, &DumpColumns::new()).err(), Some(Error::MissingField(column, line)));
    }
    let text = "username,password,encrypted,place\nu,p,0\n";
    assert_eq!(parse_dump(text, &DumpColumns::new()).err(), Some(Error::MissingField(Column::Place, 2)));
}

#[test]
fn flag_must_be_zero_or_one() {
    let text = "place,username,password,encrypted\na,u,p,yes\n";
    assert_eq!(parse_dump(text, &DumpColumns::new()).err(), Some(Error::ParsingError));
}

#[test]
fn backup_restore_reads_plaintext() {
    let cs = vec![cred("a", "u", "p", false), cred("b", "v", "q", false)];
    let back = restore_backup(&create_backup(&cs), &DumpColumns::new()).unwrap();
    assert_eq!(back.iter().map(fields).collect::<Vec<_>>(), cs.iter().map(fields).collect::<Vec<_>>());
}

#[test]
fn column_index_is_first_match() {
    let headers = vec!["a".to_string(), "b".to_string(), "a".to_string()];
    assert_eq!(find_clomun_index("a", &headers), Some(0));
    assert_eq!(find_clomun_index("b", &headers), Some(1));
    assert_eq!(find_clomun_index("c", &headers), None);
}

#[test]
fn listing_numbers_each_credential() {
    let mut cs: Vec<Password> = (0..12).map(|i| cred(&format!("p{}", i), "u", "pw", false)).collect();
    cs[1].encrypted = true;
    let text = display_passwords(&cs);
    assert!(text.starts_with("\n0:\n\tplace = p0\n\tusername = u\n\tpassword = pw\n\n1:\n\tplace = p1\n\tusername = u\n\n2:"));
    assert!(text.ends_with("\n11:\n\tplace = p11\n\tusername = u\n\tpassword = pw\n"));
    assert_eq!(display_passwords(&Vec::new()), "");
}

#[test]
fn trailing_spaces_of_the_last_password_are_kept() {
    let back = restore_backup("place,username,password\na,u,pw  \n", &DumpColumns::new()).unwrap();
    assert_eq!(back[0].password, "pw  ");
}

#[test]
fn rename_a_missing_column() {
    let mut cols = DumpColumns::new();
    assert!(cols.rename("username", "login".to_string()));
    assert_eq!(cols.username, "login");
    assert_eq!(cols.place, "place");
    assert!(!cols.rename("nothing", "x".to_string()));
    assert_eq!(cols.password, "password");
    assert_eq!(cols.encrypted, "encrypted");
}
