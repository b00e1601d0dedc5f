use apkpatch::pkgname::validate_pkgname;

#[test]
fn accepts_and_lowercases() {
    assert_eq!(validate_pkgname("Com.Example_1.App"), Ok("com.example_1.app".to_string()));
}

#[test]
fn accepts_plain_name_unchanged() {
    assert_eq!(validate_pkgname("com.new.app"), Ok("com.new.app".to_string()));
}

#[test]
fn rejects_leading_digit() {
    assert_eq!(
        validate_pkgname("1abc.def"),
        Err("First character after a '.' should never be a number".to_string())
    );
}

#[test]
fn rejects_digit_after_separator() {
    assert_eq!(
        validate_pkgname("abc.9def"),
        Err("First character after a '.' should never be a number".to_string())
    );
}

#[test]
fn rejects_adjacent_dots() {
    assert_eq!(
        validate_pkgname("abc..def"),
        Err("Input package name contains more than one separator per complement".to_string())
    );
}

#[test]
fn rejects_foreign_character() {
    assert_eq!(
        validate_pkgname("abc.def!"),
        Err("Package name can only contain alphanumerical characters or '_'".to_string())
    );
}

#[test]
fn separator_fault_reported_before_character_fault() {
    assert_eq!(
        validate_pkgname("a!..b"),
        Err("Input package name contains more than one separator per complement".to_string())
    );
}

#[test]
fn first_fault_decides_message() {
    assert_eq!(
        validate_pkgname("a-b.1c"),
        Err("Package name can only contain alphanumerical characters or '_'".to_string())
    );
    assert_eq!(
        validate_pkgname("ab.1c-"),
        Err("First character after a '.' should never be a number".to_string())
    );
}

#[test]
fn rejects_non_ascii_letter() {
    assert!(validate_pkgname("com.é").is_err());
}

#[test]
fn accepts_empty_name() {
    assert_eq!(validate_pkgname(""), Ok(String::new()));
}
