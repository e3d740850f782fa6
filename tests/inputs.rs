use yek::{
    file_extension, is_binary_extension, is_effectively_absolute, looks_binary, normalize_path,
    parse_size_input, SizeError,
};

#[test]
fn byte_sizes_with_suffixes() {
    assert_eq!(parse_size_input("10KB", false), Ok(10240));
    assert_eq!(parse_size_input(" 2 mb ", false), Ok(2 * 1024 * 1024));
    assert_eq!(parse_size_input("1Gb", false), Ok(1024 * 1024 * 1024));
    assert_eq!(parse_size_input("123", false), Ok(123));
    assert_eq!(parse_size_input("+7", false), Ok(7));
}

#[test]
fn token_sizes_with_suffix() {
    assert_eq!(parse_size_input("128K", true), Ok(128000));
    assert_eq!(parse_size_input("5 k", true), Ok(5000));
    assert_eq!(parse_size_input("42", true), Ok(42));
}

#[test]
fn bad_sizes_are_refused() {
    assert_eq!(parse_size_input("abc", false), Err(SizeError::InvalidNumber));
    assert_eq!(parse_size_input("", true), Err(SizeError::InvalidNumber));
    assert_eq!(parse_size_input("KB", false), Err(SizeError::InvalidNumber));
    assert_eq!(parse_size_input("-5", false), Err(SizeError::InvalidNumber));
    assert_eq!(parse_size_input("99999999999999999999999", false), Err(SizeError::InvalidNumber));
    let big = format!("{}KB", usize::MAX);
    assert_eq!(parse_size_input(&big, false), Err(SizeError::Overflow));
    let big = format!("{}k", usize::MAX / 10);
    assert_eq!(parse_size_input(&big, true), Err(SizeError::Overflow));
}

#[test]
fn paths_relative_to_base() {
    assert_eq!(normalize_path("/repo", "/repo/src/lib.rs"), "src/lib.rs");
    assert_eq!(normalize_path("/repo", "/repo"), ".");
    assert_eq!(normalize_path("/repo", "/other//x/./y"), "/other/x/y");
    assert_eq!(normalize_path("/repo/", "/repo/a/"), "a");
    assert_eq!(normalize_path("base", "./a/../b"), "./a/../b");
    assert!(is_effectively_absolute("/x"));
    assert!(!is_effectively_absolute("x/y"));
}

#[test]
fn extensions_of_paths() {
    assert_eq!(file_extension("src/lib.rs"), Some("rs".to_string()));
    assert_eq!(file_extension("a/archive.tar.gz"), Some("gz".to_string()));
    assert_eq!(file_extension(".gitignore"), None);
    assert_eq!(file_extension("Makefile"), None);
    assert_eq!(file_extension("dir/name./"), Some(String::new()));
}

#[test]
fn binary_by_extension() {
    assert!(is_binary_extension("img/logo.PNG", &[]));
    assert!(is_binary_extension("data.bin", &[]));
    assert!(is_binary_extension("notes.custom", &[".custom".to_string()]));
    assert!(is_binary_extension("notes.CUSTOM", &["custom".to_string()]));
    assert!(!is_binary_extension("src/main.rs", &[]));
    assert!(!is_binary_extension("Makefile", &["Makefile".to_string()]));
}

#[test]
fn nul_byte_marks_binary() {
    assert!(looks_binary(&[1, 2, 0, 3]));
    assert!(!looks_binary(b"plain text"));
    assert!(!looks_binary(&[]));
}
