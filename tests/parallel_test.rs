use yek::normalize_path;

#[test]
fn test_normalize_path_unix_style() {
    let input = "/usr/local/bin";
    let base = "/";
    let expected = "usr/local/bin".to_string();
    assert_eq!(normalize_path(base, input), expected);
}

#[test]
fn test_normalize_path_windows_style() {
    let input = "C:\\Program Files\\Yek";
    let base = "C:\\";
    let expected = "C:\\Program Files\\Yek".to_string();
    assert_eq!(normalize_path(base, input), expected);
}
