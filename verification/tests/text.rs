use shitview::text::{decimal_string, lower_hex_string, normalize_path, zero_padded};

#[test]
fn numbers_render_in_decimal_and_hex() {
    assert_eq!(decimal_string(0), "0");
    assert_eq!(decimal_string(1234567890), "1234567890");
    assert_eq!(lower_hex_string(255), "ff");
    assert_eq!(zero_padded(lower_hex_string(10), 4), "000a");
    assert_eq!(zero_padded("12345".to_owned(), 3), "12345");
}

#[test]
fn display_paths_use_forward_slashes() {
    assert_eq!(normalize_path(r"C:\Users\me"), "C:/Users/me");
    assert_eq!(normalize_path(r"\\?\C:\x"), "C:/x");
}
