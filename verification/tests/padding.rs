use flatpad::normalize::generate_padded_name;

fn pad(name: &str) -> Option<String> {
    let bytes: Vec<u8> = name.as_bytes().to_vec();
    generate_padded_name(&bytes).map(|v| String::from_utf8(v).unwrap())
}

#[test]
fn pad_numeric_one_digit() {
    assert_eq!(pad("7-foo.txt"), Some("007-foo.txt".to_string()));
}

#[test]
fn pad_numeric_two_digits() {
    assert_eq!(pad("42-bar"), Some("042-bar".to_string()));
}

#[test]
fn pad_numeric_wide_prefix_kept() {
    assert_eq!(pad("1234-baz.txt"), Some("1234-baz.txt".to_string()));
}

#[test]
fn pad_opaque_short_prefix() {
    assert_eq!(pad("ab-c.txt"), Some("0ab-c.txt".to_string()));
}

#[test]
fn pad_opaque_long_prefix() {
    assert_eq!(pad("abcd-x"), None);
}

#[test]
fn pad_no_separator() {
    assert_eq!(pad("noseparator.txt"), None);
}

#[test]
fn pad_empty_name() {
    assert_eq!(pad(""), None);
}

#[test]
fn pad_numeric_drops_extra_leading_zeros() {
    assert_eq!(pad("0042-x"), Some("042-x".to_string()));
}

#[test]
fn pad_numeric_exact_width() {
    assert_eq!(pad("123-x"), Some("123-x".to_string()));
}

#[test]
fn pad_plus_signed_prefix_reads_as_number() {
    assert_eq!(pad("+7-x"), Some("007-x".to_string()));
}

#[test]
fn pad_empty_prefix() {
    assert_eq!(pad("-x"), Some("000-x".to_string()));
}

#[test]
fn pad_prefix_past_u32_is_left_alone() {
    assert_eq!(pad("99999999999-x"), None);
}

#[test]
fn pad_separator_last() {
    assert_eq!(pad("a-"), Some("00a-".to_string()));
}

#[test]
fn pad_opaque_width_counts_characters_not_bytes() {
    // A two-byte character is one character wide, so two zeros are added.
    assert_eq!(pad("\u{e9}-x"), Some("00\u{e9}-x".to_string()));
    // A three-byte character fills the three-byte guard but is still one
    // character wide.
    assert_eq!(pad("\u{20ac}-x"), Some("00\u{20ac}-x".to_string()));
}

#[test]
fn pad_leaves_widened_prefix_alone() {
    // After padding, the prefix is four bytes long, so a second transform
    // no longer applies.
    assert_eq!(pad("00\u{e9}-x"), None);
}

#[test]
fn pad_transform_is_idempotent_on_samples() {
    for name in ["7-foo.txt", "42-bar", "1234-baz.txt", "ab-c.txt", "-x", "+7-x", "0042-x"] {
        let once = pad(name).unwrap();
        assert_eq!(pad(&once), Some(once.clone()));
    }
}
