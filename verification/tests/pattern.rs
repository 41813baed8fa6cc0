use tc::pattern::{normalize_pattern, to_lower};

fn check_normalization(cases: &[(&str, &str)]) {
    let normalized = cases.iter().map(|(_raw, normalized)| normalized);
    let raw = cases.iter().map(|(raw, _normalized)| raw);
    let computed: Vec<String> = raw
        .map(|raw| normalize_pattern(&raw.chars().collect()).into_iter().collect())
        .collect();
    let expected: Vec<_> = normalized.map(|s| s.to_string()).collect();
    assert_eq!(&computed[..], &expected[..]);
}

#[test]
fn test_normalization() {
    check_normalization(&[
        // === Any sequence of delimiters collapses to the strongest ===
        ("data  .  read  _  file", "data.read_file"),
        ("da re _fi", "da re_fi"),
        ("da     refi", "da refi"),
        ("data. re fi", "data.re fi"),
        ("data .refi", "data.refi"),
    ]);
}

#[test]
fn normalization_lowers_and_keeps_outer_delimiters() {
    check_normalization(&[
        ("Data.Read_File21", "data.read_file21"),
        ("_data.read_file_", "_data.read_file_"),
        (" data ", " data "),
        ("", ""),
        ("._ ", "."),
        (" _", "_"),
        ("A_ .b", "a.b"),
    ]);
}

#[test]
fn to_lower_changes_ascii_capitals_only() {
    assert_eq!(to_lower('A'), 'a');
    assert_eq!(to_lower('Z'), 'z');
    assert_eq!(to_lower('q'), 'q');
    assert_eq!(to_lower('7'), '7');
    assert_eq!(to_lower('É'), 'É');
    assert_eq!(to_lower('['), '[');
    assert_eq!(to_lower('@'), '@');
}
