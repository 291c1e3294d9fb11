use resub::params::{split_field, trim};

#[test]
fn trim_removes_surrounding_blanks_only() {
    assert_eq!(trim("  swift\t"), "swift");
    assert_eq!(trim("a b"), "a b");
    assert_eq!(trim(""), "");
    assert_eq!(trim(" \t "), "");
}

#[test]
fn split_field_trims_each_entry() {
    assert_eq!(split_field("swift, txt"), vec!["swift".to_string(), "txt".to_string()]);
    assert_eq!(
        split_field(" private ,design,  tmp"),
        vec!["private".to_string(), "design".to_string(), "tmp".to_string()]
    );
}

#[test]
fn split_field_keeps_empty_pieces() {
    assert_eq!(split_field(""), vec!["".to_string()]);
    assert_eq!(split_field("a,,b"), vec!["a".to_string(), "".to_string(), "b".to_string()]);
    assert_eq!(split_field("a,"), vec!["a".to_string(), "".to_string()]);
}

#[test]
fn split_field_single_entry() {
    assert_eq!(split_field("swift"), vec!["swift".to_string()]);
}
