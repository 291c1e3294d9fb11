use resub::filter::{extension_of, extension_selected, name_in, FilterSpec};

fn strings(v: &[&str]) -> Vec<String> {
    v.iter().map(|s| s.to_string()).collect()
}

#[test]
fn extension_after_last_dot() {
    assert_eq!(extension_of("a.swift"), Some("swift".to_string()));
    assert_eq!(extension_of("notes.md"), Some("md".to_string()));
    assert_eq!(extension_of("archive.tar.gz"), Some("gz".to_string()));
}

#[test]
fn extension_absent_without_dot() {
    assert_eq!(extension_of("Makefile"), None);
    assert_eq!(extension_of(""), None);
}

#[test]
fn extension_edge_forms() {
    assert_eq!(extension_of(".gitignore"), Some("gitignore".to_string()));
    assert_eq!(extension_of("trailing."), Some("".to_string()));
}

#[test]
fn extension_of_non_ascii_name() {
    assert_eq!(extension_of("résumé.txt"), Some("txt".to_string()));
    assert_eq!(extension_of("naïve"), None);
}

#[test]
fn name_membership_is_exact_and_case_sensitive() {
    let names = strings(&["private", "design"]);
    assert!(name_in(&names, &"private".to_string()));
    assert!(!name_in(&names, &"Private".to_string()));
    assert!(!name_in(&names, &"priv".to_string()));
    assert!(!name_in(&names, &"privates".to_string()));
}

#[test]
fn empty_excluded_set_excludes_nothing() {
    let f = FilterSpec { included_extensions: strings(&["swift"]), excluded_names: Vec::new() };
    assert!(!f.is_excluded(&"anything".to_string()));
}

#[test]
fn empty_included_set_selects_nothing() {
    let included: Vec<String> = Vec::new();
    assert!(!extension_selected("a.swift", &included));
    assert!(!extension_selected("noext", &included));
}

#[test]
fn extension_match_is_exact() {
    let included = strings(&["swift", "txt"]);
    assert!(extension_selected("a.swift", &included));
    assert!(extension_selected("b.txt", &included));
    assert!(!extension_selected("c.md", &included));
    assert!(!extension_selected("swift", &included));
    assert!(!extension_selected("a.Swift", &included));
}
