use resub::engine::{CompileError, FileDecision, ReadOutcome, Rule};

#[test]
fn invalid_pattern_fails_before_any_file() {
    let r = Rule::new("foo(bar".to_string(), "x".to_string());
    assert!(matches!(r, Err(CompileError::BadPattern)));
}

#[test]
fn out_of_range_group_reference_fails_at_compile_time() {
    let r = Rule::new(r"Constants\.c(\d+)\.rawValue".to_string(), "Constants.c$3".to_string());
    assert!(matches!(r, Err(CompileError::GroupOutOfRange)));
}

#[test]
fn group_zero_and_in_range_groups_are_accepted() {
    assert!(Rule::new("(a)(b)".to_string(), "$2$1$0".to_string()).is_ok());
    assert!(Rule::new("a".to_string(), "$0".to_string()).is_ok());
}

#[test]
fn literal_dollar_needs_no_group() {
    // `$$3` is a literal dollar sign followed by the character 3
    assert!(Rule::new("a".to_string(), "$$3".to_string()).is_ok());
}

#[test]
fn huge_group_number_is_out_of_range() {
    let r = Rule::new("a".to_string(), "$99999999999999999999999".to_string());
    assert!(matches!(r, Err(CompileError::GroupOutOfRange)));
}

#[test]
fn substitution_with_capture_group() {
    let rule = Rule::new(r"Constants\.c(\d+)\.rawValue".to_string(), "Constants.c$1".to_string())
        .unwrap();
    let (out, changed) = rule.substitute(&"Constants.c1.rawValue".to_string());
    assert_eq!(out, "Constants.c1");
    assert!(changed);
}

#[test]
fn no_match_means_no_write() {
    let rule = Rule::new(r"Constants\.c(\d+)\.rawValue".to_string(), "Constants.c$1".to_string())
        .unwrap();
    let (out, changed) = rule.substitute(&"nothing to see here".to_string());
    assert_eq!(out, "nothing to see here");
    assert!(!changed);
}

#[test]
fn second_pass_is_skipped_for_stable_rule() {
    let rule = Rule::new(r"Constants\.c(\d+)\.rawValue".to_string(), "Constants.c$1".to_string())
        .unwrap();
    let content = "let a = Constants.c1.rawValue; let b = Constants.c27.rawValue;".to_string();
    let (first, changed_first) = rule.substitute(&content);
    assert!(changed_first);
    assert_eq!(first, "let a = Constants.c1; let b = Constants.c27;");
    let (second, changed_second) = rule.substitute(&first);
    assert_eq!(second, first);
    assert!(!changed_second);
}

#[test]
fn replacement_applies_to_every_occurrence() {
    let rule = Rule::new("ab".to_string(), "X".to_string()).unwrap();
    let (out, changed) = rule.substitute(&"ab-ab-ab".to_string());
    assert_eq!(out, "X-X-X");
    assert!(changed);
}

#[test]
fn failed_read_is_isolated_from_neighbours() {
    let rule = Rule::new("b".to_string(), "B".to_string()).unwrap();
    let outcomes = vec![
        ReadOutcome::Content("abc".to_string()),
        ReadOutcome::Failed,
        ReadOutcome::Content("bbb".to_string()),
    ];
    let mut decisions = Vec::new();
    for o in outcomes {
        decisions.push(rule.process_one(o));
    }
    assert!(matches!(&decisions[0], FileDecision::Write(s) if s == "aBc"));
    assert!(matches!(&decisions[1], FileDecision::ReadFailed));
    assert!(matches!(&decisions[2], FileDecision::Write(s) if s == "BBB"));
}

#[test]
fn unchanged_content_is_left_alone() {
    let rule = Rule::new("z".to_string(), "z".to_string()).unwrap();
    let d = rule.process_one(ReadOutcome::Content("az".to_string()));
    assert!(matches!(d, FileDecision::Unchanged));
}
