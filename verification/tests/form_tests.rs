use resub::form::{FormEvent, FormState, FormStatus, FIELD_COUNT};

fn type_str(form: &mut FormState, s: &str) {
    for c in s.chars() {
        let st = form.on_event(FormEvent::Char(c));
        assert!(matches!(st, FormStatus::Editing));
    }
}

#[test]
fn fresh_form_is_empty_and_focused_on_first_field() {
    let form = FormState::new();
    assert_eq!(form.fields.len(), FIELD_COUNT);
    assert_eq!(form.focus, 0);
    assert!(form.fields.iter().all(|f| f.is_empty()));
}

#[test]
fn characters_go_to_the_focused_field_only() {
    let mut form = FormState::new();
    type_str(&mut form, "src");
    assert!(matches!(form.on_event(FormEvent::Next), FormStatus::Editing));
    type_str(&mut form, "swift");
    let fields = form.into_fields();
    assert_eq!(fields[0], "src");
    assert_eq!(fields[1], "swift");
    assert_eq!(fields[2], "");
}

#[test]
fn backspace_drops_last_character_and_is_a_no_op_on_empty() {
    let mut form = FormState::new();
    assert!(matches!(form.on_event(FormEvent::Backspace), FormStatus::Editing));
    type_str(&mut form, "ab");
    assert!(matches!(form.on_event(FormEvent::Backspace), FormStatus::Editing));
    let fields = form.into_fields();
    assert_eq!(fields[0], "a");
}

#[test]
fn prev_stops_at_the_first_field() {
    let mut form = FormState::new();
    assert!(matches!(form.on_event(FormEvent::Prev), FormStatus::Editing));
    assert_eq!(form.focus, 0);
    form.on_event(FormEvent::Next);
    form.on_event(FormEvent::Next);
    form.on_event(FormEvent::Prev);
    assert_eq!(form.focus, 1);
}

#[test]
fn next_submits_only_from_the_last_field() {
    let mut form = FormState::new();
    for expected in 1..FIELD_COUNT {
        let st = form.on_event(FormEvent::Next);
        assert!(matches!(st, FormStatus::Editing));
        assert_eq!(form.focus, expected);
    }
    let st = form.on_event(FormEvent::Next);
    assert!(matches!(st, FormStatus::Submitted));
    assert_eq!(form.focus, FIELD_COUNT - 1);
}

#[test]
fn cancel_exits_from_any_state() {
    let mut form = FormState::new();
    type_str(&mut form, "x");
    form.on_event(FormEvent::Next);
    let st = form.on_event(FormEvent::Cancel);
    assert!(matches!(st, FormStatus::Cancelled));
}
