use vstd::prelude::*;

verus! {

/// The number of input fields of the parameter form: root path,
/// included extensions, excluded names, search pattern, replacement
/// template, in that order.
pub const FIELD_COUNT: usize = 5;

/// The parameter form: one text buffer per field and the index of the
/// focused one. Key events edit the focused buffer or move the focus;
/// confirming on the last field submits; cancelling exits the form with
/// nothing done.
pub struct FormState {
    pub fields: Vec<String>,
    pub focus: usize,
}

/// A key event as the form understands it.
pub enum FormEvent {
    Char(char),
    Backspace,
    Next,
    Prev,
    Cancel,
}

/// The form after an event: still editing, submitted, or cancelled.
pub enum FormStatus {
    Editing,
    Submitted,
    Cancelled,
}

impl FormState {
    /// The form always holds exactly `FIELD_COUNT` fields and focuses
    /// one of them.
    pub open spec fn wf(&self) -> bool {
        self.fields@.len() == FIELD_COUNT && self.focus < FIELD_COUNT
    }

    /// A fresh form: every field empty, focus on the first.
    pub fn new() -> (s: FormState)
        ensures
            s.wf(),
            s.focus == 0,
            forall|i: int| 0 <= i < FIELD_COUNT ==> (#[trigger] s.fields@[i])@ == Seq::<char>::empty(),
    {
        let mut fields: Vec<String> = Vec::new();
        let mut k: usize = 0;
        while k < FIELD_COUNT
            invariant
                k <= FIELD_COUNT,
                fields@.len() == k,
                forall|i: int| 0 <= i < k ==> (#[trigger] fields@[i])@ == Seq::<char>::empty(),
            decreases FIELD_COUNT - k,
        {
            fields.push(String::new());
            k = k + 1;
        }
        FormState { fields, focus: 0 }
    }

    /// One key event. A character is appended to the focused field and a
    /// backspace drops its last character (and does nothing on an empty
    /// field); neither moves the focus. `Next` advances the focus, and
    /// submits instead when invoked on the last field; `Prev` moves the
    /// focus back, stopping at the first field. `Cancel` exits from any
    /// state. Nothing but the named field and the focus ever changes.
    pub fn on_event(&mut self, ev: FormEvent) -> (s: FormStatus)
        requires
            old(self).wf(),
        ensures
            final(self).wf(),
            final(self).fields@.len() == old(self).fields@.len(),
            match ev {
                FormEvent::Char(c) => {
                    &&& s is Editing
                    &&& final(self).focus == old(self).focus
                    &&& final(self).fields@[old(self).focus as int]@
                        == old(self).fields@[old(self).focus as int]@.push(c)
                    &&& forall|i: int| 0 <= i < FIELD_COUNT && i != old(self).focus
                        ==> final(self).fields@[i] == old(self).fields@[i]
                },
                FormEvent::Backspace => {
                    &&& s is Editing
                    &&& final(self).focus == old(self).focus
                    &&& final(self).fields@[old(self).focus as int]@
                        == old(self).fields@[old(self).focus as int]@.drop_last()
                        || (old(self).fields@[old(self).focus as int]@.len() == 0
                            && final(self).fields@[old(self).focus as int]@.len() == 0)
                    &&& forall|i: int| 0 <= i < FIELD_COUNT && i != old(self).focus
                        ==> final(self).fields@[i] == old(self).fields@[i]
                },
                FormEvent::Next => if old(self).focus + 1 == FIELD_COUNT {
                    s is Submitted
                        && final(self).fields@ == old(self).fields@
                        && final(self).focus == old(self).focus
                } else {
                    s is Editing
                        && final(self).fields@ == old(self).fields@
                        && final(self).focus == old(self).focus + 1
                },
                FormEvent::Prev => {
                    &&& s is Editing
                    &&& final(self).fields@ == old(self).fields@
                    &&& final(self).focus == (if old(self).focus == 0 {
                        0int
                    } else {
                        old(self).focus - 1
                    })
                },
                FormEvent::Cancel => s is Cancelled
                    && final(self).fields@ == old(self).fields@
                    && final(self).focus == old(self).focus,
            },
    {
        match ev {
            FormEvent::Char(c) => {
                self.fields[self.focus].push(c);
                FormStatus::Editing
            },
            FormEvent::Backspace => {
                let _popped = self.fields[self.focus].pop();
                proof {
                    if old(self).fields@[old(self).focus as int]@.len() == 0 {
                        assert(final(self).fields@[old(self).focus as int]@.len() == 0);
                    }
                }
                FormStatus::Editing
            },
            FormEvent::Next => {
                if self.focus + 1 == FIELD_COUNT {
                    FormStatus::Submitted
                } else {
                    self.focus = self.focus + 1;
                    FormStatus::Editing
                }
            },
            FormEvent::Prev => {
                if self.focus > 0 {
                    self.focus = self.focus - 1;
                }
                FormStatus::Editing
            },
            FormEvent::Cancel => FormStatus::Cancelled,
        }
    }

    /// The five collected parameters, in field order.
    pub fn into_fields(self) -> (r: Vec<String>)
        ensures
            r@ == self.fields@,
    {
        self.fields
    }
}

/// Relies on String::push: it appends the given character to the end of
/// the string.
pub assume_specification[ String::push ](s: &mut String, c: char)
    ensures
        final(s)@ == old(s)@.push(c),
;

/// Relies on String::pop: it removes and returns the last character, and
/// returns None on an empty string, which it leaves empty.
pub assume_specification[ String::pop ](s: &mut String) -> (r: Option<char>)
    ensures
        old(s)@.len() == 0 ==> r is None && final(s)@ == old(s)@,
        old(s)@.len() > 0 ==> r == Some(old(s)@.last()) && final(s)@ == old(s)@.drop_last(),
;

} // verus!
