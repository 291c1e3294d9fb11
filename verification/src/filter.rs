use vstd::prelude::*;
use vstd::string::StrSliceExecFns;
use vstd::string::StringExecFns;

verus! {

/// The selection parameters for one traversal: which file extensions are
/// kept, and which path components (the final name of a file or a
/// directory) are pruned wherever they occur in the tree.
pub struct FilterSpec {
    pub included_extensions: Vec<String>,
    pub excluded_names: Vec<String>,
}

/// Some string in `set` has exactly the characters `name`.
pub open spec fn contains_str(set: Seq<String>, name: Seq<char>) -> bool {
    exists|i: int| 0 <= i < set.len() && (#[trigger] set[i])@ == name
}

/// Position `j` holds the last `'.'` of `name`.
pub open spec fn is_last_dot(name: Seq<char>, j: int) -> bool {
    &&& 0 <= j < name.len()
    &&& name[j] == '.'
    &&& forall|k: int| j < k < name.len() ==> #[trigger] name[k] != '.'
}

/// The extension of a file name: the characters after the last `'.'`,
/// or nothing when the name holds no `'.'` at all.
pub open spec fn ext_spec(name: Seq<char>) -> Option<Seq<char>> {
    if exists|j: int| is_last_dot(name, j) {
        Some(name.subrange((choose|j: int| is_last_dot(name, j)) + 1, name.len() as int))
    } else {
        None
    }
}

proof fn lemma_last_dot_unique(name: Seq<char>, j1: int, j2: int)
    requires
        is_last_dot(name, j1),
        is_last_dot(name, j2),
    ensures
        j1 == j2,
{
    if j1 < j2 {
        assert(name[j2] != '.');
    } else if j2 < j1 {
        assert(name[j1] != '.');
    }
}

/// Returns the extension of `name`, or `None` when it has none.
pub fn extension_of(name: &str) -> (r: Option<String>)
    ensures
        match r {
            Some(e) => ext_spec(name@) == Some(e@),
            None => ext_spec(name@) is None,
        },
{
    let n = name.unicode_len();
    let mut i: usize = n;
    while i > 0
        invariant
            i <= n,
            n == name@.len(),
            forall|k: int| i <= k < n ==> #[trigger] name@[k] != '.',
        decreases i,
    {
        let j = i - 1;
        if name.get_char(j) == '.' {
            proof {
                assert(is_last_dot(name@, j as int));
                lemma_last_dot_unique(name@, j as int, choose|t: int| is_last_dot(name@, t));
            }
            let e = name.substring_char(j + 1, n);
            return Some(String::from_str(e));
        }
        i = j;
    }
    proof {
        assert forall|j: int| !is_last_dot(name@, j) by {
            if 0 <= j < name@.len() {
                assert(name@[j] != '.');
            }
        }
    }
    None
}

/// `name` is one of the strings in `names`.
pub fn name_in(names: &Vec<String>, name: &String) -> (r: bool)
    ensures
        r == contains_str(names@, name@),
{
    let mut k: usize = 0;
    while k < names.len()
        invariant
            k <= names.len(),
            forall|i: int| 0 <= i < k ==> (#[trigger] names@[i])@ != name@,
        decreases names.len() - k,
    {
        if names[k] == *name {
            return true;
        }
        k = k + 1;
    }
    false
}

/// The extension of `name` is a member of the included set; a name with
/// no extension is never selected.
pub open spec fn ext_selected(name: Seq<char>, included: Seq<String>) -> bool {
    match ext_spec(name) {
        Some(e) => contains_str(included, e),
        None => false,
    }
}

/// True when the extension of `name` is one of `included`.
pub fn extension_selected(name: &str, included: &Vec<String>) -> (r: bool)
    ensures
        r == ext_selected(name@, included@),
{
    match extension_of(name) {
        Some(e) => name_in(included, &e),
        None => false,
    }
}

/// A name without an extension is never selected, whatever the included
/// set holds.
pub proof fn lemma_no_extension_never_selected(name: Seq<char>, included: Seq<String>)
    requires
        ext_spec(name) is None,
    ensures
        !ext_selected(name, included),
{
}

/// An empty included set selects no file at all.
pub proof fn lemma_empty_included_selects_nothing(name: Seq<char>, included: Seq<String>)
    requires
        included.len() == 0,
    ensures
        !ext_selected(name, included),
{
}

impl FilterSpec {
    /// True iff the final path component `name` exactly matches one of the
    /// excluded names.
    pub fn is_excluded(&self, name: &String) -> (r: bool)
        ensures
            r == contains_str(self.excluded_names@, name@),
    {
        name_in(&self.excluded_names, name)
    }
}

} // verus!
