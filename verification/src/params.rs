use vstd::prelude::*;
use vstd::string::StrSliceExecFns;
use vstd::string::StringExecFns;

verus! {

/// A blank character as field parsing understands it: a space or a tab.
pub open spec fn is_blank(c: char) -> bool {
    c == ' ' || c == '\t'
}

/// `s` with every leading and trailing blank removed.
pub open spec fn trimmed(s: Seq<char>) -> Seq<char>
    decreases s.len(),
{
    if s.len() == 0 {
        s
    } else if is_blank(s[0]) {
        trimmed(s.drop_first())
    } else if is_blank(s.last()) {
        trimmed(s.drop_last())
    } else {
        s
    }
}

/// Position `j` holds the first comma of `s` at or after `p`.
pub open spec fn is_first_comma_from(s: Seq<char>, p: int, j: int) -> bool {
    &&& p <= j < s.len()
    &&& s[j] == ','
    &&& forall|k: int| p <= k < j ==> #[trigger] s[k] != ','
}

/// The comma-separated pieces of `s` from position `p` on, commas
/// removed, pieces kept as written. A field with no comma is one piece;
/// every comma ends one piece and starts the next, so an empty field is
/// one empty piece.
pub open spec fn split_from(s: Seq<char>, p: int) -> Seq<Seq<char>>
    decreases s.len() - p,
    when 0 <= p <= s.len()
{
    if exists|j: int| is_first_comma_from(s, p, j) {
        let j = choose|j: int| is_first_comma_from(s, p, j);
        seq![s.subrange(p, j)] + split_from(s, j + 1)
    } else {
        seq![s.subrange(p, s.len() as int)]
    }
}

/// The entries of a comma-separated field: its pieces, each trimmed of
/// surrounding blanks.
pub open spec fn field_entries(s: Seq<char>) -> Seq<Seq<char>> {
    split_from(s, 0).map_values(|piece: Seq<char>| trimmed(piece))
}

proof fn lemma_first_comma_unique(s: Seq<char>, p: int, j1: int, j2: int)
    requires
        is_first_comma_from(s, p, j1),
        is_first_comma_from(s, p, j2),
    ensures
        j1 == j2,
{
    if j1 < j2 {
        assert(s[j1] != ',');
    } else if j2 < j1 {
        assert(s[j2] != ',');
    }
}

proof fn lemma_trimmed_subrange(s: Seq<char>, a: int, b: int)
    requires
        0 <= a <= b <= s.len(),
        forall|k: int| 0 <= k < a ==> is_blank(#[trigger] s[k]),
        forall|k: int| b <= k < s.len() ==> is_blank(#[trigger] s[k]),
        a < b ==> !is_blank(s[a]) && !is_blank(s[b - 1]),
        a == b ==> forall|k: int| 0 <= k < s.len() ==> is_blank(#[trigger] s[k]),
    ensures
        trimmed(s) == s.subrange(a, b),
    decreases s.len(),
{
    if s.len() == 0 {
        assert(s.subrange(0, 0) =~= s);
    } else if is_blank(s[0]) {
        let t = s.drop_first();
        if a == 0 {
            assert(forall|k: int| 0 <= k < t.len() ==> is_blank(#[trigger] t[k]));
            lemma_trimmed_subrange(t, 0, 0);
            assert(s.subrange(a, b) =~= t.subrange(0, 0));
        } else {
            lemma_trimmed_subrange(t, a - 1, b - 1);
            assert(s.subrange(a, b) =~= t.subrange(a - 1, b - 1));
        }
    } else if is_blank(s.last()) {
        let t = s.drop_last();
        lemma_trimmed_subrange(t, a, b);
        assert(s.subrange(a, b) =~= t.subrange(a, b));
    } else {
        assert(a == 0 && b == s.len());
        assert(s.subrange(0, s.len() as int) =~= s);
    }
}

/// `s` with its leading and trailing blanks removed.
pub fn trim(s: &str) -> (r: String)
    ensures
        r@ == trimmed(s@),
{
    let n = s.unicode_len();
    let mut a: usize = 0;
    while a < n
        invariant
            a <= n,
            n == s@.len(),
            forall|k: int| 0 <= k < a ==> is_blank(#[trigger] s@[k]),
        ensures
            a <= n,
            forall|k: int| 0 <= k < a ==> is_blank(#[trigger] s@[k]),
            a < n ==> !is_blank(s@[a as int]),
        decreases n - a,
    {
        let c = s.get_char(a);
        if !(c == ' ' || c == '\t') {
            break;
        }
        a = a + 1;
    }
    if a == n {
        proof {
            lemma_trimmed_subrange(s@, n as int, n as int);
            assert(s@.subrange(n as int, n as int) =~= Seq::<char>::empty());
        }
        return String::new();
    }
    let mut b: usize = n;
    while b > a + 1
        invariant
            a < b <= n,
            n == s@.len(),
            forall|k: int| b <= k < n ==> is_blank(#[trigger] s@[k]),
        ensures
            a < b <= n,
            forall|k: int| b <= k < n ==> is_blank(#[trigger] s@[k]),
            b > a + 1 ==> !is_blank(s@[b as int - 1]),
        decreases b,
    {
        let c = s.get_char(b - 1);
        if !(c == ' ' || c == '\t') {
            break;
        }
        b = b - 1;
    }
    proof {
        lemma_trimmed_subrange(s@, a as int, b as int);
    }
    String::from_str(s.substring_char(a, b))
}

/// Parse one comma-separated field of the form into its entries, each
/// trimmed of surrounding blanks, in order.
pub fn split_field(s: &str) -> (r: Vec<String>)
    ensures
        r@.len() == field_entries(s@).len(),
        forall|i: int| 0 <= i < r@.len() ==> (#[trigger] r@[i])@ == field_entries(s@)[i],
{
    let n = s.unicode_len();
    let mut out: Vec<String> = Vec::new();
    let mut p: usize = 0;
    let mut q: usize = 0;
    while q < n
        invariant
            p <= q <= n,
            n == s@.len(),
            forall|k: int| p <= k < q ==> #[trigger] s@[k] != ',',
            field_entries(s@) =~= Seq::new(out@.len() as nat, |i: int| out@[i]@)
                + split_from(s@, p as int).map_values(|piece: Seq<char>| trimmed(piece)),
        decreases n - q,
    {
        let c = s.get_char(q);
        if c == ',' {
            proof {
                assert(is_first_comma_from(s@, p as int, q as int));
                lemma_first_comma_unique(
                    s@,
                    p as int,
                    q as int,
                    choose|j: int| is_first_comma_from(s@, p as int, j),
                );
                assert(split_from(s@, p as int)
                    == seq![s@.subrange(p as int, q as int)] + split_from(s@, q as int + 1));
            }
            let piece = trim(s.substring_char(p, q));
            out.push(piece);
            proof {
                let f = |piece: Seq<char>| trimmed(piece);
                let head = s@.subrange(p as int, q as int);
                let rest = split_from(s@, q as int + 1);
                assert((seq![head] + rest).map_values(f)
                    =~= seq![trimmed(head)] + rest.map_values(f));
            }
            p = q + 1;
            q = q + 1;
        } else {
            q = q + 1;
        }
    }
    proof {
        assert(forall|j: int| !is_first_comma_from(s@, p as int, j));
        assert(split_from(s@, p as int) == seq![s@.subrange(p as int, n as int)]);
    }
    let piece = trim(s.substring_char(p, n));
    out.push(piece);
    proof {
        let f = |piece: Seq<char>| trimmed(piece);
        assert(seq![s@.subrange(p as int, n as int)].map_values(f)
            =~= seq![trimmed(s@.subrange(p as int, n as int))]);
    }
    out
}

} // verus!
