use vstd::prelude::*;
use vstd::string::StrSliceExecFns;

verus! {

/// An ASCII decimal digit.
pub open spec fn is_digit(c: char) -> bool {
    48 <= (c as u32) && (c as u32) <= 57
}

/// The value of one ASCII decimal digit.
pub open spec fn digit_val(c: char) -> nat {
    ((c as u32) - 48) as nat
}

/// A capture reference in a replacement template is a `$` followed by
/// one or more ASCII digits, read as one maximal run; `$$` stands for a
/// literal dollar sign, and any other `$` is left alone. The template is
/// well formed for a pattern with `groups` capture groups (group 0, the
/// whole match, included) iff every numeric reference names a group
/// below `groups`. `refs_ok_from` scans from position `i` on.
pub open spec fn refs_ok_from(t: Seq<char>, i: int, groups: nat) -> bool
    decreases t.len() - i, 0int,
    when 0 <= i <= t.len()
{
    if i >= t.len() {
        true
    } else if t[i] == '$' && i + 1 < t.len() && t[i + 1] == '$' {
        refs_ok_from(t, i + 2, groups)
    } else if t[i] == '$' && i + 1 < t.len() && is_digit(t[i + 1]) {
        ref_scan(t, i + 2, digit_val(t[i + 1]), groups)
    } else {
        refs_ok_from(t, i + 1, groups)
    }
}

/// Inside a numeric capture reference whose digits so far have the value
/// `acc`: consume the remaining digits, then require the referenced
/// group to exist and the rest of the template to be well formed.
pub open spec fn ref_scan(t: Seq<char>, i: int, acc: nat, groups: nat) -> bool
    decreases t.len() - i, 1int,
    when 0 <= i <= t.len()
{
    if i < t.len() && is_digit(t[i]) {
        ref_scan(t, i + 1, acc * 10 + digit_val(t[i]), groups)
    } else {
        acc < groups && refs_ok_from(t, i, groups)
    }
}

/// Every numeric capture reference of the template names a group below
/// `groups`.
pub open spec fn refs_ok(t: Seq<char>, groups: nat) -> bool {
    refs_ok_from(t, 0, groups)
}

fn is_digit_exec(c: char) -> (r: bool)
    ensures
        r == is_digit(c),
{
    let u = c as u32;
    48 <= u && u <= 57
}

fn digit_val_exec(c: char) -> (d: usize)
    requires
        is_digit(c),
    ensures
        d as nat == digit_val(c),
        d <= 9,
{
    ((c as u32) - 48) as usize
}

/// Checks that every numeric capture reference of template `t` names a
/// group below `groups`; a run of digits too large for `usize` is out of
/// range for any group count.
pub fn template_ok(t: &str, groups: usize) -> (r: bool)
    ensures
        r == refs_ok(t@, groups as nat),
{
    let n = t.unicode_len();
    let ghost gg: nat = groups as nat;
    let mut i: usize = 0;
    let mut ok = true;
    while i < n
        invariant
            i <= n,
            n == t@.len(),
            gg == groups as nat,
            refs_ok(t@, gg) == (ok && refs_ok_from(t@, i as int, gg)),
        decreases n - i,
    {
        let c = t.get_char(i);
        if c == '$' && i + 1 < n {
            let c2 = t.get_char(i + 1);
            if c2 == '$' {
                i = i + 2;
            } else if is_digit_exec(c2) {
                let mut j: usize = i + 2;
                let mut acc: usize = digit_val_exec(c2);
                let mut over = false;
                let ghost mut acc_s: nat = digit_val(c2);
                while j < n
                    invariant
                        i + 2 <= j <= n,
                        n == t@.len(),
                        gg == groups as nat,
                        ref_scan(t@, (i + 2) as int, digit_val(t@[i as int + 1]), gg)
                            == ref_scan(t@, j as int, acc_s, gg),
                        !over ==> acc_s == acc as nat,
                        over ==> acc_s > usize::MAX as nat,
                    ensures
                        i + 2 <= j <= n,
                        ref_scan(t@, (i + 2) as int, digit_val(t@[i as int + 1]), gg)
                            == ref_scan(t@, j as int, acc_s, gg),
                        !over ==> acc_s == acc as nat,
                        over ==> acc_s > usize::MAX as nat,
                        j == n || !is_digit(t@[j as int]),
                    decreases n - j,
                {
                    let cj = t.get_char(j);
                    if !is_digit_exec(cj) {
                        break;
                    }
                    let d = digit_val_exec(cj);
                    proof {
                        assert(ref_scan(t@, j as int, acc_s, gg)
                            == ref_scan(t@, j as int + 1, acc_s * 10 + digit_val(cj), gg));
                    }
                    if !over {
                        if acc <= (usize::MAX - d) / 10 {
                            proof {
                                assert(acc * 10 <= ((usize::MAX - d) / 10) * 10) by (nonlinear_arith)
                                    requires acc <= (usize::MAX - d) / 10;
                                assert(((usize::MAX - d) / 10) * 10 <= usize::MAX - d) by (nonlinear_arith)
                                    requires d <= 9;
                            }
                            acc = acc * 10 + d;
                        } else {
                            proof {
                                assert(acc * 10 + d > usize::MAX) by (nonlinear_arith)
                                    requires acc > (usize::MAX - d) / 10, d <= 9;
                            }
                            over = true;
                        }
                    } else {
                        proof {
                            assert(acc_s * 10 + digit_val(cj) > usize::MAX as nat) by (nonlinear_arith)
                                requires acc_s > usize::MAX as nat;
                        }
                    }
                    proof {
                        acc_s = acc_s * 10 + digit_val(cj);
                    }
                    j = j + 1;
                }
                let good = !over && acc < groups;
                proof {
                    assert(ref_scan(t@, j as int, acc_s, gg) == (acc_s < gg && refs_ok_from(t@, j as int, gg)));
                    assert(good == (acc_s < gg));
                    assert(refs_ok_from(t@, i as int, gg) == ref_scan(t@, (i + 2) as int, digit_val(t@[i as int + 1]), gg));
                }
                ok = ok && good;
                i = j;
            } else {
                proof {
                    assert(refs_ok_from(t@, i as int, gg) == refs_ok_from(t@, i as int + 1, gg));
                }
                i = i + 1;
            }
        } else {
            proof {
                assert(refs_ok_from(t@, i as int, gg) == refs_ok_from(t@, i as int + 1, gg));
            }
            i = i + 1;
        }
    }
    ok
}

} // verus!
