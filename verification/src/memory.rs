//! The integrity of a Task's memory: phase files named `PHASE-NN.md`,
//! numbered contiguously from 0, and memory texts within their size limits.
use crate::audit::Audit;
use crate::member::{Finding, noted, shown};
use crate::text::{decimal, digits, join, render_u64, render_usize, same};
use vstd::prelude::*;

verus! {

/// The value of a text of decimal digits.
pub open spec fn value(s: Seq<char>) -> nat
    decreases s.len(),
{
    if s.len() == 0 {
        0
    } else {
        value(s.drop_last()) * 10 + ((s.last() as u32) - ('0' as u32)) as nat
    }
}

/// A decimal digit character.
pub open spec fn is_digit(c: char) -> bool {
    '0' <= c && c <= '9'
}

/// A number written with at least two digits.
pub open spec fn pad2(n: nat) -> Seq<char> {
    if n < 10 {
        seq!['0'] + digits(n)
    } else {
        digits(n)
    }
}

/// The file name of memory phase `n`: `PHASE-` and the number with at
/// least two digits, then `.md`.
pub open spec fn phase_name(n: nat) -> Seq<char> {
    "PHASE-"@ + pad2(n) + ".md"@
}

proof fn lemma_digits(n: nat)
    ensures
        forall|i: int| 0 <= i < digits(n).len() ==> is_digit(#[trigger] digits(n)[i]),
        digits(n).len() >= 1,
        value(digits(n)) == n,
    decreases n,
{
    if n >= 10 {
        lemma_digits(n / 10);
        let d = digits(n);
        let c = (('0' as u32) + (n % 10)) as char;
        assert(d == digits(n / 10).push(c));
        assert(d.drop_last() =~= digits(n / 10));
        assert(d.last() == c);
        assert(forall|i: int| 0 <= i < d.len() - 1 ==> d[i] == digits(n / 10)[i]);
        assert(c as u32 == ('0' as u32) + (n % 10));
        assert(value(d) == value(digits(n / 10)) * 10 + (n % 10));
        assert((n / 10) * 10 + n % 10 == n);
    } else {
        let c = (('0' as u32) + n) as char;
        assert(digits(n) == seq![c]);
        assert(digits(n).drop_last() =~= Seq::<char>::empty());
        assert(c as u32 == ('0' as u32) + n);
        assert(value(digits(n)) == value(Seq::<char>::empty()) * 10 + n);
    }
}

proof fn lemma_value_zero(s: Seq<char>)
    ensures
        value(seq!['0'] + s) == value(s),
    decreases s.len(),
{
    let z = seq!['0'] + s;
    if s.len() == 0 {
        assert(z.drop_last() =~= Seq::<char>::empty());
        assert(z.last() == '0');
        assert(value(z) == value(z.drop_last()) * 10 + (('0' as u32) - ('0' as u32)) as nat);
    } else {
        lemma_value_zero(s.drop_last());
        assert(z.drop_last() =~= seq!['0'] + s.drop_last());
        assert(z.last() == s.last());
        assert(value(z) == value(z.drop_last()) * 10 + ((s.last() as u32) - ('0' as u32)) as nat);
    }
}

proof fn lemma_value_grows(s: Seq<char>, k: int)
    requires
        0 <= k <= s.len(),
    ensures
        value(s.take(k)) <= value(s),
    decreases s.len() - k,
{
    if k < s.len() {
        lemma_value_grows(s.drop_last(), k);
        assert(s.drop_last().take(k) =~= s.take(k));
    } else {
        assert(s.take(k) =~= s);
    }
}

pub proof fn lemma_pad2(n: nat)
    ensures
        pad2(n).len() >= 2,
        forall|i: int| 0 <= i < pad2(n).len() ==> is_digit(#[trigger] pad2(n)[i]),
        value(pad2(n)) == n,
{
    lemma_digits(n);
    if n < 10 {
        lemma_value_zero(digits(n));
        assert(digits(n).len() == 1);
        let p = pad2(n);
        assert forall|i: int| 0 <= i < p.len() implies is_digit(#[trigger] p[i]) by {
            if i > 0 {
                assert(p[i] == digits(n)[i - 1]);
            }
        }
    } else {
        assert(digits(n).len() >= 2) by {
            assert(digits(n) == digits(n / 10).push((('0' as u32) + (n % 10)) as char));
            lemma_digits(n / 10);
        }
    }
}

/// The number of a memory phase file, or nothing when the name is not the
/// canonical name of a `u32`.
pub fn number(name: &str) -> (r: Option<u32>)
    ensures
        match r {
            Some(n) => name@ == phase_name(n as nat),
            None => forall|n: u32| name@ != #[trigger] phase_name(n as nat),
        },
{
    proof {
        reveal_strlit("PHASE-");
        reveal_strlit(".md");
    }
    let len = name.unicode_len();
    let ghost s = name@;
    if len < 11 {
        proof {
            assert forall|n: u32| s != #[trigger] phase_name(n as nat) by {
                lemma_pad2(n as nat);
            }
        }
        return None;
    }
    let head = name.substring_char(0, 6);
    let tail = name.substring_char(len - 3, len);
    if !same(head, "PHASE-") || !same(tail, ".md") {
        proof {
            assert forall|n: u32| s != #[trigger] phase_name(n as nat) by {
                lemma_pad2(n as nat);
                let p = phase_name(n as nat);
                if s == p {
                    assert(head@ =~= p.subrange(0, 6));
                    assert(p.subrange(0, 6) =~= "PHASE-"@);
                    assert(tail@ =~= p.subrange(len - 3, len as int));
                    assert(p.subrange(len - 3, len as int) =~= ".md"@);
                }
            }
        }
        return None;
    }
    let ghost mid = s.subrange(6, len - 3);
    let mut v: u32 = 0;
    let mut i: usize = 6;
    while i < len - 3
        invariant
            11 <= len,
            len == s.len(),
            s == name@,
            6 <= i <= len - 3,
            mid == s.subrange(6, len - 3),
            head@ == "PHASE-"@,
            tail@ == ".md"@,
            head@ == s.subrange(0, 6),
            tail@ == s.subrange(len - 3, len as int),
            forall|k: int| 0 <= k < i - 6 ==> is_digit(#[trigger] mid[k]),
            v == value(mid.take(i - 6)),
        decreases len - 3 - i,
    {
        let c = name.get_char(i);
        proof {
            assert(mid[i - 6] == c);
        }
        if !('0' <= c && c <= '9') {
            proof {
                assert forall|n: u32| s != #[trigger] phase_name(n as nat) by {
                    lemma_pad2(n as nat);
                    let p = phase_name(n as nat);
                    if s == p {
                        assert(mid =~= pad2(n as nat));
                    }
                }
            }
            return None;
        }
        let d = (c as u32) - ('0' as u32);
        proof {
            let t = mid.take(i - 5);
            assert(t.drop_last() =~= mid.take(i - 6));
            assert(t.last() == c);
        }
        let grown = match v.checked_mul(10) {
            Some(w) => w.checked_add(d),
            None => None,
        };
        match grown {
            Some(w) => {
                v = w;
            },
            None => {
                proof {
                    assert(value(mid.take(i - 5)) > u32::MAX);
                    assert forall|n: u32| s != #[trigger] phase_name(n as nat) by {
                        lemma_pad2(n as nat);
                        let p = phase_name(n as nat);
                        if s == p {
                            assert(mid =~= pad2(n as nat));
                            lemma_value_grows(mid, i - 5);
                        }
                    }
                }
                return None;
            },
        }
        i = i + 1;
    }
    proof {
        assert(mid.take(mid.len() as int) =~= mid);
    }
    let digits_text = render_u64(v as u64);
    let padded = if v < 10 {
        join("0", digits_text.as_str())
    } else {
        digits_text
    };
    let a = join("PHASE-", padded.as_str());
    let canonical = join(a.as_str(), ".md");
    proof {
        reveal_strlit("0");
        assert(padded@ =~= pad2(v as nat));
        assert(canonical@ =~= phase_name(v as nat));
    }
    if same(canonical.as_str(), name) {
        return Some(v);
    }
    proof {
        assert forall|n: u32| s != #[trigger] phase_name(n as nat) by {
            lemma_pad2(n as nat);
            let p = phase_name(n as nat);
            if s == p {
                assert(mid =~= pad2(n as nat));
            }
        }
    }
    None
}

/// Records a fault, keeping the record of the earlier ones.
fn note(audit: &mut Audit, kind: &str, path: &str, message: String)
    ensures
        final(audit).target == old(audit).target,
        final(audit).observations == old(audit).observations,
        shown(final(audit).faults@) == shown(old(audit).faults@).push((kind@, path@, message@)),
{
    let ghost before = audit.faults@;
    audit.fault(kind, path, message);
    proof {
        assert(audit.faults@ =~= before.push(audit.faults@.last()));
        assert(shown(audit.faults@) =~= shown(before).push((kind@, path@, message@)));
    }
}

/// Reads one entry of a memory's phases directory: its number when it is a
/// regular file with a UTF-8 canonical phase name, else a memory fault.
pub fn phase_entry(audit: &mut Audit, path: &str, is_file: bool, name: Option<&str>) -> (r: Option<u32>)
    ensures
        final(audit).target == old(audit).target,
        final(audit).observations == old(audit).observations,
        !is_file ==> r is None && shown(final(audit).faults@) == shown(old(audit).faults@).push(("memory"@, path@, "memory phase entry is not a regular file"@)),
        is_file && name is None ==> r is None && shown(final(audit).faults@) == shown(old(audit).faults@).push(("memory"@, path@, "memory phase name is not UTF-8"@)),
        is_file ==> (name matches Some(n) ==> match r {
            Some(k) => n@ == phase_name(k as nat) && final(audit).faults == old(audit).faults,
            None => (forall|k: u32| n@ != #[trigger] phase_name(k as nat)) && shown(final(audit).faults@) == shown(old(audit).faults@).push(("memory"@, path@, "malformed memory phase name"@)),
        }),
{
    if !is_file {
        note(audit, "memory", path, String::from_str("memory phase entry is not a regular file"));
        return None;
    }
    let n = match name {
        None => {
            note(audit, "memory", path, String::from_str("memory phase name is not UTF-8"));
            return None;
        },
        Some(n) => n,
    };
    match number(n) {
        Some(k) => Some(k),
        None => {
            note(audit, "memory", path, String::from_str("malformed memory phase name"));
            None
        },
    }
}

/// Inserts `x` after every phase whose number does not exceed it.
pub open spec fn slot(s: Seq<(u32, String)>, x: (u32, String)) -> Seq<(u32, String)>
    decreases s.len(),
{
    if s.len() == 0 {
        seq![x]
    } else if x.0 < s[0].0 {
        seq![x] + s
    } else {
        seq![s[0]] + slot(s.drop_first(), x)
    }
}

/// The phases in number order, equal numbers keeping their order.
pub open spec fn by_number(s: Seq<(u32, String)>) -> Seq<(u32, String)>
    decreases s.len(),
{
    if s.len() == 0 {
        Seq::empty()
    } else {
        slot(by_number(s.drop_last()), s.last())
    }
}

proof fn lemma_slot(s: Seq<(u32, String)>, x: (u32, String), p: int)
    requires
        0 <= p <= s.len(),
        forall|j: int| 0 <= j < p ==> !(x.0 < (#[trigger] s[j]).0),
        p == s.len() || x.0 < s[p].0,
    ensures
        slot(s, x) == s.insert(p, x),
    decreases p,
{
    if p == 0 {
        if s.len() == 0 {
            assert(s.insert(0, x) =~= seq![x]);
        } else {
            assert(s.insert(0, x) =~= seq![x] + s);
        }
    } else {
        lemma_slot(s.drop_first(), x, p - 1);
        assert(s.insert(p, x) =~= seq![s[0]] + s.drop_first().insert(p - 1, x));
    }
}

/// Sorts phases by number, keeping the order of equal numbers.
pub fn sort_phases(v: Vec<(u32, String)>) -> (r: Vec<(u32, String)>)
    ensures
        r@ == by_number(v@),
{
    let mut out: Vec<(u32, String)> = Vec::new();
    let mut i: usize = 0;
    proof {
        assert(v@.take(0) =~= Seq::<(u32, String)>::empty());
    }
    while i < v.len()
        invariant
            i <= v@.len(),
            out@ == by_number(v@.take(i as int)),
        decreases v@.len() - i,
    {
        let x = (v[i].0, v[i].1.clone());
        let mut p: usize = 0;
        while p < out.len() && !(x.0 < out[p].0)
            invariant
                p <= out@.len(),
                forall|j: int| 0 <= j < p ==> !(x.0 < (#[trigger] out@[j]).0),
            decreases out@.len() - p,
        {
            p = p + 1;
        }
        proof {
            assert(x == v@[i as int]);
            lemma_slot(out@, x, p as int);
            let t = v@.take(i + 1);
            assert(t.drop_last() =~= v@.take(i as int));
            assert(t.last() == v@[i as int]);
        }
        out.insert(p, x);
        i = i + 1;
    }
    proof {
        assert(v@.take(v@.len() as int) =~= v@);
    }
    out
}

/// The faults for phases out of place, in number order.
pub open spec fn gaps(sorted: Seq<(u32, String)>) -> Seq<Finding>
    decreases sorted.len(),
{
    if sorted.len() == 0 {
        Seq::empty()
    } else {
        let k = sorted.len() - 1;
        gaps(sorted.drop_last()) + if sorted.last().0 != k {
            seq![("memory"@, sorted.last().1@, "memory phases must be contiguous from 0; expected "@ + decimal(k) + ", found "@ + decimal(sorted.last().0 as int))]
        } else {
            Seq::<Finding>::empty()
        }
    }
}

/// Checks that a memory's phases, sorted by number, run 0, 1, 2, ... and
/// observes when sixteen or more are retained.
pub fn contiguity(audit: &mut Audit, phases: &str, numbered: Vec<(u32, String)>)
    ensures
        final(audit).target == old(audit).target,
        shown(final(audit).faults@) == shown(old(audit).faults@) + gaps(by_number(numbered@)),
        numbered@.len() < 16 ==> final(audit).observations == old(audit).observations,
        numbered@.len() >= 16 ==> noted(final(audit).observations@) == noted(old(audit).observations@).push(("memory"@, phases@, decimal(numbered@.len() as int) + " phases retained; consider a smaller follow-up task or deliberate compaction"@)),
{
    let count = numbered.len();
    let sorted = sort_phases(numbered);
    let ghost f0 = shown(audit.faults@);
    let ghost all = sorted@;
    let mut i: usize = 0;
    proof {
        assert(all.take(0) =~= Seq::<(u32, String)>::empty());
        assert(f0 + Seq::<Finding>::empty() =~= f0);
        assert(sorted@.len() == count) by {
            lemma_by_number_len(numbered@);
        }
    }
    while i < sorted.len()
        invariant
            i <= sorted@.len(),
            all == sorted@,
            audit.target == old(audit).target,
            audit.observations == old(audit).observations,
            f0 == shown(old(audit).faults@),
            shown(audit.faults@) == f0 + gaps(all.take(i as int)),
        decreases sorted@.len() - i,
    {
        proof {
            let t = all.take(i + 1);
            assert(t.drop_last() =~= all.take(i as int));
            assert(t.last() == all[i as int]);
        }
        let ghost prior = gaps(all.take(i as int));
        let (n, path) = (sorted[i].0, &sorted[i].1);
        if (n as u64) != (i as u64) {
            let a = join("memory phases must be contiguous from 0; expected ", render_usize(i).as_str());
            let b = join(a.as_str(), ", found ");
            note(audit, "memory", path.as_str(), join(b.as_str(), render_u64(n as u64).as_str()));
            proof {
                reveal_strlit("memory");
                let x = ("memory"@, path@, "memory phases must be contiguous from 0; expected "@ + decimal(i as int) + ", found "@ + decimal(n as int));
                assert(f0 + prior + seq![x] =~= (f0 + prior).push(x));
            }
        } else {
            proof {
                assert(f0 + prior + Seq::<Finding>::empty() =~= f0 + prior);
            }
        }
        i = i + 1;
    }
    proof {
        assert(all.take(all.len() as int) =~= all);
    }
    if count >= 16 {
        let ghost o0 = audit.observations@;
        let text = join(render_usize(count).as_str(), " phases retained; consider a smaller follow-up task or deliberate compaction");
        audit.observe("memory", phases, text);
        proof {
            reveal_strlit("memory");
            assert(audit.observations@ =~= o0.push(audit.observations@.last()));
            assert(noted(audit.observations@) =~= noted(o0).push(crate::member::told(audit.observations@.last())));
        }
    }
}

proof fn lemma_slot_len(s: Seq<(u32, String)>, x: (u32, String))
    ensures
        slot(s, x).len() == s.len() + 1,
    decreases s.len(),
{
    if s.len() > 0 && !(x.0 < s[0].0) {
        lemma_slot_len(s.drop_first(), x);
    }
}

proof fn lemma_by_number_len(s: Seq<(u32, String)>)
    ensures
        by_number(s).len() == s.len(),
    decreases s.len(),
{
    if s.len() > 0 {
        lemma_by_number_len(s.drop_last());
        lemma_slot_len(by_number(s.drop_last()), s.last());
    }
}

/// Refuses to read a memory text larger than its limit; `len` is its size
/// in bytes.
pub fn within_limit(audit: &mut Audit, path: &str, len: u64, max: usize, label: &str) -> (r: bool)
    ensures
        final(audit).target == old(audit).target,
        final(audit).observations == old(audit).observations,
        len <= max ==> r && final(audit).faults == old(audit).faults,
        len > max ==> !r && shown(final(audit).faults@) == shown(old(audit).faults@).push(("memory"@, path@, label@ + " is "@ + decimal(len as int) + " bytes; maximum is "@ + decimal(max as int))),
{
    if len as u128 > max as u128 {
        let a = join(label, " is ");
        let b = join(a.as_str(), render_u64(len).as_str());
        let c = join(b.as_str(), " bytes; maximum is ");
        note(audit, "memory", path, join(c.as_str(), render_usize(max).as_str()));
        proof {
            reveal_strlit("memory");
        }
        return false;
    }
    true
}

} // verus!
