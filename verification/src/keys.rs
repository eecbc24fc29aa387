//! Small verified helpers over lists of integer keys.
use vstd::prelude::*;

verus! {

/// Whether `x` occurs in `s`.
pub fn member(s: &Vec<i64>, x: i64) -> (r: bool)
    ensures
        r == s@.contains(x),
{
    let mut i: usize = 0;
    while i < s.len()
        invariant
            i <= s@.len(),
            forall|j: int| 0 <= j < i ==> s@[j] != x,
        decreases s@.len() - i,
    {
        if s[i] == x {
            assert(s@[i as int] == x);
            return true;
        }
        i = i + 1;
    }
    false
}

/// Strictly increasing integers.
pub open spec fn ascending(s: Seq<i64>) -> bool {
    forall|i: int, j: int| 0 <= i < j < s.len() ==> s[i] < s[j]
}

/// Adds `x` to an ascending list, keeping it ascending and free of repeats.
pub fn ascend(s: &mut Vec<i64>, x: i64)
    requires
        ascending(old(s)@),
    ensures
        ascending(final(s)@),
        final(s)@.contains(x),
        forall|y: i64| #[trigger] old(s)@.contains(y) ==> final(s)@.contains(y),
        forall|y: i64| #[trigger] final(s)@.contains(y) ==> (old(s)@.contains(y) || y == x),
{
    let mut j: usize = 0;
    while j < s.len() && s[j] < x
        invariant
            j <= s@.len(),
            s@ == old(s)@,
            ascending(s@),
            forall|t: int| 0 <= t < j ==> s@[t] < x,
        decreases s@.len() - j,
    {
        j = j + 1;
    }
    if j < s.len() && s[j] == x {
        assert(s@[j as int] == x);
        return;
    }
    let ghost before = s@;
    assert(before == old(s)@);
    s.insert(j, x);
    proof {
        assert forall|a: int, b: int| 0 <= a < b < s@.len() implies s@[a] < s@[b] by {
            if b < j {
                assert(s@[a] == before[a] && s@[b] == before[b]);
            } else if a > j {
                assert(s@[a] == before[a - 1] && s@[b] == before[b - 1]);
            } else if a == j {
                assert(s@[b] == before[b - 1]);
                assert(before[j as int] > x);
            } else {
                assert(s@[a] == before[a]);
            }
        }
        assert forall|y: i64| s@.contains(y) <==> (before.contains(y) || y == x) by {
            if s@.contains(y) {
                let t = choose|t: int| 0 <= t < s@.len() && s@[t] == y;
                if t < j {
                    assert(before[t] == y);
                } else if t > j {
                    assert(before[t - 1] == y);
                }
            }
            if before.contains(y) {
                let t = choose|t: int| 0 <= t < before.len() && before[t] == y;
                if t < j {
                    assert(s@[t] == y);
                } else {
                    assert(s@[t + 1] == y);
                }
            }
            if y == x {
                assert(s@[j as int] == x);
            }
        }
        assert(s@[j as int] == x);
        assert(s@.contains(x));
    }
}

} // verus!
