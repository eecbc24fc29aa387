//! The check that a migration carried a legacy resource's extra fields as
//! its Addition facts: one per field, ranked in field-name order.
use crate::census::mismatch;
use crate::error::Error;
use crate::prepare::raises;
use crate::text::{decimal, join, render_i64, same};
use crate::world::{lex_less, less};
use vstd::prelude::*;

verus! {

/// A stored Addition row as the check reads it: the resource it belongs to
/// (under the relation checked), its rank, name and body.
#[derive(Clone, Debug, PartialEq, Eq)]
pub struct AdditionRow {
    pub parent: Option<i64>,
    pub rank: Option<i64>,
    pub name: Option<String>,
    pub body: Option<String>,
}

/// An Addition as compared: rank, name, body.
pub type Held = (i64, Seq<char>, Seq<char>);

pub open spec fn text_or_empty(t: Option<String>) -> Seq<char> {
    match t {
        Some(s) => s@,
        None => Seq::empty(),
    }
}

/// A row as compared: a missing rank reads 0, a missing name or body the
/// empty text.
pub open spec fn held_of(r: AdditionRow) -> Held {
    (match r.rank {
        Some(k) => k,
        None => 0,
    }, text_or_empty(r.name), text_or_empty(r.body))
}

/// The rows of one resource, in the order stored, as compared.
pub open spec fn rows_held(rows: Seq<AdditionRow>, root: i64) -> Seq<Held>
    decreases rows.len(),
{
    if rows.len() == 0 {
        Seq::empty()
    } else {
        rows_held(rows.drop_last(), root) + if rows.last().parent == Some(root) {
            seq![held_of(rows.last())]
        } else {
            Seq::<Held>::empty()
        }
    }
}

/// Tuple order: by rank, then name, then body.
pub open spec fn held_less(a: Held, b: Held) -> bool {
    ||| a.0 < b.0
    ||| (a.0 == b.0 && lex_less(a.1, b.1))
    ||| (a.0 == b.0 && a.1 == b.1 && lex_less(a.2, b.2))
}

/// Inserts `x` after every item that does not come after it.
pub open spec fn slot(s: Seq<Held>, x: Held) -> Seq<Held>
    decreases s.len(),
{
    if s.len() == 0 {
        seq![x]
    } else if held_less(x, s[0]) {
        seq![x] + s
    } else {
        seq![s[0]] + slot(s.drop_first(), x)
    }
}

/// The items in tuple order.
pub open spec fn in_order(s: Seq<Held>) -> Seq<Held>
    decreases s.len(),
{
    if s.len() == 0 {
        Seq::empty()
    } else {
        slot(in_order(s.drop_last()), s.last())
    }
}

/// The Additions a resource's extra fields call for: the `i`-th field in
/// name order at rank `i + 1`, with its name and its value as text.
pub open spec fn wanted(expected: Seq<(String, String)>) -> Seq<Held> {
    Seq::new(expected.len(), |i: int| ((i + 1) as i64, expected[i].0@, expected[i].1@))
}

pub open spec fn view_of(t: (i64, String, String)) -> Held {
    (t.0, t.1@, t.2@)
}

pub open spec fn views(s: Seq<(i64, String, String)>) -> Seq<Held> {
    s.map_values(|t: (i64, String, String)| view_of(t))
}

proof fn lemma_slot(s: Seq<Held>, x: Held, p: int)
    requires
        0 <= p <= s.len(),
        forall|j: int| 0 <= j < p ==> !held_less(x, #[trigger] s[j]),
        p == s.len() || held_less(x, s[p]),
    ensures
        slot(s, x) == s.insert(p, x),
    decreases p,
{
    if p == 0 {
        if s.len() == 0 {
            assert(s.insert(0, x) =~= seq![x]);
        } else {
            assert(s.insert(0, x) =~= seq![x] + s);
        }
    } else {
        lemma_slot(s.drop_first(), x, p - 1);
        assert(s.insert(p, x) =~= seq![s[0]] + s.drop_first().insert(p - 1, x));
    }
}

fn before(a: &(i64, String, String), b: &(i64, String, String)) -> (r: bool)
    ensures
        r == held_less(view_of(*a), view_of(*b)),
{
    if a.0 != b.0 {
        return a.0 < b.0;
    }
    if less(a.1.as_str(), b.1.as_str()) {
        return true;
    }
    same(a.1.as_str(), b.1.as_str()) && less(a.2.as_str(), b.2.as_str())
}

fn text(t: &Option<String>) -> (r: String)
    ensures
        r@ == text_or_empty(*t),
{
    match t {
        Some(s) => s.clone(),
        None => String::new(),
    }
}

/// The fault of Additions that differ from the resource's fields.
pub open spec fn differ(relation: Seq<char>, root: i64) -> (Seq<char>, Seq<char>) {
    ("concord.migration.mismatch"@, "Addition facts differ for "@ + relation + " Resource "@ + decimal(root as int))
}

/// Checks that the Additions stored for the resource `root` under
/// `relation`, in tuple order, are exactly the resource's extra fields
/// (`expected`, in name order, each with its value written as text).
pub fn check(rows: &[AdditionRow], relation: &str, root: i64, expected: &Vec<(String, String)>) -> (r: Result<(), Error>)
    requires
        expected@.len() < i64::MAX,
    ensures
        in_order(rows_held(rows@, root)) == wanted(expected@) ==> r is Ok,
        in_order(rows_held(rows@, root)) != wanted(expected@) ==> (r matches Err(e) && raises(e, differ(relation@, root))),
{
    let mut out: Vec<(i64, String, String)> = Vec::new();
    let mut i: usize = 0;
    proof {
        assert(rows@.take(0) =~= Seq::<AdditionRow>::empty());
        assert(views(out@) =~= Seq::<Held>::empty());
    }
    while i < rows.len()
        invariant
            i <= rows@.len(),
            views(out@) == in_order(rows_held(rows@.take(i as int), root)),
        decreases rows@.len() - i,
    {
        proof {
            let t = rows@.take(i + 1);
            assert(t.drop_last() =~= rows@.take(i as int));
            assert(t.last() == rows@[i as int]);
        }
        let row = &rows[i];
        if row.parent == Some(root) {
            let rank = match row.rank {
                Some(k) => k,
                None => 0,
            };
            let x = (rank, text(&row.name), text(&row.body));
            let mut p: usize = 0;
            while p < out.len() && !before(&x, &out[p])
                invariant
                    p <= out@.len(),
                    forall|j: int| 0 <= j < p ==> !held_less(view_of(x), #[trigger] views(out@)[j]),
                decreases out@.len() - p,
            {
                p = p + 1;
            }
            let ghost old_views = views(out@);
            proof {
                lemma_slot(old_views, view_of(x), p as int);
                let h = rows_held(rows@.take(i as int), root);
                assert(rows_held(rows@.take(i + 1), root) =~= h.push(held_of(rows@[i as int])));
                assert(h.push(held_of(rows@[i as int])).drop_last() =~= h);
            }
            out.insert(p, x);
            proof {
                assert(views(out@) =~= old_views.insert(p as int, view_of(x)));
            }
        } else {
            proof {
                let h = rows_held(rows@.take(i as int), root);
                assert(rows_held(rows@.take(i + 1), root) =~= h);
            }
        }
        i = i + 1;
    }
    proof {
        assert(rows@.take(rows@.len() as int) =~= rows@);
    }
    let ghost got = views(out@);
    let ghost want = wanted(expected@);
    let mut agree = out.len() == expected.len();
    if agree {
        let mut k: usize = 0;
        while k < out.len()
            invariant
                k <= out@.len(),
                out@.len() == expected@.len(),
                expected@.len() < i64::MAX,
                got == views(out@),
                want == wanted(expected@),
                agree == forall|j: int| 0 <= j < k ==> got[j] == #[trigger] want[j],
            decreases out@.len() - k,
        {
            let ghost before_agree = agree;
            let same_here = out[k].0 == (k as i64) + 1 && same(out[k].1.as_str(), expected[k].0.as_str()) && same(out[k].2.as_str(), expected[k].1.as_str());
            proof {
                assert(same_here == (got[k as int] == want[k as int]));
            }
            agree = agree && same_here;
            proof {
                if before_agree && same_here {
                    assert forall|j: int| 0 <= j < k + 1 implies got[j] == #[trigger] want[j] by {
                        if j < k {
                            assert(got[j] == want[j]);
                        }
                    }
                }
                if !agree {
                    if !before_agree {
                        let w = choose|j: int| 0 <= j < k && got[j] != want[j];
                        assert(!(got[w] == want[w]));
                    } else {
                        assert(!(got[k as int] == want[k as int]));
                    }
                }
            }
            k = k + 1;
        }
        proof {
            if agree {
                assert(got =~= want);
            }
        }
    }
    if agree {
        return Ok(());
    }
    let a = join("Addition facts differ for ", relation);
    let b = join(a.as_str(), " Resource ");
    Err(mismatch(join(b.as_str(), render_i64(root).as_str())))
}

} // verus!
