//! The order in which functions are reported: those with a known stack usage
//! first, largest usage first and ties by address; then those without one,
//! by address.
use vstd::prelude::*;

verus! {

/// Entry `x` comes before entry `y` in a report; an entry is an address and
/// the stack usage known for it.
pub open spec fn precedes(x: (u64, Option<u64>), y: (u64, Option<u64>)) -> bool {
    match (x.1, y.1) {
        (Some(a), Some(b)) => a > b || (a == b && x.0 < y.0),
        (Some(_), None) => true,
        (None, Some(_)) => false,
        (None, None) => x.0 < y.0,
    }
}

/// The addresses of `s` are strictly increasing, as a map by address gives them.
pub open spec fn by_address(s: Seq<(u64, Option<u64>)>) -> bool {
    forall|i: int, j: int| 0 <= i < j < s.len() ==> (#[trigger] s[i]).0 < (#[trigger] s[j]).0
}

/// Every entry of `s` precedes every later one.
pub open spec fn in_report_order(s: Seq<(u64, Option<u64>)>) -> bool {
    forall|i: int, j: int| 0 <= i < j < s.len() ==> precedes(#[trigger] s[i], #[trigger] s[j])
}

proof fn lemma_precedes_order(x: (u64, Option<u64>), y: (u64, Option<u64>), z: (u64, Option<u64>))
    ensures
        x.0 != y.0 ==> precedes(x, y) || precedes(y, x),
        precedes(x, y) && precedes(y, z) ==> precedes(x, z),
        !(precedes(x, y) && precedes(y, x)),
{
}

/// The entries of `entries` in report order: the same entries, each once,
/// those with a stack usage first (largest first, ties by address), then
/// the others by address.
pub fn report_order(entries: &Vec<(u64, Option<u64>)>) -> (r: Vec<(u64, Option<u64>)>)
    requires
        by_address(entries@),
    ensures
        r@.len() == entries@.len(),
        forall|e: (u64, Option<u64>)| #[trigger] r@.contains(e) <==> entries@.contains(e),
        in_report_order(r@),
{
    let mut r: Vec<(u64, Option<u64>)> = Vec::new();
    let mut i: usize = 0;
    while i < entries.len()
        invariant
            by_address(entries@),
            i <= entries@.len(),
            r@.len() == i,
            forall|e: (u64, Option<u64>)| #[trigger] r@.contains(e) <==> entries@.take(i as int).contains(e),
            in_report_order(r@),
        decreases entries.len() - i,
    {
        let e = entries[i];
        let mut pos: usize = 0;
        while pos < r.len() && !before(e, r[pos])
            invariant
                pos <= r@.len(),
                forall|k: int| 0 <= k < pos ==> !precedes(e, #[trigger] r@[k]),
            decreases r.len() - pos,
        {
            pos = pos + 1;
        }
        let ghost old_r = r@;
        proof {
            assert forall|k: int| 0 <= k < old_r.len() implies (#[trigger] old_r[k]).0 != e.0 by {
                assert(old_r.contains(old_r[k]));
                assert(entries@.take(i as int).contains(old_r[k]));
                let q = choose|q: int| 0 <= q < i && #[trigger] entries@.take(i as int)[q] == old_r[k];
                assert(entries@[q] == old_r[k]);
            }
        }
        r.insert(pos, e);
        proof {
            assert forall|a: int, b: int| 0 <= a < b < r@.len() implies precedes(#[trigger] r@[a], #[trigger] r@[b]) by {
                if a < pos && b == pos {
                    lemma_precedes_order(e, old_r[a], e);
                } else if a == pos && b > pos {
                    lemma_precedes_order(e, old_r[pos as int], old_r[b - 1]);
                    lemma_precedes_order(old_r[pos as int], e, e);
                } else if a < pos && b > pos {
                    assert(precedes(old_r[a], old_r[b - 1]));
                } else if b < pos {
                    assert(precedes(old_r[a], old_r[b]));
                } else {
                    assert(precedes(old_r[a - 1], old_r[b - 1]));
                }
            }
            assert(entries@.take(i + 1) =~= entries@.take(i as int).push(e));
            assert forall|x: (u64, Option<u64>)| #[trigger] r@.contains(x) <==> entries@.take(i + 1).contains(x) by {
                if r@.contains(x) {
                    let k = choose|k: int| 0 <= k < r@.len() && #[trigger] r@[k] == x;
                    if k < pos {
                        assert(old_r[k] == x);
                        assert(old_r.contains(x));
                    } else if k > pos {
                        assert(old_r[k - 1] == x);
                        assert(old_r.contains(x));
                    }
                    assert(entries@.take(i + 1)[i as int] == e);
                }
                if entries@.take(i + 1).contains(x) {
                    let q = choose|q: int| 0 <= q < i + 1 && #[trigger] entries@.take(i + 1)[q] == x;
                    if q == i {
                        assert(r@[pos as int] == x);
                    } else {
                        assert(entries@.take(i as int)[q] == x);
                        assert(old_r.contains(x));
                        let k = choose|k: int| 0 <= k < old_r.len() && #[trigger] old_r[k] == x;
                        if k < pos {
                            assert(r@[k] == x);
                        } else {
                            assert(r@[k + 1] == x);
                        }
                    }
                }
            }
        }
        i = i + 1;
    }
    proof {
        assert(entries@.take(entries@.len() as int) =~= entries@);
    }
    r
}

/// Whether entry `x` comes before entry `y` in a report.
fn before(x: (u64, Option<u64>), y: (u64, Option<u64>)) -> (r: bool)
    ensures
        r == precedes(x, y),
{
    match (x.1, y.1) {
        (Some(a), Some(b)) => a > b || (a == b && x.0 < y.0),
        (Some(_), None) => true,
        (None, Some(_)) => false,
        (None, None) => x.0 < y.0,
    }
}

} // verus!
