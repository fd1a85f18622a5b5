//! Functions found in an executable, and what is known of each.
use vstd::prelude::*;
use std::collections::BTreeMap;

verus! {

/// `a` comes before `b` in the order of names: compared character by
/// character from index `i` on, a proper prefix first.
pub open spec fn less_from(a: Seq<char>, b: Seq<char>, i: int) -> bool
    decreases a.len() - i,
{
    if i < 0 || i >= a.len() {
        0 <= i < b.len()
    } else if i >= b.len() {
        false
    } else if a[i] != b[i] {
        a[i] < b[i]
    } else {
        less_from(a, b, i + 1)
    }
}

/// The order in which names are listed.
pub open spec fn name_less(a: Seq<char>, b: Seq<char>) -> bool {
    less_from(a, b, 0)
}

/// Each name of `v` comes before every later one: sorted, no repeats.
pub open spec fn strictly_sorted(v: Seq<Seq<char>>) -> bool {
    forall|i: int, j: int| 0 <= i < j < v.len() ==> name_less(#[trigger] v[i], #[trigger] v[j])
}

/// `n` is one of the names of `v`.
pub open spec fn has(v: Seq<Seq<char>>, n: Seq<char>) -> bool {
    exists|k: int| 0 <= k < v.len() && #[trigger] v[k] == n
}

/// What a list of strings reads.
pub open spec fn views(v: Seq<String>) -> Seq<Seq<char>> {
    v.map_values(|s: String| s@)
}

proof fn lemma_less_from(a: Seq<char>, b: Seq<char>, c: Seq<char>, i: int)
    requires
        0 <= i <= a.len(),
        i <= b.len(),
        i <= c.len(),
        forall|k: int| 0 <= k < i ==> a[k] == b[k],
    ensures
        !less_from(a, a, i),
        less_from(a, b, i) && less_from(b, c, i) ==> less_from(a, c, i),
        a != b ==> less_from(a, b, i) || less_from(b, a, i),
    decreases a.len() - i,
{
    if i < a.len() && i < b.len() && a[i] == b[i] {
        if i < c.len() && b[i] == c[i] {
            lemma_less_from(a, b, c, i + 1);
        } else {
            lemma_less_from(a, b, a, i + 1);
            lemma_less_from(a, a, a, i + 1);
        }
    } else if i < a.len() {
        lemma_less_from(a, a, a, i + 1);
    }
    if a != b && i == a.len() && i == b.len() {
        assert(a =~= b);
    }
}

/// The order of names is a strict total order.
pub proof fn lemma_name_order(a: Seq<char>, b: Seq<char>, c: Seq<char>)
    ensures
        !name_less(a, a),
        name_less(a, b) && name_less(b, c) ==> name_less(a, c),
        a != b ==> name_less(a, b) || name_less(b, a),
{
    lemma_less_from(a, b, c, 0);
}

/// Two sorted lists without repeats that hold the same names are equal.
pub proof fn lemma_sorted_unique(v1: Seq<Seq<char>>, v2: Seq<Seq<char>>)
    requires
        strictly_sorted(v1),
        strictly_sorted(v2),
        forall|n: Seq<char>| has(v1, n) <==> has(v2, n),
    ensures
        v1 == v2,
    decreases v1.len(),
{
    if v1.len() == 0 {
        if v2.len() > 0 {
            assert(has(v2, v2[0]));
        }
        assert(v1 =~= v2);
    } else {
        assert(has(v1, v1[0]));
        let k = choose|k: int| 0 <= k < v2.len() && #[trigger] v2[k] == v1[0];
        assert(has(v2, v2[0]));
        let j = choose|j: int| 0 <= j < v1.len() && #[trigger] v1[j] == v2[0];
        if k > 0 && j > 0 {
            assert(name_less(v1[0], v1[j]));
            assert(name_less(v2[0], v2[k]));
            lemma_name_order(v1[0], v2[0], v1[0]);
        } else if k > 0 {
            assert(name_less(v2[0], v2[k]));
            lemma_name_order(v2[0], v2[0], v2[0]);
        } else if j > 0 {
            assert(name_less(v1[0], v1[j]));
            lemma_name_order(v1[0], v1[0], v1[0]);
        }
        let t1 = v1.skip(1);
        let t2 = v2.skip(1);
        assert forall|n: Seq<char>| has(t1, n) <==> has(t2, n) by {
            if has(t1, n) {
                let q = choose|q: int| 0 <= q < t1.len() && #[trigger] t1[q] == n;
                assert(v1[q + 1] == n);
                assert(has(v1, n));
                let r = choose|r: int| 0 <= r < v2.len() && #[trigger] v2[r] == n;
                if r == 0 {
                    assert(name_less(v1[0], v1[q + 1]));
                    lemma_name_order(n, n, n);
                }
                assert(t2[r - 1] == n);
            }
            if has(t2, n) {
                let q = choose|q: int| 0 <= q < t2.len() && #[trigger] t2[q] == n;
                assert(v2[q + 1] == n);
                assert(has(v2, n));
                let r = choose|r: int| 0 <= r < v1.len() && #[trigger] v1[r] == n;
                if r == 0 {
                    assert(name_less(v2[0], v2[q + 1]));
                    lemma_name_order(n, n, n);
                }
                assert(t1[r - 1] == n);
            }
        }
        lemma_sorted_unique(t1, t2);
        assert(v1 =~= seq![v1[0]] + t1);
        assert(v2 =~= seq![v2[0]] + t2);
    }
}

/// Whether `a` comes before `b` in the order of names.
pub fn name_lt(a: &str, b: &str) -> (r: bool)
    ensures
        r == name_less(a@, b@),
{
    let alen = a.unicode_len();
    let blen = b.unicode_len();
    let mut i: usize = 0;
    while i < alen && i < blen
        invariant
            alen == a@.len(),
            blen == b@.len(),
            i <= alen,
            i <= blen,
            name_less(a@, b@) == less_from(a@, b@, i as int),
        decreases alen - i,
    {
        let x = a.get_char(i);
        let y = b.get_char(i);
        if x != y {
            return x < y;
        }
        i = i + 1;
    }
    i >= alen && i < blen
}

/// Adds `n` to the sorted list `v`, where it is not there yet.
pub(crate) fn insert_sorted(v: &mut Vec<String>, n: String)
    requires
        strictly_sorted(views(old(v)@)),
    ensures
        strictly_sorted(views(final(v)@)),
        forall|x: Seq<char>| #[trigger] has(views(final(v)@), x) <==> (has(views(old(v)@), x) || x == n@),
{
    let ghost old_v = views(v@);
    let mut pos: usize = 0;
    while pos < v.len() && name_lt(v[pos].as_str(), n.as_str())
        invariant
            old_v == views(v@),
            pos <= v@.len(),
            forall|k: int| 0 <= k < pos ==> name_less(#[trigger] old_v[k], n@),
        decreases v.len() - pos,
    {
        pos = pos + 1;
    }
    if pos < v.len() && v[pos] == n {
        proof {
            assert forall|x: Seq<char>| #[trigger] has(views(v@), x) <==> (has(old_v, x) || x == n@) by {
                if x == n@ {
                    assert(old_v[pos as int] == x);
                }
            }
        }
        return;
    }
    let ghost nv = n@;
    v.insert(pos, n);
    proof {
        let w = views(v@);
        assert(w =~= old_v.insert(pos as int, nv));
        if pos < old_v.len() {
            assert(!name_less(old_v[pos as int], nv));
            assert(old_v[pos as int] != nv);
            lemma_name_order(old_v[pos as int], nv, nv);
        }
        assert forall|a: int, b: int| 0 <= a < b < w.len() implies name_less(#[trigger] w[a], #[trigger] w[b]) by {
            if a < pos && b == pos {
            } else if a == pos && b > pos {
                if b - 1 > pos {
                    assert(name_less(old_v[pos as int], old_v[b - 1]));
                }
                lemma_name_order(nv, old_v[pos as int], old_v[b - 1]);
            } else if a < pos && b > pos {
                assert(name_less(old_v[a], old_v[b - 1]));
            } else if b < pos {
                assert(name_less(old_v[a], old_v[b]));
            } else {
                assert(name_less(old_v[a - 1], old_v[b - 1]));
            }
        }
        assert forall|x: Seq<char>| #[trigger] has(w, x) <==> (has(old_v, x) || x == nv) by {
            if has(w, x) {
                let k = choose|k: int| 0 <= k < w.len() && #[trigger] w[k] == x;
                if k < pos {
                    assert(old_v[k] == x);
                } else if k > pos {
                    assert(old_v[k - 1] == x);
                }
            }
            if has(old_v, x) {
                let k = choose|k: int| 0 <= k < old_v.len() && #[trigger] old_v[k] == x;
                if k < pos {
                    assert(w[k] == x);
                } else {
                    assert(w[k + 1] == x);
                }
            }
            if x == nv {
                assert(w[pos as int] == x);
            }
        }
    }
}

/// A symbol that stands for a function (subroutine).
#[derive(Clone, Debug)]
pub struct Function {
    pub(crate) names: Vec<String>,
    pub(crate) size: u64,
    pub(crate) stack: Option<u64>,
}

impl Function {
    /// The names of the function, mangled, sorted and each once.
    pub closed spec fn names_view(&self) -> Seq<Seq<char>> {
        views(self.names@)
    }

    pub closed spec fn size_view(&self) -> u64 {
        self.size
    }

    pub closed spec fn stack_view(&self) -> Option<u64> {
        self.stack
    }

    /// Whether `n` is one of the function's names.
    pub open spec fn has_name(&self, n: Seq<char>) -> bool {
        has(self.names_view(), n)
    }

    /// A function with one name and no stack usage known yet.
    pub(crate) fn new(name: String, size: u64) -> (r: Function)
        ensures
            r.names_view() == seq![name@],
            strictly_sorted(r.names_view()),
            r.size_view() == size,
            r.stack_view() is None,
    {
        let r = Function { names: vec![name], size, stack: None };
        proof {
            assert(r.names_view() =~= seq![name@]);
        }
        r
    }

    /// Adds another name, where it is not one of the names yet.
    pub(crate) fn add_name(&mut self, name: String)
        requires
            strictly_sorted(old(self).names_view()),
        ensures
            strictly_sorted(final(self).names_view()),
            forall|x: Seq<char>| #[trigger] final(self).has_name(x) <==> (old(self).has_name(x) || x == name@),
            final(self).size_view() == old(self).size_view(),
            final(self).stack_view() == old(self).stack_view(),
    {
        insert_sorted(&mut self.names, name);
    }

    /// Records the stack usage.
    pub(crate) fn set_stack(&mut self, stack: u64)
        ensures
            final(self).names_view() == old(self).names_view(),
            final(self).size_view() == old(self).size_view(),
            final(self).stack_view() == Some(stack),
    {
        self.stack = Some(stack);
    }

    /// The (mangled) name of the function and its aliases.
    pub fn names(&self) -> (r: &[String])
        ensures
            views(r@) == self.names_view(),
    {
        self.names.as_slice()
    }

    /// The size of the subroutine in bytes.
    pub fn size(&self) -> (r: u64)
        ensures
            r == self.size_view(),
    {
        self.size
    }

    /// The stack usage of the function in bytes, where the compiler gave it.
    pub fn stack(&self) -> (r: Option<u64>)
        ensures
            r == self.stack_view(),
    {
        self.stack
    }
}

/// The functions found after analysing an executable.
#[derive(Clone, Debug)]
pub struct Functions {
    /// Whether the addresses of these functions are 32-bit or 64-bit.
    pub have_32_bit_addresses: bool,
    /// Names of the functions that are loaded dynamically and have no address;
    /// sorted, each name once.
    pub undefined: Vec<String>,
    /// Functions with a known address, by address.
    pub defined: BTreeMap<u64, Function>,
}

} // verus!
