//! Numeric paths and their order.
//!
//! A path is a sequence of unsigned components. Paths are ordered
//! lexicographically, component by component, each component compared as an
//! unsigned integer; a proper prefix comes before its extensions.

use vstd::prelude::*;

verus! {

/// `a` comes before `b`, looking only at the components from index `i` on.
pub open spec fn lt_from(a: Seq<u32>, b: Seq<u32>, i: int) -> bool
    decreases a.len() - i,
{
    if i < 0 || i >= b.len() {
        false
    } else if i >= a.len() {
        true
    } else if a[i] != b[i] {
        a[i] < b[i]
    } else {
        lt_from(a, b, i + 1)
    }
}

/// The strict lexicographic order on paths.
pub open spec fn path_lt(a: Seq<u32>, b: Seq<u32>) -> bool {
    lt_from(a, b, 0)
}

/// The two paths agree on their first `i` components.
pub open spec fn same_prefix(a: Seq<u32>, b: Seq<u32>, i: int) -> bool {
    &&& 0 <= i <= a.len()
    &&& i <= b.len()
    &&& forall|j: int| 0 <= j < i ==> a[j] == b[j]
}

pub proof fn lemma_lt_from_irreflexive(a: Seq<u32>, i: int)
    requires
        0 <= i,
    ensures
        !lt_from(a, a, i),
    decreases a.len() - i,
{
    if i < a.len() {
        lemma_lt_from_irreflexive(a, i + 1);
    }
}

pub proof fn lemma_lt_from_transitive(a: Seq<u32>, b: Seq<u32>, c: Seq<u32>, i: int)
    requires
        0 <= i,
        lt_from(a, b, i),
        lt_from(b, c, i),
    ensures
        lt_from(a, c, i),
    decreases a.len() - i,
{
    if i < a.len() && a[i] == b[i] && b[i] == c[i] {
        lemma_lt_from_transitive(a, b, c, i + 1);
    }
}

pub proof fn lemma_lt_from_total(a: Seq<u32>, b: Seq<u32>, i: int)
    requires
        same_prefix(a, b, i),
    ensures
        lt_from(a, b, i) || lt_from(b, a, i) || a == b,
    decreases a.len() - i,
{
    if i < a.len() && i < b.len() {
        if a[i] == b[i] {
            lemma_lt_from_total(a, b, i + 1);
        }
    } else if i >= a.len() && i >= b.len() {
        assert(a =~= b);
    }
}

/// No path comes before itself.
pub proof fn lemma_path_lt_irreflexive(a: Seq<u32>)
    ensures
        !path_lt(a, a),
{
    lemma_lt_from_irreflexive(a, 0);
}

/// The order is transitive.
pub proof fn lemma_path_lt_transitive(a: Seq<u32>, b: Seq<u32>, c: Seq<u32>)
    requires
        path_lt(a, b),
        path_lt(b, c),
    ensures
        path_lt(a, c),
{
    lemma_lt_from_transitive(a, b, c, 0);
}

/// No two paths come before each other.
pub proof fn lemma_path_lt_asymmetric(a: Seq<u32>, b: Seq<u32>)
    requires
        path_lt(a, b),
    ensures
        !path_lt(b, a),
{
    if path_lt(b, a) {
        lemma_path_lt_transitive(a, b, a);
        lemma_path_lt_irreflexive(a);
    }
}

/// Any two paths are equal or ordered one way.
pub proof fn lemma_path_lt_total(a: Seq<u32>, b: Seq<u32>)
    ensures
        path_lt(a, b) || path_lt(b, a) || a == b,
{
    lemma_lt_from_total(a, b, 0);
}

/// Whether `a` comes strictly before `b`.
pub fn path_less(a: &Vec<u32>, b: &Vec<u32>) -> (r: bool)
    ensures
        r == path_lt(a@, b@),
{
    let mut i: usize = 0;
    while i < a.len() && i < b.len()
        invariant
            0 <= i <= a.len(),
            i <= b.len(),
            path_lt(a@, b@) == lt_from(a@, b@, i as int),
        decreases a.len() - i,
    {
        if a[i] != b[i] {
            return a[i] < b[i];
        }
        i += 1;
    }
    i < b.len()
}

/// Whether the two paths have the same components.
pub fn path_equal(a: &Vec<u32>, b: &Vec<u32>) -> (r: bool)
    ensures
        r == (a@ == b@),
{
    if a.len() != b.len() {
        return false;
    }
    let mut i: usize = 0;
    while i < a.len()
        invariant
            0 <= i <= a.len(),
            a.len() == b.len(),
            forall|j: int| 0 <= j < i ==> a@[j] == b@[j],
        decreases a.len() - i,
    {
        if a[i] != b[i] {
            return false;
        }
        i += 1;
    }
    assert(a@ =~= b@);
    true
}

/// A copy of the path.
pub fn path_copy(a: &Vec<u32>) -> (r: Vec<u32>)
    ensures
        r@ == a@,
{
    let mut out: Vec<u32> = Vec::new();
    let mut i: usize = 0;
    while i < a.len()
        invariant
            0 <= i <= a.len(),
            out@ == a@.take(i as int),
        decreases a.len() - i,
    {
        out.push(a[i]);
        assert(a@.take(i as int + 1) =~= a@.take(i as int).push(a@[i as int]));
        i += 1;
    }
    assert(a@.take(a.len() as int) =~= a@);
    out
}

} // verus!
