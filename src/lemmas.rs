//! Facts about sequences of operations on a disjoint-set forest, stated over
//! its abstract state.
use crate::forest::ForestView;
use vstd::prelude::*;

verus! {

/// Registering an element keeps the abstract state valid.
pub proof fn lemma_register_valid<T>(v: ForestView<T>, x: T)
    requires
        v.valid(),
    ensures
        v.register(x).valid(),
        v.register(x).contains(x),
{
    let w = v.register(x);
    if !v.contains(x) {
        assert forall|y: T| #[trigger] w.index.contains_key(y) implies w.index[y] < w.len()
            && w.elems[w.index[y] as int] == y by {
            if y != x {
                assert(v.index.contains_key(y));
            }
        }
        assert forall|i: int| 0 <= i < w.len() implies #[trigger] w.index.contains_key(w.elems[i])
            && w.index[w.elems[i]] == i by {
            if i < v.len() {
                assert(v.index.contains_key(v.elems[i]));
            }
        }
    }
}

/// Merging two registered elements' subsets keeps the abstract state valid.
pub proof fn lemma_merge_valid<T>(v: ForestView<T>, x: T, y: T)
    requires
        v.valid(),
        v.contains(x),
        v.contains(y),
    ensures
        v.merge(x, y).valid(),
{
    let w = v.merge(x, y);
    assert(w.rep.len() == v.len());
    assert forall|i: int| 0 <= i < w.len() implies #[trigger] w.rep[i] < w.len()
        && w.rep[w.rep[i] as int] == w.rep[i] by {
        let ry = v.rep_of(y) as int;
        assert(v.rep[v.index[y] as int] == ry);
        if v.rep[i] != v.rep_of(x) {
            let r = v.rep[i] as int;
            assert(v.rep[r] == r);
        }
    }
}

/// Registering an element keeps every index its own representative.
pub proof fn lemma_register_keeps_singletons<T>(v: ForestView<T>, x: T)
    requires
        v.valid(),
        v.singletons(),
    ensures
        v.register(x).singletons(),
{
}

/// While every index is its own representative (no merge since the forest
/// was created), two distinct registered elements have different
/// representatives.
pub proof fn lemma_singletons_apart<T>(v: ForestView<T>, a: T, b: T)
    requires
        v.valid(),
        v.singletons(),
        v.contains(a),
        v.contains(b),
        a != b,
    ensures
        v.rep_of(a) != v.rep_of(b),
{
    assert(v.rep[v.index[a] as int] == v.index[a]);
    assert(v.rep[v.index[b] as int] == v.index[b]);
}

/// Registering any element leaves the representative of every element
/// registered before unchanged, so repeated lookups agree until a merge.
pub proof fn lemma_register_keeps_rep<T>(v: ForestView<T>, a: T, z: T)
    requires
        v.valid(),
        v.contains(a),
    ensures
        v.register(z).contains(a),
        v.register(z).rep_of(a) == v.rep_of(a),
{
}

/// After a successful merge of `a` into `b`, both have the same
/// representative, which is the one `b` had.
pub proof fn lemma_merge_joins<T>(v: ForestView<T>, a: T, b: T)
    requires
        v.valid(),
        v.contains(a),
        v.contains(b),
    ensures
        v.merge(a, b).contains(a),
        v.merge(a, b).contains(b),
        v.merge(a, b).rep_of(a) == v.merge(a, b).rep_of(b),
        v.merge(a, b).rep_of(b) == v.rep_of(b),
{
    let ry = v.rep_of(b);
    assert(v.rep[ry as int] == ry);
}

/// A merge never separates two elements that shared a representative.
pub proof fn lemma_merge_keeps_together<T>(v: ForestView<T>, x: T, y: T, p: T, q: T)
    requires
        v.valid(),
        v.contains(x),
        v.contains(y),
        v.contains(p),
        v.contains(q),
        v.rep_of(p) == v.rep_of(q),
    ensures
        v.merge(x, y).rep_of(p) == v.merge(x, y).rep_of(q),
{
}

/// Merging `a` with `b` and then `b` with `c` puts `a` and `c` in one subset.
pub proof fn lemma_merge_transitive<T>(v: ForestView<T>, a: T, b: T, c: T)
    requires
        v.valid(),
        v.contains(a),
        v.contains(b),
        v.contains(c),
    ensures
        v.merge(a, b).merge(b, c).rep_of(a) == v.merge(a, b).merge(b, c).rep_of(c),
{
    let w = v.merge(a, b);
    lemma_merge_joins(v, a, b);
    lemma_merge_valid(v, a, b);
    lemma_merge_joins(w, b, c);
    lemma_merge_keeps_together(w, b, c, a, b);
}

/// Registering an element a second time changes nothing: its index and its
/// subset stay as the first registration left them.
pub proof fn lemma_register_idempotent<T>(v: ForestView<T>, x: T)
    requires
        v.valid(),
    ensures
        v.register(x).register(x) == v.register(x),
        v.register(x).index[x] == v.register(x).register(x).index[x],
        v.register(x).rep_of(x) == v.register(x).register(x).rep_of(x),
        v.contains(x) ==> v.register(x) == v,
{
    lemma_register_valid(v, x);
}

} // verus!
