use std::collections::HashMap;
use std::hash::Hash;
use vstd::prelude::*;
use vstd::std_specs::hash::obeys_key_model;

verus! {

broadcast use vstd::std_specs::hash::group_hash_axioms;

/// The abstract state of a disjoint-set forest.
#[verifier::reject_recursive_types(T)]
pub ghost struct ForestView<T> {
    /// The registered elements, in order of registration.
    pub elems: Seq<T>,
    /// The index of each registered element.
    pub index: Map<T, nat>,
    /// The representative index of each index's subset.
    pub rep: Seq<nat>,
}

impl<T> ForestView<T> {
    /// Number of registered elements.
    pub open spec fn len(self) -> nat {
        self.rep.len()
    }

    /// Whether `x` has been registered.
    pub open spec fn contains(self, x: T) -> bool {
        self.index.contains_key(x)
    }

    /// The representative index of the subset that holds `x`.
    pub open spec fn rep_of(self, x: T) -> nat {
        self.rep[self.index[x] as int]
    }

    /// Whether every index is its own representative, as after any
    /// sequence of registrations with no merge.
    pub open spec fn singletons(self) -> bool {
        forall|i: int| 0 <= i < self.len() ==> #[trigger] self.rep[i] == i
    }

    /// The state after registering `x`: unchanged where `x` is already
    /// registered; otherwise `x` takes the next index and forms a subset of
    /// its own.
    pub open spec fn register(self, x: T) -> ForestView<T> {
        if self.contains(x) {
            self
        } else {
            ForestView {
                elems: self.elems.push(x),
                index: self.index.insert(x, self.len()),
                rep: self.rep.push(self.len()),
            }
        }
    }

    /// The state after merging the subset of `x` into that of `y`: every
    /// index represented by `x`'s representative is now represented by
    /// `y`'s.
    pub open spec fn merge(self, x: T, y: T) -> ForestView<T> {
        ForestView {
            elems: self.elems,
            index: self.index,
            rep: Seq::new(
                self.len(),
                |i: int|
                    if self.rep[i] == self.rep_of(x) {
                        self.rep_of(y)
                    } else {
                        self.rep[i]
                    },
            ),
        }
    }

    /// The element at position `i` of the registration order has index `i`,
    /// every registered element appears there, and every representative is a
    /// representative of itself.
    pub open spec fn valid(self) -> bool {
        &&& self.elems.len() == self.len()
        &&& forall|i: int|
            0 <= i < self.len() ==> #[trigger] self.index.contains_key(self.elems[i])
                && self.index[self.elems[i]] == i
        &&& forall|x: T| #[trigger]
            self.index.contains_key(x) ==> self.index[x] < self.len() && self.elems[self.index[x]
                as int] == x
        &&& forall|i: int|
            0 <= i < self.len() ==> #[trigger] self.rep[i] < self.len() && self.rep[self.rep[i] as int]
                == self.rep[i]
    }
}

/// The parent table `parent` forms a forest in which `roots[i]` is the root
/// reached from `i`, and `dist` strictly decreases along every parent link.
pub open spec fn forest_ok(parent: Seq<usize>, roots: Seq<nat>, dist: Seq<nat>) -> bool {
    let n = parent.len();
    &&& roots.len() == n
    &&& dist.len() == n
    &&& forall|i: int| 0 <= i < n ==> #[trigger] parent[i] < n
    &&& forall|i: int|
        0 <= i < n ==> #[trigger] roots[i] < n && parent[roots[i] as int] == roots[i]
    &&& forall|i: int| 0 <= i < n ==> #[trigger] roots[parent[i] as int] == roots[i]
    &&& forall|i: int| 0 <= i < n ==> (#[trigger] parent[i] == i <==> roots[i] == i)
    &&& forall|i: int|
        0 <= i < n && parent[i] != i ==> #[trigger] dist[parent[i] as int] < dist[i]
    &&& forall|i: int| 0 <= i < n && parent[i] == i ==> #[trigger] dist[i] == 0
}

/// Whether index `i` lies on the walk along parent links from `n` to its
/// root, both ends included.
pub open spec fn on_path(parent: Seq<usize>, dist: Seq<nat>, n: int, i: int) -> bool
    decreases dist[n],
{
    if 0 <= n < parent.len() && parent[n] != n && dist[parent[n] as int] < dist[n] {
        i == n || on_path(parent, dist, parent[n] as int, i)
    } else {
        i == n
    }
}

/// `elems` lists the keys of `map` without repetition, and `map` sends the
/// element at position `i` to `i`.
pub open spec fn registry_ok<T>(map: Map<T, usize>, elems: Seq<T>, n: nat) -> bool {
    &&& elems.len() == n
    &&& forall|i: int|
        0 <= i < n ==> #[trigger] map.contains_key(elems[i]) && map[elems[i]] == i
    &&& forall|x: T| #[trigger] map.contains_key(x) ==> map[x] < n && elems[map[x] as int] == x
}

/// A disjoint-set forest with path compression.
#[verifier::reject_recursive_types(T)]
pub struct DisjointSet<T> {
    set_size: usize,
    parent: Vec<usize>,
    map: HashMap<T, usize>,
    /// The registered elements, in order of registration.
    elems: Ghost<Seq<T>>,
    /// The root reached from each index.
    roots: Ghost<Seq<nat>>,
    /// A measure that strictly decreases along parent links; zero at roots.
    dist: Ghost<Seq<nat>>,
}

impl<T> View for DisjointSet<T> {
    type V = ForestView<T>;

    closed spec fn view(&self) -> ForestView<T> {
        ForestView {
            elems: self.elems@,
            index: self.map@.map_values(|i: usize| i as nat),
            rep: self.roots@,
        }
    }
}

impl<T: Hash + Eq> DisjointSet<T> {
    /// The internal invariant tying the parent table to the ghost state.
    pub closed spec fn inv(&self) -> bool {
        let n = self.parent@.len();
        &&& obeys_key_model::<T>()
        &&& self.set_size == n
        &&& registry_ok(self.map@, self.elems@, n)
        &&& forest_ok(self.parent@, self.roots@, self.dist@)
    }

    /// The parent table: entry `i` is the parent of index `i`.
    pub closed spec fn parent_table(&self) -> Seq<usize> {
        self.parent@
    }

    /// Whether index `i` lies on the walk along parent links from index `n`
    /// to its root, both ends included.
    pub closed spec fn on_find_path(&self, n: int, i: int) -> bool {
        on_path(self.parent@, self.dist@, n, i)
    }

    /// Well-formedness: the internal invariant holds, the abstract state is
    /// valid, the parent table has one entry per index, and an index is its
    /// own parent exactly when it is its own representative.
    pub open spec fn wf(&self) -> bool {
        &&& self.inv()
        &&& self@.valid()
        &&& self.parent_table().len() == self@.len()
        &&& forall|i: int|
            0 <= i < self@.len() ==> #[trigger] self.parent_table()[i] < self@.len() && (
            self.parent_table()[i] == i <==> self@.rep[i] == i)
    }

    proof fn lemma_inv_valid(&self)
        requires
            self.inv(),
        ensures
            self@.valid(),
            self.wf(),
    {
        let v = self@;
        assert forall|i: int| 0 <= i < v.len() implies #[trigger] v.rep[i] < v.len()
            && v.rep[v.rep[i] as int] == v.rep[i] by {
            let r = self.roots@[i] as int;
            assert(self.parent@[r] == r);
        }
    }

    /// Once the index of `x` points directly at its root, every index on the
    /// walk from it already holds that root, so compressing the path again
    /// changes no entry of the parent table.
    pub proof fn lemma_compressed_path_is_fixed(&self, x: T)
        requires
            self.wf(),
            self@.contains(x),
            self.parent_table()[self@.index[x] as int] == self@.rep_of(x),
        ensures
            forall|j: int|
                0 <= j < self@.len() && #[trigger] self.on_find_path(self@.index[x] as int, j)
                    ==> self.parent_table()[j] == self@.rep_of(x),
    {
        let n = self@.index[x] as int;
        let r = self.roots@[n] as int;
        assert(self.parent@[r] == r);
        assert forall|j: int|
            0 <= j < self@.len() && #[trigger] self.on_find_path(n, j) implies self.parent_table()[j]
            == self@.rep_of(x) by {
            if n != r {
                assert(on_path(self.parent@, self.dist@, r, j) == (j == r));
            }
        }
    }

    /// An empty forest. The element type must hash deterministically and
    /// compare equal exactly when two values are identical.
    pub fn new() -> (r: Self)
        requires
            obeys_key_model::<T>(),
        ensures
            r.wf(),
            r@.index == Map::<T, nat>::empty(),
            r@.len() == 0,
            r@.singletons(),
    {
        let r = DisjointSet {
            set_size: 0,
            parent: Vec::new(),
            map: HashMap::new(),
            elems: Ghost(Seq::empty()),
            roots: Ghost(Seq::empty()),
            dist: Ghost(Seq::empty()),
        };
        proof {
            assert(r@.index =~= Map::<T, nat>::empty());
            r.lemma_inv_valid();
        }
        r
    }

    /// Registers `x` as a subset of its own, under the next index; does
    /// nothing where `x` is already registered.
    pub fn make_set(&mut self, x: T)
        requires
            old(self).wf(),
        ensures
            final(self).wf(),
            final(self)@ == old(self)@.register(x),
    {
        match self.map.get(&x) {
            Some(_) => {
                return;
            },
            None => {},
        }
        let len = self.set_size;
        let ghost gx = x;
        self.map.insert(x, len);
        self.parent.push(len);
        self.set_size = self.parent.len();
        self.elems = Ghost(self.elems@.push(gx));
        self.roots = Ghost(self.roots@.push(len as nat));
        self.dist = Ghost(self.dist@.push(0));
        proof {
            let o = old(self)@;
            assert(forest_ok(self.parent@, self.roots@, self.dist@));
            assert(registry_ok(self.map@, self.elems@, self.parent@.len()));
            self.lemma_inv_valid();
            assert(self@.index =~= o.index.insert(gx, o.len()));
            assert(self@.elems =~= o.elems.push(gx));
            assert(self@.rep =~= o.rep.push(o.len()));
        }
    }

    /// The representative index of `x`'s subset, or `None` where `x` was
    /// never registered. Compresses the path from `x` to its root: every
    /// index on it now points directly at the root, and no other entry of
    /// the parent table changes. The partition and every representative
    /// stay as they were.
    pub fn find(&mut self, x: T) -> (r: Option<usize>)
        requires
            old(self).wf(),
        ensures
            final(self).wf(),
            final(self)@ == old(self)@,
            r is Some <==> old(self)@.contains(x),
            r matches Some(i) ==> i == old(self)@.rep_of(x),
            r matches Some(i) ==> final(self).parent_table()[old(self)@.index[x] as int] == i,
            r matches Some(i) ==> forall|j: int|
                0 <= j < old(self)@.len() ==> #[trigger] final(self).parent_table()[j] == if old(
                    self,
                ).on_find_path(old(self)@.index[x] as int, j) {
                    i
                } else {
                    old(self).parent_table()[j]
                },
            r is None ==> final(self).parent_table() == old(self).parent_table(),
    {
        let pos: usize;
        match self.map.get(&x) {
            Some(p) => {
                pos = *p;
            },
            None => {
                return None;
            },
        }
        let ghost roots = self.roots@;
        let ghost dist = self.dist@;
        let ret = DisjointSet::<T>::find_internal(&mut self.parent, pos, Ghost(roots), Ghost(dist));
        proof {
            assert(registry_ok(self.map@, self.elems@, self.parent@.len()));
            self.lemma_inv_valid();
        }
        Some(ret)
    }

    /// Merges the subsets of `x` and `y`, attaching the root of `x`'s
    /// subset under the root of `y`'s, and returns the representative of
    /// the merged subset. Fails where either element is not registered;
    /// the partition is then unchanged, though the path from `x` may have
    /// been compressed.
    pub fn union(&mut self, x: T, y: T) -> (r: Result<usize, ()>)
        requires
            old(self).wf(),
        ensures
            final(self).wf(),
            r is Ok <==> old(self)@.contains(x) && old(self)@.contains(y),
            r is Err ==> final(self)@ == old(self)@,
            r matches Ok(i) ==> i == old(self)@.rep_of(y) && final(self)@ == old(self)@.merge(x, y),
    {
        let ghost o = self@;
        let x_root: usize;
        let y_root: usize;
        match self.find(x) {
            Some(x_r) => {
                x_root = x_r;
            },
            None => {
                return Err(());
            },
        }
        match self.find(y) {
            Some(y_r) => {
                y_root = y_r;
            },
            None => {
                return Err(());
            },
        }
        let ghost roots = self.roots@;
        let ghost dist = self.dist@;
        let ghost n = roots.len();
        self.parent.set(x_root, y_root);
        if x_root != y_root {
            self.roots = Ghost(
                Seq::new(n, |i: int| if roots[i] == x_root { y_root as nat } else { roots[i] }),
            );
            self.dist = Ghost(
                Seq::new(n, |i: int| if roots[i] == x_root { dist[i] + 1 } else { dist[i] }),
            );
        }
        proof {
            assert(forest_ok(self.parent@, self.roots@, self.dist@));
            assert(registry_ok(self.map@, self.elems@, self.parent@.len()));
            self.lemma_inv_valid();
            assert(self@.rep =~= o.merge(x, y).rep);
        }
        Ok(y_root)
    }

    /// Follows parent links from `n` to its root, pointing every index on
    /// the way directly at that root.
    fn find_internal(
        p: &mut Vec<usize>,
        n: usize,
        Ghost(roots): Ghost<Seq<nat>>,
        Ghost(dist): Ghost<Seq<nat>>,
    ) -> (r: usize)
        requires
            forest_ok(old(p)@, roots, dist),
            n < old(p)@.len(),
        ensures
            forest_ok(final(p)@, roots, dist),
            final(p)@.len() == old(p)@.len(),
            r == roots[n as int],
            final(p)@[n as int] == r,
            forall|i: int|
                0 <= i < old(p)@.len() ==> #[trigger] final(p)@[i] == if on_path(
                    old(p)@,
                    dist,
                    n as int,
                    i,
                ) {
                    r
                } else {
                    old(p)@[i]
                },
        decreases dist[n as int],
    {
        if p[n] != n {
            let parent = p[n];
            let root = DisjointSet::<T>::find_internal(p, parent, Ghost(roots), Ghost(dist));
            p.set(n, root);
            proof {
                let q = p@;
                assert forall|i: int| 0 <= i < q.len() implies #[trigger] roots[q[i] as int]
                    == roots[i] by {
                    if i == n {
                        assert(roots[root as int] == root);
                    }
                }
                assert forall|i: int| 0 <= i < q.len() implies #[trigger] q[i] == if on_path(
                    old(p)@,
                    dist,
                    n as int,
                    i,
                ) {
                    root
                } else {
                    old(p)@[i]
                } by {
                    assert(on_path(old(p)@, dist, n as int, i) == (i == n || on_path(
                        old(p)@,
                        dist,
                        parent as int,
                        i,
                    )));
                }
            }
            p[n]
        } else {
            n
        }
    }
}

} // verus!
