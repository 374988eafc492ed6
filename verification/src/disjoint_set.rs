//! A union-find structure over `usize` keys.
//!
//! The model is a map from each key to its current representative.
//! Representatives are updated eagerly on every union, so `find` is a single
//! lookup and no path compression is performed; a union costs time linear in
//! the number of keys, and the externally observable partition — who ends up
//! grouped with whom — matches the eager-reassignment description.

use vstd::prelude::*;

verus! {

/// A partition of a set of `usize` keys into disjoint groups, as a map from
/// key to representative.
pub struct DisjointSet {
    repr: Vec<(usize, usize)>,
}

spec fn ds_keys(s: Seq<(usize, usize)>) -> Seq<usize> {
    s.map_values(|p: (usize, usize)| p.0)
}

spec fn has_ds_key(s: Seq<(usize, usize)>, k: usize) -> bool {
    exists|i: int| 0 <= i < s.len() && (#[trigger] s[i].0) == k
}

spec fn ds_at(s: Seq<(usize, usize)>, k: usize) -> int {
    choose|i: int| 0 <= i < s.len() && (#[trigger] s[i].0) == k
}

spec fn repr_map(s: Seq<(usize, usize)>) -> Map<usize, usize> {
    Map::new(|k: usize| has_ds_key(s, k), |k: usize| s[ds_at(s, k)].1)
}

/// The pair `(r, r)` occurs in `s`: `r` is a key that represents itself.
spec fn rep_ok(s: Seq<(usize, usize)>, r: usize) -> bool {
    exists|j: int| 0 <= j < s.len() && (#[trigger] s[j]) == (r, r)
}

spec fn wf_ds(s: Seq<(usize, usize)>) -> bool {
    &&& ds_keys(s).no_duplicates()
    &&& forall|i: int| 0 <= i < s.len() ==> rep_ok(s, (#[trigger] s[i]).1)
}

/// The representatives of `m`: the keys that are their own representative,
/// one per group.
pub open spec fn reps(m: Map<usize, usize>) -> Set<usize> {
    Set::new(|r: usize| m.dom().contains(r) && m[r] == r)
}

proof fn lemma_ds_at(s: Seq<(usize, usize)>, i: int)
    requires
        ds_keys(s).no_duplicates(),
        0 <= i < s.len(),
    ensures
        has_ds_key(s, s[i].0),
        ds_at(s, s[i].0) == i,
{
    assert(has_ds_key(s, s[i].0));
    let j = ds_at(s, s[i].0);
    assert(ds_keys(s)[i] == s[i].0);
    assert(ds_keys(s)[j] == s[j].0);
}

proof fn lemma_ds_dom(s: Seq<(usize, usize)>)
    ensures
        repr_map(s).dom() =~= ds_keys(s).to_set(),
        repr_map(s).dom().finite(),
{
    broadcast use vstd::seq_lib::seq_to_set_is_finite;

    assert forall|k: usize| has_ds_key(s, k) implies ds_keys(s).to_set().contains(k) by {
        let i = choose|i: int| 0 <= i < s.len() && s[i].0 == k;
        assert(ds_keys(s)[i] == k);
    }
    assert forall|k: usize| ds_keys(s).to_set().contains(k) implies has_ds_key(s, k) by {
        let i = choose|i: int| 0 <= i < ds_keys(s).len() && ds_keys(s)[i] == k;
        assert(s[i].0 == k);
    }
}

proof fn lemma_wf_ds_model(s: Seq<(usize, usize)>)
    requires
        wf_ds(s),
    ensures
        forall|k: usize| #[trigger]
            repr_map(s).dom().contains(k) ==> repr_map(s).dom().contains(repr_map(s)[k])
                && repr_map(s)[repr_map(s)[k]] == repr_map(s)[k],
{
    assert forall|k: usize| #[trigger]
        repr_map(s).dom().contains(k) implies repr_map(s).dom().contains(repr_map(s)[k])
        && repr_map(s)[repr_map(s)[k]] == repr_map(s)[k] by {
        let i = ds_at(s, k);
        assert(s[i].0 == k);
        let r = s[i].1;
        assert(rep_ok(s, r));
        let j = choose|j: int| 0 <= j < s.len() && (#[trigger] s[j]) == (r, r);
        lemma_ds_at(s, j);
        assert(ds_at(s, r) == j);
        assert(repr_map(s)[r] == r);
    }
}

proof fn lemma_add_set(s: Seq<(usize, usize)>, x: usize)
    requires
        wf_ds(s),
        !has_ds_key(s, x),
    ensures
        wf_ds(s.push((x, x))),
        repr_map(s.push((x, x))) == repr_map(s).insert(x, x),
{
    let s2 = s.push((x, x));
    assert forall|i: int| 0 <= i < s2.len() implies ds_keys(s2)[i] == ds_keys(s).push(x)[i] by {}
    assert(ds_keys(s2) =~= ds_keys(s).push(x));
    assert forall|i: int| 0 <= i < s.len() implies ds_keys(s)[i] != x by {
        assert(ds_keys(s)[i] == s[i].0);
    }
    assert(ds_keys(s2).no_duplicates());
    assert forall|i: int| 0 <= i < s2.len() implies rep_ok(s2, (#[trigger] s2[i]).1) by {
        if i < s.len() {
            assert(rep_ok(s, s[i].1));
            let j = choose|j: int| 0 <= j < s.len() && (#[trigger] s[j]) == (s[i].1, s[i].1);
            assert(s2[j] == (s2[i].1, s2[i].1));
        } else {
            assert(s2[s.len() as int] == (x, x));
        }
    }
    assert forall|k: usize| #[trigger] has_ds_key(s2, k) implies has_ds_key(s, k) || k == x by {
        let i = choose|i: int| 0 <= i < s2.len() && s2[i].0 == k;
        if i < s.len() {
            assert(s[i].0 == k);
        }
    }
    assert forall|k: usize| has_ds_key(s, k) implies has_ds_key(s2, k) && #[trigger] repr_map(
        s2,
    )[k] == repr_map(s)[k] by {
        let i1 = ds_at(s, k);
        assert(s[i1].0 == k);
        assert(s2[i1].0 == k);
        let i2 = ds_at(s2, k);
        assert(s2[i2].0 == k);
        assert(ds_keys(s2)[i1] == k && ds_keys(s2)[i2] == k);
        assert(i1 == i2);
    }
    assert(s2[s.len() as int].0 == x);
    let ix = ds_at(s2, x);
    assert(s2[ix].0 == x);
    if ix < s.len() {
        assert(s[ix].0 == x);
        assert(false);
    }
    assert(repr_map(s2)[x] == x);
    assert(has_ds_key(s2, x));
    assert forall|k: usize| #[trigger] has_ds_key(s, k) implies has_ds_key(s2, k) by {
        let i = choose|i: int| 0 <= i < s.len() && s[i].0 == k;
        assert(s2[i].0 == k);
    }
    assert(repr_map(s2) =~= repr_map(s).insert(x, x));
}

#[verifier::rlimit(60)]
proof fn lemma_union_maps(s: Seq<(usize, usize)>, s2: Seq<(usize, usize)>, rx: usize, ry: usize)
    requires
        wf_ds(s),
        s2.len() == s.len(),
        forall|j: int| 0 <= j < s.len() ==> (#[trigger] s2[j]).0 == s[j].0,
        forall|j: int|
            0 <= j < s.len() ==> (#[trigger] s2[j]).1 == if s[j].1 == ry {
                rx
            } else {
                s[j].1
            },
        rep_ok(s, rx),
        rep_ok(s, ry),
        rx != ry,
    ensures
        wf_ds(s2),
        repr_map(s2).dom() == repr_map(s).dom(),
        forall|k: usize| #[trigger]
            repr_map(s).dom().contains(k) ==> repr_map(s2)[k] == if repr_map(s)[k] == ry {
                rx
            } else {
                repr_map(s)[k]
            },
        reps(repr_map(s2)) == reps(repr_map(s)).remove(ry),
{
    let jx = choose|j: int| 0 <= j < s.len() && (#[trigger] s[j]) == (rx, rx);
    let jy = choose|j: int| 0 <= j < s.len() && (#[trigger] s[j]) == (ry, ry);
    assert forall|i: int| 0 <= i < s2.len() implies ds_keys(s2)[i] == ds_keys(s)[i] by {}
    assert(ds_keys(s2) =~= ds_keys(s));
    assert forall|i: int| 0 <= i < s2.len() implies rep_ok(s2, (#[trigger] s2[i]).1) by {
        assert(s2[jx] == (rx, rx));
        if s[i].1 != ry {
            assert(rep_ok(s, s[i].1));
            let j = choose|j: int| 0 <= j < s.len() && (#[trigger] s[j]) == (s[i].1, s[i].1);
            assert(s2[j] == (s[i].1, s[i].1));
        }
    }
    assert forall|k: usize| has_ds_key(s, k) implies has_ds_key(s2, k) && #[trigger] ds_at(s2, k)
        == ds_at(s, k) by {
        let i1 = ds_at(s, k);
        assert(s[i1].0 == k);
        assert(s2[i1].0 == k);
        let i2 = ds_at(s2, k);
        assert(ds_keys(s)[i1] == k && ds_keys(s)[i2] == k);
    }
    assert forall|k: usize| #[trigger] has_ds_key(s2, k) implies has_ds_key(s, k) by {
        let i = choose|i: int| 0 <= i < s2.len() && s2[i].0 == k;
        assert(s[i].0 == k);
    }
    assert forall|k: usize| #[trigger] has_ds_key(s, k) implies has_ds_key(s2, k) by {
        let i = choose|i: int| 0 <= i < s.len() && s[i].0 == k;
        assert(s2[i].0 == k);
    }
    assert(repr_map(s2).dom() =~= repr_map(s).dom());
    assert forall|k: usize| #[trigger]
        repr_map(s).dom().contains(k) implies repr_map(s2)[k] == if repr_map(s)[k] == ry {
        rx
    } else {
        repr_map(s)[k]
    } by {
        let i = ds_at(s, k);
        assert(s[i].0 == k);
        assert(repr_map(s)[k] == s[i].1);
        assert(s2[i].1 == if s[i].1 == ry {
            rx
        } else {
            s[i].1
        });
    }
    lemma_ds_at(s, jx);
    lemma_ds_at(s, jy);
    assert(repr_map(s)[rx] == rx && repr_map(s)[ry] == ry);
    assert forall|r: usize| #[trigger]
        reps(repr_map(s2)).contains(r) implies reps(repr_map(s)).remove(ry).contains(r) by {
        assert(repr_map(s2)[r] == r);
        if repr_map(s)[r] == ry {
            assert(repr_map(s2)[r] == rx);
            assert(r == rx);
            assert(repr_map(s)[rx] == rx);
            assert(false);
        }
    }
    assert forall|r: usize|
        reps(repr_map(s)).remove(ry).contains(r) implies #[trigger] reps(repr_map(s2)).contains(
        r,
    ) by {
        assert(repr_map(s)[r] == r && r != ry);
    }
    assert(reps(repr_map(s2)) =~= reps(repr_map(s)).remove(ry));
}

impl View for DisjointSet {
    type V = Map<usize, usize>;

    /// The key-to-representative map.
    closed spec fn view(&self) -> Map<usize, usize> {
        repr_map(self.repr@)
    }
}

impl DisjointSet {
    /// Well-formedness: distinct keys, and every representative a key that
    /// represents itself.
    pub closed spec fn wf(&self) -> bool {
        wf_ds(self.repr@)
    }

    /// Model-level consequences of well-formedness.
    pub proof fn lemma_wf(&self)
        requires
            self.wf(),
        ensures
            self@.dom().finite(),
            forall|k: usize| #[trigger]
                self@.dom().contains(k) ==> self@.dom().contains(self@[k]) && self@[self@[k]]
                    == self@[k] && reps(self@).contains(self@[k]),
            reps(self@).subset_of(self@.dom()),
            reps(self@).finite(),
    {
        lemma_ds_dom(self.repr@);
        lemma_wf_ds_model(self.repr@);
        assert forall|k: usize| #[trigger]
            self@.dom().contains(k) implies self@.dom().contains(self@[k]) && self@[self@[k]]
            == self@[k] && reps(self@).contains(self@[k]) by {}
        vstd::set_lib::lemma_len_subset(reps(self@), self@.dom());
    }

    /// Creates an empty structure with no keys.
    pub fn new() -> (r: Self)
        ensures
            r.wf(),
            r@ == Map::<usize, usize>::empty(),
    {
        let r = DisjointSet { repr: Vec::new() };
        proof {
            assert(ds_keys(r.repr@) =~= Seq::<usize>::empty());
            assert(r@ =~= Map::<usize, usize>::empty());
        }
        r
    }

    /// Whether `x` is a key.
    pub fn contains(&self, x: usize) -> (r: bool)
        ensures
            r == self@.dom().contains(x),
    {
        let n = self.repr.len();
        let mut i: usize = 0;
        while i < n
            invariant
                n == self.repr@.len(),
                i <= n,
                forall|j: int| 0 <= j < i ==> (#[trigger] self.repr@[j].0) != x,
            decreases n - i,
        {
            if self.repr[i].0 == x {
                return true;
            }
            i += 1;
        }
        false
    }

    /// Inserts `x` as a new singleton group; `x` must not already be a key.
    pub fn add_set(&mut self, x: usize)
        requires
            old(self).wf(),
            !old(self)@.dom().contains(x),
        ensures
            final(self).wf(),
            final(self)@ == old(self)@.insert(x, x),
    {
        let ghost s = self.repr@;
        self.repr.push((x, x));
        proof {
            assert(self.repr@ =~= s.push((x, x)));
            lemma_add_set(s, x);
        }
    }

    /// The current representative of `x`, which must be a key.
    pub fn find(&self, x: usize) -> (r: usize)
        requires
            self.wf(),
            self@.dom().contains(x),
        ensures
            r == self@[x],
    {
        let n = self.repr.len();
        let mut i: usize = 0;
        while i < n
            invariant
                self.wf(),
                self@.dom().contains(x),
                n == self.repr@.len(),
                i <= n,
                forall|j: int| 0 <= j < i ==> (#[trigger] self.repr@[j].0) != x,
            decreases n - i,
        {
            if self.repr[i].0 == x {
                proof {
                    lemma_ds_at(self.repr@, i as int);
                }
                return self.repr[i].1;
            }
            i += 1;
        }
        proof {
            assert(!has_ds_key(self.repr@, x));
            assert(false);
        }
        0
    }

    /// Merges the entire group containing `y` into the group of `x`'s
    /// representative, reassigning every merged key's representative; the
    /// two groups must be distinct.
    pub fn union(&mut self, x: usize, y: usize)
        requires
            old(self).wf(),
            old(self)@.dom().contains(x),
            old(self)@.dom().contains(y),
            old(self)@[x] != old(self)@[y],
        ensures
            final(self).wf(),
            final(self)@.dom() == old(self)@.dom(),
            forall|k: usize| #[trigger]
                final(self)@.dom().contains(k) ==> final(self)@[k] == if old(self)@[k] == old(
                    self,
                )@[y] {
                    old(self)@[x]
                } else {
                    old(self)@[k]
                },
            reps(final(self)@) == reps(old(self)@).remove(old(self)@[y]),
    {
        let rx = self.find(x);
        let ry = self.find(y);
        let ghost s = self.repr@;
        proof {
            let ix = ds_at(s, x);
            assert(s[ix].0 == x);
            assert(rep_ok(s, s[ix].1));
            let iy = ds_at(s, y);
            assert(s[iy].0 == y);
            assert(rep_ok(s, s[iy].1));
        }
        let n = self.repr.len();
        let mut i: usize = 0;
        while i < n
            invariant
                n == self.repr@.len(),
                s.len() == n,
                i <= n,
                forall|j: int| 0 <= j < n ==> (#[trigger] self.repr@[j]).0 == s[j].0,
                forall|j: int|
                    0 <= j < i ==> (#[trigger] self.repr@[j]).1 == if s[j].1 == ry {
                        rx
                    } else {
                        s[j].1
                    },
                forall|j: int| i <= j < n ==> (#[trigger] self.repr@[j]).1 == s[j].1,
            decreases n - i,
        {
            if self.repr[i].1 == ry {
                let k = self.repr[i].0;
                self.repr[i] = (k, rx);
            }
            i += 1;
        }
        proof {
            lemma_union_maps(s, self.repr@, rx, ry);
        }
    }
}

} // verus!
