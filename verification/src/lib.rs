//! A bidirectional one-to-many association between two `u64` key domains.
//!
//! An `OneToManyMap` records relations `(a, b)` in which each A-key may own
//! many B-keys, while every B-key belongs to at most one A-key. Two hash maps
//! are kept mutually consistent: a forward map from each A-key to its set of
//! B-keys, and a backward map from each related B-key to its unique owner.
//! The abstract state of the structure is the backward map alone; the forward
//! map is an index over it.

use vstd::prelude::*;

verus! {

use std::collections::HashMap;

broadcast use vstd::std_specs::hash::group_hash_axioms;

/// The set of B-keys that `owners` assigns to the A-key `a`.
pub open spec fn group_of(owners: Map<u64, u64>, a: u64) -> Set<u64> {
    Set::new(|b: u64| owners.contains_key(b) && owners[b] == a)
}

/// What `insert(a, b)` does, as a relation between the owners map before the
/// call (`pre`), the owners map after it (`post`), and the outcome `r`:
/// a no-op success if `b` already belongs to `a`, a new relation if `b` is
/// unrelated, and a conflict error carrying `(a, b)` back unchanged if `b`
/// belongs to a different A-key.
pub open spec fn insert_spec(
    pre: Map<u64, u64>,
    a: u64,
    b: u64,
    post: Map<u64, u64>,
    r: Result<bool, (u64, u64)>,
) -> bool {
    if pre.contains_key(b) {
        if pre[b] == a {
            post == pre && r == Ok::<bool, (u64, u64)>(false)
        } else {
            post == pre && r == Err::<bool, (u64, u64)>((a, b))
        }
    } else {
        post == pre.insert(b, a) && r == Ok::<bool, (u64, u64)>(true)
    }
}

/// Pushing an element that a duplicate-free sequence does not hold keeps it
/// duplicate-free.
proof fn lemma_no_duplicates_push(s: Seq<u64>, x: u64)
    requires
        s.no_duplicates(),
        !s.contains(x),
    ensures
        s.push(x).no_duplicates(),
{
    assert forall|i: int, j: int|
        0 <= i < s.push(x).len() && 0 <= j < s.push(x).len() && i != j
        implies s.push(x)[i] != s.push(x)[j] by {
        if i < s.len() && j < s.len() {
        } else if j == s.len() && i < s.len() {
            assert(s[i] != x);
        } else if i == s.len() && j < s.len() {
            assert(s[j] != x);
        }
    }
}

/// What `remove_one(b)` does: if `b` has an owner, that one relation is
/// removed and the owner returned; otherwise nothing changes and `None` is
/// returned.
pub open spec fn remove_one_spec(
    pre: Map<u64, u64>,
    b: u64,
    post: Map<u64, u64>,
    r: Option<u64>,
) -> bool {
    if pre.contains_key(b) {
        r == Some(pre[b]) && post == pre.remove(b)
    } else {
        r == None::<u64> && post == pre
    }
}

/// Removing one position from a duplicate-free sequence keeps it
/// duplicate-free and drops exactly the element at that position.
proof fn lemma_no_duplicates_remove(s: Seq<u64>, i: int)
    requires
        s.no_duplicates(),
        0 <= i < s.len(),
    ensures
        s.remove(i).no_duplicates(),
        forall|x: u64| #[trigger] s.remove(i).contains(x) <==> s.contains(x) && x != s[i],
{
    let t = s.remove(i);
    assert forall|j: int, k: int| 0 <= j < t.len() && 0 <= k < t.len() && j != k
        implies t[j] != t[k] by {
        let j0: int = if j < i { j } else { j + 1 };
        let k0: int = if k < i { k } else { k + 1 };
        assert(t[j] == s[j0]);
        assert(t[k] == s[k0]);
    }
    assert forall|x: u64| #[trigger] t.contains(x) <==> s.contains(x) && x != s[i] by {
        if t.contains(x) {
            let j = choose|j: int| 0 <= j < t.len() && t[j] == x;
            let j0: int = if j < i { j } else { j + 1 };
            assert(s[j0] == x);
            assert(j0 != i);
            assert(s[i] != x);
        }
        if s.contains(x) && x != s[i] {
            let j0 = choose|j0: int| 0 <= j0 < s.len() && s[j0] == x;
            let j: int = if j0 < i { j0 } else { j0 - 1 };
            assert(t[j] == x);
        }
    }
}

/// What `remove_many(a)` does: every relation owned by `a` is removed at
/// once, and exactly the B-keys of those relations are returned.
pub open spec fn remove_many_spec(
    pre: Map<u64, u64>,
    a: u64,
    post: Map<u64, u64>,
    removed: Set<u64>,
) -> bool {
    removed == group_of(pre, a) && post == pre.remove_keys(group_of(pre, a))
}

/// Position of `x` in `v`, which must hold it.
fn index_of(v: &Vec<u64>, x: &u64) -> (i: usize)
    requires
        v@.contains(*x),
    ensures
        i < v@.len(),
        v@[i as int] == *x,
{
    let mut i: usize = 0;
    while i < v.len()
        invariant
            i <= v@.len(),
            v@.contains(*x),
            forall|j: int| 0 <= j < i ==> v@[j] != *x,
        decreases v@.len() - i,
    {
        if v[i] == *x {
            return i;
        }
        i = i + 1;
    }
    proof {
        assert(false);
    }
    0
}

/// A one-to-many map from A-keys to sets of B-keys, in which each B-key
/// belongs to at most one A-key at a time.
///
/// Conflicting inserts are rejected rather than merged or overwritten: once
/// `b` belongs to `a`, no other A-key may claim `b` until the relation is
/// removed.
#[derive(Debug)]
pub struct OneToManyMap {
    /// Forward index: every A-key ever inserted, mapped to its current B-set.
    /// An entry may be empty and persists until removed by `remove_many`.
    to_bs: HashMap<u64, Vec<u64>>,
    /// Backward map: every currently related B-key, mapped to its owner.
    to_a: HashMap<u64, u64>,
    /// Shared empty set handed out by `get_many` for unknown A-keys.
    empty: Vec<u64>,
}

impl OneToManyMap {
    /// The abstract state: the map from each related B-key to its owning A-key.
    pub closed spec fn owners(self) -> Map<u64, u64> {
        self.to_a@
    }

    /// `b` is currently related to `a`.
    pub open spec fn related(self, a: u64, b: u64) -> bool {
        self.owners().contains_key(b) && self.owners()[b] == a
    }

    /// The set of B-keys currently related to `a`.
    pub open spec fn group(self, a: u64) -> Set<u64> {
        group_of(self.owners(), a)
    }

    /// Well-formedness: the forward and backward maps agree on every relation,
    /// no B-set holds a key twice, and the shared empty set is empty.
    pub closed spec fn wf(self) -> bool {
        &&& self.empty@ == Seq::<u64>::empty()
        &&& forall|a: u64| #[trigger] self.to_bs@.contains_key(a)
                ==> self.to_bs@[a]@.no_duplicates()
        &&& forall|a: u64, b: u64|
                self.to_bs@.contains_key(a) && #[trigger] self.to_bs@[a]@.contains(b)
                ==> self.to_a@.contains_key(b) && self.to_a@[b] == a
        &&& forall|b: u64| #[trigger] self.to_a@.contains_key(b)
                ==> self.to_bs@.contains_key(self.to_a@[b])
                    && self.to_bs@[self.to_a@[b]]@.contains(b)
    }

    /// Attempts to record that `b` belongs to `a`.
    ///
    /// Returns `Ok(false)` if the relation is already present (nothing
    /// changes), `Ok(true)` if a new relation was created, and `Err((a, b))`
    /// if `b` already belongs to a different A-key (the map is left
    /// untouched). The A-key `a` is registered in the forward index on every
    /// path, which is unobservable through the public operations.
    pub fn insert(&mut self, a: u64, b: u64) -> (r: Result<bool, (u64, u64)>)
        requires
            old(self).wf(),
        ensures
            final(self).wf(),
            insert_spec(old(self).owners(), a, b, final(self).owners(), r),
    {
        if !self.to_bs.contains_key(&a) {
            self.to_bs.insert(a, Vec::new());
            proof {
                assert(self.wf());
            }
        }
        let ghost mid = *self;
        let owner: Option<u64> = match self.to_a.get(&b) {
            Some(x) => Some(*x),
            None => None,
        };
        match owner {
            Some(o) => {
                if o == a {
                    Ok(false)
                } else {
                    Err((a, b))
                }
            },
            None => {
                let mut bs = self.to_bs.remove(&a).unwrap();
                let ghost bs0 = bs@;
                proof {
                    // b is in no B-set, since it has no owner.
                    assert(!bs0.contains(b));
                    lemma_no_duplicates_push(bs0, b);
                }
                bs.push(b);
                self.to_bs.insert(a, bs);
                self.to_a.insert(b, a);
                proof {
                    broadcast use vstd::seq_lib::lemma_seq_contains_after_push;

                    assert forall|b2: u64| #[trigger] self.to_a@.contains_key(b2)
                        implies self.to_bs@.contains_key(self.to_a@[b2])
                            && self.to_bs@[self.to_a@[b2]]@.contains(b2) by {
                        if b2 != b {
                            assert(mid.to_a@.contains_key(b2));
                            assert(mid.to_bs@[mid.to_a@[b2]]@.contains(b2));
                        }
                    }
                    assert(self.wf());
                }
                Ok(true)
            },
        }
    }

    /// Returns the unique A-key currently owning `b`, or `None` if `b` is
    /// unrelated to any A-key.
    pub fn get_one(&self, b: &u64) -> (r: Option<&u64>)
        ensures
            (match r {
                Some(a) => self.related(*a, *b),
                None => !self.owners().contains_key(*b),
            }),
    {
        self.to_a.get(b)
    }

    /// Returns the current B-set for `a`: duplicate-free and holding exactly
    /// the B-keys currently related to `a`. An A-key that was never inserted,
    /// or whose relations were all removed, yields an empty set rather than
    /// an error.
    pub fn get_many(&self, a: &u64) -> (r: &Vec<u64>)
        requires
            self.wf(),
        ensures
            r@.no_duplicates(),
            r@.to_set() == self.group(*a),
            forall|b: u64| #[trigger] r@.contains(b) <==> self.related(*a, b),
    {
        match self.to_bs.get(a) {
            Some(v) => {
                proof {
                    assert(v@ == self.to_bs@[*a]@);
                    assert forall|b: u64| #[trigger] v@.contains(b) <==> self.related(*a, b) by {
                        if self.related(*a, b) {
                            assert(self.to_bs@[self.to_a@[b]]@.contains(b));
                        }
                    }
                    assert(v@.to_set() =~= self.group(*a));
                }
                v
            },
            None => {
                proof {
                    assert forall|b: u64| !self.related(*a, b) by {
                        if self.to_a@.contains_key(b) && self.to_a@[b] == *a {
                            assert(self.to_bs@.contains_key(self.to_a@[b]));
                        }
                    }
                    assert(self.empty@.to_set() =~= self.group(*a));
                }
                &self.empty
            },
        }
    }

    /// Removes the single relation involving `b`, if any, and returns the
    /// A-key it was related to; `None` if `b` had no relation. The owning
    /// A-key stays registered in the forward index, with `b` taken out of its
    /// B-set.
    pub fn remove_one(&mut self, b: &u64) -> (r: Option<u64>)
        requires
            old(self).wf(),
        ensures
            final(self).wf(),
            remove_one_spec(old(self).owners(), *b, final(self).owners(), r),
    {
        match self.to_a.remove(b) {
            Some(a) => {
                proof {
                    assert(old(self).to_a@.contains_key(*b));
                    assert(self.to_bs@.contains_key(a));
                    assert(self.to_bs@[a]@.contains(*b));
                }
                let mut bs = self.to_bs.remove(&a).unwrap();
                let ghost bs0 = bs@;
                let i = index_of(&bs, b);
                bs.remove(i);
                proof {
                    lemma_no_duplicates_remove(bs0, i as int);
                }
                self.to_bs.insert(a, bs);
                proof {
                    assert forall|b2: u64| #[trigger] self.to_a@.contains_key(b2)
                        implies self.to_bs@.contains_key(self.to_a@[b2])
                            && self.to_bs@[self.to_a@[b2]]@.contains(b2) by {
                        assert(old(self).to_a@.contains_key(b2));
                        assert(old(self).to_bs@[old(self).to_a@[b2]]@.contains(b2));
                        assert(b2 != *b);
                    }
                    assert forall|a2: u64, b2: u64|
                        self.to_bs@.contains_key(a2) && #[trigger] self.to_bs@[a2]@.contains(b2)
                        implies self.to_a@.contains_key(b2) && self.to_a@[b2] == a2 by {
                        assert(old(self).to_bs@[a2]@.contains(b2));
                    }
                    assert(self.wf());
                }
                Some(a)
            },
            None => {
                proof {
                    assert(old(self).to_a@.remove(*b) =~= old(self).to_a@);
                }
                None
            },
        }
    }

    /// Removes `a` entirely: drops its entry in the forward index and every
    /// relation it owned, and returns the removed B-set. An A-key with no
    /// entry yields an empty set.
    pub fn remove_many(&mut self, a: &u64) -> (r: Vec<u64>)
        requires
            old(self).wf(),
        ensures
            final(self).wf(),
            r@.no_duplicates(),
            remove_many_spec(old(self).owners(), *a, final(self).owners(), r@.to_set()),
    {
        let ghost av = *a;
        match self.to_bs.remove(a) {
            Some(bs) => {
                let ghost pre_to_a = self.to_a@;
                let ghost pre_to_bs = self.to_bs@;
                proof {
                    assert(bs@ == old(self).to_bs@[av]@);
                    assert(bs@.no_duplicates());
                    assert forall|j: int| 0 <= j < bs@.len()
                        implies pre_to_a.contains_key(#[trigger] bs@[j]) && pre_to_a[bs@[j]] == av by {
                        assert(old(self).to_bs@[av]@.contains(bs@[j]));
                    }
                    assert(bs@.take(0).to_set() =~= Set::<u64>::empty());
                    assert(pre_to_a.remove_keys(bs@.take(0).to_set()) =~= pre_to_a);
                }
                let mut i: usize = 0;
                while i < bs.len()
                    invariant
                        i <= bs@.len(),
                        bs@.no_duplicates(),
                        forall|j: int| 0 <= j < bs@.len()
                            ==> pre_to_a.contains_key(#[trigger] bs@[j]) && pre_to_a[bs@[j]] == av,
                        self.to_bs@ == pre_to_bs,
                        self.empty@ == Seq::<u64>::empty(),
                        self.to_a@ == pre_to_a.remove_keys(bs@.take(i as int).to_set()),
                    decreases bs@.len() - i,
                {
                    self.to_a.remove(&bs[i]);
                    proof {
                        broadcast use vstd::seq_lib::lemma_seq_contains_after_push;

                        bs@.lemma_take_succ_push(i as int);
                        assert(self.to_a@ =~= pre_to_a.remove_keys(
                            bs@.take(i as int + 1).to_set(),
                        ));
                    }
                    i = i + 1;
                }
                proof {
                    assert(bs@.take(bs@.len() as int) =~= bs@);
                    // The removed B-set is exactly a's group.
                    assert forall|b: u64| #[trigger] bs@.contains(b)
                        <==> group_of(pre_to_a, av).contains(b) by {
                        if pre_to_a.contains_key(b) && pre_to_a[b] == av {
                            assert(old(self).to_bs@[pre_to_a[b]]@.contains(b));
                        }
                    }
                    assert(bs@.to_set() =~= group_of(pre_to_a, av));
                    assert(self.to_a@ == pre_to_a.remove_keys(group_of(pre_to_a, av)));
                    // Well-formedness of the shrunken structure.
                    assert forall|a2: u64| #[trigger] self.to_bs@.contains_key(a2)
                        implies self.to_bs@[a2]@.no_duplicates() by {
                        assert(old(self).to_bs@.contains_key(a2));
                    }
                    assert forall|a2: u64, b2: u64|
                        self.to_bs@.contains_key(a2) && #[trigger] self.to_bs@[a2]@.contains(b2)
                        implies self.to_a@.contains_key(b2) && self.to_a@[b2] == a2 by {
                        assert(old(self).to_bs@[a2]@.contains(b2));
                        assert(pre_to_a[b2] == a2 && a2 != av);
                        assert(!bs@.to_set().contains(b2));
                    }
                    assert forall|b2: u64| #[trigger] self.to_a@.contains_key(b2)
                        implies self.to_bs@.contains_key(self.to_a@[b2])
                            && self.to_bs@[self.to_a@[b2]]@.contains(b2) by {
                        assert(pre_to_a.contains_key(b2));
                        let a3 = pre_to_a[b2];
                        assert(old(self).to_bs@[a3]@.contains(b2));
                        if a3 == av {
                            assert(bs@.contains(b2));
                            assert(bs@.to_set().contains(b2));
                        }
                    }
                    assert(self.wf());
                }
                bs
            },
            None => {
                proof {
                    assert(old(self).to_bs@.remove(av) =~= old(self).to_bs@);
                    assert forall|b: u64| !group_of(self.to_a@, av).contains(b) by {
                        if self.to_a@.contains_key(b) && self.to_a@[b] == av {
                            assert(self.to_bs@.contains_key(self.to_a@[b]));
                        }
                    }
                    assert(Seq::<u64>::empty().to_set() =~= group_of(self.to_a@, av));
                    assert(self.to_a@.remove_keys(group_of(self.to_a@, av)) =~= self.to_a@);
                    assert(self.wf());
                }
                Vec::new()
            },
        }
    }

    /// True iff `b` is currently related to exactly `a`.
    pub fn contains(&self, a: &u64, b: &u64) -> (r: bool)
        ensures
            r == self.related(*a, *b),
    {
        match self.get_one(b) {
            Some(x) => *x == *a,
            None => false,
        }
    }
}

/// Backward-map consistency: a B-key with an owner lies in that owner's
/// group, and in no other A-key's group.
pub proof fn lemma_one_owner(m: OneToManyMap, a: u64, b: u64)
    requires
        m.related(a, b),
    ensures
        m.group(a).contains(b),
        forall|a2: u64| a2 != a ==> !(#[trigger] m.group(a2)).contains(b),
{
}

/// Idempotent insert: once an insert of `(a, b)` has succeeded — newly or as
/// a no-op — a second insert of the same pair must report a no-op success and
/// leave the owners map unchanged.
pub proof fn lemma_insert_idempotent(
    m0: Map<u64, u64>,
    a: u64,
    b: u64,
    m1: Map<u64, u64>,
    r1: Result<bool, (u64, u64)>,
    m2: Map<u64, u64>,
    r2: Result<bool, (u64, u64)>,
)
    requires
        insert_spec(m0, a, b, m1, r1),
        r1 is Ok,
        insert_spec(m1, a, b, m2, r2),
    ensures
        r2 == Ok::<bool, (u64, u64)>(false),
        m2 == m1,
{
}

/// Conflict rejection: when `b` already belongs to `a`, inserting `(a2, b)`
/// for a different `a2` fails with the rejected pair, and the owners map —
/// in particular b's owner — is left untouched.
pub proof fn lemma_insert_conflict(
    m0: Map<u64, u64>,
    a: u64,
    a2: u64,
    b: u64,
    m1: Map<u64, u64>,
    r: Result<bool, (u64, u64)>,
)
    requires
        m0.contains_key(b),
        m0[b] == a,
        a2 != a,
        insert_spec(m0, a2, b, m1, r),
    ensures
        r == Err::<bool, (u64, u64)>((a2, b)),
        m1 == m0,
        m1.contains_key(b) && m1[b] == a,
{
}

/// Removal completeness: after a bulk removal of `a`, a's group is empty and
/// none of the removed B-keys has an owner any more.
pub proof fn lemma_remove_many_complete(
    m0: Map<u64, u64>,
    a: u64,
    m1: Map<u64, u64>,
    removed: Set<u64>,
)
    requires
        remove_many_spec(m0, a, m1, removed),
    ensures
        group_of(m1, a) == Set::<u64>::empty(),
        forall|b: u64| removed.contains(b) ==> !m1.contains_key(b),
{
    assert(group_of(m1, a) =~= Set::<u64>::empty());
}

/// Round trip: for `b` with no prior relation, `insert(a, b)` succeeds and
/// makes `b` related to `a`; `remove_one(b)` then returns `a` and leaves `b`
/// unrelated, restoring the original owners map.
pub proof fn lemma_round_trip(
    m0: Map<u64, u64>,
    a: u64,
    b: u64,
    m1: Map<u64, u64>,
    r1: Result<bool, (u64, u64)>,
    m2: Map<u64, u64>,
    r2: Option<u64>,
)
    requires
        !m0.contains_key(b),
        insert_spec(m0, a, b, m1, r1),
        remove_one_spec(m1, b, m2, r2),
    ensures
        r1 == Ok::<bool, (u64, u64)>(true),
        m1.contains_key(b) && m1[b] == a,
        r2 == Some(a),
        !m2.contains_key(b),
        m2 == m0,
{
    assert(m2 =~= m0);
}

impl Default for OneToManyMap {
    /// The empty structure: no relations, no registered A-keys.
    fn default() -> (s: Self)
        ensures
            s.wf(),
            s.owners() == Map::<u64, u64>::empty(),
    {
        Self { to_bs: HashMap::new(), to_a: HashMap::new(), empty: Vec::new() }
    }
}

} // verus!
