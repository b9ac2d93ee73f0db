//! Keys that name a pair of bodies in contact.

use vstd::prelude::*;
use vstd::std_specs::cmp::PartialEqSpecImpl;

verus! {

/// Names one pair of bodies that can touch: two object balls, by their
/// indices, or one object ball and the cue ball.
#[derive(Clone, Copy, Debug)]
pub enum Collision {
    TwoBalls(usize, usize),
    CueBall(usize),
}

impl PartialEq for Collision {
    /// Two keys are equal when they are the same variant with the same
    /// indices, in the same order.
    fn eq(&self, other: &Self) -> (same: bool) {
        match self {
            Collision::TwoBalls(i, j) => {
                match other {
                    Collision::TwoBalls(k, l) => *i == *k && *j == *l,
                    _ => false,
                }
            },
            Collision::CueBall(i) => {
                match other {
                    Collision::CueBall(k) => *k == *i,
                    _ => false,
                }
            },
        }
    }
}

impl PartialEqSpecImpl for Collision {
    open spec fn obeys_eq_spec() -> bool {
        true
    }

    open spec fn eq_spec(&self, other: &Self) -> bool {
        *self == *other
    }
}

impl Eq for Collision {}

impl Collision {
    /// The pair holds the object ball of index `k`.
    pub open spec fn involves(self, k: int) -> bool {
        match self {
            Collision::TwoBalls(i, j) => i == k || j == k,
            Collision::CueBall(i) => i == k,
        }
    }
}

/// The pairs that are in contact and have had their exchange of velocity:
/// a set of keys, kept without repetition.
pub struct ActivePairs {
    keys: Vec<Collision>,
}

impl View for ActivePairs {
    type V = Set<Collision>;

    closed spec fn view(&self) -> Set<Collision> {
        self.keys@.to_set()
    }
}

impl ActivePairs {
    /// No key is held twice.
    #[verifier::type_invariant]
    spec fn no_key_twice(&self) -> bool {
        self.keys@.no_duplicates()
    }

    /// The empty set.
    pub fn new() -> (pairs: ActivePairs)
        ensures
            pairs@ == Set::<Collision>::empty(),
    {
        let pairs = ActivePairs { keys: Vec::new() };
        assert(pairs.keys@.to_set() =~= Set::<Collision>::empty());
        pairs
    }

    /// The number of active pairs.
    pub fn len(&self) -> (n: usize)
        ensures
            n == self@.len(),
            self@.finite(),
    {
        proof {
            use_type_invariant(self);
            self.keys@.unique_seq_to_set();
        }
        self.keys.len()
    }

    /// Whether `key` is active.
    pub fn contains(&self, key: &Collision) -> (found: bool)
        ensures
            found == self@.contains(*key),
    {
        let mut i: usize = 0;
        while i < self.keys.len()
            invariant
                i <= self.keys.len(),
                forall|k: int| 0 <= k < i ==> self.keys@[k] != *key,
            decreases self.keys.len() - i,
        {
            if self.keys[i] == *key {
                assert(self.keys@.contains(*key));
                return true;
            }
            i += 1;
        }
        false
    }

    /// Makes `key` inactive, whether or not it was active.
    pub fn remove(&mut self, key: &Collision)
        ensures
            final(self)@ == old(self)@.remove(*key),
    {
        proof {
            use_type_invariant(&*self);
        }
        let mut kept: Vec<Collision> = Vec::new();
        let mut i: usize = 0;
        while i < self.keys.len()
            invariant
                i <= self.keys.len(),
                self.keys@.no_duplicates(),
                kept@.no_duplicates(),
                forall|c: Collision|
                    kept@.contains(c) <==> (c != *key && exists|k: int|
                        0 <= k < i && self.keys@[k] == c),
            decreases self.keys.len() - i,
        {
            let c = self.keys[i];
            if c != *key {
                let ghost before = kept@;
                assert(!before.contains(c)) by {
                    if before.contains(c) {
                        let k = choose|k: int| 0 <= k < i && self.keys@[k] == c;
                        assert(self.keys@[k] == self.keys@[i as int]);
                    }
                }
                kept.push(c);
                assert forall|d: Collision|
                    kept@.contains(d) <==> (d != *key && exists|k: int|
                        0 <= k < i + 1 && self.keys@[k] == d) by {
                    if kept@.contains(d) {
                        let at = choose|at: int| 0 <= at < kept@.len() && kept@[at] == d;
                        if at < before.len() {
                            assert(before[at] == d);
                            assert(before.contains(d));
                            let k = choose|k: int| 0 <= k < i && self.keys@[k] == d;
                            assert(0 <= k < i + 1 && self.keys@[k] == d);
                        } else {
                            assert(d == c);
                            assert(0 <= i < i + 1 && self.keys@[i as int] == d);
                        }
                    }
                    if d != *key && exists|k: int| 0 <= k < i + 1 && self.keys@[k] == d {
                        let k = choose|k: int| 0 <= k < i + 1 && self.keys@[k] == d;
                        if k < i {
                            assert(before.contains(d));
                            let at = choose|at: int| 0 <= at < before.len() && before[at] == d;
                            assert(kept@[at] == d);
                        } else {
                            assert(kept@[before.len() as int] == d);
                        }
                    }
                }
                assert(kept@.no_duplicates()) by {
                    assert forall|a: int, b: int|
                        0 <= a < kept@.len() && 0 <= b < kept@.len() && a != b implies kept@[a]
                        != kept@[b] by {
                        if a < before.len() && b < before.len() {
                            assert(before[a] != before[b]);
                        } else if a < before.len() {
                            assert(before.contains(before[a]));
                        } else if b < before.len() {
                            assert(before.contains(before[b]));
                        }
                    }
                }
            } else {
                assert forall|d: Collision|
                    kept@.contains(d) <==> (d != *key && exists|k: int|
                        0 <= k < i + 1 && self.keys@[k] == d) by {
                    if d != *key && exists|k: int| 0 <= k < i + 1 && self.keys@[k] == d {
                        let k = choose|k: int| 0 <= k < i + 1 && self.keys@[k] == d;
                        assert(k < i);
                    }
                }
            }
            i += 1;
        }
        proof {
            let was = self.keys@;
            assert forall|c: Collision| kept@.to_set().contains(c) <==> was.to_set().remove(
                *key,
            ).contains(c) by {
                if was.contains(c) {
                    let k = choose|k: int| 0 <= k < was.len() && was[k] == c;
                    assert(0 <= k < i && was[k] == c);
                }
            }
            assert(kept@.to_set() =~= was.to_set().remove(*key));
        }
        self.keys = kept;
    }

    /// Makes `key` active, whether or not it was active.
    pub fn insert(&mut self, key: Collision)
        ensures
            final(self)@ == old(self)@.insert(key),
    {
        proof {
            use_type_invariant(&*self);
        }
        if !self.contains(&key) {
            let ghost before = self.keys@;
            let mut keys = self.keys.clone();
            assert(keys@ =~= before);
            keys.push(key);
            self.keys = keys;
            proof {
                assert forall|a: int, b: int|
                    0 <= a < self.keys@.len() && 0 <= b < self.keys@.len() && a
                        != b implies self.keys@[a] != self.keys@[b] by {
                    if a < before.len() && b < before.len() {
                        assert(before[a] != before[b]);
                    } else if a < before.len() {
                        assert(before.contains(before[a]));
                    } else if b < before.len() {
                        assert(before.contains(before[b]));
                    }
                }
                assert forall|c: Collision|
                    self.keys@.to_set().contains(c) <==> before.to_set().insert(key).contains(
                        c,
                    ) by {
                    if self.keys@.contains(c) {
                        let at = choose|at: int| 0 <= at < self.keys@.len() && self.keys@[at] == c;
                        if at < before.len() {
                            assert(before[at] == c);
                        }
                    }
                    if before.contains(c) {
                        let at = choose|at: int| 0 <= at < before.len() && before[at] == c;
                        assert(self.keys@[at] == c);
                    }
                    if c == key {
                        assert(self.keys@[before.len() as int] == c);
                    }
                }
                assert(self.keys@.to_set() =~= before.to_set().insert(key));
            }
        } else {
            assert(self@.insert(key) =~= self@);
        }
    }
}

} // verus!
