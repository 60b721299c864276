use vstd::prelude::*;

use crate::errors::CoreError;

verus! {

/// One identifier together with its remaining access budget.
#[derive(Clone, Copy, PartialEq, Eq, Structural, Debug)]
pub struct Entry {
    pub id: u128,
    pub remaining: u64,
}

/// No identifier occurs twice in `s`.
pub open spec fn unique_ids(s: Seq<Entry>) -> bool {
    forall|i: int, j: int| 0 <= i < j < s.len() ==> s[i].id != s[j].id
}

/// Some entry of `s` carries `id`.
pub open spec fn has_id(s: Seq<Entry>, id: u128) -> bool {
    exists|i: int| 0 <= i < s.len() && s[i].id == id
}

/// The index of the entry carrying `id`; meaningful when `has_id(s, id)` holds.
pub open spec fn idx_of(s: Seq<Entry>, id: u128) -> int {
    choose|i: int| 0 <= i < s.len() && s[i].id == id
}

/// The identifier-to-budget map that the entry sequence represents.
pub open spec fn entries_as_map(s: Seq<Entry>) -> Map<u128, u64> {
    Map::new(|id: u128| has_id(s, id), |id: u128| s[idx_of(s, id)].remaining)
}

/// With unique identifiers, the witness index of an identifier is unique.
pub proof fn lemma_idx_of(s: Seq<Entry>, i: int)
    requires
        unique_ids(s),
        0 <= i < s.len(),
    ensures
        has_id(s, s[i].id),
        idx_of(s, s[i].id) == i,
{
    let id = s[i].id;
    assert(has_id(s, id));
    let j = idx_of(s, id);
    assert(0 <= j < s.len() && s[j].id == id);
    if i < j {
        assert(s[i].id != s[j].id);
    } else if j < i {
        assert(s[j].id != s[i].id);
    }
}

/// Replacing the entry at `i` by one with the same identifier updates the map
/// at that identifier and leaves every other identifier untouched.
pub proof fn lemma_map_update(s: Seq<Entry>, i: int, e: Entry)
    requires
        unique_ids(s),
        0 <= i < s.len(),
        e.id == s[i].id,
    ensures
        unique_ids(s.update(i, e)),
        entries_as_map(s.update(i, e)) == entries_as_map(s).insert(e.id, e.remaining),
{
    let s2 = s.update(i, e);
    assert(forall|k: int| 0 <= k < s.len() ==> s2[k].id == s[k].id);
    assert(entries_as_map(s2) =~= entries_as_map(s).insert(e.id, e.remaining)) by {
        assert forall|id: u128| has_id(s2, id) implies has_id(s, id) by {
            let k = choose|k: int| 0 <= k < s2.len() && s2[k].id == id;
            assert(s[k].id == id);
        };
        assert forall|id: u128| has_id(s, id) implies has_id(s2, id) by {
            let k = choose|k: int| 0 <= k < s.len() && s[k].id == id;
            assert(s2[k].id == id);
        };
        assert forall|id: u128| has_id(s2, id) implies entries_as_map(s2)[id]
            == entries_as_map(s).insert(e.id, e.remaining)[id] by {
            if id == e.id {
                lemma_idx_of(s2, i);
                assert(entries_as_map(s2)[id] == e.remaining);
            } else {
                let k = idx_of(s, id);
                assert(0 <= k < s.len() && s[k].id == id);
                assert(k != i);
                lemma_idx_of(s2, k);
                assert(entries_as_map(s2)[id] == s[k].remaining);
            }
        };
    };
}

/// Appending an entry with a fresh identifier inserts it into the map and
/// leaves every other identifier untouched.
pub proof fn lemma_map_push(s: Seq<Entry>, e: Entry)
    requires
        unique_ids(s),
        !has_id(s, e.id),
    ensures
        unique_ids(s.push(e)),
        entries_as_map(s.push(e)) == entries_as_map(s).insert(e.id, e.remaining),
{
    let s2 = s.push(e);
    let n = s.len() as int;
    assert(forall|k: int| 0 <= k < n ==> s2[k] == s[k]);
    assert(s2[n] == e);
    assert forall|i: int, j: int| 0 <= i < j < s2.len() implies s2[i].id != s2[j].id by {
        if j < n {
        } else {
            assert(s2[i].id == s[i].id);
            if s2[i].id == e.id {
                assert(has_id(s, e.id));
            }
        }
    };
    assert(entries_as_map(s2) =~= entries_as_map(s).insert(e.id, e.remaining)) by {
        assert(has_id(s2, e.id)) by {
            assert(s2[n].id == e.id);
        };
        assert forall|id: u128| id != e.id && has_id(s2, id) implies has_id(s, id) by {
            let k = choose|k: int| 0 <= k < s2.len() && s2[k].id == id;
            assert(k < n);
            assert(s[k].id == id);
        };
        assert forall|id: u128| has_id(s, id) implies has_id(s2, id) by {
            let k = choose|k: int| 0 <= k < s.len() && s[k].id == id;
            assert(s2[k].id == id);
        };
        assert forall|id: u128| has_id(s2, id) implies entries_as_map(s2)[id]
            == entries_as_map(s).insert(e.id, e.remaining)[id] by {
            if id == e.id {
                lemma_idx_of(s2, n);
                assert(entries_as_map(s2)[id] == e.remaining);
            } else {
                let k = choose|k: int| 0 <= k < s2.len() && s2[k].id == id;
                assert(k < n);
                assert(s[k].id == id);
                lemma_idx_of(s, k);
                lemma_idx_of(s2, k);
                assert(entries_as_map(s2)[id] == s[k].remaining);
            }
        };
    };
}

/// Removing the entry at `i` removes exactly its identifier from the map.
pub proof fn lemma_map_remove(s: Seq<Entry>, i: int)
    requires
        unique_ids(s),
        0 <= i < s.len(),
    ensures
        unique_ids(s.remove(i)),
        entries_as_map(s.remove(i)) == entries_as_map(s).remove(s[i].id),
{
    let s2 = s.remove(i);
    let id0 = s[i].id;
    assert(forall|k: int| 0 <= k < i ==> s2[k] == s[k]);
    assert(forall|k: int| i <= k < s2.len() ==> s2[k] == s[k + 1]);
    assert forall|p: int, q: int| 0 <= p < q < s2.len() implies s2[p].id != s2[q].id by {
        let p0: int = if p < i { p } else { p + 1 };
        let q0: int = if q < i { q } else { q + 1 };
        assert(s2[p].id == s[p0].id);
        assert(s2[q].id == s[q0].id);
    };
    assert(entries_as_map(s2) =~= entries_as_map(s).remove(id0)) by {
        assert forall|id: u128| has_id(s2, id) implies has_id(s, id) && id != id0 by {
            let k = choose|k: int| 0 <= k < s2.len() && s2[k].id == id;
            let k0: int = if k < i { k } else { k + 1 };
            assert(s[k0].id == id);
            if id == id0 {
                lemma_idx_of(s, i);
                lemma_idx_of(s, k0);
            }
        };
        assert forall|id: u128| has_id(s, id) && id != id0 implies has_id(s2, id) by {
            let k = choose|k: int| 0 <= k < s.len() && s[k].id == id;
            if k != i {
                let k2: int = if k < i { k } else { k - 1 };
                assert(s2[k2].id == id);
            }
        };
        assert forall|id: u128| has_id(s2, id) implies entries_as_map(s2)[id]
            == entries_as_map(s).remove(id0)[id] by {
            let k = choose|k: int| 0 <= k < s2.len() && s2[k].id == id;
            let k0: int = if k < i { k } else { k + 1 };
            assert(s[k0].id == id);
            lemma_idx_of(s2, k);
            lemma_idx_of(s, k0);
            assert(entries_as_map(s2)[id] == s2[k].remaining);
            assert(entries_as_map(s)[id] == s[k0].remaining);
        };
    };
}

/// An entry list that enumerates a map exactly — unique identifiers, every
/// entry agreeing with the map, every mapped identifier present — represents
/// that map.
pub proof fn lemma_entries_of_map(r: Seq<Entry>, m: Map<u128, u64>)
    requires
        unique_ids(r),
        forall|k: int| 0 <= k < r.len()
            ==> m.dom().contains(#[trigger] r[k].id) && m[r[k].id] == r[k].remaining,
        forall|id: u128| m.dom().contains(id) ==> has_id(r, id),
    ensures
        entries_as_map(r) == m,
{
    assert(entries_as_map(r) =~= m) by {
        assert forall|id: u128| has_id(r, id) implies m.dom().contains(id) by {
            let k = choose|k: int| 0 <= k < r.len() && r[k].id == id;
            assert(m.dom().contains(r[k].id));
        };
        assert forall|id: u128| has_id(r, id) implies entries_as_map(r)[id] == m[id] by {
            let k = idx_of(r, id);
            assert(0 <= k < r.len() && r[k].id == id);
            lemma_idx_of(r, k);
            assert(entries_as_map(r)[id] == r[k].remaining);
        };
    };
}

/// Reports whether the identifiers of `entries` are pairwise distinct;
/// loaders use this before building a registry from persisted entries.
pub fn entries_unique(entries: &Vec<Entry>) -> (r: bool)
    ensures
        r == unique_ids(entries@),
{
    let n = entries.len();
    if n == 0 {
        return true;
    }
    let mut i: usize = 1;
    while i < n
        invariant
            n == entries@.len(),
            1 <= i <= n,
            unique_ids(entries@.subrange(0, i as int)),
        decreases n - i,
    {
        let mut j: usize = 0;
        while j < i
            invariant
                n == entries@.len(),
                0 <= j <= i < n,
                forall|k: int| 0 <= k < j ==> entries@[k].id != entries@[i as int].id,
            decreases i - j,
        {
            if entries[j].id == entries[i].id {
                return false;
            }
            j += 1;
        }
        proof {
            let s1 = entries@.subrange(0, i as int);
            let s2 = entries@.subrange(0, i as int + 1);
            assert forall|p: int, q: int| 0 <= p < q < s2.len() implies s2[p].id != s2[q].id by {
                if q < i {
                    assert(s1[p].id != s1[q].id);
                } else {
                    assert(s2[q].id == entries@[i as int].id);
                    assert(s2[p].id == entries@[p].id);
                }
            };
        }
        i += 1;
    }
    proof {
        assert(entries@.subrange(0, n as int) =~= entries@);
    }
    true
}

/// The authoritative set of identifiers and their remaining budgets.
///
/// Its abstract value, written `self@`, is the finite map from identifier to
/// remaining budget; every operation's contract is stated over that map.
pub struct Registry {
    entries: Vec<Entry>,
}

impl View for Registry {
    type V = Map<u128, u64>;

    closed spec fn view(&self) -> Map<u128, u64> {
        entries_as_map(self.entries@)
    }
}

impl Registry {
    /// Well-formedness: the backing entries carry pairwise distinct identifiers.
    pub closed spec fn inv(self) -> bool {
        unique_ids(self.entries@)
    }

    /// An empty registry.
    pub fn new() -> (r: Registry)
        ensures
            r.inv(),
            r@ == Map::<u128, u64>::empty(),
    {
        let r = Registry { entries: Vec::new() };
        proof {
            assert(r@ =~= Map::<u128, u64>::empty());
        }
        r
    }

    /// Builds a registry from an entry list with pairwise distinct identifiers.
    pub fn from_entries(entries: Vec<Entry>) -> (r: Registry)
        requires
            unique_ids(entries@),
        ensures
            r.inv(),
            r@ == entries_as_map(entries@),
    {
        Registry { entries }
    }

    /// Looks an identifier up; absence is a routine outcome, never an error.
    pub fn lookup(&self, id: u128) -> (r: Option<u64>)
        requires
            self.inv(),
        ensures
            match r {
                Some(n) => self@.dom().contains(id) && self@[id] == n,
                None => !self@.dom().contains(id),
            },
    {
        let n = self.entries.len();
        let mut i: usize = 0;
        while i < n
            invariant
                self.inv(),
                n == self.entries@.len(),
                0 <= i <= n,
                forall|k: int| 0 <= k < i ==> self.entries@[k].id != id,
            decreases n - i,
        {
            if self.entries[i].id == id {
                proof {
                    lemma_idx_of(self.entries@, i as int);
                }
                return Some(self.entries[i].remaining);
            }
            i += 1;
        }
        proof {
            assert(!has_id(self.entries@, id));
        }
        None
    }

    /// Atomic check-and-decrement: takes one unit of budget if any remains.
    pub fn decrement(&mut self, id: u128) -> (r: Result<u64, CoreError>)
        requires
            old(self).inv(),
        ensures
            final(self).inv(),
            ({
                if !old(self)@.dom().contains(id) {
                    r == Err::<u64, CoreError>(CoreError::NotFound) && final(self)@ == old(self)@
                } else if old(self)@[id] == 0 {
                    r == Err::<u64, CoreError>(CoreError::Exhausted) && final(self)@ == old(self)@
                } else {
                    r == Ok::<u64, CoreError>((old(self)@[id] - 1) as u64)
                        && final(self)@ == old(self)@.insert(id, (old(self)@[id] - 1) as u64)
                }
            }),
    {
        let n = self.entries.len();
        let mut i: usize = 0;
        while i < n
            invariant
                self.inv(),
                *self == *old(self),
                n == self.entries@.len(),
                0 <= i <= n,
                forall|k: int| 0 <= k < i ==> self.entries@[k].id != id,
            decreases n - i,
        {
            if self.entries[i].id == id {
                proof {
                    lemma_idx_of(self.entries@, i as int);
                }
                let cur = self.entries[i].remaining;
                if cur == 0 {
                    return Err(CoreError::Exhausted);
                }
                let e = Entry { id, remaining: cur - 1 };
                proof {
                    lemma_map_update(self.entries@, i as int, e);
                }
                self.entries[i] = e;
                return Ok(cur - 1);
            }
            i += 1;
        }
        proof {
            assert(!has_id(self.entries@, id));
        }
        Err(CoreError::NotFound)
    }

    /// Adds a fresh identifier with the given budget.
    pub fn insert(&mut self, id: u128, budget: u64) -> (r: Result<(), CoreError>)
        requires
            old(self).inv(),
        ensures
            final(self).inv(),
            ({
                if old(self)@.dom().contains(id) {
                    r == Err::<(), CoreError>(CoreError::AlreadyExists) && final(self)@ == old(self)@
                } else {
                    r == Ok::<(), CoreError>(()) && final(self)@ == old(self)@.insert(id, budget)
                }
            }),
    {
        let n = self.entries.len();
        let mut i: usize = 0;
        while i < n
            invariant
                self.inv(),
                *self == *old(self),
                n == self.entries@.len(),
                0 <= i <= n,
                forall|k: int| 0 <= k < i ==> self.entries@[k].id != id,
            decreases n - i,
        {
            if self.entries[i].id == id {
                proof {
                    lemma_idx_of(self.entries@, i as int);
                }
                return Err(CoreError::AlreadyExists);
            }
            i += 1;
        }
        let e = Entry { id, remaining: budget };
        proof {
            assert(!has_id(self.entries@, id));
            lemma_map_push(self.entries@, e);
        }
        self.entries.push(e);
        Ok(())
    }

    /// Removes an identifier; reports `NotFound` when it was absent.
    pub fn delete(&mut self, id: u128) -> (r: Result<(), CoreError>)
        requires
            old(self).inv(),
        ensures
            final(self).inv(),
            ({
                if old(self)@.dom().contains(id) {
                    r == Ok::<(), CoreError>(()) && final(self)@ == old(self)@.remove(id)
                } else {
                    r == Err::<(), CoreError>(CoreError::NotFound) && final(self)@ == old(self)@
                }
            }),
    {
        let n = self.entries.len();
        let mut i: usize = 0;
        while i < n
            invariant
                self.inv(),
                *self == *old(self),
                n == self.entries@.len(),
                0 <= i <= n,
                forall|k: int| 0 <= k < i ==> self.entries@[k].id != id,
            decreases n - i,
        {
            if self.entries[i].id == id {
                proof {
                    lemma_idx_of(self.entries@, i as int);
                    lemma_map_remove(self.entries@, i as int);
                }
                self.entries.remove(i);
                return Ok(());
            }
            i += 1;
        }
        proof {
            assert(!has_id(self.entries@, id));
        }
        Err(CoreError::NotFound)
    }

    /// Re-arms an identifier's budget; reports `NotFound` when it is absent.
    pub fn reset(&mut self, id: u128, budget: u64) -> (r: Result<(), CoreError>)
        requires
            old(self).inv(),
        ensures
            final(self).inv(),
            ({
                if old(self)@.dom().contains(id) {
                    r == Ok::<(), CoreError>(()) && final(self)@ == old(self)@.insert(id, budget)
                } else {
                    r == Err::<(), CoreError>(CoreError::NotFound) && final(self)@ == old(self)@
                }
            }),
    {
        let n = self.entries.len();
        let mut i: usize = 0;
        while i < n
            invariant
                self.inv(),
                *self == *old(self),
                n == self.entries@.len(),
                0 <= i <= n,
                forall|k: int| 0 <= k < i ==> self.entries@[k].id != id,
            decreases n - i,
        {
            if self.entries[i].id == id {
                proof {
                    lemma_idx_of(self.entries@, i as int);
                }
                let e = Entry { id, remaining: budget };
                proof {
                    lemma_map_update(self.entries@, i as int, e);
                }
                self.entries[i] = e;
                return Ok(());
            }
            i += 1;
        }
        proof {
            assert(!has_id(self.entries@, id));
        }
        Err(CoreError::NotFound)
    }

    /// A read-only snapshot of every entry, one per identifier in `self@`.
    pub fn list(&self) -> (r: Vec<Entry>)
        requires
            self.inv(),
        ensures
            unique_ids(r@),
            forall|k: int| 0 <= k < r@.len()
                ==> self@.dom().contains(#[trigger] r@[k].id) && self@[r@[k].id] == r@[k].remaining,
            forall|id: u128| self@.dom().contains(id) ==> has_id(r@, id),
    {
        let n = self.entries.len();
        let mut out: Vec<Entry> = Vec::new();
        let mut i: usize = 0;
        while i < n
            invariant
                self.inv(),
                n == self.entries@.len(),
                0 <= i <= n,
                out@ == self.entries@.subrange(0, i as int),
            decreases n - i,
        {
            out.push(self.entries[i]);
            i += 1;
        }
        proof {
            assert(out@ =~= self.entries@);
            assert forall|k: int| 0 <= k < out@.len() implies self@.dom().contains(
                #[trigger] out@[k].id,
            ) && self@[out@[k].id] == out@[k].remaining by {
                lemma_idx_of(self.entries@, k);
            };
        }
        out
    }
}

} // verus!
