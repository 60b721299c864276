use vstd::prelude::*;

use crate::errors::CoreError;
use crate::registry::{Entry, has_id, lemma_map_push, unique_ids};
use crate::snapshot::Snapshot;

verus! {

/// Relies on rand::random: a value drawn from the thread-local
/// cryptographically secure generator. Nothing can be promised of a random
/// value, so no clause states one.
pub assume_specification<T>[ rand::random::<T> ]() -> (r: T)
    where
        rand::distr::StandardUniform: rand::distr::Distribution<T>,
;

/// Reports whether `entries` already carries `id`.
fn contains_id(entries: &Vec<Entry>, id: u128) -> (r: bool)
    ensures
        r == has_id(entries@, id),
{
    let n = entries.len();
    let mut i: usize = 0;
    while i < n
        invariant
            n == entries@.len(),
            0 <= i <= n,
            forall|k: int| 0 <= k < i ==> entries@[k].id != id,
        decreases n - i,
    {
        if entries[i].id == id {
            return true;
        }
        i += 1;
    }
    false
}

/// Builds a provisioned snapshot from caller-supplied identifiers, each
/// seeded with `budget`; rejects a duplicated identifier and builds nothing.
pub fn snapshot_from_ids(ids: &Vec<u128>, budget: u64) -> (r: Result<Snapshot, CoreError>)
    ensures
        match r {
            Ok(s) => s.wf() && s.budget == budget && s.entries@.len() == ids@.len()
                && forall|k: int| 0 <= k < ids@.len()
                    ==> s.entries@[k] == (Entry { id: ids@[k], remaining: budget }),
            Err(e) => e == CoreError::AlreadyExists && exists|p: int, q: int|
                0 <= p < q < ids@.len() && ids@[p] == ids@[q],
        },
{
    let n = ids.len();
    let mut entries: Vec<Entry> = Vec::new();
    let mut i: usize = 0;
    while i < n
        invariant
            n == ids@.len(),
            0 <= i <= n,
            entries@.len() == i,
            unique_ids(entries@),
            forall|k: int| 0 <= k < i
                ==> entries@[k] == (Entry { id: ids@[k], remaining: budget }),
        decreases n - i,
    {
        let id = ids[i];
        if contains_id(&entries, id) {
            proof {
                let p = choose|p: int| 0 <= p < entries@.len() && entries@[p].id == id;
                assert(ids@[p] == ids@[i as int]);
            }
            return Err(CoreError::AlreadyExists);
        }
        let e = Entry { id, remaining: budget };
        proof {
            lemma_map_push(entries@, e);
        }
        entries.push(e);
        i += 1;
    }
    Ok(Snapshot { entries, budget })
}

/// Produces `n` freshly drawn random identifiers, each seeded with `budget`.
///
/// The identifiers come from `rand::random`, so unconditional success cannot
/// be promised: in the (cryptographically negligible) event that the
/// generator repeats a value, the collision is reported as `AlreadyExists`
/// rather than retried. A collision takes at least two drawn values, so for
/// `n <= 1` success is owed outright. Whatever the generator returned, an
/// `Ok` snapshot is well formed, has exactly `n` entries, and every entry
/// holds the configured budget.
pub fn generate(n: usize, budget: u64) -> (r: Result<Snapshot, CoreError>)
    ensures
        match r {
            Ok(s) => s.wf() && s.budget == budget && s.entries@.len() == n
                && forall|k: int| 0 <= k < n ==> (#[trigger] s.entries@[k]).remaining == budget,
            Err(e) => e == CoreError::AlreadyExists && n > 1,
        },
{
    let mut ids: Vec<u128> = Vec::new();
    let mut i: usize = 0;
    while i < n
        invariant
            0 <= i <= n,
            ids@.len() == i,
        decreases n - i,
    {
        let id: u128 = rand::random();
        ids.push(id);
        i += 1;
    }
    snapshot_from_ids(&ids, budget)
}

} // verus!
