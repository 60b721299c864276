use vstd::prelude::*;

use crate::errors::CoreError;
use crate::registry::{Entry, Registry, entries_as_map, unique_ids};
use crate::store::BlobStore;
use crate::MAX_PAYLOAD;

verus! {

/// The closed set of administrative commands, resolved once at the request
/// boundary from the command name.
#[derive(Clone, Copy, PartialEq, Eq, Structural, Debug)]
pub enum AdminCommand {
    /// Re-arm an identifier's budget to the originally configured value.
    Reset,
    /// Delete an identifier and its blob; a no-op when already absent.
    Revoke,
    /// Report the remaining budget of an identifier.
    Inspect,
}

/// What a successful administrative operation reports.
#[derive(Clone, Copy, PartialEq, Eq, Structural, Debug)]
pub enum AdminOk {
    /// The mutation was applied.
    Done,
    /// The remaining budget that an inspection found.
    Remaining(u64),
}

/// A successful fetch: the stored payload, the budget left after this fetch,
/// and the caller's token passed through unread.
pub struct FetchOk {
    pub payload: Vec<u8>,
    pub remaining: u64,
    pub token: String,
}

/// A fetch of `id` succeeds exactly when the registry knows `id`, some budget
/// remains, and a payload is stored under `id`.
pub open spec fn fetch_enabled(reg: Map<u128, u64>, blobs: Map<u128, Seq<u8>>, id: u128) -> bool {
    reg.dom().contains(id) && reg[id] > 0 && blobs.dom().contains(id)
}

/// The registry map after one fetch of `id`: one budget unit is consumed on
/// success, and nothing changes on failure.
pub open spec fn reg_after_fetch(
    reg: Map<u128, u64>,
    blobs: Map<u128, Seq<u8>>,
    id: u128,
) -> Map<u128, u64> {
    if fetch_enabled(reg, blobs, id) {
        reg.insert(id, (reg[id] - 1) as u64)
    } else {
        reg
    }
}

/// The transactional layer tying registry checks to store operations.
///
/// Each method is one logical transaction: the caller that owns (or locks) the
/// coordinator serializes operations, so the contracts below describe the
/// atomic state change that one operation performs. Its abstract state is the
/// registry map `self.reg()`, the blob map `self.blobs()`, and the originally
/// configured per-entry budget `self.initial_budget()`.
pub struct Coordinator {
    registry: Registry,
    store: BlobStore,
    budget: u64,
}

impl Coordinator {
    /// Well-formedness of both backing structures.
    pub closed spec fn inv(self) -> bool {
        self.registry.inv() && self.store.inv()
    }

    /// The identifier-to-remaining-budget map.
    pub closed spec fn reg(self) -> Map<u128, u64> {
        self.registry@
    }

    /// The identifier-to-payload map.
    pub closed spec fn blobs(self) -> Map<u128, Seq<u8>> {
        self.store@
    }

    /// The per-entry budget supplied at provisioning time; `Reset` restores it.
    pub closed spec fn initial_budget(self) -> u64 {
        self.budget
    }

    /// Builds a coordinator over a provisioned entry list with an empty store.
    pub fn new(entries: Vec<Entry>, budget: u64) -> (c: Coordinator)
        requires
            unique_ids(entries@),
        ensures
            c.inv(),
            c.reg() == entries_as_map(entries@),
            c.blobs() == Map::<u128, Seq<u8>>::empty(),
            c.initial_budget() == budget,
    {
        Coordinator { registry: Registry::from_entries(entries), store: BlobStore::new(), budget }
    }

    /// Builds a coordinator over a provisioned entry list and an already
    /// loaded blob store, as when both survive a restart.
    pub fn from_parts(entries: Vec<Entry>, budget: u64, store: BlobStore) -> (c: Coordinator)
        requires
            unique_ids(entries@),
            store.inv(),
        ensures
            c.inv(),
            c.reg() == entries_as_map(entries@),
            c.blobs() == store@,
            c.initial_budget() == budget,
    {
        Coordinator { registry: Registry::from_entries(entries), store, budget }
    }

    /// The durable byte representation of the blob store's current contents.
    pub fn store_bytes(&self) -> (r: Vec<u8>)
        requires
            self.inv(),
        ensures
            exists|s: Seq<crate::store::Blob>| crate::store::unique_blob_ids(s)
                && crate::store::blobs_bounded(s) && crate::store::blobs_as_map(s)
                == self.blobs() && r@ == #[trigger] crate::store::spec_encode_store(s),
    {
        self.store.to_bytes()
    }

    /// Stores a payload under a provisioned identifier. Writes are unmetered:
    /// only fetches consume budget, so the registry map never changes here.
    pub fn push(&mut self, id: u128, payload: Vec<u8>) -> (r: Result<(), CoreError>)
        requires
            old(self).inv(),
        ensures
            final(self).inv(),
            final(self).reg() == old(self).reg(),
            final(self).initial_budget() == old(self).initial_budget(),
            ({
                if !old(self).reg().dom().contains(id) {
                    r == Err::<(), CoreError>(CoreError::NotFound)
                        && final(self).blobs() == old(self).blobs()
                } else if payload@.len() > MAX_PAYLOAD {
                    r == Err::<(), CoreError>(CoreError::TooLarge)
                        && final(self).blobs() == old(self).blobs()
                } else {
                    r == Ok::<(), CoreError>(())
                        && final(self).blobs() == old(self).blobs().insert(id, payload@)
                }
            }),
    {
        if self.registry.lookup(id).is_none() {
            return Err(CoreError::NotFound);
        }
        self.store.put(id, payload)
    }

    /// Atomically takes one unit of `id`'s budget and reads its payload.
    ///
    /// The token is an opaque audit value: it must be non-empty and is handed
    /// back unread in the response. A fetch that fails — unknown identifier,
    /// exhausted budget, or no stored payload — changes nothing, so budget is
    /// only ever consumed by a fetch that returns the payload.
    pub fn fetch(&mut self, id: u128, token: String) -> (r: Result<FetchOk, CoreError>)
        requires
            old(self).inv(),
            token@.len() > 0,
        ensures
            final(self).inv(),
            final(self).initial_budget() == old(self).initial_budget(),
            final(self).blobs() == old(self).blobs(),
            final(self).reg() == reg_after_fetch(old(self).reg(), old(self).blobs(), id),
            r is Ok <==> fetch_enabled(old(self).reg(), old(self).blobs(), id),
            r matches Ok(f) ==> f.payload@ == old(self).blobs()[id]
                && f.remaining == old(self).reg()[id] - 1 && f.token == token,
            ({
                if !old(self).reg().dom().contains(id) {
                    r == Err::<FetchOk, CoreError>(CoreError::NotFound)
                } else if old(self).reg()[id] == 0 {
                    r == Err::<FetchOk, CoreError>(CoreError::Exhausted)
                } else if !old(self).blobs().dom().contains(id) {
                    r == Err::<FetchOk, CoreError>(CoreError::NotFound)
                } else {
                    r is Ok
                }
            }),
    {
        let remaining = match self.registry.lookup(id) {
            Some(n) => n,
            None => {
                return Err(CoreError::NotFound);
            },
        };
        if remaining == 0 {
            return Err(CoreError::Exhausted);
        }
        let payload = match self.store.get(id) {
            Some(p) => p,
            None => {
                return Err(CoreError::NotFound);
            },
        };
        match self.registry.decrement(id) {
            Ok(n) => Ok(FetchOk { payload, remaining: n, token }),
            Err(e) => {
                proof {
                    assert(false);
                }
                Err(e)
            },
        }
    }

    /// Dispatches an administrative command for `id`.
    ///
    /// `Reset` re-arms the budget to the configured value, `Revoke` removes
    /// the identifier and its blob (a no-op when absent), and `Inspect`
    /// reports the remaining budget without changing anything.
    pub fn admin(&mut self, cmd: AdminCommand, id: u128) -> (r: Result<AdminOk, CoreError>)
        requires
            old(self).inv(),
        ensures
            final(self).inv(),
            final(self).initial_budget() == old(self).initial_budget(),
            match cmd {
                AdminCommand::Reset => ({
                    if old(self).reg().dom().contains(id) {
                        r == Ok::<AdminOk, CoreError>(AdminOk::Done)
                            && final(self).reg() == old(self).reg().insert(
                                id,
                                old(self).initial_budget(),
                            )
                            && final(self).blobs() == old(self).blobs()
                    } else {
                        r == Err::<AdminOk, CoreError>(CoreError::NotFound)
                            && final(self).reg() == old(self).reg()
                            && final(self).blobs() == old(self).blobs()
                    }
                }),
                AdminCommand::Revoke => r == Ok::<AdminOk, CoreError>(AdminOk::Done)
                    && final(self).reg() == old(self).reg().remove(id)
                    && final(self).blobs() == old(self).blobs().remove(id),
                AdminCommand::Inspect => final(self).reg() == old(self).reg()
                    && final(self).blobs() == old(self).blobs()
                    && ({
                    if old(self).reg().dom().contains(id) {
                        r == Ok::<AdminOk, CoreError>(AdminOk::Remaining(old(self).reg()[id]))
                    } else {
                        r == Err::<AdminOk, CoreError>(CoreError::NotFound)
                    }
                }),
            },
    {
        match cmd {
            AdminCommand::Reset => {
                let budget = self.budget;
                match self.registry.reset(id, budget) {
                    Ok(_) => Ok(AdminOk::Done),
                    Err(e) => Err(e),
                }
            },
            AdminCommand::Revoke => {
                let _ = self.registry.delete(id);
                self.store.delete(id);
                proof {
                    if !old(self).reg().dom().contains(id) {
                        assert(self.reg() =~= old(self).reg().remove(id));
                    }
                }
                Ok(AdminOk::Done)
            },
            AdminCommand::Inspect => {
                match self.registry.lookup(id) {
                    Some(n) => Ok(AdminOk::Remaining(n)),
                    None => Err(CoreError::NotFound),
                }
            },
        }
    }

    /// Captures the current registry state and the configured budget as a
    /// snapshot, ready for the durable codec; loading the snapshot back
    /// rebuilds exactly the registry map of this coordinator.
    pub fn snapshot(&self) -> (s: crate::snapshot::Snapshot)
        requires
            self.inv(),
        ensures
            s.wf(),
            s.budget == self.initial_budget(),
            entries_as_map(s.entries@) == self.reg(),
    {
        let entries = self.registry.list();
        proof {
            crate::registry::lemma_entries_of_map(entries@, self.reg());
        }
        crate::snapshot::Snapshot { entries, budget: self.budget }
    }

    /// A read-only snapshot of every identifier with its remaining budget.
    pub fn list(&self) -> (r: Vec<Entry>)
        requires
            self.inv(),
        ensures
            unique_ids(r@),
            forall|k: int| 0 <= k < r@.len()
                ==> self.reg().dom().contains(#[trigger] r@[k].id)
                    && self.reg()[r@[k].id] == r@[k].remaining,
            forall|id: u128| self.reg().dom().contains(id)
                ==> crate::registry::has_id(r@, id),
    {
        self.registry.list()
    }
}

} // verus!
