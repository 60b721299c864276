use vstd::prelude::*;

use crate::coordinator::{fetch_enabled, reg_after_fetch};

verus! {

/// The registry map after `m` successive fetches of `id`, each one stepping
/// by `reg_after_fetch` exactly as `Coordinator::fetch` ensures it does.
pub open spec fn reg_after_fetches(
    reg: Map<u128, u64>,
    blobs: Map<u128, Seq<u8>>,
    id: u128,
    m: nat,
) -> Map<u128, u64>
    decreases m,
{
    if m == 0 {
        reg
    } else {
        reg_after_fetch(reg_after_fetches(reg, blobs, id, (m - 1) as nat), blobs, id)
    }
}

/// How many of `m` successive fetches of `id` return the payload.
pub open spec fn fetch_successes(
    reg: Map<u128, u64>,
    blobs: Map<u128, Seq<u8>>,
    id: u128,
    m: nat,
) -> nat
    decreases m,
{
    if m == 0 {
        0
    } else {
        fetch_successes(reg, blobs, id, (m - 1) as nat) + (
        if fetch_enabled(reg_after_fetches(reg, blobs, id, (m - 1) as nat), blobs, id) {
            1nat
        } else {
            0nat
        })
    }
}

/// Budget accounting. Across any number of successive fetches of `id`, the
/// remaining budget is exactly the starting budget minus the number of
/// successes — so the budgets observed across successful fetches are strictly
/// decreasing and never negative — and no other identifier's entry changes.
pub proof fn lemma_fetch_accounting(
    reg: Map<u128, u64>,
    blobs: Map<u128, Seq<u8>>,
    id: u128,
    m: nat,
)
    requires
        reg.dom().contains(id),
    ensures
        reg_after_fetches(reg, blobs, id, m).dom() == reg.dom(),
        fetch_successes(reg, blobs, id, m) <= reg[id],
        reg_after_fetches(reg, blobs, id, m)[id] == reg[id] - fetch_successes(reg, blobs, id, m),
        forall|other: u128| other != id && reg.dom().contains(other)
            ==> reg_after_fetches(reg, blobs, id, m)[other] == reg[other],
    decreases m,
{
    if m == 0 {
    } else {
        lemma_fetch_accounting(reg, blobs, id, (m - 1) as nat);
        let prev = reg_after_fetches(reg, blobs, id, (m - 1) as nat);
        if fetch_enabled(prev, blobs, id) {
            assert(reg_after_fetches(reg, blobs, id, m).dom() =~= reg.dom());
        }
    }
}

/// Budget monotonicity. One successful fetch leaves the remaining budget
/// exactly one below what it was, still non-negative.
pub proof fn lemma_budget_monotonic(reg: Map<u128, u64>, blobs: Map<u128, Seq<u8>>, id: u128)
    requires
        fetch_enabled(reg, blobs, id),
    ensures
        reg_after_fetch(reg, blobs, id)[id] == reg[id] - 1,
        reg_after_fetch(reg, blobs, id)[id] < reg[id],
        reg_after_fetch(reg, blobs, id)[id] >= 0,
{
}

/// Exhaustion finality. Once the remaining budget of `id` is zero, any number
/// of further fetches of `id` all fail and change nothing; only an
/// administrative reset (which replaces the entry by `Map::insert`) can make a
/// fetch succeed again.
pub proof fn lemma_exhaustion_final(
    reg: Map<u128, u64>,
    blobs: Map<u128, Seq<u8>>,
    id: u128,
    m: nat,
)
    requires
        reg.dom().contains(id),
        reg[id] == 0,
    ensures
        fetch_successes(reg, blobs, id, m) == 0,
        reg_after_fetches(reg, blobs, id, m) == reg,
    decreases m,
{
    if m == 0 {
    } else {
        lemma_exhaustion_final(reg, blobs, id, (m - 1) as nat);
    }
}

/// No double-spend. For an identifier holding budget `N`, any `m` fetches of
/// it — in particular `m > N` concurrent fetches, which the per-coordinator
/// exclusion serializes into some order — yield at most `N` successes.
/// Exactly `N` of `m >= N` fetches succeed under the one assumption a
/// success needs at all: a payload is stored under the identifier. Without
/// one, every fetch fails (`NotFound`) and the count is zero, still never
/// above `N`.
pub proof fn lemma_no_double_spend(
    reg: Map<u128, u64>,
    blobs: Map<u128, Seq<u8>>,
    id: u128,
    m: nat,
)
    requires
        reg.dom().contains(id),
    ensures
        fetch_successes(reg, blobs, id, m) <= reg[id],
        blobs.dom().contains(id) ==> fetch_successes(reg, blobs, id, m) == (
        if m >= reg[id] {
            reg[id] as nat
        } else {
            m
        }),
    decreases m,
{
    lemma_fetch_accounting(reg, blobs, id, m);
    if m == 0 {
    } else {
        lemma_no_double_spend(reg, blobs, id, (m - 1) as nat);
        lemma_fetch_accounting(reg, blobs, id, (m - 1) as nat);
    }
}

/// Push/fetch round-trip. After a successful push of payload `p` under `id`
/// (which makes the blob map `blobs.insert(id, p)`), a fetch of `id` is
/// enabled whenever budget remains, and the payload it is bound to return is
/// exactly `p`, byte for byte.
pub proof fn lemma_push_fetch_roundtrip(
    reg: Map<u128, u64>,
    blobs: Map<u128, Seq<u8>>,
    id: u128,
    p: Seq<u8>,
)
    requires
        reg.dom().contains(id),
        reg[id] > 0,
    ensures
        fetch_enabled(reg, blobs.insert(id, p), id),
        blobs.insert(id, p)[id] == p,
{
}

/// Idempotent revoke. Revoking an identifier that is absent from both maps
/// leaves both maps exactly as they were.
pub proof fn lemma_revoke_idempotent(reg: Map<u128, u64>, blobs: Map<u128, Seq<u8>>, id: u128)
    requires
        !reg.dom().contains(id),
        !blobs.dom().contains(id),
    ensures
        reg.remove(id) == reg,
        blobs.remove(id) == blobs,
{
    assert(reg.remove(id) =~= reg);
    assert(blobs.remove(id) =~= blobs);
}

/// Reset restores the budget. After re-arming `id` to budget `n` — the map
/// `Coordinator::admin` ensures for `Reset` — exactly `n` of any `m >= n`
/// further fetches succeed, provided a payload is stored under `id`.
pub proof fn lemma_reset_restores(
    reg: Map<u128, u64>,
    blobs: Map<u128, Seq<u8>>,
    id: u128,
    n: u64,
    m: nat,
)
    requires
        blobs.dom().contains(id),
        m >= n,
    ensures
        fetch_successes(reg.insert(id, n), blobs, id, m) == n,
{
    lemma_no_double_spend(reg.insert(id, n), blobs, id, m);
}

/// Isolation across identifiers: a fetch of `id` neither adds, removes, nor
/// re-budgets any other identifier, so interleaved traffic on other
/// identifiers does not disturb the accounting above.
pub proof fn lemma_fetch_frame(
    reg: Map<u128, u64>,
    blobs: Map<u128, Seq<u8>>,
    id: u128,
    other: u128,
)
    requires
        other != id,
    ensures
        reg_after_fetch(reg, blobs, id).dom().contains(other) == reg.dom().contains(other),
        reg.dom().contains(other) ==> reg_after_fetch(reg, blobs, id)[other] == reg[other],
{
}

} // verus!
