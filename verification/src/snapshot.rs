use vstd::prelude::*;

use vstd::bytes::{
    lemma_auto_spec_u128_to_from_le_bytes, lemma_auto_spec_u64_to_from_le_bytes,
    spec_u128_to_le_bytes, spec_u64_to_le_bytes, u128_from_le_bytes, u128_to_le_bytes,
    u64_from_le_bytes, u64_to_le_bytes,
};
use vstd::slice::slice_subrange;

use crate::registry::{Entry, unique_ids};

verus! {

/// A provisioned registry: the entry list and the per-entry budget that was
/// configured at generation time (the value an administrative reset restores).
pub struct Snapshot {
    pub entries: Vec<Entry>,
    pub budget: u64,
}

impl Snapshot {
    /// Well-formedness: all identifiers in the snapshot are unique.
    pub open spec fn wf(self) -> bool {
        unique_ids(self.entries@)
    }
}

/// The durable representation of one entry: its identifier in sixteen
/// little-endian bytes, then its remaining budget in eight.
pub open spec fn spec_encode_entry(e: Entry) -> Seq<u8> {
    spec_u128_to_le_bytes(e.id) + spec_u64_to_le_bytes(e.remaining)
}

/// The entry list encoded back to back, in order.
pub open spec fn spec_encode_entries(s: Seq<Entry>) -> Seq<u8>
    decreases s.len(),
{
    if s.len() == 0 {
        Seq::<u8>::empty()
    } else {
        spec_encode_entries(s.drop_last()) + spec_encode_entry(s.last())
    }
}

/// The durable representation of a snapshot: the configured budget in eight
/// little-endian bytes, the entry count in eight, then the encoded entries.
pub open spec fn spec_encode_snapshot(s: Snapshot) -> Seq<u8> {
    spec_u64_to_le_bytes(s.budget) + spec_u64_to_le_bytes(s.entries@.len() as u64)
        + spec_encode_entries(s.entries@)
}

/// Every encoded entry list takes exactly twenty-four bytes per entry.
pub proof fn lemma_encode_entries_len(s: Seq<Entry>)
    ensures
        spec_encode_entries(s).len() == 24 * s.len(),
    decreases s.len(),
{
    lemma_auto_spec_u64_to_from_le_bytes();
    lemma_auto_spec_u128_to_from_le_bytes();
    if s.len() == 0 {
    } else {
        lemma_encode_entries_len(s.drop_last());
    }
}

/// Two entries with the same encoding are the same entry.
proof fn lemma_encode_entry_injective(e0: Entry, e1: Entry)
    requires
        spec_encode_entry(e0) == spec_encode_entry(e1),
    ensures
        e0 == e1,
{
    lemma_auto_spec_u64_to_from_le_bytes();
    lemma_auto_spec_u128_to_from_le_bytes();
    let b = spec_encode_entry(e0);
    assert(spec_u128_to_le_bytes(e0.id) =~= b.subrange(0, 16));
    assert(spec_u128_to_le_bytes(e1.id) =~= b.subrange(0, 16));
    assert(spec_u64_to_le_bytes(e0.remaining) =~= b.subrange(16, 24));
    assert(spec_u64_to_le_bytes(e1.remaining) =~= b.subrange(16, 24));
    assert(e0.id == e1.id) by {
        assert(vstd::bytes::spec_u128_from_le_bytes(spec_u128_to_le_bytes(e0.id))
            == vstd::bytes::spec_u128_from_le_bytes(spec_u128_to_le_bytes(e1.id)));
    };
    assert(e0.remaining == e1.remaining) by {
        assert(vstd::bytes::spec_u64_from_le_bytes(spec_u64_to_le_bytes(e0.remaining))
            == vstd::bytes::spec_u64_from_le_bytes(spec_u64_to_le_bytes(e1.remaining)));
    };
}

/// Two entry lists with the same encoding are the same list.
proof fn lemma_encode_entries_injective(s0: Seq<Entry>, s1: Seq<Entry>)
    requires
        spec_encode_entries(s0) == spec_encode_entries(s1),
    ensures
        s0 == s1,
    decreases s0.len(),
{
    lemma_auto_spec_u64_to_from_le_bytes();
    lemma_auto_spec_u128_to_from_le_bytes();
    lemma_encode_entries_len(s0);
    lemma_encode_entries_len(s1);
    assert(s0.len() == s1.len());
    if s0.len() == 0 {
        assert(s0 =~= s1);
    } else {
        let b = spec_encode_entries(s0);
        let ln = b.len() as int;
        lemma_encode_entries_len(s0.drop_last());
        lemma_encode_entries_len(s1.drop_last());
        assert(spec_encode_entries(s0.drop_last()) =~= b.subrange(0, ln - 24));
        assert(spec_encode_entries(s1.drop_last()) =~= b.subrange(0, ln - 24));
        assert(spec_encode_entry(s0.last()) =~= b.subrange(ln - 24, ln));
        assert(spec_encode_entry(s1.last()) =~= b.subrange(ln - 24, ln));
        lemma_encode_entries_injective(s0.drop_last(), s1.drop_last());
        lemma_encode_entry_injective(s0.last(), s1.last());
        assert(s0 =~= s1) by {
            assert(forall|i: int| 0 <= i < s0.len() - 1
                ==> s0[i] == s0.drop_last()[i] && s1[i] == s1.drop_last()[i]);
        };
    }
}

/// Two snapshots with the same encoding hold the same budget and entries.
pub proof fn lemma_encode_snapshot_injective(s0: Snapshot, s1: Snapshot)
    requires
        spec_encode_snapshot(s0) == spec_encode_snapshot(s1),
    ensures
        s0.budget == s1.budget,
        s0.entries@ == s1.entries@,
{
    lemma_auto_spec_u64_to_from_le_bytes();
    lemma_auto_spec_u128_to_from_le_bytes();
    lemma_encode_entries_len(s0.entries@);
    lemma_encode_entries_len(s1.entries@);
    let b = spec_encode_snapshot(s0);
    let ln = b.len() as int;
    assert(spec_u64_to_le_bytes(s0.budget) =~= b.subrange(0, 8));
    assert(spec_u64_to_le_bytes(s1.budget) =~= b.subrange(0, 8));
    assert(s0.budget == s1.budget) by {
        assert(vstd::bytes::spec_u64_from_le_bytes(spec_u64_to_le_bytes(s0.budget))
            == vstd::bytes::spec_u64_from_le_bytes(spec_u64_to_le_bytes(s1.budget)));
    };
    assert(spec_encode_entries(s0.entries@) =~= b.subrange(16, ln));
    assert(spec_encode_entries(s1.entries@) =~= b.subrange(16, ln));
    lemma_encode_entries_injective(s0.entries@, s1.entries@);
}

/// Serializes a snapshot to its durable byte representation.
pub fn encode_snapshot(s: &Snapshot) -> (r: Vec<u8>)
    ensures
        r@ == spec_encode_snapshot(*s),
{
    let n = s.entries.len();
    let mut out: Vec<u8> = u64_to_le_bytes(s.budget);
    let mut count_bytes = u64_to_le_bytes(n as u64);
    out.append(&mut count_bytes);
    let mut i: usize = 0;
    while i < n
        invariant
            n == s.entries@.len(),
            0 <= i <= n,
            out@ == spec_u64_to_le_bytes(s.budget) + spec_u64_to_le_bytes(n as u64)
                + spec_encode_entries(s.entries@.subrange(0, i as int)),
        decreases n - i,
    {
        let e = s.entries[i];
        let mut id_bytes = u128_to_le_bytes(e.id);
        out.append(&mut id_bytes);
        let mut rem_bytes = u64_to_le_bytes(e.remaining);
        out.append(&mut rem_bytes);
        proof {
            let t = s.entries@.subrange(0, i + 1);
            assert(t.drop_last() =~= s.entries@.subrange(0, i as int));
            assert(t.last() == s.entries@[i as int]);
            assert(out@ =~= spec_u64_to_le_bytes(s.budget) + spec_u64_to_le_bytes(n as u64)
                + spec_encode_entries(t));
        }
        i += 1;
    }
    proof {
        assert(s.entries@.subrange(0, n as int) =~= s.entries@);
    }
    out
}

/// Parses the durable byte representation back into a snapshot.
///
/// Exactly the byte strings that `spec_encode_snapshot` produces are
/// accepted: decoding succeeds precisely on an encoded snapshot, and then
/// returns its budget and entries; any other input yields `None`. The decoder
/// does not re-check identifier uniqueness — a loader validates the entry
/// list before building a registry from it.
pub fn decode_snapshot(bytes: &Vec<u8>) -> (r: Option<Snapshot>)
    ensures
        r matches Some(s) ==> spec_encode_snapshot(s) == bytes@,
        forall|s0: Snapshot| spec_encode_snapshot(s0) == bytes@
            ==> (r matches Some(s) && s.budget == s0.budget && s.entries@ == s0.entries@),
{
    proof {
        lemma_auto_spec_u64_to_from_le_bytes();
        lemma_auto_spec_u128_to_from_le_bytes();
    }
    let total = bytes.len();
    if total < 16 {
        proof {
            assert forall|s0: Snapshot| spec_encode_snapshot(s0) == bytes@ implies false by {
                lemma_encode_entries_len(s0.entries@);
            };
        }
        return None;
    }
    let budget = u64_from_le_bytes(slice_subrange(bytes.as_slice(), 0, 8));
    let count64 = u64_from_le_bytes(slice_subrange(bytes.as_slice(), 8, 16));
    let expected: u64 = match count64.checked_mul(24) {
        Some(x) => match x.checked_add(16) {
            Some(y) => y,
            None => {
                proof {
                    assert forall|s0: Snapshot| spec_encode_snapshot(s0) == bytes@ implies
                        false by {
                        lemma_encode_entries_len(s0.entries@);
                        assert(spec_u64_to_le_bytes(s0.entries@.len() as u64) =~= bytes@.subrange(
                            8,
                            16,
                        ));
                    };
                }
                return None;
            },
        },
        None => {
            proof {
                assert forall|s0: Snapshot| spec_encode_snapshot(s0) == bytes@ implies false by {
                    lemma_encode_entries_len(s0.entries@);
                    assert(spec_u64_to_le_bytes(s0.entries@.len() as u64) =~= bytes@.subrange(
                        8,
                        16,
                    ));
                };
            }
            return None;
        },
    };
    if expected != total as u64 {
        proof {
            assert forall|s0: Snapshot| spec_encode_snapshot(s0) == bytes@ implies false by {
                lemma_encode_entries_len(s0.entries@);
                assert(spec_u64_to_le_bytes(s0.entries@.len() as u64) =~= bytes@.subrange(8, 16));
            };
        }
        return None;
    }
    let count = count64 as usize;
    let mut entries: Vec<Entry> = Vec::new();
    let mut i: usize = 0;
    while i < count
        invariant
            16 + 24 * count == total,
            count64 == count as u64,
            total == bytes@.len(),
            0 <= i <= count,
            entries@.len() == i,
            spec_encode_entries(entries@) =~= bytes@.subrange(16, 16 + 24 * i),
        decreases count - i,
    {
        proof {
            lemma_auto_spec_u64_to_from_le_bytes();
            lemma_auto_spec_u128_to_from_le_bytes();
        }
        let off = 16 + 24 * i;
        let id = u128_from_le_bytes(slice_subrange(bytes.as_slice(), off, off + 16));
        let remaining = u64_from_le_bytes(slice_subrange(bytes.as_slice(), off + 16, off + 24));
        let e = Entry { id, remaining };
        proof {
            assert(spec_u128_to_le_bytes(e.id) == bytes@.subrange(off as int, off + 16));
            assert(spec_u64_to_le_bytes(e.remaining) == bytes@.subrange(off + 16, off + 24));
            let t = entries@.push(e);
            assert(t.drop_last() =~= entries@);
            assert(spec_encode_entries(t) =~= bytes@.subrange(16, 16 + 24 * (i + 1)));
        }
        entries.push(e);
        i += 1;
    }
    let s = Snapshot { entries, budget };
    proof {
        assert(spec_u64_to_le_bytes(s.budget) == bytes@.subrange(0, 8));
        assert(spec_u64_to_le_bytes(s.entries@.len() as u64) == bytes@.subrange(8, 16));
        assert(spec_encode_entries(s.entries@) =~= bytes@.subrange(16, total as int));
        assert(spec_encode_snapshot(s) =~= bytes@);
        assert forall|s0: Snapshot| spec_encode_snapshot(s0) == bytes@ implies s.budget
            == s0.budget && s.entries@ == s0.entries@ by {
            lemma_encode_snapshot_injective(s0, s);
        };
    }
    Some(s)
}

} // verus!
