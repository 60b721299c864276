use vstd::prelude::*;

use vstd::bytes::{
    lemma_auto_spec_u128_to_from_le_bytes, lemma_auto_spec_u64_to_from_le_bytes,
    spec_u128_to_le_bytes, spec_u64_to_le_bytes, u128_from_le_bytes, u128_to_le_bytes,
    u64_from_le_bytes, u64_to_le_bytes,
};
use vstd::slice::{slice_subrange, slice_to_vec};

use crate::errors::CoreError;
use crate::MAX_PAYLOAD;

verus! {

/// One stored payload, keyed by the identifier it belongs to.
pub struct Blob {
    pub id: u128,
    pub data: Vec<u8>,
}

/// No identifier occurs twice in `s`.
pub open spec fn unique_blob_ids(s: Seq<Blob>) -> bool {
    forall|i: int, j: int| 0 <= i < j < s.len() ==> s[i].id != s[j].id
}

/// Some blob of `s` carries `id`.
pub open spec fn has_blob(s: Seq<Blob>, id: u128) -> bool {
    exists|i: int| 0 <= i < s.len() && s[i].id == id
}

/// The index of the blob carrying `id`; meaningful when `has_blob(s, id)` holds.
pub open spec fn blob_idx_of(s: Seq<Blob>, id: u128) -> int {
    choose|i: int| 0 <= i < s.len() && s[i].id == id
}

/// The identifier-to-payload map that the blob sequence represents.
pub open spec fn blobs_as_map(s: Seq<Blob>) -> Map<u128, Seq<u8>> {
    Map::new(|id: u128| has_blob(s, id), |id: u128| s[blob_idx_of(s, id)].data@)
}

/// With unique identifiers, the witness index of an identifier is unique.
pub proof fn lemma_blob_idx_of(s: Seq<Blob>, i: int)
    requires
        unique_blob_ids(s),
        0 <= i < s.len(),
    ensures
        has_blob(s, s[i].id),
        blob_idx_of(s, s[i].id) == i,
{
    let id = s[i].id;
    assert(has_blob(s, id));
    let j = blob_idx_of(s, id);
    assert(0 <= j < s.len() && s[j].id == id);
    if i < j {
        assert(s[i].id != s[j].id);
    } else if j < i {
        assert(s[j].id != s[i].id);
    }
}

/// Replacing the blob at `i` by one with the same identifier updates the map
/// at that identifier and leaves every other identifier untouched.
pub proof fn lemma_blobs_update(s: Seq<Blob>, i: int, b: Blob)
    requires
        unique_blob_ids(s),
        0 <= i < s.len(),
        b.id == s[i].id,
    ensures
        unique_blob_ids(s.update(i, b)),
        blobs_as_map(s.update(i, b)) == blobs_as_map(s).insert(b.id, b.data@),
{
    let s2 = s.update(i, b);
    assert(forall|k: int| 0 <= k < s.len() ==> s2[k].id == s[k].id);
    assert(blobs_as_map(s2) =~= blobs_as_map(s).insert(b.id, b.data@)) by {
        assert forall|id: u128| has_blob(s2, id) implies has_blob(s, id) by {
            let k = choose|k: int| 0 <= k < s2.len() && s2[k].id == id;
            assert(s[k].id == id);
        };
        assert forall|id: u128| has_blob(s, id) implies has_blob(s2, id) by {
            let k = choose|k: int| 0 <= k < s.len() && s[k].id == id;
            assert(s2[k].id == id);
        };
        assert forall|id: u128| has_blob(s2, id) implies blobs_as_map(s2)[id]
            == blobs_as_map(s).insert(b.id, b.data@)[id] by {
            if id == b.id {
                lemma_blob_idx_of(s2, i);
                assert(blobs_as_map(s2)[id] == b.data@);
            } else {
                let k = blob_idx_of(s, id);
                assert(0 <= k < s.len() && s[k].id == id);
                assert(k != i);
                lemma_blob_idx_of(s2, k);
                assert(blobs_as_map(s2)[id] == s[k].data@);
            }
        };
    };
}

/// Appending a blob with a fresh identifier inserts it into the map and
/// leaves every other identifier untouched.
pub proof fn lemma_blobs_push(s: Seq<Blob>, b: Blob)
    requires
        unique_blob_ids(s),
        !has_blob(s, b.id),
    ensures
        unique_blob_ids(s.push(b)),
        blobs_as_map(s.push(b)) == blobs_as_map(s).insert(b.id, b.data@),
{
    let s2 = s.push(b);
    let n = s.len() as int;
    assert(forall|k: int| 0 <= k < n ==> s2[k] == s[k]);
    assert(s2[n] == b);
    assert forall|i: int, j: int| 0 <= i < j < s2.len() implies s2[i].id != s2[j].id by {
        if j < n {
        } else {
            assert(s2[i].id == s[i].id);
            if s2[i].id == b.id {
                assert(has_blob(s, b.id));
            }
        }
    };
    assert(blobs_as_map(s2) =~= blobs_as_map(s).insert(b.id, b.data@)) by {
        assert(has_blob(s2, b.id)) by {
            assert(s2[n].id == b.id);
        };
        assert forall|id: u128| id != b.id && has_blob(s2, id) implies has_blob(s, id) by {
            let k = choose|k: int| 0 <= k < s2.len() && s2[k].id == id;
            assert(k < n);
            assert(s[k].id == id);
        };
        assert forall|id: u128| has_blob(s, id) implies has_blob(s2, id) by {
            let k = choose|k: int| 0 <= k < s.len() && s[k].id == id;
            assert(s2[k].id == id);
        };
        assert forall|id: u128| has_blob(s2, id) implies blobs_as_map(s2)[id]
            == blobs_as_map(s).insert(b.id, b.data@)[id] by {
            if id == b.id {
                lemma_blob_idx_of(s2, n);
                assert(blobs_as_map(s2)[id] == b.data@);
            } else {
                let k = choose|k: int| 0 <= k < s2.len() && s2[k].id == id;
                assert(k < n);
                assert(s[k].id == id);
                lemma_blob_idx_of(s, k);
                lemma_blob_idx_of(s2, k);
                assert(blobs_as_map(s2)[id] == s[k].data@);
            }
        };
    };
}

/// Removing the blob at `i` removes exactly its identifier from the map.
pub proof fn lemma_blobs_remove(s: Seq<Blob>, i: int)
    requires
        unique_blob_ids(s),
        0 <= i < s.len(),
    ensures
        unique_blob_ids(s.remove(i)),
        blobs_as_map(s.remove(i)) == blobs_as_map(s).remove(s[i].id),
{
    let s2 = s.remove(i);
    let id0 = s[i].id;
    assert(forall|k: int| 0 <= k < i ==> s2[k] == s[k]);
    assert(forall|k: int| i <= k < s2.len() ==> s2[k] == s[k + 1]);
    assert forall|p: int, q: int| 0 <= p < q < s2.len() implies s2[p].id != s2[q].id by {
        let p0: int = if p < i { p } else { p + 1 };
        let q0: int = if q < i { q } else { q + 1 };
        assert(s2[p].id == s[p0].id);
        assert(s2[q].id == s[q0].id);
    };
    assert(blobs_as_map(s2) =~= blobs_as_map(s).remove(id0)) by {
        assert forall|id: u128| has_blob(s2, id) implies has_blob(s, id) && id != id0 by {
            let k = choose|k: int| 0 <= k < s2.len() && s2[k].id == id;
            let k0: int = if k < i { k } else { k + 1 };
            assert(s[k0].id == id);
            if id == id0 {
                lemma_blob_idx_of(s, i);
                lemma_blob_idx_of(s, k0);
            }
        };
        assert forall|id: u128| has_blob(s, id) && id != id0 implies has_blob(s2, id) by {
            let k = choose|k: int| 0 <= k < s.len() && s[k].id == id;
            if k != i {
                let k2: int = if k < i { k } else { k - 1 };
                assert(s2[k2].id == id);
            }
        };
        assert forall|id: u128| has_blob(s2, id) implies blobs_as_map(s2)[id]
            == blobs_as_map(s).remove(id0)[id] by {
            let k = choose|k: int| 0 <= k < s2.len() && s2[k].id == id;
            let k0: int = if k < i { k } else { k + 1 };
            assert(s[k0].id == id);
            lemma_blob_idx_of(s2, k);
            lemma_blob_idx_of(s, k0);
            assert(blobs_as_map(s2)[id] == s2[k].data@);
            assert(blobs_as_map(s)[id] == s[k0].data@);
        };
    };
}

/// Every payload in `s` respects the size cap.
pub open spec fn blobs_bounded(s: Seq<Blob>) -> bool {
    forall|k: int| 0 <= k < s.len() ==> (#[trigger] s[k].data@.len()) <= MAX_PAYLOAD
}

/// The two lists hold the same identifiers and payload bytes, position by
/// position.
pub open spec fn blobs_pointwise(s0: Seq<Blob>, s1: Seq<Blob>) -> bool {
    s0.len() == s1.len() && forall|k: int| 0 <= k < s0.len()
        ==> (#[trigger] s0[k]).id == s1[k].id && s0[k].data@ == s1[k].data@
}

/// Position-by-position agreement of unique blob lists carries over to the
/// maps they represent.
proof fn lemma_blobs_pointwise_map(s0: Seq<Blob>, s1: Seq<Blob>)
    requires
        unique_blob_ids(s0),
        blobs_pointwise(s0, s1),
    ensures
        blobs_as_map(s0) == blobs_as_map(s1),
{
    assert forall|i: int, j: int| 0 <= i < j < s1.len() implies s1[i].id != s1[j].id by {
        assert(s0[i].id != s0[j].id);
    };
    assert(blobs_as_map(s0) =~= blobs_as_map(s1)) by {
        assert forall|id: u128| has_blob(s0, id) implies has_blob(s1, id) by {
            let k = choose|k: int| 0 <= k < s0.len() && s0[k].id == id;
            assert(s1[k].id == id);
        };
        assert forall|id: u128| has_blob(s1, id) implies has_blob(s0, id) by {
            let k = choose|k: int| 0 <= k < s1.len() && s1[k].id == id;
            assert(s0[k].id == id);
        };
        assert forall|id: u128| has_blob(s0, id) implies blobs_as_map(s0)[id]
            == blobs_as_map(s1)[id] by {
            let k = blob_idx_of(s0, id);
            assert(0 <= k < s0.len() && s0[k].id == id);
            lemma_blob_idx_of(s0, k);
            assert(s1[k].id == id);
            lemma_blob_idx_of(s1, k);
        };
    };
}

/// The durable representation of one blob: its identifier in sixteen
/// little-endian bytes, the payload length in eight, then the payload.
pub open spec fn spec_encode_blob(b: Blob) -> Seq<u8> {
    spec_u128_to_le_bytes(b.id) + spec_u64_to_le_bytes(b.data@.len() as u64) + b.data@
}

/// The blob list encoded back to back, in order.
pub open spec fn spec_encode_blobs(s: Seq<Blob>) -> Seq<u8>
    decreases s.len(),
{
    if s.len() == 0 {
        Seq::<u8>::empty()
    } else {
        spec_encode_blob(s.first()) + spec_encode_blobs(s.drop_first())
    }
}

/// The durable representation of a blob store: the blob count in eight
/// little-endian bytes, then the encoded blobs.
pub open spec fn spec_encode_store(s: Seq<Blob>) -> Seq<u8> {
    spec_u64_to_le_bytes(s.len() as u64) + spec_encode_blobs(s)
}

/// Appending one blob appends its encoding.
proof fn lemma_encode_blobs_snoc(s: Seq<Blob>, b: Blob)
    ensures
        spec_encode_blobs(s.push(b)) == spec_encode_blobs(s) + spec_encode_blob(b),
    decreases s.len(),
{
    let t = s.push(b);
    if s.len() == 0 {
        assert(t.first() == b);
        assert(t.drop_first() =~= Seq::<Blob>::empty());
        assert(spec_encode_blobs(t.drop_first()) =~= Seq::<u8>::empty());
        assert(spec_encode_blobs(s) =~= Seq::<u8>::empty());
        assert(spec_encode_blobs(t) =~= spec_encode_blobs(s) + spec_encode_blob(b));
    } else {
        assert(t.first() == s.first());
        assert(t.drop_first() =~= s.drop_first().push(b));
        lemma_encode_blobs_snoc(s.drop_first(), b);
        assert(spec_encode_blobs(t) == spec_encode_blob(s.first()) + (spec_encode_blobs(
            s.drop_first(),
        ) + spec_encode_blob(b)));
        assert(spec_encode_blob(s.first()) + (spec_encode_blobs(s.drop_first())
            + spec_encode_blob(b)) =~= spec_encode_blobs(s) + spec_encode_blob(b));
    }
}

/// An encoded blob list splits at any position into the encodings of the
/// corresponding sublists.
proof fn lemma_encode_blobs_split(s: Seq<Blob>, i: int)
    requires
        0 <= i <= s.len(),
    ensures
        spec_encode_blobs(s) == spec_encode_blobs(s.take(i)) + spec_encode_blobs(s.skip(i)),
    decreases i,
{
    if i == 0 {
        assert(s.take(0) =~= Seq::<Blob>::empty());
        assert(s.skip(0) =~= s);
        assert(spec_encode_blobs(s) =~= spec_encode_blobs(s.take(0)) + spec_encode_blobs(
            s.skip(0),
        ));
    } else {
        lemma_encode_blobs_split(s.drop_first(), i - 1);
        assert(s.take(i).first() == s.first());
        assert(s.take(i).drop_first() =~= s.drop_first().take(i - 1));
        assert(s.skip(i) =~= s.drop_first().skip(i - 1));
        assert(spec_encode_blobs(s) =~= spec_encode_blobs(s.take(i)) + spec_encode_blobs(
            s.skip(i),
        ));
    }
}

/// Every encoded blob list takes at least twenty-four bytes per blob.
proof fn lemma_encode_blobs_len(s: Seq<Blob>)
    ensures
        spec_encode_blobs(s).len() >= 24 * s.len(),
    decreases s.len(),
{
    lemma_auto_spec_u64_to_from_le_bytes();
    lemma_auto_spec_u128_to_from_le_bytes();
    if s.len() == 0 {
    } else {
        lemma_encode_blobs_len(s.drop_first());
    }
}

/// The encoding is prefix-deterministic: two size-capped blob lists of the
/// same length whose encodings open the same byte string agree position by
/// position, and leave the same remainder.
proof fn lemma_encode_blobs_prefix(s0: Seq<Blob>, s1: Seq<Blob>, t0: Seq<u8>, t1: Seq<u8>)
    requires
        s0.len() == s1.len(),
        blobs_bounded(s0),
        blobs_bounded(s1),
        spec_encode_blobs(s0) + t0 == spec_encode_blobs(s1) + t1,
    ensures
        blobs_pointwise(s0, s1),
        t0 == t1,
    decreases s0.len(),
{
    lemma_auto_spec_u64_to_from_le_bytes();
    lemma_auto_spec_u128_to_from_le_bytes();
    if s0.len() == 0 {
        assert(t0 =~= t1);
    } else {
        let f0 = s0.first();
        let f1 = s1.first();
        let d0 = f0.data@.len() as int;
        let d1 = f1.data@.len() as int;
        let whole = spec_encode_blobs(s0) + t0;
        assert(spec_u128_to_le_bytes(f0.id) =~= whole.subrange(0, 16));
        assert(spec_u128_to_le_bytes(f1.id) =~= whole.subrange(0, 16));
        assert(f0.id == f1.id) by {
            assert(vstd::bytes::spec_u128_from_le_bytes(spec_u128_to_le_bytes(f0.id))
                == vstd::bytes::spec_u128_from_le_bytes(spec_u128_to_le_bytes(f1.id)));
        };
        assert(spec_u64_to_le_bytes(d0 as u64) =~= whole.subrange(16, 24));
        assert(spec_u64_to_le_bytes(d1 as u64) =~= whole.subrange(16, 24));
        assert(d0 == d1) by {
            assert(vstd::bytes::spec_u64_from_le_bytes(spec_u64_to_le_bytes(d0 as u64))
                == vstd::bytes::spec_u64_from_le_bytes(spec_u64_to_le_bytes(d1 as u64)));
        };
        assert(f0.data@ =~= whole.subrange(24, 24 + d0));
        assert(f1.data@ =~= whole.subrange(24, 24 + d0));
        assert(spec_encode_blobs(s0.drop_first()) + t0 =~= whole.subrange(24 + d0, whole.len() as int));
        assert(spec_encode_blobs(s1.drop_first()) + t1 =~= whole.subrange(24 + d0, whole.len() as int));
        assert forall|k: int| 0 <= k < s0.drop_first().len() implies (
        #[trigger] s0.drop_first()[k]).data@.len() <= MAX_PAYLOAD by {
            assert(s0[k + 1].data@.len() <= MAX_PAYLOAD);
        };
        assert forall|k: int| 0 <= k < s1.drop_first().len() implies (
        #[trigger] s1.drop_first()[k]).data@.len() <= MAX_PAYLOAD by {
            assert(s1[k + 1].data@.len() <= MAX_PAYLOAD);
        };
        lemma_encode_blobs_prefix(s0.drop_first(), s1.drop_first(), t0, t1);
        assert forall|k: int| 0 <= k < s0.len() implies (#[trigger] s0[k]).id == s1[k].id
            && s0[k].data@ == s1[k].data@ by {
            if k > 0 {
                assert(s0.drop_first()[k - 1].id == s1.drop_first()[k - 1].id);
                assert(s0.drop_first()[k - 1].data@ == s1.drop_first()[k - 1].data@);
            }
        };
    }
}

/// Header facts of an encoded store: the count field carries the list length
/// exactly, and the rest of the bytes are the encoded blobs.
proof fn lemma_store_header(bytes: Seq<u8>, s0: Seq<Blob>)
    requires
        bytes == spec_encode_store(s0),
        bytes.len() <= usize::MAX,
    ensures
        vstd::bytes::spec_u64_from_le_bytes(bytes.subrange(0, 8)) == s0.len() as u64,
        (s0.len() as u64) as nat == s0.len(),
        bytes.subrange(8, bytes.len() as int) == spec_encode_blobs(s0),
        bytes.len() >= 8,
{
    lemma_auto_spec_u64_to_from_le_bytes();
    lemma_encode_blobs_len(s0);
    assert(spec_u64_to_le_bytes(s0.len() as u64) =~= bytes.subrange(0, 8));
    assert(spec_encode_blobs(s0) =~= bytes.subrange(8, bytes.len() as int));
    assert(24 * s0.len() <= bytes.len());
}

/// What the next chunk of an encoded store must hold, given the blobs decoded
/// so far: the list `s0` behind the bytes fixes the identifier, the length
/// field and the payload found at the current offset, and that identifier is
/// not among the decoded ones.
proof fn lemma_decode_step(bytes: Seq<u8>, decoded: Seq<Blob>, s0: Seq<Blob>, off: int)
    requires
        unique_blob_ids(s0),
        blobs_bounded(s0),
        bytes == spec_encode_store(s0),
        bytes.len() <= usize::MAX,
        blobs_bounded(decoded),
        decoded.len() < s0.len(),
        off == 8 + spec_encode_blobs(decoded).len(),
        off <= bytes.len(),
        bytes.subrange(8, off) == spec_encode_blobs(decoded),
    ensures
        blobs_pointwise(decoded, s0.take(decoded.len() as int)),
        off + 24 + s0[decoded.len() as int].data@.len() <= bytes.len(),
        bytes.subrange(off, off + 16) == spec_u128_to_le_bytes(s0[decoded.len() as int].id),
        bytes.subrange(off + 16, off + 24) == spec_u64_to_le_bytes(
            s0[decoded.len() as int].data@.len() as u64,
        ),
        bytes.subrange(off + 24, off + 24 + s0[decoded.len() as int].data@.len())
            == s0[decoded.len() as int].data@,
        s0[decoded.len() as int].data@.len() <= MAX_PAYLOAD,
        !has_blob(decoded, s0[decoded.len() as int].id),
{
    lemma_auto_spec_u64_to_from_le_bytes();
    lemma_auto_spec_u128_to_from_le_bytes();
    let i = decoded.len() as int;
    let total = bytes.len() as int;
    lemma_store_header(bytes, s0);
    lemma_encode_blobs_split(s0, i);
    assert forall|k: int| 0 <= k < s0.take(i).len() implies (
    #[trigger] s0.take(i)[k]).data@.len() <= MAX_PAYLOAD by {
        assert(s0[k].data@.len() <= MAX_PAYLOAD);
    };
    assert(spec_encode_blobs(decoded) + bytes.subrange(off, total) =~= bytes.subrange(8, total));
    lemma_encode_blobs_prefix(
        decoded,
        s0.take(i),
        bytes.subrange(off, total),
        spec_encode_blobs(s0.skip(i)),
    );
    let rest = s0.skip(i);
    assert(rest.first() == s0[i]);
    let b = s0[i];
    let d = b.data@.len() as int;
    assert(spec_encode_blobs(rest) == spec_encode_blob(b) + spec_encode_blobs(rest.drop_first()));
    assert(bytes.subrange(off, total) == spec_encode_blobs(rest));
    assert(total - off >= 24 + d);
    assert(spec_u128_to_le_bytes(b.id) =~= bytes.subrange(off, off + 16));
    assert(spec_u64_to_le_bytes(d as u64) =~= bytes.subrange(off + 16, off + 24));
    assert(b.data@ =~= bytes.subrange(off + 24, off + 24 + d));
    assert(!has_blob(decoded, b.id)) by {
        if has_blob(decoded, b.id) {
            let k = choose|k: int| 0 <= k < decoded.len() && decoded[k].id == b.id;
            assert(s0.take(i)[k].id == b.id);
            assert(s0[k].id == s0[i].id);
        }
    };
}

/// Reports whether `blobs` already carries `id`.
fn contains_blob(blobs: &Vec<Blob>, id: u128) -> (r: bool)
    ensures
        r == has_blob(blobs@, id),
{
    let n = blobs.len();
    let mut i: usize = 0;
    while i < n
        invariant
            n == blobs@.len(),
            0 <= i <= n,
            forall|k: int| 0 <= k < i ==> blobs@[k].id != id,
        decreases n - i,
    {
        if blobs[i].id == id {
            return true;
        }
        i += 1;
    }
    false
}

/// Copies a byte vector; used where a caller needs an owned payload.
fn copy_bytes(src: &Vec<u8>) -> (r: Vec<u8>)
    ensures
        r@ == src@,
{
    let n = src.len();
    let mut out: Vec<u8> = Vec::new();
    let mut i: usize = 0;
    while i < n
        invariant
            n == src@.len(),
            0 <= i <= n,
            out@ == src@.subrange(0, i as int),
        decreases n - i,
    {
        out.push(src[i]);
        i += 1;
    }
    proof {
        assert(out@ =~= src@);
    }
    out
}

/// The mapping from identifier to stored payload.
///
/// Its abstract value, written `self@`, is the finite map from identifier to
/// payload bytes; every operation's contract is stated over that map.
pub struct BlobStore {
    blobs: Vec<Blob>,
}

impl View for BlobStore {
    type V = Map<u128, Seq<u8>>;

    closed spec fn view(&self) -> Map<u128, Seq<u8>> {
        blobs_as_map(self.blobs@)
    }
}

impl BlobStore {
    /// Well-formedness: the backing blobs carry pairwise distinct identifiers,
    /// and every stored payload respects the size cap.
    pub closed spec fn inv(self) -> bool {
        unique_blob_ids(self.blobs@) && blobs_bounded(self.blobs@)
    }

    /// An empty store.
    pub fn new() -> (r: BlobStore)
        ensures
            r.inv(),
            r@ == Map::<u128, Seq<u8>>::empty(),
    {
        let r = BlobStore { blobs: Vec::new() };
        proof {
            assert(r@ =~= Map::<u128, Seq<u8>>::empty());
        }
        r
    }

    /// Stores `payload` under `id`, overwriting any prior payload for `id`;
    /// rejects a payload above the size cap and then changes nothing.
    pub fn put(&mut self, id: u128, payload: Vec<u8>) -> (r: Result<(), CoreError>)
        requires
            old(self).inv(),
        ensures
            final(self).inv(),
            ({
                if payload@.len() > MAX_PAYLOAD {
                    r == Err::<(), CoreError>(CoreError::TooLarge) && final(self)@ == old(self)@
                } else {
                    r == Ok::<(), CoreError>(()) && final(self)@ == old(self)@.insert(id, payload@)
                }
            }),
    {
        if payload.len() > MAX_PAYLOAD {
            return Err(CoreError::TooLarge);
        }
        let n = self.blobs.len();
        let mut i: usize = 0;
        while i < n
            invariant
                self.inv(),
                *self == *old(self),
                n == self.blobs@.len(),
                0 <= i <= n,
                forall|k: int| 0 <= k < i ==> self.blobs@[k].id != id,
                payload@.len() <= MAX_PAYLOAD,
            decreases n - i,
        {
            if self.blobs[i].id == id {
                let b = Blob { id, data: payload };
                proof {
                    lemma_blob_idx_of(self.blobs@, i as int);
                    lemma_blobs_update(self.blobs@, i as int, b);
                }
                self.blobs[i] = b;
                return Ok(());
            }
            i += 1;
        }
        let b = Blob { id, data: payload };
        proof {
            assert(!has_blob(self.blobs@, id));
            lemma_blobs_push(self.blobs@, b);
        }
        self.blobs.push(b);
        Ok(())
    }

    /// Reads the payload stored under `id`, if any; non-mutating.
    pub fn get(&self, id: u128) -> (r: Option<Vec<u8>>)
        requires
            self.inv(),
        ensures
            match r {
                Some(p) => self@.dom().contains(id) && p@ == self@[id],
                None => !self@.dom().contains(id),
            },
    {
        let n = self.blobs.len();
        let mut i: usize = 0;
        while i < n
            invariant
                self.inv(),
                n == self.blobs@.len(),
                0 <= i <= n,
                forall|k: int| 0 <= k < i ==> self.blobs@[k].id != id,
            decreases n - i,
        {
            if self.blobs[i].id == id {
                proof {
                    lemma_blob_idx_of(self.blobs@, i as int);
                }
                return Some(copy_bytes(&self.blobs[i].data));
            }
            i += 1;
        }
        proof {
            assert(!has_blob(self.blobs@, id));
        }
        None
    }

    /// Serializes the store's contents to their durable byte representation:
    /// the encoding of some valid blob list that carries exactly `self@`.
    pub fn to_bytes(&self) -> (r: Vec<u8>)
        requires
            self.inv(),
        ensures
            exists|s: Seq<Blob>| unique_blob_ids(s) && blobs_bounded(s) && blobs_as_map(s)
                == self@ && r@ == #[trigger] spec_encode_store(s),
    {
        let n = self.blobs.len();
        let mut out: Vec<u8> = u64_to_le_bytes(n as u64);
        let mut i: usize = 0;
        while i < n
            invariant
                self.inv(),
                n == self.blobs@.len(),
                0 <= i <= n,
                out@ == spec_u64_to_le_bytes(n as u64) + spec_encode_blobs(
                    self.blobs@.take(i as int),
                ),
            decreases n - i,
        {
            let mut id_bytes = u128_to_le_bytes(self.blobs[i].id);
            out.append(&mut id_bytes);
            let mut len_bytes = u64_to_le_bytes(self.blobs[i].data.len() as u64);
            out.append(&mut len_bytes);
            let mut data = copy_bytes(&self.blobs[i].data);
            out.append(&mut data);
            proof {
                let t = self.blobs@.take(i + 1);
                assert(t =~= self.blobs@.take(i as int).push(self.blobs@[i as int]));
                lemma_encode_blobs_snoc(self.blobs@.take(i as int), self.blobs@[i as int]);
                assert(out@ =~= spec_u64_to_le_bytes(n as u64) + spec_encode_blobs(t));
            }
            i += 1;
        }
        proof {
            assert(self.blobs@.take(n as int) =~= self.blobs@);
            assert(out@ == spec_encode_store(self.blobs@));
            assert(blobs_as_map(self.blobs@) == self@);
        }
        out
    }

    /// Parses a durable byte representation back into a store.
    ///
    /// Exactly the byte strings that `spec_encode_store` produces for a valid
    /// blob list are accepted: decoding succeeds precisely on such an
    /// encoding, and rebuilds exactly the identifier-to-payload map the
    /// encoded list carried; any other input yields `None`.
    pub fn from_bytes(bytes: &Vec<u8>) -> (r: Option<BlobStore>)
        ensures
            r matches Some(st) ==> st.inv() && exists|s: Seq<Blob>| unique_blob_ids(s)
                && blobs_bounded(s) && blobs_as_map(s) == st@ && bytes@
                == #[trigger] spec_encode_store(s),
            forall|s0: Seq<Blob>| unique_blob_ids(s0) && blobs_bounded(s0) && bytes@
                == #[trigger] spec_encode_store(s0)
                ==> (r matches Some(st) && st@ == blobs_as_map(s0)),
    {
        proof {
            lemma_auto_spec_u64_to_from_le_bytes();
            lemma_auto_spec_u128_to_from_le_bytes();
        }
        let total = bytes.len();
        if total < 8 {
            proof {
                assert forall|s0: Seq<Blob>| unique_blob_ids(s0) && blobs_bounded(s0) && bytes@
                    == spec_encode_store(s0) implies false by {
                    lemma_store_header(bytes@, s0);
                };
            }
            return None;
        }
        let count64 = u64_from_le_bytes(slice_subrange(bytes.as_slice(), 0, 8));
        let mut blobs: Vec<Blob> = Vec::new();
        let mut decoded: u64 = 0;
        let mut off: usize = 8;
        proof {
            assert(spec_u64_to_le_bytes(count64) == bytes@.subrange(0, 8));
            assert(bytes@.subrange(8, 8) =~= spec_encode_blobs(blobs@));
        }
        while decoded < count64
            invariant
                total == bytes@.len(),
                spec_u64_to_le_bytes(count64) == bytes@.subrange(0, 8),
                0 <= decoded <= count64,
                blobs@.len() == decoded,
                unique_blob_ids(blobs@),
                blobs_bounded(blobs@),
                8 <= off <= total,
                off == 8 + spec_encode_blobs(blobs@).len(),
                bytes@.subrange(8, off as int) == spec_encode_blobs(blobs@),
            decreases count64 - decoded,
        {
            proof {
                lemma_auto_spec_u64_to_from_le_bytes();
                lemma_auto_spec_u128_to_from_le_bytes();
                assert forall|s0: Seq<Blob>| unique_blob_ids(s0) && blobs_bounded(s0) && bytes@
                    == spec_encode_store(s0) implies blobs@.len() < s0.len() by {
                    lemma_store_header(bytes@, s0);
                };
            }
            if total - off < 24 {
                proof {
                    assert forall|s0: Seq<Blob>| unique_blob_ids(s0) && blobs_bounded(s0)
                        && bytes@ == spec_encode_store(s0) implies false by {
                        lemma_store_header(bytes@, s0);
                        lemma_decode_step(bytes@, blobs@, s0, off as int);
                    };
                }
                return None;
            }
            let dlen64 = u64_from_le_bytes(slice_subrange(bytes.as_slice(), off + 16, off + 24));
            if dlen64 > MAX_PAYLOAD as u64 {
                proof {
                    assert forall|s0: Seq<Blob>| unique_blob_ids(s0) && blobs_bounded(s0)
                        && bytes@ == spec_encode_store(s0) implies false by {
                        lemma_store_header(bytes@, s0);
                        lemma_decode_step(bytes@, blobs@, s0, off as int);
                    };
                }
                return None;
            }
            let dlen = dlen64 as usize;
            if total - (off + 24) < dlen {
                proof {
                    assert forall|s0: Seq<Blob>| unique_blob_ids(s0) && blobs_bounded(s0)
                        && bytes@ == spec_encode_store(s0) implies false by {
                        lemma_store_header(bytes@, s0);
                        lemma_decode_step(bytes@, blobs@, s0, off as int);
                    };
                }
                return None;
            }
            let id = u128_from_le_bytes(slice_subrange(bytes.as_slice(), off, off + 16));
            if contains_blob(&blobs, id) {
                proof {
                    assert forall|s0: Seq<Blob>| unique_blob_ids(s0) && blobs_bounded(s0)
                        && bytes@ == spec_encode_store(s0) implies false by {
                        lemma_store_header(bytes@, s0);
                        lemma_decode_step(bytes@, blobs@, s0, off as int);
                    };
                }
                return None;
            }
            let data = slice_to_vec(slice_subrange(bytes.as_slice(), off + 24, off + 24 + dlen));
            let b = Blob { id, data };
            proof {
                assert(spec_u128_to_le_bytes(b.id) == bytes@.subrange(off as int, off + 16));
                assert(spec_u64_to_le_bytes(b.data@.len() as u64) == bytes@.subrange(
                    off + 16,
                    off + 24,
                ));
                assert(spec_encode_blob(b) =~= bytes@.subrange(off as int, off + 24 + dlen));
                lemma_encode_blobs_snoc(blobs@, b);
                lemma_blobs_push(blobs@, b);
                assert(bytes@.subrange(8, off + 24 + dlen) =~= spec_encode_blobs(blobs@.push(b)));
            }
            blobs.push(b);
            off = off + 24 + dlen;
            decoded = decoded + 1;
        }
        if off != total {
            proof {
                assert forall|s0: Seq<Blob>| unique_blob_ids(s0) && blobs_bounded(s0) && bytes@
                    == spec_encode_store(s0) implies false by {
                    lemma_store_header(bytes@, s0);
                    lemma_encode_blobs_split(s0, s0.len() as int);
                    assert(s0.take(s0.len() as int) =~= s0);
                    assert(s0.skip(s0.len() as int) =~= Seq::<Blob>::empty());
                    assert(blobs@.len() == s0.len());
                    assert(spec_encode_blobs(blobs@) + bytes@.subrange(off as int, total as int)
                        =~= spec_encode_blobs(s0) + Seq::<u8>::empty());
                    lemma_encode_blobs_prefix(
                        blobs@,
                        s0,
                        bytes@.subrange(off as int, total as int),
                        Seq::<u8>::empty(),
                    );
                };
            }
            return None;
        }
        let st = BlobStore { blobs };
        proof {
            assert(st@ == blobs_as_map(blobs@));
            assert(spec_u64_to_le_bytes(blobs@.len() as u64) == bytes@.subrange(0, 8));
            assert(bytes@ =~= spec_encode_store(blobs@));
            assert forall|s0: Seq<Blob>| unique_blob_ids(s0) && blobs_bounded(s0) && bytes@
                == spec_encode_store(s0) implies st@ == blobs_as_map(s0) by {
                lemma_store_header(bytes@, s0);
                lemma_encode_blobs_split(s0, s0.len() as int);
                assert(s0.take(s0.len() as int) =~= s0);
                assert(s0.skip(s0.len() as int) =~= Seq::<Blob>::empty());
                assert(spec_encode_blobs(blobs@) + Seq::<u8>::empty() =~= spec_encode_blobs(s0)
                    + Seq::<u8>::empty());
                lemma_encode_blobs_prefix(blobs@, s0, Seq::<u8>::empty(), Seq::<u8>::empty());
                lemma_blobs_pointwise_map(blobs@, s0);
            };
        }
        Some(st)
    }

    /// Removes any payload stored under `id`; absence is not an error.
    pub fn delete(&mut self, id: u128)
        requires
            old(self).inv(),
        ensures
            final(self).inv(),
            final(self)@ == old(self)@.remove(id),
    {
        let n = self.blobs.len();
        let mut i: usize = 0;
        while i < n
            invariant
                self.inv(),
                *self == *old(self),
                n == self.blobs@.len(),
                0 <= i <= n,
                forall|k: int| 0 <= k < i ==> self.blobs@[k].id != id,
            decreases n - i,
        {
            if self.blobs[i].id == id {
                proof {
                    lemma_blob_idx_of(self.blobs@, i as int);
                    lemma_blobs_remove(self.blobs@, i as int);
                }
                self.blobs.remove(i);
                return;
            }
            i += 1;
        }
        proof {
            assert(!has_blob(self.blobs@, id));
            assert(self@ =~= old(self)@.remove(id));
        }
    }
}

} // verus!
