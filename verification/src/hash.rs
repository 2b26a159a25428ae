//! Merkle-style content addressing.
//!
//! Pixel data is hashed at most once (the source bytes). Every downstream
//! tile's identity is derived from op parameters and input tile identities, so
//! cache keys for an entire session cost microseconds.
//!
//! Derivation domains are tagged to keep the spaces disjoint:
//! - source tile:      `H("craws/src" ‖ source_digest ‖ tile_index)`
//! - pointwise tile:   `H("craws/pw"  ‖ op_digest ‖ input_tile_hash)`
//! - global signature: `H("craws/gl"  ‖ op_digest ‖ input_tile_hashes…)`
//! - global out tile:  `H("craws/glt" ‖ signature ‖ tile_index)`
//!
//! Tile indices are encoded little-endian in four bytes.

use vstd::prelude::*;

use vstd::bytes::{lemma_auto_spec_u32_to_from_le_bytes, spec_u32_to_le_bytes, u32_to_le_bytes};

verus! {

/// 256-bit content identity (BLAKE3).
#[derive(Debug, Clone, Copy, Eq, Hash)]
pub struct ContentHash(pub [u8; 32]);

impl ContentHash {
    /// The 32 digest bytes.
    pub open spec fn bytes(self) -> Seq<u8> {
        self.0@
    }
}

impl PartialEq for ContentHash {
    fn eq(&self, other: &Self) -> (r: bool) {
        let mut i: usize = 0;
        while i < 32
            invariant
                0 <= i <= 32,
                forall|j: int| 0 <= j < i ==> self.0@[j] == other.0@[j],
            decreases 32 - i,
        {
            if self.0[i] != other.0[i] {
                return false;
            }
            i = i + 1;
        }
        proof {
            assert(self.0@ =~= other.0@);
        }
        true
    }
}

impl vstd::std_specs::cmp::PartialEqSpecImpl for ContentHash {
    open spec fn obeys_eq_spec() -> bool {
        true
    }

    open spec fn eq_spec(&self, other: &Self) -> bool {
        self.0@ == other.0@
    }
}

/// The BLAKE3 digest of `data`, as computed by the `blake3` crate.
pub uninterp spec fn blake3_of(data: Seq<u8>) -> Seq<u8>;

/// Calls `blake3::hash` and returns the digest bytes. Claimed: the digest is
/// `blake3_of(data)`, a function of the input bytes alone (BLAKE3 is a
/// deterministic hash).
#[verifier::external_body]
fn blake3_hash(data: &[u8]) -> (h: [u8; 32])
    ensures
        h@ == blake3_of(data@),
{
    *blake3::hash(data).as_bytes()
}

/// Digest raw source bytes (file contents, network body, …).
/// The single place where bulk data gets hashed.
pub fn digest_bytes(bytes: &[u8]) -> (h: ContentHash)
    ensures
        h.bytes() == blake3_of(bytes@),
{
    ContentHash(blake3_hash(bytes))
}

/// `"craws/src"`
pub open spec fn tag_src() -> Seq<u8> {
    seq![99u8, 114, 97, 119, 115, 47, 115, 114, 99]
}

/// `"craws/pw"`
pub open spec fn tag_pw() -> Seq<u8> {
    seq![99u8, 114, 97, 119, 115, 47, 112, 119]
}

/// `"craws/gl"`
pub open spec fn tag_gl() -> Seq<u8> {
    seq![99u8, 114, 97, 119, 115, 47, 103, 108]
}

/// `"craws/glt"`
pub open spec fn tag_glt() -> Seq<u8> {
    seq![99u8, 114, 97, 119, 115, 47, 103, 108, 116]
}

/// All digests of `hashes`, back to back.
pub open spec fn concat_hashes(hashes: Seq<ContentHash>) -> Seq<u8>
    decreases hashes.len(),
{
    if hashes.len() == 0 {
        Seq::empty()
    } else {
        concat_hashes(hashes.drop_last()) + hashes.last().bytes()
    }
}

/// Bytes hashed to name source tile `tile_index`.
pub open spec fn source_preimage(source: ContentHash, tile_index: u32) -> Seq<u8> {
    tag_src() + source.bytes() + spec_u32_to_le_bytes(tile_index)
}

/// Bytes hashed to name the output of a pointwise op on one input tile.
pub open spec fn pointwise_preimage(op: ContentHash, input: ContentHash) -> Seq<u8> {
    tag_pw() + op.bytes() + input.bytes()
}

/// Bytes hashed to name a whole-image op applied to a list of input tiles.
pub open spec fn global_preimage(op: ContentHash, inputs: Seq<ContentHash>) -> Seq<u8> {
    tag_gl() + op.bytes() + concat_hashes(inputs)
}

/// Bytes hashed to name output tile `tile_index` of a whole-image op.
pub open spec fn global_tile_preimage(signature: ContentHash, tile_index: u32) -> Seq<u8> {
    tag_glt() + signature.bytes() + spec_u32_to_le_bytes(tile_index)
}

/// Appends `bytes` to `buf`.
pub(crate) fn append(buf: &mut Vec<u8>, bytes: &[u8])
    ensures
        final(buf)@ == old(buf)@ + bytes@,
{
    let ghost start = buf@;
    let mut i: usize = 0;
    while i < bytes.len()
        invariant
            0 <= i <= bytes@.len(),
            buf@ == start + bytes@.take(i as int),
        decreases bytes@.len() - i,
    {
        buf.push(bytes[i]);
        i = i + 1;
        proof {
            assert(bytes@.take(i as int) =~= bytes@.take(i - 1) + seq![bytes@[i - 1]]);
        }
    }
    proof {
        assert(bytes@.take(i as int) =~= bytes@);
    }
}

/// Hash of `tag ‖ first ‖ second`.
fn derive(tag: &[u8], first: &[u8], second: &[u8]) -> (h: ContentHash)
    ensures
        h.bytes() == blake3_of(tag@ + first@ + second@),
{
    let mut buf: Vec<u8> = Vec::new();
    append(&mut buf, tag);
    append(&mut buf, first);
    append(&mut buf, second);
    ContentHash(blake3_hash(buf.as_slice()))
}

pub fn source_tile_hash(source: ContentHash, tile_index: u32) -> (h: ContentHash)
    ensures
        h.bytes() == blake3_of(source_preimage(source, tile_index)),
{
    let tag: [u8; 9] = [99u8, 114, 97, 119, 115, 47, 115, 114, 99];
    proof {
        assert(tag@ =~= tag_src());
    }
    let index = u32_to_le_bytes(tile_index);
    derive(&tag, &source.0, index.as_slice())
}

pub fn pointwise_tile_hash(op: ContentHash, input: ContentHash) -> (h: ContentHash)
    ensures
        h.bytes() == blake3_of(pointwise_preimage(op, input)),
{
    let tag: [u8; 8] = [99u8, 114, 97, 119, 115, 47, 112, 119];
    proof {
        assert(tag@ =~= tag_pw());
    }
    derive(&tag, &op.0, &input.0)
}

/// One identity for a whole-image op over all its input tiles.
pub fn global_signature(op: ContentHash, inputs: &[ContentHash]) -> (h: ContentHash)
    ensures
        h.bytes() == blake3_of(global_preimage(op, inputs@)),
{
    let tag: [u8; 8] = [99u8, 114, 97, 119, 115, 47, 103, 108];
    proof {
        assert(tag@ =~= tag_gl());
    }
    let mut rest: Vec<u8> = Vec::new();
    let mut i: usize = 0;
    while i < inputs.len()
        invariant
            0 <= i <= inputs@.len(),
            rest@ == concat_hashes(inputs@.take(i as int)),
        decreases inputs@.len() - i,
    {
        append(&mut rest, &inputs[i].0);
        i = i + 1;
        proof {
            assert(inputs@.take(i as int).drop_last() =~= inputs@.take(i - 1));
        }
    }
    proof {
        assert(inputs@.take(i as int) =~= inputs@);
    }
    derive(&tag, &op.0, rest.as_slice())
}

pub fn global_tile_hash(signature: ContentHash, tile_index: u32) -> (h: ContentHash)
    ensures
        h.bytes() == blake3_of(global_tile_preimage(signature, tile_index)),
{
    let tag: [u8; 9] = [99u8, 114, 97, 119, 115, 47, 103, 108, 116];
    proof {
        assert(tag@ =~= tag_glt());
    }
    let index = u32_to_le_bytes(tile_index);
    derive(&tag, &signature.0, index.as_slice())
}

pub proof fn lemma_hash_eq(a: ContentHash, b: ContentHash)
    requires
        a.bytes() == b.bytes(),
    ensures
        a == b,
{
    assert forall|i: int| 0 <= i < 32 implies a.0[i] == b.0[i] by {
        assert(a.0@[i] == b.0@[i]);
    }
    assert(a.0 =~= b.0);
}

proof fn lemma_concat_len(hashes: Seq<ContentHash>)
    ensures
        concat_hashes(hashes).len() == 32 * hashes.len(),
    decreases hashes.len(),
{
    if hashes.len() > 0 {
        lemma_concat_len(hashes.drop_last());
    }
}

proof fn lemma_le_len(x: u32)
    ensures
        spec_u32_to_le_bytes(x).len() == 4,
{
    lemma_auto_spec_u32_to_from_le_bytes();
}

/// Derivation domains are disjoint: the bytes hashed by any two different
/// derivations differ, whatever their arguments, so two identities from
/// different domains can only coincide through a BLAKE3 collision.
pub proof fn lemma_domains_disjoint(
    a: ContentHash,
    b: ContentHash,
    c: ContentHash,
    i: u32,
    j: u32,
    inputs: Seq<ContentHash>,
)
    ensures
        source_preimage(a, i) != pointwise_preimage(b, c),
        source_preimage(a, i) != global_preimage(b, inputs),
        source_preimage(a, i) != global_tile_preimage(b, j),
        pointwise_preimage(a, b) != global_preimage(c, inputs),
        pointwise_preimage(a, b) != global_tile_preimage(c, j),
        global_preimage(a, inputs) != global_tile_preimage(b, j),
{
    lemma_le_len(i);
    lemma_le_len(j);
    lemma_concat_len(inputs);
    // byte 6 names the domain: 's' (src), 'p' (pw), 'g' (gl, glt)
    assert(source_preimage(a, i)[6] == 115u8);
    assert(pointwise_preimage(a, b)[6] == 112u8);
    assert(pointwise_preimage(b, c)[6] == 112u8);
    assert(global_preimage(b, inputs)[6] == 103u8);
    assert(global_preimage(c, inputs)[6] == 103u8);
    assert(global_tile_preimage(b, j)[6] == 103u8);
    assert(global_tile_preimage(c, j)[6] == 103u8);
    // "craws/gl" and "craws/glt" preimages differ in length: 40 + 32k vs 45
    assert(global_preimage(a, inputs).len() == 40 + 32 * inputs.len());
    assert(global_tile_preimage(b, j).len() == 45);
}

proof fn lemma_concat_injective(x: Seq<ContentHash>, y: Seq<ContentHash>)
    requires
        concat_hashes(x) == concat_hashes(y),
    ensures
        x == y,
    decreases x.len(),
{
    lemma_concat_len(x);
    lemma_concat_len(y);
    if x.len() > 0 {
        let cx = concat_hashes(x.drop_last());
        let cy = concat_hashes(y.drop_last());
        lemma_concat_len(x.drop_last());
        lemma_concat_len(y.drop_last());
        let n = cx.len() as int;
        assert(concat_hashes(x) == cx + x.last().bytes());
        assert(concat_hashes(y) == cy + y.last().bytes());
        assert(cx =~= concat_hashes(x).subrange(0, n));
        assert(cy =~= concat_hashes(y).subrange(0, n));
        assert(x.last().bytes() =~= concat_hashes(x).subrange(n, n + 32));
        assert(y.last().bytes() =~= concat_hashes(y).subrange(n, n + 32));
        lemma_concat_injective(x.drop_last(), y.drop_last());
        lemma_hash_eq(x.last(), y.last());
        assert(x =~= x.drop_last().push(x.last()));
        assert(y =~= y.drop_last().push(y.last()));
    } else {
        assert(x =~= y);
    }
}

/// Within each domain, different arguments are hashed as different bytes:
/// distinct source tiles, distinct pointwise inputs, distinct op/input lists
/// and distinct output tiles all get distinct preimages.
pub proof fn lemma_preimages_injective(
    a: ContentHash,
    b: ContentHash,
    c: ContentHash,
    d: ContentHash,
    i: u32,
    j: u32,
    xs: Seq<ContentHash>,
    ys: Seq<ContentHash>,
)
    ensures
        source_preimage(a, i) == source_preimage(b, j) ==> a == b && i == j,
        global_tile_preimage(a, i) == global_tile_preimage(b, j) ==> a == b && i == j,
        pointwise_preimage(a, b) == pointwise_preimage(c, d) ==> a == c && b == d,
        global_preimage(a, xs) == global_preimage(b, ys) ==> a == b && xs == ys,
{
    lemma_auto_spec_u32_to_from_le_bytes();
    if source_preimage(a, i) == source_preimage(b, j) {
        let p = source_preimage(a, i);
        assert(a.bytes() =~= p.subrange(9, 41));
        assert(b.bytes() =~= p.subrange(9, 41));
        assert(spec_u32_to_le_bytes(i) =~= p.subrange(41, 45));
        assert(spec_u32_to_le_bytes(j) =~= p.subrange(41, 45));
        lemma_hash_eq(a, b);
    }
    if global_tile_preimage(a, i) == global_tile_preimage(b, j) {
        let p = global_tile_preimage(a, i);
        assert(a.bytes() =~= p.subrange(9, 41));
        assert(b.bytes() =~= p.subrange(9, 41));
        assert(spec_u32_to_le_bytes(i) =~= p.subrange(41, 45));
        assert(spec_u32_to_le_bytes(j) =~= p.subrange(41, 45));
        lemma_hash_eq(a, b);
    }
    if pointwise_preimage(a, b) == pointwise_preimage(c, d) {
        let p = pointwise_preimage(a, b);
        assert(a.bytes() =~= p.subrange(8, 40));
        assert(c.bytes() =~= p.subrange(8, 40));
        assert(b.bytes() =~= p.subrange(40, 72));
        assert(d.bytes() =~= p.subrange(40, 72));
        lemma_hash_eq(a, c);
        lemma_hash_eq(b, d);
    }
    if global_preimage(a, xs) == global_preimage(b, ys) {
        let p = global_preimage(a, xs);
        lemma_concat_len(xs);
        lemma_concat_len(ys);
        assert(a.bytes() =~= p.subrange(8, 40));
        assert(b.bytes() =~= p.subrange(8, 40));
        assert(concat_hashes(xs) =~= p.subrange(40, p.len() as int));
        assert(concat_hashes(ys) =~= p.subrange(40, p.len() as int));
        lemma_hash_eq(a, b);
        lemma_concat_injective(xs, ys);
    }
}

} // verus!
