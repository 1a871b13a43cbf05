use vstd::prelude::*;

verus! {

/// A compressed state event: the short state key in the high 64 bits and the
/// short event id in the low 64 bits. Its sixteen big-endian bytes are the
/// short state key's bytes followed by the short event id's bytes, and the
/// numeric order of the value is the lexicographic order of those bytes.
pub type CompressedStateEvent = u128;

/// The short state key held in a compressed state event.
pub open spec fn cse_key(c: u128) -> u64 {
    (c >> 64u128) as u64
}

/// The short event id held in a compressed state event.
pub open spec fn cse_event(c: u128) -> u64 {
    c as u64
}

pub open spec fn cse_of(ssk: u64, sei: u64) -> u128 {
    ((ssk as u128) << 64u128) | (sei as u128)
}

/// The eight big-endian bytes of a 64-bit integer.
pub open spec fn u64_be(x: u64) -> Seq<u8> {
    seq![
        (x >> 56u64) as u8, (x >> 48u64) as u8, (x >> 40u64) as u8, (x >> 32u64) as u8,
        (x >> 24u64) as u8, (x >> 16u64) as u8, (x >> 8u64) as u8, x as u8,
    ]
}

/// The 64-bit integer whose big-endian bytes are the first eight of `b`.
pub open spec fn u64_from_be(b: Seq<u8>) -> u64 {
    ((b[0] as u64) << 56u64) | ((b[1] as u64) << 48u64) | ((b[2] as u64) << 40u64)
        | ((b[3] as u64) << 32u64) | ((b[4] as u64) << 24u64) | ((b[5] as u64) << 16u64)
        | ((b[6] as u64) << 8u64) | (b[7] as u64)
}

/// The sixteen big-endian bytes of a compressed state event.
pub open spec fn cse_be(c: u128) -> Seq<u8> {
    u64_be(cse_key(c)) + u64_be(cse_event(c))
}

/// The compressed state event whose bytes are the first sixteen of `b`.
pub open spec fn cse_from_be(b: Seq<u8>) -> u128 {
    cse_of(u64_from_be(b), u64_from_be(b.subrange(8, 16)))
}

pub proof fn lemma_u64_be_round_trip(x: u64)
    ensures
        u64_from_be(u64_be(x)) == x,
        u64_be(x).len() == 8,
{
    let b = u64_be(x);
    assert(b[0] == (x >> 56u64) as u8 && b[7] == x as u8);
    assert(((((x >> 56u64) as u8) as u64) << 56u64) | ((((x >> 48u64) as u8) as u64) << 48u64)
        | ((((x >> 40u64) as u8) as u64) << 40u64) | ((((x >> 32u64) as u8) as u64) << 32u64)
        | ((((x >> 24u64) as u8) as u64) << 24u64) | ((((x >> 16u64) as u8) as u64) << 16u64)
        | ((((x >> 8u64) as u8) as u64) << 8u64) | ((x as u8) as u64) == x) by (bit_vector);
}

pub proof fn lemma_cse_parts(ssk: u64, sei: u64)
    ensures
        cse_key(cse_of(ssk, sei)) == ssk,
        cse_event(cse_of(ssk, sei)) == sei,
{
    assert((((((ssk as u128) << 64u128) | (sei as u128)) >> 64u128) as u64) == ssk) by (bit_vector);
    assert(((((ssk as u128) << 64u128) | (sei as u128)) as u64) == sei) by (bit_vector);
}

pub proof fn lemma_cse_rebuild(c: u128)
    ensures
        cse_of(cse_key(c), cse_event(c)) == c,
{
    assert(((((c >> 64u128) as u64) as u128) << 64u128) | (((c as u64)) as u128) == c) by (bit_vector);
}

/// Reading a compressed state event back from its bytes gives it again.
pub proof fn lemma_cse_be_round_trip(c: u128)
    ensures
        cse_from_be(cse_be(c)) == c,
        cse_be(c).len() == 16,
        u64_from_be(cse_be(c)) == cse_key(c),
{
    lemma_u64_be_round_trip(cse_key(c));
    lemma_u64_be_round_trip(cse_event(c));
    let b = cse_be(c);
    assert(b.subrange(8, 16) =~= u64_be(cse_event(c)));
    assert(b.subrange(0, 8) =~= u64_be(cse_key(c)));
    assert(u64_from_be(b) == u64_from_be(b.subrange(0, 8)));
    lemma_cse_rebuild(c);
}

/// Builds the compressed state event of a short state key and a short event id.
pub fn compress_state_event(shortstatekey: u64, shorteventid: u64) -> (r: CompressedStateEvent)
    ensures
        r == cse_of(shortstatekey, shorteventid),
        cse_key(r) == shortstatekey,
        cse_event(r) == shorteventid,
        shortstatekey >= 1 ==> u64_from_be(cse_be(r)) != 0,
{
    proof {
        lemma_cse_parts(shortstatekey, shorteventid);
        lemma_cse_be_round_trip(cse_of(shortstatekey, shorteventid));
    }
    ((shortstatekey as u128) << 64u128) | (shorteventid as u128)
}

/// Splits a compressed state event into its short state key and short event id.
pub fn parse_compressed_state_event(compressed_event: CompressedStateEvent) -> (r: (u64, u64))
    ensures
        r.0 == cse_key(compressed_event),
        r.1 == cse_event(compressed_event),
        cse_of(r.0, r.1) == compressed_event,
{
    proof {
        lemma_cse_rebuild(compressed_event);
    }
    ((compressed_event >> 64u128) as u64, compressed_event as u64)
}

/// Appends the big-endian bytes of `x` to `out`.
pub fn push_u64_be(out: &mut Vec<u8>, x: u64)
    ensures
        final(out)@ == old(out)@ + u64_be(x),
{
    out.push((x >> 56u64) as u8);
    out.push((x >> 48u64) as u8);
    out.push((x >> 40u64) as u8);
    out.push((x >> 32u64) as u8);
    out.push((x >> 24u64) as u8);
    out.push((x >> 16u64) as u8);
    out.push((x >> 8u64) as u8);
    out.push(x as u8);
    assert(final(out)@ =~= old(out)@ + u64_be(x));
}

/// Reads the big-endian 64-bit integer at `pos`.
pub fn read_u64_be(b: &[u8], pos: usize) -> (r: u64)
    requires
        pos + 8 <= b@.len(),
    ensures
        r == u64_from_be(b@.subrange(pos as int, b@.len() as int)),
{
    ((b[pos] as u64) << 56u64) | ((b[pos + 1] as u64) << 48u64) | ((b[pos + 2] as u64) << 40u64)
        | ((b[pos + 3] as u64) << 32u64) | ((b[pos + 4] as u64) << 24u64) | ((b[pos + 5] as u64)
        << 16u64) | ((b[pos + 6] as u64) << 8u64) | (b[pos + 7] as u64)
}

} // verus!
