//! Canonical, prefix-free byte encodings for content-addressed identity, and
//! the BLAKE3 digest they are hashed with.
//!
//! Every variable-length field is length-prefixed (a little-endian `u64`), so
//! distinct field sequences can never produce the same encoding.

use vstd::prelude::*;
use vstd::utf8::encode_utf8;

verus! {

/// The BLAKE3 digest of `data` — 32 bytes.
pub uninterp spec fn blake3_digest(data: Seq<u8>) -> Seq<u8>;

/// `blake3::hash`: the 32-byte BLAKE3 digest of `data`. Trusted: the result is
/// [`blake3_digest`] of the input bytes. Hashing a concatenation at once gives
/// what the crate's incremental `Hasher` gives for the same bytes fed in pieces.
#[verifier::external_body]
pub(crate) fn blake3_hash(data: &[u8]) -> (r: [u8; 32])
    ensures
        r@ == blake3_digest(data@),
{
    *blake3::hash(data).as_bytes()
}

/// The `k` little-endian bytes of `n`.
pub open spec fn le_bytes(n: nat, k: nat) -> Seq<u8>
    decreases k,
{
    if k == 0 {
        Seq::empty()
    } else {
        seq![(n % 256) as u8] + le_bytes(n / 256, (k - 1) as nat)
    }
}

/// A length prefix: the length as a little-endian `u64`.
pub open spec fn len_prefix(n: nat) -> Seq<u8> {
    le_bytes(n, 8)
}

/// A length-prefixed byte string.
pub open spec fn enc_bytes(b: Seq<u8>) -> Seq<u8> {
    len_prefix(b.len()) + b
}

/// A length-prefixed UTF-8 string.
pub open spec fn enc_str(s: Seq<char>) -> Seq<u8> {
    enc_bytes(encode_utf8(s))
}

/// `256^k`: how many values `k` little-endian bytes can hold.
pub open spec fn byte_range(k: nat) -> nat
    decreases k,
{
    if k == 0 {
        1
    } else {
        256 * byte_range((k - 1) as nat)
    }
}

/// The largest length a prefix can state, plus one.
pub open spec fn prefix_range() -> nat {
    byte_range(8)
}

proof fn lemma_le_bytes_len(n: nat, k: nat)
    ensures
        le_bytes(n, k).len() == k,
    decreases k,
{
    if k > 0 {
        lemma_le_bytes_len(n / 256, (k - 1) as nat);
    }
}

proof fn lemma_le_bytes_injective(n: nat, m: nat, k: nat)
    requires
        n < byte_range(k),
        m < byte_range(k),
        le_bytes(n, k) == le_bytes(m, k),
    ensures
        n == m,
    decreases k,
{
    if k > 0 {
        let r = byte_range((k - 1) as nat);
        let a = le_bytes(n, k);
        let b = le_bytes(m, k);
        assert(a[0] == b[0]);
        assert((n % 256) as u8 == (m % 256) as u8);
        assert(n % 256 == m % 256);
        assert(a.drop_first() =~= le_bytes(n / 256, (k - 1) as nat));
        assert(b.drop_first() =~= le_bytes(m / 256, (k - 1) as nat));
        assert(n / 256 < r) by (nonlinear_arith)
            requires
                n < 256 * r,
        ;
        assert(m / 256 < r) by (nonlinear_arith)
            requires
                m < 256 * r,
        ;
        lemma_le_bytes_injective(n / 256, m / 256, (k - 1) as nat);
        assert(n == 256 * (n / 256) + n % 256);
        assert(m == 256 * (m / 256) + m % 256);
    }
}

/// A length prefix followed by anything reads back uniquely.
pub proof fn lemma_len_prefix_unambiguous(n: nat, m: nat, rn: Seq<u8>, rm: Seq<u8>)
    requires
        n < prefix_range(),
        m < prefix_range(),
        len_prefix(n) + rn == len_prefix(m) + rm,
    ensures
        n == m,
        rn == rm,
{
    let en = len_prefix(n) + rn;
    let em = len_prefix(m) + rm;
    lemma_le_bytes_len(n, 8);
    lemma_le_bytes_len(m, 8);
    assert(en.subrange(0, 8) =~= len_prefix(n));
    assert(em.subrange(0, 8) =~= len_prefix(m));
    lemma_le_bytes_injective(n, m, 8);
    assert(en.subrange(8, en.len() as int) =~= rn);
    assert(em.subrange(8, em.len() as int) =~= rm);
}

/// A length-prefixed byte string followed by anything reads back uniquely:
/// the encoding is prefix-free.
pub proof fn lemma_enc_bytes_unambiguous(x: Seq<u8>, y: Seq<u8>, rx: Seq<u8>, ry: Seq<u8>)
    requires
        x.len() < prefix_range(),
        y.len() < prefix_range(),
        enc_bytes(x) + rx == enc_bytes(y) + ry,
    ensures
        x == y,
        rx == ry,
{
    let ex = enc_bytes(x) + rx;
    let ey = enc_bytes(y) + ry;
    lemma_le_bytes_len(x.len(), 8);
    lemma_le_bytes_len(y.len(), 8);
    assert(ex.subrange(0, 8) =~= len_prefix(x.len()));
    assert(ey.subrange(0, 8) =~= len_prefix(y.len()));
    lemma_le_bytes_injective(x.len(), y.len(), 8);
    assert(ex.subrange(8, 8 + x.len() as int) =~= x);
    assert(ey.subrange(8, 8 + y.len() as int) =~= y);
    assert(ex.subrange(8 + x.len() as int, ex.len() as int) =~= rx);
    assert(ey.subrange(8 + y.len() as int, ey.len() as int) =~= ry);
}

/// The same for a length-prefixed UTF-8 string.
pub proof fn lemma_enc_str_unambiguous(x: Seq<char>, y: Seq<char>, rx: Seq<u8>, ry: Seq<u8>)
    requires
        encode_utf8(x).len() < prefix_range(),
        encode_utf8(y).len() < prefix_range(),
        enc_str(x) + rx == enc_str(y) + ry,
    ensures
        x == y,
        rx == ry,
{
    lemma_enc_bytes_unambiguous(encode_utf8(x), encode_utf8(y), rx, ry);
    vstd::utf8::encode_utf8_decode_utf8(x);
    vstd::utf8::encode_utf8_decode_utf8(y);
}

/// The eight little-endian bytes of `n`.
pub fn u64_le(n: u64) -> (r: Vec<u8>)
    ensures
        r@ == le_bytes(n as nat, 8),
{
    let mut out: Vec<u8> = Vec::new();
    let mut m: u64 = n;
    let mut k: usize = 0;
    while k < 8
        invariant
            k <= 8,
            out@ + le_bytes(m as nat, (8 - k) as nat) == le_bytes(n as nat, 8),
        decreases 8 - k,
    {
        let b = (m % 256) as u8;
        proof {
            assert(le_bytes(m as nat, (8 - k) as nat) == seq![b] + le_bytes((m / 256) as nat, (8 - k - 1) as nat));
            assert(out@.push(b) + le_bytes((m / 256) as nat, (8 - k - 1) as nat) =~= out@ + le_bytes(m as nat, (8 - k) as nat));
        }
        out.push(b);
        m = m / 256;
        k = k + 1;
    }
    assert(le_bytes(m as nat, 0) =~= Seq::<u8>::empty());
    assert(out@ =~= le_bytes(n as nat, 8));
    out
}

/// Append `b` to `out`.
pub fn push_all(out: &mut Vec<u8>, b: &[u8])
    ensures
        final(out)@ == old(out)@ + b@,
{
    let mut i: usize = 0;
    while i < b.len()
        invariant
            i <= b@.len(),
            out@ == old(out)@ + b@.subrange(0, i as int),
        decreases b@.len() - i,
    {
        out.push(b[i]);
        assert(out@ =~= old(out)@ + b@.subrange(0, i + 1));
        i = i + 1;
    }
    assert(b@.subrange(0, b@.len() as int) =~= b@);
}

/// Feed a length-prefixed byte string.
pub fn feed_bytes(out: &mut Vec<u8>, b: &[u8])
    ensures
        final(out)@ == old(out)@ + enc_bytes(b@),
{
    let n = b.len();
    let prefix = u64_le(n as u64);
    push_all(out, prefix.as_slice());
    push_all(out, b);
    assert(out@ =~= old(out)@ + enc_bytes(b@));
}

/// Feed a length-prefixed UTF-8 string.
pub fn feed_str(out: &mut Vec<u8>, s: &str)
    ensures
        final(out)@ == old(out)@ + enc_str(s@),
{
    feed_bytes(out, s.as_bytes());
}

/// Feed a single discriminant byte.
pub fn feed_u8(out: &mut Vec<u8>, v: u8)
    ensures
        final(out)@ == old(out)@.push(v),
{
    out.push(v);
}

} // verus!
