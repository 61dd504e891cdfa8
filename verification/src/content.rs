//! Content addresses: a BLAKE3 digest of canonical bytes, written `b3:<hex>`.

use vstd::prelude::*;

use crate::hashing::{blake3_digest, blake3_hash};
use crate::text::{chars_of, string_from};

verus! {

/// The lower-case hexadecimal digit for `d` (`0..16`).
pub open spec fn hex_lower(d: int) -> char {
    if d < 10 {
        (('0' as int) + d) as char
    } else {
        (('a' as int) + d - 10) as char
    }
}

/// The two lower-case hex digits of a byte.
pub open spec fn hex_pair(b: u8) -> Seq<char> {
    seq![hex_lower(b as int / 16), hex_lower(b as int % 16)]
}

/// The lower-case hex rendering of `bytes`, two digits per byte.
pub open spec fn hex_of(bytes: Seq<u8>) -> Seq<char>
    decreases bytes.len(),
{
    if bytes.len() == 0 {
        Seq::empty()
    } else {
        hex_of(bytes.drop_last()) + hex_pair(bytes.last())
    }
}

/// The value of a hexadecimal digit (either case), if it is one.
pub open spec fn hex_value(c: char) -> Option<int> {
    if '0' <= c && c <= '9' {
        Some(c as int - '0' as int)
    } else if 'a' <= c && c <= 'f' {
        Some(c as int - 'a' as int + 10)
    } else if 'A' <= c && c <= 'F' {
        Some(c as int - 'A' as int + 10)
    } else {
        None
    }
}

/// How `u8::from_str_radix(_, 16)` reads a two-character field: two hex digits,
/// or a `+` sign and one digit.
pub open spec fn pair_value(a: char, b: char) -> Option<u8> {
    match (hex_value(a), hex_value(b)) {
        (Some(x), Some(y)) => Some((16 * x + y) as u8),
        (None, Some(y)) => if a == '+' {
            Some(y as u8)
        } else {
            None
        },
        _ => None,
    }
}

/// Decoding a hex digest: an even number of characters, each pair read as a
/// byte. (Any non-ASCII character makes it fail.)
pub open spec fn decode_hex_spec(s: Seq<char>) -> Option<Seq<u8>>
    decreases s.len(),
{
    if s.len() == 0 {
        Some(Seq::empty())
    } else if s.len() == 1 {
        None
    } else {
        match (decode_hex_spec(s.subrange(0, s.len() - 2)), pair_value(s[s.len() - 2], s[s.len() - 1])) {
            (Some(prefix), Some(b)) => Some(prefix.push(b)),
            _ => None,
        }
    }
}

/// The `b3:` prefix.
pub open spec fn b3_prefix() -> Seq<char> {
    seq!['b', '3', ':']
}

/// A content address: a BLAKE3 digest of canonical bytes, rendered as `b3:<hex>`.
/// Equal content yields an equal `ContentId`.
#[derive(Clone, Copy, PartialEq, Eq, Hash, PartialOrd, Ord, Debug)]
pub struct ContentId([u8; 32]);

impl View for ContentId {
    type V = Seq<u8>;

    closed spec fn view(&self) -> Seq<u8> {
        self.0@
    }
}

/// Error parsing a [`ContentId`].
#[derive(Clone, Debug)]
pub struct ContentIdError(String);

impl ContentIdError {
    /// The reason.
    pub closed spec fn spec_message(&self) -> Seq<char> {
        self.0@
    }

    /// The reason.
    pub fn message(&self) -> (r: &str)
        ensures
            r@ == self.spec_message(),
    {
        self.0.as_str()
    }
}

fn hex_digit_lower(d: u8) -> (c: char)
    requires
        d < 16,
    ensures
        c == hex_lower(d as int),
{
    let digits: [char; 16] = [
        '0', '1', '2', '3', '4', '5', '6', '7', '8', '9', 'a', 'b', 'c', 'd', 'e', 'f',
    ];
    digits[d as usize]
}

fn hex_digit_value(c: char) -> (r: Option<u8>)
    ensures
        match hex_value(c) {
            Some(v) => r == Some(v as u8),
            None => r is None,
        },
{
    if '0' <= c && c <= '9' {
        Some(((c as u32) - ('0' as u32)) as u8)
    } else if 'a' <= c && c <= 'f' {
        Some(((c as u32) - ('a' as u32) + 10) as u8)
    } else if 'A' <= c && c <= 'F' {
        Some(((c as u32) - ('A' as u32) + 10) as u8)
    } else {
        None
    }
}

fn read_pair(a: char, b: char) -> (r: Option<u8>)
    ensures
        r == pair_value(a, b),
{
    match (hex_digit_value(a), hex_digit_value(b)) {
        (Some(x), Some(y)) => Some(16 * x + y),
        (None, Some(y)) => if a == '+' {
            Some(y)
        } else {
            None
        },
        _ => None,
    }
}

fn decode_hex(s: &[char]) -> (r: Option<Vec<u8>>)
    ensures
        match r {
            Some(v) => decode_hex_spec(s@) == Some(v@),
            None => decode_hex_spec(s@) is None,
        },
{
    if s.len() % 2 != 0 {
        proof {
            lemma_decode_odd(s@);
        }
        return None;
    }
    let mut out: Vec<u8> = Vec::new();
    let mut i: usize = 0;
    while i < s.len()
        invariant
            i <= s@.len(),
            i % 2 == 0,
            s@.len() % 2 == 0,
            decode_hex_spec(s@.subrange(0, i as int)) == Some(out@),
        decreases s@.len() - i,
    {
        let p = read_pair(s[i], s[i + 1]);
        let ghost sub = s@.subrange(0, i + 2);
        proof {
            assert(sub.subrange(0, sub.len() - 2) =~= s@.subrange(0, i as int));
            assert(sub[sub.len() - 2] == s@[i as int]);
            assert(sub[sub.len() - 1] == s@[i + 1]);
        }
        match p {
            Some(b) => {
                out.push(b);
            },
            None => {
                proof {
                    lemma_decode_prefix_fails(s@, i + 2);
                }
                return None;
            },
        }
        i = i + 2;
    }
    assert(s@.subrange(0, s@.len() as int) =~= s@);
    Some(out)
}

proof fn lemma_decode_odd(s: Seq<char>)
    requires
        s.len() % 2 == 1,
    ensures
        decode_hex_spec(s) is None,
    decreases s.len(),
{
    if s.len() > 1 {
        lemma_decode_odd(s.subrange(0, s.len() - 2));
    }
}

proof fn lemma_decode_prefix_fails(s: Seq<char>, n: int)
    requires
        0 <= n <= s.len(),
        n % 2 == 0,
        s.len() % 2 == 0,
        decode_hex_spec(s.subrange(0, n)) is None,
    ensures
        decode_hex_spec(s) is None,
    decreases s.len() - n,
{
    if n < s.len() {
        let t = s.subrange(0, n + 2);
        assert(t.subrange(0, t.len() - 2) =~= s.subrange(0, n));
        lemma_decode_prefix_fails(s, n + 2);
    } else {
        assert(s.subrange(0, n) =~= s);
    }
}

/// Decoding the lower-case hex rendering of some bytes gives the bytes back.
pub proof fn lemma_hex_round_trip(bytes: Seq<u8>)
    ensures
        decode_hex_spec(hex_of(bytes)) == Some(bytes),
        hex_of(bytes).len() == 2 * bytes.len(),
    decreases bytes.len(),
{
    if bytes.len() > 0 {
        lemma_hex_round_trip(bytes.drop_last());
        let h = hex_of(bytes);
        let b = bytes.last();
        assert(h.subrange(0, h.len() - 2) =~= hex_of(bytes.drop_last()));
        assert(h[h.len() - 2] == hex_lower(b as int / 16));
        assert(h[h.len() - 1] == hex_lower(b as int % 16));
        assert(pair_value(hex_lower(b as int / 16), hex_lower(b as int % 16)) == Some(b));
        assert(bytes.drop_last().push(b) =~= bytes);
    }
}

impl ContentId {
    /// Content address of a byte slice: its BLAKE3 digest.
    pub fn of(bytes: &[u8]) -> (r: ContentId)
        ensures
            r@ == blake3_digest(bytes@),
    {
        ContentId(blake3_hash(bytes))
    }

    /// The content address with exactly this digest.
    pub fn from_digest(digest: [u8; 32]) -> (r: ContentId)
        ensures
            r@ == digest@,
    {
        ContentId(digest)
    }

    /// A digest is always 32 bytes.
    pub proof fn lemma_len(&self)
        ensures
            self@.len() == 32,
    {
    }

    /// Whether two content addresses are the same digest.
    pub fn same(&self, other: &ContentId) -> (r: bool)
        ensures
            r == (self@ == other@),
    {
        let mut i: usize = 0;
        while i < 32
            invariant
                i <= 32,
                self@.len() == 32,
                other@.len() == 32,
                forall|j: int| 0 <= j < i ==> self@[j] == other@[j],
            decreases 32 - i,
        {
            if self.0[i] != other.0[i] {
                return false;
            }
            i = i + 1;
        }
        assert(self@ =~= other@);
        true
    }

    /// The raw 32-byte digest.
    pub fn as_bytes(&self) -> (r: &[u8; 32])
        ensures
            r@ == self@,
    {
        &self.0
    }

    /// The textual form, `b3:` and 64 lower-case hex digits.
    pub open spec fn spec_text(&self) -> Seq<char> {
        b3_prefix() + hex_of(self@)
    }

    /// The textual form, `b3:` and 64 lower-case hex digits.
    pub fn to_text(&self) -> (r: String)
        ensures
            r@ == self.spec_text(),
    {
        let mut out: Vec<char> = Vec::new();
        out.push('b');
        out.push('3');
        out.push(':');
        let mut i: usize = 0;
        while i < 32
            invariant
                i <= 32,
                self@.len() == 32,
                out@ == b3_prefix() + hex_of(self@.subrange(0, i as int)),
            decreases 32 - i,
        {
            let b = self.0[i];
            out.push(hex_digit_lower(b / 16));
            out.push(hex_digit_lower(b % 16));
            proof {
                assert(self@.subrange(0, i + 1).drop_last() =~= self@.subrange(0, i as int));
                assert(out@ =~= b3_prefix() + hex_of(self@.subrange(0, i + 1)));
            }
            i = i + 1;
        }
        assert(self@.subrange(0, 32) =~= self@);
        string_from(out.as_slice())
    }

    /// Parse a `b3:<hex>` content address.
    pub fn parse(s: &str) -> (r: Result<ContentId, ContentIdError>)
        ensures
            match r {
                Ok(id) => s@.len() >= 3 && s@.subrange(0, 3) == b3_prefix() && decode_hex_spec(
                    s@.subrange(3, s@.len() as int),
                ) == Some(id@),
                Err(e) => {
                    ||| (!(s@.len() >= 3 && s@.subrange(0, 3) == b3_prefix())
                        && e.spec_message() == "expected `b3:` prefix"@)
                    ||| (s@.len() >= 3 && s@.subrange(0, 3) == b3_prefix() && decode_hex_spec(
                        s@.subrange(3, s@.len() as int),
                    ) is None && e.spec_message() == "invalid hex digest"@)
                    ||| (s@.len() >= 3 && s@.subrange(0, 3) == b3_prefix() && (decode_hex_spec(
                        s@.subrange(3, s@.len() as int),
                    ) matches Some(d) && d.len() != 32) && e.spec_message()
                        == "digest must be 32 bytes"@)
                },
            },
    {
        let cs = chars_of(s);
        if cs.len() < 3 || cs[0] != 'b' || cs[1] != '3' || cs[2] != ':' {
            proof {
                if s@.len() >= 3 && s@.subrange(0, 3) == b3_prefix() {
                    assert(s@.subrange(0, 3)[0] == 'b');
                    assert(s@.subrange(0, 3)[1] == '3');
                    assert(s@.subrange(0, 3)[2] == ':');
                }
            }
            return Err(ContentIdError("expected `b3:` prefix".to_owned()));
        }
        assert(s@.subrange(0, 3) =~= b3_prefix());
        let hex = cs.as_slice().split_at(3).1;
        assert(hex@ =~= s@.subrange(3, s@.len() as int));
        match decode_hex(hex) {
            None => Err(ContentIdError("invalid hex digest".to_owned())),
            Some(bytes) => {
                if bytes.len() != 32 {
                    return Err(ContentIdError("digest must be 32 bytes".to_owned()));
                }
                let mut arr: [u8; 32] = [0u8; 32];
                let mut i: usize = 0;
                while i < 32
                    invariant
                        i <= 32,
                        bytes@.len() == 32,
                        forall|j: int| 0 <= j < i ==> arr@[j] == bytes@[j],
                    decreases 32 - i,
                {
                    arr[i] = bytes[i];
                    i = i + 1;
                }
                assert(arr@ =~= bytes@);
                Ok(ContentId(arr))
            },
        }
    }
}

/// Rendering a content address and parsing the text gives the same address back.
pub proof fn lemma_text_round_trip(id: ContentId)
    ensures
        ({
            let t = id.spec_text();
            &&& t.len() == 67
            &&& t.subrange(0, 3) == b3_prefix()
            &&& decode_hex_spec(t.subrange(3, t.len() as int)) == Some(id@)
        }),
{
    lemma_hex_round_trip(id@);
    let t = id.spec_text();
    assert(t.subrange(0, 3) =~= b3_prefix());
    assert(t.subrange(3, t.len() as int) =~= hex_of(id@));
}

} // verus!
