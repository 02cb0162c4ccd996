//! Content digests and their canonical hex form.

use vstd::prelude::*;
use crate::error::Error;

verus! {

/// A 32-byte content digest identifying a file or a chunk.
pub type ContentHash = [u8; 32];

/// The digest the content hash function assigns to a byte string. The
/// function is pure — the same bytes give the same digest everywhere — so
/// the digest is named rather than written out.
pub uninterp spec fn digest_of(data: Seq<u8>) -> Seq<u8>;

/// Relies on blake3::hash and blake3::Hash::as_bytes: a pure function of
/// the input bytes alone, returning a 32-byte digest.
#[verifier::external_body]
pub fn hash_bytes(data: &[u8]) -> (r: ContentHash)
    ensures
        r@ == digest_of(data@),
{
    *blake3::hash(data).as_bytes()
}

/// Byte-wise equality of two digests. The comparison is independent of
/// the data: every byte pair is folded into one accumulator, with no
/// early return on a differing byte.
pub fn hash_eq(a: &ContentHash, b: &ContentHash) -> (r: bool)
    ensures
        r == (a@ == b@),
{
    let mut acc: u8 = 0;
    let mut i: usize = 0;
    while i < 32
        invariant
            i <= 32,
            (acc == 0) <==> (forall|j: int| 0 <= j < i ==> a@[j] == b@[j]),
        decreases 32 - i,
    {
        let ghost old_acc = acc;
        let x = a[i];
        let y = b[i];
        acc = acc | (x ^ y);
        proof {
            assert(((old_acc | (x ^ y)) == 0) <==> (old_acc == 0 && x == y)) by (bit_vector);
            if acc == 0 {
                assert forall|j: int| 0 <= j < i + 1 implies a@[j] == b@[j] by {
                }
            } else {
                if old_acc == 0 {
                    assert(a@[i as int] != b@[i as int]);
                }
            }
        }
        i = i + 1;
    }
    if acc == 0 {
        proof {
            assert(a@ =~= b@);
        }
        true
    } else {
        proof {
            if a@ == b@ {
                assert(forall|j: int| 0 <= j < 32 ==> a@[j] == b@[j]);
            }
        }
        false
    }
}

/// Copy a 32-byte slice into a digest value.
pub fn hash_from_slice(v: &[u8]) -> (r: ContentHash)
    requires
        v@.len() == 32,
    ensures
        r@ == v@,
{
    let mut r: ContentHash = [0u8; 32];
    let mut i: usize = 0;
    while i < 32
        invariant
            v@.len() == 32,
            i <= 32,
            r@.len() == 32,
            forall|j: int| 0 <= j < i ==> r@[j] == v@[j],
        decreases 32 - i,
    {
        r[i] = v[i];
        i = i + 1;
    }
    proof {
        assert(r@ =~= v@);
    }
    r
}

/// The lower-case character for one hex digit value.
pub open spec fn hex_char(n: int) -> char {
    if n == 0 { '0' }
    else if n == 1 { '1' }
    else if n == 2 { '2' }
    else if n == 3 { '3' }
    else if n == 4 { '4' }
    else if n == 5 { '5' }
    else if n == 6 { '6' }
    else if n == 7 { '7' }
    else if n == 8 { '8' }
    else if n == 9 { '9' }
    else if n == 10 { 'a' }
    else if n == 11 { 'b' }
    else if n == 12 { 'c' }
    else if n == 13 { 'd' }
    else if n == 14 { 'e' }
    else { 'f' }
}

/// The value of a hex digit character, upper or lower case; 16 marks a
/// character that is no hex digit.
pub open spec fn nibble_of(c: char) -> int {
    if c == '0' { 0 }
    else if c == '1' { 1 }
    else if c == '2' { 2 }
    else if c == '3' { 3 }
    else if c == '4' { 4 }
    else if c == '5' { 5 }
    else if c == '6' { 6 }
    else if c == '7' { 7 }
    else if c == '8' { 8 }
    else if c == '9' { 9 }
    else if c == 'a' || c == 'A' { 10 }
    else if c == 'b' || c == 'B' { 11 }
    else if c == 'c' || c == 'C' { 12 }
    else if c == 'd' || c == 'D' { 13 }
    else if c == 'e' || c == 'E' { 14 }
    else if c == 'f' || c == 'F' { 15 }
    else { 16 }
}

pub open spec fn is_hex_digit(c: char) -> bool {
    nibble_of(c) < 16
}

/// The canonical lower-case hex encoding of a byte string: two characters
/// per byte, high nibble first.
pub open spec fn hex_of(bytes: Seq<u8>) -> Seq<char>
    decreases bytes.len(),
{
    if bytes.len() == 0 {
        Seq::<char>::empty()
    } else {
        seq![hex_char(bytes[0] as int / 16), hex_char(bytes[0] as int % 16)]
            + hex_of(bytes.drop_first())
    }
}

proof fn lemma_hex_of_push(bytes: Seq<u8>, b: u8)
    ensures
        hex_of(bytes.push(b)) == hex_of(bytes)
            + seq![hex_char(b as int / 16), hex_char(b as int % 16)],
    decreases bytes.len(),
{
    if bytes.len() == 0 {
        assert(bytes.push(b).drop_first() =~= Seq::<u8>::empty());
        assert(hex_of(Seq::<u8>::empty()) == Seq::<char>::empty());
        assert(hex_of(bytes) == Seq::<char>::empty());
        assert(bytes.push(b)[0] == b);
        assert(hex_of(bytes.push(b))
            =~= hex_of(bytes) + seq![hex_char(b as int / 16), hex_char(b as int % 16)]);
    } else {
        lemma_hex_of_push(bytes.drop_first(), b);
        assert(bytes.push(b).drop_first() =~= bytes.drop_first().push(b));
        assert(hex_of(bytes.push(b))
            =~= hex_of(bytes) + seq![hex_char(b as int / 16), hex_char(b as int % 16)]);
    }
}

/// The exec counterpart of `hex_char`.
fn hex_char_exec(n: u8) -> (c: char)
    requires
        n < 16,
    ensures
        c == hex_char(n as int),
{
    if n == 0 { '0' }
    else if n == 1 { '1' }
    else if n == 2 { '2' }
    else if n == 3 { '3' }
    else if n == 4 { '4' }
    else if n == 5 { '5' }
    else if n == 6 { '6' }
    else if n == 7 { '7' }
    else if n == 8 { '8' }
    else if n == 9 { '9' }
    else if n == 10 { 'a' }
    else if n == 11 { 'b' }
    else if n == 12 { 'c' }
    else if n == 13 { 'd' }
    else if n == 14 { 'e' }
    else { 'f' }
}

/// The exec counterpart of `nibble_of`.
fn nibble_of_exec(c: char) -> (n: u8)
    ensures
        n as int == nibble_of(c),
{
    if c == '0' { 0 }
    else if c == '1' { 1 }
    else if c == '2' { 2 }
    else if c == '3' { 3 }
    else if c == '4' { 4 }
    else if c == '5' { 5 }
    else if c == '6' { 6 }
    else if c == '7' { 7 }
    else if c == '8' { 8 }
    else if c == '9' { 9 }
    else if c == 'a' || c == 'A' { 10 }
    else if c == 'b' || c == 'B' { 11 }
    else if c == 'c' || c == 'C' { 12 }
    else if c == 'd' || c == 'D' { 13 }
    else if c == 'e' || c == 'E' { 14 }
    else if c == 'f' || c == 'F' { 15 }
    else { 16 }
}

/// Relies on String's FromIterator over char: collecting yields exactly
/// the iterated characters, in order.
#[verifier::external_body]
pub(crate) fn chars_to_string(v: &Vec<char>) -> (s: String)
    ensures
        s@ == v@,
{
    v.iter().collect()
}

/// Relies on str::chars: the characters of the string, in order.
#[verifier::external_body]
pub(crate) fn str_chars(s: &str) -> (v: Vec<char>)
    ensures
        v@ == s@,
{
    s.chars().collect()
}

/// Format a digest as its canonical lower-case hex string.
pub fn hash_to_hex(hash: &ContentHash) -> (s: String)
    ensures
        s@ == hex_of(hash@),
{
    let mut out: Vec<char> = Vec::new();
    let mut i: usize = 0;
    while i < 32
        invariant
            i <= 32,
            out@ == hex_of(hash@.take(i as int)),
        decreases 32 - i,
    {
        let b = hash[i];
        let hi = hex_char_exec(b / 16);
        let lo = hex_char_exec(b % 16);
        out.push(hi);
        out.push(lo);
        proof {
            lemma_hex_of_push(hash@.take(i as int), b);
            assert(hash@.take(i as int).push(b) =~= hash@.take(i as int + 1));
        }
        i = i + 1;
    }
    proof {
        assert(hash@.take(32) =~= hash@);
    }
    chars_to_string(&out)
}

/// Whether a character sequence is a valid hex spelling of a digest:
/// exactly 64 hex digits.
pub open spec fn is_hex_hash(s: Seq<char>) -> bool {
    s.len() == 64 && forall|i: int| 0 <= i < 64 ==> is_hex_digit(#[trigger] s[i])
}

/// Parse the hex spelling of a digest. Fails with `InvalidData` exactly
/// when the input is not 64 hex digits.
pub fn hex_to_hash(s: &str) -> (r: Result<ContentHash, Error>)
    ensures
        r is Ok <==> is_hex_hash(s@),
        r is Ok ==> {
            let h = r->Ok_0;
            forall|j: int| 0 <= j < 32
                ==> #[trigger] h@[j] as int == 16 * nibble_of(s@[2 * j]) + nibble_of(s@[2 * j + 1])
        },
{
    let chars = str_chars(s);
    if chars.len() != 64 {
        return Err(Error::InvalidData("hex hash must be 64 characters".to_owned()));
    }
    let mut out: ContentHash = [0u8; 32];
    let mut i: usize = 0;
    while i < 32
        invariant
            chars@ == s@,
            chars@.len() == 64,
            i <= 32,
            out@.len() == 32,
            forall|j: int| 0 <= j < 2 * i ==> is_hex_digit(#[trigger] s@[j]),
            forall|j: int| 0 <= j < i
                ==> #[trigger] out@[j] as int
                    == 16 * nibble_of(s@[2 * j]) + nibble_of(s@[2 * j + 1]),
        decreases 32 - i,
    {
        let hi = nibble_of_exec(chars[2 * i]);
        let lo = nibble_of_exec(chars[2 * i + 1]);
        if hi >= 16 || lo >= 16 {
            return Err(Error::InvalidData("not a hex digit".to_owned()));
        }
        out[i] = 16 * hi + lo;
        i = i + 1;
    }
    Ok(out)
}

/// Encoding then parsing a digest's hex spelling gives the digest back:
/// the hex form is faithful.
pub proof fn lemma_hex_round_trip(h: Seq<u8>)
    requires
        h.len() == 32,
    ensures
        is_hex_hash(hex_of(h)),
        forall|j: int| 0 <= j < 32
            ==> 16 * nibble_of(hex_of(h)[2 * j]) + nibble_of(hex_of(h)[2 * j + 1])
                == #[trigger] h[j] as int,
{
    lemma_hex_of_index(h);
    assert forall|j: int| 0 <= j < 32
        implies 16 * nibble_of(hex_of(h)[2 * j]) + nibble_of(hex_of(h)[2 * j + 1])
            == #[trigger] h[j] as int by {
        assert(hex_of(h)[2 * j] == hex_char(h[j] as int / 16));
        assert(hex_of(h)[2 * j + 1] == hex_char(h[j] as int % 16));
    }
    assert forall|i: int| 0 <= i < 64 implies is_hex_digit(#[trigger] hex_of(h)[i]) by {
        let j = i / 2;
        if i % 2 == 0 {
            assert(hex_of(h)[i] == hex_char(h[j] as int / 16));
        } else {
            assert(hex_of(h)[i] == hex_char(h[j] as int % 16));
        }
    }
}

proof fn lemma_hex_of_index(bytes: Seq<u8>)
    ensures
        hex_of(bytes).len() == 2 * bytes.len(),
        forall|j: int| 0 <= j < bytes.len() ==> {
            &&& hex_of(bytes)[2 * j] == hex_char(#[trigger] bytes[j] as int / 16)
            &&& hex_of(bytes)[2 * j + 1] == hex_char(bytes[j] as int % 16)
        },
    decreases bytes.len(),
{
    if bytes.len() > 0 {
        lemma_hex_of_index(bytes.drop_first());
        assert forall|j: int| 0 <= j < bytes.len() implies {
            &&& hex_of(bytes)[2 * j] == hex_char(#[trigger] bytes[j] as int / 16)
            &&& hex_of(bytes)[2 * j + 1] == hex_char(bytes[j] as int % 16)
        } by {
            if j > 0 {
                assert(bytes.drop_first()[j - 1] == bytes[j]);
                assert(hex_of(bytes)[2 * j] == hex_of(bytes.drop_first())[2 * (j - 1)]);
                assert(hex_of(bytes)[2 * j + 1] == hex_of(bytes.drop_first())[2 * (j - 1) + 1]);
            }
        }
    }
}

} // verus!
