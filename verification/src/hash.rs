//! Content hashes.
use sha2::{Digest, Sha256};
use vstd::prelude::*;
use crate::text::string_of;

verus! {

/// The SHA-256 digest of a byte sequence.
pub uninterp spec fn sha256_of(bytes: Seq<u8>) -> Seq<u8>;

/// `sha2::Sha256::digest`: the SHA-256 digest of the bytes. The contract names the
/// digest as a function of the bytes alone, and says that it has 32 bytes, which is
/// the output size of `Sha256`. Nothing is claimed of collisions.
#[verifier::external_body]
fn sha256(bytes: &[u8]) -> (out: Vec<u8>)
    ensures
        out@ == sha256_of(bytes@),
        out@.len() == 32,
{
    Sha256::digest(bytes).to_vec()
}

/// The character of a hexadecimal digit.
pub open spec fn hex_digit(d: int) -> char {
    if d < 10 {
        (('0' as int) + d) as char
    } else {
        (('a' as int) + d - 10) as char
    }
}

/// Bytes in lower-case hexadecimal, two digits each.
pub open spec fn hex(bytes: Seq<u8>) -> Seq<char>
    decreases bytes.len(),
{
    if bytes.len() == 0 {
        seq![]
    } else {
        let b = bytes.last() as int;
        hex(bytes.drop_last()).push(hex_digit(b / 16)).push(hex_digit(b % 16))
    }
}

/// Two digits stand for each byte.
pub proof fn hex_length(bytes: Seq<u8>)
    ensures
        hex(bytes).len() == 2 * bytes.len(),
    decreases bytes.len(),
{
    if bytes.len() > 0 {
        hex_length(bytes.drop_last());
    }
}

fn hex_char(d: u8) -> (c: char)
    requires
        d < 16,
    ensures
        c == hex_digit(d as int),
{
    if d < 10 {
        (48u8 + d) as char
    } else {
        (87u8 + d) as char
    }
}

/// The SHA-256 digest of the bytes, in hexadecimal.
pub fn sha256_hex(bytes: &[u8]) -> (out: Vec<char>)
    ensures
        out@ == hex(sha256_of(bytes@)),
        out@.len() == 64,
{
    let digest = sha256(bytes);
    let ghost all = digest@;
    let mut out: Vec<char> = Vec::new();
    let mut i: usize = 0;
    while i < digest.len()
        invariant
            i <= digest@.len(),
            digest@ == all,
            out@ == hex(all.take(i as int)),
        decreases digest.len() - i,
    {
        let b: u8 = digest[i];
        out.push(hex_char(b / 16));
        out.push(hex_char(b % 16));
        i += 1;
        proof {
            assert(all.take(i as int).drop_last() =~= all.take(i - 1));
        }
    }
    proof {
        assert(all.take(i as int) =~= all);
        hex_length(all);
    }
    out
}

/// The little-endian bytes of a number.
pub open spec fn le_bytes(n: u32) -> Seq<u8> {
    seq![
        (n % 256) as u8,
        (n / 256 % 256) as u8,
        (n / 65536 % 256) as u8,
        (n / 16777216 % 256) as u8,
    ]
}

/// The hash of a versioned content: the version's bytes, then the content.
pub fn versioned_hash(version: u32, raw: &[u8]) -> (out: String)
    ensures
        out@ == hex(sha256_of(le_bytes(version) + raw@)),
        out@.len() == 64,
{
    let mut bytes: Vec<u8> = Vec::new();
    bytes.push((version % 256) as u8);
    bytes.push((version / 256 % 256) as u8);
    bytes.push((version / 65536 % 256) as u8);
    bytes.push((version / 16777216 % 256) as u8);
    proof {
        assert(bytes@ =~= le_bytes(version));
    }
    let mut i: usize = 0;
    while i < raw.len()
        invariant
            i <= raw@.len(),
            bytes@ == le_bytes(version) + raw@.take(i as int),
        decreases raw.len() - i,
    {
        bytes.push(raw[i]);
        i += 1;
        proof {
            assert(raw@.take(i as int) =~= raw@.take(i - 1).push(raw@[i - 1]));
        }
    }
    proof {
        assert(raw@.take(i as int) =~= raw@);
    }
    string_of(sha256_hex(bytes.as_slice()).as_slice())
}

/// Hexadecimal loses nothing: bytes that are written alike are the same.
pub proof fn hex_reads_back(a: Seq<u8>, b: Seq<u8>)
    requires
        hex(a) == hex(b),
    ensures
        a == b,
    decreases a.len(),
{
    hex_length(a);
    hex_length(b);
    assert(a.len() == b.len());
    if a.len() > 0 {
        let x = a.last();
        let y = b.last();
        let h = hex(a);
        let n = h.len();
        let high_x = x as int / 16;
        let low_x = x as int % 16;
        let high_y = y as int / 16;
        let low_y = y as int % 16;
        assert(h[n - 1] == hex_digit(low_x));
        assert(hex(b)[n - 1] == hex_digit(low_y));
        assert(h[n - 2] == hex_digit(high_x));
        assert(hex(b)[n - 2] == hex_digit(high_y));
        digits_differ(low_x, low_y);
        digits_differ(high_x, high_y);
        assert(x == y);
        assert(hex(a.drop_last()) =~= h.take(n - 2));
        assert(hex(b.drop_last()) =~= hex(b).take(n - 2));
        hex_reads_back(a.drop_last(), b.drop_last());
        assert(a =~= a.drop_last().push(x));
        assert(b =~= b.drop_last().push(y));
    } else {
        assert(a =~= b);
    }
}

proof fn digits_differ(d: int, e: int)
    requires
        0 <= d < 16,
        0 <= e < 16,
        hex_digit(d) == hex_digit(e),
    ensures
        d == e,
{
    let c = hex_digit(d) as int;
    assert(d < 10 ==> c == 48 + d);
    assert(d >= 10 ==> c == 87 + d);
    assert(e < 10 ==> c == 48 + e);
    assert(e >= 10 ==> c == 87 + e);
}

/// Four bytes hold a number from its lowest byte to its highest.
pub proof fn bytes_are_from_low_to_high(n: u32)
    ensures
        le_bytes(n).len() == 4,
        le_bytes(n)[0] + 256 * le_bytes(n)[1] + 65536 * le_bytes(n)[2] + 16777216 * le_bytes(n)[3]
            == n,
{
}

/// Every byte is two digits, the higher half first, and a digit is one of the ten or one of
/// the first six small letters.
pub proof fn a_byte_is_two_digits(bytes: Seq<u8>, i: int)
    requires
        0 <= i < bytes.len(),
    ensures
        hex(bytes).len() == 2 * bytes.len(),
        hex(bytes)[2 * i] == hex_digit(bytes[i] as int / 16),
        hex(bytes)[2 * i + 1] == hex_digit(bytes[i] as int % 16),
        bytes[i] as int / 16 < 10 ==> hex(bytes)[2 * i] as int == 48 + bytes[i] as int / 16,
        bytes[i] as int / 16 >= 10 ==> hex(bytes)[2 * i] as int == 87 + bytes[i] as int / 16,
    decreases bytes.len(),
{
    hex_length(bytes);
    hex_length(bytes.drop_last());
    if i < bytes.len() - 1 {
        a_byte_is_two_digits(bytes.drop_last(), i);
    }
}

} // verus!
