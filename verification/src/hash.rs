//! Digests, written in hexadecimal.

use vstd::prelude::*;

verus! {

/// The SHA-256 digest of a byte sequence.
pub uninterp spec fn sha256_of(bytes: Seq<u8>) -> Seq<u8>;

/// `sha2::Sha256::digest`: 32 bytes that depend on the input bytes alone.
#[verifier::external_body]
fn sha2_digest(bytes: &[u8]) -> (r: Vec<u8>)
    ensures
        r@ == sha256_of(bytes@),
        r@.len() == 32,
{
    <sha2::Sha256 as sha2::Digest>::digest(bytes).to_vec()
}

/// The hexadecimal digit with the value `d`.
pub open spec fn hex_digit(d: int) -> char {
    if d < 10 {
        (d + 48) as u8 as char
    } else {
        (d + 87) as u8 as char
    }
}

/// Bytes written as two small hexadecimal digits each.
pub open spec fn hex(bytes: Seq<u8>) -> Seq<char> {
    Seq::new(
        2 * bytes.len(),
        |i: int|
            if i % 2 == 0 {
                hex_digit(bytes[i / 2] as int / 16)
            } else {
                hex_digit(bytes[i / 2] as int % 16)
            },
    )
}

/// The hexadecimal digit with the value `d`.
fn hex_char(d: u8) -> (r: char)
    requires
        d < 16,
    ensures
        r == hex_digit(d as int),
{
    if d < 10 {
        (d + 48) as char
    } else {
        (d + 87) as char
    }
}

/// The first `n` bytes of the SHA-256 digest, in hexadecimal.
pub fn sha256_hex(bytes: &[u8], n: usize) -> (r: String)
    requires
        n <= 32,
    ensures
        r@ == hex(sha256_of(bytes@).take(n as int)),
{
    let d = sha2_digest(bytes);
    let mut s = String::new();
    let mut i: usize = 0;
    while i < n
        invariant
            i <= n <= 32,
            d@ == sha256_of(bytes@),
            d@.len() == 32,
            s@ == hex(d@.take(i as int)),
        decreases n - i,
    {
        s.push(hex_char(d[i] / 16));
        s.push(hex_char(d[i] % 16));
        i += 1;
        assert(s@ =~= hex(d@.take(i as int)));
    }
    s
}

/// The value of a hexadecimal digit.
pub open spec fn digit_value(c: char) -> int {
    if '0' <= c <= '9' {
        c as int - '0' as int
    } else {
        c as int - 'a' as int + 10
    }
}

/// Bytes in hexadecimal are small digits, two for each byte, that read as the byte.
pub proof fn hexadecimal_reads_as_the_bytes(bytes: Seq<u8>, i: int)
    requires
        0 <= i < bytes.len(),
    ensures
        hex(bytes).len() == 2 * bytes.len(),
        '0' <= hex(bytes)[2 * i] <= '9' || 'a' <= hex(bytes)[2 * i] <= 'f',
        '0' <= hex(bytes)[2 * i + 1] <= '9' || 'a' <= hex(bytes)[2 * i + 1] <= 'f',
        16 * digit_value(hex(bytes)[2 * i]) + digit_value(hex(bytes)[2 * i + 1]) == bytes[i],
{
    let b = bytes[i];
    assert((2 * i) / 2 == i && (2 * i) % 2 == 0 && (2 * i + 1) / 2 == i && (2 * i + 1) % 2 == 1);
    assert(hex(bytes)[2 * i] == hex_digit(b as int / 16));
    assert(hex(bytes)[2 * i + 1] == hex_digit(b as int % 16));
}

/// A longer digest begins with the shorter ones of the same bytes, and has two digits for
/// each byte.
pub proof fn longer_digests_begin_with_shorter_ones(
    bytes: &[u8],
    n: usize,
    m: usize,
    r: String,
    s: String,
)
    requires
        n <= m <= 32,
        call_ensures(sha256_hex, (bytes, n), r),
        call_ensures(sha256_hex, (bytes, m), s),
        sha256_of(bytes@).len() == 32,
    ensures
        r@.len() == 2 * n,
        s@.len() == 2 * m,
        r@ == s@.take(2 * n as int),
{
    let a = sha256_of(bytes@);
    assert(r@ =~= s@.take(2 * n as int)) by {
        assert forall|i: int| 0 <= i < 2 * n implies r@[i] == s@[i] by {
            assert(a.take(n as int)[i / 2] == a.take(m as int)[i / 2]);
        }
    }
}

} // verus!
