//! Content digests and their hexadecimal form.
use vstd::prelude::*;

verus! {

/// The 32 bytes of the BLAKE3 digest of some bytes.
pub uninterp spec fn digest_of(bytes: Seq<u8>) -> Seq<u8>;

/// Calls `blake3::hash`. The digest depends on the bytes alone.
#[verifier::external_body]
pub(crate) fn digest(bytes: &[u8]) -> (r: [u8; 32])
    ensures
        r@ == digest_of(bytes@),
{
    *blake3::hash(bytes).as_bytes()
}

/// The lowercase hexadecimal digit of `d`.
pub open spec fn hex_digit(d: int) -> char {
    if d < 10 {
        ('0' as int + d) as char
    } else {
        ('a' as int + d - 10) as char
    }
}

/// Two hexadecimal digits for each byte.
pub open spec fn hex_of(bytes: Seq<u8>) -> Seq<char> {
    Seq::new(
        2 * bytes.len(),
        |i: int|
            hex_digit(
                if i % 2 == 0 {
                    bytes[i / 2] as int / 16
                } else {
                    bytes[i / 2] as int % 16
                },
            ),
    )
}

fn hex_char(d: u8) -> (r: char)
    requires
        d < 16,
    ensures
        r == hex_digit(d as int),
{
    if d < 10 {
        (48 + d) as char
    } else {
        (87 + d) as char
    }
}

/// Bytes in hexadecimal.
pub fn to_hex(bytes: &[u8]) -> (r: Vec<char>)
    ensures
        r@ == hex_of(bytes@),
{
    let mut out: Vec<char> = Vec::new();
    let mut i: usize = 0;
    while i < bytes.len()
        invariant
            i <= bytes@.len(),
            out@.len() == 2 * i,
            forall|k: int| 0 <= k < 2 * i ==> #[trigger] out@[k] == hex_of(bytes@)[k],
        decreases bytes@.len() - i,
    {
        let b: u8 = bytes[i];
        out.push(hex_char(b / 16));
        out.push(hex_char(b % 16));
        i = i + 1;
    }
    assert(out@ =~= hex_of(bytes@));
    out
}

} // verus!
