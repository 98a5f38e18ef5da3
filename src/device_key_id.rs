//! Validation of `<algorithm>:<key id>` device key identifiers.

use vstd::prelude::*;
use vstd::string::StringSliceAdditionalSpecFns;
use crate::error::Error;

verus! {

/// The byte that separates the key algorithm from the key identifier.
pub const KEY_DELIMITER: u8 = 0x3a;

/// The largest delimiter offset that the validator accepts.
pub const MAX_ALGORITHM_LEN: usize = 255;

/// `k` is the offset of the first delimiter in `b`.
pub open spec fn first_delimiter_at(b: Seq<u8>, k: int) -> bool {
    &&& 0 <= k < b.len()
    &&& b[k] == KEY_DELIMITER
    &&& forall|i: int| 0 <= i < k ==> b[i] != KEY_DELIMITER
}

/// `b` holds no delimiter at all.
pub open spec fn has_no_delimiter(b: Seq<u8>) -> bool {
    forall|i: int| 0 <= i < b.len() ==> b[i] != KEY_DELIMITER
}

/// The bytes of a text made of ASCII characters.
pub open spec fn ascii_bytes(t: Seq<char>) -> Seq<u8> {
    t.map_values(|c: char| c as u8)
}

/// The device key algorithm names that are recognized.
pub open spec fn is_device_key_algorithm(name: Seq<u8>) -> bool {
    ||| name == ascii_bytes("ed25519"@)
    ||| name == ascii_bytes("curve25519"@)
    ||| name == ascii_bytes("signed_curve25519"@)
}

/// Whether `b[0..len]` equals `lit`.
fn prefix_equals(b: &[u8], len: usize, lit: &[u8]) -> (r: bool)
    requires
        len <= b@.len(),
    ensures
        r == (b@.subrange(0, len as int) == lit@),
{
    if len != lit.len() {
        proof {
            assert(b@.subrange(0, len as int).len() != lit@.len());
        }
        return false;
    }
    let mut i: usize = 0;
    while i < len
        invariant
            len == lit@.len(),
            len <= b@.len(),
            i <= len,
            forall|j: int| 0 <= j < i ==> b@[j] == lit@[j],
        decreases len - i,
    {
        if b[i] != lit[i] {
            proof {
                assert(b@.subrange(0, len as int)[i as int] != lit@[i as int]);
            }
            return false;
        }
        i = i + 1;
    }
    proof {
        assert(b@.subrange(0, len as int) =~= lit@);
    }
    true
}

/// Whether the first `len` bytes of `b` name a recognized device key algorithm.
pub fn is_known_algorithm(b: &[u8], len: usize) -> (r: bool)
    requires
        len <= b@.len(),
    ensures
        r == is_device_key_algorithm(b@.subrange(0, len as int)),
{
    let ed25519: [u8; 7] = ['e' as u8, 'd' as u8, '2' as u8, '5' as u8, '5' as u8, '1' as u8, '9' as u8];
    let curve25519: [u8; 10] = ['c' as u8, 'u' as u8, 'r' as u8, 'v' as u8, 'e' as u8, '2' as u8, '5' as u8, '5' as u8, '1' as u8, '9' as u8];
    let signed_curve25519: [u8; 17] = ['s' as u8, 'i' as u8, 'g' as u8, 'n' as u8, 'e' as u8, 'd' as u8, '_' as u8, 'c' as u8, 'u' as u8, 'r' as u8, 'v' as u8, 'e' as u8, '2' as u8, '5' as u8, '5' as u8, '1' as u8, '9' as u8];
    proof {
        reveal_strlit("ed25519");
        reveal_strlit("curve25519");
        reveal_strlit("signed_curve25519");
        assert(ed25519@ =~= ascii_bytes("ed25519"@));
        assert(curve25519@ =~= ascii_bytes("curve25519"@));
        assert(signed_curve25519@ =~= ascii_bytes("signed_curve25519"@));
    }
    prefix_equals(b, len, ed25519.as_slice())
        || prefix_equals(b, len, curve25519.as_slice())
        || prefix_equals(b, len, signed_curve25519.as_slice())
}

/// Validates a device key identifier of the form `<algorithm>:<key id>`.
///
/// On success, returns the byte offset of the first `:`, which is non-zero.
/// An empty algorithm name, one longer than 255 bytes, or one that is not
/// recognized gives `UnknownKeyAlgorithm`.
pub fn validate(s: &str) -> (r: Result<u8, Error>)
    ensures
        match r {
            Ok(k) => {
                &&& first_delimiter_at(s.spec_bytes(), k as int)
                &&& k > 0
                &&& is_device_key_algorithm(s.spec_bytes().subrange(0, k as int))
            },
            Err(Error::MissingKeyDelimiter) => has_no_delimiter(s.spec_bytes()),
            Err(Error::UnknownKeyAlgorithm) => exists|k: int|
                #![trigger first_delimiter_at(s.spec_bytes(), k)]
                {
                    &&& first_delimiter_at(s.spec_bytes(), k)
                    &&& (k == 0 || k > MAX_ALGORITHM_LEN
                        || !is_device_key_algorithm(s.spec_bytes().subrange(0, k)))
                },
            Err(_) => false,
        },
{
    let b = s.as_bytes();
    let mut i: usize = 0;
    while i < b.len()
        invariant
            b@ == s.spec_bytes(),
            i <= b@.len(),
            forall|j: int| 0 <= j < i ==> b@[j] != KEY_DELIMITER,
        decreases b@.len() - i,
    {
        if b[i] == KEY_DELIMITER {
            assert(first_delimiter_at(b@, i as int));
            if i == 0 || i > MAX_ALGORITHM_LEN || !is_known_algorithm(b, i) {
                return Err(Error::UnknownKeyAlgorithm);
            }
            return Ok(i as u8);
        }
        i = i + 1;
    }
    Err(Error::MissingKeyDelimiter)
}

} // verus!
