//! The identifier encoder: a canonical hex rendering of the Keccak-256
//! digest of an asset symbol.
use vstd::prelude::*;
use vstd::string::StringExecFns;

verus! {

/// The lowercase hex digit for a nibble value.
pub open spec fn hex_char(n: u8) -> char {
    if n == 0 {
        '0'
    } else if n == 1 {
        '1'
    } else if n == 2 {
        '2'
    } else if n == 3 {
        '3'
    } else if n == 4 {
        '4'
    } else if n == 5 {
        '5'
    } else if n == 6 {
        '6'
    } else if n == 7 {
        '7'
    } else if n == 8 {
        '8'
    } else if n == 9 {
        '9'
    } else if n == 10 {
        'a'
    } else if n == 11 {
        'b'
    } else if n == 12 {
        'c'
    } else if n == 13 {
        'd'
    } else if n == 14 {
        'e'
    } else {
        'f'
    }
}

/// Lowercase hex rendering of a byte sequence: two digits per byte,
/// high nibble first.
pub open spec fn hex_of(bytes: Seq<u8>) -> Seq<char> {
    Seq::new(
        2 * bytes.len(),
        |i: int|
            if i % 2 == 0 {
                hex_char(bytes[i / 2] / 16)
            } else {
                hex_char(bytes[i / 2] % 16)
            },
    )
}

/// The Keccak-256 digest of a symbol's UTF-8 bytes.
pub uninterp spec fn keccak256_of(s: Seq<char>) -> Seq<u8>;

/// The canonical encoded identifier of a symbol: `0x` followed by the
/// lowercase hex digest of the symbol's bytes.
pub open spec fn encoded_id_of(s: Seq<char>) -> Seq<char> {
    seq!['0', 'x'] + hex_of(keccak256_of(s))
}

/// Relies on tiny_keccak's Keccak-256 (`Keccak::v256`): the 32-byte digest
/// of the symbol's UTF-8 bytes, a function of the symbol alone.
#[verifier::external_body]
fn keccak256(s: &str) -> (r: Vec<u8>)
    ensures
        r@ == keccak256_of(s@),
        r@.len() == 32,
{
    let mut hasher = tiny_keccak::Keccak::v256();
    let mut output = [0u8; 32];
    tiny_keccak::Hasher::update(&mut hasher, s.as_bytes());
    tiny_keccak::Hasher::finalize(hasher, &mut output);
    output.to_vec()
}

/// Relies on hex::encode: lowercase hex, two digits per byte, high
/// nibble first.
#[verifier::external_body]
fn hex_encode(bytes: &Vec<u8>) -> (r: String)
    ensures
        r@ == hex_of(bytes@),
{
    hex::encode(bytes.as_slice())
}

/// A character the encoder may produce after the `0x` prefix: a decimal
/// digit or one of `a` through `f`.
pub open spec fn is_lower_hex_char(c: char) -> bool {
    (('0' as u32) <= (c as u32) && (c as u32) <= ('9' as u32)) || (('a' as u32) <= (c as u32) && (c
        as u32) <= ('f' as u32))
}

proof fn lemma_hex_char_is_lower_hex(n: u8)
    ensures
        is_lower_hex_char(hex_char(n)),
{
}

/// Encode an asset symbol: the Keccak-256 digest of its raw UTF-8 bytes,
/// rendered as 64 lowercase hex characters behind a `0x` prefix. Total and
/// deterministic: the result is a function of the symbol alone.
pub fn encode(symbol: &str) -> (r: String)
    ensures
        r@ == encoded_id_of(symbol@),
        r@.len() == 66,
        r@[0] == '0',
        r@[1] == 'x',
        forall|i: int| 2 <= i < 66 ==> is_lower_hex_char(#[trigger] r@[i]),
{
    let digest = keccak256(symbol);
    let digits = hex_encode(&digest);
    let r = String::from_str("0x").concat(digits.as_str());
    proof {
        reveal_strlit("0x");
        assert(("0x")@ =~= seq!['0', 'x']);
        assert(r@ =~= encoded_id_of(symbol@));
        assert forall|i: int| 2 <= i < 66 implies is_lower_hex_char(#[trigger] r@[i]) by {
            assert(r@[i] == hex_of(keccak256_of(symbol@))[i - 2]);
            if (i - 2) % 2 == 0 {
                lemma_hex_char_is_lower_hex(keccak256_of(symbol@)[(i - 2) / 2] / 16);
            } else {
                lemma_hex_char_is_lower_hex(keccak256_of(symbol@)[(i - 2) / 2] % 16);
            }
        }
    }
    r
}

/// The hex digits of two nibble values agree only if the values do.
proof fn lemma_hex_char_injective(n1: u8, n2: u8)
    requires
        n1 < 16,
        n2 < 16,
        hex_char(n1) == hex_char(n2),
    ensures
        n1 == n2,
{
}

/// Hex rendering is injective: equal renderings come from equal bytes.
pub proof fn lemma_hex_of_injective(b1: Seq<u8>, b2: Seq<u8>)
    requires
        hex_of(b1) == hex_of(b2),
    ensures
        b1 == b2,
{
    assert(hex_of(b1).len() == hex_of(b2).len());
    assert(hex_of(b1).len() == 2 * b1.len());
    assert(hex_of(b2).len() == 2 * b2.len());
    assert(b1.len() == b2.len());
    assert forall|k: int| 0 <= k < b1.len() implies b1[k] == b2[k] by {
        assert(0 <= 2 * k < hex_of(b1).len());
        assert(hex_of(b1)[2 * k] == hex_char(b1[k] / 16));
        assert(hex_of(b2)[2 * k] == hex_char(b2[k] / 16));
        assert(hex_of(b1)[2 * k + 1] == hex_char(b1[k] % 16));
        assert(hex_of(b2)[2 * k + 1] == hex_char(b2[k] % 16));
        lemma_hex_char_injective(b1[k] / 16, b2[k] / 16);
        lemma_hex_char_injective(b1[k] % 16, b2[k] % 16);
        assert(b1[k] == 16 * (b1[k] / 16) + (b1[k] % 16));
    }
    assert(b1 =~= b2);
}

/// Law: two symbols receive the same encoded identifier only if their
/// digests collide; the rendering itself never conflates distinct digests.
pub proof fn lemma_encoded_id_collision(s1: Seq<char>, s2: Seq<char>)
    requires
        encoded_id_of(s1) == encoded_id_of(s2),
    ensures
        keccak256_of(s1) == keccak256_of(s2),
{
    let prefix = seq!['0', 'x'];
    let h1 = hex_of(keccak256_of(s1));
    let h2 = hex_of(keccak256_of(s2));
    assert(prefix.len() == 2);
    assert(encoded_id_of(s1).len() == encoded_id_of(s2).len());
    assert(encoded_id_of(s1).len() == 2 + h1.len());
    assert(encoded_id_of(s2).len() == 2 + h2.len());
    assert(h1.len() == h2.len());
    assert(h1 =~= h2) by {
        assert forall|i: int| 0 <= i < h1.len() implies h1[i] == h2[i] by {
            assert((prefix + h1)[i + 2] == h1[i]);
            assert((prefix + h2)[i + 2] == h2[i]);
            assert(encoded_id_of(s1)[i + 2] == encoded_id_of(s2)[i + 2]);
        }
    }
    lemma_hex_of_injective(keccak256_of(s1), keccak256_of(s2));
}

} // verus!
