//! Fingerprints: the digest of a sequence of bytes, and its text.
use base64::Engine;
use std::hash::Hasher;
use vstd::arithmetic::power2::pow2;
use vstd::prelude::*;
use xxhash_rust::xxh3::Xxh3;

verus! {

/// The streaming hasher of `xxhash_rust`.
#[verifier::external_type_specification]
#[verifier::external_body]
pub struct ExXxh3(Xxh3);

/// The bytes that a hasher has been given so far.
pub uninterp spec fn hashed(hasher: Xxh3) -> Seq<u8>;

/// Whether a hasher has the seed zero and the default secret.
pub uninterp spec fn is_plain(hasher: Xxh3) -> bool;

/// The 64-bit XXH3 digest of a sequence of bytes, with the seed zero and the default
/// secret.
pub uninterp spec fn xxh3_64(bytes: Seq<u8>) -> u64;

/// `Xxh3::new` makes a hasher with the seed zero and the default secret that has been given
/// nothing.
pub assume_specification[ Xxh3::new ]() -> (r: Xxh3)
    ensures
        hashed(r) == Seq::<u8>::empty(),
        is_plain(r),
;

/// `Xxh3::update` gives the hasher more bytes, behind those it has, and leaves its seed and its
/// secret. How the bytes were cut into calls makes no difference to the digest, so one sequence
/// holds them all.
pub assume_specification[ Xxh3::update ](hasher: &mut Xxh3, input: &[u8])
    ensures
        hashed(*final(hasher)) == hashed(*old(hasher)) + input@,
        is_plain(*final(hasher)) == is_plain(*old(hasher)),
;

/// `Hasher::finish` of `Xxh3` is its `digest`: the XXH3 digest of all the bytes given, with the
/// seed and the secret of the hasher. With the seed zero and the default secret it is a function of
/// the bytes alone, and is named here.
#[verifier::external_body]
pub(crate) fn finish(hasher: &Xxh3) -> (r: u64)
    requires
        is_plain(*hasher),
    ensures
        r == xxh3_64(hashed(*hasher)),
{
    hasher.finish()
}

/// The character that stands for six bits in the standard base64 alphabet.
pub open spec fn base64_digit(v: u64) -> char {
    if v < 26 {
        ('A' as u64 + v) as char
    } else if v < 52 {
        ('a' as u64 + (v - 26)) as char
    } else if v < 62 {
        ('0' as u64 + (v - 52)) as char
    } else if v == 62 {
        '+'
    } else {
        '/'
    }
}

/// The `i`th group of six bits of a number, from its high end. The eleventh group has only four
/// bits left, and zeros below them.
pub open spec fn sextet(digest: u64, i: int) -> u64 {
    if i < 10 {
        (digest >> ((58 - 6 * i) as u64)) & 63
    } else {
        (digest & 15) << 2
    }
}

/// The base64 text of the eight bytes of a number, high byte first, without padding.
pub open spec fn digest_text(digest: u64) -> Seq<char> {
    Seq::new(11, |i: int| base64_digit(sextet(digest, i)))
}

/// `Engine::encode` of base64's `STANDARD_NO_PAD`, on the eight bytes of the number, high byte
/// first: one character of the standard alphabet for each six bits, the last four bits filled up
/// with zeros, and no padding.
#[verifier::external_body]
fn encode_digest(digest: u64) -> (r: String)
    ensures
        r@ == digest_text(digest),
{
    base64::engine::general_purpose::STANDARD_NO_PAD.encode(digest.to_be_bytes())
}

/// The text of a digest.
pub fn digest_id(digest: u64) -> (r: String)
    ensures
        r@ == digest_text(digest),
{
    encode_digest(digest)
}

/// Different numbers have different texts.
pub proof fn law_digest_text_tells_digests_apart(a: u64, b: u64)
    requires
        digest_text(a) == digest_text(b),
    ensures
        a == b,
{
    assert forall|i: int| 0 <= i < 11 implies sextet(a, i) == sextet(b, i) by {
        let x = sextet(a, i);
        let y = sextet(b, i);
        let s = (58 - 6 * i) as u64;
        assert((a >> s) & 63 < 64 && (b >> s) & 63 < 64) by (bit_vector);
        assert((a & 15) << 2 < 64 && (b & 15) << 2 < 64) by (bit_vector);
        assert(x < 64 && y < 64);
        assert(digest_text(a)[i] == base64_digit(x) && digest_text(b)[i] == base64_digit(y));
    }
    assert(sextet(a, 0) == sextet(b, 0) && sextet(a, 1) == sextet(b, 1) && sextet(a, 2) == sextet(
        b,
        2,
    ) && sextet(a, 3) == sextet(b, 3) && sextet(a, 4) == sextet(b, 4) && sextet(a, 5) == sextet(
        b,
        5,
    ) && sextet(a, 6) == sextet(b, 6) && sextet(a, 7) == sextet(b, 7) && sextet(a, 8) == sextet(
        b,
        8,
    ) && sextet(a, 9) == sextet(b, 9) && sextet(a, 10) == sextet(b, 10));
    assert(a == b) by (bit_vector)
        requires
            (a >> 58) & 63 == (b >> 58) & 63,
            (a >> 52) & 63 == (b >> 52) & 63,
            (a >> 46) & 63 == (b >> 46) & 63,
            (a >> 40) & 63 == (b >> 40) & 63,
            (a >> 34) & 63 == (b >> 34) & 63,
            (a >> 28) & 63 == (b >> 28) & 63,
            (a >> 22) & 63 == (b >> 22) & 63,
            (a >> 16) & 63 == (b >> 16) & 63,
            (a >> 10) & 63 == (b >> 10) & 63,
            (a >> 4) & 63 == (b >> 4) & 63,
            (a & 15) << 2 == (b & 15) << 2,
    ;
}

/// The text of a digest has one character of the standard alphabet for each six bits, from the high
/// end, and one for the last four with two zeros.
pub proof fn law_digest_text_is_base64(digest: u64, i: int)
    requires
        0 <= i < 11,
    ensures
        digest_text(digest).len() == 11,
        ({
            let alphabet = "ABCDEFGHIJKLMNOPQRSTUVWXYZabcdefghijklmnopqrstuvwxyz0123456789+/"@;
            digest_text(digest)[i] == if i < 10 {
                alphabet[(digest as nat / pow2((58 - 6 * i) as nat) % 64) as int]
            } else {
                alphabet[(digest as nat % 16 * 4) as int]
            }
        }),
{
    reveal_strlit("ABCDEFGHIJKLMNOPQRSTUVWXYZabcdefghijklmnopqrstuvwxyz0123456789+/");
    let alphabet = "ABCDEFGHIJKLMNOPQRSTUVWXYZabcdefghijklmnopqrstuvwxyz0123456789+/"@;
    let v = sextet(digest, i);
    if i < 10 {
        let s = (58 - 6 * i) as u64;
        vstd::bits::lemma_u64_shr_is_div(digest, s);
        let q = digest >> s;
        assert(q & 63 == q % 64) by (bit_vector);
        assert(v == digest as nat / pow2(s as nat) % 64);
    } else {
        assert((digest & 15) << 2 == digest % 16 * 4) by (bit_vector);
    }
    assert(v < 64);
    assert(base64_digit(v) == alphabet[v as int]);
}

}
