//! What holds of the codec for every identifier and every input.
use vstd::prelude::*;
use crate::numeral::{
    all_digits, be_value, digit_value, digits_value, is_digit, numeral, numeral_value, power,
    lemma_numeral_reads_back,
};
use crate::spotify_id::{hex_of_bytes, parse_id, raw_id, SpotifyId, SpotifyIdError};

verus! {

proof fn lemma_power_16_32()
    ensures
        power(16, 32) == 0x1_0000_0000_0000_0000_0000_0000_0000_0000nat,
{
    reveal_with_fuel(power, 33);
}

proof fn lemma_power_62_22()
    ensures
        power(62, 22) > u128::MAX,
{
    reveal_with_fuel(power, 23);
}

/// The base-16 form of an identifier has 32 characters and reads back as
/// the same identifier.
pub proof fn lemma_base16_round_trip(id: SpotifyId)
    ensures
        numeral(id.value() as nat, 16, 32).len() == 32,
        parse_id(numeral(id.value() as nat, 16, 32), 16) == Ok::<SpotifyId, SpotifyIdError>(id),
{
    let v = id.value() as nat;
    lemma_numeral_reads_back(v, 16, 32);
    lemma_power_16_32();
    vstd::arithmetic::div_mod::lemma_small_mod(v, power(16, 32));
}

/// The base-62 form of an identifier has 22 characters and reads back as
/// the same identifier.
pub proof fn lemma_base62_round_trip(id: SpotifyId)
    ensures
        numeral(id.value() as nat, 62, 22).len() == 22,
        parse_id(numeral(id.value() as nat, 62, 22), 62) == Ok::<SpotifyId, SpotifyIdError>(id),
{
    let v = id.value() as nat;
    lemma_numeral_reads_back(v, 62, 22);
    lemma_power_62_22();
    vstd::arithmetic::div_mod::lemma_small_mod(v, power(62, 22));
}

/// Sixteen bytes that are the big-endian form of an identifier read back as
/// that identifier.
pub proof fn lemma_raw_round_trip(id: SpotifyId, bytes: Seq<u8>)
    requires
        bytes.len() == 16,
        be_value(bytes) == id.value(),
    ensures
        raw_id(bytes) == Ok::<SpotifyId, SpotifyIdError>(id),
{
}

/// Text with a character outside the alphabet of its base is refused as
/// holding an invalid digit, whatever the other characters are.
pub proof fn lemma_invalid_digit(s: Seq<char>, i: int, base: nat)
    requires
        0 <= i < s.len(),
        !is_digit(s[i], base),
    ensures
        parse_id(s, base) == Err::<SpotifyId, SpotifyIdError>(SpotifyIdError::InvalidDigit),
{
    assert(!all_digits(s, base));
}

/// A binary form of any length but 16 is refused as a length mismatch.
pub proof fn lemma_raw_length_mismatch(bytes: Seq<u8>)
    requires
        bytes.len() != 16,
    ensures
        raw_id(bytes) == Err::<SpotifyId, SpotifyIdError>(SpotifyIdError::LengthMismatch),
{
}

/// The base-16 form of a byte sequence has two lower-case hex digits per
/// byte, and the two at each byte's place write that byte.
pub proof fn lemma_hex_of_bytes(b: Seq<u8>)
    ensures
        hex_of_bytes(b).len() == 2 * b.len(),
        all_digits(hex_of_bytes(b), 16),
        forall|i: int|
            0 <= i < b.len() ==> #[trigger] hex_of_bytes(b).subrange(2 * i, 2 * i + 2) == numeral(
                b[i] as nat,
                16,
                2,
            ),
        forall|i: int|
            0 <= i < b.len() ==> 16 * digit_value(#[trigger] hex_of_bytes(b)[2 * i]) + digit_value(
                hex_of_bytes(b)[2 * i + 1],
            ) == b[i],
    decreases b.len(),
{
    if b.len() > 0 {
        let t = b.drop_last();
        lemma_hex_of_bytes(t);
        let last = numeral(b.last() as nat, 16, 2);
        lemma_numeral_reads_back(b.last() as nat, 16, 2);
        let h = hex_of_bytes(b);
        assert(h == hex_of_bytes(t) + last);
        assert forall|i: int| 0 <= i < b.len() implies #[trigger] h.subrange(2 * i, 2 * i + 2)
            == numeral(b[i] as nat, 16, 2) && 16 * digit_value(h[2 * i]) + digit_value(
            h[2 * i + 1],
        ) == b[i] by {
            let p = h.subrange(2 * i, 2 * i + 2);
            if i < t.len() {
                assert(p =~= hex_of_bytes(t).subrange(2 * i, 2 * i + 2));
                assert(b[i] == t[i]);
            } else {
                assert(p =~= last);
            }
            lemma_numeral_reads_back(b[i] as nat, 16, 2);
            let n = numeral(b[i] as nat, 16, 2);
            assert(power(16, 2) == 256) by {
                reveal_with_fuel(power, 3);
            }
            assert(h[2 * i] == n[0] && h[2 * i + 1] == n[1]);
            let ds = n.map_values(|c: char| digit_value(c));
            assert(ds.len() == 2);
            assert(ds.drop_last().drop_last() =~= Seq::<int>::empty());
            assert(ds.drop_last().last() == ds[0]);
            assert(digits_value(ds.drop_last(), 16) == ds[0]);
            assert(digits_value(ds, 16) == ds[0] * 16 + ds[1]);
            vstd::arithmetic::div_mod::lemma_small_mod(b[i] as nat, 256);
            assert(numeral_value(n, 16) == b[i]);
        }
        assert forall|i: int| 0 <= i < b.len() implies 16 * digit_value(#[trigger] h[2 * i])
            + digit_value(h[2 * i + 1]) == b[i] by {
            assert(h.subrange(2 * i, 2 * i + 2) == numeral(b[i] as nat, 16, 2));
        }
        assert forall|j: int| 0 <= j < h.len() implies is_digit(#[trigger] h[j], 16) by {
            if j < hex_of_bytes(t).len() {
                assert(h[j] == hex_of_bytes(t)[j]);
            } else {
                assert(h[j] == last[j - hex_of_bytes(t).len()]);
            }
        }
    }
}

} // verus!
