//! Catalog identifiers (128-bit values) and content identifiers (20 bytes),
//! with their textual and binary forms.
use vstd::prelude::*;
use vstd::slice::slice_subrange;
use byteorder::{BigEndian, ByteOrder};
use crate::numeral::{
    all_digits, be_value, digit_at, digit_value, is_digit, numeral, numeral_value, power, DIGITS,
    lemma_alphabet, lemma_digits_value_append, lemma_digits_value_prefix, lemma_power_positive,
};
use vstd::arithmetic::div_mod::lemma_div_denominator;
use vstd::arithmetic::power::{lemma_pow_adds, lemma_pow_positive};
use vstd::arithmetic::power2::{lemma2_to64, pow2};
use vstd::bits::lemma_u128_shr_is_div;

verus! {

/// Width of the base-16 form of a catalog identifier.
pub const BASE16_WIDTH: usize = 32;

/// Width of the base-62 form of a catalog identifier.
pub const BASE62_WIDTH: usize = 22;

/// Why a catalog identifier could not be built.
#[derive(Debug, Clone, Copy, PartialEq, Eq, Structural)]
pub enum SpotifyIdError {
    /// The text holds a character outside the alphabet of its base.
    InvalidDigit,
    /// The binary form is not exactly 16 bytes long.
    LengthMismatch,
    /// The text stands for a value of more than 128 bits.
    Overflow,
}

/// A catalog identifier: a 128-bit unsigned value.
#[derive(Debug, Clone, Copy, PartialEq, Eq, Hash, Structural)]
pub struct SpotifyId(pub u128);

/// A content identifier: 20 opaque bytes.
#[derive(Debug, Clone, Copy, PartialEq, Eq, Hash)]
pub struct FileId(pub [u8; 20]);

impl SpotifyId {
    /// The identifier's numeric value.
    pub open spec fn value(self) -> u128 {
        self.0
    }
}

/// What reading `s` as a numeral in `base` gives: every character must be a
/// digit of `base`, and the value must fit in 128 bits.
pub open spec fn parse_numeral(s: Seq<char>, base: nat) -> Result<u128, SpotifyIdError> {
    if !all_digits(s, base) {
        Err(SpotifyIdError::InvalidDigit)
    } else if numeral_value(s, base) > u128::MAX {
        Err(SpotifyIdError::Overflow)
    } else {
        Ok(numeral_value(s, base) as u128)
    }
}

/// The identifier, or the error, that reading `s` in `base` gives.
pub open spec fn parse_id(s: Seq<char>, base: nat) -> Result<SpotifyId, SpotifyIdError> {
    match parse_numeral(s, base) {
        Ok(v) => Ok(SpotifyId(v)),
        Err(e) => Err(e),
    }
}

/// The identifier, or the error, that the binary form `b` gives.
pub open spec fn raw_id(b: Seq<u8>) -> Result<SpotifyId, SpotifyIdError> {
    if b.len() != 16 {
        Err(SpotifyIdError::LengthMismatch)
    } else {
        Ok(SpotifyId(be_value(b) as u128))
    }
}

/// Lower-case base-16 text of `b`: two digits per byte, bytes in order.
pub open spec fn hex_of_bytes(b: Seq<u8>) -> Seq<char>
    decreases b.len(),
{
    if b.len() == 0 {
        Seq::empty()
    } else {
        hex_of_bytes(b.drop_last()) + numeral(b.last() as nat, 16, 2)
    }
}

/// Relies on byteorder's `BigEndian::read_u64`: the first eight bytes of
/// `buf`, read most significant first.
#[verifier::external_body]
fn read_be_u64(buf: &[u8]) -> (r: u64)
    requires
        buf@.len() >= 8,
    ensures
        r == be_value(buf@.subrange(0, 8)),
{
    BigEndian::read_u64(buf)
}

/// Relies on byteorder's `BigEndian::write_u64`: the eight bytes of `n`,
/// most significant first.
#[verifier::external_body]
fn write_be_u64(n: u64) -> (r: [u8; 8])
    ensures
        be_value(r@) == n,
{
    let mut buf = [0u8; 8];
    BigEndian::write_u64(&mut buf, n);
    buf
}

proof fn lemma_power_16_is_pow2(k: nat)
    ensures
        power(16, k) == pow2(4 * k),
    decreases k,
{
    lemma2_to64();
    if k > 0 {
        lemma_power_16_is_pow2((k - 1) as nat);
        let e = (4 * (k - 1)) as nat;
        lemma_pow_adds(2, e, 4);
        lemma_pow_positive(2, e);
        lemma_pow_positive(2, 4);
        assert(e + 4 == 4 * k);
        assert(pow2(4 * k) == pow2(e) * pow2(4));
    }
}

/// The base-16 digit that a shift and a mask take from `v` is the one that
/// `digit_at` describes.
proof fn lemma_hex_digit(v: u128, k: nat)
    requires
        k < 32,
    ensures
        ((v >> (4 * k) as u128) & 0xf) as nat == (v as nat / power(16, k)) % 16,
{
    let sh = (4 * k) as u128;
    lemma_u128_shr_is_div(v, sh);
    lemma_power_16_is_pow2(k);
    let y = v >> sh;
    assert(y & 0xf == y % 16) by (bit_vector);
}

/// The digit of the given base that `c` writes, if any.
fn digit_of(c: char, base: u128) -> (r: Option<u128>)
    requires
        base <= 62,
    ensures
        r is Some <==> is_digit(c, base as nat),
        r matches Some(d) ==> d == digit_value(c),
{
    proof {
        lemma_alphabet();
    }
    let mut k: usize = 0;
    while k < base as usize
        invariant
            k <= base <= 62,
            DIGITS@.len() == 62,
            forall|j: int| 0 <= j < k ==> DIGITS@[j] != c,
        decreases base - k,
    {
        if DIGITS.get_char(k) == c {
            proof {
                lemma_alphabet();
            }
            return Some(k as u128);
        }
        k += 1;
    }
    proof {
        if is_digit(c, base as nat) {
            assert(DIGITS@[digit_value(c)] == c);
        }
    }
    None
}

/// Reads `id` as a numeral in `base`, most significant digit first.
fn parse_numeral_exec(id: &str, base: u128) -> (r: Result<u128, SpotifyIdError>)
    requires
        2 <= base <= 62,
    ensures
        r == parse_numeral(id@, base as nat),
{
    let len = id.unicode_len();
    let mut i: usize = 0;
    while i < len
        invariant
            len == id@.len(),
            i <= len,
            2 <= base <= 62,
            forall|j: int| 0 <= j < i ==> is_digit(#[trigger] id@[j], base as nat),
        decreases len - i,
    {
        if digit_of(id.get_char(i), base).is_none() {
            return Err(SpotifyIdError::InvalidDigit);
        }
        i += 1;
    }
    assert(all_digits(id@, base as nat));
    let ghost ds = id@.map_values(|c: char| digit_value(c));
    let mut n: u128 = 0;
    i = 0;
    while i < len
        invariant
            len == id@.len() == ds.len(),
            i <= len,
            2 <= base <= 62,
            all_digits(id@, base as nat),
            ds == id@.map_values(|c: char| digit_value(c)),
            n == numeral_value(id@.subrange(0, i as int), base as nat),
        decreases len - i,
    {
        let ghost prefix = id@.subrange(0, i as int);
        let ghost next = id@.subrange(0, i + 1);
        proof {
            assert(next.map_values(|c: char| digit_value(c)).drop_last() =~= prefix.map_values(
                |c: char| digit_value(c),
            ));
            assert(next.map_values(|c: char| digit_value(c)) =~= ds.subrange(0, i + 1));
            assert(is_digit(id@[i as int], base as nat));
            assert forall|j: int| 0 <= j < ds.len() implies ds[j] >= 0 by {
                assert(is_digit(id@[j], base as nat));
            }
            lemma_digits_value_prefix(ds, i + 1, base as nat);
        }
        let d = match digit_of(id.get_char(i), base) {
            Some(d) => d,
            None => {
                return Err(SpotifyIdError::InvalidDigit);
            },
        };
        let m = match n.checked_mul(base) {
            Some(m) => m,
            None => {
                return Err(SpotifyIdError::Overflow);
            },
        };
        n = match m.checked_add(d) {
            Some(x) => x,
            None => {
                return Err(SpotifyIdError::Overflow);
            },
        };
        i += 1;
    }
    assert(id@.subrange(0, len as int) =~= id@);
    Ok(n)
}

/// Writes `v` as a `width`-digit numeral in `base`, padded with `'0'`.
fn render_numeral(v: u128, base: u128, width: usize) -> (r: String)
    requires
        2 <= base <= 62,
    ensures
        r@ == numeral(v as nat, base as nat, width as nat),
{
    proof {
        lemma_alphabet();
    }
    let ghost target = numeral(v as nat, base as nat, width as nat);
    let mut buf: Vec<usize> = vec![0usize; width];
    let mut n: u128 = v;
    let mut i: usize = 0;
    assert(n == v as nat / power(base as nat, 0)) by {
        assert(v as nat / 1 == v) by (nonlinear_arith);
    }
    while i < width
        invariant
            buf@.len() == width,
            i <= width,
            2 <= base <= 62,
            n == v as nat / power(base as nat, i as nat),
            forall|p: int|
                width - i <= p < width ==> #[trigger] buf@[p] == digit_at(
                    v as nat,
                    base as nat,
                    width as nat,
                    p,
                ),
        decreases width - i,
    {
        proof {
            lemma_power_positive(base as nat, i as nat);
            lemma_div_denominator(
                v as int,
                power(base as nat, i as nat) as int,
                base as int,
            );
            assert(power(base as nat, (i + 1) as nat) == base * power(base as nat, i as nat));
        }
        buf.set(width - 1 - i, (n % base) as usize);
        n = n / base;
        i += 1;
    }
    let mut s = String::new();
    let mut j: usize = 0;
    while j < width
        invariant
            buf@.len() == width,
            j <= width,
            2 <= base <= 62,
            DIGITS@.len() == 62,
            vstd::string::is_ascii(DIGITS),
            target == numeral(v as nat, base as nat, width as nat),
            forall|p: int|
                0 <= p < width ==> #[trigger] buf@[p] == digit_at(
                    v as nat,
                    base as nat,
                    width as nat,
                    p,
                ),
            s@ == target.subrange(0, j as int),
        decreases width - j,
    {
        let d = buf[j];
        assert(d < base);
        s.append(DIGITS.substring_ascii(d, d + 1));
        assert(s@ =~= target.subrange(0, j + 1));
        j += 1;
    }
    assert(s@ =~= target);
    s
}

impl SpotifyId {
    /// Reads a catalog identifier from base-16 text (`0-9a-f`, most
    /// significant digit first).
    pub fn from_base16(id: &str) -> (r: Result<SpotifyId, SpotifyIdError>)
        ensures
            r == parse_id(id@, 16),
    {
        match parse_numeral_exec(id, 16) {
            Ok(v) => Ok(SpotifyId(v)),
            Err(e) => Err(e),
        }
    }

    /// Reads a catalog identifier from base-62 text (`0-9a-zA-Z`, most
    /// significant digit first).
    pub fn from_base62(id: &str) -> (r: Result<SpotifyId, SpotifyIdError>)
        ensures
            r == parse_id(id@, 62),
    {
        match parse_numeral_exec(id, 62) {
            Ok(v) => Ok(SpotifyId(v)),
            Err(e) => Err(e),
        }
    }

    /// Reads a catalog identifier from its 16-byte big-endian form.
    pub fn from_raw(data: &[u8]) -> (r: Result<SpotifyId, SpotifyIdError>)
        ensures
            r == raw_id(data@),
    {
        if data.len() != 16 {
            return Err(SpotifyIdError::LengthMismatch);
        }
        let high = read_be_u64(data);
        let low_bytes = slice_subrange(data, 8, 16);
        let low = read_be_u64(low_bytes);
        let ghost hb = data@.subrange(0, 8);
        let ghost lb = data@.subrange(8, 16);
        proof {
            let f = |x: u8| x as int;
            assert(low_bytes@.subrange(0, 8) =~= lb);
            assert(data@.map_values(f) =~= hb.map_values(f) + lb.map_values(f));
            lemma_digits_value_append(hb.map_values(f), lb.map_values(f), 256);
            assert(power(256, 8) == 0x1_0000_0000_0000_0000nat) by {
                reveal_with_fuel(power, 9);
            }
        }
        assert(high as nat * 0x1_0000_0000_0000_0000nat + low as nat <= u128::MAX) by (nonlinear_arith)
            requires
                high <= u64::MAX,
                low <= u64::MAX,
        ;
        let v: u128 = (high as u128) * 0x1_0000_0000_0000_0000u128 + (low as u128);
        Ok(SpotifyId(v))
    }

    /// The 32-character base-16 form, lower case, padded with `'0'`.
    pub fn to_base16(&self) -> (r: String)
        ensures
            r@ == numeral(self.value() as nat, 16, 32),
    {
        proof {
            lemma_alphabet();
        }
        let ghost target = numeral(self.0 as nat, 16, 32);
        let mut s = String::new();
        let mut i: usize = 0;
        while i < BASE16_WIDTH
            invariant
                i <= BASE16_WIDTH == 32,
                DIGITS@.len() == 62,
                vstd::string::is_ascii(DIGITS),
                target == numeral(self.0 as nat, 16, 32),
                s@ == target.subrange(0, i as int),
            decreases BASE16_WIDTH - i,
        {
            let shift: u128 = 4 * (31 - i as u128);
            let d = ((self.0 >> shift) & 0xf) as usize;
            proof {
                lemma_hex_digit(self.0, (31 - i) as nat);
            }
            s.append(DIGITS.substring_ascii(d, d + 1));
            assert(s@ =~= target.subrange(0, i + 1));
            i += 1;
        }
        assert(s@ =~= target);
        s
    }

    /// The 22-character base-62 form, padded with `'0'`.
    pub fn to_base62(&self) -> (r: String)
        ensures
            r@ == numeral(self.value() as nat, 62, 22),
    {
        render_numeral(self.0, 62, BASE62_WIDTH)
    }

    /// The 16-byte big-endian form: the high 64 bits, then the low 64 bits.
    pub fn to_raw(&self) -> (r: [u8; 16])
        ensures
            be_value(r@) == self.value(),
    {
        let n = self.0;
        let high = write_be_u64((n / 0x1_0000_0000_0000_0000u128) as u64);
        let low = write_be_u64((n % 0x1_0000_0000_0000_0000u128) as u64);
        let mut data = [0u8; 16];
        let mut i: usize = 0;
        while i < 8
            invariant
                i <= 8,
                forall|p: int| 0 <= p < i ==> data@[p] == high@[p] && data@[p + 8] == low@[p],
            decreases 8 - i,
        {
            data[i] = high[i];
            data[i + 8] = low[i];
            i += 1;
        }
        proof {
            let f = |x: u8| x as int;
            assert(data@.map_values(f) =~= high@.map_values(f) + low@.map_values(f));
            lemma_digits_value_append(high@.map_values(f), low@.map_values(f), 256);
            assert(power(256, 8) == 0x1_0000_0000_0000_0000nat) by {
                reveal_with_fuel(power, 9);
            }
        }
        data
    }
}

impl FileId {
    /// The 40-character lower-case base-16 form: two digits per byte, in order.
    pub fn to_base16(&self) -> (r: String)
        ensures
            r@ == hex_of_bytes(self.0@),
    {
        let mut s = String::new();
        let mut i: usize = 0;
        while i < 20
            invariant
                i <= 20,
                s@ == hex_of_bytes(self.0@.subrange(0, i as int)),
            decreases 20 - i,
        {
            let pair = render_numeral(self.0[i] as u128, 16, 2);
            s.append(pair.as_str());
            proof {
                assert(self.0@.subrange(0, i + 1).drop_last() =~= self.0@.subrange(0, i as int));
            }
            i += 1;
        }
        assert(self.0@.subrange(0, 20) =~= self.0@);
        s
    }
}

} // verus!
