//! Positional numerals: digit alphabet, values of digit sequences, and the
//! facts about them that the identifier codec relies on.
use vstd::prelude::*;
use vstd::arithmetic::div_mod::{lemma_div_denominator, lemma_mod_breakdown, lemma_small_mod};

verus! {

/// The digit alphabet, ordered by digit value: `0-9`, then `a-z`, then `A-Z`.
/// The base-16 alphabet is its first sixteen characters.
pub const DIGITS: &'static str = "0123456789abcdefghijklmnopqrstuvwxyzABCDEFGHIJKLMNOPQRSTUVWXYZ";

/// Value of a character as a digit, or -1 for a character outside the alphabet.
pub open spec fn digit_value(c: char) -> int {
    if '0' <= c && c <= '9' {
        c as int - '0' as int
    } else if 'a' <= c && c <= 'z' {
        c as int - 'a' as int + 10
    } else if 'A' <= c && c <= 'Z' {
        c as int - 'A' as int + 36
    } else {
        -1
    }
}

/// `c` is a digit of the given base.
pub open spec fn is_digit(c: char, base: nat) -> bool {
    0 <= digit_value(c) < base
}

/// Every character of `s` is a digit of the given base.
pub open spec fn all_digits(s: Seq<char>, base: nat) -> bool {
    forall|i: int| 0 <= i < s.len() ==> is_digit(#[trigger] s[i], base)
}

/// `base` to the power `e`.
pub open spec fn power(base: nat, e: nat) -> nat
    decreases e,
{
    if e == 0 {
        1
    } else {
        base * power(base, (e - 1) as nat)
    }
}

/// Value of a sequence of digit values, most significant first.
pub open spec fn digits_value(ds: Seq<int>, base: nat) -> int
    decreases ds.len(),
{
    if ds.len() == 0 {
        0
    } else {
        digits_value(ds.drop_last(), base) * base + ds.last()
    }
}

/// Value of the text `s` read as a numeral in `base`, most significant digit first.
pub open spec fn numeral_value(s: Seq<char>, base: nat) -> int {
    digits_value(s.map_values(|c: char| digit_value(c)), base)
}

/// Value of the bytes `b` read as a big-endian number.
pub open spec fn be_value(b: Seq<u8>) -> int {
    digits_value(b.map_values(|x: u8| x as int), 256)
}

/// Digit of `v` at position `j` of a `width`-digit numeral in `base`
/// (position 0 holds the most significant digit).
pub open spec fn digit_at(v: nat, base: nat, width: nat, j: int) -> nat {
    (v / power(base, (width - 1 - j) as nat)) % base
}

/// The character that writes the digit value `d`.
pub open spec fn digit_char(d: int) -> char {
    DIGITS@[d]
}

/// The `width`-digit numeral of `v` in `base`, padded on the left with `'0'`.
pub open spec fn numeral(v: nat, base: nat, width: nat) -> Seq<char> {
    Seq::new(width, |j: int| digit_char(digit_at(v, base, width, j) as int))
}

/// The alphabet holds 62 ASCII characters, and each one's position is its digit value.
pub proof fn lemma_alphabet()
    ensures
        DIGITS@.len() == 62,
        vstd::string::is_ascii(DIGITS),
        forall|d: int| 0 <= d < 62 ==> digit_value(#[trigger] DIGITS@[d]) == d,
        forall|c: char| 0 <= digit_value(c) < 62 ==> DIGITS@[digit_value(c)] == c,
{
    reveal_strlit("0123456789abcdefghijklmnopqrstuvwxyzABCDEFGHIJKLMNOPQRSTUVWXYZ");
}

pub proof fn lemma_power_positive(base: nat, e: nat)
    requires
        base > 0,
    ensures
        power(base, e) > 0,
    decreases e,
{
    if e > 0 {
        lemma_power_positive(base, (e - 1) as nat);
        assert(base * power(base, (e - 1) as nat) > 0) by (nonlinear_arith)
            requires
                base > 0,
                power(base, (e - 1) as nat) > 0,
        ;
    }
}

/// A value with all digits non-negative is non-negative.
pub proof fn lemma_digits_value_nonneg(ds: Seq<int>, base: nat)
    requires
        forall|i: int| 0 <= i < ds.len() ==> ds[i] >= 0,
    ensures
        digits_value(ds, base) >= 0,
    decreases ds.len(),
{
    if ds.len() > 0 {
        lemma_digits_value_nonneg(ds.drop_last(), base);
        let p = digits_value(ds.drop_last(), base);
        assert(p * base >= 0) by (nonlinear_arith)
            requires
                p >= 0,
        ;
    }
}

/// Value of a concatenation of digit sequences.
pub proof fn lemma_digits_value_append(a: Seq<int>, b: Seq<int>, base: nat)
    ensures
        digits_value(a + b, base) == digits_value(a, base) * power(base, b.len())
            + digits_value(b, base),
    decreases b.len(),
{
    if b.len() == 0 {
        assert(a + b =~= a);
        assert(digits_value(a, base) * 1 == digits_value(a, base));
    } else {
        let b0 = b.drop_last();
        assert((a + b).drop_last() =~= a + b0);
        lemma_digits_value_append(a, b0, base);
        let va = digits_value(a, base);
        let vb0 = digits_value(b0, base);
        let p = power(base, b0.len());
        assert(power(base, b.len()) == base * p);
        assert((a + b).last() == b.last());
        assert(digits_value(a + b, base) == digits_value(a + b0, base) * base + b.last());
        assert(digits_value(b, base) == vb0 * base + b.last());
        assert((va * p + vb0) * base + b.last() == va * (base * p) + (vb0 * base + b.last()))
            by (nonlinear_arith);
    }
}

/// A prefix of a digit sequence is worth no more than the whole.
pub proof fn lemma_digits_value_prefix(ds: Seq<int>, k: int, base: nat)
    requires
        base > 0,
        0 <= k <= ds.len(),
        forall|i: int| 0 <= i < ds.len() ==> ds[i] >= 0,
    ensures
        digits_value(ds.subrange(0, k), base) <= digits_value(ds, base),
{
    let a = ds.subrange(0, k);
    let b = ds.subrange(k, ds.len() as int);
    assert(ds =~= a + b);
    lemma_digits_value_append(a, b, base);
    lemma_digits_value_nonneg(a, base);
    lemma_digits_value_nonneg(b, base);
    lemma_power_positive(base, b.len());
    let va = digits_value(a, base);
    let p = power(base, b.len());
    assert(va * p >= va) by (nonlinear_arith)
        requires
            va >= 0,
            p >= 1,
    ;
}

/// Digits taken from `v` by `digit_at` are worth `v` modulo the numeral's range.
pub proof fn lemma_digits_value_of_digits(ds: Seq<int>, v: nat, base: nat)
    requires
        base >= 2,
        forall|j: int| 0 <= j < ds.len() ==> #[trigger] ds[j] == digit_at(v, base, ds.len(), j),
    ensures
        digits_value(ds, base) == v % power(base, ds.len()),
    decreases ds.len(),
{
    let w = ds.len();
    if w == 0 {
        lemma_small_mod(0, 1);
        assert(v % 1 == 0) by (nonlinear_arith);
    } else {
        let t = ds.drop_last();
        let q = v / base;
        assert forall|j: int| 0 <= j < t.len() implies #[trigger] t[j] == digit_at(
            q,
            base,
            t.len(),
            j,
        ) by {
            let e = (w - 2 - j) as nat;
            lemma_power_positive(base, e);
            lemma_div_denominator(v as int, base as int, power(base, e) as int);
            assert(power(base, (w - 1 - j) as nat) == base * power(base, e));
        }
        lemma_digits_value_of_digits(t, q, base);
        assert(ds.last() == digit_at(v, base, w, w - 1));
        assert(power(base, 0) == 1);
        assert(v / 1 == v) by (nonlinear_arith);
        lemma_power_positive(base, (w - 1) as nat);
        lemma_mod_breakdown(v as int, base as int, power(base, (w - 1) as nat) as int);
        assert(power(base, w) == base * power(base, (w - 1) as nat));
        let tv = q % power(base, (w - 1) as nat);
        assert(tv * base == base * tv) by (nonlinear_arith);
    }
}

/// The `width`-digit numeral of `v` is made of digits of `base` and reads
/// back as `v` modulo the numeral's range.
pub proof fn lemma_numeral_reads_back(v: nat, base: nat, width: nat)
    requires
        2 <= base <= 62,
    ensures
        numeral(v, base, width).len() == width,
        all_digits(numeral(v, base, width), base),
        numeral_value(numeral(v, base, width), base) == v % power(base, width),
{
    lemma_alphabet();
    let s = numeral(v, base, width);
    let ds = s.map_values(|c: char| digit_value(c));
    assert forall|j: int| 0 <= j < width implies #[trigger] ds[j] == digit_at(v, base, width, j)
        && is_digit(s[j], base) by {
        let d = digit_at(v, base, width, j);
        assert(d < base);
        assert(digit_value(DIGITS@[d as int]) == d);
    }
    lemma_digits_value_of_digits(ds, v, base);
}

} // verus!
