//! Fixed-width decimal numerals for the snapshot text format: the digit
//! string of a number, the value of a digit string, and verified printing and
//! parsing of 20-digit fields (20 decimal digits hold every 64-bit value).

use vstd::prelude::*;

verus! {

/// Width of every numeric field in the snapshot text format.
pub const NUM_WIDTH: usize = 20;

/// The character for a single decimal digit.
pub open spec fn digit_char(d: nat) -> char {
    if d == 0 { '0' }
    else if d == 1 { '1' }
    else if d == 2 { '2' }
    else if d == 3 { '3' }
    else if d == 4 { '4' }
    else if d == 5 { '5' }
    else if d == 6 { '6' }
    else if d == 7 { '7' }
    else if d == 8 { '8' }
    else { '9' }
}

/// The value of a decimal digit character; 10 marks a non-digit.
pub open spec fn char_digit(c: char) -> nat {
    if c == '0' { 0 }
    else if c == '1' { 1 }
    else if c == '2' { 2 }
    else if c == '3' { 3 }
    else if c == '4' { 4 }
    else if c == '5' { 5 }
    else if c == '6' { 6 }
    else if c == '7' { 7 }
    else if c == '8' { 8 }
    else if c == '9' { 9 }
    else { 10 }
}

pub open spec fn is_digit_char(c: char) -> bool {
    char_digit(c) < 10
}

pub open spec fn all_digits(ds: Seq<char>) -> bool {
    forall|i: int| 0 <= i < ds.len() ==> is_digit_char(#[trigger] ds[i])
}

/// The `w`-digit decimal numeral of `n` (most significant digit first,
/// padded with zeros; digits of `n` beyond the width are dropped).
pub open spec fn fixed_digits(n: nat, w: nat) -> Seq<char>
    decreases w,
{
    if w == 0 {
        Seq::empty()
    } else {
        fixed_digits(n / 10, (w - 1) as nat).push(digit_char(n % 10))
    }
}

/// The number a digit string denotes.
pub open spec fn digits_val(ds: Seq<char>) -> nat
    decreases ds.len(),
{
    if ds.len() == 0 {
        0
    } else {
        digits_val(ds.drop_last()) * 10 + char_digit(ds.last())
    }
}

pub open spec fn pow10(w: nat) -> nat
    decreases w,
{
    if w == 0 {
        1
    } else {
        10 * pow10((w - 1) as nat)
    }
}

pub proof fn lemma_digit_char_inverse(d: nat)
    requires
        d < 10,
    ensures
        char_digit(digit_char(d)) == d,
        is_digit_char(digit_char(d)),
{
}

pub proof fn lemma_pow10_pos(w: nat)
    ensures
        pow10(w) >= 1,
    decreases w,
{
    if w > 0 {
        lemma_pow10_pos((w - 1) as nat);
    }
}

pub proof fn lemma_pow10_mono(a: nat, b: nat)
    requires
        a <= b,
    ensures
        pow10(a) <= pow10(b),
    decreases b,
{
    if a < b {
        lemma_pow10_mono(a, (b - 1) as nat);
        lemma_pow10_pos((b - 1) as nat);
    }
}

pub proof fn lemma_pow10_num_width()
    ensures
        pow10(20) == 100_000_000_000_000_000_000,
        pow10(19) == 10_000_000_000_000_000_000,
{
    assert(pow10(0) == 1);
    assert(pow10(1) == 10);
    assert(pow10(2) == 100);
    assert(pow10(3) == 1000);
    assert(pow10(4) == 10_000);
    assert(pow10(5) == 100_000);
    assert(pow10(6) == 1_000_000);
    assert(pow10(7) == 10_000_000);
    assert(pow10(8) == 100_000_000);
    assert(pow10(9) == 1_000_000_000);
    assert(pow10(10) == 10_000_000_000);
    assert(pow10(11) == 100_000_000_000);
    assert(pow10(12) == 1_000_000_000_000);
    assert(pow10(13) == 10_000_000_000_000);
    assert(pow10(14) == 100_000_000_000_000);
    assert(pow10(15) == 1_000_000_000_000_000);
    assert(pow10(16) == 10_000_000_000_000_000);
    assert(pow10(17) == 100_000_000_000_000_000);
    assert(pow10(18) == 1_000_000_000_000_000_000);
    assert(pow10(19) == 10_000_000_000_000_000_000);
    assert(pow10(20) == 100_000_000_000_000_000_000);
}

pub proof fn lemma_fixed_digits_props(n: nat, w: nat)
    ensures
        fixed_digits(n, w).len() == w,
        all_digits(fixed_digits(n, w)),
    decreases w,
{
    if w > 0 {
        lemma_fixed_digits_props(n / 10, (w - 1) as nat);
        lemma_digit_char_inverse(n % 10);
        let ds = fixed_digits(n, w);
        let prefix = fixed_digits(n / 10, (w - 1) as nat);
        assert forall|i: int| 0 <= i < ds.len() implies is_digit_char(#[trigger] ds[i]) by {
            if i < w - 1 {
                assert(ds[i] == prefix[i]);
            }
        }
    }
}

/// Printing then valuing is the identity on numbers that fit the width.
pub proof fn lemma_fixed_digits_val(n: nat, w: nat)
    requires
        n < pow10(w),
    ensures
        digits_val(fixed_digits(n, w)) == n,
    decreases w,
{
    if w == 0 {
    } else {
        assert(n / 10 < pow10((w - 1) as nat)) by (nonlinear_arith)
            requires n < 10 * pow10((w - 1) as nat),
        {};
        lemma_fixed_digits_val(n / 10, (w - 1) as nat);
        lemma_digit_char_inverse(n % 10);
        let ds = fixed_digits(n, w);
        assert(ds.drop_last() =~= fixed_digits(n / 10, (w - 1) as nat));
        assert(digits_val(ds) == (n / 10) * 10 + n % 10);
    }
}

/// Leading zeros do not change the value a digit string denotes.
pub proof fn lemma_digits_val_leading_zeros(ds: Seq<char>, z: int)
    requires
        0 <= z <= ds.len(),
        forall|k: int| 0 <= k < z ==> #[trigger] ds[k] == '0',
    ensures
        digits_val(ds.skip(z)) == digits_val(ds),
    decreases ds.len(),
{
    if ds.len() == 0 || z == 0 {
        assert(ds.skip(0) =~= ds);
    } else if z == ds.len() {
        assert forall|k: int| 0 <= k < z - 1 implies #[trigger] ds.drop_last()[k] == '0' by {
            assert(ds.drop_last()[k] == ds[k]);
        }
        lemma_digits_val_leading_zeros(ds.drop_last(), z - 1);
        assert(ds.drop_last().skip(z - 1) =~= Seq::<char>::empty());
        assert(ds.skip(z) =~= Seq::<char>::empty());
        assert(ds.last() == '0');
    } else {
        assert forall|k: int| 0 <= k < z implies #[trigger] ds.drop_last()[k] == '0' by {
            assert(ds.drop_last()[k] == ds[k]);
        }
        lemma_digits_val_leading_zeros(ds.drop_last(), z);
        assert(ds.skip(z).drop_last() =~= ds.drop_last().skip(z));
        assert(ds.skip(z).last() == ds.last());
    }
}

/// What a 20-digit numeric field at the head of `cs` parses to: its value,
/// and the rest of the input — or nothing, if the input is too short, holds a
/// non-digit, or denotes a value over `u64::MAX`.
pub open spec fn parse_number(cs: Seq<char>) -> Option<(nat, Seq<char>)> {
    if cs.len() >= 20 && all_digits(cs.take(20)) && digits_val(cs.take(20)) <= u64::MAX {
        Some((digits_val(cs.take(20)), cs.skip(20)))
    } else {
        None
    }
}

/// A printed 64-bit value parses back to itself, whatever follows it.
pub proof fn lemma_parse_number_inverts(n: nat, rest: Seq<char>)
    requires
        n <= u64::MAX,
    ensures
        parse_number(fixed_digits(n, 20) + rest) == Some((n, rest)),
{
    lemma_fixed_digits_props(n, 20);
    lemma_pow10_num_width();
    lemma_fixed_digits_val(n, 20);
    let cs = fixed_digits(n, 20) + rest;
    assert(cs.take(20) =~= fixed_digits(n, 20));
    assert(cs.skip(20) =~= rest);
}

/// The character for one decimal digit.
pub fn digit_to_char(d: u8) -> (c: char)
    requires
        d < 10,
    ensures
        c == digit_char(d as nat),
{
    if d == 0 { '0' }
    else if d == 1 { '1' }
    else if d == 2 { '2' }
    else if d == 3 { '3' }
    else if d == 4 { '4' }
    else if d == 5 { '5' }
    else if d == 6 { '6' }
    else if d == 7 { '7' }
    else if d == 8 { '8' }
    else { '9' }
}

/// The value of one decimal digit character, if it is one.
pub fn char_to_digit(c: char) -> (r: Option<u8>)
    ensures
        r matches Some(d) ==> d < 10 && d as nat == char_digit(c),
        r is Some <==> is_digit_char(c),
{
    if c == '0' { Some(0) }
    else if c == '1' { Some(1) }
    else if c == '2' { Some(2) }
    else if c == '3' { Some(3) }
    else if c == '4' { Some(4) }
    else if c == '5' { Some(5) }
    else if c == '6' { Some(6) }
    else if c == '7' { Some(7) }
    else if c == '8' { Some(8) }
    else if c == '9' { Some(9) }
    else { None }
}

/// Append the 20-digit decimal numeral of `n` (low 20 digits of its value).
pub fn push_fixed(out: &mut Vec<char>, n: u128, w: usize)
    ensures
        final(out)@ == old(out)@ + fixed_digits(n as nat, w as nat),
    decreases w,
{
    if w == 0 {
        proof {
            assert(out@ =~= out@ + fixed_digits(n as nat, 0));
        }
        return;
    }
    push_fixed(out, n / 10, w - 1);
    let d: u8 = (n % 10) as u8;
    out.push(digit_to_char(d));
    proof {
        assert((n % 10) as nat == (n as nat) % 10);
        assert((n / 10) as nat == (n as nat) / 10);
        assert(out@ =~= old(out)@ + fixed_digits(n as nat, w as nat));
    }
}

/// Parse the 20-digit numeric field at position `i`, exactly as
/// `parse_number` reads the suffix of the input starting there.
#[verifier::loop_isolation(false)]
pub fn parse_number_at(v: &Vec<char>, i: usize) -> (r: Option<u64>)
    requires
        i <= v@.len(),
    ensures
        r is Some <==> parse_number(v@.skip(i as int)) is Some,
        r is Some ==> i + 20 <= v@.len(),
        r matches Some(n) ==> parse_number(v@.skip(i as int))
            == Some((n as nat, v@.skip(i as int + 20))),
{
    proof {
        lemma_pow10_num_width();
    }
    if v.len() - i < 20 {
        return None;
    }
    let ghost cs = v@.skip(i as int);
    proof {
        assert(cs.take(20) =~= v@.subrange(i as int, i as int + 20));
        assert(cs.skip(20) =~= v@.skip(i as int + 20));
    }
    let mut acc: u128 = 0;
    let mut j: usize = 0;
    while j < 20
        invariant
            0 <= j <= 20,
            i + 20 <= v@.len(),
            all_digits(v@.subrange(i as int, i as int + j)),
            acc == digits_val(v@.subrange(i as int, i as int + j)),
            acc < pow10(j as nat),
        decreases 20 - j,
    {
        let ghost pre = v@.subrange(i as int, i as int + j);
        let c = v[i + j];
        let d: u8 = match char_to_digit(c) {
            Some(d) => d,
            None => {
                proof {
                    assert(cs.take(20)[j as int] == c);
                    assert(!all_digits(cs.take(20)));
                }
                return None;
            },
        };
        proof {
            lemma_pow10_mono((j + 1) as nat, 20);
            assert(acc * 10 + d < pow10((j + 1) as nat));
        }
        acc = acc * 10 + (d as u128);
        j += 1;
        proof {
            let cur = v@.subrange(i as int, i as int + j);
            assert(cur.drop_last() =~= pre);
            assert(cur.last() == c);
            assert(acc == digits_val(cur));
            assert forall|k: int| 0 <= k < cur.len()
                implies is_digit_char(#[trigger] cur[k]) by {
                if k < cur.len() - 1 {
                    assert(cur[k] == pre[k]);
                }
            }
        }
    }
    proof {
        assert(v@.subrange(i as int, i as int + 20) =~= cs.take(20));
    }
    if acc > u64::MAX as u128 {
        None
    } else {
        Some(acc as u64)
    }
}

} // verus!
