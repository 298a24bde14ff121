//! Decimal and hexadecimal renderings of integers.

use vstd::prelude::*;

verus! {

/// The lower-case hexadecimal digit for `d < 16` (decimal digits for `d < 10`).
pub open spec fn digit_char(d: nat) -> char {
    if d == 0 { '0' }
    else if d == 1 { '1' }
    else if d == 2 { '2' }
    else if d == 3 { '3' }
    else if d == 4 { '4' }
    else if d == 5 { '5' }
    else if d == 6 { '6' }
    else if d == 7 { '7' }
    else if d == 8 { '8' }
    else if d == 9 { '9' }
    else if d == 10 { 'a' }
    else if d == 11 { 'b' }
    else if d == 12 { 'c' }
    else if d == 13 { 'd' }
    else if d == 14 { 'e' }
    else { 'f' }
}

/// `x` in decimal, without leading zeros (`"0"` for zero).
pub open spec fn decimal(x: nat) -> Seq<char>
    decreases x,
{
    if x < 10 {
        seq![digit_char(x)]
    } else {
        decimal(x / 10) + seq![digit_char(x % 10)]
    }
}

/// The `k` low-order hexadecimal digits of `x`, most significant first,
/// padded with zeros.
pub open spec fn hex_digits(x: nat, k: nat) -> Seq<char>
    decreases k,
{
    if k == 0 {
        Seq::empty()
    } else {
        hex_digits(x / 16, (k - 1) as nat) + seq![digit_char(x % 16)]
    }
}

/// `c` is one of the decimal digits.
pub open spec fn is_digit(c: char) -> bool {
    c == '0' || c == '1' || c == '2' || c == '3' || c == '4' || c == '5' || c == '6' || c == '7'
        || c == '8' || c == '9'
}

/// `16` to the power `k`.
pub open spec fn pow16(k: nat) -> nat
    decreases k,
{
    if k == 0 { 1 } else { 16 * pow16((k - 1) as nat) }
}

/// Different digits are different characters.
pub proof fn lemma_digit_char_injective(a: nat, b: nat)
    requires
        a < 16,
        b < 16,
        digit_char(a) == digit_char(b),
    ensures
        a == b,
{
}

/// A decimal rendering is a non-empty string of digits.
pub proof fn lemma_decimal_digits(x: nat)
    ensures
        decimal(x).len() >= 1,
        forall|i: int| 0 <= i < decimal(x).len() ==> is_digit(#[trigger] decimal(x)[i]),
    decreases x,
{
    if x >= 10 {
        lemma_decimal_digits(x / 10);
    }
}

/// Different numbers have different decimal renderings.
pub proof fn lemma_decimal_injective(x: nat, y: nat)
    requires
        decimal(x) == decimal(y),
    ensures
        x == y,
    decreases x,
{
    if x < 10 && y < 10 {
        assert(decimal(x)[0] == digit_char(x));
        assert(decimal(y)[0] == digit_char(y));
        lemma_digit_char_injective(x, y);
    } else if x >= 10 && y >= 10 {
        lemma_decimal_digits(x / 10);
        lemma_decimal_digits(y / 10);
        assert(decimal(x).last() == digit_char(x % 10));
        assert(decimal(y).last() == digit_char(y % 10));
        lemma_digit_char_injective(x % 10, y % 10);
        assert(decimal(x).drop_last() =~= decimal(x / 10));
        assert(decimal(y).drop_last() =~= decimal(y / 10));
        lemma_decimal_injective(x / 10, y / 10);
    } else {
        lemma_decimal_digits(x / 10);
        lemma_decimal_digits(y / 10);
        if x < 10 {
            assert(decimal(x).len() == 1);
            assert(decimal(y).len() == decimal(y / 10).len() + 1);
        } else {
            assert(decimal(y).len() == 1);
            assert(decimal(x).len() == decimal(x / 10).len() + 1);
        }
    }
}

/// A hexadecimal rendering has exactly `k` characters, none of them `/`.
pub proof fn lemma_hex_digits_shape(x: nat, k: nat)
    ensures
        hex_digits(x, k).len() == k,
        forall|i: int| 0 <= i < k ==> #[trigger] hex_digits(x, k)[i] != '/',
    decreases k,
{
    if k > 0 {
        lemma_hex_digits_shape(x / 16, (k - 1) as nat);
    }
}

/// Numbers below `16^k` with the same `k` hexadecimal digits are equal.
pub proof fn lemma_hex_digits_injective(x: nat, y: nat, k: nat)
    requires
        hex_digits(x, k) == hex_digits(y, k),
        x < pow16(k),
        y < pow16(k),
    ensures
        x == y,
    decreases k,
{
    if k > 0 {
        let p = pow16((k - 1) as nat);
        lemma_hex_digits_shape(x / 16, (k - 1) as nat);
        lemma_hex_digits_shape(y / 16, (k - 1) as nat);
        assert(hex_digits(x, k).last() == digit_char(x % 16));
        assert(hex_digits(y, k).last() == digit_char(y % 16));
        lemma_digit_char_injective(x % 16, y % 16);
        assert(hex_digits(x, k).drop_last() =~= hex_digits(x / 16, (k - 1) as nat));
        assert(hex_digits(y, k).drop_last() =~= hex_digits(y / 16, (k - 1) as nat));
        assert(x / 16 < p && y / 16 < p) by (nonlinear_arith)
            requires
                x < 16 * p,
                y < 16 * p,
        ;
        lemma_hex_digits_injective(x / 16, y / 16, (k - 1) as nat);
    }
}

/// Two equal strings, each a part free of `stop` characters followed by a
/// part that starts with one, split into equal parts.
pub proof fn lemma_split_at_stop(a: Seq<char>, b: Seq<char>, c: Seq<char>, d: Seq<char>, stop: spec_fn(char) -> bool)
    requires
        a + b == c + d,
        forall|i: int| 0 <= i < a.len() ==> !stop(#[trigger] a[i]),
        forall|i: int| 0 <= i < c.len() ==> !stop(#[trigger] c[i]),
        b.len() > 0,
        stop(b[0]),
        d.len() > 0,
        stop(d[0]),
    ensures
        a == c,
        b == d,
{
    if a.len() < c.len() {
        assert((a + b)[a.len() as int] == b[0]);
        assert((c + d)[a.len() as int] == c[a.len() as int]);
    } else if c.len() < a.len() {
        assert((c + d)[c.len() as int] == d[0]);
        assert((a + b)[c.len() as int] == a[c.len() as int]);
    }
    assert(a =~= (a + b).subrange(0, a.len() as int));
    assert(c =~= (c + d).subrange(0, c.len() as int));
    assert(b =~= (a + b).subrange(a.len() as int, (a + b).len() as int));
    assert(d =~= (c + d).subrange(c.len() as int, (c + d).len() as int));
}

/// Equal strings with a common first part are equal after it.
pub proof fn lemma_strip_prefix(p: Seq<char>, x: Seq<char>, y: Seq<char>)
    requires
        p + x == p + y,
    ensures
        x == y,
{
    assert(x =~= (p + x).subrange(p.len() as int, (p + x).len() as int));
    assert(y =~= (p + y).subrange(p.len() as int, (p + y).len() as int));
}

/// Equal strings with a common last part are equal before it.
pub proof fn lemma_strip_suffix(x: Seq<char>, y: Seq<char>, q: Seq<char>)
    requires
        x + q == y + q,
    ensures
        x == y,
{
    assert(x =~= (x + q).subrange(0, x.len() as int));
    assert(y =~= (y + q).subrange(0, y.len() as int));
}

/// The one-character string for digit `d`.
pub fn digit_str(d: u64) -> (s: &'static str)
    requires
        d < 16,
    ensures
        s@ == seq![digit_char(d as nat)],
{
    match d {
        0 => { proof { reveal_strlit("0"); } "0" },
        1 => { proof { reveal_strlit("1"); } "1" },
        2 => { proof { reveal_strlit("2"); } "2" },
        3 => { proof { reveal_strlit("3"); } "3" },
        4 => { proof { reveal_strlit("4"); } "4" },
        5 => { proof { reveal_strlit("5"); } "5" },
        6 => { proof { reveal_strlit("6"); } "6" },
        7 => { proof { reveal_strlit("7"); } "7" },
        8 => { proof { reveal_strlit("8"); } "8" },
        9 => { proof { reveal_strlit("9"); } "9" },
        10 => { proof { reveal_strlit("a"); } "a" },
        11 => { proof { reveal_strlit("b"); } "b" },
        12 => { proof { reveal_strlit("c"); } "c" },
        13 => { proof { reveal_strlit("d"); } "d" },
        14 => { proof { reveal_strlit("e"); } "e" },
        _ => { proof { reveal_strlit("f"); } "f" },
    }
}

/// Append `x` in decimal.
pub fn push_decimal(s: &mut String, x: u64)
    ensures
        final(s)@ == old(s)@ + decimal(x as nat),
    decreases x,
{
    if x >= 10 {
        push_decimal(s, x / 10);
    }
    s.append(digit_str(x % 10));
    assert(final(s)@ =~= old(s)@ + decimal(x as nat));
}

/// Append the `k` low-order hexadecimal digits of `x`.
pub fn push_hex(s: &mut String, x: u64, k: usize)
    ensures
        final(s)@ == old(s)@ + hex_digits(x as nat, k as nat),
    decreases k,
{
    if k > 0 {
        push_hex(s, x / 16, k - 1);
        s.append(digit_str(x % 16));
        assert(final(s)@ =~= old(s)@ + hex_digits(x as nat, k as nat));
    }
}

} // verus!
