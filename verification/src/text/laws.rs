//! Numbers written in digits read back as the numbers they are.
use vstd::prelude::*;

use crate::text::{
    decimal, digit, hex_byte, hex_digit, padded, signed, starts_with, ten_to, trimmed,
};

verus! {

/// Whether a character is a decimal digit.
pub open spec fn is_digit(c: char) -> bool {
    48 <= c as u32 <= 57
}

/// The number that digits spell, the most significant first.
pub open spec fn number_in(digits: Seq<char>) -> int
    decreases digits.len(),
{
    if digits.len() == 0 {
        0
    } else {
        10 * number_in(digits.drop_last()) + (digits.last() as u32 - 48)
    }
}

proof fn a_digit_is_its_number(d: nat)
    requires
        d < 10,
    ensures
        digit(d) as u32 == 48 + d,
        is_digit(digit(d)),
{
}

/// A number in decimal is digits that spell it, with no nought in front of
/// others.
pub proof fn decimal_spells_its_number(n: nat)
    ensures
        decimal(n).len() > 0,
        forall|i: int| 0 <= i < decimal(n).len() ==> is_digit(#[trigger] decimal(n)[i]),
        number_in(decimal(n)) == n,
        n > 0 ==> decimal(n)[0] != '0',
        n == 0 ==> decimal(n) == seq!['0'],
    decreases n,
{
    reveal_with_fuel(number_in, 2);
    if n < 10 {
        a_digit_is_its_number(n);
        assert(decimal(n).drop_last() =~= Seq::<char>::empty());
        assert(decimal(n).last() == digit(n));
        if n == 0 {
            assert(digit(0) == '0');
        } else {
            assert(digit(n) as u32 != '0' as u32);
        }
    } else {
        let front = decimal(n / 10);
        decimal_spells_its_number(n / 10);
        a_digit_is_its_number(n % 10);
        assert(decimal(n).drop_last() =~= front);
        assert(decimal(n).last() == digit(n % 10));
        assert forall|i: int| 0 <= i < decimal(n).len() implies is_digit(
            #[trigger] decimal(n)[i],
        ) by {
            if i < front.len() {
                assert(decimal(n)[i] == front[i]);
            }
        }
        assert(decimal(n)[0] == front[0]);
    }
}

/// Whether a text goes on with anything but a digit.
pub open spec fn no_digit_next(text: Seq<char>) -> bool {
    text.len() == 0 || !is_digit(text[0])
}

/// Numbers in front of texts that go on otherwise are read apart from them:
/// texts that are alike start with one number.
pub proof fn numbers_read_apart(a: nat, b: nat, x: Seq<char>, y: Seq<char>)
    requires
        decimal(a) + x == decimal(b) + y,
        no_digit_next(x),
        no_digit_next(y),
    ensures
        a == b,
        x == y,
{
    decimal_spells_its_number(a);
    decimal_spells_its_number(b);
    let (p, q) = (decimal(a), decimal(b));
    let whole = p + x;
    if p.len() < q.len() {
        assert(whole[p.len() as int] == x[0]);
        assert(whole[p.len() as int] == q[p.len() as int]);
    }
    if q.len() < p.len() {
        assert(whole[q.len() as int] == y[0]);
        assert(whole[q.len() as int] == p[q.len() as int]);
    }
    assert(p =~= whole.take(p.len() as int));
    assert(q =~= whole.take(p.len() as int));
    assert(x =~= whole.skip(p.len() as int));
    assert(y =~= whole.skip(p.len() as int));
}

/// Signed numbers in front of texts that go on otherwise are read apart from
/// them.
pub proof fn signed_numbers_read_apart(a: int, b: int, x: Seq<char>, y: Seq<char>)
    requires
        signed(a) + x == signed(b) + y,
        no_digit_next(x),
        no_digit_next(y),
    ensures
        a == b,
        x == y,
{
    signs_show(a);
    signs_show(b);
    let whole = signed(a) + x;
    assert(whole[0] == signed(a)[0]);
    assert(whole[0] == signed(b)[0]);
    if a < 0 {
        let (p, q) = (decimal((-a) as nat), decimal((-b) as nat));
        assert(whole.skip(1) =~= p + x);
        assert((signed(b) + y).skip(1) =~= q + y);
        numbers_read_apart((-a) as nat, (-b) as nat, x, y);
    } else {
        numbers_read_apart(a as nat, b as nat, x, y);
    }
}

/// A number below nought shows a sign and no other does; a digit follows.
pub proof fn signs_show(n: int)
    ensures
        signed(n).len() > 0,
        n < 0 <==> signed(n)[0] == '-',
        n >= 0 ==> is_digit(signed(n)[0]),
        n < 0 ==> signed(n).len() > 1 && is_digit(signed(n)[1]),
        n >= 0 ==> number_in(signed(n)) == n,
        n < 0 ==> number_in(signed(n).skip(1)) == -n,
{
    if n < 0 {
        decimal_spells_its_number((-n) as nat);
        assert(signed(n)[1] == decimal((-n) as nat)[0]);
        assert(signed(n).skip(1) =~= decimal((-n) as nat));
    } else {
        decimal_spells_its_number(n as nat);
    }
}

/// A padded number is as many digits as asked for, and spells what is left of
/// the number below that power of ten.
pub proof fn padded_spells_the_last_digits(n: nat, digits: nat)
    ensures
        padded(n, digits).len() == digits,
        number_in(padded(n, digits)) == n % ten_to(digits),
        ten_to(digits) > 0,
    decreases digits,
{
    if digits > 0 {
        let less = (digits - 1) as nat;
        padded_spells_the_last_digits(n / 10, less);
        a_digit_is_its_number(n % 10);
        let all = padded(n, digits);
        assert(all.drop_last() =~= padded(n / 10, less));
        assert(all.last() == digit(n % 10));
        let m = ten_to(less) as int;
        assert(10 * ((n as int / 10) % m) + n as int % 10 == n as int % (10 * m)) by (nonlinear_arith)
            requires
                m > 0,
                n >= 0,
        {
            let (q, r) = (n as int / 10, n as int % 10);
            let (s, t) = (q / m, q % m);
            assert(n as int == 10 * q + r);
            assert(q == m * s + t);
            assert(n as int == (10 * m) * s + (10 * t + r));
            assert(0 <= 10 * t + r < 10 * m);
            vstd::arithmetic::div_mod::lemma_fundamental_div_mod_converse(
                n as int,
                10 * m,
                s,
                10 * t + r,
            );
        }
    }
}

/// Trimming drops noughts from behind and nothing else.
pub proof fn trimming_drops_noughts(digits: Seq<char>)
    ensures
        trimmed(digits).len() <= digits.len(),
        trimmed(digits) == digits.take(trimmed(digits).len() as int),
        forall|i: int| trimmed(digits).len() <= i < digits.len() ==> #[trigger] digits[i] == '0',
        digits.len() > 0 ==> trimmed(digits).len() > 0,
        trimmed(digits).len() > 1 ==> trimmed(digits).last() != '0',
    decreases digits.len(),
{
    if digits.len() > 1 && digits.last() == '0' {
        let front = digits.drop_last();
        trimming_drops_noughts(front);
        assert(front.take(trimmed(front).len() as int) =~= digits.take(
            trimmed(front).len() as int,
        ));
        assert forall|i: int| trimmed(digits).len() <= i < digits.len() implies #[trigger] digits[i]
            == '0' by {
            if i < front.len() {
                assert(front[i] == digits[i]);
            }
        }
    } else {
        assert(digits.take(digits.len() as int) =~= digits);
    }
}

/// A byte in hexadecimal is four characters, and no other reads so.
pub proof fn bytes_read_apart(a: u8, b: u8)
    ensures
        hex_byte(a).len() == 4,
        hex_byte(a)[0] == '0',
        hex_byte(a)[1] == 'x',
        hex_byte(a) == hex_byte(b) ==> a == b,
        a / 16 < 10 ==> hex_byte(a)[2] as u32 == 48 + a / 16,
        a / 16 >= 10 ==> hex_byte(a)[2] as u32 == 'a' as u32 + (a / 16 - 10),
        a % 16 < 10 ==> hex_byte(a)[3] as u32 == 48 + a % 16,
        a % 16 >= 10 ==> hex_byte(a)[3] as u32 == 'a' as u32 + (a % 16 - 10),
{
    reveal_strlit("0x");
    hex_digits_differ((a / 16) as nat, (b / 16) as nat);
    hex_digits_differ((a % 16) as nat, (b % 16) as nat);
    assert(hex_byte(a)[2] == hex_digit((a / 16) as nat));
    assert(hex_byte(a)[3] == hex_digit((a % 16) as nat));
    assert(hex_byte(b)[2] == hex_digit((b / 16) as nat));
    assert(hex_byte(b)[3] == hex_digit((b % 16) as nat));
}

proof fn hex_digits_differ(a: nat, b: nat)
    requires
        a < 16,
        b < 16,
    ensures
        hex_digit(a) == hex_digit(b) ==> a == b,
        a < 10 ==> hex_digit(a) as u32 == 48 + a,
        a >= 10 ==> hex_digit(a) as u32 == 87 + a,
{
    assert(a < 10 ==> hex_digit(a) as u32 == 48 + a);
    assert(a >= 10 ==> hex_digit(a) as u32 == 87 + a);
    assert(b < 10 ==> hex_digit(b) as u32 == 48 + b);
    assert(b >= 10 ==> hex_digit(b) as u32 == 87 + b);
}

/// A text starts with another exactly if that other and something behind it
/// make it.
pub proof fn a_start_has_a_rest(text: Seq<char>, prefix: Seq<char>, rest: Seq<char>)
    ensures
        starts_with(prefix + rest, prefix),
        starts_with(text, prefix) ==> text == prefix + text.skip(prefix.len() as int),
{
    assert((prefix + rest).subrange(0, prefix.len() as int) =~= prefix);
    if starts_with(text, prefix) {
        assert(text =~= prefix + text.skip(prefix.len() as int)) by {
            assert(text =~= text.subrange(0, prefix.len() as int) + text.skip(
                prefix.len() as int,
            ));
        }
    }
}

} // verus!
