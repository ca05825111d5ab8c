//! Times, as frames write them and as the graph keeps them.
//!
//! A time is a count of ticks, of which there are a thousand million in one
//! unit of the number that a frame gives. A frame gives a time as a whole
//! number, or as a decimal with digits on both sides of the point. Of the
//! digits after the point the first nine count.

use crate::value::{Numeric, NumericView};
use vstd::prelude::*;
use vstd::string::*;
use vstd::utf8::is_ascii_chars;

verus! {

/// The ticks in one unit.
pub const TICKS: u128 = 1_000_000_000;

/// The digits after the point that count.
pub const PLACES: usize = 9;

pub open spec fn is_digit(c: char) -> bool {
    '0' <= c <= '9'
}

/// What a digit counts.
pub open spec fn digit_value(c: char) -> nat {
    (c as u32 - '0' as u32) as nat
}

pub open spec fn all_digits(s: Seq<char>) -> bool {
    forall|i: int| 0 <= i < s.len() ==> is_digit(#[trigger] s[i])
}

/// The number that digits write.
pub open spec fn number(s: Seq<char>) -> nat
    decreases s.len(),
{
    if s.len() == 0 {
        0
    } else {
        number(s.drop_last()) * 10 + digit_value(s.last())
    }
}

/// The number that the first `count` digits write, noughts standing in for
/// digits that are not there.
pub open spec fn gathered(s: Seq<char>, count: nat) -> nat
    decreases count,
{
    if count == 0 {
        0
    } else {
        gathered(s, (count - 1) as nat) * 10 + if count - 1 < s.len() {
            digit_value(s[count - 1])
        } else {
            0
        }
    }
}

/// The text is a decimal with its point at `at`: digits, the point, digits.
pub open spec fn decimal_at(s: Seq<char>, at: int) -> bool {
    &&& 0 < at < s.len() - 1
    &&& all_digits(s.take(at))
    &&& s[at] == '.'
    &&& all_digits(s.skip(at + 1))
}

/// The ticks that a decimal counts, where the text is one and the count is
/// not too large to hold.
pub open spec fn decimal_ticks(s: Seq<char>) -> Option<u128> {
    if exists|at: int| decimal_at(s, at) {
        let at = choose|at: int| decimal_at(s, at);
        let ticks = number(s.take(at)) * TICKS + gathered(s.skip(at + 1), PLACES as nat);
        if ticks <= u128::MAX {
            Some(ticks as u128)
        } else {
            None
        }
    } else {
        None
    }
}

/// The ticks that a number counts: a whole number that is not negative counts
/// its units, a literal counts as a decimal, anything else counts nothing.
pub open spec fn ticks_of(number: NumericView) -> Option<u128> {
    match number {
        NumericView::Unsigned(units) => Some((units * TICKS) as u128),
        NumericView::Signed(units) => if units >= 0 {
            Some((units * TICKS) as u128)
        } else {
            None
        },
        NumericView::Real(literal) => decimal_ticks(literal),
    }
}

fn digit_of(c: char) -> (value: Option<u8>)
    ensures
        value.is_some() == is_digit(c),
        value.is_some() ==> value.unwrap() == digit_value(c),
{
    if '0' <= c && c <= '9' {
        Some((c as u32 - '0' as u32) as u8)
    } else {
        None
    }
}

/// The most units whose ticks can be counted at all.
pub const MOST_UNITS: u128 = 340282366920938463463374607431;

/// Ten to the power of `places`.
pub open spec fn ten_to(places: nat) -> nat
    decreases places,
{
    if places == 0 {
        1
    } else {
        ten_to((places - 1) as nat) * 10
    }
}

proof fn lemma_ten_to_places()
    ensures
        ten_to(PLACES as nat) == TICKS,
{
    reveal_with_fuel(ten_to, 10);
}

proof fn lemma_ten_to_bounded(places: nat)
    requires
        places <= PLACES,
    ensures
        ten_to(places) <= TICKS,
{
    reveal_with_fuel(ten_to, 10);
}

/// A longer row of digits writes a number that is no smaller.
proof fn lemma_number_grows(s: Seq<char>, shorter: int)
    requires
        0 <= shorter <= s.len(),
    ensures
        number(s.take(shorter)) <= number(s),
    decreases s.len() - shorter,
{
    if shorter < s.len() {
        lemma_number_grows(s.drop_last(), shorter);
        assert(s.drop_last().take(shorter) =~= s.take(shorter));
    } else {
        assert(s.take(shorter) =~= s);
    }
}

/// What the first digits write depends on those digits alone.
proof fn lemma_gathered_prefix(a: Seq<char>, b: Seq<char>, count: nat)
    requires
        count <= a.len(),
        count <= b.len(),
        forall|i: int| 0 <= i < count ==> a[i] == b[i],
    ensures
        gathered(a, count) == gathered(b, count),
    decreases count,
{
    if count > 0 {
        lemma_gathered_prefix(a, b, (count - 1) as nat);
    }
}

/// Where all the digits are gathered, they write their number, which is
/// below the power of ten of their count.
proof fn lemma_gathered_all(s: Seq<char>, count: nat)
    requires
        count <= s.len(),
        all_digits(s),
    ensures
        gathered(s, count) == number(s.take(count as int)),
        gathered(s, count) < ten_to(count),
    decreases count,
{
    if count > 0 {
        lemma_gathered_all(s, (count - 1) as nat);
        let longer = s.take(count as int);
        assert(longer.drop_last() =~= s.take(count - 1));
        assert(longer.last() == s[count - 1]);
        assert(is_digit(s[count - 1]));
    } else {
        assert(s.take(0).len() == 0);
    }
}

/// A decimal has its point in one place only.
proof fn lemma_one_point(s: Seq<char>, at: int, other: int)
    requires
        decimal_at(s, at),
        decimal_at(s, other),
    ensures
        at == other,
{
    if at < other {
        assert(s.take(other)[at] == s[at]);
        assert(is_digit(s.take(other)[at]));
    } else if other < at {
        assert(s.take(at)[other] == s[other]);
        assert(is_digit(s.take(at)[other]));
    }
}

/// A text is no decimal where, before any point, it holds a character that is
/// neither a digit nor a point, or starts with a point; nor where, after its
/// first point, it holds anything but digits, or nothing at all.
proof fn lemma_no_decimal(s: Seq<char>, bad: int, point: int)
    requires
        0 <= bad < s.len(),
        point < bad || point == s.len(),
        0 <= point,
        forall|i: int| 0 <= i < bad && i != point ==> is_digit(#[trigger] s[i]),
        point < bad ==> s[point] == '.',
        !is_digit(s[bad]),
        point == s.len() ==> (s[bad] != '.' || bad == 0),
    ensures
        forall|at: int| !decimal_at(s, at),
{
    assert forall|at: int| !decimal_at(s, at) by {
        if decimal_at(s, at) {
            if point < bad {
                if at < point {
                    assert(is_digit(s[at]));
                } else if at == point {
                    assert(s.skip(at + 1)[bad - at - 1] == s[bad]);
                } else {
                    assert(s.take(at)[point] == s[point]);
                }
            } else {
                if at < bad {
                    assert(is_digit(s[at]));
                } else if at > bad {
                    assert(s.take(at)[bad] == s[bad]);
                }
            }
        }
    }
}

/// Reads the ticks that a decimal counts.
pub fn read_decimal(literal: &str) -> (ticks: Option<u128>)
    ensures
        ticks == decimal_ticks(literal@),
{
    let length = literal.unicode_len();
    let mut at: usize = 0;
    let mut point: usize = length;
    let mut units: u128 = 0;
    let mut parts: u128 = 0;
    let mut taken: usize = 0;
    let ghost s = literal@;
    proof {
        assert(s.take(0).len() == 0);
        lemma_ten_to_places();
    }
    for c in it: literal.chars()
        invariant
            at == it.index(),
            it.seq() == s,
            s == literal@,
            length == s.len(),
            at <= length,
            point < at || point == length,
            forall|i: int| 0 <= i < at && i != point ==> is_digit(#[trigger] s[i]),
            point < at ==> s[point as int] == '.' && 0 < point,
            units <= MOST_UNITS,
            point == length ==> units == number(s.take(at as int)),
            point < at ==> units == number(s.take(point as int)),
            taken <= PLACES,
            point == length ==> taken == 0 && parts == 0,
            point < at ==> taken == if at - point - 1 < PLACES {
                (at - point - 1) as usize
            } else {
                PLACES
            },
            point < at ==> parts == gathered(s.subrange(point + 1, at as int), taken as nat),
            parts < ten_to(taken as nat),
            ten_to(PLACES as nat) == TICKS,
    {
        let digit = digit_of(c);
        proof {
            let longer = s.take(at + 1);
            assert(longer.drop_last() =~= s.take(at as int));
            assert(longer.last() == c);
        }
        if point == length {
            if c == '.' {
                if at == 0 {
                    proof {
                        lemma_no_decimal(s, 0, length as int);
                    }
                    return None;
                }
                point = at;
                proof {
                    assert(s.subrange(point + 1, at + 1).len() == 0);
                    assert(s.take(at as int) =~= s.take(point as int));
                }
            } else {
                match digit {
                    Some(value) => {
                        let ghost before = units;
                        if units > (MOST_UNITS - value as u128) / 10 {
                            proof {
                                assert(number(s.take(at + 1)) > MOST_UNITS);
                                assert forall|cut: int| decimal_at(s, cut) implies number(
                                    s.take(cut),
                                ) * TICKS + gathered(s.skip(cut + 1), PLACES as nat)
                                    > u128::MAX by {
                                    if cut <= at {
                                        assert(is_digit(s[cut]));
                                    }
                                    lemma_number_grows(s.take(cut), at + 1);
                                    assert(s.take(cut).take(at + 1) =~= s.take(at + 1));
                                    assert(number(s.take(cut)) * TICKS >= (MOST_UNITS + 1) * TICKS)
                                        by (nonlinear_arith)
                                        requires
                                            number(s.take(cut)) >= MOST_UNITS + 1,
                                            TICKS == 1_000_000_000,
                                    ;
                                }
                            }
                            return None;
                        }
                        units = units * 10 + value as u128;
                    },
                    None => {
                        proof {
                            lemma_no_decimal(s, at as int, length as int);
                        }
                        return None;
                    },
                }
            }
        } else {
            match digit {
                Some(value) => {
                    proof {
                        let shorter = s.subrange(point + 1, at as int);
                        let longer = s.subrange(point + 1, at + 1);
                        lemma_gathered_prefix(shorter, longer, taken as nat);
                        assert(longer[at - point - 1] == c);
                    }
                    if taken < PLACES {
                        proof {
                            lemma_ten_to_bounded(taken as nat);
                        }
                        parts = parts * 10 + value as u128;
                        taken = taken + 1;
                    }
                },
                None => {
                    proof {
                        lemma_no_decimal(s, at as int, point as int);
                    }
                    return None;
                },
            }
        }
        at = at + 1;
    }
    if point == length {
        proof {
            assert forall|cut: int| !decimal_at(s, cut) by {
                if decimal_at(s, cut) {
                    assert(is_digit(s[cut]));
                }
            }
        }
        return None;
    }
    if point + 1 == length {
        proof {
            assert forall|cut: int| !decimal_at(s, cut) by {
                if decimal_at(s, cut) {
                    if cut < point {
                        assert(is_digit(s[cut]));
                    } else if cut > point {
                        assert(s.take(cut)[point as int] == s[point as int]);
                    }
                }
            }
        }
        return None;
    }
    let ghost fraction = s.skip(point + 1);
    proof {
        assert(s.subrange(point + 1, at as int) =~= fraction);
        assert(all_digits(s.take(point as int)));
        assert(all_digits(fraction)) by {
            assert forall|i: int| 0 <= i < fraction.len() implies is_digit(#[trigger] fraction[i]) by {
                assert(fraction[i] == s[point + 1 + i]);
            }
        }
        assert(decimal_at(s, point as int));
    }
    while taken < PLACES
        invariant
            taken <= PLACES,
            fraction.len() <= taken || taken == PLACES,
            parts == gathered(fraction, taken as nat),
            parts < ten_to(taken as nat),
            ten_to(PLACES as nat) == TICKS,
        decreases PLACES - taken,
    {
        proof {
            lemma_ten_to_bounded(taken as nat);
        }
        parts = parts * 10;
        taken = taken + 1;
    }
    proof {
        let chosen = choose|cut: int| decimal_at(s, cut);
        lemma_one_point(s, point as int, chosen);
        assert(units * TICKS <= MOST_UNITS * TICKS) by (nonlinear_arith)
            requires
                units <= MOST_UNITS,
                TICKS == 1_000_000_000,
        ;
    }
    let whole = units * TICKS;
    if parts > u128::MAX - whole {
        None
    } else {
        Some(whole + parts)
    }
}

/// Reads the ticks that a number counts.
pub fn read_ticks(number: &Numeric) -> (ticks: Option<u128>)
    ensures
        ticks == ticks_of(number@),
{
    match number {
        Numeric::Unsigned(units) => Some(*units as u128 * TICKS),
        Numeric::Signed(units) => if *units >= 0 {
            Some(*units as u128 * TICKS)
        } else {
            None
        },
        Numeric::Real(literal) => read_decimal(literal.as_str()),
    }
}

/// The digit that counts `value`.
pub open spec fn digit_char(value: nat) -> char {
    "0123456789"@[value as int]
}

/// A number in digits, without noughts in front.
pub open spec fn decimal(n: nat) -> Seq<char>
    decreases n,
{
    if n < 10 {
        seq![digit_char(n)]
    } else {
        decimal(n / 10).push(digit_char(n % 10))
    }
}

/// The last `places` digits of a number, with noughts in front where the
/// number has fewer.
pub open spec fn fixed(n: nat, places: nat) -> Seq<char>
    decreases places,
{
    if places == 0 {
        Seq::empty()
    } else {
        fixed(n / 10, (places - 1) as nat).push(digit_char(n % 10))
    }
}

/// A count of ticks as a number: whole where it is a count of whole units
/// that a whole number can hold, else the units, a point and the ticks of
/// the last unit in nine digits.
pub open spec fn ticks_written(ticks: u128) -> NumericView {
    let units = ticks / TICKS;
    let parts = ticks % TICKS;
    if parts == 0 && units <= u64::MAX {
        NumericView::Unsigned(units as u64)
    } else {
        NumericView::Real(decimal(units as nat) + seq!['.'] + fixed(parts as nat, PLACES as nat))
    }
}

proof fn lemma_digit_char(value: nat)
    requires
        value < 10,
    ensures
        is_digit(digit_char(value)),
        digit_value(digit_char(value)) == value,
        "0123456789"@.len() == 10,
        is_ascii_chars("0123456789"@),
{
    reveal_strlit("0123456789");
}

proof fn lemma_decimal(n: nat)
    ensures
        decimal(n).len() >= 1,
        all_digits(decimal(n)),
        number(decimal(n)) == n,
    decreases n,
{
    lemma_digit_char(n % 10);
    if n < 10 {
        let text = decimal(n);
        assert(text.drop_last().len() == 0);
        assert(number(text.drop_last()) == 0);
    } else {
        lemma_decimal(n / 10);
        let text = decimal(n);
        assert(text.drop_last() =~= decimal(n / 10));
        assert forall|i: int| 0 <= i < text.len() implies is_digit(#[trigger] text[i]) by {
            if i < text.len() - 1 {
                assert(text[i] == decimal(n / 10)[i]);
            }
        }
    }
}

proof fn lemma_fixed(n: nat, places: nat)
    ensures
        fixed(n, places).len() == places,
        all_digits(fixed(n, places)),
        number(fixed(n, places)) == n % ten_to(places),
    decreases places,
{
    if places > 0 {
        lemma_digit_char(n % 10);
        lemma_fixed(n / 10, (places - 1) as nat);
        let text = fixed(n, places);
        let power = ten_to((places - 1) as nat);
        assert(text.drop_last() =~= fixed(n / 10, (places - 1) as nat));
        assert forall|i: int| 0 <= i < text.len() implies is_digit(#[trigger] text[i]) by {
            if i < text.len() - 1 {
                assert(text[i] == fixed(n / 10, (places - 1) as nat)[i]);
            }
        }
        lemma_ten_to_positive((places - 1) as nat);
        vstd::arithmetic::div_mod::lemma_breakdown(n as int, 10, power as int);
        assert(10 * (((n as int) / 10) % (power as int)) == (((n as int) / 10) % (power as int)) * 10);
        assert(10 * (power as int) == (power as int) * 10);
    } else {
        assert(fixed(n, places).len() == 0);
    }
}

proof fn lemma_ten_to_positive(places: nat)
    ensures
        ten_to(places) > 0,
    decreases places,
{
    if places > 0 {
        lemma_ten_to_positive((places - 1) as nat);
    }
}

/// A count of ticks written as a number and read again is the count.
pub proof fn law_ticks_round_trip(ticks: u128)
    ensures
        ticks_of(ticks_written(ticks)) == Some(ticks),
{
    let units = (ticks / TICKS) as nat;
    let parts = (ticks % TICKS) as nat;
    if !(parts == 0 && units <= u64::MAX) {
        let whole = decimal(units);
        let fraction = fixed(parts, PLACES as nat);
        let text = whole + seq!['.'] + fraction;
        let at = whole.len() as int;
        lemma_decimal(units);
        lemma_fixed(parts, PLACES as nat);
        lemma_ten_to_places();
        assert(text.take(at) =~= whole);
        assert(text.skip(at + 1) =~= fraction);
        assert(text[at] == '.');
        assert(decimal_at(text, at));
        let chosen = choose|cut: int| decimal_at(text, cut);
        lemma_one_point(text, at, chosen);
        lemma_gathered_all(fraction, PLACES as nat);
        assert(fraction.take(PLACES as int) =~= fraction);
    }
}

/// Adds the digits of a number to a text.
fn append_decimal(text: &mut String, n: u128)
    ensures
        final(text)@ == old(text)@ + decimal(n as nat),
    decreases n,
{
    proof {
        lemma_digit_char((n % 10) as nat);
    }
    if n >= 10 {
        append_decimal(text, n / 10);
    }
    let last = (n % 10) as usize;
    let piece = "0123456789".substring_ascii(last, last + 1);
    let ghost so_far = text@;
    text.append(piece);
    proof {
        assert(piece@ =~= seq![digit_char((n % 10) as nat)]);
        if n >= 10 {
            assert(text@ =~= old(text)@ + decimal((n / 10) as nat).push(
                digit_char((n % 10) as nat),
            ));
        } else {
            assert(text@ =~= old(text)@ + seq![digit_char(n as nat)]);
        }
    }
}

/// Adds the last `places` digits of a number to a text.
fn append_fixed(text: &mut String, n: u128, places: usize)
    ensures
        final(text)@ == old(text)@ + fixed(n as nat, places as nat),
    decreases places,
{
    if places > 0 {
        proof {
            lemma_digit_char((n % 10) as nat);
        }
        append_fixed(text, n / 10, places - 1);
        let last = (n % 10) as usize;
        let piece = "0123456789".substring_ascii(last, last + 1);
        text.append(piece);
        proof {
            assert(piece@ =~= seq![digit_char((n % 10) as nat)]);
            assert(text@ =~= old(text)@ + fixed((n / 10) as nat, (places - 1) as nat).push(
                digit_char((n % 10) as nat),
            ));
        }
    } else {
        assert(text@ =~= old(text)@ + fixed(n as nat, 0));
    }
}

/// Writes a count of ticks as a number.
pub fn write_ticks(ticks: u128) -> (number: Numeric)
    ensures
        number@ == ticks_written(ticks),
{
    let units = ticks / TICKS;
    let parts = ticks % TICKS;
    if parts == 0 && units <= u64::MAX as u128 {
        Numeric::Unsigned(units as u64)
    } else {
        let mut literal = String::new();
        append_decimal(&mut literal, units);
        proof {
            reveal_strlit(".");
        }
        literal.append(".");
        append_fixed(&mut literal, parts, PLACES);
        assert(literal@ =~= decimal(units as nat) + seq!['.'] + fixed(parts as nat, PLACES as nat));
        Numeric::Real(literal)
    }
}

} // verus!
