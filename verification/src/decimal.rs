//! Decimal numerals, read into thousandths.
//!
//! A numeral is an optional sign, then digits with at most one decimal
//! point among them and at least one digit, then optionally an exponent: `e`
//! or `E`, an optional sign and at least one digit. It is read as the two
//! whole numbers of thousandths next below and next above the number that
//! it writes, which are the same where the numeral goes no further than
//! the third decimal place. Magnitudes beyond `MAX_MILLI` thousandths are
//! all read as `MAX_MILLI + 1`.
use vstd::prelude::*;
use vstd::slice::slice_subrange;
use crate::units::MAX_MILLI;

verus! {

/// The byte `+`.
pub const PLUS: u8 = 43;

/// The byte `-`.
pub const MINUS: u8 = 45;

/// The byte `.`, the decimal point.
pub const POINT: u8 = 46;

/// The byte `0`.
pub const ZERO: u8 = 48;

/// The byte `9`.
pub const NINE: u8 = 57;

/// The byte `E`, which begins an exponent.
pub const UPPER_E: u8 = 69;

/// The byte `e`, which begins an exponent.
pub const LOWER_E: u8 = 101;

/// Whether `b` is an ASCII digit.
pub open spec fn is_digit(b: u8) -> bool {
    ZERO <= b <= NINE
}

/// Whether `s` holds digits only.
pub open spec fn all_digits(s: Seq<u8>) -> bool {
    forall|i: int| 0 <= i < s.len() ==> is_digit(#[trigger] s[i])
}

/// The number that the digits of `s` write.
pub open spec fn digits_value(s: Seq<u8>) -> int
    decreases s.len(),
{
    if s.len() == 0 {
        0
    } else {
        digits_value(s.drop_last()) * 10 + (s.last() - ZERO)
    }
}

/// Ten to the power of `n`.
pub open spec fn pow10(n: nat) -> int
    decreases n,
{
    if n == 0 {
        1
    } else {
        10 * pow10((n - 1) as nat)
    }
}

/// Where the run of digits that begins at `from` ends.
pub open spec fn digits_end(s: Seq<u8>, from: int) -> int
    decreases s.len() - from,
{
    if 0 <= from < s.len() && is_digit(s[from]) {
        digits_end(s, from + 1)
    } else {
        from
    }
}

/// Whether a sign stands at place `at` of `s`.
pub open spec fn sign_at(s: Seq<u8>, at: int) -> bool {
    0 <= at < s.len() && (s[at] == PLUS || s[at] == MINUS)
}

/// The places that part a numeral.
pub struct Layout {
    /// Where the digits before the decimal point begin: behind the sign.
    pub whole: int,
    /// Where they end.
    pub point: int,
    /// Where the digits behind the decimal point begin.
    pub fraction: int,
    /// Where they end: at the exponent mark, in a numeral that has one.
    pub mark: int,
    /// Where the digits of the exponent begin: behind the mark and a sign.
    pub power: int,
    /// Where they end.
    pub end: int,
}

/// The places that part `s`, read as a numeral from its beginning.
pub open spec fn layout(s: Seq<u8>) -> Layout {
    let whole = if sign_at(s, 0) {
        1
    } else {
        0
    };
    let point = digits_end(s, whole);
    let fraction = if point < s.len() && s[point] == POINT {
        point + 1
    } else {
        point
    };
    let mark = digits_end(s, fraction);
    let power = if mark >= s.len() {
        mark
    } else if sign_at(s, mark + 1) {
        mark + 2
    } else {
        mark + 1
    };
    let end = digits_end(s, power);
    Layout { whole, point, fraction, mark, power, end }
}

/// Whether `s` is a numeral: it has a digit before or behind its decimal
/// point, and ends there or goes on with an exponent mark and the digits of
/// an exponent, which end it.
pub open spec fn is_numeral(s: Seq<u8>) -> bool {
    let l = layout(s);
    &&& (l.point - l.whole) + (l.mark - l.fraction) >= 1
    &&& l.mark < s.len() ==> {
        &&& s[l.mark] == LOWER_E || s[l.mark] == UPPER_E
        &&& l.power < l.end
        &&& l.end == s.len()
    }
}

/// The digits of a numeral, those before the decimal point and those behind
/// it.
pub open spec fn numeral_digits(s: Seq<u8>) -> Seq<u8> {
    let l = layout(s);
    s.subrange(l.whole, l.point) + s.subrange(l.fraction, l.mark)
}

/// The exponent of a numeral, zero where it has none.
pub open spec fn numeral_exponent(s: Seq<u8>) -> int {
    let l = layout(s);
    if l.mark >= s.len() {
        0
    } else if s[l.mark + 1] == MINUS {
        -digits_value(s.subrange(l.power, l.end))
    } else {
        digits_value(s.subrange(l.power, l.end))
    }
}

/// How many of a numeral's digits stand at the thousandths place or above
/// it: those before the decimal point, and three more, moved by the
/// exponent. It is negative, or more than there are digits, where the
/// digits end short of that place on either side.
pub open spec fn numeral_places(s: Seq<u8>) -> int {
    layout(s).point - layout(s).whole + numeral_exponent(s) + 3
}

/// How many of `digits` are kept when `places` of them stand at the
/// thousandths place or above.
pub open spec fn kept(digits: Seq<u8>, places: int) -> int {
    if places < 0 {
        0
    } else if places > digits.len() {
        digits.len() as int
    } else {
        places
    }
}

/// The whole thousandths that `digits` write when `places` of them stand
/// at the thousandths place or above: the number that the kept digits
/// write, with a zero for each place that they end short of.
pub open spec fn magnitude(digits: Seq<u8>, places: int) -> int {
    let written = digits_value(digits.take(kept(digits, places)));
    if places > digits.len() {
        written * pow10((places - digits.len()) as nat)
    } else {
        written
    }
}

/// Whether `digits` write more than whole thousandths: a digit that is not
/// kept is not zero.
pub open spec fn excess(digits: Seq<u8>, places: int) -> bool {
    exists|i: int| kept(digits, places) <= i < digits.len() && #[trigger] digits[i] != ZERO
}

/// `x`, or `cap + 1` if `x` is more than `cap`.
pub open spec fn capped_at(x: int, cap: int) -> int {
    if x <= cap {
        x
    } else {
        cap + 1
    }
}

/// `x`, or `MAX_MILLI + 1` if `x` is more than `MAX_MILLI`.
pub open spec fn capped(x: int) -> int {
    capped_at(x, MAX_MILLI as int)
}

/// The thousandths next below and next above the number that `s` writes,
/// if `s` is a numeral.
pub open spec fn decimal(s: Seq<u8>) -> Option<(int, int)> {
    if is_numeral(s) {
        let digits = numeral_digits(s);
        let places = numeral_places(s);
        let low = capped(magnitude(digits, places));
        let high = capped(
            if excess(digits, places) {
                magnitude(digits, places) + 1
            } else {
                magnitude(digits, places)
            },
        );
        if s[0] == MINUS {
            Some((-high, -low))
        } else {
            Some((low, high))
        }
    } else {
        None
    }
}

/// Of two neighbouring whole numbers, the one nearer to zero.
pub open spec fn toward_zero(bounds: (int, int)) -> int {
    if bounds.0 >= 0 {
        bounds.0
    } else {
        bounds.1
    }
}

/// The number that `s` writes, in thousandths, rounded toward zero, if `s`
/// is a numeral.
pub open spec fn decimal_milli(s: Seq<u8>) -> Option<int> {
    match decimal(s) {
        Some(bounds) => Some(toward_zero(bounds)),
        None => None,
    }
}

/// Where the run of digits that begins at `from` ends.
fn scan_digits(text: &[u8], from: usize) -> (end: usize)
    requires
        from <= text@.len(),
    ensures
        end == digits_end(text@, from as int),
        from <= end <= text@.len(),
        forall|j: int| from <= j < end ==> is_digit(#[trigger] text@[j]),
{
    let n: usize = text.len();
    let mut i: usize = from;
    while i < n && ZERO <= text[i] && text[i] <= NINE
        invariant
            from <= i <= n == text@.len(),
            digits_end(text@, from as int) == digits_end(text@, i as int),
            forall|j: int| from <= j < i ==> is_digit(#[trigger] text@[j]),
        decreases n - i,
    {
        i = i + 1;
    }
    i
}

/// The places that part a text, as `Layout` has them.
struct Places {
    whole: usize,
    point: usize,
    fraction: usize,
    mark: usize,
    power: usize,
    end: usize,
}

/// Finds the places that part `text`, read as a numeral.
fn find_places(text: &[u8]) -> (p: Places)
    ensures
        p.whole == layout(text@).whole,
        p.point == layout(text@).point,
        p.fraction == layout(text@).fraction,
        p.mark == layout(text@).mark,
        p.power == layout(text@).power,
        p.end == layout(text@).end,
        p.whole <= p.point <= p.fraction <= p.mark <= p.power <= p.end <= text@.len(),
        forall|j: int| p.whole <= j < p.point ==> is_digit(#[trigger] text@[j]),
        forall|j: int| p.fraction <= j < p.mark ==> is_digit(#[trigger] text@[j]),
        forall|j: int| p.power <= j < p.end ==> is_digit(#[trigger] text@[j]),
{
    let n: usize = text.len();
    let whole: usize = if n > 0 && (text[0] == PLUS || text[0] == MINUS) {
        1
    } else {
        0
    };
    let point = scan_digits(text, whole);
    let fraction: usize = if point < n && text[point] == POINT {
        point + 1
    } else {
        point
    };
    let mark = scan_digits(text, fraction);
    let power: usize = if mark >= n {
        mark
    } else if mark + 1 < n && (text[mark + 1] == PLUS || text[mark + 1] == MINUS) {
        mark + 2
    } else {
        mark + 1
    };
    let end = scan_digits(text, power);
    Places { whole, point, fraction, mark, power, end }
}

/// Beyond this an exponent is so large that its exact size no longer
/// matters.
const EXPONENT_CAP: i128 = 1_000_000_000_000_000_000_000_000_000_000;

/// The number that the first `upto` of `digits` write, or `cap + 1` if
/// that is more than `cap`.
fn read_capped(digits: &[u8], upto: usize, cap: i128) -> (value: i128)
    requires
        upto <= digits@.len(),
        forall|j: int| 0 <= j < upto ==> is_digit(#[trigger] digits@[j]),
        0 <= cap <= EXPONENT_CAP,
    ensures
        value == capped_at(digits_value(digits@.take(upto as int)), cap as int),
        0 <= digits_value(digits@.take(upto as int)),
{
    let mut value: i128 = 0;
    let mut i: usize = 0;
    assert(digits@.take(0) =~= Seq::<u8>::empty());
    while i < upto
        invariant
            i <= upto <= digits@.len(),
            forall|j: int| 0 <= j < upto ==> is_digit(#[trigger] digits@[j]),
            0 <= cap <= EXPONENT_CAP,
            0 <= digits_value(digits@.take(i as int)),
            value == capped_at(digits_value(digits@.take(i as int)), cap as int),
        decreases upto - i,
    {
        assert(digits@.take(i + 1).drop_last() =~= digits@.take(i as int));
        assert(is_digit(digits@[i as int]));
        value = value * 10 + (digits[i] - ZERO) as i128;
        if value > cap {
            value = cap + 1;
        }
        i = i + 1;
    }
    value
}

/// Whether one of `digits` from `from` on is not zero.
fn any_nonzero(digits: &[u8], from: usize) -> (found: bool)
    requires
        from <= digits@.len(),
    ensures
        found <==> exists|i: int| from <= i < digits@.len() && #[trigger] digits@[i] != ZERO,
{
    let mut i: usize = from;
    while i < digits.len()
        invariant
            from <= i <= digits@.len(),
            forall|j: int| from <= j < i ==> #[trigger] digits@[j] == ZERO,
        decreases digits@.len() - i,
    {
        if digits[i] != ZERO {
            return true;
        }
        i = i + 1;
    }
    false
}

/// Puts the bytes `from..to` of `text` behind those of `digits`.
fn append_range(digits: &mut Vec<u8>, text: &[u8], from: usize, to: usize)
    requires
        from <= to <= text@.len(),
    ensures
        final(digits)@ == old(digits)@ + text@.subrange(from as int, to as int),
{
    let ghost before = digits@;
    let mut i: usize = from;
    assert(digits@ =~= before + text@.subrange(from as int, i as int));
    while i < to
        invariant
            from <= i <= to <= text@.len(),
            digits@ == before + text@.subrange(from as int, i as int),
        decreases to - i,
    {
        digits.push(text[i]);
        i = i + 1;
        assert(digits@ =~= before + text@.subrange(from as int, i as int));
    }
}

/// A power of ten is at least one, and from the eighteenth on beyond every
/// number of thousandths that is held.
proof fn lemma_pow10_grows(n: nat)
    ensures
        1 <= pow10(n),
        n >= 18 ==> pow10(n) >= 1_000_000_000_000_000_000,
    decreases n,
{
    if n > 18 {
        lemma_pow10_grows((n - 1) as nat);
    } else if n == 18 {
        reveal_with_fuel(pow10, 19);
    } else if n > 0 {
        lemma_pow10_grows((n - 1) as nat);
    }
}

/// Digits that end eighteen places or more short of the thousandths write
/// nothing, if they are all zeros, or more than is held.
proof fn lemma_far_short(digits: Seq<u8>, places: int)
    requires
        0 <= digits_value(digits.take(digits.len() as int)),
        places >= digits.len() + 18,
    ensures
        capped(magnitude(digits, places)) == if digits_value(digits.take(digits.len() as int))
            == 0 {
            0
        } else {
            MAX_MILLI + 1
        },
        !excess(digits, places),
{
    let written = digits_value(digits.take(digits.len() as int));
    let power = pow10((places - digits.len()) as nat);
    lemma_pow10_grows((places - digits.len()) as nat);
    if written == 0 {
        assert(written * power == 0) by (nonlinear_arith)
            requires
                written == 0,
        ;
    } else {
        assert(written * power >= 1_000_000_000_000_000_000) by (nonlinear_arith)
            requires
                written >= 1,
                power >= 1_000_000_000_000_000_000,
        ;
    }
}

/// The thousandths next below and next above what `digits` write when
/// `places` of them stand at the thousandths place or above.
fn thousandths(digits: &[u8], places: i128) -> (bounds: (i64, i64))
    requires
        all_digits(digits@),
        -2 * EXPONENT_CAP <= places <= 2 * EXPONENT_CAP,
    ensures
        bounds.0 == capped(magnitude(digits@, places as int)),
        bounds.1 == capped(
            if excess(digits@, places as int) {
                magnitude(digits@, places as int) + 1
            } else {
                magnitude(digits@, places as int)
            },
        ),
        0 <= bounds.0 <= bounds.1 <= MAX_MILLI + 1,
{
    let len: usize = digits.len();
    let keep: usize = if places < 0 {
        0
    } else if places > len as i128 {
        len
    } else {
        places as usize
    };
    let mut low: i128 = read_capped(digits, keep, MAX_MILLI as i128);
    let more: bool = any_nonzero(digits, keep);
    let ghost written = digits_value(digits@.take(keep as int));
    if places > len as i128 {
        let pad: i128 = places - len as i128;
        if low == 0 {
            assert(written * pow10(pad as nat) == 0) by (nonlinear_arith)
                requires
                    written == 0,
            ;
        } else if pad >= 18 {
            proof {
                lemma_far_short(digits@, places as int);
            }
            low = MAX_MILLI as i128 + 1;
        } else {
            let mut t: i128 = 0;
            assert(written * pow10(0) == written) by (nonlinear_arith)
                requires
                    pow10(0) == 1,
            ;
            while t < pad
                invariant
                    0 <= t <= pad < 18,
                    0 <= written,
                    0 <= low <= MAX_MILLI + 1,
                    low == capped(written * pow10(t as nat)),
                decreases pad - t,
            {
                proof {
                    let before = written * pow10(t as nat);
                    lemma_pow10_grows(t as nat);
                    assert(written * pow10((t + 1) as nat) == before * 10) by (nonlinear_arith)
                        requires
                            before == written * pow10(t as nat),
                            pow10((t + 1) as nat) == 10 * pow10(t as nat),
                    ;
                    assert(0 <= before) by (nonlinear_arith)
                        requires
                            before == written * pow10(t as nat),
                            0 <= written,
                            1 <= pow10(t as nat),
                    ;
                }
                low = low * 10;
                if low > MAX_MILLI as i128 {
                    low = MAX_MILLI as i128 + 1;
                }
                t = t + 1;
            }
        }
    }
    let high: i128 = if more && low <= MAX_MILLI as i128 {
        low + 1
    } else {
        low
    };
    (low as i64, high as i64)
}

/// Reads a numeral as the thousandths next below and next above the number
/// that it writes.
pub fn parse_decimal(text: &[u8]) -> (bounds: Option<(i64, i64)>)
    ensures
        match bounds {
            Some(b) => decimal(text@) == Some((b.0 as int, b.1 as int)),
            None => decimal(text@) is None,
        },
{
    let n: usize = text.len();
    let p = find_places(text);
    if p.point - p.whole == 0 && p.mark - p.fraction == 0 {
        return None;
    }
    let mut exponent: i128 = 0;
    if p.mark < n {
        if text[p.mark] != LOWER_E && text[p.mark] != UPPER_E {
            return None;
        }
        if p.power >= p.end || p.end != n {
            return None;
        }
        let written = slice_subrange(text, p.power, p.end);
        assert(written@.take(written@.len() as int) =~= written@);
        let size = read_capped(written, p.end - p.power, EXPONENT_CAP);
        exponent = if text[p.mark + 1] == MINUS {
            -size
        } else {
            size
        };
    }
    let mut digits: Vec<u8> = Vec::new();
    append_range(&mut digits, text, p.whole, p.point);
    append_range(&mut digits, text, p.fraction, p.mark);
    assert(digits@ =~= numeral_digits(text@));
    assert(all_digits(digits@)) by {
        assert forall|i: int| 0 <= i < digits@.len() implies is_digit(#[trigger] digits@[i]) by {
            if i < p.point - p.whole {
                assert(digits@[i] == text@[p.whole + i]);
            } else {
                assert(digits@[i] == text@[p.fraction + (i - (p.point - p.whole))]);
            }
        }
    }
    let places: i128 = (p.point - p.whole) as i128 + exponent + 3;
    let (low, high) = thousandths(digits.as_slice(), places);
    proof {
        let exact = numeral_places(text@);
        if exact != places {
            // The exponent is beyond the cap: the digits end far short of
            // the thousandths, or none of them reaches them.
            let all = digits@.take(digits@.len() as int);
            assert(all =~= digits@);
            lemma_digits_value_bounds(digits@);
            if exact > places {
                lemma_far_short(digits@, places as int);
                lemma_far_short(digits@, exact);
            } else {
                assert(kept(digits@, exact) == 0 && kept(digits@, places as int) == 0);
            }
        }
    }
    if text[0] == MINUS {
        Some((-high, -low))
    } else {
        Some((low, high))
    }
}

/// Digits write a number that is not negative.
proof fn lemma_digits_value_bounds(digits: Seq<u8>)
    requires
        all_digits(digits),
    ensures
        0 <= digits_value(digits),
    decreases digits.len(),
{
    if digits.len() > 0 {
        assert forall|i: int| 0 <= i < digits.drop_last().len() implies is_digit(
            #[trigger] digits.drop_last()[i],
        ) by {
            assert(digits.drop_last()[i] == digits[i]);
        }
        lemma_digits_value_bounds(digits.drop_last());
        assert(is_digit(digits[digits.len() - 1]));
    }
}

/// Reads a numeral into thousandths, rounded toward zero.
pub fn parse_milli(text: &[u8]) -> (value: Option<i64>)
    ensures
        match value {
            Some(v) => decimal_milli(text@) == Some(v as int),
            None => decimal_milli(text@) is None,
        },
{
    match parse_decimal(text) {
        Some((low, high)) => Some(
            if low >= 0 {
                low
            } else {
                high
            },
        ),
        None => None,
    }
}

} // verus!
