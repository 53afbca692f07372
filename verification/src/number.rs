use vstd::prelude::*;
use crate::ascii::{byte_is_digit, is_digit, ZERO};
use crate::cursor::Cursor;

verus! {

/// Why no decimal number could be read.
#[derive(Debug, Clone, Copy, PartialEq, Eq)]
pub enum NumberFault {
    /// The first byte is no digit, or the buffer has ended.
    NoDigit,
    /// The number starts with a zero that another digit follows.
    LeadingZero,
    /// The number exceeds the limit.
    TooLarge,
}

/// The number that the ASCII digit `b` stands for.
pub open spec fn digit_value(b: u8) -> nat {
    (b - ZERO) as nat
}

/// The number that a sequence of ASCII digits denotes in base ten; the empty
/// sequence denotes zero.
pub open spec fn decimal_value(digits: Seq<u8>) -> nat
    decreases digits.len(),
{
    if digits.len() == 0 {
        0
    } else {
        10 * decimal_value(digits.drop_last()) + digit_value(digits.last())
    }
}

/// The digits of `n` in base ten, without a leading zero; zero is the one
/// digit `0`.
pub open spec fn decimal_digits(n: nat) -> Seq<u8>
    decreases n,
{
    if n < 10 {
        seq![(ZERO + n) as u8]
    } else {
        decimal_digits(n / 10).push((ZERO + n % 10) as u8)
    }
}

/// The offset of the first byte at or after `from` that is not a digit, or
/// the length of `input` if only digits follow.
pub open spec fn digit_run_end(input: Seq<u8>, from: int) -> int
    decreases input.len() - from,
{
    if 0 <= from < input.len() && is_digit(input[from]) {
        digit_run_end(input, from + 1)
    } else {
        from
    }
}

/// The offset of the first digit in `at..end` that takes the number read from
/// `from` on beyond `limit`, or `end` if there is none.
pub open spec fn overflow_offset(input: Seq<u8>, from: int, at: int, end: int, limit: nat) -> int
    decreases end - at,
{
    if at >= end {
        end
    } else if decimal_value(input.subrange(from, at + 1)) > limit {
        at
    } else {
        overflow_offset(input, from, at + 1, end, limit)
    }
}

/// Reads the longest run of digits that starts at `from` as a decimal number
/// of at most `limit`, written without a leading zero, and gives the number
/// and the offset behind its last digit.
///
/// The digits are read from left to right, and a fault comes with the offset
/// at which it shows: that of the byte that should be a digit, of the digit
/// behind a leading zero, or of the first digit with which the number
/// exceeds the limit.
pub open spec fn spec_read_number(input: Seq<u8>, from: int, limit: nat) -> Result<
    (nat, int),
    (NumberFault, int),
> {
    let end = digit_run_end(input, from);
    if end == from {
        Err((NumberFault::NoDigit, from))
    } else if input[from] == ZERO && end > from + 1 {
        Err((NumberFault::LeadingZero, from + 1))
    } else if overflow_offset(input, from, from, end, limit) < end {
        Err((NumberFault::TooLarge, overflow_offset(input, from, from, end, limit)))
    } else {
        Ok((decimal_value(input.subrange(from, end)), end))
    }
}

/// Reads a decimal number of at most `limit` at the cursor and moves behind
/// its last digit; on a fault the cursor stays at the offset of the fault.
pub fn read_number(cursor: &mut Cursor, limit: u64) -> (r: Result<u64, NumberFault>)
    ensures
        final(cursor).input() == old(cursor).input(),
        r matches Ok(n) ==> n <= limit,
        match r {
            Ok(n) => spec_read_number(old(cursor).input(), old(cursor).offset(), limit as nat)
                == Ok::<(nat, int), (NumberFault, int)>((n as nat, final(cursor).offset())),
            Err(fault) => spec_read_number(
                old(cursor).input(),
                old(cursor).offset(),
                limit as nat,
            ) == Err::<(nat, int), (NumberFault, int)>((fault, final(cursor).offset())),
        },
{
    let ghost input = cursor.input();
    let from = cursor.position();
    let ghost end = digit_run_end(input, from as int);
    proof {
        lemma_digit_run(input, from as int);
    }
    let first = match cursor.peek() {
        Ok(b) => b,
        Err(_) => {
            return Err(NumberFault::NoDigit);
        },
    };
    if !byte_is_digit(first) {
        return Err(NumberFault::NoDigit);
    }
    if first == ZERO {
        let _ = cursor.advance(1);
        let follows = match cursor.peek() {
            Ok(b) => byte_is_digit(b),
            Err(_) => false,
        };
        proof {
            lemma_digit_run(input, from + 1);
            lemma_decimal_value_step(input, from as int, from as int);
            assert(overflow_offset(input, from as int, from + 1, from + 1, limit as nat) == from
                + 1);
        }
        if follows {
            return Err(NumberFault::LeadingZero);
        }
        return Ok(0);
    }
    let mut acc: u64 = 0;
    loop
        invariant
            cursor.input() == input,
            input == old(cursor).input(),
            from == old(cursor).offset(),
            input.len() <= usize::MAX,
            from <= cursor.offset() <= end <= input.len(),
            from < end,
            input[from as int] != ZERO,
            end == digit_run_end(input, from as int),
            end == digit_run_end(input, cursor.offset()),
            acc == decimal_value(input.subrange(from as int, cursor.offset())),
            acc <= limit,
            overflow_offset(input, from as int, from as int, end, limit as nat) == overflow_offset(
                input,
                from as int,
                cursor.offset(),
                end,
                limit as nat,
            ),
        decreases input.len() - cursor.offset(),
    {
        let at = cursor.position();
        proof {
            lemma_digit_run(input, at as int);
        }
        let digit = match cursor.peek() {
            Ok(b) => b,
            Err(_) => {
                return Ok(acc);
            },
        };
        if !byte_is_digit(digit) {
            return Ok(acc);
        }
        proof {
            lemma_decimal_value_step(input, from as int, at as int);
        }
        let shifted = match acc.checked_mul(10) {
            Some(v) => v,
            None => {
                return Err(NumberFault::TooLarge);
            },
        };
        let next = match shifted.checked_add((digit - ZERO) as u64) {
            Some(v) => v,
            None => {
                return Err(NumberFault::TooLarge);
            },
        };
        if next > limit {
            return Err(NumberFault::TooLarge);
        }
        acc = next;
        let _ = cursor.advance(1);
    }
}

/// The number that a run of digits denotes grows by one decimal place with
/// each digit.
pub proof fn lemma_decimal_value_step(input: Seq<u8>, from: int, at: int)
    requires
        0 <= from <= at < input.len(),
    ensures
        decimal_value(input.subrange(from, at + 1)) == 10 * decimal_value(
            input.subrange(from, at),
        ) + digit_value(input[at]),
{
    assert(input.subrange(from, at + 1).drop_last() =~= input.subrange(from, at));
}

/// The number that the first digits of a run denote is at most the number
/// that all of them denote.
pub proof fn lemma_decimal_value_grows(digits: Seq<u8>, k: int)
    requires
        0 <= k <= digits.len(),
        forall|i: int| 0 <= i < digits.len() ==> is_digit(#[trigger] digits[i]),
    ensures
        decimal_value(digits.subrange(0, k)) <= decimal_value(digits),
    decreases digits.len(),
{
    if k == digits.len() {
        assert(digits.subrange(0, k) =~= digits);
    } else {
        assert(digits.drop_last().subrange(0, k) =~= digits.subrange(0, k));
        lemma_decimal_value_grows(digits.drop_last(), k);
    }
}

/// The digits of a number are digits, start with a zero only for zero, and
/// denote the number.
pub proof fn lemma_decimal_digits(n: nat)
    ensures
        decimal_digits(n).len() >= 1,
        forall|i: int|
            0 <= i < decimal_digits(n).len() ==> is_digit(#[trigger] decimal_digits(n)[i]),
        decimal_digits(n)[0] == ZERO <==> n == 0,
        decimal_value(decimal_digits(n)) == n,
    decreases n,
{
    if n < 10 {
        assert(decimal_value(decimal_digits(n).drop_last()) == 0);
    } else {
        lemma_decimal_digits(n / 10);
        assert(decimal_digits(n).drop_last() =~= decimal_digits(n / 10));
    }
}

/// Digits that start with a zero only where they are the one digit `0` are
/// the digits of the number that they denote.
pub proof fn lemma_digits_of_decimal_value(digits: Seq<u8>)
    requires
        digits.len() >= 1,
        forall|i: int| 0 <= i < digits.len() ==> is_digit(#[trigger] digits[i]),
        digits[0] == ZERO ==> digits.len() == 1,
    ensures
        decimal_digits(decimal_value(digits)) == digits,
        digits[0] == ZERO <==> decimal_value(digits) == 0,
    decreases digits.len(),
{
    if digits.len() > 1 {
        lemma_digits_of_decimal_value(digits.drop_last());
    }
}

/// The digits from which a number was read are the digits of that number.
pub proof fn lemma_read_number_is_decimal(input: Seq<u8>, from: int, limit: nat)
    requires
        0 <= from <= input.len(),
    ensures
        spec_read_number(input, from, limit) matches Ok((n, end)) ==> {
            &&& input.subrange(from, end) == decimal_digits(n)
            &&& input[from] == ZERO <==> n == 0
        },
{
    lemma_digit_run(input, from);
    if let Ok((_, end)) = spec_read_number(input, from, limit) {
        lemma_digits_of_decimal_value(input.subrange(from, end));
    }
}

/// A run of digits starts at `from`, holds digits only, and ends at the
/// buffer's end or at a byte that is no digit.
pub proof fn lemma_digit_run(input: Seq<u8>, from: int)
    requires
        0 <= from <= input.len(),
    ensures
        from <= digit_run_end(input, from) <= input.len(),
        forall|i: int| from <= i < digit_run_end(input, from) ==> is_digit(#[trigger] input[i]),
        digit_run_end(input, from) < input.len() ==> !is_digit(
            input[digit_run_end(input, from)],
        ),
    decreases input.len() - from,
{
    if from < input.len() && is_digit(input[from]) {
        lemma_digit_run(input, from + 1);
    }
}

/// A run of digits ends where the first byte that is no digit stands, or the
/// buffer ends.
pub proof fn lemma_digit_run_ends_at(input: Seq<u8>, from: int, end: int)
    requires
        0 <= from <= end <= input.len(),
        forall|i: int| from <= i < end ==> is_digit(#[trigger] input[i]),
        end < input.len() ==> !is_digit(input[end]),
    ensures
        digit_run_end(input, from) == end,
    decreases end - from,
{
    if from < end {
        lemma_digit_run_ends_at(input, from + 1, end);
    }
}

/// The offset at which a number exceeds its limit lies among the digits
/// searched; with the digit there the number is beyond the limit, and if
/// there is none, the number read up to any of the digits is within it.
pub proof fn lemma_overflow_offset(input: Seq<u8>, from: int, at: int, end: int, limit: nat)
    requires
        at <= end,
    ensures
        at <= overflow_offset(input, from, at, end, limit) <= end,
        overflow_offset(input, from, at, end, limit) == end ==> forall|k: int|
            at < k <= end ==> #[trigger] decimal_value(input.subrange(from, k)) <= limit,
        overflow_offset(input, from, at, end, limit) < end ==> decimal_value(
            input.subrange(from, overflow_offset(input, from, at, end, limit) + 1),
        ) > limit,
    decreases end - at,
{
    if at < end && decimal_value(input.subrange(from, at + 1)) <= limit {
        lemma_overflow_offset(input, from, at + 1, end, limit);
    }
}

/// Where no number read on the way exceeds the limit, no digit is reported.
pub proof fn lemma_no_overflow(input: Seq<u8>, from: int, at: int, end: int, limit: nat)
    requires
        at <= end,
        forall|k: int|
            at < k <= end ==> #[trigger] decimal_value(input.subrange(from, k)) <= limit,
    ensures
        overflow_offset(input, from, at, end, limit) == end,
    decreases end - at,
{
    if at < end {
        lemma_no_overflow(input, from, at + 1, end, limit);
    }
}

/// A number that was read spans at least one digit, ends within the buffer
/// and is within the limit; a fault shows at an offset between the start and
/// the buffer's end.
pub proof fn lemma_read_number_bounds(input: Seq<u8>, from: int, limit: nat)
    requires
        0 <= from <= input.len(),
    ensures
        match spec_read_number(input, from, limit) {
            Ok((n, end)) => from < end <= input.len() && n <= limit,
            Err((_, at)) => from <= at <= input.len(),
        },
{
    lemma_digit_run(input, from);
    let end = digit_run_end(input, from);
    if end > from {
        lemma_overflow_offset(input, from, from, end, limit);
    }
}

/// Where the digits of a number `n` within the limit stand in a buffer and
/// no digit follows them, reading a number there gives `n` and ends behind
/// them.
pub proof fn lemma_read_decimal_digits(input: Seq<u8>, from: int, n: nat, limit: nat)
    requires
        n <= limit,
        0 <= from,
        from + decimal_digits(n).len() <= input.len(),
        input.subrange(from, from + decimal_digits(n).len()) == decimal_digits(n),
        from + decimal_digits(n).len() < input.len() ==> !is_digit(
            input[from + decimal_digits(n).len()],
        ),
    ensures
        spec_read_number(input, from, limit) == Ok::<(nat, int), (NumberFault, int)>(
            (n, from + decimal_digits(n).len()),
        ),
{
    let digits = decimal_digits(n);
    let end = from + digits.len();
    lemma_decimal_digits(n);
    assert forall|i: int| from <= i < end implies is_digit(#[trigger] input[i]) by {
        assert(input[i] == digits[i - from]);
    }
    lemma_digit_run_ends_at(input, from, end);
    assert forall|k: int| from < k <= end implies #[trigger] decimal_value(
        input.subrange(from, k),
    ) <= limit by {
        assert(input.subrange(from, k) =~= digits.subrange(0, k - from));
        lemma_decimal_value_grows(digits, k - from);
    }
    lemma_no_overflow(input, from, from, end, limit);
}

} // verus!
