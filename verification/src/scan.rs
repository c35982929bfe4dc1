//! Reading puzzle input: lines, fields separated by blanks, and decimal
//! numbers.
use vstd::prelude::*;

verus! {

/// The byte that ends a line.
pub const LINE_END: u8 = 10;

/// Whether `byte` separates fields: a space, or one of the control
/// characters from tab to carriage return.
pub open spec fn is_space(byte: u8) -> bool {
    byte == 32 || (9 <= byte <= 13)
}

/// What the rows hold, as sequences.
pub open spec fn views(rows: Seq<Vec<u8>>) -> Seq<Seq<u8>> {
    rows.map_values(|row: Vec<u8>| row@)
}

/// The bytes of `text` behind its last line end.
pub open spec fn open_line(text: Seq<u8>) -> Seq<u8>
    decreases text.len(),
{
    if text.len() == 0 || text.last() == LINE_END {
        Seq::empty()
    } else {
        open_line(text.drop_last()).push(text.last())
    }
}

/// The lines of `text` that a line end closes.
pub open spec fn closed_lines(text: Seq<u8>) -> Seq<Seq<u8>>
    decreases text.len(),
{
    if text.len() == 0 {
        Seq::empty()
    } else if text.last() == LINE_END {
        closed_lines(text.drop_last()).push(open_line(text.drop_last()))
    } else {
        closed_lines(text.drop_last())
    }
}

/// The lines of `text`, without their line ends. The last line needs no line
/// end, and nothing behind the last line end is no line.
pub open spec fn lines(text: Seq<u8>) -> Seq<Seq<u8>> {
    if open_line(text).len() > 0 {
        closed_lines(text).push(open_line(text))
    } else {
        closed_lines(text)
    }
}

/// The bytes of `text` behind its last separator.
pub open spec fn open_field(text: Seq<u8>) -> Seq<u8>
    decreases text.len(),
{
    if text.len() == 0 || is_space(text.last()) {
        Seq::empty()
    } else {
        open_field(text.drop_last()).push(text.last())
    }
}

/// The fields of `text` that a separator closes.
pub open spec fn closed_fields(text: Seq<u8>) -> Seq<Seq<u8>>
    decreases text.len(),
{
    if text.len() == 0 {
        Seq::empty()
    } else if is_space(text.last()) && open_field(text.drop_last()).len() > 0 {
        closed_fields(text.drop_last()).push(open_field(text.drop_last()))
    } else {
        closed_fields(text.drop_last())
    }
}

/// The fields of `text`: its longest runs of bytes that are no separators.
pub open spec fn fields(text: Seq<u8>) -> Seq<Seq<u8>> {
    if open_field(text).len() > 0 {
        closed_fields(text).push(open_field(text))
    } else {
        closed_fields(text)
    }
}

/// Cuts `text` into its lines.
pub fn split_lines(text: &[u8]) -> (rows: Vec<Vec<u8>>)
    ensures
        views(rows@) == lines(text@),
{
    let mut rows: Vec<Vec<u8>> = Vec::new();
    let mut current: Vec<u8> = Vec::new();
    let mut i: usize = 0;
    while i < text.len()
        invariant
            i <= text@.len(),
            views(rows@) == closed_lines(text@.take(i as int)),
            current@ == open_line(text@.take(i as int)),
        decreases text@.len() - i,
    {
        let byte = text[i];
        proof {
            let next = text@.take(i + 1);
            assert(next.drop_last() == text@.take(i as int));
            assert(next.last() == byte);
        }
        if byte == LINE_END {
            let ghost before = rows@;
            rows.push(current);
            proof {
                assert(views(rows@) =~= views(before).push(current@));
            }
            current = Vec::new();
        } else {
            current.push(byte);
        }
        i += 1;
    }
    proof {
        assert(text@.take(text@.len() as int) == text@);
    }
    if current.len() > 0 {
        let ghost before = rows@;
        rows.push(current);
        proof {
            assert(views(rows@) =~= views(before).push(current@));
        }
    }
    rows
}

/// Cuts `text` into its fields.
pub fn split_fields(text: &[u8]) -> (found: Vec<Vec<u8>>)
    ensures
        views(found@) == fields(text@),
{
    let mut found: Vec<Vec<u8>> = Vec::new();
    let mut current: Vec<u8> = Vec::new();
    let mut i: usize = 0;
    while i < text.len()
        invariant
            i <= text@.len(),
            views(found@) == closed_fields(text@.take(i as int)),
            current@ == open_field(text@.take(i as int)),
        decreases text@.len() - i,
    {
        let byte = text[i];
        proof {
            let next = text@.take(i + 1);
            assert(next.drop_last() == text@.take(i as int));
            assert(next.last() == byte);
        }
        if byte == 32 || (9 <= byte && byte <= 13) {
            if current.len() > 0 {
                let ghost before = found@;
                found.push(current);
                proof {
                    assert(views(found@) =~= views(before).push(current@));
                }
                current = Vec::new();
            }
        } else {
            current.push(byte);
        }
        i += 1;
    }
    proof {
        assert(text@.take(text@.len() as int) == text@);
    }
    if current.len() > 0 {
        let ghost before = found@;
        found.push(current);
        proof {
            assert(views(found@) =~= views(before).push(current@));
        }
    }
    found
}

/// Whether `byte` is one of the digits `0` to `9`.
pub open spec fn is_digit(byte: u8) -> bool {
    48 <= byte <= 57
}

/// Whether `text` holds digits only.
pub open spec fn all_digits(text: Seq<u8>) -> bool {
    forall|i: int| 0 <= i < text.len() ==> is_digit(#[trigger] text[i])
}

/// The number that the digits of `text` write.
pub open spec fn decimal(text: Seq<u8>) -> nat
    decreases text.len(),
{
    if text.len() == 0 {
        0
    } else {
        decimal(text.drop_last()) * 10 + (text.last() - 48) as nat
    }
}

/// The number that `text` writes, if it writes one: one digit or more.
pub open spec fn unsigned_of(text: Seq<u8>) -> Option<nat> {
    if text.len() > 0 && all_digits(text) {
        Some(decimal(text))
    } else {
        None
    }
}

/// The number that `text` writes, if it writes one: one digit or more,
/// behind a `-` or a `+` or nothing.
pub open spec fn signed_of(text: Seq<u8>) -> Option<int> {
    if text.len() > 0 && text[0] == 45 {
        match unsigned_of(text.drop_first()) {
            Some(value) => Some(-(value as int)),
            None => None,
        }
    } else if text.len() > 0 && text[0] == 43 {
        match unsigned_of(text.drop_first()) {
            Some(value) => Some(value as int),
            None => None,
        }
    } else {
        match unsigned_of(text) {
            Some(value) => Some(value as int),
            None => None,
        }
    }
}

/// The digits of a number write no less than its first digits.
pub proof fn lemma_decimal_prefix(text: Seq<u8>, n: int)
    requires
        0 <= n <= text.len(),
        all_digits(text),
    ensures
        decimal(text.take(n)) <= decimal(text),
    decreases text.len() - n,
{
    if n < text.len() {
        lemma_decimal_prefix(text, n + 1);
        assert(text.take(n + 1).drop_last() == text.take(n));
    } else {
        assert(text.take(n) == text);
    }
}

/// Reads the number that the digits `text[from..]` write. The result is
/// `None` when there is no digit, when a byte is no digit, and when the
/// number does not fit.
pub fn parse_digits(text: &[u8], from: usize) -> (parsed: Option<u64>)
    requires
        from <= text@.len(),
    ensures
        parsed == (match unsigned_of(text@.skip(from as int)) {
            Some(value) => if value <= u64::MAX {
                Some(value as u64)
            } else {
                None
            },
            None => None,
        }),
{
    let ghost digits = text@.skip(from as int);
    if from == text.len() {
        return None;
    }
    let mut value: u64 = 0;
    let mut i: usize = from;
    while i < text.len()
        invariant
            from <= i <= text@.len(),
            digits == text@.skip(from as int),
            all_digits(digits.take(i - from)),
            value == decimal(digits.take(i - from)),
        decreases text@.len() - i,
    {
        let byte = text[i];
        let ghost seen = digits.take(i - from);
        let ghost next = digits.take(i - from + 1);
        proof {
            assert(digits[i - from] == byte);
            assert(next.drop_last() == seen);
            assert(next.last() == byte);
        }
        if byte < 48 || byte > 57 {
            proof {
                assert(!is_digit(digits[i - from]));
            }
            return None;
        }
        proof {
            assert forall|j: int| 0 <= j < next.len() implies is_digit(#[trigger] next[j]) by {
                if j < seen.len() {
                    assert(next[j] == seen[j]);
                }
            }
        }
        let shifted = match value.checked_mul(10) {
            Some(shifted) => shifted,
            None => {
                proof {
                    lemma_decimal_overflow(digits, i - from + 1);
                }
                return None;
            },
        };
        value = match shifted.checked_add((byte - 48) as u64) {
            Some(sum) => sum,
            None => {
                proof {
                    lemma_decimal_overflow(digits, i - from + 1);
                }
                return None;
            },
        };
        i += 1;
    }
    proof {
        assert(digits.take(digits.len() as int) == digits);
    }
    Some(value)
}

/// When the first digits of `text` write a number that does not fit, `text`
/// writes no number that fits.
proof fn lemma_decimal_overflow(text: Seq<u8>, n: int)
    requires
        0 <= n <= text.len(),
        decimal(text.take(n)) > u64::MAX,
    ensures
        unsigned_of(text).is_none() || unsigned_of(text).unwrap() > u64::MAX,
{
    if all_digits(text) {
        lemma_decimal_prefix(text, n);
    }
}

/// Reads the number that `text` writes, as `u64`.
pub fn parse_u64(text: &[u8]) -> (parsed: Option<u64>)
    ensures
        parsed == (match unsigned_of(text@) {
            Some(value) => if value <= u64::MAX {
                Some(value as u64)
            } else {
                None
            },
            None => None,
        }),
{
    proof {
        assert(text@.skip(0) == text@);
    }
    parse_digits(text, 0)
}

/// Reads the number that `text` writes, as `i64`.
pub fn parse_i64(text: &[u8]) -> (parsed: Option<i64>)
    ensures
        parsed == (match signed_of(text@) {
            Some(value) => if i64::MIN <= value <= i64::MAX {
                Some(value as i64)
            } else {
                None
            },
            None => None,
        }),
{
    proof {
        assert(text@.skip(0) == text@);
        if text@.len() > 0 {
            assert(text@.skip(1) == text@.drop_first());
        }
    }
    if text.len() > 0 && text[0] == 45 {
        match parse_digits(text, 1) {
            Some(value) => if value <= 9223372036854775807 {
                Some(-(value as i64))
            } else if value == 9223372036854775808 {
                Some(i64::MIN)
            } else {
                None
            },
            None => None,
        }
    } else {
        let from: usize = if text.len() > 0 && text[0] == 43 {
            1
        } else {
            0
        };
        match parse_digits(text, from) {
            Some(value) => if value <= 9223372036854775807 {
                Some(value as i64)
            } else {
                None
            },
            None => None,
        }
    }
}

/// What is left of `text` when its separators are taken out.
pub open spec fn without_spaces(text: Seq<u8>) -> Seq<u8>
    decreases text.len(),
{
    if text.len() == 0 {
        Seq::empty()
    } else if is_space(text.last()) {
        without_spaces(text.drop_last())
    } else {
        without_spaces(text.drop_last()).push(text.last())
    }
}

/// Copies `text` without its separators.
pub fn strip_spaces(text: &[u8]) -> (kept: Vec<u8>)
    ensures
        kept@ == without_spaces(text@),
{
    let mut kept: Vec<u8> = Vec::new();
    let mut i: usize = 0;
    while i < text.len()
        invariant
            i <= text@.len(),
            kept@ == without_spaces(text@.take(i as int)),
        decreases text@.len() - i,
    {
        let byte = text[i];
        proof {
            let next = text@.take(i + 1);
            assert(next.drop_last() == text@.take(i as int));
            assert(next.last() == byte);
        }
        if !(byte == 32 || (9 <= byte && byte <= 13)) {
            kept.push(byte);
        }
        i += 1;
    }
    proof {
        assert(text@.take(text@.len() as int) == text@);
    }
    kept
}

/// The characters that write the number `n`.
pub open spec fn digits_of(n: nat) -> Seq<char>
    decreases n,
{
    if n < 10 {
        seq![digit_char(n)]
    } else {
        digits_of(n / 10).push(digit_char(n % 10))
    }
}

/// The character of the digit `d`.
pub open spec fn digit_char(d: nat) -> char {
    ((d + 48) as u8) as char
}

/// `String::push`: appends `ch` to the end of `text`.
#[verifier::external_body]
pub(crate) fn string_push(text: &mut String, ch: char)
    ensures
        final(text)@ == old(text)@.push(ch),
{
    text.push(ch)
}

/// Appends to `text` the characters that write `n`.
pub fn push_number(text: &mut String, n: u64)
    ensures
        final(text)@ == old(text)@ + digits_of(n as nat),
    decreases n,
{
    if n >= 10 {
        push_number(text, n / 10);
    }
    let digit = (n % 10) as u8 + 48;
    string_push(text, digit as char);
}

/// The number of digits at the end of `text`.
pub open spec fn digit_run(text: Seq<u8>) -> nat
    decreases text.len(),
{
    if text.len() == 0 || !is_digit(text.last()) {
        0
    } else {
        1 + digit_run(text.drop_last())
    }
}

/// The number that the digits at the end of `text` write.
pub open spec fn run_number(text: Seq<u8>) -> nat
    decreases text.len(),
{
    if text.len() == 0 || !is_digit(text.last()) {
        0
    } else {
        run_number(text.drop_last()) * 10 + (text.last() - 48) as nat
    }
}

/// Whether a `-` stands right before the digits at the end of `text`.
pub open spec fn run_negative(text: Seq<u8>) -> bool {
    let before = text.len() - digit_run(text) - 1;
    before >= 0 && text[before] == 45
}

/// The number that the digits at the end of `text` write, negative when a
/// `-` stands right before them.
pub open spec fn signed_run(text: Seq<u8>) -> int {
    if run_negative(text) {
        -(run_number(text) as int)
    } else {
        run_number(text) as int
    }
}

/// The numbers of `text` whose last digit is followed by another byte.
pub open spec fn closed_numbers(text: Seq<u8>) -> Seq<int>
    decreases text.len(),
{
    if text.len() == 0 {
        Seq::empty()
    } else if !is_digit(text.last()) && digit_run(text.drop_last()) > 0 {
        closed_numbers(text.drop_last()).push(signed_run(text.drop_last()))
    } else {
        closed_numbers(text.drop_last())
    }
}

/// The numbers that stand in `text`: one for each longest run of digits,
/// negative when a `-` stands right before the run. Everything else in the
/// text only keeps the numbers apart.
pub open spec fn numbers_in(text: Seq<u8>) -> Seq<int> {
    if digit_run(text) > 0 {
        closed_numbers(text).push(signed_run(text))
    } else {
        closed_numbers(text)
    }
}

/// Whether no run of digits in `text` writes a number above `i64::MAX`.
pub open spec fn numbers_fit(text: Seq<u8>) -> bool {
    forall|n: int| 0 <= n <= text.len() ==> #[trigger] run_number(text.take(n)) <= i64::MAX
}

/// Reads the numbers that stand in `text`. The result is `None` when a run
/// of digits writes a number that does not fit.
pub fn scan_numbers(text: &[u8]) -> (found: Option<Vec<i64>>)
    ensures
        match found {
            Some(numbers) => {
                &&& numbers_fit(text@)
                &&& numbers@.len() == numbers_in(text@).len()
                &&& forall|i: int|
                    0 <= i < numbers@.len() ==> #[trigger] numbers@[i] == numbers_in(text@)[i]
            },
            None => !numbers_fit(text@),
        },
{
    let mut numbers: Vec<i64> = Vec::new();
    let mut value: i64 = 0;
    let mut digits: usize = 0;
    let mut negative = false;
    let mut i: usize = 0;
    while i < text.len()
        invariant
            i <= text@.len(),
            digits == digit_run(text@.take(i as int)),
            digits <= i,
            0 <= value,
            value == run_number(text@.take(i as int)),
            digits > 0 ==> negative == run_negative(text@.take(i as int)),
            numbers@.len() == closed_numbers(text@.take(i as int)).len(),
            forall|j: int|
                0 <= j < numbers@.len() ==> #[trigger] numbers@[j] == closed_numbers(
                    text@.take(i as int),
                )[j],
            forall|n: int| 0 <= n <= i ==> #[trigger] run_number(text@.take(n)) <= i64::MAX,
        decreases text@.len() - i,
    {
        let byte = text[i];
        let ghost seen = text@.take(i as int);
        let ghost next = text@.take(i + 1);
        proof {
            assert(next.drop_last() == seen);
            assert(next.last() == byte);
        }
        if 48 <= byte && byte <= 57 {
            if digits == 0 {
                negative = i > 0 && text[i - 1] == 45;
            }
            let grown = match value.checked_mul(10) {
                Some(shifted) => shifted.checked_add((byte - 48) as i64),
                None => None,
            };
            value = match grown {
                Some(sum) => sum,
                None => {
                    proof {
                        assert(run_number(next) > i64::MAX);
                        assert(text@.take(i + 1) == next);
                    }
                    return None;
                },
            };
            digits += 1;
            proof {
                assert(next[next.len() - digit_run(next) - 1] == seen[seen.len() - digit_run(seen)
                    - 1] || digit_run(seen) == 0 || next.len() - digit_run(next) - 1 < 0);
                if digit_run(seen) == 0 && i > 0 {
                    assert(next[i - 1] == text@[i - 1]);
                }
            }
        } else {
            if digits > 0 {
                numbers.push(
                    if negative {
                        -value
                    } else {
                        value
                    },
                );
            }
            value = 0;
            digits = 0;
        }
        proof {
            assert forall|n: int| 0 <= n <= i + 1 implies #[trigger] run_number(text@.take(n))
                <= i64::MAX by {
                if n == i + 1 {
                    assert(text@.take(n) == next);
                }
            }
        }
        i += 1;
    }
    proof {
        assert(text@.take(text@.len() as int) == text@);
    }
    if digits > 0 {
        numbers.push(
            if negative {
                -value
            } else {
                value
            },
        );
    }
    Some(numbers)
}

/// The characters that write the number `v`: a `-` for a negative number,
/// then its digits.
pub open spec fn shown_int(v: int) -> Seq<char> {
    if v < 0 {
        seq!['-'] + digits_of((-v) as nat)
    } else {
        digits_of(v as nat)
    }
}

/// Appends to `text` the characters that write `v`.
pub fn push_int(text: &mut String, v: i64)
    ensures
        final(text)@ == old(text)@ + shown_int(v as int),
{
    if v < 0 {
        string_push(text, '-');
        let size: u64 = ((-(v + 1)) as u64) + 1;
        push_number(text, size);
        proof {
            assert(final(text)@ =~= old(text)@ + shown_int(v as int));
        }
    } else {
        push_number(text, v as u64);
    }
}

/// The first empty line among the lines from `from` on, if there is one.
pub open spec fn first_blank(rows: Seq<Seq<u8>>, from: int) -> Option<int>
    decreases rows.len() - from,
{
    if from < 0 || from >= rows.len() {
        None
    } else if rows[from].len() == 0 {
        Some(from)
    } else {
        first_blank(rows, from + 1)
    }
}

/// Where the first empty line is found does not depend on where the search
/// starts before it.
pub proof fn lemma_first_blank(rows: Seq<Seq<u8>>, e: int)
    requires
        0 <= e < rows.len(),
        first_blank(rows, 0) == first_blank(rows, e),
        rows[e].len() != 0,
    ensures
        first_blank(rows, 0) matches Some(at) ==> at > e,
{
    lemma_first_blank_from(rows, e + 1);
}

/// An empty line found from `from` on lies at `from` or behind it.
proof fn lemma_first_blank_from(rows: Seq<Seq<u8>>, from: int)
    requires
        0 <= from,
    ensures
        first_blank(rows, from) matches Some(at) ==> at >= from && at < rows.len(),
    decreases rows.len() - from,
{
    if from < rows.len() && rows[from].len() != 0 {
        lemma_first_blank_from(rows, from + 1);
    }
}

} // verus!
