//! Corrupted memory that holds multiply instructions such as `mul(2,4)`
//! between rubbish, and the switches `do()` and `don't()`.
use crate::scan::{decimal, is_digit};
use vstd::prelude::*;
use vstd::string::StringSliceAdditionalSpecFns;

verus! {

/// A multiplication found in the memory, with its two numbers.
#[derive(Clone, Copy, Debug, PartialEq, Eq, Structural)]
pub struct Mul(pub u32, pub u32);

impl Mul {
    /// The product of the two numbers.
    pub fn run(self) -> (product: u32)
        requires
            self.0 * self.1 <= u32::MAX,
        ensures
            product == self.0 * self.1,
    {
        self.0 * self.1
    }
}

/// Which part of the puzzle is asked for: only the second heeds `do()` and
/// `don't()`.
#[derive(Clone, Copy, Debug, PartialEq, Eq, Structural)]
pub enum Part {
    P1,
    P2,
}

/// Whether the bytes of `word` stand in `text` from place `i` on.
pub open spec fn has_word(text: Seq<u8>, i: int, word: Seq<u8>) -> bool {
    &&& 0 <= i
    &&& i + word.len() <= text.len()
    &&& text.subrange(i, i + word.len()) == word
}

/// The number of digits in a row in `text` from place `i` on.
pub open spec fn digits_from(text: Seq<u8>, i: int) -> nat
    decreases text.len() - i,
{
    if i < 0 || i >= text.len() || !is_digit(text[i]) {
        0
    } else {
        1 + digits_from(text, i + 1)
    }
}

/// The number written in `text` at place `i`, with the number of its
/// digits: a single `0`, or a digit other than `0` with all digits that
/// follow it. There is none when no digit stands there, and when the number
/// is above `u32::MAX`.
pub open spec fn number_at(text: Seq<u8>, i: int) -> Option<(nat, nat)> {
    if i < 0 || i >= text.len() || !is_digit(text[i]) {
        None
    } else if text[i] == 48 {
        Some((0nat, 1nat))
    } else {
        let len = digits_from(text, i);
        let value = decimal(text.subrange(i, i + len));
        if value <= u32::MAX {
            Some((value, len))
        } else {
            None
        }
    }
}

/// The bytes of `mul(`.
pub open spec fn mul_word() -> Seq<u8> {
    seq![109u8, 117u8, 108u8, 40u8]
}

/// The bytes of `do()`.
pub open spec fn do_word() -> Seq<u8> {
    seq![100u8, 111u8, 40u8, 41u8]
}

/// The bytes of `don't()`.
pub open spec fn dont_word() -> Seq<u8> {
    seq![100u8, 111u8, 110u8, 39u8, 116u8, 40u8, 41u8]
}

/// The multiply instruction written in `text` at place `i`, with its
/// length: `mul(`, a number, a comma, a number and `)`.
pub open spec fn mul_at(text: Seq<u8>, i: int) -> Option<(Mul, nat)> {
    if !has_word(text, i, mul_word()) {
        None
    } else {
        match number_at(text, i + 4) {
            None => None,
            Some((a, a_len)) => {
                let comma = i + 4 + a_len;
                if comma >= text.len() || text[comma] != 44 {
                    None
                } else {
                    match number_at(text, comma + 1) {
                        None => None,
                        Some((b, b_len)) => {
                            let close = comma + 1 + b_len;
                            if close >= text.len() || text[close] != 41 {
                                None
                            } else {
                                Some((Mul(a as u32, b as u32), (close + 1 - i) as nat))
                            }
                        },
                    }
                }
            },
        }
    }
}

/// The sum of the products of the multiply instructions found in `text`
/// from place `i` on, reading from left to right and going on behind each
/// thing found. With `switches` set, `do()` and `don't()` switch the
/// instructions on and off; `enabled` tells whether they are on.
pub open spec fn sum_from(text: Seq<u8>, i: int, enabled: bool, switches: bool) -> nat
    decreases text.len() - i,
{
    if i < 0 || i >= text.len() {
        0
    } else if switches && has_word(text, i, do_word()) {
        sum_from(text, i + 4, true, switches)
    } else if switches && has_word(text, i, dont_word()) {
        sum_from(text, i + 7, false, switches)
    } else if enabled && mul_at(text, i).is_some() {
        let (mul, len) = mul_at(text, i).unwrap();
        if len >= 1 {
            (mul.0 * mul.1) as nat + sum_from(text, i + len, enabled, switches)
        } else {
            0
        }
    } else {
        sum_from(text, i + 1, enabled, switches)
    }
}

/// Whether the bytes of `word` stand in `text` from place `i` on.
fn starts_with_at(text: &[u8], i: usize, word: &[u8]) -> (found: bool)
    ensures
        found == has_word(text@, i as int, word@),
{
    if i > text.len() || word.len() > text.len() - i {
        return false;
    }
    let n = text.len();
    let mut k: usize = 0;
    while k < word.len()
        invariant
            n == text@.len(),
            i + word@.len() <= text@.len(),
            k <= word@.len(),
            forall|j: int| 0 <= j < k ==> text@[i + j] == #[trigger] word@[j],
        decreases word@.len() - k,
    {
        if text[i + k] != word[k] {
            proof {
                assert(text@.subrange(i as int, i + word@.len())[k as int] == text@[i + k]);
            }
            return false;
        }
        k += 1;
    }
    proof {
        assert(text@.subrange(i as int, i + word@.len()) =~= word@);
    }
    true
}

/// The digits in a row from place `i` on are that many, and write what
/// their first digits write, shifted, and the last.
proof fn lemma_digits_from(text: Seq<u8>, i: int, k: int)
    requires
        0 <= i,
        0 <= k,
        i + k <= text.len(),
        forall|j: int| i <= j < i + k ==> is_digit(#[trigger] text[j]),
    ensures
        digits_from(text, i) >= k,
        i + k >= text.len() || !is_digit(text[i + k]) ==> digits_from(text, i) == k,
    decreases k,
{
    if k > 0 {
        lemma_digits_from(text, i + 1, k - 1);
    }
}

/// Reads the number written in `text` at place `i`.
fn parse_number(text: &[u8], i: usize) -> (found: Option<(u32, usize)>)
    ensures
        match found {
            Some((value, len)) => number_at(text@, i as int) == Some((value as nat, len as nat))
                && i + len <= text@.len() && len >= 1,
            None => number_at(text@, i as int).is_none(),
        },
{
    if i >= text.len() || text[i] < 48 || text[i] > 57 {
        return None;
    }
    if text[i] == 48 {
        return Some((0, 1));
    }
    let n = text.len();
    let mut value: u32 = 0;
    let mut k: usize = 0;
    let mut fits = true;
    while i + k < text.len() && 48 <= text[i + k] && text[i + k] <= 57
        invariant
            n == text@.len(),
            i < text@.len(),
            i + k <= text@.len(),
            forall|j: int| i <= j < i + k ==> is_digit(#[trigger] text@[j]),
            fits ==> value == decimal(text@.subrange(i as int, i + k)),
            !fits ==> decimal(text@.subrange(i as int, i + k)) > u32::MAX,
        decreases text@.len() - k,
    {
        let digit = (text[i + k] - 48) as u32;
        proof {
            let next = text@.subrange(i as int, i + k + 1);
            assert(next.drop_last() == text@.subrange(i as int, i + k));
            assert(next.last() == text@[i + k]);
        }
        if fits {
            match value.checked_mul(10) {
                Some(shifted) => match shifted.checked_add(digit) {
                    Some(sum) => {
                        value = sum;
                    },
                    None => {
                        fits = false;
                    },
                },
                None => {
                    fits = false;
                },
            }
        }
        k += 1;
    }
    proof {
        lemma_digits_from(text@, i as int, k as int);
    }
    if fits {
        Some((value, k))
    } else {
        None
    }
}

/// Reads the multiply instruction written in `text` at place `i`.
fn parse_mul(text: &[u8], i: usize) -> (found: Option<(Mul, usize)>)
    ensures
        match found {
            Some((mul, len)) => mul_at(text@, i as int) == Some((mul, len as nat)) && i + len
                <= text@.len() && len >= 1,
            None => mul_at(text@, i as int).is_none(),
        },
{
    let word: [u8; 4] = [109, 117, 108, 40];
    proof {
        assert(word@ =~= mul_word());
    }
    let n = text.len();
    assert(text@.len() == n);
    if !starts_with_at(text, i, word.as_slice()) {
        return None;
    }
    let (a, a_len) = match parse_number(text, i + 4) {
        Some(found) => found,
        None => {
            return None;
        },
    };
    let comma = i + 4 + a_len;
    if comma >= text.len() || text[comma] != 44 {
        return None;
    }
    let (b, b_len) = match parse_number(text, comma + 1) {
        Some(found) => found,
        None => {
            return None;
        },
    };
    let close = comma + 1 + b_len;
    if close >= text.len() || text[close] != 41 {
        return None;
    }
    Some((Mul(a, b), close + 1 - i))
}

/// Adds up the products of the multiply instructions in `input`; in part
/// two only of those that `do()` and `don't()` leave switched on. The result
/// is `None` when a product or the sum does not fit.
pub fn parse(input: &str, part: Part) -> (total: Option<u32>)
    ensures
        match total {
            Some(sum) => sum == sum_from(input.spec_bytes(), 0, true, part == Part::P2),
            None => sum_from(input.spec_bytes(), 0, true, part == Part::P2) > u32::MAX,
        },
{
    let text = input.as_bytes();
    let ghost whole = sum_from(text@, 0, true, part == Part::P2);
    let switches = part == Part::P2;
    let do_it: [u8; 4] = [100, 111, 40, 41];
    let do_not: [u8; 7] = [100, 111, 110, 39, 116, 40, 41];
    proof {
        assert(do_it@ =~= do_word());
        assert(do_not@ =~= dont_word());
    }
    let mut enabled = true;
    let mut i: usize = 0;
    let mut sum_of_product: u32 = 0;
    while i < text.len()
        invariant
            text@ == input.spec_bytes(),
            switches == (part == Part::P2),
            do_it@ == do_word(),
            do_not@ == dont_word(),
            whole == sum_from(text@, 0, true, switches),
            i <= text@.len(),
            whole == sum_of_product + sum_from(text@, i as int, enabled, switches),
        decreases text@.len() - i,
    {
        if switches {
            // Check if we should enable/disable multiplications.
            if starts_with_at(text, i, do_it.as_slice()) {
                enabled = true;
                i += 4;
                continue;
            }
            if starts_with_at(text, i, do_not.as_slice()) {
                enabled = false;
                i += 7;
                continue;
            }
        }
        // Do multiplications, if enabled and one is parsed.
        if enabled {
            if let Some((mul, chars_parsed)) = parse_mul(text, i) {
                let product = match mul.0.checked_mul(mul.1) {
                    Some(product) => product,
                    None => {
                        return None;
                    },
                };
                sum_of_product = match sum_of_product.checked_add(product) {
                    Some(sum) => sum,
                    None => {
                        return None;
                    },
                };
                i += chars_parsed;
                continue;
            }
        }
        i += 1;
    }
    Some(sum_of_product)
}

/// The sum of the products of all multiplications in `input`, or `None`
/// when it does not fit.
pub fn q1(input: &str) -> (total: Option<u32>)
    ensures
        match total {
            Some(sum) => sum == sum_from(input.spec_bytes(), 0, true, false),
            None => sum_from(input.spec_bytes(), 0, true, false) > u32::MAX,
        },
{
    parse(input, Part::P1)
}

/// The sum of the products of the multiplications in `input` that are
/// switched on, or `None` when it does not fit.
pub fn q2(input: &str) -> (total: Option<u32>)
    ensures
        match total {
            Some(sum) => sum == sum_from(input.spec_bytes(), 0, true, true),
            None => sum_from(input.spec_bytes(), 0, true, true) > u32::MAX,
        },
{
    parse(input, Part::P2)
}

} // verus!
