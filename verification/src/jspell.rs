//! spell

use crate::jmath;
use crate::jmath::digits_of;
use vstd::prelude::*;

verus! {

/// The number `n` has a word of its own: the numbers up to 20, the tens up
/// to 90, 100 and 1000.
pub open spec fn has_word(n: i32) -> bool {
    0 <= n <= 20 || n == 30 || n == 40 || n == 50 || n == 60 || n == 70 || n == 80 || n == 90 || n
        == 100 || n == 1000
}

/// The word of a number that has one of its own.
pub open spec fn word_of(n: i32) -> Seq<char> {
    match n {
        0 => "zero"@,
        1 => "one"@,
        2 => "two"@,
        3 => "three"@,
        4 => "four"@,
        5 => "five"@,
        6 => "six"@,
        7 => "seven"@,
        8 => "eight"@,
        9 => "nine"@,
        10 => "ten"@,
        11 => "eleven"@,
        12 => "twelve"@,
        13 => "thirteen"@,
        14 => "fourteen"@,
        15 => "fifteen"@,
        16 => "sixteen"@,
        17 => "seventeen"@,
        18 => "eighteen"@,
        19 => "nineteen"@,
        20 => "twenty"@,
        30 => "thirty"@,
        40 => "forty"@,
        50 => "fifty"@,
        60 => "sixty"@,
        70 => "seventy"@,
        80 => "eighty"@,
        90 => "ninety"@,
        100 => "one hundred"@,
        1000 => "one thousand"@,
        _ => Seq::empty(),
    }
}

/// A number below 100 in words: its own word where it has one, else the word
/// of its tens, a hyphen and the word of its ones.
pub open spec fn spelled_below_hundred(n: nat) -> Seq<char> {
    if n < 20 || n % 10 == 0 {
        word_of(n as i32)
    } else {
        word_of((n - n % 10) as i32) + "-"@ + word_of((n % 10) as i32)
    }
}

/// A number up to 1000 in words.
pub open spec fn spelled(n: nat) -> Seq<char> {
    if n < 100 {
        spelled_below_hundred(n)
    } else if n < 1000 {
        if n % 100 == 0 {
            word_of((n / 100) as i32) + " hundred"@
        } else {
            word_of((n / 100) as i32) + " hundred and "@ + spelled_below_hundred(n % 100)
        }
    } else {
        word_of(1000)
    }
}

/// The digits of the numbers up to 1000, written out.
pub proof fn lemma_digits_up_to_thousand(n: nat)
    requires
        n <= 1000,
    ensures
        n < 10 ==> digits_of(n) == seq![n as i32],
        10 <= n < 100 ==> digits_of(n) == seq![(n / 10) as i32, (n % 10) as i32],
        100 <= n < 1000 ==> digits_of(n) == seq![
            (n / 100) as i32,
            (n / 10 % 10) as i32,
            (n % 10) as i32,
        ],
        n == 1000 ==> digits_of(n) == seq![1i32, 0i32, 0i32, 0i32],
{
    reveal_with_fuel(digits_of, 4);
    if n < 10 {
    } else if n < 100 {
        assert(digits_of(n) =~= seq![(n / 10) as i32, (n % 10) as i32]);
    } else if n < 1000 {
        assert(digits_of(n / 10) =~= seq![(n / 100) as i32, (n / 10 % 10) as i32]);
        assert(digits_of(n) =~= seq![(n / 100) as i32, (n / 10 % 10) as i32, (n % 10) as i32]);
    } else {
        assert(digits_of(100) =~= seq![1i32, 0i32, 0i32]);
        assert(digits_of(n) =~= seq![1i32, 0i32, 0i32, 0i32]);
    }
}

/// Returns the spelled (written out in words) version of the given number.
///
/// Current limitation: the number must be between 0 and 1000 (inclusive).
pub fn spell_number(n: u32) -> (r: String)
    requires
        n <= 1000,
    ensures
        r@ == spelled(n as nat),
{
    let digits = jmath::digits(n as u64);
    proof {
        lemma_digits_up_to_thousand(n as nat);
        if 10 <= n < 100 {
            assert(n / 10 * 10 + n % 10 == n);
        }
        if 100 <= n < 1000 {
            assert(n / 100 * 100 + n / 10 % 10 * 10 + n % 10 == n);
        }
    }
    match digits.len() {
        1 => length_1(digits.as_slice()),
        2 => length_2(digits.as_slice()),
        3 => length_3(digits.as_slice()),
        4 => length_4(digits.as_slice()),
        _ => String::new(),
    }
}

/// The table of the words.
fn number_word(n: i32) -> (r: Option<&'static str>)
    ensures
        r.is_some() == has_word(n),
        r.is_some() ==> r.unwrap()@ == word_of(n),
{
    match n {
        0 => Some("zero"),
        1 => Some("one"),
        2 => Some("two"),
        3 => Some("three"),
        4 => Some("four"),
        5 => Some("five"),
        6 => Some("six"),
        7 => Some("seven"),
        8 => Some("eight"),
        9 => Some("nine"),
        10 => Some("ten"),
        11 => Some("eleven"),
        12 => Some("twelve"),
        13 => Some("thirteen"),
        14 => Some("fourteen"),
        15 => Some("fifteen"),
        16 => Some("sixteen"),
        17 => Some("seventeen"),
        18 => Some("eighteen"),
        19 => Some("nineteen"),
        20 => Some("twenty"),
        30 => Some("thirty"),
        40 => Some("forty"),
        50 => Some("fifty"),
        60 => Some("sixty"),
        70 => Some("seventy"),
        80 => Some("eighty"),
        90 => Some("ninety"),
        100 => Some("one hundred"),
        1000 => Some("one thousand"),
        _ => None,
    }
}

/// The word of a number of one digit.
fn length_1(digits: &[i32]) -> (r: String)
    requires
        digits@.len() == 1,
        0 <= digits@[0] <= 9,
    ensures
        r@ == word_of(digits@[0]),
{
    number_word(digits[0]).unwrap().to_owned()
}

/// A number of two digits in words.
fn length_2(digits: &[i32]) -> (r: String)
    requires
        digits@.len() == 2,
        1 <= digits@[0] <= 9,
        0 <= digits@[1] <= 9,
    ensures
        r@ == spelled_below_hundred((digits@[0] * 10 + digits@[1]) as nat),
{
    let n = digits[0] * 10 + digits[1];
    if digits[0] == 1 {
        number_word(n).unwrap().to_owned()
    } else {
        if digits[1] == 0 {
            return number_word(n).unwrap().to_owned();
        }
        let n = digits[0] * 10;
        let mut r = number_word(n).unwrap().to_owned();
        r.append("-");
        r.append(number_word(digits[1]).unwrap());
        r
    }
}

/// A number of three digits in words.
fn length_3(digits: &[i32]) -> (r: String)
    requires
        digits@.len() == 3,
        1 <= digits@[0] <= 9,
        0 <= digits@[1] <= 9,
        0 <= digits@[2] <= 9,
    ensures
        r@ == spelled((digits@[0] * 100 + digits@[1] * 10 + digits@[2]) as nat),
{
    let head = digits[0];
    let tail = digits[1] * 10 + digits[2];
    let mut r = length_1(&[head]);
    if tail == 0 {
        r.append(" hundred");
    } else if tail < 10 {
        r.append(" hundred and ");
        r.append(length_1(&[tail]).as_str());
    } else {
        let tail_digits = jmath::digits(tail as u64);
        proof {
            lemma_digits_up_to_thousand(tail as nat);
        }
        r.append(" hundred and ");
        r.append(length_2(tail_digits.as_slice()).as_str());
    }
    r
}

/// The word of the one number of four digits that has one.
fn length_4(digits: &[i32]) -> (r: String)
    requires
        digits@ == seq![1i32, 0i32, 0i32, 0i32],
    ensures
        r@ == word_of(1000),
{
    let n = digits[0] * 1000 + digits[1] * 100 + digits[2] * 10 + digits[3];
    number_word(n).unwrap().to_owned()
}

} // verus!
