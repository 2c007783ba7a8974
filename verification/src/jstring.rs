//! string

use vstd::prelude::*;

verus! {

/// What `char::to_uppercase` of std gives for `c`: one character or more.
pub uninterp spec fn uppercase_of_char(c: char) -> Seq<char>;

/// What `str::to_lowercase` of std makes of the text `s`.
pub uninterp spec fn lowercase_of_text(s: Seq<char>) -> Seq<char>;

/// `n` spaces.
pub open spec fn spaces(n: nat) -> Seq<char> {
    Seq::new(n, |i: int| ' ')
}

/// `s` without the line ending at its end: without a final `\n`, and without
/// the `\r` in front of it where there is one.
pub open spec fn chomped(s: Seq<char>) -> Seq<char> {
    if s.len() > 0 && s.last() == '\n' {
        let t = s.drop_last();
        if t.len() > 0 && t.last() == '\r' {
            t.drop_last()
        } else {
            t
        }
    } else {
        s
    }
}

/// `s` in the middle of `width` characters, with spaces on both sides; where
/// their number is odd, the one more stands on the right.
pub open spec fn centered(s: Seq<char>, width: nat) -> Seq<char> {
    if width <= s.len() {
        s
    } else {
        let pad = (width - s.len()) as nat;
        spaces(pad / 2) + s + spaces((pad - pad / 2) as nat)
    }
}

/// `s` with its first character in upper case and the rest in lower case.
pub open spec fn capitalized(s: Seq<char>) -> Seq<char> {
    if s.len() == 0 {
        s
    } else {
        uppercase_of_char(s[0]) + lowercase_of_text(s.skip(1))
    }
}

/// `String::push` of std: the character is appended at the end.
pub assume_specification[ String::push ](s: &mut String, c: char)
    ensures
        final(s)@ == old(s)@.push(c),
;

/// `String::pop` of std: the last character is taken off and returned, or
/// `None` where the string is empty.
pub assume_specification[ String::pop ](s: &mut String) -> (r: Option<char>)
    ensures
        old(s)@.len() == 0 ==> r.is_none() && final(s)@ == old(s)@,
        old(s)@.len() > 0 ==> r == Some(old(s)@.last()) && final(s)@ == old(s)@.drop_last(),
;

/// `str::ends_with` of std, with a character as the pattern: the text is not
/// empty and that character is its last.
#[verifier::external_body]
fn ends_with_char(s: &str, c: char) -> (r: bool)
    ensures
        r == (s@.len() > 0 && s@.last() == c),
{
    s.ends_with(c)
}

/// `==` of std on two string slices: they hold the same characters.
#[verifier::external_body]
pub(crate) fn same_text(a: &str, b: &str) -> (r: bool)
    ensures
        r == (a@ == b@),
{
    a == b
}

/// `char::to_uppercase` of std, its characters collected in a string. What it
/// gives depends on the character alone; the contract gives it the name
/// `uppercase_of_char` and says no more of it.
#[verifier::external_body]
fn to_uppercase_char(c: char) -> (r: String)
    ensures
        r@ == uppercase_of_char(c),
{
    c.to_uppercase().to_string()
}

/// `str::to_lowercase` of std. What it gives depends on the text alone; the
/// contract gives it the name `lowercase_of_text` and says no more of it.
#[verifier::external_body]
fn to_lowercase_text(s: &str) -> (r: String)
    ensures
        r@ == lowercase_of_text(s@),
{
    s.to_lowercase()
}

/// Returns the characters of the string.
pub fn chars_of(s: &str) -> (v: Vec<char>)
    ensures
        v@ == s@,
{
    let mut v: Vec<char> = Vec::new();
    for c in it: s.chars()
        invariant
            it.seq() == s@,
            v@ == it.seq().take(it.index()),
    {
        assert(it.seq().take(it.index() + 1) == it.seq().take(it.index()).push(c));
        v.push(c);
    }
    assert(s@.take(s@.len() as int) == s@);
    v
}

/// Returns the reversed version of the input string.
pub fn str_rev(s: &str) -> (r: String)
    ensures
        r@ == s@.reverse(),
{
    let chars = chars_of(s);
    let n = chars.len();
    let mut r = String::new();
    let mut i: usize = n;
    while i > 0
        invariant
            n == chars@.len(),
            chars@ == s@,
            i <= n,
            r@ == s@.reverse().take(n - i),
        decreases i,
    {
        i -= 1;
        assert(s@.reverse().take(n - i) == s@.reverse().take(n - i - 1).push(chars@[i as int]));
        r.push(chars[i]);
    }
    assert(s@.reverse().take(n as int) == s@.reverse());
    r
}

/// Returns `true` if the given string is palindrome.
pub fn is_palindrome(s: &str) -> (r: bool)
    ensures
        r == (s@ == s@.reverse()),
{
    let reversed = str_rev(s);
    same_text(s, reversed.as_str())
}

/// Removes the trailing newline of the given string.
///
/// It modifies the string in place.
///
/// It was inspired by Perl's `chomp()`.
pub fn chomp(text: &mut String)
    ensures
        final(text)@ == chomped(old(text)@),
{
    if ends_with_char(text.as_str(), '\n') {
        text.pop();
        if ends_with_char(text.as_str(), '\r') {
            text.pop();
        }
    }
}

/// Appends `count` spaces to `text`.
fn push_spaces(text: &mut String, count: usize)
    ensures
        final(text)@ == old(text)@ + spaces(count as nat),
{
    let mut i: usize = 0;
    while i < count
        invariant
            i <= count,
            text@ == old(text)@ + spaces(i as nat),
        decreases count - i,
    {
        text.push(' ');
        i += 1;
        assert(text@ =~= old(text)@ + spaces(i as nat));
    }
}

/// Returns a centered string of length `width`.
///
/// Padding is done with spaces.
///
/// It's similar to Python's `str.center()`.
pub fn center(s: &str, width: usize) -> (r: String)
    ensures
        r@ == centered(s@, width as nat),
{
    let len = s.unicode_len();
    if width <= len {
        return s.to_owned();
    }
    let pad = width - len;
    let left = pad / 2;
    let right = pad - left;
    let mut r = String::new();
    push_spaces(&mut r, left);
    r.append(s);
    push_spaces(&mut r, right);
    assert(r@ =~= centered(s@, width as nat));
    r
}

/// Returns `first` followed by `rest`.
pub fn joined(first: &str, rest: &str) -> (r: String)
    ensures
        r@ == first@ + rest@,
{
    let mut r = first.to_owned();
    r.append(rest);
    r
}

/// Returns a capitalized version of the string.
///
/// More specifically, it makes the first character upper case and
/// the rest lower case.
///
/// It's like Python's `str.capitalize()`.
pub fn capitalize(s: &str) -> (r: String)
    ensures
        r@ == capitalized(s@),
        s@.len() == 0 ==> r@.len() == 0,
{
    if s.is_empty() {
        String::new()
    } else {
        let chars = chars_of(s);
        let first = to_uppercase_char(chars[0]);
        let tail = s.substring_char(1, chars.len());
        assert(tail@ == s@.skip(1));
        let rest = to_lowercase_text(tail);
        joined(first.as_str(), rest.as_str())
    }
}

} // verus!
