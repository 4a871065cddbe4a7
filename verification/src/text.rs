//! Small verified helpers on text, and the std calls that vstd does not specify.

use vstd::prelude::*;

verus! {

/// Appends one character. Calls `String::push`, which the documentation says
/// appends the given char to the end of the string.
#[verifier::external_body]
pub(crate) fn push_char(s: &mut String, c: char)
    ensures
        final(s)@ == old(s)@.push(c),
{
    s.push(c);
}

/// A string holding exactly these characters, in order.
pub(crate) fn string_of(cs: &Vec<char>) -> (r: String)
    ensures
        r@ == cs@,
{
    let mut out = String::new();
    let mut i: usize = 0;
    while i < cs.len()
        invariant
            i <= cs@.len(),
            out@ == cs@.take(i as int),
        decreases cs.len() - i,
    {
        push_char(&mut out, cs[i]);
        assert(cs@.take(i + 1) =~= cs@.take(i as int).push(cs@[i as int]));
        i += 1;
    }
    assert(cs@.take(i as int) =~= cs@);
    out
}

/// An owned copy of a string slice.
pub fn owned(s: &str) -> (r: String)
    ensures
        r@ == s@,
{
    s.to_string()
}

/// `a` followed by `b`.
pub fn concat2(a: &str, b: &str) -> (r: String)
    ensures
        r@ == a@ + b@,
{
    let mut out = a.to_string();
    out.append(b);
    out
}

/// `a`, `b` and `c` in a row.
pub fn concat3(a: &str, b: &str, c: &str) -> (r: String)
    ensures
        r@ == a@ + b@ + c@,
{
    let mut out = a.to_string();
    out.append(b);
    out.append(c);
    out
}

/// The decimal digits of a number, without leading zeros (`0` is `"0"`).
pub open spec fn decimal(n: nat) -> Seq<char>
    decreases n,
{
    if n < 10 {
        seq![digit_char(n)]
    } else {
        decimal(n / 10).push(digit_char(n % 10))
    }
}

pub open spec fn digit_char(d: nat) -> char {
    if d == 0 { '0' }
    else if d == 1 { '1' }
    else if d == 2 { '2' }
    else if d == 3 { '3' }
    else if d == 4 { '4' }
    else if d == 5 { '5' }
    else if d == 6 { '6' }
    else if d == 7 { '7' }
    else if d == 8 { '8' }
    else { '9' }
}

/// `s` with zeros in front until it is at least `width` long.
pub open spec fn zero_padded(s: Seq<char>, width: nat) -> Seq<char> {
    if s.len() >= width {
        s
    } else {
        Seq::new((width - s.len()) as nat, |i: int| '0') + s
    }
}

fn digit(d: u32) -> (c: char)
    requires
        d < 10,
    ensures
        c == digit_char(d as nat),
{
    if d == 0 { '0' }
    else if d == 1 { '1' }
    else if d == 2 { '2' }
    else if d == 3 { '3' }
    else if d == 4 { '4' }
    else if d == 5 { '5' }
    else if d == 6 { '6' }
    else if d == 7 { '7' }
    else if d == 8 { '8' }
    else { '9' }
}

/// The decimal digits of `n`, most significant first.
pub fn decimal_chars(n: u32) -> (r: Vec<char>)
    ensures
        r@ == decimal(n as nat),
    decreases n,
{
    if n < 10 {
        let mut v: Vec<char> = Vec::new();
        v.push(digit(n));
        proof {
            assert(v@ =~= seq![digit_char(n as nat)]);
        }
        v
    } else {
        let mut v = decimal_chars(n / 10);
        v.push(digit(n % 10));
        v
    }
}

/// `n` in decimal, zero-padded to at least `width` characters.
pub fn decimal_padded(n: u32, width: u32) -> (r: String)
    ensures
        r@ == zero_padded(decimal(n as nat), width as nat),
{
    let digits = decimal_chars(n);
    let mut out = String::new();
    if digits.len() < width as usize {
        let zeros = width as usize - digits.len();
        let mut i: usize = 0;
        while i < zeros
            invariant
                i <= zeros,
                out@ == Seq::new(i as nat, |k: int| '0'),
            decreases zeros - i,
        {
            push_char(&mut out, '0');
            i += 1;
            assert(out@ =~= Seq::new(i as nat, |k: int| '0'));
        }
    }
    let mut j: usize = 0;
    let ghost lead = out@;
    while j < digits.len()
        invariant
            j <= digits.len(),
            out@ == lead + digits@.take(j as int),
        decreases digits.len() - j,
    {
        push_char(&mut out, digits[j]);
        j += 1;
        assert(out@ =~= lead + digits@.take(j as int));
    }
    assert(digits@.take(digits.len() as int) =~= digits@);
    proof {
        if digits@.len() < width {
            assert(lead =~= Seq::new((width - digits@.len()) as nat, |k: int| '0'));
        } else {
            assert(lead =~= Seq::<char>::empty());
        }
    }
    out
}

/// Whether the character is white space, as `char::is_whitespace` decides it.
fn is_whitespace(c: char) -> (r: bool)
    ensures
        r == char_is_space(c),
{
    reveal(char_is_space);
    ('\u{9}' <= c && c <= '\u{d}') || c == ' ' || c == '\u{85}' || c == '\u{a0}' || c == '\u{1680}'
        || ('\u{2000}' <= c && c <= '\u{200a}') || c == '\u{2028}' || c == '\u{2029}' || c == '\u{202f}'
        || c == '\u{205f}' || c == '\u{3000}'
}

/// Whether the text has only blanks (Unicode white space) or nothing at all.
pub(crate) fn is_blank(s: &str) -> (r: bool)
    ensures
        r == (forall|i: int| 0 <= i < s@.len() ==> char_is_space(#[trigger] s@[i])),
{
    let n = s.unicode_len();
    let mut i: usize = 0;
    while i < n
        invariant
            n == s@.len(),
            i <= n,
            forall|k: int| 0 <= k < i ==> char_is_space(#[trigger] s@[k]),
        decreases n - i,
    {
        if !is_whitespace(s.get_char(i)) {
            return false;
        }
        i += 1;
    }
    true
}

/// Whether every character is white space (an empty text counts).
pub open spec fn blank(s: Seq<char>) -> bool {
    forall|i: int| 0 <= i < s.len() ==> char_is_space(#[trigger] s[i])
}

/// The decimal digits of a number, most significant first, as text.
pub fn decimal_text(n: u64) -> (r: String)
    ensures
        r@ == decimal(n as nat),
{
    let v = decimal_chars64(n);
    string_of(&v)
}

fn digit64(d: u64) -> (c: char)
    requires
        d < 10,
    ensures
        c == digit_char(d as nat),
{
    digit(d as u32)
}

fn decimal_chars64(n: u64) -> (r: Vec<char>)
    ensures
        r@ == decimal(n as nat),
    decreases n,
{
    if n < 10 {
        let mut v: Vec<char> = Vec::new();
        v.push(digit64(n));
        proof {
            assert(v@ =~= seq![digit_char(n as nat)]);
        }
        v
    } else {
        let mut v = decimal_chars64(n / 10);
        v.push(digit64(n % 10));
        v
    }
}

/// Unicode `White_Space`, the characters `char::is_whitespace` accepts and `str::trim`
/// removes: tab to carriage return, space, next line, no-break space, ogham space mark,
/// the spaces from en quad to hair space, line and paragraph separators, narrow
/// no-break space, medium mathematical space and ideographic space.
#[verifier::opaque]
pub open spec fn char_is_space(c: char) -> bool {
    ('\u{9}' <= c && c <= '\u{d}') || c == ' ' || c == '\u{85}' || c == '\u{a0}' || c == '\u{1680}'
        || ('\u{2000}' <= c && c <= '\u{200a}') || c == '\u{2028}' || c == '\u{2029}' || c == '\u{202f}'
        || c == '\u{205f}' || c == '\u{3000}'
}

/// The part of the text without leading and trailing white space.
pub(crate) fn trim_str(s: &str) -> (r: &str)
    ensures
        r@ == trim_spec(s@),
{
    reveal(trim_spec);
    let n = s.unicode_len();
    let mut a: usize = 0;
    while a < n
        invariant
            n == s@.len(),
            a <= n,
            forall|k: int| 0 <= k < a ==> char_is_space(#[trigger] s@[k]),
        ensures
            a <= n,
            forall|k: int| 0 <= k < a ==> char_is_space(#[trigger] s@[k]),
            a < n ==> !char_is_space(s@[a as int]),
        decreases n - a,
    {
        if !is_whitespace(s.get_char(a)) {
            break;
        }
        a += 1;
    }
    if a == n {
        assert(s@.subrange(0, 0) =~= Seq::<char>::empty());
        return s.substring_char(0, 0);
    }
    assert(!char_is_space(s@[a as int]));
    let mut b: usize = n - 1;
    while b > a
        invariant
            n == s@.len(),
            a <= b < n,
            !char_is_space(s@[a as int]),
            forall|k: int| b < k < n ==> char_is_space(#[trigger] s@[k]),
        ensures
            a <= b < n,
            forall|k: int| b < k < n ==> char_is_space(#[trigger] s@[k]),
            !char_is_space(s@[b as int]),
        decreases b,
    {
        if !is_whitespace(s.get_char(b)) {
            break;
        }
        b -= 1;
    }
    proof {
        if b == a {
            assert(!char_is_space(s@[b as int]));
        }
        let ca = choose|x: int| 0 <= x < s@.len() && !char_is_space(s@[x]) && forall|k: int| 0 <= k < x ==> char_is_space(
            #[trigger] s@[k]);
        let cb = choose|x: int| 0 <= x < s@.len() && !char_is_space(s@[x]) && forall|k: int| x < k < s@.len() ==> char_is_space(
            #[trigger] s@[k]);
        assert(!char_is_space(s@[b as int]));
        assert(ca == a) by {
            if ca < a {
                assert(char_is_space(s@[ca]));
            }
            if ca > a {
                assert(char_is_space(s@[a as int]));
            }
        }
        assert(cb == b) by {
            if cb < b {
                assert(char_is_space(s@[b as int]));
            }
            if cb > b {
                assert(char_is_space(s@[cb]));
            }
        }
    }
    s.substring_char(a, b + 1)
}

/// The text without leading and trailing white space, as a new string.
pub(crate) fn trimmed(s: &str) -> (r: String)
    ensures
        r@ == trim_spec(s@),
{
    owned(trim_str(s))
}

/// What `str::trim` leaves of a text: the part between the first and the last
/// non-white-space characters.
#[verifier::opaque]
pub open spec fn trim_spec(s: Seq<char>) -> Seq<char> {
    if forall|i: int| 0 <= i < s.len() ==> char_is_space(#[trigger] s[i]) {
        seq![]
    } else {
        let a = choose|a: int| 0 <= a < s.len() && !char_is_space(s[a]) && forall|k: int| 0 <= k < a ==> char_is_space(#[trigger] s[k]);
        let b = choose|b: int| 0 <= b < s.len() && !char_is_space(s[b]) && forall|k: int| b < k < s.len() ==> char_is_space(#[trigger] s[k]);
        s.subrange(a, b + 1)
    }
}

} // verus!
