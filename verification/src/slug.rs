//! Display names (slugs).
//!
//! A slug is what people read; it appears in file names, wildcard patterns and import
//! matching, so it is normalised: lower case, runs of other characters collapsed into
//! a single `-`, no `-` at either end. Letters of any script are kept.

use vstd::prelude::*;
use crate::text::push_char;

verus! {

/// Whether `char::is_alphanumeric` holds of the character.
pub uninterp spec fn char_alnum(c: char) -> bool;

/// What `char::to_lowercase` yields for the character.
pub uninterp spec fn char_lower(c: char) -> Seq<char>;

pub open spec fn ascii_letter_or_digit(c: char) -> bool {
    ('a' <= c && c <= 'z') || ('A' <= c && c <= 'Z') || ('0' <= c && c <= '9')
}

pub open spec fn is_ascii_char(c: char) -> bool {
    (c as u32) < 128
}

/// Calls `char::is_alphanumeric` (alphabetic or numeric in Unicode). The contract
/// names the result and states what holds for ASCII: letters and digits are
/// alphanumeric, other ASCII characters are not.
#[verifier::external_body]
fn is_alphanumeric(c: char) -> (r: bool)
    ensures
        r == char_alnum(c),
        is_ascii_char(c) ==> (r == ascii_letter_or_digit(c)),
{
    c.is_alphanumeric()
}

/// Calls `char::to_lowercase` and collects what it yields (one or more characters).
/// The contract names the result and states the ASCII case: `A`–`Z` become `a`–`z`,
/// every other ASCII character stays as it is.
#[verifier::external_body]
fn lowercase(c: char) -> (r: Vec<char>)
    ensures
        r@ == char_lower(c),
        r@.len() >= 1,
        is_ascii_char(c) ==> r@ == seq![ascii_lower(c)],
{
    c.to_lowercase().collect()
}

pub open spec fn ascii_lower(c: char) -> char {
    if 'A' <= c && c <= 'Z' {
        ((c as u32) + 32) as char
    } else {
        c
    }
}

/// Whether the character counts as a letter or digit: the ASCII rule for ASCII
/// characters, `char::is_alphanumeric` for the rest.
pub open spec fn alnum(c: char) -> bool {
    if is_ascii_char(c) { ascii_letter_or_digit(c) } else { char_alnum(c) }
}

/// The lowercase form of a character: the ASCII rule for ASCII characters,
/// `char::to_lowercase` for the rest.
pub open spec fn lower_of(c: char) -> Seq<char> {
    if is_ascii_char(c) { seq![ascii_lower(c)] } else { char_lower(c) }
}

/// The slug of a text, read left to right: the text so far gives the output so far and
/// whether a separator is pending. An alphanumeric character emits a `-` first when a
/// separator is pending and something was already written, then its lowercase form;
/// any other character only makes a separator pending.
pub open spec fn slug_state(s: Seq<char>) -> (Seq<char>, bool)
    decreases s.len(),
{
    if s.len() == 0 {
        (seq![], false)
    } else {
        let prev = slug_state(s.drop_last());
        let c = s.last();
        if alnum(c) {
            let base = if prev.1 && prev.0.len() > 0 { prev.0.push('-') } else { prev.0 };
            (base + lower_of(c), false)
        } else {
            (prev.0, true)
        }
    }
}

/// The slug of a text.
pub open spec fn slug_of(s: Seq<char>) -> Seq<char> {
    slug_state(s).0
}

/// Normalises any text into a slug.
pub fn slugify(input: &str) -> (r: String)
    ensures
        r@ == slug_of(input@),
{
    let n = input.unicode_len();
    let mut out = String::new();
    let mut pending = false;
    let mut i: usize = 0;
    while i < n
        invariant
            n == input@.len(),
            i <= n,
            (out@, pending) == slug_state(input@.take(i as int)),
        decreases n - i,
    {
        let ch = input.get_char(i);
        proof {
            assert(input@.take(i + 1).drop_last() =~= input@.take(i as int));
            assert(input@.take(i + 1).last() == ch);
        }
        if is_alphanumeric(ch) {
            if pending && !out.as_str().is_empty() {
                push_char(&mut out, '-');
            }
            pending = false;
            let lower = lowercase(ch);
            let ghost before = out@;
            let mut k: usize = 0;
            while k < lower.len()
                invariant
                    k <= lower.len(),
                    out@ == before + lower@.take(k as int),
                decreases lower.len() - k,
            {
                push_char(&mut out, lower[k]);
                k += 1;
                assert(out@ =~= before + lower@.take(k as int));
            }
            assert(lower@.take(lower.len() as int) =~= lower@);
        } else {
            pending = true;
        }
        i += 1;
    }
    assert(input@.take(n as int) =~= input@);
    out
}

/// Whether a text already is a slug (non-empty and unchanged by [`slugify`]).
pub fn is_normalized(candidate: &str) -> (r: bool)
    ensures
        r == (candidate@.len() > 0 && slug_of(candidate@) == candidate@),
{
    if candidate.is_empty() {
        return false;
    }
    let s = slugify(candidate);
    s == candidate.to_string()
}


/// A character a slug can hold as it is: the separator, or a letter or digit that is
/// its own lowercase form.
pub open spec fn slug_char(c: char) -> bool {
    c == '-' || (alnum(c) && lower_of(c) == seq![c])
}

/// Text in slug shape, but for a possible `-` at the end: slug characters only, no `-`
/// first, never two `-` in a row.
pub open spec fn slug_shaped(t: Seq<char>) -> bool {
    &&& forall|i: int| 0 <= i < t.len() ==> slug_char(#[trigger] t[i])
    &&& t.len() > 0 ==> t[0] != '-'
    &&& forall|i: int| 0 <= i < t.len() - 1 ==> !(#[trigger] t[i] == '-' && t[i + 1] == '-')
}

/// Text in slug shape: [`slug_shaped`] and no `-` at the end.
pub open spec fn is_slug(t: Seq<char>) -> bool {
    slug_shaped(t) && (t.len() > 0 ==> t.last() != '-')
}

/// Every letter or digit of the text lowercases to letters or digits that are their own
/// lowercase forms (true of ASCII text; some other characters, such as `İ`, break it).
pub open spec fn lowercases_cleanly(s: Seq<char>) -> bool {
    forall|i: int| 0 <= i < s.len() && alnum(#[trigger] s[i]) ==> {
        &&& lower_of(s[i]).len() > 0
        &&& forall|k: int| 0 <= k < lower_of(s[i]).len() ==> #[trigger] lower_of(s[i])[k] != '-'
            && slug_char(lower_of(s[i])[k])
    }
}

proof fn lemma_slug_state_shape(s: Seq<char>)
    requires
        lowercases_cleanly(s),
    ensures
        is_slug(slug_state(s).0),
    decreases s.len(),
{
    if s.len() > 0 {
        let d = s.drop_last();
        assert(lowercases_cleanly(d)) by {
            assert forall|i: int| 0 <= i < d.len() && alnum(#[trigger] d[i]) implies {
                &&& lower_of(d[i]).len() > 0
                &&& forall|k: int| 0 <= k < lower_of(d[i]).len() ==> #[trigger] lower_of(d[i])[k] != '-'
                    && slug_char(lower_of(d[i])[k])
            } by {
                assert(d[i] == s[i]);
            }
        }
        lemma_slug_state_shape(d);
        let prev = slug_state(d);
        let c = s.last();
        if alnum(c) {
            assert(s[s.len() - 1] == c);
            let base = if prev.1 && prev.0.len() > 0 { prev.0.push('-') } else { prev.0 };
            let l = lower_of(c);
            let t = base + l;
            assert(t == slug_state(s).0);
            assert forall|i: int| 0 <= i < t.len() implies slug_char(#[trigger] t[i]) by {
                if i >= base.len() {
                    assert(t[i] == l[i - base.len()]);
                } else if i < prev.0.len() {
                    assert(t[i] == prev.0[i]);
                }
            }
            assert forall|i: int| 0 <= i < t.len() - 1 implies !(#[trigger] t[i] == '-' && t[i + 1] == '-') by {
                if i + 1 >= base.len() {
                    assert(t[i + 1] == l[i + 1 - base.len()]);
                } else if i + 1 < prev.0.len() {
                    assert(t[i] == prev.0[i] && t[i + 1] == prev.0[i + 1]);
                } else {
                    assert(t[i] == prev.0[i]);
                    assert(prev.0.last() == prev.0[i]);
                }
            }
            if base.len() > 0 {
                assert(t[0] == prev.0[0]);
            } else {
                assert(t[0] == l[0]);
            }
            assert(t.last() == l[l.len() - 1]);
        }
    }
}

proof fn lemma_slug_of_shaped(t: Seq<char>)
    requires
        slug_shaped(t),
    ensures
        slug_state(t) == (if t.len() > 0 && t.last() == '-' { (t.drop_last(), true) } else { (t, false) }),
    decreases t.len(),
{
    if t.len() > 0 {
        let d = t.drop_last();
        assert(slug_shaped(d)) by {
            assert forall|i: int| 0 <= i < d.len() implies slug_char(#[trigger] d[i]) by {
                assert(d[i] == t[i]);
            }
            assert forall|i: int| 0 <= i < d.len() - 1 implies !(#[trigger] d[i] == '-' && d[i + 1] == '-') by {
                assert(d[i] == t[i] && d[i + 1] == t[i + 1]);
            }
            if d.len() > 0 {
                assert(d[0] == t[0]);
            }
        }
        lemma_slug_of_shaped(d);
        let c = t.last();
        assert(slug_char(t[t.len() - 1]));
        if c == '-' {
            assert(t.len() > 1);
            assert(!(t[t.len() - 2] == '-' && t[t.len() - 1] == '-'));
            assert(d.last() == t[t.len() - 2]);
        } else {
            assert(alnum(c) && lower_of(c) == seq![c]);
            if d.len() > 0 && d.last() == '-' {
                assert(d.len() > 1) by {
                    assert(d[0] == t[0]);
                }
                assert(d.drop_last().push('-') =~= d);
            }
            assert(t =~= d + seq![c]);
        }
    }
}

/// Slugs are already normal: the slug of a text is a slug (no `-` at either end, never
/// two in a row), and taking the slug again changes nothing, for every text whose
/// letters lowercase cleanly.
pub proof fn lemma_slug_is_idempotent(s: Seq<char>)
    requires
        lowercases_cleanly(s),
    ensures
        is_slug(slug_of(s)),
        slug_of(slug_of(s)) == slug_of(s),
{
    lemma_slug_state_shape(s);
    lemma_slug_of_shaped(slug_of(s));
}

} // verus!
