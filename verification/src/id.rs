//! Element identities.
//!
//! Every element has a permanent identity (an [`Id`]) and a display name (a slug).
//! Renaming changes only the slug; every cross reference goes through the id.

use vstd::prelude::*;

verus! {

/// The permanent identity of an element. It never changes once created.
#[derive(Debug, Clone, Eq, PartialOrd, Ord, Hash)]
pub struct Id(pub String);

impl View for Id {
    type V = Seq<char>;

    open spec fn view(&self) -> Seq<char> {
        self.0@
    }
}

impl PartialEq for Id {
    fn eq(&self, other: &Id) -> (r: bool) {
        self.0 == other.0
    }
}

impl vstd::std_specs::cmp::PartialEqSpecImpl for Id {
    open spec fn obeys_eq_spec() -> bool {
        true
    }

    open spec fn eq_spec(&self, other: &Id) -> bool {
        self.0@ == other.0@
    }
}

/// Lower-case hexadecimal digit.
pub open spec fn is_hex_digit(c: char) -> bool {
    ('0' <= c && c <= '9') || ('a' <= c && c <= 'f')
}

/// The hyphenated text of a version-4, RFC 4122 variant UUID: 36 characters, hyphens at
/// 8, 13, 18 and 23, lower-case hex elsewhere, `4` at 14 and one of `8`, `9`, `a`, `b`
/// at 19.
pub open spec fn uuid_v4_text(s: Seq<char>) -> bool {
    &&& s.len() == 36
    &&& forall|i: int| 0 <= i < 36 ==> if i == 8 || i == 13 || i == 18 || i == 23 {
        #[trigger] s[i] == '-'
    } else {
        is_hex_digit(s[i])
    }
    &&& s[14] == '4'
    &&& (s[19] == '8' || s[19] == '9' || s[19] == 'a' || s[19] == 'b')
}

/// Text of a fresh random UUID in its hyphenated form.
///
/// Calls `uuid::Uuid::new_v4` and its `Display`. The contract claims the shape of the
/// text (a version-4 UUID, hyphenated, lower case); which UUID comes back is chance and
/// is left unsaid.
#[verifier::external_body]
fn fresh_uuid_text() -> (s: String)
    ensures
        uuid_v4_text(s@),
{
    uuid::Uuid::new_v4().to_string()
}

impl Id {
    /// A new identity (a random UUID v4). Used when an element is created.
    pub fn generate() -> (r: Id)
        ensures
            uuid_v4_text(r@),
    {
        Id(fresh_uuid_text())
    }

    /// An identity from existing text. Used when reading files and in fixtures.
    pub fn new(raw: &str) -> (r: Id)
        ensures
            r@ == raw@,
    {
        Id(raw.to_string())
    }

    pub fn as_str(&self) -> (r: &str)
        ensures
            r@ == self@,
    {
        self.0.as_str()
    }

    /// The identity as an owned string (what its display shows).
    pub fn to_text(&self) -> (r: String)
        ensures
            r@ == self@,
    {
        self.0.clone()
    }

    /// Whether two identities are the same.
    pub fn same(&self, other: &Id) -> (r: bool)
        ensures
            r == (self@ == other@),
    {
        self.0 == other.0
    }

    /// A copy of this identity.
    pub fn copy(&self) -> (r: Id)
        ensures
            r@ == self@,
    {
        Id(self.0.clone())
    }
}

impl From<&str> for Id {
    fn from(raw: &str) -> Id {
        Id::new(raw)
    }
}

impl vstd::std_specs::convert::FromSpecImpl<&str> for Id {
    open spec fn obeys_from_spec() -> bool {
        false
    }

    open spec fn from_spec(v: &str) -> Id {
        choose|i: Id| i@ == v@
    }
}

impl From<String> for Id {
    fn from(raw: String) -> Id {
        Id(raw)
    }
}

impl vstd::std_specs::convert::FromSpecImpl<String> for Id {
    open spec fn obeys_from_spec() -> bool {
        false
    }

    open spec fn from_spec(v: String) -> Id {
        Id(v)
    }
}

} // verus!
