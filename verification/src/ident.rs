//! Validated identifiers: the short kebab-case tokens that name taxonomy
//! entries and make up the segments of a path.

use vstd::prelude::*;
use vstd::string::StrSliceExecFns;
use crate::error::Error;

verus! {

/// What heck's kebab-case conversion returns for a given character sequence.
pub uninterp spec fn kebab_of(s: Seq<char>) -> Seq<char>;

/// Relies on heck's `ToKebabCase::to_kebab_case` for `str`: the result
/// depends on the input characters alone.
#[verifier::external_body]
fn kebab_case(s: &str) -> (r: String)
    ensures
        r@ == kebab_of(s@),
{
    heck::ToKebabCase::to_kebab_case(s)
}

/// Whether the sequence holds the path separator anywhere.
pub open spec fn has_slash(s: Seq<char>) -> bool {
    exists|i: int| 0 <= i < s.len() && s[i] == '/'
}

/// A valid identifier is non-empty, free of the path separator, and equal to
/// its own kebab-case normalization.
pub open spec fn valid_identifier(s: Seq<char>) -> bool {
    s.len() > 0 && !has_slash(s) && kebab_of(s) == s
}

/// The error that identifier validation reports for the raw text `seg`: the
/// first violated rule, carrying the raw text.
pub open spec fn identifier_error_for(e: Error, seg: Seq<char>) -> bool {
    if seg.len() == 0 {
        e is EmptyIdentifier
    } else if has_slash(seg) {
        e matches Error::IdentifierContainsSlash { raw } && raw@ == seg
    } else {
        e matches Error::IdentifierNotKebabCase { raw } && raw@ == seg && kebab_of(seg)
            != seg
    }
}

/// Compares two string slices character by character.
pub fn str_eq(a: &str, b: &str) -> (r: bool)
    ensures
        r == (a@ == b@),
{
    let an = a.unicode_len();
    let bn = b.unicode_len();
    if an != bn {
        return false;
    }
    let mut i: usize = 0;
    while i < an
        invariant
            i <= an,
            an == a@.len(),
            an == b@.len(),
            forall|j: int| 0 <= j < i ==> a@[j] == b@[j],
        decreases an - i,
    {
        if a.get_char(i) != b.get_char(i) {
            return false;
        }
        i += 1;
    }
    proof {
        assert(a@ =~= b@);
    }
    true
}

/// Scans for the path separator.
fn contains_slash(s: &str) -> (r: bool)
    ensures
        r == has_slash(s@),
{
    let n = s.unicode_len();
    let mut i: usize = 0;
    while i < n
        invariant
            i <= n,
            n == s@.len(),
            forall|j: int| 0 <= j < i ==> s@[j] != '/',
        decreases n - i,
    {
        if s.get_char(i) == '/' {
            return true;
        }
        i += 1;
    }
    false
}

/// A kebab-case identifier free of the path separator: a taxonomy entry's
/// own name, and one segment of a path.
#[derive(Debug)]
pub struct Identifier {
    /// The identifier's text.
    pub text: String,
}

impl View for Identifier {
    type V = Seq<char>;

    open spec fn view(&self) -> Seq<char> {
        self.text@
    }
}

impl Clone for Identifier {
    fn clone(&self) -> (r: Self)
        ensures
            r@ == self@,
    {
        Identifier { text: self.text.clone() }
    }
}

impl PartialEq for Identifier {
    fn eq(&self, other: &Self) -> (r: bool) {
        self.text == other.text
    }
}

impl vstd::std_specs::cmp::PartialEqSpecImpl for Identifier {
    open spec fn obeys_eq_spec() -> bool {
        true
    }

    open spec fn eq_spec(&self, other: &Self) -> bool {
        self@ == other@
    }
}

impl Identifier {
    /// Validates `s` as an identifier: it must be non-empty, contain no `/`,
    /// and already be in kebab-case form. Construction is the only
    /// validation point; the value is immutable afterwards.
    pub fn parse(s: &str) -> (r: Result<Identifier, Error>)
        ensures
            r matches Ok(id) ==> valid_identifier(s@) && id@ == s@,
            valid_identifier(s@) ==> r is Ok,
            r matches Err(e) ==> !valid_identifier(s@) && identifier_error_for(e, s@),
    {
        if s.unicode_len() == 0 {
            return Err(Error::EmptyIdentifier);
        }
        if contains_slash(s) {
            return Err(Error::IdentifierContainsSlash { raw: s.to_owned() });
        }
        let k = kebab_case(s);
        if !str_eq(k.as_str(), s) {
            return Err(Error::IdentifierNotKebabCase { raw: s.to_owned() });
        }
        Ok(Identifier { text: s.to_owned() })
    }

    /// The identifier's text.
    pub fn as_str(&self) -> (r: &str)
        ensures
            r@ == self@,
    {
        self.text.as_str()
    }
}

} // verus!
