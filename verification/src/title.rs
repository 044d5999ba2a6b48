//! Validated display titles. Surrounding whitespace is a hard failure;
//! deviating from title case is accepted with an advisory warning.

use vstd::prelude::*;
use vstd::string::StrSliceExecFns;
use crate::error::Error;
use crate::error::Warning;

verus! {

/// What the titlecase crate returns for a given character sequence.
pub uninterp spec fn title_case_of(s: Seq<char>) -> Seq<char>;

/// Relies on `titlecase::titlecase`: the result depends on the input
/// characters alone.
#[verifier::external_body]
fn title_case(s: &str) -> (r: String)
    ensures
        r@ == title_case_of(s@),
{
    titlecase::titlecase(s)
}

/// The characters counted as whitespace at a title's edges: the Unicode
/// White_Space set.
pub open spec fn is_space(c: char) -> bool {
    ||| c == ' '
    ||| c == '\t'
    ||| c == '\n'
    ||| c == '\r'
    ||| c == '\u{b}'
    ||| c == '\u{c}'
    ||| c == '\u{85}'
    ||| c == '\u{a0}'
    ||| c == '\u{1680}'
    ||| c == '\u{2000}'
    ||| c == '\u{2001}'
    ||| c == '\u{2002}'
    ||| c == '\u{2003}'
    ||| c == '\u{2004}'
    ||| c == '\u{2005}'
    ||| c == '\u{2006}'
    ||| c == '\u{2007}'
    ||| c == '\u{2008}'
    ||| c == '\u{2009}'
    ||| c == '\u{200a}'
    ||| c == '\u{2028}'
    ||| c == '\u{2029}'
    ||| c == '\u{202f}'
    ||| c == '\u{205f}'
    ||| c == '\u{3000}'
}

/// A title in normal form carries no leading and no trailing whitespace.
pub open spec fn trimmed(s: Seq<char>) -> bool {
    s.len() == 0 || (!is_space(s[0]) && !is_space(s[s.len() - 1]))
}

/// Decides `is_space` for one character.
fn is_space_char(c: char) -> (r: bool)
    ensures
        r == is_space(c),
{
    c == ' ' || c == '\t' || c == '\n' || c == '\r' || c == '\u{b}' || c == '\u{c}' || c
        == '\u{85}' || c == '\u{a0}' || c == '\u{1680}' || c == '\u{2000}' || c == '\u{2001}' || c
        == '\u{2002}' || c == '\u{2003}' || c == '\u{2004}' || c == '\u{2005}' || c == '\u{2006}'
        || c == '\u{2007}' || c == '\u{2008}' || c == '\u{2009}' || c == '\u{200a}' || c
        == '\u{2028}' || c == '\u{2029}' || c == '\u{202f}' || c == '\u{205f}' || c == '\u{3000}'
}

/// A human-readable display title with no surrounding whitespace, ideally in
/// title case.
#[derive(Debug)]
pub struct Title {
    /// The title's text.
    pub text: String,
}

impl View for Title {
    type V = Seq<char>;

    open spec fn view(&self) -> Seq<char> {
        self.text@
    }
}

impl Clone for Title {
    fn clone(&self) -> (r: Self)
        ensures
            r@ == self@,
    {
        Title { text: self.text.clone() }
    }
}

/// The warning that title validation attaches to a title whose text is not
/// in title case, carrying the raw text and the title-cased form.
pub open spec fn title_warning_for(w: Option<Warning>, s: Seq<char>) -> bool {
    match w {
        Option::None => title_case_of(s) == s,
        Option::Some(wn) => wn matches Warning::TitleNotTitleCase { raw, suggested }
            && raw@ == s && suggested@ == title_case_of(s) && title_case_of(s) != s,
    }
}

impl Title {
    /// Validates `s` as a title. Surrounding whitespace fails hard; text
    /// that is not in title case is accepted unchanged, with a warning that
    /// carries the suggested title-cased form.
    pub fn parse(s: &str) -> (r: Result<(Title, Option<Warning>), Error>)
        ensures
            r matches Ok((t, w)) ==> trimmed(s@) && t@ == s@ && title_warning_for(w, s@),
            trimmed(s@) ==> r is Ok,
            r matches Err(e) ==> !trimmed(s@) && (e matches Error::TitleSurroundingWhitespace {
                raw } && raw@ == s@),
    {
        let cased = title_case(s);
        let warning: Option<Warning> = if !crate::ident::str_eq(cased.as_str(), s) {
            Some(
                Warning::TitleNotTitleCase {
                    raw: s.to_owned(),
                    suggested: cased,
                },
            )
        } else {
            None
        };
        let n = s.unicode_len();
        if n > 0 {
            if is_space_char(s.get_char(0)) || is_space_char(s.get_char(n - 1)) {
                return Err(Error::TitleSurroundingWhitespace { raw: s.to_owned() });
            }
        }
        Ok((Title { text: s.to_owned() }, warning))
    }

    /// The title's text.
    pub fn as_str(&self) -> (r: &str)
        ensures
            r@ == self@,
    {
        self.text.as_str()
    }
}

} // verus!
