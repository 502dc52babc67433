//! Shell functions: their names (slugs) and what defines one.
pub mod repository;
pub mod zsh;

use vstd::prelude::*;
use crate::error::FunkyError;

verus! {

/// The slug `slug::slugify` makes of a text holding a non-ASCII character,
/// which it transliterates with the `deunicode` tables.
pub uninterp spec fn unicode_slugified(s: Seq<char>) -> Seq<char>;

/// Text made of ASCII characters only.
pub open spec fn is_ascii_text(s: Seq<char>) -> bool {
    forall|i: int| 0 <= i < s.len() ==> (#[trigger] s[i] as u32) < 0x80
}

/// The slug `slug::slugify` makes of a text: `ascii_slug` for ASCII text.
pub open spec fn slugified(s: Seq<char>) -> Seq<char> {
    if is_ascii_text(s) {
        ascii_slug(s)
    } else {
        unicode_slugified(s)
    }
}

pub open spec fn is_slug_char(c: char) -> bool {
    ('a' <= c && c <= 'z') || ('0' <= c && c <= '9') || c == '-'
}

/// Text of the form `slug::slugify` promises: only `a-z`, `0-9` and `-`,
/// no `-` at either end, never two `-` in a row.
pub open spec fn is_slug(s: Seq<char>) -> bool {
    &&& forall|i: int| 0 <= i < s.len() ==> is_slug_char(#[trigger] s[i])
    &&& s.len() > 0 ==> s[0] != '-' && s.last() != '-'
    &&& forall|i: int| 0 <= i < s.len() - 1 ==> !(#[trigger] s[i] == '-' && s[i + 1] == '-')
}

/// The slug rule on ASCII text, character by character: the slug so far and
/// whether it ends in a dash (true at the start, so no slug begins with one).
/// Lowercase letters and digits are kept, uppercase letters are lowercased,
/// and any other character becomes a dash unless one was just added.
pub open spec fn ascii_slug_run(s: Seq<char>) -> (Seq<char>, bool)
    decreases s.len(),
{
    if s.len() == 0 {
        (seq![], true)
    } else {
        let (t, dash) = ascii_slug_run(s.drop_last());
        let c = s.last();
        if ('a' <= c && c <= 'z') || ('0' <= c && c <= '9') {
            (t.push(c), false)
        } else if 'A' <= c && c <= 'Z' {
            (t.push(((c as u32) + 32) as char), false)
        } else if !dash {
            (t.push('-'), true)
        } else {
            (t, true)
        }
    }
}

/// The slug of ASCII text: the run above, without a dash at the end.
pub open spec fn ascii_slug(s: Seq<char>) -> Seq<char> {
    let t = ascii_slug_run(s).0;
    if t.len() > 0 && t.last() == '-' {
        t.drop_last()
    } else {
        t
    }
}

/// `slug::slugify`: on ASCII text the result is `ascii_slug`, the rule
/// `_slugify` applies byte by byte; on other text it is the slug named
/// `unicode_slugified`. Either way it has the form the crate documents
/// (`is_slug`). How non-ASCII characters are transliterated (the `deunicode`
/// tables) is left unsaid.
#[verifier::external_body]
pub(crate) fn slugify(s: &str) -> (r: String)
    ensures
        is_ascii_text(s@) ==> r@ == ascii_slug(s@),
        !is_ascii_text(s@) ==> r@ == unicode_slugified(s@),
        is_slug(r@),
{
    slug::slugify(s)
}


/// The name of a function as its file and the shell know it: a non-empty slug.
#[derive(Debug)]
pub struct Slug {
    value: String,
}

impl View for Slug {
    type V = Seq<char>;

    closed spec fn view(&self) -> Seq<char> {
        self.value@
    }
}

impl Slug {
    #[verifier::type_invariant]
    spec fn well_formed(self) -> bool {
        is_slug(self.value@) && self.value@.len() > 0
    }

    /// The slug of a name: `Ok` with the name slugified, or `InvalidName`
    /// when nothing of the name is left after slugifying.
    pub fn from_name(name: &str) -> (r: Result<Slug, FunkyError>)
        ensures
            match r {
                Ok(s) => s@ == slugified(name@) && slugified(name@).len() > 0 && is_slug(s@),
                Err(e) => slugified(name@).len() == 0 && (e matches FunkyError::InvalidName(m) && m@ == name@),
            },
    {
        let value = slugify(name);
        if value.as_str().is_empty() {
            Err(FunkyError::InvalidName(String::from_str(name)))
        } else {
            Ok(Slug { value })
        }
    }

    pub fn as_str(&self) -> (r: &str)
        ensures
            r@ == self@,
    {
        self.value.as_str()
    }
}

/// What defines a shell function: its name, the command it runs and the names
/// of its positional arguments.
#[derive(Debug)]
pub struct FunctionSpec {
    pub name: Slug,
    pub command: String,
    pub arguments: Vec<String>,
}

impl FunctionSpec {
    /// A function of the given name (slugified), command and argument names;
    /// `InvalidName` when the name has nothing a slug keeps.
    pub fn new(name: &str, command: String, arguments: Vec<String>) -> (r: Result<FunctionSpec, FunkyError>)
        ensures
            match r {
                Ok(f) => f.name@ == slugified(name@) && slugified(name@).len() > 0 && f.command@
                    == command@ && f.arguments@ == arguments@,
                Err(e) => slugified(name@).len() == 0 && (e matches FunkyError::InvalidName(m) && m@
                    == name@),
            },
    {
        match Slug::from_name(name) {
            Ok(slug) => Ok(FunctionSpec { name: slug, command, arguments }),
            Err(e) => Err(e),
        }
    }
}

} // verus!
