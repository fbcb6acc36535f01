use crate::error::{parsing_error, Error, ErrorKind, ErrorView};
use crate::strings::{chars_of, range_equals};
use vstd::prelude::*;

verus! {

/// The keywords of the language.
#[derive(Debug, Clone, Copy, PartialEq, Eq, Structural)]
pub enum Keyword {
    Import,
    Export,
    Deftype,
    Defsig,
    Defprim,
    Defsum,
    Defprod,
    Defun,
    Defattrs,
}

/// How a keyword is written.
pub open spec fn spelling(k: Keyword) -> Seq<char> {
    match k {
        Keyword::Import => seq!['i', 'm', 'p', 'o', 'r', 't'],
        Keyword::Export => seq!['e', 'x', 'p', 'o', 'r', 't'],
        Keyword::Deftype => seq!['d', 'e', 'f', 't', 'y', 'p', 'e'],
        Keyword::Defsig => seq!['d', 'e', 'f', 's', 'i', 'g'],
        Keyword::Defprim => seq!['d', 'e', 'f', 'p', 'r', 'i', 'm'],
        Keyword::Defsum => seq!['d', 'e', 'f', 's', 'u', 'm'],
        Keyword::Defprod => seq!['d', 'e', 'f', 'p', 'r', 'o', 'd'],
        Keyword::Defun => seq!['d', 'e', 'f', 'u', 'n'],
        Keyword::Defattrs => seq!['d', 'e', 'f', 'a', 't', 't', 'r', 's'],
    }
}

/// The keyword written as `w`, if any.
pub open spec fn keyword_of(w: Seq<char>) -> Option<Keyword> {
    if w == spelling(Keyword::Import) {
        Some(Keyword::Import)
    } else if w == spelling(Keyword::Export) {
        Some(Keyword::Export)
    } else if w == spelling(Keyword::Deftype) {
        Some(Keyword::Deftype)
    } else if w == spelling(Keyword::Defsig) {
        Some(Keyword::Defsig)
    } else if w == spelling(Keyword::Defprim) {
        Some(Keyword::Defprim)
    } else if w == spelling(Keyword::Defsum) {
        Some(Keyword::Defsum)
    } else if w == spelling(Keyword::Defprod) {
        Some(Keyword::Defprod)
    } else if w == spelling(Keyword::Defun) {
        Some(Keyword::Defun)
    } else if w == spelling(Keyword::Defattrs) {
        Some(Keyword::Defattrs)
    } else {
        None
    }
}

/// Each keyword is read back from its spelling.
pub proof fn lemma_keyword_of_spelling(k: Keyword)
    ensures
        keyword_of(spelling(k)) == Some(k),
{
    assert(spelling(Keyword::Import) != spelling(Keyword::Export)) by {
        assert(spelling(Keyword::Import)[0] != spelling(Keyword::Export)[0]);
    }
    assert(spelling(Keyword::Import) != spelling(Keyword::Deftype));
    assert(spelling(Keyword::Import) != spelling(Keyword::Defsig));
    assert(spelling(Keyword::Import) != spelling(Keyword::Defprim));
    assert(spelling(Keyword::Import) != spelling(Keyword::Defsum));
    assert(spelling(Keyword::Import) != spelling(Keyword::Defprod));
    assert(spelling(Keyword::Import) != spelling(Keyword::Defun));
    assert(spelling(Keyword::Import) != spelling(Keyword::Defattrs));
    assert(spelling(Keyword::Export) != spelling(Keyword::Deftype));
    assert(spelling(Keyword::Export) != spelling(Keyword::Defsig));
    assert(spelling(Keyword::Export) != spelling(Keyword::Defprim));
    assert(spelling(Keyword::Export) != spelling(Keyword::Defsum));
    assert(spelling(Keyword::Export) != spelling(Keyword::Defprod));
    assert(spelling(Keyword::Export) != spelling(Keyword::Defun));
    assert(spelling(Keyword::Export) != spelling(Keyword::Defattrs));
    assert(spelling(Keyword::Deftype) != spelling(Keyword::Defsig));
    assert(spelling(Keyword::Deftype) != spelling(Keyword::Defprim)) by {
        assert(spelling(Keyword::Deftype)[3] != spelling(Keyword::Defprim)[3]);
    }
    assert(spelling(Keyword::Deftype) != spelling(Keyword::Defsum));
    assert(spelling(Keyword::Deftype) != spelling(Keyword::Defprod)) by {
        assert(spelling(Keyword::Deftype)[3] != spelling(Keyword::Defprod)[3]);
    }
    assert(spelling(Keyword::Deftype) != spelling(Keyword::Defun));
    assert(spelling(Keyword::Deftype) != spelling(Keyword::Defattrs));
    assert(spelling(Keyword::Defsig) != spelling(Keyword::Defprim));
    assert(spelling(Keyword::Defsig) != spelling(Keyword::Defsum)) by {
        assert(spelling(Keyword::Defsig)[4] != spelling(Keyword::Defsum)[4]);
    }
    assert(spelling(Keyword::Defsig) != spelling(Keyword::Defprod));
    assert(spelling(Keyword::Defsig) != spelling(Keyword::Defun));
    assert(spelling(Keyword::Defsig) != spelling(Keyword::Defattrs));
    assert(spelling(Keyword::Defprim) != spelling(Keyword::Defsum));
    assert(spelling(Keyword::Defprim) != spelling(Keyword::Defprod)) by {
        assert(spelling(Keyword::Defprim)[5] != spelling(Keyword::Defprod)[5]);
    }
    assert(spelling(Keyword::Defprim) != spelling(Keyword::Defun));
    assert(spelling(Keyword::Defprim) != spelling(Keyword::Defattrs));
    assert(spelling(Keyword::Defsum) != spelling(Keyword::Defprod));
    assert(spelling(Keyword::Defsum) != spelling(Keyword::Defun));
    assert(spelling(Keyword::Defsum) != spelling(Keyword::Defattrs));
    assert(spelling(Keyword::Defprod) != spelling(Keyword::Defun));
    assert(spelling(Keyword::Defprod) != spelling(Keyword::Defattrs));
    assert(spelling(Keyword::Defun) != spelling(Keyword::Defattrs));
}

fn spelled(k: Keyword) -> (v: Vec<char>)
    ensures
        v@ == spelling(k),
{
    let v = match k {
        Keyword::Import => vec!['i', 'm', 'p', 'o', 'r', 't'],
        Keyword::Export => vec!['e', 'x', 'p', 'o', 'r', 't'],
        Keyword::Deftype => vec!['d', 'e', 'f', 't', 'y', 'p', 'e'],
        Keyword::Defsig => vec!['d', 'e', 'f', 's', 'i', 'g'],
        Keyword::Defprim => vec!['d', 'e', 'f', 'p', 'r', 'i', 'm'],
        Keyword::Defsum => vec!['d', 'e', 'f', 's', 'u', 'm'],
        Keyword::Defprod => vec!['d', 'e', 'f', 'p', 'r', 'o', 'd'],
        Keyword::Defun => vec!['d', 'e', 'f', 'u', 'n'],
        Keyword::Defattrs => vec!['d', 'e', 'f', 'a', 't', 't', 'r', 's'],
    };
    assert(v@ =~= spelling(k));
    v
}

impl Keyword {
    /// The keyword spelled by `cs[start..end]`, if any.
    pub fn from_chars(cs: &Vec<char>, start: usize, end: usize) -> (k: Option<Keyword>)
        requires
            start <= end <= cs@.len(),
        ensures
            k == keyword_of(cs@.subrange(start as int, end as int)),
    {
        if range_equals(cs, start, end, &spelled(Keyword::Import)) {
            Some(Keyword::Import)
        } else if range_equals(cs, start, end, &spelled(Keyword::Export)) {
            Some(Keyword::Export)
        } else if range_equals(cs, start, end, &spelled(Keyword::Deftype)) {
            Some(Keyword::Deftype)
        } else if range_equals(cs, start, end, &spelled(Keyword::Defsig)) {
            Some(Keyword::Defsig)
        } else if range_equals(cs, start, end, &spelled(Keyword::Defprim)) {
            Some(Keyword::Defprim)
        } else if range_equals(cs, start, end, &spelled(Keyword::Defsum)) {
            Some(Keyword::Defsum)
        } else if range_equals(cs, start, end, &spelled(Keyword::Defprod)) {
            Some(Keyword::Defprod)
        } else if range_equals(cs, start, end, &spelled(Keyword::Defun)) {
            Some(Keyword::Defun)
        } else if range_equals(cs, start, end, &spelled(Keyword::Defattrs)) {
            Some(Keyword::Defattrs)
        } else {
            None
        }
    }

    /// The keyword written as `s`; an `UnknownKeyword` error, with no
    /// location, when `s` is no keyword.
    pub fn from_str(s: &str) -> (r: Result<Keyword, Error>)
        ensures
            r matches Ok(k) ==> keyword_of(s@) == Some(k),
            r is Err <==> keyword_of(s@) is None,
            r matches Err(e) ==> e@ == ErrorView::Parsing(ErrorKind::UnknownKeyword, None),
    {
        let cs = chars_of(s);
        assert(cs@.subrange(0, cs@.len() as int) =~= s@);
        match Keyword::from_chars(&cs, 0, cs.len()) {
            Some(k) => Ok(k),
            None => Err(parsing_error(ErrorKind::UnknownKeyword, None)),
        }
    }
}

} // verus!
