//! Directives: comments in a migration script that steer how it is run.
//!
//! A directive is recognised line by line, by a pattern searched for anywhere
//! in the line once the white space around the line is cut away.

use vstd::prelude::*;

verus! {

/// The directives that a script may hold.
#[derive(Debug, Clone, Copy, PartialEq, Eq, Structural)]
pub enum SqlDirective {
    /// What stands above this line, and the line itself, is sent to the
    /// database before the rest is read.
    Split,
}

/// What a search for the regular expression `pattern` in `haystack` gives:
/// `None` where `pattern` is no regular expression, else whether some part of
/// `haystack` matches it.
pub uninterp spec fn regex_search(pattern: Seq<char>, haystack: Seq<char>) -> Option<bool>;

/// The character is white space to `str::trim`: it has the Unicode property
/// White_Space.
pub uninterp spec fn white_space(c: char) -> bool;

/// `part` is what stands in `text` from `i` up to `j`, with nothing but white
/// space before and after it and none at its own two ends.
pub open spec fn trims_at(text: Seq<char>, part: Seq<char>, i: int, j: int) -> bool {
    &&& 0 <= i <= j <= text.len()
    &&& part == text.subrange(i, j)
    &&& forall|k: int| 0 <= k < i ==> white_space(#[trigger] text[k])
    &&& forall|k: int| j <= k < text.len() ==> white_space(#[trigger] text[k])
    &&& i < j ==> !white_space(text[i]) && !white_space(text[j - 1])
}

/// `part` is `text` without the white space at its two ends.
pub open spec fn is_trimmed(text: Seq<char>, part: Seq<char>) -> bool {
    exists|i: int, j: int| trims_at(text, part, i, j)
}

/// `text` without the white space at its two ends.
pub open spec fn trimmed(text: Seq<char>) -> Seq<char> {
    choose|part: Seq<char>| is_trimmed(text, part)
}

/// A text has one trimmed part only.
pub proof fn lemma_trimmed_is_unique(text: Seq<char>, part: Seq<char>)
    requires
        is_trimmed(text, part),
    ensures
        trimmed(text) == part,
{
    let other = trimmed(text);
    assert(is_trimmed(text, other));
    let (i1, j1) = choose|i: int, j: int| trims_at(text, part, i, j);
    let (i2, j2) = choose|i: int, j: int| trims_at(text, other, i, j);
    if i1 < j1 {
        assert(!white_space(text[i1]));
        assert(!white_space(text[j1 - 1]));
        assert(i2 <= i1 < j2);
        assert(!white_space(text[i2]));
        assert(!white_space(text[j2 - 1]));
        assert(i1 == i2 && j1 == j2);
    } else {
        if i2 < j2 {
            assert(!white_space(text[i2]));
            assert(white_space(text[i2]));
        }
        assert(text.subrange(i1, j1) =~= text.subrange(i2, j2));
    }
}

/// Compiles `pattern` with `regex::Regex::new` and searches `haystack` for it
/// with `Regex::is_match`. Nothing is proved of either: the result is taken to
/// be what `regex_search` names, the same for the same two texts.
#[verifier::external_body]
fn search(pattern: &str, haystack: &str) -> (r: Option<bool>)
    ensures
        r == regex_search(pattern@, haystack@),
{
    match regex::Regex::new(pattern) {
        Ok(re) => Some(re.is_match(haystack)),
        Err(_) => None,
    }
}

/// Cuts the white space off both ends with `str::trim`. Nothing is proved of
/// it: the result is taken to be a part of the text that has only white space
/// before and after it and none at its own ends, white space being what
/// `white_space` names.
#[verifier::external_body]
fn trim(text: &str) -> (r: &str)
    ensures
        is_trimmed(text@, r@),
        r@.len() > 0 ==> !white_space(r@.first()) && !white_space(r@.last()),
{
    text.trim()
}

impl SqlDirective {
    /// The regular expression that recognises the directive.
    pub open spec fn pattern(self) -> Seq<char> {
        match self {
            SqlDirective::Split => "--.*migren:split.*"@,
        }
    }

    /// The directive stands in `line`.
    pub open spec fn stands_in(self, line: Seq<char>) -> bool {
        regex_search(self.pattern(), trimmed(line)) == Some(true)
    }

    /// The directive that `line` holds: the first of all kinds that stands in
    /// it.
    pub open spec fn of_line(line: Seq<char>) -> Option<SqlDirective> {
        if SqlDirective::Split.stands_in(line) {
            Some(SqlDirective::Split)
        } else {
            None
        }
    }

    /// The regular expression that recognises the directive, as text.
    pub fn directive_regex(&self) -> (r: &'static str)
        ensures
            r@ == self.pattern(),
    {
        match self {
            SqlDirective::Split => "--.*migren:split.*",
        }
    }

    /// The part of `line` that is searched for directives: the line without
    /// the white space at its two ends.
    pub fn searched_text(line: &str) -> (r: &str)
        ensures
            is_trimmed(line@, r@),
            r@ == trimmed(line@),
    {
        let part = trim(line);
        proof {
            lemma_trimmed_is_unique(line@, part@);
        }
        part
    }

    /// From the outcome of a search for the directive's pattern: the directive
    /// where the search found it, nothing where it did not or could not run.
    pub fn when_found(self, searched: Option<bool>) -> (r: Option<Self>)
        ensures
            r == if searched == Some(true) {
                Some(self)
            } else {
                None::<Self>
            },
    {
        match searched {
            Some(true) => Some(self),
            _ => None,
        }
    }

    /// The directive itself where it stands in `line`, nothing where it does
    /// not.
    pub fn match_self_str(self, line: &str) -> (r: Option<Self>)
        ensures
            r == if self.stands_in(line@) {
                Some(self)
            } else {
                None::<Self>
            },
    {
        let searched = search(self.directive_regex(), Self::searched_text(line));
        self.when_found(searched)
    }

    /// The directive that `line` holds, if it holds one.
    pub fn match_str(line: &str) -> (r: Option<Self>)
        ensures
            r == Self::of_line(line@),
    {
        SqlDirective::Split.match_self_str(line)
    }
}

} // verus!
