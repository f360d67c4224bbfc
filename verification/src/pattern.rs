//! Regular expressions from the `regex` crate, held together with the
//! pattern text they were compiled from so that contracts can speak of it.
use vstd::prelude::*;
use crate::text::str_to_string;

verus! {

/// `regex::Regex`, a compiled expression, held unopened.
#[verifier::external_type_specification]
#[verifier::external_body]
pub struct ExRegex(regex::Regex);

/// `regex::Error`, why a pattern did not compile, passed on unopened.
#[verifier::external_type_specification]
#[verifier::external_body]
pub struct ExRegexError(regex::Error);

/// Whether `regex::RegexBuilder` accepts `pattern` (with the given case
/// sensitivity) under its default size limits.
pub uninterp spec fn regex_compiles(pattern: Seq<char>, case_insensitive: bool) -> bool;

/// `Regex::is_match`: whether the compiled `pattern` matches anywhere in
/// `haystack`.
pub uninterp spec fn regex_is_match(pattern: Seq<char>, case_insensitive: bool, haystack: Seq<char>) -> bool;

/// `Regex::replace_all`: every non-overlapping match replaced by `rep`
/// (with `$name` group expansion).
pub uninterp spec fn regex_replace_all(
    pattern: Seq<char>,
    case_insensitive: bool,
    haystack: Seq<char>,
    rep: Seq<char>,
) -> Seq<char>;

/// `Regex::replace`: the first match replaced by `rep`.
pub uninterp spec fn regex_replace_first(
    pattern: Seq<char>,
    case_insensitive: bool,
    haystack: Seq<char>,
    rep: Seq<char>,
) -> Seq<char>;

/// `Regex::split`: the pieces of `haystack` between successive
/// non-overlapping matches, first to last.
pub uninterp spec fn regex_split(pattern: Seq<char>, case_insensitive: bool, haystack: Seq<char>) -> Seq<Seq<char>>;

/// `Regex::find_iter`: the text of each successive non-overlapping match.
pub uninterp spec fn regex_find_all(pattern: Seq<char>, case_insensitive: bool, haystack: Seq<char>) -> Seq<Seq<char>>;

/// Pieces with separators between them: `ps[0] seps[0] ps[1] ... ps[n]`.
pub open spec fn rejoin(ps: Seq<Seq<char>>, seps: Seq<Seq<char>>) -> Seq<char>
    decreases ps.len(),
{
    if ps.len() == 0 {
        seq![]
    } else if ps.len() == 1 {
        ps[0]
    } else {
        rejoin(ps.drop_last(), seps) + seps[ps.len() - 2] + ps.last()
    }
}

/// `regex_syntax::is_meta_character`.
pub open spec fn is_regex_meta(c: char) -> bool {
    c == '\\' || c == '.' || c == '+' || c == '*' || c == '?' || c == '(' || c == ')' || c == '|'
        || c == '[' || c == ']' || c == '{' || c == '}' || c == '^' || c == '$' || c == '#' || c
        == '&' || c == '-' || c == '~'
}

/// `regex::escape`: a backslash before every meta character.
pub open spec fn regex_escape_spec(s: Seq<char>) -> Seq<char>
    decreases s.len(),
{
    if s.len() == 0 {
        seq![]
    } else {
        regex_escape_spec(s.drop_last()) + if is_regex_meta(s.last()) {
            seq!['\\', s.last()]
        } else {
            seq![s.last()]
        }
    }
}

/// `regex::RegexBuilder::new(pattern).case_insensitive(ci).build()`;
/// succeeds exactly when the pattern compiles.
#[verifier::external_body]
fn compile_regex(pattern: &str, case_insensitive: bool) -> (r: Result<regex::Regex, regex::Error>)
    ensures
        r is Ok <==> regex_compiles(pattern@, case_insensitive),
{
    regex::RegexBuilder::new(pattern).case_insensitive(case_insensitive).build()
}

/// `regex::escape`: every regex meta character preceded by a backslash.
#[verifier::external_body]
pub(crate) fn escape(s: &str) -> (r: String)
    ensures
        r@ == regex_escape_spec(s@),
{
    regex::escape(s)
}

/// A compiled regular expression and the pattern it was compiled from.
pub struct Pattern {
    re: regex::Regex,
    source: String,
    case_insensitive: bool,
}

impl View for Pattern {
    type V = (Seq<char>, bool);

    closed spec fn view(&self) -> (Seq<char>, bool) {
        (self.source@, self.case_insensitive)
    }
}

/// `Regex::is_match` on the regex a [`Pattern`] holds (compiled from
/// `p@.0` with case-insensitivity `p@.1`).
#[verifier::external_body]
fn pattern_is_match(p: &Pattern, haystack: &str) -> (b: bool)
    ensures
        b == regex_is_match(p@.0, p@.1, haystack@),
{
    p.re.is_match(haystack)
}

/// `Regex::replace_all`; when nothing matches the haystack comes back
/// unchanged (as the crate documents).
#[verifier::external_body]
fn pattern_replace_all(p: &Pattern, haystack: &str, rep: &str) -> (r: String)
    ensures
        r@ == regex_replace_all(p@.0, p@.1, haystack@, rep@),
        !regex_is_match(p@.0, p@.1, haystack@) ==> r@ == haystack@,
{
    p.re.replace_all(haystack, rep).into_owned()
}

/// `Regex::replace` (first match only); when nothing matches the haystack
/// comes back unchanged (as the crate documents).
#[verifier::external_body]
fn pattern_replace_first(p: &Pattern, haystack: &str, rep: &str) -> (r: String)
    ensures
        r@ == regex_replace_first(p@.0, p@.1, haystack@, rep@),
        !regex_is_match(p@.0, p@.1, haystack@) ==> r@ == haystack@,
{
    p.re.replace(haystack, rep).into_owned()
}

/// `Regex::split`: the pieces between the matches `find_iter` reports, so
/// it yields one piece more than there are matches (the text after the
/// last match, possibly empty), and the pieces with the matches between
/// them make up the haystack.
#[verifier::external_body]
fn pattern_split(p: &Pattern, haystack: &str) -> (r: Vec<String>)
    ensures
        r@.map_values(|x: String| x@) == regex_split(p@.0, p@.1, haystack@),
        r@.len() == regex_find_all(p@.0, p@.1, haystack@).len() + 1,
        rejoin(r@.map_values(|x: String| x@), regex_find_all(p@.0, p@.1, haystack@)) == haystack@,
{
    p.re.split(haystack).map(|x| x.to_string()).collect()
}

/// `Regex::find_iter`, each match taken as its text.
#[verifier::external_body]
fn pattern_find_all(p: &Pattern, haystack: &str) -> (r: Vec<String>)
    ensures
        r@.map_values(|x: String| x@) == regex_find_all(p@.0, p@.1, haystack@),
{
    p.re.find_iter(haystack).map(|m| m.as_str().to_string()).collect()
}

impl Pattern {
    /// Compiles `source`; fails exactly when the regex crate rejects it.
    pub fn new(source: &str, case_insensitive: bool) -> (r: Result<Pattern, regex::Error>)
        ensures
            r is Ok <==> regex_compiles(source@, case_insensitive),
            r matches Ok(p) ==> p@ == (source@, case_insensitive),
    {
        match compile_regex(source, case_insensitive) {
            Ok(re) => Ok(Pattern { re, source: str_to_string(source), case_insensitive }),
            Err(e) => Err(e),
        }
    }

    pub fn is_match(&self, haystack: &str) -> (b: bool)
        ensures
            b == regex_is_match(self@.0, self@.1, haystack@),
    {
        pattern_is_match(self, haystack)
    }

    pub fn replace_all(&self, haystack: &str, rep: &str) -> (r: String)
        ensures
            r@ == regex_replace_all(self@.0, self@.1, haystack@, rep@),
            !regex_is_match(self@.0, self@.1, haystack@) ==> r@ == haystack@,
    {
        pattern_replace_all(self, haystack, rep)
    }

    pub fn split(&self, haystack: &str) -> (r: Vec<String>)
        ensures
            r@.map_values(|x: String| x@) == regex_split(self@.0, self@.1, haystack@),
            r@.len() == regex_find_all(self@.0, self@.1, haystack@).len() + 1,
            rejoin(regex_split(self@.0, self@.1, haystack@), regex_find_all(self@.0, self@.1, haystack@))
                == haystack@,
    {
        pattern_split(self, haystack)
    }

    pub fn find_all(&self, haystack: &str) -> (r: Vec<String>)
        ensures
            r@.map_values(|x: String| x@) == regex_find_all(self@.0, self@.1, haystack@),
    {
        pattern_find_all(self, haystack)
    }

    pub fn replace_first(&self, haystack: &str, rep: &str) -> (r: String)
        ensures
            r@ == regex_replace_first(self@.0, self@.1, haystack@, rep@),
            !regex_is_match(self@.0, self@.1, haystack@) ==> r@ == haystack@,
    {
        pattern_replace_first(self, haystack, rep)
    }
}

/// A fixed pattern matches: it compiles and matches `t`.
pub open spec fn fixed_match(pattern: Seq<char>, t: Seq<char>) -> bool {
    regex_compiles(pattern, false) && regex_is_match(pattern, false, t)
}

/// Every match of a fixed pattern removed (the text unchanged when the
/// pattern does not compile).
pub open spec fn fixed_strip(pattern: Seq<char>, t: Seq<char>) -> Seq<char> {
    if regex_compiles(pattern, false) {
        regex_replace_all(pattern, false, t, seq![])
    } else {
        t
    }
}

/// Whether the fixed (case-sensitive) `pattern` matches `text`.
pub fn fixed_is_match(pattern: &str, text: &str) -> (b: bool)
    ensures
        b == fixed_match(pattern@, text@),
{
    match Pattern::new(pattern, false) {
        Ok(p) => p.is_match(text),
        Err(_) => false,
    }
}

/// `text` with every match of the fixed `pattern` removed.
pub fn fixed_remove_all(pattern: &str, text: &str) -> (r: String)
    ensures
        r@ == fixed_strip(pattern@, text@),
{
    match Pattern::new(pattern, false) {
        Ok(p) => {
            let r = p.replace_all(text, "");
            proof {
                reveal_strlit("");
                assert(""@ =~= Seq::<char>::empty());
            }
            r
        },
        Err(_) => str_to_string(text),
    }
}

/// The first match of a fixed pattern removed (the text unchanged when
/// the pattern does not compile).
pub open spec fn fixed_strip_first(pattern: Seq<char>, t: Seq<char>) -> Seq<char> {
    if regex_compiles(pattern, false) {
        regex_replace_first(pattern, false, t, seq![])
    } else {
        t
    }
}

/// `text` with the first match of the fixed `pattern` removed.
pub fn fixed_remove_first(pattern: &str, text: &str) -> (r: String)
    ensures
        r@ == fixed_strip_first(pattern@, text@),
{
    match Pattern::new(pattern, false) {
        Ok(p) => {
            let r = p.replace_first(text, "");
            proof {
                reveal_strlit("");
                assert(""@ =~= Seq::<char>::empty());
            }
            r
        },
        Err(_) => str_to_string(text),
    }
}

} // verus!
