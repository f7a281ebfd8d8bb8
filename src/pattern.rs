use vstd::prelude::*;

verus! {

/// `lit` occurs in `h` starting at position `i`.
pub open spec fn occurs_at(h: Seq<char>, lit: Seq<char>, i: int) -> bool {
    0 <= i && i + lit.len() <= h.len() && h.subrange(i, i + lit.len()) == lit
}

/// `lit` occurs somewhere in `h`.
pub open spec fn occurs_in(h: Seq<char>, lit: Seq<char>) -> bool {
    exists|i: int| occurs_at(h, lit, i)
}

/// The first position at or after `i` where `lit` occurs in `h`.
pub open spec fn find_from(h: Seq<char>, lit: Seq<char>, i: int) -> Option<int>
    decreases h.len() + 1 - i,
{
    if i < 0 || i + lit.len() > h.len() {
        None
    } else if occurs_at(h, lit, i) {
        Some(i)
    } else {
        find_from(h, lit, i + 1)
    }
}

/// The first position at or after `k` that holds a line feed, or the length
/// of `h` when there is none.
pub open spec fn line_end(h: Seq<char>, k: int) -> int
    decreases h.len() - k,
{
    if k < 0 || k >= h.len() {
        h.len() as int
    } else if h[k] == '\n' {
        k
    } else {
        line_end(h, k + 1)
    }
}

/// What `lit(.*)` captures in `h`: the text that follows the first
/// occurrence of `lit`, up to the next line feed.
pub open spec fn rest_after(h: Seq<char>, lit: Seq<char>) -> Option<Seq<char>> {
    match find_from(h, lit, 0) {
        Some(i) => Some(h.subrange(i + lit.len(), line_end(h, i + lit.len()))),
        None => None,
    }
}

pub open spec fn is_meta(c: char) -> bool {
    c == '\\' || c == '.' || c == '+' || c == '*' || c == '?' || c == '(' || c == ')' || c
        == '|' || c == '[' || c == ']' || c == '{' || c == '}' || c == '^' || c == '$' || c
        == '#' || c == '&' || c == '-' || c == '~'
}

/// A short text with no character that the regex syntax treats specially,
/// so that it reads as itself inside a pattern.
pub open spec fn is_plain_literal(s: Seq<char>) -> bool {
    s.len() <= 64 && forall|i: int| 0 <= i < s.len() ==> !is_meta(#[trigger] s[i])
}

pub open spec fn opt_view(o: Option<String>) -> Option<Seq<char>> {
    match o {
        Some(s) => Some(s@),
        None => None,
    }
}

#[verifier::external_type_specification]
#[verifier::external_body]
pub struct ExRegex(regex::Regex);

/// Relies on regex::Regex::new: `lit(.*)` is valid syntax for a plain
/// literal and far below the size limit, so compiling it succeeds.
#[verifier::external_body]
fn compile_rest_capture(lit: &str) -> (r: regex::Regex)
    requires
        is_plain_literal(lit@),
{
    regex::Regex::new(&format!("{}(.*)", lit)).unwrap()
}

/// A matcher for lines that hold a fixed literal, capturing what follows it.
pub(crate) struct LinePattern {
    re: regex::Regex,
    lit: String,
}

impl LinePattern {
    pub(crate) closed spec fn literal(&self) -> Seq<char> {
        self.lit@
    }

    pub(crate) fn new(lit: &str) -> (r: LinePattern)
        requires
            is_plain_literal(lit@),
        ensures
            r.literal() == lit@,
    {
        LinePattern { re: compile_rest_capture(lit), lit: lit.to_owned() }
    }

    /// Relies on regex::Regex::captures with the pattern `lit(.*)` built by
    /// `new`: the leftmost match starts at the first occurrence of the
    /// literal, and `.` takes every character but a line feed.
    #[verifier::external_body]
    pub(crate) fn capture_rest(&self, line: &str) -> (r: Option<String>)
        ensures
            opt_view(r) == rest_after(line@, self.literal()),
    {
        self.re.captures(line).and_then(|c| c.get(1)).map(|m| m.as_str().to_string())
    }

    /// Relies on regex::Regex::is_match with the pattern `lit(.*)` built by
    /// `new`: it matches exactly where the literal occurs.
    #[verifier::external_body]
    pub(crate) fn is_match(&self, line: &str) -> (r: bool)
        ensures
            r == occurs_in(line@, self.literal()),
    {
        self.re.is_match(line)
    }
}

} // verus!
