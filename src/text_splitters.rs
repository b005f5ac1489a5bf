use vstd::prelude::*;

use crate::error::IndexError;

verus! {

pub open spec fn strings_view(v: Seq<String>) -> Seq<Seq<char>> {
    v.map_values(|s: String| s@)
}

/// Whether the regex crate accepts `pattern`.
pub uninterp spec fn regex_compiles(pattern: Seq<char>) -> bool;

/// The pieces of `text` between successive matches of `pattern`.
pub uninterp spec fn regex_pieces(pattern: Seq<char>, text: Seq<char>) -> Seq<Seq<char>>;

/// Relies on regex::Regex::new, which accepts or refuses a pattern by its text
/// alone, and on regex::Regex::split, whose pieces are the text between matches.
#[verifier::external_body]
fn split_on_pattern(pattern: &str, text: &str) -> (r: Option<Vec<String>>)
    ensures
        r is Some <==> regex_compiles(pattern@),
        r matches Some(v) ==> strings_view(v@) == regex_pieces(pattern@, text@),
{
    match regex::Regex::new(pattern) {
        Ok(re) => Some(re.split(text).map(|piece| piece.to_string()).collect()),
        Err(_) => None,
    }
}

/// Relies on str::chars: the characters of the string, in order.
#[verifier::external_body]
fn chars_of(s: &str) -> (r: Vec<char>)
    ensures
        r@ == s@,
{
    s.chars().collect()
}

/// Relies on String's FromIterator<&char>: the string of these characters.
#[verifier::external_body]
fn string_of(v: &[char]) -> (r: String)
    ensures
        r@ == v@,
{
    v.iter().collect()
}

/// A line without the carriage return that may end it.
pub open spec fn strip_cr(line: Seq<char>) -> Seq<char> {
    if line.len() > 0 && line.last() == '\r' {
        line.drop_last()
    } else {
        line
    }
}

/// Appends a finished line to `done`, unless it is empty.
pub open spec fn emit_line(done: Seq<Seq<char>>, cur: Seq<char>) -> Seq<Seq<char>> {
    if strip_cr(cur).len() == 0 {
        done
    } else {
        done.push(strip_cr(cur))
    }
}

/// Reading `s` left to right: the lines finished so far and the line being read.
pub open spec fn scan_lines(s: Seq<char>) -> (Seq<Seq<char>>, Seq<char>)
    decreases s.len(),
{
    if s.len() == 0 {
        (Seq::empty(), Seq::empty())
    } else {
        let prev = scan_lines(s.drop_last());
        if s.last() == '\n' {
            (emit_line(prev.0, prev.1), Seq::empty())
        } else {
            (prev.0, prev.1.push(s.last()))
        }
    }
}

/// The non-empty lines of `s`, in order.
pub open spec fn new_line_pieces(s: Seq<char>) -> Seq<Seq<char>> {
    let st = scan_lines(s);
    emit_line(st.0, st.1)
}

/// How a document's text is cut into fragments.
#[derive(Debug)]
pub enum TextSplitterKind {
    /// The whole text is one fragment.
    Whole,
    /// One fragment per non-empty line.
    NewLine,
    /// The pieces between matches of a regular expression.
    Regex { pattern: String },
}

/// The fragments of `text` under `kind`, or `None` when the pattern does not compile.
pub open spec fn split_result(kind: TextSplitterKind, text: Seq<char>) -> Option<Seq<Seq<char>>> {
    match kind {
        TextSplitterKind::Whole => Some(seq![text]),
        TextSplitterKind::NewLine => Some(new_line_pieces(text)),
        TextSplitterKind::Regex { pattern } => if regex_compiles(pattern@) {
            Some(regex_pieces(pattern@, text))
        } else {
            None
        },
    }
}

/// Whether the splitter can be used: a regex pattern must compile.
pub open spec fn splitter_ok(kind: TextSplitterKind) -> bool {
    match kind {
        TextSplitterKind::Regex { pattern } => regex_compiles(pattern@),
        _ => true,
    }
}

fn emit_exec(done: &mut Vec<String>, cur: &Vec<char>)
    ensures
        strings_view(final(done)@) == emit_line(strings_view(old(done)@), cur@),
{
    let mut end: usize = cur.len();
    if end > 0 && cur[end - 1] == '\r' {
        end = end - 1;
    }
    assert(cur@.subrange(0, end as int) =~= strip_cr(cur@));
    if end > 0 {
        let line = string_of(&cur.as_slice()[0..end]);
        done.push(line);
        assert(strings_view(done@) =~= strings_view(old(done)@).push(line@));
    }
}

/// The non-empty lines of `text`, without line terminators.
pub fn split_lines(text: &str) -> (r: Vec<String>)
    ensures
        strings_view(r@) == new_line_pieces(text@),
{
    let chars = chars_of(text);
    let mut done: Vec<String> = Vec::new();
    let mut cur: Vec<char> = Vec::new();
    let mut i: usize = 0;
    assert(chars@.take(0) =~= Seq::<char>::empty());
    assert(strings_view(done@) =~= Seq::<Seq<char>>::empty());
    while i < chars.len()
        invariant
            chars@ == text@,
            i <= chars@.len(),
            (strings_view(done@), cur@) == scan_lines(chars@.take(i as int)),
        decreases chars@.len() - i,
    {
        let c = chars[i];
        assert(chars@.take(i as int + 1).drop_last() =~= chars@.take(i as int));
        if c == '\n' {
            emit_exec(&mut done, &cur);
            cur = Vec::new();
            assert(cur@ =~= Seq::<char>::empty());
        } else {
            cur.push(c);
        }
        i = i + 1;
    }
    assert(chars@.take(i as int) =~= chars@);
    emit_exec(&mut done, &cur);
    done
}

impl TextSplitterKind {
    /// Cuts `text` into fragments; a regex pattern that does not compile is refused.
    pub fn split(&self, text: &String) -> (r: Result<Vec<String>, IndexError>)
        ensures
            match split_result(*self, text@) {
                Some(pieces) => r matches Ok(v) && strings_view(v@) == pieces,
                None => r matches Err(IndexError::InvalidSplitterPattern),
            },
    {
        match self {
            TextSplitterKind::Whole => {
                let v = vec![text.clone()];
                assert(strings_view(v@) =~= seq![text@]);
                Ok(v)
            },
            TextSplitterKind::NewLine => Ok(split_lines(text.as_str())),
            TextSplitterKind::Regex { pattern } => match split_on_pattern(
                pattern.as_str(),
                text.as_str(),
            ) {
                Some(v) => Ok(v),
                None => Err(IndexError::InvalidSplitterPattern),
            },
        }
    }

    /// Tells whether the splitter can be used.
    pub fn is_usable(&self) -> (r: bool)
        ensures
            r == splitter_ok(*self),
    {
        match self {
            TextSplitterKind::Regex { pattern } => split_on_pattern(pattern.as_str(), "").is_some(),
            _ => true,
        }
    }
}

} // verus!
