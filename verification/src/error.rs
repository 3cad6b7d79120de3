//! What a failed parse reports.
use vstd::prelude::*;
use vstd::string::StringExecFns;

verus! {

/// The reason a text is not in the language.
#[derive(Clone, Copy, Debug, PartialEq, Eq, Hash, Structural)]
pub enum ErrorKind {
    /// An identifier was expected, and the position holds a reserved token
    /// or no identifier character at all.
    Lexical,
    /// A parenthesis or keyword is missing or unknown, or a typed list is
    /// broken off after its `-`.
    Structure,
    /// A mandatory section is absent or repeated, or a list that needs at
    /// least one entry has none.
    Cardinality,
    /// Input is left over after the closing parenthesis of the definition.
    Completeness,
}

/// A failure of the grammar: what went wrong, and at which character.
pub struct Failure {
    pub kind: ErrorKind,
    pub at: int,
}

/// The executable counterpart of [`Failure`], with the offset as a machine
/// integer.
#[derive(Clone, Copy, Debug, PartialEq, Eq)]
pub struct Fault {
    pub kind: ErrorKind,
    pub offset: usize,
}

impl View for Fault {
    type V = Failure;

    open spec fn view(&self) -> Failure {
        Failure { kind: self.kind, at: self.offset as int }
    }
}

/// Number of line feeds among the first `i` characters of `s`: the
/// zero-based line on which offset `i` lies. Offsets past the end lie on the
/// last line.
pub open spec fn line_of(s: Seq<char>, i: int) -> nat
    decreases i,
{
    if i <= 0 {
        0
    } else if i > s.len() {
        line_of(s, s.len() as int)
    } else {
        line_of(s, i - 1) + if s[i - 1] == '\n' {
            1nat
        } else {
            0nat
        }
    }
}

/// Number of characters between the start of its line and offset `i`.
pub open spec fn column_of(s: Seq<char>, i: int) -> nat
    decreases i,
{
    if i <= 0 {
        0
    } else if i > s.len() {
        column_of(s, s.len() as int)
    } else if s[i - 1] == '\n' {
        0
    } else {
        column_of(s, i - 1) + 1
    }
}

/// The error handed to callers: the kind of failure, where it lies in the
/// text that the caller handed in, and what was found there.
///
/// Offsets and columns count characters, not bytes; the byte offset of
/// character `offset` of a text `t` is the length in bytes of the first
/// `offset` characters of `t`.
#[derive(Clone, Copy, Debug, PartialEq, Eq)]
pub struct SyntaxError {
    /// What kind of failure it is.
    pub kind: ErrorKind,
    /// The number of characters before the place of the failure.
    pub offset: usize,
    /// The number of line feeds before it: its zero-based line.
    pub line: usize,
    /// The number of characters between the start of its line and it.
    pub column: usize,
    /// The character there, or nothing at the end of the text.
    pub found: Option<char>,
}

impl SyntaxError {
    /// `self` reports failure `f` of a parse of `s`: its kind, its offset in
    /// characters of `s`, the line and column of that offset in `s`, and the
    /// character of `s` there.
    pub open spec fn reports(self, s: Seq<char>, f: Failure) -> bool {
        &&& self.kind == f.kind
        &&& self.offset == f.at
        &&& self.line == line_of(s, f.at)
        &&& self.column == column_of(s, f.at)
        &&& self.found == if 0 <= f.at < s.len() {
            Some(s[f.at])
        } else {
            None
        }
    }

    /// What each kind of error says was expected.
    pub open spec fn expectation(kind: ErrorKind) -> Seq<char> {
        match kind {
            ErrorKind::Lexical => "expected an identifier"@,
            ErrorKind::Structure => "expected a parenthesis or keyword"@,
            ErrorKind::Cardinality => "expected each section once and no empty list"@,
            ErrorKind::Completeness => "expected the end of the text"@,
        }
    }

    /// The text of [`SyntaxError::message`]: what was expected, and what was
    /// found.
    pub open spec fn describe(self) -> Seq<char> {
        Self::expectation(self.kind) + match self.found {
            Some(c) => ", found `"@ + seq![c] + "`"@,
            None => ", found the end of the text"@,
        }
    }

    /// What the parser expected and what it found, in words.
    pub fn message(&self) -> (r: String)
        ensures
            r@ == self.describe(),
    {
        let mut text = match self.kind {
            ErrorKind::Lexical => String::from_str("expected an identifier"),
            ErrorKind::Structure => String::from_str("expected a parenthesis or keyword"),
            ErrorKind::Cardinality => String::from_str(
                "expected each section once and no empty list",
            ),
            ErrorKind::Completeness => String::from_str("expected the end of the text"),
        };
        match self.found {
            Some(c) => {
                text.append(", found `");
                text.push(c);
                text.append("`");
                assert(text@ =~= self.describe());
            },
            None => {
                text.append(", found the end of the text");
            },
        }
        text
    }
}

/// Both counts are bounded by the offset they are taken at.
proof fn lemma_position_bounds(s: Seq<char>, i: int)
    ensures
        line_of(s, i) <= if i < 0 { 0 } else { i },
        column_of(s, i) <= if i < 0 { 0 } else { i },
        i >= s.len() ==> line_of(s, i) == line_of(s, s.len() as int),
        i >= s.len() ==> column_of(s, i) == column_of(s, s.len() as int),
    decreases i,
{
    if i <= 0 {
    } else if i > s.len() {
        lemma_position_bounds(s, s.len() as int);
    } else {
        lemma_position_bounds(s, i - 1);
    }
}

/// The zero-based line and column of offset `offset` in `s`.
pub fn position(s: &[char], offset: usize) -> (p: (usize, usize))
    ensures
        p.0 == line_of(s@, offset as int),
        p.1 == column_of(s@, offset as int),
{
    let mut line: usize = 0;
    let mut column: usize = 0;
    let mut k: usize = 0;
    let stop: usize = if offset < s.len() {
        offset
    } else {
        s.len()
    };
    proof {
        lemma_position_bounds(s@, offset as int);
    }
    while k < stop
        invariant
            k <= stop <= s.len(),
            line == line_of(s@, k as int),
            column == column_of(s@, k as int),
            line <= k,
            column <= k,
        decreases stop - k,
    {
        if s[k] == '\n' {
            line = line + 1;
            column = 0;
        } else {
            column = column + 1;
        }
        k = k + 1;
    }
    (line, column)
}

/// Finds the line, the column and the character of a fault in the text it
/// arose from.
pub fn locate(s: &[char], fault: Fault) -> (e: SyntaxError)
    ensures
        e.reports(s@, fault@),
{
    let (line, column) = position(s, fault.offset);
    let found = if fault.offset < s.len() {
        Some(s[fault.offset])
    } else {
        None
    };
    SyntaxError { kind: fault.kind, offset: fault.offset, line, column, found }
}

} // verus!
