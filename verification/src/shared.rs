//! The lexical layer: white space, identifiers and comments.
use crate::error::{column_of, line_of, locate, ErrorKind, Failure, Fault, SyntaxError};
use crate::text::{lowercase, spells, tail, to_chars, to_string};
use vstd::prelude::*;
use vstd::string::StringSliceAdditionalSpecFns;

verus! {

/// White space: blank, tab, carriage return, line feed.
pub open spec fn is_space(c: char) -> bool {
    c == ' ' || c == '\t' || c == '\r' || c == '\n'
}

/// The characters that end a token: white space, parentheses and the colon.
pub open spec fn is_delimiter(c: char) -> bool {
    is_space(c) || c == '(' || c == ')' || c == ':'
}

/// The letters of ASCII.
pub open spec fn is_letter(c: char) -> bool {
    ('a' <= c && c <= 'z') || ('A' <= c && c <= 'Z')
}

/// The classes of characters that the grammar reads in runs.
#[derive(Clone, Copy, Debug, PartialEq, Eq)]
pub enum CharClass {
    /// White space.
    Space,
    /// Anything that is not a delimiter.
    Word,
    /// ASCII letters.
    Letter,
}

impl CharClass {
    /// Whether `c` belongs to the class.
    pub open spec fn holds(self, c: char) -> bool {
        match self {
            CharClass::Space => is_space(c),
            CharClass::Word => !is_delimiter(c),
            CharClass::Letter => is_letter(c),
        }
    }

    /// Whether `c` belongs to the class.
    pub fn contains(&self, c: char) -> (r: bool)
        ensures
            r == self.holds(c),
    {
        match self {
            CharClass::Space => c == ' ' || c == '\t' || c == '\r' || c == '\n',
            CharClass::Word => !(c == ' ' || c == '\t' || c == '\r' || c == '\n' || c == '('
                || c == ')' || c == ':'),
            CharClass::Letter => ('a' <= c && c <= 'z') || ('A' <= c && c <= 'Z'),
        }
    }
}

/// Where the longest run of characters of `class` that starts at `i` ends.
pub open spec fn run_end(s: Seq<char>, i: int, class: CharClass) -> int
    decreases s.len() - i,
{
    if 0 <= i < s.len() && class.holds(s[i]) {
        run_end(s, i + 1, class)
    } else {
        i
    }
}

/// The first offset at or after `i` that holds no white space.
pub open spec fn skip_spaces(s: Seq<char>, i: int) -> int {
    run_end(s, i, CharClass::Space)
}

/// The end of the token that starts at `i`: the first offset at or after `i`
/// that holds a delimiter, or the end of the text.
pub open spec fn token_end(s: Seq<char>, i: int) -> int {
    run_end(s, i, CharClass::Word)
}

/// The token that starts at `i`. It is empty where `i` holds a delimiter.
pub open spec fn token(s: Seq<char>, i: int) -> Seq<char> {
    s.subrange(i, token_end(s, i))
}

/// A run ends inside the text, holds only characters of its class, and
/// cannot be made longer.
pub proof fn lemma_run_end(s: Seq<char>, i: int, class: CharClass)
    requires
        0 <= i <= s.len(),
    ensures
        i <= run_end(s, i, class) <= s.len(),
        forall|k: int| i <= k < run_end(s, i, class) ==> class.holds(#[trigger] s[k]),
        run_end(s, i, class) < s.len() ==> !class.holds(s[run_end(s, i, class)]),
    decreases s.len() - i,
{
    if i < s.len() && class.holds(s[i]) {
        lemma_run_end(s, i + 1, class);
    }
}

/// No run ends before it starts.
pub proof fn lemma_run_end_advances(s: Seq<char>, i: int, class: CharClass)
    ensures
        run_end(s, i, class) >= i,
    decreases s.len() - i,
{
    if 0 <= i < s.len() && class.holds(s[i]) {
        lemma_run_end_advances(s, i + 1, class);
    }
}

/// The end of a run is the one offset up to which the class holds and at
/// which it does not.
pub proof fn lemma_run_end_unique(s: Seq<char>, i: int, e: int, class: CharClass)
    requires
        0 <= i <= e <= s.len(),
        forall|k: int| i <= k < e ==> class.holds(#[trigger] s[k]),
        e < s.len() ==> !class.holds(s[e]),
    ensures
        run_end(s, i, class) == e,
    decreases e - i,
{
    if i < e {
        assert(class.holds(s[i]));
        lemma_run_end_unique(s, i + 1, e, class);
    }
}

/// Finds the end of the run of `class` that starts at `i`.
pub fn scan(s: &[char], i: usize, class: CharClass) -> (end: usize)
    requires
        i <= s.len(),
    ensures
        end == run_end(s@, i as int, class),
        i <= end <= s.len(),
{
    let mut k: usize = i;
    proof {
        lemma_run_end(s@, i as int, class);
    }
    while k < s.len() && class.contains(s[k])
        invariant
            i <= k <= s.len(),
            k <= run_end(s@, i as int, class),
            run_end(s@, k as int, class) == run_end(s@, i as int, class),
        decreases s.len() - k,
    {
        proof {
            lemma_run_end(s@, (k + 1) as int, class);
        }
        k = k + 1;
    }
    k
}

/// Whether every character of `t` is an ASCII character.
pub open spec fn is_ascii_text(t: Seq<char>) -> bool {
    forall|k: int| 0 <= k < t.len() ==> #[trigger] t[k] <= '\u{7f}'
}

/// An ASCII capital letter becomes its small letter; every other character
/// stays.
pub open spec fn fold_char(c: char) -> char {
    if 'A' <= c && c <= 'Z' {
        ((c as u8) + 32) as char
    } else {
        c
    }
}

/// The case-folded form of a token, under which identifiers are compared
/// and stored. A token of ASCII characters has its capitals made small; any
/// other token is lowercased by the Unicode mapping.
pub open spec fn fold_case(t: Seq<char>) -> Seq<char> {
    if is_ascii_text(t) {
        t.map_values(|c: char| fold_char(c))
    } else {
        lowercase(t)
    }
}

/// The tokens that are syntax and therefore no identifiers, in folded form.
pub open spec fn is_reserved(name: Seq<char>) -> bool {
    name == "-"@ || name == "="@ || name == "and"@
}

/// The identifier that starts at `i`: the folded token there, together with
/// the offset at which it ends. There is none where the token is empty or
/// reserved.
pub open spec fn spec_named(s: Seq<char>, i: int) -> Result<(Seq<char>, int), Failure> {
    let name = fold_case(token(s, i));
    if token_end(s, i) <= i || is_reserved(name) {
        Err(Failure { kind: ErrorKind::Lexical, at: i })
    } else {
        Ok((name, token_end(s, i)))
    }
}

/// Whether `s[from..to]` holds ASCII characters only.
fn all_ascii(s: &[char], from: usize, to: usize) -> (r: bool)
    requires
        from <= to <= s.len(),
    ensures
        r == is_ascii_text(s@.subrange(from as int, to as int)),
{
    let ghost t = s@.subrange(from as int, to as int);
    let mut k: usize = from;
    while k < to
        invariant
            from <= k <= to <= s.len(),
            t == s@.subrange(from as int, to as int),
            forall|j: int| 0 <= j < k - from ==> #[trigger] t[j] <= '\u{7f}',
        decreases to - k,
    {
        let c = s[k];
        assert(t[k - from] == c);
        if c > '\u{7f}' {
            return false;
        }
        k = k + 1;
    }
    true
}

/// Folds one character.
fn fold_one(c: char) -> (r: char)
    ensures
        r == fold_char(c),
{
    if 'A' <= c && c <= 'Z' {
        ((c as u8) + 32) as char
    } else {
        c
    }
}

/// Folds the token `s[from..to]`.
pub fn fold(s: &[char], from: usize, to: usize) -> (folded: Vec<char>)
    requires
        from <= to <= s.len(),
    ensures
        folded@ == fold_case(s@.subrange(from as int, to as int)),
{
    let ghost t = s@.subrange(from as int, to as int);
    if all_ascii(s, from, to) {
        let mut out: Vec<char> = Vec::new();
        let mut k: usize = from;
        while k < to
            invariant
                from <= k <= to <= s.len(),
                t == s@.subrange(from as int, to as int),
                out@ == t.take(k - from).map_values(|c: char| fold_char(c)),
            decreases to - k,
        {
            out.push(fold_one(s[k]));
            k = k + 1;
            assert(t.take(k - from).map_values(|c: char| fold_char(c)) =~= t.take(
                k - from - 1,
            ).map_values(|c: char| fold_char(c)).push(fold_char(t[k - from - 1])));
        }
        assert(t.take(to - from) =~= t);
        out
    } else {
        let raw = to_string(s, from, to);
        let lowered = raw.as_str().to_lowercase();
        to_chars(lowered.as_str())
    }
}

/// Whether a folded token is reserved.
fn reserved(name: &Vec<char>) -> (r: bool)
    ensures
        r == is_reserved(name@),
{
    let n = name.len();
    assert(name@.subrange(0, n as int) =~= name@);
    spells(name.as_slice(), 0, n, "-") || spells(name.as_slice(), 0, n, "=") || spells(
        name.as_slice(),
        0,
        n,
        "and",
    )
}

/// Reads the identifier that starts at `i`.
pub fn named_at(s: &[char], i: usize) -> (r: Result<(String, usize), Fault>)
    requires
        i <= s.len(),
    ensures
        match r {
            Ok((name, end)) => spec_named(s@, i as int) == Ok::<_, Failure>((name@, end as int))
                && i < end <= s.len(),
            Err(f) => spec_named(s@, i as int) == Err::<(Seq<char>, int), _>(f@) && f.offset
                <= s.len(),
        },
{
    let end = scan(s, i, CharClass::Word);
    if end == i {
        return Err(Fault { kind: ErrorKind::Lexical, offset: i });
    }
    let folded = fold(s, i, end);
    if reserved(&folded) {
        return Err(Fault { kind: ErrorKind::Lexical, offset: i });
    }
    let n = folded.len();
    assert(folded@.subrange(0, n as int) =~= folded@);
    Ok((to_string(folded.as_slice(), 0, n), end))
}

/// Reads the identifier at the start of `input`, and hands back the rest
/// of the input with the identifier in folded form.
pub fn named(input: &str) -> (r: Result<(&str, String), SyntaxError>)
    ensures
        match r {
            Ok((rest, name)) => spec_named(input@, 0) matches Ok((n, end)) && name@ == n && rest@
                == input@.skip(end),
            Err(e) => spec_named(input@, 0) matches Err(f) && e.reports(input@, f),
        },
{
    let chars = to_chars(input);
    match named_at(chars.as_slice(), 0) {
        Ok((name, end)) => Ok((tail(input, end), name)),
        Err(f) => Err(locate(chars.as_slice(), f)),
    }
}

/// A token that spells `-` or `=`, or `and` in any mix of capital and small
/// letters, is never read as an identifier.
pub proof fn lemma_reserved_rejected(s: Seq<char>, i: int)
    requires
        ({
            let t = token(s, i);
            ||| t == "-"@
            ||| t == "="@
            ||| t.len() == 3 && fold_char(t[0]) == 'a' && fold_char(t[1]) == 'n' && fold_char(t[2])
                == 'd'
        }),
    ensures
        spec_named(s, i) is Err,
{
    reveal_strlit("-");
    reveal_strlit("=");
    reveal_strlit("and");
    let t = token(s, i);
    if t.len() == 3 && t != "-"@ && t != "="@ {
        assert forall|k: int| 0 <= k < t.len() implies #[trigger] t[k] <= '\u{7f}' by {
            assert(fold_char(t[k]) <= 'n');
        }
    }
    assert(is_ascii_text(t));
    assert(fold_case(t) =~= t.map_values(|c: char| fold_char(c)));
    if t == "-"@ {
        assert(fold_case(t) =~= "-"@);
    } else if t == "="@ {
        assert(fold_case(t) =~= "="@);
    } else {
        assert(fold_case(t) =~= "and"@);
    }
}

/// An ASCII small letter becomes its capital; every other character stays.
pub open spec fn raise_char(c: char) -> char {
    if 'a' <= c && c <= 'z' {
        ((c as u8) - 32) as char
    } else {
        c
    }
}

/// Writing an ASCII token in capitals changes neither where the token ends
/// nor the identifier it is read as: `named` gives for the capitalised text
/// what it gives for the text itself.
pub proof fn lemma_capitals_fold_away(s: Seq<char>, i: int, e: int)
    requires
        0 <= i <= e <= s.len(),
        e == token_end(s, i),
        is_ascii_text(token(s, i)),
    ensures
        ({
            let capitals = s.subrange(0, i) + token(s, i).map_values(|c: char| raise_char(c))
                + s.subrange(e, s.len() as int);
            spec_named(capitals, i) == spec_named(s, i)
        }),
{
    let t = token(s, i);
    let up = t.map_values(|c: char| raise_char(c));
    let capitals = s.subrange(0, i) + up + s.subrange(e, s.len() as int);
    lemma_run_end(s, i, CharClass::Word);
    assert(capitals.len() == s.len());
    assert forall|k: int| i <= k < e implies CharClass::Word.holds(#[trigger] capitals[k]) by {
        assert(capitals[k] == raise_char(t[k - i]));
        assert(t[k - i] == s[k]);
        assert(CharClass::Word.holds(s[k]));
    }
    if e < s.len() {
        assert(capitals[e] == s[e]);
    }
    lemma_run_end_unique(capitals, i, e, CharClass::Word);
    assert(token(capitals, i) =~= up);
    assert forall|k: int| 0 <= k < up.len() implies #[trigger] up[k] <= '\u{7f}' by {
        assert(t[k] <= '\u{7f}');
    }
    assert(fold_case(up) =~= fold_case(t)) by {
        assert forall|k: int| 0 <= k < t.len() implies fold_char(#[trigger] up[k]) == fold_char(
            t[k],
        ) by {
            assert(t[k] <= '\u{7f}');
        }
    }
}

/// Folding an ASCII token twice gives what folding it once gives.
pub proof fn lemma_fold_idempotent(t: Seq<char>)
    requires
        is_ascii_text(t),
    ensures
        fold_case(fold_case(t)) == fold_case(t),
{
    let f = fold_case(t);
    assert forall|k: int| 0 <= k < f.len() implies #[trigger] f[k] <= '\u{7f}' by {
        assert(t[k] <= '\u{7f}');
    }
    assert(fold_case(f) =~= f);
}

/// Whether the character at `i` belongs to a comment: it is a `;`, or it is
/// no line feed and the character before it belongs to a comment.
pub open spec fn in_comment(s: Seq<char>, i: int) -> bool
    decreases i + 1,
{
    if i < 0 || i >= s.len() {
        false
    } else if s[i] == ';' {
        true
    } else if s[i] == '\n' {
        false
    } else {
        in_comment(s, i - 1)
    }
}

/// The text from which every comment has been taken out.
///
/// A comment runs from a `;` to the end of its line. The line feed that ends
/// the line is no part of the comment and stays.
pub open spec fn strip_comments(s: Seq<char>) -> Seq<char>
    decreases s.len(),
{
    if s.len() == 0 {
        s
    } else if in_comment(s, s.len() - 1) {
        strip_comments(s.drop_last())
    } else {
        strip_comments(s.drop_last()).push(s.last())
    }
}

/// Whether a character belongs to a comment depends only on the text up to
/// that character.
proof fn lemma_in_comment_prefix(s: Seq<char>, n: int, i: int)
    requires
        0 <= i < n <= s.len(),
    ensures
        in_comment(s.take(n), i) == in_comment(s, i),
    decreases i + 1,
{
    if s[i] != ';' && s[i] != '\n' {
        if i > 0 {
            lemma_in_comment_prefix(s, n, i - 1);
        } else {
            assert(!in_comment(s, -1) && !in_comment(s.take(n), -1));
        }
    }
}

/// After a line feed nothing of what came before it matters.
proof fn lemma_in_comment_after_newline(a: Seq<char>, b: Seq<char>, i: int)
    requires
        0 <= i < b.len(),
    ensures
        in_comment(a.push('\n') + b, a.len() + 1 + i) == in_comment(b, i),
    decreases i + 1,
{
    let s = a.push('\n') + b;
    assert(s[a.len() + 1 + i] == b[i]);
    if b[i] != ';' && b[i] != '\n' {
        if i > 0 {
            lemma_in_comment_after_newline(a, b, i - 1);
        } else {
            assert(s[a.len() as int] == '\n');
            assert(!in_comment(s, a.len() as int));
            assert(!in_comment(b, -1));
        }
    }
}

/// On the line of a `;`, everything after it belongs to the comment.
proof fn lemma_in_comment_after_semicolon(a: Seq<char>, c: Seq<char>, i: int)
    requires
        0 <= i < c.len(),
        forall|k: int| 0 <= k < c.len() ==> c[k] != '\n',
    ensures
        in_comment(a.push(';') + c, a.len() + 1 + i),
    decreases i + 1,
{
    let s = a.push(';') + c;
    assert(s[a.len() + 1 + i] == c[i]);
    if c[i] != ';' {
        if i > 0 {
            lemma_in_comment_after_semicolon(a, c, i - 1);
        } else {
            assert(s[a.len() as int] == ';');
            assert(in_comment(s, a.len() as int));
        }
    }
}

/// A text without `;` holds no comment.
proof fn lemma_no_semicolon_no_comment(s: Seq<char>, i: int)
    requires
        forall|k: int| 0 <= k < s.len() ==> s[k] != ';',
    ensures
        !in_comment(s, i),
    decreases i + 1,
{
    if 0 <= i < s.len() && s[i] != '\n' {
        lemma_no_semicolon_no_comment(s, i - 1);
    }
}

/// A line feed restores ordinary text: what follows it is stripped as if
/// it stood alone, whatever came before.
pub proof fn lemma_newline_ends_comment(a: Seq<char>, b: Seq<char>)
    ensures
        strip_comments(a.push('\n') + b) == strip_comments(a).push('\n') + strip_comments(b),
    decreases b.len(),
{
    let s = a.push('\n') + b;
    if b.len() == 0 {
        assert(s =~= a.push('\n'));
        assert(s.drop_last() =~= a);
        assert(strip_comments(s) =~= strip_comments(a).push('\n') + strip_comments(b));
    } else {
        assert(s.drop_last() =~= a.push('\n') + b.drop_last());
        lemma_newline_ends_comment(a, b.drop_last());
        lemma_in_comment_after_newline(a, b, b.len() - 1);
        assert(s.last() == b.last());
        assert(strip_comments(s) =~= strip_comments(a).push('\n') + strip_comments(b));
    }
}

/// A `;` turns the rest of its line to nothing: the `;` and all that
/// follows it up to the next line feed leave no trace.
pub proof fn lemma_comment_swallows_line(a: Seq<char>, c: Seq<char>)
    requires
        forall|k: int| 0 <= k < c.len() ==> c[k] != '\n',
    ensures
        strip_comments(a.push(';') + c) == strip_comments(a),
    decreases c.len(),
{
    let s = a.push(';') + c;
    if c.len() == 0 {
        assert(s =~= a.push(';'));
        assert(s.drop_last() =~= a);
    } else {
        assert(s.drop_last() =~= a.push(';') + c.drop_last());
        lemma_comment_swallows_line(a, c.drop_last());
        lemma_in_comment_after_semicolon(a, c, c.len() - 1);
    }
}

/// A text without `;` is left as it is.
pub proof fn lemma_plain_text_unchanged(s: Seq<char>)
    requires
        forall|k: int| 0 <= k < s.len() ==> s[k] != ';',
    ensures
        strip_comments(s) == s,
    decreases s.len(),
{
    if s.len() > 0 {
        lemma_plain_text_unchanged(s.drop_last());
        lemma_no_semicolon_no_comment(s, s.len() - 1);
        assert(s.drop_last().push(s.last()) =~= s);
    }
}

/// The line of an offset depends only on the text before the offset.
proof fn lemma_line_of_prefix(a: Seq<char>, b: Seq<char>, n: int)
    requires
        0 <= n <= a.len(),
        n <= b.len(),
        a.take(n) == b.take(n),
    ensures
        line_of(a, n) == line_of(b, n),
    decreases n,
{
    if n > 0 {
        assert(a.take(n - 1) =~= a.take(n).take(n - 1));
        assert(b.take(n - 1) =~= b.take(n).take(n - 1));
        lemma_line_of_prefix(a, b, n - 1);
        assert(a[n - 1] == a.take(n)[n - 1]);
        assert(b[n - 1] == b.take(n)[n - 1]);
    }
}

/// What is left of the start of a text is the start of what is left of the
/// text.
proof fn lemma_strip_prefix(s: Seq<char>, i: int)
    requires
        0 <= i <= s.len(),
    ensures
        strip_comments(s.take(i)).len() <= strip_comments(s).len(),
        strip_comments(s).take(strip_comments(s.take(i)).len() as int) == strip_comments(
            s.take(i),
        ),
    decreases s.len() - i,
{
    if i == s.len() {
        assert(s.take(i) =~= s);
        assert(strip_comments(s).take(strip_comments(s).len() as int) =~= strip_comments(s));
    } else {
        lemma_strip_prefix(s, i + 1);
        let longer = s.take(i + 1);
        assert(longer.drop_last() =~= s.take(i));
        let shorter = strip_comments(s.take(i));
        assert(strip_comments(s).take(shorter.len() as int) =~= strip_comments(longer).take(
            shorter.len() as int,
        ));
        assert(strip_comments(longer).take(shorter.len() as int) =~= shorter);
    }
}

/// Taking out comments takes out no line feed.
proof fn lemma_strip_keeps_line_feeds(s: Seq<char>)
    ensures
        line_of(strip_comments(s), strip_comments(s).len() as int) == line_of(s, s.len() as int),
    decreases s.len(),
{
    if s.len() > 0 {
        let before = s.drop_last();
        let kept = strip_comments(before);
        lemma_strip_keeps_line_feeds(before);
        assert(s.take(before.len() as int) =~= before.take(before.len() as int));
        lemma_line_of_prefix(s, before, before.len() as int);
        if !in_comment(s, s.len() - 1) {
            let all = kept.push(s.last());
            assert(all.take(kept.len() as int) =~= kept.take(kept.len() as int));
            lemma_line_of_prefix(all, kept, kept.len() as int);
        }
    }
}

/// Lines keep their numbers: a character that is left stands on the line
/// on which it stood. (The characters of `s` before `i` leave
/// `strip_comments(s.take(i)).len()` characters before it.)
pub proof fn lemma_lines_keep_their_numbers(s: Seq<char>, i: int)
    requires
        0 <= i <= s.len(),
    ensures
        line_of(strip_comments(s), strip_comments(s.take(i)).len() as int) == line_of(s, i),
{
    let start = s.take(i);
    lemma_strip_prefix(s, i);
    lemma_strip_keeps_line_feeds(start);
    let kept = strip_comments(start);
    assert(kept.take(kept.len() as int) =~= kept);
    lemma_line_of_prefix(strip_comments(s), kept, kept.len() as int);
    assert(start.take(i) =~= start);
    lemma_line_of_prefix(s, start, i);
}

/// Removes every line comment from `input`: each `;` goes, together with
/// what follows it on its line. Line feeds stay, so lines keep their
/// numbers.
pub fn remove_comments(input: &str) -> (out: String)
    ensures
        out@ == strip_comments(input@),
{
    let mut out: String = String::new();
    let mut commented = false;
    for c in it: input.chars()
        invariant
            it.seq() == input@,
            out@ == strip_comments(input@.take(it.index())),
            commented == in_comment(input@, it.index() - 1),
    {
        let ghost k = it.index();
        if c == ';' {
            commented = true;
        } else if c == '\n' {
            commented = false;
        }
        proof {
            assert(input@.take(k + 1).drop_last() =~= input@.take(k));
            lemma_in_comment_prefix(input@, k + 1, k);
        }
        if !commented {
            out.push(c);
        }
    }
    assert(input@.take(input@.len() as int) =~= input@);
    out
}

/// The column of an offset depends only on the text before the offset.
proof fn lemma_column_of_prefix(a: Seq<char>, b: Seq<char>, n: int)
    requires
        0 <= n <= a.len(),
        n <= b.len(),
        a.take(n) == b.take(n),
    ensures
        column_of(a, n) == column_of(b, n),
    decreases n,
{
    if n > 0 {
        assert(a.take(n - 1) =~= a.take(n).take(n - 1));
        assert(b.take(n - 1) =~= b.take(n).take(n - 1));
        lemma_column_of_prefix(a, b, n - 1);
        assert(a[n - 1] == a.take(n)[n - 1]);
        assert(b[n - 1] == b.take(n)[n - 1]);
    }
}

/// Up to a character that is left, and that is no line feed, nothing of its
/// line is taken out: what is left of the text before it ends in the same
/// column.
proof fn lemma_strip_keeps_column(s: Seq<char>, i: int)
    requires
        0 <= i <= s.len(),
        i > 0 ==> !in_comment(s, i - 1),
    ensures
        column_of(strip_comments(s.take(i)), strip_comments(s.take(i)).len() as int) == column_of(
            s,
            i,
        ),
    decreases i,
{
    let start = s.take(i);
    if i > 0 {
        let before = s.take(i - 1);
        let kept = strip_comments(before);
        assert(start.drop_last() =~= before);
        lemma_in_comment_prefix(s, i, i - 1);
        assert(strip_comments(start) == kept.push(s[i - 1]));
        if s[i - 1] != '\n' {
            if i > 1 {
                assert(!in_comment(s, i - 2));
            }
            lemma_strip_keeps_column(s, i - 1);
            let all = kept.push(s[i - 1]);
            assert(all.take(kept.len() as int) =~= kept.take(kept.len() as int));
            lemma_column_of_prefix(all, kept, kept.len() as int);
        }
    }
}

/// The offset in `s` of the character that is character `k` of what is
/// left of `s` from `i` on when the comments are taken out; the length of
/// `s` where fewer characters are left.
pub open spec fn origin_from(s: Seq<char>, i: int, k: int) -> int
    decreases s.len() - i,
{
    if i < 0 || i >= s.len() {
        s.len() as int
    } else if in_comment(s, i) {
        origin_from(s, i + 1, k)
    } else if k <= 0 {
        i
    } else {
        origin_from(s, i + 1, k - 1)
    }
}

/// The offset in `s` of the character that is character `k` of
/// `strip_comments(s)`; the length of `s` where `k` is the length of
/// `strip_comments(s)`.
pub open spec fn origin(s: Seq<char>, k: int) -> int {
    origin_from(s, 0, k)
}

/// What `origin_from` finds, counted from the start of the text.
proof fn lemma_origin_from(s: Seq<char>, i: int, k: int)
    requires
        0 <= i <= s.len(),
        0 <= k,
        strip_comments(s.take(i)).len() + k <= strip_comments(s).len(),
    ensures
        ({
            let o = origin_from(s, i, k);
            let at = strip_comments(s.take(i)).len() + k;
            &&& i <= o <= s.len()
            &&& strip_comments(s.take(o)).len() == at
            &&& at < strip_comments(s).len() ==> o < s.len() && !in_comment(s, o) && s[o]
                == strip_comments(s)[at]
            &&& at == strip_comments(s).len() ==> o == s.len()
        }),
    decreases s.len() - i,
{
    if i >= s.len() {
        assert(s.take(i) =~= s);
    } else {
        let longer = s.take(i + 1);
        assert(longer.drop_last() =~= s.take(i));
        lemma_in_comment_prefix(s, i + 1, i);
        lemma_strip_prefix(s, i + 1);
        if in_comment(s, i) {
            lemma_origin_from(s, i + 1, k);
        } else if k <= 0 {
            let here = strip_comments(s.take(i)).len() as int;
            assert(strip_comments(longer)[here] == s[i]);
            assert(strip_comments(s).take(strip_comments(longer).len() as int)[here]
                == strip_comments(s)[here]);
        } else {
            lemma_origin_from(s, i + 1, k - 1);
        }
    }
}

/// Where an offset of the text without comments lies in the text itself:
/// `origin(s, k)` is the offset of the very character that is character `k`
/// of `strip_comments(s)`, on the same line and, unless that character is a
/// line feed, in the same column; and the end of the one is the end of the
/// other, on the same line.
pub proof fn lemma_origin(s: Seq<char>, k: int)
    requires
        0 <= k <= strip_comments(s).len(),
    ensures
        0 <= origin(s, k) <= s.len(),
        strip_comments(s.take(origin(s, k))).len() == k,
        line_of(s, origin(s, k)) == line_of(strip_comments(s), k),
        k == strip_comments(s).len() ==> origin(s, k) == s.len(),
        k < strip_comments(s).len() ==> {
            &&& origin(s, k) < s.len()
            &&& !in_comment(s, origin(s, k))
            &&& s[origin(s, k)] == strip_comments(s)[k]
            &&& s[origin(s, k)] != '\n' ==> column_of(s, origin(s, k)) == column_of(
                strip_comments(s),
                k,
            )
        },
{
    assert(s.take(0) =~= Seq::<char>::empty());
    lemma_origin_from(s, 0, k);
    let o = origin(s, k);
    lemma_lines_keep_their_numbers(s, o);
    if k < strip_comments(s).len() && s[o] != '\n' {
        if o > 0 {
            assert(!in_comment(s, o - 1));
        }
        lemma_strip_keeps_column(s, o);
        lemma_strip_prefix(s, o);
        let kept = strip_comments(s.take(o));
        assert(kept.take(k) =~= kept);
        lemma_column_of_prefix(strip_comments(s), kept, k);
    }
}

/// Finds where an offset of the text without comments lies in the text
/// itself.
pub fn origin_at(s: &[char], k: usize) -> (o: usize)
    ensures
        o == origin(s@, k as int),
        o <= s.len(),
{
    let mut i: usize = 0;
    let mut left: usize = k;
    let mut commented = false;
    while i < s.len()
        invariant
            i <= s.len(),
            commented == in_comment(s@, i - 1),
            origin_from(s@, i as int, left as int) == origin(s@, k as int),
        decreases s.len() - i,
    {
        if s[i] == ';' {
            commented = true;
        } else if s[i] == '\n' {
            commented = false;
        }
        if !commented {
            if left == 0 {
                return i;
            }
            left = left - 1;
        }
        i = i + 1;
    }
    i
}

/// The number of line feeds among the first `i` bytes of a text: the
/// zero-based line that holds byte `i`. Offsets past the end count every
/// line feed of the text.
pub open spec fn feeds_before(bytes: Seq<u8>, i: int) -> nat
    decreases i,
{
    if i <= 0 {
        0
    } else if i > bytes.len() {
        feeds_before(bytes, bytes.len() as int)
    } else {
        feeds_before(bytes, i - 1) + if bytes[i - 1] == 10u8 {
            1nat
        } else {
            0nat
        }
    }
}

/// The number of lines of a text: one for each line feed, and one more for
/// what follows the last line feed, if anything does.
pub open spec fn line_count(bytes: Seq<u8>) -> nat {
    feeds_before(bytes, bytes.len() as int) + if bytes.len() > 0 && bytes.last() != 10u8 {
        1nat
    } else {
        0nat
    }
}

/// Line feeds are counted from the start on, at most one for each byte.
proof fn lemma_feeds_grow(bytes: Seq<u8>, i: int, j: int)
    requires
        0 <= i <= j <= bytes.len(),
    ensures
        feeds_before(bytes, i) <= feeds_before(bytes, j),
        feeds_before(bytes, i) <= i,
    decreases j,
{
    if i < j {
        lemma_feeds_grow(bytes, i, j - 1);
    } else if i > 0 {
        lemma_feeds_grow(bytes, i - 1, i - 1);
    }
}

/// The zero-based number of the line that holds byte `index` of `text`:
/// the number of line feeds among the bytes before it. A byte of the text
/// lies on one of the lines of the text.
pub fn line_num(text: &str, index: usize) -> (line: usize)
    ensures
        line == feeds_before(text.spec_bytes(), index as int),
        index < text.spec_bytes().len() ==> line < line_count(text.spec_bytes()),
{
    let bytes = text.as_bytes();
    let stop: usize = if index < bytes.len() {
        index
    } else {
        bytes.len()
    };
    let mut line: usize = 0;
    let mut k: usize = 0;
    while k < stop
        invariant
            k <= stop <= bytes.len(),
            line == feeds_before(bytes@, k as int),
            line <= k,
        decreases stop - k,
    {
        if bytes[k] == 10u8 {
            line = line + 1;
        }
        k = k + 1;
    }
    proof {
        if index < bytes.len() {
            lemma_feeds_grow(bytes@, index as int, bytes.len() - 1);
        }
    }
    line
}

} // verus!
