//! Passing between Rust's strings and the character buffers the parsers
//! work on.
use vstd::prelude::*;

verus! {

/// `String::push` of the standard library: the string afterwards is the
/// string before with `c` appended as its last character.
pub assume_specification[ String::push ](s: &mut String, c: char)
    ensures
        final(s)@ == old(s)@.push(c),
;

/// What `str::to_lowercase` of the standard library makes of a text: its
/// lowercase equivalent under the Unicode case mapping.
pub uninterp spec fn lowercase(s: Seq<char>) -> Seq<char>;

/// `str::to_lowercase` of the standard library. The mapping is a fixed
/// function of the text; nothing more is claimed of it here.
pub assume_specification[ str::to_lowercase ](s: &str) -> (r: String)
    ensures
        r@ == lowercase(s@),
;

/// The views of the items of `v`, in order.
pub open spec fn views<T: View>(v: Seq<T>) -> Seq<T::V> {
    v.map_values(|x: T| x@)
}

/// Appending an item appends its view.
pub proof fn lemma_views_push<T: View>(v: Seq<T>, x: T)
    ensures
        views(v.push(x)) == views(v).push(x@),
{
    assert(views(v.push(x)) =~= views(v).push(x@));
}

/// The characters of `s`, in order.
pub fn to_chars(s: &str) -> (v: Vec<char>)
    ensures
        v@ == s@,
{
    let mut v: Vec<char> = Vec::new();
    for c in it: s.chars()
        invariant
            it.seq() == s@,
            v@ == it.seq().take(it.index()),
    {
        v.push(c);
    }
    v
}

/// The string made of the characters `s[from..to]`.
pub fn to_string(s: &[char], from: usize, to: usize) -> (r: String)
    requires
        from <= to <= s.len(),
    ensures
        r@ == s@.subrange(from as int, to as int),
{
    let mut out = String::new();
    let mut k: usize = from;
    while k < to
        invariant
            from <= k <= to <= s.len(),
            out@ == s@.subrange(from as int, k as int),
        decreases to - k,
    {
        out.push(s[k]);
        k = k + 1;
        assert(s@.subrange(from as int, k as int) =~= s@.subrange(from as int, k - 1).push(
            s@[k - 1],
        ));
    }
    out
}

/// Whether every clone of a `T` has the view of what it was cloned from.
pub open spec fn clone_keeps_view<T: Clone + View>() -> bool {
    forall|a: T, b: T| call_ensures(T::clone, (&a,), b) ==> a@ == b@
}

/// A clone of each item of `v`, in order.
pub fn copy_items<T: Clone + View>(v: &Vec<T>) -> (r: Vec<T>)
    requires
        clone_keeps_view::<T>(),
    ensures
        views(r@) == views(v@),
{
    let mut r: Vec<T> = Vec::new();
    let mut k: usize = 0;
    while k < v.len()
        invariant
            k <= v.len(),
            clone_keeps_view::<T>(),
            views(r@) =~= views(v@).take(k as int),
        decreases v.len() - k,
    {
        let copy = v[k].clone();
        proof {
            lemma_views_push(r@, copy);
            assert(views(v@).take(k + 1) =~= views(v@).take(k as int).push(v@[k as int]@));
        }
        r.push(copy);
        k = k + 1;
    }
    assert(views(v@).take(v.len() as int) =~= views(v@));
    r
}

/// Whether the characters `s[from..to]` spell `word`.
pub fn spells(s: &[char], from: usize, to: usize, word: &str) -> (r: bool)
    requires
        from <= to <= s.len(),
    ensures
        r == (s@.subrange(from as int, to as int) == word@),
{
    let n = word.unicode_len();
    if to - from != n {
        return false;
    }
    let mut k: usize = 0;
    while k < n
        invariant
            from <= to <= s.len(),
            to - from == n == word@.len(),
            k <= n,
            forall|j: int| 0 <= j < k ==> s@[from + j] == word@[j],
        decreases n - k,
    {
        if s[from + k] != word.get_char(k) {
            assert(s@.subrange(from as int, to as int)[k as int] != word@[k as int]);
            return false;
        }
        k = k + 1;
    }
    assert(s@.subrange(from as int, to as int) =~= word@);
    true
}

/// The part of `input` from character `from` to its end.
pub fn tail(input: &str, from: usize) -> (rest: &str)
    requires
        from <= input@.len(),
    ensures
        rest@ == input@.skip(from as int),
{
    let n = input.unicode_len();
    input.substring_char(from, n)
}

} // verus!
