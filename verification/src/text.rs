//! Small string helpers shared by the other modules.

use vstd::prelude::*;

verus! {

/// The characters of `s` before the first `sep`, or all of `s` when it holds
/// no `sep`.
pub open spec fn before(s: Seq<char>, sep: char) -> Seq<char>
    decreases s.len(),
{
    if s.len() == 0 || s[0] == sep {
        Seq::empty()
    } else {
        seq![s[0]] + before(s.drop_first(), sep)
    }
}

/// The characters of `s` after the first `sep`; empty when it holds no `sep`.
pub open spec fn after(s: Seq<char>, sep: char) -> Seq<char> {
    if s.contains(sep) {
        s.skip(before(s, sep).len() as int + 1)
    } else {
        Seq::empty()
    }
}

/// The pieces of `s` between occurrences of `sep`. There is always at least
/// one piece: a string without `sep` is its own single piece.
pub open spec fn split_on(s: Seq<char>, sep: char) -> Seq<Seq<char>>
    decreases s.len(),
    via split_on_terminates
{
    if s.contains(sep) {
        seq![before(s, sep)] + split_on(after(s, sep), sep)
    } else {
        seq![s]
    }
}

#[via_fn]
proof fn split_on_terminates(s: Seq<char>, sep: char) {
    if s.contains(sep) {
        lemma_before(s, sep);
    }
}

/// The pieces joined again, with one `sep` between neighbours.
pub open spec fn join(pieces: Seq<Seq<char>>, sep: char) -> Seq<char>
    decreases pieces.len(),
{
    if pieces.len() == 0 {
        Seq::empty()
    } else if pieces.len() == 1 {
        pieces[0]
    } else {
        pieces[0] + seq![sep] + join(pieces.drop_first(), sep)
    }
}

/// `before` is a prefix of the string that is free of the separator, and it
/// is the whole string exactly when the string holds no separator.
pub proof fn lemma_before(s: Seq<char>, sep: char)
    ensures
        before(s, sep).len() <= s.len(),
        before(s, sep) == s.take(before(s, sep).len() as int),
        !before(s, sep).contains(sep),
        s.contains(sep) <==> before(s, sep).len() < s.len(),
        s.contains(sep) ==> s[before(s, sep).len() as int] == sep,
        !s.contains(sep) ==> before(s, sep) == s,
    decreases s.len(),
{
    if s.len() == 0 {
        assert(before(s, sep) =~= s.take(0));
    } else if s[0] == sep {
        assert(before(s, sep) =~= s.take(0));
        assert(s.contains(sep));
    } else {
        let rest = s.drop_first();
        lemma_before(rest, sep);
        let b = before(rest, sep);
        let n = b.len() as int;
        assert(before(s, sep) =~= s.take(n + 1)) by {
            assert(b == rest.take(n));
            assert forall|i: int| 0 <= i < n + 1 implies (seq![s[0]] + b)[i] == s.take(n + 1)[i] by {
                if i > 0 {
                    assert(b[i - 1] == rest.take(n)[i - 1]);
                    assert(rest[i - 1] == s[i]);
                }
            }
        }
        assert(!before(s, sep).contains(sep)) by {
            if before(s, sep).contains(sep) {
                let i = choose|i: int| 0 <= i < before(s, sep).len() && before(s, sep)[i] == sep;
                assert(i > 0);
                assert(b[i - 1] == sep);
                assert(b.contains(sep));
            }
        }
        if s.contains(sep) {
            let i = choose|i: int| 0 <= i < s.len() && s[i] == sep;
            assert(rest[i - 1] == sep);
            assert(rest.contains(sep));
            assert(s[n + 1] == rest[n]);
        }
        if rest.contains(sep) {
            assert(s[n + 1] == rest[n]);
            assert(s.contains(sep));
        } else {
            assert(before(s, sep) =~= s);
        }
    }
}

/// A string that holds the separator is its `before`, the separator and its
/// `after`, in that order.
pub proof fn lemma_before_after(s: Seq<char>, sep: char)
    requires
        s.contains(sep),
    ensures
        s == before(s, sep) + seq![sep] + after(s, sep),
        after(s, sep).len() < s.len(),
{
    lemma_before(s, sep);
    assert(s =~= before(s, sep) + seq![sep] + after(s, sep));
}

/// A split at a separator whose left side is free of the separator is the
/// split at the first separator.
pub proof fn lemma_first_split_unique(s: Seq<char>, sep: char, left: Seq<char>, right: Seq<char>)
    requires
        s == left + seq![sep] + right,
        !left.contains(sep),
    ensures
        s.contains(sep),
        left == before(s, sep),
        right == after(s, sep),
{
    let n = left.len() as int;
    assert(s[n] == sep);
    assert(s.contains(sep));
    lemma_before(s, sep);
    let m = before(s, sep).len() as int;
    if m < n {
        assert(left[m] == s[m]);
        assert(left.contains(sep));
    }
    if n < m {
        assert(before(s, sep)[n] == s.take(m)[n]);
        assert(before(s, sep).contains(sep));
    }
    assert(left =~= before(s, sep)) by {
        assert forall|i: int| 0 <= i < n implies left[i] == before(s, sep)[i] by {
            assert(before(s, sep)[i] == s.take(m)[i]);
            assert(left[i] == s[i]);
        }
    }
    assert(right =~= after(s, sep));
}

/// Joining the pieces of a split gives the string back.
pub proof fn lemma_join_split(s: Seq<char>, sep: char)
    ensures
        join(split_on(s, sep), sep) == s,
        split_on(s, sep).len() >= 1,
    decreases s.len(),
{
    if s.contains(sep) {
        lemma_before_after(s, sep);
        let rest = after(s, sep);
        lemma_join_split(rest, sep);
        let pieces = split_on(s, sep);
        assert(pieces.drop_first() =~= split_on(rest, sep));
        assert(pieces[0] == before(s, sep));
        assert(pieces.len() >= 2);
    }
}

/// No piece of a split holds the separator.
pub proof fn lemma_split_pieces_free(s: Seq<char>, sep: char, i: int)
    requires
        0 <= i < split_on(s, sep).len(),
    ensures
        !split_on(s, sep)[i].contains(sep),
    decreases s.len(),
{
    if s.contains(sep) {
        lemma_before(s, sep);
        lemma_before_after(s, sep);
        if i > 0 {
            lemma_split_pieces_free(after(s, sep), sep, i - 1);
            assert(split_on(s, sep)[i] == split_on(after(s, sep), sep)[i - 1]);
        }
    }
}

/// Calls `str::split_once` with a character as the delimiter. When the
/// delimiter does not occur the result is `None`; otherwise the two parts are
/// the text before and after its first occurrence, so the left part holds no
/// delimiter and the string is the left part, the delimiter and the right part.
#[verifier::external_body]
pub(crate) fn split_once_char<'a>(s: &'a str, delimiter: char) -> (parts: Option<(&'a str, &'a str)>)
    ensures
        parts is None ==> !s@.contains(delimiter),
        parts matches Some((left, right)) ==> s@ == left@ + seq![delimiter] + right@
            && !left@.contains(delimiter),
{
    s.split_once(delimiter)
}

/// Calls `str::eq`: two string slices are equal exactly when they hold the
/// same characters.
#[verifier::external_body]
pub(crate) fn str_eq(a: &str, b: &str) -> (same: bool)
    ensures
        same == (a@ == b@),
{
    a == b
}

} // verus!
