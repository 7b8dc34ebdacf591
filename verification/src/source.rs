//! Configuration sources: a file path, optionally followed by a colon and a
//! dot-separated key path into the nested tables of that file.

use vstd::prelude::*;
use vstd::string::StringExecFns;
use crate::error::{Error, ErrorView};
use crate::text::{
    after, before, join, lemma_before, lemma_before_after, lemma_first_split_unique, lemma_join_split,
    lemma_split_pieces_free, split_on, split_once_char,
};

verus! {

/// The character between the path and the keys of a source.
pub const SPLIT_PATH: char = ':';

/// The character between two keys of a source.
pub const SPLIT_KEYS: char = '.';

/// The path of a source: everything before the first colon.
pub open spec fn source_path(s: Seq<char>) -> Seq<char> {
    before(s, SPLIT_PATH)
}

/// The keys of a source: none without a colon, else the pieces between the
/// dots of what follows the first colon.
pub open spec fn source_keys(s: Seq<char>) -> Seq<Seq<char>> {
    if s.contains(SPLIT_PATH) {
        split_on(after(s, SPLIT_PATH), SPLIT_KEYS)
    } else {
        Seq::empty()
    }
}

/// The source that names `path` and `keys`.
pub open spec fn source_of(path: Seq<char>, keys: Seq<Seq<char>>) -> Seq<char> {
    if keys.len() == 0 {
        path
    } else {
        path + seq![SPLIT_PATH] + join(keys, SPLIT_KEYS)
    }
}

/// Split a source into its path and its list of keys.
///
/// Path and keys are separated by the first colon; keys are separated by dots.
pub fn split_path_and_keys(s: &str) -> (parts: (&str, Vec<&str>))
    ensures
        parts.0@ == source_path(s@),
        parts.1.deep_view() == source_keys(s@),
{
    match split_once_char(s, SPLIT_PATH) {
        None => {
            proof {
                lemma_before(s@, SPLIT_PATH);
            }
            let keys: Vec<&str> = Vec::new();
            assert(keys.deep_view() =~= Seq::<Seq<char>>::empty());
            (s, keys)
        },
        Some((path, tail)) => {
            proof {
                lemma_first_split_unique(s@, SPLIT_PATH, path@, tail@);
            }
            let keys = split_keys(tail);
            (path, keys)
        },
    }
}

/// The pieces of `s` between its dots.
fn split_keys(s: &str) -> (keys: Vec<&str>)
    ensures
        keys.deep_view() == split_on(s@, SPLIT_KEYS),
{
    let mut keys: Vec<&str> = Vec::new();
    let mut rest: &str = s;
    loop
        invariant_except_break
            split_on(s@, SPLIT_KEYS) == keys.deep_view() + split_on(rest@, SPLIT_KEYS),
        ensures
            keys.deep_view() == split_on(s@, SPLIT_KEYS),
        decreases rest@.len(),
    {
        let ghost done = keys.deep_view();
        match split_once_char(rest, SPLIT_KEYS) {
            None => {
                keys.push(rest);
                assert(keys.deep_view() =~= done + seq![rest@]);
                break ;
            },
            Some((head, tail)) => {
                proof {
                    lemma_first_split_unique(rest@, SPLIT_KEYS, head@, tail@);
                    lemma_before_after(rest@, SPLIT_KEYS);
                }
                keys.push(head);
                assert(keys.deep_view() =~= done + seq![head@]);
                assert(done + (seq![head@] + split_on(tail@, SPLIT_KEYS)) =~= (done + seq![head@])
                    + split_on(tail@, SPLIT_KEYS));
                rest = tail;
            },
        }
    }
    keys
}

/// Asks `std::path::Path::exists` whether the path names something on disk.
/// The answer depends on the disk, so nothing is promised of it.
#[verifier::external_body]
fn path_exists(path: &str) -> bool {
    std::path::Path::new(path).exists()
}

/// What the validation of a source gives, once it is known whether its path
/// exists: the source itself, or the error that names it.
pub open spec fn validated_spec(value: Seq<char>, exists: bool) -> Result<Seq<char>, ErrorView> {
    if exists {
        Ok(value)
    } else {
        Err(ErrorView::ConfigFileDoesNotExist { value })
    }
}

/// Accept a source whose path is known to exist, refuse one whose path is
/// known not to.
pub fn validated(value: &str, exists: bool) -> (checked: Result<String, Error>)
    ensures
        match checked {
            Ok(source) => validated_spec(value@, exists) == Ok::<Seq<char>, ErrorView>(source@),
            Err(error) => validated_spec(value@, exists) == Err::<Seq<char>, ErrorView>(error@),
        },
{
    if exists {
        Ok(value.to_owned())
    } else {
        Err(Error::ConfigFileDoesNotExist { value: value.to_owned() })
    }
}

/// Accept a source only if its path, the part before the first colon, names
/// something that exists. The keys are not looked at.
pub fn validate_config_file_value(value: &str) -> (checked: Result<String, Error>)
    ensures
        match checked {
            Ok(source) => source@ == value@,
            Err(error) => error@ == (ErrorView::ConfigFileDoesNotExist { value: value@ }),
        },
{
    let (path, _) = split_path_and_keys(value);
    validated(value, path_exists(path))
}

/// Joining one more piece appends a separator and the piece.
pub proof fn lemma_join_push(pieces: Seq<Seq<char>>, piece: Seq<char>, sep: char)
    requires
        pieces.len() > 0,
    ensures
        join(pieces.push(piece), sep) == join(pieces, sep) + seq![sep] + piece,
    decreases pieces.len(),
{
    let all = pieces.push(piece);
    if pieces.len() == 1 {
        assert(all.drop_first() =~= seq![piece]);
        assert(join(all.drop_first(), sep) == piece);
    } else {
        assert(all.drop_first() =~= pieces.drop_first().push(piece));
        lemma_join_push(pieces.drop_first(), piece, sep);
        assert(join(all, sep) =~= join(pieces, sep) + seq![sep] + piece);
    }
}

/// The source that names `path` and `keys`, as a string.
pub fn source_string(path: &str, keys: &Vec<&str>) -> (source: String)
    ensures
        source@ == source_of(path@, keys.deep_view()),
{
    let mut source = path.to_owned();
    if keys.len() == 0 {
        return source;
    }
    proof {
        reveal_strlit(":");
        reveal_strlit(".");
    }
    source.append(":");
    source.append(keys[0]);
    let ghost all = keys.deep_view();
    assert(all.take(1) =~= seq![keys[0]@]);
    let mut i: usize = 1;
    while i < keys.len()
        invariant
            1 <= i <= keys.len(),
            all == keys.deep_view(),
            ":"@ == seq![SPLIT_PATH],
            "."@ == seq![SPLIT_KEYS],
            source@ == path@ + seq![SPLIT_PATH] + join(all.take(i as int), SPLIT_KEYS),
        decreases keys.len() - i,
    {
        proof {
            lemma_join_push(all.take(i as int), all[i as int], SPLIT_KEYS);
            assert(all.take(i as int).push(all[i as int]) =~= all.take(i + 1));
        }
        source.append(".");
        source.append(keys[i]);
        assert(source@ =~= path@ + seq![SPLIT_PATH] + join(all.take(i + 1), SPLIT_KEYS));
        i += 1;
    }
    assert(all.take(keys.len() as int) =~= all);
    source
}

/// Splitting loses nothing: the path and the keys of a source name that
/// source again. The path holds no colon and no key holds a dot.
pub proof fn lemma_split_round_trip(s: Seq<char>)
    ensures
        source_of(source_path(s), source_keys(s)) == s,
        !source_path(s).contains(SPLIT_PATH),
        forall|i: int| 0 <= i < source_keys(s).len() ==> !(#[trigger] source_keys(s)[i]).contains(SPLIT_KEYS),
        s.contains(SPLIT_PATH) <==> source_keys(s).len() > 0,
{
    lemma_before(s, SPLIT_PATH);
    if s.contains(SPLIT_PATH) {
        lemma_before_after(s, SPLIT_PATH);
        lemma_join_split(after(s, SPLIT_PATH), SPLIT_KEYS);
    }
    assert forall|i: int| 0 <= i < source_keys(s).len() implies !(#[trigger] source_keys(s)[i]).contains(SPLIT_KEYS) by {
        lemma_split_pieces_free(after(s, SPLIT_PATH), SPLIT_KEYS, i);
    }
}

} // verus!
