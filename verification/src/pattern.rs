//! Pattern sets: globs translated to regular expressions and merged with
//! literal regular expressions into one matcher over the bytes of a path.

use vstd::prelude::*;
use crate::error::{Error, ErrorView};

verus! {

/// The compiled matcher of the regex crate.
#[verifier::external_type_specification]
#[verifier::external_body]
pub struct ExRegexSet(regex::bytes::RegexSet);

/// The regular expression that a glob is translated to, or `None` where the
/// text is not a glob. With `literal_separator` a `/` in a path is matched by
/// a `/` in the glob alone; with `backslash_escape` a backslash takes the
/// next character literally. The translation is the one made on targets
/// where `/` is the only path separator.
pub uninterp spec fn glob_translation(glob: Seq<char>, literal_separator: bool, backslash_escape: bool) -> Option<
    Seq<char>,
>;

/// Whether the patterns compile into one set, at the regex crate's default
/// limits.
pub uninterp spec fn set_compiles(patterns: Seq<Seq<char>>) -> bool;

/// The patterns that a compiled set was built from, in the order given.
pub uninterp spec fn set_patterns(set: regex::bytes::RegexSet) -> Seq<Seq<char>>;

/// Whether one regular expression, compiled for bytes with the regex crate's
/// default options, matches somewhere in the haystack.
pub uninterp spec fn pattern_matches(pattern: Seq<char>, haystack: Seq<u8>) -> bool;

/// Builds a glob with `globset::GlobBuilder` under the two options given and
/// reads its regular expression with `Glob::regex`. The builder refuses
/// exactly the texts that are no glob.
#[verifier::external_body]
fn glob_regex(glob: &str, literal_separator: bool, backslash_escape: bool) -> (regex: Option<String>)
    ensures
        match regex {
            Some(text) => glob_translation(glob@, literal_separator, backslash_escape) == Some(text@),
            None => glob_translation(glob@, literal_separator, backslash_escape) is None,
        },
{
    let mut builder = globset::GlobBuilder::new(glob);
    builder.literal_separator(literal_separator).backslash_escape(backslash_escape);
    match builder.build() {
        Ok(glob) => Some(glob.regex().to_owned()),
        Err(_) => None,
    }
}

/// Compiles the patterns with `regex::bytes::RegexSetBuilder` at its default
/// options. A set that is built holds the patterns in the order given.
#[verifier::external_body]
fn build_set(patterns: &Vec<String>) -> (built: Option<regex::bytes::RegexSet>)
    ensures
        match built {
            Some(set) => set_compiles(patterns.deep_view()) && set_patterns(set) == patterns.deep_view(),
            None => !set_compiles(patterns.deep_view()),
        },
{
    match regex::bytes::RegexSetBuilder::new(patterns).build() {
        Ok(set) => Some(set),
        Err(_) => None,
    }
}

/// `RegexSet::empty` gives the set of no patterns.
pub assume_specification[ regex::bytes::RegexSet::empty ]() -> (set: regex::bytes::RegexSet)
    ensures
        set_patterns(set) == Seq::<Seq<char>>::empty(),
;

/// Whether one of the patterns matches the haystack.
pub open spec fn any_matches(patterns: Seq<Seq<char>>, haystack: Seq<u8>) -> bool {
    exists|i: int| 0 <= i < patterns.len() && pattern_matches(#[trigger] patterns[i], haystack)
}

/// A set without patterns matches nothing.
pub proof fn lemma_empty_matches_nothing(haystack: Seq<u8>)
    ensures
        !any_matches(Seq::<Seq<char>>::empty(), haystack),
{
}

/// A set matches what one of its patterns matches, and more patterns never
/// match less.
pub proof fn lemma_any_matches_grows(patterns: Seq<Seq<char>>, more: Seq<Seq<char>>, haystack: Seq<u8>)
    ensures
        any_matches(patterns + more, haystack) <==> any_matches(patterns, haystack) || any_matches(more, haystack),
{
    let both = patterns + more;
    if any_matches(patterns, haystack) {
        let i = choose|i: int| 0 <= i < patterns.len() && pattern_matches(#[trigger] patterns[i], haystack);
        assert(both[i] == patterns[i]);
    }
    if any_matches(more, haystack) {
        let i = choose|i: int| 0 <= i < more.len() && pattern_matches(#[trigger] more[i], haystack);
        assert(both[patterns.len() + i] == more[i]);
    }
    if any_matches(both, haystack) {
        let i = choose|i: int| 0 <= i < both.len() && pattern_matches(#[trigger] both[i], haystack);
        if i < patterns.len() {
            assert(patterns[i] == both[i]);
        } else {
            assert(more[i - patterns.len()] == both[i]);
        }
    }
}

/// A compiled, immutable matcher: the union of its patterns. It is made by
/// [`merge_globs_and_regexes`] and [`PatternSet::empty`] alone, which compile
/// at the regex crate's default options.
pub struct PatternSet {
    set: regex::bytes::RegexSet,
}

impl View for PatternSet {
    type V = Seq<Seq<char>>;

    /// The patterns of the set, in order.
    closed spec fn view(&self) -> Seq<Seq<char>> {
        set_patterns(self.set)
    }
}

/// Calls `RegexSet::is_match` on the matcher of a pattern set. Every pattern
/// set is compiled by this module at the regex crate's default options, and
/// of such a set the call is true exactly when one of its patterns matches
/// the haystack.
#[verifier::external_body]
fn set_matches(set: &PatternSet, haystack: &[u8]) -> (matched: bool)
    ensures
        matched == (exists|i: int| 0 <= i < set@.len() && pattern_matches(#[trigger] set@[i], haystack@)),
{
    set.set.is_match(haystack)
}

impl PatternSet {
    /// The set of no patterns. It matches nothing.
    pub fn empty() -> (set: PatternSet)
        ensures
            set@ == Seq::<Seq<char>>::empty(),
    {
        PatternSet { set: regex::bytes::RegexSet::empty() }
    }

    /// Whether one of the patterns matches the bytes of the path.
    pub fn is_match(&self, path: &[u8]) -> (matched: bool)
        ensures
            matched == any_matches(self@, path@),
    {
        set_matches(self, path)
    }
}

/// The regular expression of a glob, as this crate builds globs: a `/` is
/// matched by a `/` alone, and a backslash escapes.
pub open spec fn glob_regex_of(glob: Seq<char>) -> Option<Seq<char>> {
    glob_translation(glob, true, true)
}

/// Whether a text is a glob.
pub open spec fn is_glob(glob: Seq<char>) -> bool {
    glob_regex_of(glob) is Some
}

/// Whether a glob is one whose regular expression compiles alone.
pub open spec fn glob_compiles(glob: Seq<char>) -> bool {
    is_glob(glob) && set_compiles(seq![glob_regex_of(glob)->0])
}

/// Whether a regular expression compiles alone.
pub open spec fn regex_compiles(regex: Seq<char>) -> bool {
    set_compiles(seq![regex])
}

/// The first item that fails a test.
pub open spec fn first_failing(items: Seq<Seq<char>>, passes: spec_fn(Seq<char>) -> bool) -> Option<Seq<char>>
    decreases items.len(),
{
    if items.len() == 0 {
        None
    } else {
        match first_failing(items.drop_last(), passes) {
            Some(item) => Some(item),
            None => if passes(items.last()) {
                None
            } else {
                Some(items.last())
            },
        }
    }
}

/// The regular expressions of a list of globs.
pub open spec fn translated(globs: Seq<Seq<char>>) -> Seq<Seq<char>> {
    Seq::new(globs.len(), |i: int| glob_regex_of(globs[i])->0)
}

/// The patterns of the set that globs and regular expressions merge into:
/// the regular expressions first, then the globs in translation.
pub open spec fn merged_patterns(globs: Seq<Seq<char>>, regexes: Seq<Seq<char>>) -> Seq<Seq<char>> {
    regexes + translated(globs)
}

/// What merging gives. The first text that is no glob is the error. Then,
/// where the patterns do not compile as one set, the error names the first
/// regular expression that does not compile alone, else the first glob whose
/// translation does not; if each compiles alone the set is too large. Without
/// any pattern the result is the empty set.
pub open spec fn merge_outcome(globs: Seq<Seq<char>>, regexes: Seq<Seq<char>>) -> Result<Seq<Seq<char>>, ErrorView> {
    if let Some(glob) = first_failing(globs, |g: Seq<char>| is_glob(g)) {
        Err(ErrorView::InvalidGlob { pattern: glob })
    } else if merged_patterns(globs, regexes).len() == 0 || set_compiles(merged_patterns(globs, regexes)) {
        Ok(merged_patterns(globs, regexes))
    } else if let Some(regex) = first_failing(regexes, |r: Seq<char>| regex_compiles(r)) {
        Err(ErrorView::InvalidRegex { pattern: regex })
    } else if let Some(glob) = first_failing(globs, |g: Seq<char>| glob_compiles(g)) {
        Err(ErrorView::InvalidGlob { pattern: glob })
    } else {
        Err(ErrorView::PatternSetTooLarge)
    }
}

/// A failure among the first items is the first failure of all.
pub proof fn lemma_first_failing_prefix(items: Seq<Seq<char>>, passes: spec_fn(Seq<char>) -> bool, n: int)
    requires
        0 <= n <= items.len(),
        first_failing(items.take(n), passes) is Some,
    ensures
        first_failing(items, passes) == first_failing(items.take(n), passes),
    decreases items.len() - n,
{
    if n == items.len() {
        assert(items.take(n) =~= items);
    } else {
        assert(items.take(n + 1).drop_last() =~= items.take(n));
        lemma_first_failing_prefix(items, passes, n + 1);
    }
}

/// Nothing fails exactly when every item passes, and what fails is an item.
pub proof fn lemma_first_failing(items: Seq<Seq<char>>, passes: spec_fn(Seq<char>) -> bool)
    ensures
        first_failing(items, passes) is None <==> forall|i: int| 0 <= i < items.len() ==> passes(#[trigger] items[i]),
        first_failing(items, passes) matches Some(item) ==> !passes(item) && items.contains(item),
    decreases items.len(),
{
    if items.len() > 0 {
        let init = items.drop_last();
        lemma_first_failing(init, passes);
        if first_failing(init, passes) is None {
            assert forall|i: int| 0 <= i < items.len() && passes(items.last()) implies passes(
                #[trigger] items[i],
            ) by {
                if i < init.len() {
                    assert(init[i] == items[i]);
                }
            }
            if !passes(items.last()) {
                assert(items[items.len() - 1] == items.last());
            }
        } else {
            let item = first_failing(init, passes)->0;
            let i = choose|i: int| 0 <= i < init.len() && init[i] == item;
            assert(items[i] == item);
        }
    }
}

/// The first of the regular expressions that does not compile alone.
fn first_bad_regex(regexes: &Vec<String>) -> (bad: Option<usize>)
    ensures
        match bad {
            Some(i) => i < regexes.len() && first_failing(regexes.deep_view(), |r: Seq<char>| regex_compiles(r))
                == Some(regexes[i as int]@),
            None => first_failing(regexes.deep_view(), |r: Seq<char>| regex_compiles(r)) is None,
        },
{
    let ghost all = regexes.deep_view();
    let ghost passes = |r: Seq<char>| regex_compiles(r);
    let mut i: usize = 0;
    assert(all.take(0) =~= Seq::empty());
    while i < regexes.len()
        invariant
            0 <= i <= regexes.len(),
            all == regexes.deep_view(),
            passes == |r: Seq<char>| regex_compiles(r),
            first_failing(all.take(i as int), passes) is None,
        decreases regexes.len() - i,
    {
        proof {
            assert(all.take(i + 1).drop_last() =~= all.take(i as int));
            assert(all.take(i + 1).last() == regexes[i as int]@);
        }
        let mut one: Vec<String> = Vec::new();
        one.push(regexes[i].clone());
        assert(one.deep_view() =~= seq![regexes[i as int]@]);
        if build_set(&one).is_none() {
            proof {
                lemma_first_failing_prefix(all, passes, i + 1);
            }
            return Some(i);
        }
        i += 1;
    }
    assert(all.take(regexes.len() as int) =~= all);
    None
}

/// The first of the globs whose translation does not compile alone.
fn first_bad_translation(globs: &Vec<String>, translations: &Vec<String>) -> (bad: Option<usize>)
    requires
        translations.len() == globs.len(),
        forall|i: int| 0 <= i < globs.len() ==> glob_regex_of(#[trigger] globs[i]@) == Some(translations[i]@),
    ensures
        match bad {
            Some(i) => i < globs.len() && first_failing(globs.deep_view(), |g: Seq<char>| glob_compiles(g)) == Some(
                globs[i as int]@,
            ),
            None => first_failing(globs.deep_view(), |g: Seq<char>| glob_compiles(g)) is None,
        },
{
    let ghost all = globs.deep_view();
    let ghost passes = |g: Seq<char>| glob_compiles(g);
    let mut i: usize = 0;
    assert(all.take(0) =~= Seq::empty());
    while i < globs.len()
        invariant
            0 <= i <= globs.len(),
            translations.len() == globs.len(),
            forall|i: int| 0 <= i < globs.len() ==> glob_regex_of(#[trigger] globs[i]@) == Some(translations[i]@),
            all == globs.deep_view(),
            passes == |g: Seq<char>| glob_compiles(g),
            first_failing(all.take(i as int), passes) is None,
        decreases globs.len() - i,
    {
        proof {
            assert(all.take(i + 1).drop_last() =~= all.take(i as int));
            assert(all.take(i + 1).last() == globs[i as int]@);
        }
        let mut one: Vec<String> = Vec::new();
        one.push(translations[i].clone());
        assert(one.deep_view() =~= seq![translations[i as int]@]);
        if build_set(&one).is_none() {
            proof {
                lemma_first_failing_prefix(all, passes, i + 1);
            }
            return Some(i);
        }
        i += 1;
    }
    assert(all.take(globs.len() as int) =~= all);
    None
}

/// The regular expressions of the globs, or the first text that is no glob.
fn translate_globs(globs: &Vec<String>) -> (done: Result<Vec<String>, usize>)
    ensures
        match done {
            Ok(translations) => first_failing(globs.deep_view(), |g: Seq<char>| is_glob(g)) is None
                && translations.deep_view() == translated(globs.deep_view()) && translations.len() == globs.len()
                && forall|i: int|
                0 <= i < globs.len() ==> glob_regex_of(#[trigger] globs[i]@) == Some(translations[i]@),
            Err(i) => i < globs.len() && first_failing(globs.deep_view(), |g: Seq<char>| is_glob(g)) == Some(
                globs[i as int]@,
            ),
        },
{
    let ghost all = globs.deep_view();
    let ghost passes = |g: Seq<char>| is_glob(g);
    let mut translations: Vec<String> = Vec::new();
    let mut i: usize = 0;
    assert(all.take(0) =~= Seq::empty());
    while i < globs.len()
        invariant
            0 <= i <= globs.len(),
            all == globs.deep_view(),
            passes == |g: Seq<char>| is_glob(g),
            first_failing(all.take(i as int), passes) is None,
            translations.len() == i,
            forall|j: int| 0 <= j < i ==> glob_regex_of(#[trigger] globs[j]@) == Some(translations[j]@),
        decreases globs.len() - i,
    {
        proof {
            assert(all.take(i + 1).drop_last() =~= all.take(i as int));
            assert(all.take(i + 1).last() == globs[i as int]@);
        }
        match glob_regex(globs[i].as_str(), true, true) {
            Some(regex) => {
                translations.push(regex);
            },
            None => {
                proof {
                    lemma_first_failing_prefix(all, passes, i + 1);
                }
                return Err(i);
            },
        }
        i += 1;
    }
    assert(all.take(globs.len() as int) =~= all);
    assert(translations.deep_view() =~= translated(all));
    Ok(translations)
}

/// Merge globs and regular expressions into one pattern set: the regular
/// expressions as they are, then each glob translated to one.
///
/// An error names the pattern at fault.
pub fn merge_globs_and_regexes(globs: &Vec<String>, regexes: &Vec<String>) -> (merged: Result<PatternSet, Error>)
    ensures
        match merged {
            Ok(set) => merge_outcome(globs.deep_view(), regexes.deep_view()) == Ok::<Seq<Seq<char>>, ErrorView>(
                set@,
            ),
            Err(error) => merge_outcome(globs.deep_view(), regexes.deep_view()) == Err::<
                Seq<Seq<char>>,
                ErrorView,
            >(error@),
        },
{
    let translations = match translate_globs(globs) {
        Ok(translations) => translations,
        Err(i) => {
            return Err(Error::InvalidGlob { pattern: globs[i].clone() });
        },
    };
    if regexes.len() == 0 && globs.len() == 0 {
        assert(merged_patterns(globs.deep_view(), regexes.deep_view()) =~= Seq::<Seq<char>>::empty());
        return Ok(PatternSet::empty());
    }
    let mut patterns: Vec<String> = Vec::new();
    let mut i: usize = 0;
    while i < regexes.len()
        invariant
            0 <= i <= regexes.len(),
            patterns.deep_view() == regexes.deep_view().take(i as int),
        decreases regexes.len() - i,
    {
        let ghost before = patterns.deep_view();
        patterns.push(regexes[i].clone());
        assert(patterns.deep_view() =~= before.push(regexes[i as int]@));
        assert(before.push(regexes[i as int]@) =~= regexes.deep_view().take(i + 1));
        i += 1;
    }
    assert(regexes.deep_view().take(regexes.len() as int) =~= regexes.deep_view());
    let mut j: usize = 0;
    while j < translations.len()
        invariant
            0 <= j <= translations.len(),
            patterns.deep_view() == regexes.deep_view() + translations.deep_view().take(j as int),
        decreases translations.len() - j,
    {
        let ghost before = patterns.deep_view();
        patterns.push(translations[j].clone());
        assert(patterns.deep_view() =~= before.push(translations[j as int]@));
        assert(before.push(translations[j as int]@) =~= regexes.deep_view() + translations.deep_view().take(
            j + 1,
        ));
        j += 1;
    }
    assert(translations.deep_view().take(translations.len() as int) =~= translations.deep_view());
    match build_set(&patterns) {
        Some(set) => Ok(PatternSet { set }),
        None => match first_bad_regex(regexes) {
            Some(i) => Err(Error::InvalidRegex { pattern: regexes[i].clone() }),
            None => match first_bad_translation(globs, &translations) {
                Some(i) => Err(Error::InvalidGlob { pattern: globs[i].clone() }),
                None => Err(Error::PatternSetTooLarge),
            },
        },
    }
}

} // verus!
