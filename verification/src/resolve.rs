//! Finding the document: from a source that the user names, or from the
//! conventional sources tried in a fixed order.

use vstd::prelude::*;
use crate::document::{decode_document, ConfigFile, ConfigFileView};
use crate::error::{Error, ErrorView};
use crate::source::{
    lemma_split_round_trip, source_keys, source_of, source_path, source_string, split_path_and_keys,
};
use crate::toml_tree::{descend_spec, parse_toml, parsed_toml};

verus! {

/// What comes of the text of a file, the path it was read from and a key
/// path: the text must be a TOML document, the keys must lead through nested
/// tables, and the value they end at must describe a document. The document
/// found carries the source that names the path and the keys.
pub open spec fn parse_outcome(path: Seq<char>, content: Seq<char>, keys: Seq<Seq<char>>) -> Result<
    ConfigFileView,
    ErrorView,
> {
    match parsed_toml(content) {
        None => Err(ErrorView::TomlDecode),
        Some(tree) => match descend_spec(tree, keys, path) {
            Err(error) => Err(error),
            Ok(value) => match decode_document(value) {
                Err(error) => Err(error),
                Ok(doc) => Ok(ConfigFileView { config_file: source_of(path, keys), ..doc }),
            },
        },
    }
}

/// Parse the text of a file into a document.
///
/// `content` is what was read from `path`. With keys, the text is first read
/// as a plain TOML document and the nested table that the keys lead to is
/// decoded; without keys, the whole text is.
pub fn try_parse_config_file(path: &str, content: &str, keys: Vec<&str>) -> (parsed: Result<ConfigFile, Error>)
    ensures
        match parsed {
            Ok(doc) => parse_outcome(path@, content@, keys.deep_view()) == Ok::<ConfigFileView, ErrorView>(doc@)
                && doc@.wf(),
            Err(error) => parse_outcome(path@, content@, keys.deep_view()) == Err::<ConfigFileView, ErrorView>(
                error@,
            ),
        },
{
    let tree = match parse_toml(content) {
        Ok(tree) => tree,
        Err(error) => {
            return Err(error);
        },
    };
    let value = match tree.descend(&keys, path) {
        Ok(value) => value,
        Err(error) => {
            return Err(error);
        },
    };
    match ConfigFile::decode(&value) {
        Ok(doc) => {
            let found = ConfigFile {
                config_file: source_string(path, &keys),
                default: doc.default,
                configs: doc.configs,
            };
            assert(found@.configs =~= doc@.configs);
            Ok(found)
        },
        Err(error) => Err(error),
    }
}

/// A conventional source together with what was read from its path.
#[derive(Clone, Debug, PartialEq, Eq)]
pub struct Candidate {
    /// The source: a path, and keys where the document is nested in the file.
    pub source: String,
    /// The text of the file; `None` where the file could not be read.
    pub content: Option<String>,
}

/// The mathematical value of a [`Candidate`].
pub struct CandidateView {
    pub source: Seq<char>,
    pub content: Option<Seq<char>>,
}

impl View for Candidate {
    type V = CandidateView;

    open spec fn view(&self) -> CandidateView {
        CandidateView {
            source: self.source@,
            content: match self.content {
                Some(text) => Some(text@),
                None => None,
            },
        }
    }
}

/// What comes of one candidate whose file was read.
pub open spec fn candidate_outcome(source: Seq<char>, content: Seq<char>) -> Result<ConfigFileView, ErrorView> {
    parse_outcome(source_path(source), content, source_keys(source))
}

/// What discovery over the candidates gives. A candidate whose file could not
/// be read is passed over, and so is one that fails in any way but one: a
/// text that is no TOML document ends discovery with that error. The first
/// candidate that holds a document gives the result.
pub open spec fn find_outcome(candidates: Seq<CandidateView>) -> Result<ConfigFileView, ErrorView>
    decreases candidates.len(),
{
    if candidates.len() == 0 {
        Err(ErrorView::NoConfigFileFound)
    } else {
        match candidates[0].content {
            None => find_outcome(candidates.drop_first()),
            Some(content) => match candidate_outcome(candidates[0].source, content) {
                Ok(doc) => Ok(doc),
                Err(error) => if error.is_fatal() {
                    Err(error)
                } else {
                    find_outcome(candidates.drop_first())
                },
            },
        }
    }
}

/// The views of a list of candidates.
pub open spec fn candidate_views(candidates: Seq<Candidate>) -> Seq<CandidateView> {
    candidates.map_values(|c: Candidate| c@)
}

/// The conventional sources, in the order in which discovery tries them.
pub fn possible_config_paths() -> (paths: Vec<&'static str>)
    ensures
        paths.deep_view() == seq![
            "parts.toml"@,
            ".parts.toml"@,
            "Cargo.toml:metadata.parts"@,
            "pyproject.toml:tool.parts"@,
        ],
{
    let mut paths: Vec<&'static str> = Vec::new();
    paths.push("parts.toml");
    paths.push(".parts.toml");
    paths.push("Cargo.toml:metadata.parts");
    paths.push("pyproject.toml:tool.parts");
    assert(paths.deep_view() =~= seq![
        "parts.toml"@,
        ".parts.toml"@,
        "Cargo.toml:metadata.parts"@,
        "pyproject.toml:tool.parts"@,
    ]);
    paths
}

/// A candidate that discovery passed over, with the reason.
#[derive(Clone, Debug, PartialEq, Eq)]
pub struct Skipped {
    /// The source of the candidate.
    pub source: String,
    /// Why it holds no document.
    pub error: Error,
}

/// The mathematical value of a [`Skipped`].
pub struct SkippedView {
    pub source: Seq<char>,
    pub error: ErrorView,
}

impl View for Skipped {
    type V = SkippedView;

    open spec fn view(&self) -> SkippedView {
        SkippedView { source: self.source@, error: self.error@ }
    }
}

/// The views of a list of skipped candidates.
pub open spec fn skipped_views(skipped: Seq<Skipped>) -> Seq<SkippedView> {
    skipped.map_values(|s: Skipped| s@)
}

/// The candidates that discovery reads and passes over before it ends, each
/// with its error, in order. A candidate whose file could not be read is not
/// among them: there is no text of it to report on.
pub open spec fn passed_over(candidates: Seq<CandidateView>) -> Seq<SkippedView>
    decreases candidates.len(),
{
    if candidates.len() == 0 {
        Seq::empty()
    } else {
        match candidates[0].content {
            None => passed_over(candidates.drop_first()),
            Some(content) => match candidate_outcome(candidates[0].source, content) {
                Ok(doc) => Seq::empty(),
                Err(error) => if error.is_fatal() {
                    Seq::empty()
                } else {
                    seq![SkippedView { source: candidates[0].source, error }] + passed_over(
                        candidates.drop_first(),
                    )
                },
            },
        }
    }
}

/// Find the document among the candidates, tried in order.
///
/// Fails with `NoConfigFileFound` where no candidate holds a document, and
/// with the parser's error as soon as a candidate's text is no TOML document.
/// Every candidate that was read and passed over is added to `skipped`, for
/// the caller to report.
pub fn try_find_config_file(candidates: &Vec<Candidate>, skipped: &mut Vec<Skipped>) -> (found: Result<
    ConfigFile,
    Error,
>)
    ensures
        match found {
            Ok(doc) => find_outcome(candidate_views(candidates@)) == Ok::<ConfigFileView, ErrorView>(doc@)
                && doc@.wf(),
            Err(error) => find_outcome(candidate_views(candidates@)) == Err::<ConfigFileView, ErrorView>(error@),
        },
        skipped_views(final(skipped)@) == skipped_views(old(skipped)@) + passed_over(
            candidate_views(candidates@),
        ),
{
    let ghost all = candidate_views(candidates@);
    let ghost earlier = skipped_views(skipped@);
    let ghost taken: Seq<SkippedView> = Seq::empty();
    let mut i: usize = 0;
    assert(all.skip(0) =~= all);
    assert(earlier + taken =~= earlier);
    assert(taken + passed_over(all) =~= passed_over(all));
    while i < candidates.len()
        invariant
            0 <= i <= candidates.len(),
            all == candidate_views(candidates@),
            find_outcome(all) == find_outcome(all.skip(i as int)),
            earlier == skipped_views(old(skipped)@),
            skipped_views(skipped@) == earlier + taken,
            passed_over(all) == taken + passed_over(all.skip(i as int)),
        decreases candidates.len() - i,
    {
        let candidate = &candidates[i];
        proof {
            assert(all.skip(i as int)[0] == candidate@);
            assert(all.skip(i as int).drop_first() =~= all.skip(i + 1));
        }
        match &candidate.content {
            None => {},
            Some(content) => {
                let (path, keys) = split_path_and_keys(candidate.source.as_str());
                match try_parse_config_file(path, content.as_str(), keys) {
                    Ok(doc) => {
                        assert(passed_over(all.skip(i as int)) == Seq::<SkippedView>::empty());
                        assert(taken + Seq::<SkippedView>::empty() =~= taken);
                        return Ok(doc);
                    },
                    Err(error) => {
                        if error.is_fatal() {
                            assert(passed_over(all.skip(i as int)) == Seq::<SkippedView>::empty());
                            assert(taken + Seq::<SkippedView>::empty() =~= taken);
                            return Err(error);
                        }
                        let ghost before = skipped_views(skipped@);
                        let ghost one = SkippedView { source: candidate@.source, error: error@ };
                        skipped.push(Skipped { source: candidate.source.clone(), error });
                        proof {
                            assert(skipped_views(skipped@) =~= before.push(one));
                            assert(before.push(one) =~= earlier + taken.push(one));
                            assert(taken + (seq![one] + passed_over(all.skip(i + 1))) =~= taken.push(one)
                                + passed_over(all.skip(i + 1)));
                            taken = taken.push(one);
                        }
                    },
                }
            },
        }
        i += 1;
    }
    assert(taken + Seq::<SkippedView>::empty() =~= taken);
    Err(Error::NoConfigFileFound)
}

/// A document that discovery finds names the candidate it came from: its
/// source is that candidate's source, the file of that candidate was read,
/// and every candidate before it was passed over.
pub proof fn lemma_found_origin(candidates: Seq<CandidateView>)
    ensures
        find_outcome(candidates) matches Ok(doc) ==> exists|i: int|
            0 <= i < candidates.len() && doc.config_file == (#[trigger] candidates[i]).source
                && candidates[i].content is Some,
    decreases candidates.len(),
{
    if candidates.len() > 0 {
        let rest = candidates.drop_first();
        let first = candidates[0];
        lemma_found_origin(rest);
        lemma_split_round_trip(first.source);
        if find_outcome(candidates) is Ok {
            if first.content is Some && candidate_outcome(first.source, first.content.unwrap()) is Ok {
                assert(find_outcome(candidates)->Ok_0.config_file == candidates[0].source);
            } else {
                assert(find_outcome(candidates) == find_outcome(rest));
                let i = choose|i: int|
                    0 <= i < rest.len() && find_outcome(rest)->Ok_0.config_file == (#[trigger] rest[i]).source
                        && rest[i].content is Some;
                assert(candidates[i + 1] == rest[i]);
            }
        }
    }
}

} // verus!
