//! The walker of one part: which of the entries that a traversal visits the
//! part selects, and the line written for each.

use vstd::prelude::*;
use vstd::slice::{slice_subrange, slice_to_vec};
use vstd::string::StringSliceAdditionalSpecFns;
use vstd::utf8::encode_utf8;
use crate::config::{Config, ConfigView};
use crate::error::{Error, ErrorView};
use crate::pattern::{any_matches, merge_globs_and_regexes, merge_outcome, PatternSet};

verus! {

/// One entry that a traversal visits.
#[derive(Clone, Debug, PartialEq, Eq)]
pub struct WalkEntry {
    /// The bytes of the entry's path, as the traversal gives it: the root of
    /// the walk and, for what lies below it, the path from there.
    pub path: Vec<u8>,
    /// Whether the entry is a regular file.
    pub is_file: bool,
}

/// The mathematical value of a [`WalkEntry`].
pub struct WalkEntryView {
    pub path: Seq<u8>,
    pub is_file: bool,
}

impl View for WalkEntry {
    type V = WalkEntryView;

    open spec fn view(&self) -> WalkEntryView {
        WalkEntryView { path: self.path@, is_file: self.is_file }
    }
}

/// The walker of one part: where to walk, which entries the traversal is to
/// pass over, and the two pattern sets that select among the rest.
pub struct Walker {
    directory: String,
    ignore_hidden: bool,
    use_gitignore: bool,
    included: PatternSet,
    excluded: PatternSet,
}

/// The mathematical value of a [`Walker`].
pub struct WalkerView {
    pub directory: Seq<char>,
    pub ignore_hidden: bool,
    pub use_gitignore: bool,
    pub included: Seq<Seq<char>>,
    pub excluded: Seq<Seq<char>>,
}

impl WalkerView {
    /// The bytes of the directory: the root that the traversal starts from
    /// and that the path of every entry it visits begins with.
    pub open spec fn root(self) -> Seq<u8> {
        encode_utf8(self.directory)
    }
}

impl View for Walker {
    type V = WalkerView;

    closed spec fn view(&self) -> WalkerView {
        WalkerView {
            directory: self.directory@,
            ignore_hidden: self.ignore_hidden,
            use_gitignore: self.use_gitignore,
            included: self.included@,
            excluded: self.excluded@,
        }
    }
}

/// The byte `.`.
pub const DOT: u8 = 46;

/// The byte `/`.
pub const SLASH: u8 = 47;

/// The byte that ends a line.
pub const NEWLINE: u8 = 10;

/// Whether `path` begins with the bytes of `prefix`.
pub open spec fn starts_with(path: Seq<u8>, prefix: Seq<u8>) -> bool {
    prefix.len() <= path.len() && path.take(prefix.len() as int) == prefix
}

/// A path as the patterns see it: relative to the root of the walk. Where
/// the path is the root and then, after one `/`, something more, that is
/// what is left of it; the `/` may be the last byte of the root or the
/// first one behind it. A path that does not lie below the root in this
/// way, the root itself too, stays as it is, and so does every path where
/// the root is empty.
pub open spec fn relative_path(root: Seq<u8>, path: Seq<u8>) -> Seq<u8> {
    if root.len() == 0 || !starts_with(path, root) {
        path
    } else if root.last() == SLASH {
        path.skip(root.len() as int)
    } else if path.len() > root.len() && path[root.len() as int] == SLASH {
        path.skip(root.len() as int + 1)
    } else {
        path
    }
}

/// Whether the sets select an entry of a walk from `root`: it is a regular
/// file, the included patterns match its path relative to the root, and the
/// excluded patterns do not.
pub open spec fn selects(
    root: Seq<u8>,
    included: Seq<Seq<char>>,
    excluded: Seq<Seq<char>>,
    entry: WalkEntryView,
) -> bool {
    &&& entry.is_file
    &&& any_matches(included, relative_path(root, entry.path))
    &&& !any_matches(excluded, relative_path(root, entry.path))
}

/// The paths that a walk from `root` over the entries emits: the paths of
/// the selected entries, relative to the root, in the order of the entries.
pub open spec fn walked(
    root: Seq<u8>,
    included: Seq<Seq<char>>,
    excluded: Seq<Seq<char>>,
    entries: Seq<WalkEntryView>,
) -> Seq<Seq<u8>>
    decreases entries.len(),
{
    if entries.len() == 0 {
        Seq::empty()
    } else if selects(root, included, excluded, entries.last()) {
        walked(root, included, excluded, entries.drop_last()).push(relative_path(root, entries.last().path))
    } else {
        walked(root, included, excluded, entries.drop_last())
    }
}

/// The walker that a part gives, or the error of the first of its two
/// pattern sets that does not compile: the included patterns, then the
/// excluded patterns.
pub open spec fn walker_outcome(config: ConfigView) -> Result<WalkerView, ErrorView> {
    match merge_outcome(config.globs, config.regexes) {
        Err(error) => Err(error),
        Ok(included) => match merge_outcome(config.exclude_globs, config.exclude_regexes) {
            Err(error) => Err(error),
            Ok(excluded) => Ok(
                WalkerView {
                    directory: config.directory,
                    ignore_hidden: config.ignore_hidden,
                    use_gitignore: config.use_gitignore,
                    included,
                    excluded,
                },
            ),
        },
    }
}

/// The views of a list of entries.
pub open spec fn entry_views(entries: Seq<WalkEntry>) -> Seq<WalkEntryView> {
    entries.map_values(|e: WalkEntry| e@)
}

/// Whether an entry of the list is selected and has this path, seen as the
/// patterns see it.
pub open spec fn emits(
    root: Seq<u8>,
    included: Seq<Seq<char>>,
    excluded: Seq<Seq<char>>,
    entries: Seq<WalkEntryView>,
    path: Seq<u8>,
) -> bool {
    exists|i: int|
        0 <= i < entries.len() && selects(root, included, excluded, #[trigger] entries[i]) && relative_path(
            root,
            entries[i].path,
        ) == path
}

/// A walk emits exactly the paths of the selected entries.
pub proof fn lemma_walked_paths(
    root: Seq<u8>,
    included: Seq<Seq<char>>,
    excluded: Seq<Seq<char>>,
    entries: Seq<WalkEntryView>,
    path: Seq<u8>,
)
    ensures
        walked(root, included, excluded, entries).contains(path) <==> emits(root, included, excluded, entries, path),
    decreases entries.len(),
{
    if entries.len() > 0 {
        let init = entries.drop_last();
        let last = entries.last();
        let out = walked(root, included, excluded, entries);
        let before = walked(root, included, excluded, init);
        lemma_walked_paths(root, included, excluded, init, path);
        if out.contains(path) {
            let k = choose|k: int| 0 <= k < out.len() && out[k] == path;
            if selects(root, included, excluded, last) && k == before.len() {
                assert(entries[entries.len() - 1] == last);
            } else {
                assert(before[k] == path);
                let i = choose|i: int|
                    0 <= i < init.len() && selects(root, included, excluded, #[trigger] init[i]) && relative_path(
                        root,
                        init[i].path,
                    ) == path;
                assert(entries[i] == init[i]);
            }
        }
        if emits(root, included, excluded, entries, path) {
            let i = choose|i: int|
                0 <= i < entries.len() && selects(root, included, excluded, #[trigger] entries[i]) && relative_path(
                    root,
                    entries[i].path,
                ) == path;
            if i < init.len() {
                assert(init[i] == entries[i]);
                let k = choose|k: int| 0 <= k < before.len() && before[k] == path;
                assert(out[k] == path);
            } else {
                assert(out[before.len() as int] == path);
            }
        }
    }
}

/// A part without globs and regular expressions to select by selects
/// nothing, whatever is visited.
pub proof fn lemma_nothing_included(root: Seq<u8>, excluded: Seq<Seq<char>>, entries: Seq<WalkEntryView>)
    ensures
        walked(root, Seq::empty(), excluded, entries) == Seq::<Seq<u8>>::empty(),
    decreases entries.len(),
{
    if entries.len() > 0 {
        lemma_nothing_included(root, excluded, entries.drop_last());
    }
}

/// A path that the excluded patterns match is never emitted, whether or not
/// the included patterns match it too.
pub proof fn lemma_excluded_never_emitted(
    root: Seq<u8>,
    included: Seq<Seq<char>>,
    excluded: Seq<Seq<char>>,
    entries: Seq<WalkEntryView>,
    path: Seq<u8>,
)
    requires
        any_matches(excluded, path),
    ensures
        !walked(root, included, excluded, entries).contains(path),
{
    lemma_walked_paths(root, included, excluded, entries, path);
}

/// Everything emitted is matched by the included patterns.
pub proof fn lemma_emitted_is_included(
    root: Seq<u8>,
    included: Seq<Seq<char>>,
    excluded: Seq<Seq<char>>,
    entries: Seq<WalkEntryView>,
    path: Seq<u8>,
)
    requires
        walked(root, included, excluded, entries).contains(path),
    ensures
        any_matches(included, path),
        !any_matches(excluded, path),
{
    lemma_walked_paths(root, included, excluded, entries, path);
}

/// Two walks that visit the same entries, in whatever order and however
/// often, emit the same set of paths.
pub proof fn lemma_walk_order_free(
    root: Seq<u8>,
    included: Seq<Seq<char>>,
    excluded: Seq<Seq<char>>,
    first: Seq<WalkEntryView>,
    second: Seq<WalkEntryView>,
)
    requires
        first.to_set() == second.to_set(),
    ensures
        walked(root, included, excluded, first).to_set() == walked(root, included, excluded, second).to_set(),
{
    assert forall|path: Seq<u8>|
        walked(root, included, excluded, first).contains(path) <==> walked(root, included, excluded, second).contains(
            path,
        ) by {
        lemma_walked_paths(root, included, excluded, first, path);
        lemma_walked_paths(root, included, excluded, second, path);
        if emits(root, included, excluded, first, path) {
            let i = choose|i: int|
                0 <= i < first.len() && selects(root, included, excluded, #[trigger] first[i]) && relative_path(
                    root,
                    first[i].path,
                ) == path;
            assert(first.to_set().contains(first[i]));
            assert(second.contains(first[i]));
            let j = choose|j: int| 0 <= j < second.len() && second[j] == first[i];
            assert(selects(root, included, excluded, second[j]));
        }
        if emits(root, included, excluded, second, path) {
            let i = choose|i: int|
                0 <= i < second.len() && selects(root, included, excluded, #[trigger] second[i]) && relative_path(
                    root,
                    second[i].path,
                ) == path;
            assert(second.to_set().contains(second[i]));
            assert(first.contains(second[i]));
            let j = choose|j: int| 0 <= j < first.len() && first[j] == second[i];
            assert(selects(root, included, excluded, first[j]));
        }
    }
    assert(walked(root, included, excluded, first).to_set() =~= walked(root, included, excluded, second).to_set());
}

/// Under the root `./` a path that begins with `./` is seen without it, and
/// under the root `.` too.
pub proof fn lemma_current_dir(rest: Seq<u8>)
    ensures
        relative_path(seq![DOT, SLASH], seq![DOT, SLASH] + rest) == rest,
        relative_path(seq![DOT], seq![DOT, SLASH] + rest) == rest,
{
    let path = seq![DOT, SLASH] + rest;
    assert(path.take(2) =~= seq![DOT, SLASH]);
    assert(path.take(1) =~= seq![DOT]);
    assert(path.skip(2) =~= rest);
}

/// Below a root that does not end in `/`, a file is seen by what follows
/// the root and the `/` behind it.
pub proof fn lemma_below_root(root: Seq<u8>, rest: Seq<u8>)
    requires
        root.len() > 0,
        root.last() != SLASH,
    ensures
        relative_path(root, root + seq![SLASH] + rest) == rest,
{
    let path = root + seq![SLASH] + rest;
    assert(path.take(root.len() as int) =~= root);
    assert(path[root.len() as int] == SLASH);
    assert(path.skip(root.len() as int + 1) =~= rest);
}

/// Below a root that ends in `/`, a file is seen by what follows the root.
pub proof fn lemma_below_slashed_root(root: Seq<u8>, rest: Seq<u8>)
    requires
        root.len() > 0,
        root.last() == SLASH,
    ensures
        relative_path(root, root + rest) == rest,
{
    let path = root + rest;
    assert(path.take(root.len() as int) =~= root);
    assert(path.skip(root.len() as int) =~= rest);
}

/// A walk that visits one regular file below its root emits that file once,
/// by its path from the root, exactly when the included patterns match that
/// path and the excluded patterns do not; else it emits nothing.
pub proof fn lemma_one_file_below_root(
    root: Seq<u8>,
    included: Seq<Seq<char>>,
    excluded: Seq<Seq<char>>,
    rest: Seq<u8>,
)
    requires
        root.len() > 0,
        root.last() != SLASH,
    ensures
        walked(
            root,
            included,
            excluded,
            seq![WalkEntryView { path: root + seq![SLASH] + rest, is_file: true }],
        ) == if any_matches(included, rest) && !any_matches(excluded, rest) {
            seq![rest]
        } else {
            Seq::<Seq<u8>>::empty()
        },
{
    let entry = WalkEntryView { path: root + seq![SLASH] + rest, is_file: true };
    let entries = seq![entry];
    lemma_below_root(root, rest);
    assert(entries.last() == entry);
    assert(entries.drop_last() =~= Seq::<WalkEntryView>::empty());
    assert(walked(root, included, excluded, entries.drop_last()) == Seq::<Seq<u8>>::empty());
    if selects(root, included, excluded, entry) {
        assert(walked(root, included, excluded, entries) =~= seq![rest]);
    }
}

/// Whether `path` begins with the bytes of `prefix`.
pub fn begins_with(path: &[u8], prefix: &[u8]) -> (begins: bool)
    ensures
        begins == starts_with(path@, prefix@),
{
    if prefix.len() > path.len() {
        return false;
    }
    let mut i: usize = 0;
    while i < prefix.len()
        invariant
            0 <= i <= prefix.len() <= path.len(),
            forall|j: int| 0 <= j < i ==> path@[j] == prefix@[j],
        decreases prefix.len() - i,
    {
        if path[i] != prefix[i] {
            assert(path@.take(prefix.len() as int)[i as int] != prefix@[i as int]);
            return false;
        }
        i += 1;
    }
    assert(path@.take(prefix.len() as int) =~= prefix@);
    true
}

/// The path relative to the root of the walk, where it lies below the root;
/// else the path as it is.
pub fn relative_to<'a>(root: &[u8], path: &'a [u8]) -> (relative: &'a [u8])
    ensures
        relative@ == relative_path(root@, path@),
{
    if root.len() == 0 || !begins_with(path, root) {
        path
    } else if root[root.len() - 1] == SLASH {
        slice_subrange(path, root.len(), path.len())
    } else if path.len() > root.len() && path[root.len()] == SLASH {
        slice_subrange(path, root.len() + 1, path.len())
    } else {
        path
    }
}

/// The line written for a path: its bytes and a newline.
pub fn write_path(path: &[u8]) -> (line: Vec<u8>)
    ensures
        line@ == path@.push(NEWLINE),
{
    let mut line = slice_to_vec(path);
    line.push(NEWLINE);
    line
}

impl Walker {
    /// The walker of a part. Compiles the set of included patterns from the part's globs
    /// and regular expressions, and the set of excluded patterns from its excluded globs
    /// and excluded regular expressions.
    pub fn from_config(config: Config) -> (made: Result<Walker, Error>)
        ensures
            match made {
                Ok(walker) => walker_outcome(config@) == Ok::<WalkerView, ErrorView>(walker@),
                Err(error) => walker_outcome(config@) == Err::<WalkerView, ErrorView>(error@),
            },
    {
        let included = match merge_globs_and_regexes(&config.globs, &config.regexes) {
            Ok(set) => set,
            Err(error) => {
                return Err(error);
            },
        };
        let excluded = match merge_globs_and_regexes(&config.exclude_globs, &config.exclude_regexes) {
            Ok(set) => set,
            Err(error) => {
                return Err(error);
            },
        };
        Ok(
            Walker {
                directory: config.directory,
                ignore_hidden: config.ignore_hidden,
                use_gitignore: config.use_gitignore,
                included,
                excluded,
            },
        )
    }

    /// The directory to walk.
    pub fn directory(&self) -> (directory: &str)
        ensures
            directory@ == self@.directory,
    {
        self.directory.as_str()
    }

    /// Whether the traversal is to pass over hidden entries.
    pub fn ignore_hidden(&self) -> (yes: bool)
        ensures
            yes == self@.ignore_hidden,
    {
        self.ignore_hidden
    }

    /// Whether the traversal is to obey ignore files.
    pub fn use_gitignore(&self) -> (yes: bool)
        ensures
            yes == self@.use_gitignore,
    {
        self.use_gitignore
    }

    /// The path of an entry as the patterns see it: relative to the
    /// directory of the walker.
    pub fn relative<'a>(&self, path: &'a [u8]) -> (relative: &'a [u8])
        ensures
            relative@ == relative_path(self@.root(), path@),
    {
        relative_to(self.directory.as_str().as_bytes(), path)
    }

    /// Whether the walker selects an entry: a regular file whose path,
    /// relative to the directory of the walker, the included patterns match
    /// and the excluded patterns do not.
    pub fn selects(&self, entry: &WalkEntry) -> (selected: bool)
        ensures
            selected == selects(self@.root(), self@.included, self@.excluded, entry@),
    {
        if !entry.is_file {
            return false;
        }
        let path = self.relative(entry.path.as_slice());
        self.included.is_match(path) && !self.excluded.is_match(path)
    }

    /// The paths of the entries that the walker selects, each relative to
    /// the directory of the walker, in the order in which the entries were
    /// visited.
    pub fn walk(&self, entries: &Vec<WalkEntry>) -> (paths: Vec<Vec<u8>>)
        ensures
            paths.deep_view() == walked(self@.root(), self@.included, self@.excluded, entry_views(entries@)),
            self@.included.len() == 0 ==> paths.len() == 0,
    {
        let ghost all = entry_views(entries@);
        proof {
            if self@.included.len() == 0 {
                assert(self@.included =~= Seq::empty());
                lemma_nothing_included(self@.root(), self@.excluded, all);
            }
        }
        let mut paths: Vec<Vec<u8>> = Vec::new();
        let mut i: usize = 0;
        assert(all.take(0) =~= Seq::empty());
        assert(paths.deep_view() =~= Seq::<Seq<u8>>::empty());
        while i < entries.len()
            invariant
                0 <= i <= entries.len(),
                all == entry_views(entries@),
                paths.deep_view() == walked(self@.root(), self@.included, self@.excluded, all.take(i as int)),
            decreases entries.len() - i,
        {
            proof {
                assert(all.take(i + 1).drop_last() =~= all.take(i as int));
                assert(all.take(i + 1).last() == entries[i as int]@);
            }
            if self.selects(&entries[i]) {
                let ghost before = paths.deep_view();
                let path = slice_to_vec(self.relative(entries[i].path.as_slice()));
                assert(path.deep_view() =~= relative_path(self@.root(), entries[i as int]@.path));
                paths.push(path);
                assert(paths.deep_view() =~= before.push(relative_path(self@.root(), entries[i as int]@.path)));
            }
            i += 1;
        }
        assert(all.take(entries.len() as int) =~= all);
        paths
    }
}

} // verus!
