//! Parts and the document that holds them: the schema of a part, the
//! decoding of a document from a TOML tree, and the lookup of a part.

use vstd::prelude::*;
use crate::error::{Error, ErrorView};
use crate::text::str_eq;
use crate::toml_tree::{lemma_array_tree, lemma_table_tree, TomlNode, TomlTree};

verus! {

/// One part: a root directory and the rules that select files below it.
#[derive(Clone, Debug, PartialEq, Eq)]
pub struct Config {
    /// The directory to walk.
    pub directory: String,
    /// Whether hidden files and directories are passed over.
    pub ignore_hidden: bool,
    /// Whether ignore files found on the way are obeyed.
    pub use_gitignore: bool,
    /// Regular expressions that select a path.
    pub regexes: Vec<String>,
    /// Globs that select a path.
    pub globs: Vec<String>,
    /// Regular expressions that reject a path.
    pub exclude_regexes: Vec<String>,
    /// Globs that reject a path.
    pub exclude_globs: Vec<String>,
}

/// The mathematical value of a [`Config`].
pub struct ConfigView {
    pub directory: Seq<char>,
    pub ignore_hidden: bool,
    pub use_gitignore: bool,
    pub regexes: Seq<Seq<char>>,
    pub globs: Seq<Seq<char>>,
    pub exclude_regexes: Seq<Seq<char>>,
    pub exclude_globs: Seq<Seq<char>>,
}

impl View for Config {
    type V = ConfigView;

    open spec fn view(&self) -> ConfigView {
        ConfigView {
            directory: self.directory@,
            ignore_hidden: self.ignore_hidden,
            use_gitignore: self.use_gitignore,
            regexes: self.regexes.deep_view(),
            globs: self.globs.deep_view(),
            exclude_regexes: self.exclude_regexes.deep_view(),
            exclude_globs: self.exclude_globs.deep_view(),
        }
    }
}

/// The part that a table without fields describes.
pub open spec fn default_config() -> ConfigView {
    ConfigView {
        directory: "./"@,
        ignore_hidden: true,
        use_gitignore: true,
        regexes: Seq::empty(),
        globs: Seq::empty(),
        exclude_regexes: Seq::empty(),
        exclude_globs: Seq::empty(),
    }
}

/// The directory of a part that names none.
pub fn default_directory() -> (directory: String)
    ensures
        directory@ == "./"@,
{
    "./".to_owned()
}

/// The value of a switch that a part does not set.
pub fn default_true() -> (value: bool)
    ensures
        value,
{
    true
}

impl Default for Config {
    fn default() -> (config: Config)
        ensures
            config@ == default_config(),
    {
        let config = Config {
            directory: default_directory(),
            ignore_hidden: default_true(),
            use_gitignore: default_true(),
            regexes: Vec::new(),
            globs: Vec::new(),
            exclude_regexes: Vec::new(),
            exclude_globs: Vec::new(),
        };
        assert(config.regexes.deep_view() =~= Seq::<Seq<char>>::empty());
        assert(config.globs.deep_view() =~= Seq::<Seq<char>>::empty());
        assert(config.exclude_regexes.deep_view() =~= Seq::<Seq<char>>::empty());
        assert(config.exclude_globs.deep_view() =~= Seq::<Seq<char>>::empty());
        config
    }
}

/// The strings of an array, where every item of it is a string.
pub open spec fn string_items(items: Seq<TomlTree>) -> Option<Seq<Seq<char>>> {
    if forall|i: int| 0 <= i < items.len() ==> (#[trigger] items[i]) is String {
        Some(Seq::new(items.len(), |i: int| items[i]->String_0))
    } else {
        None
    }
}

/// The strings of a value, where it is an array of strings.
pub open spec fn string_list(value: TomlTree) -> Option<Seq<Seq<char>>> {
    match value {
        TomlTree::Array(items) => string_items(items),
        _ => None,
    }
}

/// A part with one field set from an entry of its table. `None` where the
/// part has no field of that name, or the value has the wrong type.
pub open spec fn with_field(config: ConfigView, field: Seq<char>, value: TomlTree) -> Option<ConfigView> {
    if field == "directory"@ {
        match value {
            TomlTree::String(directory) => Some(ConfigView { directory, ..config }),
            _ => None,
        }
    } else if field == "ignore_hidden"@ {
        match value {
            TomlTree::Boolean(ignore_hidden) => Some(ConfigView { ignore_hidden, ..config }),
            _ => None,
        }
    } else if field == "use_gitignore"@ {
        match value {
            TomlTree::Boolean(use_gitignore) => Some(ConfigView { use_gitignore, ..config }),
            _ => None,
        }
    } else if field == "regexes"@ {
        match string_list(value) {
            Some(regexes) => Some(ConfigView { regexes, ..config }),
            None => None,
        }
    } else if field == "globs"@ {
        match string_list(value) {
            Some(globs) => Some(ConfigView { globs, ..config }),
            None => None,
        }
    } else if field == "exclude_regexes"@ {
        match string_list(value) {
            Some(exclude_regexes) => Some(ConfigView { exclude_regexes, ..config }),
            None => None,
        }
    } else if field == "exclude_globs"@ {
        match string_list(value) {
            Some(exclude_globs) => Some(ConfigView { exclude_globs, ..config }),
            None => None,
        }
    } else {
        None
    }
}

/// Whether a part has a field of this name.
pub open spec fn is_field(field: Seq<char>) -> bool {
    ||| field == "directory"@
    ||| field == "ignore_hidden"@
    ||| field == "use_gitignore"@
    ||| field == "regexes"@
    ||| field == "globs"@
    ||| field == "exclude_regexes"@
    ||| field == "exclude_globs"@
}

/// The part that the entries of a table describe, read in order from the
/// defaults. The first entry that names no field of a part, or holds a value
/// of the wrong type, is the error.
pub open spec fn decode_fields(part: Seq<char>, entries: Seq<(Seq<char>, TomlTree)>) -> Result<ConfigView, ErrorView>
    decreases entries.len(),
{
    if entries.len() == 0 {
        Ok(default_config())
    } else {
        match decode_fields(part, entries.drop_last()) {
            Err(error) => Err(error),
            Ok(config) => match with_field(config, entries.last().0, entries.last().1) {
                Some(next) => Ok(next),
                None => if is_field(entries.last().0) {
                    Err(ErrorView::InvalidField { part, field: entries.last().0 })
                } else {
                    Err(ErrorView::UnknownField { part, field: entries.last().0 })
                },
            },
        }
    }
}

/// The part named `part` that a value describes.
pub open spec fn decode_part(part: Seq<char>, value: TomlTree) -> Result<ConfigView, ErrorView> {
    match value {
        TomlTree::Table(entries) => decode_fields(part, entries),
        _ => Err(ErrorView::PartIsNotTable { part }),
    }
}

/// The strings of an array of strings; `None` where an item is no string.
fn strings_of(items: &Vec<TomlNode>) -> (strings: Option<Vec<String>>)
    ensures
        match strings {
            Some(list) => string_items(TomlNode::Array(*items)@->Array_0) == Some(list.deep_view()),
            None => string_items(TomlNode::Array(*items)@->Array_0) is None,
        },
{
    let ghost trees = TomlNode::Array(*items)@->Array_0;
    proof {
        lemma_array_tree(*items);
    }
    let mut list: Vec<String> = Vec::new();
    let mut i: usize = 0;
    while i < items.len()
        invariant
            0 <= i <= items.len(),
            trees == TomlNode::Array(*items)@->Array_0,
            trees.len() == items.len(),
            forall|j: int| 0 <= j < items.len() ==> #[trigger] trees[j] == items[j]@,
            list.len() == i,
            forall|j: int| 0 <= j < i ==> (#[trigger] trees[j]) is String && list[j]@ == trees[j]->String_0,
        decreases items.len() - i,
    {
        match &items[i] {
            TomlNode::String(s) => {
                list.push(s.clone());
            },
            _ => {
                assert(!(trees[i as int] is String));
                return None;
            },
        }
        i += 1;
    }
    assert(list.deep_view() =~= Seq::new(trees.len(), |i: int| trees[i]->String_0));
    Some(list)
}

/// The strings of a value that is an array of strings.
fn string_list_of(value: &TomlNode) -> (strings: Option<Vec<String>>)
    ensures
        match strings {
            Some(list) => string_list(value@) == Some(list.deep_view()),
            None => string_list(value@) is None,
        },
{
    match value {
        TomlNode::Array(items) => strings_of(items),
        _ => None,
    }
}

impl Config {
    /// Set one field from an entry of the part's table. `false`, with the
    /// part unchanged, where the part has no such field or the value has the
    /// wrong type.
    fn set_field(&mut self, field: &str, value: &TomlNode) -> (done: bool)
        ensures
            match with_field(old(self)@, field@, value@) {
                Some(next) => done && final(self)@ == next,
                None => !done && *final(self) == *old(self),
            },
    {
        if str_eq(field, "directory") {
            match value {
                TomlNode::String(s) => {
                    self.directory = s.clone();
                    true
                },
                _ => false,
            }
        } else if str_eq(field, "ignore_hidden") {
            match value {
                TomlNode::Boolean(b) => {
                    self.ignore_hidden = *b;
                    true
                },
                _ => false,
            }
        } else if str_eq(field, "use_gitignore") {
            match value {
                TomlNode::Boolean(b) => {
                    self.use_gitignore = *b;
                    true
                },
                _ => false,
            }
        } else if str_eq(field, "regexes") {
            match string_list_of(value) {
                Some(list) => {
                    self.regexes = list;
                    true
                },
                None => false,
            }
        } else if str_eq(field, "globs") {
            match string_list_of(value) {
                Some(list) => {
                    self.globs = list;
                    true
                },
                None => false,
            }
        } else if str_eq(field, "exclude_regexes") {
            match string_list_of(value) {
                Some(list) => {
                    self.exclude_regexes = list;
                    true
                },
                None => false,
            }
        } else if str_eq(field, "exclude_globs") {
            match string_list_of(value) {
                Some(list) => {
                    self.exclude_globs = list;
                    true
                },
                None => false,
            }
        } else {
            false
        }
    }

    /// Whether a part has a field of this name.
    pub fn is_field(field: &str) -> (known: bool)
        ensures
            known == is_field(field@),
    {
        str_eq(field, "directory") || str_eq(field, "ignore_hidden") || str_eq(field, "use_gitignore")
            || str_eq(field, "regexes") || str_eq(field, "globs") || str_eq(field, "exclude_regexes")
            || str_eq(field, "exclude_globs")
    }

    /// Decode the part named `part` from a value of the document.
    ///
    /// The value must be a table. Fields that the table leaves out keep their
    /// defaults; a field that no part has, or a value of the wrong type, is an
    /// error.
    pub fn decode(part: &str, value: &TomlNode) -> (decoded: Result<Config, Error>)
        ensures
            match decoded {
                Ok(config) => decode_part(part@, value@) == Ok::<ConfigView, ErrorView>(config@),
                Err(error) => decode_part(part@, value@) == Err::<ConfigView, ErrorView>(error@),
            },
    {
        match value {
            TomlNode::Table(entries) => {
                let ghost all = value@->Table_0;
                proof {
                    lemma_table_tree(*entries);
                }
                let mut config = Config::default();
                let mut i: usize = 0;
                assert(all.take(0) =~= Seq::empty());
                while i < entries.len()
                    invariant
                        0 <= i <= entries.len(),
                        value@ == TomlTree::Table(all),
                        all.len() == entries.len(),
                        forall|j: int| 0 <= j < entries.len() ==> #[trigger] all[j] == (entries[j].key@, entries[j].value@),
                        decode_fields(part@, all.take(i as int)) == Ok::<ConfigView, ErrorView>(config@),
                    decreases entries.len() - i,
                {
                    let entry = &entries[i];
                    let ghost done = all.take(i as int);
                    let ghost next = all.take(i + 1);
                    assert(next.drop_last() =~= done);
                    assert(next.last() == all[i as int]);
                    if !config.set_field(entry.key.as_str(), &entry.value) {
                        assert(all.take(entries.len() as int) =~= all);
                        proof {
                            lemma_decode_fields_error(part@, all, i + 1);
                        }
                        if Config::is_field(entry.key.as_str()) {
                            return Err(Error::InvalidField { part: part.to_owned(), field: entry.key.clone() });
                        } else {
                            return Err(Error::UnknownField { part: part.to_owned(), field: entry.key.clone() });
                        }
                    }
                    i += 1;
                }
                assert(all.take(entries.len() as int) =~= all);
                Ok(config)
            },
            _ => Err(Error::PartIsNotTable { part: part.to_owned() }),
        }
    }
}

/// An error among the first entries of a table is the error of the table.
pub proof fn lemma_decode_fields_error(part: Seq<char>, entries: Seq<(Seq<char>, TomlTree)>, n: int)
    requires
        0 <= n <= entries.len(),
        decode_fields(part, entries.take(n)) is Err,
    ensures
        decode_fields(part, entries) == decode_fields(part, entries.take(n)),
    decreases entries.len() - n,
{
    if n == entries.len() {
        assert(entries.take(n) =~= entries);
    } else {
        assert(entries.take(n + 1).drop_last() =~= entries.take(n));
        lemma_decode_fields_error(part, entries, n + 1);
    }
}

} // verus!
