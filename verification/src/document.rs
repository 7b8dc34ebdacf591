//! The document: an optional default name and the named parts, with the
//! lookup of a part and the decoding of a document from a TOML tree.

use vstd::prelude::*;
use crate::config::{decode_part, Config, ConfigView};
use crate::error::{Error, ErrorView};
use crate::text::str_eq;
use crate::toml_tree::{lemma_table_tree, TomlNode, TomlTree};

verus! {

/// A part together with its name.
#[derive(Clone, Debug, PartialEq, Eq)]
pub struct NamedConfig {
    pub name: String,
    pub config: Config,
}

/// A document of parts.
#[derive(Clone, Debug, PartialEq, Eq)]
pub struct ConfigFile {
    /// The source in which the document was found.
    pub config_file: String,
    /// The name of the part to use where none is asked for.
    pub default: Option<String>,
    /// The parts, each under its name.
    pub configs: Vec<NamedConfig>,
}

/// The mathematical value of a [`ConfigFile`].
pub struct ConfigFileView {
    pub config_file: Seq<char>,
    pub default: Option<Seq<char>>,
    pub configs: Seq<(Seq<char>, ConfigView)>,
}

impl View for ConfigFile {
    type V = ConfigFileView;

    open spec fn view(&self) -> ConfigFileView {
        ConfigFileView {
            config_file: self.config_file@,
            default: match self.default {
                Some(name) => Some(name@),
                None => None,
            },
            configs: Seq::new(self.configs.len() as nat, |i: int| (self.configs[i].name@, self.configs[i].config@)),
        }
    }
}

/// The first part of a list that has the name.
pub open spec fn find_part(configs: Seq<(Seq<char>, ConfigView)>, name: Seq<char>) -> Option<ConfigView>
    decreases configs.len(),
{
    if configs.len() == 0 {
        None
    } else if configs[0].0 == name {
        Some(configs[0].1)
    } else {
        find_part(configs.drop_first(), name)
    }
}

/// Whether some part of a list has the name.
pub open spec fn has_name(configs: Seq<(Seq<char>, ConfigView)>, name: Seq<char>) -> bool {
    exists|i: int| 0 <= i < configs.len() && (#[trigger] configs[i]).0 == name
}

/// The view of an optional key.
pub open spec fn key_view(key: Option<&str>) -> Option<Seq<char>> {
    match key {
        Some(name) => Some(name@),
        None => None,
    }
}

impl ConfigFileView {
    /// No two parts have the same name.
    pub open spec fn wf(self) -> bool {
        forall|i: int, j: int|
            0 <= i < j < self.configs.len() ==> (#[trigger] self.configs[i]).0 != (#[trigger] self.configs[j]).0
    }

    /// The part of that name.
    pub open spec fn part(self, name: Seq<char>) -> Option<ConfigView> {
        find_part(self.configs, name)
    }

    /// The part named by `default`.
    pub open spec fn default_part(self) -> Option<ConfigView> {
        match self.default {
            Some(name) => self.part(name),
            None => None,
        }
    }

    /// The part that a lookup gives: the named one, or without a name the
    /// default one.
    pub open spec fn get(self, key: Option<Seq<char>>) -> Option<ConfigView> {
        match key {
            Some(name) => self.part(name),
            None => self.default_part(),
        }
    }
}

/// Parts without the name before position `i` do not change a lookup.
pub proof fn lemma_find_part_skip(configs: Seq<(Seq<char>, ConfigView)>, name: Seq<char>, i: int)
    requires
        0 <= i <= configs.len(),
        forall|j: int| 0 <= j < i ==> (#[trigger] configs[j]).0 != name,
    ensures
        find_part(configs, name) == find_part(configs.skip(i), name),
    decreases i,
{
    if i == 0 {
        assert(configs.skip(0) =~= configs);
    } else {
        let rest = configs.drop_first();
        assert(configs[0].0 != name);
        assert forall|j: int| 0 <= j < i - 1 implies (#[trigger] rest[j]).0 != name by {
            assert(rest[j] == configs[j + 1]);
        }
        lemma_find_part_skip(rest, name, i - 1);
        assert(rest.skip(i - 1) =~= configs.skip(i));
    }
}

/// A lookup succeeds exactly for the names that the document holds.
pub proof fn lemma_find_part_has_name(configs: Seq<(Seq<char>, ConfigView)>, name: Seq<char>)
    ensures
        find_part(configs, name) is Some <==> has_name(configs, name),
    decreases configs.len(),
{
    if configs.len() > 0 {
        let rest = configs.drop_first();
        lemma_find_part_has_name(rest, name);
        if configs[0].0 != name {
            if has_name(rest, name) {
                let j = choose|j: int| 0 <= j < rest.len() && (#[trigger] rest[j]).0 == name;
                assert(configs[j + 1].0 == name);
            }
            if has_name(configs, name) {
                let j = choose|j: int| 0 <= j < configs.len() && (#[trigger] configs[j]).0 == name;
                assert(rest[j - 1].0 == name);
            }
        }
    }
}

/// Without a name a lookup gives what a lookup of the default name gives,
/// and a name that no part has gives nothing.
pub proof fn lemma_get_default(doc: ConfigFileView, missing: Seq<char>)
    ensures
        doc.default matches Some(name) ==> doc.get(None) == doc.get(Some(name)),
        doc.default is None ==> doc.get(None) is None,
        !has_name(doc.configs, missing) ==> doc.get(Some(missing)) is None,
{
    lemma_find_part_has_name(doc.configs, missing);
}

/// In a document whose names are distinct the order of the parts does not
/// matter: each part is found under its name, wherever it stands.
pub proof fn lemma_part_found(doc: ConfigFileView, i: int)
    requires
        doc.wf(),
        0 <= i < doc.configs.len(),
    ensures
        doc.part(doc.configs[i].0) == Some(doc.configs[i].1),
{
    let name = doc.configs[i].0;
    assert forall|j: int| 0 <= j < i implies (#[trigger] doc.configs[j]).0 != name by {}
    lemma_find_part_skip(doc.configs, name, i);
    assert(doc.configs.skip(i)[0] == doc.configs[i]);
}

/// The parts of a list, each as its name and its value.
pub open spec fn named_views(configs: Vec<NamedConfig>) -> Seq<(Seq<char>, ConfigView)> {
    Seq::new(configs.len() as nat, |i: int| (configs[i].name@, configs[i].config@))
}

/// The first name of a list that an earlier part of the list has too.
pub open spec fn first_duplicate(configs: Seq<(Seq<char>, ConfigView)>) -> Option<Seq<char>>
    decreases configs.len(),
{
    if configs.len() == 0 {
        None
    } else {
        match first_duplicate(configs.drop_last()) {
            Some(name) => Some(name),
            None => if has_name(configs.drop_last(), configs.last().0) {
                Some(configs.last().0)
            } else {
                None
            },
        }
    }
}

/// A list has no duplicate exactly when its names are distinct.
pub proof fn lemma_first_duplicate(doc: ConfigFileView)
    ensures
        first_duplicate(doc.configs) is None <==> doc.wf(),
    decreases doc.configs.len(),
{
    if doc.configs.len() > 0 {
        let init = ConfigFileView { configs: doc.configs.drop_last(), ..doc };
        let last = doc.configs.last();
        let n = init.configs.len() as int;
        lemma_first_duplicate(init);
        if doc.wf() {
            assert forall|i: int, j: int| 0 <= i < j < n implies (#[trigger] init.configs[i]).0 != (
            #[trigger] init.configs[j]).0 by {
                assert(doc.configs[i].0 != doc.configs[j].0);
            }
            if has_name(init.configs, last.0) {
                let i = choose|i: int| 0 <= i < n && (#[trigger] init.configs[i]).0 == last.0;
                assert(doc.configs[i].0 != doc.configs[n].0);
            }
        }
        if first_duplicate(doc.configs) is None {
            assert forall|i: int, j: int| 0 <= i < j < doc.configs.len() implies (#[trigger] doc.configs[i]).0
                != (#[trigger] doc.configs[j]).0 by {
                if j < n {
                    assert(init.configs[i].0 != init.configs[j].0);
                } else {
                    assert(init.configs[i] == doc.configs[i]);
                }
            }
        }
    }
}

/// A duplicate among the first parts is the first duplicate of all.
pub proof fn lemma_first_duplicate_prefix(configs: Seq<(Seq<char>, ConfigView)>, n: int)
    requires
        0 <= n <= configs.len(),
        first_duplicate(configs.take(n)) is Some,
    ensures
        first_duplicate(configs) == first_duplicate(configs.take(n)),
    decreases configs.len() - n,
{
    if n == configs.len() {
        assert(configs.take(n) =~= configs);
    } else {
        assert(configs.take(n + 1).drop_last() =~= configs.take(n));
        lemma_first_duplicate_prefix(configs, n + 1);
    }
}

/// Whether the part at position `i` has the name of a part before it.
fn repeats_a_name(configs: &Vec<NamedConfig>, i: usize) -> (repeats: bool)
    requires
        i < configs.len(),
    ensures
        repeats == has_name(named_views(*configs).take(i as int), named_views(*configs)[i as int].0),
{
    let ghost all = named_views(*configs);
    let ghost earlier = all.take(i as int);
    let mut j: usize = 0;
    while j < i
        invariant
            0 <= j <= i < configs.len(),
            all == named_views(*configs),
            earlier == all.take(i as int),
            forall|k: int| 0 <= k < j ==> (#[trigger] earlier[k]).0 != all[i as int].0,
        decreases i - j,
    {
        if str_eq(configs[j].name.as_str(), configs[i].name.as_str()) {
            assert(earlier[j as int].0 == all[i as int].0);
            return true;
        }
        j += 1;
    }
    false
}

impl ConfigFile {
    /// A document of the given parts. Fails with `DuplicatePart` where two
    /// parts have one name; the error names the first name that repeats.
    pub fn new(config_file: String, default: Option<String>, configs: Vec<NamedConfig>) -> (made: Result<
        ConfigFile,
        Error,
    >)
        ensures
            match made {
                Ok(doc) => doc.config_file == config_file && doc.default == default && doc.configs == configs
                    && doc@.wf(),
                Err(error) => first_duplicate(named_views(configs)) matches Some(name) && error@ == (
                ErrorView::DuplicatePart { part: name }),
            },
    {
        let ghost all = named_views(configs);
        let mut i: usize = 0;
        assert(all.take(0) =~= Seq::empty());
        while i < configs.len()
            invariant
                0 <= i <= configs.len(),
                all == named_views(configs),
                first_duplicate(all.take(i as int)) is None,
            decreases configs.len() - i,
        {
            proof {
                assert(all.take(i + 1).drop_last() =~= all.take(i as int));
                assert(all.take(i + 1).last() == all[i as int]);
            }
            if repeats_a_name(&configs, i) {
                proof {
                    assert(first_duplicate(all.take(i + 1)) == Some(all[i as int].0));
                    lemma_first_duplicate_prefix(all, i + 1);
                }
                return Err(Error::DuplicatePart { part: configs[i].name.clone() });
            }
            i += 1;
        }
        let doc = ConfigFile { config_file, default, configs };
        proof {
            assert(all.take(configs.len() as int) =~= all);
            assert(doc@.configs =~= all);
            lemma_first_duplicate(doc@);
        }
        Ok(doc)
    }
}

/// The document without a source, a default or parts.
pub open spec fn empty_document() -> ConfigFileView {
    ConfigFileView { config_file: Seq::empty(), default: None, configs: Seq::empty() }
}

/// The document that the entries of a table describe, read in order. The
/// entry `default` must hold a string; every other entry is a part under its
/// name. The first entry that breaks a rule is the error.
pub open spec fn decode_entries(entries: Seq<(Seq<char>, TomlTree)>) -> Result<ConfigFileView, ErrorView>
    decreases entries.len(),
{
    if entries.len() == 0 {
        Ok(empty_document())
    } else {
        match decode_entries(entries.drop_last()) {
            Err(error) => Err(error),
            Ok(doc) => {
                let name = entries.last().0;
                let value = entries.last().1;
                if name == "default"@ {
                    match value {
                        TomlTree::String(default) => Ok(ConfigFileView { default: Some(default), ..doc }),
                        _ => Err(ErrorView::DefaultIsNotString),
                    }
                } else if has_name(doc.configs, name) {
                    Err(ErrorView::DuplicatePart { part: name })
                } else {
                    match decode_part(name, value) {
                        Ok(config) => Ok(ConfigFileView { configs: doc.configs.push((name, config)), ..doc }),
                        Err(error) => Err(error),
                    }
                }
            },
        }
    }
}

/// The document that a value describes. Its source is left empty.
pub open spec fn decode_document(value: TomlTree) -> Result<ConfigFileView, ErrorView> {
    match value {
        TomlTree::Table(entries) => decode_entries(entries),
        _ => Err(ErrorView::DocumentIsNotTable),
    }
}

/// An error among the first entries of a table is the error of the table.
pub proof fn lemma_decode_entries_error(entries: Seq<(Seq<char>, TomlTree)>, n: int)
    requires
        0 <= n <= entries.len(),
        decode_entries(entries.take(n)) is Err,
    ensures
        decode_entries(entries) == decode_entries(entries.take(n)),
    decreases entries.len() - n,
{
    if n == entries.len() {
        assert(entries.take(n) =~= entries);
    } else {
        assert(entries.take(n + 1).drop_last() =~= entries.take(n));
        lemma_decode_entries_error(entries, n + 1);
    }
}

/// A decoded document has distinct names and no source yet.
pub proof fn lemma_decoded_wf(entries: Seq<(Seq<char>, TomlTree)>)
    ensures
        decode_entries(entries) matches Ok(doc) ==> doc.wf() && doc.config_file == Seq::<char>::empty(),
    decreases entries.len(),
{
    if entries.len() > 0 {
        lemma_decoded_wf(entries.drop_last());
    }
}

impl ConfigFile {
    /// Whether a part has that name.
    pub fn has_name(&self, name: &str) -> (found: bool)
        ensures
            found == has_name(self@.configs, name@),
    {
        proof {
            lemma_find_part_has_name(self@.configs, name@);
        }
        self.find(name).is_some()
    }

    /// Decode a document from a value. The value must be a table; `default`,
    /// where present, a string; every other entry a part. The source of the
    /// document is left empty.
    pub fn decode(value: &TomlNode) -> (decoded: Result<ConfigFile, Error>)
        ensures
            match decoded {
                Ok(doc) => decode_document(value@) == Ok::<ConfigFileView, ErrorView>(doc@) && doc@.wf(),
                Err(error) => decode_document(value@) == Err::<ConfigFileView, ErrorView>(error@),
            },
    {
        match value {
            TomlNode::Table(entries) => {
                let ghost all = value@->Table_0;
                proof {
                    lemma_table_tree(*entries);
                    lemma_decoded_wf(all);
                }
                let mut doc = ConfigFile { config_file: String::new(), default: None, configs: Vec::new() };
                assert(doc@.configs =~= Seq::empty());
                assert(all.take(0) =~= Seq::empty());
                let mut i: usize = 0;
                while i < entries.len()
                    invariant
                        0 <= i <= entries.len(),
                        value@ == TomlTree::Table(all),
                        all.len() == entries.len(),
                        forall|j: int| 0 <= j < entries.len() ==> #[trigger] all[j] == (entries[j].key@, entries[j].value@),
                        decode_entries(all.take(i as int)) == Ok::<ConfigFileView, ErrorView>(doc@),
                    decreases entries.len() - i,
                {
                    let entry = &entries[i];
                    let ghost before = doc@;
                    proof {
                        assert(all.take(i + 1).drop_last() =~= all.take(i as int));
                        assert(all.take(i + 1).last() == all[i as int]);
                    }
                    if str_eq(entry.key.as_str(), "default") {
                        match &entry.value {
                            TomlNode::String(name) => {
                                doc.default = Some(name.clone());
                                assert(doc@.configs =~= before.configs);
                            },
                            _ => {
                                proof {
                                    lemma_decode_entries_error(all, i + 1);
                                }
                                return Err(Error::DefaultIsNotString);
                            },
                        }
                    } else if doc.has_name(entry.key.as_str()) {
                        proof {
                            lemma_decode_entries_error(all, i + 1);
                        }
                        return Err(Error::DuplicatePart { part: entry.key.clone() });
                    } else {
                        match Config::decode(entry.key.as_str(), &entry.value) {
                            Ok(config) => {
                                doc.configs.push(NamedConfig { name: entry.key.clone(), config });
                                assert(doc@.configs =~= before.configs.push((entry.key@, config@)));
                            },
                            Err(error) => {
                                proof {
                                    lemma_decode_entries_error(all, i + 1);
                                }
                                return Err(error);
                            },
                        }
                    }
                    i += 1;
                }
                assert(all.take(entries.len() as int) =~= all);
                Ok(doc)
            },
            _ => Err(Error::DocumentIsNotTable),
        }
    }
}

impl ConfigFile {
    /// The part of that name.
    pub fn find(&self, name: &str) -> (found: Option<&Config>)
        ensures
            match found {
                Some(config) => self@.part(name@) == Some(config@),
                None => self@.part(name@) is None,
            },
    {
        let mut i: usize = 0;
        while i < self.configs.len()
            invariant
                0 <= i <= self.configs.len(),
                forall|j: int| 0 <= j < i ==> (#[trigger] self@.configs[j]).0 != name@,
            decreases self.configs.len() - i,
        {
            if str_eq(self.configs[i].name.as_str(), name) {
                proof {
                    lemma_find_part_skip(self@.configs, name@, i as int);
                    assert(self@.configs.skip(i as int)[0] == self@.configs[i as int]);
                }
                return Some(&self.configs[i].config);
            }
            i += 1;
        }
        proof {
            lemma_find_part_has_name(self@.configs, name@);
        }
        None
    }

    /// The named part, or without a name the default part. `None` where the
    /// document has no part of that name, or no name is given and there is no
    /// default.
    pub fn get(&self, key: Option<&str>) -> (found: Option<&Config>)
        ensures
            match found {
                Some(config) => self@.get(key_view(key)) == Some(config@),
                None => self@.get(key_view(key)) is None,
            },
    {
        match key {
            Some(name) => self.find(name),
            None => self.get_default_config(),
        }
    }

    /// The part that `default` names.
    pub fn get_default_config(&self) -> (found: Option<&Config>)
        ensures
            match found {
                Some(config) => self@.default_part() == Some(config@),
                None => self@.default_part() is None,
            },
    {
        match &self.default {
            Some(name) => self.find(name.as_str()),
            None => None,
        }
    }

    /// The part of that name, or the error that names what was asked for.
    pub fn part_named(&self, name: &str) -> (found: Result<&Config, Error>)
        ensures
            match found {
                Ok(config) => self@.part(name@) == Some(config@),
                Err(error) => self@.part(name@) is None && error@ == (ErrorView::UnknownPart { part: name@ }),
            },
    {
        match self.find(name) {
            Some(config) => Ok(config),
            None => Err(Error::UnknownPart { part: name.to_owned() }),
        }
    }

    /// Whether `key` is the default name.
    pub fn matches_default(&self, key: &str) -> (matches: bool)
        ensures
            matches == (self@.default == Some(key@)),
    {
        match &self.default {
            Some(name) => str_eq(name.as_str(), key),
            None => false,
        }
    }
}

} // verus!
