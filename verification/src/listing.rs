//! The listing of a document: which parts it holds and which is the default,
//! laid out as spans of text that a terminal writes in the style of each.

use vstd::prelude::*;
use vstd::string::StringExecFns;
use crate::config::ConfigView;
use crate::document::ConfigFile;
use crate::source::{source_keys, source_path, split_path_and_keys};

verus! {

/// How a span is written.
#[derive(Clone, Copy, Debug, PartialEq, Eq, Structural)]
pub enum Style {
    Plain,
    Underline,
    Bold,
}

/// A piece of text in one style.
#[derive(Clone, Debug, PartialEq, Eq)]
pub struct Span {
    pub text: String,
    pub style: Style,
}

/// The mathematical value of a [`Span`].
pub struct SpanView {
    pub text: Seq<char>,
    pub style: Style,
}

impl View for Span {
    type V = SpanView;

    open spec fn view(&self) -> SpanView {
        SpanView { text: self.text@, style: self.style }
    }
}

/// The views of a list of spans.
pub open spec fn span_views(spans: Seq<Span>) -> Seq<SpanView> {
    spans.map_values(|s: Span| s@)
}

/// A span of plain text.
pub open spec fn plain(text: Seq<char>) -> SpanView {
    SpanView { text, style: Style::Plain }
}

/// A span of bold text.
pub open spec fn bold(text: Seq<char>) -> SpanView {
    SpanView { text, style: Style::Bold }
}

/// A span of underlined text.
pub open spec fn underlined(text: Seq<char>) -> SpanView {
    SpanView { text, style: Style::Underline }
}

/// The character of a decimal digit.
pub open spec fn digit(d: nat) -> char {
    if d == 0 {
        '0'
    } else if d == 1 {
        '1'
    } else if d == 2 {
        '2'
    } else if d == 3 {
        '3'
    } else if d == 4 {
        '4'
    } else if d == 5 {
        '5'
    } else if d == 6 {
        '6'
    } else if d == 7 {
        '7'
    } else if d == 8 {
        '8'
    } else {
        '9'
    }
}

/// A number in decimal, without leading zeros.
pub open spec fn decimal(n: nat) -> Seq<char>
    decreases n,
{
    if n < 10 {
        seq![digit(n)]
    } else {
        decimal(n / 10).push(digit(n % 10))
    }
}

/// The text of one decimal digit.
fn digit_str(d: usize) -> (text: &'static str)
    requires
        d < 10,
    ensures
        text@ == seq![digit(d as nat)],
{
    proof {
        reveal_strlit("0");
        reveal_strlit("1");
        reveal_strlit("2");
        reveal_strlit("3");
        reveal_strlit("4");
        reveal_strlit("5");
        reveal_strlit("6");
        reveal_strlit("7");
        reveal_strlit("8");
        reveal_strlit("9");
    }
    let text = if d == 0 {
        "0"
    } else if d == 1 {
        "1"
    } else if d == 2 {
        "2"
    } else if d == 3 {
        "3"
    } else if d == 4 {
        "4"
    } else if d == 5 {
        "5"
    } else if d == 6 {
        "6"
    } else if d == 7 {
        "7"
    } else if d == 8 {
        "8"
    } else {
        "9"
    };
    assert(text@ =~= seq![digit(d as nat)]);
    text
}

/// A number written in decimal.
pub fn decimal_string(n: usize) -> (text: String)
    ensures
        text@ == decimal(n as nat),
    decreases n,
{
    if n < 10 {
        digit_str(n).to_owned()
    } else {
        let mut text = decimal_string(n / 10);
        text.append(digit_str(n % 10));
        assert(text@ =~= decimal(n as nat));
        text
    }
}

/// The words before the source, by the number of parts.
pub open spec fn heading(count: nat) -> Seq<char> {
    if count == 0 {
        "Found not part in file: "@
    } else if count == 1 {
        "Found 1 part in file: "@
    } else {
        "Found "@ + decimal(count) + " part in file: "@
    }
}

/// The spans of the keys of the source: an arrow before each key, the key
/// in bold.
pub open spec fn key_spans(keys: Seq<Seq<char>>) -> Seq<SpanView>
    decreases keys.len(),
{
    if keys.len() == 0 {
        Seq::empty()
    } else {
        key_spans(keys.drop_last()).push(plain(" -> "@)).push(bold(keys.last()))
    }
}

/// The spans of the parts, one line each: a dash and the name, the default
/// part in bold with a mark behind its name.
pub open spec fn name_spans(names: Seq<Seq<char>>, default: Option<Seq<char>>) -> Seq<SpanView>
    decreases names.len(),
{
    if names.len() == 0 {
        Seq::empty()
    } else if default == Some(names.last()) {
        name_spans(names.drop_last(), default).push(plain("- "@)).push(bold(names.last() + " (default)\n"@))
    } else {
        name_spans(names.drop_last(), default).push(plain("- "@)).push(plain(names.last())).push(plain("\n"@))
    }
}

/// The whole listing of a document found in `source`, with its names in the
/// order `names`: a first line with the number of parts, the path underlined
/// and the keys; then, where there are parts, an empty line and the parts.
pub open spec fn list_spans(source: Seq<char>, names: Seq<Seq<char>>, default: Option<Seq<char>>) -> Seq<SpanView> {
    let first = seq![plain(heading(names.len())), underlined(source_path(source))] + key_spans(source_keys(source))
        + seq![plain("\n"@)];
    if names.len() == 0 {
        first
    } else {
        first + seq![plain("\n"@)] + name_spans(names, default)
    }
}

/// Whether one string comes before another, or is the same: the order of
/// strings, which compares character by character and takes a prefix first.
pub open spec fn str_le(a: Seq<char>, b: Seq<char>) -> bool
    decreases a.len(),
{
    if a.len() == 0 {
        true
    } else if b.len() == 0 {
        false
    } else if a[0] != b[0] {
        (a[0] as u32) < (b[0] as u32)
    } else {
        str_le(a.drop_first(), b.drop_first())
    }
}

/// Whether the strings stand in ascending order.
pub open spec fn ascending(names: Seq<Seq<char>>) -> bool {
    forall|i: int, j: int| 0 <= i < j < names.len() ==> str_le(#[trigger] names[i], #[trigger] names[j])
}

/// An ascending list with one more name put in its place: behind the names
/// that come before it or are the same, before the others.
pub open spec fn inserted(order: Seq<Seq<char>>, name: Seq<char>) -> Seq<Seq<char>>
    decreases order.len(),
{
    if order.len() == 0 {
        seq![name]
    } else if str_le(order.last(), name) {
        order.push(name)
    } else {
        inserted(order.drop_last(), name).push(order.last())
    }
}

/// The names in ascending order: each name put in its place, one after the
/// other.
pub open spec fn in_order(names: Seq<Seq<char>>) -> Seq<Seq<char>>
    decreases names.len(),
{
    if names.len() == 0 {
        Seq::empty()
    } else {
        inserted(in_order(names.drop_last()), names.last())
    }
}

/// Every string comes before itself or is the same.
pub proof fn lemma_str_le_reflexive(a: Seq<char>)
    ensures
        str_le(a, a),
    decreases a.len(),
{
    if a.len() > 0 {
        lemma_str_le_reflexive(a.drop_first());
    }
}

/// Two strings that each come before the other are the same string.
pub proof fn lemma_str_le_antisymmetric(a: Seq<char>, b: Seq<char>)
    requires
        str_le(a, b),
        str_le(b, a),
    ensures
        a == b,
    decreases a.len(),
{
    if a.len() == 0 {
        assert(a =~= b);
    } else {
        lemma_str_le_antisymmetric(a.drop_first(), b.drop_first());
        assert(a =~= seq![a[0]] + a.drop_first());
        assert(b =~= seq![b[0]] + b.drop_first());
    }
}

/// Two ascending lists of the same names, each as often, are the same list.
pub proof fn lemma_ascending_unique(a: Seq<Seq<char>>, b: Seq<Seq<char>>)
    requires
        ascending(a),
        ascending(b),
        a.to_multiset() == b.to_multiset(),
    ensures
        a == b,
    decreases a.len(),
{
    a.to_multiset_ensures();
    b.to_multiset_ensures();
    if a.len() == 0 {
        assert(a =~= b);
    } else {
        let x = a.last();
        let y = b.last();
        assert(a[a.len() - 1] == x);
        assert(b[b.len() - 1] == y);
        assert(b.len() == a.len());
        assert(a.contains(x));
        assert(a.to_multiset().count(x) > 0);
        assert(b.to_multiset().count(x) > 0);
        assert(b.contains(x));
        assert(b.contains(y));
        assert(b.to_multiset().count(y) > 0);
        assert(a.to_multiset().count(y) > 0);
        assert(a.contains(y));
        let i = choose|i: int| 0 <= i < b.len() && b[i] == x;
        let j = choose|j: int| 0 <= j < a.len() && a[j] == y;
        lemma_str_le_reflexive(x);
        lemma_str_le_reflexive(y);
        assert(str_le(x, y)) by {
            if i < b.len() - 1 {
                assert(str_le(b[i], b[b.len() - 1]));
            }
        }
        assert(str_le(y, x)) by {
            if j < a.len() - 1 {
                assert(str_le(a[j], a[a.len() - 1]));
            }
        }
        lemma_str_le_antisymmetric(x, y);
        let a0 = a.drop_last();
        let b0 = b.drop_last();
        a0.to_multiset_ensures();
        b0.to_multiset_ensures();
        assert(a =~= a0.push(x));
        assert(b =~= b0.push(x));
        assert(a0.to_multiset() =~= b0.to_multiset()) by {
            assert(a0.to_multiset().insert(x) == b0.to_multiset().insert(x));
            assert forall|v: Seq<char>| a0.to_multiset().count(v) == b0.to_multiset().count(v) by {
                assert(a0.to_multiset().insert(x).count(v) == b0.to_multiset().insert(x).count(v));
            }
        }
        assert(ascending(a0)) by {
            assert forall|i: int, j: int| 0 <= i < j < a0.len() implies str_le(
                #[trigger] a0[i],
                #[trigger] a0[j],
            ) by {
                assert(str_le(a[i], a[j]));
            }
        }
        assert(ascending(b0)) by {
            assert forall|i: int, j: int| 0 <= i < j < b0.len() implies str_le(
                #[trigger] b0[i],
                #[trigger] b0[j],
            ) by {
                assert(str_le(b[i], b[j]));
            }
        }
        lemma_ascending_unique(a0, b0);
    }
}

/// Of two strings one comes before the other, or they are the same.
pub proof fn lemma_str_le_total(a: Seq<char>, b: Seq<char>)
    ensures
        str_le(a, b) || str_le(b, a),
    decreases a.len(),
{
    if a.len() > 0 && b.len() > 0 {
        if a[0] == b[0] {
            lemma_str_le_total(a.drop_first(), b.drop_first());
        } else {
            assert(a[0] as u32 != b[0] as u32) by {
                vstd::utf8::char_u32_cast(a[0], a[0] as u32);
                vstd::utf8::char_u32_cast(b[0], b[0] as u32);
            }
        }
    }
}

/// What comes before a string comes before everything behind that string.
pub proof fn lemma_str_le_transitive(a: Seq<char>, b: Seq<char>, c: Seq<char>)
    requires
        str_le(a, b),
        str_le(b, c),
    ensures
        str_le(a, c),
    decreases a.len(),
{
    if a.len() > 0 && a[0] == b[0] && b[0] == c[0] {
        lemma_str_le_transitive(a.drop_first(), b.drop_first(), c.drop_first());
    }
}

/// Putting a name in its place keeps an ascending list ascending, and adds
/// that name and no other.
pub proof fn lemma_inserted(order: Seq<Seq<char>>, name: Seq<char>)
    requires
        ascending(order),
    ensures
        ascending(inserted(order, name)),
        inserted(order, name).to_multiset() == order.to_multiset().insert(name),
        inserted(order, name).len() == order.len() + 1,
        forall|i: int|
            0 <= i < inserted(order, name).len() ==> (#[trigger] inserted(order, name)[i]) == name
                || order.contains(inserted(order, name)[i]),
    decreases order.len(),
{
    let out = inserted(order, name);
    order.to_multiset_ensures();
    if order.len() == 0 {
        assert(out =~= order.push(name));
    } else if str_le(order.last(), name) {
        assert forall|i: int, j: int| 0 <= i < j < out.len() implies str_le(#[trigger] out[i], #[trigger] out[j]) by {
            if j == order.len() {
                if i < order.len() - 1 {
                    assert(str_le(order[i], order[order.len() - 1]));
                    lemma_str_le_transitive(order[i], order.last(), name);
                }
            } else {
                assert(str_le(order[i], order[j]));
            }
        }
        assert forall|i: int| 0 <= i < out.len() implies (#[trigger] out[i]) == name || order.contains(out[i]) by {
            if i < order.len() {
                assert(order[i] == out[i]);
            }
        }
    } else {
        let init = order.drop_last();
        let last = order.last();
        let inner = inserted(init, name);
        assert(ascending(init)) by {
            assert forall|i: int, j: int| 0 <= i < j < init.len() implies str_le(
                #[trigger] init[i],
                #[trigger] init[j],
            ) by {
                assert(str_le(order[i], order[j]));
            }
        }
        lemma_inserted(init, name);
        lemma_str_le_total(last, name);
        init.to_multiset_ensures();
        inner.to_multiset_ensures();
        assert(order =~= init.push(last));
        assert(out.to_multiset() =~= order.to_multiset().insert(name));
        assert forall|i: int| 0 <= i < out.len() implies (#[trigger] out[i]) == name || order.contains(out[i]) by {
            if i < inner.len() {
                assert(out[i] == inner[i]);
                if inner[i] != name {
                    let k = choose|k: int| 0 <= k < init.len() && init[k] == inner[i];
                    assert(order[k] == inner[i]);
                }
            } else {
                assert(order[order.len() - 1] == out[i]);
            }
        }
        assert forall|i: int, j: int| 0 <= i < j < out.len() implies str_le(#[trigger] out[i], #[trigger] out[j]) by {
            if j == inner.len() {
                assert(out[i] == inner[i]);
                if inner[i] != name {
                    let k = choose|k: int| 0 <= k < init.len() && init[k] == inner[i];
                    assert(str_le(order[k], order[order.len() - 1]));
                }
            } else {
                assert(str_le(inner[i], inner[j]));
            }
        }
    }
}

/// The names in order are ascending, and they are the same names, each as
/// often as it was given.
pub proof fn lemma_in_order_ascending(names: Seq<Seq<char>>)
    ensures
        ascending(in_order(names)),
        in_order(names).to_multiset() == names.to_multiset(),
        in_order(names).len() == names.len(),
    decreases names.len(),
{
    names.to_multiset_ensures();
    if names.len() == 0 {
        assert(in_order(names) =~= names);
    } else {
        let init = names.drop_last();
        lemma_in_order_ascending(init);
        lemma_inserted(in_order(init), names.last());
        init.to_multiset_ensures();
        assert(names =~= init.push(names.last()));
    }
}

/// An ascending list of the names is their list in order: there is no other.
pub proof fn lemma_in_order(names: Seq<Seq<char>>, order: Seq<Seq<char>>)
    requires
        ascending(order),
        order.to_multiset() == names.to_multiset(),
    ensures
        in_order(names) == order,
{
    lemma_in_order_ascending(names);
    lemma_ascending_unique(in_order(names), order);
}

/// The names of the parts of a document, as they stand.
pub open spec fn names_of(configs: Seq<(Seq<char>, ConfigView)>) -> Seq<Seq<char>> {
    configs.map_values(|c: (Seq<char>, ConfigView)| c.0)
}

/// Sorts the names with `Itertools::sorted`, which sorts by the order of the
/// items: the result holds the same names as often, in ascending order.
#[verifier::external_body]
fn sorted_names(names: Vec<String>) -> (sorted: Vec<String>)
    ensures
        sorted.deep_view().to_multiset() == names.deep_view().to_multiset(),
        ascending(sorted.deep_view()),
{
    itertools::Itertools::sorted(names.into_iter()).collect()
}

/// Lay out the listing of a document whose names are given in the order in
/// which they are to be listed.
pub fn list_layout(source: &str, names: &Vec<String>, default: &Option<String>) -> (spans: Vec<Span>)
    ensures
        span_views(spans@) == list_spans(
            source@,
            names.deep_view(),
            match default {
                Some(name) => Some(name@),
                None => None,
            },
        ),
{
    let ghost default_view: Option<Seq<char>> = match default {
        Some(name) => Some(name@),
        None => None,
    };
    let ghost all = names.deep_view();
    let mut spans: Vec<Span> = Vec::new();
    let heading_text = if names.len() == 0 {
        "Found not part in file: ".to_owned()
    } else if names.len() == 1 {
        "Found 1 part in file: ".to_owned()
    } else {
        let mut text = "Found ".to_owned();
        text.append(decimal_string(names.len()).as_str());
        text.append(" part in file: ");
        text
    };
    let (path, keys) = split_path_and_keys(source);
    spans.push(Span { text: heading_text, style: Style::Plain });
    spans.push(Span { text: path.to_owned(), style: Style::Underline });
    let ghost head = seq![plain(heading(all.len())), underlined(source_path(source@))];
    assert(span_views(spans@) =~= head);
    let ghost key_views = keys.deep_view();
    assert(key_views.take(0) =~= Seq::empty());
    let mut k: usize = 0;
    while k < keys.len()
        invariant
            0 <= k <= keys.len(),
            key_views == keys.deep_view(),
            span_views(spans@) == head + key_spans(key_views.take(k as int)),
        decreases keys.len() - k,
    {
        let ghost before = span_views(spans@);
        proof {
            assert(key_views.take(k + 1).drop_last() =~= key_views.take(k as int));
            assert(key_views.take(k + 1).last() == keys[k as int]@);
        }
        spans.push(Span { text: " -> ".to_owned(), style: Style::Plain });
        spans.push(Span { text: keys[k].to_owned(), style: Style::Bold });
        assert(span_views(spans@) =~= before.push(plain(" -> "@)).push(bold(keys[k as int]@)));
        assert(span_views(spans@) =~= head + key_spans(key_views.take(k + 1)));
        k += 1;
    }
    assert(key_views.take(keys.len() as int) =~= key_views);
    let ghost first = head + key_spans(source_keys(source@)) + seq![plain("\n"@)];
    spans.push(Span { text: "\n".to_owned(), style: Style::Plain });
    assert(span_views(spans@) =~= first);
    if names.len() == 0 {
        return spans;
    }
    spans.push(Span { text: "\n".to_owned(), style: Style::Plain });
    let ghost lead = first + seq![plain("\n"@)];
    assert(span_views(spans@) =~= lead);
    assert(all.take(0) =~= Seq::empty());
    let mut i: usize = 0;
    while i < names.len()
        invariant
            0 <= i <= names.len(),
            all == names.deep_view(),
            default_view == match default {
                Some(name) => Some(name@),
                None => None,
            },
            span_views(spans@) == lead + name_spans(all.take(i as int), default_view),
        decreases names.len() - i,
    {
        let ghost before = span_views(spans@);
        proof {
            assert(all.take(i + 1).drop_last() =~= all.take(i as int));
            assert(all.take(i + 1).last() == names[i as int]@);
        }
        let is_default = match default {
            Some(name) => *name == names[i],
            None => false,
        };
        spans.push(Span { text: "- ".to_owned(), style: Style::Plain });
        if is_default {
            let mut text = names[i].clone();
            text.append(" (default)\n");
            spans.push(Span { text, style: Style::Bold });
            assert(span_views(spans@) =~= before.push(plain("- "@)).push(
                bold(names[i as int]@ + " (default)\n"@),
            ));
        } else {
            spans.push(Span { text: names[i].clone(), style: Style::Plain });
            spans.push(Span { text: "\n".to_owned(), style: Style::Plain });
            assert(span_views(spans@) =~= before.push(plain("- "@)).push(plain(names[i as int]@)).push(
                plain("\n"@),
            ));
        }
        assert(span_views(spans@) =~= lead + name_spans(all.take(i + 1), default_view));
        i += 1;
    }
    assert(all.take(names.len() as int) =~= all);
    spans
}

impl ConfigFile {
    /// The names of the parts, as they stand in the document.
    pub fn names(&self) -> (names: Vec<String>)
        ensures
            names.deep_view() == names_of(self@.configs),
    {
        let mut names: Vec<String> = Vec::new();
        let mut i: usize = 0;
        while i < self.configs.len()
            invariant
                0 <= i <= self.configs.len(),
                names.len() == i,
                forall|j: int| 0 <= j < i ==> (#[trigger] names[j])@ == self.configs[j].name@,
            decreases self.configs.len() - i,
        {
            names.push(self.configs[i].name.clone());
            i += 1;
        }
        assert(names.deep_view() =~= names_of(self@.configs));
        names
    }

    /// The listing of the document: the number of parts and the source it
    /// was found in, then the parts by name in ascending order, the default
    /// one marked.
    pub fn write_list(&self) -> (spans: Vec<Span>)
        ensures
            span_views(spans@) == list_spans(self@.config_file, in_order(names_of(self@.configs)), self@.default),
    {
        let order = sorted_names(self.names());
        proof {
            lemma_in_order(names_of(self@.configs), order.deep_view());
        }
        list_layout(self.config_file.as_str(), &order, &self.default)
    }
}

} // verus!
