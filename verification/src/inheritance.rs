//! Profile inheritance: a profile document may name a base document under `extends`; the
//! child's mappings are merged into the base's, key by key, and any other child value
//! replaces the base's.
use vstd::prelude::*;

use crate::file_data::string_views;
use crate::text::{
    chars_equal, chars_of, first_index_of, joined, lemma_first_index_of, lemma_first_index_of_push,
    push_all, string_of,
};

verus! {

/// A YAML value as parsed, carried through unread.
#[verifier::external_type_specification]
#[verifier::external_body]
pub struct ExYamlValue(serde_yaml::Value);

/// The key of a mapping entry.
pub enum YamlKey {
    /// A string key.
    Text(String),
    /// Any other key, written as YAML.
    Other(String),
}

/// A key as plain values.
pub enum KeyView {
    Text(Seq<char>),
    Other(Seq<char>),
}

impl View for YamlKey {
    type V = KeyView;

    open spec fn view(&self) -> KeyView {
        match self {
            YamlKey::Text(s) => KeyView::Text(s@),
            YamlKey::Other(s) => KeyView::Other(s@),
        }
    }
}

/// A YAML document, with its mappings open to the merge, its strings as text, its tagged
/// values with their tag, and every other value carried as parsed.
pub enum YamlValue {
    /// A mapping, its entries in order.
    Mapping(Vec<YamlEntry>),
    /// A string.
    Text(String),
    /// A value with a tag (`!tag value`).
    Tagged(String, Box<YamlValue>),
    /// Any value that is neither a mapping, a string nor tagged.
    Other(serde_yaml::Value),
}

/// One entry of a mapping.
pub struct YamlEntry {
    pub key: YamlKey,
    pub value: YamlValue,
}

/// A YAML document as plain values.
pub enum YamlView {
    Mapping(Seq<(KeyView, YamlView)>),
    Text(Seq<char>),
    Tagged(Seq<char>, Box<YamlView>),
    Other(serde_yaml::Value),
}

/// The view of a value.
pub open spec fn value_view(v: YamlValue) -> YamlView
    decreases v, 1nat,
{
    match v {
        YamlValue::Mapping(entries) => YamlView::Mapping(entries_view(entries@)),
        YamlValue::Text(t) => YamlView::Text(t@),
        YamlValue::Tagged(tag, inner) => YamlView::Tagged(tag@, Box::new(value_view(*inner))),
        YamlValue::Other(o) => YamlView::Other(o),
    }
}

/// The views of mapping entries.
pub open spec fn entries_view(s: Seq<YamlEntry>) -> Seq<(KeyView, YamlView)>
    decreases s, 0nat,
{
    if s.len() == 0 {
        Seq::empty()
    } else {
        entries_view(s.drop_last()).push((s.last().key@, value_view(s.last().value)))
    }
}

/// The keys of mapping entries.
pub open spec fn entry_keys(s: Seq<(KeyView, YamlView)>) -> Seq<KeyView> {
    s.map_values(|e: (KeyView, YamlView)| e.0)
}

/// `child` merged into `base`: two mappings merge entry by entry; any other child replaces
/// the base.
pub open spec fn merged(base: YamlView, child: YamlView) -> YamlView
    decreases child, 1nat,
{
    match (base, child) {
        (YamlView::Mapping(b), YamlView::Mapping(c)) => YamlView::Mapping(merged_entries(b, c)),
        _ => child,
    }
}

/// The entries of `child` merged into those of `base`, in the child's order: an entry whose
/// key the merged mapping already has merges into that entry's value in place; any other is
/// appended.
pub open spec fn merged_entries(
    base: Seq<(KeyView, YamlView)>,
    child: Seq<(KeyView, YamlView)>,
) -> Seq<(KeyView, YamlView)>
    decreases child, 0nat,
{
    if child.len() == 0 {
        base
    } else {
        let acc = merged_entries(base, child.drop_last());
        let entry = child.last();
        match first_index_of(entry_keys(acc), entry.0) {
            Some(i) => acc.update(i, (acc[i].0, merged(acc[i].1, entry.1))),
            None => acc.push(entry),
        }
    }
}

/// Whether two keys are the same.
fn same_key(a: &YamlKey, b: &YamlKey) -> (res: bool)
    ensures
        res == (a@ == b@),
{
    match (a, b) {
        (YamlKey::Text(x), YamlKey::Text(y)) => chars_equal(&chars_of(x.as_str()), &chars_of(y.as_str())),
        (YamlKey::Other(x), YamlKey::Other(y)) => chars_equal(&chars_of(x.as_str()), &chars_of(y.as_str())),
        _ => false,
    }
}

/// The position of the first entry whose key is `key`.
fn find_key(entries: &Vec<YamlEntry>, key: &YamlKey) -> (res: Option<usize>)
    ensures
        res matches Some(i) ==> first_index_of(entry_keys(entries_view(entries@)), key@) == Some(i as int),
        res is None ==> first_index_of(entry_keys(entries_view(entries@)), key@) is None,
{
    let ghost keys = entry_keys(entries_view(entries@));
    proof {
        lemma_entries_view(entries@);
        lemma_first_index_of(keys, key@);
    }
    let mut i: usize = 0;
    while i < entries.len()
        invariant
            i <= entries@.len(),
            keys == entry_keys(entries_view(entries@)),
            keys.len() == entries@.len(),
            forall|j: int| 0 <= j < entries@.len() ==> #[trigger] keys[j] == entries@[j].key@,
            forall|j: int| 0 <= j < i ==> keys[j] != key@,
            first_index_of(keys, key@) matches Some(f) ==> {
                &&& 0 <= f < keys.len()
                &&& keys[f] == key@
                &&& forall|j: int| 0 <= j < f ==> keys[j] != key@
            },
            first_index_of(keys, key@) is None ==> forall|j: int| 0 <= j < keys.len() ==> keys[j] != key@,
        decreases entries@.len() - i,
    {
        if same_key(&entries[i].key, key) {
            proof {
                assert(keys[i as int] == key@);
                if let Some(f) = first_index_of(keys, key@) {
                    assert(!(f < i));
                    assert(!(f > i));
                }
            }
            return Some(i);
        }
        i += 1;
    }
    proof {
        if let Some(f) = first_index_of(keys, key@) {
            assert(keys[f] != key@);
        }
    }
    None
}

/// The views of entries, one by one.
proof fn lemma_entries_view(s: Seq<YamlEntry>)
    ensures
        entries_view(s).len() == s.len(),
        forall|j: int| 0 <= j < s.len() ==> #[trigger] entries_view(s)[j] == (s[j].key@, value_view(s[j].value)),
    decreases s.len(),
{
    if s.len() > 0 {
        lemma_entries_view(s.drop_last());
        assert forall|j: int| 0 <= j < s.len() implies #[trigger] entries_view(s)[j] == (s[j].key@, value_view(s[j].value)) by {
            if j < s.len() - 1 {
                assert(s.drop_last()[j] == s[j]);
            }
        }
    }
}

/// Entries built one by one have the views of their parts.
proof fn lemma_entries_view_of(s: Seq<YamlEntry>, v: Seq<(KeyView, YamlView)>)
    requires
        s.len() == v.len(),
        forall|j: int| 0 <= j < s.len() ==> (#[trigger] s[j]).key@ == v[j].0 && value_view(s[j].value) == v[j].1,
    ensures
        entries_view(s) == v,
{
    lemma_entries_view(s);
    assert(entries_view(s) =~= v);
}

/// Merges `child` into `base`: two mappings merge entry by entry; any other child replaces
/// the base.
pub fn deep_merge(base: &mut YamlValue, child: YamlValue)
    ensures
        value_view(*final(base)) == merged(value_view(*old(base)), value_view(child)),
    decreases child,
{
    let ghost whole_child = child;
    let mut taken = YamlValue::Mapping(Vec::new());
    std::mem::swap(base, &mut taken);
    match (taken, child) {
        (YamlValue::Mapping(b), YamlValue::Mapping(c)) => {
            let ghost c_vec = c;
            let ghost child_view = entries_view(c@);
            let ghost base_view = entries_view(b@);
            let ghost c_all = c@;
            let mut acc = b;
            let mut rest = c;
            let mut k: usize = 0;
            proof {
                lemma_entries_view(c_all);
                assert(child_view.take(0) =~= Seq::<(KeyView, YamlView)>::empty());
            }
            let total = rest.len();
            while rest.len() > 0
                invariant
                    k <= c_all.len(),
                    c_all.len() == total,
                    whole_child == child,
                    whole_child == YamlValue::Mapping(c_vec),
                    c_vec@ == c_all,
                    rest@ == c_all.skip(k as int),
                    child_view == entries_view(c_all),
                    child_view.len() == c_all.len(),
                    forall|j: int| 0 <= j < c_all.len() ==> #[trigger] child_view[j] == (c_all[j].key@, value_view(c_all[j].value)),
                    entries_view(acc@) == merged_entries(base_view, child_view.take(k as int)),
                decreases rest@.len(),
            {
                let ghost old_rest = rest@;
                let ghost before = acc@;
                let entry = rest.remove(0);
                proof {
                    assert(entry == c_all[k as int]) by {
                        assert(old_rest[0] == c_all.skip(k as int)[0]);
                    }
                    let t = child_view.take(k + 1);
                    assert(t.drop_last() =~= child_view.take(k as int));
                    assert(t.last() == child_view[k as int]);
                    assert(rest@ =~= c_all.skip(k + 1));
                    lemma_entries_view(before);
                }
                let YamlEntry { key, value } = entry;
                let ghost entry_view = (key@, value_view(value));
                proof {
                    assert(child_view[k as int] == entry_view);
                }
                match find_key(&acc, &key) {
                    Some(i) => {
                        proof {
                            lemma_first_index_of(entry_keys(entries_view(before)), key@);
                        }
                        let existing = acc.remove(i);
                        let YamlEntry { key: existing_key, value: existing_value } = existing;
                        let mut merged_value = existing_value;
                        proof {
                            assert(whole_child == YamlValue::Mapping(c_vec));
                            assert(c_vec@ == c_all);
                            assert(whole_child->Mapping_0 == c_vec);
                            assert(decreases_to!(whole_child => whole_child->Mapping_0));
                            assert(decreases_to!(c_vec => c_vec@));
                            assert(decreases_to!(c_all => c_all[k as int]));
                            assert(decreases_to!(c_all[k as int] => c_all[k as int].value));
                            assert(decreases_to!(whole_child => value));
                        }
                        deep_merge(&mut merged_value, value);
                        let ghost new_entry = YamlEntry { key: existing_key, value: merged_value };
                        acc.insert(i, YamlEntry { key: existing_key, value: merged_value });
                        proof {
                            let av = entries_view(before);
                            assert(acc@ =~= before.update(i as int, new_entry));
                            assert(av[i as int] == (existing_key@, value_view(existing_value)));
                            lemma_entries_view_of(
                                acc@,
                                av.update(i as int, (av[i as int].0, merged(av[i as int].1, entry_view.1))),
                            );
                        }
                    },
                    None => {
                        acc.push(YamlEntry { key, value });
                        proof {
                            let av = entries_view(before);
                            lemma_entries_view_of(acc@, av.push(entry_view));
                        }
                    },
                }
                k = k + 1;
            }
            proof {
                assert(child_view.take(k as int) =~= child_view);
            }
            *base = YamlValue::Mapping(acc);
        },
        (_, c) => {
            *base = c;
        },
    }
}

/// An error of serde_yaml, carried through unread.
#[verifier::external_type_specification]
#[verifier::external_body]
pub struct ExYamlError(serde_yaml::Error);

/// One level of a YAML document: a mapping's keys, each with its value written back as YAML
/// text; a string; a tag with its value written back as YAML text; or any other value as
/// parsed.
pub enum YamlNode {
    Mapping(Vec<(YamlKey, String)>),
    Text(String),
    Tagged(String, String),
    Other(serde_yaml::Value),
}

/// One level of a YAML document as plain values.
pub enum NodeView {
    Mapping(Seq<(KeyView, Seq<char>)>),
    Text(Seq<char>),
    Tagged(Seq<char>, Seq<char>),
    Other(serde_yaml::Value),
}

impl View for YamlNode {
    type V = NodeView;

    open spec fn view(&self) -> NodeView {
        match self {
            YamlNode::Mapping(es) => NodeView::Mapping(
                es@.map_values(|e: (YamlKey, String)| (e.0@, e.1@)),
            ),
            YamlNode::Text(t) => NodeView::Text(t@),
            YamlNode::Tagged(tag, inner) => NodeView::Tagged(tag@, inner@),
            YamlNode::Other(o) => NodeView::Other(*o),
        }
    }
}

/// What `serde_yaml::from_str::<serde_yaml::Value>` reads from `text`, one level deep, with
/// each value inside written back as text by `serde_yaml::to_string`; none where either of
/// them fails.
pub uninterp spec fn yaml_node(text: Seq<char>) -> Option<NodeView>;

/// Parses `text` with `serde_yaml::from_str::<serde_yaml::Value>` and splits the value one
/// level deep: a mapping's string keys as text and its other keys, and every value inside,
/// written back with `serde_yaml::to_string`; a tag by its `Display` form (`!tag`). The
/// contract claims only that the outcome is `yaml_node` of the text, and fails exactly where
/// that name has no value.
#[verifier::external_body]
fn read_node(text: &str) -> (res: Result<YamlNode, serde_yaml::Error>)
    ensures
        match res {
            Ok(node) => yaml_node(text@) == Some(node@),
            Err(_) => yaml_node(text@) is None,
        },
{
    Ok(match serde_yaml::from_str(text)? {
        serde_yaml::Value::Mapping(mapping) => {
            let mut entries = Vec::new();
            for (key, value) in mapping {
                let key = match key { serde_yaml::Value::String(s) => YamlKey::Text(s), k => YamlKey::Other(serde_yaml::to_string(&k)?) };
                entries.push((key, serde_yaml::to_string(&value)?));
            }
            YamlNode::Mapping(entries)
        },
        serde_yaml::Value::String(s) => YamlNode::Text(s),
        serde_yaml::Value::Tagged(t) => YamlNode::Tagged(t.tag.to_string(), serde_yaml::to_string(&t.value)?),
        other => YamlNode::Other(other),
    })
}

/// How reading a YAML document fails.
pub enum YamlFailure {
    /// The text, or a value inside it, is not YAML that serde_yaml reads.
    Syntax,
    /// The document nests deeper than reading follows.
    TooDeep,
}

/// How reading a YAML document failed.
#[derive(Debug)]
pub enum YamlError {
    /// serde_yaml refused the text, or a value inside it.
    Syntax(serde_yaml::Error),
    /// The document nests deeper than `NESTING_LIMIT` levels.
    TooDeep,
}

impl View for YamlError {
    type V = YamlFailure;

    open spec fn view(&self) -> YamlFailure {
        match self {
            YamlError::Syntax(_) => YamlFailure::Syntax,
            YamlError::TooDeep => YamlFailure::TooDeep,
        }
    }
}

/// The deepest nesting that reading a YAML document follows.
pub const NESTING_LIMIT: u32 = 256;

/// The document that `text` holds, read level by level through `yaml_node` with at most
/// `depth` levels; the first failure in document order otherwise.
pub open spec fn yaml_read_within(text: Seq<char>, depth: nat) -> Result<YamlView, YamlFailure>
    decreases depth, 1nat, 0nat,
{
    if depth == 0 {
        Err(YamlFailure::TooDeep)
    } else {
        match yaml_node(text) {
            None => Err(YamlFailure::Syntax),
            Some(NodeView::Mapping(es)) => match entries_read_within(es, depth) {
                Ok(entries) => Ok(YamlView::Mapping(entries)),
                Err(f) => Err(f),
            },
            Some(NodeView::Text(t)) => Ok(YamlView::Text(t)),
            Some(NodeView::Tagged(tag, inner)) => match yaml_read_within(inner, (depth - 1) as nat) {
                Ok(v) => Ok(YamlView::Tagged(tag, Box::new(v))),
                Err(f) => Err(f),
            },
            Some(NodeView::Other(o)) => Ok(YamlView::Other(o)),
        }
    }
}

/// The entries of a mapping whose values are read from their texts one level below `depth`;
/// the first failure in entry order otherwise.
pub open spec fn entries_read_within(
    es: Seq<(KeyView, Seq<char>)>,
    depth: nat,
) -> Result<Seq<(KeyView, YamlView)>, YamlFailure>
    decreases depth, 0nat, es.len(),
{
    if es.len() == 0 {
        Ok(Seq::empty())
    } else if depth == 0 {
        Err(YamlFailure::TooDeep)
    } else {
        match entries_read_within(es.drop_last(), depth) {
            Err(f) => Err(f),
            Ok(front) => match yaml_read_within(es.last().1, (depth - 1) as nat) {
                Ok(v) => Ok(front.push((es.last().0, v))),
                Err(f) => Err(f),
            },
        }
    }
}

/// The document that the YAML text `text` holds.
pub open spec fn yaml_read(text: Seq<char>) -> Result<YamlView, YamlFailure> {
    yaml_read_within(text, NESTING_LIMIT as nat)
}

/// A failure among the first entries is the failure of all of them.
proof fn lemma_entries_read_prefix(es: Seq<(KeyView, Seq<char>)>, n: int, depth: nat)
    requires
        0 <= n <= es.len(),
        entries_read_within(es.take(n), depth) is Err,
    ensures
        entries_read_within(es, depth) == entries_read_within(es.take(n), depth),
    decreases es.len(),
{
    if n == es.len() {
        assert(es.take(n) =~= es);
    } else {
        assert(es.drop_last().take(n) =~= es.take(n));
        lemma_entries_read_prefix(es.drop_last(), n, depth);
    }
}

/// Reads the YAML text `text` with at most `depth` levels.
fn read_within(text: &str, depth: u32) -> (res: Result<YamlValue, YamlError>)
    ensures
        match res {
            Ok(v) => yaml_read_within(text@, depth as nat) == Ok::<YamlView, YamlFailure>(value_view(v)),
            Err(e) => yaml_read_within(text@, depth as nat) == Err::<YamlView, YamlFailure>(e@),
        },
    decreases depth,
{
    if depth == 0 {
        return Err(YamlError::TooDeep);
    }
    match read_node(text) {
        Err(e) => Err(YamlError::Syntax(e)),
        Ok(YamlNode::Text(t)) => Ok(YamlValue::Text(t)),
        Ok(YamlNode::Other(o)) => Ok(YamlValue::Other(o)),
        Ok(YamlNode::Tagged(tag, inner)) => match read_within(inner.as_str(), depth - 1) {
            Ok(v) => Ok(YamlValue::Tagged(tag, Box::new(v))),
            Err(e) => Err(e),
        },
        Ok(YamlNode::Mapping(es)) => {
            let ghost all = es@;
            let ghost ev = all.map_values(|e: (YamlKey, String)| (e.0@, e.1@));
            let mut rest = es;
            let total = rest.len();
            let mut out: Vec<YamlEntry> = Vec::new();
            let mut k: usize = 0;
            proof {
                assert(ev.take(0) =~= Seq::<(KeyView, Seq<char>)>::empty());
                lemma_entries_view_of(out@, Seq::empty());
            }
            while rest.len() > 0
                invariant
                    depth > 0,
                    k <= all.len(),
                    all.len() == total,
                    yaml_node(text@) == Some(NodeView::Mapping(ev)),
                    ev == all.map_values(|e: (YamlKey, String)| (e.0@, e.1@)),
                    rest@ == all.skip(k as int),
                    entries_read_within(ev.take(k as int), depth as nat) == Ok::<
                        Seq<(KeyView, YamlView)>,
                        YamlFailure,
                    >(entries_view(out@)),
                decreases rest@.len(),
            {
                let ghost old_rest = rest@;
                let ghost before = out@;
                let (key, inner) = rest.remove(0);
                proof {
                    assert((key, inner) == all[k as int]) by {
                        assert(old_rest[0] == all.skip(k as int)[0]);
                    }
                    assert(rest@ =~= all.skip(k + 1));
                    let t = ev.take(k + 1);
                    assert(t.drop_last() =~= ev.take(k as int));
                    assert(t.last() == ev[k as int]);
                    assert(ev[k as int] == (key@, inner@));
                }
                match read_within(inner.as_str(), depth - 1) {
                    Err(e) => {
                        proof {
                            lemma_entries_read_prefix(ev, k + 1, depth as nat);
                        }
                        return Err(e);
                    },
                    Ok(v) => {
                        let ghost entry_view = (key@, value_view(v));
                        out.push(YamlEntry { key, value: v });
                        proof {
                            lemma_entries_view(before);
                            lemma_entries_view_of(out@, entries_view(before).push(entry_view));
                        }
                    },
                }
                k = k + 1;
            }
            proof {
                assert(ev.take(k as int) =~= ev);
            }
            Ok(YamlValue::Mapping(out))
        },
    }
}

/// Reads a YAML document: its mappings, strings and tagged values opened, every other value
/// carried as serde_yaml parsed it.
pub fn parse_yaml(text: &str) -> (res: Result<YamlValue, YamlError>)
    ensures
        match res {
            Ok(v) => yaml_read(text@) == Ok::<YamlView, YamlFailure>(value_view(v)),
            Err(e) => yaml_read(text@) == Err::<YamlView, YamlFailure>(e@),
        },
{
    read_within(text, NESTING_LIMIT)
}

/// What goes wrong while resolving a profile's inheritance, as plain values.
pub enum InheritanceFailure {
    Cycle(Seq<char>),
    Parse(Seq<char>, YamlFailure),
    ExtendsNotText(Seq<char>),
}

/// What goes wrong while resolving a profile's inheritance.
#[derive(Debug)]
pub enum InheritanceError {
    /// `profile inheritance cycle: {chain}`
    Cycle { chain: String },
    /// `failed to parse YAML in {path}`, with the reason.
    Parse { path: String, error: YamlError },
    /// `'extends' must be a path string in {path}`
    ExtendsNotText { path: String },
}

impl View for InheritanceError {
    type V = InheritanceFailure;

    open spec fn view(&self) -> InheritanceFailure {
        match self {
            InheritanceError::Cycle { chain } => InheritanceFailure::Cycle(chain@),
            InheritanceError::Parse { path, error } => InheritanceFailure::Parse(path@, error@),
            InheritanceError::ExtendsNotText { path } => InheritanceFailure::ExtendsNotText(path@),
        }
    }
}

/// The string that a value holds, read through any tags; none for any other value.
pub open spec fn untagged_text(v: YamlView) -> Option<Seq<char>>
    decreases v,
{
    match v {
        YamlView::Text(t) => Some(t),
        YamlView::Tagged(_, inner) => untagged_text(*inner),
        _ => None,
    }
}

/// The string that `v` holds, read through any tags.
fn text_through_tags(v: YamlValue) -> (res: Option<String>)
    ensures
        opt_text(res) == untagged_text(value_view(v)),
    decreases v,
{
    match v {
        YamlValue::Text(t) => Some(t),
        YamlValue::Tagged(_, inner) => text_through_tags(*inner),
        _ => None,
    }
}

/// The view of an optional string.
pub open spec fn opt_text(o: Option<String>) -> Option<Seq<char>> {
    match o {
        Some(s) => Some(s@),
        None => None,
    }
}

/// The key under which a document names its base.
pub open spec fn extends_key() -> KeyView {
    KeyView::Text("extends"@)
}

/// What taking the `extends` entry out of the document `doc` gives, a value that is not text
/// being refused with `path`: for a mapping with that key, the mapping with the last entry
/// moved into its place and the text of its value; for any other document, the document and
/// no base.
pub open spec fn takes_extends(
    doc: YamlView,
    path: Seq<char>,
    res: Result<(YamlValue, Option<String>), InheritanceError>,
) -> bool {
    match doc {
        YamlView::Mapping(entries) => match first_index_of(entry_keys(entries), extends_key()) {
            None => res matches Ok((out, None)) && value_view(out) == doc,
            Some(i) => {
                let rest = entries.update(i, entries.last()).drop_last();
                match untagged_text(entries[i].1) {
                    Some(t) => res matches Ok((out, Some(p))) && p@ == t && value_view(out)
                        == YamlView::Mapping(rest),
                    None => res matches Err(e) && e@ == InheritanceFailure::ExtendsNotText(path),
                }
            },
        },
        _ => res matches Ok((out, None)) && value_view(out) == doc,
    }
}

/// Removes the `extends` entry of a mapping document, as serde_yaml's `Mapping::remove` does:
/// the last entry takes its place. Returns the document and the text of the removed value; a
/// value that is not text is refused, naming `path`.
pub fn take_extends(doc: YamlValue, path: &str) -> (res: Result<(YamlValue, Option<String>), InheritanceError>)
    ensures
        takes_extends(value_view(doc), path@, res),
{
    match doc {
        YamlValue::Mapping(entries) => {
            let ghost view = entries_view(entries@);
            let key = YamlKey::Text(String::from_str("extends"));
            proof {
                lemma_entries_view(entries@);
            }
            match find_key(&entries, &key) {
                None => Ok((YamlValue::Mapping(entries), None)),
                Some(i) => {
                    proof {
                        lemma_first_index_of(entry_keys(view), key@);
                    }
                    let ghost before = entries@;
                    let mut entries = entries;
                    let removed = entries.swap_remove(i);
                    proof {
                        let rest = view.update(i as int, view.last()).drop_last();
                        assert forall|j: int| 0 <= j < entries@.len() implies (#[trigger] entries@[j]).key@
                            == rest[j].0 && value_view(entries@[j].value) == rest[j].1 by {
                            if j == i {
                                assert(entries@[j] == before.last());
                            } else {
                                assert(entries@[j] == before[j]);
                            }
                        }
                        lemma_entries_view_of(entries@, rest);
                    }
                    match text_through_tags(removed.value) {
                        Some(t) => Ok((YamlValue::Mapping(entries), Some(t))),
                        None => Err(InheritanceError::ExtendsNotText { path: path.to_owned() }),
                    }
                },
            }
        },
        other => Ok((other, None)),
    }
}

/// Refuses to enter `identity` again while resolving the documents of `stack`; the refusal
/// names the chain that leads back to it.
pub fn check_cycle(stack: &Vec<String>, identity: &str) -> (res: Result<(), InheritanceError>)
    ensures
        res is Err <==> string_views(stack@).contains(identity@),
        res matches Err(e) ==> e@ == InheritanceFailure::Cycle(
            joined(string_views(stack@).push(identity@), " -> "@),
        ),
{
    let target = chars_of(identity);
    let mut i: usize = 0;
    while i < stack.len()
        invariant
            i <= stack@.len(),
            target@ == identity@,
            forall|j: int| 0 <= j < i ==> stack@[j]@ != identity@,
        decreases stack@.len() - i,
    {
        if chars_equal(&chars_of(stack[i].as_str()), &target) {
            proof {
                assert(string_views(stack@)[i as int] == identity@);
            }
            let sep = chars_of(" -> ");
            let mut chain: Vec<char> = Vec::new();
            let mut k: usize = 0;
            while k < stack.len()
                invariant
                    k <= stack@.len(),
                    sep@ == " -> "@,
                    k == 0 ==> chain@ == Seq::<char>::empty(),
                    k > 0 ==> chain@ == joined(string_views(stack@).take(k as int), sep@),
                decreases stack@.len() - k,
            {
                if k > 0 {
                    push_all(&mut chain, &sep);
                }
                push_all(&mut chain, &chars_of(stack[k].as_str()));
                proof {
                    let parts = string_views(stack@).take(k + 1);
                    assert(parts.drop_last() =~= string_views(stack@).take(k as int));
                    assert(parts.last() == stack@[k as int]@);
                    if k == 0 {
                        assert(parts.len() == 1);
                        assert(chain@ =~= parts[0]);
                    }
                }
                k += 1;
            }
            push_all(&mut chain, &sep);
            push_all(&mut chain, &target);
            proof {
                let parts = string_views(stack@).push(identity@);
                assert(string_views(stack@).take(stack@.len() as int) =~= string_views(stack@));
                assert(parts.drop_last() =~= string_views(stack@));
            }
            return Err(InheritanceError::Cycle { chain: string_of(&chain) });
        }
        i += 1;
    }
    proof {
        if string_views(stack@).contains(identity@) {
            let j = choose|j: int| 0 <= j < string_views(stack@).len() && string_views(stack@)[j] == identity@;
            assert(stack@[j]@ == identity@);
        }
    }
    Ok(())
}

/// One step of resolving a profile's inheritance: the document `identity`, whose file `path`
/// holds `text`, is refused if `stack` is already resolving it; otherwise it is read, and its
/// `extends` entry taken out. Returns the document and the base it names, if any.
pub fn resolve_step(stack: &Vec<String>, identity: &str, path: &str, text: &str) -> (res: Result<
    (YamlValue, Option<String>),
    InheritanceError,
>)
    ensures
        (res matches Err(e) && e@ is Cycle) <==> string_views(stack@).contains(identity@),
        string_views(stack@).contains(identity@) ==> (res matches Err(e) && e@
            == InheritanceFailure::Cycle(joined(string_views(stack@).push(identity@), " -> "@))),
        !string_views(stack@).contains(identity@) ==> match yaml_read(text@) {
            Err(f) => (res matches Err(e) && e@ == InheritanceFailure::Parse(path@, f)),
            Ok(doc) => takes_extends(doc, path@, res),
        },
{
    if let Err(e) = check_cycle(stack, identity) {
        return Err(e);
    }
    match parse_yaml(text) {
        Err(error) => Err(InheritanceError::Parse { path: path.to_owned(), error }),
        Ok(doc) => take_extends(doc, path),
    }
}

/// The documents of an inheritance chain, from the profile itself to its last base, merged:
/// each base first, then what inherits from it.
pub open spec fn chain_merged(chain: Seq<YamlView>) -> YamlView
    recommends
        chain.len() > 0,
    decreases chain.len(),
{
    if chain.len() <= 1 {
        chain[0]
    } else {
        merged(chain_merged(chain.drop_first()), chain[0])
    }
}

/// Merges an inheritance chain, given from the profile itself to its last base.
pub fn merge_chain(chain: Vec<YamlValue>) -> (out: YamlValue)
    requires
        chain@.len() > 0,
    ensures
        value_view(out) == chain_merged(chain@.map_values(|v: YamlValue| value_view(v))),
{
    let ghost views = chain@.map_values(|v: YamlValue| value_view(v));
    let mut rest = chain;
    let mut acc = rest.pop().unwrap();
    proof {
        assert(views.skip(views.len() - 1) =~= seq![views.last()]);
        assert(chain_merged(views.skip(views.len() - 1)) == views.last());
    }
    while rest.len() > 0
        invariant
            0 < views.len(),
            rest@.len() < views.len(),
            forall|j: int| 0 <= j < rest@.len() ==> value_view(#[trigger] rest@[j]) == views[j],
            value_view(acc) == chain_merged(views.skip(rest@.len() as int)),
        decreases rest@.len(),
    {
        let child = rest.pop().unwrap();
        let n = rest.len();
        proof {
            let tail = views.skip(n as int);
            assert(tail.drop_first() =~= views.skip(n + 1));
            assert(tail[0] == views[n as int]);
        }
        let mut base = acc;
        deep_merge(&mut base, child);
        acc = base;
    }
    proof {
        assert(views.skip(0) =~= views);
    }
    acc
}

/// The value under key `k` among `entries`: that of its first entry.
pub open spec fn lookup(entries: Seq<(KeyView, YamlView)>, k: KeyView) -> Option<YamlView> {
    match first_index_of(entry_keys(entries), k) {
        Some(i) => Some(entries[i].1),
        None => None,
    }
}

/// No two entries have the same key.
pub open spec fn distinct_keys(entries: Seq<(KeyView, YamlView)>) -> bool {
    forall|i: int, j: int|
        0 <= i < j < entries.len() ==> #[trigger] entries[i].0 != #[trigger] entries[j].0
}

/// Merging mappings: under each key, the result holds the base's value merged with the
/// child's where both have the key, and otherwise the value of whichever has it.
pub proof fn law_merged_lookup(base: Seq<(KeyView, YamlView)>, child: Seq<(KeyView, YamlView)>, k: KeyView)
    requires
        distinct_keys(child),
    ensures
        lookup(merged_entries(base, child), k) == match (lookup(base, k), lookup(child, k)) {
            (Some(b), Some(c)) => Some(merged(b, c)),
            (Some(b), None) => Some(b),
            (None, Some(c)) => Some(c),
            (None, None) => None,
        },
    decreases child.len(),
{
    if child.len() > 0 {
        let prev = child.drop_last();
        let entry = child.last();
        assert(distinct_keys(prev)) by {
            assert forall|i: int, j: int| 0 <= i < j < prev.len() implies #[trigger] prev[i].0 != #[trigger] prev[j].0 by {
                assert(prev[i] == child[i] && prev[j] == child[j]);
            }
        }
        law_merged_lookup(base, prev, k);
        let acc = merged_entries(base, prev);
        assert(entry_keys(child) =~= entry_keys(prev).push(entry.0));
        lemma_first_index_of_push(entry_keys(prev), entry.0, k);
        lemma_first_index_of(entry_keys(acc), entry.0);
        lemma_first_index_of(entry_keys(acc), k);
        lemma_first_index_of(entry_keys(prev), k);
        lemma_first_index_of(entry_keys(child), k);
        if entry.0 == k {
            if let Some(j) = first_index_of(entry_keys(prev), k) {
                assert(prev[j].0 == k);
                assert(child[j].0 == child[child.len() - 1].0);
            }
        }
        match first_index_of(entry_keys(acc), entry.0) {
            Some(i) => {
                let out = acc.update(i, (acc[i].0, merged(acc[i].1, entry.1)));
                assert(entry_keys(out) =~= entry_keys(acc));
                if let Some(f) = first_index_of(entry_keys(acc), k) {
                    if f == i {
                        assert(entry.0 == k);
                    }
                }
            },
            None => {
                let out = acc.push(entry);
                assert(entry_keys(out) =~= entry_keys(acc).push(entry.0));
                lemma_first_index_of_push(entry_keys(acc), entry.0, k);
            },
        }
        if let Some(f) = first_index_of(entry_keys(child), k) {
            if f < child.len() - 1 {
                assert(child[f] == prev[f]);
            }
        }
    }
}

} // verus!
