//! The dynamic node: an untyped document tree that stands where a typed value is
//! expected.

use crate::de::Errors as DecodeErrors;
use crate::ser::{
    bool_text, element_head, entry_tail, key_tail, null_text, seq_open, str_text, Errors,
    YamlSerializer,
};
use crate::de::{any_of, stalled, Found, YamlDeserializer};
use crate::event::{advance, lemma_advance_well_formed, Token};
use crate::text::{decimal_text, is_real_numeral, real_numeral, same_text};
use yaml_rust2::parser::Event;
use vstd::prelude::*;

verus! {

/// A node of an untyped document tree.
#[derive(Debug, PartialEq, Eq, Hash)]
pub enum Node {
    /// A real number, as its text. The encoder writes the text as it stands: a
    /// caller that wants the number in its printed form hands that form over.
    Real(String),
    /// An integer.
    Integer(i64),
    /// A string.
    Text(String),
    /// A boolean.
    Boolean(bool),
    /// A sequence of nodes.
    Array(Vec<Node>),
    /// A mapping, as its entries in order. In a mapping that is read from a text no
    /// key stands twice: a key that is read again takes its new value and stands
    /// last.
    Hash(Vec<(Node, Node)>),
    /// An alias, by the number of its anchor.
    Alias(usize),
    /// Nothing.
    Null,
    /// No value.
    BadValue,
}

/// The mathematical model of a node.
pub enum NodeModel {
    Real(Seq<char>),
    Integer(i64),
    Text(Seq<char>),
    Boolean(bool),
    Array(Seq<NodeModel>),
    Hash(Seq<(NodeModel, NodeModel)>),
    Alias(usize),
    Null,
    BadValue,
}

/// The model of a node.
pub open spec fn node_model(n: Node) -> NodeModel
    decreases n,
{
    match n {
        Node::Real(text) => NodeModel::Real(text@),
        Node::Integer(v) => NodeModel::Integer(v),
        Node::Text(text) => NodeModel::Text(text@),
        Node::Boolean(v) => NodeModel::Boolean(v),
        Node::Array(items) => NodeModel::Array(node_models(items@)),
        Node::Hash(entries) => NodeModel::Hash(entry_models(entries@)),
        Node::Alias(id) => NodeModel::Alias(id),
        Node::Null => NodeModel::Null,
        Node::BadValue => NodeModel::BadValue,
    }
}

/// The models of some nodes, in order.
pub open spec fn node_models(items: Seq<Node>) -> Seq<NodeModel>
    decreases items,
{
    if items.len() == 0 {
        Seq::empty()
    } else {
        node_models(items.drop_last()).push(node_model(items.last()))
    }
}

/// The models of some entries, in order.
pub open spec fn entry_models(entries: Seq<(Node, Node)>) -> Seq<(NodeModel, NodeModel)>
    decreases entries,
{
    if entries.len() == 0 {
        Seq::empty()
    } else {
        entry_models(entries.drop_last()).push(
            (node_model(entries.last().0), node_model(entries.last().1)),
        )
    }
}

impl View for Node {
    type V = NodeModel;

    open spec fn view(&self) -> NodeModel {
        node_model(*self)
    }
}

/// The models of some nodes are as many, and stand at the same places.
pub proof fn lemma_node_models(items: Seq<Node>)
    ensures
        node_models(items).len() == items.len(),
        forall|j: int| 0 <= j < items.len() ==> node_models(items)[j] == node_model(#[trigger] items[j]),
    decreases items.len(),
{
    if items.len() > 0 {
        lemma_node_models(items.drop_last());
        assert forall|j: int| 0 <= j < items.len() implies node_models(items)[j] == node_model(
            #[trigger] items[j],
        ) by {
            if j < items.len() - 1 {
                assert(items.drop_last()[j] == items[j]);
            }
        }
    }
}

/// The models of some entries are as many, and stand at the same places.
pub proof fn lemma_entry_models(entries: Seq<(Node, Node)>)
    ensures
        entry_models(entries).len() == entries.len(),
        forall|j: int|
            0 <= j < entries.len() ==> entry_models(entries)[j] == (
                node_model((#[trigger] entries[j]).0),
                node_model(entries[j].1),
            ),
    decreases entries.len(),
{
    if entries.len() > 0 {
        lemma_entry_models(entries.drop_last());
        assert forall|j: int| 0 <= j < entries.len() implies entry_models(entries)[j] == (
            node_model((#[trigger] entries[j]).0),
            node_model(entries[j].1),
        ) by {
            if j < entries.len() - 1 {
                assert(entries.drop_last()[j] == entries[j]);
            }
        }
    }
}

/// Whether a node has a text form: it holds neither an alias nor a bad value.
pub open spec fn representable(n: NodeModel) -> bool
    decreases n,
{
    match n {
        NodeModel::Alias(_) => false,
        NodeModel::BadValue => false,
        NodeModel::Array(items) => all_representable(items),
        NodeModel::Hash(entries) => entries_representable(entries),
        _ => true,
    }
}

/// Whether each of some nodes has a text form.
pub open spec fn all_representable(items: Seq<NodeModel>) -> bool
    decreases items,
{
    items.len() == 0 || (all_representable(items.drop_last()) && representable(items.last()))
}

/// Whether the keys and values of some entries have a text form.
pub open spec fn entries_representable(entries: Seq<(NodeModel, NodeModel)>) -> bool
    decreases entries,
{
    entries.len() == 0 || (entries_representable(entries.drop_last()) && representable(
        entries.last().0,
    ) && representable(entries.last().1))
}

/// Whether a node can be written from `level` on: the text of every real number in
/// it is a numeral that the standard library reads, and no part of it that goes a
/// level deeper stands at the deepest level that the encoder counts.
pub open spec fn node_fits(n: NodeModel, level: int) -> bool
    decreases n,
{
    match n {
        NodeModel::Real(text) => is_real_numeral(text),
        NodeModel::Text(_) => level < i32::MAX,
        NodeModel::Array(items) => all_fit(items, level),
        NodeModel::Hash(entries) => entries_fit(entries, level),
        _ => true,
    }
}

/// Whether the elements of a sequence at `level` can be written.
pub open spec fn all_fit(items: Seq<NodeModel>, level: int) -> bool
    decreases items,
{
    items.len() == 0 || (all_fit(items.drop_last(), level) && level < i32::MAX && node_fits(
        items.last(),
        level + 1,
    ))
}

/// Whether the entries of a mapping at `level` can be written.
pub open spec fn entries_fit(entries: Seq<(NodeModel, NodeModel)>, level: int) -> bool
    decreases entries,
{
    entries.len() == 0 || (entries_fit(entries.drop_last(), level) && node_fits(
        entries.last().0,
        level,
    ) && level < i32::MAX && node_fits(entries.last().1, level + 1))
}

/// The text form of a node at `level`. A real number is its text as it stands,
/// which must already be the form in which the number is printed.
pub open spec fn node_text(n: NodeModel, level: int) -> Seq<char>
    decreases n,
{
    match n {
        NodeModel::Real(text) => text,
        NodeModel::Integer(v) => decimal_text(v as int),
        NodeModel::Text(text) => str_text(text, level),
        NodeModel::Boolean(v) => bool_text(v),
        NodeModel::Array(items) => if items.len() == 0 {
            seq!['[', ']']
        } else {
            items_text(items, level)
        },
        NodeModel::Hash(entries) => pairs_text(entries, level),
        NodeModel::Null => null_text(),
        NodeModel::Alias(_) => Seq::empty(),
        NodeModel::BadValue => Seq::empty(),
    }
}

/// The elements of a sequence at `level`: each behind a dash on a line of its own,
/// a level deeper, and closed by a new line at `level`.
pub open spec fn items_text(items: Seq<NodeModel>, level: int) -> Seq<char>
    decreases items,
{
    if items.len() == 0 {
        Seq::empty()
    } else {
        items_text(items.drop_last(), level) + element_head(level) + node_text(
            items.last(),
            level + 1,
        ) + entry_tail(level)
    }
}

/// The entries of a mapping at `level`: the key, a colon, the value on a line of its
/// own, a level deeper, and a new line at `level`.
pub open spec fn pairs_text(entries: Seq<(NodeModel, NodeModel)>, level: int) -> Seq<char>
    decreases entries,
{
    if entries.len() == 0 {
        Seq::empty()
    } else {
        pairs_text(entries.drop_last(), level) + node_text(entries.last().0, level) + key_tail(
            level,
        ) + node_text(entries.last().1, level + 1) + entry_tail(level)
    }
}

/// What holds of all of some nodes holds of each, and of those before any place.
pub proof fn lemma_items_each(items: Seq<NodeModel>, level: int, k: int)
    requires
        0 <= k < items.len(),
    ensures
        all_representable(items) ==> representable(items[k]) && all_representable(items.take(k)),
        all_fit(items, level) ==> level < i32::MAX && node_fits(items[k], level + 1) && all_fit(
            items.take(k),
            level,
        ),
    decreases items.len(),
{
    if k < items.len() - 1 {
        lemma_items_each(items.drop_last(), level, k);
        assert(items.drop_last().take(k) =~= items.take(k));
    } else {
        assert(items.drop_last() =~= items.take(k));
    }
}

/// What holds of all of some entries holds of each, and of those before any place.
pub proof fn lemma_entries_each(entries: Seq<(NodeModel, NodeModel)>, level: int, k: int)
    requires
        0 <= k < entries.len(),
    ensures
        entries_representable(entries) ==> representable(entries[k].0) && representable(
            entries[k].1,
        ) && entries_representable(entries.take(k)),
        entries_fit(entries, level) ==> level < i32::MAX && node_fits(entries[k].0, level)
            && node_fits(entries[k].1, level + 1) && entries_fit(entries.take(k), level),
    decreases entries.len(),
{
    if k < entries.len() - 1 {
        lemma_entries_each(entries.drop_last(), level, k);
        assert(entries.drop_last().take(k) =~= entries.take(k));
    } else {
        assert(entries.drop_last() =~= entries.take(k));
    }
}

/// A node that stands where a typed value is expected.
#[derive(Debug, PartialEq, Eq, Hash)]
pub struct YamlNodeWrapper(Node);

impl View for YamlNodeWrapper {
    type V = NodeModel;

    closed spec fn view(&self) -> NodeModel {
        self.0@
    }
}

/// The error for a node that holds an alias or a bad value.
pub fn not_representable() -> (e: Errors)
    ensures
        e is UnsupportedSerializationError,
{
    Errors::UnsupportedSerializationError("The node has no text form".to_owned())
}

/// The error for a real number whose text is no numeral.
pub fn no_real_number() -> (e: Errors)
    ensures
        e matches Errors::UnsupportedSerializationError(message) && message@
            == "Can not parse real number"@,
{
    Errors::UnsupportedSerializationError("Can not parse real number".to_owned())
}

/// The error for a value that is nested deeper than the encoder counts.
pub fn too_deep() -> (e: Errors)
    ensures
        e is UnsupportedSerializationError,
{
    Errors::UnsupportedSerializationError("The value is nested too deep".to_owned())
}

/// Writes the text form of a node. A real number whose text is no numeral is an
/// error. One whose text is a numeral is written with that text as it stands. The
/// form in which the number itself would be printed is floating point and is not
/// made here: the text must already be that form where it is to be written.
pub fn write_node(node: &Node, ser: &mut YamlSerializer) -> (r: Result<(), Errors>)
    requires
        representable(node@),
        old(ser).level() >= 0,
    ensures
        r is Ok <==> node_fits(node@, old(ser).level()),
        r is Ok ==> final(ser).text() == old(ser).text() + node_text(node@, old(ser).level())
            && final(ser).level() == old(ser).level(),
        r matches Err(e) ==> e is UnsupportedSerializationError,
        node@ matches NodeModel::Real(text) && !is_real_numeral(text) ==> (r matches Err(
            Errors::UnsupportedSerializationError(message),
        ) && message@ == "Can not parse real number"@),
    decreases node,
{
    let ghost level = ser.level();
    let ghost start = ser.text();
    match node {
        Node::Real(text) => {
            if !real_numeral(text.as_str()) {
                return Err(no_real_number());
            }
            ser.serialize_real(text.as_str())
        },
        Node::Integer(v) => ser.serialize_i64(*v),
        Node::Text(text) => {
            if !ser.can_nest() {
                return Err(too_deep());
            }
            ser.serialize_str(text.as_str())
        },
        Node::Boolean(v) => ser.serialize_bool(*v),
        Node::Null => ser.serialize_unit(),
        Node::Alias(_) => Err(not_representable()),
        Node::BadValue => Err(not_representable()),
        Node::Array(items) => {
            let ghost models = node_models(items@);
            let n = items.len();
            proof {
                lemma_node_models(items@);
            }
            let mut seq = match ser.serialize_seq(Some(n)) {
                Ok(seq) => seq,
                Err(e) => {
                    return Err(e);
                },
            };
            let mut i: usize = 0;
            assert(models.take(0) =~= Seq::<NodeModel>::empty());
            while i < n
                invariant
                    i <= n,
                    n == items.len(),
                    *node == Node::Array(*items),
                    node@ == NodeModel::Array(models),
                    models == node_models(items@),
                    models.len() == n,
                    forall|j: int| 0 <= j < n ==> models[j] == node_model(#[trigger] items@[j]),
                    all_representable(models),
                    all_fit(models.take(i as int), level),
                    seq.len() == Some(n),
                    level >= 0,
                    level == old(ser).level(),
                    ser.level() == level,
                    ser.text() == start + seq_open(Some(n)) + items_text(
                        models.take(i as int),
                        level,
                    ),
                decreases n - i,
            {
                proof {
                    lemma_items_each(models, level, i as int);
                    assert(models.take(i + 1).drop_last() =~= models.take(i as int));
                    assert(models.take(i + 1).last() == models[i as int]);
                    if all_fit(models, level) && i + 1 < n {
                        lemma_items_each(models, level, i + 1);
                    }
                    if i + 1 == n {
                        assert(models.take(i + 1) =~= models);
                    }
                }
                if !ser.can_nest() {
                    return Err(too_deep());
                }
                seq.begin_element(ser);
                proof {
                    assert(decreases_to!(*node => node->Array_0));
                    assert(decreases_to!(node->Array_0 => node->Array_0@));
                    assert(decreases_to!(node->Array_0@ => node->Array_0@[i as int]));
                }
                match write_node(&items[i], ser) {
                    Ok(()) => {},
                    Err(e) => {
                        return Err(e);
                    },
                }
                let _ = seq.finish_element(ser);
                i += 1;
            }
            let r = seq.end(ser);
            proof {
                assert(models.take(n as int) =~= models);
                assert(ser.text() =~= start + node_text(node@, level));
            }
            r
        },
        Node::Hash(entries) => {
            let ghost models = entry_models(entries@);
            let n = entries.len();
            proof {
                lemma_entry_models(entries@);
            }
            let mut map = match ser.serialize_map(Some(n)) {
                Ok(map) => map,
                Err(e) => {
                    return Err(e);
                },
            };
            let mut i: usize = 0;
            assert(models.take(0) =~= Seq::<(NodeModel, NodeModel)>::empty());
            while i < n
                invariant
                    i <= n,
                    n == entries.len(),
                    *node == Node::Hash(*entries),
                    node@ == NodeModel::Hash(models),
                    models == entry_models(entries@),
                    models.len() == n,
                    forall|j: int|
                        0 <= j < n ==> models[j] == (
                            node_model((#[trigger] entries@[j]).0),
                            node_model(entries@[j].1),
                        ),
                    entries_representable(models),
                    entries_fit(models.take(i as int), level),
                    level >= 0,
                    level == old(ser).level(),
                    ser.level() == level,
                    ser.text() == start + pairs_text(models.take(i as int), level),
                decreases n - i,
            {
                proof {
                    lemma_entries_each(models, level, i as int);
                    assert(models.take(i + 1).drop_last() =~= models.take(i as int));
                    assert(models.take(i + 1).last() == models[i as int]);
                    if entries_fit(models, level) && i + 1 < n {
                        lemma_entries_each(models, level, i + 1);
                    }
                    if i + 1 == n {
                        assert(models.take(i + 1) =~= models);
                    }
                }
                proof {
                    assert(decreases_to!(*node => node->Hash_0));
                    assert(decreases_to!(node->Hash_0 => node->Hash_0@));
                    assert(decreases_to!(node->Hash_0@ => node->Hash_0@[i as int]));
                    assert(decreases_to!(node->Hash_0@[i as int] => node->Hash_0@[i as int].0));
                    assert(decreases_to!(node->Hash_0@[i as int] => node->Hash_0@[i as int].1));
                }
                match write_node(&entries[i].0, ser) {
                    Ok(()) => {},
                    Err(e) => {
                        return Err(e);
                    },
                }
                if !ser.can_nest() {
                    return Err(too_deep());
                }
                let _ = map.finish_key(ser);
                match write_node(&entries[i].1, ser) {
                    Ok(()) => {},
                    Err(e) => {
                        return Err(e);
                    },
                }
                let _ = map.finish_value(ser);
                i += 1;
            }
            let r = map.end(ser);
            proof {
                assert(models.take(n as int) =~= models);
            }
            r
        },
    }
}

impl YamlNodeWrapper {
    /// Wraps a node.
    pub fn new(value: Node) -> (w: Self)
        ensures
            w@ == value@,
    {
        Self(value)
    }

    /// Gives the node back.
    pub fn get(self) -> (value: Node)
        ensures
            value@ == self@,
    {
        self.0
    }

    /// Writes the text form of the node through the encoder. A node that holds an
    /// alias or a bad value has none. A real number is written with its text as it
    /// stands, which must already be the form in which the number is printed; a text
    /// that is no numeral is an error.
    pub fn serialize(&self, ser: &mut YamlSerializer) -> (r: Result<(), Errors>)
        requires
            representable(self@),
            old(ser).level() >= 0,
        ensures
            r is Ok <==> node_fits(self@, old(ser).level()),
            r is Ok ==> final(ser).text() == old(ser).text() + node_text(
                self@,
                old(ser).level(),
            ) && final(ser).level() == old(ser).level(),
            r matches Err(e) ==> e is UnsupportedSerializationError,
    {
        write_node(&self.0, ser)
    }
}

/// The node that a stream of tokens starts with, and the stream behind it. A scalar
/// is a node by its text; a sequence holds the nodes up to its end, a mapping the
/// pairs of nodes up to its end. The first error ends the reading. Where a stream
/// does not go on behind the start of a container, which a well-formed stream
/// always does, the result is an error.
pub open spec fn node_at(s: Seq<Token>) -> (Result<NodeModel, DecodeErrors>, Seq<Token>)
    decreases s.len(), 0int,
{
    match any_of(s[0]) {
        Err(e) => (Err(e), advance(s)),
        Ok(Found::Scalar(n)) => (Ok(n@), advance(s)),
        Ok(Found::Sequence) => if s.len() > 1 {
            match nodes_at(s.drop_first()) {
                (Ok(items), rest) => (Ok(NodeModel::Array(items)), advance(rest)),
                (Err(e), rest) => (Err(e), rest),
            }
        } else {
            (Err(stalled()), s)
        },
        Ok(Found::Mapping) => if s.len() > 1 {
            match entries_at(s.drop_first(), Seq::empty()) {
                (Ok(entries), rest) => (Ok(NodeModel::Hash(entries)), advance(rest)),
                (Err(e), rest) => (Err(e), rest),
            }
        } else {
            (Err(stalled()), s)
        },
    }
}

/// The nodes that a stream of tokens holds before the end of a sequence, and the
/// stream from that end on.
pub open spec fn nodes_at(s: Seq<Token>) -> (Result<Seq<NodeModel>, DecodeErrors>, Seq<Token>)
    decreases s.len(), 1int,
{
    if s.len() == 0 || s[0] matches Ok((Event::SequenceEnd, _)) {
        (Ok(Seq::empty()), s)
    } else {
        match node_at(s) {
            (Err(e), rest) => (Err(e), rest),
            (Ok(first), rest) => if rest.len() < s.len() {
                match nodes_at(rest) {
                    (Ok(others), after) => (Ok(seq![first] + others), after),
                    (Err(e), after) => (Err(e), after),
                }
            } else {
                (Err(stalled()), s)
            },
        }
    }
}

/// The place of the first entry with the given key.
pub open spec fn key_index(entries: Seq<(NodeModel, NodeModel)>, key: NodeModel) -> Option<int>
    decreases entries.len(),
{
    if entries.len() == 0 {
        None
    } else if entries[0].0 == key {
        Some(0)
    } else {
        match key_index(entries.drop_first(), key) {
            Some(i) => Some(i + 1),
            None => None,
        }
    }
}

/// Whether no two entries have the same key.
pub open spec fn distinct_keys(entries: Seq<(NodeModel, NodeModel)>) -> bool {
    forall|i: int, j: int|
        0 <= i < j < entries.len() ==> (#[trigger] entries[i]).0 != (#[trigger] entries[j]).0
}

/// The entries of a mapping after a key is put in with a value: the entry stands
/// last, and an earlier entry with the same key is taken away.
pub open spec fn inserted(
    entries: Seq<(NodeModel, NodeModel)>,
    key: NodeModel,
    value: NodeModel,
) -> Seq<(NodeModel, NodeModel)> {
    match key_index(entries, key) {
        Some(k) => if 0 <= k < entries.len() {
            entries.remove(k).push((key, value))
        } else {
            entries.push((key, value))
        },
        None => entries.push((key, value)),
    }
}

/// The first entry with a key is found where no entry before it has the key.
pub proof fn lemma_key_index(entries: Seq<(NodeModel, NodeModel)>, key: NodeModel, k: int)
    requires
        0 <= k <= entries.len(),
        forall|j: int| 0 <= j < k ==> (#[trigger] entries[j]).0 != key,
        k < entries.len() ==> entries[k].0 == key,
    ensures
        key_index(entries, key) == if k < entries.len() {
            Some(k)
        } else {
            None::<int>
        },
    decreases k,
{
    if k > 0 {
        let rest = entries.drop_first();
        assert forall|j: int| 0 <= j < k - 1 implies (#[trigger] rest[j]).0 != key by {
            assert(rest[j] == entries[j + 1]);
        }
        assert(entries[0].0 != key);
        lemma_key_index(rest, key, k - 1);
    }
}

/// The entry that is found has the key, and where none is found no entry has it.
pub proof fn lemma_key_index_found(entries: Seq<(NodeModel, NodeModel)>, key: NodeModel)
    ensures
        match key_index(entries, key) {
            Some(k) => 0 <= k < entries.len() && entries[k].0 == key,
            None => forall|j: int| 0 <= j < entries.len() ==> (#[trigger] entries[j]).0 != key,
        },
    decreases entries.len(),
{
    if entries.len() > 0 && entries[0].0 != key {
        let rest = entries.drop_first();
        lemma_key_index_found(rest, key);
        if key_index(rest, key) is None {
            assert forall|j: int| 0 <= j < entries.len() implies (#[trigger] entries[j]).0
                != key by {
                if j > 0 {
                    assert(entries[j] == rest[j - 1]);
                }
            }
        }
    }
}

/// Putting a key in keeps the keys of a mapping distinct.
pub proof fn lemma_inserted_distinct(
    entries: Seq<(NodeModel, NodeModel)>,
    key: NodeModel,
    value: NodeModel,
)
    requires
        distinct_keys(entries),
    ensures
        distinct_keys(inserted(entries, key, value)),
{
    lemma_key_index_found(entries, key);
    let after = inserted(entries, key, value);
    match key_index(entries, key) {
        Some(k) => {
            let kept = entries.remove(k);
            assert forall|i: int, j: int| 0 <= i < j < after.len() implies (#[trigger] after[i]).0
                != (#[trigger] after[j]).0 by {
                let from = if i < k {
                    i
                } else {
                    i + 1
                };
                assert(after[i] == entries[from]);
                if j < kept.len() {
                    let other = if j < k {
                        j
                    } else {
                        j + 1
                    };
                    assert(after[j] == entries[other]);
                } else {
                    assert(after[j].0 == entries[k].0);
                }
            }
        },
        None => {
            assert forall|i: int, j: int| 0 <= i < j < after.len() implies (#[trigger] after[i]).0
                != (#[trigger] after[j]).0 by {
                assert(after[i] == entries[i]);
                if j < entries.len() {
                    assert(after[j] == entries[j]);
                }
            }
        },
    }
}

/// The entries of the mapping that a stream of tokens holds up to the end of a
/// mapping, and the stream from that end on. Each pair of a key and a value is put
/// in behind those that were read before, `read`: where a key stands more than once,
/// the last value is kept, at the place of the last entry.
pub open spec fn entries_at(s: Seq<Token>, read: Seq<(NodeModel, NodeModel)>) -> (
    Result<Seq<(NodeModel, NodeModel)>, DecodeErrors>,
    Seq<Token>,
)
    decreases s.len(), 1int,
{
    if s.len() == 0 || s[0] matches Ok((Event::MappingEnd, _)) {
        (Ok(read), s)
    } else {
        match node_at(s) {
            (Err(e), rest) => (Err(e), rest),
            (Ok(key), rest) => if rest.len() < s.len() {
                match node_at(rest) {
                    (Err(e), after) => (Err(e), after),
                    (Ok(value), after) => if after.len() < rest.len() {
                        entries_at(after, inserted(read, key, value))
                    } else {
                        (Err(stalled()), s)
                    },
                }
            } else {
                (Err(stalled()), s)
            },
        }
    }
}

/// The entries of a mapping that is read from a stream have distinct keys.
pub proof fn lemma_entries_at_distinct(s: Seq<Token>, read: Seq<(NodeModel, NodeModel)>)
    requires
        distinct_keys(read),
    ensures
        entries_at(s, read).0 matches Ok(entries) ==> distinct_keys(entries),
    decreases s.len(),
{
    if s.len() == 0 || s[0] matches Ok((Event::MappingEnd, _)) {
    } else {
        match node_at(s) {
            (Err(e), rest) => {},
            (Ok(key), rest) => {
                if rest.len() < s.len() {
                    match node_at(rest) {
                        (Err(e), after) => {},
                        (Ok(value), after) => {
                            if after.len() < rest.len() {
                                lemma_inserted_distinct(read, key, value);
                                lemma_entries_at_distinct(after, inserted(read, key, value));
                            }
                        },
                    }
                }
            },
        }
    }
}

/// Whether two nodes are the same.
pub fn node_eq(a: &Node, b: &Node) -> (r: bool)
    ensures
        r == (a@ == b@),
    decreases a,
{
    match a {
        Node::Real(x) => match b {
            Node::Real(y) => same_text(x.as_str(), y.as_str()),
            _ => false,
        },
        Node::Integer(x) => match b {
            Node::Integer(y) => *x == *y,
            _ => false,
        },
        Node::Text(x) => match b {
            Node::Text(y) => same_text(x.as_str(), y.as_str()),
            _ => false,
        },
        Node::Boolean(x) => match b {
            Node::Boolean(y) => *x == *y,
            _ => false,
        },
        Node::Alias(x) => match b {
            Node::Alias(y) => *x == *y,
            _ => false,
        },
        Node::Null => match b {
            Node::Null => true,
            _ => false,
        },
        Node::BadValue => match b {
            Node::BadValue => true,
            _ => false,
        },
        Node::Array(x) => match b {
            Node::Array(y) => {
                proof {
                    lemma_node_models(x@);
                    lemma_node_models(y@);
                }
                if x.len() != y.len() {
                    return false;
                }
                let mut i: usize = 0;
                while i < x.len()
                    invariant
                        i <= x.len(),
                        x.len() == y.len(),
                        *a == Node::Array(*x),
                        *b == Node::Array(*y),
                        node_models(x@).len() == x.len(),
                        node_models(y@).len() == y.len(),
                        forall|j: int|
                            0 <= j < x.len() ==> node_models(x@)[j] == (#[trigger] x@[j])@,
                        forall|j: int|
                            0 <= j < y.len() ==> node_models(y@)[j] == (#[trigger] y@[j])@,
                        forall|j: int| 0 <= j < i ==> (#[trigger] x@[j])@ == y@[j]@,
                    decreases x.len() - i,
                {
                    proof {
                        assert(decreases_to!(*a => a->Array_0));
                        assert(decreases_to!(a->Array_0 => a->Array_0@));
                        assert(decreases_to!(a->Array_0@ => a->Array_0@[i as int]));
                    }
                    if !node_eq(&x[i], &y[i]) {
                        assert(node_models(x@)[i as int] != node_models(y@)[i as int]);
                        return false;
                    }
                    i += 1;
                }
                assert forall|k: int| 0 <= k < x.len() implies node_models(x@)[k] == node_models(
                    y@,
                )[k] by {
                    assert(node_models(x@)[k] == x@[k]@);
                    assert(node_models(y@)[k] == y@[k]@);
                }
                assert(node_models(x@) =~= node_models(y@));
                true
            },
            _ => false,
        },
        Node::Hash(x) => match b {
            Node::Hash(y) => {
                proof {
                    lemma_entry_models(x@);
                    lemma_entry_models(y@);
                }
                if x.len() != y.len() {
                    return false;
                }
                let mut i: usize = 0;
                while i < x.len()
                    invariant
                        i <= x.len(),
                        x.len() == y.len(),
                        *a == Node::Hash(*x),
                        *b == Node::Hash(*y),
                        entry_models(x@).len() == x.len(),
                        entry_models(y@).len() == y.len(),
                        forall|j: int|
                            0 <= j < x.len() ==> entry_models(x@)[j] == (
                                (#[trigger] x@[j]).0@,
                                x@[j].1@,
                            ),
                        forall|j: int|
                            0 <= j < y.len() ==> entry_models(y@)[j] == (
                                (#[trigger] y@[j]).0@,
                                y@[j].1@,
                            ),
                        forall|j: int|
                            0 <= j < i ==> (#[trigger] x@[j]).0@ == y@[j].0@ && x@[j].1@
                                == y@[j].1@,
                    decreases x.len() - i,
                {
                    proof {
                        assert(decreases_to!(*a => a->Hash_0));
                        assert(decreases_to!(a->Hash_0 => a->Hash_0@));
                        assert(decreases_to!(a->Hash_0@ => a->Hash_0@[i as int]));
                        assert(decreases_to!(a->Hash_0@[i as int] => a->Hash_0@[i as int].0));
                        assert(decreases_to!(a->Hash_0@[i as int] => a->Hash_0@[i as int].1));
                    }
                    if !node_eq(&x[i].0, &y[i].0) || !node_eq(&x[i].1, &y[i].1) {
                        assert(entry_models(x@)[i as int] != entry_models(y@)[i as int]);
                        return false;
                    }
                    i += 1;
                }
                assert forall|k: int| 0 <= k < x.len() implies entry_models(x@)[k]
                    == entry_models(y@)[k] by {
                    assert(entry_models(x@)[k] == (x@[k].0@, x@[k].1@));
                    assert(entry_models(y@)[k] == (y@[k].0@, y@[k].1@));
                }
                assert(entry_models(x@) =~= entry_models(y@));
                true
            },
            _ => false,
        },
    }
}

/// Puts a key with a value into the entries of a mapping: the entry stands last, and
/// an earlier entry with the same key is taken away.
pub fn insert_entry(entries: &mut Vec<(Node, Node)>, key: Node, value: Node)
    ensures
        entry_models(final(entries)@) == inserted(entry_models(old(entries)@), key@, value@),
{
    let ghost models = entry_models(entries@);
    let ghost pair = (key@, value@);
    proof {
        lemma_entry_models(entries@);
    }
    let mut i: usize = 0;
    while i < entries.len()
        invariant
            i <= entries.len(),
            entries@ == old(entries)@,
            pair == (key@, value@),
            models == entry_models(entries@),
            models.len() == entries.len(),
            forall|j: int|
                0 <= j < entries.len() ==> models[j] == ((#[trigger] entries@[j]).0@, entries@[j].1@),
            forall|j: int| 0 <= j < i ==> (#[trigger] models[j]).0 != key@,
        decreases entries.len() - i,
    {
        if node_eq(&entries[i].0, &key) {
            proof {
                lemma_key_index(models, key@, i as int);
            }
            let before = entries.remove(i);
            let ghost kept = entries@;
            entries.push((before.0, value));
            proof {
                lemma_entry_models(kept);
                lemma_entry_models(entries@);
                assert(entries@.drop_last() =~= kept);
                let removed = models.remove(i as int);
                assert forall|k: int| 0 <= k < kept.len() implies entry_models(kept)[k]
                    == removed[k] by {
                    assert(entry_models(kept)[k] == (kept[k].0@, kept[k].1@));
                    if k < i {
                        assert(kept[k] == old(entries)@[k]);
                        assert(models[k] == (old(entries)@[k].0@, old(entries)@[k].1@));
                    } else {
                        assert(kept[k] == old(entries)@[k + 1]);
                        assert(models[k + 1] == (old(entries)@[k + 1].0@, old(entries)@[k + 1].1@));
                    }
                }
                assert(entry_models(kept) =~= removed);
                assert(entry_models(entries@).drop_last() =~= entry_models(kept)) by {
                    assert(entries@.drop_last() =~= kept);
                }
                assert(models[i as int] == (old(entries)@[i as int].0@, old(entries)@[i as int].1@));
                assert(entries@.last().0@ == key@ && entries@.last().1@ == value@);
                assert(entry_models(entries@) == entry_models(entries@.drop_last()).push(
                    (entries@.last().0@, entries@.last().1@),
                ));
                assert(entries@.drop_last() == kept);
                assert(entry_models(entries@.drop_last()) == removed);
                assert((entries@.last().0@, entries@.last().1@) == pair);
                assert(entry_models(entries@) == removed.push(pair));
            }
            return;
        }
        i += 1;
    }
    proof {
        lemma_key_index(models, key@, entries.len() as int);
    }
    let ghost kept = entries@;
    entries.push((key, value));
    proof {
        assert(entries@.drop_last() =~= kept);
    }
}

/// Reads a node from the decoder. Of the entries of a mapping with the same key the
/// last is kept. A real number is kept with its text as it stands,
/// which is a numeral that the standard library reads; the form in which the
/// number itself would be printed is floating point and is not made here.
pub fn read_node(de: &mut YamlDeserializer) -> (r: Result<Node, DecodeErrors>)
    requires
        old(de).wf(),
    ensures
        final(de).wf(),
        node_at(old(de)@).0 == match r {
            Ok(n) => Ok::<NodeModel, DecodeErrors>(n@),
            Err(e) => Err(e),
        },
        final(de)@ == node_at(old(de)@).1,
        r is Ok ==> final(de)@.len() < old(de)@.len(),
        final(de)@.len() <= old(de)@.len(),
    decreases old(de)@.len(),
{
    let ghost s = de@;
    proof {
        de.lemma_wf();
        lemma_advance_well_formed(s);
    }
    match de.deserialize_any() {
        Err(e) => Err(e),
        Ok(Found::Scalar(n)) => Ok(n),
        Ok(Found::Sequence) => {
            let ghost inner = de@;
            let mut items: Vec<Node> = Vec::new();
            loop
                invariant
                    de.wf(),
                    s == old(de)@,
                    any_of(s[0]) == Ok::<Found, DecodeErrors>(Found::Sequence),
                    inner == s.drop_first(),
                    s.len() > 1,
                    de@.len() <= inner.len(),
                    nodes_at(inner) == match nodes_at(de@) {
                        (Ok(others), after) => (
                            Ok::<Seq<NodeModel>, DecodeErrors>(node_models(items@) + others),
                            after,
                        ),
                        (Err(e), after) => (Err(e), after),
                    },
                decreases de@.len(),
            {
                let ghost here = de@;
                let ghost before = items@;
                proof {
                    de.lemma_wf();
                    lemma_advance_well_formed(here);
                }
                if !de.next_element() {
                    let r = de.end_seq("Expected SequenceEnd event");
                    proof {
                        assert(node_models(items@) + Seq::<NodeModel>::empty() =~= node_models(
                            items@,
                        ));
                    }
                    return match r {
                        Ok(()) => Ok(Node::Array(items)),
                        Err(e) => Err(e),
                    };
                }
                match read_node(de) {
                    Err(e) => {
                        return Err(e);
                    },
                    Ok(n) => {
                        items.push(n);
                        proof {
                            assert(items@.drop_last() =~= before);
                            match nodes_at(de@) {
                                (Ok(others), after) => {
                                    assert(node_models(items@) + others =~= node_models(before) + (
                                    seq![n@] + others));
                                },
                                (Err(e), after) => {},
                            }
                        }
                    },
                }
            }
        },
        Ok(Found::Mapping) => {
            let ghost inner = de@;
            let mut entries: Vec<(Node, Node)> = Vec::new();
            loop
                invariant
                    de.wf(),
                    s == old(de)@,
                    any_of(s[0]) == Ok::<Found, DecodeErrors>(Found::Mapping),
                    inner == s.drop_first(),
                    s.len() > 1,
                    de@.len() <= inner.len(),
                    entries_at(inner, Seq::empty()) == entries_at(de@, entry_models(entries@)),
                decreases de@.len(),
            {
                let ghost here = de@;
                let ghost before = entries@;
                proof {
                    de.lemma_wf();
                    lemma_advance_well_formed(here);
                }
                if !de.next_key() {
                    let r = de.end_map();
                    return match r {
                        Ok(()) => Ok(Node::Hash(entries)),
                        Err(e) => Err(e),
                    };
                }
                let key = match read_node(de) {
                    Err(e) => {
                        return Err(e);
                    },
                    Ok(n) => n,
                };
                let value = match read_node(de) {
                    Err(e) => {
                        return Err(e);
                    },
                    Ok(n) => n,
                };
                insert_entry(&mut entries, key, value);
            }
        },
    }
}

impl YamlNodeWrapper {
    /// Reads a node of any shape from the decoder.
    pub fn deserialize(de: &mut YamlDeserializer) -> (r: Result<Self, DecodeErrors>)
        requires
            old(de).wf(),
        ensures
            final(de).wf(),
            node_at(old(de)@).0 == match r {
                Ok(w) => Ok::<NodeModel, DecodeErrors>(w@),
                Err(e) => Err(e),
            },
            final(de)@ == node_at(old(de)@).1,
            r is Ok ==> final(de)@.len() < old(de)@.len(),
            final(de)@.len() <= old(de)@.len(),
    {
        match read_node(de) {
            Ok(n) => Ok(YamlNodeWrapper(n)),
            Err(e) => Err(e),
        }
    }
}

/// Whether a node has a text form: it holds neither an alias nor a bad value.
pub fn is_representable(node: &Node) -> (r: bool)
    ensures
        r == representable(node@),
    decreases node,
{
    match node {
        Node::Alias(_) => false,
        Node::BadValue => false,
        Node::Array(items) => {
            let ghost models = node@->Array_0;
            proof {
                lemma_node_models(items@);
            }
            let mut i: usize = 0;
            assert(models.take(0) =~= Seq::<NodeModel>::empty());
            while i < items.len()
                invariant
                    i <= items.len(),
                    *node == Node::Array(*items),
                    node@ == NodeModel::Array(models),
                    models.len() == items.len(),
                    forall|j: int|
                        0 <= j < items.len() ==> models[j] == (#[trigger] items@[j])@,
                    all_representable(models.take(i as int)),
                decreases items.len() - i,
            {
                proof {
                    lemma_items_each(models, 0, i as int);
                    assert(models.take(i + 1).drop_last() =~= models.take(i as int));
                    assert(models.take(i + 1).last() == models[i as int]);
                    assert(decreases_to!(*node => node->Array_0));
                    assert(decreases_to!(node->Array_0 => node->Array_0@));
                    assert(decreases_to!(node->Array_0@ => node->Array_0@[i as int]));
                }
                if !is_representable(&items[i]) {
                    return false;
                }
                i += 1;
            }
            assert(models.take(items.len() as int) =~= models);
            true
        },
        Node::Hash(entries) => {
            let ghost models = node@->Hash_0;
            proof {
                lemma_entry_models(entries@);
            }
            let mut i: usize = 0;
            assert(models.take(0) =~= Seq::<(NodeModel, NodeModel)>::empty());
            while i < entries.len()
                invariant
                    i <= entries.len(),
                    *node == Node::Hash(*entries),
                    node@ == NodeModel::Hash(models),
                    models.len() == entries.len(),
                    forall|j: int|
                        0 <= j < entries.len() ==> models[j] == (
                            (#[trigger] entries@[j]).0@,
                            entries@[j].1@,
                        ),
                    entries_representable(models.take(i as int)),
                decreases entries.len() - i,
            {
                proof {
                    lemma_entries_each(models, 0, i as int);
                    assert(models.take(i + 1).drop_last() =~= models.take(i as int));
                    assert(models.take(i + 1).last() == models[i as int]);
                    assert(decreases_to!(*node => node->Hash_0));
                    assert(decreases_to!(node->Hash_0 => node->Hash_0@));
                    assert(decreases_to!(node->Hash_0@ => node->Hash_0@[i as int]));
                    assert(decreases_to!(node->Hash_0@[i as int] => node->Hash_0@[i as int].0));
                    assert(decreases_to!(node->Hash_0@[i as int] => node->Hash_0@[i as int].1));
                }
                if !is_representable(&entries[i].0) || !is_representable(&entries[i].1) {
                    return false;
                }
                i += 1;
            }
            assert(models.take(entries.len() as int) =~= models);
            true
        },
        _ => true,
    }
}

impl YamlNodeWrapper {
    /// Whether the node has a text form: it holds neither an alias nor a bad value.
    pub fn is_representable(&self) -> (r: bool)
        ensures
            r == representable(self@),
    {
        is_representable(&self.0)
    }
}

} // verus!
