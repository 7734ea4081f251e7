//! Documents: trees of nested mappings with string keys, ending in leaves.

use crate::error::SchemaError;
use crate::yaml::{
    clone_value, into_entries, key_text, mapping_value, same_value, text_value, values_equal,
    yaml_depth, yaml_entries, yaml_text,
};
use serde_yaml::Value;
use vstd::prelude::*;

verus! {

/// The mathematical model of a document.
pub ghost enum DocumentView {
    /// A mapping: its entries, each a key's text and the document below it.
    Mapping(Seq<(Seq<char>, DocumentView)>),
    /// A leaf: any value that is no mapping.
    Leaf(Value),
}

impl DocumentView {
    /// Whether this document is what the YAML value `value` holds: a leaf is
    /// the value itself, which is no mapping; a mapping has, entry by entry,
    /// the text of the value's string keys and what the entries' values hold.
    pub open spec fn represents(self, value: Value) -> bool
        decreases self,
    {
        match self {
            DocumentView::Leaf(leaf) => yaml_entries(value).is_none() && leaf == value,
            DocumentView::Mapping(entries) => match yaml_entries(value) {
                Some(pairs) => {
                    &&& pairs.len() == entries.len()
                    &&& forall|i: int|
                        #![trigger pairs[i]]
                        0 <= i < entries.len() ==> yaml_text(pairs[i].0) == Some(entries[i].0)
                            && entries[i].1.represents(pairs[i].1)
                },
                None => false,
            },
        }
    }

    /// The document that holds the leaf `value` below the keys of `path`,
    /// each key in a mapping of its own.
    pub open spec fn at_path(path: Seq<Seq<char>>, value: Value) -> DocumentView
        decreases path.len(),
    {
        if path.len() == 0 {
            DocumentView::Leaf(value)
        } else {
            DocumentView::Mapping(seq![(path[0], DocumentView::at_path(path.drop_first(), value))])
        }
    }

    /// Whether `value` is the value of a leaf of this document.
    pub open spec fn holds_leaf(self, value: Value) -> bool
        decreases self,
    {
        match self {
            DocumentView::Leaf(leaf) => leaf == value,
            DocumentView::Mapping(entries) => exists|i: int|
                0 <= i < entries.len() && (#[trigger] entries[i]).1.holds_leaf(value),
        }
    }

    /// Whether every mapping of this document, at any depth, has an entry.
    pub open spec fn filled(self) -> bool
        decreases self,
    {
        match self {
            DocumentView::Leaf(_) => true,
            DocumentView::Mapping(entries) => {
                &&& entries.len() > 0
                &&& forall|i: int|
                    #![trigger entries[i]]
                    0 <= i < entries.len() ==> entries[i].1.filled()
            },
        }
    }

    /// Whether no mapping of this document, at any depth, has two entries
    /// with the same key.
    pub open spec fn keys_distinct(self) -> bool
        decreases self,
    {
        match self {
            DocumentView::Leaf(_) => true,
            DocumentView::Mapping(entries) => {
                &&& forall|i: int, j: int|
                    #![trigger entries[i], entries[j]]
                    0 <= i < j < entries.len() ==> entries[i].0 != entries[j].0
                &&& forall|i: int|
                    #![trigger entries[i]]
                    0 <= i < entries.len() ==> entries[i].1.keys_distinct()
            },
        }
    }
}

/// A YAML value holds one document at most: two documents that represent the
/// same value are the same document.
pub proof fn lemma_represents_unique(a: DocumentView, b: DocumentView, value: Value)
    requires
        a.represents(value),
        b.represents(value),
    ensures
        a == b,
    decreases a,
{
    match a {
        DocumentView::Leaf(_) => {},
        DocumentView::Mapping(entries) => {
            let pairs = yaml_entries(value).unwrap();
            let others = b->Mapping_0;
            assert forall|i: int| 0 <= i < entries.len() implies entries[i] == others[i] by {
                lemma_represents_unique(entries[i].1, others[i].1, pairs[i].1);
            }
            assert(entries =~= others);
        },
    }
}

/// The value of a leaf: a YAML scalar or sequence, never a mapping.
pub struct LeafValue {
    value: Value,
}

impl LeafValue {
    #[verifier::type_invariant]
    spec fn is_no_mapping(self) -> bool {
        yaml_entries(self.value).is_none()
    }

    /// The YAML value that the leaf holds.
    pub closed spec fn view(&self) -> Value {
        self.value
    }

    /// The leaf value that holds `value`; `None` if `value` is a mapping.
    pub fn new(value: Value) -> (r: Option<LeafValue>)
        ensures
            match r {
                Some(leaf) => leaf@ == value && yaml_entries(value).is_none(),
                None => yaml_entries(value).is_some(),
            },
    {
        match into_entries(value) {
            Ok(_) => None,
            Err(other) => Some(LeafValue { value: other }),
        }
    }

    /// Whether the tree takes this value and `other` for one.
    pub fn equals(&self, other: &LeafValue) -> (r: bool)
        ensures
            r == same_value(self@, other@),
    {
        values_equal(&self.value, &other.value)
    }

    /// A copy of the YAML value that the leaf holds.
    pub fn to_yaml(&self) -> (r: Value)
        ensures
            r == self@,
            yaml_entries(r).is_none(),
    {
        proof {
            use_type_invariant(self);
        }
        clone_value(&self.value)
    }
}

impl Clone for LeafValue {
    fn clone(&self) -> (r: LeafValue)
        ensures
            r@ == self@,
    {
        proof {
            use_type_invariant(self);
        }
        LeafValue { value: clone_value(&self.value) }
    }
}

/// A document: a mapping from string keys to documents, or a leaf.
pub enum Document {
    /// The entries of a mapping, in order.
    Mapping(Vec<(String, Document)>),
    /// A scalar or a sequence.
    Leaf(LeafValue),
}

impl Document {
    /// The model of the document: keys by their text, leaves by their value.
    pub open spec fn view(&self) -> DocumentView
        decreases self,
    {
        match self {
            Document::Mapping(entries) => DocumentView::Mapping(
                Seq::new(
                    entries@.len(),
                    |i: int|
                        if 0 <= i < entries@.len() {
                            (entries@[i].0@, entries@[i].1.view())
                        } else {
                            arbitrary()
                        },
                ),
            ),
            Document::Leaf(leaf) => DocumentView::Leaf(leaf@),
        }
    }

    /// Reads a document from a YAML value.
    ///
    /// Succeeds exactly when every key of every mapping on the way is a
    /// string; the error names `file`.
    pub fn from_yaml(file: &str, value: Value) -> (r: Result<Document, SchemaError>)
        ensures
            match r {
                Ok(document) => document@.represents(value) && document@.keys_distinct(),
                Err(error) => {
                    &&& error matches SchemaError::MalformedKey { file: named }
                    &&& named@ == file@
                    &&& forall|d: DocumentView| !d.represents(value)
                },
            },
        decreases yaml_depth(value),
    {
        match into_entries(value) {
            Err(other) => Ok(Document::Leaf(LeafValue { value: other })),
            Ok(pairs) => {
                let ghost all = pairs@;
                let mut entries: Vec<(String, Document)> = Vec::new();
                for pair in it: pairs
                    invariant
                        it.seq() == all,
                        yaml_entries(value) == Some(all),
                        forall|i: int, j: int|
                            0 <= i < j < all.len() && yaml_text(#[trigger] all[i].0).is_some()
                                ==> yaml_text(all[i].0) != yaml_text(#[trigger] all[j].0),
                        forall|i: int|
                            0 <= i < all.len() ==> yaml_depth(#[trigger] all[i].1) < yaml_depth(
                                value,
                            ),
                        entries@.len() == it.index(),
                        forall|i: int|
                            #![trigger all[i]]
                            0 <= i < it.index() ==> yaml_text(all[i].0) == Some(entries@[i].0@)
                                && entries@[i].1@.represents(all[i].1)
                                && entries@[i].1@.keys_distinct(),
                {
                    let ghost at = it.index() as int;
                    let (key, below) = pair;
                    let text = match key_text(&key) {
                        Some(text) => text,
                        None => {
                            return Err(SchemaError::MalformedKey { file: file.to_owned() });
                        },
                    };
                    let child = match Document::from_yaml(file, below) {
                        Ok(child) => child,
                        Err(error) => {
                            proof {
                                assert forall|d: DocumentView| !d.represents(value) by {
                                    if d.represents(value) {
                                        assert(d->Mapping_0[at].1.represents(all[at].1));
                                    }
                                }
                            }
                            return Err(error);
                        },
                    };
                    entries.push((text, child));
                }
                let document = Document::Mapping(entries);
                proof {
                    let model = document@->Mapping_0;
                    assert forall|i: int, j: int| 0 <= i < j < model.len() implies (
                    #[trigger] model[i]).0 != (#[trigger] model[j]).0 by {
                        assert(yaml_text(all[i].0) != yaml_text(all[j].0));
                    }
                    assert forall|i: int| 0 <= i < model.len() implies (
                    #[trigger] model[i]).1.keys_distinct() by {
                        assert(yaml_text(all[i].0) == Some(entries@[i].0@));
                    }
                }
                Ok(document)
            },
        }
    }

    /// Writes the document as a YAML value.
    pub fn to_yaml(&self) -> (r: Value)
        requires
            self@.keys_distinct(),
        ensures
            self@.represents(r),
        decreases self,
    {
        match self {
            Document::Leaf(leaf) => leaf.to_yaml(),
            Document::Mapping(entries) => {
                let mut pairs: Vec<(Value, Value)> = Vec::new();
                let mut i: usize = 0;
                while i < entries.len()
                    invariant
                        i <= entries.len(),
                        self == Document::Mapping(*entries),
                        self@.keys_distinct(),
                        pairs@.len() == i,
                        forall|j: int|
                            #![trigger pairs@[j]]
                            0 <= j < i ==> yaml_text(pairs@[j].0) == Some(entries@[j].0@)
                                && entries@[j].1@.represents(pairs@[j].1),
                    decreases entries.len() - i,
                {
                    proof {
                        assert(self@->Mapping_0[i as int].1.keys_distinct());
                    }
                    let key = text_value(entries[i].0.clone());
                    let below = entries[i].1.to_yaml();
                    pairs.push((key, below));
                    i += 1;
                }
                proof {
                    assert forall|a: int, b: int| 0 <= a < b < pairs@.len() implies yaml_text(
                        #[trigger] pairs@[a].0,
                    ) != yaml_text(#[trigger] pairs@[b].0) by {
                        let model = self@->Mapping_0;
                        assert(model[a].0 != model[b].0);
                    }
                }
                mapping_value(pairs)
            },
        }
    }
}

} // verus!
