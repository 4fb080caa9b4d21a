//! The YAML values that match files carry in their free-form parameters.
//!
//! A `YamlValue` holds a parsed YAML node as plain data: strings, booleans,
//! the text of a number, sequences, mappings in document order and tagged
//! nodes.  The accessors see through tags, as YAML accessors do.
use vstd::prelude::*;
use crate::text::{chars_eq, chars_of};

verus! {

/// A parsed YAML node.
#[derive(Debug)]
pub enum YamlValue {
    /// `null` or `~`.
    Null,
    /// `true` or `false`.
    Bool(bool),
    /// A number, kept as the text it was written with.
    Number(String),
    /// A string scalar.
    String(String),
    /// A sequence of nodes.
    Sequence(Vec<YamlValue>),
    /// A mapping, its entries in document order.
    Mapping(Vec<(YamlValue, YamlValue)>),
    /// A node with an explicit `!tag`.
    Tagged(String, Box<YamlValue>),
}

/// The node under all of its tags.
pub open spec fn untag(v: YamlValue) -> YamlValue
    decreases v,
{
    match v {
        YamlValue::Tagged(_, inner) => untag(*inner),
        _ => v,
    }
}

/// The node as a string.
pub open spec fn as_str_spec(v: YamlValue) -> Option<Seq<char>> {
    match untag(v) {
        YamlValue::String(s) => Some(s@),
        _ => None,
    }
}

/// The node as a boolean.
pub open spec fn as_bool_spec(v: YamlValue) -> Option<bool> {
    match untag(v) {
        YamlValue::Bool(b) => Some(b),
        _ => None,
    }
}

/// The node as a sequence.
pub open spec fn as_seq_spec(v: YamlValue) -> Option<Seq<YamlValue>> {
    match untag(v) {
        YamlValue::Sequence(items) => Some(items@),
        _ => None,
    }
}

/// The node as a mapping.
pub open spec fn as_map_spec(v: YamlValue) -> Option<Seq<(YamlValue, YamlValue)>> {
    match untag(v) {
        YamlValue::Mapping(entries) => Some(entries@),
        _ => None,
    }
}

/// The mapping entry `i` has the untagged string key `k`.
pub open spec fn has_str_key(entries: Seq<(YamlValue, YamlValue)>, i: int, k: Seq<char>) -> bool {
    0 <= i < entries.len() && (entries[i].0 matches YamlValue::String(s) && s@ == k)
}

/// `i` is the first entry with the string key `k`.
pub open spec fn first_str_key(entries: Seq<(YamlValue, YamlValue)>, i: int, k: Seq<char>) -> bool {
    has_str_key(entries, i, k) && forall|j: int| 0 <= j < i ==> !has_str_key(entries, j, k)
}

/// The value stored under the string key `k` of a mapping node.
pub open spec fn get_spec(v: YamlValue, k: Seq<char>) -> Option<YamlValue> {
    match as_map_spec(v) {
        Some(entries) => if exists|i: int| first_str_key(entries, i, k) {
            Some(entries[choose|i: int| first_str_key(entries, i, k)].1)
        } else {
            None
        },
        None => None,
    }
}

proof fn lemma_first_str_key_unique(entries: Seq<(YamlValue, YamlValue)>, i: int, k: Seq<char>)
    requires
        first_str_key(entries, i, k),
    ensures
        (choose|c: int| first_str_key(entries, c, k)) == i,
{
    let c = choose|c: int| first_str_key(entries, c, k);
    assert(first_str_key(entries, c, k));
    if c < i {
        assert(!has_str_key(entries, c, k));
    } else if i < c {
        assert(!has_str_key(entries, i, k));
    }
}

/// Two nodes hold the same YAML: the same kind, the same scalars, and
/// items, entries and tagged nodes that hold the same YAML in turn.
pub open spec fn same_node(a: YamlValue, b: YamlValue) -> bool
    decreases a,
{
    match a {
        YamlValue::Null => b is Null,
        YamlValue::Bool(x) => b matches YamlValue::Bool(y) && x == y,
        YamlValue::Number(x) => b matches YamlValue::Number(y) && x@ == y@,
        YamlValue::String(x) => b matches YamlValue::String(y) && x@ == y@,
        YamlValue::Sequence(xs) => b matches YamlValue::Sequence(ys) && xs@.len() == ys@.len()
            && forall|i: int| 0 <= i < xs@.len() ==> same_node(#[trigger] xs@[i], ys@[i]),
        YamlValue::Mapping(xs) => b matches YamlValue::Mapping(ys) && xs@.len() == ys@.len()
            && forall|i: int|
            0 <= i < xs@.len() ==> same_node(#[trigger] xs@[i].0, ys@[i].0) && same_node(
                xs@[i].1,
                ys@[i].1,
            ),
        YamlValue::Tagged(t, x) => b matches YamlValue::Tagged(u, y) && t@ == u@ && same_node(*x, *y),
    }
}

/// A deep copy of a node.
pub fn copy_value(v: &YamlValue) -> (r: YamlValue)
    ensures
        same_node(*v, r),
    decreases v,
{
    broadcast use vstd::std_specs::vec::group_vec_axioms;

    match v {
        YamlValue::Null => YamlValue::Null,
        YamlValue::Bool(b) => YamlValue::Bool(*b),
        YamlValue::Number(n) => YamlValue::Number(n.clone()),
        YamlValue::String(s) => YamlValue::String(s.clone()),
        YamlValue::Sequence(items) => {
            proof {
                let ghost x = *v;
                assert(decreases_to!(x => x->Sequence_0));
            }
            let mut out: Vec<YamlValue> = Vec::new();
            let mut i: usize = 0;
            while i < items.len()
                invariant
                    *v == YamlValue::Sequence(*items),
                    decreases_to!(*v => *items),
                    i <= items@.len(),
                    out@.len() == i,
                    forall|j: int| 0 <= j < i ==> same_node(#[trigger] items@[j], out@[j]),
                decreases items@.len() - i,
            {
                proof {
                    assert(decreases_to!(*items => items[i as int]));
                }
                let c = copy_value(&items[i]);
                let ghost before = out@;
                out.push(c);
                assert(out@ =~= before.push(c));
                i = i + 1;
            }
            let r = YamlValue::Sequence(out);
            assert(same_node(*v, r));
            r
        },
        YamlValue::Mapping(entries) => {
            proof {
                let ghost x = *v;
                assert(decreases_to!(x => x->Mapping_0));
            }
            let mut out: Vec<(YamlValue, YamlValue)> = Vec::new();
            let mut i: usize = 0;
            while i < entries.len()
                invariant
                    *v == YamlValue::Mapping(*entries),
                    decreases_to!(*v => *entries),
                    i <= entries@.len(),
                    out@.len() == i,
                    forall|j: int|
                        0 <= j < i ==> same_node(#[trigger] entries@[j].0, out@[j].0) && same_node(
                            entries@[j].1,
                            out@[j].1,
                        ),
                decreases entries@.len() - i,
            {
                proof {
                    assert(decreases_to!(*entries => entries[i as int]));
                    let ghost e = entries[i as int];
                    assert(decreases_to!(e => e.0));
                    assert(decreases_to!(e => e.1));
                }
                let e = &entries[i];
                let k = copy_value(&e.0);
                let val = copy_value(&e.1);
                let ghost before = out@;
                out.push((k, val));
                assert(out@ =~= before.push((k, val)));
                i = i + 1;
            }
            let r = YamlValue::Mapping(out);
            assert(same_node(*v, r));
            r
        },
        YamlValue::Tagged(tag, inner) => {
            let c = copy_value(inner);
            let r = YamlValue::Tagged(tag.clone(), Box::new(c));
            assert(same_node(*v, r));
            r
        },
    }
}

impl Clone for YamlValue {
    fn clone(&self) -> (r: Self)
        ensures
            same_node(*self, r),
    {
        copy_value(self)
    }
}

impl YamlValue {
    /// The node under all of its tags.
    pub fn untag_ref(&self) -> (r: &YamlValue)
        ensures
            *r == untag(*self),
        decreases self,
    {
        match self {
            YamlValue::Tagged(_, inner) => inner.untag_ref(),
            _ => self,
        }
    }

    /// The node as a string.
    pub fn as_str(&self) -> (r: Option<&String>)
        ensures
            match r {
                Some(s) => as_str_spec(*self) == Some(s@),
                None => as_str_spec(*self) is None,
            },
    {
        match self.untag_ref() {
            YamlValue::String(s) => Some(s),
            _ => None,
        }
    }

    /// The node as a boolean.
    pub fn as_bool(&self) -> (r: Option<bool>)
        ensures
            r == as_bool_spec(*self),
    {
        match self.untag_ref() {
            YamlValue::Bool(b) => Some(*b),
            _ => None,
        }
    }

    /// The node as a sequence.
    pub fn as_sequence(&self) -> (r: Option<&Vec<YamlValue>>)
        ensures
            match r {
                Some(items) => as_seq_spec(*self) == Some(items@),
                None => as_seq_spec(*self) is None,
            },
    {
        match self.untag_ref() {
            YamlValue::Sequence(items) => Some(items),
            _ => None,
        }
    }

    /// The node as a mapping.
    pub fn as_mapping(&self) -> (r: Option<&Vec<(YamlValue, YamlValue)>>)
        ensures
            match r {
                Some(entries) => as_map_spec(*self) == Some(entries@),
                None => as_map_spec(*self) is None,
            },
    {
        match self.untag_ref() {
            YamlValue::Mapping(entries) => Some(entries),
            _ => None,
        }
    }

    /// The value under the string key `key`, when the node is a mapping.
    #[verifier::spinoff_prover]
    pub fn get(&self, key: &str) -> (r: Option<&YamlValue>)
        ensures
            match r {
                Some(v) => get_spec(*self, key@) == Some(*v),
                None => get_spec(*self, key@) is None,
            },
    {
        let entries = match self.as_mapping() {
            Some(entries) => entries,
            None => return None,
        };
        let k = chars_of(key);
        let mut i: usize = 0;
        while i < entries.len()
            invariant
                k@ == key@,
                i <= entries@.len(),
                as_map_spec(*self) == Some(entries@),
                forall|j: int| 0 <= j < i ==> !has_str_key(entries@, j, key@),
            decreases entries@.len() - i,
        {
            let entry = &entries[i];
            assert(*entry == entries@[i as int]);
            match &entry.0 {
                YamlValue::String(s) => {
                    let sc = chars_of(s.as_str());
                    if chars_eq(&sc, &k) {
                        proof {
                            assert(entries@[i as int].0 == YamlValue::String(*s));
                            assert(k@ == key@);
                            assert(sc@ == k@);
                            assert(sc@ == key@);
                            assert(has_str_key(entries@, i as int, key@));
                            assert(first_str_key(entries@, i as int, key@));
                            lemma_first_str_key_unique(entries@, i as int, key@);
                            let es = entries@;
                            assert(as_map_spec(*self) == Some(es));
                            assert(exists|c: int| first_str_key(es, c, key@));
                            assert(get_spec(*self, key@) == Some(es[i as int].1));
                        }
                        return Some(&entry.1);
                    }
                },
                _ => {},
            }
            i = i + 1;
        }
        None
    }
}

} // verus!
