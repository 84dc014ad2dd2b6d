//! The generic tree that the parser builds, and its mathematical form.

use vstd::prelude::*;

verus! {

/// The mathematical form of a parsed tree: text scalars, ordered mappings and sequences.
pub enum Tree {
    Scalar(Seq<char>),
    Mapping(Seq<(Seq<char>, Tree)>),
    Sequence(Seq<Tree>),
}

/// A generic tree value: a text scalar, an ordered mapping with unique keys,
/// or an ordered sequence.
#[derive(Debug, PartialEq, Eq)]
pub enum Value {
    Scalar(String),
    Mapping(Vec<(String, Value)>),
    Sequence(Vec<Value>),
}

impl Value {
    pub open spec fn tree(&self) -> Tree
        decreases self,
    {
        match self {
            Value::Scalar(s) => Tree::Scalar(s@),
            Value::Mapping(m) => Tree::Mapping(
                Seq::new(
                    m@.len(),
                    |i: int|
                        if 0 <= i < m@.len() {
                            (m@[i].0@, m@[i].1.tree())
                        } else {
                            (Seq::empty(), Tree::Scalar(Seq::empty()))
                        },
                ),
            ),
            Value::Sequence(v) => Tree::Sequence(
                Seq::new(
                    v@.len(),
                    |i: int| if 0 <= i < v@.len() { v@[i].tree() } else { Tree::Scalar(Seq::empty()) },
                ),
            ),
        }
    }
}

/// The trees of the entries of a mapping, in order.
pub open spec fn entries_tree(m: Seq<(String, Value)>) -> Seq<(Seq<char>, Tree)> {
    Seq::new(m.len(), |i: int| (m[i].0@, m[i].1.tree()))
}

/// The trees of the items of a sequence, in order.
pub open spec fn items_tree(v: Seq<Value>) -> Seq<Tree> {
    Seq::new(v.len(), |i: int| v[i].tree())
}

pub proof fn lemma_mapping_tree(m: Vec<(String, Value)>)
    ensures
        Value::Mapping(m).tree() == Tree::Mapping(entries_tree(m@)),
{
    assert(Value::Mapping(m).tree()->Mapping_0 =~= entries_tree(m@));
}

pub proof fn lemma_sequence_tree(v: Vec<Value>)
    ensures
        Value::Sequence(v).tree() == Tree::Sequence(items_tree(v@)),
{
    assert(Value::Sequence(v).tree()->Sequence_0 =~= items_tree(v@));
}

} // verus!
