//! The document tree and its mathematical model.
//!
//! A [`Document`] is the value being transformed: a scalar, an ordered
//! sequence of documents, or an ordered mapping of key/value pairs whose keys
//! are themselves documents. Its view is a [`Node`], the same tree over
//! `Seq<char>` and `Seq`, which the contracts of this crate speak of.

use vstd::prelude::*;

verus! {

/// A parsed configuration value: a pure tree, no sharing, no cycles.
///
/// Scalars other than strings carry their value opaquely; the transform only
/// ever reads string scalars.
#[derive(Debug, PartialEq, Eq)]
pub enum Document {
    /// A string scalar.
    Str(String),
    /// An integer scalar.
    Int(i64),
    /// A floating-point scalar, kept as its source text.
    Real(String),
    /// A boolean scalar.
    Bool(bool),
    /// The null scalar.
    Null,
    /// An ordered list of documents.
    Sequence(Vec<Document>),
    /// An ordered list of key/value pairs.
    Mapping(Vec<(Document, Document)>),
}

/// The mathematical shape of a [`Document`]: the same tree, with strings as
/// `Seq<char>` and lists as `Seq`.
pub enum Node {
    Str(Seq<char>),
    Int(i64),
    Real(Seq<char>),
    Bool(bool),
    Null,
    Sequence(Seq<Node>),
    Mapping(Seq<(Node, Node)>),
}

/// The model of one document.
pub open spec fn node_of(d: Document) -> Node
    decreases d, 0int,
{
    match d {
        Document::Str(s) => Node::Str(s@),
        Document::Int(i) => Node::Int(i),
        Document::Real(s) => Node::Real(s@),
        Document::Bool(b) => Node::Bool(b),
        Document::Null => Node::Null,
        Document::Sequence(items) => Node::Sequence(nodes_of(items@)),
        Document::Mapping(pairs) => Node::Mapping(pair_nodes_of(pairs@)),
    }
}

/// The models of a list of documents, in order.
pub open spec fn nodes_of(s: Seq<Document>) -> Seq<Node>
    decreases s, 1int,
{
    if s.len() == 0 {
        Seq::empty()
    } else {
        seq![node_of(s[0])] + nodes_of(s.drop_first())
    }
}

/// The models of a list of key/value pairs, in order.
pub open spec fn pair_nodes_of(s: Seq<(Document, Document)>) -> Seq<(Node, Node)>
    decreases s, 1int,
{
    if s.len() == 0 {
        Seq::empty()
    } else {
        seq![(node_of(s[0].0), node_of(s[0].1))] + pair_nodes_of(s.drop_first())
    }
}

impl View for Document {
    type V = Node;

    open spec fn view(&self) -> Node {
        node_of(*self)
    }
}

/// `nodes_of` maps `node_of` over the list, element by element.
pub proof fn lemma_nodes_of_index(s: Seq<Document>)
    ensures
        nodes_of(s).len() == s.len(),
        forall|i: int| 0 <= i < s.len() ==> #[trigger] nodes_of(s)[i] == node_of(s[i]),
    decreases s.len(),
{
    if s.len() > 0 {
        lemma_nodes_of_index(s.drop_first());
    }
}

/// `pair_nodes_of` maps `node_of` over both sides of each pair.
pub proof fn lemma_pair_nodes_of_index(s: Seq<(Document, Document)>)
    ensures
        pair_nodes_of(s).len() == s.len(),
        forall|i: int| 0 <= i < s.len() ==> #[trigger] pair_nodes_of(s)[i] == (
        node_of(s[i].0),
        node_of(s[i].1),
        ),
    decreases s.len(),
{
    if s.len() > 0 {
        lemma_pair_nodes_of_index(s.drop_first());
    }
}

impl Document {
    /// A structurally identical copy: the copy has the same model as the
    /// original.
    pub fn duplicate(&self) -> (r: Document)
        ensures
            r@ == self@,
        decreases *self, 0int,
    {
        match self {
            Document::Str(s) => Document::Str(s.clone()),
            Document::Int(i) => Document::Int(*i),
            Document::Real(s) => Document::Real(s.clone()),
            Document::Bool(b) => Document::Bool(*b),
            Document::Null => Document::Null,
            Document::Sequence(items) => {
                let mut out: Vec<Document> = Vec::new();
                let mut k: usize = 0;
                proof {
                    lemma_nodes_of_index(items@);
                }
                while k < items.len()
                    invariant
                        *self == Document::Sequence(*items),
                        k <= items.len(),
                        out@.len() == k,
                        nodes_of(items@).len() == items@.len(),
                        forall|i: int| 0 <= i < items@.len()
                            ==> #[trigger] nodes_of(items@)[i] == node_of(items@[i]),
                        forall|i: int| 0 <= i < k
                            ==> #[trigger] node_of(out@[i]) == node_of(items@[i]),
                    decreases items.len() - k,
                {
                    proof {
                        assert(decreases_to!(*self => items@[k as int])) by {
                            assert(decreases_to!(*self => self->Sequence_0));
                            assert(decreases_to!(*items => items@));
                            assert(decreases_to!(items@ => items@[k as int]));
                        }
                    }
                    let d = items[k].duplicate();
                    out.push(d);
                    k += 1;
                }
                proof {
                    lemma_nodes_of_index(out@);
                    assert(nodes_of(out@) =~= nodes_of(items@));
                }
                Document::Sequence(out)
            },
            Document::Mapping(pairs) => {
                let mut out: Vec<(Document, Document)> = Vec::new();
                let mut k: usize = 0;
                proof {
                    lemma_pair_nodes_of_index(pairs@);
                }
                while k < pairs.len()
                    invariant
                        *self == Document::Mapping(*pairs),
                        k <= pairs.len(),
                        out@.len() == k,
                        pair_nodes_of(pairs@).len() == pairs@.len(),
                        forall|i: int| 0 <= i < pairs@.len()
                            ==> #[trigger] pair_nodes_of(pairs@)[i] == (
                            node_of(pairs@[i].0),
                            node_of(pairs@[i].1),
                            ),
                        forall|i: int| 0 <= i < k
                            ==> #[trigger] node_of(out@[i].0) == node_of(pairs@[i].0)
                                && node_of(out@[i].1) == node_of(pairs@[i].1),
                    decreases pairs.len() - k,
                {
                    proof {
                        assert(decreases_to!(*self => pairs@[k as int])) by {
                            assert(decreases_to!(*self => self->Mapping_0));
                            assert(decreases_to!(*pairs => pairs@));
                            assert(decreases_to!(pairs@ => pairs@[k as int]));
                        }
                        assert(decreases_to!(pairs@[k as int] => pairs@[k as int].0));
                        assert(decreases_to!(pairs@[k as int] => pairs@[k as int].1));
                    }
                    let k0 = pairs[k].0.duplicate();
                    let v0 = pairs[k].1.duplicate();
                    out.push((k0, v0));
                    k += 1;
                }
                proof {
                    lemma_pair_nodes_of_index(out@);
                    assert(pair_nodes_of(out@) =~= pair_nodes_of(pairs@));
                }
                Document::Mapping(out)
            },
        }
    }
}

} // verus!
