//! The document expander.
//!
//! Mapping keys whose text contains [`expand_tag`] mark their value for
//! placeholder substitution. Expansion walks the tree once: tagged keys lose
//! the first occurrence of the tag and their value undergoes one level of
//! value substitution; everything else is rebuilt unchanged around the
//! recursively expanded values.

use vstd::prelude::*;

use crate::document::{
    lemma_nodes_of_index, lemma_pair_nodes_of_index, node_of, nodes_of, pair_nodes_of, Document,
    Node,
};
use crate::text::{
    contains_str, contains_sub, lemma_remove_first_shorter, remove_first, remove_first_str,
    replace_all, replace_str,
};

verus! {

/// The replacement table as the contracts see it: placeholder tokens paired
/// with their ordered replacement lists, in table order.
pub type RepsView = Seq<(Seq<char>, Seq<Seq<char>>)>;

/// The marker that tags a mapping key for expansion.
pub open spec fn expand_tag() -> Seq<char> {
    "|expand"@
}

/// A key marks its value for expansion when it is a string containing the tag.
pub open spec fn is_tagged(k: Node) -> bool {
    k matches Node::Str(s) && contains_sub(s, expand_tag())
}

/// The output key: the first occurrence of the tag is removed.
pub open spec fn stripped_key(s: Seq<char>) -> Seq<char> {
    remove_first(s, expand_tag())
}

/// What one replacement entry contributes to a tagged string `s`: one variant
/// of `s` per replacement, each with every occurrence of the token replaced,
/// or nothing when the token does not occur in `s`.
pub open spec fn contribution(s: Seq<char>, entry: (Seq<char>, Seq<Seq<char>>)) -> Seq<Seq<char>> {
    if entry.0.len() > 0 && contains_sub(s, entry.0) {
        entry.1.map_values(|r: Seq<char>| replace_all(s, entry.0, r))
    } else {
        Seq::empty()
    }
}

/// All variants of a tagged string `s`, in table order: the contributions of
/// the matching entries, concatenated (additively, not as a cross product).
pub open spec fn subst_variants(s: Seq<char>, reps: RepsView) -> Seq<Seq<char>>
    decreases reps.len(),
{
    if reps.len() == 0 {
        Seq::empty()
    } else {
        subst_variants(s, reps.drop_last()) + contribution(s, reps.last())
    }
}

/// One level of value substitution, applied only to the value under a tagged
/// key. A string becomes the sequence of its variants, or stays itself when no
/// token matches; any other value is expanded the general way instead, with no
/// substitution at this level.
pub open spec fn subst_value(v: Node, reps: RepsView) -> Node
    decreases v, 3int,
{
    match v {
        Node::Str(s) => {
            let outs = subst_variants(s, reps);
            if outs.len() == 0 {
                v
            } else {
                Node::Sequence(outs.map_values(|t: Seq<char>| Node::Str(t)))
            }
        },
        _ => expand_node(v, reps),
    }
}

/// One key/value pair of the expanded mapping: a tagged key is stripped and
/// its value substituted; any other pair keeps its key over the recursively
/// expanded value.
pub open spec fn expand_pair(pair: (Node, Node), reps: RepsView) -> (Node, Node)
    decreases pair, 2int,
{
    if pair.0 matches Node::Str(s) && contains_sub(s, expand_tag()) {
        (Node::Str(stripped_key(pair.0->Str_0)), subst_value(pair.1, reps))
    } else {
        (pair.0, expand_node(pair.1, reps))
    }
}

/// The expanded pairs of a mapping, in order.
pub open spec fn expand_pairs(pairs: Seq<(Node, Node)>, reps: RepsView) -> Seq<(Node, Node)>
    decreases pairs, 1int,
{
    if pairs.len() == 0 {
        Seq::empty()
    } else {
        seq![expand_pair(pairs[0], reps)] + expand_pairs(pairs.drop_first(), reps)
    }
}

/// The expanded elements of a sequence, in order.
pub open spec fn expand_items(items: Seq<Node>, reps: RepsView) -> Seq<Node>
    decreases items, 1int,
{
    if items.len() == 0 {
        Seq::empty()
    } else {
        seq![expand_node(items[0], reps)] + expand_items(items.drop_first(), reps)
    }
}

/// The expanded document: scalars stand, sequences and mapping values are
/// expanded recursively, tagged mapping keys are stripped over their
/// substituted values. Keys are never recursed into.
pub open spec fn expand_node(n: Node, reps: RepsView) -> Node
    decreases n, 0int,
{
    match n {
        Node::Sequence(items) => Node::Sequence(expand_items(items, reps)),
        Node::Mapping(pairs) => Node::Mapping(expand_pairs(pairs, reps)),
        _ => n,
    }
}

/// The first flag of [`process_yaml`]: some key of this mapping itself is
/// tagged. Tags in nested mappings do not reach this level.
pub open spec fn found_tag(n: Node) -> bool {
    n matches Node::Mapping(pairs) && exists|i: int|
        0 <= i < pairs.len() && is_tagged(#[trigger] pairs[i].0)
}

/// The second flag of [`process_yaml`]: some tagged key of this mapping has a
/// value that substitution actually changed.
pub open spec fn did_subst(n: Node, reps: RepsView) -> bool {
    n matches Node::Mapping(pairs) && exists|i: int|
        0 <= i < pairs.len() && is_tagged(#[trigger] pairs[i].0) && subst_value(pairs[i].1, reps)
            != pairs[i].1
}

/// A tagged key stands somewhere expansion can reach it: among this mapping's
/// own keys, or anywhere below one of its values or sequence elements.
pub open spec fn has_tag_deep(n: Node) -> bool
    decreases n, 0int,
{
    match n {
        Node::Sequence(items) => items_have_tag(items),
        Node::Mapping(pairs) => pairs_have_tag(pairs),
        _ => false,
    }
}

/// Some element of the sequence holds a reachable tag.
pub open spec fn items_have_tag(items: Seq<Node>) -> bool
    decreases items, 1int,
{
    if items.len() == 0 {
        false
    } else {
        has_tag_deep(items[0]) || items_have_tag(items.drop_first())
    }
}

/// Some pair of the mapping is tagged or holds a reachable tag in its value.
pub open spec fn pairs_have_tag(pairs: Seq<(Node, Node)>) -> bool
    decreases pairs, 1int,
{
    if pairs.len() == 0 {
        false
    } else {
        is_tagged(pairs[0].0) || has_tag_deep(pairs[0].1) || pairs_have_tag(pairs.drop_first())
    }
}

/// `expand_items` maps `expand_node` over the elements, in place.
pub proof fn lemma_expand_items_index(items: Seq<Node>, reps: RepsView)
    ensures
        expand_items(items, reps).len() == items.len(),
        forall|i: int| 0 <= i < items.len() ==> #[trigger] expand_items(items, reps)[i]
            == expand_node(items[i], reps),
    decreases items.len(),
{
    if items.len() > 0 {
        lemma_expand_items_index(items.drop_first(), reps);
    }
}

/// `expand_pairs` maps `expand_pair` over the pairs, in place.
pub proof fn lemma_expand_pairs_index(pairs: Seq<(Node, Node)>, reps: RepsView)
    ensures
        expand_pairs(pairs, reps).len() == pairs.len(),
        forall|i: int| 0 <= i < pairs.len() ==> #[trigger] expand_pairs(pairs, reps)[i]
            == expand_pair(pairs[i], reps),
    decreases pairs.len(),
{
    if pairs.len() > 0 {
        lemma_expand_pairs_index(pairs.drop_first(), reps);
    }
}

/// `items_have_tag` is the existence of a reachable tag in some element.
pub proof fn lemma_items_have_tag_iff(items: Seq<Node>)
    ensures
        items_have_tag(items) <==> exists|i: int|
            0 <= i < items.len() && has_tag_deep(#[trigger] items[i]),
    decreases items.len(),
{
    if items.len() > 0 {
        lemma_items_have_tag_iff(items.drop_first());
        if has_tag_deep(items[0]) {
            assert(0 <= 0 < items.len() && has_tag_deep(items[0]));
        } else if items_have_tag(items.drop_first()) {
            let j = choose|j: int|
                0 <= j < items.drop_first().len() && has_tag_deep(#[trigger] items.drop_first()[j]);
            assert(items[j + 1] == items.drop_first()[j]);
        } else {
            assert(forall|i: int| 0 < i < items.len() ==> #[trigger] items[i]
                == items.drop_first()[i - 1]);
        }
    }
}

/// `pairs_have_tag` is the existence of a tagged key or a value with a
/// reachable tag.
pub proof fn lemma_pairs_have_tag_iff(pairs: Seq<(Node, Node)>)
    ensures
        pairs_have_tag(pairs) <==> exists|i: int|
            0 <= i < pairs.len() && (is_tagged(#[trigger] pairs[i].0) || has_tag_deep(pairs[i].1)),
    decreases pairs.len(),
{
    if pairs.len() > 0 {
        lemma_pairs_have_tag_iff(pairs.drop_first());
        if is_tagged(pairs[0].0) || has_tag_deep(pairs[0].1) {
            assert(0 <= 0 < pairs.len() && (is_tagged(pairs[0].0) || has_tag_deep(pairs[0].1)));
        } else if pairs_have_tag(pairs.drop_first()) {
            let j = choose|j: int|
                0 <= j < pairs.drop_first().len() && (is_tagged(
                    #[trigger] pairs.drop_first()[j].0,
                ) || has_tag_deep(pairs.drop_first()[j].1));
            assert(pairs[j + 1] == pairs.drop_first()[j]);
        } else {
            assert(forall|i: int| 0 < i < pairs.len() ==> #[trigger] pairs[i]
                == pairs.drop_first()[i - 1]);
        }
    }
}

/// Expansion is the identity exactly on documents without a reachable tag.
pub proof fn lemma_expand_identity(n: Node, reps: RepsView)
    ensures
        (expand_node(n, reps) == n) <==> !has_tag_deep(n),
    decreases n, 0int,
{
    match n {
        Node::Sequence(items) => {
            lemma_expand_items_identity(items, reps);
        },
        Node::Mapping(pairs) => {
            lemma_expand_pairs_identity(pairs, reps);
        },
        _ => {},
    }
}

/// Element-wise form of [`lemma_expand_identity`] for sequences.
pub proof fn lemma_expand_items_identity(items: Seq<Node>, reps: RepsView)
    ensures
        (expand_items(items, reps) == items) <==> !items_have_tag(items),
    decreases items, 1int,
{
    lemma_expand_items_index(items, reps);
    lemma_items_have_tag_iff(items);
    assert forall|i: int| 0 <= i < items.len() implies ((expand_node(#[trigger] items[i], reps)
        == items[i]) <==> !has_tag_deep(items[i])) by {
        lemma_expand_identity(items[i], reps);
    }
    if !items_have_tag(items) {
        assert(expand_items(items, reps) =~= items);
    } else {
        let j = choose|j: int| 0 <= j < items.len() && has_tag_deep(#[trigger] items[j]);
        assert(expand_items(items, reps)[j] != items[j]);
    }
}

/// Pair-wise form of [`lemma_expand_identity`] for mappings.
pub proof fn lemma_expand_pairs_identity(pairs: Seq<(Node, Node)>, reps: RepsView)
    ensures
        (expand_pairs(pairs, reps) == pairs) <==> !pairs_have_tag(pairs),
    decreases pairs, 1int,
{
    lemma_expand_pairs_index(pairs, reps);
    lemma_pairs_have_tag_iff(pairs);
    assert forall|i: int| 0 <= i < pairs.len() implies ((expand_pair(#[trigger] pairs[i], reps)
        == pairs[i]) <==> !(is_tagged(pairs[i].0) || has_tag_deep(pairs[i].1))) by {
        lemma_expand_pair_identity(pairs[i], reps);
    }
    if !pairs_have_tag(pairs) {
        assert(expand_pairs(pairs, reps) =~= pairs);
    } else {
        let j = choose|j: int|
            0 <= j < pairs.len() && (is_tagged(#[trigger] pairs[j].0) || has_tag_deep(pairs[j].1));
        assert(expand_pairs(pairs, reps)[j] != pairs[j]);
    }
}

/// One pair is left unchanged exactly when its key is untagged and its value
/// carries no reachable tag.
pub proof fn lemma_expand_pair_identity(pair: (Node, Node), reps: RepsView)
    ensures
        (expand_pair(pair, reps) == pair) <==> !(is_tagged(pair.0) || has_tag_deep(pair.1)),
    decreases pair, 2int,
{
    if is_tagged(pair.0) {
        let s = pair.0->Str_0;
        lemma_tag_len();
        lemma_remove_first_shorter(s, expand_tag());
        assert(stripped_key(s).len() < s.len());
        assert(expand_pair(pair, reps).0 != pair.0);
    } else {
        lemma_expand_identity(pair.1, reps);
    }
}

/// The tag has seven characters; in particular it is not empty.
pub proof fn lemma_tag_len()
    ensures
        expand_tag().len() == 7,
{
    reveal_strlit("|expand");
}

/// A raised first flag needs a tagged key of the mapping itself, which is a
/// reachable tag; a raised second flag needs the first.
pub proof fn lemma_flags_need_tags(n: Node, reps: RepsView)
    ensures
        found_tag(n) ==> has_tag_deep(n),
        did_subst(n, reps) ==> found_tag(n),
{
    if found_tag(n) {
        let pairs = n->Mapping_0;
        let i = choose|i: int| 0 <= i < pairs.len() && is_tagged(#[trigger] pairs[i].0);
        lemma_pairs_have_tag_iff(pairs);
        assert(is_tagged(pairs[i].0) || has_tag_deep(pairs[i].1));
    }
    if did_subst(n, reps) {
        let pairs = n->Mapping_0;
        let i = choose|i: int|
            0 <= i < pairs.len() && is_tagged(#[trigger] pairs[i].0) && subst_value(
                pairs[i].1,
                reps,
            ) != pairs[i].1;
        assert(is_tagged(pairs[i].0));
    }
}

/// A document without a reachable tag anywhere is expanded to a structurally
/// equal document, and both flags stay false.
pub proof fn lemma_expand_no_tags(n: Node, reps: RepsView)
    requires
        !has_tag_deep(n),
    ensures
        expand_node(n, reps) == n,
        !found_tag(n),
        !did_subst(n, reps),
{
    lemma_expand_identity(n, reps);
    lemma_flags_need_tags(n, reps);
}

/// Expansion output that carries no reachable tag is a fixed point:
/// re-running expansion on it changes nothing and raises neither flag.
/// Stripping can leave or form a tag (a key such as `k|expand|expand` still
/// holds one after the strip), so the absence of tags in the output is a
/// premise, not a consequence.
pub proof fn lemma_expand_idempotent(n: Node, reps: RepsView)
    requires
        !has_tag_deep(expand_node(n, reps)),
    ensures
        expand_node(expand_node(n, reps), reps) == expand_node(n, reps),
        !found_tag(expand_node(n, reps)),
        !did_subst(expand_node(n, reps), reps),
{
    lemma_expand_no_tags(expand_node(n, reps), reps);
}

/// A mapping none of whose own keys is tagged raises neither flag, while each
/// of its values is still expanded in full, so deeper tags are honored there.
pub proof fn lemma_untagged_mapping_flags(pairs: Seq<(Node, Node)>, reps: RepsView)
    requires
        forall|i: int| 0 <= i < pairs.len() ==> !is_tagged(#[trigger] pairs[i].0),
    ensures
        !found_tag(Node::Mapping(pairs)),
        !did_subst(Node::Mapping(pairs), reps),
        expand_node(Node::Mapping(pairs), reps) == Node::Mapping(expand_pairs(pairs, reps)),
        expand_pairs(pairs, reps).len() == pairs.len(),
        forall|i: int| 0 <= i < pairs.len() ==> #[trigger] expand_pairs(pairs, reps)[i] == (
        pairs[i].0,
        expand_node(pairs[i].1, reps),
        ),
{
    lemma_expand_pairs_index(pairs, reps);
}

/// Extending the table by one entry appends that entry's contribution.
proof fn lemma_subst_variants_step(s: Seq<char>, reps: RepsView, k: int)
    requires
        0 <= k < reps.len(),
    ensures
        subst_variants(s, reps.take(k + 1)) == subst_variants(s, reps.take(k)) + contribution(
            s,
            reps[k],
        ),
{
    assert(reps.take(k + 1).drop_last() =~= reps.take(k));
    assert(reps.take(k + 1).last() == reps[k]);
}

/// One level of value substitution together with whether it changed anything:
/// the second component reports a structural difference to the input.
fn process_value_inner(value: &Document, reps: &Vec<(String, Vec<String>)>) -> (r: (
    Document,
    bool,
))
    ensures
        r.0@ == subst_value(value@, reps.deep_view()),
        r.1 == (subst_value(value@, reps.deep_view()) != value@),
    decreases *value, 1int,
{
    let ghost rv = reps.deep_view();
    match value {
        Document::Str(s) => {
            let ghost sv = s@;
            let mut outs: Vec<Document> = Vec::new();
            let ghost mut acc: Seq<Seq<char>> = Seq::empty();
            let mut k: usize = 0;
            while k < reps.len()
                invariant
                    rv == reps.deep_view(),
                    sv == s@,
                    k <= reps.len(),
                    rv.len() == reps@.len(),
                    acc == subst_variants(sv, rv.take(k as int)),
                    outs@.len() == acc.len(),
                    forall|i: int| 0 <= i < acc.len() ==> #[trigger] node_of(outs@[i])
                        == Node::Str(acc[i]),
                decreases reps.len() - k,
            {
                let p = &reps[k].0;
                proof {
                    assert(rv[k as int] == reps@[k as int].deep_view());
                    assert(rv[k as int].0 == p@);
                }
                if !p.as_str().is_empty() && contains_str(s.as_str(), p.as_str()) {
                    let ghost pre = acc;
                    let mut j: usize = 0;
                    while j < reps[k].1.len()
                        invariant
                            rv == reps.deep_view(),
                            sv == s@,
                            k < reps.len(),
                            rv.len() == reps@.len(),
                            rv[k as int] == reps@[k as int].deep_view(),
                            rv[k as int].0 == reps@[k as int].0@,
                            reps@[k as int].0@.len() > 0,
                            contains_sub(sv, rv[k as int].0),
                            j <= reps@[k as int].1@.len(),
                            rv[k as int].1.len() == reps@[k as int].1@.len(),
                            acc == pre + contribution(sv, rv[k as int]).take(j as int),
                            contribution(sv, rv[k as int]).len() == rv[k as int].1.len(),
                            outs@.len() == acc.len(),
                            forall|i: int| 0 <= i < acc.len() ==> #[trigger] node_of(outs@[i])
                                == Node::Str(acc[i]),
                        decreases reps@[k as int].1@.len() - j,
                    {
                        let rep = &reps[k].1[j];
                        proof {
                            assert(rv[k as int].1[j as int] == rep@);
                            assert(contribution(sv, rv[k as int])[j as int] == replace_all(
                                sv,
                                rv[k as int].0,
                                rep@,
                            ));
                        }
                        let var = replace_str(s.as_str(), reps[k].0.as_str(), rep.as_str());
                        outs.push(Document::Str(var));
                        proof {
                            acc = acc.push(replace_all(sv, rv[k as int].0, rep@));
                            assert(pre + contribution(sv, rv[k as int]).take(j + 1) =~= (pre
                                + contribution(sv, rv[k as int]).take(j as int)).push(
                                contribution(sv, rv[k as int])[j as int],
                            ));
                        }
                        j += 1;
                    }
                    proof {
                        assert(contribution(sv, rv[k as int]).take(
                            contribution(sv, rv[k as int]).len() as int,
                        ) =~= contribution(sv, rv[k as int]));
                        lemma_subst_variants_step(sv, rv, k as int);
                    }
                } else {
                    proof {
                        assert(contribution(sv, rv[k as int]) =~= Seq::<Seq<char>>::empty());
                        assert(acc + Seq::<Seq<char>>::empty() =~= acc);
                        lemma_subst_variants_step(sv, rv, k as int);
                    }
                }
                k += 1;
            }
            proof {
                assert(rv.take(rv.len() as int) =~= rv);
            }
            if outs.len() == 0 {
                (Document::Str(s.clone()), false)
            } else {
                proof {
                    lemma_nodes_of_index(outs@);
                    assert(nodes_of(outs@) =~= subst_variants(sv, rv).map_values(
                        |t: Seq<char>| Node::Str(t),
                    ));
                }
                (Document::Sequence(outs), true)
            }
        },
        _ => {
            let (nd, _, _, deep) = expand_doc(value, reps);
            proof {
                lemma_expand_identity(value@, rv);
            }
            (nd, deep)
        },
    }
}

/// Recursive worker for [`process_yaml`]: the expanded document, the two
/// flags of this level, and whether the document holds a reachable tag at
/// all (equivalently, whether expansion changed it).
fn expand_doc(doc: &Document, reps: &Vec<(String, Vec<String>)>) -> (r: (
    Document,
    bool,
    bool,
    bool,
))
    ensures
        r.0@ == expand_node(doc@, reps.deep_view()),
        r.1 == found_tag(doc@),
        r.2 == did_subst(doc@, reps.deep_view()),
        r.3 == has_tag_deep(doc@),
    decreases *doc, 0int,
{
    let ghost rv = reps.deep_view();
    match doc {
        Document::Sequence(items) => {
            let ghost ns = nodes_of(items@);
            let mut out: Vec<Document> = Vec::new();
            let mut deep = false;
            let mut k: usize = 0;
            proof {
                lemma_nodes_of_index(items@);
                lemma_expand_items_index(ns, rv);
            }
            while k < items.len()
                invariant
                    *doc == Document::Sequence(*items),
                    rv == reps.deep_view(),
                    ns == nodes_of(items@),
                    ns.len() == items@.len(),
                    forall|i: int| 0 <= i < items@.len() ==> #[trigger] ns[i] == node_of(
                        items@[i],
                    ),
                    k <= items.len(),
                    out@.len() == k,
                    forall|i: int| 0 <= i < k ==> #[trigger] node_of(out@[i]) == expand_node(
                        ns[i],
                        rv,
                    ),
                    deep == (exists|i: int| 0 <= i < k && has_tag_deep(#[trigger] ns[i])),
                decreases items.len() - k,
            {
                proof {
                    assert(decreases_to!(*doc => items@[k as int])) by {
                        assert(decreases_to!(*doc => doc->Sequence_0));
                        assert(decreases_to!(*items => items@));
                        assert(decreases_to!(items@ => items@[k as int]));
                    }
                }
                let (d, _, _, dp) = expand_doc(&items[k], reps);
                out.push(d);
                proof {
                    if dp {
                        assert(0 <= k < k + 1 && has_tag_deep(ns[k as int]));
                    }
                }
                deep = deep || dp;
                k += 1;
            }
            proof {
                lemma_nodes_of_index(out@);
                lemma_expand_items_index(ns, rv);
                assert(nodes_of(out@) =~= expand_items(ns, rv));
                lemma_items_have_tag_iff(ns);
            }
            (Document::Sequence(out), false, false, deep)
        },
        Document::Mapping(pairs) => {
            let ghost pn = pair_nodes_of(pairs@);
            let mut out: Vec<(Document, Document)> = Vec::new();
            let mut found = false;
            let mut subst = false;
            let mut deep = false;
            let mut k: usize = 0;
            proof {
                lemma_pair_nodes_of_index(pairs@);
                lemma_expand_pairs_index(pn, rv);
            }
            while k < pairs.len()
                invariant
                    *doc == Document::Mapping(*pairs),
                    rv == reps.deep_view(),
                    pn == pair_nodes_of(pairs@),
                    pn.len() == pairs@.len(),
                    forall|i: int| 0 <= i < pairs@.len() ==> #[trigger] pn[i] == (
                    node_of(pairs@[i].0),
                    node_of(pairs@[i].1),
                    ),
                    k <= pairs.len(),
                    out@.len() == k,
                    forall|i: int| 0 <= i < k ==> (node_of(#[trigger] out@[i].0), node_of(
                        out@[i].1,
                    )) == expand_pair(pn[i], rv),
                    found == (exists|i: int| 0 <= i < k && is_tagged(#[trigger] pn[i].0)),
                    subst == (exists|i: int| 0 <= i < k && is_tagged(#[trigger] pn[i].0)
                        && subst_value(pn[i].1, rv) != pn[i].1),
                    deep == (exists|i: int| 0 <= i < k && (is_tagged(#[trigger] pn[i].0)
                        || has_tag_deep(pn[i].1))),
                decreases pairs.len() - k,
            {
                proof {
                    assert(decreases_to!(*doc => pairs@[k as int].1)) by {
                        assert(decreases_to!(*doc => doc->Mapping_0));
                        assert(decreases_to!(*pairs => pairs@));
                        assert(decreases_to!(pairs@ => pairs@[k as int]));
                        assert(decreases_to!(pairs@[k as int] => pairs@[k as int].1));
                    }
                }
                match &pairs[k].0 {
                    Document::Str(ks) => {
                        if contains_str(ks.as_str(), "|expand") {
                            proof {
                                lemma_tag_len();
                            }
                            let new_key = remove_first_str(ks.as_str(), "|expand");
                            let (nv, ch) = process_value_inner(&pairs[k].1, reps);
                            out.push((Document::Str(new_key), nv));
                            found = true;
                            subst = subst || ch;
                            deep = true;
                            proof {
                                assert(is_tagged(pn[k as int].0));
                                if ch {
                                    assert(subst_value(pn[k as int].1, rv) != pn[k as int].1);
                                }
                            }
                        } else {
                            let (nd, _, _, dp) = expand_doc(&pairs[k].1, reps);
                            out.push((Document::Str(ks.clone()), nd));
                            deep = deep || dp;
                            proof {
                                assert(!is_tagged(pn[k as int].0));
                                if dp {
                                    assert(has_tag_deep(pn[k as int].1));
                                }
                            }
                        }
                    },
                    _ => {
                        let (nd, _, _, dp) = expand_doc(&pairs[k].1, reps);
                        let key_copy = pairs[k].0.duplicate();
                        out.push((key_copy, nd));
                        deep = deep || dp;
                        proof {
                            assert(!is_tagged(pn[k as int].0));
                            if dp {
                                assert(has_tag_deep(pn[k as int].1));
                            }
                        }
                    },
                }
                k += 1;
            }
            proof {
                lemma_pair_nodes_of_index(out@);
                lemma_expand_pairs_index(pn, rv);
                assert(pair_nodes_of(out@) =~= expand_pairs(pn, rv));
                lemma_pairs_have_tag_iff(pn);
            }
            (Document::Mapping(out), found, subst, deep)
        },
        _ => {
            (doc.duplicate(), false, false, false)
        },
    }
}

/// Expand one document against a replacement table.
///
/// Returns the expanded document together with two booleans: whether some key
/// of the document's own top-level mapping was tagged, and whether the value
/// of such a key was actually changed by substitution. Tags in nested
/// mappings are honored in the output but do not raise these flags.
pub fn process_yaml(yaml: &Document, replacements: &Vec<(String, Vec<String>)>) -> (r: (
    Document,
    bool,
    bool,
))
    ensures
        r.0@ == expand_node(yaml@, replacements.deep_view()),
        r.1 == found_tag(yaml@),
        r.2 == did_subst(yaml@, replacements.deep_view()),
{
    let (d, found, subst, _) = expand_doc(yaml, replacements);
    (d, found, subst)
}

/// One level of value substitution, as applied to the value under a tagged
/// key: a string scalar becomes the sequence of its substituted variants, or
/// stays itself when no placeholder matches; any other value is expanded the
/// general, recursive way with no substitution at this level.
pub fn process_value(value: &Document, replacements: &Vec<(String, Vec<String>)>) -> (r: Document)
    ensures
        r@ == subst_value(value@, replacements.deep_view()),
{
    process_value_inner(value, replacements).0
}

} // verus!
