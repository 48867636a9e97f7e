use crate::arff::{
    class_count, domain_len, domain_size, feature_count, valid_catalog, valid_record, valid_records,
    Class,
};
use crate::entropy::{build_distribution, class_count_in, split_score, split_score_of, subset_ok};
use crate::record::Record;
use vstd::prelude::*;

verus! {

/// One entry of the tree's arena.
#[derive(Debug)]
pub enum Node {
    /// Splits on `feature`; `children[v]` is the node for feature value `v`, if any.
    /// Records with no child for their value get `majority_class`.
    Branch { feature: usize, children: Vec<Option<usize>>, majority_class: usize },
    Leaf { class: usize },
}

/// A decision tree held as an arena of nodes; node 0 is the root.
#[derive(Debug)]
pub struct DecisionTree {
    nodes: Vec<Node>,
    classes: usize,
    features: usize,
}

/// The node at `i` is well formed: classes and features in range, children after it.
pub open spec fn node_ok(nodes: Seq<Node>, i: int, classes: nat, features: nat) -> bool {
    match nodes[i] {
        Node::Leaf { class } => class < classes,
        Node::Branch { feature, children, majority_class } => {
            &&& feature < features
            &&& majority_class < classes
            &&& forall|v: int|
                0 <= v < children@.len() && (#[trigger] children@[v]) is Some ==> i
                    < children@[v].unwrap() < nodes.len()
        },
    }
}

pub open spec fn nodes_ok(nodes: Seq<Node>, classes: nat, features: nat) -> bool {
    forall|i: int| 0 <= i < nodes.len() ==> #[trigger] node_ok(nodes, i, classes, features)
}

/// The class reached from node `i` for the given feature values, treating the branch at
/// `skip` (if any) as having no children.
pub open spec fn classify(nodes: Seq<Node>, feats: Seq<usize>, i: int, skip: int) -> usize
    decreases nodes.len() - i,
{
    if 0 <= i < nodes.len() {
        match nodes[i] {
            Node::Leaf { class } => class,
            Node::Branch { feature, children, majority_class } => {
                let v = feats[feature as int] as int;
                if i != skip && v < children@.len() && children@[v] is Some && i
                    < children@[v].unwrap() < nodes.len() {
                    classify(nodes, feats, children@[v].unwrap() as int, skip)
                } else {
                    majority_class
                }
            },
        }
    } else {
        0
    }
}

/// Node `p` holds a link to node `j`.
pub open spec fn links_to(nodes: Seq<Node>, p: int, j: int) -> bool {
    0 <= p < nodes.len() && match nodes[p] {
        Node::Branch { children, .. } => exists|v: int|
            0 <= v < children@.len() && #[trigger] children@[v] == Some(j as usize),
        Node::Leaf { .. } => false,
    }
}

/// Node `j` can be reached from the root by following links.
pub open spec fn reachable(nodes: Seq<Node>, j: int) -> bool
    decreases j,
{
    if j <= 0 {
        j == 0
    } else {
        exists|p: int| 0 <= p < j && #[trigger] links_to(nodes, p, j) && reachable(nodes, p)
    }
}


/// Height of the subtree below node `i`, counted in nodes along the longest path.
pub open spec fn height(nodes: Seq<Node>, i: int) -> nat
    decreases nodes.len() - i, 1int, 0int,
{
    if 0 <= i < nodes.len() {
        match nodes[i] {
            Node::Leaf { .. } => 1,
            Node::Branch { children, .. } => 1 + max_child_height(
                nodes,
                i,
                children@,
                children@.len() as int,
            ),
        }
    } else {
        0
    }
}

/// Largest height among the first `k` children slots of node `i`.
pub open spec fn max_child_height(nodes: Seq<Node>, i: int, ch: Seq<Option<usize>>, k: int) -> nat
    decreases nodes.len() - i, 0int, k,
{
    if k <= 0 || !(0 <= i < nodes.len()) {
        0
    } else {
        let rest = max_child_height(nodes, i, ch, k - 1);
        match ch[k - 1] {
            Some(c) => if i < c < nodes.len() {
                let h = height(nodes, c as int);
                if h > rest {
                    h
                } else {
                    rest
                }
            } else {
                rest
            },
            None => rest,
        }
    }
}

/// Node `j` has a link from some reachable node before `i`, or is the root.
pub open spec fn reached_before(nodes: Seq<Node>, j: int, i: int) -> bool {
    j == 0 || exists|p: int| 0 <= p < i && #[trigger] links_to(nodes, p, j) && reachable(nodes, p)
}

/// One of the first `k` slots holds a link to `q`.
pub open spec fn slot_hit(ch: Seq<Option<usize>>, k: int, q: int) -> bool {
    exists|v: int| 0 <= v < k && #[trigger] ch[v] == Some(q as usize)
}

/// Number of reachable nodes among the first `k`.
pub open spec fn live_count(nodes: Seq<Node>, k: int) -> nat
    decreases k,
{
    if k <= 0 {
        0
    } else {
        live_count(nodes, k - 1) + if reachable(nodes, k - 1) {
            1nat
        } else {
            0nat
        }
    }
}

/// Number of records whose class the tree (with `skip` collapsed) gets right.
pub open spec fn correct_count(nodes: Seq<Node>, recs: Seq<Record>, skip: int) -> nat
    decreases recs.len(),
{
    if recs.len() == 0 {
        0
    } else {
        correct_count(nodes, recs.drop_last(), skip) + if classify(
            nodes,
            recs.last().features@,
            0,
            skip,
        ) == recs.last().class {
            1nat
        } else {
            0nat
        }
    }
}

/// Some slot of the mapping holds a child.
pub open spec fn has_links(ch: Seq<Option<usize>>) -> bool {
    exists|v: int| 0 <= v < ch.len() && (#[trigger] ch[v]) is Some
}

/// Node `s` is a branch that still has children: a candidate for collapsing.
pub open spec fn collapsible(nodes: Seq<Node>, s: int) -> bool {
    0 <= s < nodes.len() && nodes[s] is Branch && has_links(nodes[s]->children@)
}

/// `after` is `before` with some branches' children removed, and nothing else changed.
pub open spec fn pruned_from(before: Seq<Node>, after: Seq<Node>) -> bool {
    &&& before.len() == after.len()
    &&& forall|i: int|
        0 <= i < before.len() ==> (#[trigger] after[i] == before[i] || (before[i] is Branch
            && after[i] is Branch && after[i]->feature == before[i]->feature
            && after[i]->majority_class == before[i]->majority_class
            && after[i]->children@.len() == 0))
}

/// Number of collapsible branches among the first `k` nodes.
pub open spec fn open_branches(nodes: Seq<Node>, k: int) -> nat
    decreases k,
{
    if k <= 0 {
        0
    } else {
        open_branches(nodes, k - 1) + if collapsible(nodes, k - 1) {
            1nat
        } else {
            0nat
        }
    }
}

/// Every record's features fit the tree.
pub open spec fn records_fit(recs: Seq<Record>, features: nat) -> bool {
    forall|i: int| 0 <= i < recs.len() ==> (#[trigger] recs[i]).features@.len() == features
}

proof fn lemma_reachable_shrinks(a: Seq<Node>, b: Seq<Node>, j: int)
    requires
        pruned_from(a, b),
        reachable(b, j),
    ensures
        reachable(a, j),
    decreases j,
{
    if j > 0 {
        let p = choose|p: int| 0 <= p < j && #[trigger] links_to(b, p, j) && reachable(b, p);
        lemma_reachable_shrinks(a, b, p);
        assert(b[p] == a[p]);
        assert(links_to(a, p, j));
    }
}

proof fn lemma_live_count_shrinks(a: Seq<Node>, b: Seq<Node>, k: int)
    requires
        pruned_from(a, b),
    ensures
        live_count(b, k) <= live_count(a, k),
        live_count(a, k) <= if k < 0 { 0 } else { k },
    decreases k,
{
    if k > 0 {
        lemma_live_count_shrinks(a, b, k - 1);
        if reachable(b, k - 1) {
            lemma_reachable_shrinks(a, b, k - 1);
        }
    }
}

/// Pruning never brings a node back: a tree pruned from another has no more live nodes
/// and no fewer pruned ones.
pub proof fn lemma_pruning_monotone(before: Seq<Node>, after: Seq<Node>)
    requires
        pruned_from(before, after),
    ensures
        live_count(after, after.len() as int) <= live_count(before, before.len() as int),
        after.len() - live_count(after, after.len() as int) >= before.len() - live_count(
            before,
            before.len() as int,
        ),
{
    lemma_live_count_shrinks(before, after, before.len() as int);
}

proof fn lemma_classify_collapsed(a: Seq<Node>, b: Seq<Node>, feats: Seq<usize>, s: int, i: int)
    requires
        0 <= s < a.len(),
        a[s] is Branch,
        b.len() == a.len(),
        b[s] is Branch,
        b[s]->majority_class == a[s]->majority_class,
        b[s]->feature == a[s]->feature,
        b[s]->children@.len() == 0,
        forall|q: int| 0 <= q < a.len() && q != s ==> b[q] == a[q],
    ensures
        classify(b, feats, i, -1) == classify(a, feats, i, s),
    decreases a.len() - i,
{
    if 0 <= i < a.len() && i != s {
        match a[i] {
            Node::Branch { feature, children, majority_class } => {
                let v = feats[feature as int] as int;
                if v < children@.len() && children@[v] is Some && i < children@[v].unwrap() < a.len() {
                    lemma_classify_collapsed(a, b, feats, s, children@[v].unwrap() as int);
                }
            },
            _ => {},
        }
    }
}

proof fn lemma_correct_collapsed(a: Seq<Node>, b: Seq<Node>, recs: Seq<Record>, s: int)
    requires
        0 <= s < a.len(),
        a[s] is Branch,
        b.len() == a.len(),
        b[s] is Branch,
        b[s]->majority_class == a[s]->majority_class,
        b[s]->feature == a[s]->feature,
        b[s]->children@.len() == 0,
        forall|q: int| 0 <= q < a.len() && q != s ==> b[q] == a[q],
    ensures
        correct_count(b, recs, -1) == correct_count(a, recs, s),
    decreases recs.len(),
{
    if recs.len() > 0 {
        lemma_correct_collapsed(a, b, recs.drop_last(), s);
        lemma_classify_collapsed(a, b, recs.last().features@, s, 0);
    }
}

proof fn lemma_open_branches_drop(a: Seq<Node>, b: Seq<Node>, s: int, k: int)
    requires
        collapsible(a, s),
        b.len() == a.len(),
        !collapsible(b, s),
        forall|q: int| 0 <= q < a.len() && q != s ==> b[q] == a[q],
        0 <= k <= a.len(),
    ensures
        k > s ==> open_branches(b, k) + 1 == open_branches(a, k),
        k <= s ==> open_branches(b, k) == open_branches(a, k),
    decreases k,
{
    if k > 0 {
        lemma_open_branches_drop(a, b, s, k - 1);
        if k - 1 != s {
            assert(collapsible(b, k - 1) == collapsible(a, k - 1));
        }
    }
}

/// One pending piece of work for the builder: the features already split on, the records
/// that reach this point, and the parent slot that the new node fills.
struct Frontier {
    used: Vec<bool>,
    subset: Vec<usize>,
    parent: Option<(usize, usize)>,
}

/// Number of features not yet split on.
pub open spec fn unused_count(s: Seq<bool>) -> nat
    decreases s.len(),
{
    if s.len() == 0 {
        0
    } else {
        unused_count(s.drop_last()) + if !s.last() {
            1nat
        } else {
            0nat
        }
    }
}

proof fn lemma_unused_update(s: Seq<bool>, i: int)
    requires
        0 <= i < s.len(),
        !s[i],
    ensures
        unused_count(s.update(i, true)) + 1 == unused_count(s),
    decreases s.len(),
{
    let t = s.update(i, true);
    if i < s.len() - 1 {
        assert(t.drop_last() =~= s.drop_last().update(i, true));
        lemma_unused_update(s.drop_last(), i);
    } else {
        assert(t.drop_last() =~= s.drop_last());
    }
}

spec fn weight(b: nat, e: nat) -> nat
    decreases e,
{
    if e == 0 {
        1
    } else {
        b * weight(b, (e - 1) as nat)
    }
}

proof fn lemma_weight_pos(b: nat, e: nat)
    requires
        b >= 1,
    ensures
        weight(b, e) >= 1,
    decreases e,
{
    if e > 0 {
        lemma_weight_pos(b, (e - 1) as nat);
        let w = weight(b, (e - 1) as nat);
        assert(b * w >= 1) by (nonlinear_arith)
            requires
                b >= 1,
                w >= 1,
        ;
    }
}

spec fn stack_weight(items: Seq<Frontier>, b: nat) -> nat
    decreases items.len(),
{
    if items.len() == 0 {
        0
    } else {
        stack_weight(items.drop_last(), b) + weight(b, unused_count(items.last().used@))
    }
}

/// Largest domain size among the first `k` attributes.
pub open spec fn max_domain(cat: Seq<Class>, k: int) -> nat
    decreases k,
{
    if k <= 0 {
        0
    } else {
        let m = max_domain(cat, k - 1);
        let d = domain_size(cat[k - 1]);
        if d > m {
            d
        } else {
            m
        }
    }
}

proof fn lemma_max_domain(cat: Seq<Class>, k: int, f: int)
    requires
        0 <= f < k,
    ensures
        domain_size(cat[f]) <= max_domain(cat, k),
    decreases k,
{
    if f < k - 1 {
        lemma_max_domain(cat, k - 1, f);
    }
}

/// The indices `0..n`, in order.
pub open spec fn all_indices(n: nat) -> Seq<usize> {
    Seq::new(n, |i: int| i as usize)
}

/// Every record of the data set has the class of the first.
pub open spec fn single_class(data: Seq<Record>) -> bool {
    forall|k: int| 0 <= k < data.len() ==> (#[trigger] data[k]).class == data[0].class
}

/// `f` is the feature, among those not yet used, with the lowest split score, the lowest
/// index among equal scores.
pub open spec fn best_feature(data: Seq<Record>, sub: Seq<usize>, used: Seq<bool>, f: int) -> bool {
    &&& 0 <= f < used.len()
    &&& !used[f]
    &&& forall|g: int|
        0 <= g < used.len() && !used[g] ==> split_score(data, sub, f) <= #[trigger] split_score(
            data,
            sub,
            g,
        )
    &&& forall|g: int|
        0 <= g < f && !used[g] ==> split_score(data, sub, f) < #[trigger] split_score(data, sub, g)
}

/// `m` is a most frequent class of `sub`, the lowest index among equals.
pub open spec fn majority(data: Seq<Record>, sub: Seq<usize>, classes: nat, m: int) -> bool {
    &&& 0 <= m < classes
    &&& forall|c: int|
        0 <= c < classes ==> #[trigger] class_count_in(data, sub, c) <= class_count_in(data, sub, m)
    &&& forall|c: int|
        0 <= c < m ==> #[trigger] class_count_in(data, sub, c) < class_count_in(data, sub, m)
}

/// A node reached while listing the tree by levels, with the feature and value of the
/// link that led to it (0 and 0 for the root).
#[derive(Clone, Copy, Debug)]
pub struct Visit {
    pub node: usize,
    pub feature: usize,
    pub value: usize,
}

/// The children held in the first `k` slots of a branch on `feature`, in slot order.
pub open spec fn slot_visits(ch: Seq<Option<usize>>, feature: usize, k: int) -> Seq<Visit>
    decreases k,
{
    if k <= 0 {
        seq![]
    } else {
        let rest = slot_visits(ch, feature, k - 1);
        match ch[k - 1] {
            Some(c) => rest.push(Visit { node: c, feature, value: (k - 1) as usize }),
            None => rest,
        }
    }
}

/// The children of node `i`, in slot order.
pub open spec fn child_visits(nodes: Seq<Node>, i: int) -> Seq<Visit> {
    match nodes[i] {
        Node::Branch { feature, children, .. } => slot_visits(children@, feature, children@.len() as int),
        Node::Leaf { .. } => seq![],
    }
}

/// The level below `lvl`: the children of its nodes, in order.
pub open spec fn next_level(nodes: Seq<Node>, lvl: Seq<Visit>) -> Seq<Visit>
    decreases lvl.len(),
{
    if lvl.len() == 0 {
        seq![]
    } else {
        next_level(nodes, lvl.drop_last()) + child_visits(nodes, lvl.last().node as int)
    }
}

/// Every leaf names a class that some record of `data` has.
pub open spec fn leaf_classes_seen(nodes: Seq<Node>, data: Seq<Record>) -> bool {
    forall|q: int|
        0 <= q < nodes.len() && (#[trigger] nodes[q]) is Leaf ==> exists|k: int|
            0 <= k < data.len() && (#[trigger] data[k]).class == nodes[q]->class
}

/// Every branch has one slot per value of its feature's domain.
pub open spec fn slots_fit(nodes: Seq<Node>, cat: Seq<Class>) -> bool {
    forall|q: int|
        0 <= q < nodes.len() && (#[trigger] nodes[q]) is Branch ==> nodes[q]->children@.len()
            == domain_size(cat[nodes[q]->feature as int])
}

proof fn lemma_link_keeps(a: Seq<Node>, b: Seq<Node>, p: int, data: Seq<Record>, cat: Seq<Class>)
    requires
        leaf_classes_seen(a, data),
        slots_fit(a, cat),
        0 <= p < a.len(),
        a.len() == b.len(),
        a[p] is Branch,
        b[p] is Branch,
        b[p]->feature == a[p]->feature,
        b[p]->children@.len() == a[p]->children@.len(),
        forall|q: int| 0 <= q < a.len() && q != p ==> b[q] == a[q],
    ensures
        leaf_classes_seen(b, data),
        slots_fit(b, cat),
{
    assert forall|q: int| 0 <= q < b.len() && (#[trigger] b[q]) is Leaf implies exists|k: int|
        0 <= k < data.len() && (#[trigger] data[k]).class == b[q]->class by {
        assert(b[q] == a[q]);
    }
    assert forall|q: int| 0 <= q < b.len() && (#[trigger] b[q]) is Branch implies b[q]->children@.len()
        == domain_size(cat[b[q]->feature as int]) by {
        if q != p {
            assert(b[q] == a[q]);
        }
    }
}

/// The members of `sub` whose record has value `v` for feature `f`, in order.
pub open spec fn group(data: Seq<Record>, sub: Seq<usize>, f: int, v: int) -> Seq<usize>
    decreases sub.len(),
{
    if sub.len() == 0 {
        seq![]
    } else {
        let g = group(data, sub.drop_last(), f, v);
        if data[sub.last() as int].features@[f] == v {
            g.push(sub.last())
        } else {
            g
        }
    }
}

/// All members of `sub` have the class of the first.
pub open spec fn pure(data: Seq<Record>, sub: Seq<usize>) -> bool {
    forall|k: int| 0 <= k < sub.len() ==> data[(#[trigger] sub[k]) as int].class == data[sub[0] as int].class
}

/// Some feature is not used yet.
pub open spec fn has_unused(used: Seq<bool>) -> bool {
    exists|g: int| 0 <= g < used.len() && !(#[trigger] used[g])
}

/// The group of `sub` with value `v` of feature `f` gets a node: it is not empty, and it is
/// pure or has features left to split on.
pub open spec fn slot_fills(data: Seq<Record>, sub: Seq<usize>, used: Seq<bool>, f: int, v: int) -> bool {
    let g = group(data, sub, f, v);
    g.len() > 0 && (pure(data, g) || has_unused(used.update(f, true)))
}

/// Some pending frontier fills slot `v` of node `j`.
pub open spec fn pending(parents: Seq<Option<(usize, usize)>>, j: int, v: int) -> bool {
    exists|q: int| 0 <= q < parents.len() && names_slot(#[trigger] parents[q], j, v)
}

/// The frontier's parent link is slot `v` of node `j`.
pub open spec fn names_slot(x: Option<(usize, usize)>, j: int, v: int) -> bool {
    match x {
        Some((a, b)) => a == j && b == v,
        None => false,
    }
}

/// Node `j`, reached by the records `routed[j]` with features `used[j]` already split on,
/// is what the builder makes of them: a leaf of their class when they share one; else a
/// branch on the best unused feature with their majority class, whose slot `v` leads to the
/// node of the records with value `v` exactly when that group gets a node (or, while
/// building, is still pending).
pub open spec fn node_grown(
    nodes: Seq<Node>,
    data: Seq<Record>,
    classes: nat,
    routed: Seq<Seq<usize>>,
    used: Seq<Seq<bool>>,
    parents: Seq<Option<(usize, usize)>>,
    j: int,
) -> bool {
    &&& routed[j].len() > 0
    &&& match nodes[j] {
        Node::Leaf { class } => pure(data, routed[j]) && class == data[routed[j][0] as int].class,
        Node::Branch { feature, children, majority_class } => {
            &&& !pure(data, routed[j])
            &&& best_feature(data, routed[j], used[j], feature as int)
            &&& majority(data, routed[j], classes, majority_class as int)
            &&& forall|v: int|
                0 <= v < children@.len() ==> match #[trigger] children@[v] {
                    Some(c) => routed[c as int] == group(data, routed[j], feature as int, v) && used[c as int]
                        == used[j].update(feature as int, true),
                    None => pending(parents, j, v) || !slot_fills(data, routed[j], used[j], feature as int, v),
                }
        },
    }
}

/// The whole arena is what the builder makes of `data`, starting at the root with every
/// record and no feature used.
pub open spec fn grown(
    nodes: Seq<Node>,
    data: Seq<Record>,
    classes: nat,
    features: nat,
    routed: Seq<Seq<usize>>,
    used: Seq<Seq<bool>>,
    parents: Seq<Option<(usize, usize)>>,
) -> bool {
    &&& routed.len() == nodes.len()
    &&& used.len() == nodes.len()
    &&& nodes.len() > 0 ==> routed[0] == all_indices(data.len()) && used[0] == Seq::new(features, |i: int| false)
    &&& forall|j: int| 0 <= j < nodes.len() ==> (#[trigger] used[j]).len() == features && subset_ok(data, routed[j], features)
    &&& forall|j: int| 0 <= j < nodes.len() ==> #[trigger] node_grown(nodes, data, classes, routed, used, parents, j)
}

spec fn parents_of(items: Seq<Frontier>) -> Seq<Option<(usize, usize)>> {
    items.map_values(|it: Frontier| it.parent)
}

proof fn lemma_pending_push(par: Seq<Option<(usize, usize)>>, x: Option<(usize, usize)>)
    ensures
        forall|j: int, v: int| pending(par, j, v) ==> #[trigger] pending(par.push(x), j, v),
{
    assert forall|j: int, v: int| pending(par, j, v) implies #[trigger] pending(par.push(x), j, v) by {
        let q = choose|q: int| 0 <= q < par.len() && names_slot(#[trigger] par[q], j, v);
        assert(par.push(x)[q] == par[q]);
    }
}

proof fn lemma_pending_pop(par: Seq<Option<(usize, usize)>>)
    requires
        par.len() > 0,
    ensures
        forall|j: int, v: int|
            pending(par, j, v) && !names_slot(par.last(), j, v) ==> #[trigger] pending(par.drop_last(), j, v),
{
    assert forall|j: int, v: int| pending(par, j, v) && !names_slot(par.last(), j, v) implies #[trigger] pending(
        par.drop_last(),
        j,
        v,
    ) by {
        let q = choose|q: int| 0 <= q < par.len() && names_slot(#[trigger] par[q], j, v);
        assert(q < par.len() - 1);
        assert(par.drop_last()[q] == par[q]);
    }
}

proof fn lemma_keep_old(
    nodes: Seq<Node>,
    nodes2: Seq<Node>,
    data: Seq<Record>,
    classes: nat,
    features: nat,
    routed: Seq<Seq<usize>>,
    used: Seq<Seq<bool>>,
    par: Seq<Option<(usize, usize)>>,
    rn: Seq<usize>,
    un: Seq<bool>,
)
    requires
        nodes_ok(nodes, classes, features),
        grown(nodes, data, classes, features, routed, used, par),
        par.len() > 0,
        nodes2.len() == nodes.len() + 1,
        nodes2.len() <= usize::MAX,
        match par.last() {
            Some((p, v)) => {
                &&& p < nodes.len()
                &&& nodes[p as int] is Branch
                &&& nodes2[p as int] is Branch
                &&& nodes2[p as int]->feature == nodes[p as int]->feature
                &&& nodes2[p as int]->majority_class == nodes[p as int]->majority_class
                &&& v < nodes[p as int]->children@.len()
                &&& nodes2[p as int]->children@ == nodes[p as int]->children@.update(v as int, Some(nodes.len() as usize))
                &&& rn == group(data, routed[p as int], nodes[p as int]->feature as int, v as int)
                &&& un == used[p as int].update(nodes[p as int]->feature as int, true)
                &&& forall|j: int| 0 <= j < nodes.len() && j != p ==> nodes2[j] == nodes[j]
            },
            None => nodes.len() == 0,
        },
    ensures
        forall|j: int|
            0 <= j < nodes.len() ==> #[trigger] node_grown(nodes2, data, classes, routed.push(rn), used.push(un), par.drop_last(), j),
{
    let routed2 = routed.push(rn);
    let used2 = used.push(un);
    let par2 = par.drop_last();
    lemma_pending_pop(par);
    assert forall|j: int| 0 <= j < nodes.len() implies #[trigger] node_grown(nodes2, data, classes, routed2, used2, par2, j) by {
        assert(node_grown(nodes, data, classes, routed, used, par, j));
        assert(node_ok(nodes, j, classes, features));
        assert(routed2[j] == routed[j]);
        assert(used2[j] == used[j]);
        match nodes2[j] {
            Node::Branch { feature, children, majority_class } => {
                let ch = nodes[j]->children;
                assert forall|w: int| 0 <= w < children@.len() implies match #[trigger] children@[w] {
                    Some(c) => routed2[c as int] == group(data, routed2[j], feature as int, w) && used2[c as int]
                        == used2[j].update(feature as int, true),
                    None => pending(par2, j, w) || !slot_fills(data, routed2[j], used2[j], feature as int, w),
                } by {
                    match par.last() {
                        Some((p, v)) => {
                            if j == p && w == v {
                                assert(children@[w] == Some(nodes.len() as usize));
                                assert(routed2[nodes.len() as int] == rn);
                                assert(used2[nodes.len() as int] == un);
                                assert(routed2[j] == routed[p as int]);
                                assert(feature == nodes[p as int]->feature);
                                assert(routed2[(nodes.len() as usize) as int] == group(data, routed2[j], feature as int, w));
                            } else {
                                assert(children@[w] == ch@[w]);
                                assert(!names_slot(par.last(), j, w));
                                match ch@[w] {
                                    Some(c) => {
                                        assert(c < nodes.len());
                                        assert(routed[c as int] == group(data, routed[j], feature as int, w));
                                        assert(routed2[c as int] == routed[c as int]);
                                        assert(used2[c as int] == used[c as int]);
                                    },
                                    None => {
                                        assert(pending(par, j, w) || !slot_fills(data, routed[j], used[j], feature as int, w));
                                        if pending(par, j, w) {
                                            assert(pending(par2, j, w));
                                        }
                                    },
                                }
                            }
                        },
                        None => {},
                    }
                }
            },
            Node::Leaf { .. } => {},
        }
    }
}

proof fn lemma_keep_undecided(
    nodes: Seq<Node>,
    data: Seq<Record>,
    classes: nat,
    features: nat,
    routed: Seq<Seq<usize>>,
    used: Seq<Seq<bool>>,
    par: Seq<Option<(usize, usize)>>,
    sub: Seq<usize>,
    child_used: Seq<bool>,
)
    requires
        grown(nodes, data, classes, features, routed, used, par),
        par.len() > 0,
        par.last() is Some,
        match par.last() {
            Some((p, v)) => {
                &&& p < nodes.len()
                &&& nodes[p as int] is Branch
                &&& sub == group(data, routed[p as int], nodes[p as int]->feature as int, v as int)
                &&& child_used == used[p as int].update(nodes[p as int]->feature as int, true)
            },
            None => true,
        },
        sub.len() > 0,
        !pure(data, sub),
        !has_unused(child_used),
    ensures
        grown(nodes, data, classes, features, routed, used, par.drop_last()),
{
    let par2 = par.drop_last();
    lemma_pending_pop(par);
    assert forall|j: int| 0 <= j < nodes.len() implies #[trigger] node_grown(nodes, data, classes, routed, used, par2, j) by {
        assert(node_grown(nodes, data, classes, routed, used, par, j));
        match nodes[j] {
            Node::Branch { feature, children, majority_class } => {
                assert forall|w: int| 0 <= w < children@.len() implies match #[trigger] children@[w] {
                    Some(c) => routed[c as int] == group(data, routed[j], feature as int, w) && used[c as int]
                        == used[j].update(feature as int, true),
                    None => pending(par2, j, w) || !slot_fills(data, routed[j], used[j], feature as int, w),
                } by {
                    match par.last() {
                        Some((p, v)) => {
                            if j == p && w == v {
                                assert(group(data, routed[j], feature as int, w) == sub);
                                assert(used[j].update(feature as int, true) == child_used);
                            } else {
                                assert(!names_slot(par.last(), j, w));
                            }
                        },
                        None => {},
                    }
                }
            },
            Node::Leaf { .. } => {},
        }
    }
}

proof fn lemma_grown_more_pending(
    nodes: Seq<Node>,
    data: Seq<Record>,
    classes: nat,
    routed: Seq<Seq<usize>>,
    used: Seq<Seq<bool>>,
    par: Seq<Option<(usize, usize)>>,
    x: Option<(usize, usize)>,
    k: int,
)
    requires
        forall|j: int| 0 <= j < k ==> #[trigger] node_grown(nodes, data, classes, routed, used, par, j),
    ensures
        forall|j: int| 0 <= j < k ==> #[trigger] node_grown(nodes, data, classes, routed, used, par.push(x), j),
{
    lemma_pending_push(par, x);
    assert forall|j: int| 0 <= j < k implies #[trigger] node_grown(nodes, data, classes, routed, used, par.push(x), j) by {
        assert(node_grown(nodes, data, classes, routed, used, par, j));
        match nodes[j] {
            Node::Branch { feature, children, majority_class } => {
                assert forall|w: int| 0 <= w < children@.len() implies match #[trigger] children@[w] {
                    Some(c) => routed[c as int] == group(data, routed[j], feature as int, w) && used[c as int]
                        == used[j].update(feature as int, true),
                    None => pending(par.push(x), j, w) || !slot_fills(data, routed[j], used[j], feature as int, w),
                } by {
                    if children@[w] is None && pending(par, j, w) {
                        assert(pending(par.push(x), j, w));
                    }
                }
            },
            Node::Leaf { .. } => {},
        }
    }
}

proof fn lemma_links_grow(a: Seq<Node>, b: Seq<Node>, j: int)
    requires
        forall|p: int, k: int| #[trigger] links_to(a, p, k) ==> links_to(b, p, k),
        reachable(a, j),
    ensures
        reachable(b, j),
    decreases j,
{
    if j > 0 {
        let p = choose|p: int| 0 <= p < j && #[trigger] links_to(a, p, j) && reachable(a, p);
        lemma_links_grow(a, b, p);
        assert(links_to(b, p, j));
    }
}

proof fn lemma_all_live(nodes: Seq<Node>, k: int)
    requires
        0 <= k <= nodes.len(),
        forall|j: int| 0 <= j < nodes.len() ==> #[trigger] reachable(nodes, j),
    ensures
        live_count(nodes, k) == k,
    decreases k,
{
    if k > 0 {
        lemma_all_live(nodes, k - 1);
        assert(reachable(nodes, k - 1));
    }
}

/// Appending a node keeps every link.
proof fn lemma_push_links(a: Seq<Node>, x: Node)
    ensures
        forall|p: int, k: int| #[trigger] links_to(a, p, k) ==> links_to(a.push(x), p, k),
{
    assert forall|p: int, k: int| #[trigger] links_to(a, p, k) implies links_to(a.push(x), p, k) by {
        assert(a.push(x)[p] == a[p]);
    }
}

/// Filling an empty slot keeps every link.
proof fn lemma_fill_links(a: Seq<Node>, b: Seq<Node>, p: int, v: int, c: usize)
    requires
        0 <= p < a.len(),
        a.len() == b.len(),
        a[p] is Branch,
        b[p] is Branch,
        0 <= v < a[p]->children@.len(),
        a[p]->children@[v] is None,
        b[p]->children@ == a[p]->children@.update(v, Some(c)),
        forall|q: int| 0 <= q < a.len() && q != p ==> b[q] == a[q],
    ensures
        forall|q: int, k: int| #[trigger] links_to(a, q, k) ==> links_to(b, q, k),
        links_to(b, p, c as int),
{
    assert forall|q: int, k: int| #[trigger] links_to(a, q, k) implies links_to(b, q, k) by {
        if q == p {
            let w = choose|w: int| 0 <= w < a[p]->children@.len() && #[trigger] a[p]->children@[w] == Some(k as usize);
            assert(w != v);
            assert(b[p]->children@[w] == Some(k as usize));
        } else {
            assert(b[q] == a[q]);
        }
    }
    assert(b[p]->children@[v] == Some(c));
}

/// The slot each pending frontier fills is still empty.
spec fn slots_open(nodes: Seq<Node>, items: Seq<Frontier>) -> bool {
    forall|q: int| 0 <= q < items.len() ==> match (#[trigger] items[q]).parent {
        Some((p, v)) => p < nodes.len() && nodes[p as int] is Branch && v < nodes[p as int]->children@.len()
            && nodes[p as int]->children@[v as int] is None,
        None => true,
    }
}

spec fn slots_distinct(items: Seq<Frontier>) -> bool {
    forall|q1: int, q2: int|
        0 <= q1 < q2 < items.len() && (#[trigger] items[q1]).parent is Some ==> items[q1].parent != (#[trigger] items[q2]).parent
}

proof fn lemma_after_link(
    prev: Seq<Node>,
    unlinked: Seq<Node>,
    nodes: Seq<Node>,
    before: Seq<Frontier>,
    parent: Option<(usize, usize)>,
)
    requires
        forall|j: int| 0 <= j < prev.len() ==> #[trigger] reachable(prev, j),
        unlinked == prev.push(unlinked[prev.len() as int]),
        before.len() > 0,
        before.last().parent == parent,
        slots_open(prev, before),
        slots_distinct(before),
        match parent {
            Some((p, v)) => {
                &&& nodes.len() == unlinked.len()
                &&& nodes[p as int] is Branch
                &&& nodes[p as int]->feature == unlinked[p as int]->feature
                &&& nodes[p as int]->children@ == unlinked[p as int]->children@.update(v as int, Some(prev.len() as usize))
                &&& forall|q: int| 0 <= q < unlinked.len() && q != p ==> nodes[q] == unlinked[q]
            },
            None => nodes == unlinked && prev.len() == 0,
        },
        prev.len() < usize::MAX,
    ensures
        forall|j: int| 0 <= j < nodes.len() ==> #[trigger] reachable(nodes, j),
        slots_open(nodes, before.drop_last()),
{
    let idx = prev.len() as int;
    lemma_push_links(prev, unlinked[idx]);
    match parent {
        Some((p, v)) => {
            assert(slots_open(prev, before) ==> match before[before.len() - 1].parent {
                Some((p2, v2)) => p2 < prev.len() && prev[p2 as int] is Branch && v2 < prev[p2 as int]->children@.len()
                    && prev[p2 as int]->children@[v2 as int] is None,
                None => true,
            });
            assert(unlinked[p as int] == prev[p as int]);
            lemma_fill_links(unlinked, nodes, p as int, v as int, prev.len() as usize);
            assert forall|j: int| 0 <= j < nodes.len() implies #[trigger] reachable(nodes, j) by {
                if j < idx {
                    lemma_links_grow(prev, unlinked, j);
                    lemma_links_grow(unlinked, nodes, j);
                } else {
                    lemma_links_grow(prev, unlinked, p as int);
                    lemma_links_grow(unlinked, nodes, p as int);
                    assert(links_to(nodes, p as int, j));
                }
            }
            let rest = before.drop_last();
            assert forall|q: int| 0 <= q < rest.len() implies match (#[trigger] rest[q]).parent {
                Some((p2, v2)) => p2 < nodes.len() && nodes[p2 as int] is Branch && v2 < nodes[p2 as int]->children@.len()
                    && nodes[p2 as int]->children@[v2 as int] is None,
                None => true,
            } by {
                assert(rest[q] == before[q]);
                match before[q].parent {
                    Some((p2, v2)) => {
                        assert(before[q].parent != before[before.len() - 1].parent);
                        assert(unlinked[p2 as int] == prev[p2 as int]);
                    },
                    None => {},
                }
            }
        },
        None => {
            assert forall|q: int| 0 <= q < before.drop_last().len() implies match (#[trigger] before.drop_last()[q]).parent {
                Some((p2, v2)) => p2 < nodes.len() && nodes[p2 as int] is Branch && v2 < nodes[p2 as int]->children@.len()
                    && nodes[p2 as int]->children@[v2 as int] is None,
                None => true,
            } by {
                assert(before.drop_last()[q] == before[q]);
            }
        },
    }
}

/// `b` is `a` with the children of branch `s` removed.
pub open spec fn collapsed_at(a: Seq<Node>, b: Seq<Node>, s: int) -> bool {
    &&& a.len() == b.len()
    &&& 0 <= s < a.len()
    &&& a[s] is Branch
    &&& b[s] is Branch
    &&& b[s]->feature == a[s]->feature
    &&& b[s]->majority_class == a[s]->majority_class
    &&& b[s]->children@.len() == 0
    &&& forall|q: int| 0 <= q < a.len() && q != s ==> b[q] == a[q]
}

/// Branch `s` is the pruner's pick on `a`: collapsing it scores at least as well as `a` on
/// the validation records, no collapse scores better, and no earlier one scores as well.
pub open spec fn greedy_pick(a: Seq<Node>, recs: Seq<Record>, s: int) -> bool {
    &&& collapsible(a, s)
    &&& correct_count(a, recs, s) >= correct_count(a, recs, -1)
    &&& forall|q: int| collapsible(a, q) ==> #[trigger] correct_count(a, recs, q) <= correct_count(a, recs, s)
    &&& forall|q: int| 0 <= q < s && collapsible(a, q) ==> #[trigger] correct_count(a, recs, q) < correct_count(a, recs, s)
}

/// Each tree of the trace is the one before with its greedy pick collapsed.
pub open spec fn greedy_steps(trace: Seq<Seq<Node>>, recs: Seq<Record>) -> bool {
    forall|i: int| 0 <= i < trace.len() - 1 ==> #[trigger] greedy_step(trace[i], trace[i + 1], recs)
}

/// `b` is `a` with the pruner's pick collapsed.
pub open spec fn greedy_step(a: Seq<Node>, b: Seq<Node>, recs: Seq<Record>) -> bool {
    exists|s: int| greedy_pick(a, recs, s) && collapsed_at(a, b, s)
}

impl DecisionTree {
    /// The arena of nodes.
    pub closed spec fn spec_nodes(&self) -> Seq<Node> {
        self.nodes@
    }

    /// Size of the class domain that leaves and majorities index into.
    pub closed spec fn class_total(&self) -> nat {
        self.classes as nat
    }

    /// Number of features that branches may split on.
    pub closed spec fn feature_total(&self) -> nat {
        self.features as nat
    }

    pub open spec fn wf(&self) -> bool {
        nodes_ok(self.spec_nodes(), self.class_total(), self.feature_total())
    }

    /// The class that the tree gives to a record with these feature values.
    pub open spec fn spec_predict(&self, feats: Seq<usize>) -> usize {
        classify(self.spec_nodes(), feats, 0, -1)
    }

    /// An empty tree for the given numbers of classes and features.
    pub fn new(classes: usize, features: usize) -> (t: DecisionTree)
        ensures
            t.wf(),
            t.spec_nodes().len() == 0,
            t.class_total() == classes,
            t.feature_total() == features,
    {
        DecisionTree { nodes: Vec::new(), classes, features }
    }

    fn classify_with(&self, record: &Record, skip: Option<usize>) -> (r: usize)
        requires
            self.wf(),
            self.nodes@.len() > 0,
            record.features@.len() == self.features,
        ensures
            r == classify(self.nodes@, record.features@, 0, skip_index(skip)),
            r < self.classes,
    {
        let mut i: usize = 0;
        loop
            invariant
                self.wf(),
                i < self.nodes@.len(),
                record.features@.len() == self.features,
                classify(self.nodes@, record.features@, i as int, skip_index(skip)) == classify(
                    self.nodes@,
                    record.features@,
                    0,
                    skip_index(skip),
                ),
            decreases self.nodes@.len() - i,
        {
            assert(node_ok(self.nodes@, i as int, self.classes as nat, self.features as nat));
            match &self.nodes[i] {
                Node::Leaf { class } => {
                    return *class;
                },
                Node::Branch { feature, children, majority_class } => {
                    let v = record.features[*feature];
                    let skipped = match skip {
                        Some(s) => s == i,
                        None => false,
                    };
                    if skipped || v >= children.len() {
                        return *majority_class;
                    }
                    match children[v] {
                        Some(c) => {
                            i = c;
                        },
                        None => {
                            return *majority_class;
                        },
                    }
                },
            }
        }
    }

    /// Follows the record's feature values from the root to a leaf, or to a branch with
    /// no child for the value, whose majority class is then the answer.
    pub fn predict(&self, record: &Record) -> (r: usize)
        requires
            self.wf(),
            self.spec_nodes().len() > 0,
            record.features@.len() == self.feature_total(),
        ensures
            r == self.spec_predict(record.features@),
            r < self.class_total(),
    {
        self.classify_with(record, None)
    }

    /// Height of the subtree below `node_index`.
    fn max_children(&self, node_index: usize) -> (r: usize)
        requires
            self.wf(),
            node_index < self.nodes@.len(),
        ensures
            r == height(self.nodes@, node_index as int),
            1 <= r <= self.nodes@.len() - node_index,
        decreases self.nodes@.len() - node_index, 1int, 0int,
    {
        let n = self.nodes.len();
        assert(node_ok(self.nodes@, node_index as int, self.classes as nat, self.features as nat));
        match &self.nodes[node_index] {
            Node::Leaf { .. } => 1,
            Node::Branch { children, .. } => {
                let mut best: usize = 0;
                let mut k: usize = 0;
                while k < children.len()
                    invariant
                        self.wf(),
                        node_index < self.nodes@.len(),
                        self.nodes@[node_index as int] == (Node::Branch {
                            feature: self.nodes@[node_index as int]->feature,
                            children: *children,
                            majority_class: self.nodes@[node_index as int]->majority_class,
                        }),
                        k <= children@.len(),
                        best == max_child_height(self.nodes@, node_index as int, children@, k as int),
                        best < self.nodes@.len() - node_index,
                    decreases children@.len() - k,
                {
                    assert(node_ok(self.nodes@, node_index as int, self.classes as nat, self.features as nat));
                    match children[k] {
                        Some(c) => {
                            let h = self.max_children(c);
                            if h > best {
                                best = h;
                            }
                        },
                        None => {},
                    }
                    k = k + 1;
                }
                best + 1
            },
        }
    }

    /// Length, in nodes, of the longest path from the root; 0 for an empty tree.
    pub fn max_depth(&self) -> (r: usize)
        requires
            self.wf(),
        ensures
            r == height(self.spec_nodes(), 0),
            r <= self.spec_nodes().len(),
    {
        if self.nodes.len() == 0 {
            0
        } else {
            self.max_children(0)
        }
    }

    /// Marks, for each node, whether it is reachable from the root.
    fn live_marks(&self) -> (marks: Vec<bool>)
        requires
            self.wf(),
        ensures
            marks@.len() == self.nodes@.len(),
            forall|j: int| 0 <= j < marks@.len() ==> marks@[j] == reachable(self.nodes@, j),
    {
        let n = self.nodes.len();
        let mut marks: Vec<bool> = Vec::with_capacity(n);
        let mut j: usize = 0;
        while j < n
            invariant
                n == self.nodes@.len(),
                j <= n,
                marks@.len() == j,
                forall|q: int| 0 <= q < j ==> marks@[q] == (q == 0),
            decreases n - j,
        {
            marks.push(j == 0);
            j = j + 1;
        }
        let mut i: usize = 0;
        while i < n
            invariant
                self.wf(),
                n == self.nodes@.len(),
                i <= n,
                marks@.len() == n,
                forall|q: int| 0 <= q < i ==> marks@[q] == reachable(self.nodes@, q),
                forall|q: int| i <= q < n ==> marks@[q] == reached_before(self.nodes@, q, i as int),
            decreases n - i,
        {
            assert(marks@[i as int] == reachable(self.nodes@, i as int)) by {
                if i > 0 {
                    assert(reached_before(self.nodes@, i as int, i as int) == reachable(self.nodes@, i as int));
                }
            }
            let live = marks[i];
            assert(node_ok(self.nodes@, i as int, self.classes as nat, self.features as nat));
            match &self.nodes[i] {
                Node::Leaf { .. } => {
                    assert forall|q: int| i + 1 <= q < n implies marks@[q] == reached_before(self.nodes@, q, i + 1) by {
                        assert(!links_to(self.nodes@, i as int, q));
                        if reached_before(self.nodes@, q, i + 1) && q != 0 {
                            let p = choose|p: int| 0 <= p < i + 1 && #[trigger] links_to(self.nodes@, p, q) && reachable(self.nodes@, p);
                            assert(reached_before(self.nodes@, q, i as int));
                        }
                    }
                    assert(forall|q: int| 0 <= q < i + 1 ==> marks@[q] == reachable(self.nodes@, q));
                },
                Node::Branch { children, .. } => {
                    let ghost before = marks@;
                    let mut k: usize = 0;
                    while k < children.len()
                        invariant
                            self.wf(),
                            n == self.nodes@.len(),
                            i < n,
                            live == reachable(self.nodes@, i as int),
                            self.nodes@[i as int] is Branch,
                            self.nodes@[i as int]->children == *children,
                            k <= children@.len(),
                            marks@.len() == n,
                            before.len() == n,
                            forall|q: int| 0 <= q < i ==> before[q] == reachable(self.nodes@, q),
                            before[i as int] == reachable(self.nodes@, i as int),
                            forall|q: int| i < q < n ==> before[q] == reached_before(self.nodes@, q, i as int),
                            forall|q: int| 0 <= q <= i ==> marks@[q] == before[q],
                            forall|q: int| i < q < n ==> #[trigger] marks@[q] == (before[q] || (live && slot_hit(children@, k as int, q))),
                        decreases children@.len() - k,
                    {
                        assert(node_ok(self.nodes@, i as int, self.classes as nat, self.features as nat));
                        let ghost prev = marks@;
                        if live {
                            match children[k] {
                                Some(c) => {
                                    assert(children@[k as int] == Some(c));
                                    assert(i < c < n);
                                    marks.set(c, true);
                                },
                                None => {},
                            }
                        }
                        k = k + 1;
                        assert forall|q: int| i < q < n implies #[trigger] marks@[q] == (before[q] || (live && slot_hit(children@, k as int, q))) by {
                            assert(prev[q] == (before[q] || (live && slot_hit(children@, k - 1, q))));
                            if slot_hit(children@, k as int, q) {
                                let v = choose|v: int| 0 <= v < k && #[trigger] children@[v] == Some(q as usize);
                                if v < k - 1 {
                                    assert(slot_hit(children@, k - 1, q));
                                }
                            }
                            if children@[k - 1] == Some(q as usize) {
                                assert(slot_hit(children@, k as int, q));
                            }
                            if slot_hit(children@, k - 1, q) {
                                let v = choose|v: int| 0 <= v < k - 1 && #[trigger] children@[v] == Some(q as usize);
                                assert(slot_hit(children@, k as int, q));
                            }
                        }
                    }
                    assert forall|q: int| i + 1 <= q < n implies marks@[q] == reached_before(self.nodes@, q, i + 1) by {
                        if live && slot_hit(children@, children@.len() as int, q) {
                            let v = choose|v: int| 0 <= v < children@.len() && #[trigger] children@[v] == Some(q as usize);
                            assert(links_to(self.nodes@, i as int, q));
                            assert(reached_before(self.nodes@, q, i + 1));
                        }
                        if before[q] && q != 0 {
                            let p = choose|p: int| 0 <= p < i && #[trigger] links_to(self.nodes@, p, q) && reachable(self.nodes@, p);
                            assert(reached_before(self.nodes@, q, i + 1));
                        }
                        if reached_before(self.nodes@, q, i + 1) && q != 0 {
                            let p = choose|p: int| 0 <= p < i + 1 && #[trigger] links_to(self.nodes@, p, q) && reachable(self.nodes@, p);
                            if p < i {
                                assert(reached_before(self.nodes@, q, i as int));
                            } else {
                                assert(p == i);
                                assert(live);
                                assert(slot_hit(children@, children@.len() as int, q));
                            }
                        }
                    }
                    assert forall|q: int| 0 <= q < i + 1 implies marks@[q] == reachable(self.nodes@, q) by {
                        if q < i {
                            assert(marks@[q] == before[q]);
                        }
                    }
                },
            }
            i = i + 1;
        }
        marks
    }

    /// Number of nodes reachable from the root.
    pub fn count_live_nodes(&self) -> (r: usize)
        requires
            self.wf(),
        ensures
            r == live_count(self.spec_nodes(), self.spec_nodes().len() as int),
            r <= self.spec_nodes().len(),
    {
        let marks = self.live_marks();
        let mut count: usize = 0;
        let mut j: usize = 0;
        while j < marks.len()
            invariant
                marks@.len() == self.nodes@.len(),
                forall|q: int| 0 <= q < marks@.len() ==> marks@[q] == reachable(self.nodes@, q),
                j <= marks@.len(),
                count == live_count(self.nodes@, j as int),
                count <= j,
            decreases marks@.len() - j,
        {
            if marks[j] {
                count = count + 1;
            }
            j = j + 1;
        }
        count
    }

    /// Number of arena entries that pruning has cut off from the root.
    pub fn count_pruned_nodes(&self) -> (r: usize)
        requires
            self.wf(),
        ensures
            r == self.spec_nodes().len() - live_count(self.spec_nodes(), self.spec_nodes().len() as int),
    {
        self.nodes.len() - self.count_live_nodes()
    }

    /// Number of records that the tree, with `skip` collapsed, classifies correctly.
    fn test_set(&self, records: &[Record], skip: Option<usize>) -> (r: usize)
        requires
            self.wf(),
            self.nodes@.len() > 0,
            records_fit(records@, self.features as nat),
        ensures
            r == correct_count(self.nodes@, records@, skip_index(skip)),
            r <= records@.len(),
    {
        let mut hits: usize = 0;
        let mut i: usize = 0;
        while i < records.len()
            invariant
                self.wf(),
                self.nodes@.len() > 0,
                records_fit(records@, self.features as nat),
                i <= records@.len(),
                hits == correct_count(self.nodes@, records@.take(i as int), skip_index(skip)),
                hits <= i,
            decreases records@.len() - i,
        {
            let record = &records[i];
            let predicted = self.classify_with(record, skip);
            assert(records@.take(i + 1).drop_last() =~= records@.take(i as int));
            if predicted == record.class {
                hits = hits + 1;
            }
            i = i + 1;
        }
        assert(records@.take(i as int) =~= records@);
        hits
    }

    /// Number of records whose class the tree predicts.
    pub fn count_correct(&self, records: &[Record]) -> (r: usize)
        requires
            self.wf(),
            self.spec_nodes().len() > 0,
            records_fit(records@, self.feature_total()),
        ensures
            r == correct_count(self.spec_nodes(), records@, -1),
            r <= records@.len(),
    {
        self.test_set(records, None)
    }

    /// Removes the children of branch `s`, keeping its feature and majority class.
    fn collapse(&mut self, s: usize)
        requires
            old(self).wf(),
            collapsible(old(self).nodes@, s as int),
        ensures
            final(self).wf(),
            final(self).classes == old(self).classes,
            final(self).features == old(self).features,
            final(self).nodes@.len() == old(self).nodes@.len(),
            final(self).nodes@[s as int] is Branch,
            final(self).nodes@[s as int]->feature == old(self).nodes@[s as int]->feature,
            final(self).nodes@[s as int]->majority_class == old(self).nodes@[s as int]->majority_class,
            final(self).nodes@[s as int]->children@.len() == 0,
            forall|q: int| 0 <= q < old(self).nodes@.len() && q != s ==> final(self).nodes@[q] == old(self).nodes@[q],
    {
        let mut taken = Node::Leaf { class: 0 };
        std::mem::swap(&mut self.nodes[s], &mut taken);
        let cleared = match taken {
            Node::Branch { feature, majority_class, .. } => Node::Branch {
                feature,
                children: Vec::new(),
                majority_class,
            },
            Node::Leaf { class } => Node::Leaf { class },
        };
        self.nodes.set(s, cleared);
        assert forall|i: int| 0 <= i < self.nodes@.len() implies #[trigger] node_ok(self.nodes@, i, self.classes as nat, self.features as nat) by {
            assert(node_ok(old(self).nodes@, i, self.classes as nat, self.features as nat));
        }
    }

    /// Reduced-error pruning: while collapsing some branch scores at least as well on the
    /// validation records as the tree does, collapse the best such branch (the first in
    /// arena order among equals).
    pub fn prune(&mut self, validation_set: &[Record])
        requires
            old(self).wf(),
            validation_set@.len() > 0,
            records_fit(validation_set@, old(self).feature_total()),
        ensures
            final(self).wf(),
            final(self).class_total() == old(self).class_total(),
            final(self).feature_total() == old(self).feature_total(),
            pruned_from(old(self).spec_nodes(), final(self).spec_nodes()),
            old(self).spec_nodes().len() == 0 ==> final(self).spec_nodes() == old(self).spec_nodes(),
            old(self).spec_nodes().len() > 0 ==> {
                &&& correct_count(final(self).spec_nodes(), validation_set@, -1) >= correct_count(
                    old(self).spec_nodes(),
                    validation_set@,
                    -1,
                )
                &&& forall|s: int|
                    collapsible(final(self).spec_nodes(), s) ==> correct_count(
                        final(self).spec_nodes(),
                        validation_set@,
                        s,
                    ) < correct_count(final(self).spec_nodes(), validation_set@, -1)
                &&& exists|trace: Seq<Seq<Node>>|
                    trace.len() >= 1 && trace[0] == old(self).spec_nodes() && trace[trace.len() - 1] == final(self).spec_nodes()
                        && #[trigger] greedy_steps(trace, validation_set@) && trace.len() - 1 <= open_branches(
                        old(self).spec_nodes(),
                        old(self).spec_nodes().len() as int,
                    )
            },
    {
        let n = self.nodes.len();
        assert(pruned_from(self.nodes@, self.nodes@));
        if n == 0 {
            return;
        }
        let ghost start = self.nodes@;
        let ghost mut trace: Seq<Seq<Node>> = seq![start];
        loop
            invariant
                trace.len() >= 1,
                trace[0] == start,
                trace[trace.len() - 1] == self.nodes@,
                greedy_steps(trace, validation_set@),
                trace.len() - 1 + open_branches(self.nodes@, n as int) == open_branches(start, n as int),
                self.wf(),
                self.nodes@.len() == n,
                n > 0,
                self.classes == old(self).classes,
                self.features == old(self).features,
                start == old(self).nodes@,
                records_fit(validation_set@, self.features as nat),
                pruned_from(start, self.nodes@),
                correct_count(self.nodes@, validation_set@, -1) >= correct_count(start, validation_set@, -1),
            ensures
                self.wf(),
                self.classes == old(self).classes,
                self.features == old(self).features,
                pruned_from(start, self.nodes@),
                correct_count(self.nodes@, validation_set@, -1) >= correct_count(start, validation_set@, -1),
                forall|q: int| collapsible(self.nodes@, q) ==> correct_count(self.nodes@, validation_set@, q) < correct_count(self.nodes@, validation_set@, -1),
                trace.len() >= 1,
                trace[0] == start,
                trace[trace.len() - 1] == self.nodes@,
                greedy_steps(trace, validation_set@),
                trace.len() - 1 + open_branches(self.nodes@, n as int) == open_branches(start, n as int),
            decreases open_branches(self.nodes@, n as int),
        {
            let current = self.test_set(validation_set, None);
            let mut best: Option<(usize, usize)> = None;
            let mut s: usize = 0;
            while s < n
                invariant
                    self.wf(),
                    self.nodes@.len() == n,
                    n > 0,
                    records_fit(validation_set@, self.features as nat),
                    s <= n,
                    match best {
                        Some((b, score)) => collapsible(self.nodes@, b as int) && b < s
                            && score == correct_count(self.nodes@, validation_set@, b as int)
                            && (forall|q: int| 0 <= q < b && collapsible(self.nodes@, q) ==> correct_count(self.nodes@, validation_set@, q) < score),
                        None => true,
                    },
                    forall|q: int| 0 <= q < s && collapsible(self.nodes@, q) ==> match best {
                        Some((b, score)) => correct_count(self.nodes@, validation_set@, q) <= score,
                        None => false,
                    },
                decreases n - s,
            {
                let open = match &self.nodes[s] {
                    Node::Branch { children, .. } => has_child(children),
                    Node::Leaf { .. } => false,
                };
                if open {
                    let score = self.test_set(validation_set, Some(s));
                    let better = match best {
                        Some((_, top)) => score > top,
                        None => true,
                    };
                    if better {
                        best = Some((s, score));
                    }
                }
                s = s + 1;
            }
            match best {
                Some((b, score)) => {
                    if score < current {
                        assert forall|q: int| collapsible(self.nodes@, q) implies correct_count(self.nodes@, validation_set@, q) < correct_count(self.nodes@, validation_set@, -1) by {
                            assert(0 <= q < n);
                        }
                        break;
                    }
                    let ghost prev = self.nodes@;
                    assert(greedy_pick(prev, validation_set@, b as int)) by {
                        assert forall|q: int| collapsible(prev, q) implies #[trigger] correct_count(prev, validation_set@, q) <= correct_count(prev, validation_set@, b as int) by {
                            assert(0 <= q < n);
                        }
                    }
                    self.collapse(b);
                    proof {
                        assert(collapsed_at(prev, self.nodes@, b as int));
                        let old_trace = trace;
                        trace = trace.push(self.nodes@);
                        assert(greedy_step(prev, self.nodes@, validation_set@));
                        assert forall|i: int| 0 <= i < trace.len() - 1 implies #[trigger] greedy_step(trace[i], trace[i + 1], validation_set@) by {
                            if i < old_trace.len() - 1 {
                                assert(trace[i] == old_trace[i]);
                                assert(trace[i + 1] == old_trace[i + 1]);
                                assert(greedy_step(old_trace[i], old_trace[i + 1], validation_set@));
                            } else {
                                assert(trace[i] == prev);
                            }
                        }
                        assert(greedy_steps(trace, validation_set@));
                        assert(trace[trace.len() - 1] == self.nodes@);
                        lemma_correct_collapsed(prev, self.nodes@, validation_set@, b as int);
                        lemma_open_branches_drop(prev, self.nodes@, b as int, n as int);
                        assert forall|i: int| 0 <= i < start.len() implies #[trigger] self.nodes@[i] == start[i] || (start[i] is Branch
                            && self.nodes@[i] is Branch && self.nodes@[i]->feature == start[i]->feature
                            && self.nodes@[i]->majority_class == start[i]->majority_class
                            && self.nodes@[i]->children@.len() == 0) by {
                            assert(prev[i] == start[i] || (start[i] is Branch && prev[i] is Branch));
                        }
                    }
                },
                None => {
                    assert forall|q: int| collapsible(self.nodes@, q) implies correct_count(self.nodes@, validation_set@, q) < correct_count(self.nodes@, validation_set@, -1) by {
                        assert(0 <= q < n);
                    }
                    break;
                },
            }
        }
    }

    /// Makes slot `v` of branch `p` point to node `child`.
    fn link_child(&mut self, p: usize, v: usize, child: usize)
        requires
            old(self).wf(),
            p < child < old(self).nodes@.len(),
            old(self).nodes@[p as int] is Branch,
            v < old(self).nodes@[p as int]->children@.len(),
        ensures
            final(self).wf(),
            final(self).classes == old(self).classes,
            final(self).features == old(self).features,
            final(self).nodes@.len() == old(self).nodes@.len(),
            final(self).nodes@[p as int] is Branch,
            final(self).nodes@[p as int]->feature == old(self).nodes@[p as int]->feature,
            final(self).nodes@[p as int]->majority_class == old(self).nodes@[p as int]->majority_class,
            final(self).nodes@[p as int]->children@ == old(self).nodes@[p as int]->children@.update(v as int, Some(child)),
            forall|q: int| 0 <= q < old(self).nodes@.len() && q != p ==> final(self).nodes@[q] == old(self).nodes@[q],
    {
        let mut taken = Node::Leaf { class: 0 };
        std::mem::swap(&mut self.nodes[p], &mut taken);
        let linked = match taken {
            Node::Branch { feature, mut children, majority_class } => {
                children.set(v, Some(child));
                Node::Branch { feature, children, majority_class }
            },
            Node::Leaf { class } => Node::Leaf { class },
        };
        self.nodes.set(p, linked);
        assert forall|i: int| 0 <= i < self.nodes@.len() implies #[trigger] node_ok(self.nodes@, i, self.classes as nat, self.features as nat) by {
            assert(node_ok(old(self).nodes@, i, self.classes as nat, self.features as nat));
        }
    }

    /// Builds the tree for `data` from scratch with an explicit work stack. A frontier whose
    /// records share one class becomes a leaf; otherwise it becomes a branch on the unused
    /// feature with the lowest split score, with one frontier per non-empty group of values;
    /// when every feature is used and classes still differ, no node is made and the parent's
    /// majority class answers for those records. Each new node is linked into its parent's
    /// slot once appended.
    pub fn train(&mut self, data: &[Record], class_tags: &Vec<Class>)
        requires
            valid_catalog(class_tags@),
            data@.len() > 0,
            valid_records(class_tags@, data@),
        ensures
            final(self).wf(),
            final(self).class_total() == class_count(class_tags@),
            final(self).feature_total() == feature_count(class_tags@),
            leaf_classes_seen(final(self).spec_nodes(), data@),
            slots_fit(final(self).spec_nodes(), class_tags@),
            live_count(final(self).spec_nodes(), final(self).spec_nodes().len() as int) == final(self).spec_nodes().len(),
            exists|routed: Seq<Seq<usize>>, used: Seq<Seq<bool>>|
                grown(
                    final(self).spec_nodes(),
                    data@,
                    class_count(class_tags@),
                    feature_count(class_tags@),
                    routed,
                    used,
                    seq![],
                ),
            single_class(data@) ==> final(self).spec_nodes() == seq![Node::Leaf { class: data@[0].class }],
            !single_class(data@) && feature_count(class_tags@) == 0 ==> final(self).spec_nodes().len() == 0,
            !single_class(data@) && feature_count(class_tags@) > 0 ==> {
                let root = final(self).spec_nodes()[0];
                &&& final(self).spec_nodes().len() > 0
                &&& root is Branch
                &&& best_feature(
                    data@,
                    all_indices(data@.len()),
                    Seq::new(feature_count(class_tags@), |i: int| false),
                    root->feature as int,
                )
                &&& majority(data@, all_indices(data@.len()), class_count(class_tags@), root->majority_class as int)
            },
    {
        let features = class_tags.len() - 1;
        let classes = domain_len(&class_tags[features]);
        self.nodes = Vec::new();
        self.classes = classes;
        self.features = features;
        let ghost cat = class_tags@;
        let ghost base: nat = max_domain(cat, features as int) + 1;
        let mut no_flags: Vec<bool> = Vec::with_capacity(features);
        let mut i: usize = 0;
        while i < features
            invariant
                i <= features,
                no_flags@ == Seq::new(i as nat, |j: int| false),
            decreases features - i,
        {
            no_flags.push(false);
            i = i + 1;
            assert(no_flags@ =~= Seq::new(i as nat, |j: int| false));
        }
        let everything = index_range(data.len());
        assert forall|k: int| 0 <= k < everything@.len() implies (#[trigger] everything@[k]) < data@.len()
            && data@[everything@[k] as int].features@.len() == features by {
            assert(valid_record(cat, data@[k]));
        }
        let mut stack: Vec<Frontier> = Vec::new();
        stack.push(Frontier { used: no_flags, subset: everything, parent: None });
        let mut first = true;
        let ghost mut routed: Seq<Seq<usize>> = seq![];
        let ghost mut used_of: Seq<Seq<bool>> = seq![];
        while stack.len() > 0
            invariant
                forall|j: int| 0 <= j < self.nodes@.len() ==> #[trigger] reachable(self.nodes@, j),
                slots_open(self.nodes@, stack@),
                slots_distinct(stack@),
                grown(self.nodes@, data@, classes as nat, features as nat, routed, used_of, parents_of(stack@)),
                forall|j: int| 0 <= j < stack@.len() ==> match (#[trigger] stack@[j]).parent {
                    Some((p, v)) => p < self.nodes@.len() && self.nodes@[p as int] is Branch && stack@[j].subset@ == group(
                        data@,
                        routed[p as int],
                        self.nodes@[p as int]->feature as int,
                        v as int,
                    ) && stack@[j].used@ == used_of[p as int].update(self.nodes@[p as int]->feature as int, true),
                    None => first,
                },
                self.wf(),
                self.classes == classes,
                self.features == features,
                classes == class_count(cat),
                features == feature_count(cat),
                cat == class_tags@,
                valid_catalog(cat),
                valid_records(cat, data@),
                data@.len() > 0,
                leaf_classes_seen(self.nodes@, data@),
                slots_fit(self.nodes@, cat),
                base == max_domain(cat, features as int) + 1,
                forall|j: int| 0 <= j < stack@.len() ==> {
                    let item = #[trigger] stack@[j];
                    &&& item.used@.len() == features
                    &&& item.subset@.len() > 0
                    &&& subset_ok(data@, item.subset@, features as nat)
                    &&& match item.parent {
                        Some((p, v)) => p < self.nodes@.len() && self.nodes@[p as int] is Branch
                            && v < self.nodes@[p as int]->children@.len(),
                        None => true,
                    }
                },
                first ==> self.nodes@.len() == 0 && stack@.len() == 1 && stack@[0].subset@ == all_indices(data@.len())
                    && stack@[0].used@ == Seq::new(features as nat, |j: int| false) && stack@[0].parent is None,
                !first && single_class(data@) ==> self.nodes@ == seq![Node::Leaf { class: data@[0].class }] && stack@.len() == 0,
                !first && !single_class(data@) && features == 0 ==> self.nodes@.len() == 0 && stack@.len() == 0,
                !first && !single_class(data@) && features > 0 ==> {
                    let root = self.nodes@[0];
                    &&& self.nodes@.len() > 0
                    &&& root is Branch
                    &&& best_feature(data@, all_indices(data@.len()), Seq::new(features as nat, |i: int| false), root->feature as int)
                    &&& majority(data@, all_indices(data@.len()), classes as nat, root->majority_class as int)
                },
            decreases stack_weight(stack@, base),
        {
            let ghost before = stack@;
            let item = stack.pop().unwrap();
            assert(before.drop_last() == stack@);
            assert(before.last() == item);
            let ghost par = parents_of(before);
            assert(parents_of(stack@) =~= par.drop_last());
            assert(par.last() == item.parent);
            let ghost item_subset = item.subset@;
            let ghost item_used = item.used@;
            let ghost rest_weight = stack_weight(stack@, base);
            let ghost r = unused_count(item.used@);
            proof {
                lemma_weight_pos(base, r);
            }
            let Frontier { used, subset, parent } = item;
            assert(subset@.len() > 0);
            assert forall|k: int| 0 <= k < subset@.len() implies (#[trigger] subset@[k]) < data@.len()
                && data@[subset@[k] as int].class < classes by {
                assert(valid_record(cat, data@[subset@[k] as int]));
            }
            let dist = build_distribution(data, &subset, classes);
            let majority_class = majority_of(&dist);
            let same_class = all_same_class(data, &subset);
            let ghost was_first = first;
            assert(majority(data@, subset@, classes as nat, majority_class as int)) by {
                assert forall|c: int| 0 <= c < classes implies #[trigger] class_count_in(data@, subset@, c) == dist@[c] by {}
            }
            assert(same_class == pure(data@, subset@));
            if same_class {
                let idx = self.nodes.len();
                let leaf_class = data[subset[0]].class;
                let ghost prev_nodes = self.nodes@;
                self.nodes.push(Node::Leaf { class: leaf_class });
                assert forall|q: int| 0 <= q < self.nodes@.len() implies #[trigger] node_ok(self.nodes@, q, classes as nat, features as nat) by {
                    if q < idx {
                        assert(node_ok(prev_nodes, q, classes as nat, features as nat));
                        assert(self.nodes@[q] == prev_nodes[q]);
                    }
                }
                assert(leaf_classes_seen(self.nodes@, data@)) by {
                    assert forall|q: int| 0 <= q < self.nodes@.len() && (#[trigger] self.nodes@[q]) is Leaf implies exists|k: int|
                        0 <= k < data@.len() && (#[trigger] data@[k]).class == self.nodes@[q]->class by {
                        if q < idx {
                            assert(self.nodes@[q] == prev_nodes[q]);
                        } else {
                            assert(data@[subset@[0] as int].class == self.nodes@[q]->class);
                        }
                    }
                }
                assert(slots_fit(self.nodes@, cat)) by {
                    assert forall|q: int| 0 <= q < self.nodes@.len() && (#[trigger] self.nodes@[q]) is Branch implies self.nodes@[q]->children@.len()
                        == domain_size(cat[self.nodes@[q]->feature as int]) by {
                        assert(self.nodes@[q] == prev_nodes[q]);
                    }
                }
                let ghost unlinked = self.nodes@;
                match parent {
                    Some((p, v)) => {
                        self.link_child(p, v, idx);
                        proof {
                            lemma_link_keeps(unlinked, self.nodes@, p as int, data@, cat);
                        }
                    },
                    None => {},
                }
                let arena_len = self.nodes.len();
                proof {
                    assert(unlinked =~= prev_nodes.push(unlinked[prev_nodes.len() as int]));
                    lemma_after_link(prev_nodes, unlinked, self.nodes@, before, parent);
                    assert(arena_len == self.nodes@.len());
                    lemma_keep_old(prev_nodes, self.nodes@, data@, classes as nat, features as nat, routed, used_of, par, subset@, used@);
                    routed = routed.push(subset@);
                    used_of = used_of.push(used@);
                    assert(node_grown(self.nodes@, data@, classes as nat, routed, used_of, par.drop_last(), idx as int));
                    assert(parents_of(stack@) == par.drop_last());
                    assert forall|j: int| 0 <= j < self.nodes@.len() implies (#[trigger] used_of[j]).len() == features && subset_ok(data@, routed[j], features as nat) by {
                        if j < idx {
                            assert(used_of[j] == used_of.drop_last()[j]);
                        }
                    }
                }
                proof {
                    if was_first {
                        assert(single_class(data@)) by {
                            assert forall|k: int| 0 <= k < data@.len() implies (#[trigger] data@[k]).class == data@[0].class by {
                                assert(subset@[k] == k);
                                assert(subset@[0] == 0);
                            }
                        }
                        assert(self.nodes@ =~= seq![Node::Leaf { class: data@[0].class }]);
                    }
                }
            } else {
                let chosen = choose_feature(data, &subset, &used);
                match chosen {
                    Some(f) => {
                        let idx = self.nodes.len();
                        let width = domain_len(&class_tags[f]);
                        let slots = empty_slots(width);
                        let ghost prev_nodes = self.nodes@;
                        self.nodes.push(Node::Branch { feature: f, children: slots, majority_class });
                        assert forall|q: int| 0 <= q < self.nodes@.len() implies #[trigger] node_ok(self.nodes@, q, classes as nat, features as nat) by {
                            if q < idx {
                                assert(node_ok(prev_nodes, q, classes as nat, features as nat));
                        assert(self.nodes@[q] == prev_nodes[q]);
                            }
                        }
                        assert(leaf_classes_seen(self.nodes@, data@)) by {
                            assert forall|q: int| 0 <= q < self.nodes@.len() && (#[trigger] self.nodes@[q]) is Leaf implies exists|k: int|
                                0 <= k < data@.len() && (#[trigger] data@[k]).class == self.nodes@[q]->class by {
                                assert(self.nodes@[q] == prev_nodes[q]);
                            }
                        }
                        assert(slots_fit(self.nodes@, cat)) by {
                            assert forall|q: int| 0 <= q < self.nodes@.len() && (#[trigger] self.nodes@[q]) is Branch implies self.nodes@[q]->children@.len()
                                == domain_size(cat[self.nodes@[q]->feature as int]) by {
                                if q < idx {
                                    assert(self.nodes@[q] == prev_nodes[q]);
                                }
                            }
                        }
                        let ghost unlinked = self.nodes@;
                        match parent {
                            Some((p, v)) => {
                                self.link_child(p, v, idx);
                                proof {
                                    lemma_link_keeps(unlinked, self.nodes@, p as int, data@, cat);
                                }
                            },
                            None => {},
                        }
                        let arena_len = self.nodes.len();
                        proof {
                            assert(unlinked =~= prev_nodes.push(unlinked[prev_nodes.len() as int]));
                            lemma_after_link(prev_nodes, unlinked, self.nodes@, before, parent);
                            assert(arena_len == self.nodes@.len());
                            lemma_keep_old(prev_nodes, self.nodes@, data@, classes as nat, features as nat, routed, used_of, par, subset@, used@);
                            routed = routed.push(subset@);
                            used_of = used_of.push(used@);
                            assert forall|j: int| 0 <= j < self.nodes@.len() implies (#[trigger] used_of[j]).len() == features && subset_ok(data@, routed[j], features as nat) by {
                                if j < idx {
                                    assert(used_of[j] == used_of.drop_last()[j]);
                                }
                            }
                        }
                        let ghost used_view = used@;
                        let mut child_used = used;
                        proof {
                            lemma_unused_update(child_used@, f as int);
                            lemma_max_domain(cat, features as int, f as int);
                        }
                        child_used.set(f, true);
                        let ghost w_child = weight(base, unused_count(child_used@));
                        proof {
                            lemma_weight_pos(base, unused_count(child_used@));
                            assert(weight(base, r) == base * w_child);
                        }
                        let mut v: usize = 0;
                        while v < width
                            invariant
                                self.wf(),
                                self.classes == classes,
                                self.features == features,
                                leaf_classes_seen(self.nodes@, data@),
                                slots_fit(self.nodes@, cat),
                                idx < self.nodes@.len(),
                                self.nodes@[idx as int] is Branch,
                                self.nodes@[idx as int]->children@.len() == width,
                                f < features,
                                child_used@.len() == features,
                                subset_ok(data@, subset@, features as nat),
                                v <= width,
                                width < base,
                                w_child == weight(base, unused_count(child_used@)),
                                stack_weight(stack@, base) <= rest_weight + v * w_child,
                                routed.len() == self.nodes@.len(),
                                used_of.len() == self.nodes@.len(),
                                idx + 1 == self.nodes@.len(),
                                forall|j: int| 0 <= j < self.nodes@.len() ==> #[trigger] reachable(self.nodes@, j),
                                slots_open(self.nodes@, stack@),
                                slots_distinct(stack@),
                                forall|q: int| 0 <= q < stack@.len() ==> match (#[trigger] stack@[q]).parent {
                                    Some((p, w)) => p == idx ==> w < v,
                                    None => true,
                                },
                                routed[idx as int] == subset@,
                                used_of[idx as int] == used_view,
                                child_used@ == used_view.update(f as int, true),
                                self.nodes@[idx as int] == (Node::Branch { feature: f, children: self.nodes@[idx as int]->children, majority_class }),
                                forall|w: int| 0 <= w < width ==> (#[trigger] self.nodes@[idx as int]->children@[w]) is None,
                                self.nodes@.len() > 0 ==> routed[0] == all_indices(data@.len()) && used_of[0] == Seq::new(features as nat, |i: int| false),
                                forall|j: int| 0 <= j < self.nodes@.len() ==> (#[trigger] used_of[j]).len() == features && subset_ok(data@, routed[j], features as nat),
                                forall|j: int| 0 <= j < idx ==> #[trigger] node_grown(self.nodes@, data@, classes as nat, routed, used_of, parents_of(stack@), j),
                                forall|w: int| 0 <= w < v ==> #[trigger] pending(parents_of(stack@), idx as int, w) || !slot_fills(data@, subset@, used_view, f as int, w),
                                forall|j: int| 0 <= j < stack@.len() ==> match (#[trigger] stack@[j]).parent {
                                    Some((p, v)) => p < self.nodes@.len() && self.nodes@[p as int] is Branch && stack@[j].subset@ == group(
                                        data@,
                                        routed[p as int],
                                        self.nodes@[p as int]->feature as int,
                                        v as int,
                                    ) && stack@[j].used@ == used_of[p as int].update(self.nodes@[p as int]->feature as int, true),
                                    None => false,
                                },
                                forall|j: int| 0 <= j < stack@.len() ==> {
                                    let item = #[trigger] stack@[j];
                                    &&& item.used@.len() == features
                                    &&& item.subset@.len() > 0
                                    &&& subset_ok(data@, item.subset@, features as nat)
                                    &&& match item.parent {
                                        Some((p, v)) => p < self.nodes@.len() && self.nodes@[p as int] is Branch
                                            && v < self.nodes@[p as int]->children@.len(),
                                        None => true,
                                    }
                                },
                            decreases width - v,
                        {
                            let members = filter_group(data, &subset, f, v, features);
                            if members.len() > 0 {
                                let flags = copy_flags(&child_used);
                                let ghost prev = stack@;
                                stack.push(Frontier { used: flags, subset: members, parent: Some((idx, v)) });
                                assert(stack@.drop_last() == prev);
                                proof {
                                    assert(parents_of(stack@) =~= parents_of(prev).push(Some((idx, v))));
                                    lemma_grown_more_pending(self.nodes@, data@, classes as nat, routed, used_of, parents_of(prev), Some((idx, v)), idx as int);
                                    lemma_pending_push(parents_of(prev), Some((idx, v)));
                                    assert(names_slot(parents_of(stack@)[prev.len() as int], idx as int, v as int));
                                    assert(pending(parents_of(stack@), idx as int, v as int));
                                }
                            } else {
                                assert(!slot_fills(data@, subset@, used_view, f as int, v as int));
                            }
                            assert((v + 1) * w_child == v * w_child + w_child) by (nonlinear_arith);
                            v = v + 1;
                        }
                        assert(width * w_child < base * w_child) by (nonlinear_arith)
                            requires
                                width < base,
                                w_child >= 1,
                        ;
                        proof {
                            if was_first {
                                assert(subset@ == all_indices(data@.len()));
                                assert forall|c: int| 0 <= c < classes implies #[trigger] class_count_in(data@, subset@, c) == dist@[c] by {}
                            }
                            let nodes = self.nodes@;
                            let ch = nodes[idx as int]->children;
                            assert forall|w: int| 0 <= w < ch@.len() implies match #[trigger] ch@[w] {
                                Some(c) => routed[c as int] == group(data@, routed[idx as int], f as int, w) && used_of[c as int]
                                    == used_of[idx as int].update(f as int, true),
                                None => pending(parents_of(stack@), idx as int, w) || !slot_fills(data@, routed[idx as int], used_of[idx as int], f as int, w),
                            } by {
                                assert(ch@[w] is None);
                            }
                            assert(node_grown(nodes, data@, classes as nat, routed, used_of, parents_of(stack@), idx as int));
                            assert forall|j: int| 0 <= j < nodes.len() implies #[trigger] node_grown(nodes, data@, classes as nat, routed, used_of, parents_of(stack@), j) by {
                                if j < idx {
                                }
                            }
                        }
                    },
                    None => {
                        proof {
                            match parent {
                                Some((p, v)) => {
                                    assert(!has_unused(used@));
                                    assert(before[before.len() - 1].parent == parent);
                                    lemma_keep_undecided(self.nodes@, data@, classes as nat, features as nat, routed, used_of, par, subset@, used@);
                                },
                                None => {
                                    assert(self.nodes@.len() == 0);
                                },
                            }
                        }
                    },
                }
            }
            first = false;
        }
        assert(parents_of(stack@) =~= seq![]);
        assert(grown(self.nodes@, data@, classes as nat, features as nat, routed, used_of, seq![]));
        proof {
            lemma_all_live(self.nodes@, self.nodes@.len() as int);
        }
    }

    /// Number of entries in the arena, reachable or not.
    pub fn node_count(&self) -> (r: usize)
        ensures
            r == self.spec_nodes().len(),
    {
        self.nodes.len()
    }

    /// The arena, for reading.
    pub fn nodes(&self) -> (r: &Vec<Node>)
        ensures
            r@ == self.spec_nodes(),
    {
        &self.nodes
    }

    fn level_below(&self, lvl: &Vec<Visit>) -> (r: Vec<Visit>)
        requires
            self.wf(),
            forall|j: int| 0 <= j < lvl@.len() ==> (#[trigger] lvl@[j]).node < self.nodes@.len(),
        ensures
            r@ == next_level(self.nodes@, lvl@),
            forall|j: int| 0 <= j < r@.len() ==> (#[trigger] r@[j]).node < self.nodes@.len(),
    {
        let mut out: Vec<Visit> = Vec::new();
        let mut j: usize = 0;
        while j < lvl.len()
            invariant
                self.wf(),
                forall|q: int| 0 <= q < lvl@.len() ==> (#[trigger] lvl@[q]).node < self.nodes@.len(),
                j <= lvl@.len(),
                out@ == next_level(self.nodes@, lvl@.take(j as int)),
                forall|q: int| 0 <= q < out@.len() ==> (#[trigger] out@[q]).node < self.nodes@.len(),
            decreases lvl@.len() - j,
        {
            let i = lvl[j].node;
            assert(lvl@.take(j + 1).drop_last() =~= lvl@.take(j as int));
            assert(node_ok(self.nodes@, i as int, self.classes as nat, self.features as nat));
            let ghost base = out@;
            match &self.nodes[i] {
                Node::Branch { feature, children, .. } => {
                    let mut k: usize = 0;
                    while k < children.len()
                        invariant
                            self.wf(),
                            i < self.nodes@.len(),
                            self.nodes@[i as int] is Branch,
                            self.nodes@[i as int]->children == *children,
                            self.nodes@[i as int]->feature == *feature,
                            k <= children@.len(),
                            out@ == base + slot_visits(children@, *feature, k as int),
                            forall|q: int| 0 <= q < out@.len() ==> (#[trigger] out@[q]).node < self.nodes@.len(),
                        decreases children@.len() - k,
                    {
                        assert(node_ok(self.nodes@, i as int, self.classes as nat, self.features as nat));
                        match children[k] {
                            Some(c) => {
                                assert(children@[k as int] == Some(c));
                                out.push(Visit { node: c, feature: *feature, value: k });
                            },
                            None => {},
                        }
                        k = k + 1;
                        assert(out@ =~= base + slot_visits(children@, *feature, k as int));
                    }
                },
                Node::Leaf { .. } => {
                    assert(out@ =~= base + seq![]);
                },
            }
            j = j + 1;
        }
        assert(lvl@.take(j as int) =~= lvl@);
        out
    }

    /// The tree level by level from the root, at most `depth` levels, stopping early when a
    /// level has no children.
    pub fn levels(&self, depth: usize) -> (r: Vec<Vec<Visit>>)
        requires
            self.wf(),
        ensures
            r@.len() <= depth,
            self.spec_nodes().len() == 0 || depth == 0 ==> r@.len() == 0,
            self.spec_nodes().len() > 0 && depth > 0 ==> r@.len() >= 1 && r@[0]@ == seq![
                Visit { node: 0, feature: 0, value: 0 },
            ],
            forall|k: int| 0 <= k && k + 1 < r@.len() ==> (#[trigger] r@[k + 1])@ == next_level(self.spec_nodes(), r@[k]@),
            forall|k: int| 0 <= k < r@.len() ==> (#[trigger] r@[k])@.len() > 0,
            0 < r@.len() < depth ==> next_level(self.spec_nodes(), r@.last()@).len() == 0,
    {
        let mut out: Vec<Vec<Visit>> = Vec::new();
        if self.nodes.len() == 0 || depth == 0 {
            return out;
        }
        let mut root: Vec<Visit> = Vec::new();
        root.push(Visit { node: 0, feature: 0, value: 0 });
        assert(root@ =~= seq![Visit { node: 0, feature: 0, value: 0 }]);
        out.push(root);
        while out.len() < depth
            invariant
                self.wf(),
                1 <= out@.len() <= depth,
                out@[0]@ == seq![Visit { node: 0, feature: 0, value: 0 }],
                self.nodes@.len() > 0,
                forall|k: int| 0 <= k && k + 1 < out@.len() ==> (#[trigger] out@[k + 1])@ == next_level(self.nodes@, out@[k]@),
                forall|k: int| 0 <= k < out@.len() ==> (#[trigger] out@[k])@.len() > 0,
                forall|k: int, q: int| 0 <= k < out@.len() && 0 <= q < out@[k]@.len() ==> (#[trigger] out@[k]@[q]).node < self.nodes@.len(),
            ensures
                1 <= out@.len() <= depth,
                out@[0]@ == seq![Visit { node: 0, feature: 0, value: 0 }],
                forall|k: int| 0 <= k && k + 1 < out@.len() ==> (#[trigger] out@[k + 1])@ == next_level(self.nodes@, out@[k]@),
                forall|k: int| 0 <= k < out@.len() ==> (#[trigger] out@[k])@.len() > 0,
                out@.len() < depth ==> next_level(self.nodes@, out@.last()@).len() == 0,
            decreases depth - out@.len(),
        {
            let last = out.len() - 1;
            let next = self.level_below(&out[last]);
            if next.len() == 0 {
                break;
            }
            let ghost prev = out@;
            out.push(next);
            assert forall|k: int| 0 <= k && k + 1 < out@.len() implies (#[trigger] out@[k + 1])@ == next_level(self.nodes@, out@[k]@) by {
                if k + 1 < prev.len() {
                    assert(out@[k + 1] == prev[k + 1]);
                    assert(out@[k] == prev[k]);
                }
            }
        }
        out
    }
}

impl Default for DecisionTree {
    /// A tree with no nodes, to be trained.
    fn default() -> (t: DecisionTree)
        ensures
            t.wf(),
            t.spec_nodes().len() == 0,
    {
        DecisionTree::new(0, 0)
    }
}

pub open spec fn skip_index(skip: Option<usize>) -> int {
    match skip {
        Some(s) => s as int,
        None => -1,
    }
}


/// Whether any slot of the mapping holds a child.
fn has_child(children: &Vec<Option<usize>>) -> (r: bool)
    ensures
        r == has_links(children@),
{
    let mut k: usize = 0;
    while k < children.len()
        invariant
            k <= children@.len(),
            forall|v: int| 0 <= v < k ==> (#[trigger] children@[v]) is None,
        decreases children@.len() - k,
    {
        if children[k].is_some() {
            return true;
        }
        k = k + 1;
    }
    false
}


fn copy_flags(s: &Vec<bool>) -> (r: Vec<bool>)
    ensures
        r@ == s@,
{
    let mut r: Vec<bool> = Vec::with_capacity(s.len());
    let mut i: usize = 0;
    while i < s.len()
        invariant
            i <= s@.len(),
            r@ == s@.take(i as int),
        decreases s@.len() - i,
    {
        r.push(s[i]);
        i = i + 1;
        assert(r@ =~= s@.take(i as int));
    }
    assert(r@ =~= s@);
    r
}

fn index_range(n: usize) -> (r: Vec<usize>)
    ensures
        r@ == all_indices(n as nat),
{
    let mut r: Vec<usize> = Vec::with_capacity(n);
    let mut i: usize = 0;
    while i < n
        invariant
            i <= n,
            r@ == all_indices(i as nat),
        decreases n - i,
    {
        r.push(i);
        i = i + 1;
        assert(r@ =~= all_indices(i as nat));
    }
    r
}

fn empty_slots(n: usize) -> (r: Vec<Option<usize>>)
    ensures
        r@.len() == n,
        forall|v: int| 0 <= v < n ==> (#[trigger] r@[v]) is None,
{
    let mut r: Vec<Option<usize>> = Vec::with_capacity(n);
    let mut i: usize = 0;
    while i < n
        invariant
            i <= n,
            r@.len() == i,
            forall|v: int| 0 <= v < i ==> (#[trigger] r@[v]) is None,
        decreases n - i,
    {
        r.push(None);
        i = i + 1;
    }
    r
}

/// Whether every member of the non-empty `sub` has the class of the first.
fn all_same_class(data: &[Record], sub: &Vec<usize>) -> (r: bool)
    requires
        sub@.len() > 0,
        forall|k: int| 0 <= k < sub@.len() ==> (#[trigger] sub@[k]) < data@.len(),
    ensures
        r == forall|k: int|
            0 <= k < sub@.len() ==> data@[(#[trigger] sub@[k]) as int].class == data@[sub@[0] as int].class,
{
    let first = data[sub[0]].class;
    let mut k: usize = 1;
    while k < sub.len()
        invariant
            1 <= k <= sub@.len(),
            first == data@[sub@[0] as int].class,
            forall|q: int| 0 <= q < sub@.len() ==> (#[trigger] sub@[q]) < data@.len(),
            forall|q: int| 0 <= q < k ==> data@[(#[trigger] sub@[q]) as int].class == first,
        decreases sub@.len() - k,
    {
        if data[sub[k]].class != first {
            return false;
        }
        k = k + 1;
    }
    true
}

/// Index of the largest count, the lowest among equals.
fn majority_of(dist: &Vec<usize>) -> (r: usize)
    requires
        dist@.len() > 0,
    ensures
        r < dist@.len(),
        forall|c: int| 0 <= c < dist@.len() ==> #[trigger] dist@[c] <= dist@[r as int],
        forall|c: int| 0 <= c < r ==> #[trigger] dist@[c] < dist@[r as int],
{
    let mut best: usize = 0;
    let mut c: usize = 1;
    while c < dist.len()
        invariant
            1 <= c <= dist@.len(),
            best < c,
            forall|q: int| 0 <= q < c ==> #[trigger] dist@[q] <= dist@[best as int],
            forall|q: int| 0 <= q < best ==> #[trigger] dist@[q] < dist@[best as int],
        decreases dist@.len() - c,
    {
        if dist[c] > dist[best] {
            best = c;
        }
        c = c + 1;
    }
    best
}

/// The unused feature with the lowest split score, the lowest index among equals; `None`
/// when every feature is used. The score weighs entropy with `log2_fixed`, the base-2
/// logarithm truncated to 16 fractional bits, so features whose exact weighted entropies
/// differ by less than that precision may rank in the other order.
fn choose_feature(data: &[Record], sub: &Vec<usize>, used: &Vec<bool>) -> (r: Option<usize>)
    requires
        subset_ok(data@, sub@, used@.len()),
    ensures
        match r {
            Some(f) => best_feature(data@, sub@, used@, f as int),
            None => forall|g: int| 0 <= g < used@.len() ==> used@[g],
        },
{
    let mut best: Option<(usize, i128)> = None;
    let mut g: usize = 0;
    while g < used.len()
        invariant
            subset_ok(data@, sub@, used@.len()),
            g <= used@.len(),
            match best {
                Some((f, score)) => 0 <= f < g && !used@[f as int] && score == split_score(data@, sub@, f as int)
                    && (forall|h: int| 0 <= h < g && !used@[h] ==> score <= #[trigger] split_score(data@, sub@, h))
                    && (forall|h: int| 0 <= h < f && !used@[h] ==> score < #[trigger] split_score(data@, sub@, h)),
                None => forall|h: int| 0 <= h < g ==> used@[h],
            },
        decreases used@.len() - g,
    {
        if !used[g] {
            let score = split_score_of(data, sub, g, used.len());
            let better = match best {
                Some((_, top)) => score < top,
                None => true,
            };
            if better {
                best = Some((g, score));
            }
        }
        g = g + 1;
    }
    match best {
        Some((f, _)) => Some(f),
        None => None,
    }
}

/// The members of `sub` whose record has value `v` for feature `f`, in order.
fn filter_group(data: &[Record], sub: &Vec<usize>, f: usize, v: usize, features: usize) -> (r: Vec<usize>)
    requires
        subset_ok(data@, sub@, features as nat),
        f < features,
    ensures
        subset_ok(data@, r@, features as nat),
        r@ == group(data@, sub@, f as int, v as int),
{
    let mut r: Vec<usize> = Vec::new();
    let mut k: usize = 0;
    while k < sub.len()
        invariant
            subset_ok(data@, sub@, features as nat),
            f < features,
            k <= sub@.len(),
            subset_ok(data@, r@, features as nat),
            r@ == group(data@, sub@.take(k as int), f as int, v as int),
        decreases sub@.len() - k,
    {
        let idx = sub[k];
        assert(sub@.take(k + 1).drop_last() =~= sub@.take(k as int));
        if data[idx].features[f] == v {
            r.push(idx);
            assert forall|q: int| 0 <= q < r@.len() implies (#[trigger] r@[q]) < data@.len() && data@[r@[q] as int].features@.len() == features by {
                if q < r@.len() - 1 {
                    assert(r@[q] == r@.drop_last()[q]);
                }
            }
        }
        k = k + 1;
    }
    assert(sub@.take(k as int) =~= sub@);
    r
}

} // verus!
