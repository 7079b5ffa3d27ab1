//! The mathematical shape of a node tree.

use vstd::prelude::*;
use crate::node::Node;

verus! {

broadcast use vstd::seq::group_seq_axioms, vstd::std_specs::vec::group_vec_axioms;

/// The mathematical shape of one node: identity, metadata and subtree.
pub struct NodeModel {
    pub id: Seq<char>,
    pub title: Seq<char>,
    pub after: Option<Seq<char>>,
    pub children: Seq<NodeModel>,
}

/// The shape of a node, subtree included.
pub open spec fn node_model(n: Node) -> NodeModel
    decreases n,
{
    NodeModel {
        id: n.id@,
        title: n.meta.title@,
        after: n.meta.after.deep_view(),
        children: node_models(n.children@),
    }
}

/// The shapes of a node list, in order.
pub open spec fn node_models(v: Seq<Node>) -> Seq<NodeModel>
    decreases v,
{
    if v.len() == 0 {
        Seq::empty()
    } else {
        seq![node_model(v[0])] + node_models(v.drop_first())
    }
}

/// `node_models` is an index-for-index map.
pub proof fn lemma_node_models_index(v: Seq<Node>)
    ensures
        node_models(v).len() == v.len(),
        forall|i: int| 0 <= i < v.len() ==> #[trigger] node_models(v)[i] == node_model(v[i]),
    decreases v.len(),
{
    if v.len() > 0 {
        lemma_node_models_index(v.drop_first());
        assert forall|i: int| 0 <= i < v.len() implies #[trigger] node_models(v)[i] == node_model(
            v[i],
        ) by {
            if i > 0 {
                assert(v.drop_first()[i - 1] == v[i]);
                assert(node_models(v)[i] == node_models(v.drop_first())[i - 1]);
            }
        }
    }
}

/// Pushing one node extends the model list by one model.
pub proof fn lemma_node_models_push(v: Seq<Node>, x: Node)
    ensures
        node_models(v.push(x)) == node_models(v).push(node_model(x)),
{
    lemma_node_models_index(v);
    lemma_node_models_index(v.push(x));
    assert(node_models(v.push(x)) =~= node_models(v).push(node_model(x)));
}

/// The model of a concatenation is the concatenation of the models.
pub proof fn lemma_node_models_add(a: Seq<Node>, b: Seq<Node>)
    ensures
        node_models(a + b) == node_models(a) + node_models(b),
{
    lemma_node_models_index(a);
    lemma_node_models_index(b);
    lemma_node_models_index(a + b);
    assert(node_models(a + b) =~= node_models(a) + node_models(b));
}

// ---------------------------------------------------------------------------
// Sibling ordering at the model level
// ---------------------------------------------------------------------------

/// Some already-placed model has this id.
pub open spec fn m_placed_contains(placed: Seq<NodeModel>, id: Seq<char>) -> bool {
    exists|k: int| 0 <= k < placed.len() && placed[k].id == id
}

/// A model may be placed once its predecessor (if any) has been placed.
pub open spec fn m_can_place(n: NodeModel, placed: Seq<NodeModel>) -> bool {
    match n.after {
        None => true,
        Some(a) => m_placed_contains(placed, a),
    }
}

/// The models of `remaining` that may be placed now, in input order.
pub open spec fn m_placeable_of(remaining: Seq<NodeModel>, placed: Seq<NodeModel>) -> Seq<
    NodeModel,
> {
    remaining.filter(|n: NodeModel| m_can_place(n, placed))
}

/// The models of `remaining` that may not be placed yet, in input order.
pub open spec fn m_blocked_of(remaining: Seq<NodeModel>, placed: Seq<NodeModel>) -> Seq<
    NodeModel,
> {
    remaining.filter(|n: NodeModel| !m_can_place(n, placed))
}

/// The two sides of a model partition together have the input's length.
pub proof fn lemma_m_partition_len(remaining: Seq<NodeModel>, placed: Seq<NodeModel>)
    ensures
        m_placeable_of(remaining, placed).len() + m_blocked_of(remaining, placed).len()
            == remaining.len(),
    decreases remaining.len(),
{
    reveal(Seq::filter);
    if remaining.len() > 0 {
        lemma_m_partition_len(remaining.drop_last(), placed);
    }
}

/// One round of model placement after another, as the executable sort does.
pub open spec fn m_sort_rounds(remaining: Seq<NodeModel>, placed: Seq<NodeModel>) -> Seq<
    NodeModel,
>
    decreases remaining.len() via m_sort_rounds_decreases
{
    if remaining.len() == 0 {
        placed
    } else {
        let now = m_placeable_of(remaining, placed);
        if now.len() == 0 {
            placed + remaining
        } else {
            m_sort_rounds(m_blocked_of(remaining, placed), placed + now)
        }
    }
}

#[via_fn]
proof fn m_sort_rounds_decreases(remaining: Seq<NodeModel>, placed: Seq<NodeModel>) {
    lemma_m_partition_len(remaining, placed);
}

/// The sibling order of a model list.
pub open spec fn m_sort(nodes: Seq<NodeModel>) -> Seq<NodeModel> {
    m_sort_rounds(nodes, Seq::empty())
}

/// Placement does not look below the surface: a node may be placed exactly
/// when its model may.
pub proof fn lemma_can_place_commutes(n: Node, placed: Seq<Node>)
    ensures
        crate::order::can_place(n, placed) == m_can_place(node_model(n), node_models(placed)),
{
    lemma_node_models_index(placed);
    match n.meta.after {
        None => {},
        Some(a) => {
            if crate::order::placed_contains(placed, a@) {
                let k = choose|k: int|
                    0 <= k < placed.len() && placed[k].id@ == a@;
                assert(node_models(placed)[k].id == a@);
            }
            if m_placed_contains(node_models(placed), a@) {
                let k = choose|k: int|
                    0 <= k < node_models(placed).len() && node_models(placed)[k].id == a@;
                assert(placed[k].id@ == a@);
            }
        },
    }
}

/// Partitioning commutes with taking models.
pub proof fn lemma_partition_commutes(rem: Seq<Node>, placed: Seq<Node>)
    ensures
        node_models(crate::order::placeable_of(rem, placed)) == m_placeable_of(
            node_models(rem),
            node_models(placed),
        ),
        node_models(crate::order::blocked_of(rem, placed)) == m_blocked_of(
            node_models(rem),
            node_models(placed),
        ),
    decreases rem.len(),
{
    reveal(Seq::filter);
    lemma_node_models_index(rem);
    if rem.len() == 0 {
        assert(node_models(rem) =~= Seq::<NodeModel>::empty());
        assert(node_models(crate::order::placeable_of(rem, placed)) =~= m_placeable_of(
            node_models(rem),
            node_models(placed),
        ));
        assert(node_models(crate::order::blocked_of(rem, placed)) =~= m_blocked_of(
            node_models(rem),
            node_models(placed),
        ));
    } else {
        let t = rem.drop_last();
        lemma_partition_commutes(t, placed);
        lemma_node_models_index(t);
        assert(node_models(rem).drop_last() =~= node_models(t));
        assert(node_models(rem).last() == node_model(rem.last()));
        lemma_can_place_commutes(rem.last(), placed);
        if crate::order::can_place(rem.last(), placed) {
            lemma_node_models_push(crate::order::placeable_of(t, placed), rem.last());
        } else {
            lemma_node_models_push(crate::order::blocked_of(t, placed), rem.last());
        }
    }
}

/// Sorting commutes with taking models.
pub proof fn lemma_sort_rounds_commutes(rem: Seq<Node>, placed: Seq<Node>)
    ensures
        node_models(crate::order::sort_rounds(rem, placed)) == m_sort_rounds(
            node_models(rem),
            node_models(placed),
        ),
    decreases rem.len(),
{
    lemma_node_models_index(rem);
    if rem.len() == 0 {
        assert(node_models(rem) =~= Seq::<NodeModel>::empty());
    } else {
        lemma_partition_commutes(rem, placed);
        let now = crate::order::placeable_of(rem, placed);
        let later = crate::order::blocked_of(rem, placed);
        lemma_node_models_index(now);
        if now.len() == 0 {
            assert(node_models(now) =~= Seq::<NodeModel>::empty());
            lemma_node_models_add(placed, rem);
        } else {
            crate::order::lemma_partition_len(rem, placed);
            lemma_sort_rounds_commutes(later, placed + now);
            lemma_node_models_add(placed, now);
        }
    }
}

/// The executable sibling sort realises the model-level sort.
pub proof fn lemma_sort_commutes(nodes: Seq<Node>)
    ensures
        node_models(crate::order::spec_sort_by_after(nodes)) == m_sort(node_models(nodes)),
{
    lemma_sort_rounds_commutes(nodes, Seq::empty());
    assert(node_models(Seq::<Node>::empty()) =~= Seq::<NodeModel>::empty());
}

// ---------------------------------------------------------------------------
// The forest of a store
// ---------------------------------------------------------------------------

use crate::store::EntryModel;

/// Is `m` a direct child directory of the path `p`?
pub open spec fn m_child_pred(m: EntryModel, p: Seq<Seq<char>>) -> bool {
    m.path.len() == p.len() + 1 && p.is_prefix_of(m.path)
}

/// Is `m` strictly below the path `p`?
pub open spec fn m_below_pred(m: EntryModel, p: Seq<Seq<char>>) -> bool {
    m.path.len() > p.len() && p.is_prefix_of(m.path)
}

/// The direct children of the path `p` among the entries `s`, in order.
pub open spec fn m_children_at(s: Seq<EntryModel>, p: Seq<Seq<char>>) -> Seq<EntryModel> {
    s.filter(|m: EntryModel| m_child_pred(m, p))
}

/// The entries strictly below the path `p`, in order.
pub open spec fn m_below_at(s: Seq<EntryModel>, p: Seq<Seq<char>>) -> Seq<EntryModel> {
    s.filter(|m: EntryModel| m_below_pred(m, p))
}

/// Everything below a path is at most the whole pool.
pub proof fn lemma_below_at_le(s: Seq<EntryModel>, p: Seq<Seq<char>>)
    ensures
        m_below_at(s, p).len() <= s.len(),
    decreases s.len(),
{
    reveal(Seq::filter);
    if s.len() > 0 {
        lemma_below_at_le(s.drop_last(), p);
    }
}

/// A pool member is never below its own path, so its subtree pool shrinks.
pub proof fn lemma_below_at_lt(s: Seq<EntryModel>, c: EntryModel)
    requires
        s.contains(c),
    ensures
        m_below_at(s, c.path).len() < s.len(),
    decreases s.len(),
{
    reveal(Seq::filter);
    assert(!m_below_pred(c, c.path));
    if s.last() == c {
        lemma_below_at_le(s.drop_last(), c.path);
    } else {
        assert(s.drop_last().contains(c)) by {
            let k = choose|k: int| 0 <= k < s.len() && s[k] == c;
            assert(s.drop_last()[k] == c);
        }
        lemma_below_at_lt(s.drop_last(), c);
    }
}

/// The children list never exceeds the pool.
pub proof fn lemma_children_at_le(s: Seq<EntryModel>, p: Seq<Seq<char>>)
    ensures
        m_children_at(s, p).len() <= s.len(),
    decreases s.len(),
{
    reveal(Seq::filter);
    if s.len() > 0 {
        lemma_children_at_le(s.drop_last(), p);
    }
}

/// Each child comes from the pool.
pub proof fn lemma_children_at_contains(s: Seq<EntryModel>, p: Seq<Seq<char>>, k: int)
    requires
        0 <= k < m_children_at(s, p).len(),
    ensures
        s.contains(m_children_at(s, p)[k]),
    decreases s.len(),
{
    reveal(Seq::filter);
    if s.len() > 0 {
        let t = s.drop_last();
        let cs = m_children_at(s, p);
        if m_child_pred(s.last(), p) && k == cs.len() - 1 {
            assert(cs[k] == s.last());
            assert(s[s.len() - 1] == s.last());
        } else {
            lemma_children_at_contains(t, p, k);
            let j = choose|j: int| 0 <= j < t.len() && t[j] == m_children_at(t, p)[k];
            assert(s[j] == m_children_at(t, p)[k]);
        }
    }
}

/// Appending one entry extends the child list when it is a direct child.
pub proof fn lemma_children_at_push(t: Seq<EntryModel>, x: EntryModel, p: Seq<Seq<char>>)
    ensures
        m_children_at(t.push(x), p) == if m_child_pred(x, p) {
            m_children_at(t, p).push(x)
        } else {
            m_children_at(t, p)
        },
{
    reveal(Seq::filter);
    assert(t.push(x).drop_last() =~= t);
}

/// Appending one entry extends the below-list when it lies below the path.
pub proof fn lemma_below_at_push(t: Seq<EntryModel>, x: EntryModel, p: Seq<Seq<char>>)
    ensures
        m_below_at(t.push(x), p) == if m_below_pred(x, p) {
            m_below_at(t, p).push(x)
        } else {
            m_below_at(t, p)
        },
{
    reveal(Seq::filter);
    assert(t.push(x).drop_last() =~= t);
}

/// The nodes built from a child list: each child's subtree is built from
/// the pool entries below it.
pub open spec fn m_build_nodes(cs: Seq<EntryModel>, s: Seq<EntryModel>) -> Seq<NodeModel>
    decreases s.len(), cs.len(), 0int via m_build_nodes_decreases
{
    if cs.len() == 0 {
        Seq::empty()
    } else {
        let c = cs[0];
        let children = if s.contains(c) {
            m_forest_at(m_below_at(s, c.path), c.path)
        } else {
            Seq::empty()
        };
        seq![NodeModel { id: c.id, title: c.title, after: c.after, children }] + m_build_nodes(
            cs.drop_first(),
            s,
        )
    }
}

#[via_fn]
proof fn m_build_nodes_decreases(cs: Seq<EntryModel>, s: Seq<EntryModel>) {
    if cs.len() > 0 {
        let c = cs[0];
        if s.contains(c) {
            lemma_below_at_lt(s, c);
        }
    }
}

/// The forest of the pool `s` at the path `p`: its direct children, each
/// with its subtree, the sibling group sorted by `after`.
pub open spec fn m_forest_at(s: Seq<EntryModel>, p: Seq<Seq<char>>) -> Seq<NodeModel>
    decreases s.len(), s.len(), 1int via m_forest_at_decreases
{
    m_sort(m_build_nodes(m_children_at(s, p), s))
}

#[via_fn]
proof fn m_forest_at_decreases(s: Seq<EntryModel>, p: Seq<Seq<char>>) {
    lemma_children_at_le(s, p);
}

/// Extending a child list builds one more node.
pub proof fn lemma_build_nodes_push(cs: Seq<EntryModel>, x: EntryModel, s: Seq<EntryModel>)
    ensures
        m_build_nodes(cs.push(x), s) == m_build_nodes(cs, s).push(
            NodeModel {
                id: x.id,
                title: x.title,
                after: x.after,
                children: if s.contains(x) {
                    m_forest_at(m_below_at(s, x.path), x.path)
                } else {
                    Seq::empty()
                },
            },
        ),
    decreases cs.len(),
{
    let xn = NodeModel {
        id: x.id,
        title: x.title,
        after: x.after,
        children: if s.contains(x) {
            m_forest_at(m_below_at(s, x.path), x.path)
        } else {
            Seq::empty()
        },
    };
    if cs.len() == 0 {
        assert(cs.push(x)[0] == x);
        assert(cs.push(x).drop_first() =~= Seq::<EntryModel>::empty());
        assert(m_build_nodes(cs.push(x).drop_first(), s) =~= Seq::<NodeModel>::empty());
        assert(m_build_nodes(cs.push(x), s) =~= m_build_nodes(cs, s).push(xn));
    } else {
        assert(cs.push(x)[0] == cs[0]);
        assert(cs.push(x).drop_first() =~= cs.drop_first().push(x));
        lemma_build_nodes_push(cs.drop_first(), x, s);
        assert(m_build_nodes(cs.push(x), s) =~= m_build_nodes(cs, s).push(xn));
    }
}

// ---------------------------------------------------------------------------
// Flattening
// ---------------------------------------------------------------------------

/// The depth-first (descend-then-siblings) list of `(id, title)` pairs of a
/// forest.
pub open spec fn m_flatten_forest(f: Seq<NodeModel>) -> Seq<(Seq<char>, Seq<char>)>
    decreases f,
{
    if f.len() == 0 {
        Seq::empty()
    } else {
        seq![(f[0].id, f[0].title)] + m_flatten_forest(f[0].children) + m_flatten_forest(
            f.drop_first(),
        )
    }
}

/// Flattening a concatenation concatenates the flattenings.
pub proof fn lemma_flatten_forest_add(a: Seq<NodeModel>, b: Seq<NodeModel>)
    ensures
        m_flatten_forest(a + b) == m_flatten_forest(a) + m_flatten_forest(b),
    decreases a,
{
    if a.len() == 0 {
        assert(a + b =~= b);
        assert(m_flatten_forest(a) =~= Seq::<(Seq<char>, Seq<char>)>::empty());
        assert(m_flatten_forest(a) + m_flatten_forest(b) =~= m_flatten_forest(b));
    } else {
        assert((a + b)[0] == a[0]);
        assert((a + b).drop_first() =~= a.drop_first() + b);
        lemma_flatten_forest_add(a.drop_first(), b);
        assert(m_flatten_forest(a + b) =~= m_flatten_forest(a) + m_flatten_forest(b));
    }
}

} // verus!
