//! Sibling ordering: a topological sort of a node list driven by `after`
//! predecessor references.
//!
//! Rounds of placement: any node whose `after` is absent or already placed
//! moves to the output, in input order; when a round places nothing (a cycle
//! or a dangling reference), the remainder is appended in its original
//! relative order, so the sort always terminates and never drops a node.

use vstd::prelude::*;
use crate::node::Node;
use crate::store::NodeManager;
use crate::text::str_eq;
use vstd::multiset::Multiset;

verus! {

/// Some already-placed node has this id.
pub open spec fn placed_contains(placed: Seq<Node>, id: Seq<char>) -> bool {
    exists|k: int| 0 <= k < placed.len() && placed[k].id@ == id
}

/// A node may be placed once its predecessor (if any) has been placed.
pub open spec fn can_place(n: Node, placed: Seq<Node>) -> bool {
    match n.meta.after {
        None => true,
        Some(a) => placed_contains(placed, a@),
    }
}

/// The nodes of `remaining` that may be placed now, in input order.
pub open spec fn placeable_of(remaining: Seq<Node>, placed: Seq<Node>) -> Seq<Node> {
    remaining.filter(|n: Node| can_place(n, placed))
}

/// The nodes of `remaining` that may not be placed yet, in input order.
pub open spec fn blocked_of(remaining: Seq<Node>, placed: Seq<Node>) -> Seq<Node> {
    remaining.filter(|n: Node| !can_place(n, placed))
}

/// Appending one node extends a partition according to its placeability.
pub proof fn lemma_partition_push(t: Seq<Node>, x: Node, placed: Seq<Node>)
    ensures
        placeable_of(t.push(x), placed) == if can_place(x, placed) {
            placeable_of(t, placed).push(x)
        } else {
            placeable_of(t, placed)
        },
        blocked_of(t.push(x), placed) == if can_place(x, placed) {
            blocked_of(t, placed)
        } else {
            blocked_of(t, placed).push(x)
        },
{
    reveal(Seq::filter);
    assert(t.push(x).drop_last() =~= t);
}

/// The two sides of a partition together have the length of the input.
pub proof fn lemma_partition_len(remaining: Seq<Node>, placed: Seq<Node>)
    ensures
        placeable_of(remaining, placed).len() + blocked_of(remaining, placed).len()
            == remaining.len(),
    decreases remaining.len(),
{
    reveal(Seq::filter);
    if remaining.len() > 0 {
        lemma_partition_len(remaining.drop_last(), placed);
    }
}

/// When nothing is placeable, everything is blocked, unchanged.
pub proof fn lemma_blocked_all(remaining: Seq<Node>, placed: Seq<Node>)
    requires
        placeable_of(remaining, placed).len() == 0,
    ensures
        blocked_of(remaining, placed) == remaining,
    decreases remaining.len(),
{
    reveal(Seq::filter);
    if remaining.len() > 0 {
        lemma_blocked_all(remaining.drop_last(), placed);
        assert(blocked_of(remaining, placed) =~= remaining);
    }
}

/// When everything is placeable, nothing is blocked, and the placeable side
/// is the input unchanged.
pub proof fn lemma_placeable_all(remaining: Seq<Node>, placed: Seq<Node>)
    requires
        forall|i: int| 0 <= i < remaining.len() ==> can_place(#[trigger] remaining[i], placed),
    ensures
        placeable_of(remaining, placed) == remaining,
        blocked_of(remaining, placed).len() == 0,
    decreases remaining.len(),
{
    reveal(Seq::filter);
    if remaining.len() > 0 {
        assert(remaining.drop_last() =~= remaining.drop_last());
        assert forall|i: int| 0 <= i < remaining.drop_last().len() implies can_place(
            #[trigger] remaining.drop_last()[i],
            placed,
        ) by {
            assert(remaining.drop_last()[i] == remaining[i]);
        }
        lemma_placeable_all(remaining.drop_last(), placed);
        assert(can_place(remaining.last(), placed));
        assert(placeable_of(remaining, placed) =~= remaining);
    }
}

/// When nothing can be placed, the placeable side is empty.
pub proof fn lemma_placeable_none(remaining: Seq<Node>, placed: Seq<Node>)
    requires
        forall|i: int| 0 <= i < remaining.len() ==> !can_place(#[trigger] remaining[i], placed),
    ensures
        placeable_of(remaining, placed).len() == 0,
    decreases remaining.len(),
{
    reveal(Seq::filter);
    if remaining.len() > 0 {
        assert forall|i: int| 0 <= i < remaining.drop_last().len() implies !can_place(
            #[trigger] remaining.drop_last()[i],
            placed,
        ) by {
            assert(remaining.drop_last()[i] == remaining[i]);
        }
        lemma_placeable_none(remaining.drop_last(), placed);
        assert(!can_place(remaining.last(), placed));
    }
}

/// One round of placement after another, until the remainder is empty or
/// stuck; a stuck remainder is appended as it stands.
pub open spec fn sort_rounds(remaining: Seq<Node>, placed: Seq<Node>) -> Seq<Node>
    decreases remaining.len() via sort_rounds_decreases
{
    if remaining.len() == 0 {
        placed
    } else {
        let now = placeable_of(remaining, placed);
        if now.len() == 0 {
            placed + remaining
        } else {
            sort_rounds(blocked_of(remaining, placed), placed + now)
        }
    }
}

#[via_fn]
proof fn sort_rounds_decreases(remaining: Seq<Node>, placed: Seq<Node>) {
    lemma_partition_len(remaining, placed);
}

/// The sibling order of a node list, as produced by round-based placement.
pub open spec fn spec_sort_by_after(nodes: Seq<Node>) -> Seq<Node> {
    sort_rounds(nodes, Seq::empty())
}

// ---------------------------------------------------------------------------
// Laws of the sibling order
// ---------------------------------------------------------------------------

/// Ordering stability without dependencies: a sibling set whose nodes all
/// lack an `after` reference is returned in its original input order.
pub proof fn lemma_sort_all_unordered(nodes: Seq<Node>)
    requires
        forall|i: int| 0 <= i < nodes.len() ==> (#[trigger] nodes[i]).meta.after is None,
    ensures
        spec_sort_by_after(nodes) == nodes,
{
    if nodes.len() == 0 {
        assert(spec_sort_by_after(nodes) =~= nodes);
    } else {
        assert forall|i: int| 0 <= i < nodes.len() implies can_place(
            #[trigger] nodes[i],
            Seq::<Node>::empty(),
        ) by {}
        lemma_placeable_all(nodes, Seq::empty());
        assert(spec_sort_by_after(nodes) == sort_rounds(
            blocked_of(nodes, Seq::empty()),
            Seq::empty() + nodes,
        ));
        assert(blocked_of(nodes, Seq::empty()).len() == 0) by {
            lemma_partition_len(nodes, Seq::empty());
        }
        assert(sort_rounds(blocked_of(nodes, Seq::empty()), Seq::empty() + nodes) == Seq::empty()
            + nodes);
        assert(Seq::empty() + nodes =~= nodes);
    }
}

/// Cycle tolerance: when every node names a predecessor (as in a reference
/// cycle, or with dangling references), no first node can ever be placed;
/// the sort terminates at once and returns the set unchanged, in its
/// original order.
pub proof fn lemma_sort_all_blocked(nodes: Seq<Node>)
    requires
        forall|i: int| 0 <= i < nodes.len() ==> (#[trigger] nodes[i]).meta.after is Some,
    ensures
        spec_sort_by_after(nodes) == nodes,
{
    if nodes.len() == 0 {
        assert(spec_sort_by_after(nodes) =~= nodes);
    } else {
        assert forall|i: int| 0 <= i < nodes.len() implies !can_place(
            #[trigger] nodes[i],
            Seq::<Node>::empty(),
        ) by {
            assert(!placed_contains(Seq::<Node>::empty(), nodes[i].meta.after->0@));
        }
        lemma_placeable_none(nodes, Seq::empty());
        assert(spec_sort_by_after(nodes) == Seq::empty() + nodes);
        assert(Seq::empty() + nodes =~= nodes);
    }
}

/// Evaluate one placement partition on a two-node remainder.
proof fn lemma_partition_two(x: Node, y: Node, placed: Seq<Node>)
    ensures
        placeable_of(seq![x, y], placed) == (if can_place(x, placed) && can_place(y, placed) {
            seq![x, y]
        } else if can_place(x, placed) {
            seq![x]
        } else if can_place(y, placed) {
            seq![y]
        } else {
            Seq::<Node>::empty()
        }),
        blocked_of(seq![x, y], placed) == (if !can_place(x, placed) && !can_place(y, placed) {
            seq![x, y]
        } else if !can_place(x, placed) {
            seq![x]
        } else if !can_place(y, placed) {
            seq![y]
        } else {
            Seq::<Node>::empty()
        }),
{
    reveal(Seq::filter);
    let e = Seq::<Node>::empty();
    assert(e.push(x) =~= seq![x]);
    lemma_partition_push(e, x, placed);
    assert(seq![x].push(y) =~= seq![x, y]);
    lemma_partition_push(seq![x], y, placed);
    assert(placeable_of(e, placed) =~= e);
    assert(blocked_of(e, placed) =~= e);
    if can_place(x, placed) {
        assert(placeable_of(seq![x], placed) =~= seq![x]);
        assert(blocked_of(seq![x], placed) =~= e);
    } else {
        assert(placeable_of(seq![x], placed) =~= e);
        assert(blocked_of(seq![x], placed) =~= seq![x]);
    }
    if can_place(y, placed) {
        if can_place(x, placed) {
            assert(placeable_of(seq![x, y], placed) =~= seq![x, y]);
        } else {
            assert(placeable_of(seq![x, y], placed) =~= seq![y]);
        }
    } else {
        if can_place(x, placed) {
            assert(blocked_of(seq![x, y], placed) =~= seq![y]);
        } else {
            assert(blocked_of(seq![x, y], placed) =~= seq![x, y]);
        }
    }
}

/// Evaluate one placement partition on a three-node remainder.
proof fn lemma_partition_three(x: Node, y: Node, z: Node, placed: Seq<Node>)
    requires
        can_place(x, placed),
        !can_place(y, placed),
        !can_place(z, placed),
    ensures
        placeable_of(seq![x, y, z], placed) == seq![x],
        blocked_of(seq![x, y, z], placed) == seq![y, z],
{
    reveal(Seq::filter);
    lemma_partition_two(x, y, placed);
    assert(seq![x, y].push(z) =~= seq![x, y, z]);
    lemma_partition_push(seq![x, y], z, placed);
    assert(placeable_of(seq![x, y, z], placed) =~= seq![x]);
    assert(blocked_of(seq![x, y, z], placed) =~= seq![y, z]);
}

/// The chain conditions: `a` first, `b` after `a`, `c` after `b`, with
/// three distinct ids.
pub open spec fn chain_of_three(a: Node, b: Node, c: Node) -> bool {
    &&& a.meta.after is None
    &&& b.meta.after matches Some(x) && x@ == a.id@
    &&& c.meta.after matches Some(y) && y@ == b.id@
    &&& a.id@ != b.id@
    &&& b.id@ != c.id@
    &&& a.id@ != c.id@
}

/// The tail of the chain sort: once `a` is placed, `b` and then `c` follow,
/// whatever their relative input order.
proof fn lemma_sort_chain_tail(a: Node, b: Node, c: Node, rem: Seq<Node>)
    requires
        chain_of_three(a, b, c),
        rem == seq![b, c] || rem == seq![c, b],
    ensures
        sort_rounds(rem, seq![a]) == seq![a, b, c],
{
    reveal(Seq::filter);
    assert(can_place(b, seq![a])) by {
        assert(seq![a][0].id@ == a.id@);
    }
    assert(!can_place(c, seq![a])) by {
        assert(!placed_contains(seq![a], c.meta.after->0@));
    }
    if rem == seq![b, c] {
        lemma_partition_two(b, c, seq![a]);
        assert(placeable_of(rem, seq![a]) == seq![b]);
        assert(blocked_of(rem, seq![a]) == seq![c]);
    } else {
        lemma_partition_two(c, b, seq![a]);
        assert(placeable_of(rem, seq![a]) == seq![b]);
        assert(blocked_of(rem, seq![a]) == seq![c]);
    }
    assert(sort_rounds(rem, seq![a]) == sort_rounds(seq![c], seq![a] + seq![b]));
    assert(seq![a] + seq![b] =~= seq![a, b]);
    assert(can_place(c, seq![a, b])) by {
        assert(seq![a, b][1].id@ == b.id@);
    }
    assert(Seq::<Node>::empty().push(c) =~= seq![c]);
    lemma_partition_push(Seq::<Node>::empty(), c, seq![a, b]);
    assert(placeable_of(Seq::<Node>::empty(), seq![a, b]) =~= Seq::<Node>::empty());
    assert(blocked_of(Seq::<Node>::empty(), seq![a, b]) =~= Seq::<Node>::empty());
    assert(placeable_of(seq![c], seq![a, b]) =~= seq![c]);
    assert(blocked_of(seq![c], seq![a, b]) =~= Seq::<Node>::empty());
    assert(sort_rounds(seq![c], seq![a, b]) == sort_rounds(
        blocked_of(seq![c], seq![a, b]),
        seq![a, b] + seq![c],
    ));
    assert(seq![a, b] + seq![c] =~= seq![a, b, c]);
    assert(sort_rounds(Seq::<Node>::empty(), seq![a, b, c]) == seq![a, b, c]);
}

/// Ordering with a chain: nodes forming the chain `a`, then `b` after `a`,
/// then `c` after `b` sort to `[a, b, c]` from any input permutation.
pub proof fn lemma_sort_chain_three(s: Seq<Node>, a: Node, b: Node, c: Node)
    requires
        chain_of_three(a, b, c),
        s == seq![a, b, c] || s == seq![a, c, b] || s == seq![b, a, c] || s == seq![b, c, a] || s
            == seq![c, a, b] || s == seq![c, b, a],
    ensures
        spec_sort_by_after(s) == seq![a, b, c],
{
    let e = Seq::<Node>::empty();
    assert(can_place(a, e));
    assert(!can_place(b, e)) by {
        assert(!placed_contains(e, b.meta.after->0@));
    }
    assert(!can_place(c, e)) by {
        assert(!placed_contains(e, c.meta.after->0@));
    }
    if s == seq![a, b, c] {
        lemma_partition_three(a, b, c, e);
        assert(spec_sort_by_after(s) == sort_rounds(seq![b, c], e + seq![a]));
    } else if s == seq![a, c, b] {
        lemma_partition_three(a, c, b, e);
        assert(spec_sort_by_after(s) == sort_rounds(seq![c, b], e + seq![a]));
    } else if s == seq![b, a, c] {
        reveal(Seq::filter);
        lemma_partition_two(b, a, e);
        assert(seq![b, a].push(c) =~= seq![b, a, c]);
        lemma_partition_push(seq![b, a], c, e);
        assert(placeable_of(s, e) =~= seq![a]);
        assert(blocked_of(s, e) =~= seq![b, c]);
        assert(spec_sort_by_after(s) == sort_rounds(seq![b, c], e + seq![a]));
    } else if s == seq![b, c, a] {
        reveal(Seq::filter);
        lemma_partition_two(b, c, e);
        assert(seq![b, c].push(a) =~= seq![b, c, a]);
        lemma_partition_push(seq![b, c], a, e);
        assert(placeable_of(s, e) =~= seq![a]);
        assert(blocked_of(s, e) =~= seq![b, c]);
        assert(spec_sort_by_after(s) == sort_rounds(seq![b, c], e + seq![a]));
    } else if s == seq![c, a, b] {
        reveal(Seq::filter);
        lemma_partition_two(c, a, e);
        assert(seq![c, a].push(b) =~= seq![c, a, b]);
        lemma_partition_push(seq![c, a], b, e);
        assert(placeable_of(s, e) =~= seq![a]);
        assert(blocked_of(s, e) =~= seq![c, b]);
        assert(spec_sort_by_after(s) == sort_rounds(seq![c, b], e + seq![a]));
    } else {
        reveal(Seq::filter);
        lemma_partition_two(c, b, e);
        assert(seq![c, b].push(a) =~= seq![c, b, a]);
        lemma_partition_push(seq![c, b], a, e);
        assert(placeable_of(s, e) =~= seq![a]);
        assert(blocked_of(s, e) =~= seq![c, b]);
        assert(spec_sort_by_after(s) == sort_rounds(seq![c, b], e + seq![a]));
    }
    assert(e + seq![a] =~= seq![a]);
    if s == seq![a, b, c] || s == seq![b, a, c] || s == seq![b, c, a] {
        lemma_sort_chain_tail(a, b, c, seq![b, c]);
    } else {
        lemma_sort_chain_tail(a, b, c, seq![c, b]);
    }
}

/// The multiset of a concatenation is the sum of the multisets.
proof fn lemma_to_multiset_add(a: Seq<Node>, b: Seq<Node>)
    ensures
        (a + b).to_multiset() == a.to_multiset().add(b.to_multiset()),
    decreases b.len(),
{
    broadcast use vstd::seq_lib::group_to_multiset_ensures;

    if b.len() == 0 {
        assert(a + b =~= a);
        assert(b.to_multiset() =~= Multiset::<Node>::empty());
        assert(a.to_multiset().add(b.to_multiset()) =~= a.to_multiset());
    } else {
        lemma_to_multiset_add(a, b.drop_last());
        assert(a + b =~= (a + b.drop_last()).push(b.last()));
        assert(b =~= b.drop_last().push(b.last()));
        assert((a + b).to_multiset() =~= a.to_multiset().add(b.to_multiset()));
    }
}

/// A placement partition splits the remainder without loss or duplication.
proof fn lemma_partition_multiset(rem: Seq<Node>, placed: Seq<Node>)
    ensures
        placeable_of(rem, placed).to_multiset().add(blocked_of(rem, placed).to_multiset())
            == rem.to_multiset(),
    decreases rem.len(),
{
    broadcast use vstd::seq_lib::group_to_multiset_ensures;

    reveal(Seq::filter);
    if rem.len() == 0 {
        assert(placeable_of(rem, placed).to_multiset().add(blocked_of(rem, placed).to_multiset())
            =~= rem.to_multiset());
    } else {
        let t = rem.drop_last();
        lemma_partition_multiset(t, placed);
        assert(rem =~= t.push(rem.last()));
        assert(placeable_of(rem, placed).to_multiset().add(blocked_of(rem, placed).to_multiset())
            =~= rem.to_multiset());
    }
}

/// Rounds of placement neither drop nor duplicate nodes.
proof fn lemma_sort_rounds_multiset(rem: Seq<Node>, placed: Seq<Node>)
    ensures
        sort_rounds(rem, placed).to_multiset() == placed.to_multiset().add(rem.to_multiset()),
    decreases rem.len(),
{
    broadcast use vstd::seq_lib::group_to_multiset_ensures;

    if rem.len() == 0 {
        assert(rem.to_multiset() =~= Multiset::<Node>::empty());
        assert(placed.to_multiset().add(rem.to_multiset()) =~= placed.to_multiset());
    } else {
        let now = placeable_of(rem, placed);
        let later = blocked_of(rem, placed);
        if now.len() == 0 {
            lemma_to_multiset_add(placed, rem);
        } else {
            lemma_partition_len(rem, placed);
            lemma_sort_rounds_multiset(later, placed + now);
            lemma_to_multiset_add(placed, now);
            lemma_partition_multiset(rem, placed);
            assert((placed + now).to_multiset().add(later.to_multiset())
                =~= placed.to_multiset().add(rem.to_multiset()));
        }
    }
}

/// Termination without loss: the sort always returns a permutation of its
/// input — every node of the input appears in the output exactly as often,
/// whatever the `after` references hold.
pub proof fn lemma_sort_preserves_multiset(nodes: Seq<Node>)
    ensures
        spec_sort_by_after(nodes).to_multiset() == nodes.to_multiset(),
{
    broadcast use vstd::seq_lib::group_to_multiset_ensures;

    lemma_sort_rounds_multiset(nodes, Seq::empty());
    assert(Seq::<Node>::empty().to_multiset() =~= Multiset::<Node>::empty());
    assert(Multiset::<Node>::empty().add(nodes.to_multiset()) =~= nodes.to_multiset());
}

/// Is `id` the id of some node of `nodes`?
fn contains_id(nodes: &Vec<Node>, id: &String) -> (r: bool)
    ensures
        r == placed_contains(nodes@, id@),
{
    let mut k: usize = 0;
    while k < nodes.len()
        invariant
            0 <= k <= nodes@.len(),
            forall|j: int| 0 <= j < k ==> nodes@[j].id@ != id@,
        decreases nodes@.len() - k,
    {
        if str_eq(nodes[k].id.as_str(), id.as_str()) {
            return true;
        }
        k = k + 1;
    }
    false
}

impl NodeManager {
    /// Topological sort based on the `after` attribute.
    ///
    /// Repeatedly moves every node whose predecessor is absent or already
    /// placed into the output, in input order; if a pass places nothing, the
    /// remainder (a cycle or dangling references) is appended in its
    /// original relative order.
    pub fn sort_by_after_attribute(nodes: &mut Vec<Node>)
        ensures
            final(nodes)@ == spec_sort_by_after(old(nodes)@),
    {
        let mut sorted: Vec<Node> = Vec::new();
        proof {
            assert(sorted@ =~= Seq::<Node>::empty());
        }
        while nodes.len() > 0
            invariant
                spec_sort_by_after(old(nodes)@) == sort_rounds(nodes@, sorted@),
            decreases nodes@.len(),
        {
            let ghost round_rem = nodes@;
            let ghost round_sorted = sorted@;
            let mut now: Vec<Node> = Vec::new();
            let mut later: Vec<Node> = Vec::new();
            let ghost mut j: int = 0;
            proof {
                assert(round_rem.take(0) =~= Seq::<Node>::empty());
                reveal(Seq::filter);
            }
            while nodes.len() > 0
                invariant
                    sorted@ == round_sorted,
                    0 <= j <= round_rem.len(),
                    nodes@ =~= round_rem.skip(j),
                    now@ == placeable_of(round_rem.take(j), round_sorted),
                    later@ == blocked_of(round_rem.take(j), round_sorted),
                decreases nodes@.len(),
            {
                let n = nodes.remove(0);
                proof {
                    assert(n == round_rem[j]);
                    assert(round_rem.take(j + 1) =~= round_rem.take(j).push(round_rem[j]));
                    lemma_partition_push(round_rem.take(j), round_rem[j], round_sorted);
                    assert(nodes@ =~= round_rem.skip(j + 1));
                }
                let place = match &n.meta.after {
                    None => true,
                    Some(a) => contains_id(&sorted, a),
                };
                proof {
                    assert(place == can_place(n, round_sorted));
                }
                if place {
                    now.push(n);
                } else {
                    later.push(n);
                }
                proof {
                    j = j + 1;
                }
            }
            proof {
                assert(round_rem.take(j) =~= round_rem);
                assert(now@ == placeable_of(round_rem, round_sorted));
                assert(later@ == blocked_of(round_rem, round_sorted));
            }
            if now.len() == 0 {
                proof {
                    lemma_blocked_all(round_rem, round_sorted);
                    assert(sort_rounds(round_rem, round_sorted) == round_sorted + round_rem);
                }
                sorted.append(&mut later);
                let mut emptied: Vec<Node> = Vec::new();
                core::mem::swap(nodes, &mut emptied);
                proof {
                    assert(sorted@ == round_sorted + round_rem);
                    assert(nodes@ =~= Seq::<Node>::empty());
                    assert(sort_rounds(nodes@, sorted@) == sorted@);
                }
            } else {
                proof {
                    assert(sort_rounds(round_rem, round_sorted) == sort_rounds(
                        blocked_of(round_rem, round_sorted),
                        round_sorted + placeable_of(round_rem, round_sorted),
                    ));
                    lemma_partition_len(round_rem, round_sorted);
                }
                sorted.append(&mut now);
                core::mem::swap(nodes, &mut later);
            }
        }
        proof {
            assert(sort_rounds(nodes@, sorted@) == sorted@);
        }
        core::mem::swap(nodes, &mut sorted);
    }
}

/// The first node of `s` with the id, if any.
pub open spec fn first_node_with_id(s: Seq<Node>, id: Seq<char>) -> Option<int>
    decreases s.len(),
{
    if s.len() == 0 {
        None
    } else if s[0].id@ == id {
        Some(0)
    } else {
        match first_node_with_id(s.drop_first(), id) {
            Some(i) => Some(i + 1),
            None => None,
        }
    }
}

/// `first_node_with_id` finds the first such node, and `None` exactly when
/// the id is absent.
pub proof fn lemma_first_node_with_id_spec(s: Seq<Node>, id: Seq<char>)
    ensures
        match first_node_with_id(s, id) {
            Some(i) => 0 <= i < s.len() && s[i].id@ == id && (forall|j: int|
                0 <= j < i ==> s[j].id@ != id),
            None => forall|j: int| 0 <= j < s.len() ==> s[j].id@ != id,
        },
    decreases s.len(),
{
    if s.len() == 0 {
    } else if s[0].id@ == id {
    } else {
        let t = s.drop_first();
        lemma_first_node_with_id_spec(t, id);
        match first_node_with_id(s, id) {
            Some(i) => {
                assert(t[i - 1] == s[i]);
                assert forall|j: int| 0 <= j < i implies s[j].id@ != id by {
                    if j > 0 {
                        assert(t[j - 1] == s[j]);
                    }
                }
            },
            None => {
                assert forall|j: int| 0 <= j < s.len() implies s[j].id@ != id by {
                    if j > 0 {
                        assert(t[j - 1] == s[j]);
                    }
                }
            },
        }
    }
}

/// Take the configured starting node out of a root list: the first root
/// with the given id leaves the list and is returned, so that a listing can
/// print it first; without such a root the list is unchanged.
pub fn select_starting_node(nodes: &mut Vec<Node>, starting_id: &str) -> (r: Option<Node>)
    ensures
        match r {
            Some(n) => first_node_with_id(old(nodes)@, starting_id@) matches Some(i) && n == old(
                nodes,
            )@[i] && final(nodes)@ == old(nodes)@.remove(i),
            None => first_node_with_id(old(nodes)@, starting_id@) is None && final(nodes)@ == old(
                nodes,
            )@,
        },
{
    let mut i: usize = 0;
    while i < nodes.len()
        invariant
            0 <= i <= nodes@.len(),
            nodes@ == old(nodes)@,
            forall|j: int| 0 <= j < i ==> nodes@[j].id@ != starting_id@,
        decreases nodes@.len() - i,
    {
        if str_eq(nodes[i].id.as_str(), starting_id) {
            proof {
                lemma_first_node_with_id_spec(nodes@, starting_id@);
                match first_node_with_id(nodes@, starting_id@) {
                    Some(k) => {
                        if k < i as int {
                            assert(nodes@[k].id@ != starting_id@);
                        }
                        if k > i as int {
                            assert(nodes@[i as int].id@ != starting_id@);
                        }
                    },
                    None => {
                        assert(nodes@[i as int].id@ != starting_id@);
                    },
                }
            }
            let n = nodes.remove(i);
            return Some(n);
        }
        i = i + 1;
    }
    proof {
        lemma_first_node_with_id_spec(nodes@, starting_id@);
        if first_node_with_id(nodes@, starting_id@) is Some {
            let k = first_node_with_id(nodes@, starting_id@)->0;
            assert(nodes@[k].id@ != starting_id@);
        }
    }
    None
}

} // verus!
