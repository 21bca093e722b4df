//! What holds of every reconstructed hierarchy.

use vstd::prelude::*;
use crate::record::RecordLinks;
use crate::hierarchy::{
    before, chain, malformed_before, reached, room, Link, MalformedTree, TreeNode, TreeView,
};
use crate::shape::{
    faithful, lemma_run_sound, lemma_start_sound, link_faithful, link_shape, node_shape, shape,
};
use crate::walk::{offset_of, reconstruction, run, start, target, Edge};

verus! {

/// Whether one of the two offsets of record `u` leads to record `v`.
pub open spec fn leads(links: Seq<RecordLinks>, u: int, v: int) -> bool {
    &&& 0 <= u < links.len()
    &&& leads_by(links, u, v, true) || leads_by(links, u, v, false)
}

/// Whether the given offset of record `u` leads to record `v`.
pub open spec fn leads_by(links: Seq<RecordLinks>, u: int, v: int, lower: bool) -> bool {
    let offset = offset_of(links, Edge { from: u as usize, lower });
    offset != 0 && target(links, offset) == Some(v)
}

/// Whether the offsets lead from each record of `path` to the one after it.
pub open spec fn hop(links: Seq<RecordLinks>, path: Seq<int>, i: int) -> bool {
    leads(links, path[i], path[i + 1])
}

/// Whether `path` starts at the first record and follows the offsets from
/// each of its records to the next.
pub open spec fn is_path(links: Seq<RecordLinks>, path: Seq<int>) -> bool {
    &&& links.len() > 0
    &&& path.len() > 0
    &&& path[0] == 0
    &&& forall|i: int| 0 <= i < path.len() - 1 ==> #[trigger] hop(links, path, i)
}

/// Whether the offsets lead from the first record to record `v`.
pub open spec fn reachable(links: Seq<RecordLinks>, v: int) -> bool {
    exists|path: Seq<int>| is_path(links, path) && path.last() == v
}

/// The record that follows position `i` of a cycle.
pub open spec fn around(cycle: Seq<int>, i: int) -> int {
    if i + 1 < cycle.len() {
        cycle[i + 1]
    } else {
        cycle[0]
    }
}

/// Whether the offsets lead from the record at position `i` of the cycle to
/// the record that follows it.
pub open spec fn turn(links: Seq<RecordLinks>, cycle: Seq<int>, i: int) -> bool {
    leads(links, cycle[i], around(cycle, i))
}

/// Whether the offsets lead from each record of `cycle` to the one after it,
/// and from the last to the first.
pub open spec fn is_cycle(links: Seq<RecordLinks>, cycle: Seq<int>) -> bool {
    &&& cycle.len() > 0
    &&& forall|i: int| 0 <= i < cycle.len() ==> #[trigger] turn(links, cycle, i)
}

/// Whether a link of record `u` whose offset leads to record `v` is marked
/// as a revisit.
pub open spec fn flagged(links: Seq<RecordLinks>, nodes: Seq<TreeNode>, u: int, v: int) -> bool {
    exists|lower: bool|
        leads_by(links, u, v, lower) && #[trigger] nodes[u].link(lower) == Link::Malformed(
            MalformedTree::RevisitedRecord,
        )
}

/// The reconstructed hierarchy has a place for each record. The places form
/// a forest: what `shape` says. And each link of a record that was reached
/// says what became of its offset: what `faithful` says, with no link left
/// to follow.
pub proof fn lemma_reconstruction_sound(links: Seq<RecordLinks>)
    requires
        links.len() <= usize::MAX,
    ensures
        reconstruction(links).nodes.len() == links.len(),
        shape(reconstruction(links).nodes, reconstruction(links).order),
        faithful(links, reconstruction(links).nodes, Seq::empty()),
{
    lemma_start_sound(links);
    lemma_run_sound(links, start(links));
    assert(run(links, start(links)).pending =~= Seq::empty());
}

/// The reconstruction visits no record twice: no record stands twice in the
/// order of the visits, and the records that stand in it are those that were
/// reached.
pub proof fn lemma_each_record_visited_once(links: Seq<RecordLinks>)
    requires
        links.len() <= usize::MAX,
    ensures
        reconstruction(links).order.no_duplicates(),
        reconstruction(links).order.len() <= links.len(),
        forall|v: int|
            0 <= v < links.len() ==> (reached(reconstruction(links).nodes, v)
                <==> reconstruction(links).order.contains(v as usize)),
{
    let tree = reconstruction(links);
    lemma_reconstruction_sound(links);
    assert forall|v: int| 0 <= v < links.len() implies (reached(tree.nodes, v)
        <==> tree.order.contains(v as usize)) by {
        assert(node_shape(tree.nodes, tree.order, v));
        if reached(tree.nodes, v) {
            assert(tree.order[tree.nodes[v].visit->0 as int] == v as usize);
        }
    }
}

/// A link of a record that was reached leads, where its offset leads to a
/// record, to a record that was reached; and to one reached later unless
/// the link is marked as a revisit.
proof fn lemma_follow(links: Seq<RecordLinks>, u: int, v: int, lower: bool)
    requires
        links.len() <= usize::MAX,
        reached(reconstruction(links).nodes, u),
        leads_by(links, u, v, lower),
    ensures
        reached(reconstruction(links).nodes, v),
        reconstruction(links).nodes[u].link(lower) == Link::Record(v as usize) && before(
            reconstruction(links).nodes,
            u,
            v,
        ) || reconstruction(links).nodes[u].link(lower) == Link::Malformed(
            MalformedTree::RevisitedRecord,
        ),
{
    let tree = reconstruction(links);
    lemma_reconstruction_sound(links);
    assert(link_faithful(links, tree.nodes, Seq::empty(), u, lower));
    assert(!Seq::<Edge>::empty().contains(Edge { from: u as usize, lower }));
    assert(node_shape(tree.nodes, tree.order, u));
    assert(link_shape(tree.nodes, u, lower));
}

/// Every record of a path from the first record was reached.
proof fn lemma_path_reached(links: Seq<RecordLinks>, path: Seq<int>, i: int)
    requires
        links.len() <= usize::MAX,
        is_path(links, path),
        0 <= i < path.len(),
    ensures
        reached(reconstruction(links).nodes, path[i]),
    decreases i,
{
    lemma_reconstruction_sound(links);
    if i > 0 {
        lemma_path_reached(links, path, i - 1);
        assert(hop(links, path, i - 1));
        if leads_by(links, path[i - 1], path[i], true) {
            lemma_follow(links, path[i - 1], path[i], true);
        } else {
            lemma_follow(links, path[i - 1], path[i], false);
        }
    }
}

/// To every record that was reached a path leads from the first record.
proof fn lemma_reached_has_path(links: Seq<RecordLinks>, v: int) -> (path: Seq<int>)
    requires
        links.len() <= usize::MAX,
        reached(reconstruction(links).nodes, v),
    ensures
        is_path(links, path),
        path.last() == v,
    decreases reconstruction(links).nodes[v].visit->0,
{
    let tree = reconstruction(links);
    lemma_reconstruction_sound(links);
    assert(node_shape(tree.nodes, tree.order, v));
    let node = tree.nodes[v];
    if node.previous is Some || node.parent is Some {
        let lower = node.previous is None;
        let u = if lower {
            node.parent->0 as int
        } else {
            node.previous->0 as int
        };
        assert(before(tree.nodes, u, v));
        assert(tree.nodes[u].link(lower) == Link::Record(v as usize));
        assert(link_faithful(links, tree.nodes, Seq::empty(), u, lower));
        assert(leads_by(links, u, v, lower));
        let head = lemma_reached_has_path(links, u);
        let path = head.push(v);
        assert forall|i: int| 0 <= i < path.len() - 1 implies #[trigger] hop(links, path, i) by {
            if i < head.len() - 1 {
                assert(hop(links, head, i));
            }
        }
        path
    } else {
        seq![v]
    }
}

/// The reconstruction reaches exactly the records to which the offsets lead
/// from the first record.
pub proof fn lemma_reached_iff_reachable(links: Seq<RecordLinks>, v: int)
    requires
        links.len() <= usize::MAX,
    ensures
        reached(reconstruction(links).nodes, v) <==> reachable(links, v),
{
    if reached(reconstruction(links).nodes, v) {
        let path = lemma_reached_has_path(links, v);
        assert(is_path(links, path) && path.last() == v);
    }
    if reachable(links, v) {
        let path = choose|path: Seq<int>| is_path(links, path) && path.last() == v;
        lemma_path_reached(links, path, path.len() - 1);
    }
}

/// Along a cycle none of whose links is marked as a revisit, each record
/// would be reached later than the one before it.
proof fn lemma_cycle_climbs(links: Seq<RecordLinks>, cycle: Seq<int>, i: int)
    requires
        links.len() <= usize::MAX,
        is_cycle(links, cycle),
        reached(reconstruction(links).nodes, cycle[0]),
        forall|k: int|
            0 <= k < cycle.len() ==> !flagged(
                links,
                reconstruction(links).nodes,
                #[trigger] cycle[k],
                around(cycle, k),
            ),
        0 <= i < cycle.len(),
    ensures
        reached(reconstruction(links).nodes, cycle[i]),
        reconstruction(links).nodes[cycle[0]].visit->0 + i <= reconstruction(
            links,
        ).nodes[cycle[i]].visit->0,
        before(reconstruction(links).nodes, cycle[i], around(cycle, i)),
    decreases i,
{
    let tree = reconstruction(links);
    if i > 0 {
        lemma_cycle_climbs(links, cycle, i - 1);
        assert(around(cycle, i - 1) == cycle[i]);
    }
    assert(turn(links, cycle, i));
    let u = cycle[i];
    let v = around(cycle, i);
    assert(!flagged(links, tree.nodes, cycle[i], around(cycle, i)));
    let lower = leads_by(links, u, v, true);
    lemma_follow(links, u, v, lower);
}

/// A cycle among the offsets is found: where the offsets lead around a cycle
/// that the first record leads to, one of the links of the cycle is marked
/// as a revisit, and so is not followed.
pub proof fn lemma_cycle_is_flagged(links: Seq<RecordLinks>, cycle: Seq<int>)
    requires
        links.len() <= usize::MAX,
        is_cycle(links, cycle),
        reachable(links, cycle[0]),
    ensures
        exists|i: int|
            0 <= i < cycle.len() && flagged(
                links,
                reconstruction(links).nodes,
                #[trigger] cycle[i],
                around(cycle, i),
            ),
{
    lemma_reached_iff_reachable(links, cycle[0]);
    if forall|k: int|
        0 <= k < cycle.len() ==> !flagged(
            links,
            reconstruction(links).nodes,
            #[trigger] cycle[k],
            around(cycle, k),
        ) {
        lemma_cycle_climbs(links, cycle, cycle.len() - 1);
        assert(false);
    }
}

/// Whether the given offset of record `u` leads to a record other than the
/// first, to which no other offset of a record within reach leads.
pub open spec fn sole_way(links: Seq<RecordLinks>, u: int, lower: bool) -> bool {
    let offset = offset_of(links, Edge { from: u as usize, lower });
    &&& target(links, offset) is Some
    &&& target(links, offset) != Some(0int)
    &&& forall|w: int, other: bool|
        reachable(links, w) && #[trigger] leads_by(links, w, target(links, offset)->0, other) ==> w
            == u && other == lower
}

/// Whether the offsets within reach of the first record describe a forest:
/// each of them that is not zero leads to a record, and to each record at
/// most one of them leads, to the first record none.
pub open spec fn well_linked(links: Seq<RecordLinks>) -> bool {
    forall|u: int, lower: bool|
        reachable(links, u) && offset_of(links, Edge { from: u as usize, lower }) != 0
            ==> #[trigger] sole_way(links, u, lower)
}

/// Where the offsets describe a forest, the reconstruction follows every
/// link: none is marked as malformed.
pub proof fn lemma_well_linked_is_unmarked(links: Seq<RecordLinks>, v: int, lower: bool)
    requires
        links.len() <= usize::MAX,
        well_linked(links),
        reached(reconstruction(links).nodes, v),
    ensures
        reconstruction(links).nodes[v].link(lower) !is Malformed,
{
    let tree = reconstruction(links);
    let offset = offset_of(links, Edge { from: v as usize, lower });
    lemma_reconstruction_sound(links);
    lemma_reached_iff_reachable(links, v);
    assert(link_faithful(links, tree.nodes, Seq::empty(), v, lower));
    if tree.nodes[v].link(lower) is Malformed {
        assert(sole_way(links, v, lower));
        let to = target(links, offset)->0;
        assert(reached(tree.nodes, to));
        assert(node_shape(tree.nodes, tree.order, to));
        let node = tree.nodes[to];
        assert(node.previous is Some || node.parent is Some);
        let other = node.previous is None;
        let w = if other {
            node.parent->0 as int
        } else {
            node.previous->0 as int
        };
        assert(before(tree.nodes, w, to));
        assert(tree.nodes[w].link(other) == Link::Record(to as usize));
        assert(link_faithful(links, tree.nodes, Seq::empty(), w, other));
        lemma_reached_iff_reachable(links, w);
        assert(leads_by(links, w, to, other));
        assert(false);
    }
}

/// The list of the malformed records holds the records of which a link could
/// not be followed, and no others, each once and in ascending order.
pub proof fn lemma_malformed_before(nodes: Seq<TreeNode>, end: int)
    requires
        0 <= end <= nodes.len() <= usize::MAX,
    ensures
        forall|i: int|
            0 <= i < end ==> (malformed_before(nodes, end).contains(i as usize) <==> (
            #[trigger] nodes[i]).malformed()),
        forall|k: int|
            0 <= k < malformed_before(nodes, end).len() ==> (#[trigger] malformed_before(
                nodes,
                end,
            )[k]) < end,
        forall|j: int, k: int|
            0 <= j < k < malformed_before(nodes, end).len() ==> malformed_before(nodes, end)[j]
                < malformed_before(nodes, end)[k],
    decreases end,
{
    if end > 0 {
        lemma_malformed_before(nodes, end - 1);
        let rest = malformed_before(nodes, end - 1);
        let all = malformed_before(nodes, end);
        assert forall|i: int| 0 <= i < end implies (all.contains(i as usize) <==> (
        #[trigger] nodes[i]).malformed()) by {
            if i < end - 1 {
                if rest.contains(i as usize) {
                    let k = choose|k: int| 0 <= k < rest.len() && rest[k] == i as usize;
                    assert(all[k] == i as usize);
                }
                if all.contains(i as usize) {
                    let k = choose|k: int| 0 <= k < all.len() && all[k] == i as usize;
                    if k < rest.len() {
                        assert(rest[k] == i as usize);
                    }
                }
            } else {
                if nodes[i].malformed() {
                    assert(all[all.len() - 1] == i as usize);
                }
                if all.contains(i as usize) {
                    let k = choose|k: int| 0 <= k < all.len() && all[k] == i as usize;
                    if k < rest.len() {
                        assert(rest[k] < end - 1);
                    }
                }
            }
        }
    }
}

/// Where the offsets describe a forest, no record is listed as malformed.
pub proof fn lemma_well_linked_has_no_malformed_records(links: Seq<RecordLinks>)
    requires
        links.len() <= usize::MAX,
        well_linked(links),
    ensures
        reconstruction(links).malformed_records() == Seq::<usize>::empty(),
{
    let tree = reconstruction(links);
    lemma_reconstruction_sound(links);
    lemma_malformed_before(tree.nodes, tree.nodes.len() as int);
    let listed = tree.malformed_records();
    if listed.len() > 0 {
        let v = listed[0] as int;
        assert(listed.contains(v as usize));
        assert(tree.nodes[v].malformed());
        assert(node_shape(tree.nodes, tree.order, v));
        assert(reached(tree.nodes, v));
        lemma_well_linked_is_unmarked(links, v, true);
        lemma_well_linked_is_unmarked(links, v, false);
        assert(false);
    }
    assert(listed =~= Seq::<usize>::empty());
}

/// A chain of siblings in a forest starts with its first record; its records
/// were all reached, each later than the one before it, so none stands in it
/// twice; they have the parent of the first; and each is linked to the one
/// after it.
pub proof fn lemma_chain(nodes: Seq<TreeNode>, order: Seq<usize>, v: int)
    requires
        shape(nodes, order),
        reached(nodes, v),
    ensures
        chain(nodes, v).len() > 0,
        chain(nodes, v)[0] == v,
        forall|i: int|
            0 <= i < chain(nodes, v).len() ==> {
                let x = #[trigger] chain(nodes, v)[i] as int;
                &&& reached(nodes, x)
                &&& nodes[x].parent == nodes[v].parent
                &&& nodes[v].visit->0 + i <= nodes[x].visit->0
            },
        forall|i: int|
            0 <= i < chain(nodes, v).len() - 1 ==> nodes[#[trigger] chain(nodes, v)[i] as int].next
                == Link::Record(chain(nodes, v)[i + 1]),
    decreases room(nodes, v),
{
    assert(node_shape(nodes, order, v));
    assert(link_shape(nodes, v, false));
    match nodes[v].next {
        Link::Record(to) => {
            assert(node_shape(nodes, order, to as int));
            lemma_chain(nodes, order, to as int);
            let tail = chain(nodes, to as int);
            let whole = chain(nodes, v);
            assert(whole =~= seq![v as usize] + tail);
            assert forall|i: int| 0 <= i < whole.len() implies {
                let x = #[trigger] whole[i] as int;
                &&& reached(nodes, x)
                &&& nodes[x].parent == nodes[v].parent
                &&& nodes[v].visit->0 + i <= nodes[x].visit->0
            } by {
                if i > 0 {
                    assert(whole[i] == tail[i - 1]);
                }
            }
            assert forall|i: int| 0 <= i < whole.len() - 1 implies nodes[#[trigger] whole[i] as int].next
                == Link::Record(whole[i + 1]) by {
                if i > 0 {
                    assert(whole[i] == tail[i - 1]);
                    assert(whole[i + 1] == tail[i]);
                } else {
                    assert(whole[1] == tail[0]);
                }
            }
        },
        _ => {},
    }
}

/// A chain of siblings that holds a record holds the record that this one
/// is linked to.
proof fn lemma_chain_extends(nodes: Seq<TreeNode>, order: Seq<usize>, first: int, u: int, v: int)
    requires
        shape(nodes, order),
        reached(nodes, first),
        0 <= u < nodes.len(),
        chain(nodes, first).contains(u as usize),
        nodes[u].next == Link::Record(v as usize),
        0 <= v < nodes.len(),
    ensures
        chain(nodes, first).contains(v as usize),
    decreases room(nodes, first),
{
    assert(node_shape(nodes, order, first));
    assert(link_shape(nodes, first, false));
    let whole = chain(nodes, first);
    if first == u {
        assert(node_shape(nodes, order, v));
        lemma_chain(nodes, order, v);
        assert(whole =~= seq![first as usize] + chain(nodes, v));
        assert(whole[1] == v as usize);
    } else {
        let i = choose|i: int| 0 <= i < whole.len() && whole[i] == u as usize;
        match nodes[first].next {
            Link::Record(to) => {
                let tail = chain(nodes, to as int);
                assert(whole =~= seq![first as usize] + tail);
                assert(i > 0);
                assert(tail[i - 1] == u as usize);
                assert(node_shape(nodes, order, to as int));
                lemma_chain_extends(nodes, order, to as int, u, v);
                let j = choose|j: int| 0 <= j < tail.len() && tail[j] == v as usize;
                assert(whole[j + 1] == v as usize);
            },
            _ => {
                assert(whole =~= seq![first as usize]);
            },
        }
    }
}

/// In a forest each record that was reached stands on its own level.
pub proof fn lemma_on_own_level(nodes: Seq<TreeNode>, order: Seq<usize>, v: int)
    requires
        shape(nodes, order),
        reached(nodes, v),
    ensures
        (TreeView { nodes, order }).siblings(v).contains(v as usize),
    decreases nodes[v].visit->0,
{
    let tree = TreeView { nodes, order };
    assert(node_shape(nodes, order, v));
    match nodes[v].previous {
        Some(u) => {
            lemma_on_own_level(nodes, order, u as int);
            assert(tree.siblings(u as int) == tree.siblings(v));
            let first: int = match nodes[v].parent {
                Some(p) => {
                    assert(node_shape(nodes, order, p as int));
                    assert(link_shape(nodes, p as int, true));
                    nodes[p as int].lower->Record_0 as int
                },
                None => 0,
            };
            assert(tree.siblings(v) == chain(nodes, first));
            lemma_chain_extends(nodes, order, first, u as int, v);
        },
        None => {
            lemma_chain(nodes, order, v);
            assert(tree.siblings(v) == chain(nodes, v));
        },
    }
}

/// In a forest the children of a record have that record as their parent,
/// and the records of the top level have none; so no record stands on two
/// levels.
pub proof fn lemma_levels(nodes: Seq<TreeNode>, order: Seq<usize>, p: int)
    requires
        shape(nodes, order),
    ensures
        forall|i: int|
            0 <= i < (TreeView { nodes, order }).children(p).len() ==> nodes[#[trigger] (TreeView {
                nodes,
                order,
            }).children(p)[i] as int].parent == Some(p as usize),
        forall|i: int|
            0 <= i < (TreeView { nodes, order }).roots().len() ==> nodes[#[trigger] (TreeView {
                nodes,
                order,
            }).roots()[i] as int].parent is None,
{
    let tree = TreeView { nodes, order };
    if nodes.len() > 0 {
        assert(node_shape(nodes, order, 0));
        lemma_chain(nodes, order, 0);
    }
    if 0 <= p < nodes.len() {
        assert(node_shape(nodes, order, p));
        match nodes[p].lower {
            Link::Record(first) => {
                if reached(nodes, p) {
                    assert(link_shape(nodes, p, true));
                    lemma_chain(nodes, order, first as int);
                }
            },
            _ => {},
        }
    }
}

} // verus!
