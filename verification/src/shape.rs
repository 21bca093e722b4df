//! What holds of a walk at every step, and so of the hierarchy at its end:
//! the places form a forest in which each record that was reached has one way
//! in, and each link says what became of the offset it was read from.

use vstd::prelude::*;
use crate::record::RecordLinks;
use crate::hierarchy::{before, blank, reached, Link, MalformedTree, TreeNode};
use crate::walk::{
    is_target, lemma_step_work, lemma_target, lemma_unvisited_update, offset_of, run, start,
    step, target, unvisited, Edge, Walk,
};

verus! {

/// A link that leads to a record leads to one that was reached later and
/// that names the link's record as the one it is placed by: as its parent,
/// with no sibling before it, for a lower-level link; as the sibling before
/// it, under the same parent, for a next-record link.
pub open spec fn link_shape(nodes: Seq<TreeNode>, v: int, lower: bool) -> bool {
    match nodes[v].link(lower) {
        Link::Record(to) => {
            &&& before(nodes, v, to as int)
            &&& if lower {
                nodes[to as int].parent == Some(v as usize) && nodes[to as int].previous is None
            } else {
                nodes[to as int].previous == Some(v as usize) && nodes[to as int].parent
                    == nodes[v].parent
            }
        },
        _ => true,
    }
}

/// The place of record `v` fits the places around it.
///
/// A record that was not reached has the blank place. One that was reached
/// stands in `order` where its visit number says, and has exactly one way in:
/// the next-record link of the sibling before it; or, with no sibling before
/// it, the lower-level link of its parent; or, with neither, it is the first
/// record. Its parent was reached before it.
pub open spec fn node_shape(nodes: Seq<TreeNode>, order: Seq<usize>, v: int) -> bool {
    let node = nodes[v];
    match node.visit {
        None => node == blank(),
        Some(k) => {
            &&& k < order.len()
            &&& order[k as int] == v
            &&& match node.previous {
                Some(u) => {
                    &&& before(nodes, u as int, v)
                    &&& nodes[u as int].next == Link::Record(v as usize)
                    &&& nodes[u as int].parent == node.parent
                },
                None => match node.parent {
                    Some(p) => nodes[p as int].lower == Link::Record(v as usize),
                    None => v == 0,
                },
            }
            &&& match node.parent {
                Some(p) => before(nodes, p as int, v),
                None => true,
            }
            &&& link_shape(nodes, v, true)
            &&& link_shape(nodes, v, false)
        },
    }
}

/// The places form a forest, numbered in the order of `order`.
pub open spec fn shape(nodes: Seq<TreeNode>, order: Seq<usize>) -> bool {
    &&& nodes.len() <= usize::MAX
    &&& order.len() + unvisited(nodes) == nodes.len()
    &&& nodes.len() > 0 ==> nodes[0].visit == Some(0usize) && nodes[0].parent is None
        && nodes[0].previous is None
    &&& forall|k: int|
        0 <= k < order.len() ==> (#[trigger] order[k]) < nodes.len() && nodes[order[k] as int].visit
            == Some(k as usize)
    &&& forall|v: int| 0 <= v < nodes.len() ==> #[trigger] node_shape(nodes, order, v)
}

/// A link of a record that was reached says what became of its offset.
///
/// - Absent: the offset is zero (or the link is still to be followed).
/// - A record: the offset is not zero, and that record is the one that
///   begins there.
/// - Unresolved: the offset is not zero, and no record begins there.
/// - Revisited: the offset is not zero, and the record that begins there was
///   reached by another way.
pub open spec fn link_faithful(
    links: Seq<RecordLinks>,
    nodes: Seq<TreeNode>,
    pending: Seq<Edge>,
    v: int,
    lower: bool,
) -> bool {
    let edge = Edge { from: v as usize, lower };
    let offset = offset_of(links, edge);
    match nodes[v].link(lower) {
        Link::Absent => offset == 0 || pending.contains(edge),
        Link::Record(to) => offset != 0 && target(links, offset) == Some(to as int),
        Link::Malformed(MalformedTree::UnresolvedOffset) => offset != 0 && target(links, offset)
            is None,
        Link::Malformed(MalformedTree::RevisitedRecord) => {
            &&& offset != 0
            &&& target(links, offset) is Some
            &&& reached(nodes, target(links, offset)->0)
        },
    }
}

/// Every link of every record that was reached is faithful to its offset.
pub open spec fn faithful(links: Seq<RecordLinks>, nodes: Seq<TreeNode>, pending: Seq<Edge>) -> bool {
    forall|v: int, lower: bool|
        reached(nodes, v) ==> #[trigger] link_faithful(links, nodes, pending, v, lower)
}

/// The links still to follow start from records that were reached, have not
/// been followed yet, and are each listed once.
pub open spec fn pending_ok(nodes: Seq<TreeNode>, pending: Seq<Edge>) -> bool {
    &&& forall|k: int|
        0 <= k < pending.len() ==> reached(nodes, (#[trigger] pending[k]).from as int)
            && nodes[pending[k].from as int].link(pending[k].lower) == Link::Absent
    &&& forall|j: int, k: int| 0 <= j < k < pending.len() ==> pending[j] != pending[k]
}

impl Walk {
    /// What holds of the walk at every step.
    pub open spec fn sound(self, links: Seq<RecordLinks>) -> bool {
        &&& self.nodes.len() == links.len()
        &&& shape(self.nodes, self.order)
        &&& faithful(links, self.nodes, self.pending)
        &&& pending_ok(self.nodes, self.pending)
    }
}

/// The walk is sound at its start.
pub proof fn lemma_start_sound(links: Seq<RecordLinks>)
    requires
        links.len() <= usize::MAX,
    ensures
        start(links).sound(links),
        start(links).fits(links),
{
    let walk = start(links);
    if links.len() > 0 {
        lemma_unvisited_blank(walk.nodes, 1);
        assert(walk.nodes.take(1).drop_last() =~= Seq::<TreeNode>::empty());
        assert(walk.nodes.take(1).last() == walk.nodes[0]);
        assert(unvisited(walk.nodes.take(1).drop_last()) == 0);
        assert(unvisited(walk.nodes.take(1)) == 0);
        assert(walk.pending[0] == Edge { from: 0, lower: false });
        assert(walk.pending[1] == Edge { from: 0, lower: true });
        assert forall|v: int, lower: bool| reached(walk.nodes, v) implies #[trigger] link_faithful(
            links,
            walk.nodes,
            walk.pending,
            v,
            lower,
        ) by {
            assert(v == 0);
            if lower {
                assert(walk.pending[1] == Edge { from: v as usize, lower });
            } else {
                assert(walk.pending[0] == Edge { from: v as usize, lower });
            }
        }
    }
}

/// Of places none of which was reached from position `from` on, those before
/// it decide how many records are unreached.
proof fn lemma_unvisited_blank(nodes: Seq<TreeNode>, from: int)
    requires
        0 <= from <= nodes.len(),
        forall|i: int| from <= i < nodes.len() ==> (#[trigger] nodes[i]).visit is None,
    ensures
        unvisited(nodes) == unvisited(nodes.take(from)) + nodes.len() - from,
    decreases nodes.len() - from,
{
    if from == nodes.len() {
        assert(nodes.take(from) =~= nodes);
    } else {
        lemma_unvisited_blank(nodes.drop_last(), from);
        assert(nodes.drop_last().take(from) =~= nodes.take(from));
    }
}

/// A link that is not followed to a record leaves the forest as it is.
proof fn lemma_mark_sound(links: Seq<RecordLinks>, walk: Walk, link: Link)
    requires
        walk.sound(links),
        walk.pending.len() > 0,
        link !is Record,
        ({
            let edge = walk.pending.last();
            let offset = offset_of(links, edge);
            match link {
                Link::Absent => offset == 0,
                Link::Record(_) => false,
                Link::Malformed(MalformedTree::UnresolvedOffset) => offset != 0 && target(
                    links,
                    offset,
                ) is None,
                Link::Malformed(MalformedTree::RevisitedRecord) => {
                    &&& offset != 0
                    &&& target(links, offset) is Some
                    &&& reached(walk.nodes, target(links, offset)->0)
                },
            }
        }),
    ensures
        ({
            let edge = walk.pending.last();
            let from = edge.from as int;
            Walk {
                nodes: walk.nodes.update(from, walk.nodes[from].with_link(edge.lower, link)),
                order: walk.order,
                pending: walk.pending.drop_last(),
            }.sound(links)
        }),
{
    let edge = walk.pending.last();
    let rest = walk.pending.drop_last();
    let from = edge.from as int;
    let last = walk.pending.len() - 1;
    let marked = walk.nodes[from].with_link(edge.lower, link);
    let nodes = walk.nodes.update(from, marked);
    assert(walk.pending[last] == edge);
    assert(reached(walk.nodes, from));
    assert(walk.nodes[from].link(edge.lower) == Link::Absent);
    lemma_unvisited_update(walk.nodes, from, marked);
    assert forall|v: int| 0 <= v < nodes.len() implies #[trigger] node_shape(
        nodes,
        walk.order,
        v,
    ) by {
        assert(node_shape(walk.nodes, walk.order, v));
    }
    assert forall|k: int| 0 <= k < rest.len() implies reached(nodes, (#[trigger] rest[k]).from as int)
        && nodes[rest[k].from as int].link(rest[k].lower) == Link::Absent by {
        assert(rest[k] == walk.pending[k]);
        assert(walk.pending[k] != walk.pending[last]);
    }
    assert forall|j: int, k: int| 0 <= j < k < rest.len() implies rest[j] != rest[k] by {
        assert(rest[j] == walk.pending[j] && rest[k] == walk.pending[k]);
    }
    assert forall|v: int, lower: bool| reached(nodes, v) implies #[trigger] link_faithful(
        links,
        nodes,
        rest,
        v,
        lower,
    ) by {
        assert(link_faithful(links, walk.nodes, walk.pending, v, lower));
        let other = Edge { from: v as usize, lower };
        if nodes[v].link(lower) == Link::Absent && offset_of(links, other) != 0 {
            assert(walk.nodes[v].link(lower) == Link::Absent);
            let k = choose|k: int| 0 <= k < walk.pending.len() && walk.pending[k] == other;
            assert(k != last);
            assert(rest[k] == other);
        }
    }
}

/// A link that is followed to a record not reached before gives that record
/// its place, and leaves the places a forest.
proof fn lemma_place_sound(links: Seq<RecordLinks>, walk: Walk)
    requires
        walk.sound(links),
        walk.pending.len() > 0,
        offset_of(links, walk.pending.last()) != 0,
        target(links, offset_of(links, walk.pending.last())) is Some,
        !reached(walk.nodes, target(links, offset_of(links, walk.pending.last()))->0),
    ensures
        step(links, walk).sound(links),
{
    let edge = walk.pending.last();
    let rest = walk.pending.drop_last();
    let from = edge.from as int;
    let last = walk.pending.len() - 1;
    let offset = offset_of(links, edge);
    let to = target(links, offset)->0;
    lemma_target(links, offset);
    assert(is_target(links, offset, to));
    let after = step(links, walk);
    let linked = walk.nodes[from].with_link(edge.lower, Link::Record(to as usize));
    let placed = after.nodes[to];
    let nodes = after.nodes;
    let order = after.order;
    let pending = after.pending;
    assert(walk.pending[last] == edge);
    assert(reached(walk.nodes, from));
    assert(walk.nodes[from].link(edge.lower) == Link::Absent);
    assert(from != to);
    assert(node_shape(walk.nodes, walk.order, from));
    assert(node_shape(walk.nodes, walk.order, to));
    lemma_unvisited_update(walk.nodes, from, linked);
    lemma_unvisited_update(walk.nodes.update(from, linked), to, placed);
    assert(nodes =~= walk.nodes.update(from, linked).update(to, placed));
    assert(walk.order.len() < walk.nodes.len());
    assert(placed.visit == Some(walk.order.len() as usize));
    assert(to != 0);

    assert forall|k: int| 0 <= k < order.len() implies (#[trigger] order[k]) < nodes.len()
        && nodes[order[k] as int].visit == Some(k as usize) by {
        if k < walk.order.len() {
            assert(order[k] == walk.order[k]);
        }
    }
    assert forall|v: int| 0 <= v < nodes.len() implies #[trigger] node_shape(nodes, order, v) by {
        assert(node_shape(walk.nodes, walk.order, v));
        if v == to {
            if !edge.lower {
                match walk.nodes[from].parent {
                    Some(p) => {
                        assert(before(walk.nodes, p as int, from));
                    },
                    None => {},
                }
            }
        } else if walk.nodes[v].visit is Some {
            let k = walk.nodes[v].visit->0;
            assert(order[k as int] == walk.order[k as int]);
            assert(link_shape(walk.nodes, v, true));
            assert(link_shape(walk.nodes, v, false));
            assert(link_shape(nodes, v, true));
            assert(link_shape(nodes, v, false));
        }
    }
    assert(shape(nodes, order));

    assert(pending.len() == rest.len() + 2);
    assert(pending[rest.len() as int] == Edge { from: to as usize, lower: false });
    assert(pending[rest.len() as int + 1] == Edge { from: to as usize, lower: true });
    assert forall|k: int| 0 <= k < rest.len() implies pending[k] == walk.pending[k] by {}
    assert forall|k: int| 0 <= k < pending.len() implies reached(
        nodes,
        (#[trigger] pending[k]).from as int,
    ) && nodes[pending[k].from as int].link(pending[k].lower) == Link::Absent by {
        if k < rest.len() {
            assert(pending[k] == walk.pending[k]);
            assert(walk.pending[k] != walk.pending[last]);
        }
    }
    assert forall|j: int, k: int| 0 <= j < k < pending.len() implies pending[j] != pending[k] by {
        if j < rest.len() {
            assert(pending[j] == walk.pending[j]);
            assert(reached(walk.nodes, walk.pending[j].from as int));
        }
        if k < rest.len() {
            assert(pending[k] == walk.pending[k]);
        }
    }
    assert(pending_ok(nodes, pending));

    assert forall|v: int, lower: bool| reached(nodes, v) implies #[trigger] link_faithful(
        links,
        nodes,
        pending,
        v,
        lower,
    ) by {
        let other = Edge { from: v as usize, lower };
        if v == to {
            if lower {
                assert(pending[rest.len() as int + 1] == other);
            } else {
                assert(pending[rest.len() as int] == other);
            }
        } else {
            assert(reached(walk.nodes, v));
            assert(link_faithful(links, walk.nodes, walk.pending, v, lower));
            if nodes[v].link(lower) == Link::Absent && offset_of(links, other) != 0 {
                assert(walk.nodes[v].link(lower) == Link::Absent);
                let k = choose|k: int| 0 <= k < walk.pending.len() && walk.pending[k] == other;
                assert(k != last);
                assert(pending[k] == other);
            }
        }
    }
}

/// A step of a sound walk leaves it sound.
pub proof fn lemma_step_sound(links: Seq<RecordLinks>, walk: Walk)
    requires
        walk.sound(links),
        walk.pending.len() > 0,
    ensures
        step(links, walk).sound(links),
{
    let edge = walk.pending.last();
    let from = edge.from as int;
    let offset = offset_of(links, edge);
    assert(walk.pending[walk.pending.len() - 1] == edge);
    assert(reached(walk.nodes, from));
    if offset == 0 {
        lemma_mark_sound(links, walk, Link::Absent);
        assert(walk.nodes.update(from, walk.nodes[from].with_link(edge.lower, Link::Absent))
            =~= walk.nodes);
    } else {
        lemma_target(links, offset);
        match target(links, offset) {
            None => {
                lemma_mark_sound(links, walk, Link::Malformed(MalformedTree::UnresolvedOffset));
            },
            Some(to) => {
                if walk.nodes[to].visit is Some {
                    lemma_mark_sound(
                        links,
                        walk,
                        Link::Malformed(MalformedTree::RevisitedRecord),
                    );
                } else {
                    lemma_place_sound(links, walk);
                }
            },
        }
    }
}

/// A sound walk carried to its end is sound, and no link is left to follow.
pub proof fn lemma_run_sound(links: Seq<RecordLinks>, walk: Walk)
    requires
        walk.sound(links),
    ensures
        run(links, walk).sound(links),
        run(links, walk).pending.len() == 0,
    decreases walk.work(),
{
    assert(walk.fits(links));
    if walk.pending.len() > 0 {
        lemma_step_work(links, walk);
        lemma_step_sound(links, walk);
        lemma_run_sound(links, step(links, walk));
    }
}

} // verus!
