//! What reconstructing the hierarchy means: the records are walked from the
//! first one, each lower-level link before the next-record link of the same
//! record, and a record is given its place when the walk first reaches it.
//!
//! The walk is stated here as a function on sequences; `tree` computes it.

use vstd::prelude::*;
use crate::hierarchy::{blank, Link, MalformedTree, TreeNode, TreeView};
use crate::record::RecordLinks;

verus! {

/// A link that the walk has still to follow: the record it starts from, and
/// whether it is the lower-level link or the next-record link.
#[derive(Clone, Copy, PartialEq, Eq, Structural, Debug)]
pub struct Edge {
    pub from: usize,
    pub lower: bool,
}

/// The state of a walk: the places given so far, the records reached so far
/// in the order in which they were reached, and the links still to follow,
/// the one to follow first at the end.
pub struct Walk {
    pub nodes: Seq<TreeNode>,
    pub order: Seq<usize>,
    pub pending: Seq<Edge>,
}

/// Whether record `i` is the first record that begins at `offset`.
pub open spec fn is_target(links: Seq<RecordLinks>, offset: u32, i: int) -> bool {
    &&& 0 <= i < links.len()
    &&& links[i].offset == offset
    &&& forall|j: int| 0 <= j < i ==> (#[trigger] links[j]).offset != offset
}

/// The record that begins at `offset`: the first one, should several claim
/// the same offset.
pub open spec fn target(links: Seq<RecordLinks>, offset: u32) -> Option<int> {
    if exists|i: int| is_target(links, offset, i) {
        Some(choose|i: int| is_target(links, offset, i))
    } else {
        None
    }
}

/// The offset that a link of a record holds.
pub open spec fn offset_of(links: Seq<RecordLinks>, edge: Edge) -> u32 {
    if edge.lower {
        links[edge.from as int].lower
    } else {
        links[edge.from as int].next
    }
}

/// The number of records that the walk has not reached.
pub open spec fn unvisited(nodes: Seq<TreeNode>) -> nat
    decreases nodes.len(),
{
    if nodes.len() == 0 {
        0
    } else {
        unvisited(nodes.drop_last()) + if nodes.last().visit is None {
            1nat
        } else {
            0nat
        }
    }
}

impl Walk {
    /// Whether the state fits the records: a place for each record, and each
    /// link still to follow starts from one of them.
    pub open spec fn fits(self, links: Seq<RecordLinks>) -> bool {
        &&& self.nodes.len() == links.len()
        &&& forall|k: int|
            0 <= k < self.pending.len() ==> (#[trigger] self.pending[k]).from < links.len()
    }

    /// What bounds the steps that are left: each step follows one link, and a
    /// record that is reached brings two more.
    pub open spec fn work(self) -> nat {
        2 * unvisited(self.nodes) + self.pending.len()
    }
}

/// The walk at its start: the first record is reached, and its two links are
/// to be followed, the lower-level link first.
pub open spec fn start(links: Seq<RecordLinks>) -> Walk {
    if links.len() == 0 {
        Walk { nodes: Seq::empty(), order: Seq::empty(), pending: Seq::empty() }
    } else {
        Walk {
            nodes: Seq::new(
                links.len(),
                |i: int|
                    if i == 0 {
                        TreeNode { visit: Some(0usize), ..blank() }
                    } else {
                        blank()
                    },
            ),
            order: seq![0usize],
            pending: seq![Edge { from: 0, lower: false }, Edge { from: 0, lower: true }],
        }
    }
}

/// One step of the walk: the link at the end of `pending` is followed.
///
/// - An offset of zero leaves the link absent.
/// - An offset at which no record begins marks the link as unresolved.
/// - An offset that leads to a record already reached marks the link as a
///   revisit, and the record keeps the place it has.
/// - Otherwise the record is reached now: it is placed below the record the
///   link came from (lower-level link) or behind it (next-record link), and
///   its own two links are to be followed next, the lower-level link first.
pub open spec fn step(links: Seq<RecordLinks>, walk: Walk) -> Walk {
    let edge = walk.pending.last();
    let rest = walk.pending.drop_last();
    let from = edge.from as int;
    let offset = offset_of(links, edge);
    if offset == 0 {
        Walk { pending: rest, ..walk }
    } else {
        match target(links, offset) {
            None => Walk {
                nodes: walk.nodes.update(
                    from,
                    walk.nodes[from].with_link(
                        edge.lower,
                        Link::Malformed(MalformedTree::UnresolvedOffset),
                    ),
                ),
                pending: rest,
                ..walk
            },
            Some(to) => if walk.nodes[to].visit is Some {
                Walk {
                    nodes: walk.nodes.update(
                        from,
                        walk.nodes[from].with_link(
                            edge.lower,
                            Link::Malformed(MalformedTree::RevisitedRecord),
                        ),
                    ),
                    pending: rest,
                    ..walk
                }
            } else {
                let reached = TreeNode {
                    visit: Some(walk.order.len() as usize),
                    parent: if edge.lower {
                        Some(edge.from)
                    } else {
                        walk.nodes[from].parent
                    },
                    previous: if edge.lower {
                        None
                    } else {
                        Some(edge.from)
                    },
                    lower: Link::Absent,
                    next: Link::Absent,
                };
                Walk {
                    nodes: walk.nodes.update(
                        from,
                        walk.nodes[from].with_link(edge.lower, Link::Record(to as usize)),
                    ).update(to, reached),
                    order: walk.order.push(to as usize),
                    pending: rest.push(Edge { from: to as usize, lower: false }).push(
                        Edge { from: to as usize, lower: true },
                    ),
                }
            },
        }
    }
}

/// The walk carried to its end: steps are taken until no link is left to
/// follow.
pub open spec fn run(links: Seq<RecordLinks>, walk: Walk) -> Walk
    decreases walk.work(),
    when walk.fits(links)
    via run_decreases
{
    if walk.pending.len() == 0 {
        walk
    } else {
        run(links, step(links, walk))
    }
}

#[via_fn]
proof fn run_decreases(links: Seq<RecordLinks>, walk: Walk) {
    if walk.pending.len() != 0 {
        lemma_step_work(links, walk);
    }
}

/// The hierarchy that the records describe.
pub open spec fn reconstruction(links: Seq<RecordLinks>) -> TreeView {
    let end = run(links, start(links));
    TreeView { nodes: end.nodes, order: end.order }
}

/// Replacing one place changes the number of unreached records by what the
/// two places differ in.
pub proof fn lemma_unvisited_update(nodes: Seq<TreeNode>, i: int, node: TreeNode)
    requires
        0 <= i < nodes.len(),
    ensures
        unvisited(nodes.update(i, node)) + (if nodes[i].visit is None {
            1nat
        } else {
            0nat
        }) == unvisited(nodes) + (if node.visit is None {
            1nat
        } else {
            0nat
        }),
    decreases nodes.len(),
{
    let updated = nodes.update(i, node);
    if i == nodes.len() - 1 {
        assert(updated.drop_last() =~= nodes.drop_last());
    } else {
        assert(updated.drop_last() =~= nodes.drop_last().update(i, node));
        lemma_unvisited_update(nodes.drop_last(), i, node);
    }
}

/// Where a record begins at the offset, the target is such a record.
pub proof fn lemma_target(links: Seq<RecordLinks>, offset: u32)
    ensures
        match target(links, offset) {
            Some(i) => is_target(links, offset, i),
            None => forall|i: int| 0 <= i < links.len() ==> (#[trigger] links[i]).offset != offset,
        },
{
    if target(links, offset) is None {
        assert forall|i: int| 0 <= i < links.len() implies (#[trigger] links[i]).offset
            != offset by {
            if links[i].offset == offset {
                lemma_first_target(links, offset, i);
            }
        }
    }
}

/// Where some record begins at the offset, one of them is the first.
proof fn lemma_first_target(links: Seq<RecordLinks>, offset: u32, i: int)
    requires
        0 <= i < links.len(),
        links[i].offset == offset,
    ensures
        exists|k: int| is_target(links, offset, k),
    decreases i,
{
    if exists|j: int| 0 <= j < i && (#[trigger] links[j]).offset == offset {
        let j = choose|j: int| 0 <= j < i && (#[trigger] links[j]).offset == offset;
        lemma_first_target(links, offset, j);
    } else {
        assert(is_target(links, offset, i));
    }
}

/// Each step leaves less work.
pub proof fn lemma_step_work(links: Seq<RecordLinks>, walk: Walk)
    requires
        walk.fits(links),
        walk.pending.len() > 0,
    ensures
        step(links, walk).fits(links),
        step(links, walk).work() < walk.work(),
{
    let edge = walk.pending.last();
    let rest = walk.pending.drop_last();
    let from = edge.from as int;
    let offset = offset_of(links, edge);
    let after = step(links, walk);
    assert(walk.pending[walk.pending.len() - 1].from < links.len());
    assert forall|k: int| 0 <= k < rest.len() implies (#[trigger] rest[k]).from < links.len() by {
        assert(rest[k] == walk.pending[k]);
    }
    if offset != 0 {
        lemma_target(links, offset);
        match target(links, offset) {
            None => {
                lemma_unvisited_update(
                    walk.nodes,
                    from,
                    walk.nodes[from].with_link(
                        edge.lower,
                        Link::Malformed(MalformedTree::UnresolvedOffset),
                    ),
                );
            },
            Some(to) => {
                if walk.nodes[to].visit is Some {
                    lemma_unvisited_update(
                        walk.nodes,
                        from,
                        walk.nodes[from].with_link(
                            edge.lower,
                            Link::Malformed(MalformedTree::RevisitedRecord),
                        ),
                    );
                } else {
                    let linked = walk.nodes.update(
                        from,
                        walk.nodes[from].with_link(edge.lower, Link::Record(to as usize)),
                    );
                    lemma_unvisited_update(
                        walk.nodes,
                        from,
                        walk.nodes[from].with_link(edge.lower, Link::Record(to as usize)),
                    );
                    lemma_unvisited_update(linked, to, after.nodes[to]);
                    assert forall|k: int| 0 <= k < after.pending.len() implies (
                    #[trigger] after.pending[k]).from < links.len() by {
                        if k < rest.len() {
                            assert(after.pending[k] == walk.pending[k]);
                        }
                    }
                }
            },
        }
    }
}

} // verus!
