//! The hierarchy of the directory records, reconstructed from the offsets
//! that link them.

use std::collections::HashMap;
use vstd::prelude::*;
use crate::record::{record_views, DirectoryRecord, RecordLinks, RecordView};
use crate::hierarchy::{
    blank, chain, malformed_before, reached, room, Link, MalformedTree, TreeNode, TreeView,
};
use crate::shape::{lemma_start_sound, lemma_step_sound, link_shape, node_shape, shape};
use crate::walk::{
    is_target, lemma_step_work, lemma_target, offset_of, reconstruction, run, start, step,
    target, Edge, Walk,
};

verus! {

/// The offsets by which each of the records is linked.
pub open spec fn links_of(records: Seq<RecordView>) -> Seq<RecordLinks> {
    records.map_values(|record: RecordView| record.links)
}

/// Whether `index` gives, for each offset, the record that begins there.
spec fn indexes(index: Map<u32, usize>, links: Seq<RecordLinks>) -> bool {
    forall|offset: u32|
        match #[trigger] target(links, offset) {
            Some(i) => index.contains_key(offset) && index[offset] == i,
            None => !index.contains_key(offset),
        }
}

/// For each offset at which a record begins, the first record that does.
fn index_offsets(links: &Vec<RecordLinks>) -> (index: HashMap<u32, usize>)
    ensures
        indexes(index@, links@),
{
    let mut index: HashMap<u32, usize> = HashMap::new();
    let mut i: usize = 0;
    while i < links.len()
        invariant
            i <= links@.len(),
            forall|offset: u32| #[trigger]
                index@.contains_key(offset) ==> is_target(links@, offset, index@[offset] as int),
            forall|j: int| 0 <= j < i ==> index@.contains_key((#[trigger] links@[j]).offset),
        decreases links.len() - i,
    {
        let offset = links[i].offset;
        if !index.contains_key(&offset) {
            assert(is_target(links@, offset, i as int));
            index.insert(offset, i);
        }
        i += 1;
    }
    proof {
        assert forall|offset: u32|
            match #[trigger] target(links@, offset) {
                Some(i) => index@.contains_key(offset) && index@[offset] == i,
                None => !index@.contains_key(offset),
            } by {
            lemma_target(links@, offset);
            match target(links@, offset) {
                Some(i) => {
                    assert(index@.contains_key(links@[i].offset));
                    let k = index@[offset] as int;
                    assert(is_target(links@, offset, k));
                    if k < i {
                        assert(links@[k].offset != offset);
                    } else if i < k {
                        assert(links@[i].offset != offset);
                    }
                },
                None => {
                    if index@.contains_key(offset) {
                        assert(is_target(links@, offset, index@[offset] as int));
                        assert(links@[index@[offset] as int].offset != offset);
                    }
                },
            }
        }
    }
    index
}

/// The record that begins at `offset`: the first one, should several claim
/// the same offset.
fn find_target(index: &HashMap<u32, usize>, offset: u32, Ghost(links): Ghost<Seq<RecordLinks>>) -> (r:
    Option<usize>)
    requires
        indexes(index@, links),
    ensures
        match r {
            Some(i) => target(links, offset) == Some(i as int),
            None => target(links, offset) is None,
        },
{
    assert(target(links, offset) is Some <==> index@.contains_key(offset));
    match index.get(&offset) {
        Some(i) => Some(*i),
        None => None,
    }
}

/// The hierarchy of a list of directory records.
#[derive(Debug)]
pub struct RecordTree {
    nodes: Vec<TreeNode>,
    order: Vec<usize>,
}

impl View for RecordTree {
    type V = TreeView;

    closed spec fn view(&self) -> TreeView {
        TreeView { nodes: self.nodes@, order: self.order@ }
    }
}

impl RecordTree {
    #[verifier::type_invariant]
    spec fn well_formed(self) -> bool {
        shape(self.nodes@, self.order@)
    }

    /// Reconstructs the hierarchy from the offsets of the records.
    ///
    /// The first record is the first of the top level. From each record that
    /// is reached, its lower-level offset is followed to its first child and
    /// its next-record offset to its next sibling. An offset at which no
    /// record begins, or one that leads to a record reached already, ends
    /// the chain there and is recorded as malformed in the link.
    pub fn from_links(links: &Vec<RecordLinks>) -> (tree: RecordTree)
        ensures
            tree@ == reconstruction(links@),
    {
        let n = links.len();
        let mut nodes: Vec<TreeNode> = Vec::new();
        let mut order: Vec<usize> = Vec::new();
        let mut pending: Vec<Edge> = Vec::new();
        let unreached = TreeNode {
            visit: None,
            parent: None,
            previous: None,
            lower: Link::Absent,
            next: Link::Absent,
        };
        let index = index_offsets(links);
        let mut i: usize = 0;
        while i < n
            invariant
                i <= n,
                unreached == blank(),
                nodes@.len() == i,
                forall|j: int|
                    0 <= j < i ==> #[trigger] nodes@[j] == if j == 0 {
                        TreeNode { visit: Some(0usize), ..blank() }
                    } else {
                        blank()
                    },
            decreases n - i,
        {
            if i == 0 {
                nodes.push(TreeNode { visit: Some(0), ..unreached });
            } else {
                nodes.push(unreached);
            }
            i += 1;
        }
        if n > 0 {
            order.push(0);
            pending.push(Edge { from: 0, lower: false });
            pending.push(Edge { from: 0, lower: true });
        }
        let ghost mut walk = Walk { nodes: nodes@, order: order@, pending: pending@ };
        proof {
            assert(walk.nodes =~= start(links@).nodes);
            assert(walk.order =~= start(links@).order);
            assert(walk.pending =~= start(links@).pending);
            lemma_start_sound(links@);
        }
        while pending.len() > 0
            invariant
                walk.nodes == nodes@,
                walk.order == order@,
                walk.pending == pending@,
                walk.sound(links@),
                run(links@, walk) == run(links@, start(links@)),
                indexes(index@, links@),
            decreases walk.work(),
        {
            proof {
                lemma_step_work(links@, walk);
                lemma_step_sound(links@, walk);
                lemma_target(links@, offset_of(links@, walk.pending.last()));
                assert(reached(walk.nodes, walk.pending[pending@.len() - 1].from as int));
            }
            let edge = pending.pop().unwrap();
            let from = edge.from;
            let offset = if edge.lower {
                links[from].lower
            } else {
                links[from].next
            };
            if offset != 0 {
                match find_target(&index, offset, Ghost(links@)) {
                    None => {
                        let marked = nodes[from].linked(
                            edge.lower,
                            Link::Malformed(MalformedTree::UnresolvedOffset),
                        );
                        nodes.set(from, marked);
                    },
                    Some(to) => {
                        if nodes[to].visit.is_some() {
                            let marked = nodes[from].linked(
                                edge.lower,
                                Link::Malformed(MalformedTree::RevisitedRecord),
                            );
                            nodes.set(from, marked);
                        } else {
                            let placed = TreeNode {
                                visit: Some(order.len()),
                                parent: if edge.lower {
                                    Some(from)
                                } else {
                                    nodes[from].parent
                                },
                                previous: if edge.lower {
                                    None
                                } else {
                                    Some(from)
                                },
                                lower: Link::Absent,
                                next: Link::Absent,
                            };
                            let linked = nodes[from].linked(edge.lower, Link::Record(to));
                            nodes.set(from, linked);
                            nodes.set(to, placed);
                            order.push(to);
                            pending.push(Edge { from: to, lower: false });
                            pending.push(Edge { from: to, lower: true });
                        }
                    },
                }
            }
            proof {
                let after = step(links@, walk);
                assert(after.nodes =~= nodes@);
                assert(after.order =~= order@);
                assert(after.pending =~= pending@);
                walk = after;
            }
        }
        RecordTree { nodes, order }
    }

    /// Reconstructs the hierarchy of a list of directory records.
    pub fn reconstruct(records: &Vec<DirectoryRecord>) -> (tree: RecordTree)
        ensures
            tree@ == reconstruction(links_of(record_views(records@))),
    {
        let mut links: Vec<RecordLinks> = Vec::new();
        let mut i: usize = 0;
        while i < records.len()
            invariant
                i <= records.len(),
                links@.len() == i,
                forall|j: int| 0 <= j < i ==> #[trigger] links@[j] == records@[j]@.links,
            decreases records.len() - i,
        {
            links.push(records[i].links());
            i += 1;
        }
        assert(links@ =~= links_of(record_views(records@)));
        RecordTree::from_links(&links)
    }

    /// The number of records.
    pub fn len(&self) -> (r: usize)
        ensures
            r == self@.nodes.len(),
    {
        self.nodes.len()
    }

    /// The place of record `i`; none where there is no such record.
    pub fn node(&self, i: usize) -> (r: Option<TreeNode>)
        ensures
            r == if i < self@.nodes.len() {
                Some(self@.nodes[i as int])
            } else {
                None
            },
    {
        if i < self.nodes.len() {
            Some(self.nodes[i])
        } else {
            None
        }
    }

    /// The records that were reached, in the order in which they were
    /// reached: each record before its children, the children in order.
    pub fn visit_order(&self) -> (r: &Vec<usize>)
        ensures
            r@ == self@.order,
    {
        &self.order
    }

    /// The records of which a link could not be followed, in the order of
    /// the records; none where the offsets describe a forest.
    pub fn malformed_records(&self) -> (r: Vec<usize>)
        ensures
            r@ == self@.malformed_records(),
    {
        let mut found: Vec<usize> = Vec::new();
        let mut i: usize = 0;
        while i < self.nodes.len()
            invariant
                i <= self.nodes@.len(),
                found@ == malformed_before(self.nodes@, i as int),
            decreases self.nodes.len() - i,
        {
            if self.nodes[i].is_malformed() {
                found.push(i);
            }
            i += 1;
        }
        found
    }

    /// Record `first` and the siblings behind it, in order.
    fn siblings_from(&self, first: usize) -> (r: Vec<usize>)
        requires
            reached(self@.nodes, first as int),
        ensures
            r@ == chain(self@.nodes, first as int),
    {
        proof {
            use_type_invariant(self);
        }
        let mut found: Vec<usize> = Vec::new();
        let mut current = first;
        loop
            invariant_except_break
                found@ + chain(self.nodes@, current as int) == chain(self.nodes@, first as int),
            invariant
                shape(self.nodes@, self.order@),
                reached(self.nodes@, current as int),
            ensures
                found@ == chain(self.nodes@, first as int),
            decreases room(self.nodes@, current as int),
        {
            proof {
                assert(node_shape(self.nodes@, self.order@, current as int));
                assert(link_shape(self.nodes@, current as int, false));
            }
            let ghost before_push = found@;
            found.push(current);
            match self.nodes[current].next {
                Link::Record(to) => {
                    proof {
                        assert(node_shape(self.nodes@, self.order@, to as int));
                        assert(chain(self.nodes@, current as int) == seq![current] + chain(
                            self.nodes@,
                            to as int,
                        ));
                        assert(found@ + chain(self.nodes@, to as int) =~= before_push + (
                        seq![current] + chain(self.nodes@, to as int)));
                    }
                    current = to;
                },
                _ => {
                    proof {
                        assert(chain(self.nodes@, current as int) == seq![current]);
                        assert(found@ =~= before_push + seq![current]);
                    }
                    break ;
                },
            }
        }
        found
    }

    /// The records of the top level, in order.
    pub fn roots(&self) -> (r: Vec<usize>)
        ensures
            r@ == self@.roots(),
    {
        proof {
            use_type_invariant(self);
        }
        if self.nodes.len() == 0 {
            Vec::new()
        } else {
            self.siblings_from(0)
        }
    }

    /// The children of record `i`, in order; none where there is no such
    /// record.
    pub fn children(&self, i: usize) -> (r: Vec<usize>)
        ensures
            r@ == self@.children(i as int),
    {
        proof {
            use_type_invariant(self);
        }
        if i >= self.nodes.len() {
            return Vec::new();
        }
        proof {
            assert(node_shape(self.nodes@, self.order@, i as int));
            assert(self.nodes@[i as int].visit is Some ==> link_shape(
                self.nodes@,
                i as int,
                true,
            ));
        }
        match self.nodes[i].lower {
            Link::Record(first) => self.siblings_from(first),
            _ => Vec::new(),
        }
    }

    /// The records of the level of record `i`, itself among them, in order;
    /// none where the record was not reached.
    pub fn siblings(&self, i: usize) -> (r: Vec<usize>)
        ensures
            r@ == self@.siblings(i as int),
    {
        proof {
            use_type_invariant(self);
        }
        if i >= self.nodes.len() {
            return Vec::new();
        }
        proof {
            assert(node_shape(self.nodes@, self.order@, i as int));
        }
        if self.nodes[i].visit.is_none() {
            return Vec::new();
        }
        match self.nodes[i].parent {
            Some(p) => self.children(p),
            None => self.roots(),
        }
    }
}

} // verus!
