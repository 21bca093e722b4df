//! The hierarchy of directory records: the place that the reconstruction
//! gives each record among the others, and the levels that the places
//! describe.

use vstd::prelude::*;

verus! {

/// What is wrong with a link between two records.
#[derive(Clone, Copy, PartialEq, Eq, Structural, Debug)]
pub enum MalformedTree {
    /// The offset is not zero, and no record begins there.
    UnresolvedOffset,
    /// The record that begins at the offset has its place already: the link
    /// closes a cycle, or leads to a record that another link led to before.
    RevisitedRecord,
}

/// What became of one of the two links of a record.
#[derive(Clone, Copy, PartialEq, Eq, Structural, Debug)]
pub enum Link {
    /// The offset is zero: there is no further record.
    Absent,
    /// The link leads to the record with this index.
    Record(usize),
    /// The link could not be followed.
    Malformed(MalformedTree),
}

/// The place of one record in the hierarchy.
#[derive(Clone, Copy, PartialEq, Eq, Debug)]
pub struct TreeNode {
    /// When the record was reached: the number of records reached before
    /// it. Absent for a record to which no link led.
    pub visit: Option<usize>,
    /// The record one level above.
    pub parent: Option<usize>,
    /// The sibling just before the record.
    pub previous: Option<usize>,
    /// The link to the first record one level below.
    pub lower: Link,
    /// The link to the next sibling.
    pub next: Link,
}

/// A reconstructed hierarchy: the place of each record, and the records that
/// were reached, in the order in which they were reached.
pub struct TreeView {
    pub nodes: Seq<TreeNode>,
    pub order: Seq<usize>,
}

/// The place of a record that was not reached.
pub open spec fn blank() -> TreeNode {
    TreeNode { visit: None, parent: None, previous: None, lower: Link::Absent, next: Link::Absent }
}

impl TreeNode {
    /// One of the two links of the record.
    pub open spec fn link(self, lower: bool) -> Link {
        if lower {
            self.lower
        } else {
            self.next
        }
    }

    /// Whether one of the two links of the record could not be followed.
    pub open spec fn malformed(self) -> bool {
        self.lower is Malformed || self.next is Malformed
    }

    /// The same place with one of the two links replaced.
    pub open spec fn with_link(self, lower: bool, link: Link) -> TreeNode {
        if lower {
            TreeNode { lower: link, ..self }
        } else {
            TreeNode { next: link, ..self }
        }
    }

    /// Whether one of the two links of the record could not be followed.
    pub fn is_malformed(&self) -> (r: bool)
        ensures
            r == self.malformed(),
    {
        let lower = match self.lower {
            Link::Malformed(_) => true,
            _ => false,
        };
        let next = match self.next {
            Link::Malformed(_) => true,
            _ => false,
        };
        lower || next
    }

    /// The same place with one of the two links replaced.
    pub fn linked(self, lower: bool, link: Link) -> (r: TreeNode)
        ensures
            r == self.with_link(lower, link),
    {
        if lower {
            TreeNode { lower: link, ..self }
        } else {
            TreeNode { next: link, ..self }
        }
    }
}

/// Whether record `v` has been reached.
pub open spec fn reached(nodes: Seq<TreeNode>, v: int) -> bool {
    0 <= v < nodes.len() && nodes[v].visit is Some
}

/// Whether both records have been reached, `u` before `v`.
pub open spec fn before(nodes: Seq<TreeNode>, u: int, v: int) -> bool {
    &&& reached(nodes, u)
    &&& reached(nodes, v)
    &&& nodes[u].visit->0 < nodes[v].visit->0
}

/// How many records can still follow record `v` in a chain of siblings.
pub open spec fn room(nodes: Seq<TreeNode>, v: int) -> int {
    if reached(nodes, v) && nodes[v].visit->0 <= nodes.len() {
        nodes.len() - nodes[v].visit->0
    } else {
        0
    }
}

/// Record `v` and the siblings behind it, in order: the chain of
/// next-record links that starts at `v`.
pub open spec fn chain(nodes: Seq<TreeNode>, v: int) -> Seq<usize>
    decreases room(nodes, v),
{
    match nodes[v].next {
        Link::Record(to) => if before(nodes, v, to as int) && nodes[to as int].visit->0
            <= nodes.len() {
            seq![v as usize] + chain(nodes, to as int)
        } else {
            seq![v as usize]
        },
        _ => seq![v as usize],
    }
}

/// The records before position `end` of which a link could not be followed,
/// in the order of the records.
pub open spec fn malformed_before(nodes: Seq<TreeNode>, end: int) -> Seq<usize>
    decreases end,
{
    if end <= 0 {
        Seq::empty()
    } else if nodes[end - 1].malformed() {
        malformed_before(nodes, end - 1).push((end - 1) as usize)
    } else {
        malformed_before(nodes, end - 1)
    }
}

impl TreeView {
    /// The records of which a link could not be followed, in the order of
    /// the records.
    pub open spec fn malformed_records(self) -> Seq<usize> {
        malformed_before(self.nodes, self.nodes.len() as int)
    }

    /// The records of the top level, in order.
    pub open spec fn roots(self) -> Seq<usize> {
        if self.nodes.len() == 0 {
            Seq::empty()
        } else {
            chain(self.nodes, 0)
        }
    }

    /// The children of record `v`, in order.
    pub open spec fn children(self, v: int) -> Seq<usize> {
        if 0 <= v < self.nodes.len() {
            match self.nodes[v].lower {
                Link::Record(first) => chain(self.nodes, first as int),
                _ => Seq::empty(),
            }
        } else {
            Seq::empty()
        }
    }

    /// The records of the level of record `v`, itself among them, in order:
    /// the children of its parent, or the top level. A record that was not
    /// reached stands on no level.
    pub open spec fn siblings(self, v: int) -> Seq<usize> {
        if reached(self.nodes, v) {
            match self.nodes[v].parent {
                Some(p) => self.children(p as int),
                None => self.roots(),
            }
        } else {
            Seq::empty()
        }
    }
}

} // verus!
