use dicomdir::{Link, MalformedTree, RecordLinks, RecordTree, TreeNode};

fn links(rows: &[(u32, u32, u32)]) -> Vec<RecordLinks> {
    rows.iter().map(|&(offset, next, lower)| RecordLinks { offset, next, lower }).collect()
}

const UNRESOLVED: Link = Link::Malformed(MalformedTree::UnresolvedOffset);
const REVISITED: Link = Link::Malformed(MalformedTree::RevisitedRecord);

#[test]
fn no_records_no_tree() {
    let tree = RecordTree::from_links(&links(&[]));
    assert_eq!(tree.len(), 0);
    assert_eq!(tree.roots(), Vec::<usize>::new());
    assert_eq!(tree.visit_order(), &Vec::<usize>::new());
    assert_eq!(tree.node(0), None);
    assert_eq!(tree.children(0), Vec::<usize>::new());
    assert_eq!(tree.siblings(0), Vec::<usize>::new());
}

#[test]
fn single_record() {
    let tree = RecordTree::from_links(&links(&[(100, 0, 0)]));
    assert_eq!(tree.roots(), vec![0]);
    assert_eq!(
        tree.node(0),
        Some(TreeNode {
            visit: Some(0),
            parent: None,
            previous: None,
            lower: Link::Absent,
            next: Link::Absent
        })
    );
    assert_eq!(tree.node(1), None);
}

#[test]
fn patient_study_series_images() {
    // (offset, next, lower)
    let tree = RecordTree::from_links(&links(&[
        (100, 600, 200), // 0 patient
        (200, 0, 300),   // 1 study
        (300, 0, 400),   // 2 series
        (400, 500, 0),   // 3 image
        (500, 0, 0),     // 4 image
        (600, 0, 700),   // 5 patient
        (700, 0, 0),     // 6 study
    ]));
    assert_eq!(tree.len(), 7);
    assert_eq!(tree.roots(), vec![0, 5]);
    assert_eq!(tree.children(0), vec![1]);
    assert_eq!(tree.children(1), vec![2]);
    assert_eq!(tree.children(2), vec![3, 4]);
    assert_eq!(tree.children(4), Vec::<usize>::new());
    assert_eq!(tree.children(5), vec![6]);
    assert_eq!(tree.siblings(0), vec![0, 5]);
    assert_eq!(tree.siblings(5), vec![0, 5]);
    assert_eq!(tree.siblings(3), vec![3, 4]);
    assert_eq!(tree.siblings(4), vec![3, 4]);
    assert_eq!(tree.siblings(6), vec![6]);
    assert_eq!(tree.visit_order(), &vec![0, 1, 2, 3, 4, 5, 6]);
    assert_eq!(
        tree.node(4),
        Some(TreeNode {
            visit: Some(4),
            parent: Some(2),
            previous: Some(3),
            lower: Link::Absent,
            next: Link::Absent
        })
    );
    assert_eq!(
        tree.node(0),
        Some(TreeNode {
            visit: Some(0),
            parent: None,
            previous: None,
            lower: Link::Record(1),
            next: Link::Record(5)
        })
    );
    for i in 0..7 {
        let node = tree.node(i).unwrap();
        assert!(!matches!(node.lower, Link::Malformed(_)));
        assert!(!matches!(node.next, Link::Malformed(_)));
        assert!(!node.is_malformed());
    }
    assert_eq!(tree.malformed_records(), Vec::<usize>::new());
}

#[test]
fn records_need_not_be_stored_in_tree_order() {
    let tree = RecordTree::from_links(&links(&[
        (100, 300, 400), // 0: first root
        (200, 0, 0),     // 1: child of 3
        (300, 0, 200),   // 2: second root... its child is 1
        (400, 0, 0),     // 3: child of 0
    ]));
    assert_eq!(tree.roots(), vec![0, 2]);
    assert_eq!(tree.children(0), vec![3]);
    assert_eq!(tree.children(2), vec![1]);
    assert_eq!(tree.visit_order(), &vec![0, 3, 2, 1]);
    assert_eq!(tree.node(1).unwrap().visit, Some(3));
    assert_eq!(tree.node(1).unwrap().parent, Some(2));
}

#[test]
fn every_record_is_visited_once() {
    let tree = RecordTree::from_links(&links(&[
        (100, 600, 200),
        (200, 0, 300),
        (300, 100, 400),
        (400, 500, 200),
        (500, 400, 0),
        (600, 0, 700),
        (700, 300, 100),
    ]));
    let mut seen = tree.visit_order().clone();
    seen.sort();
    assert_eq!(seen, vec![0, 1, 2, 3, 4, 5, 6]);
}

#[test]
fn sibling_cycle_is_cut_and_marked() {
    let tree = RecordTree::from_links(&links(&[(100, 200, 0), (200, 300, 0), (300, 100, 0)]));
    assert_eq!(tree.roots(), vec![0, 1, 2]);
    assert_eq!(tree.node(0).unwrap().next, Link::Record(1));
    assert_eq!(tree.node(1).unwrap().next, Link::Record(2));
    assert_eq!(tree.node(2).unwrap().next, REVISITED);
    assert_eq!(tree.visit_order(), &vec![0, 1, 2]);
    assert_eq!(tree.malformed_records(), vec![2]);
    assert!(tree.node(2).unwrap().is_malformed());
    assert!(!tree.node(1).unwrap().is_malformed());
}

#[test]
fn record_that_is_its_own_child_is_marked() {
    let tree = RecordTree::from_links(&links(&[(100, 0, 100)]));
    assert_eq!(tree.roots(), vec![0]);
    assert_eq!(tree.children(0), Vec::<usize>::new());
    assert_eq!(tree.node(0).unwrap().lower, REVISITED);
    assert_eq!(tree.node(0).unwrap().parent, None);
}

#[test]
fn record_that_is_its_own_sibling_is_marked() {
    let tree = RecordTree::from_links(&links(&[(100, 100, 0)]));
    assert_eq!(tree.roots(), vec![0]);
    assert_eq!(tree.node(0).unwrap().next, REVISITED);
}

#[test]
fn child_that_leads_back_to_an_ancestor_is_marked() {
    let tree = RecordTree::from_links(&links(&[
        (100, 0, 200), // 0
        (200, 0, 300), // 1
        (300, 0, 100), // 2: lower leads back to 0
    ]));
    assert_eq!(tree.children(0), vec![1]);
    assert_eq!(tree.children(1), vec![2]);
    assert_eq!(tree.children(2), Vec::<usize>::new());
    assert_eq!(tree.node(2).unwrap().lower, REVISITED);
    assert_eq!(tree.node(2).unwrap().parent, Some(1));
}

#[test]
fn offset_that_names_no_record_is_marked() {
    let tree = RecordTree::from_links(&links(&[(100, 999, 200), (200, 0, 5)]));
    assert_eq!(tree.roots(), vec![0]);
    assert_eq!(tree.node(0).unwrap().next, UNRESOLVED);
    assert_eq!(tree.node(0).unwrap().lower, Link::Record(1));
    assert_eq!(tree.children(0), vec![1]);
    assert_eq!(tree.node(1).unwrap().lower, UNRESOLVED);
    assert_eq!(tree.children(1), Vec::<usize>::new());
    assert_eq!(tree.malformed_records(), vec![0, 1]);
}

#[test]
fn record_with_two_ways_in_keeps_the_first() {
    let tree = RecordTree::from_links(&links(&[
        (100, 200, 300), // 0: child 2, sibling 1
        (200, 0, 300),   // 1: claims 2 as its child too
        (300, 0, 0),     // 2
    ]));
    assert_eq!(tree.children(0), vec![2]);
    assert_eq!(tree.children(1), Vec::<usize>::new());
    assert_eq!(tree.node(1).unwrap().lower, REVISITED);
    assert_eq!(tree.node(2).unwrap().parent, Some(0));
    assert_eq!(tree.visit_order(), &vec![0, 2, 1]);
}

#[test]
fn lower_link_is_followed_before_the_next_link() {
    // both links of record 0 lead to record 1: it becomes the child
    let tree = RecordTree::from_links(&links(&[(100, 200, 200), (200, 0, 0)]));
    assert_eq!(tree.node(0).unwrap().lower, Link::Record(1));
    assert_eq!(tree.node(0).unwrap().next, REVISITED);
    assert_eq!(tree.children(0), vec![1]);
    assert_eq!(tree.roots(), vec![0]);
}

#[test]
fn record_that_nothing_leads_to_has_no_place() {
    let tree = RecordTree::from_links(&links(&[(100, 0, 0), (200, 100, 100), (300, 0, 0)]));
    assert_eq!(tree.roots(), vec![0]);
    assert_eq!(tree.visit_order(), &vec![0]);
    let unreached = TreeNode {
        visit: None,
        parent: None,
        previous: None,
        lower: Link::Absent,
        next: Link::Absent,
    };
    assert_eq!(tree.node(1), Some(unreached));
    assert_eq!(tree.node(2), Some(unreached));
    assert_eq!(tree.siblings(1), Vec::<usize>::new());
    assert_eq!(tree.children(1), Vec::<usize>::new());
    // the links of a record that was not reached are not followed
    assert_eq!(tree.malformed_records(), Vec::<usize>::new());
}

#[test]
fn first_of_two_records_at_one_offset_is_the_target() {
    let tree = RecordTree::from_links(&links(&[(100, 200, 0), (200, 0, 0), (200, 0, 0)]));
    assert_eq!(tree.roots(), vec![0, 1]);
    assert_eq!(tree.node(2).unwrap().visit, None);
}

#[test]
fn records_at_offset_zero_are_never_a_target() {
    let tree = RecordTree::from_links(&links(&[(0, 0, 0), (0, 0, 0)]));
    assert_eq!(tree.roots(), vec![0]);
    assert_eq!(tree.node(0).unwrap().next, Link::Absent);
    assert_eq!(tree.node(1).unwrap().visit, None);
}

#[test]
fn long_sibling_chain() {
    let n: u32 = 2000;
    let rows: Vec<(u32, u32, u32)> =
        (0..n).map(|i| (8 * (i + 1), if i + 1 < n { 8 * (i + 2) } else { 0 }, 0)).collect();
    let tree = RecordTree::from_links(&links(&rows));
    let expected: Vec<usize> = (0..n as usize).collect();
    assert_eq!(tree.roots(), expected);
    assert_eq!(tree.visit_order(), &expected);
}

#[test]
fn deep_chain_of_children() {
    let n: u32 = 2000;
    let rows: Vec<(u32, u32, u32)> =
        (0..n).map(|i| (8 * (i + 1), 0, if i + 1 < n { 8 * (i + 2) } else { 0 })).collect();
    let tree = RecordTree::from_links(&links(&rows));
    assert_eq!(tree.roots(), vec![0]);
    for i in 0..(n as usize - 1) {
        assert_eq!(tree.children(i), vec![i + 1]);
    }
    assert_eq!(tree.node(n as usize - 1).unwrap().parent, Some(n as usize - 2));
}

// A plain recursive reconstruction to hold the library against.
struct Plain {
    nodes: Vec<TreeNode>,
    order: Vec<usize>,
}

fn plain_follow(links: &[RecordLinks], plain: &mut Plain, from: usize, lower: bool) {
    let offset = if lower { links[from].lower } else { links[from].next };
    if offset == 0 {
        return;
    }
    let link = match links.iter().position(|l| l.offset == offset) {
        None => UNRESOLVED,
        Some(to) if plain.nodes[to].visit.is_some() => REVISITED,
        Some(to) => Link::Record(to),
    };
    if lower {
        plain.nodes[from].lower = link;
    } else {
        plain.nodes[from].next = link;
    }
    if let Link::Record(to) = link {
        plain.nodes[to] = TreeNode {
            visit: Some(plain.order.len()),
            parent: if lower { Some(from) } else { plain.nodes[from].parent },
            previous: if lower { None } else { Some(from) },
            lower: Link::Absent,
            next: Link::Absent,
        };
        plain.order.push(to);
        plain_follow(links, plain, to, true);
        plain_follow(links, plain, to, false);
    }
}

fn plain_tree(links: &[RecordLinks]) -> Plain {
    let blank = TreeNode {
        visit: None,
        parent: None,
        previous: None,
        lower: Link::Absent,
        next: Link::Absent,
    };
    let mut plain = Plain { nodes: vec![blank; links.len()], order: vec![] };
    if !links.is_empty() {
        plain.nodes[0].visit = Some(0);
        plain.order.push(0);
        plain_follow(links, &mut plain, 0, true);
        plain_follow(links, &mut plain, 0, false);
    }
    plain
}

fn plain_chain(plain: &Plain, first: usize) -> Vec<usize> {
    let mut chain = vec![first];
    let mut current = first;
    while let Link::Record(to) = plain.nodes[current].next {
        chain.push(to);
        current = to;
    }
    chain
}

#[test]
fn agrees_with_a_plain_recursive_reconstruction() {
    let mut state: u64 = 0x2545_F491_4F6C_DD1D;
    let mut next = |bound: u64| {
        state = state.wrapping_mul(6364136223846793005).wrapping_add(1442695040888963407);
        (state >> 33) % bound
    };
    for round in 0..4000 {
        let n = next(8) as usize;
        let rows: Vec<RecordLinks> = (0..n)
            .map(|_| RecordLinks {
                offset: 8 * next(n as u64 + 2) as u32,
                next: 8 * next(n as u64 + 2) as u32,
                lower: 8 * next(n as u64 + 2) as u32,
            })
            .collect();
        let tree = RecordTree::from_links(&rows);
        let plain = plain_tree(&rows);
        assert_eq!(tree.len(), n, "round {}: {:?}", round, rows);
        assert_eq!(tree.visit_order(), &plain.order, "round {}: {:?}", round, rows);
        for i in 0..n {
            assert_eq!(tree.node(i), Some(plain.nodes[i]), "round {}: {:?}", round, rows);
        }
        // every record that was reached stands once in the order of the visits
        let mut seen = plain.order.clone();
        seen.sort();
        seen.dedup();
        assert_eq!(seen.len(), tree.visit_order().len());
        // the levels
        if n > 0 {
            assert_eq!(tree.roots(), plain_chain(&plain, 0));
        }
        for i in 0..n {
            let children = match plain.nodes[i].lower {
                Link::Record(first) => plain_chain(&plain, first),
                _ => vec![],
            };
            assert_eq!(tree.children(i), children);
            let siblings = tree.siblings(i);
            assert_eq!(siblings.contains(&i), plain.nodes[i].visit.is_some());
            for &s in &siblings {
                assert_eq!(plain.nodes[s].parent, plain.nodes[i].parent);
            }
        }
        let malformed: Vec<usize> =
            (0..n).filter(|&i| plain.nodes[i].is_malformed()).collect();
        assert_eq!(tree.malformed_records(), malformed);
    }
}
