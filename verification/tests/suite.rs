//! Exercises the tree engine end to end: construction, mutation,
//! bracket notation, breadth-first round trips, the depth-first cursor
//! and the shared-ownership layer.

use trees::bfs::Visit;
use trees::size::Size;
use trees::walk::Visit as WalkVisit;
use trees::{Forest, Tree, TreeWalk};

/// A tree holding only the given text.
fn tl(d: &str) -> Tree<String> {
    Tree::new(d.to_string())
}

/// The tree `0( 1( 2 3 ) 4( 5 6 ) )` over strings.
fn sample_tree() -> Tree<String> {
    let mut n1 = tl("1");
    n1.push_back(tl("2"));
    n1.push_back(tl("3"));
    let mut n4 = tl("4");
    n4.push_back(tl("5"));
    n4.push_back(tl("6"));
    let mut t = tl("0");
    t.push_back(n1);
    t.push_back(n4);
    t
}

/// The same shape over numbers, for size checks.
fn sample_tree_u64() -> Tree<u64> {
    let mut n1 = Tree::new(1u64);
    n1.push_back(Tree::new(2));
    n1.push_back(Tree::new(3));
    let mut n4 = Tree::new(4u64);
    n4.push_back(Tree::new(5));
    n4.push_back(Tree::new(6));
    let mut t = Tree::new(0u64);
    t.push_back(n1);
    t.push_back(n4);
    t
}

#[test]
fn piled_tree_from_bfs() {
    let linked = sample_tree();
    let piled = Tree::from_bfs(linked.into_bfs()).unwrap();
    assert_eq!(piled.to_string(), "0( 1( 2 3 ) 4( 5 6 ) )");
}

#[test]
fn piled_forest_from_bfs() {
    let mut linked: Forest<String> = Forest::new();
    let mut n1 = tl("1");
    n1.push_back(tl("2"));
    n1.push_back(tl("3"));
    let mut n4 = tl("4");
    n4.push_back(tl("5"));
    n4.push_back(tl("6"));
    linked.push_back(n1);
    linked.push_back(n4);
    let bfs = linked.into_bfs();
    let piled = Forest::from_bfs(bfs).unwrap();
    assert_eq!(piled.to_string(), "( 1( 2 3 ) 4( 5 6 ) )");
}

#[test]
fn piled_tree_from_bfs_1_1() {
    let mut n2 = tl("2");
    n2.push_back(tl("3"));
    let mut linked = tl("1");
    linked.push_back(n2);
    let bfs = linked.into_bfs();
    let piled = Tree::from_bfs(bfs).unwrap();
    assert_eq!(piled.to_string(), "1( 2( 3 ) )");
}

#[test]
fn piled_forest_from_bfs_1_1() {
    let mut forest: Forest<String> = Forest::new();
    let mut n1 = tl("1");
    n1.push_back(tl("2"));
    forest.push_back(n1);
    let bfs = forest.into_bfs();
    let forest = Forest::from_bfs(bfs).unwrap();
    assert_eq!(forest.to_string(), "( 1( 2 ) )");
}

#[test]
fn has_no_child() {
    let mut forest: Forest<String> = Forest::new();
    assert!(forest.has_no_child());
    forest.push_back(tl("1"));
    assert!(!forest.has_no_child());
}

#[test]
fn push_front() {
    let mut forest: Forest<String> = Forest::new();
    forest.push_front(tl("1"));
    assert_eq!(forest.to_string(), "( 1 )");
    forest.push_front(tl("2"));
    assert_eq!(forest.to_string(), "( 2 1 )");
}

#[test]
fn push_back() {
    let mut forest: Forest<String> = Forest::new();
    forest.push_back(tl("1"));
    assert_eq!(forest.to_string(), "( 1 )");
    forest.push_back(tl("2"));
    assert_eq!(forest.to_string(), "( 1 2 )");
}

#[test]
fn pop_front() {
    let mut forest: Forest<String> = Forest::new();
    forest.push_back(tl("1"));
    forest.push_back(tl("2"));
    assert_eq!(forest.to_string(), "( 1 2 )");
    assert_eq!(forest.pop_front().unwrap().to_string(), "1");
    assert_eq!(forest.to_string(), "( 2 )");
    assert_eq!(forest.pop_front().unwrap().to_string(), "2");
    assert_eq!(forest.to_string(), "()");
    assert!(forest.pop_front().is_none());
}

#[test]
fn pop_back() {
    let mut forest: Forest<String> = Forest::new();
    forest.push_back(tl("1"));
    forest.push_back(tl("2"));
    assert_eq!(forest.to_string(), "( 1 2 )");
    assert_eq!(forest.pop_back().unwrap().to_string(), "2");
    assert_eq!(forest.to_string(), "( 1 )");
    assert_eq!(forest.pop_back().unwrap().to_string(), "1");
    assert_eq!(forest.to_string(), "()");
    assert!(forest.pop_back().is_none());
}

#[test]
fn prepend() {
    let mut forest: Forest<String> = Forest::new();
    forest.push_back(tl("1"));
    forest.push_back(tl("2"));
    let mut forest2: Forest<String> = Forest::new();
    forest2.push_back(tl("3"));
    forest2.push_back(tl("4"));
    forest.prepend(forest2);
    assert_eq!(forest.to_string(), "( 3 4 1 2 )");
}

#[test]
fn append() {
    let mut forest: Forest<String> = Forest::new();
    forest.push_back(tl("1"));
    forest.push_back(tl("2"));
    let mut forest2: Forest<String> = Forest::new();
    forest2.push_back(tl("3"));
    forest2.push_back(tl("4"));
    forest.append(forest2);
    assert_eq!(forest.to_string(), "( 1 2 3 4 )");
}

#[test]
fn test_try_from_string() {
    let tree_string = "   0( 1( 2 3bc) 4( 5 6 ) )  ";
    let wrong_string = " ((0)";

    assert!(Tree::try_from(wrong_string).is_err());
    assert!(Tree::try_from("a").is_ok());
    assert!(Tree::try_from(&String::from(tree_string)).is_ok());

    assert_eq!(Tree::try_from("a").unwrap().to_string(), tl("a").to_string());

    let wrong_string = " (0)";
    assert!(Tree::try_from(wrong_string).is_err());
}

#[test]
fn insert_prev_sib() {
    let mut tree = tl("0");
    tree.push_back(tl("1"));
    tree.push_back(tl("2"));
    let root = tree.root_mut();
    root.insert_prev_sib(0, tl("3"));
    root.insert_prev_sib(2, tl("3"));
    assert_eq!(tree.to_string(), "0( 3 1 3 2 )");
}

#[test]
fn insert_next_sib() {
    let mut tree = tl("0");
    tree.push_back(tl("1"));
    tree.push_back(tl("2"));
    let root = tree.root_mut();
    root.insert_next_sib(0, tl("3"));
    root.insert_next_sib(2, tl("3"));
    assert_eq!(tree.to_string(), "0( 1 3 2 3 )");
}

#[test]
fn detach() {
    let mut forest: Forest<String> = Forest::new();
    forest.push_back(tl("1"));
    forest.push_back(tl("2"));
    forest.push_back(tl("3"));
    while forest.degree() > 0 {
        forest.pop_front();
    }
    assert!(forest.has_no_child());
    let mut tree = sample_tree();
    let sub = tree.root_mut().detach(0);
    assert_eq!(sub.to_string(), "1( 2 3 )");
}

#[test]
fn tree_push_front() {
    let mut tree = tl("0");
    tree.push_front(tl("1"));
    assert_eq!(tree.to_string(), "0( 1 )");
    tree.push_front(tl("2"));
    assert_eq!(tree.to_string(), "0( 2 1 )");
}

#[test]
fn tree_push_back() {
    let mut tree = tl("0");
    tree.push_back(tl("1"));
    assert_eq!(tree.to_string(), "0( 1 )");
    tree.push_back(tl("2"));
    assert_eq!(tree.to_string(), "0( 1 2 )");
}

#[test]
fn tree_prepend() {
    let mut tree = tl("0");
    tree.push_back(tl("1"));
    tree.push_back(tl("2"));
    let mut forest: Forest<String> = Forest::new();
    forest.push_back(tl("3"));
    forest.push_back(tl("4"));
    tree.prepend(forest);
    assert_eq!(tree.to_string(), "0( 3 4 1 2 )");
}

#[test]
fn abandon() {
    let mut tree = tl("0");
    tree.push_back(tl("1"));
    tree.push_back(tl("2"));
    let forest = tree.abandon();
    assert_eq!(forest.to_string(), "( 1 2 )");
    assert_eq!(tree.to_string(), tl("0").to_string());
}

#[test]
fn tree_pop_front() {
    let mut tree = tl("0");
    tree.push_back(tl("1"));
    tree.push_back(tl("2"));
    assert_eq!(tree.to_string(), "0( 1 2 )");
    assert_eq!(tree.pop_front().unwrap().to_string(), "1");
    assert_eq!(tree.to_string(), "0( 2 )");
    assert_eq!(tree.pop_front().unwrap().to_string(), "2");
    assert_eq!(tree.to_string(), "0");
    assert!(tree.pop_front().is_none());
}

#[test]
fn tree_pop_back() {
    let mut tree = tl("0");
    tree.push_back(tl("1"));
    tree.push_back(tl("2"));
    assert_eq!(tree.to_string(), "0( 1 2 )");
    assert_eq!(tree.pop_back().unwrap().to_string(), "2");
    assert_eq!(tree.to_string(), "0( 1 )");
    assert_eq!(tree.pop_back().unwrap().to_string(), "1");
    assert_eq!(tree.to_string(), "0");
    assert!(tree.pop_back().is_none());
}

#[test]
fn is_root() {
    let mut store = trees::RcStore::new();
    let mut t = tl("0");
    t.push_back(tl("1"));
    let root = store.from_tree(t);
    assert!(store.is_root(&root));
    let front = store.front(&root).unwrap();
    assert!(!store.is_root(&front));
}

#[test]
fn rc_has_no_child() {
    let mut store = trees::RcStore::new();
    let mut t = tl("0");
    t.push_back(tl("1"));
    let root = store.from_tree(t);
    assert!(!store.has_no_child(&root));
    let front = store.front(&root).unwrap();
    assert!(store.has_no_child(&front));
}

#[test]
fn front() {
    let mut store = trees::RcStore::new();
    let mut t = tl("0");
    t.push_back(tl("1"));
    t.push_back(tl("2"));
    let root = store.from_tree(t);
    let front = store.front(&root).unwrap();
    assert_eq!(store.data(&front), "1");
}

#[test]
fn back() {
    let mut store = trees::RcStore::new();
    let mut t = tl("0");
    t.push_back(tl("1"));
    t.push_back(tl("2"));
    let root = store.from_tree(t);
    let back = store.back(&root).unwrap();
    assert_eq!(store.data(&back), "2");
}

#[test]
fn parent() {
    let mut store = trees::RcStore::new();
    let mut t = tl("0");
    t.push_back(tl("1"));
    let root = store.from_tree(t);
    assert!(store.parent(&root).is_none());
    let tr_1 = store.front(&root).unwrap();
    let up = store.parent(&tr_1).unwrap();
    assert_eq!(store.data(&up), "0");
}

#[test]
fn iter_rc() {
    let mut store = trees::RcStore::new();
    let root = store.from_tree(tl("0"));
    assert_eq!(store.iter_rc(&root).len(), 0);

    let mut t = tl("0");
    t.push_back(tl("1"));
    t.push_back(tl("2"));
    let root = store.from_tree(t);
    let kids = store.iter_rc(&root);
    assert_eq!(kids.len(), 2);
    assert_eq!(store.data(&kids[0]), "1");
    assert_eq!(store.data(&kids[1]), "2");
}

#[test]
fn bfs_level_order_sizes() {
    // The whole-tree linearization: level order, each visit telling its
    // degree and descendant count.
    let tree = sample_tree_u64();
    let b = tree.into_bfs();
    let got: Vec<(u64, usize, usize)> = b
        .visits
        .iter()
        .map(|v| (v.data, v.size.degree, v.size.descendants))
        .collect();
    assert_eq!(
        got,
        vec![
            (0, 2, 6),
            (1, 2, 2),
            (4, 2, 2),
            (2, 0, 0),
            (3, 0, 0),
            (5, 0, 0),
            (6, 0, 0),
        ]
    );
    assert_eq!(b.size, Size { degree: 1, descendants: 6 });
}

#[test]
fn detach_keeps_both_parts() {
    // Detaching child `1` leaves the root with one child `4`, and the
    // detached subtree is the standalone tree `1( 2 3 )`.
    let mut tree = sample_tree_u64();
    let sub = tree.root_mut().detach(0);
    assert_eq!(tree.root().degree(), 1);
    assert_eq!(tree.root().node_count(), 4);
    assert_eq!(*tree.root().child(0).data(), 4);
    assert_eq!(sub.root().node_count(), 3);
    assert_eq!(*sub.root().data(), 1);
    assert_eq!(*sub.root().child(0).data(), 2);
    assert_eq!(*sub.root().child(1).data(), 3);
}

#[test]
fn round_trip_rebuilds_equal_tree() {
    let tree = sample_tree();
    let text = tree.to_string();
    let rebuilt = Tree::from_bfs(tree.into_bfs()).unwrap();
    assert_eq!(rebuilt.to_string(), text);
}

#[test]
fn from_bfs_rejects_inconsistent_stream() {
    // A stream whose degrees overrun the visit count is refused.
    let visits = vec![
        Visit { data: 0u64, size: Size { degree: 3, descendants: 1 } },
        Visit { data: 1u64, size: Size { degree: 0, descendants: 0 } },
    ];
    let b = trees::BfsTree { visits, size: Size { degree: 1, descendants: 1 } };
    assert!(Tree::from_bfs(b).is_err());
}

#[test]
fn deep_clone_is_independent() {
    let mut tree = sample_tree();
    let copy = tree.root().deep_clone();
    assert_eq!(copy.to_string(), tree.to_string());
    // Changing one tree leaves the other alone, in both directions.
    *tree.root_mut().data_mut() = "9".to_string();
    assert_eq!(copy.to_string(), "0( 1( 2 3 ) 4( 5 6 ) )");
    let mut copy = copy;
    *copy.root_mut().data_mut() = "8".to_string();
    assert_eq!(tree.to_string(), "9( 1( 2 3 ) 4( 5 6 ) )");
}

#[test]
fn walk_forward_visits_in_order() {
    // Driving the cursor with forward() alone brackets every branch and
    // reports every leaf once.
    let tree = sample_tree_u64();
    let mut walk = TreeWalk::from_tree(tree);
    let mut begins = 0usize;
    let mut leaves = 0usize;
    let mut ends = 0usize;
    let mut order: Vec<u64> = Vec::new();
    loop {
        match walk.get() {
            Some(WalkVisit::Begin(n)) => {
                begins += 1;
                order.push(*n.data());
            }
            Some(WalkVisit::Leaf(n)) => {
                leaves += 1;
                order.push(*n.data());
            }
            Some(WalkVisit::End(_)) => ends += 1,
            None => break,
        }
        walk.forward();
    }
    assert_eq!(begins + leaves, 7);
    assert_eq!(ends, 3);
    assert_eq!(order, vec![0, 1, 2, 3, 4, 5, 6]);
    let back = walk.into_tree();
    assert_eq!(back.root().node_count(), 7);
}

#[test]
fn walk_navigation() {
    let tree = sample_tree_u64();
    let mut walk = TreeWalk::from_tree(tree);
    let v = walk.to_child(1).unwrap();
    assert_eq!(*v.node().data(), 4);
    assert!(walk.get_parent().is_some());
    assert_eq!(*walk.get_parent().unwrap().data(), 0);
    let v = walk.to_child(0).unwrap();
    assert_eq!(*v.node().data(), 5);
    let v = walk.to_sib(1).unwrap();
    assert_eq!(*v.node().data(), 6);
    let v = walk.to_parent().unwrap();
    assert_eq!(*v.node().data(), 4);
}

#[test]
fn walk_revisit() {
    let tree = sample_tree_u64();
    let mut walk = TreeWalk::from_tree(tree);
    while walk.get().is_some() {
        walk.forward();
    }
    assert!(walk.get().is_none());
    walk.revisit();
    match walk.get() {
        Some(WalkVisit::Begin(n)) => assert_eq!(*n.data(), 0),
        _ => panic!("revisit must restart at the root"),
    }
}

#[test]
fn rc_works() {
    // Shared handles into one tree: writes through any handle are seen
    // through the others.
    let mut store = trees::RcStore::new();
    let mut n1 = tl("1");
    n1.push_back(tl("2"));
    let mut t = tl("0");
    t.push_back(n1);
    let rc_0 = store.from_tree(t);
    let rc_1 = store.front(&rc_0).unwrap();
    let rc_2 = store.front(&rc_1).unwrap();

    *store.data_mut(&rc_0) = "3".to_string();
    *store.data_mut(&rc_1) = "4".to_string();
    *store.data_mut(&rc_2) = "5".to_string();
    assert_eq!(store.data(&rc_0), "3");

    assert_eq!(store.data(&rc_1), "4");
    assert_eq!(store.data(&rc_2), "5");
}

#[test]
fn shared_handle_lifecycle() {
    // A shared handle to a node with two children: cloning raises the
    // count, dropping one clone leaves the subtree intact, dropping the
    // last releases it, and a weak handle then fails to upgrade.
    let mut store = trees::RcStore::new();
    let mut t = tl("0");
    t.push_back(tl("1"));
    t.push_back(tl("2"));
    let h = store.from_tree(t);
    let i = h.index();
    let h2 = store.rc(&h);
    assert_eq!(store.slots[i].strong, 2);
    let w = store.downgrade(&h);
    store.release(h2);
    assert_eq!(store.slots[i].strong, 1);
    assert_eq!(store.degree(&h), 2);
    let again = store.upgrade(&w).unwrap();
    store.release(again);
    store.release(h);
    assert_eq!(store.slots[i].strong, 0);
    assert!(store.upgrade(&w).is_none());
    store.release_weak(w);
    assert_eq!(store.slots[i].weak, 0);
}

#[test]
fn release_cascades_to_children() {
    // Dropping the last handle detaches and recounts the children; a
    // child with its own handle survives the parent's death.
    let mut store = trees::RcStore::new();
    let mut t = tl("0");
    t.push_back(tl("1"));
    t.push_back(tl("2"));
    let h = store.from_tree(t);
    let kid = store.front(&h).unwrap();
    let ki = kid.index();
    let other = store.back(&h).unwrap();
    let oi = other.index();
    store.release(other);
    store.release(h);
    // The first child had a handle of its own and lives on, now a root;
    // the second had none and died with its parent.
    assert_eq!(store.slots[ki].strong, 1);
    assert!(store.slots[ki].parent.is_none());
    assert_eq!(store.slots[oi].strong, 0);
    assert_eq!(store.data(&kid), "1");
    store.release(kid);
    assert_eq!(store.slots[ki].strong, 0);
}

#[test]
fn front_mut_edits_payload() {
    let mut forest: Forest<String> = Forest::new();
    forest.push_back(tl("1"));
    forest.push_back(tl("2"));
    *forest.front_mut().unwrap().data_mut() = "10".to_string();
    assert_eq!(forest.to_string(), "( 10 2 )");
    *forest.back_mut().unwrap().data_mut() = "20".to_string();
    assert_eq!(forest.to_string(), "( 10 20 )");
}

#[test]
fn children_and_descendants() {
    let tree = sample_tree_u64();
    assert_eq!(tree.root().children(), vec![1, 4]);
    assert_eq!(tree.root().descendants(), vec![0, 1, 4, 2, 3, 5, 6]);
    assert_eq!(tree.root().child(0).descendants(), vec![1, 2, 3]);
}

#[test]
fn deep_clone_forest_of_children() {
    let tree = sample_tree();
    let forest = tree.root().deep_clone_forest();
    assert_eq!(forest.to_string(), "( 1( 2 3 ) 4( 5 6 ) )");
}

#[test]
fn size_bookkeeping_follows_mutation() {
    // Cached degree and descendant counts always match the real shape.
    let mut tree = Tree::new(0u64);
    assert_eq!(tree.root().degree(), 0);
    assert_eq!(tree.root().node_count(), 1);
    tree.push_back(Tree::new(1));
    tree.push_back(Tree::new(2));
    assert_eq!(tree.root().degree(), 2);
    assert_eq!(tree.root().node_count(), 3);
    let mut forest: Forest<u64> = Forest::new();
    forest.push_back(Tree::new(3));
    forest.push_back(Tree::new(4));
    assert_eq!(forest.node_count(), 2);
    tree.append(forest);
    assert_eq!(tree.root().degree(), 4);
    assert_eq!(tree.root().node_count(), 5);
    tree.pop_front();
    assert_eq!(tree.root().degree(), 3);
    assert_eq!(tree.root().node_count(), 4);
}

#[test]
fn locate_first_by_data() {
    let tree = sample_tree();
    let node = tree.root().locate_first_by_data(&"4".to_string()).unwrap();
    assert_eq!(node.to_string(), "4( 5 6 )");
    let leaf = tree.root().locate_first_by_data(&"3".to_string()).unwrap();
    assert_eq!(leaf.to_string(), "3");
    assert!(tree.root().locate_first_by_data(&"9".to_string()).is_none());
}
