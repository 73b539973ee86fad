use mux_tab::bintree::{Cursor, Tree};

fn leaf(n: u32) -> Tree<u32, &'static str> {
    Tree::leaf(n)
}

fn split(c: Cursor<u32, &'static str>, n: u32, name: &'static str) -> Cursor<u32, &'static str> {
    let c = match c.split_leaf_and_insert_right(n) {
        Ok(c) => c,
        Err(_) => panic!("not at a leaf"),
    };
    match c.assign_node(Some(name)) {
        Ok(c) => c,
        Err(_) => panic!("not at a node"),
    }
}

/// ((1 2) 3): the root `outer` has the split `inner` as first child.
fn sample() -> Tree<u32, &'static str> {
    let c = split(leaf(1).cursor(), 3, "outer");
    let c = match c.go_left() {
        Ok(c) => c,
        Err(_) => panic!("no first child"),
    };
    split(c, 2, "inner").tree()
}

fn leaves_in_preorder(t: Tree<u32, &'static str>) -> (Vec<u32>, Tree<u32, &'static str>) {
    let mut seen = vec![];
    let mut c = t.cursor();
    loop {
        if let Some(l) = c.leaf_mut() {
            seen.push(*l);
        }
        match c.preorder_next() {
            Ok(next) => c = next,
            Err(t) => return (seen, t),
        }
    }
}

#[test]
fn empty_tree_has_no_leaves() {
    let t: Tree<u32, &'static str> = Tree::new();
    assert!(t.is_empty());
    assert_eq!(t.num_leaves(), 0);
    let c = t.cursor();
    assert!(c.is_top());
    assert!(!c.is_leaf());
    assert!(!c.is_left());
    assert!(!c.is_right());
    match c.preorder_next() {
        Ok(_) => panic!("nothing to walk"),
        Err(t) => assert!(t.is_empty()),
    }
}

#[test]
fn assign_top_only_on_empty_tree() {
    let t: Tree<u32, &'static str> = Tree::new();
    let c = match t.cursor().assign_top(5) {
        Ok(c) => c,
        Err(_) => panic!("empty tree takes a root"),
    };
    assert!(c.is_leaf());
    let t = c.tree();
    assert_eq!(t.num_leaves(), 1);
    match t.cursor().assign_top(6) {
        Ok(_) => panic!("second root accepted"),
        Err(c) => assert_eq!(leaves_in_preorder(c.tree()).0, vec![5]),
    }
}

#[test]
fn preorder_visits_leaves_left_to_right() {
    let t = sample();
    assert_eq!(t.num_leaves(), 3);
    let (seen, t) = leaves_in_preorder(t);
    assert_eq!(seen, vec![1, 2, 3]);
    // the tree comes back whole
    assert_eq!(leaves_in_preorder(t).0, vec![1, 2, 3]);
}

#[test]
fn preorder_visits_nodes_before_their_children() {
    let mut c = sample().cursor();
    let mut names = vec![];
    loop {
        if let Some(n) = c.node_mut() {
            names.push(n.unwrap());
        }
        match c.preorder_next() {
            Ok(next) => c = next,
            Err(_) => break,
        }
    }
    assert_eq!(names, vec!["outer", "inner"]);
}

#[test]
fn go_to_nth_leaf_counts_in_preorder() {
    for n in 0..3usize {
        let mut c = match sample().cursor().go_to_nth_leaf(n) {
            Ok(c) => c,
            Err(_) => panic!("leaf {} exists", n),
        };
        assert!(c.is_leaf());
        assert_eq!(*c.leaf_mut().unwrap(), n as u32 + 1);
    }
    match sample().cursor().go_to_nth_leaf(3) {
        Ok(_) => panic!("there are three leaves"),
        Err(c) => {
            assert!(c.is_top());
            assert_eq!(c.tree().num_leaves(), 3);
        }
    }
}

#[test]
fn path_to_root_starts_at_the_parent() {
    let c = match sample().cursor().go_to_nth_leaf(1) {
        Ok(c) => c,
        Err(_) => panic!("leaf 1 exists"),
    };
    assert!(c.is_right());
    let names: Vec<&str> = c.path_to_root().iter().map(|n| n.unwrap()).collect();
    assert_eq!(names, vec!["inner", "outer"]);
    let c = match sample().cursor().go_to_nth_leaf(2) {
        Ok(c) => c,
        Err(_) => panic!("leaf 2 exists"),
    };
    assert!(c.is_right());
    let names: Vec<&str> = c.path_to_root().iter().map(|n| n.unwrap()).collect();
    assert_eq!(names, vec!["outer"]);
    let c = sample().cursor();
    assert!(c.path_to_root().is_empty());
}

#[test]
fn split_puts_new_leaf_second_without_payload() {
    let c = match leaf(1).cursor().split_leaf_and_insert_right(2) {
        Ok(c) => c,
        Err(_) => panic!("a leaf can be split"),
    };
    let mut c = c;
    assert!(!c.is_leaf());
    assert_eq!(*c.node_mut().unwrap(), None);
    let mut first = match c.go_left() {
        Ok(c) => c,
        Err(_) => panic!("no first child"),
    };
    assert!(first.is_left());
    assert_eq!(*first.leaf_mut().unwrap(), 1);
    let up = match first.go_up() {
        Ok(c) => c,
        Err(_) => panic!("no parent"),
    };
    let mut second = match up.go_right() {
        Ok(c) => c,
        Err(_) => panic!("no second child"),
    };
    assert!(second.is_right());
    assert_eq!(*second.leaf_mut().unwrap(), 2);
}

#[test]
fn split_and_assign_fail_where_they_do_not_apply() {
    let c = sample().cursor();
    let c = match c.split_leaf_and_insert_right(9) {
        Ok(_) => panic!("a node was split"),
        Err(c) => c,
    };
    assert_eq!(c.tree().num_leaves(), 3);
    match leaf(1).cursor().assign_node(Some("x")) {
        Ok(_) => panic!("a leaf took a payload"),
        Err(c) => assert!(c.is_leaf()),
    }
    match leaf(1).cursor().go_left() {
        Ok(_) => panic!("a leaf has no child"),
        Err(c) => assert!(c.is_leaf()),
    }
    match leaf(1).cursor().go_right() {
        Ok(_) => panic!("a leaf has no child"),
        Err(c) => assert!(c.is_leaf()),
    }
    match leaf(1).cursor().go_up() {
        Ok(_) => panic!("the root has no parent"),
        Err(c) => assert!(c.is_top()),
    }
}

#[test]
fn unsplit_replaces_parent_by_sibling() {
    let c = match sample().cursor().go_to_nth_leaf(0) {
        Ok(c) => c,
        Err(_) => panic!("leaf 0 exists"),
    };
    let (mut c, gone, payload) = match c.unsplit_leaf() {
        Ok(r) => r,
        Err(_) => panic!("leaf 0 has a parent"),
    };
    assert_eq!(gone, 1);
    assert_eq!(payload, Some("inner"));
    // the sibling stands where the split `inner` stood: first child of the root
    assert!(c.is_left());
    assert_eq!(*c.leaf_mut().unwrap(), 2);
    assert_eq!(leaves_in_preorder(c.tree()).0, vec![2, 3]);

    let c = match sample().cursor().go_to_nth_leaf(2) {
        Ok(c) => c,
        Err(_) => panic!("leaf 2 exists"),
    };
    let (c, gone, payload) = match c.unsplit_leaf() {
        Ok(r) => r,
        Err(_) => panic!("leaf 2 has a parent"),
    };
    assert_eq!(gone, 3);
    assert_eq!(payload, Some("outer"));
    assert!(c.is_top());
    assert!(!c.is_leaf());
    assert_eq!(leaves_in_preorder(c.tree()).0, vec![1, 2]);
}

#[test]
fn unsplit_fails_at_the_root() {
    match leaf(1).cursor().unsplit_leaf() {
        Ok(_) => panic!("the root leaf has no sibling"),
        Err(c) => assert_eq!(c.tree().num_leaves(), 1),
    }
    match sample().cursor().unsplit_leaf() {
        Ok(_) => panic!("a node is no leaf"),
        Err(c) => assert_eq!(c.tree().num_leaves(), 3),
    }
}

#[test]
fn leaf_mut_changes_the_leaf_in_place() {
    let mut c = match sample().cursor().go_to_nth_leaf(1) {
        Ok(c) => c,
        Err(_) => panic!("leaf 1 exists"),
    };
    *c.leaf_mut().unwrap() = 20;
    assert!(c.node_mut().is_none());
    assert_eq!(leaves_in_preorder(c.tree()).0, vec![1, 20, 3]);
    let mut c = sample().cursor();
    assert!(c.leaf_mut().is_none());
    *c.node_mut().unwrap() = Some("renamed");
    assert_eq!(c.path_to_root().len(), 0);
}
