use negra_coref::{assign_ids, IdMap, Tree};

// root -> A -> B -> t1 ; root -> C -> t2
fn chain_tree() -> (Tree, usize, usize, usize, usize, usize) {
    let mut t = Tree::new();
    let a = t.add_nonterminal(0);
    let b = t.add_nonterminal(a);
    let t1 = t.add_terminal(b, 1);
    let c = t.add_nonterminal(0);
    let t2 = t.add_terminal(c, 2);
    (t, a, b, c, t1, t2)
}

// root -> A(t1 t2 t3), B(t4 t5)
fn two_phrases() -> (Tree, usize, usize) {
    let mut t = Tree::new();
    let a = t.add_nonterminal(0);
    let b = t.add_nonterminal(0);
    for p in 1..=3 {
        t.add_terminal(a, p);
    }
    for p in 4..=5 {
        t.add_terminal(b, p);
    }
    (t, a, b)
}

#[test]
fn root_is_zero_and_terminals_follow_positions() {
    let mut t = Tree::new();
    let np = t.add_nonterminal(0);
    let w3 = t.add_terminal(np, 3);
    let w1 = t.add_terminal(np, 1);
    let w2 = t.add_terminal(0, 2);
    let m = assign_ids(&t).unwrap();
    assert_eq!(m.lookup("0"), Some(0));
    assert_eq!(m.lookup("1"), Some(w1));
    assert_eq!(m.lookup("2"), Some(w2));
    assert_eq!(m.lookup("3"), Some(w3));
    assert_eq!(m.lookup("4"), None);
}

#[test]
fn ready_ancestors_are_numbered_first() {
    let (t, a, b, c, _, _) = chain_tree();
    let m = assign_ids(&t).unwrap();
    assert_eq!(m.nonterminals, vec![b, a, c]);
    assert_eq!(m.lookup("500"), Some(b));
    assert_eq!(m.lookup("501"), Some(a));
    assert_eq!(m.lookup("502"), Some(c));
    assert_eq!(m.lookup("503"), None);
}

#[test]
fn siblings_keep_left_to_right_order() {
    let (t, a, b) = two_phrases();
    let m = assign_ids(&t).unwrap();
    assert_eq!(m.lookup("500"), Some(a));
    assert_eq!(m.lookup("501"), Some(b));
}

#[test]
fn ids_are_one_to_one() {
    let (t, _, _, _, _, _) = chain_tree();
    let m: IdMap = assign_ids(&t).unwrap();
    let mut seen = vec![false; t.num_nodes()];
    for id in ["0", "1", "2", "500", "501", "502"] {
        let n = m.lookup(id).unwrap();
        assert!(!seen[n]);
        seen[n] = true;
    }
    assert!(seen.iter().all(|s| *s));
}

#[test]
fn children_are_numbered_before_parents() {
    let (t, _, _) = two_phrases();
    let (t2, _, _, _, _, _) = chain_tree();
    for tree in [&t, &t2] {
        let m = assign_ids(tree).unwrap();
        for (j, &nt) in m.nonterminals.iter().enumerate() {
            for &c in tree.nodes[nt].children.iter() {
                if !tree.node_is_terminal(c) {
                    let i = m.nonterminals.iter().position(|&x| x == c).unwrap();
                    assert!(i < j);
                }
            }
        }
    }
}

#[test]
fn identifiers_are_written_without_leading_zeros() {
    let (t, _, _) = two_phrases();
    let m = assign_ids(&t).unwrap();
    assert_eq!(m.lookup("01"), None);
    assert_eq!(m.lookup("+1"), None);
    assert_eq!(m.lookup(""), None);
    assert_eq!(m.lookup("0500"), None);
    assert_eq!(m.lookup("99999999999999999999999"), None);
}

#[test]
fn bad_positions_are_refused() {
    let mut t = Tree::new();
    t.add_terminal(0, 1);
    t.add_terminal(0, 1);
    assert!(assign_ids(&t).is_none());

    let mut gap = Tree::new();
    gap.add_terminal(0, 1);
    gap.add_terminal(0, 3);
    assert!(assign_ids(&gap).is_none());

    let mut zero = Tree::new();
    zero.add_terminal(0, 0);
    assert!(assign_ids(&zero).is_none());
}

#[test]
fn empty_tree_has_only_the_root() {
    let t = Tree::new();
    let m = assign_ids(&t).unwrap();
    assert_eq!(m.lookup("0"), Some(0));
    assert_eq!(m.lookup("1"), None);
    assert!(m.nonterminals.is_empty());
}

#[test]
fn span_is_union_of_children_in_order() {
    // root -> X(t2, Y(t4, t1)), t3
    let mut t = Tree::new();
    let x = t.add_nonterminal(0);
    t.add_terminal(x, 2);
    let y = t.add_nonterminal(x);
    t.add_terminal(y, 4);
    t.add_terminal(y, 1);
    t.add_terminal(0, 3);
    let order = t.terminals_in_order().unwrap();
    assert_eq!(t.span_positions(&order, y), vec![1, 4]);
    assert_eq!(t.span_positions(&order, x), vec![1, 2, 4]);
    assert_eq!(t.span_positions(&order, 0), vec![1, 2, 3, 4]);
    assert!(t.dominates_node(x, 4));
    assert!(!t.dominates_node(y, 2));
}
