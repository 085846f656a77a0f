use negra_coref::{
    add_coref, assign_ids, format_tuple, marker_word, resolve_corefs, resolve_reference,
    CorefErrorKind, Features, IdMap, Tree,
};

/// One nonterminal over one terminal; the nonterminal carries `comment`.
/// Returns the tree and its terminal.
fn marked(comment: &str) -> (Tree, usize) {
    let mut t = Tree::new();
    let np = t.add_nonterminal(0);
    let w = t.add_terminal(np, 1);
    t.set_feature(np, "comment", Some(comment.to_string()));
    (t, w)
}

/// root -> A(t1 t2 t3), B(t4 t5): A is 500, B is 501.
fn two_phrases() -> Tree {
    let mut t = Tree::new();
    let a = t.add_nonterminal(0);
    let b = t.add_nonterminal(0);
    for p in 1..=3 {
        t.add_terminal(a, p);
    }
    for p in 4..=5 {
        t.add_terminal(b, p);
    }
    t
}

fn ids(corpus: &[Tree]) -> Vec<IdMap> {
    corpus.iter().map(|t| assign_ids(t).unwrap()).collect()
}

fn coref_of(t: &Tree, n: usize) -> Option<String> {
    t.nodes[n].features.get_val("coref")
}

#[test]
fn marker_resolves_to_target_span() {
    let (s1, w) = marked("R=coreferential.2:501");
    let mut corpus = vec![s1, two_phrases()];
    let maps = ids(&corpus);
    assert!(resolve_corefs(&mut corpus, &maps).is_ok());
    assert_eq!(coref_of(&corpus[0], w), Some("[(1,[4,5])]".to_string()));
    assert_eq!(coref_of(&corpus[1], 3), None);
}

#[test]
fn dot_before_the_tag_is_a_malformed_reference() {
    // the second dot-separated part of this word is the tag itself
    let (s1, w) = marked("x.R=coreferential.2:501");
    let mut corpus = vec![s1, two_phrases()];
    let maps = ids(&corpus);
    let e = resolve_corefs(&mut corpus, &maps).unwrap_err();
    assert_eq!(e.kind, CorefErrorKind::MalformedReference);
    assert_eq!(e.sentence, 0);
    assert_eq!(e.marker, "x.R=coreferential.2:501");
    assert_eq!(coref_of(&corpus[0], w), None);
}

#[test]
fn two_markers_accumulate_in_order() {
    let (s1, w) = marked("R=coreferential.2:501 R=coreferential.2:500");
    let mut corpus = vec![s1, two_phrases()];
    let maps = ids(&corpus);
    assert!(resolve_corefs(&mut corpus, &maps).is_ok());
    assert_eq!(coref_of(&corpus[0], w), Some("[(1,[4,5]),(1,[1,2,3])]".to_string()));
}

#[test]
fn every_terminal_below_the_marked_node_is_annotated() {
    let mut s1 = two_phrases();
    s1.set_feature(2, "comment", Some("R=coreferential.1:3".to_string()));
    let mut corpus = vec![s1];
    let maps = ids(&corpus);
    assert!(resolve_corefs(&mut corpus, &maps).is_ok());
    // B (node 2) covers positions 4 and 5, nodes 6 and 7
    assert_eq!(coref_of(&corpus[0], 6), Some("[(0,[3])]".to_string()));
    assert_eq!(coref_of(&corpus[0], 7), Some("[(0,[3])]".to_string()));
    assert_eq!(coref_of(&corpus[0], 3), None);
    assert_eq!(coref_of(&corpus[0], 2), None);
}

#[test]
fn other_annotations_are_left_alone() {
    let (s1, w) = marked("R=anaphoric.2:501 typo=x.1:1 Rcoreferential.2:9");
    let mut corpus = vec![s1, two_phrases()];
    let maps = ids(&corpus);
    assert!(resolve_corefs(&mut corpus, &maps).is_ok());
    assert_eq!(coref_of(&corpus[0], w), None);
}

#[test]
fn forward_reference_to_last_sentence() {
    let (s1, w) = marked("R=coreferential.5:1");
    let mut corpus = vec![s1, two_phrases(), two_phrases(), two_phrases(), two_phrases()];
    let maps = ids(&corpus);
    assert!(resolve_corefs(&mut corpus, &maps).is_ok());
    assert_eq!(coref_of(&corpus[0], w), Some("[(4,[1])]".to_string()));
}

#[test]
fn unknown_node_stops_everything() {
    let mut s1 = two_phrases();
    s1.set_feature(1, "comment", Some("R=coreferential.2:500".to_string()));
    let (s2, w2) = marked("R=coreferential.1:999");
    let mut corpus = vec![s1, s2];
    let maps = ids(&corpus);
    let e = resolve_corefs(&mut corpus, &maps).unwrap_err();
    assert_eq!(e.kind, CorefErrorKind::UnknownNode);
    assert_eq!(e.sentence, 1);
    assert_eq!(e.marker, "R=coreferential.1:999");
    // nothing was written, not even for the marker that resolved
    for n in 0..corpus[0].num_nodes() {
        assert_eq!(coref_of(&corpus[0], n), None);
    }
    assert_eq!(coref_of(&corpus[1], w2), None);
}

#[test]
fn error_kinds() {
    let corpus = vec![two_phrases(), two_phrases()];
    let maps = ids(&corpus);
    let kind = |w: &str| resolve_reference(&corpus, &maps, w).unwrap_err();
    assert_eq!(kind("R=coreferential"), CorefErrorKind::MissingReference);
    assert_eq!(kind("R=coreferential.2-501"), CorefErrorKind::MalformedReference);
    assert_eq!(kind("R=coreferential.2:5:01"), CorefErrorKind::MalformedReference);
    assert_eq!(kind("R=coreferential.0:1"), CorefErrorKind::UnknownSentence);
    assert_eq!(kind("R=coreferential.3:1"), CorefErrorKind::UnknownSentence);
    assert_eq!(kind("R=coreferential.x:1"), CorefErrorKind::UnknownSentence);
    assert_eq!(kind("R=coreferential.2:6"), CorefErrorKind::UnknownNode);
    assert_eq!(kind("R=coreferential.2:501x"), CorefErrorKind::UnknownNode);
}

#[test]
fn reference_parts() {
    let corpus = vec![two_phrases(), two_phrases()];
    let maps = ids(&corpus);
    assert_eq!(resolve_reference(&corpus, &maps, "R=coreferential.2:0").unwrap(), (1, vec![1, 2, 3, 4, 5]));
    assert_eq!(resolve_reference(&corpus, &maps, "R=coreferential.+02:500.rest").unwrap(), (1, vec![1, 2, 3]));
    assert_eq!(resolve_reference(&corpus, &maps, "R=coreferential.1:4").unwrap(), (0, vec![4]));
}

#[test]
fn marker_words() {
    assert!(marker_word("R=coreferential.1:2"));
    assert!(marker_word("xR=coreferentialy"));
    assert!(!marker_word("R=coreferentia"));
    assert!(!marker_word(""));
}

#[test]
fn tuple_format() {
    assert_eq!(format_tuple(1, &vec![4, 5]), "(1,[4,5])");
    assert_eq!(format_tuple(0, &vec![12]), "(0,[12])");
    assert_eq!(format_tuple(10, &vec![]), "(10,[])");
}

#[test]
fn coref_values_grow() {
    let mut f = Features::new();
    add_coref(&mut f, "(0,[1])");
    assert_eq!(f.get_val("coref"), Some("[(0,[1])]".to_string()));
    add_coref(&mut f, "(2,[3,4])");
    assert_eq!(f.get_val("coref"), Some("[(0,[1]),(2,[3,4])]".to_string()));
    let mut g = Features::new();
    g.insert("coref", None);
    add_coref(&mut g, "(0,[1])");
    assert_eq!(g.get_val("coref"), Some("[(0,[1])]".to_string()));
}

#[test]
fn running_twice_duplicates_tuples() {
    let (s1, w) = marked("R=coreferential.2:501");
    let mut corpus = vec![s1, two_phrases()];
    let maps = ids(&corpus);
    assert!(resolve_corefs(&mut corpus, &maps).is_ok());
    assert!(resolve_corefs(&mut corpus, &maps).is_ok());
    assert_eq!(coref_of(&corpus[0], w), Some("[(1,[4,5]),(1,[4,5])]".to_string()));
}
