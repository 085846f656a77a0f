use vstd::prelude::*;
use vstd::string::*;
use crate::features::{Features, entry_of, stored, keys_unique};
use crate::ids::IdMap;
use crate::text::{
    contains, contains_text, decimal_text, find_char, index_of, parse_usize, parsed_usize,
    push_decimal, split_words, words,
};
use crate::tree::{Node, Tree};

verus! {

/// Why a coreference marker could not be resolved.
#[derive(Debug, Clone, Copy, PartialEq, Eq, Structural)]
pub enum CorefErrorKind {
    /// The marker has no second `.`-separated component.
    MissingReference,
    /// That component is not `sentence:node`.
    MalformedReference,
    /// The sentence number is not a sentence of the corpus.
    UnknownSentence,
    /// The node id names no node of that sentence.
    UnknownNode,
}

/// A fatal resolution error, with the sentence (0-based) whose comment held
/// the marker, and the marker's text.
pub struct CorefError {
    pub kind: CorefErrorKind,
    pub sentence: usize,
    pub marker: String,
}

/// The text that makes a comment word a coreference marker.
pub open spec fn marker_tag() -> Seq<char> {
    seq!['R', '=', 'c', 'o', 'r', 'e', 'f', 'e', 'r', 'e', 'n', 't', 'i', 'a', 'l']
}

/// The feature that collects resolved coreferences.
pub open spec fn coref_key() -> Seq<char> {
    seq!['c', 'o', 'r', 'e', 'f']
}

pub open spec fn is_marker(word: Seq<char>) -> bool {
    contains_text(word, marker_tag())
}

/// The second `.`-separated component of a marker.
pub open spec fn reference_part(word: Seq<char>) -> Option<Seq<char>> {
    let d = index_of(word, '.') as int;
    if d >= word.len() {
        None
    } else {
        let rest = word.skip(d + 1);
        Some(rest.take(index_of(rest, '.') as int))
    }
}

/// `sentence:node`, split at its only colon.
pub open spec fn split_reference(r: Seq<char>) -> Option<(Seq<char>, Seq<char>)> {
    let c = index_of(r, ':') as int;
    if c >= r.len() {
        None
    } else {
        let right = r.skip(c + 1);
        if index_of(right, ':') < right.len() {
            None
        } else {
            Some((r.take(c), right))
        }
    }
}

/// What a marker refers to: the 0-based index of the target sentence and
/// the target node in it.
pub open spec fn target_of(maps: Seq<IdMap>, word: Seq<char>) -> Result<
    (int, usize),
    CorefErrorKind,
> {
    match reference_part(word) {
        None => Err(CorefErrorKind::MissingReference),
        Some(r) => match split_reference(r) {
            None => Err(CorefErrorKind::MalformedReference),
            Some((sent, node)) => match parsed_usize(sent) {
                None => Err(CorefErrorKind::UnknownSentence),
                Some(v) => if v == 0 || v > maps.len() {
                    Err(CorefErrorKind::UnknownSentence)
                } else {
                    match maps[v - 1].node_of_text(node) {
                        None => Err(CorefErrorKind::UnknownNode),
                        Some(x) => Ok((v - 1, x)),
                    }
                },
            },
        },
    }
}

/// Every sentence is well formed and numbered by its identifier map.
pub open spec fn corpus_ready(corpus: Seq<Tree>, maps: Seq<IdMap>) -> bool {
    &&& corpus.len() == maps.len()
    &&& forall|i: int|
        0 <= i < corpus.len() ==> (#[trigger] corpus[i]).wf() && maps[i].numbers(&corpus[i])
}

/// `ps` lists the members of `s` in increasing order.
pub open spec fn enumerates(ps: Seq<usize>, s: Set<int>) -> bool {
    &&& forall|a: int, b: int| 0 <= a < b < ps.len() ==> ps[a] < ps[b]
    &&& forall|q: usize| ps.contains(q) <==> s.contains(q as int)
}

/// Positions joined by commas.
pub open spec fn joined(ps: Seq<usize>) -> Seq<char>
    decreases ps.len(),
{
    if ps.len() == 0 {
        Seq::empty()
    } else if ps.len() == 1 {
        decimal_text(ps[0] as nat)
    } else {
        joined(ps.drop_last()) + seq![','] + decimal_text(ps.last() as nat)
    }
}

/// `(t,[p1,...,pk])`.
pub open spec fn tuple_text(t: nat, ps: Seq<usize>) -> Seq<char> {
    seq!['('] + decimal_text(t) + seq![',', '['] + joined(ps) + seq![']', ')']
}

/// The coreference value after adding `tuple` to what was there.
pub open spec fn coref_after(prev: Option<Option<Seq<char>>>, tuple: Seq<char>) -> Seq<char> {
    match prev {
        Some(Some(c)) => if c.len() > 0 {
            c.drop_last() + seq![','] + tuple + seq![']']
        } else {
            seq!['['] + tuple + seq![']']
        },
        _ => seq!['['] + tuple + seq![']'],
    }
}

/// Features after adding `tuple` to their coreference value.
pub open spec fn with_coref(
    f: Seq<(Seq<char>, Option<Seq<char>>)>,
    tuple: Seq<char>,
) -> Seq<(Seq<char>, Option<Seq<char>>)> {
    stored(f, coref_key(), Some(coref_after(entry_of(f, coref_key()), tuple)))
}

/// Whether `word` is a coreference marker.
pub fn marker_word(word: &str) -> (r: bool)
    ensures
        r == is_marker(word@),
{
    let tag = "R=coreferential";
    proof {
        reveal_strlit("R=coreferential");
    }
    assert(tag@ =~= marker_tag());
    contains(word, tag)
}

/// Resolves the marker `word` to the target sentence's 0-based index and
/// the target node's span in increasing order.
pub fn resolve_reference(corpus: &Vec<Tree>, maps: &Vec<IdMap>, word: &str) -> (r: Result<
    (usize, Vec<usize>),
    CorefErrorKind,
>)
    requires
        corpus_ready(corpus@, maps@),
    ensures
        match r {
            Ok((t, ps)) => target_of(maps@, word@) matches Ok((tt, x)) && tt == t && enumerates(
                ps@,
                corpus@[t as int].span(x as int),
            ),
            Err(k) => target_of(maps@, word@) == Err::<(int, usize), CorefErrorKind>(k),
        },
{
    let n = word.unicode_len();
    let d = find_char(word, '.');
    if d == n {
        return Err(CorefErrorKind::MissingReference);
    }
    let rest = word.substring_char(d + 1, n);
    let e = find_char(rest, '.');
    let part = rest.substring_char(0, e);
    assert(part@ == reference_part(word@)->0);
    let len = part.unicode_len();
    let c = find_char(part, ':');
    if c == len {
        return Err(CorefErrorKind::MalformedReference);
    }
    let right = part.substring_char(c + 1, len);
    let left = part.substring_char(0, c);
    assert(right@ =~= part@.skip(c + 1));
    assert(left@ =~= part@.take(c as int));
    if find_char(right, ':') < right.unicode_len() {
        return Err(CorefErrorKind::MalformedReference);
    }
    let v = match parse_usize(left) {
        None => {
            return Err(CorefErrorKind::UnknownSentence);
        },
        Some(v) => v,
    };
    if v == 0 || v > maps.len() {
        return Err(CorefErrorKind::UnknownSentence);
    }
    let t = v - 1;
    let x = match maps[t].lookup(right) {
        None => {
            return Err(CorefErrorKind::UnknownNode);
        },
        Some(x) => x,
    };
    let ghost tt = corpus@[t as int];
    assert(tt.wf() && maps@[t as int].numbers(&tt));
    let ps = corpus[t].span_positions(&maps[t].terminals, x);
    Ok((t, ps))
}

/// `(t,[p1,...,pk])` for a target sentence index and its span.
pub fn format_tuple(t: usize, ps: &Vec<usize>) -> (r: String)
    ensures
        r@ == tuple_text(t as nat, ps@),
{
    proof {
        reveal_strlit("(");
        reveal_strlit(",[");
        reveal_strlit(",");
        reveal_strlit("])");
    }
    let mut out = String::new();
    out.append("(");
    push_decimal(&mut out, t);
    out.append(",[");
    let ghost head = out@;
    assert(ps@.take(0) =~= Seq::<usize>::empty());
    assert(out@ =~= head + joined(ps@.take(0)));
    let mut k: usize = 0;
    while k < ps.len()
        invariant
            k <= ps@.len(),
            out@ == head + joined(ps@.take(k as int)),
        decreases ps@.len() - k,
    {
        let ghost before = out@;
        if k > 0 {
            out.append(",");
        }
        push_decimal(&mut out, ps[k]);
        proof {
            let nxt = ps@.take(k + 1);
            assert(nxt.drop_last() =~= ps@.take(k as int));
            if k == 0 {
                assert(joined(ps@.take(0)) =~= Seq::<char>::empty());
                assert(before =~= head);
                assert(nxt.len() == 1 && nxt[0] == ps@[0]);
                assert(joined(nxt) == decimal_text(ps@[0] as nat));
                assert(out@ =~= head + joined(nxt));
            } else {
                assert(nxt.last() == ps@[k as int]);
                assert(nxt.len() >= 2);
                assert(joined(nxt) == joined(ps@.take(k as int)) + seq![','] + decimal_text(
                    ps@[k as int] as nat));
                reveal_strlit(",");
                assert(","@ =~= seq![',']);
                assert(out@ =~= head + joined(nxt));
            }
        }
        k = k + 1;
    }
    out.append("])");
    assert(ps@.take(ps@.len() as int) =~= ps@);
    assert(out@ =~= tuple_text(t as nat, ps@));
    out
}

/// The coreference value of `features` once `tuple` is added.
pub fn coref_value(features: &Features, tuple: &str) -> (r: String)
    requires
        features.wf(),
    ensures
        r@ == coref_after(entry_of(features@, coref_key()), tuple@),
{
    proof {
        reveal_strlit("coref");
        reveal_strlit("[");
        reveal_strlit(",");
        reveal_strlit("]");
    }
    let key = "coref";
    assert(key@ =~= coref_key());
    let prev = features.get(key);
    let mut value = String::new();
    let mut fresh = true;
    match prev {
        Some(Some(c)) => {
            let len = c.as_str().unicode_len();
            if len > 0 {
                value = String::from_str(c.as_str().substring_char(0, len - 1));
                value.append(",");
                value.append(tuple);
                value.append("]");
                fresh = false;
                assert(value@ =~= c@.drop_last() + seq![','] + tuple@ + seq![']']);
            }
        },
        _ => {},
    }
    if fresh {
        value.append("[");
        value.append(tuple);
        value.append("]");
        assert(value@ =~= seq!['['] + tuple@ + seq![']']);
    }
    value
}

/// Adds `tuple` to the coreference value of `features`: a new list where
/// there was none, else the tuple goes before the closing bracket.
pub fn add_coref(features: &mut Features, tuple: &str)
    requires
        old(features).wf(),
    ensures
        final(features).wf(),
        final(features)@ == with_coref(old(features)@, tuple@),
{
    proof {
        reveal_strlit("coref");
    }
    let key = "coref";
    assert(key@ =~= coref_key());
    let value = coref_value(features, tuple);
    features.insert(key, Some(value));
}

/// The features of every node of every sentence.
pub open spec fn features_of(corpus: Seq<Tree>) -> Seq<Seq<Seq<(Seq<char>, Option<Seq<char>>)>>> {
    corpus.map_values(|t: Tree| t.nodes@.map_values(|n: Node| n.features@))
}

/// Two trees differ at most in their nodes' features.
pub open spec fn same_shape(a: &Tree, b: &Tree) -> bool {
    &&& a.len() == b.len()
    &&& forall|i: int|
        0 <= i < a.len() ==> {
            &&& (#[trigger] a.nodes@[i]).parent == b.nodes@[i].parent
            &&& a.nodes@[i].children == b.nodes@[i].children
            &&& a.nodes@[i].position == b.nodes@[i].position
        }
}

/// The features of one sentence after `tuple` is added on every terminal
/// that `n` dominates.
pub open spec fn annotated(
    tree: &Tree,
    f: Seq<Seq<(Seq<char>, Option<Seq<char>>)>>,
    n: int,
    tuple: Seq<char>,
) -> Seq<Seq<(Seq<char>, Option<Seq<char>>)>> {
    Seq::new(
        f.len(),
        |i: int|
            if tree.is_terminal(i) && tree.dominates(n, i) {
                with_coref(f[i], tuple)
            } else {
                f[i]
            },
    )
}

/// Adds `tuple` to the coreference value of every terminal that `n`
/// dominates.
pub fn annotate(tree: &mut Tree, n: usize, tuple: &str)
    requires
        old(tree).wf(),
    ensures
        final(tree).wf(),
        same_shape(final(tree), old(tree)),
        final(tree).nodes@.map_values(|x: Node| x.features@) == annotated(
            old(tree),
            old(tree).nodes@.map_values(|x: Node| x.features@),
            n as int,
            tuple@,
        ),
{
    proof {
        reveal_strlit("coref");
    }
    let ghost f0 = old(tree).nodes@.map_values(|x: Node| x.features@);
    let ghost goal = annotated(old(tree), f0, n as int, tuple@);
    let len = tree.nodes.len();
    let mut i: usize = 0;
    while i < len
        invariant
            tree.wf(),
            len == tree.len(),
            i <= len,
            same_shape(tree, old(tree)),
            f0 == old(tree).nodes@.map_values(|x: Node| x.features@),
            goal == annotated(old(tree), f0, n as int, tuple@),
            forall|j: int| 0 <= j < i ==> (#[trigger] tree.nodes@[j]).features@ == goal[j],
            forall|j: int| i <= j < len ==> (#[trigger] tree.nodes@[j]).features@ == f0[j],
        decreases len - i,
    {
        let ghost before = tree.nodes@;
        let ghost t0 = *tree;
        proof {
            lemma_same_dominates(&t0, old(tree), n as int, i as int);
        }
        if tree.nodes[i].position.is_some() && tree.dominates_node(n, i) {
            let value = coref_value(&tree.nodes[i].features, tuple);
            let key = "coref";
            proof {
                reveal_strlit("coref");
            }
            assert(key@ =~= coref_key());
            tree.set_feature(i, key, Some(value));
            assert(old(tree).is_terminal(i as int));
            assert(old(tree).dominates(n as int, i as int));
            assert(tree.nodes@[i as int].features@ == with_coref(f0[i as int], tuple@));
        } else {
            assert(!(old(tree).is_terminal(i as int) && old(tree).dominates(n as int, i as int)));
        }
        proof {
            assert(tree.is_terminal(i as int) == old(tree).is_terminal(i as int));
            assert(tree.dominates(n as int, i as int) == old(tree).dominates(n as int, i as int)) by {
                lemma_same_dominates(tree, old(tree), n as int, i as int);
            }
            assert forall|j: int| 0 <= j < len && j != i implies (#[trigger] tree.nodes@[j]) == before[j] by {}
            assert(f0[i as int] == before[i as int].features@);
            assert(tree.nodes@[i as int].features@ == goal[i as int]);
        }
        i = i + 1;
    }
    assert(tree.nodes@.map_values(|x: Node| x.features@) =~= goal);
}

proof fn lemma_same_dominates(a: &Tree, b: &Tree, n: int, t: int)
    requires
        same_shape(a, b),
        0 <= t < a.len(),
    ensures
        a.dominates(n, t) == b.dominates(n, t),
    decreases t,
{
    if t != n && 0 < t && a.nodes@[t].parent is Some && (a.nodes@[t].parent->0 as int) < t {
        lemma_same_dominates(a, b, n, a.nodes@[t].parent->0 as int);
    }
}

/// A resolved marker: the sentence and node whose comment held it, and the
/// tuple to add on the terminals below that node.
pub struct Reference {
    pub sentence: usize,
    pub node: usize,
    pub tuple: String,
}

/// The feature that holds a node's free-text annotations.
pub open spec fn comment_key() -> Seq<char> {
    seq!['c', 'o', 'm', 'm', 'e', 'n', 't']
}

/// The markers among `ws`, in order.
pub open spec fn markers_in(ws: Seq<Seq<char>>) -> Seq<Seq<char>>
    decreases ws.len(),
{
    if ws.len() == 0 {
        Seq::empty()
    } else if is_marker(ws.last()) {
        markers_in(ws.drop_last()).push(ws.last())
    } else {
        markers_in(ws.drop_last())
    }
}

/// The markers in the comment of nonterminal `n`.
pub open spec fn node_markers(tree: &Tree, n: int) -> Seq<Seq<char>> {
    if tree.is_terminal(n) {
        Seq::empty()
    } else {
        match entry_of(tree.nodes@[n].features@, comment_key()) {
            Some(Some(c)) => markers_in(words(c)),
            _ => Seq::empty(),
        }
    }
}

/// The markers of sentence `i`'s first `upto` nodes, each with its sentence
/// and node, in node order.
pub open spec fn tree_markers(tree: &Tree, i: int, upto: int) -> Seq<(int, int, Seq<char>)>
    decreases upto,
{
    if upto <= 0 {
        Seq::empty()
    } else {
        tree_markers(tree, i, upto - 1) + node_markers(tree, upto - 1).map_values(
            |w: Seq<char>| (i, upto - 1, w),
        )
    }
}

/// The markers of the first `upto` sentences, in the order of the scan.
pub open spec fn corpus_markers(corpus: Seq<Tree>, upto: int) -> Seq<(int, int, Seq<char>)>
    decreases upto,
{
    if upto <= 0 {
        Seq::empty()
    } else {
        corpus_markers(corpus, upto - 1) + tree_markers(
            &corpus[upto - 1],
            upto - 1,
            corpus[upto - 1].len(),
        )
    }
}

/// All markers of the corpus, in the order of the scan.
pub open spec fn all_markers(corpus: Seq<Tree>) -> Seq<(int, int, Seq<char>)> {
    corpus_markers(corpus, corpus.len() as int)
}

pub open spec fn prefix_of<T>(a: Seq<T>, b: Seq<T>) -> bool {
    a.len() <= b.len() && forall|j: int| 0 <= j < a.len() ==> a[j] == b[j]
}

/// `p` is what resolving the marker `m` gives.
pub open spec fn resolved_as(
    corpus: Seq<Tree>,
    maps: Seq<IdMap>,
    m: (int, int, Seq<char>),
    p: Reference,
) -> bool {
    &&& p.sentence == m.0
    &&& p.node == m.1
    &&& target_of(maps, m.2) matches Ok((t, x)) && exists|ps: Seq<usize>|
        #[trigger] enumerates(ps, corpus[t].span(x as int)) && p.tuple@ == tuple_text(
            t as nat,
            ps,
        )
}

/// `v` resolves every marker of the corpus, in order.
pub open spec fn resolves_all(corpus: Seq<Tree>, maps: Seq<IdMap>, v: Seq<Reference>) -> bool {
    let ms = all_markers(corpus);
    &&& v.len() == ms.len()
    &&& forall|k: int| 0 <= k < v.len() ==> #[trigger] resolved_as(corpus, maps, ms[k], v[k])
}

/// `e` reports the first marker of the corpus that does not resolve.
pub open spec fn first_failure(corpus: Seq<Tree>, maps: Seq<IdMap>, e: CorefError) -> bool {
    let ms = all_markers(corpus);
    exists|k: int|
        0 <= k < ms.len() && (forall|j: int| 0 <= j < k ==> #[trigger] target_of(maps, ms[j].2) is Ok)
            && target_of(maps, ms[k].2) == Err::<(int, usize), CorefErrorKind>(e.kind)
            && e.sentence == ms[k].0 && e.marker@ == ms[k].2
}

proof fn lemma_markers_prefix(ws: Seq<Seq<char>>, k: int)
    requires
        0 <= k <= ws.len(),
    ensures
        prefix_of(markers_in(ws.take(k)), markers_in(ws)),
    decreases ws.len(),
{
    if k < ws.len() {
        assert(ws.drop_last().take(k) =~= ws.take(k));
        lemma_markers_prefix(ws.drop_last(), k);
    } else {
        assert(ws.take(k) =~= ws);
    }
}

proof fn lemma_tree_prefix(tree: &Tree, i: int, a: int, b: int)
    requires
        0 <= a <= b,
    ensures
        prefix_of(tree_markers(tree, i, a), tree_markers(tree, i, b)),
    decreases b,
{
    if a < b {
        lemma_tree_prefix(tree, i, a, b - 1);
    }
}

proof fn lemma_corpus_prefix(corpus: Seq<Tree>, a: int, b: int)
    requires
        0 <= a <= b,
    ensures
        prefix_of(corpus_markers(corpus, a), corpus_markers(corpus, b)),
    decreases b,
{
    if a < b {
        lemma_corpus_prefix(corpus, a, b - 1);
    }
}

/// Resolves every marker of the corpus, in the order of the scan: sentences
/// in order, the nonterminals of each in node order, the words of each
/// comment left to right. Stops at the first marker that does not resolve.
pub fn collect_references(corpus: &Vec<Tree>, maps: &Vec<IdMap>) -> (r: Result<
    Vec<Reference>,
    CorefError,
>)
    requires
        corpus_ready(corpus@, maps@),
    ensures
        match r {
            Ok(v) => resolves_all(corpus@, maps@, v@),
            Err(e) => first_failure(corpus@, maps@, e),
        },
{
    proof {
        reveal_strlit("comment");
    }
    let ghost c = corpus@;
    let ghost full = all_markers(c);
    let mut out: Vec<Reference> = Vec::new();
    let mut i: usize = 0;
    while i < corpus.len()
        invariant
            corpus_ready(corpus@, maps@),
            c == corpus@,
            full == all_markers(c),
            i <= c.len(),
            out@.len() == corpus_markers(c, i as int).len(),
            forall|k: int|
                0 <= k < out@.len() ==> #[trigger] resolved_as(
                    c,
                    maps@,
                    corpus_markers(c, i as int)[k],
                    out@[k],
                ),
        decreases c.len() - i,
    {
        let tree = &corpus[i];
        assert(tree.wf());
        let ghost before = corpus_markers(c, i as int);
        proof {
            lemma_corpus_prefix(c, i + 1, c.len() as int);
        }
        let mut n: usize = 0;
        while n < tree.nodes.len()
            invariant
                corpus_ready(corpus@, maps@),
                c == corpus@,
                full == all_markers(c),
                i < c.len(),
                *tree == c[i as int],
                tree.wf(),
                before == corpus_markers(c, i as int),
                prefix_of(corpus_markers(c, i + 1), full),
                n <= tree.len(),
                out@.len() == before.len() + tree_markers(tree, i as int, n as int).len(),
                forall|k: int|
                    0 <= k < out@.len() ==> #[trigger] resolved_as(
                        c,
                        maps@,
                        (before + tree_markers(tree, i as int, n as int))[k],
                        out@[k],
                    ),
            decreases tree.len() - n,
        {
            let ghost done = before + tree_markers(tree, i as int, n as int);
            let ghost ms = node_markers(tree, n as int);
            proof {
                lemma_tree_prefix(tree, i as int, n + 1, tree.len());
                assert(corpus_markers(c, i + 1) == before + tree_markers(tree, i as int, tree.len()));
            }
            let comment: Option<String> = if tree.nodes[n].position.is_none() {
                let key = "comment";
                proof {
                    reveal_strlit("comment");
                    assert(key@ =~= comment_key());
                    assert(tree.nodes@[n as int].features.wf());
                }
                let got = tree.nodes[n].features.get_val(key);
                proof {
                    if got is Some {
                        assert(ms == markers_in(words(got->0@)));
                    } else {
                        assert(ms =~= Seq::<Seq<char>>::empty());
                    }
                }
                got
            } else {
                assert(ms =~= Seq::<Seq<char>>::empty());
                None
            };
            assert(comment matches Some(v) ==> ms == markers_in(words(v@)));
            assert(comment is None ==> ms =~= Seq::<Seq<char>>::empty());
            let ghost ms_seen: Seq<Seq<char>> = Seq::empty();
            match comment {
                None => {
                    proof {
                        assert(ms =~= Seq::<Seq<char>>::empty());
                    }
                },
                Some(text) => {
                    let ws = split_words(text.as_str());
                    let ghost wv = ws@.map_values(|w: String| w@);
                    assert(ms == markers_in(wv));
                    let mut k: usize = 0;
                    let ghost mut acc = done + markers_in(wv.take(0)).map_values(
                        |w: Seq<char>| (i as int, n as int, w),
                    );
                    proof {
                        assert(wv.take(0) =~= Seq::<Seq<char>>::empty());
                        assert(acc =~= done);
                    }
                    while k < ws.len()
                        invariant
                            corpus_ready(corpus@, maps@),
                            c == corpus@,
                            full == all_markers(c),
                            i < c.len(),
                            *tree == c[i as int],
                            tree.wf(),
                            before == corpus_markers(c, i as int),
                            prefix_of(corpus_markers(c, i + 1), full),
                            corpus_markers(c, i + 1) == before + tree_markers(tree, i as int, tree.len()),
                            prefix_of(tree_markers(tree, i as int, n + 1), tree_markers(tree, i as int, tree.len())),
                            n < tree.len(),
                            done == before + tree_markers(tree, i as int, n as int),
                            ms == node_markers(tree, n as int),
                            wv == ws@.map_values(|w: String| w@),
                            ms == markers_in(wv),
                            k <= wv.len(),
                            out@.len() == done.len() + markers_in(wv.take(k as int)).len(),
                            acc == done + markers_in(wv.take(k as int)).map_values(
                                |w: Seq<char>| (i as int, n as int, w),
                            ),
                            forall|j: int|
                                0 <= j < out@.len() ==> #[trigger] resolved_as(
                                    c,
                                    maps@,
                                    acc[j],
                                    out@[j],
                                ),
                        decreases wv.len() - k,
                    {
                        let ghost seen = markers_in(wv.take(k as int));
                        assert(wv.take(k + 1).drop_last() =~= wv.take(k as int));
                        assert(wv.take(k + 1).last() == ws@[k as int]@);
                        let word = ws[k].as_str();
                        if marker_word(word) {
                            let ghost m = (i as int, n as int, word@);
                            let ghost seen1 = markers_in(wv.take(k + 1));
                            assert(seen1 == seen.push(word@));
                            proof {
                                lemma_markers_prefix(wv, k + 1);
                                let cur = done + seen1.map_values(|w: Seq<char>| (i as int, n as int, w));
                                let nm = ms.map_values(|w: Seq<char>| (i as int, n as int, w));
                                assert(tree_markers(tree, i as int, n + 1) == tree_markers(tree, i as int, n as int) + nm);
                                assert forall|j: int| 0 <= j < cur.len() implies cur[j] == full[j] by {
                                    if j < done.len() {
                                        if j < before.len() {
                                            assert(corpus_markers(c, i + 1)[j] == before[j]);
                                        } else {
                                            assert(tree_markers(tree, i as int, n + 1)[j - before.len()]
                                                == tree_markers(tree, i as int, n as int)[j - before.len()]);
                                            assert(corpus_markers(c, i + 1)[j] == tree_markers(tree, i as int, tree.len())[j - before.len()]);
                                        }
                                    } else {
                                        let x = j - done.len();
                                        assert(seen1[x] == ms[x]);
                                        assert(tree_markers(tree, i as int, n + 1)[j - before.len()] == nm[x]);
                                        assert(corpus_markers(c, i + 1)[j] == tree_markers(tree, i as int, tree.len())[j - before.len()]);
                                    }
                                }
                                assert(cur[cur.len() - 1] == m);
                            }
                            match resolve_reference(corpus, maps, word) {
                                Ok((t, ps)) => {
                                    let tuple = format_tuple(t, &ps);
                                    let ghost out0 = out@;
                                    out.push(Reference { sentence: i, node: n, tuple });
                                    proof {
                                        assert(enumerates(ps@, c[t as int].span(target_of(maps@, word@)->Ok_0.1 as int)));
                                        assert(resolved_as(c, maps@, m, out@[out@.len() - 1]));
                                        let cur = done + seen1.map_values(|w: Seq<char>| (i as int, n as int, w));
                                        assert forall|j: int| 0 <= j < out@.len() implies #[trigger] resolved_as(
                                            c, maps@, cur[j], out@[j]) by {
                                            if j < out0.len() {
                                                let prev = done + seen.map_values(|w: Seq<char>| (i as int, n as int, w));
                                                assert(prev[j] == cur[j]);
                                                assert(out@[j] == out0[j]);
                                            }
                                        }
                                    }
                                },
                                Err(kind) => {
                                    let e = CorefError { kind, sentence: i, marker: ws[k].clone() };
                                    proof {
                                        let cur = done + seen1.map_values(|w: Seq<char>| (i as int, n as int, w));
                                        let idx = cur.len() - 1;
                                        assert forall|j: int| 0 <= j < idx implies #[trigger] target_of(maps@, full[j].2) is Ok by {
                                            let prev = done + seen.map_values(|w: Seq<char>| (i as int, n as int, w));
                                            assert(resolved_as(c, maps@, prev[j], out@[j]));
                                            assert(prev[j] == cur[j]);
                                        }
                                        assert(full[idx] == m);
                                    }
                                    return Err(e);
                                },
                            }
                            proof {
                                acc = done + seen1.map_values(|w: Seq<char>| (i as int, n as int, w));
                            }
                        } else {
                            assert(markers_in(wv.take(k + 1)) == seen);
                        }
                        k = k + 1;
                    }
                    assert(wv.take(wv.len() as int) =~= wv);
                    assert(k == wv.len());
                },
            }
            proof {
                reveal_strlit("comment");
                let nm = ms.map_values(|w: Seq<char>| (i as int, n as int, w));
                assert(tree_markers(tree, i as int, n + 1) == tree_markers(tree, i as int, n as int) + nm);
                assert(before + tree_markers(tree, i as int, n + 1) =~= done + nm);
            }
            n = n + 1;
        }
        proof {
            assert(corpus_markers(c, i + 1) == before + tree_markers(tree, i as int, tree.len()));
        }
        i = i + 1;
    }
    Ok(out)
}

/// The corpus's features after applying `refs` in order.
pub open spec fn applied(
    corpus: Seq<Tree>,
    f: Seq<Seq<Seq<(Seq<char>, Option<Seq<char>>)>>>,
    refs: Seq<Reference>,
) -> Seq<Seq<Seq<(Seq<char>, Option<Seq<char>>)>>>
    decreases refs.len(),
{
    if refs.len() == 0 {
        f
    } else {
        let g = applied(corpus, f, refs.drop_last());
        let r = refs.last();
        g.update(
            r.sentence as int,
            annotated(&corpus[r.sentence as int], g[r.sentence as int], r.node as int, r.tuple@),
        )
    }
}

proof fn lemma_annotated_shape(
    a: &Tree,
    b: &Tree,
    f: Seq<Seq<(Seq<char>, Option<Seq<char>>)>>,
    n: int,
    tuple: Seq<char>,
)
    requires
        same_shape(a, b),
        f.len() == a.len(),
    ensures
        annotated(a, f, n, tuple) == annotated(b, f, n, tuple),
{
    assert forall|i: int| 0 <= i < f.len() implies annotated(a, f, n, tuple)[i] == annotated(
        b,
        f,
        n,
        tuple,
    )[i] by {
        lemma_same_dominates(a, b, n, i);
    }
    assert(annotated(a, f, n, tuple) =~= annotated(b, f, n, tuple));
}

/// Adds each reference's tuple, in order, on the terminals below its node.
pub fn apply_references(corpus: &mut Vec<Tree>, refs: &Vec<Reference>)
    requires
        forall|i: int| 0 <= i < old(corpus)@.len() ==> (#[trigger] old(corpus)@[i]).wf(),
        forall|k: int| 0 <= k < refs@.len() ==> (#[trigger] refs@[k]).sentence < old(corpus)@.len(),
    ensures
        final(corpus)@.len() == old(corpus)@.len(),
        forall|i: int|
            0 <= i < final(corpus)@.len() ==> (#[trigger] final(corpus)@[i]).wf() && same_shape(
                &final(corpus)@[i],
                &old(corpus)@[i],
            ),
        features_of(final(corpus)@) == applied(old(corpus)@, features_of(old(corpus)@), refs@),
{
    let ghost c0 = corpus@;
    let mut k: usize = 0;
    assert(refs@.take(0) =~= Seq::<Reference>::empty());
    while k < refs.len()
        invariant
            c0 == old(corpus)@,
            corpus@.len() == c0.len(),
            k <= refs@.len(),
            forall|k: int| 0 <= k < refs@.len() ==> (#[trigger] refs@[k]).sentence < c0.len(),
            forall|i: int|
                0 <= i < corpus@.len() ==> (#[trigger] corpus@[i]).wf() && same_shape(
                    &corpus@[i],
                    &c0[i],
                ),
            features_of(corpus@) == applied(c0, features_of(c0), refs@.take(k as int)),
        decreases refs@.len() - k,
    {
        let s = refs[k].sentence;
        let ghost cb = corpus@;
        let mut tree = Tree::new();
        corpus.set_and_swap(s, &mut tree);
        assert(tree == cb[s as int]);
        let ghost tb = tree;
        annotate(&mut tree, refs[k].node, refs[k].tuple.as_str());
        corpus.set_and_swap(s, &mut tree);
        proof {
            let pre = refs@.take(k as int);
            let nxt = refs@.take(k + 1);
            assert(nxt.drop_last() =~= pre);
            assert(nxt.last() == refs@[k as int]);
            let g = applied(c0, features_of(c0), pre);
            assert(features_of(cb)[s as int] == tb.nodes@.map_values(|x: Node| x.features@));
            lemma_annotated_shape(&tb, &c0[s as int], g[s as int], refs@[k as int].node as int,
                refs@[k as int].tuple@);
            assert(corpus@ == cb.update(s as int, corpus@[s as int]));
            assert(features_of(corpus@) =~= applied(c0, features_of(c0), nxt));
        }
        k = k + 1;
    }
    assert(refs@.take(refs@.len() as int) =~= refs@);
}

/// Resolves every coreference marker of the corpus and adds the results on
/// the terminals below each marked node. All markers are resolved before
/// anything is written, so a marker in one sentence may refer to any
/// sentence, and a corpus with a marker that does not resolve is left as it
/// was.
pub fn resolve_corefs(corpus: &mut Vec<Tree>, maps: &Vec<IdMap>) -> (r: Result<(), CorefError>)
    requires
        corpus_ready(old(corpus)@, maps@),
    ensures
        match r {
            Ok(()) => exists|v: Seq<Reference>|
                #[trigger] resolves_all(old(corpus)@, maps@, v) && features_of(final(corpus)@)
                    == applied(old(corpus)@, features_of(old(corpus)@), v),
            Err(e) => first_failure(old(corpus)@, maps@, e) && final(corpus)@ == old(corpus)@,
        },
        final(corpus)@.len() == old(corpus)@.len(),
        forall|i: int|
            0 <= i < final(corpus)@.len() ==> (#[trigger] final(corpus)@[i]).wf() && same_shape(
                &final(corpus)@[i],
                &old(corpus)@[i],
            ),
{
    let refs = match collect_references(corpus, maps) {
        Ok(v) => v,
        Err(e) => {
            proof {
                assert forall|i: int| 0 <= i < corpus@.len() implies (#[trigger] corpus@[i]).wf() && same_shape(
                    &corpus@[i],
                    &corpus@[i],
                ) by {
                    assert(corpus@[i].wf());
                }
            }
            return Err(e);
        },
    };
    proof {
        assert forall|k: int| 0 <= k < refs@.len() implies (#[trigger] refs@[k]).sentence < corpus@.len() by {
            assert(resolved_as(corpus@, maps@, all_markers(corpus@)[k], refs@[k]));
            lemma_markers_in_range(corpus@, corpus@.len() as int, k);
        }
        assert forall|i: int| 0 <= i < corpus@.len() implies (#[trigger] corpus@[i]).wf() by {}
    }
    apply_references(corpus, &refs);
    assert(resolves_all(old(corpus)@, maps@, refs@));
    Ok(())
}

proof fn lemma_markers_in_range(corpus: Seq<Tree>, upto: int, k: int)
    requires
        0 <= upto <= corpus.len(),
        0 <= k < corpus_markers(corpus, upto).len(),
    ensures
        0 <= corpus_markers(corpus, upto)[k].0 < upto,
    decreases upto,
{
    if upto > 0 {
        let before = corpus_markers(corpus, upto - 1);
        if k < before.len() {
            lemma_markers_in_range(corpus, upto - 1, k);
        } else {
            let t = &corpus[upto - 1];
            lemma_tree_markers_sentence(t, upto - 1, t.len(), k - before.len());
        }
    }
}

proof fn lemma_tree_markers_sentence(tree: &Tree, i: int, upto: int, k: int)
    requires
        0 <= k < tree_markers(tree, i, upto).len(),
    ensures
        tree_markers(tree, i, upto)[k].0 == i,
    decreases upto,
{
    if upto > 0 {
        let before = tree_markers(tree, i, upto - 1);
        if k < before.len() {
            lemma_tree_markers_sentence(tree, i, upto - 1, k);
        }
    }
}

proof fn lemma_stored(f: Seq<(Seq<char>, Option<Seq<char>>)>, k: Seq<char>, v: Option<Seq<char>>)
    requires
        keys_unique(f),
    ensures
        keys_unique(stored(f, k, v)),
        entry_of(stored(f, k, v), k) == Some(v),
{
    let g = stored(f, k, v);
    if exists|i: int| 0 <= i < f.len() && f[i].0 == k {
        let i = choose|i: int| 0 <= i < f.len() && f[i].0 == k;
        assert(g[i].0 == k);
        assert(entry_of(g, k) == Some(g[(choose|j: int| 0 <= j < g.len() && g[j].0 == k)].1));
    } else {
        assert(g[f.len() as int].0 == k);
    }
}

/// Two tuples added in turn where there was no coreference value give one
/// list that holds both, in the order in which they were added.
pub proof fn lemma_accumulation(
    f: Seq<(Seq<char>, Option<Seq<char>>)>,
    t1: Seq<char>,
    t2: Seq<char>,
)
    requires
        keys_unique(f),
        entry_of(f, coref_key()) is None,
    ensures
        entry_of(with_coref(with_coref(f, t1), t2), coref_key()) == Some(
            Some(seq!['['] + t1 + seq![','] + t2 + seq![']']),
        ),
{
    let c1 = seq!['['] + t1 + seq![']'];
    lemma_stored(f, coref_key(), Some(c1));
    let g = with_coref(f, t1);
    assert(entry_of(g, coref_key()) == Some(Some(c1)));
    assert(c1.drop_last() =~= seq!['['] + t1);
    let c2 = c1.drop_last() + seq![','] + t2 + seq![']'];
    lemma_stored(g, coref_key(), Some(c2));
    assert(c2 =~= seq!['['] + t1 + seq![','] + t2 + seq![']']);
}

/// Only markers are resolved: a word without the marker tag is never among
/// the markers of a comment, so it is never looked up and adds nothing.
pub proof fn lemma_non_marker_skipped(ws: Seq<Seq<char>>, w: Seq<char>)
    requires
        !is_marker(w),
    ensures
        !markers_in(ws).contains(w),
    decreases ws.len(),
{
    if ws.len() > 0 {
        lemma_non_marker_skipped(ws.drop_last(), w);
        let m = markers_in(ws.drop_last());
        if is_marker(ws.last()) {
            assert(ws.last() != w);
            if markers_in(ws).contains(w) {
                let i = choose|i: int| 0 <= i < markers_in(ws).len() && markers_in(ws)[i] == w;
                if i < m.len() {
                    assert(m[i] == w);
                }
            }
        }
    }
}

} // verus!
