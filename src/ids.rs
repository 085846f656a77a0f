use vstd::prelude::*;
use std::collections::VecDeque;
use crate::tree::Tree;
use crate::text::{is_canonical_number, digits_value, parse_canonical};

verus! {

/// First number given to a nonterminal; later ones count up from it.
pub const FIRST_NONTERMINAL_ID: usize = 500;

/// The identifiers of one sentence's nodes: `0` names the root, `k` the
/// terminal at position `k`, and `500 + j` the nonterminal `nonterminals[j]`.
pub struct IdMap {
    pub root: usize,
    pub terminals: Vec<usize>,
    pub nonterminals: Vec<usize>,
}

/// Number of `false` entries.
pub open spec fn unvisited(v: Seq<bool>) -> nat
    decreases v.len(),
{
    if v.len() == 0 {
        0
    } else {
        unvisited(v.drop_last()) + if v.last() {
            0nat
        } else {
            1nat
        }
    }
}

proof fn lemma_unvisited_mark(v: Seq<bool>, i: int)
    requires
        0 <= i < v.len(),
        !v[i],
    ensures
        unvisited(v) > 0,
        unvisited(v.update(i, true)) == unvisited(v) - 1,
    decreases v.len(),
{
    let w = v.update(i, true);
    if i == v.len() - 1 {
        assert(w.drop_last() =~= v.drop_last());
    } else {
        assert(w.drop_last() =~= v.drop_last().update(i, true));
        lemma_unvisited_mark(v.drop_last(), i);
    }
}

/// Every child of `p` is marked in `v`.
pub open spec fn all_children_marked(tree: &Tree, v: Seq<bool>, p: int) -> bool {
    forall|k: int| 0 <= k < tree.children(p).len() ==> v[#[trigger] tree.children(p)[k] as int]
}

/// Every child of `p` is a terminal.
pub open spec fn all_children_terminals(tree: &Tree, p: int) -> bool {
    forall|k: int|
        0 <= k < tree.children(p).len() ==> tree.is_terminal(#[trigger] tree.children(p)[k] as int)
}

/// The work list before any nonterminal is numbered: for each terminal in
/// `order`, its parent where all of the parent's children are terminals.
pub open spec fn seeded(tree: &Tree, order: Seq<usize>) -> Seq<usize>
    decreases order.len(),
{
    if order.len() == 0 {
        Seq::empty()
    } else {
        let q = seeded(tree, order.drop_last());
        let p = tree.nodes@[order.last() as int].parent->0;
        if all_children_terminals(tree, p as int) {
            q.push(p)
        } else {
            q
        }
    }
}

/// The nonterminals in the order in which they are numbered, given the
/// marked nodes `v`, the work list `q` and the nonterminals numbered so far:
/// the front of the work list is taken; unless it is the root or already
/// marked, it is numbered and marked, and its parent goes to the front once
/// all of the parent's children are marked.
pub open spec fn numbering_from(tree: &Tree, v: Seq<bool>, q: Seq<usize>, done: Seq<usize>) -> Seq<
    usize,
>
    decreases unvisited(v), q.len(),
{
    if q.len() == 0 {
        done
    } else {
        let x = q[0] as int;
        let rest = q.drop_first();
        if x < 0 || x >= v.len() || v[x] || x == 0 {
            numbering_from(tree, v, rest, done)
        } else {
            let v2 = v.update(x, true);
            if unvisited(v2) < unvisited(v) {
                let p = tree.nodes@[x].parent->0;
                let q2 = if all_children_marked(tree, v2, p as int) {
                    seq![p] + rest
                } else {
                    rest
                };
                numbering_from(tree, v2, q2, done.push(x as usize))
            } else {
                done
            }
        }
    }
}

/// The nonterminals of `tree` in the order in which `assign_ids` numbers
/// them, given its terminals in position order.
pub open spec fn numbering(tree: &Tree, order: Seq<usize>) -> Seq<usize> {
    numbering_from(
        tree,
        Seq::new(tree.len() as nat, |i: int| tree.is_terminal(i)),
        seeded(tree, order),
        Seq::empty(),
    )
}

impl IdMap {
    /// The node that the number `id` names, if any. A nonterminal's number
    /// takes precedence over a terminal's.
    pub open spec fn node_of(&self, id: int) -> Option<usize> {
        if id == 0 {
            Some(self.root)
        } else if FIRST_NONTERMINAL_ID <= id < FIRST_NONTERMINAL_ID + self.nonterminals@.len() {
            Some(self.nonterminals@[id - FIRST_NONTERMINAL_ID])
        } else if 1 <= id <= self.terminals@.len() {
            Some(self.terminals@[id - 1])
        } else {
            None
        }
    }

    /// The identifiers number the nodes of `tree` as `assign_ids` does: the
    /// root is `0`, terminals go by position, and nonterminals are distinct,
    /// each numbered after all of its nonterminal children.
    pub open spec fn numbers(&self, tree: &Tree) -> bool {
        &&& self.root == 0
        &&& tree.ordered_terminals(self.terminals@)
        &&& self.nonterminals@ == numbering(tree, self.terminals@)
        &&& forall|j: int|
            0 <= j < self.nonterminals@.len() ==> {
                &&& 0 < #[trigger] self.nonterminals@[j] < tree.len()
                &&& !tree.is_terminal(self.nonterminals@[j] as int)
            }
        &&& forall|a: int, b: int|
            0 <= a < self.nonterminals@.len() && 0 <= b < self.nonterminals@.len()
                && #[trigger] self.nonterminals@[a] == #[trigger] self.nonterminals@[b] ==> a == b
        &&& forall|j: int, k: int|
            0 <= j < self.nonterminals@.len() && 0 <= k < tree.children(
                self.nonterminals@[j] as int,
            ).len() ==> #[trigger] self.numbered_before(
                tree,
                tree.children(self.nonterminals@[j] as int)[k] as int,
                j,
            )
        &&& tree.complete() ==> forall|p: int|
            0 < p < tree.len() && !#[trigger] tree.is_terminal(p) ==> exists|j: int|
                0 <= j < self.nonterminals@.len() && self.nonterminals@[j] == p
    }

    /// The node that the identifier text `id` names, if any: identifiers
    /// are numbers in decimal without leading zeros.
    pub open spec fn node_of_text(&self, id: Seq<char>) -> Option<usize> {
        if is_canonical_number(id) && digits_value(id) <= usize::MAX {
            self.node_of(digits_value(id) as int)
        } else {
            None
        }
    }

    /// Looks up the node that the identifier `id` names.
    pub fn lookup(&self, id: &str) -> (r: Option<usize>)
        ensures
            r == self.node_of_text(id@),
    {
        match parse_canonical(id) {
            None => None,
            Some(v) => {
                if v == 0 {
                    Some(self.root)
                } else if v >= FIRST_NONTERMINAL_ID && v - FIRST_NONTERMINAL_ID < self.nonterminals.len() {
                    Some(self.nonterminals[v - FIRST_NONTERMINAL_ID])
                } else if v >= 1 && v <= self.terminals.len() {
                    Some(self.terminals[v - 1])
                } else {
                    None
                }
            },
        }
    }

    /// Some identifier names node `x`.
    pub open spec fn names(&self, x: usize) -> bool {
        exists|id: int| self.node_of(id) == Some(x)
    }

    /// Node `c` is a terminal or a nonterminal numbered before the `j`-th.
    pub open spec fn numbered_before(&self, tree: &Tree, c: int, j: int) -> bool {
        tree.is_terminal(c) || exists|i: int| 0 <= i < j && self.nonterminals@[i] == c
    }
}

/// Whether every child of `p` is a terminal.
fn children_all_terminals(tree: &Tree, p: usize) -> (r: bool)
    requires
        tree.wf(),
        p < tree.len(),
    ensures
        r == forall|k: int|
            0 <= k < tree.children(p as int).len() ==> tree.is_terminal(
                #[trigger] tree.children(p as int)[k] as int,
            ),
{
    let mut k: usize = 0;
    while k < tree.nodes[p].children.len()
        invariant
            tree.wf(),
            p < tree.len(),
            k <= tree.children(p as int).len(),
            forall|i: int| 0 <= i < k ==> tree.is_terminal(#[trigger] tree.children(p as int)[i] as int),
        decreases tree.children(p as int).len() - k,
    {
        let c = tree.nodes[p].children[k];
        if tree.nodes[c].position.is_none() {
            return false;
        }
        k = k + 1;
    }
    true
}

/// Whether every child of `p` is marked in `visited`.
fn children_all_visited(tree: &Tree, p: usize, visited: &Vec<bool>) -> (r: bool)
    requires
        tree.wf(),
        p < tree.len(),
        visited@.len() == tree.len(),
    ensures
        r == forall|k: int|
            0 <= k < tree.children(p as int).len() ==> visited@[#[trigger] tree.children(
                p as int,
            )[k] as int],
{
    let mut k: usize = 0;
    while k < tree.nodes[p].children.len()
        invariant
            tree.wf(),
            p < tree.len(),
            visited@.len() == tree.len(),
            k <= tree.children(p as int).len(),
            forall|i: int| 0 <= i < k ==> visited@[#[trigger] tree.children(p as int)[i] as int],
        decreases tree.children(p as int).len() - k,
    {
        let c = tree.nodes[p].children[k];
        if !visited[c] {
            return false;
        }
        k = k + 1;
    }
    true
}

/// Every non-root nonterminal whose children are all visited is visited
/// itself; then, in a complete tree, every non-root nonterminal is.
proof fn lemma_all_visited(tree: &Tree, v: Seq<bool>, m: int)
    requires
        tree.wf(),
        tree.complete(),
        v.len() == tree.len(),
        0 <= m <= tree.len(),
        forall|t: int| 0 <= t < tree.len() && #[trigger] tree.is_terminal(t) ==> v[t],
        forall|p: int|
            0 < p < tree.len() && !#[trigger] tree.is_terminal(p) && (forall|k: int|
                0 <= k < tree.children(p).len() ==> v[#[trigger] tree.children(p)[k] as int])
                ==> v[p],
    ensures
        forall|p: int| m <= p < tree.len() && 0 < p ==> v[p],
    decreases tree.len() - m,
{
    if m < tree.len() {
        lemma_all_visited(tree, v, m + 1);
        if 0 < m && !tree.is_terminal(m) {
            assert forall|k: int| 0 <= k < tree.children(m).len() implies v[
                #[trigger] tree.children(m)[k] as int] by {
                let c = tree.children(m)[k] as int;
                assert(m < c);
                if tree.is_terminal(c) {
                }
            }
        }
        assert forall|p: int| m <= p < tree.len() && 0 < p implies v[p] by {
            if p == m && tree.is_terminal(p) {
            }
        }
    }
}

/// Numbers the nodes of `tree`: `None` where its terminal positions are not
/// `1..N` without repeats. Terminals are numbered by position. Nonterminals
/// are numbered from 500 in the order in which they become ready: a work
/// list is seeded with the parents of terminals whose children are all
/// terminals; a node taken from its front gets the next number, and its
/// parent goes to the front once all of the parent's children are numbered.
pub fn assign_ids(tree: &Tree) -> (r: Option<IdMap>)
    requires
        tree.wf(),
    ensures
        r is Some <==> tree.positions_ok(),
        r matches Some(m) ==> m.numbers(tree),
{
    let order = match tree.terminals_in_order() {
        Some(o) => o,
        None => {
            return None;
        },
    };
    let n = tree.nodes.len();
    let mut visited: Vec<bool> = Vec::new();
    let mut i: usize = 0;
    while i < n
        invariant
            i <= n,
            visited@.len() == i,
            forall|x: int| 0 <= x < i ==> !visited@[x],
        decreases n - i,
    {
        visited.push(false);
        i = i + 1;
    }
    let mut queue: VecDeque<usize> = VecDeque::new();
    let mut k: usize = 0;
    while k < order.len()
        invariant
            queue@ == seeded(tree, order@.take(k as int)),
            tree.wf(),
            tree.ordered_terminals(order@),
            n == tree.len(),
            k <= order@.len(),
            visited@.len() == n,
            forall|x: int| 0 <= x < n && #[trigger] visited@[x] ==> tree.is_terminal(x),
            forall|j: int| 0 <= j < k ==> visited@[#[trigger] order@[j] as int],
            forall|x: int|
                0 <= x < queue@.len() ==> {
                    let p = #[trigger] queue@[x] as int;
                    &&& 0 <= p < n
                    &&& !tree.is_terminal(p)
                    &&& forall|c: int|
                        0 <= c < tree.children(p).len() ==> tree.is_terminal(
                            #[trigger] tree.children(p)[c] as int,
                        )
                },
            forall|j: int|
                0 <= j < k ==> {
                    let p = tree.nodes@[#[trigger] order@[j] as int].parent->0 as int;
                    (forall|c: int|
                        0 <= c < tree.children(p).len() ==> tree.is_terminal(
                            #[trigger] tree.children(p)[c] as int,
                        )) ==> queue@.contains(p as usize)
                },
        decreases order@.len() - k,
    {
        let t = order[k];
        let ghost q0 = queue@;
        visited.set(t, true);
        let p = tree.nodes[t].parent.unwrap();
        if children_all_terminals(tree, p) {
            queue.push_back(p);
            assert(queue@[queue@.len() - 1] == p);
        }
        assert(order@.take(k + 1).drop_last() =~= order@.take(k as int));
        assert(order@.take(k + 1).last() == t);
        proof {
            assert forall|x: int| 0 <= x < q0.len() implies queue@.contains(#[trigger] q0[x]) by {
                assert(queue@[x] == q0[x]);
            }
        }
        k = k + 1;
    }
    let mut nonterminals: Vec<usize> = Vec::new();
    let ghost goal = numbering(tree, order@);
    proof {
        assert(order@.take(order@.len() as int) =~= order@);
        assert forall|x: int| 0 <= x < n implies visited@[x] == tree.is_terminal(x) by {
            if tree.is_terminal(x) {
                assert(order@[tree.pos(x) - 1] == x);
            }
        }
        assert(visited@ =~= Seq::new(tree.len() as nat, |i: int| tree.is_terminal(i)));
        assert(nonterminals@ =~= Seq::<usize>::empty());
    }
    proof {
        assert forall|p: int|
            0 < p < n && !#[trigger] tree.is_terminal(p) && !visited@[p] && tree.children(p).len()
                > 0 && (forall|c: int|
                0 <= c < tree.children(p).len() ==> visited@[#[trigger] tree.children(p)[c] as int])
            implies queue@.contains(p as usize) by {
            let c0 = tree.children(p)[0] as int;
            assert(visited@[c0]);
            assert(tree.is_terminal(c0));
            assert(order@[tree.pos(c0) - 1] == c0);
            assert forall|c: int| 0 <= c < tree.children(p).len() implies tree.is_terminal(
                #[trigger] tree.children(p)[c] as int) by {
                assert(visited@[tree.children(p)[c] as int]);
            }
        }
        assert forall|t: int| 0 <= t < n && #[trigger] tree.is_terminal(t) implies visited@[t] by {
            assert(order@[tree.pos(t) - 1] == t);
        }
    }
    while queue.len() > 0
        invariant
            numbering_from(tree, visited@, queue@, nonterminals@) == goal,
            goal == numbering(tree, order@),
            tree.wf(),
            n == tree.len(),
            visited@.len() == n,
            !visited@[0],
            forall|t: int| 0 <= t < n && #[trigger] tree.is_terminal(t) ==> visited@[t],
            forall|x: int|
                0 <= x < n && !tree.is_terminal(x) ==> (#[trigger] visited@[x] <==> exists|j: int|
                    0 <= j < nonterminals@.len() && nonterminals@[j] == x),
            forall|j: int|
                0 <= j < nonterminals@.len() ==> {
                    &&& 0 < #[trigger] nonterminals@[j] < n
                    &&& !tree.is_terminal(nonterminals@[j] as int)
                },
            forall|a: int, b: int|
                0 <= a < nonterminals@.len() && 0 <= b < nonterminals@.len()
                    && #[trigger] nonterminals@[a] == #[trigger] nonterminals@[b] ==> a == b,
            forall|j: int, c: int|
                0 <= j < nonterminals@.len() && 0 <= c < tree.children(
                    nonterminals@[j] as int,
                ).len() ==> {
                    let x = #[trigger] tree.children(nonterminals@[j] as int)[c] as int;
                    tree.is_terminal(x) || exists|i: int|
                        0 <= i < j && nonterminals@[i] == x
                },
            forall|x: int|
                0 <= x < queue@.len() ==> {
                    let p = #[trigger] queue@[x] as int;
                    &&& 0 <= p < n
                    &&& !tree.is_terminal(p)
                    &&& forall|c: int|
                        0 <= c < tree.children(p).len() ==> visited@[#[trigger] tree.children(
                            p,
                        )[c] as int]
                },
            forall|p: int|
                0 < p < n && !#[trigger] tree.is_terminal(p) && !visited@[p]
                    && tree.children(p).len() > 0 && (forall|c: int|
                    0 <= c < tree.children(p).len() ==> visited@[#[trigger] tree.children(
                        p,
                    )[c] as int]) ==> queue@.contains(p as usize),
        decreases unvisited(visited@), queue@.len(),
    {
        let ghost q0 = queue@;
        let ghost v0 = visited@;
        let x = queue.pop_front().unwrap();
        assert(x == q0[0]);
        assert(queue@ =~= q0.drop_first());
        if visited[x] || x == 0 {
            proof {
                assert forall|p: int|
                    0 < p < n && !#[trigger] tree.is_terminal(p) && !visited@[p]
                        && tree.children(p).len() > 0 && (forall|c: int|
                        0 <= c < tree.children(p).len() ==> visited@[#[trigger] tree.children(
                            p,
                        )[c] as int]) implies queue@.contains(p as usize) by {
                    let w = choose|w: int| 0 <= w < q0.len() && q0[w] == p as usize;
                    assert(w != 0);
                    assert(queue@[w - 1] == p as usize);
                }
            }
            continue;
        }
        let ghost nts0 = nonterminals@;
        visited.set(x, true);
        proof {
            lemma_unvisited_mark(v0, x as int);
        }
        nonterminals.push(x);
        let p = tree.nodes[x].parent.unwrap();
        let ready = children_all_visited(tree, p, &visited);
        let ghost q1 = queue@;
        if ready {
            queue.push_front(p);
        }
        assert(all_children_marked(tree, visited@, p as int) == ready);
        proof {
            let j = nts0.len() as int;
            assert(nonterminals@[j] == x);
            assert forall|y: int|
                0 <= y < n && !tree.is_terminal(y) implies (#[trigger] visited@[y] <==> exists|i: int|
                    0 <= i < nonterminals@.len() && nonterminals@[i] == y) by {
                if y == x {
                } else if v0[y] {
                    let i = choose|i: int| 0 <= i < nts0.len() && nts0[i] == y;
                    assert(nonterminals@[i] == y);
                } else {
                    if exists|i: int| 0 <= i < nonterminals@.len() && nonterminals@[i] == y {
                        let i = choose|i: int| 0 <= i < nonterminals@.len() && nonterminals@[i] == y;
                        assert(nts0[i] == y);
                    }
                }
            }
            assert forall|jj: int, c: int|
                0 <= jj < nonterminals@.len() && 0 <= c < tree.children(
                    nonterminals@[jj] as int,
                ).len() implies {
                    let y = #[trigger] tree.children(nonterminals@[jj] as int)[c] as int;
                    tree.is_terminal(y) || exists|i: int| 0 <= i < jj && nonterminals@[i] == y
                } by {
                let y = tree.children(nonterminals@[jj] as int)[c] as int;
                if jj < j {
                    assert(nonterminals@[jj] == nts0[jj]);
                    if !tree.is_terminal(y) {
                        let i = choose|i: int| 0 <= i < jj && nts0[i] == y;
                        assert(nonterminals@[i] == y);
                    }
                } else {
                    assert(q0[0] == x);
                    assert(v0[y]);
                    if !tree.is_terminal(y) {
                        let i = choose|i: int| 0 <= i < nts0.len() && nts0[i] == y;
                        assert(nonterminals@[i] == y);
                    }
                }
            }
            assert forall|a: int, b: int|
                0 <= a < nonterminals@.len() && 0 <= b < nonterminals@.len()
                    && #[trigger] nonterminals@[a] == #[trigger] nonterminals@[b] implies a == b by {
                if a < j && b < j {
                    assert(nts0[a] == nts0[b]);
                } else if a < j {
                    assert(nts0[a] == x);
                } else if b < j {
                    assert(nts0[b] == x);
                }
            }
            assert forall|w: int| 0 <= w < queue@.len() implies {
                let pp = #[trigger] queue@[w] as int;
                &&& 0 <= pp < n
                &&& !tree.is_terminal(pp)
                &&& forall|c: int|
                    0 <= c < tree.children(pp).len() ==> visited@[#[trigger] tree.children(
                        pp,
                    )[c] as int]
            } by {
                let pp = queue@[w] as int;
                if ready && w == 0 {
                } else {
                    let w1 = if ready { w - 1 } else { w };
                    assert(queue@[w] == q1[w1]);
                    assert(q1[w1] == q0[w1 + 1]);
                    assert forall|c: int| 0 <= c < tree.children(pp).len() implies visited@[
                        #[trigger] tree.children(pp)[c] as int] by {
                        assert(v0[tree.children(pp)[c] as int]);
                    }
                }
            }
            assert forall|pp: int|
                0 < pp < n && !#[trigger] tree.is_terminal(pp) && !visited@[pp]
                    && tree.children(pp).len() > 0 && (forall|c: int|
                    0 <= c < tree.children(pp).len() ==> visited@[#[trigger] tree.children(
                        pp,
                    )[c] as int]) implies queue@.contains(pp as usize) by {
                if pp == p as int {
                    assert(queue@[0] == p);
                } else {
                    assert forall|c: int| 0 <= c < tree.children(pp).len() implies v0[
                        #[trigger] tree.children(pp)[c] as int] by {
                        let y = tree.children(pp)[c] as int;
                        if y == x as int {
                            assert(tree.nodes@[y].parent == Some(pp as usize));
                        }
                    }
                    assert(q0.contains(pp as usize));
                    let w = choose|w: int| 0 <= w < q0.len() && q0[w] == pp as usize;
                    assert(w != 0);
                    let w1 = if ready { w } else { w - 1 };
                    assert(queue@[w1] == pp as usize);
                }
            }
        }
    }
    proof {
        if tree.complete() {
            lemma_all_visited(tree, visited@, 0);
        }
    }
    assert(numbering_from(tree, visited@, queue@, nonterminals@) == nonterminals@);
    assert(nonterminals@ == numbering(tree, order@));
    let m = IdMap { root: 0, terminals: order, nonterminals };
    assert(m.nonterminals@ == numbering(tree, m.terminals@));
    assert(tree.ordered_terminals(m.terminals@));
    assert(tree.complete() ==> forall|p: int|
            0 < p < tree.len() && !#[trigger] tree.is_terminal(p) ==> exists|j: int|
                0 <= j < m.nonterminals@.len() && m.nonterminals@[j] == p);
    Some(m)
}

/// With fewer than 500 terminals, the identifiers of a complete tree name
/// its nodes one to one: `0` names the root, `1..N` the terminals by
/// position, and the numbers from 500 on the other nonterminals.
pub proof fn lemma_ids_one_to_one(tree: &Tree, m: &IdMap)
    requires
        tree.wf(),
        tree.positions_ok(),
        tree.complete(),
        m.numbers(tree),
        m.terminals@.len() < FIRST_NONTERMINAL_ID,
    ensures
        m.node_of(0) == Some(0usize),
        forall|k: int|
            1 <= k <= m.terminals@.len() ==> (#[trigger] m.node_of(k) matches Some(t) && tree.is_terminal(
                t as int,
            ) && tree.pos(t as int) == k),
        forall|j: int|
            0 <= j < m.nonterminals@.len() ==> (#[trigger] m.node_of(FIRST_NONTERMINAL_ID + j)
                matches Some(x) && 0 < x < tree.len() && !tree.is_terminal(x as int)),
        forall|x: int| 0 <= x < tree.len() ==> #[trigger] m.names(x as usize),
        forall|a: int, b: int|
            #[trigger] m.node_of(a) is Some && #[trigger] m.node_of(b) == m.node_of(a) ==> a == b,
{
    assert forall|x: int| 0 <= x < tree.len() implies #[trigger] m.names(x as usize) by {
        if x == 0 {
            assert(m.node_of(0) == Some(x as usize));
        } else if tree.is_terminal(x) {
            assert(m.node_of(tree.pos(x)) == Some(x as usize));
        } else {
            let j = choose|j: int| 0 <= j < m.nonterminals@.len() && m.nonterminals@[j] == x;
            assert(m.node_of(FIRST_NONTERMINAL_ID + j) == Some(x as usize));
        }
    }
    assert forall|a: int, b: int|
        #[trigger] m.node_of(a) is Some && #[trigger] m.node_of(b) == m.node_of(a) implies a == b by {
        let x = m.node_of(a)->0 as int;
        if 1 <= a <= m.terminals@.len() && 1 <= b <= m.terminals@.len() {
            assert(tree.pos(x) == a);
            assert(tree.pos(x) == b);
        } else if FIRST_NONTERMINAL_ID <= a && FIRST_NONTERMINAL_ID <= b {
            assert(m.nonterminals@[a - FIRST_NONTERMINAL_ID] == m.nonterminals@[b - FIRST_NONTERMINAL_ID]);
        }
    }
}

} // verus!
