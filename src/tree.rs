use vstd::prelude::*;
use crate::features::{Features, stored, opt_view};

verus! {

/// A node of a sentence tree. A terminal carries its 1-based token position;
/// a nonterminal carries none.
pub struct Node {
    pub parent: Option<usize>,
    pub children: Vec<usize>,
    pub position: Option<usize>,
    pub features: Features,
}

/// One sentence: a rooted, ordered tree whose nodes are numbered so that the
/// root is node 0 and every node comes after its parent.
pub struct Tree {
    pub nodes: Vec<Node>,
}

impl Tree {
    pub open spec fn len(&self) -> int {
        self.nodes@.len() as int
    }

    pub open spec fn is_terminal(&self, i: int) -> bool {
        self.nodes@[i].position is Some
    }

    pub open spec fn pos(&self, i: int) -> int {
        self.nodes@[i].position->0 as int
    }

    pub open spec fn children(&self, i: int) -> Seq<usize> {
        self.nodes@[i].children@
    }

    pub open spec fn is_child(&self, p: int, c: int) -> bool {
        exists|k: int| 0 <= k < self.children(p).len() && self.children(p)[k] == c
    }

    /// The structural invariant: parent and child links agree, a parent is a
    /// nonterminal numbered before its children, and node 0 is a
    /// nonterminal root.
    pub open spec fn wf(&self) -> bool {
        &&& self.len() >= 1
        &&& self.nodes@[0].parent is None
        &&& !self.is_terminal(0)
        &&& forall|i: int|
            0 < i < self.len() ==> {
                &&& #[trigger] self.nodes@[i].parent matches Some(p)
                &&& (p as int) < i
                &&& !self.is_terminal(p as int)
                &&& self.is_child(p as int, i)
            }
        &&& forall|i: int, k: int|
            0 <= i < self.len() && 0 <= k < self.children(i).len() ==> {
                let c = #[trigger] self.children(i)[k] as int;
                &&& i < c < self.len()
                &&& self.nodes@[c].parent == Some(i as usize)
            }
        &&& forall|i: int, k1: int, k2: int|
            0 <= i < self.len() && 0 <= k1 < self.children(i).len() && 0 <= k2 < self.children(
                i,
            ).len() && #[trigger] self.children(i)[k1] == #[trigger] self.children(i)[k2] ==> k1
                == k2
        &&& forall|i: int| 0 <= i < self.len() ==> (#[trigger] self.nodes@[i]).features.wf()
    }

    /// Terminal positions are distinct and run from 1 without gaps.
    pub open spec fn positions_ok(&self) -> bool {
        &&& forall|i: int|
            0 <= i < self.len() && #[trigger] self.is_terminal(i) ==> 1 <= self.pos(i)
                <= self.len()
        &&& forall|i: int, j: int|
            0 <= i < self.len() && 0 <= j < self.len() && self.is_terminal(i)
                && self.is_terminal(j) && #[trigger] self.pos(i) == #[trigger] self.pos(j) ==> i
                == j
        &&& forall|i: int, q: int|
            #![trigger self.is_terminal(i), self.has_position(q)]
            0 <= i < self.len() && self.is_terminal(i) && 1 <= q < self.pos(i)
                ==> self.has_position(q)
    }

    pub open spec fn has_position(&self, q: int) -> bool {
        exists|j: int| 0 <= j < self.len() && self.is_terminal(j) && #[trigger] self.pos(j) == q
    }

    /// Every nonterminal other than the root has at least one child.
    pub open spec fn complete(&self) -> bool {
        forall|i: int|
            0 < i < self.len() && !#[trigger] self.is_terminal(i) ==> self.children(i).len() > 0
    }

    /// `n` lies on the path from `t` up to the root.
    pub open spec fn dominates(&self, n: int, t: int) -> bool
        decreases t,
    {
        if t == n {
            true
        } else if 0 < t < self.len() && self.nodes@[t].parent is Some && (
        self.nodes@[t].parent->0 as int) < t {
            self.dominates(n, self.nodes@[t].parent->0 as int)
        } else {
            false
        }
    }

    /// The span of `n`: the positions of the terminals that it dominates.
    pub open spec fn span(&self, n: int) -> Set<int> {
        Set::new(
            |q: int|
                exists|t: int|
                    0 <= t < self.len() && self.is_terminal(t) && self.pos(t) == q
                        && #[trigger] self.dominates(n, t),
        )
    }

    /// A tree that holds only its root.
    pub fn new() -> (r: Tree)
        ensures
            r.wf(),
            r.len() == 1,
            r.nodes@[0].children@.len() == 0,
            r.nodes@[0].features@.len() == 0,
    {
        let root = Node { parent: None, children: Vec::new(), position: None, features: Features::new() };
        let mut nodes = Vec::new();
        nodes.push(root);
        Tree { nodes }
    }

    /// Number of nodes.
    pub fn num_nodes(&self) -> (r: usize)
        ensures
            r == self.len(),
    {
        self.nodes.len()
    }

    /// Whether node `i` is a terminal.
    pub fn node_is_terminal(&self, i: usize) -> (r: bool)
        requires
            i < self.len(),
        ensures
            r == self.is_terminal(i as int),
    {
        self.nodes[i].position.is_some()
    }

    fn add_node(&mut self, parent: usize, position: Option<usize>) -> (r: usize)
        requires
            old(self).wf(),
            parent < old(self).len(),
            !old(self).is_terminal(parent as int),
            old(self).len() < usize::MAX,
        ensures
            final(self).wf(),
            r == old(self).len(),
            final(self).len() == old(self).len() + 1,
            final(self).nodes@[r as int].position == position,
            final(self).nodes@[r as int].parent == Some(parent),
            final(self).nodes@[r as int].children@.len() == 0,
            final(self).nodes@[r as int].features@.len() == 0,
            final(self).nodes@[parent as int].children@ == old(self).nodes@[parent as int].children@.push(r),
            forall|i: int|
                0 <= i < old(self).len() && i != parent ==> final(self).nodes@[i] == old(self).nodes@[i],
            forall|i: int|
                0 <= i < old(self).len() ==> {
                    &&& final(self).nodes@[i].position == old(self).nodes@[i].position
                    &&& final(self).nodes@[i].parent == old(self).nodes@[i].parent
                    &&& final(self).nodes@[i].features == old(self).nodes@[i].features
                },
    {
        let r = self.nodes.len();
        let mut p = Node { parent: None, children: Vec::new(), position: None, features: Features::new() };
        self.nodes.set_and_swap(parent, &mut p);
        p.children.push(r);
        self.nodes.set_and_swap(parent, &mut p);
        let node = Node { parent: Some(parent), children: Vec::new(), position, features: Features::new() };
        self.nodes.push(node);
        proof {
            let o = *old(self);
            let s = *self;
            assert forall|i: int| 0 < i < s.len() implies {
                &&& #[trigger] s.nodes@[i].parent matches Some(p)
                &&& (p as int) < i
                &&& !s.is_terminal(p as int)
                &&& s.is_child(p as int, i)
            } by {
                if i < r {
                    let pp = o.nodes@[i].parent->0 as int;
                    let k = choose|k: int| 0 <= k < o.children(pp).len() && o.children(pp)[k] == i;
                    assert(s.children(pp)[k] == i);
                } else {
                    assert(s.children(parent as int)[s.children(parent as int).len() - 1] == r);
                }
            }
            assert forall|i: int, k: int|
                0 <= i < s.len() && 0 <= k < s.children(i).len() implies {
                    let c = #[trigger] s.children(i)[k] as int;
                    &&& i < c < s.len()
                    &&& s.nodes@[c].parent == Some(i as usize)
                } by {
                if i < r {
                    if i != parent || k < o.children(i).len() {
                        assert(s.children(i)[k] == o.children(i)[k]);
                    }
                }
            }
            assert forall|i: int, k1: int, k2: int|
                0 <= i < s.len() && 0 <= k1 < s.children(i).len() && 0 <= k2 < s.children(
                    i,
                ).len() && #[trigger] s.children(i)[k1] == #[trigger] s.children(i)[k2] implies k1
                == k2 by {
                if i == parent {
                    let n = o.children(i).len();
                    if k1 < n {
                        assert(s.children(i)[k1] == o.children(i)[k1]);
                    }
                    if k2 < n {
                        assert(s.children(i)[k2] == o.children(i)[k2]);
                    }
                }
            }
            assert forall|i: int| 0 <= i < s.len() implies (#[trigger] s.nodes@[i]).features.wf() by {
                if i != parent && i < r {
                    assert(s.nodes@[i] == o.nodes@[i]);
                }
            }
        }
        r
    }

    /// Adds a nonterminal below `parent` and returns its number.
    pub fn add_nonterminal(&mut self, parent: usize) -> (r: usize)
        requires
            old(self).wf(),
            parent < old(self).len(),
            !old(self).is_terminal(parent as int),
            old(self).len() < usize::MAX,
        ensures
            final(self).wf(),
            r == old(self).len(),
            final(self).len() == old(self).len() + 1,
            !final(self).is_terminal(r as int),
            final(self).nodes@[r as int].parent == Some(parent),
            final(self).nodes@[parent as int].children@ == old(self).nodes@[parent as int].children@.push(r),
    {
        self.add_node(parent, None)
    }

    /// Adds a terminal at token `position` below `parent` and returns its
    /// number.
    pub fn add_terminal(&mut self, parent: usize, position: usize) -> (r: usize)
        requires
            old(self).wf(),
            parent < old(self).len(),
            !old(self).is_terminal(parent as int),
            old(self).len() < usize::MAX,
        ensures
            final(self).wf(),
            r == old(self).len(),
            final(self).len() == old(self).len() + 1,
            final(self).nodes@[r as int].position == Some(position),
            final(self).nodes@[r as int].parent == Some(parent),
            final(self).nodes@[parent as int].children@ == old(self).nodes@[parent as int].children@.push(r),
    {
        self.add_node(parent, Some(position))
    }

    /// Stores `value` under `key` in the features of node `n`.
    pub fn set_feature(&mut self, n: usize, key: &str, value: Option<String>)
        requires
            old(self).wf(),
            n < old(self).len(),
        ensures
            final(self).wf(),
            final(self).len() == old(self).len(),
            forall|i: int| 0 <= i < old(self).len() && i != n ==> final(self).nodes@[i] == old(self).nodes@[i],
            final(self).nodes@[n as int].parent == old(self).nodes@[n as int].parent,
            final(self).nodes@[n as int].children == old(self).nodes@[n as int].children,
            final(self).nodes@[n as int].position == old(self).nodes@[n as int].position,
            final(self).nodes@[n as int].features@ == stored(old(self).nodes@[n as int].features@, key@, opt_view(value)),
    {
        let mut p = Node { parent: None, children: Vec::new(), position: None, features: Features::new() };
        self.nodes.set_and_swap(n, &mut p);
        p.features.insert(key, value);
        self.nodes.set_and_swap(n, &mut p);
        proof {
            let o = *old(self);
            let s = *self;
            assert forall|i: int| 0 < i < s.len() implies {
                &&& #[trigger] s.nodes@[i].parent matches Some(p)
                &&& (p as int) < i
                &&& !s.is_terminal(p as int)
                &&& s.is_child(p as int, i)
            } by {
                let pp = o.nodes@[i].parent->0 as int;
                assert(s.children(pp) == o.children(pp));
            }
            assert forall|i: int, k: int|
                0 <= i < s.len() && 0 <= k < s.children(i).len() implies {
                    let c = #[trigger] s.children(i)[k] as int;
                    &&& i < c < s.len()
                    &&& s.nodes@[c].parent == Some(i as usize)
                } by {
                assert(s.children(i) == o.children(i));
            }
            assert forall|i: int, k1: int, k2: int|
                0 <= i < s.len() && 0 <= k1 < s.children(i).len() && 0 <= k2 < s.children(
                    i,
                ).len() && #[trigger] s.children(i)[k1] == #[trigger] s.children(i)[k2] implies k1
                == k2 by {
                assert(s.children(i) == o.children(i));
            }
        }
    }

    /// Terminals ordered by position, where the positions are valid;
    /// `None` where they are not.
    pub fn terminals_in_order(&self) -> (r: Option<Vec<usize>>)
        requires
            self.wf(),
        ensures
            r is Some <==> self.positions_ok(),
            r matches Some(v) ==> self.ordered_terminals(v@),
    {
        let n = self.nodes.len();
        // slot x holds the terminal at position x + 1
        let mut slots: Vec<Option<usize>> = Vec::new();
        let mut k: usize = 0;
        while k < n
            invariant
                k <= n,
                n == self.len(),
                slots@.len() == k,
                forall|x: int| 0 <= x < k ==> slots@[x] is None,
            decreases n - k,
        {
            slots.push(None);
            k = k + 1;
        }
        let mut i: usize = 0;
        while i < n
            invariant
                i <= n,
                n == self.len(),
                slots@.len() == n,
                forall|x: int|
                    0 <= x < n && #[trigger] slots@[x] is Some ==> {
                        let t = slots@[x]->0 as int;
                        &&& 0 <= t < i
                        &&& self.is_terminal(t)
                        &&& self.pos(t) == x + 1
                    },
                forall|t: int|
                    0 <= t < i && #[trigger] self.is_terminal(t) ==> 1 <= self.pos(t) <= n
                        && slots@[self.pos(t) - 1] == Some(t as usize),
            decreases n - i,
        {
            match self.nodes[i].position {
                Some(p) => {
                    assert(self.is_terminal(i as int) && self.pos(i as int) == p);
                    if p == 0 || p > n {
                        return None;
                    }
                    match slots[p - 1] {
                        Some(other) => {
                            assert(self.pos(other as int) == self.pos(i as int));
                            return None;
                        },
                        None => {
                            slots.set(p - 1, Some(i));
                        },
                    }
                },
                None => {},
            }
            i = i + 1;
        }
        // the filled slots, up to the first empty one
        let mut order: Vec<usize> = Vec::new();
        let mut q: usize = 0;
        while q < n && slots[q].is_some()
            invariant
                q <= n,
                n == self.len(),
                slots@.len() == n,
                order@.len() == q,
                forall|j: int| 0 <= j < q ==> slots@[j] == Some(order@[j]),
                forall|x: int|
                    0 <= x < n && #[trigger] slots@[x] is Some ==> {
                        let t = slots@[x]->0 as int;
                        &&& 0 <= t < n
                        &&& self.is_terminal(t)
                        &&& self.pos(t) == x + 1
                    },
            decreases n - q,
        {
            let ghost o0 = order@;
            order.push(slots[q].unwrap());
            assert(slots@[q as int] == Some(order@[q as int]));
            assert forall|j: int| 0 <= j < q + 1 implies slots@[j] == Some(order@[j]) by {
                if j < q {
                    assert(order@[j] == o0[j]);
                }
            }
            q = q + 1;
        }
        let gap = q;
        while q < n
            invariant
                gap <= q <= n,
                n == self.len(),
                order@.len() == gap,
                forall|j: int| 0 <= j < gap ==> slots@[j] == Some(order@[j]),
                slots@.len() == n,
                gap < n ==> slots@[gap as int] is None,
                forall|j: int| gap <= j < q ==> slots@[j] is None,
                forall|x: int|
                    0 <= x < n && #[trigger] slots@[x] is Some ==> {
                        let t = slots@[x]->0 as int;
                        &&& 0 <= t < n
                        &&& self.is_terminal(t)
                        &&& self.pos(t) == x + 1
                    },
                forall|t: int|
                    0 <= t < n && #[trigger] self.is_terminal(t) ==> 1 <= self.pos(t) <= n
                        && slots@[self.pos(t) - 1] == Some(t as usize),
            decreases n - q,
        {
            if slots[q].is_some() {
                proof {
                    let t = slots@[q as int]->0 as int;
                    assert(self.is_terminal(t) && self.pos(t) == q + 1);
                    if self.positions_ok() {
                        assert(self.has_position(gap + 1));
                        let j = choose|j: int|
                            0 <= j < self.len() && self.is_terminal(j) && #[trigger] self.pos(j)
                                == gap + 1;
                        assert(slots@[self.pos(j) - 1] is Some);
                    }
                }
                return None;
            }
            q = q + 1;
        }
        proof {
            assert forall|t: int, x: int|
                #![trigger self.is_terminal(t), self.has_position(x)]
                0 <= t < self.len() && self.is_terminal(t) && 1 <= x < self.pos(t)
                implies self.has_position(x) by {
                assert(slots@[self.pos(t) - 1] is Some);
                assert(slots@[x - 1] is Some);
                let w = slots@[x - 1]->0 as int;
                assert(self.pos(w) == x);
            }
            assert forall|t: int|
                0 <= t < self.len() && #[trigger] self.is_terminal(t) implies 1 <= self.pos(t)
                <= order@.len() && order@[self.pos(t) - 1] == t by {
                assert(slots@[self.pos(t) - 1] is Some);
            }
            assert forall|k: int| 0 <= k < order@.len() implies {
                &&& (#[trigger] order@[k] as int) < self.len()
                &&& self.is_terminal(order@[k] as int)
                &&& self.pos(order@[k] as int) == k + 1
            } by {
                assert(slots@[k] is Some);
            }
        }
        Some(order)
    }

    /// `v` lists every terminal once, ordered by position: the terminal at
    /// index `k` has position `k + 1`.
    pub open spec fn ordered_terminals(&self, v: Seq<usize>) -> bool {
        &&& forall|k: int|
            0 <= k < v.len() ==> {
                &&& (#[trigger] v[k] as int) < self.len()
                &&& self.is_terminal(v[k] as int)
                &&& self.pos(v[k] as int) == k + 1
            }
        &&& forall|t: int|
            0 <= t < self.len() && #[trigger] self.is_terminal(t) ==> 1 <= self.pos(t) <= v.len()
                && v[self.pos(t) - 1] == t
    }

    /// Whether `n` dominates `t`, found by walking up from `t`.
    pub fn dominates_node(&self, n: usize, t: usize) -> (r: bool)
        requires
            self.wf(),
            t < self.len(),
        ensures
            r == self.dominates(n as int, t as int),
    {
        let mut cur = t;
        while cur != n && cur != 0
            invariant
                self.wf(),
                cur < self.len(),
                self.dominates(n as int, t as int) == self.dominates(n as int, cur as int),
            decreases cur,
        {
            cur = self.nodes[cur].parent.unwrap();
        }
        cur == n
    }

    /// The span of `n` in increasing order, given the terminals in order.
    pub fn span_positions(&self, order: &Vec<usize>, n: usize) -> (r: Vec<usize>)
        requires
            self.wf(),
            self.ordered_terminals(order@),
        ensures
            forall|a: int, b: int| 0 <= a < b < r@.len() ==> r@[a] < r@[b],
            forall|q: usize| r@.contains(q) <==> self.span(n as int).contains(q as int),
            forall|x: int| 0 <= x < r@.len() ==> #[trigger] r@[x] >= 1,
    {
        let mut r: Vec<usize> = Vec::new();
        let mut k: usize = 0;
        while k < order.len()
            invariant
                self.wf(),
                self.ordered_terminals(order@),
                k <= order@.len(),
                forall|a: int, b: int| 0 <= a < b < r@.len() ==> r@[a] < r@[b],
                forall|x: int| 0 <= x < r@.len() ==> 1 <= #[trigger] r@[x] <= k,
                forall|q: usize|
                    1 <= q <= k ==> (r@.contains(q) <==> self.span(n as int).contains(q as int)),
            decreases order@.len() - k,
        {
            let t = order[k];
            let d = self.dominates_node(n, t);
            let ghost r0 = r@;
            proof {
                let q = (k + 1) as int;
                assert(self.is_terminal(t as int) && self.pos(t as int) == q);
                if self.span(n as int).contains(q) {
                    let w = choose|w: int|
                        0 <= w < self.len() && self.is_terminal(w) && self.pos(w) == q
                            && #[trigger] self.dominates(n as int, w);
                    assert(order@[self.pos(w) - 1] == w);
                }
                if d {
                    assert(self.dominates(n as int, t as int));
                    assert(self.span(n as int).contains(q));
                }
            }
            if d {
                r.push(k + 1);
            }
            proof {
                assert forall|q: usize|
                    1 <= q <= k + 1 implies (r@.contains(q) <==> self.span(n as int).contains(
                    q as int)) by {
                    if r@.contains(q) {
                        let x = choose|x: int| 0 <= x < r@.len() && r@[x] == q;
                        if x < r0.len() {
                            assert(r0[x] == q);
                        }
                    }
                    if q <= k && r0.contains(q) {
                        let x = choose|x: int| 0 <= x < r0.len() && r0[x] == q;
                        assert(r@[x] == q);
                    }
                    if q == k + 1 && d {
                        assert(r@[r@.len() - 1] == q);
                    }
                }
            }
            k = k + 1;
        }
        proof {
            assert forall|q: usize| r@.contains(q) <==> self.span(n as int).contains(q as int) by {
                if self.span(n as int).contains(q as int) {
                    let w = choose|w: int|
                        0 <= w < self.len() && self.is_terminal(w) && self.pos(w) == q
                            && #[trigger] self.dominates(n as int, w);
                    assert(order@[self.pos(w) - 1] == w);
                }
                if r@.contains(q) {
                    let x = choose|x: int| 0 <= x < r@.len() && r@[x] == q;
                    assert(1 <= r@[x] <= k);
                }
            }
        }
        r
    }
}

/// A node that `n` dominates, other than `n` itself, lies below one of
/// `n`'s children.
proof fn lemma_below_child(tree: &Tree, n: int, t: int)
    requires
        tree.wf(),
        0 <= t < tree.len(),
        tree.dominates(n, t),
        t != n,
    ensures
        exists|k: int|
            0 <= k < tree.children(n).len() && tree.dominates(#[trigger] tree.children(n)[k] as int, t),
    decreases t,
{
    let p = tree.nodes@[t].parent->0 as int;
    if p == n {
        let k = choose|k: int| 0 <= k < tree.children(n).len() && tree.children(n)[k] == t;
        assert(tree.dominates(tree.children(n)[k] as int, t));
    } else {
        lemma_below_child(tree, n, p);
        let k = choose|k: int|
            0 <= k < tree.children(n).len() && tree.dominates(#[trigger] tree.children(n)[k] as int, p);
        assert(tree.dominates(tree.children(n)[k] as int, t));
    }
}

/// What a child of `n` dominates, `n` dominates too.
proof fn lemma_child_below(tree: &Tree, n: int, c: int, t: int)
    requires
        tree.wf(),
        0 <= n < tree.len(),
        0 <= t < tree.len(),
        tree.is_child(n, c),
        tree.dominates(c, t),
    ensures
        tree.dominates(n, t),
    decreases t,
{
    let k = choose|k: int| 0 <= k < tree.children(n).len() && tree.children(n)[k] == c;
    assert(tree.children(n)[k] == c);
    assert(n < c < tree.len() && tree.nodes@[c].parent == Some(n as usize));
    if t == n {
    } else if t == c {
        assert(tree.dominates(n, n));
    } else {
        let p = tree.nodes@[t].parent->0 as int;
        assert(tree.dominates(c, p));
        lemma_child_below(tree, n, c, p);
    }
}

/// A nonterminal's span is the union of its children's spans.
pub proof fn lemma_span_of_children(tree: &Tree, n: int)
    requires
        tree.wf(),
        0 <= n < tree.len(),
        !tree.is_terminal(n),
    ensures
        tree.span(n) == Set::new(
            |q: int|
                exists|k: int|
                    0 <= k < tree.children(n).len() && #[trigger] tree.span(
                        tree.children(n)[k] as int,
                    ).contains(q),
        ),
{
    let u = Set::new(
        |q: int|
            exists|k: int|
                0 <= k < tree.children(n).len() && #[trigger] tree.span(
                    tree.children(n)[k] as int,
                ).contains(q),
    );
    assert forall|q: int| tree.span(n).contains(q) implies u.contains(q) by {
        let t = choose|t: int|
            0 <= t < tree.len() && tree.is_terminal(t) && tree.pos(t) == q
                && #[trigger] tree.dominates(n, t);
        lemma_below_child(tree, n, t);
        let k = choose|k: int|
            0 <= k < tree.children(n).len() && tree.dominates(#[trigger] tree.children(n)[k] as int, t);
        assert(tree.span(tree.children(n)[k] as int).contains(q));
    }
    assert forall|q: int| u.contains(q) implies tree.span(n).contains(q) by {
        let k = choose|k: int|
            0 <= k < tree.children(n).len() && #[trigger] tree.span(
                tree.children(n)[k] as int,
            ).contains(q);
        let c = tree.children(n)[k] as int;
        let t = choose|t: int|
            0 <= t < tree.len() && tree.is_terminal(t) && tree.pos(t) == q
                && #[trigger] tree.dominates(c, t);
        lemma_child_below(tree, n, c, t);
    }
    assert(tree.span(n) =~= u);
}

} // verus!
