//! Tree enumeration: a resumable, explicit-stack traversal that yields one
//! fully disambiguated tree at a time from a built forest, reusing its
//! working arena between trees. Each call advances an explicit state machine,
//! so the traversal has no hidden stack growth even over cyclic forests; its
//! whole behaviour is the mathematical transition function `step_spec`.

use vstd::prelude::*;
use crate::svec::{sv_elems, sv_get, sv_len, sv_set, sv_from_elem};
use crate::grammar::Parser;
use crate::sppf::{SPPF, SPPFNode, node_alts};

verus! {

/// One suspended obligation of the traversal.
#[derive(Copy, Clone, PartialEq, Eq, Structural, Debug)]
pub enum State {
    /// Copy forest node `node` into the working tree, recording it at slot
    /// `slot` of the parent's child list when there is a parent.
    Descend { node: usize, parent: Option<usize>, slot: usize },
    /// Remove the most recently added tree node while backtracking.
    Unwind,
    /// Try alternative `alt` of forest node `node`, whose tree copy sits at
    /// index `tcur`.
    NextAlt { node: usize, tcur: usize, alt: usize },
}

/// What one transition did.
#[derive(Copy, Clone, PartialEq, Eq, Structural, Debug)]
pub enum Step {
    /// An internal step; advance again.
    Again,
    /// The working tree now holds one complete disambiguated tree.
    Tree,
    /// Every alternative is exhausted; the sequence has ended.
    Done,
    /// A state not produced by this enumerator was detected and rejected.
    Stuck,
}

/// What a bounded run of transitions produced.
#[derive(Copy, Clone, PartialEq, Eq, Structural, Debug)]
pub enum Yielded {
    /// The working tree holds the next tree, valid until the next call.
    Tree,
    /// The sequence has ended.
    Done,
    /// The fuel ran out before the next tree; call again to continue.
    OutOfFuel,
    /// A state not produced by this enumerator was detected and rejected.
    Stuck,
}

/// A node as plain values: production, span, and alternatives.
pub type NodeV = (Option<usize>, usize, usize, Seq<Seq<usize>>);

/// A suspended sibling: forest node, tree parent index, parent slot.
pub type Pose = (usize, usize, usize);

/// The nodes of a forest or working tree as plain values.
pub open spec fn forest_view(nodes: Seq<SPPFNode>) -> Seq<NodeV> {
    nodes.map(|i: int, nd: SPPFNode| (nd.prod, nd.start, nd.end, node_alts(nd)))
}

/// Every node of the tree has at most one alternative: the tree is fully
/// disambiguated.
pub open spec fn disambiguated(tree: Seq<NodeV>) -> bool {
    forall|j: int| 0 <= j < tree.len() ==> (#[trigger] tree[j]).3.len() <= 1
}

/// The transition taken from a `Descend` obligation.
pub open spec fn step_descend(
    g: Parser,
    sv: Seq<NodeV>,
    stk1: Seq<State>,
    poses: Seq<Pose>,
    tree: Seq<NodeV>,
    node: usize,
    parent: Option<usize>,
    slot: usize,
) -> (Seq<State>, Seq<Pose>, Seq<NodeV>, Step) {
    if node >= sv.len() {
        (stk1, poses, tree, Step::Stuck)
    } else {
        let nd = sv[node as int];
        let parent_ok = match parent {
            Option::None => true,
            Option::Some(ps) => ps < tree.len() && tree[ps as int].3.len() == 1 && slot < tree[
                ps as int
            ].3[0].len(),
        };
        let prod_ok = nd.3.len() == 0 || (match nd.0 {
            Option::Some(p) => p < g.prods_view().len() && g.prods_view()[p as int].len() >= 1,
            Option::None => false,
        });
        if !(parent_ok && prod_ok) {
            (stk1, poses, tree, Step::Stuck)
        } else {
            let cur = tree.len() as usize;
            let t1 = tree.push((nd.0, nd.1, nd.2, Seq::empty()));
            let t2 = match parent {
                Option::None => t1,
                Option::Some(ps) => t1.update(
                    ps as int,
                    (
                        t1[ps as int].0,
                        t1[ps as int].1,
                        t1[ps as int].2,
                        t1[ps as int].3.update(0, t1[ps as int].3[0].update(slot as int, cur)),
                    ),
                ),
            };
            if nd.3.len() == 0 {
                // a leaf of the forest: either resume a pending sibling or
                // the working tree is complete
                let stk2 = stk1.push(State::Unwind);
                if poses.len() == 0 {
                    (stk2, poses, t2, Step::Tree)
                } else {
                    let ps = poses.last();
                    (
                        stk2.push(
                            State::Descend { node: ps.0, parent: Option::Some(ps.1), slot: ps.2 },
                        ),
                        poses.drop_last(),
                        t2,
                        Step::Again,
                    )
                }
            } else {
                let p = nd.0.unwrap();
                let slots = (g.prods_view()[p as int].len() - 1) as nat;
                let t3 = t2.update(
                    cur as int,
                    (nd.0, nd.1, nd.2, seq![Seq::new(slots, |q: int| 0usize)]),
                );
                (
                    stk1.push(State::NextAlt { node, tcur: cur, alt: 0 }),
                    poses,
                    t3,
                    Step::Again,
                )
            }
        }
    }
}

/// The transition taken from a `NextAlt` obligation.
pub open spec fn step_next_alt(
    g: Parser,
    sv: Seq<NodeV>,
    stk1: Seq<State>,
    poses: Seq<Pose>,
    tree: Seq<NodeV>,
    node: usize,
    tcur: usize,
    alt: usize,
) -> (Seq<State>, Seq<Pose>, Seq<NodeV>, Step) {
    if node >= sv.len() {
        (stk1, poses, tree, Step::Stuck)
    } else {
        let nd = sv[node as int];
        if alt < nd.3.len() {
            let a = nd.3[alt as int];
            if a.len() == 0 {
                (stk1, poses, tree, Step::Stuck)
            } else {
                // queue the siblings after the first child, deepest-pending
                // last pushed first
                let extra = Seq::new(
                    (a.len() - 1) as nat,
                    |q: int| (a[a.len() - 1 - q], tcur, (a.len() - 1 - q) as usize),
                );
                (
                    stk1.push(State::NextAlt { node, tcur, alt: (alt + 1) as usize }).push(
                        State::Descend { node: a[0], parent: Option::Some(tcur), slot: 0 },
                    ),
                    poses + extra,
                    tree,
                    Step::Again,
                )
            }
        } else {
            if tree.len() == 0 {
                (stk1, poses, tree, Step::Stuck)
            } else {
                (stk1, poses, tree.drop_last(), Step::Again)
            }
        }
    }
}

/// The enumerator's whole behaviour: one transition of the state machine,
/// a total function of the forest and the current state.
pub open spec fn step_spec(
    g: Parser,
    sv: Seq<NodeV>,
    stk: Seq<State>,
    poses: Seq<Pose>,
    tree: Seq<NodeV>,
) -> (Seq<State>, Seq<Pose>, Seq<NodeV>, Step) {
    if stk.len() == 0 {
        (stk, poses, tree, Step::Done)
    } else {
        let top = stk.last();
        let stk1 = stk.drop_last();
        match top {
            State::Descend { node, parent, slot } => step_descend(
                g,
                sv,
                stk1,
                poses,
                tree,
                node,
                parent,
                slot,
            ),
            State::Unwind => {
                if tree.len() == 0 {
                    (stk1, poses, tree, Step::Stuck)
                } else {
                    (stk1, poses, tree.drop_last(), Step::Again)
                }
            },
            State::NextAlt { node, tcur, alt } => step_next_alt(
                g,
                sv,
                stk1,
                poses,
                tree,
                node,
                tcur,
                alt,
            ),
        }
    }
}

/// Every tree the machine builds is fully disambiguated: no transition gives
/// a tree node a second alternative.
pub proof fn lemma_step_disambiguated(
    g: Parser,
    sv: Seq<NodeV>,
    stk: Seq<State>,
    poses: Seq<Pose>,
    tree: Seq<NodeV>,
)
    requires
        disambiguated(tree),
    ensures
        disambiguated(step_spec(g, sv, stk, poses, tree).2),
{
    let t2 = step_spec(g, sv, stk, poses, tree).2;
    assert forall|j: int| 0 <= j < t2.len() implies (#[trigger] t2[j]).3.len() <= 1 by {
        if j < tree.len() {
            assert(tree[j].3.len() <= 1);
        }
    }
}

/// The state after `k` internal transitions.
pub open spec fn run_steps(
    g: Parser,
    sv: Seq<NodeV>,
    stk: Seq<State>,
    poses: Seq<Pose>,
    tree: Seq<NodeV>,
    k: nat,
) -> (Seq<State>, Seq<Pose>, Seq<NodeV>)
    decreases k,
{
    if k == 0 {
        (stk, poses, tree)
    } else {
        let prev = run_steps(g, sv, stk, poses, tree, (k - 1) as nat);
        let s = step_spec(g, sv, prev.0, prev.1, prev.2);
        (s.0, s.1, s.2)
    }
}

/// What the `k`-th transition reports.
pub open spec fn outcome_at(
    g: Parser,
    sv: Seq<NodeV>,
    stk: Seq<State>,
    poses: Seq<Pose>,
    tree: Seq<NodeV>,
    k: nat,
) -> Step {
    let prev = run_steps(g, sv, stk, poses, tree, k);
    step_spec(g, sv, prev.0, prev.1, prev.2).3
}

/// The `k`-th transition is the first that yields a tree, the end of the
/// sequence, or a rejection.
pub open spec fn first_stop(
    g: Parser,
    sv: Seq<NodeV>,
    stk: Seq<State>,
    poses: Seq<Pose>,
    tree: Seq<NodeV>,
    k: nat,
) -> bool {
    &&& outcome_at(g, sv, stk, poses, tree, k) != Step::Again
    &&& forall|m: nat| m < k ==> outcome_at(g, sv, stk, poses, tree, m) == Step::Again
}

/// Enumeration is deterministic: from one state over one forest there is
/// exactly one next tree. Two independent enumerators over the same forest
/// therefore yield the same trees in the same order.
pub proof fn lemma_enumeration_deterministic(
    g: Parser,
    sv: Seq<NodeV>,
    stk: Seq<State>,
    poses: Seq<Pose>,
    tree: Seq<NodeV>,
    k1: nat,
    k2: nat,
)
    requires
        first_stop(g, sv, stk, poses, tree, k1),
        first_stop(g, sv, stk, poses, tree, k2),
    ensures
        k1 == k2,
        run_steps(g, sv, stk, poses, tree, k1) == run_steps(g, sv, stk, poses, tree, k2),
{
    if k1 < k2 {
        assert(outcome_at(g, sv, stk, poses, tree, k1) == Step::Again);
    }
    if k2 < k1 {
        assert(outcome_at(g, sv, stk, poses, tree, k2) == Step::Again);
    }
}


/// A forest node from which whole-input trees start: a derivation of a start
/// production over the whole input.
pub open spec fn is_root(g: Parser, nv: NodeV, start: usize, n: int) -> bool {
    match nv.0 {
        Option::Some(p) => {
            &&& p < g.prods_view().len()
            &&& g.prods_view()[p as int].len() >= 1
            &&& g.prods_view()[p as int][0] == start
            &&& nv.1 == 0
            &&& nv.2 == n
        },
        Option::None => false,
    }
}

/// The initial obligation stack: one `Descend` per root node, in arena
/// order, considering the first `m` nodes.
pub open spec fn init_stack_upto(
    g: Parser,
    sv: Seq<NodeV>,
    start: usize,
    n: int,
    m: int,
) -> Seq<State>
    decreases m,
{
    if m <= 0 {
        Seq::empty()
    } else {
        init_stack_upto(g, sv, start, n, m - 1) + (if is_root(g, sv[m - 1], start, n) {
            seq![State::Descend { node: (m - 1) as usize, parent: Option::None, slot: 0 }]
        } else {
            Seq::empty()
        })
    }
}

/// The initial obligation stack over the whole arena.
pub open spec fn init_stack(g: Parser, sv: Seq<NodeV>, start: usize, n: int) -> Seq<State> {
    init_stack_upto(g, sv, start, n, sv.len() as int)
}

/// The enumerator: a borrowed forest, the obligation stack, the pending
/// sibling list, and the working tree, which is reused from one tree to the
/// next. The tree read after one yield is valid only until the next call.
pub struct Iter<'a> {
    /// The forest being enumerated.
    pub sppf: &'a SPPF<'a>,
    /// Suspended obligations, topmost last.
    pub stk: Vec<State>,
    /// Pending siblings: forest node, tree parent, parent slot.
    pub poses: Vec<(usize, usize, usize)>,
    /// The working tree, rebuilt for each yielded tree.
    pub tree: SPPF<'a>,
}

impl<'a> SPPF<'a> {
    /// Starts enumerating the forest's trees. The sequence is lazy,
    /// forward-only and non-restartable, and can be infinite when the forest
    /// has cycles; the caller bounds it with the fuel it passes to each
    /// `next` call.
    pub fn iter(&'a self) -> (it: Iter<'a>)
        ensures
            it.sppf == self,
            it.stk@ == init_stack(
                *self.parser,
                forest_view(self.nodes@),
                self.start,
                self.tokens@.len() as int,
            ),
            it.poses@.len() == 0,
            it.tree.nodes@.len() == 0,
            it.tree.parser == self.parser,
            it.tree.start == self.start,
            it.tree.tokens@ == self.tokens@,
    {
        let ghost g = *self.parser;
        let ghost sv = forest_view(self.nodes@);
        let n = self.tokens.len();
        let mut stk: Vec<State> = Vec::new();
        let nn = self.nodes.len();
        for idx in 0..nn
            invariant
                g == *self.parser,
                sv == forest_view(self.nodes@),
                nn == self.nodes@.len(),
                n == self.tokens@.len(),
                stk@ == init_stack_upto(g, sv, self.start, n as int, idx as int),
        {
            let ghost stk0 = stk@;
            let nd = &self.nodes[idx];
            proof {
                assert(sv[idx as int] == (nd.prod, nd.start, nd.end, node_alts(*nd)));
            }
            match nd.prod {
                Option::Some(p) => {
                    if p < self.parser.prods.len() {
                        proof {
                            assert(g.prods_view()[p as int] == sv_elems(
                                self.parser.prods@[p as int],
                            ));
                        }
                        let pl = sv_len(&self.parser.prods[p]);
                        if pl > 0 {
                            let lhs = sv_get(&self.parser.prods[p], 0);
                            if lhs == self.start && nd.start == 0 && nd.end == n {
                                stk.push(
                                    State::Descend {
                                        node: idx,
                                        parent: Option::None,
                                        slot: 0,
                                    },
                                );
                            }
                        }
                    }
                },
                Option::None => {},
            }
            proof {
                if is_root(g, sv[idx as int], self.start, n as int) {
                    assert(stk@ =~= stk0.push(
                        State::Descend { node: idx, parent: Option::None, slot: 0 },
                    ));
                    assert(stk@ =~= init_stack_upto(g, sv, self.start, n as int, idx + 1));
                } else {
                    assert(stk@ =~= init_stack_upto(g, sv, self.start, n as int, idx + 1));
                }
            }
        }
        let mut toks2: Vec<usize> = Vec::new();
        let nt = self.tokens.len();
        for i in 0..nt
            invariant
                nt == self.tokens@.len(),
                toks2@ == self.tokens@.take(i as int),
        {
            toks2.push(self.tokens[i]);
            proof {
                assert(toks2@ =~= self.tokens@.take(i + 1));
            }
        }
        proof {
            assert(toks2@ =~= self.tokens@);
        }
        let tree = SPPF { parser: self.parser, start: self.start, tokens: toks2, nodes: Vec::new() };
        Iter { sppf: self, stk, poses: Vec::new(), tree }
    }
}

/// The step a run of transitions reports to the caller.
pub open spec fn as_yield(s: Step) -> Yielded {
    match s {
        Step::Again => Yielded::OutOfFuel,
        Step::Tree => Yielded::Tree,
        Step::Done => Yielded::Done,
        Step::Stuck => Yielded::Stuck,
    }
}

impl<'a> Iter<'a> {
    /// The working tree: after `next` yields a tree this holds it, valid
    /// until the next call. A caller that needs it longer copies it out.
    pub fn tree(&self) -> (r: &SPPF<'a>)
        ensures
            *r == self.tree,
    {
        &self.tree
    }

    /// One transition of the state machine: exactly `step_spec` applied to
    /// the current state.
    pub fn advance(&mut self) -> (r: Step)
        ensures
            ({
                let (stk2, poses2, tree2, out) = step_spec(
                    *old(self).sppf.parser,
                    forest_view(old(self).sppf.nodes@),
                    old(self).stk@,
                    old(self).poses@,
                    forest_view(old(self).tree.nodes@),
                );
                &&& final(self).sppf == old(self).sppf
                &&& final(self).tree.parser == old(self).tree.parser
                &&& final(self).tree.start == old(self).tree.start
                &&& final(self).tree.tokens == old(self).tree.tokens
                &&& final(self).stk@ == stk2
                &&& final(self).poses@ == poses2
                &&& forest_view(final(self).tree.nodes@) == tree2
                &&& r == out
            }),
    {
        let ghost g = *self.sppf.parser;
        let ghost sv = forest_view(self.sppf.nodes@);
        let ghost tr0 = forest_view(self.tree.nodes@);
        match self.stk.pop() {
            Option::None => Step::Done,
            Option::Some(State::Unwind) => {
                if self.tree.nodes.len() == 0 {
                    Step::Stuck
                } else {
                    self.tree.nodes.pop();
                    proof {
                        assert(forest_view(self.tree.nodes@) =~= tr0.drop_last());
                    }
                    Step::Again
                }
            },
            Option::Some(State::Descend { node, parent, slot }) => {
                if node >= self.sppf.nodes.len() {
                    return Step::Stuck;
                }
                let nd = &self.sppf.nodes[node];
                let prodopt = nd.prod;
                let lo = nd.start;
                let hi = nd.end;
                let nalts = nd.children.len();
                proof {
                    assert(sv[node as int] == (prodopt, lo, hi, node_alts(*nd)));
                    assert(sv[node as int].3.len() == nalts);
                }
                let parent_ok = match parent {
                    Option::None => true,
                    Option::Some(ps) => ps < self.tree.nodes.len() && self.tree.nodes[ps].children.len()
                        == 1 && slot < sv_len(&self.tree.nodes[ps].children[0]),
                };
                let mut plen: usize = 0;
                let mut prod_ok = true;
                if nalts > 0 {
                    match prodopt {
                        Option::Some(p) => {
                            if p < self.sppf.parser.prods.len() {
                                proof {
                                    assert(g.prods_view()[p as int] == sv_elems(
                                        self.sppf.parser.prods@[p as int],
                                    ));
                                }
                                plen = sv_len(&self.sppf.parser.prods[p]);
                                if plen == 0 {
                                    prod_ok = false;
                                }
                            } else {
                                prod_ok = false;
                            }
                        },
                        Option::None => {
                            prod_ok = false;
                        },
                    }
                }
                if !(parent_ok && prod_ok) {
                    return Step::Stuck;
                }
                let cur = self.tree.nodes.len();
                self.tree.nodes.push(
                    SPPFNode { prod: prodopt, start: lo, end: hi, children: Vec::new() },
                );
                let ghost t1 = forest_view(self.tree.nodes@);
                proof {
                    assert(node_alts(self.tree.nodes@[cur as int]) =~= Seq::<Seq<usize>>::empty());
                    assert(t1 =~= tr0.push((prodopt, lo, hi, Seq::empty())));
                }
                match parent {
                    Option::Some(ps) => {
                        let ghost told = self.tree.nodes@;
                        let pn = &mut self.tree.nodes[ps];
                        let a0 = &mut pn.children[0];
                        sv_set(a0, slot, cur);
                        proof {
                            let tn = self.tree.nodes@;
                            assert(tn[ps as int].children@ =~= told[ps as int].children@.update(
                                0,
                                tn[ps as int].children@[0],
                            ));
                            assert(node_alts(tn[ps as int]) =~= node_alts(
                                told[ps as int],
                            ).update(0, sv_elems(told[ps as int].children@[0]).update(
                                slot as int,
                                cur,
                            )));
                            assert(forest_view(tn) =~= t1.update(
                                ps as int,
                                (
                                    t1[ps as int].0,
                                    t1[ps as int].1,
                                    t1[ps as int].2,
                                    t1[ps as int].3.update(
                                        0,
                                        t1[ps as int].3[0].update(slot as int, cur),
                                    ),
                                ),
                            ));
                        }
                    },
                    Option::None => {},
                }
                let ghost t2 = forest_view(self.tree.nodes@);
                if nalts == 0 {
                    self.stk.push(State::Unwind);
                    match self.poses.pop() {
                        Option::Some(ps) => {
                            self.stk.push(
                                State::Descend {
                                    node: ps.0,
                                    parent: Option::Some(ps.1),
                                    slot: ps.2,
                                },
                            );
                            Step::Again
                        },
                        Option::None => Step::Tree,
                    }
                } else {
                    let slots = plen - 1;
                    let fill = sv_from_elem(0, slots);
                    let nd2 = &mut self.tree.nodes[cur];
                    nd2.children.push(fill);
                    proof {
                        let tn = self.tree.nodes@;
                        assert(node_alts(tn[cur as int]) =~= seq![
                            Seq::new(slots as nat, |q: int| 0usize),
                        ]);
                        let p = prodopt.unwrap();
                        assert(Seq::new(slots as nat, |q: int| 0usize) =~= Seq::new(
                            (g.prods_view()[p as int].len() - 1) as nat,
                            |q: int| 0usize,
                        ));
                        assert(forest_view(tn) =~= t2.update(
                            cur as int,
                            (
                                prodopt,
                                lo,
                                hi,
                                seq![
                                    Seq::new(
                                        (g.prods_view()[p as int].len() - 1) as nat,
                                        |q: int| 0usize,
                                    ),
                                ],
                            ),
                        ));
                    }
                    self.stk.push(State::NextAlt { node, tcur: cur, alt: 0 });
                    Step::Again
                }
            },
            Option::Some(State::NextAlt { node, tcur, alt }) => {
                if node >= self.sppf.nodes.len() {
                    return Step::Stuck;
                }
                let nd = &self.sppf.nodes[node];
                let nalts = nd.children.len();
                proof {
                    assert(sv[node as int] == (nd.prod, nd.start, nd.end, node_alts(*nd)));
                }
                if alt < nalts {
                    let ghost av = sv[node as int].3[alt as int];
                    let alen = sv_len(&self.sppf.nodes[node].children[alt]);
                    proof {
                        assert(av == sv_elems(self.sppf.nodes@[node as int].children@[alt as int]));
                        assert(av.len() == alen);
                    }
                    if alen == 0 {
                        return Step::Stuck;
                    }
                    let ghost poses0 = self.poses@;
                    let ghost stk1v = self.stk@;
                    let ghost tree1 = self.tree;
                    let mut q: usize = 0;
                    while q < alen - 1
                        invariant
                            self.sppf == old(self).sppf,
                            self.stk@ == stk1v,
                            self.tree == tree1,
                            sv == forest_view(self.sppf.nodes@),
                            0 <= node < self.sppf.nodes@.len(),
                            0 <= alt < sv[node as int].3.len(),
                            av == sv[node as int].3[alt as int],
                            1 <= alen == av.len(),
                            q <= alen - 1,
                            self.poses@ == poses0 + Seq::new(
                                q as nat,
                                |i: int| (av[av.len() - 1 - i], tcur, (av.len() - 1 - i) as usize),
                            ),
                        decreases alen - 1 - q,
                    {
                        let pos_idx = alen - 1 - q;
                        let child = sv_get(&self.sppf.nodes[node].children[alt], pos_idx);
                        self.poses.push((child, tcur, pos_idx));
                        proof {
                            assert(self.poses@ =~= poses0 + Seq::new(
                                (q + 1) as nat,
                                |i: int| (av[av.len() - 1 - i], tcur, (av.len() - 1 - i) as usize),
                            ));
                        }
                        q += 1;
                    }
                    proof {
                        assert(self.poses@ =~= poses0 + Seq::new(
                            (av.len() - 1) as nat,
                            |i: int| (av[av.len() - 1 - i], tcur, (av.len() - 1 - i) as usize),
                        ));
                    }
                    let fst = sv_get(&self.sppf.nodes[node].children[alt], 0);
                    self.stk.push(State::NextAlt { node, tcur, alt: alt + 1 });
                    self.stk.push(State::Descend { node: fst, parent: Option::Some(tcur), slot: 0 });
                    Step::Again
                } else {
                    if self.tree.nodes.len() == 0 {
                        Step::Stuck
                    } else {
                        self.tree.nodes.pop();
                        proof {
                            assert(forest_view(self.tree.nodes@) =~= tr0.drop_last());
                        }
                        Step::Again
                    }
                }
            },
        }
    }

    /// Advances the machine until it yields a tree, ends the sequence, or
    /// spends `fuel` transitions. A forest with cycles can yield unboundedly
    /// many, ever larger trees; the fuel is the caller's bound on one call.
    pub fn next(&mut self, fuel: usize) -> (r: Yielded)
        ensures
            final(self).sppf == old(self).sppf,
            final(self).tree.parser == old(self).tree.parser,
            final(self).tree.start == old(self).tree.start,
            final(self).tree.tokens == old(self).tree.tokens,
            disambiguated(forest_view(old(self).tree.nodes@)) ==> disambiguated(
                forest_view(final(self).tree.nodes@),
            ),
            ({
                let g = *old(self).sppf.parser;
                let sv = forest_view(old(self).sppf.nodes@);
                let st0 = old(self).stk@;
                let po0 = old(self).poses@;
                let tr0 = forest_view(old(self).tree.nodes@);
                if r == Yielded::OutOfFuel {
                    &&& (final(self).stk@, final(self).poses@, forest_view(final(self).tree.nodes@))
                        == run_steps(g, sv, st0, po0, tr0, fuel as nat)
                    &&& forall|m: nat|
                        m < fuel ==> outcome_at(g, sv, st0, po0, tr0, m) == Step::Again
                } else {
                    exists|k: nat|
                        {
                            &&& k < fuel
                            &&& #[trigger] first_stop(g, sv, st0, po0, tr0, k)
                            &&& r == as_yield(outcome_at(g, sv, st0, po0, tr0, k))
                            &&& (
                                final(self).stk@,
                                final(self).poses@,
                                forest_view(final(self).tree.nodes@),
                            ) == run_steps(g, sv, st0, po0, tr0, (k + 1) as nat)
                        }
                }
            }),
    {
        let ghost g = *self.sppf.parser;
        let ghost sv = forest_view(self.sppf.nodes@);
        let ghost st0 = self.stk@;
        let ghost po0 = self.poses@;
        let ghost tr0 = forest_view(self.tree.nodes@);
        let mut j: usize = 0;
        while j < fuel
            invariant
                g == *self.sppf.parser,
                self.sppf == old(self).sppf,
                self.tree.parser == old(self).tree.parser,
                self.tree.start == old(self).tree.start,
                self.tree.tokens == old(self).tree.tokens,
                sv == forest_view(self.sppf.nodes@),
                st0 == old(self).stk@,
                po0 == old(self).poses@,
                tr0 == forest_view(old(self).tree.nodes@),
                j <= fuel,
                (self.stk@, self.poses@, forest_view(self.tree.nodes@)) == run_steps(
                    g,
                    sv,
                    st0,
                    po0,
                    tr0,
                    j as nat,
                ),
                forall|m: nat| m < j ==> outcome_at(g, sv, st0, po0, tr0, m) == Step::Again,
                disambiguated(tr0) ==> disambiguated(forest_view(self.tree.nodes@)),
            decreases fuel - j,
        {
            proof {
                if disambiguated(forest_view(self.tree.nodes@)) {
                    lemma_step_disambiguated(
                        g,
                        sv,
                        self.stk@,
                        self.poses@,
                        forest_view(self.tree.nodes@),
                    );
                }
            }
            let step = self.advance();
            proof {
                assert(run_steps(g, sv, st0, po0, tr0, (j + 1) as nat) == (
                    self.stk@,
                    self.poses@,
                    forest_view(self.tree.nodes@),
                )) by {
                    assert(((j + 1) as nat - 1) as nat == j as nat);
                }
                assert(outcome_at(g, sv, st0, po0, tr0, j as nat) == step);
            }
            match step {
                Step::Again => {},
                Step::Tree => {
                    proof {
                        assert(first_stop(g, sv, st0, po0, tr0, j as nat));
                    }
                    return Yielded::Tree;
                },
                Step::Done => {
                    proof {
                        assert(first_stop(g, sv, st0, po0, tr0, j as nat));
                    }
                    return Yielded::Done;
                },
                Step::Stuck => {
                    proof {
                        assert(first_stop(g, sv, st0, po0, tr0, j as nat));
                    }
                    return Yielded::Stuck;
                },
            }
            j += 1;
        }
        Yielded::OutOfFuel
    }
}

} // verus!
