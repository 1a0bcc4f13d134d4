//! The shared packed parse forest: deduplicated nodes keyed by production and
//! span, each holding the alternative child lists found for that key, built
//! from the completed-item index of a chart.

use vstd::prelude::*;
use crate::svec::{SymVec, sv_elems, sv_get, sv_len, sv_new, sv_push, sv_clone};
use crate::grammar::Parser;
use crate::chart::{Item, Chart, chart_view, chart_ok, chart_seg, spans, item_complete, completed_ok, lemma_mixed_radix, lemma_key_range};
use crate::errors::ParseError;
use vstd::string::StringSliceAdditionalSpecFns;

verus! {

broadcast use vstd::seq_lib::group_seq_properties;

/// One forest node. A node with a production is a derivation of that
/// production over `[start, end)`; a node without one is a terminal leaf at
/// input position `start == end`, standing for the token consumed there.
pub struct SPPFNode {
    /// The production this node derives, or `None` for a terminal leaf.
    pub prod: Option<usize>,
    /// Start of the spanned input range.
    pub start: usize,
    /// End of the spanned input range (equal to `start` for a leaf).
    pub end: usize,
    /// The alternatives: each is one sequence of child node indices, one per
    /// right-hand-side symbol. More than one alternative means local
    /// ambiguity.
    pub children: Vec<SymVec>,
}

/// The alternatives of a node as plain sequences of child indices.
pub open spec fn node_alts(nd: SPPFNode) -> Seq<Seq<usize>> {
    nd.children@.map(|i: int, c: SymVec| sv_elems(c))
}

/// The input position after child `c`: a derivation child ends at its span's
/// end, a leaf consumes exactly the token at its position.
pub open spec fn after_child(nodes: Seq<SPPFNode>, c: int) -> int {
    match nodes[c].prod {
        Option::Some(_) => nodes[c].end as int,
        Option::None => nodes[c].start + 1,
    }
}

/// Child node `c` stands for symbol `sym`: a derivation node whose production
/// has `sym` as left-hand side, or a leaf over an input position holding the
/// terminal `sym`.
pub open spec fn child_fits(
    g: Parser,
    toks: Seq<usize>,
    nodes: Seq<SPPFNode>,
    sym: usize,
    c: int,
) -> bool {
    match nodes[c].prod {
        Option::Some(q) => sym < g.nt_count() && q < g.prods_view().len() && g.prods_view()[
            q as int
        ][0] == sym,
        Option::None => g.nt_count() <= sym && nodes[c].start < toks.len() && toks[nodes[c].start as int]
            == sym,
    }
}

/// One alternative is well formed for a node deriving `prod` over
/// `[lo, hi)`: one child per right-hand-side symbol, each child standing for
/// its symbol, and the children's spans covering `[lo, hi)` without gap.
pub open spec fn alt_wf(
    g: Parser,
    toks: Seq<usize>,
    nodes: Seq<SPPFNode>,
    prod: Seq<usize>,
    alt: Seq<usize>,
    lo: int,
    hi: int,
) -> bool {
    &&& alt.len() + 1 == prod.len()
    &&& forall|c: int| 0 <= c < alt.len() ==> (#[trigger] alt[c]) < nodes.len()
    &&& forall|c: int| 0 <= c < alt.len() ==> child_fits(g, toks, nodes, prod[c + 1], #[trigger] alt[c] as int)
    &&& forall|c: int|
        0 <= c < alt.len() ==> nodes[#[trigger] alt[c] as int].start == (if c == 0 {
            lo
        } else {
            after_child(nodes, alt[c - 1] as int)
        })
    &&& (alt.len() == 0 ==> lo == hi)
    &&& (alt.len() > 0 ==> after_child(nodes, alt[alt.len() - 1] as int) == hi)
}

/// A well-formed node: a leaf sits on one input position with no children; a
/// derivation node has a real production, a span within the input, and only
/// well-formed alternatives.
pub open spec fn node_wf(g: Parser, toks: Seq<usize>, nodes: Seq<SPPFNode>, i: int) -> bool {
    match nodes[i].prod {
        Option::None => {
            &&& nodes[i].start == nodes[i].end < toks.len()
            &&& nodes[i].children@.len() == 0
        },
        Option::Some(p) => {
            &&& p < g.prods_view().len()
            &&& nodes[i].start <= nodes[i].end <= toks.len()
            &&& forall|a: int|
                0 <= a < node_alts(nodes[i]).len() ==> alt_wf(
                    g,
                    toks,
                    nodes,
                    g.prods_view()[p as int],
                    #[trigger] node_alts(nodes[i])[a],
                    nodes[i].start as int,
                    nodes[i].end as int,
                )
        },
    }
}

/// The node key: production identity and span.
pub open spec fn same_key(a: SPPFNode, b: SPPFNode) -> bool {
    a.prod == b.prod && a.start == b.start && a.end == b.end
}

/// At most one node per key: what makes the forest shared.
pub open spec fn keys_unique(nodes: Seq<SPPFNode>) -> bool {
    forall|i: int, j: int| 0 <= i < j < nodes.len() ==> !same_key(nodes[i], nodes[j])
}

/// Within one node the alternatives are pairwise distinct: the alternative
/// list is a set.
pub open spec fn alts_unique(nodes: Seq<SPPFNode>) -> bool {
    forall|v: int, a: int, b: int|
        0 <= v < nodes.len() && 0 <= a < b < node_alts(nodes[v]).len() ==> #[trigger] node_alts(
            nodes[v],
        )[a] != #[trigger] node_alts(nodes[v])[b]
}

/// The whole forest is well formed.
pub open spec fn forest_wf(g: Parser, toks: Seq<usize>, nodes: Seq<SPPFNode>) -> bool {
    &&& forall|i: int| 0 <= i < nodes.len() ==> node_wf(g, toks, nodes, i)
    &&& keys_unique(nodes)
    &&& alts_unique(nodes)
}

/// Every alternative made of childless nodes sorts before every alternative
/// with a sub-derivation, so that enumeration reaches a finite tree first.
pub open spec fn alt_shallow(nodes: Seq<SPPFNode>, alt: Seq<usize>) -> bool {
    forall|c: int|
        0 <= c < alt.len() ==> nodes[#[trigger] alt[c] as int].children@.len() == 0
}

pub open spec fn shallow_first(nodes: Seq<SPPFNode>) -> bool {
    forall|v: int, a: int, b: int|
        0 <= v < nodes.len() && 0 <= a <= b < node_alts(nodes[v]).len() && alt_shallow(
            nodes,
            #[trigger] node_alts(nodes[v])[b],
        ) ==> alt_shallow(nodes, #[trigger] node_alts(nodes[v])[a])
}

/// The shared packed parse forest over one input.
pub struct SPPF<'a> {
    /// The grammar the forest was parsed under.
    pub parser: &'a Parser,
    /// The start non-terminal's identifier.
    pub start: usize,
    /// The input, as terminal identifiers.
    pub tokens: Vec<usize>,
    /// The node arena; children reference nodes by index, and cycles are a
    /// legitimate shape.
    pub nodes: Vec<SPPFNode>,
}

impl<'a> SPPF<'a> {
    /// The grammar the forest was parsed under.
    pub fn parser(&self) -> (r: &'a Parser)
        ensures
            r == self.parser,
    {
        self.parser
    }

    /// The start non-terminal's identifier.
    pub fn start(&self) -> (r: usize)
        ensures
            r == self.start,
    {
        self.start
    }

    /// The input, as terminal identifiers.
    pub fn tokens(&self) -> (r: &Vec<usize>)
        ensures
            r@ == self.tokens@,
    {
        &self.tokens
    }

    /// The node arena.
    pub fn nodes(&self) -> (r: &Vec<SPPFNode>)
        ensures
            r@ == self.nodes@,
    {
        &self.nodes
    }

    /// Looks up the node keyed by `(prod, [lo, hi))`, appending a fresh node
    /// with no alternatives when the key is new.
    pub(crate) fn find(&mut self, prod: Option<usize>, lo: usize, hi: usize) -> (r: usize)
        requires
            forest_wf(*old(self).parser, old(self).tokens@, old(self).nodes@),
            match prod {
                Option::None => lo == hi < old(self).tokens@.len(),
                Option::Some(p) => p < old(self).parser.prods_view().len() && lo <= hi <= old(
                    self,
                ).tokens@.len(),
            },
        ensures
            forest_wf(*final(self).parser, final(self).tokens@, final(self).nodes@),
            final(self).parser == old(self).parser,
            final(self).tokens == old(self).tokens,
            final(self).start == old(self).start,
            r < final(self).nodes@.len(),
            final(self).nodes@[r as int].prod == prod,
            final(self).nodes@[r as int].start == lo,
            final(self).nodes@[r as int].end == hi,
            old(self).nodes@.len() <= final(self).nodes@.len() <= old(self).nodes@.len() + 1,
            forall|i: int|
                0 <= i < old(self).nodes@.len() ==> final(self).nodes@[i] == old(self).nodes@[i],
            final(self).nodes@.len() > old(self).nodes@.len() ==> (r == old(self).nodes@.len()
                && node_alts(final(self).nodes@[r as int]).len() == 0),
            final(self).nodes@.len() == old(self).nodes@.len() ==> final(self).nodes@ == old(
                self,
            ).nodes@,
    {
        let n = self.nodes.len();
        for i in 0..n
            invariant
                *self == *old(self),
                forest_wf(*self.parser, self.tokens@, self.nodes@),
                n == self.nodes@.len(),
                forall|j: int|
                    0 <= j < i ==> !(self.nodes@[j].prod == prod && self.nodes@[j].start == lo
                        && self.nodes@[j].end == hi),
        {
            let nd = &self.nodes[i];
            let pmatch = match (nd.prod, prod) {
                (Option::Some(a), Option::Some(b)) => a == b,
                (Option::None, Option::None) => true,
                _ => false,
            };
            if pmatch && nd.start == lo && nd.end == hi {
                return i;
            }
        }
        let fresh = SPPFNode { prod, start: lo, end: hi, children: Vec::new() };
        proof {
            assert(node_alts(fresh) =~= Seq::<Seq<usize>>::empty());
        }
        self.nodes.push(fresh);
        proof {
            let nodes2 = self.nodes@;
            let nodes1 = old(self).nodes@;
            assert forall|i: int| 0 <= i < nodes2.len() implies node_wf(
                *self.parser,
                self.tokens@,
                nodes2,
                i,
            ) by {
                if i < nodes1.len() {
                    assert(node_wf(*self.parser, self.tokens@, nodes1, i));
                    assert(nodes2[i] == nodes1[i]);
                    lemma_node_wf_extend(*self.parser, self.tokens@, nodes1, nodes2, i);
                } else {
                    assert(nodes2[i] == fresh);
                }
            }
            assert forall|v: int, a: int, b: int|
                0 <= v < nodes2.len() && 0 <= a < b < node_alts(nodes2[v]).len()
                    implies #[trigger] node_alts(nodes2[v])[a] != #[trigger] node_alts(
                    nodes2[v],
                )[b] by {
                if v < nodes1.len() {
                    assert(nodes2[v] == nodes1[v]);
                    assert(node_alts(nodes1[v])[a] != node_alts(nodes1[v])[b]);
                } else {
                    assert(node_alts(nodes2[v]).len() == 0);
                }
            }
        }
        n
    }
}

/// A well-formed node stays well formed when the arena is extended: its
/// alternatives only read the production, span and kind of existing nodes.
proof fn lemma_alt_wf_extend(
    g: Parser,
    toks: Seq<usize>,
    nodes1: Seq<SPPFNode>,
    nodes2: Seq<SPPFNode>,
    prod: Seq<usize>,
    alt: Seq<usize>,
    lo: int,
    hi: int,
)
    requires
        alt_wf(g, toks, nodes1, prod, alt, lo, hi),
        nodes1.len() <= nodes2.len(),
        forall|c: int|
            0 <= c < nodes1.len() ==> same_key(#[trigger] nodes2[c], nodes1[c]),
    ensures
        alt_wf(g, toks, nodes2, prod, alt, lo, hi),
{
    assert forall|c: int| 0 <= c < alt.len() implies child_fits(
        g,
        toks,
        nodes2,
        prod[c + 1],
        #[trigger] alt[c] as int,
    ) by {
        assert(child_fits(g, toks, nodes1, prod[c + 1], alt[c] as int));
    }
    assert forall|c: int| 0 <= c < alt.len() implies nodes2[#[trigger] alt[c] as int].start == (
    if c == 0 {
        lo
    } else {
        after_child(nodes2, alt[c - 1] as int)
    }) by {
        assert(nodes1[alt[c] as int].start == (if c == 0 {
            lo
        } else {
            after_child(nodes1, alt[c - 1] as int)
        }));
        if c > 0 {
            assert(after_child(nodes2, alt[c - 1] as int) == after_child(nodes1, alt[c - 1] as int));
        }
    }
    if alt.len() > 0 {
        assert(after_child(nodes2, alt[alt.len() - 1] as int) == after_child(
            nodes1,
            alt[alt.len() - 1] as int,
        ));
    }
}

/// A node keeps its well-formedness when the arena is extended or when other
/// nodes gain alternatives, as long as every existing node keeps its key and
/// this node keeps its alternatives.
proof fn lemma_node_wf_extend(
    g: Parser,
    toks: Seq<usize>,
    nodes1: Seq<SPPFNode>,
    nodes2: Seq<SPPFNode>,
    i: int,
)
    requires
        0 <= i < nodes1.len() <= nodes2.len(),
        node_wf(g, toks, nodes1, i),
        nodes2[i] == nodes1[i],
        forall|c: int|
            0 <= c < nodes1.len() ==> same_key(#[trigger] nodes2[c], nodes1[c]),
    ensures
        node_wf(g, toks, nodes2, i),
{
    match nodes1[i].prod {
        Option::None => {},
        Option::Some(p) => {
            assert forall|a: int| 0 <= a < node_alts(nodes2[i]).len() implies alt_wf(
                g,
                toks,
                nodes2,
                g.prods_view()[p as int],
                #[trigger] node_alts(nodes2[i])[a],
                nodes2[i].start as int,
                nodes2[i].end as int,
            ) by {
                assert(node_alts(nodes2[i])[a] == node_alts(nodes1[i])[a]);
                lemma_alt_wf_extend(
                    g,
                    toks,
                    nodes1,
                    nodes2,
                    g.prods_view()[p as int],
                    node_alts(nodes1[i])[a],
                    nodes1[i].start as int,
                    nodes1[i].end as int,
                );
            }
        },
    }
}


/// One recorded choice of the depth-first search: the production and span of
/// a completed child, or a matched terminal (`prod` is `None`, the span one
/// position).
#[derive(Copy, Clone)]
struct PathStep {
    prod: Option<usize>,
    start: usize,
    end: usize,
}

/// The input position after the child a step stands for.
spec fn step_next(s: PathStep) -> int {
    match s.prod {
        Option::Some(_) => s.end as int,
        Option::None => s.start + 1,
    }
}

/// The step derives symbol `sym` from its recorded span.
spec fn step_ok(g: Parser, toks: Seq<usize>, s: PathStep, sym: usize) -> bool {
    match s.prod {
        Option::Some(q) => {
            &&& sym < g.nt_count()
            &&& q < g.prods_view().len()
            &&& g.prods_view()[q as int][0] == sym
            &&& s.start <= s.end <= toks.len()
        },
        Option::None => {
            &&& g.nt_count() <= sym
            &&& s.start < toks.len()
            &&& toks[s.start as int] == sym
            &&& s.end == s.start
        },
    }
}

/// The recorded path matches the production's symbols from position 1 on,
/// with spans chaining from `lo` to `pos`.
spec fn steps_ok(
    g: Parser,
    toks: Seq<usize>,
    prod: Seq<usize>,
    steps: Seq<PathStep>,
    lo: int,
    pos: int,
) -> bool {
    &&& steps.len() + 1 <= prod.len()
    &&& (if steps.len() == 0 {
        pos == lo
    } else {
        steps[0].start == lo && step_next(steps.last()) == pos
    })
    &&& forall|c: int| 0 <= c < steps.len() - 1 ==> step_next(#[trigger] steps[c]) == steps[c + 1].start
    &&& forall|c: int| 0 <= c < steps.len() ==> step_ok(g, toks, #[trigger] steps[c], prod[c + 1])
}

/// The completed-item index is well formed: entries name real productions,
/// have their dot at the end, and span `[origin, completion]` within the
/// input.
pub open spec fn comp_wf(g: Parser, n: int, comp: Seq<Seq<Item>>) -> bool {
    &&& comp.len() == n + 1
    &&& forall|c: int, e: int|
        0 <= c < comp.len() && 0 <= e < comp[c].len() ==> {
            let it = #[trigger] comp[c][e];
            &&& it.prod < g.prods_view().len()
            &&& it.dot == g.prods_view()[it.prod as int].len()
            &&& c <= it.orig <= n
        }
}



/// The completed-item index records a decomposition of `prod`'s symbols from
/// position `cur` on, deriving exactly the input range `[pos, end)`: each
/// non-terminal position is matched by some completed item filed at the
/// running position, each terminal position by the input token there.
pub open spec fn seg_match(
    g: Parser,
    toks: Seq<usize>,
    comp: Seq<Seq<Item>>,
    prod: Seq<usize>,
    cur: int,
    pos: int,
    end: int,
) -> bool
    decreases prod.len() - cur,
{
    if cur >= prod.len() {
        pos == end
    } else {
        let x = prod[cur];
        if x < g.nt_count() {
            &&& 0 <= pos < comp.len()
            &&& exists|e: Item|
                {
                    &&& #[trigger] comp[pos].contains(e)
                    &&& g.prods_view()[e.prod as int][0] == x
                    &&& seg_match(g, toks, comp, prod, cur + 1, e.orig as int, end)
                }
        } else {
            &&& 0 <= pos < toks.len()
            &&& toks[pos] == x
            &&& seg_match(g, toks, comp, prod, cur + 1, pos + 1, end)
        }
    }
}

/// The forest holds a node for production `pr` over `[lo, hi)` with at least
/// one alternative.
pub open spec fn node_has_alt(nodes: Seq<SPPFNode>, pr: usize, lo: int, hi: int) -> bool {
    exists|v: int|
        {
            &&& 0 <= v < nodes.len()
            &&& (#[trigger] nodes[v]).prod == Option::Some(pr)
            &&& nodes[v].start == lo
            &&& nodes[v].end == hi
            &&& node_alts(nodes[v]).len() >= 1
        }
}

/// A resolved node stays resolved while keys are kept and alternatives only
/// accumulate.
proof fn lemma_node_has_alt_mono(
    nodes1: Seq<SPPFNode>,
    nodes2: Seq<SPPFNode>,
    pr: usize,
    lo: int,
    hi: int,
)
    requires
        node_has_alt(nodes1, pr, lo, hi),
        nodes1.len() <= nodes2.len(),
        forall|i: int|
            0 <= i < nodes1.len() ==> same_key(#[trigger] nodes2[i], nodes1[i]) && node_alts(
                nodes1[i],
            ).len() <= node_alts(nodes2[i]).len(),
    ensures
        node_has_alt(nodes2, pr, lo, hi),
{
    let v = choose|v: int|
        {
            &&& 0 <= v < nodes1.len()
            &&& (#[trigger] nodes1[v]).prod == Option::Some(pr)
            &&& nodes1[v].start == lo
            &&& nodes1[v].end == hi
            &&& node_alts(nodes1[v]).len() >= 1
        };
    assert(same_key(nodes2[v], nodes1[v]));
}

proof fn lemma_steps_push(
    g: Parser,
    toks: Seq<usize>,
    prod: Seq<usize>,
    steps: Seq<PathStep>,
    st: PathStep,
    lo: int,
    pos: int,
)
    requires
        steps_ok(g, toks, prod, steps, lo, pos),
        steps.len() + 2 <= prod.len(),
        step_ok(g, toks, st, prod[steps.len() as int + 1]),
        st.start == pos,
    ensures
        steps_ok(g, toks, prod, steps.push(st), lo, step_next(st)),
{
    let steps2 = steps.push(st);
    assert forall|c: int| 0 <= c < steps2.len() - 1 implies step_next(#[trigger] steps2[c])
        == steps2[c + 1].start by {
        if c < steps.len() - 1 {
            assert(steps2[c] == steps[c]);
            assert(steps2[c + 1] == steps[c + 1]);
        } else {
            assert(steps2[c] == steps.last());
            assert(steps2[c + 1] == st);
        }
    }
    assert forall|c: int| 0 <= c < steps2.len() implies step_ok(
        g,
        toks,
        #[trigger] steps2[c],
        prod[c + 1],
    ) by {
        if c < steps.len() {
            assert(steps2[c] == steps[c]);
        } else {
            assert(steps2[c] == st);
        }
    }
}


/// Appending one well-formed alternative to a node keeps the forest well
/// formed.
proof fn lemma_push_alt(
    g: Parser,
    toks: Seq<usize>,
    nodes1: Seq<SPPFNode>,
    nodes2: Seq<SPPFNode>,
    node: int,
    pr: usize,
    chv: Seq<usize>,
    t_lo: int,
    t_hi: int,
)
    requires
        forest_wf(g, toks, nodes1),
        0 <= node < nodes1.len(),
        nodes1.len() == nodes2.len(),
        nodes1[node].prod == Option::Some(pr),
        pr < g.prods_view().len(),
        nodes1[node].start == t_lo,
        nodes1[node].end == t_hi,
        forall|i: int| 0 <= i < nodes2.len() && i != node ==> #[trigger] nodes2[i] == nodes1[i],
        same_key(nodes2[node], nodes1[node]),
        node_alts(nodes2[node]) == node_alts(nodes1[node]).push(chv),
        alt_wf(g, toks, nodes1, g.prods_view()[pr as int], chv, t_lo, t_hi),
        forall|a: int|
            0 <= a < node_alts(nodes1[node]).len() ==> #[trigger] node_alts(nodes1[node])[a]
                != chv,
    ensures
        forest_wf(g, toks, nodes2),
{
    assert forall|i: int| 0 <= i < nodes2.len() implies same_key(
        #[trigger] nodes2[i],
        nodes1[i],
    ) by {}
    assert forall|i: int| 0 <= i < nodes2.len() implies node_wf(g, toks, nodes2, i) by {
        if i != node {
            assert(node_wf(g, toks, nodes1, i));
            assert(nodes2[i] == nodes1[i]);
            lemma_node_wf_extend(g, toks, nodes1, nodes2, i);
        } else {
            assert(node_wf(g, toks, nodes1, node));
            assert(nodes2[node].prod == Option::Some(pr));
            assert(nodes2[node].start == t_lo);
            assert(nodes2[node].end == t_hi);
            let na = node_alts(nodes2[node]);
            assert forall|a: int| 0 <= a < na.len() implies alt_wf(
                g,
                toks,
                nodes2,
                g.prods_view()[pr as int],
                #[trigger] na[a],
                t_lo,
                t_hi,
            ) by {
                if a < na.len() - 1 {
                    assert(na[a] == node_alts(nodes1[node])[a]);
                    assert(node_wf(g, toks, nodes1, node));
                    assert(alt_wf(
                        g,
                        toks,
                        nodes1,
                        g.prods_view()[pr as int],
                        node_alts(nodes1[node])[a],
                        t_lo,
                        t_hi,
                    ));
                    lemma_alt_wf_extend(
                        g,
                        toks,
                        nodes1,
                        nodes2,
                        g.prods_view()[pr as int],
                        na[a],
                        t_lo,
                        t_hi,
                    );
                } else {
                    assert(na[a] == chv);
                    lemma_alt_wf_extend(
                        g,
                        toks,
                        nodes1,
                        nodes2,
                        g.prods_view()[pr as int],
                        chv,
                        t_lo,
                        t_hi,
                    );
                }
            }
        }
    }
    assert forall|i: int, j: int| 0 <= i < j < nodes2.len() implies !same_key(
        nodes2[i],
        nodes2[j],
    ) by {
        assert(!same_key(nodes1[i], nodes1[j]));
    }
    assert forall|v: int, a: int, b: int|
        0 <= v < nodes2.len() && 0 <= a < b < node_alts(nodes2[v]).len()
            implies #[trigger] node_alts(nodes2[v])[a] != #[trigger] node_alts(nodes2[v])[b] by {
        if v != node {
            assert(nodes2[v] == nodes1[v]);
            assert(node_alts(nodes1[v])[a] != node_alts(nodes1[v])[b]);
        } else {
            if b < node_alts(nodes1[node]).len() {
                assert(node_alts(nodes2[node])[a] == node_alts(nodes1[node])[a]);
                assert(node_alts(nodes2[node])[b] == node_alts(nodes1[node])[b]);
                assert(node_alts(nodes1[node])[a] != node_alts(nodes1[node])[b]);
            } else {
                assert(node_alts(nodes2[node])[b] == chv);
                assert(node_alts(nodes2[node])[a] == node_alts(nodes1[node])[a]);
            }
        }
    }
}


/// Whether two index vectors hold the same elements.
fn sv_eq(a: &SymVec, b: &SymVec) -> (r: bool)
    ensures
        r == (sv_elems(*a) == sv_elems(*b)),
{
    let la = sv_len(a);
    let lb = sv_len(b);
    if la != lb {
        return false;
    }
    for i in 0..la
        invariant
            la == sv_elems(*a).len(),
            la == sv_elems(*b).len(),
            forall|k: int| 0 <= k < i ==> sv_elems(*a)[k] == sv_elems(*b)[k],
    {
        if sv_get(a, i) != sv_get(b, i) {
            return false;
        }
    }
    proof {
        assert(sv_elems(*a) =~= sv_elems(*b));
    }
    true
}

/// Whether the alternative list already holds one with these children.
fn alts_contain(alts: &Vec<SymVec>, x: &SymVec) -> (r: bool)
    ensures
        r == exists|a: int| 0 <= a < alts@.len() && sv_elems(#[trigger] alts@[a]) == sv_elems(*x),
{
    let n = alts.len();
    for i in 0..n
        invariant
            n == alts@.len(),
            forall|k: int| 0 <= k < i ==> sv_elems(#[trigger] alts@[k]) != sv_elems(*x),
    {
        if sv_eq(&alts[i], x) {
            return true;
        }
    }
    false
}

/// Extends the forest with every full match of production `pr` from
/// right-hand-side position `cur` at input position `pos`, targeting the node
/// keyed by `(pr, [t_lo, t_hi))`: a depth-first search over the
/// completed-item index, recording one choice per symbol, and on a full match
/// replaying the path into one alternative of the target node.
#[verifier::rlimit(100)]
#[verifier::spinoff_prover]
fn extend(
    sppf: &mut SPPF,
    complete: &Vec<Vec<Item>>,
    pr: usize,
    cur: usize,
    pos: usize,
    t_lo: usize,
    t_hi: usize,
    path: &mut Vec<PathStep>,
)
    requires
        old(sppf).parser.wf(),
        forest_wf(*old(sppf).parser, old(sppf).tokens@, old(sppf).nodes@),
        comp_wf(*old(sppf).parser, old(sppf).tokens@.len() as int, crate::chart::chart_view(complete@)),
        pr < old(sppf).parser.prods_view().len(),
        1 <= cur <= old(sppf).parser.prods_view()[pr as int].len(),
        pos <= old(sppf).tokens@.len(),
        t_lo <= t_hi <= old(sppf).tokens@.len(),
        steps_ok(
            *old(sppf).parser,
            old(sppf).tokens@,
            old(sppf).parser.prods_view()[pr as int],
            old(path)@,
            t_lo as int,
            pos as int,
        ),
        old(path)@.len() + 1 == cur,
    ensures
        final(sppf).parser == old(sppf).parser,
        final(sppf).tokens == old(sppf).tokens,
        final(sppf).start == old(sppf).start,
        forest_wf(*final(sppf).parser, final(sppf).tokens@, final(sppf).nodes@),
        old(sppf).nodes@.len() <= final(sppf).nodes@.len(),
        forall|i: int|
            0 <= i < old(sppf).nodes@.len() ==> same_key(
                #[trigger] final(sppf).nodes@[i],
                old(sppf).nodes@[i],
            ),
        forall|i: int|
            0 <= i < old(sppf).nodes@.len() ==> node_alts(old(sppf).nodes@[i]).len() <= node_alts(
                #[trigger] final(sppf).nodes@[i],
            ).len(),
        (old(sppf).parser.prods_view()[pr as int].len() >= 2 && seg_match(
            *old(sppf).parser,
            old(sppf).tokens@,
            crate::chart::chart_view(complete@),
            old(sppf).parser.prods_view()[pr as int],
            cur as int,
            pos as int,
            t_hi as int,
        )) ==> node_has_alt(final(sppf).nodes@, pr, t_lo as int, t_hi as int),
        final(path)@ == old(path)@,
    decreases old(sppf).parser.prods_view()[pr as int].len() - cur,
{
    let ghost g = *old(sppf).parser;
    let ghost toks = old(sppf).tokens@;
    let ghost prodseq = g.prods_view()[pr as int];
    let ghost compv = crate::chart::chart_view(complete@);
    let n = sppf.tokens.len();
    let pv = &sppf.parser.prods[pr];
    proof {
        assert(prodseq == sv_elems(*pv));
    }
    let plen = sv_len(pv);
    if cur < plen {
        let x = sv_get(pv, cur);
        let kk = sppf.parser.nullable.len();
        if x < kk {
            // one branch per completed item at this position whose production
            // derives x
            let m = complete[pos].len();
            for idx in 0..m
                invariant
                    g.wf(),
                    sppf.parser == old(sppf).parser,
                    g == *sppf.parser,
                    sppf.tokens == old(sppf).tokens,
                    sppf.start == old(sppf).start,
                    toks == sppf.tokens@,
                    n == toks.len(),
                    compv == crate::chart::chart_view(complete@),
                    comp_wf(g, n as int, compv),
                    prodseq == g.prods_view()[pr as int],
                    pr < g.prods_view().len(),
                    plen == prodseq.len(),
                    1 <= cur < plen,
                    x == prodseq[cur as int] < g.nt_count(),
                    pos <= n,
                    t_lo <= t_hi <= n,
                    m == compv[pos as int].len(),
                    forest_wf(g, toks, sppf.nodes@),
                    old(sppf).nodes@.len() <= sppf.nodes@.len(),
                    forall|i: int|
                        0 <= i < old(sppf).nodes@.len() ==> same_key(
                            #[trigger] sppf.nodes@[i],
                            old(sppf).nodes@[i],
                        ),
                    path@ == old(path)@,
                    steps_ok(g, toks, prodseq, path@, t_lo as int, pos as int),
                    path@.len() + 1 == cur,
                    forall|i: int|
                        0 <= i < old(sppf).nodes@.len() ==> node_alts(
                            old(sppf).nodes@[i],
                        ).len() <= node_alts(#[trigger] sppf.nodes@[i]).len(),
                    forall|ii: int|
                        0 <= ii < idx && g.prods_view()[(#[trigger] compv[pos as int][ii]).prod as int][0]
                            == x && seg_match(
                            g,
                            toks,
                            compv,
                            prodseq,
                            cur + 1,
                            compv[pos as int][ii].orig as int,
                            t_hi as int,
                        ) ==> node_has_alt(sppf.nodes@, pr, t_lo as int, t_hi as int),
            {
                let it = complete[pos][idx];
                proof {
                    assert(compv[pos as int][idx as int] == it);
                    assert(it.prod < g.prods_view().len());
                }
                let ipv = &sppf.parser.prods[it.prod];
                proof {
                    assert(g.prods_view()[it.prod as int] == sv_elems(*ipv));
                    assert(g.prods_view()[it.prod as int].len() >= 1);
                }
                let lhs0 = sv_get(ipv, 0);
                if lhs0 == x {
                    let ghost path0 = path@;
                    let ghost nodes0 = sppf.nodes@;
                    let st = PathStep { prod: Option::Some(it.prod), start: pos, end: it.orig };
                    path.push(st);
                    proof {
                        assert(step_ok(g, toks, st, x));
                        lemma_steps_push(g, toks, prodseq, path0, st, t_lo as int, pos as int);
                        assert(path@ =~= path0.push(st));
                        assert(steps_ok(g, toks, prodseq, path@, t_lo as int, it.orig as int));
                    }
                    extend(sppf, complete, pr, cur + 1, it.orig, t_lo, t_hi, path);
                    path.pop();
                    proof {
                        assert(path@ =~= path0);
                        assert forall|ii: int|
                            0 <= ii < idx + 1 && g.prods_view()[(#[trigger] compv[pos as int][ii]).prod as int][0]
                                == x && seg_match(
                                g,
                                toks,
                                compv,
                                prodseq,
                                cur + 1,
                                compv[pos as int][ii].orig as int,
                                t_hi as int,
                            ) implies node_has_alt(sppf.nodes@, pr, t_lo as int, t_hi as int) by {
                            if ii < idx {
                                lemma_node_has_alt_mono(
                                    nodes0,
                                    sppf.nodes@,
                                    pr,
                                    t_lo as int,
                                    t_hi as int,
                                );
                            }
                        }
                    }
                }
            }
            proof {
                if prodseq.len() >= 2 && seg_match(
                    g,
                    toks,
                    compv,
                    prodseq,
                    cur as int,
                    pos as int,
                    t_hi as int,
                ) {
                    let e = choose|e: Item|
                        {
                            &&& #[trigger] compv[pos as int].contains(e)
                            &&& g.prods_view()[e.prod as int][0] == prodseq[cur as int]
                            &&& seg_match(
                                g,
                                toks,
                                compv,
                                prodseq,
                                cur as int + 1,
                                e.orig as int,
                                t_hi as int,
                            )
                        };
                    let ii = choose|ii: int|
                        0 <= ii < compv[pos as int].len() && compv[pos as int][ii] == e;
                    assert(node_has_alt(sppf.nodes@, pr, t_lo as int, t_hi as int));
                }
            }
        } else {
            if pos < n && sppf.tokens[pos] == x {
                let ghost path0 = path@;
                let st = PathStep { prod: Option::None, start: pos, end: pos };
                path.push(st);
                proof {
                    assert(step_ok(g, toks, st, x));
                    lemma_steps_push(g, toks, prodseq, path0, st, t_lo as int, pos as int);
                    assert(path@ =~= path0.push(st));
                    assert(steps_ok(g, toks, prodseq, path@, t_lo as int, pos + 1));
                }
                extend(sppf, complete, pr, cur + 1, pos + 1, t_lo, t_hi, path);
                path.pop();
                proof {
                    assert(path@ =~= path0);
                    if prodseq.len() >= 2 && seg_match(
                        g,
                        toks,
                        compv,
                        prodseq,
                        cur as int,
                        pos as int,
                        t_hi as int,
                    ) {
                        assert(seg_match(g, toks, compv, prodseq, cur + 1, pos + 1, t_hi as int));
                        assert(node_has_alt(sppf.nodes@, pr, t_lo as int, t_hi as int));
                    }
                }
            }
        }
    } else {
        if path.len() > 0 {
            // full match: register the node and replay the path into one
            // alternative, keeping it only when it covers the node's span
            let node = sppf.find(Option::Some(pr), t_lo, t_hi);
            let mut ch = sv_new();
            let mut cpos: usize = t_lo;
            let np = path.len();
            for sidx in 0..np
                invariant
                    g.wf(),
                    sppf.parser == old(sppf).parser,
                    g == *sppf.parser,
                    sppf.tokens == old(sppf).tokens,
                    sppf.start == old(sppf).start,
                    toks == sppf.tokens@,
                    n == toks.len(),
                    prodseq == g.prods_view()[pr as int],
                    pr < g.prods_view().len(),
                    cur == prodseq.len(),
                    np == path@.len(),
                    np + 1 == cur,
                    t_lo <= t_hi <= n,
                    path@ == old(path)@,
                    steps_ok(g, toks, prodseq, path@, t_lo as int, pos as int),
                    forest_wf(g, toks, sppf.nodes@),
                    old(sppf).nodes@.len() <= sppf.nodes@.len(),
                    forall|i: int|
                        0 <= i < old(sppf).nodes@.len() ==> same_key(
                            #[trigger] sppf.nodes@[i],
                            old(sppf).nodes@[i],
                        ),
                    forall|i: int|
                        0 <= i < old(sppf).nodes@.len() ==> node_alts(
                            old(sppf).nodes@[i],
                        ).len() <= node_alts(#[trigger] sppf.nodes@[i]).len(),
                    node < sppf.nodes@.len(),
                    sppf.nodes@[node as int].prod == Option::Some(pr),
                    sppf.nodes@[node as int].start == t_lo,
                    sppf.nodes@[node as int].end == t_hi,
                    sv_elems(ch).len() == sidx,
                    forall|c: int|
                        0 <= c < sidx ==> (#[trigger] sv_elems(ch)[c]) < sppf.nodes@.len(),
                    forall|c: int|
                        0 <= c < sidx ==> child_fits(
                            g,
                            toks,
                            sppf.nodes@,
                            prodseq[c + 1],
                            #[trigger] sv_elems(ch)[c] as int,
                        ),
                    forall|c: int|
                        0 <= c < sidx ==> sppf.nodes@[#[trigger] sv_elems(ch)[c] as int].start == (
                        if c == 0 {
                            t_lo as int
                        } else {
                            after_child(sppf.nodes@, sv_elems(ch)[c - 1] as int)
                        }),
                    cpos as int == (if sidx == 0 {
                        t_lo as int
                    } else {
                        after_child(sppf.nodes@, sv_elems(ch)[sidx - 1] as int)
                    }),
                    cpos as int == (if sidx == 0 {
                        t_lo as int
                    } else {
                        step_next(path@[sidx - 1])
                    }),
            {
                let st = path[sidx];
                proof {
                    assert(step_ok(g, toks, st, prodseq[sidx + 1]));
                    if sidx > 0 {
                        assert(step_next(path@[sidx - 1]) == path@[sidx as int].start);
                    }
                }
                let ghost nodes_b = sppf.nodes@;
                let ghost ch_b = sv_elems(ch);
                let nid = match st.prod {
                    Option::Some(q) => sppf.find(Option::Some(q), st.start, st.end),
                    Option::None => sppf.find(Option::None, st.start, st.start),
                };
                sv_push(&mut ch, nid);
                cpos = match st.prod {
                    Option::Some(_) => st.end,
                    Option::None => st.start + 1,
                };
                proof {
                    assert(sv_elems(ch) =~= ch_b.push(nid));
                    assert forall|c: int| 0 <= c < sidx implies child_fits(
                        g,
                        toks,
                        sppf.nodes@,
                        prodseq[c + 1],
                        #[trigger] sv_elems(ch)[c] as int,
                    ) by {
                        assert(sv_elems(ch)[c] == ch_b[c]);
                        assert(same_key(sppf.nodes@[ch_b[c] as int], nodes_b[ch_b[c] as int]));
                        assert(child_fits(g, toks, nodes_b, prodseq[c + 1], ch_b[c] as int));
                    }
                    assert forall|c: int|
                        0 <= c < sidx + 1 implies sppf.nodes@[#[trigger] sv_elems(
                        ch,
                    )[c] as int].start == (if c == 0 {
                        t_lo as int
                    } else {
                        after_child(sppf.nodes@, sv_elems(ch)[c - 1] as int)
                    }) by {
                        if c < sidx {
                            assert(sv_elems(ch)[c] == ch_b[c]);
                            assert(nodes_b[ch_b[c] as int].start == (if c == 0 {
                                t_lo as int
                            } else {
                                after_child(nodes_b, ch_b[c - 1] as int)
                            }));
                            if c > 0 {
                                assert(same_key(
                                    sppf.nodes@[ch_b[c - 1] as int],
                                    nodes_b[ch_b[c - 1] as int],
                                ));
                            }
                        } else {
                            assert(sv_elems(ch)[c] == nid);
                            assert(sppf.nodes@[nid as int].start == st.start);
                        }
                    }
                    assert(child_fits(g, toks, sppf.nodes@, prodseq[sidx + 1], nid as int));
                    assert(after_child(sppf.nodes@, nid as int) == cpos as int);
                }
            }
            if cpos == t_hi {
                proof {
                    assert(alt_wf(
                        g,
                        toks,
                        sppf.nodes@,
                        prodseq,
                        sv_elems(ch),
                        t_lo as int,
                        t_hi as int,
                    )) by {
                        assert(sv_elems(ch).len() + 1 == prodseq.len());
                        assert(sv_elems(ch).len() > 0);
                        assert(after_child(sppf.nodes@, sv_elems(ch)[np - 1] as int) == t_hi as int);
                    }
                }
                let ghost nodes1 = sppf.nodes@;
                let ghost chv = sv_elems(ch);
                // the alternative list is a set: an already-recorded
                // alternative is not appended again
                let dup = alts_contain(&sppf.nodes[node].children, &ch);
                if dup {
                    proof {
                        assert(node_alts(sppf.nodes@[node as int]).len() >= 1);
                        assert(node_has_alt(sppf.nodes@, pr, t_lo as int, t_hi as int));
                    }
                    return ;
                }
                proof {
                    assert forall|a: int|
                        0 <= a < node_alts(nodes1[node as int]).len() implies #[trigger] node_alts(
                        nodes1[node as int],
                    )[a] != chv by {
                        assert(sv_elems(nodes1[node as int].children@[a]) != sv_elems(ch));
                    }
                }
                let nd = &mut sppf.nodes[node];
                nd.children.push(ch);
                proof {
                    let nodes2 = sppf.nodes@;
                    assert forall|i: int| 0 <= i < nodes2.len() && i != node implies #[trigger] nodes2[i]
                        == nodes1[i] by {}
                    assert(node_alts(nodes2[node as int]) =~= node_alts(nodes1[node as int]).push(
                        chv,
                    ));
                    lemma_push_alt(
                        g,
                        toks,
                        nodes1,
                        nodes2,
                        node as int,
                        pr,
                        chv,
                        t_lo as int,
                        t_hi as int,
                    );
                    assert(same_key(nodes2[node as int], nodes1[node as int]));
                    assert(node_alts(nodes2[node as int]).len() >= 1);
                    assert(node_has_alt(nodes2, pr, t_lo as int, t_hi as int));
                }
            }
        }
    }
}



/// Replacing one node's alternative list with a permutation leaves every
/// alternative's shallowness unchanged: shallowness reads only how many
/// alternatives the child nodes have.
proof fn lemma_shallow_same(
    g: Parser,
    toks: Seq<usize>,
    nodes1: Seq<SPPFNode>,
    nodes2: Seq<SPPFNode>,
    v: int,
    w: int,
    a: int,
)
    requires
        forest_wf(g, toks, nodes1),
        forest_wf(g, toks, nodes2),
        nodes1.len() == nodes2.len(),
        0 <= v < nodes1.len(),
        0 <= w < nodes2.len(),
        0 <= a < node_alts(nodes2[w]).len(),
        forall|i: int| 0 <= i < nodes1.len() && i != v ==> #[trigger] nodes2[i] == nodes1[i],
        nodes2[v].children@.len() == nodes1[v].children@.len(),
    ensures
        alt_shallow(nodes2, node_alts(nodes2[w])[a]) == alt_shallow(
            nodes1,
            node_alts(nodes2[w])[a],
        ),
{
    let alt = node_alts(nodes2[w])[a];
    assert(node_wf(g, toks, nodes2, w));
    match nodes2[w].prod {
        Option::None => {
            assert(node_alts(nodes2[w]).len() == 0);
        },
        Option::Some(p) => {
            assert(alt_wf(
                g,
                toks,
                nodes2,
                g.prods_view()[p as int],
                alt,
                nodes2[w].start as int,
                nodes2[w].end as int,
            ));
            assert forall|q: int|
                0 <= q < alt.len() implies nodes2[#[trigger] alt[q] as int].children@.len()
                == nodes1[alt[q] as int].children@.len() by {
                if alt[q] != v {
                    assert(nodes2[alt[q] as int] == nodes1[alt[q] as int]);
                }
            }
            if alt_shallow(nodes2, alt) {
                assert forall|q: int|
                    0 <= q < alt.len() implies nodes1[#[trigger] alt[q] as int].children@.len()
                    == 0 by {}
            }
            if alt_shallow(nodes1, alt) {
                assert forall|q: int|
                    0 <= q < alt.len() implies nodes2[#[trigger] alt[q] as int].children@.len()
                    == 0 by {}
            }
        },
    }
}

/// A key below `(pn + 1) * ((n + 1) * (n + 1))` for each node: production
/// (or leaf) and span.
spec fn node_key(nd: SPPFNode, n: int) -> int {
    ((match nd.prod {
        Option::None => 0,
        Option::Some(p) => p + 1,
    }) * (n + 1) + nd.start) * (n + 1) + nd.end
}

/// A forest with unique keys is no larger than the number of possible keys.
proof fn lemma_nodes_bound(g: Parser, toks: Seq<usize>, nodes: Seq<SPPFNode>, n: int)
    requires
        keys_unique(nodes),
        forall|i: int| 0 <= i < nodes.len() ==> node_wf(g, toks, nodes, i),
        n == toks.len(),
    ensures
        nodes.len() <= (g.prods_view().len() + 1) * ((n + 1) * (n + 1)),
{
    let pn = g.prods_view().len() as int;
    let b = (pn + 1) * ((n + 1) * (n + 1));
    let f = |nd: SPPFNode| node_key(nd, n);
    let es = nodes.map_values(f);
    assert forall|k: int| 0 <= k < nodes.len() implies 0 <= #[trigger] es[k] < b by {
        assert(node_wf(g, toks, nodes, k));
        let pc = match nodes[k].prod {
            Option::None => 0int,
            Option::Some(p) => p + 1,
        };
        lemma_key_range(pc, nodes[k].start as int, nodes[k].end as int, pn + 1, n, n - 1);
    }
    assert(es.no_duplicates()) by {
        assert forall|i: int, j: int| 0 <= i < j < es.len() implies es[i] != es[j] by {
            if es[i] == es[j] {
                let (a, c) = (nodes[i], nodes[j]);
                assert(node_wf(g, toks, nodes, i));
                assert(node_wf(g, toks, nodes, j));
                let pa = match a.prod {
                    Option::None => 0int,
                    Option::Some(p) => p + 1,
                };
                let pc = match c.prod {
                    Option::None => 0int,
                    Option::Some(p) => p + 1,
                };
                lemma_mixed_radix(
                    pa * (n + 1) + a.start,
                    pc * (n + 1) + c.start,
                    a.end as int,
                    c.end as int,
                    n + 1,
                );
                lemma_mixed_radix(pa, pc, a.start as int, c.start as int, n + 1);
                assert(same_key(a, c));
            }
        }
    }
    es.unique_seq_to_set();
    assert(es.to_set().subset_of(vstd::set_lib::set_int_range(0, b))) by {
        assert forall|x: int| es.to_set().contains(x) implies vstd::set_lib::set_int_range(
            0,
            b,
        ).contains(x) by {
            let k = choose|k: int| 0 <= k < es.len() && es[k] == x;
            assert(0 <= es[k] < b);
        }
    }
    vstd::set_lib::lemma_int_range(0, b);
    vstd::set_lib::lemma_len_subset(es.to_set(), vstd::set_lib::set_int_range(0, b));
}

/// Builds the shared packed parse forest from the completed-item index:
/// seeds a search for every completed start item spanning the whole input,
/// then revisits every node that was referenced before being explored
/// (including nodes appended during the pass), and finally reorders each
/// node's alternatives so that those made of childless nodes come first.
pub fn build_forest<'a>(
    parser: &'a Parser,
    complete: &Vec<Vec<Item>>,
    tokens: Vec<usize>,
    start: usize,
) -> (sppf: SPPF<'a>)
    requires
        parser.wf(),
        comp_wf(*parser, tokens@.len() as int, crate::chart::chart_view(complete@)),
    ensures
        sppf.parser == parser,
        sppf.start == start,
        sppf.tokens@ == tokens@,
        forest_wf(*parser, sppf.tokens@, sppf.nodes@),
        shallow_first(sppf.nodes@),
        // roots: every whole-input start completion of the index whose
        // right-hand side is non-empty and decomposes per the index stands as
        // a node with at least one alternative
        forall|e: Item|
            {
                &&& #[trigger] crate::chart::chart_view(complete@)[0].contains(e)
                &&& parser.prods_view()[e.prod as int][0] == start
                &&& e.orig == tokens@.len()
                &&& parser.prods_view()[e.prod as int].len() >= 2
                &&& seg_match(
                    *parser,
                    tokens@,
                    crate::chart::chart_view(complete@),
                    parser.prods_view()[e.prod as int],
                    1,
                    0,
                    tokens@.len() as int,
                )
            } ==> node_has_alt(sppf.nodes@, e.prod, 0, tokens@.len() as int),
        // exploration: no derivation node whose span the index decomposes is
        // left without an alternative
        forall|v: int, q: usize|
            #![trigger sppf.nodes@[v], parser.prods_view()[q as int]]
            {
                &&& 0 <= v < sppf.nodes@.len()
                &&& sppf.nodes@[v].prod == Option::Some(q)
                &&& parser.prods_view()[q as int].len() >= 2
                &&& seg_match(
                    *parser,
                    tokens@,
                    crate::chart::chart_view(complete@),
                    parser.prods_view()[q as int],
                    1,
                    sppf.nodes@[v].start as int,
                    sppf.nodes@[v].end as int,
                )
            } ==> node_alts(sppf.nodes@[v]).len() >= 1,
{
    let ghost toksv = tokens@;
    let ghost compv = crate::chart::chart_view(complete@);
    let n = tokens.len();
    let mut sppf = SPPF { parser, start, tokens, nodes: Vec::new() };
    let mut path: Vec<PathStep> = Vec::new();

    // seed: one search per completed start item covering the whole input
    let m0 = complete[0].len();
    for idx in 0..m0
        invariant
            parser.wf(),
            compv == crate::chart::chart_view(complete@),
            comp_wf(*parser, n as int, compv),
            n == toksv.len(),
            m0 == compv[0].len(),
            sppf.parser == parser,
            sppf.start == start,
            sppf.tokens@ == toksv,
            forest_wf(*parser, toksv, sppf.nodes@),
            path@.len() == 0,
            forall|ii: int|
                0 <= ii < idx && parser.prods_view()[(#[trigger] compv[0][ii]).prod as int][0]
                    == start && compv[0][ii].orig == n && parser.prods_view()[compv[0][ii].prod as int].len()
                    >= 2 && seg_match(
                    *parser,
                    toksv,
                    compv,
                    parser.prods_view()[compv[0][ii].prod as int],
                    1,
                    0,
                    n as int,
                ) ==> node_has_alt(sppf.nodes@, compv[0][ii].prod, 0, n as int),
    {
        let it = complete[0][idx];
        proof {
            assert(compv[0][idx as int] == it);
        }
        let lhs = sv_get(&sppf.parser.prods[it.prod], 0);
        proof {
            assert(parser.prods_view()[it.prod as int] == sv_elems(
                sppf.parser.prods@[it.prod as int],
            ));
        }
        let ghost nodes_h = sppf.nodes@;
        if lhs == start && it.orig == n {
            extend(&mut sppf, complete, it.prod, 1, 0, 0, n, &mut path);
        }
        proof {
            assert forall|ii: int|
                0 <= ii < idx + 1 && parser.prods_view()[(#[trigger] compv[0][ii]).prod as int][0]
                    == start && compv[0][ii].orig == n && parser.prods_view()[compv[0][ii].prod as int].len()
                    >= 2 && seg_match(
                    *parser,
                    toksv,
                    compv,
                    parser.prods_view()[compv[0][ii].prod as int],
                    1,
                    0,
                    n as int,
                ) implies node_has_alt(sppf.nodes@, compv[0][ii].prod, 0, n as int) by {
                if ii < idx {
                    lemma_node_has_alt_mono(
                        nodes_h,
                        sppf.nodes@,
                        compv[0][ii].prod,
                        0,
                        n as int,
                    );
                }
            }
        }
    }

    // worklist: explore every derivation node that was referenced but not
    // yet expanded, including nodes appended during this very pass
    let ghost bnd = (parser.prods_view().len() as int + 1) * ((n as int + 1) * (n as int + 1));
    let mut i: usize = 0;
    proof {
        lemma_nodes_bound(*parser, toksv, sppf.nodes@, n as int);
    }
    while i < sppf.nodes.len()
        invariant
            parser.wf(),
            compv == crate::chart::chart_view(complete@),
            comp_wf(*parser, n as int, compv),
            n == toksv.len(),
            sppf.parser == parser,
            sppf.start == start,
            sppf.tokens@ == toksv,
            forest_wf(*parser, toksv, sppf.nodes@),
            path@.len() == 0,
            bnd == (parser.prods_view().len() as int + 1) * ((n as int + 1) * (n as int + 1)),
            i <= sppf.nodes@.len() <= bnd,
            forall|ii: int|
                0 <= ii < compv[0].len() && parser.prods_view()[(#[trigger] compv[0][ii]).prod as int][0]
                    == start && compv[0][ii].orig == n && parser.prods_view()[compv[0][ii].prod as int].len()
                    >= 2 && seg_match(
                    *parser,
                    toksv,
                    compv,
                    parser.prods_view()[compv[0][ii].prod as int],
                    1,
                    0,
                    n as int,
                ) ==> node_has_alt(sppf.nodes@, compv[0][ii].prod, 0, n as int),
            forall|v: int, q: usize|
                #![trigger sppf.nodes@[v], parser.prods_view()[q as int]]
                0 <= v < i && sppf.nodes@[v].prod == Option::Some(q) && parser.prods_view()[
                    q as int
                ].len() >= 2 && seg_match(
                    *parser,
                    toksv,
                    compv,
                    parser.prods_view()[q as int],
                    1,
                    sppf.nodes@[v].start as int,
                    sppf.nodes@[v].end as int,
                ) ==> node_alts(sppf.nodes@[v]).len() >= 1,
        decreases bnd - i,
    {
        let ghost nodes_h = sppf.nodes@;
        let nd = &sppf.nodes[i];
        let unexplored = nd.children.len() == 0;
        let popt = nd.prod;
        let lo = nd.start;
        let hi = nd.end;
        if unexplored {
            match popt {
                Option::Some(p) => {
                    proof {
                        assert(node_wf(*parser, toksv, sppf.nodes@, i as int));
                        assert(parser.prods_view()[p as int].len() >= 1);
                    }
                    extend(&mut sppf, complete, p, 1, lo, lo, hi, &mut path);
                },
                Option::None => {},
            }
        }
        proof {
            assert forall|ii: int|
                0 <= ii < compv[0].len() && parser.prods_view()[(#[trigger] compv[0][ii]).prod as int][0]
                    == start && compv[0][ii].orig == n && parser.prods_view()[compv[0][ii].prod as int].len()
                    >= 2 && seg_match(
                    *parser,
                    toksv,
                    compv,
                    parser.prods_view()[compv[0][ii].prod as int],
                    1,
                    0,
                    n as int,
                ) implies node_has_alt(sppf.nodes@, compv[0][ii].prod, 0, n as int) by {
                lemma_node_has_alt_mono(nodes_h, sppf.nodes@, compv[0][ii].prod, 0, n as int);
            }
            assert forall|v: int, q: usize|
                #![trigger sppf.nodes@[v], parser.prods_view()[q as int]]
                0 <= v < i + 1 && sppf.nodes@[v].prod == Option::Some(q) && parser.prods_view()[
                    q as int
                ].len() >= 2 && seg_match(
                    *parser,
                    toksv,
                    compv,
                    parser.prods_view()[q as int],
                    1,
                    sppf.nodes@[v].start as int,
                    sppf.nodes@[v].end as int,
                ) implies node_alts(sppf.nodes@[v]).len() >= 1 by {
                if v < i {
                    assert(same_key(sppf.nodes@[v], nodes_h[v]));
                    assert(nodes_h[v].prod == Option::Some(q));
                    assert(node_alts(nodes_h[v]).len() >= 1);
                    assert(node_alts(nodes_h[v]).len() <= node_alts(sppf.nodes@[v]).len());
                } else {
                    assert(same_key(sppf.nodes@[v], nodes_h[v]));
                    if unexplored && nodes_h[v].prod == Option::Some(q) {
                        assert(node_has_alt(sppf.nodes@, q, lo as int, hi as int));
                        let w = choose|w: int|
                            {
                                &&& 0 <= w < sppf.nodes@.len()
                                &&& (#[trigger] sppf.nodes@[w]).prod == Option::Some(q)
                                &&& sppf.nodes@[w].start == lo
                                &&& sppf.nodes@[w].end == hi
                                &&& node_alts(sppf.nodes@[w]).len() >= 1
                            };
                        if w != v {
                            assert(same_key(sppf.nodes@[w], sppf.nodes@[v]));
                            if w < v {
                                assert(!same_key(sppf.nodes@[w], sppf.nodes@[v]));
                            } else {
                                assert(!same_key(sppf.nodes@[v], sppf.nodes@[w]));
                            }
                        }
                    } else {
                        if !unexplored {
                            assert(node_alts(nodes_h[v]).len() >= 1);
                            assert(node_alts(nodes_h[v]).len() <= node_alts(sppf.nodes@[v]).len());
                        }
                    }
                }
            }
        }
        i += 1;
        proof {
            lemma_nodes_bound(*parser, toksv, sppf.nodes@, n as int);
        }
    }

    // reorder: alternatives made of childless nodes first, so enumeration can
    // always reach a finite tree before trying deeper ones
    let ghost nodes0 = sppf.nodes@;
    let nn = sppf.nodes.len();
    for v in 0..nn
        invariant
            parser.wf(),
            n == toksv.len(),
            sppf.parser == parser,
            sppf.start == start,
            sppf.tokens@ == toksv,
            forest_wf(*parser, toksv, sppf.nodes@),
            nn == sppf.nodes@.len() == nodes0.len(),
            forall|w: int|
                0 <= w < nn ==> same_key(#[trigger] sppf.nodes@[w], nodes0[w])
                    && sppf.nodes@[w].children@.len() == nodes0[w].children@.len(),
            forall|w: int, a: int, b: int|
                0 <= w < v && 0 <= a <= b < node_alts(sppf.nodes@[w]).len() && alt_shallow(
                    sppf.nodes@,
                    #[trigger] node_alts(sppf.nodes@[w])[b],
                ) ==> alt_shallow(sppf.nodes@, #[trigger] node_alts(sppf.nodes@[w])[a]),
    {
        let na = sppf.nodes[v].children.len();
        let mut flags: Vec<bool> = Vec::new();
        for a in 0..na
            invariant
                parser.wf(),
                n == toksv.len(),
                sppf.parser == parser,
                sppf.tokens@ == toksv,
                forest_wf(*parser, toksv, sppf.nodes@),
                0 <= v < sppf.nodes@.len(),
                na == sppf.nodes@[v as int].children@.len(),
                flags@.len() == a,
                forall|q: int|
                    0 <= q < a ==> flags@[q] == alt_shallow(
                        sppf.nodes@,
                        node_alts(sppf.nodes@[v as int])[q],
                    ),
        {
            let ghost altv = node_alts(sppf.nodes@[v as int])[a as int];
            let alen = sv_len(&sppf.nodes[v].children[a]);
            proof {
                assert(altv == sv_elems(sppf.nodes@[v as int].children@[a as int]));
                assert(node_wf(*parser, toksv, sppf.nodes@, v as int));
            }
            let mut sh = true;
            let mut c: usize = 0;
            while c < alen
                invariant
                    parser.wf(),
                    sppf.tokens@ == toksv,
                    forest_wf(*parser, toksv, sppf.nodes@),
                    0 <= v < sppf.nodes@.len(),
                    0 <= a < sppf.nodes@[v as int].children@.len(),
                    altv == node_alts(sppf.nodes@[v as int])[a as int],
                    alen == altv.len(),
                    c <= alen,
                    forall|q: int| 0 <= q < altv.len() ==> (#[trigger] altv[q]) < sppf.nodes@.len(),
                    sh == (forall|q: int|
                        0 <= q < c ==> sppf.nodes@[#[trigger] altv[q] as int].children@.len() == 0),
                decreases alen - c,
            {
                let child = sv_get(&sppf.nodes[v].children[a], c);
                if sppf.nodes[child].children.len() > 0 {
                    sh = false;
                }
                c += 1;
            }
            proof {
                assert(sh == alt_shallow(sppf.nodes@, altv));
            }
            flags.push(sh);
        }
        // rebuild the alternative list, shallow ones first
        let mut keepsh: Vec<SymVec> = Vec::new();
        let mut keepdp: Vec<SymVec> = Vec::new();
        let mut a: usize = 0;
        while a < na
            invariant
                a <= na,
                parser.wf(),
                sppf.tokens@ == toksv,
                forest_wf(*parser, toksv, sppf.nodes@),
                0 <= v < sppf.nodes@.len(),
                na == sppf.nodes@[v as int].children@.len(),
                flags@.len() == na,
                forall|q: int|
                    0 <= q < na ==> flags@[q] == alt_shallow(
                        sppf.nodes@,
                        node_alts(sppf.nodes@[v as int])[q],
                    ),
                keepsh@.len() + keepdp@.len() == a,
                forall|q: int|
                    0 <= q < keepsh@.len() ==> alt_shallow(
                        sppf.nodes@,
                        sv_elems(#[trigger] keepsh@[q]),
                    ) && (exists|b: int|
                        0 <= b < a && sv_elems(keepsh@[q]) == #[trigger] node_alts(
                            sppf.nodes@[v as int],
                        )[b]),
                forall|q: int|
                    0 <= q < keepdp@.len() ==> !alt_shallow(
                        sppf.nodes@,
                        sv_elems(#[trigger] keepdp@[q]),
                    ) && (exists|b: int|
                        0 <= b < a && sv_elems(keepdp@[q]) == #[trigger] node_alts(
                            sppf.nodes@[v as int],
                        )[b]),
                forall|q1: int, q2: int|
                    0 <= q1 < q2 < keepsh@.len() ==> sv_elems(#[trigger] keepsh@[q1]) != sv_elems(
                        #[trigger] keepsh@[q2],
                    ),
                forall|q1: int, q2: int|
                    0 <= q1 < q2 < keepdp@.len() ==> sv_elems(#[trigger] keepdp@[q1]) != sv_elems(
                        #[trigger] keepdp@[q2],
                    ),
            decreases na - a,
        {
            let cl = sv_clone(&sppf.nodes[v].children[a]);
            proof {
                assert(sv_elems(cl) == node_alts(sppf.nodes@[v as int])[a as int]);
            }
            if flags[a] {
                let ghost ks0 = keepsh@;
                keepsh.push(cl);
                proof {
                    assert forall|q: int|
                        0 <= q < keepsh@.len() implies alt_shallow(
                        sppf.nodes@,
                        sv_elems(#[trigger] keepsh@[q]),
                    ) && (exists|b: int|
                        0 <= b < a + 1 && sv_elems(keepsh@[q]) == #[trigger] node_alts(
                            sppf.nodes@[v as int],
                        )[b]) by {
                        if q < ks0.len() {
                            assert(keepsh@[q] == ks0[q]);
                            let b0 = choose|b0: int|
                                0 <= b0 < a && sv_elems(ks0[q]) == node_alts(
                                    sppf.nodes@[v as int],
                                )[b0];
                            assert(0 <= b0 < a + 1 && sv_elems(keepsh@[q]) == node_alts(
                                sppf.nodes@[v as int],
                            )[b0]);
                        } else {
                            assert(keepsh@[q] == cl);
                            assert((a as int) < a + 1 && sv_elems(keepsh@[q]) == node_alts(
                                sppf.nodes@[v as int],
                            )[a as int]);
                        }
                    }
                    // the fresh entry is alternative `a`, every earlier entry an
                    // alternative before it, and the node's alternatives are
                    // pairwise distinct
                    assert forall|q1: int, q2: int|
                        0 <= q1 < q2 < keepsh@.len() implies sv_elems(#[trigger] keepsh@[q1])
                        != sv_elems(#[trigger] keepsh@[q2]) by {
                        if q2 == ks0.len() {
                            assert(keepsh@[q1] == ks0[q1]);
                            let b = choose|b: int|
                                0 <= b < a && sv_elems(ks0[q1]) == node_alts(
                                    sppf.nodes@[v as int],
                                )[b];
                            assert(node_alts(sppf.nodes@[v as int])[b] != node_alts(
                                sppf.nodes@[v as int],
                            )[a as int]);
                        } else {
                            assert(keepsh@[q1] == ks0[q1]);
                            assert(keepsh@[q2] == ks0[q2]);
                        }
                    }
                    assert forall|q: int|
                        0 <= q < keepdp@.len() implies !alt_shallow(
                        sppf.nodes@,
                        sv_elems(#[trigger] keepdp@[q]),
                    ) && (exists|b: int|
                        0 <= b < a + 1 && sv_elems(keepdp@[q]) == #[trigger] node_alts(
                            sppf.nodes@[v as int],
                        )[b]) by {
                        let b0 = choose|b0: int|
                            0 <= b0 < a && sv_elems(keepdp@[q]) == node_alts(
                                sppf.nodes@[v as int],
                            )[b0];
                        assert(0 <= b0 < a + 1 && sv_elems(keepdp@[q]) == node_alts(
                            sppf.nodes@[v as int],
                        )[b0]);
                    }
                }
            } else {
                let ghost kd0 = keepdp@;
                keepdp.push(cl);
                proof {
                    assert forall|q: int|
                        0 <= q < keepdp@.len() implies !alt_shallow(
                        sppf.nodes@,
                        sv_elems(#[trigger] keepdp@[q]),
                    ) && (exists|b: int|
                        0 <= b < a + 1 && sv_elems(keepdp@[q]) == #[trigger] node_alts(
                            sppf.nodes@[v as int],
                        )[b]) by {
                        if q < kd0.len() {
                            assert(keepdp@[q] == kd0[q]);
                            let b0 = choose|b0: int|
                                0 <= b0 < a && sv_elems(kd0[q]) == node_alts(
                                    sppf.nodes@[v as int],
                                )[b0];
                            assert(0 <= b0 < a + 1 && sv_elems(keepdp@[q]) == node_alts(
                                sppf.nodes@[v as int],
                            )[b0]);
                        } else {
                            assert(keepdp@[q] == cl);
                            assert((a as int) < a + 1 && sv_elems(keepdp@[q]) == node_alts(
                                sppf.nodes@[v as int],
                            )[a as int]);
                        }
                    }
                    assert forall|q1: int, q2: int|
                        0 <= q1 < q2 < keepdp@.len() implies sv_elems(#[trigger] keepdp@[q1])
                        != sv_elems(#[trigger] keepdp@[q2]) by {
                        if q2 == kd0.len() {
                            assert(keepdp@[q1] == kd0[q1]);
                            let b = choose|b: int|
                                0 <= b < a && sv_elems(kd0[q1]) == node_alts(
                                    sppf.nodes@[v as int],
                                )[b];
                            assert(node_alts(sppf.nodes@[v as int])[b] != node_alts(
                                sppf.nodes@[v as int],
                            )[a as int]);
                        } else {
                            assert(keepdp@[q1] == kd0[q1]);
                            assert(keepdp@[q2] == kd0[q2]);
                        }
                    }
                    assert forall|q: int|
                        0 <= q < keepsh@.len() implies alt_shallow(
                        sppf.nodes@,
                        sv_elems(#[trigger] keepsh@[q]),
                    ) && (exists|b: int|
                        0 <= b < a + 1 && sv_elems(keepsh@[q]) == #[trigger] node_alts(
                            sppf.nodes@[v as int],
                        )[b]) by {
                        let b0 = choose|b0: int|
                            0 <= b0 < a && sv_elems(keepsh@[q]) == node_alts(
                                sppf.nodes@[v as int],
                            )[b0];
                        assert(0 <= b0 < a + 1 && sv_elems(keepsh@[q]) == node_alts(
                            sppf.nodes@[v as int],
                        )[b0]);
                    }
                }
            }
            proof {
                assert(forall|q: int|
                    0 <= q < keepsh@.len() ==> alt_shallow(
                        sppf.nodes@,
                        sv_elems(#[trigger] keepsh@[q]),
                    ) && (exists|b: int|
                        0 <= b < a + 1 && sv_elems(keepsh@[q]) == #[trigger] node_alts(
                            sppf.nodes@[v as int],
                        )[b]));
                assert(forall|q: int|
                    0 <= q < keepdp@.len() ==> !alt_shallow(
                        sppf.nodes@,
                        sv_elems(#[trigger] keepdp@[q]),
                    ) && (exists|b: int|
                        0 <= b < a + 1 && sv_elems(keepdp@[q]) == #[trigger] node_alts(
                            sppf.nodes@[v as int],
                        )[b]));
            }
            a += 1;
        }
        let ghost shv = keepsh@;
        let ghost dpv = keepdp@;
        let mut rebuilt = keepsh;
        let ghost nsh = rebuilt@.len();
        let mut tail = keepdp;
        rebuilt.append(&mut tail);
        let ghost nodes_b = sppf.nodes@;
        let ghost rebuilt_v = rebuilt@;
        let nd = &mut sppf.nodes[v];
        nd.children = rebuilt;
        proof {
            let nodes2 = sppf.nodes@;
            assert forall|w: int| 0 <= w < nn && w != v implies #[trigger] nodes2[w]
                == nodes_b[w] by {}
            assert(same_key(nodes2[v as int], nodes_b[v as int]));
            assert(nodes2[v as int].children@ == rebuilt_v);
            // every rebuilt alternative is one of the node's old alternatives
            assert forall|q: int| 0 <= q < node_alts(nodes2[v as int]).len() implies (exists|b: int|
                0 <= b < na && #[trigger] node_alts(nodes2[v as int])[q] == node_alts(
                    nodes_b[v as int],
                )[b]) by {
                assert(node_alts(nodes2[v as int])[q] == sv_elems(rebuilt_v[q]));
            }
            assert(node_alts(nodes2[v as int]).len() == na);
            // well-formedness carries over alternative by alternative
            assert forall|w: int| 0 <= w < nodes2.len() implies node_wf(
                *parser,
                toksv,
                nodes2,
                w,
            ) by {
                assert(node_wf(*parser, toksv, nodes_b, w));
                if w != v {
                    lemma_node_wf_extend(*parser, toksv, nodes_b, nodes2, w);
                } else {
                    match nodes_b[v as int].prod {
                        Option::None => {
                            assert(nodes_b[v as int].children@.len() == 0);
                            assert(na == 0);
                            assert(nodes2[v as int].children@.len() == 0);
                        },
                        Option::Some(p) => {
                            assert forall|q: int|
                                0 <= q < node_alts(nodes2[v as int]).len() implies alt_wf(
                                *parser,
                                toksv,
                                nodes2,
                                parser.prods_view()[p as int],
                                #[trigger] node_alts(nodes2[v as int])[q],
                                nodes2[v as int].start as int,
                                nodes2[v as int].end as int,
                            ) by {
                                let b = choose|b: int|
                                    0 <= b < na && node_alts(nodes2[v as int])[q] == node_alts(
                                        nodes_b[v as int],
                                    )[b];
                                assert(alt_wf(
                                    *parser,
                                    toksv,
                                    nodes_b,
                                    parser.prods_view()[p as int],
                                    node_alts(nodes_b[v as int])[b],
                                    nodes_b[v as int].start as int,
                                    nodes_b[v as int].end as int,
                                ));
                                lemma_alt_wf_extend(
                                    *parser,
                                    toksv,
                                    nodes_b,
                                    nodes2,
                                    parser.prods_view()[p as int],
                                    node_alts(nodes2[v as int])[q],
                                    nodes2[v as int].start as int,
                                    nodes2[v as int].end as int,
                                );
                            }
                        },
                    }
                }
            }
            assert forall|x: int, y: int| 0 <= x < y < nodes2.len() implies !same_key(
                nodes2[x],
                nodes2[y],
            ) by {
                assert(!same_key(nodes_b[x], nodes_b[y]));
                assert(same_key(nodes2[x], nodes_b[x]));
                assert(same_key(nodes2[y], nodes_b[y]));
            }
            // the rebuilt list keeps the alternatives pairwise distinct: the
            // two halves are internally distinct, and no alternative is both
            // shallow and not
            assert(rebuilt_v =~= shv + dpv);
            assert forall|w: int, x: int, y: int|
                0 <= w < nodes2.len() && 0 <= x < y < node_alts(nodes2[w]).len()
                    implies #[trigger] node_alts(nodes2[w])[x] != #[trigger] node_alts(
                    nodes2[w],
                )[y] by {
                if w != v {
                    assert(nodes2[w] == nodes_b[w]);
                    assert(node_alts(nodes_b[w])[x] != node_alts(nodes_b[w])[y]);
                } else {
                    assert(node_alts(nodes2[w])[x] == sv_elems(rebuilt_v[x]));
                    assert(node_alts(nodes2[w])[y] == sv_elems(rebuilt_v[y]));
                    if y < nsh {
                        assert(rebuilt_v[x] == shv[x]);
                        assert(rebuilt_v[y] == shv[y]);
                    } else {
                        if x >= nsh {
                            assert(rebuilt_v[x] == dpv[x - nsh]);
                            assert(rebuilt_v[y] == dpv[y - nsh]);
                        } else {
                            assert(rebuilt_v[x] == shv[x]);
                            assert(rebuilt_v[y] == dpv[y - nsh]);
                            assert(alt_shallow(nodes_b, sv_elems(shv[x])));
                            assert(!alt_shallow(nodes_b, sv_elems(dpv[y - nsh])));
                        }
                    }
                }
            }
            // the rebuilt list is partitioned: shallow alternatives first;
            // permuting one node's list does not change which alternatives of
            // any node are shallow, since children counts are untouched
            assert forall|w: int|
                0 <= w < nn implies same_key(#[trigger] nodes2[w], nodes0[w]) && nodes2[w].children@.len()
                == nodes0[w].children@.len() by {
                assert(same_key(nodes_b[w], nodes0[w]));
                assert(nodes_b[w].children@.len() == nodes0[w].children@.len());
                if w == v {
                    assert(nodes2[w].children@.len() == rebuilt_v.len());
                }
            }
            let shbound = nsh;
            assert forall|w: int, aa: int, bb: int|
                0 <= w < v + 1 && 0 <= aa <= bb < node_alts(nodes2[w]).len() && alt_shallow(
                    nodes2,
                    #[trigger] node_alts(nodes2[w])[bb],
                ) implies alt_shallow(nodes2, #[trigger] node_alts(nodes2[w])[aa]) by {
                lemma_shallow_same(*parser, toksv, nodes_b, nodes2, v as int, w, aa);
                lemma_shallow_same(*parser, toksv, nodes_b, nodes2, v as int, w, bb);
                if w < v {
                    assert(nodes2[w] == nodes_b[w]);
                    assert(alt_shallow(nodes_b, node_alts(nodes_b[w])[bb]));
                    assert(alt_shallow(nodes_b, node_alts(nodes_b[w])[aa]));
                } else {
                    assert(node_alts(nodes2[v as int])[aa] == sv_elems(rebuilt_v[aa]));
                    assert(node_alts(nodes2[v as int])[bb] == sv_elems(rebuilt_v[bb]));
                    if aa < shbound {
                        assert(alt_shallow(nodes_b, sv_elems(rebuilt_v[aa])));
                    } else {
                        assert(bb >= shbound);
                        assert(!alt_shallow(nodes_b, sv_elems(rebuilt_v[bb])));
                        assert(alt_shallow(nodes_b, node_alts(nodes_b[w])[bb]));
                    }
                }
            }
        }
    }
    proof {
        // the reorder pass kept every key and every alternative count, so the
        // root and exploration guarantees carry over
        assert forall|e: Item|
            {
                &&& #[trigger] compv[0].contains(e)
                &&& parser.prods_view()[e.prod as int][0] == start
                &&& e.orig == n
                &&& parser.prods_view()[e.prod as int].len() >= 2
                &&& seg_match(
                    *parser,
                    toksv,
                    compv,
                    parser.prods_view()[e.prod as int],
                    1,
                    0,
                    n as int,
                )
            } implies node_has_alt(sppf.nodes@, e.prod, 0, n as int) by {
            assert(compv[0].contains(e));
            let ii = choose|ii: int| 0 <= ii < compv[0].len() && #[trigger] compv[0][ii] == e;
            assert(compv[0][ii] == e);
            lemma_node_has_alt_mono(nodes0, sppf.nodes@, e.prod, 0, n as int);
        }
        assert forall|v: int, q: usize|
            #![trigger sppf.nodes@[v], parser.prods_view()[q as int]]
            {
                &&& 0 <= v < sppf.nodes@.len()
                &&& sppf.nodes@[v].prod == Option::Some(q)
                &&& parser.prods_view()[q as int].len() >= 2
                &&& seg_match(
                    *parser,
                    toksv,
                    compv,
                    parser.prods_view()[q as int],
                    1,
                    sppf.nodes@[v].start as int,
                    sppf.nodes@[v].end as int,
                )
            } implies node_alts(sppf.nodes@[v]).len() >= 1 by {
            assert(same_key(sppf.nodes@[v], nodes0[v]));
            assert(nodes0[v].prod == Option::Some(q));
            assert(node_alts(nodes0[v]).len() >= 1);
            assert(node_alts(sppf.nodes@[v]).len() == nodes0[v].children@.len());
        }
    }
    sppf
}



/// Whatever decomposition the chart records, the completed-item index
/// records as well: the index files every completed chart item under its
/// origin column, re-tagged with its completion column.
proof fn lemma_chart_seg_to_comp(
    g: Parser,
    toks: Seq<usize>,
    cv: Seq<Seq<Item>>,
    comp: Seq<Seq<Item>>,
    prod: Seq<usize>,
    cur: int,
    pos: int,
    end: int,
)
    requires
        completed_ok(g, cv, comp),
        cv.len() <= usize::MAX,
        chart_seg(g, toks, cv, prod, cur, pos, end),
    ensures
        seg_match(g, toks, comp, prod, cur, pos, end),
    decreases prod.len() - cur,
{
    if cur < prod.len() {
        let x = prod[cur];
        if x < g.nt_count() {
            let (q, mid) = choose|q: usize, mid: int|
                {
                    &&& #[trigger] spans(g, cv, q, pos, mid)
                    &&& g.prods_view()[q as int][0] == x
                    &&& chart_seg(g, toks, cv, prod, cur + 1, mid, end)
                };
            let it = choose|it: Item|
                {
                    &&& #[trigger] cv[mid].contains(it)
                    &&& it.prod == q
                    &&& item_complete(g, it)
                    &&& it.orig == pos
                };
            let m = choose|m: int| 0 <= m < cv[mid].len() && #[trigger] cv[mid][m] == it;
            assert(comp[pos].contains(Item { prod: q, dot: it.dot, orig: mid as usize }));
            lemma_chart_seg_to_comp(g, toks, cv, comp, prod, cur + 1, mid, end);
            let e = Item { prod: q, dot: it.dot, orig: mid as usize };
            assert(e.orig as int == mid);
            assert(comp[pos].contains(e) && g.prods_view()[e.prod as int][0] == x && seg_match(
                g,
                toks,
                comp,
                prod,
                cur + 1,
                e.orig as int,
                end,
            ));
        } else {
            lemma_chart_seg_to_comp(g, toks, cv, comp, prod, cur + 1, pos + 1, end);
        }
    }
}

/// Token text `t` names a terminal of the grammar.
pub open spec fn resolves_terminal(g: Parser, t: Seq<u8>) -> bool {
    exists|id: int| g.nt_count() <= id < g.token_count() && g.names_view()[id] == t
}

/// Token text `t` names a non-terminal of the grammar.
pub open spec fn resolves_non_terminal(g: Parser, t: Seq<u8>) -> bool {
    exists|id: int| 0 <= id < g.nt_count() && g.names_view()[id] == t
}

impl Parser {
    /// Parses an input against the grammar: every input string must name a
    /// terminal and the start string a non-terminal, else the first
    /// unresolved string is the error. Success does not mean the input
    /// derives from the start symbol: an input with no derivation simply
    /// yields a forest with no root node, and enumeration ends at once.
    pub fn parse<'a>(&'a self, input: &Vec<&str>, start: &str) -> (r: Result<
        (Chart, SPPF<'a>),
        ParseError,
    >)
        requires
            self.wf(),
            input@.len() < usize::MAX,
        ensures
            match r {
                Ok(out) => {
                    let (chart, sppf) = out;
                    &&& sppf.parser == self
                    &&& sppf.tokens@.len() == input@.len()
                    &&& forall|i: int|
                        0 <= i < input@.len() ==> {
                            &&& self.nt_count() <= (#[trigger] sppf.tokens@[i])
                                < self.token_count()
                            &&& self.names_view()[sppf.tokens@[i] as int]
                                == input@[i].spec_bytes()
                        }
                    &&& sppf.start < self.nt_count()
                    &&& self.names_view()[sppf.start as int] == start.spec_bytes()
                    &&& chart_ok(*self, sppf.tokens@, sppf.start, chart_view(chart@))
                    &&& forest_wf(*self, sppf.tokens@, sppf.nodes@)
                    &&& shallow_first(sppf.nodes@)
                    // roots: every whole-input completion of a start
                    // production the chart records, with a non-empty
                    // right-hand side the chart decomposes, stands in the
                    // forest as a root node with at least one alternative
                    &&& forall|q: usize|
                        {
                            &&& q < self.prods_view().len()
                            &&& self.prods_view()[q as int][0] == sppf.start
                            &&& self.prods_view()[q as int].len() >= 2
                            &&& #[trigger] spans(
                                *self,
                                chart_view(chart@),
                                q,
                                0,
                                sppf.tokens@.len() as int,
                            )
                            &&& chart_seg(
                                *self,
                                sppf.tokens@,
                                chart_view(chart@),
                                self.prods_view()[q as int],
                                1,
                                0,
                                sppf.tokens@.len() as int,
                            )
                        } ==> node_has_alt(sppf.nodes@, q, 0, sppf.tokens@.len() as int)
                    // exploration: no derivation node whose span the chart
                    // decomposes is left without an alternative
                    &&& forall|v: int, q: usize|
                        #![trigger sppf.nodes@[v], self.prods_view()[q as int]]
                        {
                            &&& 0 <= v < sppf.nodes@.len()
                            &&& sppf.nodes@[v].prod == Option::Some(q)
                            &&& self.prods_view()[q as int].len() >= 2
                            &&& chart_seg(
                                *self,
                                sppf.tokens@,
                                chart_view(chart@),
                                self.prods_view()[q as int],
                                1,
                                sppf.nodes@[v].start as int,
                                sppf.nodes@[v].end as int,
                            )
                        } ==> node_alts(sppf.nodes@[v]).len() >= 1
                },
                Err(e) => {
                    ||| (exists|i: int|
                        {
                            &&& 0 <= i < input@.len()
                            &&& e.0@ == (#[trigger] input@[i])@
                            &&& !resolves_terminal(*self, input@[i].spec_bytes())
                            &&& forall|j: int|
                                0 <= j < i ==> resolves_terminal(
                                    *self,
                                    (#[trigger] input@[j]).spec_bytes(),
                                )
                        })
                    ||| ((forall|j: int|
                        0 <= j < input@.len() ==> resolves_terminal(
                            *self,
                            (#[trigger] input@[j]).spec_bytes(),
                        )) && e.0@ == start@ && !resolves_non_terminal(*self, start.spec_bytes()))
                },
            },
    {
        let mut toks: Vec<usize> = Vec::new();
        let ni = input.len();
        for i in 0..ni
            invariant
                self.wf(),
                ni == input@.len() < usize::MAX,
                toks@.len() == i,
                forall|j: int|
                    0 <= j < i ==> {
                        &&& self.nt_count() <= (#[trigger] toks@[j]) < self.token_count()
                        &&& self.names_view()[toks@[j] as int] == input@[j].spec_bytes()
                    },
                forall|j: int|
                    0 <= j < i ==> resolves_terminal(*self, (#[trigger] input@[j]).spec_bytes()),
        {
            let t: &str = input[i];
            match self.terminal_id(t) {
                Option::Some(id) => {
                    proof {
                        assert(resolves_terminal(*self, t.spec_bytes()));
                    }
                    toks.push(id);
                },
                Option::None => {
                    proof {
                        assert(!resolves_terminal(*self, t.spec_bytes())) by {
                            if resolves_terminal(*self, t.spec_bytes()) {
                                let id = choose|id: int|
                                    self.nt_count() <= id < self.token_count()
                                        && self.names_view()[id] == t.spec_bytes();
                            }
                        }
                    }
                    return Err(ParseError(t.to_owned()));
                },
            }
        }
        let sid = match self.non_terminal_id(start) {
            Option::Some(sidv) => sidv,
            Option::None => {
                proof {
                    assert(!resolves_non_terminal(*self, start.spec_bytes())) by {
                        if resolves_non_terminal(*self, start.spec_bytes()) {
                            let id = choose|id: int|
                                0 <= id < self.nt_count() && self.names_view()[id]
                                    == start.spec_bytes();
                        }
                    }
                }
                return Err(ParseError(start.to_owned()));
            },
        };
        let chart = self.build_chart(&toks, sid);
        let comp = self.completed_index(&chart);
        proof {
            let cv = chart_view(chart@);
            let compv = chart_view(comp@);
            assert(comp_wf(*self, toks@.len() as int, compv)) by {
                assert(completed_ok(*self, cv, compv));
                assert forall|c: int, e: int|
                    0 <= c < compv.len() && 0 <= e < compv[c].len() implies {
                    let it = #[trigger] compv[c][e];
                    &&& it.prod < self.prods_view().len()
                    &&& it.dot == self.prods_view()[it.prod as int].len()
                    &&& c <= it.orig <= toks@.len()
                } by {
                    assert(compv[c][e].orig < cv.len());
                }
            }
        }
        let sppf = build_forest(self, &comp, toks, sid);
        proof {
            let cv = chart_view(chart@);
            let cmv = chart_view(comp@);
            let nn = sppf.tokens@.len() as int;
            assert forall|q: usize|
                {
                    &&& q < self.prods_view().len()
                    &&& self.prods_view()[q as int][0] == sppf.start
                    &&& self.prods_view()[q as int].len() >= 2
                    &&& #[trigger] spans(*self, cv, q, 0, nn)
                    &&& chart_seg(*self, sppf.tokens@, cv, self.prods_view()[q as int], 1, 0, nn)
                } implies node_has_alt(sppf.nodes@, q, 0, nn) by {
                let it = choose|it: Item|
                    {
                        &&& #[trigger] cv[nn].contains(it)
                        &&& it.prod == q
                        &&& item_complete(*self, it)
                        &&& it.orig == 0
                    };
                let m = choose|m: int| 0 <= m < cv[nn].len() && #[trigger] cv[nn][m] == it;
                let e = Item { prod: q, dot: it.dot, orig: nn as usize };
                assert(cmv[0].contains(e));
                lemma_chart_seg_to_comp(
                    *self,
                    sppf.tokens@,
                    cv,
                    cmv,
                    self.prods_view()[q as int],
                    1,
                    0,
                    nn,
                );
                assert(e.orig == nn);
            }
            assert forall|v: int, q: usize|
                #![trigger sppf.nodes@[v], self.prods_view()[q as int]]
                {
                    &&& 0 <= v < sppf.nodes@.len()
                    &&& sppf.nodes@[v].prod == Option::Some(q)
                    &&& self.prods_view()[q as int].len() >= 2
                    &&& chart_seg(
                        *self,
                        sppf.tokens@,
                        cv,
                        self.prods_view()[q as int],
                        1,
                        sppf.nodes@[v].start as int,
                        sppf.nodes@[v].end as int,
                    )
                } implies node_alts(sppf.nodes@[v]).len() >= 1 by {
                lemma_chart_seg_to_comp(
                    *self,
                    sppf.tokens@,
                    cv,
                    cmv,
                    self.prods_view()[q as int],
                    1,
                    sppf.nodes@[v].start as int,
                    sppf.nodes@[v].end as int,
                );
            }
        }
        Ok((chart, sppf))
    }
}

} // verus!
