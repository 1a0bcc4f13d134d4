//! The Earley chart: one deduplicated column of items per input position,
//! closed under the predict, nullable-skip, scan and complete steps.

use vstd::prelude::*;
use vstd::set_lib::{lemma_len_subset, lemma_int_range, set_int_range};
use crate::svec::{sv_elems, sv_get, sv_len};
use crate::grammar::{Parser, derives_empty, lemma_lhs_derives_empty};

verus! {

broadcast use vstd::seq_lib::group_seq_properties;

/// One Earley item: a production (by table index), how many of its symbols
/// are matched (`dot`, where 1 means none of the right-hand side yet, since
/// position 0 holds the left-hand side), and the column where the match
/// began.
#[derive(Copy, Clone, PartialEq, Eq, Structural, Debug)]
pub struct Item {
    /// Index of the production in the grammar's table.
    pub prod: usize,
    /// Dot position in `[1, production length]`.
    pub dot: usize,
    /// Column at which this partial match began.
    pub orig: usize,
}

/// The chart: one item column per input position, plus one final column.
pub type Chart = Vec<Vec<Item>>;

/// The columns of a chart as plain sequences.
pub open spec fn chart_view(chart: Seq<Vec<Item>>) -> Seq<Seq<Item>> {
    chart.map(|i: int, c: Vec<Item>| c@)
}

/// The production of `it`, as a plain sequence.
pub open spec fn prod_of(g: Parser, it: Item) -> Seq<usize> {
    g.prods_view()[it.prod as int]
}

/// The symbol after the dot; meaningful when the item is not complete.
pub open spec fn next_sym(g: Parser, it: Item) -> usize {
    prod_of(g, it)[it.dot as int]
}

/// The dot stands at the end of the production.
pub open spec fn item_complete(g: Parser, it: Item) -> bool {
    it.dot == prod_of(g, it).len()
}

/// The same item with the dot advanced over one symbol.
pub open spec fn advanced(it: Item) -> Item {
    Item { prod: it.prod, dot: (it.dot + 1) as usize, orig: it.orig }
}

/// A valid item of column `col`.
pub open spec fn item_wf(g: Parser, it: Item, col: int) -> bool {
    &&& it.prod < g.prods_view().len()
    &&& 1 <= it.dot <= prod_of(g, it).len()
    &&& it.orig <= col
}

/// An item spanning no input (origin equals its column) has matched only
/// nullable non-terminals so far.
pub open spec fn espn(g: Parser, it: Item, col: int) -> bool {
    it.orig == col ==> forall|d: int|
        1 <= d < it.dot ==> {
            &&& (#[trigger] prod_of(g, it)[d]) < g.nt_count()
            &&& g.nullable@[prod_of(g, it)[d] as int]
        }
}

/// A well-formed column: deduplicated, every item valid, and every
/// empty-span item justified by nullable symbols alone.
pub open spec fn col_inv(g: Parser, i: int, c: Seq<Item>) -> bool {
    &&& c.no_duplicates()
    &&& forall|k: int| 0 <= k < c.len() ==> item_wf(g, #[trigger] c[k], i)
    &&& forall|k: int| 0 <= k < c.len() ==> espn(g, #[trigger] c[k], i)
}

/// Every production for the start symbol stands in column 0 with dot 1.
pub open spec fn seeds_present(g: Parser, start: usize, cv: Seq<Seq<Item>>) -> bool {
    forall|p: int|
        0 <= p < g.prods_view().len() && (#[trigger] g.prods_view()[p])[0] == start
            ==> cv[0].contains(Item { prod: p as usize, dot: 1, orig: 0 })
}

/// The seed items over the first `m` productions: one per production for the
/// start symbol, in table order.
pub open spec fn seed_seq_upto(g: Parser, start: usize, m: int) -> Seq<Item>
    decreases m,
{
    if m <= 0 {
        Seq::empty()
    } else {
        seed_seq_upto(g, start, m - 1) + (if g.prods_view()[m - 1][0] == start {
            seq![Item { prod: (m - 1) as usize, dot: 1, orig: 0 }]
        } else {
            Seq::empty()
        })
    }
}

/// The seed items of column 0, in production-table order.
pub open spec fn seed_seq(g: Parser, start: usize) -> Seq<Item> {
    seed_seq_upto(g, start, g.prods_view().len() as int)
}

/// The column begins with exactly the seed items, in production-table order:
/// items are only ever appended, so the insertion order of the seeding pass
/// is preserved.
pub open spec fn seeded_first(g: Parser, start: usize, c: Seq<Item>) -> bool {
    &&& seed_seq(g, start).len() <= c.len()
    &&& c.take(seed_seq(g, start).len() as int) == seed_seq(g, start)
}

/// Appending to a column keeps its seed prefix.
proof fn lemma_seeded_first_grow(g: Parser, start: usize, c1: Seq<Item>, c2: Seq<Item>)
    requires
        seeded_first(g, start, c1),
        c1.len() <= c2.len(),
        forall|k: int| 0 <= k < c1.len() ==> c2[k] == c1[k],
    ensures
        seeded_first(g, start, c2),
{
    let m = seed_seq(g, start).len() as int;
    assert(c2.take(m) =~= c1.take(m));
}

/// All one-step Earley consequences of item `it` of column `i` are recorded:
/// `ci` is its own column, `cnext` the one after it, and `dv` holds the
/// columns before `i`.
pub open spec fn item_processed(
    g: Parser,
    tokens: Seq<usize>,
    dv: Seq<Seq<Item>>,
    i: int,
    it: Item,
    ci: Seq<Item>,
    cnext: Seq<Item>,
) -> bool {
    if it.dot < prod_of(g, it).len() {
        let x = next_sym(g, it);
        if x < g.nt_count() {
            // predict, and skip over a nullable non-terminal
            &&& forall|p: int|
                0 <= p < g.prods_view().len() && (#[trigger] g.prods_view()[p])[0] == x
                    ==> ci.contains(Item { prod: p as usize, dot: 1, orig: i as usize })
            &&& (g.nullable@[x as int] ==> ci.contains(advanced(it)))
        } else {
            // scan
            (i < tokens.len() && tokens[i] == x) ==> cnext.contains(advanced(it))
        }
    } else {
        // complete, against a strictly earlier column; completions against
        // the item's own column are covered by the nullable skip
        it.orig < i ==> forall|w: Item|
            #[trigger] dv[it.orig as int].contains(w) && w.dot < prod_of(g, w).len() && next_sym(
                g,
                w,
            ) == prod_of(g, it)[0] ==> ci.contains(advanced(w))
    }
}

/// The chart is closed under the Earley steps: predictions, nullable skips,
/// scans and completions of recorded items are themselves recorded.
pub open spec fn chart_closed(g: Parser, tokens: Seq<usize>, cv: Seq<Seq<Item>>) -> bool {
    &&& forall|q: int, m: int|
        0 <= q < cv.len() && 0 <= m < cv[q].len() ==> item_processed(
            g,
            tokens,
            cv,
            q,
            #[trigger] cv[q][m],
            cv[q],
            if q + 1 < cv.len() {
                cv[q + 1]
            } else {
                Seq::empty()
            },
        )
    &&& forall|q: int, m: int, w: Item|
        {
            &&& 0 <= q < cv.len()
            &&& 0 <= m < cv[q].len()
            &&& item_complete(g, #[trigger] cv[q][m])
            &&& cv[q][m].orig == q
            &&& #[trigger] cv[q].contains(w)
            &&& w.dot < prod_of(g, w).len()
            &&& next_sym(g, w) == prod_of(g, cv[q][m])[0]
        } ==> cv[q].contains(advanced(w))
}


/// Item `it` of column `i` follows from what the chart holds: it is a seed,
/// a prediction, a nullable skip, a scan, or a completion.
#[verifier::opaque]
pub open spec fn justified(
    g: Parser,
    tokens: Seq<usize>,
    start: usize,
    cv: Seq<Seq<Item>>,
    i: int,
    it: Item,
) -> bool {
    ||| (i == 0 && it.dot == 1 && it.orig == 0 && prod_of(g, it)[0] == start)
    ||| (it.dot == 1 && it.orig == i && exists|w: Item|
        #[trigger] cv[i].contains(w) && w.dot < prod_of(g, w).len() && next_sym(g, w) == prod_of(
            g,
            it,
        )[0])
    ||| (it.dot >= 2 && {
        let prev = Item { prod: it.prod, dot: (it.dot - 1) as usize, orig: it.orig };
        let sym = prod_of(g, it)[it.dot - 1];
        ||| (cv[i].contains(prev) && sym < g.nt_count() && g.nullable@[sym as int])
        ||| (1 <= i <= tokens.len() && cv[i - 1].contains(prev) && g.nt_count() <= sym && tokens[i
            - 1] == sym)
        ||| (exists|c: Item|
            {
                &&& #[trigger] cv[i].contains(c)
                &&& item_complete(g, c)
                &&& 0 <= c.orig <= i
                &&& cv[c.orig as int].contains(prev)
                &&& sym < g.nt_count()
                &&& prod_of(g, c)[0] == sym
            })
    })
}

/// Every item of the chart is justified: the chart holds no invented items.
#[verifier::opaque]
pub open spec fn chart_sound(
    g: Parser,
    tokens: Seq<usize>,
    start: usize,
    cv: Seq<Seq<Item>>,
) -> bool {
    forall|i: int, k: int|
        0 <= i < cv.len() && 0 <= k < cv[i].len() ==> justified(
            g,
            tokens,
            start,
            cv,
            i,
            #[trigger] cv[i][k],
        )
}

/// A justification only reads columns up to the item's own, and membership
/// positively: growing or truncating the chart elsewhere preserves it.
proof fn lemma_justified_mono(
    g: Parser,
    tokens: Seq<usize>,
    start: usize,
    cv1: Seq<Seq<Item>>,
    cv2: Seq<Seq<Item>>,
    i: int,
    it: Item,
)
    requires
        justified(g, tokens, start, cv1, i, it),
        0 <= i < cv1.len(),
        i < cv2.len(),
        forall|q: int, x: Item|
            0 <= q <= i && #[trigger] cv1[q].contains(x) ==> cv2[q].contains(x),
    ensures
        justified(g, tokens, start, cv2, i, it),
{
    reveal(justified);
}

/// Appending one justified item to one column keeps the chart sound.
proof fn lemma_sound_push(
    g: Parser,
    tokens: Seq<usize>,
    start: usize,
    cv1: Seq<Seq<Item>>,
    cv2: Seq<Seq<Item>>,
    t: int,
    x: Item,
)
    requires
        chart_sound(g, tokens, start, cv1),
        cv1.len() == cv2.len(),
        0 <= t < cv1.len(),
        forall|q: int| 0 <= q < cv1.len() && q != t ==> #[trigger] cv2[q] == cv1[q],
        cv2[t] == cv1[t] || cv2[t] == cv1[t].push(x),
        justified(g, tokens, start, cv1, t, x),
    ensures
        chart_sound(g, tokens, start, cv2),
{
    reveal(chart_sound);
    assert forall|q: int, y: Item|
        0 <= q < cv1.len() && #[trigger] cv1[q].contains(y) implies cv2[q].contains(y) by {}
    assert forall|i: int, k: int|
        0 <= i < cv2.len() && 0 <= k < cv2[i].len() implies justified(
        g,
        tokens,
        start,
        cv2,
        i,
        #[trigger] cv2[i][k],
    ) by {
        if i == t && k == cv1[t].len() {
            lemma_justified_mono(g, tokens, start, cv1, cv2, t, x);
        } else {
            assert(cv2[i][k] == cv1[i][k]);
            assert(justified(g, tokens, start, cv1, i, cv1[i][k]));
            lemma_justified_mono(g, tokens, start, cv1, cv2, i, cv1[i][k]);
        }
    }
}


proof fn lemma_sound_extend_empty(
    g: Parser,
    tokens: Seq<usize>,
    start: usize,
    cv: Seq<Seq<Item>>,
)
    requires
        chart_sound(g, tokens, start, cv),
    ensures
        chart_sound(g, tokens, start, cv.push(Seq::empty())),
{
    reveal(chart_sound);
    let cv2 = cv.push(Seq::<Item>::empty());
    assert forall|i: int, k: int|
        0 <= i < cv2.len() && 0 <= k < cv2[i].len() implies justified(
        g,
        tokens,
        start,
        cv2,
        i,
        #[trigger] cv2[i][k],
    ) by {
        assert(cv2[i] == cv[i]);
        assert(justified(g, tokens, start, cv, i, cv[i][k]));
        assert forall|q: int, x: Item|
            0 <= q <= i && #[trigger] cv[q].contains(x) implies cv2[q].contains(x) by {}
        lemma_justified_mono(g, tokens, start, cv, cv2, i, cv[i][k]);
    }
}

proof fn lemma_sound_drop_last(
    g: Parser,
    tokens: Seq<usize>,
    start: usize,
    cv: Seq<Seq<Item>>,
)
    requires
        chart_sound(g, tokens, start, cv),
        cv.len() > 0,
    ensures
        chart_sound(g, tokens, start, cv.drop_last()),
{
    reveal(chart_sound);
    let cv2 = cv.drop_last();
    assert forall|i: int, k: int|
        0 <= i < cv2.len() && 0 <= k < cv2[i].len() implies justified(
        g,
        tokens,
        start,
        cv2,
        i,
        #[trigger] cv2[i][k],
    ) by {
        assert(cv2[i] == cv[i]);
        assert(justified(g, tokens, start, cv, i, cv[i][k]));
        assert forall|q: int, x: Item|
            0 <= q <= i && #[trigger] cv[q].contains(x) implies cv2[q].contains(x) by {
            assert(cv2[q] == cv[q]);
        }
        lemma_justified_mono(g, tokens, start, cv, cv2, i, cv[i][k]);
    }
}

/// The full chart contract: one column per position and one more, each
/// well formed and deduplicated, the start productions seeded, and the whole
/// closed under the Earley steps.
pub open spec fn chart_ok(
    g: Parser,
    tokens: Seq<usize>,
    start: usize,
    cv: Seq<Seq<Item>>,
) -> bool {
    &&& cv.len() == tokens.len() + 1
    &&& forall|i: int| 0 <= i < cv.len() ==> col_inv(g, i, #[trigger] cv[i])
    &&& seeds_present(g, start, cv)
    &&& seeded_first(g, start, cv[0])
    &&& chart_closed(g, tokens, cv)
    &&& chart_sound(g, tokens, start, cv)
}


/// The chart completed production `q` exactly over `[lo, hi)`: column `hi`
/// holds a completed item of `q` with origin `lo`.
pub open spec fn spans(g: Parser, cv: Seq<Seq<Item>>, q: usize, lo: int, hi: int) -> bool {
    &&& q < g.prods_view().len()
    &&& 0 <= lo <= hi < cv.len()
    &&& exists|it: Item|
        {
            &&& #[trigger] cv[hi].contains(it)
            &&& it.prod == q
            &&& item_complete(g, it)
            &&& it.orig == lo
        }
}

/// The chart records a decomposition of `prod`'s symbols from position `cur`
/// on, deriving exactly `[pos, end)`: every non-terminal position is covered
/// by a production the chart completed there, every terminal position by the
/// input token there.
pub open spec fn chart_seg(
    g: Parser,
    toks: Seq<usize>,
    cv: Seq<Seq<Item>>,
    prod: Seq<usize>,
    cur: int,
    pos: int,
    end: int,
) -> bool
    decreases prod.len() - cur,
{
    if cur >= prod.len() {
        pos == end
    } else {
        let x = prod[cur];
        if x < g.nt_count() {
            exists|q: usize, mid: int|
                {
                    &&& #[trigger] spans(g, cv, q, pos, mid)
                    &&& g.prods_view()[q as int][0] == x
                    &&& chart_seg(g, toks, cv, prod, cur + 1, mid, end)
                }
        } else {
            &&& 0 <= pos < toks.len()
            &&& toks[pos] == x
            &&& chart_seg(g, toks, cv, prod, cur + 1, pos + 1, end)
        }
    }
}

/// Longest production length of the grammar.
pub open spec fn max_plen(prods: Seq<Seq<usize>>) -> nat
    decreases prods.len(),
{
    if prods.len() == 0 {
        0
    } else {
        let m = max_plen(prods.drop_last());
        if prods.last().len() > m {
            prods.last().len()
        } else {
            m
        }
    }
}

proof fn lemma_max_plen(prods: Seq<Seq<usize>>, p: int)
    requires
        0 <= p < prods.len(),
    ensures
        prods[p].len() <= max_plen(prods),
    decreases prods.len(),
{
    if p < prods.len() - 1 {
        lemma_max_plen(prods.drop_last(), p);
        assert(prods.drop_last()[p] == prods[p]);
    }
}

/// A distinct key below `pn * ((ml + 1) * (n + 2))` for each valid item.
spec fn item_key(it: Item, ml: int, n: int) -> int {
    (it.prod * (ml + 1) + it.dot) * (n + 2) + it.orig
}

pub(crate) proof fn lemma_mixed_radix(u: int, v: int, x: int, y: int, b: int)
    by (nonlinear_arith)
    requires
        b > 0,
        0 <= x < b,
        0 <= y < b,
        u * b + x == v * b + y,
    ensures
        u == v,
        x == y,
{
}

pub(crate) proof fn lemma_key_range(p: int, d: int, o: int, pn: int, ml: int, n: int)
    by (nonlinear_arith)
    requires
        0 <= p < pn,
        0 <= d < ml + 1,
        0 <= o < n + 2,
    ensures
        0 <= (p * (ml + 1) + d) * (n + 2) + o < pn * ((ml + 1) * (n + 2)),
{
}

/// A deduplicated column of valid items is no longer than the number of
/// possible items.
proof fn lemma_items_bound(g: Parser, s: Seq<Item>, col: int, n: int)
    requires
        s.no_duplicates(),
        forall|k: int| 0 <= k < s.len() ==> item_wf(g, #[trigger] s[k], col),
        0 <= col <= n,
    ensures
        s.len() <= g.prods_view().len() * ((max_plen(g.prods_view()) + 1) * (n + 2)),
{
    let pn = g.prods_view().len() as int;
    let ml = max_plen(g.prods_view()) as int;
    let b = pn * ((ml + 1) * (n + 2));
    let f = |it: Item| item_key(it, ml, n);
    let es = s.map_values(f);
    assert forall|k: int| 0 <= k < s.len() implies 0 <= #[trigger] es[k] < b by {
        lemma_max_plen(g.prods_view(), s[k].prod as int);
        lemma_key_range(s[k].prod as int, s[k].dot as int, s[k].orig as int, pn, ml, n);
    }
    assert(es.no_duplicates()) by {
        assert forall|i: int, j: int| 0 <= i < j < es.len() implies es[i] != es[j] by {
            if es[i] == es[j] {
                let (a, c) = (s[i], s[j]);
                lemma_max_plen(g.prods_view(), a.prod as int);
                lemma_max_plen(g.prods_view(), c.prod as int);
                lemma_mixed_radix(
                    a.prod * (ml + 1) + a.dot,
                    c.prod * (ml + 1) + c.dot,
                    a.orig as int,
                    c.orig as int,
                    n + 2,
                );
                lemma_mixed_radix(a.prod as int, c.prod as int, a.dot as int, c.dot as int, ml + 1);
                assert(a == c);
            }
        }
    }
    es.unique_seq_to_set();
    assert(es.to_set().subset_of(set_int_range(0, b))) by {
        assert forall|x: int| es.to_set().contains(x) implies set_int_range(0, b).contains(x) by {
            let k = choose|k: int| 0 <= k < es.len() && es[k] == x;
            assert(0 <= es[k] < b);
        }
    }
    lemma_int_range(0, b);
    lemma_len_subset(es.to_set(), set_int_range(0, b));
}

/// Whether the column already holds the item.
fn item_in(v: &Vec<Item>, x: Item) -> (r: bool)
    ensures
        r == v@.contains(x),
{
    let n = v.len();
    for i in 0..n
        invariant
            n == v@.len(),
            forall|k: int| 0 <= k < i ==> v@[k] != x,
    {
        if v[i] == x {
            return true;
        }
    }
    false
}

/// Appends the item unless the column already holds it.
fn set_add(v: &mut Vec<Item>, x: Item)
    ensures
        old(v)@.contains(x) ==> final(v)@ == old(v)@,
        !old(v)@.contains(x) ==> final(v)@ == old(v)@.push(x),
        final(v)@.contains(x),
        forall|y: Item| old(v)@.contains(y) ==> final(v)@.contains(y),
        old(v)@.no_duplicates() ==> final(v)@.no_duplicates(),
        old(v)@.len() <= final(v)@.len(),
{
    if !item_in(v, x) {
        v.push(x);
    }
}


/// Monotonicity of `item_processed` in the recorded columns.
proof fn lemma_processed_mono(
    g: Parser,
    tokens: Seq<usize>,
    dv: Seq<Seq<Item>>,
    i: int,
    it: Item,
    ci1: Seq<Item>,
    ci2: Seq<Item>,
    cn1: Seq<Item>,
    cn2: Seq<Item>,
)
    requires
        item_processed(g, tokens, dv, i, it, ci1, cn1),
        forall|y: Item| ci1.contains(y) ==> ci2.contains(y),
        forall|y: Item| cn1.contains(y) ==> cn2.contains(y),
    ensures
        item_processed(g, tokens, dv, i, it, ci2, cn2),
{
}

/// `item_processed` reads earlier columns only, so extending the column list
/// preserves it.
proof fn lemma_processed_frame(
    g: Parser,
    tokens: Seq<usize>,
    dv1: Seq<Seq<Item>>,
    dv2: Seq<Seq<Item>>,
    i: int,
    it: Item,
    ci: Seq<Item>,
    cnext: Seq<Item>,
)
    requires
        item_processed(g, tokens, dv1, i, it, ci, cnext),
        0 <= it.orig < i ==> it.orig < dv1.len() && dv2[it.orig as int] == dv1[it.orig as int],
    ensures
        item_processed(g, tokens, dv2, i, it, ci, cnext),
{
}

/// The processed columns so far: each well formed and each of its items with
/// its consequences recorded; the column after the last one is `cur`.
pub open spec fn dcols_ok(g: Parser, tokens: Seq<usize>, dv: Seq<Seq<Item>>, cur: Seq<Item>) -> bool {
    &&& forall|q: int| 0 <= q < dv.len() ==> col_inv(g, q, #[trigger] dv[q])
    &&& forall|q: int, m: int|
        0 <= q < dv.len() && 0 <= m < dv[q].len() ==> item_processed(
            g,
            tokens,
            dv,
            q,
            #[trigger] dv[q][m],
            dv[q],
            (if q + 1 < dv.len() {
                dv[q + 1]
            } else {
                cur
            }),
        )
}

proof fn lemma_dcols_mono(
    g: Parser,
    tokens: Seq<usize>,
    dv: Seq<Seq<Item>>,
    cur1: Seq<Item>,
    cur2: Seq<Item>,
)
    requires
        dcols_ok(g, tokens, dv, cur1),
        forall|y: Item| cur1.contains(y) ==> cur2.contains(y),
    ensures
        dcols_ok(g, tokens, dv, cur2),
{
    assert forall|q: int, m: int| 0 <= q < dv.len() && 0 <= m < dv[q].len() implies item_processed(
        g,
        tokens,
        dv,
        q,
        #[trigger] dv[q][m],
        dv[q],
        (if q + 1 < dv.len() {
            dv[q + 1]
        } else {
            cur2
        }),
    ) by {
        lemma_processed_mono(
            g,
            tokens,
            dv,
            q,
            dv[q][m],
            dv[q],
            dv[q],
            (if q + 1 < dv.len() {
                dv[q + 1]
            } else {
                cur1
            }),
            (if q + 1 < dv.len() {
                dv[q + 1]
            } else {
                cur2
            }),
        );
    }
}

impl Parser {
    /// Builds the Earley chart for `tokens` from `start`: column 0 holds one
    /// item per start production, and each column is processed as a worklist,
    /// predicting non-terminals, skipping nullable ones, scanning the input
    /// token, and completing finished items against their origin column.
    #[verifier::rlimit(100)]
    #[verifier::spinoff_prover]
    pub(crate) fn build_chart(&self, tokens: &Vec<usize>, start: usize) -> (chart: Chart)
        requires
            self.wf(),
            tokens@.len() < usize::MAX,
        ensures
            chart_ok(*self, tokens@, start, chart_view(chart@)),
    {
        let n = tokens.len();
        let np = self.prods.len();
        let k = self.nullable.len();
        let ghost ml = max_plen(self.prods_view()) as int;
        let ghost bnd = (np as int) * ((ml + 1) * (n + 2));

        // seed column 0
        let mut cur: Vec<Item> = Vec::new();
        for p in 0..np
            invariant
                self.wf(),
                np == self.prods@.len(),
                col_inv(*self, 0, cur@),
                forall|m: int|
                    0 <= m < cur@.len() ==> {
                        &&& (#[trigger] cur@[m]).dot == 1
                        &&& cur@[m].orig == 0
                        &&& cur@[m].prod < p
                        &&& prod_of(*self, cur@[m])[0] == start
                    },
                cur@ == seed_seq_upto(*self, start, p as int),
                forall|q: int|
                    0 <= q < p && (#[trigger] self.prods_view()[q])[0] == start ==> cur@.contains(
                        Item { prod: q as usize, dot: 1, orig: 0 },
                    ),
        {
            let pv = &self.prods[p];
            proof {
                assert(self.prods_view()[p as int] == sv_elems(*pv));
            }
            let ghost cur_b = cur@;
            if sv_get(pv, 0) == start {
                proof {
                    assert(!cur@.contains(Item { prod: p, dot: 1, orig: 0 }));
                }
                set_add(&mut cur, Item { prod: p, dot: 1, orig: 0 });
                proof {
                    assert(cur@ =~= seed_seq_upto(*self, start, p + 1)) by {
                        assert(cur@ =~= cur_b.push(Item { prod: p, dot: 1, orig: 0 }));
                        assert(seed_seq_upto(*self, start, p + 1) =~= seed_seq_upto(
                            *self,
                            start,
                            p as int,
                        ) + seq![Item { prod: p, dot: 1, orig: 0 }]);
                    }
                }
            } else {
                proof {
                    assert(cur@ =~= seed_seq_upto(*self, start, p + 1));
                }
            }
            proof {
                assert forall|m: int| 0 <= m < cur@.len() implies item_wf(
                    *self,
                    #[trigger] cur@[m],
                    0,
                ) by {}
            }
        }

        let mut done: Vec<Vec<Item>> = Vec::new();
        let mut nxt: Vec<Item> = Vec::new();
        proof {
            assert(seeded_first(*self, start, cur@)) by {
                assert(cur@ == seed_seq(*self, start));
                assert(cur@.take(seed_seq(*self, start).len() as int) =~= seed_seq(*self, start));
            }
            reveal(justified);
            reveal(chart_sound);
            let cv0 = chart_view(done@).push(cur@);
            assert(cv0 =~= seq![cur@]);
            assert forall|i: int, k: int|
                0 <= i < cv0.len() && 0 <= k < cv0[i].len() implies justified(
                *self,
                tokens@,
                start,
                cv0,
                i,
                #[trigger] cv0[i][k],
            ) by {
                assert(cv0[i][k] == cur@[k]);
            }
            assert(chart_sound(*self, tokens@, start, cv0));
        }
        for i in 0..(n + 1)
            invariant
                self.wf(),
                n == tokens@.len() < usize::MAX,
                np == self.prods@.len(),
                k == self.nt_count(),
                ml == max_plen(self.prods_view()),
                bnd == (np as int) * ((ml + 1) * (n + 2)),
                done@.len() == i,
                nxt@.len() == 0,
                col_inv(*self, i as int, cur@),
                dcols_ok(*self, tokens@, chart_view(done@), cur@),
                chart_sound(*self, tokens@, start, chart_view(done@).push(cur@)),
                (if i == 0 {
                    seeded_first(*self, start, cur@)
                } else {
                    seeded_first(*self, start, chart_view(done@)[0])
                }),
                forall|p: int|
                    0 <= p < np && (#[trigger] self.prods_view()[p])[0] == start ==> (if i == 0 {
                        cur@
                    } else {
                        chart_view(done@)[0]
                    }).contains(Item { prod: p as usize, dot: 1, orig: 0 }),
        {
            let ghost dv = chart_view(done@);
            let mut j: usize = 0;
            proof {
                lemma_items_bound(*self, cur@, i as int, n as int);
                lemma_sound_extend_empty(*self, tokens@, start, dv.push(cur@));
                assert(dv.push(cur@).push(Seq::<Item>::empty()) =~= dv.push(cur@).push(nxt@));
            }
            while j < cur.len()
                invariant
                    self.wf(),
                    n == tokens@.len() < usize::MAX,
                    np == self.prods@.len(),
                    k == self.nt_count(),
                    ml == max_plen(self.prods_view()),
                    bnd == (np as int) * ((ml + 1) * (n + 2)),
                    0 <= i <= n,
                    done@.len() == i,
                    dv == chart_view(done@),
                    col_inv(*self, i as int, cur@),
                    col_inv(*self, i + 1, nxt@),
                    forall|m: int| 0 <= m < nxt@.len() ==> (#[trigger] nxt@[m]).orig <= i,
                    j <= cur@.len() <= bnd,
                    forall|m: int|
                        0 <= m < j ==> item_processed(
                            *self,
                            tokens@,
                            dv,
                            i as int,
                            #[trigger] cur@[m],
                            cur@,
                            nxt@,
                        ),
                    dcols_ok(*self, tokens@, dv, cur@),
                    chart_sound(*self, tokens@, start, dv.push(cur@).push(nxt@)),
                    (if i == 0 {
                        seeded_first(*self, start, cur@)
                    } else {
                        seeded_first(*self, start, dv[0])
                    }),
                    forall|p: int|
                        0 <= p < np && (#[trigger] self.prods_view()[p])[0] == start ==> (if i == 0 {
                            cur@
                        } else {
                            dv[0]
                        }).contains(Item { prod: p as usize, dot: 1, orig: 0 }),
                decreases bnd - j,
            {
                let it = cur[j];
                let ghost pr = prod_of(*self, it);
                let pv = &self.prods[it.prod];
                proof {
                    assert(pr == sv_elems(*pv));
                }
                let plen = sv_len(pv);
                if it.dot < plen {
                    let x = sv_get(pv, it.dot);
                    if x < k {
                        // predict every production for x, then skip x itself
                        // when it is nullable
                        for p in 0..np
                            invariant
                                self.wf(),
                                n == tokens@.len() < usize::MAX,
                                np == self.prods@.len(),
                                k == self.nt_count(),
                                0 <= i <= n,
                                done@.len() == i,
                                dv == chart_view(done@),
                                col_inv(*self, i as int, cur@),
                                col_inv(*self, i + 1, nxt@),
                                forall|m: int| 0 <= m < nxt@.len() ==> (#[trigger] nxt@[m]).orig <= i,
                                j < cur@.len(),
                                it == cur@[j as int],
                                x == next_sym(*self, it) < k,
                                it.dot < prod_of(*self, it).len(),
                                forall|m: int|
                                    0 <= m < j ==> item_processed(
                                        *self,
                                        tokens@,
                                        dv,
                                        i as int,
                                        #[trigger] cur@[m],
                                        cur@,
                                        nxt@,
                                    ),
                                dcols_ok(*self, tokens@, dv, cur@),
                                chart_sound(*self, tokens@, start, dv.push(cur@).push(nxt@)),
                                (if i == 0 {
                                    seeded_first(*self, start, cur@)
                                } else {
                                    seeded_first(*self, start, dv[0])
                                }),
                                forall|q: int|
                                    0 <= q < np && (#[trigger] self.prods_view()[q])[0] == start ==> (
                                    if i == 0 {
                                        cur@
                                    } else {
                                        dv[0]
                                    }).contains(Item { prod: q as usize, dot: 1, orig: 0 }),
                                forall|q: int|
                                    0 <= q < p && (#[trigger] self.prods_view()[q])[0] == x
                                        ==> cur@.contains(
                                        Item { prod: q as usize, dot: 1, orig: i as usize },
                                    ),
                        {
                            let pq = &self.prods[p];
                            proof {
                                assert(self.prods_view()[p as int] == sv_elems(*pq));
                            }
                            if sv_get(pq, 0) == x {
                                let ghost cur0 = cur@;
                                proof {
                                    reveal(justified);
                                    let vc1 = dv.push(cur0).push(nxt@);
                                    assert(vc1[i as int] == cur0);
                                    assert(cur0.contains(it)) by {
                                        assert(cur0[j as int] == it);
                                    }
                                    assert(justified(
                                        *self,
                                        tokens@,
                                        start,
                                        vc1,
                                        i as int,
                                        Item { prod: p, dot: 1, orig: i },
                                    ));
                                }
                                set_add(&mut cur, Item { prod: p, dot: 1, orig: i });
                                proof {
                                    let vc1 = dv.push(cur0).push(nxt@);
                                    let vc2 = dv.push(cur@).push(nxt@);
                                    assert forall|q: int|
                                        0 <= q < vc1.len() && q != i implies #[trigger] vc2[q]
                                        == vc1[q] by {}
                                    lemma_sound_push(
                                        *self,
                                        tokens@,
                                        start,
                                        vc1,
                                        vc2,
                                        i as int,
                                        Item { prod: p, dot: 1, orig: i },
                                    );
                                    if i == 0 {
                                        lemma_seeded_first_grow(*self, start, cur0, cur@);
                                    }
                                    assert(item_wf(
                                        *self,
                                        Item { prod: p, dot: 1, orig: i },
                                        i as int,
                                    ));
                                    lemma_dcols_mono(*self, tokens@, dv, cur0, cur@);
                                    assert forall|m: int| 0 <= m < j implies item_processed(
                                        *self,
                                        tokens@,
                                        dv,
                                        i as int,
                                        #[trigger] cur@[m],
                                        cur@,
                                        nxt@,
                                    ) by {
                                        assert(cur@[m] == cur0[m]);
                                        lemma_processed_mono(
                                            *self,
                                            tokens@,
                                            dv,
                                            i as int,
                                            cur0[m],
                                            cur0,
                                            cur@,
                                            nxt@,
                                            nxt@,
                                        );
                                    }
                                }
                            }
                        }
                        if self.nullable[x] {
                            let ghost cur0 = cur@;
                            let adv = Item { prod: it.prod, dot: it.dot + 1, orig: it.orig };
                            proof {
                                assert(item_wf(*self, adv, i as int));
                                // an advanced empty-span item is still backed
                                // by nullable symbols only
                                if adv.orig == i {
                                    assert(espn(*self, it, i as int));
                                    assert forall|d: int| 1 <= d < adv.dot implies {
                                        &&& (#[trigger] prod_of(*self, adv)[d]) < self.nt_count()
                                        &&& self.nullable@[prod_of(*self, adv)[d] as int]
                                    } by {
                                        if d < it.dot {
                                            assert(prod_of(*self, it)[d] < self.nt_count()
                                                && self.nullable@[prod_of(*self, it)[d] as int]);
                                        }
                                    }
                                }
                                assert(espn(*self, adv, i as int));
                            }
                            proof {
                                reveal(justified);
                                let vc1 = dv.push(cur0).push(nxt@);
                                assert(vc1[i as int] == cur0);
                                assert(cur0.contains(it)) by {
                                    assert(cur0[j as int] == it);
                                }
                                assert(adv.dot >= 2);
                                assert(Item { prod: adv.prod, dot: (adv.dot - 1) as usize, orig: adv.orig }
                                    == it);
                                assert(prod_of(*self, adv)[adv.dot - 1] == x);
                                assert(justified(*self, tokens@, start, vc1, i as int, adv));
                            }
                            set_add(&mut cur, adv);
                            proof {
                                let vc1 = dv.push(cur0).push(nxt@);
                                let vc2 = dv.push(cur@).push(nxt@);
                                assert forall|q: int|
                                    0 <= q < vc1.len() && q != i implies #[trigger] vc2[q]
                                    == vc1[q] by {}
                                lemma_sound_push(*self, tokens@, start, vc1, vc2, i as int, adv);
                                if i == 0 {
                                    lemma_seeded_first_grow(*self, start, cur0, cur@);
                                }
                                lemma_dcols_mono(*self, tokens@, dv, cur0, cur@);
                                assert forall|m: int| 0 <= m < j implies item_processed(
                                    *self,
                                    tokens@,
                                    dv,
                                    i as int,
                                    #[trigger] cur@[m],
                                    cur@,
                                    nxt@,
                                ) by {
                                    assert(cur@[m] == cur0[m]);
                                    lemma_processed_mono(
                                        *self,
                                        tokens@,
                                        dv,
                                        i as int,
                                        cur0[m],
                                        cur0,
                                        cur@,
                                        nxt@,
                                        nxt@,
                                    );
                                }
                            }
                        }
                        proof {
                            assert(item_processed(*self, tokens@, dv, i as int, it, cur@, nxt@));
                        }
                    } else {
                        if i < n && tokens[i] == x {
                            let ghost nxt0 = nxt@;
                            let adv = Item { prod: it.prod, dot: it.dot + 1, orig: it.orig };
                            proof {
                                assert(item_wf(*self, adv, i + 1));
                            }
                            proof {
                                reveal(justified);
                                let vc1 = dv.push(cur@).push(nxt0);
                                assert(vc1[i as int] == cur@);
                                assert(cur@.contains(it)) by {
                                    assert(cur@[j as int] == it);
                                }
                                assert(adv.dot >= 2);
                                assert(Item { prod: adv.prod, dot: (adv.dot - 1) as usize, orig: adv.orig }
                                    == it);
                                assert(prod_of(*self, adv)[adv.dot - 1] == x);
                                assert(vc1[i + 1] == nxt0);
                                assert(justified(*self, tokens@, start, vc1, i + 1, adv));
                            }
                            set_add(&mut nxt, adv);
                            proof {
                                let vc1 = dv.push(cur@).push(nxt0);
                                let vc2 = dv.push(cur@).push(nxt@);
                                assert forall|q: int|
                                    0 <= q < vc1.len() && q != i + 1 implies #[trigger] vc2[q]
                                    == vc1[q] by {}
                                lemma_sound_push(*self, tokens@, start, vc1, vc2, i + 1, adv);
                                assert forall|m: int| 0 <= m < j implies item_processed(
                                    *self,
                                    tokens@,
                                    dv,
                                    i as int,
                                    #[trigger] cur@[m],
                                    cur@,
                                    nxt@,
                                ) by {
                                    lemma_processed_mono(
                                        *self,
                                        tokens@,
                                        dv,
                                        i as int,
                                        cur@[m],
                                        cur@,
                                        cur@,
                                        nxt0,
                                        nxt@,
                                    );
                                }
                            }
                        }
                        proof {
                            assert(item_processed(*self, tokens@, dv, i as int, it, cur@, nxt@));
                        }
                    }
                } else {
                    // complete: advance every item of the origin column that
                    // expects this left-hand side
                    let lhs = sv_get(pv, 0);
                    let org = it.orig;
                    let m = if org == i {
                        cur.len()
                    } else {
                        done[org].len()
                    };
                    let ghost orig_col = if org == i {
                        cur@
                    } else {
                        dv[org as int]
                    };
                    proof {
                        if org < i {
                            assert(dv[org as int] == done@[org as int]@);
                        }
                    }
                    for idx in 0..m
                        invariant
                            self.wf(),
                            n == tokens@.len() < usize::MAX,
                            np == self.prods@.len(),
                            k == self.nt_count(),
                            0 <= i <= n,
                            done@.len() == i,
                            dv == chart_view(done@),
                            col_inv(*self, i as int, cur@),
                            col_inv(*self, i + 1, nxt@),
                            forall|q: int| 0 <= q < nxt@.len() ==> (#[trigger] nxt@[q]).orig <= i,
                            j < cur@.len(),
                            it == cur@[j as int],
                            item_complete(*self, it),
                            item_wf(*self, it, i as int),
                            org == it.orig <= i,
                            lhs == prod_of(*self, it)[0],
                            (org == i ==> m <= cur@.len() && (forall|q: int|
                                0 <= q < m ==> cur@[q] == orig_col[q])),
                            (org < i ==> orig_col == dv[org as int] && m == orig_col.len()),
                            m <= orig_col.len(),
                            forall|q: int|
                                0 <= q < orig_col.len() ==> item_wf(
                                    *self,
                                    #[trigger] orig_col[q],
                                    org as int,
                                ),
                            forall|q: int|
                                0 <= q < j ==> item_processed(
                                    *self,
                                    tokens@,
                                    dv,
                                    i as int,
                                    #[trigger] cur@[q],
                                    cur@,
                                    nxt@,
                                ),
                            dcols_ok(*self, tokens@, dv, cur@),
                            chart_sound(*self, tokens@, start, dv.push(cur@).push(nxt@)),
                            (if i == 0 {
                                seeded_first(*self, start, cur@)
                            } else {
                                seeded_first(*self, start, dv[0])
                            }),
                            forall|q: int|
                                0 <= q < np && (#[trigger] self.prods_view()[q])[0] == start ==> (
                                if i == 0 {
                                    cur@
                                } else {
                                    dv[0]
                                }).contains(Item { prod: q as usize, dot: 1, orig: 0 }),
                            forall|q: int|
                                0 <= q < idx && (#[trigger] orig_col[q]).dot < prod_of(
                                    *self,
                                    orig_col[q],
                                ).len() && next_sym(*self, orig_col[q]) == lhs ==> cur@.contains(
                                    advanced(orig_col[q]),
                                ),
                    {
                        let w = if org == i {
                            cur[idx]
                        } else {
                            done[org][idx]
                        };
                        proof {
                            assert(w == orig_col[idx as int]);
                        }
                        let wpv = &self.prods[w.prod];
                        proof {
                            assert(prod_of(*self, w) == sv_elems(*wpv));
                        }
                        let wlen = sv_len(wpv);
                        if w.dot < wlen && sv_get(wpv, w.dot) == lhs {
                            let ghost cur0 = cur@;
                            let adv = Item { prod: w.prod, dot: w.dot + 1, orig: w.orig };
                            proof {
                                assert(item_wf(*self, adv, i as int));
                                if adv.orig == i {
                                    // then the whole completed production and
                                    // the prefix of w span no input, so every
                                    // symbol involved is nullable
                                    assert(org == i && w.orig == i);
                                    assert(espn(*self, w, i as int));
                                    assert(espn(*self, it, i as int));
                                    assert forall|d: int|
                                        1 <= d < prod_of(*self, it).len() implies derives_empty(
                                        self.prods_view(),
                                        #[trigger] prod_of(*self, it)[d],
                                    ) by {
                                        assert(self.nullable@[prod_of(*self, it)[d] as int]);
                                    }
                                    lemma_lhs_derives_empty(self.prods_view(), it.prod as int);
                                    assert(lhs < self.nt_count());
                                    assert(self.nullable@[lhs as int]);
                                    assert forall|d: int| 1 <= d < adv.dot implies {
                                        &&& (#[trigger] prod_of(*self, adv)[d]) < self.nt_count()
                                        &&& self.nullable@[prod_of(*self, adv)[d] as int]
                                    } by {
                                        if d < w.dot {
                                            assert(prod_of(*self, w)[d] < self.nt_count()
                                                && self.nullable@[prod_of(*self, w)[d] as int]);
                                        }
                                    }
                                }
                                assert(espn(*self, adv, i as int));
                            }
                            proof {
                                reveal(justified);
                                let vc1 = dv.push(cur0).push(nxt@);
                                assert(vc1[i as int] == cur0);
                                assert(cur0.contains(it)) by {
                                    assert(cur0[j as int] == it);
                                }
                                assert(cur0.contains(w) || dv[org as int].contains(w)) by {
                                    if org == i {
                                        assert(cur0[idx as int] == w);
                                    } else {
                                        assert(dv[org as int][idx as int] == w);
                                    }
                                }
                                assert(vc1[org as int].contains(w));
                                assert(adv.dot >= 2);
                                assert(Item { prod: adv.prod, dot: (adv.dot - 1) as usize, orig: adv.orig }
                                    == w);
                                assert(prod_of(*self, adv)[adv.dot - 1] == lhs);
                                assert(justified(*self, tokens@, start, vc1, i as int, adv));
                            }
                            set_add(&mut cur, adv);
                            proof {
                                let vc1 = dv.push(cur0).push(nxt@);
                                let vc2 = dv.push(cur@).push(nxt@);
                                assert forall|q: int|
                                    0 <= q < vc1.len() && q != i implies #[trigger] vc2[q]
                                    == vc1[q] by {}
                                lemma_sound_push(*self, tokens@, start, vc1, vc2, i as int, adv);
                                if i == 0 {
                                    lemma_seeded_first_grow(*self, start, cur0, cur@);
                                }
                                lemma_dcols_mono(*self, tokens@, dv, cur0, cur@);
                                assert forall|q: int| 0 <= q < j implies item_processed(
                                    *self,
                                    tokens@,
                                    dv,
                                    i as int,
                                    #[trigger] cur@[q],
                                    cur@,
                                    nxt@,
                                ) by {
                                    assert(cur@[q] == cur0[q]);
                                    lemma_processed_mono(
                                        *self,
                                        tokens@,
                                        dv,
                                        i as int,
                                        cur0[q],
                                        cur0,
                                        cur@,
                                        nxt@,
                                        nxt@,
                                    );
                                }
                                assert forall|q: int|
                                    0 <= q < m && (#[trigger] orig_col[q]).dot < prod_of(
                                        *self,
                                        orig_col[q],
                                    ).len() && q < idx + 1 && next_sym(*self, orig_col[q]) == lhs
                                    implies cur@.contains(advanced(orig_col[q])) by {}
                            }
                        }
                    }
                    proof {
                        if org < i {
                            assert(item_processed(*self, tokens@, dv, i as int, it, cur@, nxt@))
                                by {
                                assert forall|w: Item|
                                    #[trigger] dv[org as int].contains(w) && w.dot < prod_of(
                                        *self,
                                        w,
                                    ).len() && next_sym(*self, w) == lhs implies cur@.contains(
                                    advanced(w),
                                ) by {
                                    let q = choose|q: int|
                                        0 <= q < orig_col.len() && orig_col[q] == w;
                                }
                            }
                        } else {
                            assert(item_processed(*self, tokens@, dv, i as int, it, cur@, nxt@));
                        }
                    }
                }
                j += 1;
                proof {
                    lemma_items_bound(*self, cur@, i as int, n as int);
                }
            }

            // freeze the column and move on
            let ghost curv = cur@;
            let ghost nxtv = nxt@;
            done.push(cur);
            cur = nxt;
            nxt = Vec::new();
            proof {
                let dv2 = chart_view(done@);
                assert(dv2 =~= dv.push(curv));
                assert(dv2.push(cur@) =~= dv.push(curv).push(nxtv));
                assert(chart_sound(*self, tokens@, start, dv2.push(cur@)));
                assert(seeded_first(*self, start, dv2[0])) by {
                    if i == 0 {
                        assert(dv2[0] == curv);
                    } else {
                        assert(dv2[0] == dv[0]);
                    }
                }
                assert forall|q: int| 0 <= q < dv2.len() implies col_inv(
                    *self,
                    q,
                    #[trigger] dv2[q],
                ) by {
                    if q < dv.len() {
                        assert(dv2[q] == dv[q]);
                    }
                }
                assert forall|q: int, m: int|
                    0 <= q < dv2.len() && 0 <= m < dv2[q].len() implies item_processed(
                    *self,
                    tokens@,
                    dv2,
                    q,
                    #[trigger] dv2[q][m],
                    dv2[q],
                    (if q + 1 < dv2.len() {
                        dv2[q + 1]
                    } else {
                        cur@
                    }),
                ) by {
                    if q < dv.len() {
                        assert(dv2[q] == dv[q]);
                        assert(item_processed(
                            *self,
                            tokens@,
                            dv,
                            q,
                            dv[q][m],
                            dv[q],
                            (if q + 1 < dv.len() {
                                dv[q + 1]
                            } else {
                                curv
                            }),
                        ));
                        lemma_processed_frame(
                            *self,
                            tokens@,
                            dv,
                            dv2,
                            q,
                            dv[q][m],
                            dv[q],
                            (if q + 1 < dv.len() {
                                dv[q + 1]
                            } else {
                                curv
                            }),
                        );
                    } else {
                        assert(dv2[q] == curv);
                        assert(item_processed(*self, tokens@, dv, q, curv[m], curv, nxtv));
                        lemma_processed_frame(*self, tokens@, dv, dv2, q, curv[m], curv, nxtv);
                    }
                }
            }
        }

        let chart = done;
        proof {
            let cv = chart_view(chart@);
            assert(cv.len() == n + 1);
            lemma_sound_drop_last(*self, tokens@, start, chart_view(chart@).push(cur@));
            assert(chart_view(chart@).push(cur@).drop_last() =~= cv);
            assert(chart_sound(*self, tokens@, start, cv));
            assert forall|q: int, m: int|
                0 <= q < cv.len() && 0 <= m < cv[q].len() implies item_processed(
                *self,
                tokens@,
                cv,
                q,
                #[trigger] cv[q][m],
                cv[q],
                (if q + 1 < cv.len() {
                    cv[q + 1]
                } else {
                    Seq::empty()
                }),
            ) by {
                let after = if q + 1 < cv.len() {
                    cv[q + 1]
                } else {
                    cur@
                };
                assert(item_processed(*self, tokens@, cv, q, cv[q][m], cv[q], after));
                if q + 1 >= cv.len() {
                    // the final column scans nothing, so what follows it is
                    // irrelevant
                    assert(q == n);
                    assert(!(q < tokens@.len()));
                    assert(item_processed(*self, tokens@, cv, q, cv[q][m], cv[q], Seq::empty()));
                }
            }
            // a completion whose origin is its own column is covered by the
            // nullable skip: the completed production spans no input, so its
            // left-hand side is nullable
            assert forall|q: int, m: int, w: Item|
                {
                    &&& 0 <= q < cv.len()
                    &&& 0 <= m < cv[q].len()
                    &&& item_complete(*self, #[trigger] cv[q][m])
                    &&& cv[q][m].orig == q
                    &&& #[trigger] cv[q].contains(w)
                    &&& w.dot < prod_of(*self, w).len()
                    &&& next_sym(*self, w) == prod_of(*self, cv[q][m])[0]
                } implies cv[q].contains(advanced(w)) by {
                let c = cv[q][m];
                assert(espn(*self, c, q));
                assert forall|d: int| 1 <= d < prod_of(*self, c).len() implies derives_empty(
                    self.prods_view(),
                    #[trigger] prod_of(*self, c)[d],
                ) by {
                    assert(self.nullable@[prod_of(*self, c)[d] as int]);
                }
                lemma_lhs_derives_empty(self.prods_view(), c.prod as int);
                let lhs = prod_of(*self, c)[0];
                assert(self.nullable@[lhs as int]);
                let mw = choose|mw: int| 0 <= mw < cv[q].len() && cv[q][mw] == w;
                assert(item_processed(
                    *self,
                    tokens@,
                    cv,
                    q,
                    cv[q][mw],
                    cv[q],
                    (if q + 1 < cv.len() {
                        cv[q + 1]
                    } else {
                        Seq::empty()
                    }),
                ));
            }
        }
        chart
    }
}


/// The completed-item index is sound and complete for the chart: every entry
/// is a completed chart item re-tagged with its completion column and filed
/// under its origin, and every completed chart item is filed.
pub open spec fn completed_ok(g: Parser, cv: Seq<Seq<Item>>, comp: Seq<Seq<Item>>) -> bool {
    &&& comp.len() == cv.len()
    &&& forall|c: int, e: int|
        0 <= c < comp.len() && 0 <= e < comp[c].len() ==> {
            let it = #[trigger] comp[c][e];
            &&& it.prod < g.prods_view().len()
            &&& it.dot == prod_of(g, it).len()
            &&& c <= it.orig < cv.len()
            &&& cv[it.orig as int].contains(Item { prod: it.prod, dot: it.dot, orig: c as usize })
        }
    &&& forall|i: int, m: int|
        0 <= i < cv.len() && 0 <= m < cv[i].len() && item_complete(g, #[trigger] cv[i][m])
            ==> comp[cv[i][m].orig as int].contains(
            Item { prod: cv[i][m].prod, dot: cv[i][m].dot, orig: i as usize },
        )
}

impl Parser {
    /// Derives the completed-item index from the chart: every item with its
    /// dot at the end, re-tagged with the column at which it completed, filed
    /// under its origin column.
    pub(crate) fn completed_index(&self, chart: &Chart) -> (comp: Vec<Vec<Item>>)
        requires
            self.wf(),
            forall|i: int|
                0 <= i < chart@.len() ==> col_inv(*self, i, #[trigger] chart_view(chart@)[i]),
        ensures
            completed_ok(*self, chart_view(chart@), chart_view(comp@)),
    {
        let ghost cv = chart_view(chart@);
        let ncols = chart.len();
        let mut comp: Vec<Vec<Item>> = Vec::new();
        while comp.len() < ncols
            invariant
                comp@.len() <= ncols,
                forall|c: int| 0 <= c < comp@.len() ==> (#[trigger] comp@[c])@.len() == 0,
            decreases ncols - comp@.len(),
        {
            comp.push(Vec::new());
        }
        for i in 0..ncols
            invariant
                self.wf(),
                cv == chart_view(chart@),
                ncols == chart@.len(),
                comp@.len() == ncols,
                forall|q: int|
                    0 <= q < ncols ==> col_inv(*self, q, #[trigger] cv[q]),
                forall|c: int, e: int|
                    0 <= c < ncols && 0 <= e < chart_view(comp@)[c].len() ==> {
                        let it = #[trigger] chart_view(comp@)[c][e];
                        &&& it.prod < self.prods_view().len()
                        &&& it.dot == prod_of(*self, it).len()
                        &&& c <= it.orig < ncols
                        &&& cv[it.orig as int].contains(
                            Item { prod: it.prod, dot: it.dot, orig: c as usize },
                        )
                    },
                forall|q: int, m: int|
                    0 <= q < i && 0 <= m < cv[q].len() && item_complete(*self, #[trigger] cv[q][m])
                        ==> chart_view(comp@)[cv[q][m].orig as int].contains(
                        Item { prod: cv[q][m].prod, dot: cv[q][m].dot, orig: q as usize },
                    ),
        {
            let col = &chart[i];
            let nitems = col.len();
            for m in 0..nitems
                invariant
                    self.wf(),
                    cv == chart_view(chart@),
                    ncols == chart@.len(),
                    comp@.len() == ncols,
                    0 <= i < ncols,
                    col == &chart@[i as int],
                    nitems == cv[i as int].len(),
                    forall|q: int|
                        0 <= q < ncols ==> col_inv(*self, q, #[trigger] cv[q]),
                    forall|c: int, e: int|
                        0 <= c < ncols && 0 <= e < chart_view(comp@)[c].len() ==> {
                            let it = #[trigger] chart_view(comp@)[c][e];
                            &&& it.prod < self.prods_view().len()
                            &&& it.dot == prod_of(*self, it).len()
                            &&& c <= it.orig < ncols
                            &&& cv[it.orig as int].contains(
                                Item { prod: it.prod, dot: it.dot, orig: c as usize },
                            )
                        },
                    forall|q: int, mm: int|
                        0 <= q < i && 0 <= mm < cv[q].len() && item_complete(
                            *self,
                            #[trigger] cv[q][mm],
                        ) ==> chart_view(comp@)[cv[q][mm].orig as int].contains(
                            Item { prod: cv[q][mm].prod, dot: cv[q][mm].dot, orig: q as usize },
                        ),
                    forall|mm: int|
                        0 <= mm < m && item_complete(*self, #[trigger] cv[i as int][mm])
                            ==> chart_view(comp@)[cv[i as int][mm].orig as int].contains(
                            Item {
                                prod: cv[i as int][mm].prod,
                                dot: cv[i as int][mm].dot,
                                orig: i as usize,
                            },
                        ),
            {
                let it = col[m];
                let pv = &self.prods[it.prod];
                proof {
                    assert(item_wf(*self, it, i as int));
                    assert(prod_of(*self, it) == sv_elems(*pv));
                }
                let plen = sv_len(pv);
                if it.dot == plen {
                    let ghost comp0 = comp@;
                    let entry = Item { prod: it.prod, dot: it.dot, orig: i };
                    let cc = &mut comp[it.orig];
                    cc.push(entry);
                    proof {
                        let cw = chart_view(comp@);
                        let cw0 = chart_view(comp0);
                        assert(cw[it.orig as int] =~= cw0[it.orig as int].push(entry));
                        assert forall|c: int|
                            0 <= c < ncols && c != it.orig implies #[trigger] cw[c] == cw0[c] by {
                            assert(comp@[c] == comp0[c]);
                        }
                        assert(cv[i as int].contains(it)) by {
                            assert(cv[i as int][m as int] == it);
                        }
                    }
                }
            }
        }
        comp
    }
}

} // verus!
