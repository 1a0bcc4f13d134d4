//! The grammar: interned token identifiers, the production table, and the
//! nullable-symbol set, built once from rule text and immutable afterwards.
//!
//! Symbol identifiers are dense: identifiers below the non-terminal count are
//! non-terminals (every symbol that appears as a left-hand side), the rest are
//! terminals. Productions are identified by their index in the table; two
//! textually identical rules on different lines stay distinct entries.

use vstd::prelude::*;
use vstd::string::StringSliceAdditionalSpecFns;
use crate::svec::{SymVec, sv_elems, sv_get, sv_len, sv_new, sv_push};
use crate::errors::ParseRulesError;

verus! {

/// The production table as plain sequences: element 0 of each production is
/// its left-hand side, the remaining elements its right-hand side.
pub open spec fn prods_of(prods: Seq<SymVec>) -> Seq<Seq<usize>> {
    prods.map(|i: int, p: SymVec| sv_elems(p))
}

/// Every production has a left-hand side below `k` and all symbols below `t`.
pub open spec fn grammar_wf(prods: Seq<Seq<usize>>, k: nat, t: nat) -> bool {
    &&& k <= t
    &&& forall|p: int|
        0 <= p < prods.len() ==> {
            &&& (#[trigger] prods[p]).len() >= 1
            &&& prods[p][0] < k
            &&& forall|j: int| 0 <= j < prods[p].len() ==> (#[trigger] prods[p][j]) < t
        }
}

/// Symbol `a` derives the empty token sequence within `fuel` nested
/// production expansions.
pub open spec fn null_within(prods: Seq<Seq<usize>>, a: usize, fuel: nat) -> bool
    decreases fuel,
{
    fuel > 0 && exists|p: int|
        {
            &&& 0 <= p < prods.len()
            &&& (#[trigger] prods[p]).len() >= 1
            &&& prods[p][0] == a
            &&& forall|j: int|
                1 <= j < prods[p].len() ==> null_within(
                    prods,
                    #[trigger] prods[p][j],
                    (fuel - 1) as nat,
                )
        }
}

/// Symbol `a` can derive the empty token sequence in zero or more steps.
pub open spec fn derives_empty(prods: Seq<Seq<usize>>, a: usize) -> bool {
    exists|fuel: nat| null_within(prods, a, fuel)
}

/// No two entries of the token table hold the same text.
pub open spec fn distinct_seqs(names: Seq<Seq<u8>>) -> bool {
    forall|i: int, j: int| 0 <= i < j < names.len() ==> names[i] != names[j]
}

/// A context-free grammar: production table, token table, nullable set.
pub struct Parser {
    /// Productions; element 0 of each is the left-hand side.
    pub prods: Vec<SymVec>,
    /// Token text by identifier; identifiers below `nullable.len()` are
    /// non-terminals, the rest terminals.
    pub names: Vec<Vec<u8>>,
    /// For each non-terminal, whether it derives the empty token sequence.
    pub nullable: Vec<bool>,
}

impl Parser {
    /// The production table as plain sequences.
    pub open spec fn prods_view(&self) -> Seq<Seq<usize>> {
        prods_of(self.prods@)
    }

    /// Number of non-terminal symbols.
    pub open spec fn nt_count(&self) -> nat {
        self.nullable@.len()
    }

    /// Total number of interned symbols.
    pub open spec fn token_count(&self) -> nat {
        self.names@.len()
    }

    /// Token text by identifier.
    pub open spec fn names_view(&self) -> Seq<Seq<u8>> {
        self.names.deep_view()
    }

    /// The grammar is well formed: productions index real symbols, the token
    /// table has no duplicates, and the nullable set is exactly the set of
    /// non-terminals that derive the empty token sequence.
    pub open spec fn wf(&self) -> bool {
        &&& grammar_wf(self.prods_view(), self.nt_count(), self.token_count())
        &&& forall|a: usize|
            a < self.nt_count() ==> self.nullable@[a as int] == derives_empty(
                self.prods_view(),
                a,
            )
        &&& distinct_seqs(self.names_view())
    }

    /// The production table.
    pub fn prods(&self) -> (r: &Vec<SymVec>)
        ensures
            r@ == self.prods@,
    {
        &self.prods
    }

    /// The token table: token text by identifier.
    pub fn tokens(&self) -> (r: &Vec<Vec<u8>>)
        ensures
            r@ == self.names@,
    {
        &self.names
    }

    /// The nullable set, indexed by non-terminal identifier.
    pub fn nullable(&self) -> (r: &Vec<bool>)
        ensures
            r@ == self.nullable@,
    {
        &self.nullable
    }

    /// The identifier interned for token text `t`, if any.
    pub fn token_id(&self, t: &str) -> (r: Option<usize>)
        ensures
            match r {
                Some(id) => id < self.token_count() && self.names_view()[id as int]
                    == t.spec_bytes(),
                None => forall|i: int|
                    0 <= i < self.names_view().len() ==> self.names_view()[i] != t.spec_bytes(),
            },
    {
        let tb: &[u8] = t.as_bytes();
        let n = self.names.len();
        for i in 0..n
            invariant
                n == self.names@.len(),
                tb@ == t.spec_bytes(),
                forall|k: int| 0 <= k < i ==> self.names_view()[k] != t.spec_bytes(),
        {
            assert(self.names_view()[i as int] == self.names@[i as int]@);
            if bytes_eq(self.names[i].as_slice(), tb) {
                return Some(i);
            }
        }
        None
    }

    /// The identifier of terminal `t`, if `t` is interned as a terminal.
    pub fn terminal_id(&self, t: &str) -> (r: Option<usize>)
        requires
            distinct_seqs(self.names_view()),
        ensures
            match r {
                Some(id) => self.nt_count() <= id < self.token_count() && self.names_view()[id as int]
                    == t.spec_bytes(),
                None => forall|i: int|
                    self.nt_count() <= i < self.token_count() ==> self.names_view()[i]
                        != t.spec_bytes(),
            },
    {
        match self.token_id(t) {
            Some(id) => if id >= self.nullable.len() {
                Some(id)
            } else {
                None
            },
            None => None,
        }
    }

    /// The identifier of non-terminal `t`, if `t` is interned as a
    /// non-terminal.
    pub fn non_terminal_id(&self, t: &str) -> (r: Option<usize>)
        requires
            distinct_seqs(self.names_view()),
            self.nt_count() <= self.token_count(),
        ensures
            match r {
                Some(id) => id < self.nt_count() && self.names_view()[id as int] == t.spec_bytes(),
                None => forall|i: int|
                    0 <= i < self.nt_count() ==> self.names_view()[i] != t.spec_bytes(),
            },
    {
        match self.token_id(t) {
            Some(id) => if id < self.nullable.len() {
                Some(id)
            } else {
                proof {
                    assert forall|i: int| 0 <= i < self.nt_count() implies self.names_view()[i]
                        != t.spec_bytes() by {
                        assert(self.names_view()[i] != self.names_view()[id as int]);
                    }
                }
                None
            },
            None => None,
        }
    }

    /// A fresh copy of the token table: token text by identifier.
    pub fn id2token(&self) -> (r: Vec<Vec<u8>>)
        ensures
            r.deep_view() == self.names_view(),
    {
        let mut out: Vec<Vec<u8>> = Vec::new();
        let n = self.names.len();
        for i in 0..n
            invariant
                n == self.names@.len(),
                out@.len() == i,
                forall|k: int| 0 <= k < i ==> out@[k]@ == self.names@[k]@,
        {
            out.push(vstd::slice::slice_to_vec(self.names[i].as_slice()));
        }
        proof {
            assert(out.deep_view() =~= self.names_view());
        }
        out
    }
}

/// Symbol `s` is a non-terminal marked in `marks`.
pub open spec fn rhs_marked(marks: Seq<bool>, s: usize) -> bool {
    s < marks.len() && marks[s as int]
}

/// Every production whose right-hand side consists of marked non-terminals
/// has a marked left-hand side.
pub open spec fn marks_closed(prods: Seq<Seq<usize>>, marks: Seq<bool>) -> bool {
    forall|p: int|
        0 <= p < prods.len() ==> ((forall|j: int|
            1 <= j < (#[trigger] prods[p]).len() ==> rhs_marked(marks, prods[p][j]))
            ==> rhs_marked(marks, prods[p][0]))
}

/// How many entries of `s` are false.
pub open spec fn count_false(s: Seq<bool>) -> nat
    decreases s.len(),
{
    if s.len() == 0 {
        0
    } else {
        count_false(s.drop_last()) + if s.last() {
            0nat
        } else {
            1nat
        }
    }
}

proof fn lemma_count_false_update(s: Seq<bool>, i: int)
    requires
        0 <= i < s.len(),
        !s[i],
    ensures
        count_false(s.update(i, true)) < count_false(s),
    decreases s.len(),
{
    if i == s.len() - 1 {
        assert(s.update(i, true).drop_last() =~= s.drop_last());
    } else {
        assert(s.update(i, true).drop_last() =~= s.drop_last().update(i, true));
        lemma_count_false_update(s.drop_last(), i);
    }
}

/// A derivation of the empty sequence within `f1` expansions is also one
/// within any larger bound.
proof fn lemma_null_monotone(prods: Seq<Seq<usize>>, a: usize, f1: nat, f2: nat)
    requires
        null_within(prods, a, f1),
        f1 <= f2,
    ensures
        null_within(prods, a, f2),
    decreases f1,
{
    let p = choose|p: int|
        {
            &&& 0 <= p < prods.len()
            &&& (#[trigger] prods[p]).len() >= 1
            &&& prods[p][0] == a
            &&& forall|j: int|
                1 <= j < prods[p].len() ==> null_within(
                    prods,
                    #[trigger] prods[p][j],
                    (f1 - 1) as nat,
                )
        };
    assert forall|j: int| 1 <= j < prods[p].len() implies null_within(
        prods,
        #[trigger] prods[p][j],
        (f2 - 1) as nat,
    ) by {
        lemma_null_monotone(prods, prods[p][j], (f1 - 1) as nat, (f2 - 1) as nat);
    }
}

/// A finite list of symbols that each derive the empty sequence share one
/// fuel bound.
proof fn lemma_common_fuel(prods: Seq<Seq<usize>>, syms: Seq<usize>) -> (f: nat)
    requires
        forall|j: int| 0 <= j < syms.len() ==> derives_empty(prods, #[trigger] syms[j]),
    ensures
        forall|j: int| 0 <= j < syms.len() ==> null_within(prods, #[trigger] syms[j], f),
    decreases syms.len(),
{
    if syms.len() == 0 {
        0
    } else {
        assert forall|j: int| 0 <= j < syms.drop_last().len() implies derives_empty(
            prods,
            #[trigger] syms.drop_last()[j],
        ) by {
            assert(syms.drop_last()[j] == syms[j]);
        }
        let f1 = lemma_common_fuel(prods, syms.drop_last());
        let f2 = choose|f: nat| #[trigger] null_within(prods, syms.last(), f);
        let f = if f1 >= f2 {
            f1
        } else {
            f2
        };
        assert forall|j: int| 0 <= j < syms.len() implies null_within(
            prods,
            #[trigger] syms[j],
            f,
        ) by {
            if j < syms.len() - 1 {
                assert(syms.drop_last()[j] == syms[j]);
                lemma_null_monotone(prods, syms[j], f1, f);
            } else {
                assert(syms[j] == syms.last());
                lemma_null_monotone(prods, syms[j], f2, f);
            }
        }
        f
    }
}

/// If every right-hand-side symbol of production `p` derives the empty
/// sequence, so does its left-hand side.
pub proof fn lemma_lhs_derives_empty(prods: Seq<Seq<usize>>, p: int)
    requires
        0 <= p < prods.len(),
        prods[p].len() >= 1,
        forall|j: int| 1 <= j < prods[p].len() ==> derives_empty(prods, #[trigger] prods[p][j]),
    ensures
        derives_empty(prods, prods[p][0]),
{
    let rhs = prods[p].subrange(1, prods[p].len() as int);
    assert forall|j: int| 0 <= j < rhs.len() implies derives_empty(prods, #[trigger] rhs[j]) by {
        assert(rhs[j] == prods[p][j + 1]);
    }
    let f = lemma_common_fuel(prods, rhs);
    assert forall|j: int| 1 <= j < prods[p].len() implies null_within(
        prods,
        #[trigger] prods[p][j],
        f,
    ) by {
        assert(rhs[j - 1] == prods[p][j]);
    }
    assert(((f + 1) - 1) as nat == f);
    assert(null_within(prods, prods[p][0], f + 1));
}

/// Marks that are closed under the production rule cover every symbol that
/// derives the empty sequence.
proof fn lemma_closed_covers(prods: Seq<Seq<usize>>, marks: Seq<bool>, a: usize, fuel: nat)
    requires
        marks_closed(prods, marks),
        null_within(prods, a, fuel),
    ensures
        rhs_marked(marks, a),
    decreases fuel,
{
    let p = choose|p: int|
        {
            &&& 0 <= p < prods.len()
            &&& (#[trigger] prods[p]).len() >= 1
            &&& prods[p][0] == a
            &&& forall|j: int|
                1 <= j < prods[p].len() ==> null_within(
                    prods,
                    #[trigger] prods[p][j],
                    (fuel - 1) as nat,
                )
        };
    assert forall|j: int| 1 <= j < prods[p].len() implies rhs_marked(
        marks,
        #[trigger] prods[p][j],
    ) by {
        lemma_closed_covers(prods, marks, prods[p][j], (fuel - 1) as nat);
    }
    assert(rhs_marked(marks, prods[p][0]));
}

/// Computes the nullable set of the grammar by a fixpoint pass over the
/// productions: a symbol is marked when some production for it has a
/// right-hand side of marked symbols only, until a full pass changes nothing.
fn compute_nullable(prods: &Vec<SymVec>, k: usize, t: usize) -> (r: Vec<bool>)
    requires
        grammar_wf(prods_of(prods@), k as nat, t as nat),
    ensures
        r@.len() == k,
        forall|a: usize| a < k ==> r@[a as int] == derives_empty(prods_of(prods@), a),
{
    let ghost gp = prods_of(prods@);
    let mut marks: Vec<bool> = Vec::new();
    while marks.len() < k
        invariant
            marks@.len() <= k,
            forall|i: int| 0 <= i < marks@.len() ==> !marks@[i],
        decreases k - marks@.len(),
    {
        marks.push(false);
    }
    loop
        invariant
            gp == prods_of(prods@),
            grammar_wf(gp, k as nat, t as nat),
            marks@.len() == k,
            forall|a: usize| a < k && marks@[a as int] ==> derives_empty(gp, a),
        ensures
            marks@.len() == k,
            forall|a: usize| a < k && marks@[a as int] ==> derives_empty(gp, a),
            marks_closed(gp, marks@),
        decreases count_false(marks@),
    {
        let ghost snap = marks@;
        let mut changed = false;
        let np = prods.len();
        for p in 0..np
            invariant
                gp == prods_of(prods@),
                grammar_wf(gp, k as nat, t as nat),
                np == prods@.len(),
                marks@.len() == k,
                forall|a: usize| a < k && marks@[a as int] ==> derives_empty(gp, a),
                changed ==> count_false(marks@) < count_false(snap),
                !changed ==> marks@ == snap,
                marks@ == snap ==> forall|q: int|
                    0 <= q < p ==> ((forall|j: int|
                        1 <= j < (#[trigger] gp[q]).len() ==> rhs_marked(marks@, gp[q][j]))
                        ==> rhs_marked(marks@, gp[q][0])),
        {
            let prod = &prods[p];
            proof {
                assert(gp[p as int] == sv_elems(*prod));
            }
            let plen = sv_len(prod);
            let lhs = sv_get(prod, 0);
            if !marks[lhs] {
                let mut all = true;
                let mut j: usize = 1;
                while j < plen
                    invariant
                        gp == prods_of(prods@),
                        0 <= p < prods@.len(),
                        prod == &prods@[p as int],
                        plen == gp[p as int].len(),
                        marks@.len() == k,
                        1 <= j <= plen,
                        all == (forall|m: int|
                            1 <= m < j ==> rhs_marked(marks@, #[trigger] gp[p as int][m])),
                    decreases plen - j,
                {
                    let s = sv_get(prod, j);
                    if !(s < k && marks[s]) {
                        all = false;
                    }
                    j += 1;
                }
                if all {
                    proof {
                        assert forall|m: int| 1 <= m < gp[p as int].len() implies derives_empty(
                            gp,
                            #[trigger] gp[p as int][m],
                        ) by {
                            assert(rhs_marked(marks@, gp[p as int][m]));
                        }
                        lemma_lhs_derives_empty(gp, p as int);
                        lemma_count_false_update(marks@, lhs as int);
                    }
                    marks[lhs] = true;
                    changed = true;
                }
            }
        }
        if !changed {
            proof {
                assert(marks_closed(gp, marks@));
            }
            break;
        }
    }
    proof {
        assert forall|a: usize| a < k implies marks@[a as int] == derives_empty(gp, a) by {
            if marks@[a as int] {
                assert(derives_empty(gp, a));
            } else {
                if derives_empty(gp, a) {
                    let fuel = choose|fuel: nat| #[trigger] null_within(gp, a, fuel);
                    lemma_closed_covers(gp, marks@, a, fuel);
                }
            }
        }
    }
    marks
}

/// Whitespace between tokens of a rule line: the ASCII whitespace bytes
/// (space, tab, vertical tab, form feed, carriage return). Newlines separate
/// lines, and whitespace beyond ASCII is not recognised.
pub open spec fn is_ws(b: u8) -> bool {
    b == 32 || b == 9 || b == 11 || b == 12 || b == 13
}

/// Length of the leading run of non-whitespace bytes.
pub open spec fn tok_len(s: Seq<u8>) -> nat
    decreases s.len(),
{
    if s.len() == 0 || is_ws(s[0]) {
        0
    } else {
        1 + tok_len(s.drop_first())
    }
}

proof fn lemma_tok_len_at(t: Seq<u8>, d: int)
    requires
        0 <= d <= t.len(),
        forall|m: int| 0 <= m < d ==> !is_ws(#[trigger] t[m]),
        d < t.len() ==> is_ws(t[d]),
    ensures
        tok_len(t) == d,
    decreases d,
{
    if d > 0 {
        let u = t.drop_first();
        assert forall|m: int| 0 <= m < d - 1 implies !is_ws(#[trigger] u[m]) by {
            assert(u[m] == t[m + 1]);
        }
        assert(d - 1 < u.len() ==> is_ws(u[d - 1]));
        lemma_tok_len_at(u, d - 1);
    }
}

/// The whitespace-separated tokens of a rule line.
pub open spec fn split_tokens(s: Seq<u8>) -> Seq<Seq<u8>>
    decreases s.len(),
    via split_tokens_dec
{
    if s.len() == 0 {
        Seq::empty()
    } else if is_ws(s[0]) {
        split_tokens(s.drop_first())
    } else {
        seq![s.take(tok_len(s) as int)] + split_tokens(s.skip(tok_len(s) as int))
    }
}

proof fn lemma_tok_len_le(s: Seq<u8>)
    ensures
        tok_len(s) <= s.len(),
    decreases s.len(),
{
    if s.len() > 0 && !is_ws(s[0]) {
        lemma_tok_len_le(s.drop_first());
    }
}

#[via_fn]
proof fn split_tokens_dec(s: Seq<u8>) {
    if s.len() > 0 && !is_ws(s[0]) {
        lemma_tok_len_le(s);
    }
}

/// Length of the leading line: bytes up to a newline or the end.
pub open spec fn line_len(s: Seq<u8>) -> nat
    decreases s.len(),
{
    if s.len() == 0 || s[0] == 10 {
        0
    } else {
        1 + line_len(s.drop_first())
    }
}

proof fn lemma_line_len_at(t: Seq<u8>, d: int)
    requires
        0 <= d <= t.len(),
        forall|m: int| 0 <= m < d ==> #[trigger] t[m] != 10,
        d < t.len() ==> t[d] == 10,
    ensures
        line_len(t) == d,
    decreases d,
{
    if d > 0 {
        let u = t.drop_first();
        assert forall|m: int| 0 <= m < d - 1 implies #[trigger] u[m] != 10 by {
            assert(u[m] == t[m + 1]);
        }
        assert(d - 1 < u.len() ==> u[d - 1] == 10);
        lemma_line_len_at(u, d - 1);
    }
}

proof fn lemma_line_len_le(s: Seq<u8>)
    ensures
        line_len(s) <= s.len(),
    decreases s.len(),
{
    if s.len() > 0 && s[0] != 10 {
        lemma_line_len_le(s.drop_first());
    }
}

/// The lines of the rule text, split at newline bytes.
pub open spec fn split_lines(s: Seq<u8>) -> Seq<Seq<u8>>
    decreases s.len(),
    via split_lines_dec
{
    if s.len() == 0 {
        Seq::empty()
    } else if line_len(s) == s.len() {
        seq![s]
    } else {
        seq![s.take(line_len(s) as int)] + split_lines(s.skip(line_len(s) as int + 1))
    }
}

#[via_fn]
proof fn split_lines_dec(s: Seq<u8>) {
    lemma_line_len_le(s);
}

/// A rule line: not blank, and its first token does not start with `#`.
pub open spec fn qualifying(line: Seq<u8>) -> bool {
    split_tokens(line).len() > 0 && split_tokens(line)[0][0] != 35
}

/// The literal arrow token `->`.
pub open spec fn arrow() -> Seq<u8> {
    seq![45u8, 62u8]
}

/// A line of the required shape: its second token is the arrow.
pub open spec fn line_ok(line: Seq<u8>) -> bool {
    split_tokens(line).len() >= 2 && split_tokens(line)[1] == arrow()
}

/// Interning one token: reuse the table when the text is present, else append.
pub open spec fn intern1(acc: Seq<Seq<u8>>, t: Seq<u8>) -> Seq<Seq<u8>> {
    if acc.contains(t) {
        acc
    } else {
        acc.push(t)
    }
}

/// Interning a list of tokens left to right.
pub open spec fn intern_toks(acc: Seq<Seq<u8>>, ts: Seq<Seq<u8>>) -> Seq<Seq<u8>>
    decreases ts.len(),
{
    if ts.len() == 0 {
        acc
    } else {
        intern_toks(intern1(acc, ts[0]), ts.drop_first())
    }
}

/// The table after the first pass: the first token of every qualifying line,
/// in first-seen order.
pub open spec fn intern_lhs(acc: Seq<Seq<u8>>, lines: Seq<Seq<u8>>) -> Seq<Seq<u8>>
    decreases lines.len(),
{
    if lines.len() == 0 {
        acc
    } else {
        let acc2 = if qualifying(lines[0]) {
            intern1(acc, split_tokens(lines[0])[0])
        } else {
            acc
        };
        intern_lhs(acc2, lines.drop_first())
    }
}

/// The table after the second pass: the tokens after the arrow of every
/// qualifying line, in order.
pub open spec fn intern_rhs(acc: Seq<Seq<u8>>, lines: Seq<Seq<u8>>) -> Seq<Seq<u8>>
    decreases lines.len(),
{
    if lines.len() == 0 {
        acc
    } else {
        let acc2 = if qualifying(lines[0]) {
            intern_toks(acc, split_tokens(lines[0]).skip(2))
        } else {
            acc
        };
        intern_rhs(acc2, lines.drop_first())
    }
}

/// The full token table of a rule text.
pub open spec fn table_of(text: Seq<u8>) -> Seq<Seq<u8>> {
    intern_rhs(intern_lhs(Seq::empty(), split_lines(text)), split_lines(text))
}

/// How many distinct left-hand-side tokens the rule text has: the
/// non-terminal count.
pub open spec fn lhs_count(text: Seq<u8>) -> nat {
    intern_lhs(Seq::empty(), split_lines(text)).len()
}

/// The qualifying lines of the rule text, in order.
pub open spec fn rule_lines(text: Seq<u8>) -> Seq<Seq<u8>> {
    split_lines(text).filter(|l: Seq<u8>| qualifying(l))
}

/// Production `prod` spells rule line `toks` under the token table `names`:
/// entry 0 names the first token, entries 1 onward the tokens after the
/// arrow.
pub open spec fn prod_matches(names: Seq<Seq<u8>>, prod: Seq<usize>, toks: Seq<Seq<u8>>) -> bool {
    &&& prod.len() + 1 == toks.len()
    &&& forall|j: int| 0 <= j < prod.len() ==> (#[trigger] prod[j]) < names.len()
    &&& prod.len() >= 1 && names[prod[0] as int] == toks[0]
    &&& forall|j: int| 1 <= j < prod.len() ==> names[#[trigger] prod[j] as int] == toks[j + 1]
}

proof fn lemma_intern_toks_push(acc: Seq<Seq<u8>>, ts: Seq<Seq<u8>>, t: Seq<u8>)
    ensures
        intern_toks(acc, ts.push(t)) == intern1(intern_toks(acc, ts), t),
    decreases ts.len(),
{
    if ts.len() == 0 {
        reveal_with_fuel(intern_toks, 2);
        assert(ts.push(t)[0] == t);
        assert(ts.push(t).drop_first() =~= Seq::<Seq<u8>>::empty());
    } else {
        assert(ts.push(t)[0] == ts[0]);
        assert(ts.push(t).drop_first() =~= ts.drop_first().push(t));
        lemma_intern_toks_push(intern1(acc, ts[0]), ts.drop_first(), t);
    }
}

proof fn lemma_intern_lhs_push(acc: Seq<Seq<u8>>, lines: Seq<Seq<u8>>, l: Seq<u8>)
    ensures
        intern_lhs(acc, lines.push(l)) == if qualifying(l) {
            intern1(intern_lhs(acc, lines), split_tokens(l)[0])
        } else {
            intern_lhs(acc, lines)
        },
    decreases lines.len(),
{
    if lines.len() == 0 {
        reveal_with_fuel(intern_lhs, 2);
        assert(lines.push(l)[0] == l);
        assert(lines.push(l).drop_first() =~= Seq::<Seq<u8>>::empty());
    } else {
        assert(lines.push(l)[0] == lines[0]);
        assert(lines.push(l).drop_first() =~= lines.drop_first().push(l));
        let acc2 = if qualifying(lines[0]) {
            intern1(acc, split_tokens(lines[0])[0])
        } else {
            acc
        };
        lemma_intern_lhs_push(acc2, lines.drop_first(), l);
    }
}

proof fn lemma_intern_rhs_push(acc: Seq<Seq<u8>>, lines: Seq<Seq<u8>>, l: Seq<u8>)
    ensures
        intern_rhs(acc, lines.push(l)) == if qualifying(l) {
            intern_toks(intern_rhs(acc, lines), split_tokens(l).skip(2))
        } else {
            intern_rhs(acc, lines)
        },
    decreases lines.len(),
{
    if lines.len() == 0 {
        reveal_with_fuel(intern_rhs, 2);
        assert(lines.push(l)[0] == l);
        assert(lines.push(l).drop_first() =~= Seq::<Seq<u8>>::empty());
    } else {
        assert(lines.push(l)[0] == lines[0]);
        assert(lines.push(l).drop_first() =~= lines.drop_first().push(l));
        let acc2 = if qualifying(lines[0]) {
            intern_toks(acc, split_tokens(lines[0]).skip(2))
        } else {
            acc
        };
        lemma_intern_rhs_push(acc2, lines.drop_first(), l);
    }
}

proof fn lemma_filter_pos(s: Seq<Seq<u8>>, i: int)
    requires
        0 <= i < s.len(),
        qualifying(s[i]),
    ensures
        s.filter(|l: Seq<u8>| qualifying(l)).len() > 0,
    decreases s.len(),
{
    reveal(Seq::filter);
    if i == s.len() - 1 {
    } else {
        lemma_filter_pos(s.drop_last(), i);
    }
}

/// Whether two byte slices hold the same bytes.
pub fn bytes_eq(a: &[u8], b: &[u8]) -> (r: bool)
    ensures
        r == (a@ == b@),
{
    if a.len() != b.len() {
        return false;
    }
    let n = a.len();
    for i in 0..n
        invariant
            n == a@.len(),
            a@.len() == b@.len(),
            forall|k: int| 0 <= k < i ==> a@[k] == b@[k],
    {
        if a[i] != b[i] {
            return false;
        }
    }
    proof {
        assert(a@ =~= b@);
    }
    true
}


proof fn lemma_vec_u8_deep(v: Vec<u8>)
    ensures
        v.deep_view() == v@,
{
    assert(v.deep_view() =~= v@);
}

/// A fresh copy of the byte range `[lo, hi)`.
fn copy_range(bytes: &[u8], lo: usize, hi: usize) -> (r: Vec<u8>)
    requires
        lo <= hi <= bytes@.len(),
    ensures
        r@ == bytes@.subrange(lo as int, hi as int),
{
    vstd::slice::slice_to_vec(vstd::slice::slice_subrange(bytes, lo, hi))
}

/// The byte range of each line of `bytes`, split at newline bytes.
fn scan_line_ranges(bytes: &[u8]) -> (r: Vec<(usize, usize)>)
    ensures
        r@.len() == split_lines(bytes@).len(),
        forall|i: int|
            0 <= i < r@.len() ==> {
                &&& (#[trigger] r@[i]).0 <= r@[i].1 <= bytes@.len()
                &&& bytes@.subrange(r@[i].0 as int, r@[i].1 as int) == split_lines(bytes@)[i]
            },
{
    let ghost s = bytes@;
    let n = bytes.len();
    let mut out: Vec<(usize, usize)> = Vec::new();
    let mut i: usize = 0;
    proof {
        assert(s.skip(0) =~= s);
        assert(out@.map(|k: int, pr: (usize, usize)| s.subrange(pr.0 as int, pr.1 as int))
            =~= Seq::<Seq<u8>>::empty());
    }
    while i < n
        invariant
            s == bytes@,
            n == s.len(),
            i <= n,
            split_lines(s) == out@.map(
                |k: int, pr: (usize, usize)| s.subrange(pr.0 as int, pr.1 as int),
            ) + split_lines(s.skip(i as int)),
            forall|q: int|
                0 <= q < out@.len() ==> (#[trigger] out@[q]).0 <= out@[q].1 <= n,
        decreases n - i,
    {
        let ghost out0 = out@;
        let mut j: usize = i;
        while j < n && bytes[j] != 10
            invariant
                s == bytes@,
                n == s.len(),
                i <= j <= n,
                forall|m: int| i <= m < j ==> #[trigger] s[m] != 10,
            decreases n - j,
        {
            j += 1;
        }
        out.push((i, j));
        proof {
            let rest = s.skip(i as int);
            assert forall|m: int| 0 <= m < j - i implies #[trigger] rest[m] != 10 by {
                assert(rest[m] == s[m + i]);
            }
            assert(j - i < rest.len() ==> rest[j - i] == s[j as int] == 10);
            lemma_line_len_at(rest, j - i);
            let f = |k: int, pr: (usize, usize)| s.subrange(pr.0 as int, pr.1 as int);
            assert(out@.map(f) =~= out0.map(f).push(s.subrange(i as int, j as int)));
            if j == n {
                assert(line_len(rest) == rest.len());
                assert(split_lines(rest) == seq![rest]);
                assert(rest =~= s.subrange(i as int, j as int));
                assert(s.skip(n as int).len() == 0);
                assert(split_lines(s.skip(n as int)) =~= Seq::<Seq<u8>>::empty());
                assert(split_lines(s) =~= out@.map(f) + split_lines(s.skip(n as int)));
            } else {
                assert(line_len(rest) < rest.len());
                assert(split_lines(rest) == seq![rest.take(line_len(rest) as int)] + split_lines(
                    rest.skip(line_len(rest) as int + 1),
                ));
                assert(rest.take(j - i) =~= s.subrange(i as int, j as int));
                assert(rest.skip(j - i + 1) =~= s.skip(j + 1));
                assert(split_lines(s) =~= out@.map(f) + split_lines(s.skip(j + 1)));
            }
        }
        if j == n {
            i = n;
        } else {
            i = j + 1;
        }
    }
    proof {
        assert(s.skip(n as int).len() == 0);
        assert(split_lines(s.skip(n as int)) =~= Seq::<Seq<u8>>::empty());
        let f = |k: int, pr: (usize, usize)| s.subrange(pr.0 as int, pr.1 as int);
        assert(split_lines(s) =~= out@.map(f));
        assert forall|q: int| 0 <= q < out@.len() implies bytes@.subrange(
            (#[trigger] out@[q]).0 as int,
            out@[q].1 as int,
        ) == split_lines(bytes@)[q] by {
            assert(out@.map(f)[q] == f(q, out@[q]));
        }
    }
    out
}

/// The byte range of each whitespace-separated token of the line `[lo, hi)`.
fn scan_token_ranges(bytes: &[u8], lo: usize, hi: usize) -> (r: Vec<(usize, usize)>)
    requires
        lo <= hi <= bytes@.len(),
    ensures
        r@.len() == split_tokens(bytes@.subrange(lo as int, hi as int)).len(),
        forall|i: int|
            0 <= i < r@.len() ==> {
                &&& lo <= (#[trigger] r@[i]).0 < r@[i].1 <= hi
                &&& bytes@.subrange(r@[i].0 as int, r@[i].1 as int) == split_tokens(
                    bytes@.subrange(lo as int, hi as int),
                )[i]
            },
{
    let ghost s = bytes@;
    let ghost line = s.subrange(lo as int, hi as int);
    let mut out: Vec<(usize, usize)> = Vec::new();
    let mut i: usize = lo;
    proof {
        assert(line.skip(0) =~= line);
        assert(out@.map(|k: int, pr: (usize, usize)| s.subrange(pr.0 as int, pr.1 as int))
            =~= Seq::<Seq<u8>>::empty());
    }
    while i < hi
        invariant
            s == bytes@,
            line == s.subrange(lo as int, hi as int),
            lo <= i <= hi <= s.len(),
            split_tokens(line) == out@.map(
                |k: int, pr: (usize, usize)| s.subrange(pr.0 as int, pr.1 as int),
            ) + split_tokens(line.skip(i - lo)),
            forall|q: int|
                0 <= q < out@.len() ==> lo <= (#[trigger] out@[q]).0 < out@[q].1 <= hi,
        decreases hi - i,
    {
        let ghost rest = line.skip(i - lo);
        let b = bytes[i];
        if b == 32 || b == 9 || b == 11 || b == 12 || b == 13 {
            proof {
                assert(rest[0] == line[i - lo] == s[i as int]);
                assert(is_ws(rest[0]));
                assert(split_tokens(rest) == split_tokens(rest.drop_first()));
                assert(rest.drop_first() =~= line.skip(i + 1 - lo));
            }
            i += 1;
        } else {
            let ghost out0 = out@;
            let mut j: usize = i;
            while j < hi && !(bytes[j] == 32 || bytes[j] == 9 || bytes[j] == 11 || bytes[j] == 12
                || bytes[j] == 13)
                invariant
                    s == bytes@,
                    lo <= i <= j <= hi <= s.len(),
                    forall|m: int| i <= m < j ==> !is_ws(#[trigger] s[m]),
                decreases hi - j,
            {
                j += 1;
            }
            out.push((i, j));
            proof {
                assert forall|m: int| 0 <= m < j - i implies !is_ws(#[trigger] rest[m]) by {
                    assert(rest[m] == s[m + i]);
                }
                assert(j - i < rest.len() ==> is_ws(rest[j - i]));
                lemma_tok_len_at(rest, j - i);
                assert(!is_ws(rest[0]));
                assert(split_tokens(rest) == seq![rest.take(j - i)] + split_tokens(
                    rest.skip(j - i),
                ));
                assert(rest.take(j - i) =~= s.subrange(i as int, j as int));
                assert(rest.skip(j - i) =~= line.skip(j - lo));
                let f = |k: int, pr: (usize, usize)| s.subrange(pr.0 as int, pr.1 as int);
                assert(out@.map(f) =~= out0.map(f).push(s.subrange(i as int, j as int)));
                assert(split_tokens(line) =~= out@.map(f) + split_tokens(line.skip(j - lo)));
            }
            i = j;
        }
    }
    proof {
        assert(line.skip(hi - lo).len() == 0);
        assert(split_tokens(line.skip(hi - lo)) =~= Seq::<Seq<u8>>::empty());
        let f = |k: int, pr: (usize, usize)| s.subrange(pr.0 as int, pr.1 as int);
        assert(split_tokens(line) =~= out@.map(f));
        assert forall|q: int| 0 <= q < out@.len() implies bytes@.subrange(
            (#[trigger] out@[q]).0 as int,
            out@[q].1 as int,
        ) == split_tokens(line)[q] by {
            assert(out@.map(f)[q] == f(q, out@[q]));
        }
    }
    out
}

/// The identifier interned for `tok`, interning it afresh at the end of the
/// table when absent.
fn intern_push(names: &mut Vec<Vec<u8>>, tok: Vec<u8>) -> (id: usize)
    requires
        distinct_seqs(old(names).deep_view()),
    ensures
        final(names).deep_view() == intern1(old(names).deep_view(), tok@),
        distinct_seqs(final(names).deep_view()),
        id < final(names)@.len(),
        final(names).deep_view()[id as int] == tok@,
        old(names)@.len() <= final(names)@.len(),
        forall|i: int|
            0 <= i < old(names)@.len() ==> final(names).deep_view()[i] == old(
                names,
            ).deep_view()[i],
{
    let n = names.len();
    for i in 0..n
        invariant
            n == names@.len(),
            *names == *old(names),
            distinct_seqs(names.deep_view()),
            forall|k: int| 0 <= k < i ==> names.deep_view()[k] != tok@,
        decreases n - i,
    {
        proof {
            lemma_vec_u8_deep(names@[i as int]);
        }
        if bytes_eq(names[i].as_slice(), tok.as_slice()) {
            proof {
                lemma_vec_u8_deep(tok);
                assert(names.deep_view()[i as int] == tok@);
                assert(names.deep_view().contains(tok@));
                assert(names.deep_view() =~= old(names).deep_view());
            }
            return i;
        }
    }
    proof {
        assert forall|k: int| 0 <= k < names.deep_view().len() implies names.deep_view()[k]
            != tok@ by {}
        assert(!names.deep_view().contains(tok@));
    }
    let id = names.len();
    proof {
        lemma_vec_u8_deep(tok);
    }
    names.push(tok);
    proof {
        assert(names.deep_view() =~= old(names).deep_view().push(tok@));
        assert forall|i: int, j: int|
            0 <= i < j < names.deep_view().len() implies names.deep_view()[i]
            != names.deep_view()[j] by {
            if j < id {
                assert(old(names).deep_view()[i] != old(names).deep_view()[j]);
            } else {
                assert(old(names).deep_view()[i] != tok@);
            }
        }
    }
    id
}


proof fn lemma_prod_matches_extend(
    n1: Seq<Seq<u8>>,
    n2: Seq<Seq<u8>>,
    prod: Seq<usize>,
    toks: Seq<Seq<u8>>,
)
    requires
        prod_matches(n1, prod, toks),
        n1.len() <= n2.len(),
        forall|i: int| 0 <= i < n1.len() ==> n2[i] == n1[i],
    ensures
        prod_matches(n2, prod, toks),
{
    assert forall|j: int| 1 <= j < prod.len() implies n2[#[trigger] prod[j] as int] == toks[j + 1] by {
        assert(n1[prod[j] as int] == toks[j + 1]);
    }
}

impl Parser {
    /// Reads a grammar from rule text: one production per line, of the shape
    /// `LHS -> RHS...`; blank lines and lines whose first token starts with
    /// `#` are ignored. Left-hand sides are interned first, in first-seen
    /// order, so that identifiers below the non-terminal count are exactly
    /// the symbols that appear on a left-hand side. Fails with line number 0
    /// when no rule lines remain, and with the 1-based number of the first
    /// malformed line otherwise.
    pub fn from_rules(rules: &str) -> (r: Result<Parser, ParseRulesError>)
        ensures
            match r {
                Ok(g) => {
                    let lines = split_lines(rules.spec_bytes());
                    let q = rule_lines(rules.spec_bytes());
                    &&& g.wf()
                    &&& q.len() > 0
                    &&& forall|i: int|
                        0 <= i < lines.len() && qualifying(#[trigger] lines[i]) ==> line_ok(
                            lines[i],
                        )
                    &&& g.names_view() == table_of(rules.spec_bytes())
                    &&& g.nt_count() == lhs_count(rules.spec_bytes())
                    &&& g.prods_view().len() == q.len()
                    &&& forall|i: int|
                        0 <= i < q.len() ==> prod_matches(
                            g.names_view(),
                            g.prods_view()[i],
                            split_tokens(#[trigger] q[i]),
                        )
                },
                Err(e) => {
                    let lines = split_lines(rules.spec_bytes());
                    if e.0 == 0 {
                        forall|i: int| 0 <= i < lines.len() ==> !qualifying(#[trigger] lines[i])
                    } else {
                        &&& 1 <= e.0 <= lines.len()
                        &&& qualifying(lines[e.0 - 1])
                        &&& !line_ok(lines[e.0 - 1])
                        &&& forall|i: int|
                            0 <= i < e.0 - 1 && qualifying(#[trigger] lines[i]) ==> line_ok(
                                lines[i],
                            )
                    }
                },
            },
    {
        let bytes: &[u8] = rules.as_bytes();
        let ghost s = rules.spec_bytes();
        let ghost lines = split_lines(s);
        let ghost fq = |l: Seq<u8>| qualifying(l);
        let lranges = scan_line_ranges(bytes);
        let nl = lranges.len();

        // pass 1: intern every qualifying line's first token as a left-hand
        // side, fixing the non-terminal count
        let mut names: Vec<Vec<u8>> = Vec::new();
        let mut prods: Vec<SymVec> = Vec::new();
        proof {
            assert(lines.take(0) =~= Seq::<Seq<u8>>::empty());
            reveal(Seq::filter);
        }
        for li in 0..nl
            invariant
                bytes@ == s,
                s == rules.spec_bytes(),
                lines == split_lines(s),
                fq == (|l: Seq<u8>| qualifying(l)),
                nl == lranges@.len() == lines.len(),
                forall|i: int|
                    0 <= i < nl ==> {
                        &&& (#[trigger] lranges@[i]).0 <= lranges@[i].1 <= s.len()
                        &&& s.subrange(lranges@[i].0 as int, lranges@[i].1 as int) == lines[i]
                    },
                names.deep_view() == intern_lhs(Seq::<Seq<u8>>::empty(), lines.take(li as int)),
                distinct_seqs(names.deep_view()),
                prods@.len() == lines.take(li as int).filter(fq).len(),
                forall|i: int|
                    0 <= i < prods@.len() ==> {
                        &&& sv_elems(#[trigger] prods@[i]).len() == 1
                        &&& sv_elems(prods@[i])[0] < names@.len()
                        &&& names.deep_view()[sv_elems(prods@[i])[0] as int] == split_tokens(
                            lines.take(li as int).filter(fq)[i],
                        )[0]
                    },
        {
            let (lo, hi) = lranges[li];
            let tranges = scan_token_ranges(bytes, lo, hi);
            let ghost line = lines[li as int];
            let ghost toks = split_tokens(line);
            let ghost prefix = lines.take(li as int);
            proof {
                assert(lines.take(li + 1) =~= prefix.push(line));
                lemma_intern_lhs_push(Seq::<Seq<u8>>::empty(), prefix, line);
                reveal(Seq::filter);
                assert(prefix.push(line).drop_last() =~= prefix);
                assert(lines.take(li + 1).filter(fq) == if qualifying(line) {
                    prefix.filter(fq).push(line)
                } else {
                    prefix.filter(fq)
                });
            }
            let mut qual = false;
            if tranges.len() > 0 {
                let (t0lo, t0hi) = tranges[0];
                proof {
                    assert(toks[0] == s.subrange(t0lo as int, t0hi as int));
                    assert(toks[0][0] == s[t0lo as int]);
                }
                if bytes[t0lo] != 35 {
                    qual = true;
                    assert(qualifying(line));
                    let ghost names0 = names.deep_view();
                    let tok = copy_range(bytes, t0lo, t0hi);
                    let id = intern_push(&mut names, tok);
                    let mut pv = sv_new();
                    sv_push(&mut pv, id);
                    proof {
                        assert(sv_elems(pv) =~= seq![id]);
                        assert(names.deep_view() == intern1(names0, toks[0]));
                        assert forall|i: int| 0 <= i < prods@.len() implies {
                            &&& sv_elems(#[trigger] prods@[i]).len() == 1
                            &&& sv_elems(prods@[i])[0] < names@.len()
                            &&& names.deep_view()[sv_elems(prods@[i])[0] as int] == split_tokens(
                                lines.take(li + 1).filter(fq)[i],
                            )[0]
                        } by {
                            let id0 = sv_elems(prods@[i])[0];
                            assert(names.deep_view()[id0 as int] == names0[id0 as int]);
                            assert(lines.take(li + 1).filter(fq)[i] == prefix.filter(fq)[i]);
                        }
                    }
                    prods.push(pv);
                }
            }
            proof {
                if !qual {
                    if toks.len() > 0 {
                        assert(toks[0][0] == s[tranges@[0].0 as int]);
                        assert(toks[0][0] == 35);
                    }
                    assert(!qualifying(line));
                    assert(lines.take(li + 1).filter(fq) == prefix.filter(fq));
                    assert(names.deep_view() == intern_lhs(
                        Seq::<Seq<u8>>::empty(),
                        lines.take(li + 1),
                    ));
                    assert forall|i: int| 0 <= i < prods@.len() implies {
                        &&& sv_elems(#[trigger] prods@[i]).len() == 1
                        &&& sv_elems(prods@[i])[0] < names@.len()
                        &&& names.deep_view()[sv_elems(prods@[i])[0] as int] == split_tokens(
                            lines.take(li + 1).filter(fq)[i],
                        )[0]
                    } by {
                        assert(lines.take(li + 1).filter(fq)[i] == prefix.filter(fq)[i]);
                    }
                }
            }
        }
        proof {
            assert(lines.take(nl as int) =~= lines);
        }
        if prods.is_empty() {
            proof {
                assert forall|i: int| 0 <= i < lines.len() implies !qualifying(
                    #[trigger] lines[i],
                ) by {
                    if qualifying(lines[i]) {
                        lemma_filter_pos(lines, i);
                    }
                }
            }
            return Err(ParseRulesError(0));
        }
        let k = names.len();
        let ghost table1 = names.deep_view();
        let ghost qlines = lines.filter(fq);

        // pass 2: demand the arrow as each qualifying line's second token and
        // intern the right-hand sides
        let mut qi: usize = 0;
        proof {
            assert(lines.take(0) =~= Seq::<Seq<u8>>::empty());
            assert(table1 == intern_rhs(table1, lines.take(0)));
        }
        for li in 0..nl
            invariant
                bytes@ == s,
                s == rules.spec_bytes(),
                lines == split_lines(s),
                fq == (|l: Seq<u8>| qualifying(l)),
                nl == lranges@.len() == lines.len(),
                forall|i: int|
                    0 <= i < nl ==> {
                        &&& (#[trigger] lranges@[i]).0 <= lranges@[i].1 <= s.len()
                        &&& s.subrange(lranges@[i].0 as int, lranges@[i].1 as int) == lines[i]
                    },
                qlines == lines.filter(fq),
                table1 == intern_lhs(Seq::<Seq<u8>>::empty(), lines),
                k == table1.len(),
                k <= names@.len(),
                forall|i: int| 0 <= i < k ==> names.deep_view()[i] == table1[i],
                names.deep_view() == intern_rhs(table1, lines.take(li as int)),
                distinct_seqs(names.deep_view()),
                qi <= prods@.len() == qlines.len(),
                qi == lines.take(li as int).filter(fq).len(),
                forall|i: int|
                    0 <= i < li && qualifying(#[trigger] lines[i]) ==> line_ok(lines[i]),
                forall|i: int|
                    0 <= i < qi ==> prod_matches(
                        names.deep_view(),
                        sv_elems(#[trigger] prods@[i]),
                        split_tokens(qlines[i]),
                    ) && sv_elems(prods@[i])[0] < k,
                forall|i: int|
                    qi <= i < prods@.len() ==> {
                        &&& sv_elems(#[trigger] prods@[i]).len() == 1
                        &&& sv_elems(prods@[i])[0] < k
                        &&& names.deep_view()[sv_elems(prods@[i])[0] as int] == split_tokens(
                            qlines[i],
                        )[0]
                    },
        {
            let (lo, hi) = lranges[li];
            let tranges = scan_token_ranges(bytes, lo, hi);
            let ghost line = lines[li as int];
            let ghost toks = split_tokens(line);
            let ghost prefix = lines.take(li as int);
            proof {
                assert(lines.take(li + 1) =~= prefix.push(line));
                lemma_intern_rhs_push(table1, prefix, line);
                reveal(Seq::filter);
                assert(prefix.push(line).drop_last() =~= prefix);
                assert(lines.take(li + 1).filter(fq) == if qualifying(line) {
                    prefix.filter(fq).push(line)
                } else {
                    prefix.filter(fq)
                });
            }
            let mut qual = false;
            if tranges.len() > 0 {
                let (t0lo, t0hi) = tranges[0];
                proof {
                    assert(toks[0] == s.subrange(t0lo as int, t0hi as int));
                    assert(toks[0][0] == s[t0lo as int]);
                }
                if bytes[t0lo] != 35 {
                    qual = true;
                    assert(qualifying(line));
                    proof {
                        Seq::filter_distributes_over_add(
                            lines.take(li + 1),
                            lines.skip(li + 1),
                            fq,
                        );
                        assert(lines.take(li + 1) + lines.skip(li + 1) =~= lines);
                        assert(qlines == lines.take(li + 1).filter(fq) + lines.skip(li + 1).filter(
                            fq,
                        ));
                        assert(qlines[qi as int] == line);
                        assert(qi < qlines.len());
                    }
                    if tranges.len() < 2 {
                        return Err(ParseRulesError(li + 1));
                    }
                    let (alo, ahi) = tranges[1];
                    proof {
                        assert(toks[1] == s.subrange(alo as int, ahi as int));
                    }
                    if !(ahi - alo == 2 && bytes[alo] == 45 && bytes[alo + 1] == 62) {
                        proof {
                            if toks[1].len() == 2 && toks[1][0] == 45 && toks[1][1] == 62 {
                                assert(toks[1][0] == s[alo as int]);
                                assert(toks[1][1] == s[alo + 1]);
                                assert(ahi - alo == 2);
                            }
                            assert(toks[1] != arrow());
                        }
                        return Err(ParseRulesError(li + 1));
                    }
                    proof {
                        assert(toks[1] =~= arrow());
                        assert(line_ok(line));
                    }
                    let nt = tranges.len();
                    let ghost acc0 = names.deep_view();
                    let ghost prods0 = prods@;
                    proof {
                        assert(toks.subrange(2, 2) =~= Seq::<Seq<u8>>::empty());
                        assert(acc0 == intern_toks(acc0, toks.subrange(2, 2)));
                    }
                    for ti in 2..nt
                        invariant
                            bytes@ == s,
                            nl == lranges@.len() == lines.len(),
                            qlines == lines.filter(fq),
                            line == lines[li as int],
                            toks == split_tokens(line),
                            0 <= li < nl,
                            qi < prods@.len() == prods0.len() == qlines.len(),
                            qlines[qi as int] == line,
                            lo <= hi <= s.len(),
                            2 <= nt == tranges@.len() == toks.len(),
                            forall|i: int|
                                0 <= i < nt ==> {
                                    &&& lo <= (#[trigger] tranges@[i]).0 < tranges@[i].1 <= hi
                                    &&& s.subrange(
                                        tranges@[i].0 as int,
                                        tranges@[i].1 as int,
                                    ) == toks[i]
                                },
                            k == table1.len(),
                            k <= acc0.len() <= names@.len(),
                            forall|i: int| 0 <= i < k ==> names.deep_view()[i] == table1[i],
                            forall|i: int| 0 <= i < acc0.len() ==> names.deep_view()[i] == acc0[i],
                            names.deep_view() == intern_toks(acc0, toks.subrange(2, ti as int)),
                            distinct_seqs(names.deep_view()),
                            forall|i: int|
                                0 <= i < prods@.len() && i != qi ==> #[trigger] prods@[i]
                                    == prods0[i],
                            sv_elems(prods@[qi as int]).len() == ti - 1,
                            sv_elems(prods@[qi as int])[0] == sv_elems(prods0[qi as int])[0],
                            sv_elems(prods@[qi as int])[0] < k,
                            names.deep_view()[sv_elems(prods@[qi as int])[0] as int] == toks[0],
                            forall|j: int|
                                1 <= j < ti - 1 ==> {
                                    &&& sv_elems(prods@[qi as int])[j] < names@.len()
                                    &&& names.deep_view()[#[trigger] sv_elems(
                                        prods@[qi as int],
                                    )[j] as int] == toks[j + 1]
                                },
                    {
                        let (tlo, thi) = tranges[ti];
                        proof {
                            assert(toks[ti as int] == s.subrange(tlo as int, thi as int));
                        }
                        let tok = copy_range(bytes, tlo, thi);
                        let ghost names_before = names.deep_view();
                        let id = intern_push(&mut names, tok);
                        let pv = &mut prods[qi];
                        sv_push(pv, id);
                        proof {
                            lemma_intern_toks_push(acc0, toks.subrange(2, ti as int), toks[ti as int]);
                            assert(toks.subrange(2, ti + 1) =~= toks.subrange(2, ti as int).push(
                                toks[ti as int],
                            ));
                        }
                    }
                    proof {
                        assert(toks.subrange(2, nt as int) =~= toks.skip(2));
                        assert(names.deep_view() == intern_toks(acc0, toks.skip(2)));
                        assert(names.deep_view() == intern_rhs(table1, lines.take(li + 1)));
                        let pr = sv_elems(prods@[qi as int]);
                        assert(prod_matches(names.deep_view(), pr, toks)) by {
                            assert(pr.len() == nt - 1);
                            assert(pr.len() + 1 == toks.len());
                            assert(pr[0] < names@.len());
                            assert(names.deep_view()[pr[0] as int] == toks[0]);
                        }
                        assert forall|i: int| 0 <= i < qi + 1 implies prod_matches(
                            names.deep_view(),
                            sv_elems(#[trigger] prods@[i]),
                            split_tokens(qlines[i]),
                        ) && sv_elems(prods@[i])[0] < k by {
                            if i < qi {
                                lemma_prod_matches_extend(
                                    acc0,
                                    names.deep_view(),
                                    sv_elems(prods@[i]),
                                    split_tokens(qlines[i]),
                                );
                            }
                        }
                    }
                    qi += 1;
                }
            }
            proof {
                if !qual {
                    if toks.len() > 0 {
                        assert(toks[0][0] == s[tranges@[0].0 as int]);
                        assert(toks[0][0] == 35);
                    }
                    assert(!qualifying(line));
                    assert(lines.take(li + 1).filter(fq) == prefix.filter(fq));
                    assert(names.deep_view() == intern_rhs(table1, lines.take(li + 1)));
                }
            }
        }
        proof {
            assert(lines.take(nl as int) =~= lines);
            assert(qi == qlines.len());
        }
        let t = names.len();
        let ghost gp = prods_of(prods@);
        proof {
            assert forall|p: int| 0 <= p < gp.len() implies {
                &&& (#[trigger] gp[p]).len() >= 1
                &&& gp[p][0] < k
                &&& forall|j: int| 0 <= j < gp[p].len() ==> (#[trigger] gp[p][j]) < t
            } by {
                assert(gp[p] == sv_elems(prods@[p]));
                assert(prod_matches(names.deep_view(), gp[p], split_tokens(qlines[p])));
                assert(split_tokens(qlines[p]).len() >= 2) by {
                    assert(qualifying(qlines[p]));
                }
            }
            assert(grammar_wf(gp, k as nat, t as nat));
        }
        let nullable = compute_nullable(&prods, k, t);
        let g = Parser { prods, names, nullable };
        proof {
            assert(g.names_view() == table_of(s));
            assert(g.nt_count() == lhs_count(s));
            assert forall|i: int| 0 <= i < qlines.len() implies prod_matches(
                g.names_view(),
                g.prods_view()[i],
                split_tokens(#[trigger] qlines[i]),
            ) by {
                assert(g.prods_view()[i] == sv_elems(g.prods@[i]));
            }
        }
        Ok(g)
    }
}

} // verus!
