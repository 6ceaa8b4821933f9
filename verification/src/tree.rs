//! The parsed form of a template or pattern: a `Root` owning the source
//! text together with its leaf tokens and statement-level groupings, and
//! `Node`, a handle into that tree. The grammar here is the word-level
//! one every handle shares: a leaf is a maximal run of word characters
//! (name characters plus the grammar's marker and expando characters),
//! and statements are separated by `;`.

use crate::meta_var::is_name_char;
use vstd::prelude::*;

verus! {

/// A word character under marker `m` and expando `e`: anything that may
/// appear inside a leaf token.
pub open spec fn is_word_char(c: char, m: char, e: char) -> bool {
    is_name_char(c) || c == m || c == e
}

pub open spec fn is_space_char(c: char) -> bool {
    c == ' ' || c == '\t' || c == '\n' || c == '\r'
}

/// A usable marker or expando character: it must not collide with name
/// characters, whitespace, or the statement separator.
pub open spec fn wf_marker(c: char) -> bool {
    !is_name_char(c) && !is_space_char(c) && c != ';'
}

pub fn word_char(c: char, m: char, e: char) -> (b: bool)
    ensures
        b == is_word_char(c, m, e),
{
    crate::meta_var::name_char(c) || c == m || c == e
}

pub fn space_char(c: char) -> (b: bool)
    ensures
        b == is_space_char(c),
{
    c == ' ' || c == '\t' || c == '\n' || c == '\r'
}

pub fn marker_ok(c: char) -> (b: bool)
    ensures
        b == wf_marker(c),
{
    !crate::meta_var::name_char(c) && !space_char(c) && c != ';'
}

/// The first position at or after `i` that is not a word character.
pub open spec fn run_end(s: Seq<char>, i: int, m: char, e: char) -> int
    decreases s.len() - i,
{
    if i < 0 || i >= s.len() || !is_word_char(s[i], m, e) {
        i
    } else {
        run_end(s, i + 1, m, e)
    }
}

pub proof fn lemma_run_end(s: Seq<char>, i: int, m: char, e: char)
    requires
        0 <= i <= s.len(),
    ensures
        i <= run_end(s, i, m, e) <= s.len(),
        forall|p: int| i <= p < run_end(s, i, m, e) ==> is_word_char(s[p], m, e),
        run_end(s, i, m, e) < s.len() ==> !is_word_char(s[run_end(s, i, m, e)], m, e),
    decreases s.len() - i,
{
    if i < s.len() && is_word_char(s[i], m, e) {
        lemma_run_end(s, i + 1, m, e);
    }
}

/// `run_end` is pinned down by its characterization: all word characters
/// up to `j`, and `j` itself a boundary.
pub proof fn lemma_run_end_is(s: Seq<char>, i: int, j: int, m: char, e: char)
    requires
        0 <= i <= j <= s.len(),
        forall|p: int| i <= p < j ==> is_word_char(s[p], m, e),
        j == s.len() || !is_word_char(s[j], m, e),
    ensures
        run_end(s, i, m, e) == j,
    decreases j - i,
{
    if i < j {
        lemma_run_end_is(s, i + 1, j, m, e);
    }
}

/// A token's place in the source: the character span `[start, end)`.
pub ghost struct SpanV {
    pub start: int,
    pub end: int,
}

/// The leaf tokens of `s` from position `i` on: maximal runs of word
/// characters, in document order.
pub open spec fn tokens_from(s: Seq<char>, i: int, m: char, e: char) -> Seq<SpanV>
    decreases s.len() - i,
    via tokens_from_dec
{
    if i < 0 || i >= s.len() {
        Seq::empty()
    } else if !is_word_char(s[i], m, e) {
        tokens_from(s, i + 1, m, e)
    } else {
        seq![SpanV { start: i, end: run_end(s, i, m, e) }] + tokens_from(
            s,
            run_end(s, i, m, e),
            m,
            e,
        )
    }
}

#[via_fn]
proof fn tokens_from_dec(s: Seq<char>, i: int, m: char, e: char) {
    if 0 <= i && i < s.len() && is_word_char(s[i], m, e) {
        lemma_run_end(s, i + 1, m, e);
    }
}

/// All leaf tokens of `s`.
pub open spec fn spec_tokens(s: Seq<char>, m: char, e: char) -> Seq<SpanV> {
    tokens_from(s, 0, m, e)
}

/// Tokens are in bounds, filled with word characters, and strictly
/// left-to-right without overlap.
pub proof fn lemma_tokens_props(s: Seq<char>, i: int, m: char, e: char)
    requires
        0 <= i <= s.len(),
    ensures
        forall|k: int|
            0 <= k < tokens_from(s, i, m, e).len() ==> i <= #[trigger] tokens_from(s, i, m, e)[k].start
                < tokens_from(s, i, m, e)[k].end <= s.len(),
        forall|k: int, p: int|
            0 <= k < tokens_from(s, i, m, e).len() && #[trigger] tokens_from(s, i, m, e)[k].start
                <= p < tokens_from(s, i, m, e)[k].end ==> #[trigger] is_word_char(s[p], m, e),
        forall|k: int, l: int|
            0 <= k < l < tokens_from(s, i, m, e).len() ==> #[trigger] tokens_from(s, i, m, e)[k].end
                <= #[trigger] tokens_from(s, i, m, e)[l].start,
    decreases s.len() - i,
{
    let toks = tokens_from(s, i, m, e);
    if i < s.len() {
        if !is_word_char(s[i], m, e) {
            lemma_tokens_props(s, i + 1, m, e);
            assert(toks == tokens_from(s, i + 1, m, e));
        } else {
            let r = run_end(s, i, m, e);
            lemma_run_end(s, i, m, e);
            lemma_run_end(s, i + 1, m, e);
            assert(r == run_end(s, i + 1, m, e));
            assert(i + 1 <= r <= s.len());
            lemma_tokens_props(s, r, m, e);
            let rest = tokens_from(s, r, m, e);
            assert(toks == seq![SpanV { start: i, end: r }] + rest);
            assert(toks[0] == (SpanV { start: i, end: r }));
            assert forall|k: int| 0 <= k < toks.len() implies i <= #[trigger] toks[k].start
                < toks[k].end <= s.len() by {
                if k >= 1 {
                    assert(toks[k] == rest[k - 1]);
                }
            }
            assert forall|k: int, p: int|
                0 <= k < toks.len() && #[trigger] toks[k].start <= p < toks[k].end implies
                #[trigger] is_word_char(s[p], m, e) by {
                if k >= 1 {
                    assert(toks[k] == rest[k - 1]);
                }
            }
            assert forall|k: int, l: int| 0 <= k < l < toks.len() implies #[trigger] toks[k].end
                <= #[trigger] toks[l].start by {
                assert(toks[l] == rest[l - 1]);
                if k >= 1 {
                    assert(toks[k] == rest[k - 1]);
                }
            }
        }
    }
}

/// Where no token was found, no word character stands.
pub proof fn lemma_no_tokens(s: Seq<char>, i: int, m: char, e: char)
    requires
        0 <= i <= s.len(),
        tokens_from(s, i, m, e).len() == 0,
    ensures
        forall|p: int| i <= p < s.len() ==> !is_word_char(s[p], m, e),
    decreases s.len() - i,
{
    if i < s.len() {
        if !is_word_char(s[i], m, e) {
            lemma_no_tokens(s, i + 1, m, e);
        } else {
            assert(tokens_from(s, i, m, e).len() >= 1);
        }
    }
}

/// A leaf token's span, in character offsets.
#[derive(Clone, Copy)]
pub struct Span {
    pub start: usize,
    pub end: usize,
}

pub open spec fn span_v(sp: Span) -> SpanV {
    SpanV { start: sp.start as int, end: sp.end as int }
}

pub open spec fn spans_view(s: Seq<Span>) -> Seq<SpanV> {
    s.map(|i: int, sp: Span| span_v(sp))
}

pub proof fn lemma_spans_view_len(s: Seq<Span>)
    ensures
        spans_view(s).len() == s.len(),
{
}

pub proof fn lemma_spans_view_index(s: Seq<Span>, k: int)
    requires
        0 <= k < s.len(),
    ensures
        spans_view(s).len() == s.len(),
        spans_view(s)[k] == span_v(s[k]),
{
}

/// A statement-level grouping: its trimmed span in the source and the
/// range `[tlo, thi)` of leaf tokens it holds.
#[derive(Clone, Copy)]
pub struct StmtSpan {
    pub start: usize,
    pub end: usize,
    pub tlo: usize,
    pub thi: usize,
}

/// An owned, fully parsed template: the source text, its leaf tokens,
/// and its statement groupings. Nodes borrow from it and must not
/// outlive it.
pub struct Root {
    pub source: String,
    pub marker: char,
    pub expando: char,
    pub toks: Vec<Span>,
    pub stmts: Vec<StmtSpan>,
}

impl Root {
    /// Well-formedness: tokens are exactly the word runs of the source,
    /// and the statements partition the token list in order.
    pub open spec fn wf(&self) -> bool {
        &&& wf_marker(self.marker)
        &&& wf_marker(self.expando)
        &&& spans_view(self.toks@) == spec_tokens(self.source@, self.marker, self.expando)
        &&& (self.stmts@.len() == 0 ==> self.toks@.len() == 0)
        &&& (self.stmts@.len() > 0 ==> self.stmts@[0].tlo == 0 && self.stmts@[self.stmts@.len()
            - 1].thi == self.toks@.len())
        &&& (forall|k: int|
            0 <= k < self.stmts@.len() - 1 ==> #[trigger] self.stmts@[k].thi == self.stmts@[k
                + 1].tlo)
        &&& (forall|k: int|
            0 <= k < self.stmts@.len() ==> #[trigger] self.stmts@[k].tlo < self.stmts@[k].thi
                <= self.toks@.len())
        &&& (forall|k: int|
            0 <= k < self.stmts@.len() ==> #[trigger] self.stmts@[k].start <= self.stmts@[k].end
                <= self.source@.len())
    }
}

/// Scan the source for its leaf tokens.
fn scan_tokens(source: &str, len: usize, m: char, e: char) -> (toks: Vec<Span>)
    requires
        len == source@.len(),
    ensures
        spans_view(toks@) == spec_tokens(source@, m, e),
{
    let mut toks: Vec<Span> = Vec::new();
    let mut i: usize = 0;
    while i < len
        invariant
            i <= len,
            len == source@.len(),
            spec_tokens(source@, m, e) == spans_view(toks@) + tokens_from(
                source@,
                i as int,
                m,
                e,
            ),
        decreases len - i,
    {
        let c = source.get_char(i);
        if !word_char(c, m, e) {
            i += 1;
        } else {
            let start = i;
            let mut j = i + 1;
            while j < len && word_char(source.get_char(j), m, e)
                invariant
                    start < j <= len,
                    len == source@.len(),
                    forall|p: int| start <= p < j ==> is_word_char(source@[p], m, e),
                decreases len - j,
            {
                j += 1;
            }
            proof {
                lemma_run_end_is(source@, start as int, j as int, m, e);
            }
            let ghost old_toks = toks@;
            toks.push(Span { start, end: j });
            proof {
                assert(spans_view(toks@) =~= spans_view(old_toks) + seq![
                    SpanV { start: start as int, end: j as int },
                ]);
                assert(tokens_from(source@, start as int, m, e) == seq![
                    SpanV { start: start as int, end: j as int },
                ] + tokens_from(source@, j as int, m, e));
            }
            i = j;
        }
    }
    proof {
        assert(tokens_from(source@, i as int, m, e) == Seq::<SpanV>::empty());
        assert(spans_view(toks@) =~= spans_view(toks@) + Seq::<SpanV>::empty());
    }
    toks
}

/// Close the segment `[seg_lo, seg_hi)`: trim its whitespace, give it
/// the tokens from `tok_ptr` on that start inside it, and record it as a
/// statement when it holds at least one token.
fn push_segment(
    source: &str,
    len: usize,
    toks: &Vec<Span>,
    stmts: &mut Vec<StmtSpan>,
    seg_lo: usize,
    seg_hi: usize,
    tok_ptr: usize,
) -> (new_ptr: usize)
    requires
        len == source@.len(),
        seg_lo <= seg_hi <= len,
        tok_ptr <= toks@.len(),
        forall|k: int|
            0 <= k < toks@.len() ==> #[trigger] toks@[k].start < toks@[k].end <= len,
        forall|k: int, l: int|
            0 <= k < l < toks@.len() ==> #[trigger] toks@[k].end <= #[trigger] toks@[l].start,
        forall|t: int| tok_ptr <= t < toks@.len() ==> #[trigger] toks@[t].start >= seg_lo,
        old(stmts)@.len() == 0 ==> tok_ptr == 0,
        old(stmts)@.len() > 0 ==> old(stmts)@[0].tlo == 0 && old(stmts)@[old(stmts)@.len()
            - 1].thi == tok_ptr,
        forall|k: int|
            0 <= k < old(stmts)@.len() - 1 ==> #[trigger] old(stmts)@[k].thi == old(stmts)@[k
                + 1].tlo,
        forall|k: int|
            0 <= k < old(stmts)@.len() ==> #[trigger] old(stmts)@[k].tlo < old(stmts)@[k].thi
                <= toks@.len(),
        forall|k: int|
            0 <= k < old(stmts)@.len() ==> #[trigger] old(stmts)@[k].start <= old(stmts)@[k].end
                <= len,
    ensures
        tok_ptr <= new_ptr <= toks@.len(),
        forall|t: int| new_ptr <= t < toks@.len() ==> #[trigger] toks@[t].start >= seg_hi,
        forall|t: int| tok_ptr <= t < new_ptr ==> #[trigger] toks@[t].start < seg_hi,
        final(stmts)@.len() == 0 ==> new_ptr == 0,
        final(stmts)@.len() > 0 ==> final(stmts)@[0].tlo == 0 && final(stmts)@[final(stmts)@.len() - 1].thi == new_ptr,
        forall|k: int|
            0 <= k < final(stmts)@.len() - 1 ==> #[trigger] final(stmts)@[k].thi == final(stmts)@[k + 1].tlo,
        forall|k: int|
            0 <= k < final(stmts)@.len() ==> #[trigger] final(stmts)@[k].tlo < final(stmts)@[k].thi <= toks@.len(),
        forall|k: int|
            0 <= k < final(stmts)@.len() ==> #[trigger] final(stmts)@[k].start <= final(stmts)@[k].end <= len,
{
    let mut q = tok_ptr;
    while q < toks.len() && toks[q].start < seg_hi
        invariant
            tok_ptr <= q <= toks@.len(),
            forall|t: int| tok_ptr <= t < q ==> #[trigger] toks@[t].start < seg_hi,
        decreases toks@.len() - q,
    {
        q += 1;
    }
    proof {
        if q < toks@.len() {
            assert forall|t: int| q <= t < toks@.len() implies #[trigger] toks@[t].start
                >= seg_hi by {
                if t > q {
                    assert(toks@[q as int].end <= toks@[t].start);
                }
            }
        }
    }
    if q > tok_ptr {
        let mut a = seg_lo;
        while a < seg_hi && space_char(source.get_char(a))
            invariant
                seg_lo <= a <= seg_hi <= len,
                len == source@.len(),
            decreases seg_hi - a,
        {
            a += 1;
        }
        let mut b = seg_hi;
        while b > a && space_char(source.get_char(b - 1))
            invariant
                a <= b <= seg_hi <= len,
                len == source@.len(),
            decreases b,
        {
            b -= 1;
        }
        let ghost prev = stmts@;
        stmts.push(StmtSpan { start: a, end: b, tlo: tok_ptr, thi: q });
        proof {
            assert forall|k: int| 0 <= k < stmts@.len() implies #[trigger] stmts@[k].start
                <= stmts@[k].end <= len by {
                if k < stmts@.len() - 1 {
                    assert(stmts@[k] == prev[k]);
                    assert(prev[k].start <= prev[k].end <= len);
                } else {
                    assert(stmts@[k] == (StmtSpan { start: a, end: b, tlo: tok_ptr, thi: q }));
                }
            }
        }
    } else {
        proof {
            assert forall|k: int| 0 <= k < stmts@.len() implies #[trigger] stmts@[k].start
                <= stmts@[k].end <= len by {
                assert(old(stmts)@[k].start <= old(stmts)@[k].end <= len);
            }
        }
    }
    q
}

impl Root {
    /// Parse a template under the given marker and expando characters.
    #[verifier::rlimit(30)]
    pub fn new_with(source: &str, marker: char, expando: char) -> (r: Root)
        requires
            wf_marker(marker),
            wf_marker(expando),
        ensures
            r.wf(),
            r.source@ == source@,
            r.marker == marker,
            r.expando == expando,
    {
        let len = source.unicode_len();
        let toks = scan_tokens(source, len, marker, expando);
        proof {
            lemma_tokens_props(source@, 0, marker, expando);
            assert(spans_view(toks@).len() == toks@.len());
            assert forall|k: int| 0 <= k < toks@.len() implies #[trigger] toks@[k].start
                < toks@[k].end <= len by {
                lemma_spans_view_index(toks@, k);
                assert(toks@[k].start as int == spec_tokens(source@, marker, expando)[k].start);
                assert(toks@[k].end as int == spec_tokens(source@, marker, expando)[k].end);
            }
            assert forall|k: int, l: int| 0 <= k < l < toks@.len() implies #[trigger] toks@[k].end
                <= #[trigger] toks@[l].start by {
                lemma_spans_view_index(toks@, k);
                lemma_spans_view_index(toks@, l);
                assert(toks@[k].end as int == spec_tokens(source@, marker, expando)[k].end);
                assert(toks@[l].start as int == spec_tokens(source@, marker, expando)[l].start);
            }
        }
        let mut stmts: Vec<StmtSpan> = Vec::new();
        let mut seg_lo: usize = 0;
        let mut tok_ptr: usize = 0;
        let mut pos: usize = 0;
        while pos < len
            invariant
                pos <= len,
                seg_lo <= pos,
                len == source@.len(),
                tok_ptr <= toks@.len(),
                forall|k: int|
                    0 <= k < toks@.len() ==> #[trigger] toks@[k].start < toks@[k].end <= len,
                forall|k: int, l: int|
                    0 <= k < l < toks@.len() ==> #[trigger] toks@[k].end
                        <= #[trigger] toks@[l].start,
                forall|t: int| tok_ptr <= t < toks@.len() ==> #[trigger] toks@[t].start >= seg_lo,
                stmts@.len() == 0 ==> tok_ptr == 0,
                stmts@.len() > 0 ==> stmts@[0].tlo == 0 && stmts@[stmts@.len() - 1].thi == tok_ptr,
                forall|k: int|
                    0 <= k < stmts@.len() - 1 ==> #[trigger] stmts@[k].thi == stmts@[k + 1].tlo,
                forall|k: int|
                    0 <= k < stmts@.len() ==> #[trigger] stmts@[k].tlo < stmts@[k].thi
                        <= toks@.len(),
                forall|k: int|
                    0 <= k < stmts@.len() ==> #[trigger] stmts@[k].start <= stmts@[k].end <= len,
            decreases len - pos,
        {
            if source.get_char(pos) == ';' {
                proof {
                    assert(forall|k: int|
                        0 <= k < stmts@.len() ==> #[trigger] stmts@[k].start <= stmts@[k].end
                            <= len);
                }
                tok_ptr = push_segment(source, len, &toks, &mut stmts, seg_lo, pos + 1, tok_ptr);
                seg_lo = pos + 1;
            }
            pos += 1;
        }
        tok_ptr = push_segment(source, len, &toks, &mut stmts, seg_lo, len, tok_ptr);
        proof {
            if tok_ptr < toks@.len() {
                assert(toks@[tok_ptr as int].start >= len);
                assert(toks@[tok_ptr as int].start < len);
            }
        }
        Root { source: String::from_str(source), marker, expando, toks, stmts }
    }

    /// Parse a template under the default marker character `$`.
    pub fn new(source: &str) -> (r: Root)
        ensures
            r.wf(),
            r.source@ == source@,
            r.marker == '$',
            r.expando == '$',
    {
        Root::new_with(source, '$', '$')
    }

    /// The node standing for the whole template.
    pub fn root<'t>(&'t self) -> (n: Node<'t>)
        requires
            self.wf(),
        ensures
            n.wf(),
            n.root == self,
            n.id == NodeId::Whole,
    {
        Node { root: self, id: NodeId::Whole }
    }
}

/// Which subtree of a root a node stands for.
#[derive(Clone, Copy)]
pub enum NodeId {
    Whole,
    Stmt(usize),
    Tok(usize),
}

/// A reference into a parsed tree: the subtree rooted at a contiguous
/// character span of the original source.
#[derive(Clone, Copy)]
pub struct Node<'t> {
    pub root: &'t Root,
    pub id: NodeId,
}

impl<'t> Node<'t> {
    pub open spec fn wf(self) -> bool {
        &&& self.root.wf()
        &&& match self.id {
            NodeId::Whole => true,
            NodeId::Stmt(i) => i < self.root.stmts@.len(),
            NodeId::Tok(j) => j < self.root.toks@.len(),
        }
    }

    pub open spec fn start_spec(self) -> int {
        match self.id {
            NodeId::Whole => 0,
            NodeId::Stmt(i) => self.root.stmts@[i as int].start as int,
            NodeId::Tok(j) => self.root.toks@[j as int].start as int,
        }
    }

    pub open spec fn end_spec(self) -> int {
        match self.id {
            NodeId::Whole => self.root.source@.len() as int,
            NodeId::Stmt(i) => self.root.stmts@[i as int].end as int,
            NodeId::Tok(j) => self.root.toks@[j as int].end as int,
        }
    }

    /// The node's literal source text.
    pub open spec fn text_spec(self) -> Seq<char> {
        self.root.source@.subrange(self.start_spec(), self.end_spec())
    }

    pub open spec fn child_count_spec(self) -> int {
        match self.id {
            NodeId::Whole => self.root.stmts@.len() as int,
            NodeId::Stmt(i) => self.root.stmts@[i as int].thi - self.root.stmts@[i as int].tlo,
            NodeId::Tok(j) => 0,
        }
    }

    pub open spec fn is_leaf_spec(self) -> bool {
        self.child_count_spec() == 0
    }

    /// Which node the `k`-th child is.
    pub open spec fn child_id_spec(self, k: int) -> NodeId {
        match self.id {
            NodeId::Whole => NodeId::Stmt(k as usize),
            NodeId::Stmt(i) => NodeId::Tok((self.root.stmts@[i as int].tlo + k) as usize),
            NodeId::Tok(j) => NodeId::Tok(0),
        }
    }

    pub fn is_leaf(&self) -> (b: bool)
        requires
            self.wf(),
        ensures
            b == self.is_leaf_spec(),
    {
        match self.id {
            NodeId::Whole => self.root.stmts.len() == 0,
            NodeId::Stmt(i) => self.root.stmts[i].thi == self.root.stmts[i].tlo,
            NodeId::Tok(_) => true,
        }
    }

    /// The node's literal source text, as an owned string.
    pub fn text(&self) -> (t: String)
        requires
            self.wf(),
        ensures
            t@ == self.text_spec(),
    {
        proof {
            lemma_node_bounds(*self);
        }
        let src = self.root.source.as_str();
        let a: usize;
        let b: usize;
        match self.id {
            NodeId::Whole => {
                a = 0;
                b = src.unicode_len();
            },
            NodeId::Stmt(i) => {
                a = self.root.stmts[i].start;
                b = self.root.stmts[i].end;
            },
            NodeId::Tok(j) => {
                a = self.root.toks[j].start;
                b = self.root.toks[j].end;
            },
        }
        String::from_str(src.substring_char(a, b))
    }

    /// The character offset where the node's span begins.
    pub fn start(&self) -> (p: usize)
        requires
            self.wf(),
        ensures
            p as int == self.start_spec(),
    {
        match self.id {
            NodeId::Whole => 0,
            NodeId::Stmt(i) => self.root.stmts[i].start,
            NodeId::Tok(j) => self.root.toks[j].start,
        }
    }

    /// The character offset just past the node's span.
    pub fn end(&self) -> (p: usize)
        requires
            self.wf(),
        ensures
            p as int == self.end_spec(),
    {
        match self.id {
            NodeId::Whole => self.root.source.as_str().unicode_len(),
            NodeId::Stmt(i) => self.root.stmts[i].end,
            NodeId::Tok(j) => self.root.toks[j].end,
        }
    }

    /// The node's children, in left-to-right document order.
    pub fn children(&self) -> (cs: Vec<Node<'t>>)
        requires
            self.wf(),
        ensures
            cs@.len() == self.child_count_spec(),
            forall|k: int|
                0 <= k < cs@.len() ==> (#[trigger] cs@[k]).wf() && cs@[k].root == self.root
                    && cs@[k].id == self.child_id_spec(k),
    {
        let mut cs: Vec<Node<'t>> = Vec::new();
        match self.id {
            NodeId::Whole => {
                let n = self.root.stmts.len();
                let mut k: usize = 0;
                while k < n
                    invariant
                        k <= n == self.root.stmts@.len(),
                        self.wf(),
                        self.id == NodeId::Whole,
                        cs@.len() == k,
                        forall|p: int|
                            0 <= p < k ==> (#[trigger] cs@[p]).wf() && cs@[p].root == self.root
                                && cs@[p].id == self.child_id_spec(p),
                    decreases n - k,
                {
                    cs.push(Node { root: self.root, id: NodeId::Stmt(k) });
                    k += 1;
                }
            },
            NodeId::Stmt(i) => {
                let lo = self.root.stmts[i].tlo;
                let hi = self.root.stmts[i].thi;
                let mut t: usize = lo;
                while t < hi
                    invariant
                        lo <= t <= hi,
                        self.wf(),
                        self.id == NodeId::Stmt(i),
                        i < self.root.stmts@.len(),
                        lo == self.root.stmts@[i as int].tlo,
                        hi == self.root.stmts@[i as int].thi,
                        hi <= self.root.toks@.len(),
                        cs@.len() == t - lo,
                        forall|p: int|
                            0 <= p < cs@.len() ==> (#[trigger] cs@[p]).wf() && cs@[p].root
                                == self.root && cs@[p].id == self.child_id_spec(p),
                    decreases hi - t,
                {
                    cs.push(Node { root: self.root, id: NodeId::Tok(t) });
                    t += 1;
                }
            },
            NodeId::Tok(_) => {},
        }
        cs
    }
}

/// A well-formed node's span lies within its source.
pub proof fn lemma_node_bounds(n: Node)
    requires
        n.wf(),
    ensures
        0 <= n.start_spec() <= n.end_spec() <= n.root.source@.len(),
{
    match n.id {
        NodeId::Whole => {},
        NodeId::Stmt(i) => {},
        NodeId::Tok(j) => {
            lemma_tokens_props(n.root.source@, 0, n.root.marker, n.root.expando);
            lemma_spans_view_index(n.root.toks@, j as int);
            assert(n.root.toks@[j as int].start as int == spec_tokens(
                n.root.source@,
                n.root.marker,
                n.root.expando,
            )[j as int].start);
            assert(n.root.toks@[j as int].end as int == spec_tokens(
                n.root.source@,
                n.root.marker,
                n.root.expando,
            )[j as int].end);
        },
    }
}

} // verus!
