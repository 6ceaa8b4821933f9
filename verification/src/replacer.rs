//! The replacement engine: parse a replacement template, locate its
//! placeholder leaves, resolve each against the capture environment,
//! compute an ordered, non-overlapping list of textual edits, and stitch
//! the output string in one linear pass.

use crate::env::{CaptureV, MatchResult, MetaVarEnv};
use crate::meta_var::{extract_meta_var_in, spec_extract_meta_var};
use crate::tree::{
    lemma_node_bounds, lemma_spans_view_index, lemma_spans_view_len, lemma_tokens_props,
    lemma_no_tokens, span_v, spans_view, spec_tokens, is_word_char, Node, NodeId, Root, SpanV,
};
use vstd::prelude::*;

verus! {

/// One textual substitution: delete `deleted_length` characters at
/// `position` and put `inserted_text` there.
pub struct Edit {
    pub position: usize,
    pub deleted_length: usize,
    pub inserted_text: String,
}

/// Mathematical view of one edit.
pub ghost struct EditV {
    pub position: int,
    pub deleted_length: int,
    pub inserted_text: Seq<char>,
}

pub open spec fn edit_v(ed: Edit) -> EditV {
    EditV {
        position: ed.position as int,
        deleted_length: ed.deleted_length as int,
        inserted_text: ed.inserted_text@,
    }
}

pub open spec fn edits_view(s: Seq<Edit>) -> Seq<EditV> {
    s.map(|i: int, ed: Edit| edit_v(ed))
}

pub proof fn lemma_edits_view_index(s: Seq<Edit>, k: int)
    requires
        0 <= k < s.len(),
    ensures
        edits_view(s).len() == s.len(),
        edits_view(s)[k] == edit_v(s[k]),
{
}

/// What a leaf with text `t` is replaced by, if anything: its text must
/// parse as a placeholder under expando `e` whose logical name the
/// environment binds. An unresolved placeholder is left untouched.
pub open spec fn leaf_replacement(
    t: Seq<char>,
    e: char,
    env: Map<Seq<char>, CaptureV>,
) -> Option<Seq<char>> {
    match spec_extract_meta_var(t, e) {
        Some(mv) => if env.contains_key(mv.name()) {
            Some(env[mv.name()].inserted_text())
        } else {
            None
        },
        None => None,
    }
}

/// The text of one token.
pub open spec fn token_text(s: Seq<char>, t: SpanV) -> Seq<char> {
    s.subrange(t.start, t.end)
}

/// The edits for the tokens `[lo, hi)`, in document order: one edit per
/// placeholder leaf that the environment resolves.
pub open spec fn edit_list_range(
    s: Seq<char>,
    toks: Seq<SpanV>,
    lo: int,
    hi: int,
    e: char,
    env: Map<Seq<char>, CaptureV>,
) -> Seq<EditV>
    decreases hi - lo,
{
    if !(0 <= lo < hi <= toks.len()) {
        Seq::empty()
    } else {
        let rest = edit_list_range(s, toks, lo + 1, hi, e, env);
        match leaf_replacement(token_text(s, toks[lo]), e, env) {
            Some(rep) => seq![
                EditV {
                    position: toks[lo].start,
                    deleted_length: toks[lo].end - toks[lo].start,
                    inserted_text: rep,
                },
            ] + rest,
            None => rest,
        }
    }
}

/// The full edit list of one rewrite, before the terminal sentinel.
pub open spec fn spec_edits(
    s: Seq<char>,
    m: char,
    e: char,
    env: Map<Seq<char>, CaptureV>,
) -> Seq<EditV> {
    edit_list_range(s, spec_tokens(s, m, e), 0, spec_tokens(s, m, e).len() as int, e, env)
}

/// The terminal sentinel edit, which flushes the trailing unedited
/// source.
pub open spec fn sentinel(s: Seq<char>) -> EditV {
    EditV { position: s.len() as int, deleted_length: 0, inserted_text: Seq::empty() }
}

/// The stitched output from edit `i` on, the cursor standing at
/// `cursor`: copy up to the edit's position, put its text in, and jump
/// the deleted span.
pub open spec fn stitch_from(s: Seq<char>, edits: Seq<EditV>, i: int, cursor: int) -> Seq<char>
    decreases edits.len() - i,
{
    if !(0 <= i < edits.len()) {
        Seq::empty()
    } else {
        s.subrange(cursor, edits[i].position) + edits[i].inserted_text + stitch_from(
            s,
            edits,
            i + 1,
            edits[i].position + edits[i].deleted_length,
        )
    }
}

/// The exact output of one rewrite of `s` under marker `m`, expando `e`
/// and the given bindings.
pub open spec fn spec_replace(
    s: Seq<char>,
    m: char,
    e: char,
    env: Map<Seq<char>, CaptureV>,
) -> Seq<char> {
    stitch_from(s, spec_edits(s, m, e, env).push(sentinel(s)), 0, 0)
}

/// An edit list over ordered tokens is itself ordered: every edit lies
/// within the source, deletes at least one character, begins no earlier
/// than the first token, and ends before the next edit begins.
pub proof fn lemma_edit_range_props(
    s: Seq<char>,
    toks: Seq<SpanV>,
    lo: int,
    hi: int,
    e: char,
    env: Map<Seq<char>, CaptureV>,
)
    requires
        0 <= lo <= hi <= toks.len(),
        forall|k: int|
            0 <= k < toks.len() ==> 0 <= #[trigger] toks[k].start < toks[k].end <= s.len(),
        forall|k: int, l: int|
            0 <= k < l < toks.len() ==> #[trigger] toks[k].end <= #[trigger] toks[l].start,
    ensures
        forall|i: int|
            0 <= i < edit_list_range(s, toks, lo, hi, e, env).len()
                ==> #[trigger] edit_list_range(s, toks, lo, hi, e, env)[i].deleted_length > 0,
        forall|i: int|
            0 <= i < edit_list_range(s, toks, lo, hi, e, env).len() ==> 0
                <= #[trigger] edit_list_range(s, toks, lo, hi, e, env)[i].position
                && edit_list_range(s, toks, lo, hi, e, env)[i].position + edit_list_range(
                s,
                toks,
                lo,
                hi,
                e,
                env,
            )[i].deleted_length <= s.len(),
        lo < hi ==> forall|i: int|
            0 <= i < edit_list_range(s, toks, lo, hi, e, env).len()
                ==> #[trigger] edit_list_range(s, toks, lo, hi, e, env)[i].position
                >= toks[lo].start,
        forall|i: int, j: int|
            0 <= i < j < edit_list_range(s, toks, lo, hi, e, env).len()
                ==> #[trigger] edit_list_range(s, toks, lo, hi, e, env)[i].position
                + edit_list_range(s, toks, lo, hi, e, env)[i].deleted_length
                <= #[trigger] edit_list_range(s, toks, lo, hi, e, env)[j].position,
    decreases hi - lo,
{
    if lo < hi {
        lemma_edit_range_props(s, toks, lo + 1, hi, e, env);
        let cur = edit_list_range(s, toks, lo, hi, e, env);
        let rest = edit_list_range(s, toks, lo + 1, hi, e, env);
        match leaf_replacement(token_text(s, toks[lo]), e, env) {
            Some(rep) => {
                let head = EditV {
                    position: toks[lo].start,
                    deleted_length: toks[lo].end - toks[lo].start,
                    inserted_text: rep,
                };
                assert(cur == seq![head] + rest);
                assert(cur[0] == head);
                assert(forall|i: int| 1 <= i < cur.len() ==> cur[i] == rest[i - 1]);
                assert forall|i: int| 0 <= i < cur.len() implies #[trigger] cur[i].position
                    >= toks[lo].start by {
                    if i >= 1 {
                        if lo + 1 < hi {
                            assert(rest[i - 1].position >= toks[lo + 1].start);
                            assert(toks[lo].end <= toks[lo + 1].start);
                        } else {
                            assert(rest.len() == 0);
                        }
                    }
                }
                assert forall|i: int, j: int| 0 <= i < j < cur.len() implies
                    #[trigger] cur[i].position + cur[i].deleted_length
                    <= #[trigger] cur[j].position by {
                    if i == 0 {
                        assert(lo + 1 < hi);
                        assert(rest[j - 1].position >= toks[lo + 1].start);
                        assert(toks[lo].end <= toks[lo + 1].start);
                    }
                }
            },
            None => {
                assert(cur == rest);
                assert forall|i: int| 0 <= i < cur.len() implies #[trigger] cur[i].position
                    >= toks[lo].start by {
                    if lo + 1 < hi {
                        assert(cur[i].position >= toks[lo + 1].start);
                        assert(toks[lo].end <= toks[lo + 1].start);
                    } else {
                        assert(cur.len() == 0);
                    }
                }
            },
        }
    }
}

pub open spec fn opt_string_view(r: Option<String>) -> Option<Seq<char>> {
    match r {
        Some(s) => Some(s@),
        None => None,
    }
}

/// For a leaf node, the text to substitute for it, if its text is a
/// placeholder that the environment resolves; `None` for internal
/// nodes, ordinary leaves, and unresolved placeholders.
pub fn get_meta_var_replacement(node: &Node, env: &MetaVarEnv) -> (r: Option<String>)
    requires
        node.wf(),
        env.wf(),
    ensures
        node.is_leaf_spec() ==> opt_string_view(r) == leaf_replacement(
            node.text_spec(),
            node.root.expando,
            env.view_env(),
        ),
        !node.is_leaf_spec() ==> r is None,
{
    if !node.is_leaf() {
        return None;
    }
    let text = node.text();
    let mv = match extract_meta_var_in(text.as_str(), node.root.expando) {
        Some(mv) => mv,
        None => {
            return None;
        },
    };
    let mr = match env.get(&mv) {
        Some(m) => m,
        None => {
            return None;
        },
    };
    match mr {
        MatchResult::Single(n) => Some(n.text()),
        MatchResult::Multi(ns) => {
            let ghost texts = ns@.map(|k: int, nd: Node| nd.text_spec());
            let mut out = String::new();
            let mut i: usize = 0;
            while i < ns.len()
        invariant
            i <= ns@.len(),
            texts == ns@.map(|k: int, nd: Node| nd.text_spec()),
            texts.len() == ns@.len(),
            forall|k: int| 0 <= k < ns@.len() ==> (#[trigger] ns@[k]).wf(),
            out@ == crate::env::concat_texts(texts.take(i as int)),
        decreases ns@.len() - i,
            {
                let t = ns[i].text();
                out.append(t.as_str());
                proof {
                    assert(texts[i as int] == ns@[i as int].text_spec());
                    assert(texts.take(i as int + 1).drop_last() =~= texts.take(i as int));
                    assert(texts.take(i as int + 1).last() == texts[i as int]);
                }
                i += 1;
            }
            proof {
                assert(texts.take(ns@.len() as int) =~= texts);
            }
            Some(out)
        },
    }
}

/// The rank a node's kind has in the tree, used for termination of the
/// document-order walk.
pub open spec fn node_rank(n: Node) -> int {
    match n.id {
        NodeId::Whole => 2,
        NodeId::Stmt(i) => 1,
        NodeId::Tok(j) => 0,
    }
}

/// The first token of the subtree under `n`.
pub open spec fn node_tok_lo(n: Node) -> int {
    match n.id {
        NodeId::Whole => 0,
        NodeId::Stmt(i) => n.root.stmts@[i as int].tlo as int,
        NodeId::Tok(j) => j as int,
    }
}

/// Just past the last token of the subtree under `n`.
pub open spec fn node_tok_hi(n: Node) -> int {
    match n.id {
        NodeId::Whole => n.root.toks@.len() as int,
        NodeId::Stmt(i) => n.root.stmts@[i as int].thi as int,
        NodeId::Tok(j) => j + 1,
    }
}

/// Walk the subtree under `node` in left-to-right document order and
/// append one edit for every resolved placeholder leaf. A placeholder
/// leaf is not descended into.
fn collect_edits(node: &Node, env: &MetaVarEnv, edits: &mut Vec<Edit>)
    requires
        node.wf(),
        env.wf(),
    ensures
        edits_view(final(edits)@) == edits_view(old(edits)@) + edit_list_range(
            node.root.source@,
            spec_tokens(node.root.source@, node.root.marker, node.root.expando),
            node_tok_lo(*node),
            node_tok_hi(*node),
            node.root.expando,
            env.view_env(),
        ),
    decreases node_rank(*node),
{
    let ghost s = node.root.source@;
    let ghost m = node.root.marker;
    let ghost e = node.root.expando;
    let ghost toks = spec_tokens(s, m, e);
    let ghost envv = env.view_env();
    if node.is_leaf() {
        let rep = get_meta_var_replacement(node, env);
        proof {
            match node.id {
                NodeId::Whole => {
                    assert(node.root.stmts@.len() == 0);
                    assert(node.root.toks@.len() == 0);
                    assert(toks.len() == 0);
                    lemma_no_tokens(s, 0, m, e);
                    if spec_extract_meta_var(node.text_spec(), e) is Some {
                        assert(node.text_spec() =~= s);
                        assert(s.len() >= 2);
                        assert(s[0] == e);
                        assert(is_word_char(s[0], m, e));
                        assert(false);
                    }
                    assert(leaf_replacement(node.text_spec(), e, envv) is None);
                },
                NodeId::Stmt(i) => {
                    assert(false);
                },
                NodeId::Tok(j) => {
                    lemma_spans_view_index(node.root.toks@, j as int);
                    assert(toks[j as int] == span_v(node.root.toks@[j as int]));
                    assert(node.text_spec() == token_text(s, toks[j as int]));
                },
            }
        }
        match rep {
            Some(text) => {
                proof {
                    lemma_node_bounds(*node);
                }
                let a = node.start();
                let b = node.end();
                let ghost prev = edits@;
                let ghost tv = text@;
                edits.push(Edit { position: a, deleted_length: b - a, inserted_text: text });
                proof {
                    let ghost j = node_tok_lo(*node);
                    let head = EditV {
                        position: toks[j].start,
                        deleted_length: toks[j].end - toks[j].start,
                        inserted_text: tv,
                    };
                    assert(edit_list_range(s, toks, j, j + 1, e, envv) == seq![head]
                        + edit_list_range(s, toks, j + 1, j + 1, e, envv));
                    assert(edit_list_range(s, toks, j + 1, j + 1, e, envv)
                        =~= Seq::<EditV>::empty());
                    assert(edit_list_range(s, toks, j, j + 1, e, envv) =~= seq![head]);
                    assert(edits_view(edits@) =~= edits_view(prev) + seq![head]);
                }
            },
            None => {
                proof {
                    let lo = node_tok_lo(*node);
                    let hi = node_tok_hi(*node);
                    if node.id is Tok {
                        assert(edit_list_range(s, toks, lo + 1, hi, e, envv)
                            =~= Seq::<EditV>::empty());
                    }
                    assert(edit_list_range(s, toks, lo, hi, e, envv) =~= Seq::<EditV>::empty());
                    assert(edits_view(edits@) =~= edits_view(edits@) + Seq::<EditV>::empty());
                }
            },
        }
    } else {
        match node.id {
            NodeId::Whole => {
                let n = node.root.stmts.len();
                let mut k: usize = 0;
                while k < n
        invariant
            k <= n == node.root.stmts@.len(),
            node.wf(),
            env.wf(),
            node.id == NodeId::Whole,
            s == node.root.source@,
            m == node.root.marker,
            e == node.root.expando,
            toks == spec_tokens(s, m, e),
            envv == env.view_env(),
            edits_view(edits@) == edits_view(old(edits)@) + edit_list_range(
                s,
                toks,
                0,
                if k == 0 {
                    0
                } else {
                    node.root.stmts@[k - 1].thi as int
                },
                e,
                envv,
            ),
        decreases n - k,
                {
                    let ghost hi0: int = if k == 0 {
                        0
                    } else {
                        node.root.stmts@[k as int - 1].thi as int
                    };
                    let child = Node { root: node.root, id: NodeId::Stmt(k) };
                    proof {
                        assert(child.wf());
                        assert(node_tok_lo(child) == hi0);
                    }
                    let ghost before = edits@;
                    collect_edits(&child, env, edits);
                    proof {
                        let hi1 = node.root.stmts@[k as int].thi as int;
                        lemma_edit_range_split(s, toks, 0, hi0, hi1, e, envv);
                        assert(edits_view(edits@) =~= edits_view(old(edits)@) + edit_list_range(
                            s,
                            toks,
                            0,
                            hi1,
                            e,
                            envv,
                        ));
                    }
                    k += 1;
                }
            },
            NodeId::Stmt(i) => {
                let lo = node.root.stmts[i].tlo;
                let hi = node.root.stmts[i].thi;
                let mut t: usize = lo;
                while t < hi
        invariant
            lo <= t <= hi,
            node.wf(),
            env.wf(),
            node.id == NodeId::Stmt(i),
            i < node.root.stmts@.len(),
            lo == node.root.stmts@[i as int].tlo,
            hi == node.root.stmts@[i as int].thi,
            hi <= node.root.toks@.len(),
            toks.len() == node.root.toks@.len(),
            s == node.root.source@,
            m == node.root.marker,
            e == node.root.expando,
            toks == spec_tokens(s, m, e),
            envv == env.view_env(),
            edits_view(edits@) == edits_view(old(edits)@) + edit_list_range(
                s,
                toks,
                lo as int,
                t as int,
                e,
                envv,
            ),
        decreases hi - t,
                {
                    let child = Node { root: node.root, id: NodeId::Tok(t) };
                    proof {
                        assert(child.wf());
                    }
                    collect_edits(&child, env, edits);
                    proof {
                        lemma_edit_range_split(s, toks, lo as int, t as int, t as int + 1, e, envv);
                        assert(edits_view(edits@) =~= edits_view(old(edits)@) + edit_list_range(
                            s,
                            toks,
                            lo as int,
                            t as int + 1,
                            e,
                            envv,
                        ));
                    }
                    t += 1;
                }
            },
            NodeId::Tok(_) => {
                proof {
                    assert(false);
                }
            },
        }
    }
}

/// Splitting a token range splits its edit list.
pub proof fn lemma_edit_range_split(
    s: Seq<char>,
    toks: Seq<SpanV>,
    lo: int,
    mid: int,
    hi: int,
    e: char,
    env: Map<Seq<char>, CaptureV>,
)
    requires
        0 <= lo <= mid <= hi <= toks.len(),
    ensures
        edit_list_range(s, toks, lo, hi, e, env) == edit_list_range(s, toks, lo, mid, e, env)
            + edit_list_range(s, toks, mid, hi, e, env),
    decreases mid - lo,
{
    if lo == mid {
        assert(edit_list_range(s, toks, lo, mid, e, env) =~= Seq::<EditV>::empty());
        assert(edit_list_range(s, toks, lo, hi, e, env) =~= Seq::<EditV>::empty()
            + edit_list_range(s, toks, mid, hi, e, env));
    } else {
        lemma_edit_range_split(s, toks, lo + 1, mid, hi, e, env);
        let a = edit_list_range(s, toks, lo + 1, mid, e, env);
        let b = edit_list_range(s, toks, mid, hi, e, env);
        if lo < hi {
            match leaf_replacement(token_text(s, toks[lo]), e, env) {
                Some(rep) => {
                    let head = seq![
                        EditV {
                            position: toks[lo].start,
                            deleted_length: toks[lo].end - toks[lo].start,
                            inserted_text: rep,
                        },
                    ];
                    assert(edit_list_range(s, toks, lo, hi, e, env) == head + (a + b));
                    assert(edit_list_range(s, toks, lo, mid, e, env) == head + a);
                    assert(head + (a + b) =~= (head + a) + b);
                },
                None => {
                },
            }
        }
    }
}

/// One full rewrite of a parsed template against an environment:
/// collect the edits in document order, append the terminal sentinel,
/// and stitch the output in one linear pass.
pub fn rewrite(root: &Root, env: &MetaVarEnv) -> (r: String)
    requires
        root.wf(),
        env.wf(),
    ensures
        r@ == spec_replace(root.source@, root.marker, root.expando, env.view_env()),
{
    let ghost s = root.source@;
    let ghost m = root.marker;
    let ghost e = root.expando;
    let ghost envv = env.view_env();
    let rn = root.root();
    let mut edits: Vec<Edit> = Vec::new();
    collect_edits(&rn, env, &mut edits);
    let ghost ev = spec_edits(s, m, e, envv);
    proof {
        lemma_spans_view_len(root.toks@);
        assert(node_tok_hi(rn) == spec_tokens(s, m, e).len() as int);
        assert(edits_view(edits@) =~= ev);
        lemma_tokens_props(s, 0, m, e);
        lemma_edit_range_props(s, spec_tokens(s, m, e), 0, spec_tokens(s, m, e).len() as int, e, envv);
    }
    let len = root.source.as_str().unicode_len();
    let ghost prev = edits@;
    edits.push(Edit { position: len, deleted_length: 0, inserted_text: String::new() });
    let ghost fv = edits_view(edits@);
    proof {
        assert(fv =~= ev.push(sentinel(s)));
        assert forall|i: int| 0 <= i < fv.len() implies 0 <= #[trigger] fv[i].position
            && fv[i].position + fv[i].deleted_length <= s.len() by {
            if i < ev.len() {
                assert(fv[i] == ev[i]);
            } else {
                assert(fv[i] == sentinel(s));
            }
        }
        assert forall|i: int, j: int| 0 <= i < j < fv.len() implies #[trigger] fv[i].position
            + fv[i].deleted_length <= #[trigger] fv[j].position by {
            assert(fv[i] == ev[i]);
            if j < ev.len() {
                assert(fv[j] == ev[j]);
            } else {
                assert(fv[j] == sentinel(s));
            }
        }
    }
    let n_ed = edits.len();
    let mut ret = String::new();
    let mut start: usize = 0;
    let mut k: usize = 0;
    while k < n_ed
        invariant
            k <= n_ed == edits@.len(),
            len == s.len(),
            s == root.source@,
            edits_view(edits@) == fv,
            fv.len() == n_ed,
            forall|i: int|
                0 <= i < fv.len() ==> 0 <= #[trigger] fv[i].position && fv[i].position
                    + fv[i].deleted_length <= len,
            forall|i: int, j: int|
                0 <= i < j < fv.len() ==> #[trigger] fv[i].position + fv[i].deleted_length
                    <= #[trigger] fv[j].position,
            start <= len,
            k < n_ed ==> start <= fv[k as int].position,
            ret@ + stitch_from(s, fv, k as int, start as int) == stitch_from(s, fv, 0, 0),
        decreases n_ed - k,
    {
        proof {
            lemma_edits_view_index(edits@, k as int);
        }
        let ed_pos = edits[k].position;
        let ed_del = edits[k].deleted_length;
        let piece = root.source.as_str().substring_char(start, ed_pos);
        ret.append(piece);
        ret.append(edits[k].inserted_text.as_str());
        proof {
            assert(stitch_from(s, fv, k as int, start as int) == s.subrange(
                start as int,
                ed_pos as int,
            ) + fv[k as int].inserted_text + stitch_from(
                s,
                fv,
                k as int + 1,
                ed_pos as int + ed_del as int,
            ));
            assert(ret@ + stitch_from(s, fv, k as int + 1, ed_pos as int + ed_del as int)
                =~= stitch_from(s, fv, 0, 0));
        }
        start = ed_pos + ed_del;
        k += 1;
    }
    proof {
        assert(stitch_from(s, fv, n_ed as int, start as int) =~= Seq::<char>::empty());
        assert(ret@ =~= ret@ + Seq::<char>::empty());
        assert(fv == ev.push(sentinel(s)));
        assert(ret@ == spec_replace(s, m, e, envv));
    }
    ret
}

/// Something that renders the replacement text for one match.
pub trait Replacer {
    /// The exact text this replacer produces under the given bindings.
    spec fn replacement_spec(&self, env: Map<Seq<char>, CaptureV>) -> Seq<char>;

    /// Whether the replacer is fit to run.
    spec fn replacer_wf(&self) -> bool;

    /// Render the replacement text for one match.
    fn generate_replacement(&self, env: &MetaVarEnv) -> (r: String)
        requires
            self.replacer_wf(),
            env.wf(),
        ensures
            r@ == self.replacement_spec(env.view_env()),
    ;
}

/// A string template: parsed under the default grammar, walked for
/// placeholders, and stitched back.
impl Replacer for String {
    open spec fn replacement_spec(&self, env: Map<Seq<char>, CaptureV>) -> Seq<char> {
        spec_replace(self@, '$', '$', env)
    }

    open spec fn replacer_wf(&self) -> bool {
        true
    }

    fn generate_replacement(&self, env: &MetaVarEnv) -> (r: String) {
        let root = Root::new(self.as_str());
        rewrite(&root, env)
    }
}

/// A tree fragment used verbatim as its own replacement: the output is
/// its literal source text, independent of the environment, with no
/// re-parsing.
impl<'t> Replacer for Node<'t> {
    open spec fn replacement_spec(&self, env: Map<Seq<char>, CaptureV>) -> Seq<char> {
        self.text_spec()
    }

    open spec fn replacer_wf(&self) -> bool {
        self.wf()
    }

    fn generate_replacement(&self, env: &MetaVarEnv) -> (r: String) {
        self.text()
    }
}

/// Whether no token of the template is recognized as a placeholder.
pub open spec fn has_no_placeholders(s: Seq<char>, m: char, e: char) -> bool {
    forall|k: int|
        0 <= k < spec_tokens(s, m, e).len() ==> spec_extract_meta_var(
            token_text(s, #[trigger] spec_tokens(s, m, e)[k]),
            e,
        ) is None
}

proof fn lemma_no_placeholder_edits(
    s: Seq<char>,
    toks: Seq<SpanV>,
    lo: int,
    hi: int,
    e: char,
    env: Map<Seq<char>, CaptureV>,
)
    requires
        forall|k: int|
            lo <= k < hi && 0 <= k < toks.len() ==> spec_extract_meta_var(
                token_text(s, #[trigger] toks[k]),
                e,
            ) is None,
    ensures
        edit_list_range(s, toks, lo, hi, e, env) == Seq::<EditV>::empty(),
    decreases hi - lo,
{
    if 0 <= lo < hi <= toks.len() {
        lemma_no_placeholder_edits(s, toks, lo + 1, hi, e, env);
    }
}

/// No-op invariant: a template in which no token is a recognized
/// placeholder rewrites to itself under every environment.
pub proof fn lemma_no_placeholder_no_op(s: Seq<char>, m: char, e: char, env: Map<
    Seq<char>,
    CaptureV,
>)
    requires
        has_no_placeholders(s, m, e),
    ensures
        spec_replace(s, m, e, env) == s,
{
    lemma_no_placeholder_edits(
        s,
        spec_tokens(s, m, e),
        0,
        spec_tokens(s, m, e).len() as int,
        e,
        env,
    );
    let fv = spec_edits(s, m, e, env).push(sentinel(s));
    assert(fv.len() == 1);
    assert(fv[0] == sentinel(s));
    assert(stitch_from(s, fv, 1, s.len() as int) =~= Seq::<char>::empty());
    assert(s.subrange(0, s.len() as int) =~= s);
    assert(spec_replace(s, m, e, env) =~= s);
}

/// Round trip: a template with zero placeholders comes back unchanged
/// under the empty environment, and under any environment of unrelated,
/// unused bindings.
pub proof fn lemma_round_trip_no_placeholders(
    s: Seq<char>,
    m: char,
    e: char,
    env: Map<Seq<char>, CaptureV>,
)
    requires
        has_no_placeholders(s, m, e),
    ensures
        spec_replace(s, m, e, Map::<Seq<char>, CaptureV>::empty()) == s,
        spec_replace(s, m, e, env) == s,
{
    lemma_no_placeholder_no_op(s, m, e, Map::<Seq<char>, CaptureV>::empty());
    lemma_no_placeholder_no_op(s, m, e, env);
}

/// Non-overlap: the computed edit list, in the order produced, has
/// strictly increasing positions and mutually disjoint deleted ranges,
/// all within the source.
pub proof fn lemma_edits_non_overlapping(s: Seq<char>, m: char, e: char, env: Map<
    Seq<char>,
    CaptureV,
>)
    ensures
        forall|i: int|
            0 <= i < spec_edits(s, m, e, env).len() ==> 0 <= #[trigger] spec_edits(
                s,
                m,
                e,
                env,
            )[i].position && spec_edits(s, m, e, env)[i].position + spec_edits(
                s,
                m,
                e,
                env,
            )[i].deleted_length <= s.len(),
        forall|i: int, j: int|
            0 <= i < j < spec_edits(s, m, e, env).len() ==> #[trigger] spec_edits(
                s,
                m,
                e,
                env,
            )[i].position + spec_edits(s, m, e, env)[i].deleted_length <= #[trigger] spec_edits(
                s,
                m,
                e,
                env,
            )[j].position,
        forall|i: int, j: int|
            0 <= i < j < spec_edits(s, m, e, env).len() ==> #[trigger] spec_edits(
                s,
                m,
                e,
                env,
            )[i].position < #[trigger] spec_edits(s, m, e, env)[j].position,
{
    lemma_tokens_props(s, 0, m, e);
    lemma_edit_range_props(s, spec_tokens(s, m, e), 0, spec_tokens(s, m, e).len() as int, e, env);
}

} // verus!
