//! The parser keeps all of the source.  When parsing reports no diagnostic,
//! the tree together with the trivia left after it holds every token and
//! every piece of trivia of the input: the comments (taken out as comment
//! nodes, or still in a token's leading trivia) in the input's order, and
//! the tokens with the other trivia in the input's order.
use vstd::prelude::*;
use crate::cst::token::{TokenKind, CstToken, TriviaKind, Trivia};
use crate::cst::model::{
    PState, TokenModel, ValueM, NodeM, BlockM, CloseM, tokens_m, trivia_left, progressed, advanced, emitted,
    drain_m, entry_m, assignment_m, value_m_at, block_m_at, block_entries_m, skip_m, script_m, classify_m,
    initial_state, cst_of, first_comment,
};

verus! {

/// A piece of the source: a piece of trivia that is not a comment, a
/// comment, or a token (without its trivia).
pub enum Piece {
    Layout(Trivia),
    Comment(Trivia),
    Tok(TokenModel),
}

/// A token without its leading trivia.
pub open spec fn bare(t: TokenModel) -> TokenModel {
    TokenModel { trivia: Seq::empty(), ..t }
}

pub open spec fn trivia_piece(t: Trivia) -> Piece {
    if t.kind == TriviaKind::Comment {
        Piece::Comment(t)
    } else {
        Piece::Layout(t)
    }
}

pub open spec fn trivia_pieces(tr: Seq<Trivia>) -> Seq<Piece> {
    tr.map_values(|t: Trivia| trivia_piece(t))
}

/// A token's pieces: its leading trivia, then the token.
pub open spec fn tok_pieces(t: TokenModel) -> Seq<Piece> {
    trivia_pieces(t.trivia) + seq![Piece::Tok(bare(t))]
}

/// The comments among `ps`, in order.
pub open spec fn comments_of(ps: Seq<Piece>) -> Seq<Trivia>
    decreases ps.len(),
{
    if ps.len() == 0 {
        Seq::empty()
    } else {
        (match ps[0] {
            Piece::Comment(c) => seq![c],
            _ => Seq::empty(),
        }) + comments_of(ps.drop_first())
    }
}

/// The pieces of `ps` that are not comments, in order.
pub open spec fn layout_of(ps: Seq<Piece>) -> Seq<Piece>
    decreases ps.len(),
{
    if ps.len() == 0 {
        Seq::empty()
    } else {
        (match ps[0] {
            Piece::Comment(_) => Seq::empty(),
            _ => seq![ps[0]],
        }) + layout_of(ps.drop_first())
    }
}

/// The same comments in the same order, and the same other pieces in the
/// same order.
pub open spec fn same_source(a: Seq<Piece>, b: Seq<Piece>) -> bool {
    comments_of(a) == comments_of(b) && layout_of(a) == layout_of(b)
}

pub open spec fn value_pieces(v: ValueM) -> Seq<Piece>
    decreases v,
{
    match v {
        ValueM::Ident(t) => tok_pieces(t),
        ValueM::String(t) => tok_pieces(t),
        ValueM::Number(t) => tok_pieces(t),
        ValueM::Boolean(t) => tok_pieces(t),
        ValueM::Block(b) => block_pieces(b),
        ValueM::TaggedBlock(tag, b) => tok_pieces(tag) + block_pieces(b),
        ValueM::Error(_) => Seq::empty(),
    }
}

pub open spec fn block_pieces(b: BlockM) -> Seq<Piece>
    decreases b,
{
    tok_pieces(b.open) + nodes_pieces(b.entries) + match b.close {
        CloseM::Present(t) => tok_pieces(t),
        CloseM::Missing(_) => Seq::empty(),
    }
}

pub open spec fn node_pieces(n: NodeM) -> Seq<Piece>
    decreases n,
{
    match n {
        NodeM::Assignment(k, op, v) => tok_pieces(k) + tok_pieces(op) + value_pieces(v),
        NodeM::EntryValue(v) => value_pieces(v),
        NodeM::EntryComment(c) => seq![Piece::Comment(c)],
        NodeM::Error(_) => Seq::empty(),
    }
}

/// The pieces of the nodes, in tree order.
pub open spec fn nodes_pieces(ns: Seq<NodeM>) -> Seq<Piece>
    decreases ns,
{
    if ns.len() == 0 {
        Seq::empty()
    } else {
        node_pieces(ns[0]) + nodes_pieces(ns.drop_first())
    }
}

/// The pieces of a sequence of tokens, in order.
pub open spec fn all_pieces(ts: Seq<TokenModel>) -> Seq<Piece>
    decreases ts.len(),
{
    if ts.len() == 0 {
        Seq::empty()
    } else {
        tok_pieces(ts[0]) + all_pieces(ts.drop_first())
    }
}

/// The pieces of the input tokens: each token's leading trivia and the
/// token, then the trivia before the end of the file.
pub open spec fn input_pieces(tokens: Seq<CstToken>) -> Seq<Piece> {
    all_pieces(tokens_m(tokens).drop_last()) + trivia_pieces(tokens_m(tokens).last().trivia)
}

// ---------------------------------------------------------------------------
// Projections
// ---------------------------------------------------------------------------

proof fn lemma_split(a: Seq<Piece>, b: Seq<Piece>)
    ensures
        comments_of(a + b) == comments_of(a) + comments_of(b),
        layout_of(a + b) == layout_of(a) + layout_of(b),
    decreases a.len(),
{
    if a.len() == 0 {
        assert(a + b =~= b);
        assert(comments_of(a) + comments_of(b) =~= comments_of(b));
        assert(layout_of(a) + layout_of(b) =~= layout_of(b));
    } else {
        assert((a + b)[0] == a[0]);
        assert((a + b).drop_first() =~= a.drop_first() + b);
        lemma_split(a.drop_first(), b);
        let hc: Seq<Trivia> = match a[0] {
            Piece::Comment(c) => seq![c],
            _ => Seq::empty(),
        };
        let hl: Seq<Piece> = match a[0] {
            Piece::Comment(_) => Seq::empty(),
            _ => seq![a[0]],
        };
        assert(hc + (comments_of(a.drop_first()) + comments_of(b)) =~= (hc + comments_of(a.drop_first()))
            + comments_of(b));
        assert(hl + (layout_of(a.drop_first()) + layout_of(b)) =~= (hl + layout_of(a.drop_first()))
            + layout_of(b));
    }
}

proof fn lemma_same_cat(a: Seq<Piece>, a2: Seq<Piece>, b: Seq<Piece>, b2: Seq<Piece>)
    requires
        same_source(a, a2),
        same_source(b, b2),
    ensures
        same_source(a + b, a2 + b2),
{
    lemma_split(a, b);
    lemma_split(a2, b2);
}

proof fn lemma_trivia_pieces_cat(x: Seq<Trivia>, y: Seq<Trivia>)
    ensures
        trivia_pieces(x + y) == trivia_pieces(x) + trivia_pieces(y),
{
    assert(trivia_pieces(x + y) =~= trivia_pieces(x) + trivia_pieces(y));
}

/// Comment pieces.
pub open spec fn comment_pieces(cs: Seq<Trivia>) -> Seq<Piece> {
    cs.map_values(|c: Trivia| Piece::Comment(c))
}

proof fn lemma_comment_pieces(cs: Seq<Trivia>)
    ensures
        comments_of(comment_pieces(cs)) == cs,
        layout_of(comment_pieces(cs)) == Seq::<Piece>::empty(),
    decreases cs.len(),
{
    if cs.len() > 0 {
        assert(comment_pieces(cs).drop_first() =~= comment_pieces(cs.drop_first()));
        lemma_comment_pieces(cs.drop_first());
        assert(seq![cs[0]] + cs.drop_first() =~= cs);
        assert(Seq::<Piece>::empty() + Seq::<Piece>::empty() =~= Seq::<Piece>::empty());
    } else {
        assert(cs =~= Seq::<Trivia>::empty());
    }
}

proof fn lemma_comment_pieces_cat(x: Seq<Trivia>, y: Seq<Trivia>)
    ensures
        comment_pieces(x + y) == comment_pieces(x) + comment_pieces(y),
{
    assert(comment_pieces(x + y) =~= comment_pieces(x) + comment_pieces(y));
}

/// The comments of a token's leading trivia.
pub open spec fn tcm(t: TokenModel) -> Seq<Trivia> {
    comments_of(trivia_pieces(t.trivia))
}

/// The other trivia of a token's leading trivia.
pub open spec fn tly(t: TokenModel) -> Seq<Piece> {
    layout_of(trivia_pieces(t.trivia))
}

proof fn lemma_no_comments(x: Seq<Trivia>)
    requires
        forall|j: int| 0 <= j < x.len() ==> (#[trigger] x[j]).kind != TriviaKind::Comment,
    ensures
        comments_of(trivia_pieces(x)) == Seq::<Trivia>::empty(),
        layout_of(trivia_pieces(x)) == trivia_pieces(x),
    decreases x.len(),
{
    if x.len() > 0 {
        assert(trivia_pieces(x).drop_first() =~= trivia_pieces(x.drop_first()));
        lemma_no_comments(x.drop_first());
        assert(seq![trivia_pieces(x)[0]] + trivia_pieces(x.drop_first()) =~= trivia_pieces(x));
        assert(Seq::<Trivia>::empty() + Seq::<Trivia>::empty() =~= Seq::<Trivia>::empty());
    } else {
        assert(trivia_pieces(x) =~= Seq::<Piece>::empty());
    }
}

proof fn lemma_first_comment(tr: Seq<Trivia>, i: int)
    requires
        0 <= i,
    ensures
        first_comment(tr, i) matches Some(j) ==> {
            &&& i <= j < tr.len()
            &&& tr[j].kind == TriviaKind::Comment
            &&& forall|k: int| i <= k < j ==> (#[trigger] tr[k]).kind != TriviaKind::Comment
        },
        first_comment(tr, i) is None ==> forall|k: int| i <= k < tr.len() ==> (#[trigger] tr[k]).kind
            != TriviaKind::Comment,
    decreases tr.len() - i,
{
    if 0 <= i < tr.len() && tr[i].kind != TriviaKind::Comment {
        lemma_first_comment(tr, i + 1);
    }
}

/// Taking out the first comment of `tr`.
proof fn lemma_take_first_comment(tr: Seq<Trivia>)
    ensures
        first_comment(tr, 0) matches Some(idx) ==> {
            &&& comments_of(trivia_pieces(tr)) == seq![tr[idx]] + comments_of(trivia_pieces(tr.remove(idx)))
            &&& layout_of(trivia_pieces(tr)) == layout_of(trivia_pieces(tr.remove(idx)))
        },
        first_comment(tr, 0) is None ==> comments_of(trivia_pieces(tr)) == Seq::<Trivia>::empty(),
{
    lemma_first_comment(tr, 0);
    match first_comment(tr, 0) {
        Some(idx) => {
            let pre = tr.take(idx);
            let post = tr.skip(idx + 1);
            assert(tr =~= pre + seq![tr[idx]] + post);
            assert(tr.remove(idx) =~= pre + post);
            lemma_no_comments(pre);
            lemma_no_comments(seq![tr[idx]].take(0));
            lemma_trivia_pieces_cat(pre + seq![tr[idx]], post);
            lemma_trivia_pieces_cat(pre, seq![tr[idx]]);
            lemma_trivia_pieces_cat(pre, post);
            let pp = trivia_pieces(pre);
            let pc = trivia_pieces(seq![tr[idx]]);
            let pq = trivia_pieces(post);
            lemma_split(pp + pc, pq);
            lemma_split(pp, pc);
            lemma_split(pp, pq);
            assert(pc =~= seq![Piece::Comment(tr[idx])]);
            assert(pc.drop_first() =~= Seq::<Piece>::empty());
            assert(comments_of(pc) =~= seq![tr[idx]]);
            assert(layout_of(pc) =~= Seq::<Piece>::empty());
            assert(Seq::<Trivia>::empty() + seq![tr[idx]] + comments_of(pq) =~= seq![tr[idx]] + (Seq::<Trivia>::empty() + comments_of(pq)));
            assert(layout_of(pp) + Seq::<Piece>::empty() =~= layout_of(pp));
        },
        None => {
            lemma_no_comments(tr);
        },
    }
}

// ---------------------------------------------------------------------------
// Parse steps
// ---------------------------------------------------------------------------

/// `a` is the token `b` with some of its first comments taken out.
pub open spec fn drained_from(a: TokenModel, b: TokenModel) -> bool {
    &&& bare(a) == bare(b)
    &&& tly(a) == tly(b)
    &&& tcm(a).len() <= tcm(b).len()
    &&& tcm(b) == tcm(b).take(tcm(b).len() - tcm(a).len()) + tcm(a)
}

/// The comments taken out of `b` to leave `a`.
pub open spec fn taken(a: TokenModel, b: TokenModel) -> Seq<Piece> {
    comment_pieces(tcm(b).take(tcm(b).len() - tcm(a).len()))
}

/// The stack `s2` is the bottom of `s`, its top token possibly with comments
/// taken out.
pub open spec fn below(s2: Seq<TokenModel>, s: Seq<TokenModel>) -> bool {
    &&& s2.len() <= s.len()
    &&& forall|i: int| 0 <= i < s2.len() - 1 ==> #[trigger] s2[i] == s[i]
    &&& s2.len() > 0 ==> drained_from(s2[s2.len() - 1], s[s2.len() - 1])
}

/// The comments taken out of the token now on top of `s2`.
pub open spec fn top_taken(s2: Seq<TokenModel>, s: Seq<TokenModel>) -> Seq<Piece> {
    if s2.len() > 0 {
        taken(s2[s2.len() - 1], s[s2.len() - 1])
    } else {
        Seq::empty()
    }
}

/// The pieces of the tokens taken off the stack `s` (top last) from height
/// `hi` down to height `lo`, in reading order.
pub open spec fn popped(s: Seq<TokenModel>, hi: int, lo: int) -> Seq<Piece>
    decreases hi - lo,
{
    if hi <= lo {
        Seq::empty()
    } else {
        tok_pieces(s[hi - 1]) + popped(s, hi - 1, lo)
    }
}

/// The end-of-file token is at the bottom of the stack and nowhere else.
pub open spec fn eof_bottom(s: Seq<TokenModel>) -> bool {
    &&& s.len() >= 1
    &&& s[0].kind is Eof
    &&& forall|i: int| 0 < i < s.len() ==> !(#[trigger] s[i].kind is Eof)
}

/// A parse step from `st` to `st2` producing pieces `ps`: it only takes
/// tokens off the stack and comments out of the token on top, never the
/// end-of-file token, and only adds diagnostics; when it adds none, it
/// produced the pieces it took.
pub open spec fn step_ok(st: PState, st2: PState, ps: Seq<Piece>) -> bool {
    &&& below(st2.rest, st.rest)
    &&& eof_bottom(st.rest) ==> st2.rest.len() >= 1
    &&& st2.diags.len() >= st.diags.len()
    &&& st2.diags.len() == st.diags.len() ==> same_source(
        ps,
        popped(st.rest, st.rest.len() as int, st2.rest.len() as int) + top_taken(st2.rest, st.rest),
    )
}

proof fn lemma_drained_refl(a: TokenModel)
    ensures
        drained_from(a, a),
        taken(a, a) == Seq::<Piece>::empty(),
{
    assert(tcm(a).take(0) =~= Seq::<Trivia>::empty());
    assert(tcm(a) =~= Seq::<Trivia>::empty() + tcm(a));
    assert(comment_pieces(Seq::<Trivia>::empty()) =~= Seq::<Piece>::empty());
}

proof fn lemma_drained_trans(a: TokenModel, b: TokenModel, c: TokenModel)
    requires
        drained_from(a, b),
        drained_from(b, c),
    ensures
        drained_from(a, c),
        taken(a, c) == taken(b, c) + taken(a, b),
{
    let cc = tcm(c);
    let cb = tcm(b);
    let ca = tcm(a);
    let k1 = cc.len() - cb.len();
    let k2 = cb.len() - ca.len();
    assert(cc == cc.take(k1) + cb.take(k2) + ca) by {
        assert(cb.take(k2) + ca == cb);
        assert(cc.take(k1) + (cb.take(k2) + ca) =~= cc.take(k1) + cb.take(k2) + ca);
    }
    assert(cc.take(k1 + k2) =~= cc.take(k1) + cb.take(k2));
    assert(cc =~= cc.take(k1 + k2) + ca);
    lemma_comment_pieces_cat(cc.take(k1), cb.take(k2));
}

/// The comments taken out of a token, then the rest of the token, are the
/// token.
proof fn lemma_taken_then_token(a: TokenModel, b: TokenModel)
    requires
        drained_from(a, b),
    ensures
        same_source(taken(a, b) + tok_pieces(a), tok_pieces(b)),
{
    let k = tcm(b).len() - tcm(a).len();
    lemma_comment_pieces(tcm(b).take(k));
    lemma_split(taken(a, b), tok_pieces(a));
    lemma_split(trivia_pieces(a.trivia), seq![Piece::Tok(bare(a))]);
    lemma_split(trivia_pieces(b.trivia), seq![Piece::Tok(bare(b))]);
    let t = seq![Piece::Tok(bare(a))];
    assert(t.drop_first() =~= Seq::<Piece>::empty());
    assert(t[0] == Piece::Tok(bare(a)));
    assert(comments_of(t.drop_first()) == Seq::<Trivia>::empty());
    assert(layout_of(t.drop_first()) == Seq::<Piece>::empty());
    assert(comments_of(t) =~= Seq::<Trivia>::empty());
    assert(layout_of(t) =~= t);
    assert(tcm(b).take(k) + (tcm(a) + Seq::<Trivia>::empty()) =~= tcm(b).take(k) + tcm(a));
    assert(tcm(b) + Seq::<Trivia>::empty() =~= tcm(b));
    assert(Seq::<Piece>::empty() + (tly(a) + t) =~= tly(a) + t);
}

proof fn lemma_eof_bottom_kept(s: Seq<TokenModel>, s2: Seq<TokenModel>)
    requires
        eof_bottom(s),
        below(s2, s),
        s2.len() >= 1,
    ensures
        eof_bottom(s2),
{
    if s2.len() == 1 {
        assert(bare(s2[0]) == bare(s[0]));
    } else {
        assert(s2[0] == s[0]);
    }
    assert forall|i: int| 0 < i < s2.len() implies !(#[trigger] s2[i].kind is Eof) by {
        if i < s2.len() - 1 {
            assert(s2[i] == s[i]);
        } else {
            assert(bare(s2[i]) == bare(s[i]));
        }
    }
}

proof fn lemma_popped_split(s: Seq<TokenModel>, hi: int, mid: int, lo: int)
    requires
        lo <= mid <= hi,
    ensures
        popped(s, hi, lo) == popped(s, hi, mid) + popped(s, mid, lo),
    decreases hi - mid,
{
    if hi == mid {
        assert(popped(s, hi, mid) =~= Seq::<Piece>::empty());
        assert(Seq::<Piece>::empty() + popped(s, mid, lo) =~= popped(s, mid, lo));
    } else {
        lemma_popped_split(s, hi - 1, mid, lo);
        assert(tok_pieces(s[hi - 1]) + (popped(s, hi - 1, mid) + popped(s, mid, lo)) =~= (tok_pieces(s[hi - 1])
            + popped(s, hi - 1, mid)) + popped(s, mid, lo));
    }
}

proof fn lemma_popped_same(s: Seq<TokenModel>, s2: Seq<TokenModel>, hi: int, lo: int)
    requires
        forall|i: int| lo <= i < hi ==> #[trigger] s2[i] == s[i],
    ensures
        popped(s2, hi, lo) == popped(s, hi, lo),
    decreases hi - lo,
{
    if hi > lo {
        lemma_popped_same(s, s2, hi - 1, lo);
    }
}

/// Steps compose: pieces taken first, then the rest.
proof fn lemma_step_chain(st: PState, s2: PState, s3: PState, a: Seq<Piece>, b: Seq<Piece>)
    requires
        step_ok(st, s2, a),
        step_ok(s2, s3, b),
    ensures
        step_ok(st, s3, a + b),
{
    let n = st.rest.len() as int;
    let m2 = s2.rest.len() as int;
    let m3 = s3.rest.len() as int;
    assert forall|i: int| 0 <= i < s3.rest.len() - 1 implies #[trigger] s3.rest[i] == st.rest[i] by {
        assert(s3.rest[i] == s2.rest[i]);
        assert(s2.rest[i] == st.rest[i]);
    }
    if m3 > 0 {
        if m3 < m2 {
            assert(s2.rest[m3 - 1] == st.rest[m3 - 1]);
        } else {
            lemma_drained_trans(s3.rest[m3 - 1], s2.rest[m3 - 1], st.rest[m3 - 1]);
        }
    }
    if eof_bottom(st.rest) {
        lemma_eof_bottom_kept(st.rest, s2.rest);
    }
    if s3.diags.len() == st.diags.len() {
        let p12 = popped(st.rest, n, m2);
        let d12 = top_taken(s2.rest, st.rest);
        let d23 = top_taken(s3.rest, s2.rest);
        let d13 = top_taken(s3.rest, st.rest);
        lemma_same_cat(a, p12 + d12, b, popped(s2.rest, m2, m3) + d23);
        if m3 == m2 {
            assert(popped(s2.rest, m2, m3) =~= Seq::<Piece>::empty());
            if m3 > 0 {
                assert(d13 == d12 + d23);
            } else {
                assert(d12 =~= Seq::<Piece>::empty());
                assert(d13 =~= d12 + d23);
            }
            assert(p12 + d12 + (Seq::<Piece>::empty() + d23) =~= p12 + (d12 + d23));
            assert(popped(st.rest, n, m3) == p12);
        } else {
            let top = s2.rest[m2 - 1];
            let rest23 = popped(s2.rest, m2 - 1, m3);
            lemma_popped_same(st.rest, s2.rest, m2 - 1, m3);
            assert(d23 == d13);
            lemma_taken_then_token(top, st.rest[m2 - 1]);
            // a + b has the pieces of p12 + (d12 + tok(top)) + rest23 + d13
            assert(p12 + d12 + (tok_pieces(top) + rest23 + d23) =~= p12 + (d12 + tok_pieces(top)) + (rest23 + d13));
            lemma_same_cat(p12, p12, d12 + tok_pieces(top), tok_pieces(st.rest[m2 - 1]));
            lemma_same_cat(
                p12 + (d12 + tok_pieces(top)),
                p12 + tok_pieces(st.rest[m2 - 1]),
                rest23 + d13,
                rest23 + d13,
            );
            lemma_popped_split(st.rest, n, m2, m3);
            assert(popped(st.rest, m2, m3) == tok_pieces(st.rest[m2 - 1]) + rest23);
            assert(p12 + tok_pieces(st.rest[m2 - 1]) + (rest23 + d13) =~= popped(st.rest, n, m3) + d13);
        }
    }
}

/// Taking one token off the stack.
proof fn lemma_advanced(st: PState)
    requires
        st.rest.len() > 0,
        !(st.rest.last().kind is Eof),
    ensures
        step_ok(st, advanced(st), tok_pieces(st.rest.last())),
{
    let s2 = advanced(st);
    let m = s2.rest.len() as int;
    if m > 0 {
        lemma_drained_refl(st.rest[m - 1]);
    }
    assert(popped(st.rest, st.rest.len() as int, m) =~= tok_pieces(st.rest.last()) + popped(st.rest, m, m));
    assert(tok_pieces(st.rest.last()) + Seq::<Piece>::empty() + Seq::<Piece>::empty() =~= tok_pieces(st.rest.last()));
}

proof fn lemma_stay(st: PState)
    ensures
        step_ok(st, st, Seq::empty()),
{
    let m = st.rest.len() as int;
    if m > 0 {
        lemma_drained_refl(st.rest[m - 1]);
    }
    assert(Seq::<Piece>::empty() + Seq::<Piece>::empty() =~= Seq::<Piece>::empty());
}

proof fn lemma_emitted(st: PState, m: Seq<char>, r: crate::ast::Range, ps: Seq<Piece>)
    ensures
        step_ok(st, emitted(st, m, r), ps),
{
    let k = st.rest.len() as int;
    if k > 0 {
        lemma_drained_refl(st.rest[k - 1]);
    }
}

/// A step that reports something says nothing of its pieces.
proof fn lemma_reported(st: PState, s2: PState, ps: Seq<Piece>)
    requires
        below(s2.rest, st.rest),
        eof_bottom(st.rest) ==> s2.rest.len() >= 1,
        s2.diags.len() > st.diags.len(),
    ensures
        step_ok(st, s2, ps),
{
}

proof fn lemma_drain(st: PState)
    ensures
        drain_m(st) matches Some((c, s2)) ==> step_ok(st, s2, seq![Piece::Comment(c)]),
{
    match drain_m(st) {
        Some((c, s2)) => {
            let n = st.rest.len() - 1;
            let t = st.rest.last();
            let t2 = s2.rest.last();
            lemma_take_first_comment(t.trivia);
            let idx = first_comment(t.trivia, 0)->0;
            assert(t2.trivia == t.trivia.remove(idx));
            assert(bare(t2) =~= bare(t));
            assert(tcm(t) == seq![c] + tcm(t2));
            assert(tcm(t).take(1) =~= seq![c]);
            assert(tcm(t).len() - tcm(t2).len() == 1);
            assert(comment_pieces(seq![c]) =~= seq![Piece::Comment(c)]);
            assert(popped(st.rest, st.rest.len() as int, st.rest.len() as int) =~= Seq::<Piece>::empty());
            assert(Seq::<Piece>::empty() + seq![Piece::Comment(c)] =~= seq![Piece::Comment(c)]);
        },
        None => {},
    }
}

/// Without a comment to take out, the token on top has none.
proof fn lemma_drain_none(st: PState)
    requires
        st.rest.len() > 0,
        drain_m(st) is None,
    ensures
        tcm(st.rest.last()) == Seq::<Trivia>::empty(),
{
    lemma_take_first_comment(st.rest.last().trivia);
}

proof fn lemma_classify(t: TokenModel)
    ensures
        value_pieces(classify_m(t)) == tok_pieces(t),
{
}
proof fn lemma_entry(st: PState)
    ensures
        step_ok(
            st,
            entry_m(st).1,
            match entry_m(st).0 {
                Some(n) => node_pieces(n),
                None => Seq::empty(),
            },
        ),
    decreases st.rest.len(), trivia_left(st), 3int,
{
    lemma_drain(st);
    match drain_m(st) {
        Some((c, s2)) => {},
        None => if st.rest.len() > 0 {
            let t = st.rest.last();
            match t.kind {
                TokenKind::OpenBrace => {
                    lemma_value(st);
                },
                TokenKind::Ident(_) | TokenKind::Number => {
                    let s1 = advanced(st);
                    lemma_advanced(st);
                    if s1.rest.len() > 0 && crate::cst::model::is_operator_m(s1.rest.last().kind) {
                        lemma_assignment(s1, t);
                        let (op, v, s2) = assignment_m(s1, t);
                        lemma_step_chain(st, s1, s2, tok_pieces(t), tok_pieces(op) + value_pieces(v));
                        assert(tok_pieces(t) + (tok_pieces(op) + value_pieces(v)) =~= tok_pieces(t) + tok_pieces(op)
                            + value_pieces(v));
                    } else if s1.rest.len() > 0 && s1.rest.last().kind is OpenBrace {
                        lemma_block(s1);
                        let (b, s2) = block_m_at(s1);
                        lemma_step_chain(st, s1, s2, tok_pieces(t), block_pieces(b));
                    } else if t.kind is Ident {
                        lemma_classify(t);
                    }
                },
                TokenKind::String(_) => {
                    lemma_advanced(st);
                },
                _ => {},
            }
        },
    }
}

proof fn lemma_assignment(st: PState, key: TokenModel)
    requires
        st.rest.len() > 0,
        !(st.rest.last().kind is Eof),
    ensures
        ({
            let (op, v, s2) = assignment_m(st, key);
            step_ok(st, s2, tok_pieces(op) + value_pieces(v))
        }),
    decreases st.rest.len(), trivia_left(st), 2int,
{
    if st.rest.len() > 0 {
        let op = st.rest.last();
        let s1 = advanced(st);
        lemma_advanced(st);
        lemma_value(s1);
        let (v, s2) = value_m_at(s1);
        lemma_step_chain(st, s1, s2, tok_pieces(op), value_pieces(v));
        if v is Error {
            let s3 = emitted(s2, "Expected value after operator"@, key.range);
            lemma_emitted(s2, "Expected value after operator"@, key.range, Seq::empty());
            lemma_step_chain(st, s2, s3, tok_pieces(op) + value_pieces(v), Seq::empty());
            assert(tok_pieces(op) + value_pieces(v) + Seq::<Piece>::empty() =~= tok_pieces(op) + value_pieces(v));
        }
    }
}

proof fn lemma_value(st: PState)
    ensures
        step_ok(st, value_m_at(st).1, value_pieces(value_m_at(st).0)),
    decreases st.rest.len(), trivia_left(st), 1int,
{
    if st.rest.len() > 0 {
        let t = st.rest.last();
        match t.kind {
            TokenKind::OpenBrace => {
                lemma_block(st);
            },
            TokenKind::Ident(_) => {
                let s1 = advanced(st);
                lemma_advanced(st);
                if s1.rest.len() > 0 && s1.rest.last().kind is OpenBrace {
                    lemma_block(s1);
                    let (b, s2) = block_m_at(s1);
                    lemma_step_chain(st, s1, s2, tok_pieces(t), block_pieces(b));
                } else {
                    lemma_classify(t);
                }
            },
            TokenKind::String(_) | TokenKind::Number => {
                lemma_advanced(st);
            },
            _ => {},
        }
    }
}

proof fn lemma_block(st: PState)
    requires
        st.rest.len() > 0,
        !(st.rest.last().kind is Eof),
    ensures
        step_ok(st, block_m_at(st).1, block_pieces(block_m_at(st).0)),
    decreases st.rest.len(), trivia_left(st), 0int,
{
    if st.rest.len() > 0 {
        let open = st.rest.last();
        let s1 = advanced(st);
        lemma_advanced(st);
        lemma_block_entries(s1);
        let (es, s2) = block_entries_m(s1);
        lemma_step_chain(st, s1, s2, tok_pieces(open), nodes_pieces(es));
        if s2.rest.len() > 0 && s2.rest.last().kind is CloseBrace {
            let close = s2.rest.last();
            lemma_advanced(s2);
            lemma_step_chain(st, s2, advanced(s2), tok_pieces(open) + nodes_pieces(es), tok_pieces(close));
        } else {
            let d = crate::cst::model::error_diag(crate::cst::model::unclosed_message(open), open.range);
            let s3 = PState { rest: s2.rest, diags: s2.diags.push(d) };
            if s2.rest.len() > 0 {
                lemma_drained_refl(s2.rest[s2.rest.len() - 1]);
            }
            assert(step_ok(s2, s3, Seq::empty()));
            lemma_step_chain(st, s2, s3, tok_pieces(open) + nodes_pieces(es), Seq::empty());
            assert(tok_pieces(open) + nodes_pieces(es) + Seq::<Piece>::empty() =~= block_pieces(block_m_at(st).0));
        }
    }
}

proof fn lemma_nodes_pieces_prepend(n: NodeM, more: Seq<NodeM>)
    ensures
        nodes_pieces(seq![n] + more) == node_pieces(n) + nodes_pieces(more),
{
    assert((seq![n] + more)[0] == n);
    assert((seq![n] + more).drop_first() =~= more);
}

proof fn lemma_block_entries(st: PState)
    ensures
        step_ok(st, block_entries_m(st).1, nodes_pieces(block_entries_m(st).0)),
    decreases st.rest.len(), trivia_left(st), 4int,
{
    if !(st.rest.len() <= 1 || st.rest.last().kind is Eof || st.rest.last().kind is CloseBrace) {
        lemma_entry(st);
        match entry_m(st) {
            (Some(n), s2) => if progressed(s2, st) {
                lemma_block_entries(s2);
                let (more, s3) = block_entries_m(s2);
                lemma_step_chain(st, s2, s3, node_pieces(n), nodes_pieces(more));
                lemma_nodes_pieces_prepend(n, more);
            } else {
                lemma_nodes_pieces_prepend(n, Seq::empty());
                assert(seq![n] + Seq::<NodeM>::empty() =~= seq![n]);
                assert(node_pieces(n) + Seq::<Piece>::empty() =~= node_pieces(n));
            },
            (None, s2) => {},
        }
    }
}


proof fn lemma_skip(st: PState)
    ensures
        step_ok(st, skip_m(st), Seq::empty()),
    decreases st.rest.len(),
{
    if st.rest.len() > 1 {
        let t = st.rest.last();
        if !(t.kind is Ident || t.kind is OpenBrace || t.kind is String || t.kind is Number
            || t.kind is CloseBrace || t.kind is Eof) {
            let s1 = advanced(st);
            let m = "Skipping unexpected token: "@ + crate::cst::model::describe_m(t);
            let s2 = emitted(s1, m, t.range);
            lemma_advanced(st);
            lemma_emitted(s1, m, t.range, Seq::empty());
            lemma_step_chain(st, s1, s2, tok_pieces(t), Seq::empty());
            lemma_skip(s2);
            lemma_step_chain(st, s2, skip_m(s2), tok_pieces(t) + Seq::<Piece>::empty(), Seq::empty());
            lemma_reported(st, skip_m(st), Seq::empty());
        }
    }
}

/// Taking a comment out leaves less trivia on the current token.
proof fn lemma_drain_progress(st: PState)
    ensures
        drain_m(st) matches Some((c, s2)) ==> progressed(s2, st),
{
    if st.rest.len() > 0 {
        lemma_first_comment(st.rest.last().trivia, 0);
    }
}

proof fn lemma_block_shrinks(st: PState)
    requires
        st.rest.len() > 0,
        !(st.rest.last().kind is Eof),
    ensures
        block_m_at(st).1.rest.len() < st.rest.len(),
{
    lemma_block_entries(advanced(st));
}

/// An entry always moves parsing on.
proof fn lemma_entry_progress(st: PState)
    ensures
        entry_m(st).0 is Some ==> progressed(entry_m(st).1, st),
{
    lemma_drain_progress(st);
    if drain_m(st) is None && st.rest.len() > 0 {
        let t = st.rest.last();
        let s1 = advanced(st);
        match t.kind {
            TokenKind::OpenBrace => {
                lemma_block_shrinks(st);
            },
            TokenKind::Ident(_) | TokenKind::Number => {
                if s1.rest.len() > 0 && crate::cst::model::is_operator_m(s1.rest.last().kind) {
                    lemma_assignment(s1, t);
                } else if s1.rest.len() > 0 && s1.rest.last().kind is OpenBrace {
                    lemma_block_shrinks(s1);
                }
            },
            _ => {},
        }
    }
}

/// At the top level, parsing stops only at the end-of-file token unless it
/// reported something.
proof fn lemma_script(st: PState)
    ensures
        step_ok(st, script_m(st).1, nodes_pieces(script_m(st).0)),
        eof_bottom(st.rest) && script_m(st).1.diags.len() == st.diags.len() ==> {
            &&& script_m(st).1.rest.len() == 1
            &&& tcm(script_m(st).1.rest[0]) == Seq::<Trivia>::empty()
        },
    decreases st.rest.len(), trivia_left(st),
{
    lemma_drain(st);
    lemma_drain_progress(st);
    match drain_m(st) {
        Some((c, s2)) => {
            let (more, s3) = script_m(s2);
            lemma_script(s2);
            lemma_step_chain(st, s2, s3, seq![Piece::Comment(c)], nodes_pieces(more));
            lemma_nodes_pieces_prepend(NodeM::EntryComment(c), more);
            if eof_bottom(st.rest) {
                lemma_eof_bottom_kept(st.rest, s2.rest);
            }
        },
        None => if st.rest.len() <= 1 || st.rest.last().kind is Eof {
            lemma_stay(st);
            if st.rest.len() > 0 {
                lemma_drain_none(st);
            }
        } else if st.rest.last().kind is CloseBrace {
            let t = st.rest.last();
            let s1 = advanced(st);
            let s2 = emitted(s1, "Unexpected '}'"@, t.range);
            lemma_advanced(st);
            lemma_emitted(s1, "Unexpected '}'"@, t.range, Seq::empty());
            lemma_step_chain(st, s1, s2, tok_pieces(t), Seq::empty());
            lemma_script(s2);
            lemma_step_chain(st, s2, script_m(s2).1, tok_pieces(t) + Seq::<Piece>::empty(), nodes_pieces(script_m(s2).0));
            lemma_reported(st, script_m(st).1, nodes_pieces(script_m(st).0));
        } else {
            lemma_entry(st);
            lemma_entry_progress(st);
            match entry_m(st) {
                (Some(n), s2) => {
                    let (more, s3) = script_m(s2);
                    lemma_script(s2);
                    lemma_step_chain(st, s2, s3, node_pieces(n), nodes_pieces(more));
                    lemma_nodes_pieces_prepend(n, more);
                    if eof_bottom(st.rest) {
                        lemma_eof_bottom_kept(st.rest, s2.rest);
                    }
                },
                (None, s2) => {
                    assert(s2.diags.len() > st.diags.len());
                    let s3 = skip_m(s2);
                    lemma_skip(s2);
                    lemma_step_chain(st, s2, s3, Seq::empty(), Seq::empty());
                    if progressed(s3, st) {
                        lemma_script(s3);
                        lemma_step_chain(st, s3, script_m(s3).1, Seq::<Piece>::empty() + Seq::empty(), nodes_pieces(script_m(s3).0));
                    }
                    lemma_reported(st, script_m(st).1, nodes_pieces(script_m(st).0));
                },
            }
        },
    }
}


/// `popped` reads the stack from the top down.
proof fn lemma_popped_all(s: Seq<TokenModel>, hi: int, lo: int)
    requires
        0 <= lo <= hi <= s.len(),
    ensures
        popped(s, hi, lo) == all_pieces(Seq::new((hi - lo) as nat, |j: int| s[hi - 1 - j])),
    decreases hi - lo,
{
    let r = Seq::new((hi - lo) as nat, |j: int| s[hi - 1 - j]);
    if hi > lo {
        lemma_popped_all(s, hi - 1, lo);
        assert(r.drop_first() =~= Seq::new((hi - 1 - lo) as nat, |j: int| s[hi - 1 - 1 - j]));
    } else {
        assert(r =~= Seq::<TokenModel>::empty());
    }
}

/// Parsing keeps all of the source: when it reports nothing, the tree's
/// pieces (each token with its remaining leading trivia, each comment node)
/// followed by the trivia left at the end of the file hold the comments of
/// the input in the input's order, and its tokens and other trivia in the
/// input's order.
pub proof fn law_clean_parse_keeps_source(tokens: Seq<CstToken>)
    requires
        tokens.len() >= 1,
        tokens.last().kind is Eof,
        forall|i: int| 0 <= i < tokens.len() - 1 ==> !(#[trigger] tokens[i].kind is Eof),
        cst_of(tokens).1.len() == 0,
    ensures
        same_source(nodes_pieces(cst_of(tokens).0) + trivia_pieces(cst_of(tokens).2), input_pieces(tokens)),
{
    let st = initial_state(tokens);
    let n = tokens.len() as int;
    assert(eof_bottom(st.rest)) by {
        assert forall|i: int| 0 < i < st.rest.len() implies !(#[trigger] st.rest[i].kind is Eof) by {
            assert(st.rest[i] == crate::cst::model::token_model(tokens[n - 1 - i]));
        }
    }
    lemma_script(st);
    let (nodes, fin) = script_m(st);
    let eof = st.rest[0];
    let last = fin.rest[0];
    assert(eof == tokens_m(tokens).last());
    lemma_popped_all(st.rest, n, 1);
    assert(Seq::new((n - 1) as nat, |j: int| st.rest[n - 1 - j]) =~= tokens_m(tokens).drop_last());
    let p = popped(st.rest, n, 1);
    let d = top_taken(fin.rest, st.rest);
    // the end-of-file token: its comments were taken out, its other trivia is left
    let k = tcm(eof).len() - tcm(last).len();
    assert(tcm(eof).take(k) =~= tcm(eof)) by {
        assert(tcm(eof) =~= tcm(eof).take(k) + Seq::<Trivia>::empty());
    }
    lemma_comment_pieces(tcm(eof));
    lemma_split(trivia_pieces(last.trivia), Seq::empty());
    lemma_split(d, trivia_pieces(last.trivia));
    assert(same_source(d + trivia_pieces(last.trivia), trivia_pieces(eof.trivia))) by {
        assert(Seq::<Trivia>::empty() + tcm(eof) =~= tcm(eof) + Seq::<Trivia>::empty());
        assert(tcm(eof) + Seq::<Trivia>::empty() =~= tcm(eof));
        assert(Seq::<Piece>::empty() + tly(last) =~= tly(last));
    }
    lemma_same_cat(nodes_pieces(nodes), p + d, trivia_pieces(last.trivia), trivia_pieces(last.trivia));
    lemma_same_cat(p, p, d + trivia_pieces(last.trivia), trivia_pieces(eof.trivia));
    assert(p + d + trivia_pieces(last.trivia) =~= p + (d + trivia_pieces(last.trivia)));
}

} // verus!
