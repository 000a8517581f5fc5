//! What every token stream of the tokenizer looks like: the end-of-file
//! token comes last, and every other token covers at least one byte.
use vstd::prelude::*;
use crate::cst::lexer::bom_len;
use crate::cst::lexmodel::{TriviaM, TokM, LexPos, byte_span, token_at, trivia_run, lex_from, lex};
use crate::cst::bom::{small, lemma_token_at};
use crate::text::{lemma_utf8_offset_chars, lemma_utf8_offset_mono};

verus! {

proof fn lemma_token_span(cs: Seq<char>, p: LexPos)
    requires
        0 <= p.i < cs.len(),
    ensures
        token_at(cs, p).0 matches Some(t) ==> t.byte_range == byte_span(cs, p.i, token_at(cs, p).1.i) && !(t.kind is Eof),
{
}

proof fn lemma_span_nonempty(cs: Seq<char>, a: int, b: int)
    requires
        0 <= a < b <= cs.len(),
        small(cs),
    ensures
        byte_span(cs, a, b).start < byte_span(cs, a, b).end,
{
    lemma_utf8_offset_chars(cs, a, b);
    lemma_utf8_offset_mono(cs, b, cs.len() as int);
    lemma_utf8_offset_mono(cs, 0, a);
    assert(cs.take(0) =~= Seq::<char>::empty());
    assert(vstd::utf8::encode_utf8(Seq::<char>::empty()) =~= Seq::<u8>::empty());
}

proof fn lemma_lex_from_tokens(cs: Seq<char>, p: LexPos, lead: Seq<TriviaM>)
    requires
        0 <= p.i <= cs.len(),
        small(cs),
    ensures
        ({
            let ts = lex_from(cs, p, lead).0;
            &&& ts.len() >= 1
            &&& ts.last().kind is Eof
            &&& forall|k: int| 0 <= k < ts.len() - 1 ==> !(#[trigger] ts[k].kind is Eof)
                && ts[k].byte_range.start < ts[k].byte_range.end
        }),
    decreases cs.len() - p.i,
{
    if p.i < cs.len() {
        lemma_token_at(cs, p);
        lemma_token_span(cs, p);
        let (ot, q, od) = token_at(cs, p);
        crate::cst::bom::lemma_trivia_run(cs, q);
        let (tr, r) = trivia_run(cs, q);
        if p.i < r.i <= cs.len() {
            lemma_lex_from_tokens(cs, r, tr);
            let rest = lex_from(cs, r, tr).0;
            let ts = lex_from(cs, p, lead).0;
            match ot {
                Some(t) => {
                    lemma_span_nonempty(cs, p.i, q.i);
                    assert(ts == seq![TokM { trivia: lead, ..t }] + rest);
                    assert forall|k: int| 0 <= k < ts.len() - 1 implies !(#[trigger] ts[k].kind is Eof)
                        && ts[k].byte_range.start < ts[k].byte_range.end by {
                        if k > 0 {
                            assert(ts[k] == rest[k - 1]);
                        }
                    }
                    assert(ts.last() == rest.last());
                },
                None => {
                    assert(ts == rest);
                },
            }
        }
    }
}

/// The tokenizer's stream ends with the end-of-file token, and every other
/// token is no end-of-file token and covers at least one byte.
pub proof fn law_tokens_nonempty_before_eof(cs: Seq<char>)
    requires
        small(cs),
    ensures
        ({
            let ts = lex(cs).0;
            &&& ts.len() >= 1 ==> ts.last().kind is Eof
            &&& forall|k: int| 0 <= k < ts.len() - 1 ==> !(#[trigger] ts[k].kind is Eof)
                && ts[k].byte_range.start < ts[k].byte_range.end
        }),
{
    let p0 = LexPos { i: bom_len(cs), line: 0, col: 0 };
    crate::cst::bom::lemma_trivia_run(cs, p0);
    let (tr, p) = trivia_run(cs, p0);
    lemma_lex_from_tokens(cs, p, tr);
}

} // verus!
