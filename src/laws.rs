//! Properties of the tokenizer as a whole, stated over the grammar model.
use vstd::prelude::*;

use crate::grammar::{
    ascii_text, in_class, is_alpha, is_keyword, lemma_span, lemma_step_consumes, span, step, word_at,
    tokens_of, ByteClass,
};
use crate::token::{LexErrorView, TokenView};

verus! {

/// Whether `w` is an identifier: an ASCII letter, then letters, digits and
/// underscores, and no keyword.
pub open spec fn is_identifier(w: Seq<u8>) -> bool {
    &&& w.len() > 0
    &&& is_alpha(w[0])
    &&& forall|i: int| 1 <= i < w.len() ==> in_class(ByteClass::Word, #[trigger] w[i])
    &&& !is_keyword(w)
}

/// Input made of whitespace alone gives no tokens.
pub proof fn whitespace_gives_no_tokens(s: Seq<u8>)
    requires
        forall|i: int| 0 <= i < s.len() ==> in_class(ByteClass::Space, #[trigger] s[i]),
    ensures
        tokens_of(s) == Ok::<Seq<TokenView>, LexErrorView>(Seq::empty()),
{
    lemma_span(s, 0, ByteClass::Space);
}

/// An identifier on its own gives exactly one token: that identifier, with
/// its text.
pub proof fn identifier_alone(w: Seq<u8>)
    requires
        is_identifier(w),
    ensures
        tokens_of(w) == Ok::<Seq<TokenView>, LexErrorView>(
            seq![TokenView::Ident(ascii_text(w))],
        ),
{
    lemma_span(w, 0, ByteClass::Space);
    lemma_span(w, 1, ByteClass::Word);
    assert(span(w, 0, ByteClass::Space) == 0);
    assert(span(w, 1, ByteClass::Word) == w.len());
    assert(w.subrange(0, w.len() as int) =~= w);
    let rest = w.subrange(w.len() as int, w.len() as int);
    assert(rest =~= Seq::<u8>::empty());
    assert(step(rest) == Ok::<(TokenView, int), LexErrorView>((TokenView::Eof, 0)));
    assert(tokens_of(rest) == Ok::<Seq<TokenView>, LexErrorView>(Seq::empty()));
    assert(word_at(w, 0) == Ok::<(TokenView, int), LexErrorView>(
        (TokenView::Ident(ascii_text(w)), w.len() as int),
    ));
    assert(step(w) == Ok::<(TokenView, int), LexErrorView>(
        (TokenView::Ident(ascii_text(w)), w.len() as int),
    ));
    assert(seq![TokenView::Ident(ascii_text(w))] + Seq::<TokenView>::empty() =~= seq![
        TokenView::Ident(ascii_text(w)),
    ]);
}

/// Every successful step on an input that is not empty consumes at least
/// one byte and no more than the input: what is left strictly shrinks.
pub proof fn step_shrinks_input(s: Seq<u8>)
    requires
        s.len() > 0,
        step(s) is Ok,
    ensures
        0 < step(s)->Ok_0.1 <= s.len(),
        s.subrange(step(s)->Ok_0.1, s.len() as int).len() < s.len(),
{
    lemma_step_consumes(s);
}

} // verus!
