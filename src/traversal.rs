//! Whole traversals: the tokens that successive requests hand out, from a
//! given cursor until the lexer is exhausted, and the laws they obey.
use crate::lexer::{
    end_of_input_view, lemma_digit_run_end_bounds, lemma_step_advances, step, Lexer, Token,
    TokenKind, TokenView,
};
use vstd::prelude::*;

verus! {

/// The tokens handed out by successive requests from `cursor` on, up to the
/// first request that hands out none.
pub open spec fn tokens_from(src: Seq<char>, cursor: nat) -> Seq<TokenView>
    decreases src.len() + 1 - cursor,
    via tokens_from_decreases
{
    if cursor > src.len() {
        Seq::empty()
    } else {
        seq![step(src, cursor).0.unwrap()] + tokens_from(src, step(src, cursor).1)
    }
}

#[via_fn]
proof fn tokens_from_decreases(src: Seq<char>, cursor: nat) {
    if cursor <= src.len() {
        lemma_step_advances(src, cursor);
    }
}

/// The cursor after `n` requests made from `cursor`.
pub open spec fn cursor_after(src: Seq<char>, cursor: nat, n: nat) -> nat
    decreases n,
{
    if n == 0 {
        cursor
    } else {
        cursor_after(src, step(src, cursor).1, (n - 1) as nat)
    }
}

/// Once exhausted, a lexer stays exhausted: every further request hands out
/// no token and leaves the cursor where it is.
pub proof fn lemma_exhausted_stays(src: Seq<char>, cursor: nat, n: nat)
    requires
        cursor > src.len(),
    ensures
        cursor_after(src, cursor, n) == cursor,
        step(src, cursor_after(src, cursor, n)).0 is None,
    decreases n,
{
    if n > 0 {
        lemma_exhausted_stays(src, cursor, (n - 1) as nat);
    }
}

/// The lexer terminates: from cursor `cursor`, once `src.len() + 1 - cursor`
/// requests have been made, every further request hands out no token.
pub proof fn lemma_terminates(src: Seq<char>, cursor: nat, n: nat)
    requires
        cursor + n >= src.len() + 1,
    ensures
        cursor_after(src, cursor, n) > src.len(),
        step(src, cursor_after(src, cursor, n)).0 is None,
    decreases n,
{
    if cursor > src.len() {
        lemma_exhausted_stays(src, cursor, n);
    } else {
        lemma_step_advances(src, cursor);
        lemma_terminates(src, step(src, cursor).1, (n - 1) as nat);
    }
}

/// `tokens_from` lists what successive requests hand out: the `i`-th request
/// made from `cursor` hands out its `i`-th token, and the request after the
/// last of them hands out none.
pub proof fn lemma_tokens_from_requests(src: Seq<char>, cursor: nat)
    ensures
        forall|i: nat|
            i < tokens_from(src, cursor).len() ==> step(src, #[trigger] cursor_after(src, cursor, i)).0
                == Some(tokens_from(src, cursor)[i as int]),
        step(src, cursor_after(src, cursor, tokens_from(src, cursor).len())).0 is None,
    decreases src.len() + 1 - cursor,
{
    let ts = tokens_from(src, cursor);
    if cursor > src.len() {
        lemma_exhausted_stays(src, cursor, 0);
    } else {
        lemma_step_advances(src, cursor);
        let next = step(src, cursor).1;
        lemma_tokens_from_requests(src, next);
        let rest = tokens_from(src, next);
        assert(ts =~= seq![step(src, cursor).0.unwrap()] + rest);
        assert(cursor_after(src, cursor, ts.len()) == cursor_after(src, next, rest.len()));
        assert forall|i: nat| i < ts.len() implies step(src, #[trigger] cursor_after(src, cursor, i)).0
            == Some(ts[i as int]) by {
            if i > 0 {
                assert(cursor_after(src, cursor, i) == cursor_after(src, next, (i - 1) as nat));
                assert(ts[i as int] == rest[i - 1]);
            }
        }
    }
}

/// A traversal from a cursor inside the source (or at its end) hands out
/// exactly one end-of-input token, and it is the last one.
pub proof fn lemma_end_of_input_last(src: Seq<char>, cursor: nat)
    requires
        cursor <= src.len(),
    ensures
        tokens_from(src, cursor).len() >= 1,
        tokens_from(src, cursor).last() == end_of_input_view(),
        forall|i: int|
            0 <= i < tokens_from(src, cursor).len() - 1 ==> (#[trigger] tokens_from(src, cursor)[i]).kind
                != TokenKind::EndOfInput,
    decreases src.len() + 1 - cursor,
{
    let ts = tokens_from(src, cursor);
    lemma_step_advances(src, cursor);
    let next = step(src, cursor).1;
    let rest = tokens_from(src, next);
    assert(ts =~= seq![step(src, cursor).0.unwrap()] + rest);
    if cursor == src.len() {
        assert(rest =~= Seq::<TokenView>::empty());
    } else {
        lemma_end_of_input_last(src, next);
        assert forall|i: int| 0 <= i < ts.len() - 1 implies (#[trigger] ts[i]).kind
            != TokenKind::EndOfInput by {
            if i > 0 {
                assert(ts[i] == rest[i - 1]);
            }
        }
    }
}

/// Every token of a traversal but the end-of-input one covers a range of
/// the source, and its text is exactly that range of the source.
pub proof fn lemma_literals_match_source(src: Seq<char>, cursor: nat)
    ensures
        forall|i: int|
            0 <= i < tokens_from(src, cursor).len() && (#[trigger] tokens_from(src, cursor)[i]).kind
                != TokenKind::EndOfInput ==> {
                let span = tokens_from(src, cursor)[i].span;
                &&& span.start <= span.end <= src.len()
                &&& span.literal == src.subrange(span.start as int, span.end as int)
            },
    decreases src.len() + 1 - cursor,
{
    let ts = tokens_from(src, cursor);
    if cursor <= src.len() {
        lemma_step_advances(src, cursor);
        let next = step(src, cursor).1;
        let rest = tokens_from(src, next);
        lemma_literals_match_source(src, next);
        assert(ts =~= seq![step(src, cursor).0.unwrap()] + rest);
        assert forall|i: int|
            0 <= i < ts.len() && (#[trigger] ts[i]).kind != TokenKind::EndOfInput implies {
            let span = ts[i].span;
            &&& span.start <= span.end <= src.len()
            &&& span.literal == src.subrange(span.start as int, span.end as int)
        } by {
            if i > 0 {
                assert(ts[i] == rest[i - 1]);
            } else {
                lemma_digit_run_end_bounds(src, cursor as int);
            }
        }
    }
}

/// Every token of a source, in order, ending with the end-of-input token.
pub fn tokenize(input: &str) -> (tokens: Vec<Token>)
    ensures
        tokens.deep_view() == tokens_from(input@, 0),
{
    let ghost src = input@;
    let mut lexer = Lexer::new(input);
    let mut tokens: Vec<Token> = Vec::new();
    loop
        invariant
            lexer@.source == src,
            lexer@.cursor <= src.len() + 1,
            tokens.deep_view() + tokens_from(src, lexer@.cursor) == tokens_from(src, 0),
        ensures
            tokens.deep_view() == tokens_from(src, 0),
        decreases src.len() + 1 - lexer@.cursor,
    {
        let ghost before = lexer@.cursor;
        match lexer.next_token() {
            Some(t) => {
                proof {
                    lemma_step_advances(src, before);
                }
                let ghost old_tokens = tokens.deep_view();
                tokens.push(t);
                assert(tokens.deep_view() =~= old_tokens + seq![t.deep_view()]);
                assert(tokens.deep_view() + tokens_from(src, lexer@.cursor) =~= old_tokens
                    + tokens_from(src, before));
            },
            None => {
                assert(tokens.deep_view() =~= tokens.deep_view() + tokens_from(src, before));
                break ;
            },
        }
    }
    tokens
}

} // verus!
