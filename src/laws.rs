use vstd::prelude::*;
use crate::scan::{
    at_end, byte_at, is_space, lemma_lexeme_bounds, lemma_run_ends, lexeme_end, next_position,
    punct_kind, skip_spaces, token_start,
};

verus! {

/// The starts of the tokens that successive scans from `p` report, up to
/// and without the end of input.
pub open spec fn token_starts(b: Seq<u8>, p: int) -> Seq<int>
    decreases b.len() - p,
{
    if 0 <= p <= b.len() && !at_end(b, p) && p < next_position(b, p) <= b.len() {
        seq![token_start(b, p)] + token_starts(b, next_position(b, p))
    } else {
        Seq::empty()
    }
}

/// The stretches of input that successive scans from `p` move the cursor
/// over, the last of them the scan that reports the end of input.
pub open spec fn consumed(b: Seq<u8>, p: int) -> Seq<Seq<u8>>
    decreases b.len() - p,
{
    if 0 <= p <= b.len() && !at_end(b, p) && p < next_position(b, p) <= b.len() {
        seq![b.subrange(p, next_position(b, p))] + consumed(b, next_position(b, p))
    } else {
        seq![b.subrange(p, token_start(b, p))]
    }
}

/// Every scan that does not reach the end of input moves the cursor on,
/// and never past the end.
pub proof fn lemma_scan_progresses(b: Seq<u8>, p: int)
    requires
        0 <= p <= b.len(),
        !at_end(b, p),
    ensures
        p <= token_start(b, p) < next_position(b, p) <= b.len(),
{
    lemma_run_ends(b, p);
    lemma_lexeme_bounds(b, token_start(b, p));
}

/// Once a scan reports the end of input it leaves the cursor where that end
/// was found, so every later scan reports it again at the same place.
pub proof fn lemma_end_is_stable(b: Seq<u8>, p: int)
    requires
        0 <= p <= b.len(),
        at_end(b, p),
    ensures
        next_position(b, p) == token_start(b, p),
        token_start(b, next_position(b, p)) == token_start(b, p),
        at_end(b, next_position(b, p)),
{
    lemma_run_ends(b, p);
    let q = token_start(b, p);
    assert(lexeme_end(b, q) == q);
}

/// On input made of the five punctuation marks `+ ; ( ) #` and whitespace,
/// the scans report one token per non-whitespace byte, in order: each token
/// starts at its byte and holds only it, and so has that mark's kind.
pub proof fn lemma_punctuation_tokens(b: Seq<u8>)
    requires
        forall|k: int| 0 <= k < b.len() ==> is_space(#[trigger] b[k]) || punct_kind(b[k]) is Some,
    ensures
        token_starts(b, 0).len() == b.filter(|c: u8| !is_space(c)).len(),
        forall|i: int, j: int|
            0 <= i < j < token_starts(b, 0).len() ==> token_starts(b, 0)[i] < token_starts(b, 0)[j],
        forall|i: int|
            0 <= i < token_starts(b, 0).len() ==> {
                let s = #[trigger] token_starts(b, 0)[i];
                &&& 0 <= s < b.len()
                &&& punct_kind(b[s]) is Some
                &&& lexeme_end(b, s) == s + 1
            },
{
    lemma_punctuation_tokens_from(b, 0);
    assert(b.subrange(0, b.len() as int) =~= b);
}

proof fn lemma_punctuation_tokens_from(b: Seq<u8>, p: int)
    requires
        0 <= p <= b.len(),
        forall|k: int| 0 <= k < b.len() ==> is_space(#[trigger] b[k]) || punct_kind(b[k]) is Some,
    ensures
        token_starts(b, p).len() == b.subrange(p, b.len() as int).filter(|c: u8| !is_space(c)).len(),
        forall|i: int, j: int|
            0 <= i < j < token_starts(b, p).len() ==> token_starts(b, p)[i] < token_starts(b, p)[j],
        forall|i: int|
            0 <= i < token_starts(b, p).len() ==> {
                let s = #[trigger] token_starts(b, p)[i];
                &&& p <= s < b.len()
                &&& punct_kind(b[s]) is Some
                &&& lexeme_end(b, s) == s + 1
            },
    decreases b.len() - p,
{
    let keep = |c: u8| !is_space(c);
    let rest = b.subrange(p, b.len() as int);
    if p == b.len() {
        assert(at_end(b, p));
        assert(rest =~= Seq::<u8>::empty());
        assert(rest.filter(keep) =~= Seq::<u8>::empty());
    } else {
        lemma_punctuation_tokens_from(b, p + 1);
        let tail = b.subrange(p + 1, b.len() as int);
        assert(rest =~= seq![b[p]] + tail);
        Seq::filter_distributes_over_add(seq![b[p]], tail, keep);
        reveal_with_fuel(Seq::filter, 2);
        if is_space(b[p]) {
            assert(seq![b[p]].filter(keep) =~= Seq::<u8>::empty());
            assert(rest.filter(keep) =~= tail.filter(keep));
            assert(skip_spaces(b, p) == skip_spaces(b, p + 1));
            if !at_end(b, p) {
                lemma_scan_progresses(b, p + 1);
            }
            assert(token_starts(b, p) == token_starts(b, p + 1));
        } else {
            assert(seq![b[p]].filter(keep) =~= seq![b[p]]);
            assert(skip_spaces(b, p) == p);
            assert(next_position(b, p) == p + 1);
            assert(token_starts(b, p) == seq![p] + token_starts(b, p + 1));
        }
    }
}

/// Joining the stretches of input that the scans move over, up to and with
/// the one that reports the end, gives back the input exactly, for any input
/// without a zero byte: no byte is skipped or counted twice.
pub proof fn lemma_consumed_rebuilds_input(b: Seq<u8>)
    requires
        forall|k: int| 0 <= k < b.len() ==> #[trigger] b[k] != 0,
    ensures
        consumed(b, 0).flatten() == b,
        consumed(b, 0).flatten().len() == b.len(),
{
    lemma_consumed_from(b, 0);
    assert(b.subrange(0, b.len() as int) =~= b);
}

proof fn lemma_consumed_from(b: Seq<u8>, p: int)
    requires
        0 <= p <= b.len(),
        forall|k: int| 0 <= k < b.len() ==> #[trigger] b[k] != 0,
    ensures
        consumed(b, p).flatten() == b.subrange(p, b.len() as int),
    decreases b.len() - p,
{
    lemma_run_ends(b, p);
    let q = token_start(b, p);
    if !at_end(b, p) {
        lemma_scan_progresses(b, p);
        let e = next_position(b, p);
        lemma_consumed_from(b, e);
        let parts = consumed(b, p);
        assert(parts.drop_first() =~= consumed(b, e));
        assert(parts.flatten() =~= b.subrange(p, e) + b.subrange(e, b.len() as int));
        assert(parts.flatten() =~= b.subrange(p, b.len() as int));
    } else {
        assert(q == b.len());
        let parts = consumed(b, p);
        parts.lemma_flatten_one_element();
    }
}

} // verus!
