//! Tokens of a narration: the runs of alphanumeric characters of its lowercase
//! form that are longer than two bytes.
use vstd::prelude::*;

use crate::text::{
    alphanumeric, byte_len, chars_of, is_alphanumeric, lowercase, string_of, to_lowercase, utf8_len,
};

verus! {

/// `l[i..j]` is a piece of `l` when split at every non-alphanumeric character:
/// it is bounded by the ends of `l` or by separators, and holds none itself.
pub open spec fn is_piece(l: Seq<char>, i: int, j: int) -> bool {
    &&& 0 <= i <= j <= l.len()
    &&& (i == 0 || !alphanumeric(l[i - 1]))
    &&& (j == l.len() || !alphanumeric(l[j]))
    &&& forall|k: int| i <= k < j ==> alphanumeric(#[trigger] l[k])
}

/// `t` is a token of the (already lowercased) text `l`: a piece of it that is
/// longer than two bytes.
pub open spec fn is_token_of(l: Seq<char>, t: Seq<char>) -> bool {
    &&& byte_len(t) > 2
    &&& exists|i: int, j: int| #[trigger] is_piece(l, i, j) && l.subrange(i, j) == t
}

/// `t` is a token of the narration `narration`.
pub open spec fn has_token(narration: Seq<char>, t: Seq<char>) -> bool {
    is_token_of(lowercase(narration), t)
}

/// `t` appears in the list `toks`.
pub open spec fn listed(toks: Seq<String>, t: Seq<char>) -> bool {
    exists|k: int| 0 <= k < toks.len() && #[trigger] toks[k]@ == t
}

/// The characters `v[from..to]`.
fn slice_chars(v: &Vec<char>, from: usize, to: usize) -> (r: Vec<char>)
    requires
        from <= to <= v@.len(),
    ensures
        r@ == v@.subrange(from as int, to as int),
{
    let mut r: Vec<char> = Vec::new();
    let mut k = from;
    while k < to
        invariant
            from <= k <= to <= v@.len(),
            r@ == v@.subrange(from as int, k as int),
        decreases to - k,
    {
        r.push(v[k]);
        k = k + 1;
        assert(r@ =~= v@.subrange(from as int, k as int));
    }
    r
}

/// Two pieces of the same text that end at the same place start there too.
proof fn lemma_piece_start_unique(l: Seq<char>, i: int, s: int, j: int)
    requires
        0 <= i <= j <= l.len(),
        0 <= s <= j,
        i == 0 || !alphanumeric(l[i - 1]),
        s == 0 || !alphanumeric(l[s - 1]),
        forall|k: int| i <= k < j ==> alphanumeric(#[trigger] l[k]),
        forall|k: int| s <= k < j ==> alphanumeric(#[trigger] l[k]),
    ensures
        i == s,
{
    if i < s {
        assert(alphanumeric(l[s - 1]));
    }
    if s < i {
        assert(alphanumeric(l[i - 1]));
    }
}

/// The tokens of a narration, possibly with repeats: every entry is a token,
/// and every token is an entry.
pub(crate) fn tokenize(narration: &str) -> (toks: Vec<String>)
    ensures
        forall|k: int| 0 <= k < toks@.len() ==> has_token(narration@, #[trigger] toks@[k]@),
        forall|t: Seq<char>| has_token(narration@, t) ==> listed(toks@, t),
{
    let lowered = to_lowercase(narration);
    let l = chars_of(lowered.as_str());
    let ghost lg = l@;
    let n = l.len();
    let mut toks: Vec<String> = Vec::new();
    let mut start: usize = 0;
    let mut pos: usize = 0;
    loop
        invariant
            lg == lowercase(narration@),
            l@ == lg,
            n == lg.len(),
            start <= pos <= n,
            start == 0 || !alphanumeric(lg[start - 1]),
            forall|k: int| start <= k < pos ==> alphanumeric(#[trigger] lg[k]),
            forall|k: int| 0 <= k < toks@.len() ==> is_token_of(lg, #[trigger] toks@[k]@),
            forall|i: int, j: int|
                #![trigger is_piece(lg, i, j)]
                is_piece(lg, i, j) && j < pos && byte_len(lg.subrange(i, j)) > 2 ==> listed(
                    toks@,
                    lg.subrange(i, j),
                ),
        ensures
            forall|k: int| 0 <= k < toks@.len() ==> is_token_of(lg, #[trigger] toks@[k]@),
            forall|i: int, j: int|
                #![trigger is_piece(lg, i, j)]
                is_piece(lg, i, j) && byte_len(lg.subrange(i, j)) > 2 ==> listed(
                    toks@,
                    lg.subrange(i, j),
                ),
        decreases n - pos + 1,
    {
        let at_end = pos == n;
        let boundary = at_end || !is_alphanumeric(l[pos]);
        if boundary {
            let piece = slice_chars(&l, start, pos);
            let text = string_of(&piece);
            assert(is_piece(lg, start as int, pos as int));
            let ghost old_toks = toks@;
            let blen = utf8_len(&piece);
            if blen > 2 {
                toks.push(text);
                assert(toks@[toks@.len() - 1]@ == lg.subrange(start as int, pos as int));
            }
            assert forall|i: int, j: int|
                #![trigger is_piece(lg, i, j)]
                is_piece(lg, i, j) && j <= pos && byte_len(lg.subrange(i, j)) > 2 implies listed(
                toks@,
                lg.subrange(i, j),
            ) by {
                if j < pos {
                    assert(listed(old_toks, lg.subrange(i, j)));
                    let w = choose|w: int| 0 <= w < old_toks.len() && #[trigger] old_toks[w]@ == lg.subrange(i, j);
                    assert(toks@[w] == old_toks[w]);
                } else {
                    lemma_piece_start_unique(lg, i, start as int, j);
                    assert(blen > 2);
                    assert(toks@[toks@.len() - 1]@ == lg.subrange(i, j));
                }
            }
            if at_end {
                break;
            }
            start = pos + 1;
        }
        pos = pos + 1;
    }
    assert forall|t: Seq<char>| has_token(narration@, t) implies listed(toks@, t) by {
        let (i, j) = choose|i: int, j: int| #[trigger] is_piece(lg, i, j) && lg.subrange(i, j) == t;
    }
    toks
}

} // verus!
