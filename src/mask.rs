//! Field specifications (`1,3-4,6-`) and the inclusion masks built from them.
use vstd::prelude::*;

use crate::text::{chars_of, find_from, parse_number, parse_number_in, split_chars, split_on};
use crate::CutError;

verus! {

/// The tokens of a field specification: its comma-separated pieces. The empty
/// specification has none.
pub open spec fn spec_tokens(spec: Seq<char>) -> Seq<Seq<char>> {
    if spec.len() == 0 {
        Seq::empty()
    } else {
        split_on(spec, seq![','])
    }
}

pub open spec fn clamp(v: nat, n: nat) -> nat {
    if v <= n {
        v
    } else {
        n
    }
}

/// The 1-based positions `lo..=hi` that token `t` marks in a line of `n`
/// fields (none where `lo > hi`), or `None` for a malformed token.
///
/// A token holding `-` is a range, split at its first `-`: its start must be a
/// field number of at least 1; its end defaults to `n` where it is not a field
/// number; both are clamped to `n`. Any other token is a field number, which
/// marks nothing when it is 0 or above `n`.
pub open spec fn token_span(n: nat, t: Seq<char>) -> Option<(nat, nat)> {
    let h = find_from(t, seq!['-'], 0);
    if h >= 0 {
        match parse_number(t.take(h)) {
            None => None,
            Some(start) => if start == 0 {
                None
            } else {
                let end = match parse_number(t.skip(h + 1)) {
                    Some(e) => e,
                    None => n,
                };
                Some((clamp(start, n), clamp(end, n)))
            },
        }
    } else {
        match parse_number(t) {
            None => None,
            Some(v) => if 1 <= v <= n {
                Some((v, v))
            } else {
                Some((1, 0))
            },
        }
    }
}

/// Whether token `t` marks 1-based position `p` in a line of `n` fields.
pub open spec fn covers(n: nat, t: Seq<char>, p: int) -> bool {
    match token_span(n, t) {
        Some((lo, hi)) => lo <= p <= hi,
        None => false,
    }
}

/// Whether one of the first `upto` tokens marks position `p`.
pub open spec fn selected(n: nat, toks: Seq<Seq<char>>, upto: int, p: int) -> bool {
    exists|k: int| 0 <= k < upto && #[trigger] covers(n, toks[k], p)
}

pub open spec fn tokens_valid(n: nat, toks: Seq<Seq<char>>) -> bool {
    forall|k: int| 0 <= k < toks.len() ==> (#[trigger] token_span(n, toks[k])) is Some
}

/// The inclusion mask of specification `spec` for lines of `n` fields: entry
/// `i` tells whether field `i + 1` is kept. A line of one field keeps it,
/// whatever the specification says.
pub open spec fn mask_of(n: nat, spec: Seq<char>) -> Result<Seq<bool>, CutError> {
    let toks = spec_tokens(spec);
    if n == 1 {
        Ok(seq![true])
    } else if tokens_valid(n, toks) {
        Ok(Seq::new(n, |i: int| selected(n, toks, toks.len() as int, i + 1)))
    } else {
        Err(CutError::InvalidFieldSpec)
    }
}

pub open spec fn mask_view(r: Result<Vec<bool>, CutError>) -> Result<Seq<bool>, CutError> {
    match r {
        Ok(m) => Ok(m@),
        Err(e) => Err(e),
    }
}

proof fn lemma_selected_step(n: nat, toks: Seq<Seq<char>>, k: int, p: int)
    requires
        0 <= k,
    ensures
        selected(n, toks, k + 1, p) == (selected(n, toks, k, p) || covers(n, toks[k], p)),
{
    if selected(n, toks, k + 1, p) {
        let j = choose|j: int| 0 <= j < k + 1 && #[trigger] covers(n, toks[j], p);
        if j < k {
            assert(selected(n, toks, k, p));
        }
    }
}

/// The span that token `t` marks in a line of `n` fields; see `token_span`.
pub fn parse_token(n: usize, t: &Vec<char>) -> (r: Option<(usize, usize)>)
    ensures
        match r {
            Some((lo, hi)) => token_span(n as nat, t@) == Some((lo as nat, hi as nat)),
            None => token_span(n as nat, t@) is None,
        },
{
    let ghost dash = seq!['-'];
    let mut h: usize = 0;
    while h < t.len() && t[h] != '-'
        invariant
            h <= t.len(),
            dash == seq!['-'],
            find_from(t@, dash, 0) == find_from(t@, dash, h as int),
        decreases t.len() - h,
    {
        assert(t@.subrange(h as int, h + 1)[0] != dash[0]);
        assert(t@.subrange(h as int, h + 1) != dash);
        assert(find_from(t@, dash, h as int) == find_from(t@, dash, h + 1));
        h += 1;
    }
    if h < t.len() {
        assert(t@.subrange(h as int, h + 1) =~= dash);
        assert(t@.take(h as int) =~= t@.subrange(0, h as int));
        assert(t@.skip(h + 1) =~= t@.subrange(h + 1, t.len() as int));
        match parse_number_in(t, 0, h) {
            None => None,
            Some(start) => {
                if start == 0 {
                    return None;
                }
                let end = match parse_number_in(t, h + 1, t.len()) {
                    Some(e) => e,
                    None => n,
                };
                let lo = if start <= n {
                    start
                } else {
                    n
                };
                let hi = if end <= n {
                    end
                } else {
                    n
                };
                Some((lo, hi))
            },
        }
    } else {
        assert(t@.subrange(0, t.len() as int) =~= t@);
        match parse_number_in(t, 0, t.len()) {
            None => None,
            Some(v) => {
                if 1 <= v && v <= n {
                    Some((v, v))
                } else {
                    Some((1, 0))
                }
            },
        }
    }
}

/// Builds the inclusion mask of `spec` for lines of `field_count` fields.
pub fn set_viewfield(field_count: usize, spec: &str) -> (r: Result<Vec<bool>, CutError>)
    requires
        field_count >= 1,
    ensures
        mask_view(r) == mask_of(field_count as nat, spec@),
{
    let ghost n = field_count as nat;
    if field_count == 1 {
        let mut one: Vec<bool> = Vec::new();
        one.push(true);
        assert(one@ =~= seq![true]);
        return Ok(one);
    }
    let cs = chars_of(spec);
    let mut toks: Vec<String> = Vec::new();
    if cs.len() > 0 {
        let mut comma: Vec<char> = Vec::new();
        comma.push(',');
        assert(comma@ =~= seq![',']);
        toks = split_chars(&cs, &comma);
    }
    let ghost ts = spec_tokens(spec@);
    assert(crate::text::views(toks@) =~= ts);
    let mut mask: Vec<bool> = Vec::new();
    while mask.len() < field_count
        invariant
            mask.len() <= field_count,
            forall|i: int| 0 <= i < mask.len() ==> !mask@[i],
        decreases field_count - mask.len(),
    {
        mask.push(false);
    }
    let mut k: usize = 0;
    while k < toks.len()
        invariant
            k <= toks.len(),
            n == field_count,
            field_count >= 2,
            ts == spec_tokens(spec@),
            crate::text::views(toks@) == ts,
            mask.len() == field_count,
            forall|j: int| 0 <= j < k ==> (#[trigger] token_span(n, ts[j])) is Some,
            forall|i: int| 0 <= i < field_count ==> mask@[i] == selected(n, ts, k as int, i + 1),
        decreases toks.len() - k,
    {
        let t = chars_of(toks[k].as_str());
        assert(t@ == ts[k as int]);
        match parse_token(field_count, &t) {
            None => {
                assert(!tokens_valid(n, ts));
                assert(mask_of(n, spec@) == Err::<Seq<bool>, CutError>(CutError::InvalidFieldSpec));
                return Err(CutError::InvalidFieldSpec);
            },
            Some((lo, hi)) => {
                let mut i: usize = 0;
                while i < field_count
                    invariant
                        i <= field_count,
                        k < ts.len(),
                        mask.len() == field_count,
                        token_span(n, ts[k as int]) == Some((lo as nat, hi as nat)),
                        forall|j: int|
                            0 <= j < i ==> mask@[j] == selected(n, ts, k + 1, j + 1),
                        forall|j: int|
                            i <= j < field_count ==> mask@[j] == selected(n, ts, k as int, j + 1),
                    decreases field_count - i,
                {
                    proof {
                        lemma_selected_step(n, ts, k as int, i + 1);
                    }
                    if lo <= i + 1 && i + 1 <= hi {
                        mask.set(i, true);
                    }
                    i += 1;
                }
            },
        }
        k += 1;
    }
    assert(tokens_valid(n, ts));
    assert(mask@ =~= Seq::new(n, |i: int| selected(n, ts, ts.len() as int, i + 1)));
    Ok(mask)
}

} // verus!
