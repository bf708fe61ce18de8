//! Laws that relate the specifications, splitting and projection.
use vstd::prelude::*;

use crate::header::{number_list, resolve_spec, resolved, first_match};
use crate::mask::{covers, mask_of, selected, spec_tokens, token_span, tokens_valid};
use crate::project::{kept, project_spec};
use crate::CutError;
use crate::text::{
    all_digits, decimal, fields_of, find_from, join, lemma_decimal_value, lemma_join_prepend,
    lemma_join_split, lemma_parse_decimal, split_on,
};

verus! {

pub open spec fn free_of(s: Seq<char>, c: char) -> bool {
    forall|i: int| 0 <= i < s.len() ==> s[i] != c
}

proof fn lemma_find_absent(s: Seq<char>, c: char, i: int)
    requires
        0 <= i,
        free_of(s, c),
    ensures
        find_from(s, seq![c], i) == -1,
    decreases s.len() + 1 - i,
{
    if i + 1 <= s.len() {
        assert(s.subrange(i, i + 1)[0] != seq![c][0]);
        lemma_find_absent(s, c, i + 1);
    }
}

proof fn lemma_find_first(a: Seq<char>, c: char, b: Seq<char>, i: int)
    requires
        0 <= i <= a.len(),
        free_of(a, c),
    ensures
        find_from(a + seq![c] + b, seq![c], i) == a.len(),
    decreases a.len() - i,
{
    let s = a + seq![c] + b;
    if i < a.len() {
        assert(s.subrange(i, i + 1)[0] != seq![c][0]);
        lemma_find_first(a, c, b, i + 1);
    } else {
        assert(s.subrange(i, i + 1) =~= seq![c]);
    }
}

proof fn lemma_split_single(s: Seq<char>, c: char)
    requires
        free_of(s, c),
    ensures
        split_on(s, seq![c]) == seq![s],
{
    lemma_find_absent(s, c, 0);
}

proof fn lemma_split_at_first(a: Seq<char>, c: char, b: Seq<char>)
    requires
        free_of(a, c),
    ensures
        split_on(a + seq![c] + b, seq![c]) == seq![a] + split_on(b, seq![c]),
{
    let s = a + seq![c] + b;
    lemma_find_first(a, c, b, 0);
    assert(s.take(a.len() as int) =~= a);
    assert(s.skip(a.len() as int + 1) =~= b);
}

/// Parts free of a separator character come back from splitting their join.
pub proof fn lemma_split_join(parts: Seq<Seq<char>>, c: char)
    requires
        parts.len() >= 1,
        forall|k: int| 0 <= k < parts.len() ==> free_of(#[trigger] parts[k], c),
    ensures
        split_on(join(parts, seq![c]), seq![c]) == parts,
    decreases parts.len(),
{
    if parts.len() == 1 {
        lemma_split_single(parts[0], c);
        assert(seq![parts[0]] =~= parts);
    } else {
        let rest = parts.drop_first();
        assert(parts =~= seq![parts[0]] + rest);
        lemma_join_prepend(parts[0], rest, seq![c]);
        assert forall|k: int| 0 <= k < rest.len() implies free_of(#[trigger] rest[k], c) by {
            assert(rest[k] == parts[k + 1]);
        }
        lemma_split_join(rest, c);
        lemma_split_at_first(parts[0], c, join(rest, seq![c]));
    }
}

proof fn lemma_digits_free(s: Seq<char>, c: char)
    requires
        all_digits(s),
        (c as u32) < 48,
    ensures
        free_of(s, c),
{
    assert forall|i: int| 0 <= i < s.len() implies s[i] != c by {
        assert(crate::text::is_digit(s[i]));
    }
}

proof fn lemma_kept_all(f: Seq<Seq<char>>, k: nat)
    requires
        k <= f.len(),
    ensures
        kept(f, Seq::new(k, |i: int| true)) == f.take(k as int),
    decreases k,
{
    if k > 0 {
        lemma_kept_all(f, (k - 1) as nat);
        assert(Seq::new(k, |i: int| true).drop_last() =~= Seq::new((k - 1) as nat, |i: int| true));
        assert(f.take(k - 1).push(f[k - 1]) =~= f.take(k as int));
    } else {
        assert(f.take(0) =~= Seq::<Seq<char>>::empty());
    }
}

proof fn lemma_kept_none(f: Seq<Seq<char>>, k: nat)
    ensures
        kept(f, Seq::new(k, |i: int| false)) == Seq::<Seq<char>>::empty(),
    decreases k,
{
    if k > 0 {
        lemma_kept_none(f, (k - 1) as nat);
        assert(Seq::new(k, |i: int| false).drop_last() =~= Seq::new((k - 1) as nat, |i: int| false));
    }
}

/// Projecting a line with a mask that keeps each of its fields, for a
/// non-empty delimiter, gives the line back unchanged.
pub proof fn law_full_mask_round_trip(line: Seq<char>, d: Seq<char>)
    requires
        d.len() > 0,
    ensures
        join(fields_of(line, d), d) == line,
        project_spec(line, d, Seq::new(fields_of(line, d).len(), |i: int| true)) == Ok::<
            Seq<char>,
            CutError,
        >(line),
{
    let f = fields_of(line, d);
    lemma_join_split(line, d);
    lemma_kept_all(f, f.len());
    assert(f.take(f.len() as int) =~= f);
}

/// The specification `1,2,...,n` keeps every one of `n` fields, and the line
/// of `n` fields that it is applied to comes out unchanged.
pub proof fn law_listing_every_field(n: nat, line: Seq<char>, d: Seq<char>)
    requires
        1 <= n <= usize::MAX,
    ensures
        mask_of(n, number_list(Seq::new(n, |i: int| (i + 1) as nat))) == Ok::<Seq<bool>, CutError>(
            Seq::new(n, |i: int| true),
        ),
        d.len() > 0 && fields_of(line, d).len() == n ==> project_spec(
            line,
            d,
            Seq::new(n, |i: int| true),
        ) == Ok::<Seq<char>, CutError>(line),
{
    let vals = Seq::new(n, |i: int| (i + 1) as nat);
    let parts = vals.map_values(|v: nat| decimal(v));
    let s = number_list(vals);
    if d.len() > 0 && fields_of(line, d).len() == n {
        law_full_mask_round_trip(line, d);
    }
    if n == 1 {
        assert(seq![true] =~= Seq::new(n, |i: int| true));
    } else {
        assert forall|k: int| 0 <= k < parts.len() implies free_of(#[trigger] parts[k], ',') by {
            lemma_decimal_value(vals[k]);
            lemma_digits_free(parts[k], ',');
        }
        lemma_split_join(parts, ',');
        lemma_decimal_value(1);
        assert(parts[0] == decimal(1));
        lemma_join_len(parts, seq![',']);
        assert(s.len() > 0);
        let toks = spec_tokens(s);
        assert(toks == parts);
        assert forall|k: int| 0 <= k < toks.len() implies token_span(n, toks[k]) == Some::<(nat, nat)>(
            ((k + 1) as nat, (k + 1) as nat),
        ) by {
            lemma_decimal_value((k + 1) as nat);
            lemma_digits_free(toks[k], '-');
            lemma_find_absent(toks[k], '-', 0);
            lemma_parse_decimal((k + 1) as nat);
        }
        assert forall|i: int| 0 <= i < n implies #[trigger] selected(n, toks, toks.len() as int, i + 1) by {
            assert(covers(n, toks[i], i + 1));
        }
        assert(Seq::new(n, |i: int| selected(n, toks, toks.len() as int, i + 1)) =~= Seq::new(
            n,
            |i: int| true,
        ));
    }
}

proof fn lemma_join_len(parts: Seq<Seq<char>>, d: Seq<char>)
    requires
        parts.len() >= 1,
    ensures
        join(parts, d).len() >= parts.last().len(),
    decreases parts.len(),
{
}

proof fn lemma_single_token(n: nat, t: Seq<char>, p: int)
    ensures
        selected(n, seq![t], 1, p) == covers(n, t, p),
{
    if covers(n, t, p) {
        assert(covers(n, seq![t][0], p));
    }
}

/// Two specifications of a single token each, marking the same span, give the
/// same mask.
proof fn lemma_same_span(n: nat, s1: Seq<char>, s2: Seq<char>)
    requires
        n >= 1,
        free_of(s1, ','),
        free_of(s2, ','),
        s1.len() > 0,
        s2.len() > 0,
        token_span(n, s1) == token_span(n, s2),
    ensures
        mask_of(n, s1) == mask_of(n, s2),
{
    lemma_split_single(s1, ',');
    lemma_split_single(s2, ',');
    assert(spec_tokens(s1) == seq![s1]);
    assert(spec_tokens(s2) == seq![s2]);
    assert(seq![s1][0] == s1);
    assert(seq![s2][0] == s2);
    if n >= 2 {
        if token_span(n, s1) is Some {
            assert(tokens_valid(n, seq![s1]));
            assert(tokens_valid(n, seq![s2]));
            assert forall|p: int| selected(n, seq![s1], 1, p) == selected(n, seq![s2], 1, p) by {
                lemma_single_token(n, s1, p);
                lemma_single_token(n, s2, p);
            }
            assert(Seq::new(n, |i: int| selected(n, seq![s1], 1, i + 1)) =~= Seq::new(
                n,
                |i: int| selected(n, seq![s2], 1, i + 1),
            ));
        } else {
            assert(!tokens_valid(n, seq![s1]));
            assert(!tokens_valid(n, seq![s2]));
        }
    }
}

proof fn lemma_range_parts(a: nat, rest: Seq<char>)
    ensures
        find_from(decimal(a) + seq!['-'] + rest, seq!['-'], 0) == decimal(a).len(),
        (decimal(a) + seq!['-'] + rest).take(decimal(a).len() as int) == decimal(a),
        (decimal(a) + seq!['-'] + rest).skip(decimal(a).len() as int + 1) == rest,
{
    lemma_decimal_value(a);
    lemma_digits_free(decimal(a), '-');
    lemma_find_first(decimal(a), '-', rest, 0);
    assert((decimal(a) + seq!['-'] + rest).take(decimal(a).len() as int) =~= decimal(a));
    assert((decimal(a) + seq!['-'] + rest).skip(decimal(a).len() as int + 1) =~= rest);
}

proof fn lemma_range_free(a: nat, rest: Seq<char>)
    requires
        free_of(rest, ','),
    ensures
        free_of(decimal(a) + seq!['-'] + rest, ','),
{
    lemma_decimal_value(a);
    lemma_digits_free(decimal(a), ',');
    let s = decimal(a) + seq!['-'] + rest;
    assert forall|i: int| 0 <= i < s.len() implies s[i] != ',' by {
        if i < decimal(a).len() {
            assert(s[i] == decimal(a)[i]);
        } else if i > decimal(a).len() {
            assert(s[i] == rest[i - decimal(a).len() - 1]);
        }
    }
}

/// A range whose end lies at or beyond the last of `n` fields selects what the
/// range ending at field `n` selects.
pub proof fn law_range_end_clamps(n: nat, a: nat, e: nat)
    requires
        1 <= n <= e <= usize::MAX,
        a <= usize::MAX,
    ensures
        mask_of(n, decimal(a) + seq!['-'] + decimal(e)) == mask_of(
            n,
            decimal(a) + seq!['-'] + decimal(n),
        ),
{
    let s1 = decimal(a) + seq!['-'] + decimal(e);
    let s2 = decimal(a) + seq!['-'] + decimal(n);
    lemma_range_parts(a, decimal(e));
    lemma_range_parts(a, decimal(n));
    lemma_parse_decimal(a);
    lemma_parse_decimal(e);
    lemma_parse_decimal(n);
    lemma_decimal_value(e);
    lemma_decimal_value(n);
    lemma_digits_free(decimal(e), ',');
    lemma_digits_free(decimal(n), ',');
    lemma_range_free(a, decimal(e));
    lemma_range_free(a, decimal(n));
    lemma_same_span(n, s1, s2);
}

/// An open range `a-` on lines of `n` fields selects what `a-n` selects.
pub proof fn law_open_range(n: nat, a: nat)
    requires
        1 <= n <= usize::MAX,
        a <= usize::MAX,
    ensures
        mask_of(n, decimal(a) + seq!['-']) == mask_of(n, decimal(a) + seq!['-'] + decimal(n)),
{
    let empty = Seq::<char>::empty();
    let s1 = decimal(a) + seq!['-'];
    let s2 = decimal(a) + seq!['-'] + decimal(n);
    assert(s1 =~= decimal(a) + seq!['-'] + empty);
    lemma_range_parts(a, empty);
    lemma_range_parts(a, decimal(n));
    lemma_parse_decimal(a);
    lemma_parse_decimal(n);
    lemma_decimal_value(n);
    lemma_digits_free(decimal(n), ',');
    lemma_range_free(a, empty);
    lemma_range_free(a, decimal(n));
    lemma_same_span(n, s1, s2);
}

/// A name that no header carries, asked for alone, selects no field: the
/// resolved specification is empty, its mask keeps nothing, and every line
/// that has the header's fields becomes empty.
pub proof fn law_absent_name(headers: Seq<Seq<char>>, name: Seq<char>, line: Seq<char>, d: Seq<char>)
    requires
        headers.len() >= 2,
        free_of(name, ','),
        forall|i: int| 0 <= i < headers.len() ==> headers[i] != name,
    ensures
        resolve_spec(headers, name) == Seq::<char>::empty(),
        mask_of(headers.len(), resolve_spec(headers, name)) == Ok::<Seq<bool>, CutError>(
            Seq::new(headers.len(), |i: int| false),
        ),
        fields_of(line, d).len() >= headers.len() ==> project_spec(
            line,
            d,
            Seq::new(headers.len(), |i: int| false),
        ) == Ok::<Seq<char>, CutError>(Seq::empty()),
{
    lemma_split_single(name, ',');
    lemma_first_match_absent(headers, name, 0);
    assert(seq![name].drop_last() =~= Seq::<Seq<char>>::empty());
    assert(seq![name].last() == name);
    assert(resolved(headers, Seq::<Seq<char>>::empty()) == Seq::<nat>::empty());
    assert(resolved(headers, seq![name]) =~= Seq::<nat>::empty());
    let n = headers.len();
    assert(spec_tokens(Seq::<char>::empty()) =~= Seq::<Seq<char>>::empty());
    assert(Seq::new(n, |i: int| selected(n, Seq::<Seq<char>>::empty(), 0, i + 1)) =~= Seq::new(
        n,
        |i: int| false,
    ));
    lemma_kept_none(fields_of(line, d), n);
}

proof fn lemma_first_match_absent(headers: Seq<Seq<char>>, name: Seq<char>, i: int)
    requires
        0 <= i,
        forall|j: int| 0 <= j < headers.len() ==> headers[j] != name,
    ensures
        first_match(headers, name, i) == -1,
    decreases headers.len() - i,
{
    if i < headers.len() {
        lemma_first_match_absent(headers, name, i + 1);
    }
}

/// A line of one field is kept whole, whatever the specification says.
pub proof fn law_single_field(spec: Seq<char>, line: Seq<char>, d: Seq<char>)
    requires
        fields_of(line, d).len() == 1,
    ensures
        mask_of(1, spec) == Ok::<Seq<bool>, CutError>(seq![true]),
        project_spec(line, d, seq![true]) == Ok::<Seq<char>, CutError>(line),
{
    let f = fields_of(line, d);
    if d.len() > 0 {
        let k = find_from(line, d, 0);
        if 0 <= k && k + d.len() <= line.len() {
            crate::text::lemma_split_nonempty(line.skip(k + d.len()), d);
        }
        assert(f[0] == line);
    } else {
        assert(line.len() == 0);
        assert(f[0] =~= line);
    }
    assert(seq![true].drop_last() =~= Seq::<bool>::empty());
    assert(kept(f, Seq::<bool>::empty()) == Seq::<Seq<char>>::empty());
    assert(seq![true].last());
    assert(Seq::<Seq<char>>::empty().push(f[0]) =~= seq![f[0]]);
    assert(kept(f, seq![true]) =~= seq![f[0]]);
}

} // verus!
