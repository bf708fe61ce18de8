//! Character-level text handling: splitting on a literal separator, joining,
//! and reading and writing field numbers in decimal.
use vstd::prelude::*;

verus! {

/// The character views of a sequence of strings.
pub open spec fn views(v: Seq<String>) -> Seq<Seq<char>> {
    v.map_values(|s: String| s@)
}

/// Position of the first occurrence of `d` in `s` that starts at or after `i`,
/// or -1 when there is none.
pub open spec fn find_from(s: Seq<char>, d: Seq<char>, i: int) -> int
    decreases s.len() + 1 - i,
{
    if i < 0 || i + d.len() > s.len() {
        -1
    } else if s.subrange(i, i + d.len()) == d {
        i
    } else {
        find_from(s, d, i + 1)
    }
}

/// The pieces of `s` between the occurrences of the non-empty separator `d`,
/// found from left to right without overlap.
pub open spec fn split_on(s: Seq<char>, d: Seq<char>) -> Seq<Seq<char>>
    decreases s.len(),
{
    let k = find_from(s, d, 0);
    if d.len() > 0 && 0 <= k && k + d.len() <= s.len() {
        seq![s.take(k)] + split_on(s.skip(k + d.len()), d)
    } else {
        seq![s]
    }
}

/// The fields of a line. A non-empty delimiter splits literally; the empty
/// delimiter makes every character a field of its own, followed by one empty
/// field (splitting on the empty separator, its leading empty piece dropped).
pub open spec fn fields_of(line: Seq<char>, d: Seq<char>) -> Seq<Seq<char>> {
    if d.len() == 0 {
        Seq::new(line.len(), |i: int| seq![line[i]]).push(Seq::<char>::empty())
    } else {
        split_on(line, d)
    }
}

/// `parts` with `d` between each two neighbours.
pub open spec fn join(parts: Seq<Seq<char>>, d: Seq<char>) -> Seq<char>
    decreases parts.len(),
{
    if parts.len() == 0 {
        Seq::empty()
    } else if parts.len() == 1 {
        parts[0]
    } else {
        join(parts.drop_last(), d) + d + parts.last()
    }
}

pub open spec fn is_digit(c: char) -> bool {
    48 <= (c as u32) <= 57
}

pub open spec fn digit_value(c: char) -> nat {
    ((c as u32) as int - 48) as nat
}

pub open spec fn all_digits(s: Seq<char>) -> bool {
    forall|i: int| 0 <= i < s.len() ==> is_digit(#[trigger] s[i])
}

/// The value of a string of decimal digits, most significant first.
pub open spec fn decimal_value(s: Seq<char>) -> nat
    decreases s.len(),
{
    if s.len() == 0 {
        0
    } else {
        decimal_value(s.drop_last()) * 10 + digit_value(s.last())
    }
}

/// A field number as written: one or more decimal digits whose value fits in
/// a `usize`.
pub open spec fn parse_number(s: Seq<char>) -> Option<nat> {
    if s.len() > 0 && all_digits(s) && decimal_value(s) <= usize::MAX {
        Some(decimal_value(s))
    } else {
        None
    }
}

pub open spec fn digit_char(v: nat) -> char {
    if v == 0 {
        '0'
    } else if v == 1 {
        '1'
    } else if v == 2 {
        '2'
    } else if v == 3 {
        '3'
    } else if v == 4 {
        '4'
    } else if v == 5 {
        '5'
    } else if v == 6 {
        '6'
    } else if v == 7 {
        '7'
    } else if v == 8 {
        '8'
    } else {
        '9'
    }
}

/// The decimal notation of `v`, without leading zeros.
pub open spec fn decimal(v: nat) -> Seq<char>
    decreases v,
{
    if v < 10 {
        seq![digit_char(v)]
    } else {
        decimal(v / 10).push(digit_char(v % 10))
    }
}

/// Relies on `String::push`: appends one character to the string.
#[verifier::external_body]
pub(crate) fn push_char(s: &mut String, c: char)
    ensures
        final(s)@ == old(s)@.push(c),
{
    s.push(c);
}

/// The characters of `s`, in order.
pub fn chars_of(s: &str) -> (r: Vec<char>)
    ensures
        r@ == s@,
{
    let mut r: Vec<char> = Vec::new();
    for c in it: s.chars()
        invariant
            it.seq() == s@,
            r@ == it.seq().take(it.index() as int),
    {
        r.push(c);
    }
    r
}

/// The characters `cs[from..to]` as a string.
pub fn string_of(cs: &Vec<char>, from: usize, to: usize) -> (r: String)
    requires
        from <= to <= cs.len(),
    ensures
        r@ == cs@.subrange(from as int, to as int),
{
    let mut r = String::new();
    let mut i: usize = from;
    while i < to
        invariant
            from <= i <= to <= cs.len(),
            r@ == cs@.subrange(from as int, i as int),
        decreases to - i,
    {
        push_char(&mut r, cs[i]);
        i += 1;
        assert(r@ =~= cs@.subrange(from as int, i as int));
    }
    r
}

/// Whether `ds` occurs in `cs` at position `i`.
fn occurs_at(cs: &Vec<char>, ds: &Vec<char>, i: usize) -> (r: bool)
    requires
        i + ds.len() <= cs.len(),
    ensures
        r == (cs@.subrange(i as int, i + ds.len()) == ds@),
{
    let mut j: usize = 0;
    while j < ds.len()
        invariant
            i + ds.len() <= cs.len(),
            j <= ds.len(),
            forall|k: int| 0 <= k < j ==> cs@[i + k] == ds@[k],
        decreases ds.len() - j,
    {
        if cs[i + j] != ds[j] {
            assert(cs@.subrange(i as int, i + ds.len())[j as int] != ds@[j as int]);
            return false;
        }
        j += 1;
    }
    assert(cs@.subrange(i as int, i + ds.len()) =~= ds@);
    true
}

pub proof fn lemma_find_from(s: Seq<char>, d: Seq<char>, i: int)
    ensures
        find_from(s, d, i) == -1 || (i <= find_from(s, d, i) && find_from(s, d, i) + d.len()
            <= s.len() && s.subrange(find_from(s, d, i), find_from(s, d, i) + d.len()) == d),
    decreases s.len() + 1 - i,
{
    if !(i < 0 || i + d.len() > s.len()) && s.subrange(i, i + d.len()) != d {
        lemma_find_from(s, d, i + 1);
    }
}

/// Splits the characters `cs` at every occurrence of the non-empty `ds`.
pub(crate) fn split_chars(cs: &Vec<char>, ds: &Vec<char>) -> (r: Vec<String>)
    requires
        ds.len() > 0,
    ensures
        views(r@) == split_on(cs@, ds@),
{
    let ghost d = ds@;
    let mut r: Vec<String> = Vec::new();
    let mut start: usize = 0;
    let mut i: usize = 0;
    assert(views(r@) + split_on(cs@.skip(0), d) =~= split_on(cs@, d)) by {
        assert(cs@.skip(0) =~= cs@);
    }
    while i < cs.len() && cs.len() - i >= ds.len()
        invariant
            ds@ == d,
            d.len() > 0,
            start <= i <= cs.len(),
            views(r@) + split_on(cs@.skip(start as int), d) == split_on(cs@, d),
            find_from(cs@.skip(start as int), d, 0) == find_from(
                cs@.skip(start as int),
                d,
                i - start,
            ),
        decreases cs.len() - i,
    {
        let ghost rest = cs@.skip(start as int);
        assert(rest.subrange(i - start, i - start + d.len()) =~= cs@.subrange(
            i as int,
            i + d.len(),
        ));
        if occurs_at(cs, ds, i) {
            let ghost k = i - start;
            assert(find_from(rest, d, 0) == k);
            assert(rest.take(k) =~= cs@.subrange(start as int, i as int));
            assert(rest.skip(k + d.len()) =~= cs@.skip(i + d.len()));
            let piece = string_of(cs, start, i);
            let ghost old_r = r@;
            r.push(piece);
            start = i + ds.len();
            i = start;
            assert(views(r@) =~= views(old_r).push(piece@));
            assert(views(r@) + split_on(cs@.skip(start as int), d) =~= views(old_r) + split_on(
                rest,
                d,
            ));
        } else {
            i += 1;
        }
    }
    let ghost rest = cs@.skip(start as int);
    assert(find_from(rest, d, i - start) == -1);
    assert(split_on(rest, d) == seq![rest]);
    let piece = string_of(cs, start, cs.len());
    assert(piece@ =~= rest);
    let ghost old_r = r@;
    r.push(piece);
    assert(views(r@) =~= views(old_r).push(piece@));
    assert(views(r@) =~= views(old_r) + split_on(rest, d));
    r
}

/// Splits a line into its fields on the literal `delimiter`; see `fields_of`
/// for the empty delimiter.
pub fn split_fields(line: &str, delimiter: &str) -> (r: Vec<String>)
    ensures
        views(r@) == fields_of(line@, delimiter@),
{
    let cs = chars_of(line);
    let ds = chars_of(delimiter);
    if ds.len() > 0 {
        return split_chars(&cs, &ds);
    }
    let mut r: Vec<String> = Vec::new();
    let mut i: usize = 0;
    while i < cs.len()
        invariant
            i <= cs.len(),
            cs@ == line@,
            views(r@) =~= Seq::new(i as nat, |j: int| seq![cs@[j]]),
        decreases cs.len() - i,
    {
        let mut f = String::new();
        push_char(&mut f, cs[i]);
        assert(f@ =~= seq![cs@[i as int]]);
        let ghost old_r = r@;
        r.push(f);
        assert(views(r@) =~= views(old_r).push(f@));
        i += 1;
    }
    r.push(String::new());
    assert(views(r@) =~= fields_of(line@, delimiter@));
    r
}

/// A longer string of digits is worth at least as much as its prefix.
pub proof fn lemma_value_prefix(s: Seq<char>, j: int)
    requires
        0 <= j <= s.len(),
    ensures
        decimal_value(s.take(j)) <= decimal_value(s),
    decreases s.len(),
{
    if j == s.len() {
        assert(s.take(j) =~= s);
    } else {
        lemma_value_prefix(s.drop_last(), j);
        assert(s.drop_last().take(j) =~= s.take(j));
    }
}

/// Reads the characters `cs[from..to]` as a field number.
pub fn parse_number_in(cs: &Vec<char>, from: usize, to: usize) -> (r: Option<usize>)
    requires
        from <= to <= cs.len(),
    ensures
        match r {
            Some(v) => parse_number(cs@.subrange(from as int, to as int)) == Some(v as nat),
            None => parse_number(cs@.subrange(from as int, to as int)) is None,
        },
{
    let ghost s = cs@.subrange(from as int, to as int);
    if from == to {
        return None;
    }
    let mut v: usize = 0;
    let mut i: usize = from;
    while i < to
        invariant
            from <= i <= to <= cs.len(),
            s == cs@.subrange(from as int, to as int),
            all_digits(s.take(i - from)),
            v == decimal_value(s.take(i - from)),
        decreases to - i,
    {
        let code = cs[i] as u32;
        assert(s[i - from] == cs@[i as int]);
        if code < 48 || code > 57 {
            return None;
        }
        let dg = (code - 48) as usize;
        assert(s.take(i - from + 1).drop_last() =~= s.take(i - from));
        if v > (usize::MAX - dg) / 10 {
            assert(v * 10 + dg > usize::MAX) by (nonlinear_arith)
                requires
                    v > (usize::MAX - dg) / 10,
                    dg <= 9,
            ;
            proof {
                lemma_value_prefix(s, i - from + 1);
            }
            return None;
        }
        assert(v * 10 + dg <= usize::MAX) by (nonlinear_arith)
            requires
                v <= (usize::MAX - dg) / 10,
                dg <= 9,
        ;
        v = v * 10 + dg;
        i += 1;
        assert(all_digits(s.take(i - from)));
    }
    assert(s.take(to - from) =~= s);
    Some(v)
}

pub proof fn lemma_digit_char(v: nat)
    requires
        v < 10,
    ensures
        is_digit(digit_char(v)),
        digit_value(digit_char(v)) == v,
{
}

/// The decimal notation of a number reads back as that number.
pub proof fn lemma_decimal_value(v: nat)
    ensures
        decimal(v).len() > 0,
        all_digits(decimal(v)),
        decimal_value(decimal(v)) == v,
    decreases v,
{
    if v < 10 {
        lemma_digit_char(v);
        assert(decimal(v).drop_last() =~= Seq::<char>::empty());
        assert(decimal_value(Seq::<char>::empty()) == 0);
        assert(decimal(v).last() == digit_char(v));
    } else {
        lemma_decimal_value(v / 10);
        lemma_digit_char(v % 10);
        assert(decimal(v).drop_last() =~= decimal(v / 10));
        assert(decimal(v).last() == digit_char(v % 10));
        assert(v == (v / 10) * 10 + v % 10);
        let s = decimal(v);
        assert forall|i: int| 0 <= i < s.len() implies is_digit(#[trigger] s[i]) by {
            if i < s.len() - 1 {
                assert(s[i] == decimal(v / 10)[i]);
            }
        }
    }
}

pub proof fn lemma_parse_decimal(v: nat)
    requires
        v <= usize::MAX,
    ensures
        parse_number(decimal(v)) == Some(v),
{
    lemma_decimal_value(v);
}

fn digit_char_exec(v: usize) -> (c: char)
    requires
        v < 10,
    ensures
        c == digit_char(v as nat),
{
    if v == 0 {
        '0'
    } else if v == 1 {
        '1'
    } else if v == 2 {
        '2'
    } else if v == 3 {
        '3'
    } else if v == 4 {
        '4'
    } else if v == 5 {
        '5'
    } else if v == 6 {
        '6'
    } else if v == 7 {
        '7'
    } else if v == 8 {
        '8'
    } else {
        '9'
    }
}

/// Appends the decimal notation of `v`.
pub fn push_decimal(out: &mut String, v: usize)
    ensures
        final(out)@ == old(out)@ + decimal(v as nat),
    decreases v,
{
    if v < 10 {
        push_char(out, digit_char_exec(v));
        assert(final(out)@ =~= old(out)@ + decimal(v as nat));
    } else {
        push_decimal(out, v / 10);
        push_char(out, digit_char_exec(v % 10));
        assert(final(out)@ =~= old(out)@ + decimal(v as nat));
    }
}

/// Joining a first part to the join of the rest.
pub proof fn lemma_join_prepend(a: Seq<char>, rest: Seq<Seq<char>>, d: Seq<char>)
    requires
        rest.len() >= 1,
    ensures
        join(seq![a] + rest, d) == a + d + join(rest, d),
    decreases rest.len(),
{
    let p = seq![a] + rest;
    if rest.len() == 1 {
        assert(p.drop_last() =~= seq![a]);
        assert(join(rest, d) == rest[0]);
        assert(a + d + rest[0] =~= join(p.drop_last(), d) + d + p.last());
    } else {
        lemma_join_prepend(a, rest.drop_last(), d);
        assert(p.drop_last() =~= seq![a] + rest.drop_last());
        assert(join(p, d) == join(p.drop_last(), d) + d + p.last());
        assert(join(rest, d) == join(rest.drop_last(), d) + d + rest.last());
        assert(a + d + join(rest, d) =~= a + d + join(rest.drop_last(), d) + d + rest.last());
    }
}

pub proof fn lemma_split_nonempty(s: Seq<char>, d: Seq<char>)
    ensures
        split_on(s, d).len() >= 1,
    decreases s.len(),
{
    let k = find_from(s, d, 0);
    if d.len() > 0 && 0 <= k && k + d.len() <= s.len() {
        lemma_split_nonempty(s.skip(k + d.len()), d);
    }
}

/// Splitting on a non-empty separator and joining with it gives the text back.
pub proof fn lemma_join_split(s: Seq<char>, d: Seq<char>)
    requires
        d.len() > 0,
    ensures
        join(split_on(s, d), d) == s,
    decreases s.len(),
{
    let k = find_from(s, d, 0);
    lemma_find_from(s, d, 0);
    if 0 <= k && k + d.len() <= s.len() {
        let tail = s.skip(k + d.len());
        lemma_join_split(tail, d);
        lemma_split_nonempty(tail, d);
        lemma_join_prepend(s.take(k), split_on(tail, d), d);
        assert(s.subrange(k, k + d.len()) == d);
        assert(s.take(k) + d + tail =~= s);
    }
}

} // verus!
