//! Selection by header name: names become the field numbers of the header
//! line's fields that carry them.
use vstd::prelude::*;

use crate::text::{chars_of, decimal, join, push_char, push_decimal, split_chars, split_on, views};

verus! {

/// Position of the first of `headers[i..]` equal to `name`, or -1.
pub open spec fn first_match(headers: Seq<Seq<char>>, name: Seq<char>, i: int) -> int
    decreases headers.len() - i,
{
    if i < 0 || i >= headers.len() {
        -1
    } else if headers[i] == name {
        i
    } else {
        first_match(headers, name, i + 1)
    }
}

/// The 1-based field numbers of the names, in the order of the names; each
/// name stands for its first occurrence among the headers, and a name that
/// is no header is left out.
pub open spec fn resolved(headers: Seq<Seq<char>>, names: Seq<Seq<char>>) -> Seq<nat>
    decreases names.len(),
{
    if names.len() == 0 {
        Seq::empty()
    } else {
        let prev = resolved(headers, names.drop_last());
        let k = first_match(headers, names.last(), 0);
        if k >= 0 {
            prev.push((k + 1) as nat)
        } else {
            prev
        }
    }
}

/// Numbers in decimal, separated by commas.
pub open spec fn number_list(vals: Seq<nat>) -> Seq<char> {
    join(vals.map_values(|v: nat| decimal(v)), seq![','])
}

/// The numeric field specification that the comma-separated names of
/// `name_spec` stand for, given the fields of the header line.
pub open spec fn resolve_spec(headers: Seq<Seq<char>>, name_spec: Seq<char>) -> Seq<char> {
    number_list(resolved(headers, split_on(name_spec, seq![','])))
}

/// Resolves the header names of `name_spec` to a numeric field specification.
pub fn make_viewfield_str(header_fields: &Vec<String>, name_spec: &str) -> (r: String)
    ensures
        r@ == resolve_spec(views(header_fields@), name_spec@),
{
    let ghost hs = views(header_fields@);
    let cs = chars_of(name_spec);
    let mut comma: Vec<char> = Vec::new();
    comma.push(',');
    assert(comma@ =~= seq![',']);
    let names = split_chars(&cs, &comma);
    let ghost ns = views(names@);
    let mut out = String::new();
    let mut count: usize = 0;
    let mut k: usize = 0;
    assert(ns.take(0) =~= Seq::<Seq<char>>::empty());
    while k < names.len()
        invariant
            k <= names.len(),
            hs == views(header_fields@),
            ns == views(names@),
            ns == split_on(name_spec@, seq![',']),
            count == resolved(hs, ns.take(k as int)).len(),
            count <= k,
            out@ == number_list(resolved(hs, ns.take(k as int))),
        decreases names.len() - k,
    {
        let ghost prev = resolved(hs, ns.take(k as int));
        let ghost name = ns[k as int];
        assert(ns.take(k + 1).drop_last() =~= ns.take(k as int));
        assert(ns.take(k + 1).last() == name);
        let mut j: usize = 0;
        while j < header_fields.len() && header_fields[j] != names[k]
            invariant
                j <= header_fields.len(),
                k < names.len(),
                hs == views(header_fields@),
                name == views(names@)[k as int],
                first_match(hs, name, 0) == first_match(hs, name, j as int),
            decreases header_fields.len() - j,
        {
            j += 1;
        }
        if j < header_fields.len() {
            let ghost vals = prev.push((j + 1) as nat);
            assert(first_match(hs, name, 0) == j);
            assert(vals.map_values(|v: nat| decimal(v)).drop_last() =~= prev.map_values(
                |v: nat| decimal(v),
            ));
            if count > 0 {
                push_char(&mut out, ',');
            }
            push_decimal(&mut out, j + 1);
            count += 1;
            assert(out@ =~= number_list(vals));
        }
        k += 1;
    }
    assert(ns.take(k as int) =~= ns);
    out
}

} // verus!
