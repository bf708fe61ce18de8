//! Projection: the kept fields of a line, rejoined with its delimiter.
use vstd::prelude::*;

use crate::text::{fields_of, join, split_fields, views};
use crate::CutError;

verus! {

/// The fields of `f` whose mask entry is true, in their order; fields beyond
/// the mask are not kept.
pub open spec fn kept(f: Seq<Seq<char>>, m: Seq<bool>) -> Seq<Seq<char>>
    decreases m.len(),
{
    if m.len() == 0 {
        Seq::empty()
    } else {
        let prev = kept(f, m.drop_last());
        if m.last() {
            prev.push(f[m.len() - 1])
        } else {
            prev
        }
    }
}

/// The line that mask `m` makes of `line`, or the mismatch when the line has
/// fewer fields than the mask.
pub open spec fn project_spec(line: Seq<char>, d: Seq<char>, m: Seq<bool>) -> Result<
    Seq<char>,
    CutError,
> {
    let f = fields_of(line, d);
    if f.len() < m.len() {
        Err(CutError::FieldCountMismatch { fields: f.len() as usize, mask: m.len() as usize })
    } else {
        Ok(join(kept(f, m), d))
    }
}

pub open spec fn text_view(r: Result<String, CutError>) -> Result<Seq<char>, CutError> {
    match r {
        Ok(s) => Ok(s@),
        Err(e) => Err(e),
    }
}

/// Keeps the fields of `line` that `mask` marks and joins them with
/// `delimiter`.
pub fn project(line: &str, delimiter: &str, mask: &Vec<bool>) -> (r: Result<String, CutError>)
    ensures
        text_view(r) == project_spec(line@, delimiter@, mask@),
{
    let fields = split_fields(line, delimiter);
    let ghost f = fields_of(line@, delimiter@);
    if fields.len() < mask.len() {
        return Err(CutError::FieldCountMismatch { fields: fields.len(), mask: mask.len() });
    }
    let mut out = String::new();
    let mut count: usize = 0;
    let mut i: usize = 0;
    assert(mask@.take(0) =~= Seq::<bool>::empty());
    while i < mask.len()
        invariant
            i <= mask.len() <= fields.len(),
            views(fields@) == f,
            count == kept(f, mask@.take(i as int)).len(),
            count <= i,
            out@ == join(kept(f, mask@.take(i as int)), delimiter@),
        decreases mask.len() - i,
    {
        let ghost prev = kept(f, mask@.take(i as int));
        assert(mask@.take(i + 1).drop_last() =~= mask@.take(i as int));
        if mask[i] {
            assert(fields@[i as int]@ == f[i as int]);
            assert(prev.push(f[i as int]).drop_last() =~= prev);
            if count > 0 {
                out.append(delimiter);
            }
            out.append(fields[i].as_str());
            count += 1;
        }
        i += 1;
    }
    assert(mask@.take(i as int) =~= mask@);
    Ok(out)
}

} // verus!
