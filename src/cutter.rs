//! Runs over lines: a mask from the first line (or from each line when
//! cutting by character count), applied line by line.
use vstd::prelude::*;

use crate::header::{make_viewfield_str, resolve_spec};
use crate::mask::{set_viewfield, mask_of, mask_view};
use crate::project::{project, project_spec, text_view};
use crate::text::{chars_of, fields_of, lemma_split_nonempty, push_char, split_chars, split_fields, split_on, string_of, views};
use crate::CutError;

verus! {

/// How the fields to keep are named, each with the text the user gave.
pub enum FieldSpecification {
    /// Field numbers and ranges, such as `1,3-4,6-`.
    ByFieldNumber(String),
    /// Comma-separated names looked up in the first line.
    ByFieldName(String),
    /// Character positions and ranges; every character is a field.
    ByCharCount(String),
}

/// The delimiter a run uses: cutting by character count splits on the empty
/// delimiter, whatever was given.
pub open spec fn delimiter_for(d: Seq<char>, spec: FieldSpecification) -> Seq<char> {
    if spec is ByCharCount {
        Seq::empty()
    } else {
        d
    }
}

/// The mask that `spec` gives when `line` is the line that decides it.
pub open spec fn line_mask(line: Seq<char>, d: Seq<char>, spec: FieldSpecification) -> Result<
    Seq<bool>,
    CutError,
> {
    let f = fields_of(line, d);
    match spec {
        FieldSpecification::ByFieldNumber(s) => mask_of(f.len(), s@),
        FieldSpecification::ByCharCount(s) => mask_of(f.len(), s@),
        FieldSpecification::ByFieldName(s) => mask_of(f.len(), resolve_spec(f, s@)),
    }
}

/// Builds the mask that `spec` gives when `line` is the line that decides it.
pub fn mask_for_line(line: &str, delimiter: &str, spec: &FieldSpecification) -> (r: Result<
    Vec<bool>,
    CutError,
>)
    ensures
        mask_view(r) == line_mask(line@, delimiter@, *spec),
{
    let fields = split_fields(line, delimiter);
    proof {
        lemma_split_nonempty(line@, delimiter@);
    }
    let n = fields.len();
    match spec {
        FieldSpecification::ByFieldNumber(s) => set_viewfield(n, s.as_str()),
        FieldSpecification::ByCharCount(s) => set_viewfield(n, s.as_str()),
        FieldSpecification::ByFieldName(s) => {
            let numbers = make_viewfield_str(&fields, s.as_str());
            set_viewfield(n, numbers.as_str())
        },
    }
}

/// The state of a run: its delimiter and specification, and the mask once the
/// first line has decided it.
pub struct Cutter {
    pub delimiter: String,
    pub spec: FieldSpecification,
    pub mask: Option<Vec<bool>>,
}

impl Cutter {
    /// The mask that the next line, `line`, is cut with.
    pub open spec fn mask_used(self, line: Seq<char>) -> Result<Seq<bool>, CutError> {
        if !(self.spec is ByCharCount) && self.mask is Some {
            Ok(self.mask->0@)
        } else {
            line_mask(line, self.delimiter@, self.spec)
        }
    }

    /// What the next line, `line`, becomes.
    pub open spec fn line_result(self, line: Seq<char>) -> Result<Seq<char>, CutError> {
        match self.mask_used(line) {
            Ok(m) => project_spec(line, self.delimiter@, m),
            Err(e) => Err(e),
        }
    }

    pub fn new(delimiter: &str, spec: FieldSpecification) -> (r: Cutter)
        ensures
            r.delimiter@ == delimiter_for(delimiter@, spec),
            r.spec == spec,
            r.mask is None,
    {
        let d = match &spec {
            FieldSpecification::ByCharCount(_) => String::new(),
            _ => String::from_str(delimiter),
        };
        Cutter { delimiter: d, spec, mask: None }
    }

    /// Cuts the next line. The first line of a run by number or by name
    /// decides the mask that every later line is cut with.
    pub fn cut_line(&mut self, line: &str) -> (r: Result<String, CutError>)
        ensures
            final(self).delimiter == old(self).delimiter,
            final(self).spec == old(self).spec,
            text_view(r) == old(self).line_result(line@),
            (old(self).spec is ByCharCount || old(self).mask is Some) ==> final(self).mask
                == old(self).mask,
            !(old(self).spec is ByCharCount) && old(self).mask is None ==> match line_mask(
                line@,
                old(self).delimiter@,
                old(self).spec,
            ) {
                Ok(m) => final(self).mask is Some && final(self).mask->0@ == m,
                Err(_) => final(self).mask is None,
            },
    {
        let by_chars = match &self.spec {
            FieldSpecification::ByCharCount(_) => true,
            _ => false,
        };
        if !by_chars {
            if let Some(m) = &self.mask {
                return project(line, self.delimiter.as_str(), m);
            }
        }
        let m = match mask_for_line(line, self.delimiter.as_str(), &self.spec) {
            Ok(m) => m,
            Err(e) => return Err(e),
        };
        let out = project(line, self.delimiter.as_str(), &m);
        if !by_chars {
            self.mask = Some(m);
        }
        out
    }
}

/// A line without the carriage return that may end it.
pub open spec fn strip_cr(l: Seq<char>) -> Seq<char> {
    if l.len() > 0 && l.last() == '\r' {
        l.drop_last()
    } else {
        l
    }
}

/// The lines of a text: its pieces between newlines, without a last empty
/// piece, each without a closing carriage return.
pub open spec fn lines_of(s: Seq<char>) -> Seq<Seq<char>> {
    let p = split_on(s, seq!['\n']);
    let q = if p.len() > 0 && p.last().len() == 0 {
        p.drop_last()
    } else {
        p
    };
    q.map_values(|l: Seq<char>| strip_cr(l))
}

/// What line `i` of a run over `lines` becomes.
pub open spec fn output_line(
    lines: Seq<Seq<char>>,
    d: Seq<char>,
    spec: FieldSpecification,
    i: int,
) -> Result<Seq<char>, CutError> {
    let dd = delimiter_for(d, spec);
    let m = if spec is ByCharCount {
        line_mask(lines[i], dd, spec)
    } else {
        line_mask(lines[0], dd, spec)
    };
    match m {
        Ok(m) => project_spec(lines[i], dd, m),
        Err(e) => Err(e),
    }
}

/// The output of the first `k` lines of a run, each ended by a newline, or
/// the first error among them.
pub open spec fn run_output(
    lines: Seq<Seq<char>>,
    d: Seq<char>,
    spec: FieldSpecification,
    k: nat,
) -> Result<Seq<char>, CutError>
    decreases k,
{
    if k == 0 {
        Ok(Seq::empty())
    } else {
        match run_output(lines, d, spec, (k - 1) as nat) {
            Err(e) => Err(e),
            Ok(o) => match output_line(lines, d, spec, k - 1) {
                Err(e) => Err(e),
                Ok(l) => Ok(o + l + seq!['\n']),
            },
        }
    }
}

/// Splits a text into its lines; see `lines_of`.
pub fn text_lines(input: &str) -> (r: Vec<String>)
    ensures
        views(r@) == lines_of(input@),
{
    let cs = chars_of(input);
    let mut nl: Vec<char> = Vec::new();
    nl.push('\n');
    assert(nl@ =~= seq!['\n']);
    let mut pieces = split_chars(&cs, &nl);
    let ghost p = views(pieces@);
    let last_empty = pieces.len() > 0 && pieces[pieces.len() - 1].as_str().unicode_len() == 0;
    if last_empty {
        pieces.pop();
    }
    let ghost q = views(pieces@);
    assert(q =~= if p.len() > 0 && p.last().len() == 0 {
        p.drop_last()
    } else {
        p
    });
    let mut r: Vec<String> = Vec::new();
    let mut i: usize = 0;
    while i < pieces.len()
        invariant
            i <= pieces.len(),
            q == views(pieces@),
            views(r@) =~= q.take(i as int).map_values(|l: Seq<char>| strip_cr(l)),
        decreases pieces.len() - i,
    {
        let lc = chars_of(pieces[i].as_str());
        let end = if lc.len() > 0 && lc[lc.len() - 1] == '\r' {
            lc.len() - 1
        } else {
            lc.len()
        };
        let l = string_of(&lc, 0, end);
        assert(l@ =~= strip_cr(q[i as int]));
        let ghost old_r = r@;
        r.push(l);
        assert(views(r@) =~= views(old_r).push(l@));
        assert(q.take(i + 1).map_values(|l: Seq<char>| strip_cr(l)) =~= q.take(i as int).map_values(
            |l: Seq<char>| strip_cr(l),
        ).push(strip_cr(q[i as int])));
        i += 1;
    }
    assert(q.take(i as int) =~= q);
    r
}

/// Cuts every line of `input`, each output line ended by a newline. The
/// first error stops the run.
pub fn read_and_output(input: &str, delimiter: &str, spec: FieldSpecification) -> (r: Result<
    String,
    CutError,
>)
    ensures
        text_view(r) == run_output(lines_of(input@), delimiter@, spec, lines_of(input@).len()),
{
    let lines = text_lines(input);
    let ghost ls = lines_of(input@);
    let ghost sp = spec;
    let ghost dd = delimiter_for(delimiter@, spec);
    let mut cutter = Cutter::new(delimiter, spec);
    let mut out = String::new();
    let mut i: usize = 0;
    while i < lines.len()
        invariant
            i <= lines.len(),
            views(lines@) == ls,
            ls == lines_of(input@),
            cutter.delimiter@ == dd,
            dd == delimiter_for(delimiter@, sp),
            cutter.spec == sp,
            sp == spec,
            run_output(ls, delimiter@, sp, i as nat) == Ok::<Seq<char>, CutError>(out@),
            sp is ByCharCount ==> cutter.mask is None,
            !(sp is ByCharCount) && i == 0 ==> cutter.mask is None,
            !(sp is ByCharCount) && i > 0 ==> cutter.mask is Some && line_mask(ls[0], dd, sp)
                == Ok::<Seq<bool>, CutError>(cutter.mask->0@),
        decreases lines.len() - i,
    {
        assert(lines@[i as int]@ == ls[i as int]);
        assert(ls.len() == lines.len());
        assert(cutter.line_result(ls[i as int]) == output_line(ls, delimiter@, sp, i as int));
        match cutter.cut_line(lines[i].as_str()) {
            Err(e) => {
                assert(run_output(ls, delimiter@, sp, (i + 1) as nat) == Err::<Seq<char>, CutError>(e));
                proof {
                    lemma_run_error(ls, delimiter@, sp, (i + 1) as nat, ls.len());
                }
                return Err(e);
            },
            Ok(l) => {
                let ghost before = out@;
                out.append(l.as_str());
                push_char(&mut out, '\n');
                assert(out@ =~= before + l@ + seq!['\n']);
            },
        }
        i += 1;
    }
    Ok(out)
}

/// Once a run has failed, later lines do not change its outcome.
pub proof fn lemma_run_error(
    lines: Seq<Seq<char>>,
    d: Seq<char>,
    spec: FieldSpecification,
    k: nat,
    j: nat,
)
    requires
        k <= j,
        run_output(lines, d, spec, k) is Err,
    ensures
        run_output(lines, d, spec, j) == run_output(lines, d, spec, k),
    decreases j - k,
{
    if k < j {
        lemma_run_error(lines, d, spec, k, (j - 1) as nat);
    }
}

} // verus!
