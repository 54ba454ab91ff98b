//! Deciding where a computed difference goes, and rendering the file form.

use vstd::prelude::*;
use vstd::string::StringExecFns;
use crate::error::DffError;
use crate::format::{spec_filetype, FileType};

verus! {

/// Where the result of a run is sent.
#[derive(Clone, Copy, Debug, PartialEq, Eq, Structural)]
pub enum OutputPlan {
    /// Nothing is emitted: the difference is empty.
    Silent,
    /// Each value is printed to standard output, one per line.
    Stdout,
    /// The rendered values are written to the target file.
    WriteFile,
}

/// The sink an optional target path selects. An empty difference produces
/// no output at all, before the target is even classified. Otherwise a
/// missing target means standard output; a Text target means a file
/// write; a CSV target is not supported for writing and falls back to
/// standard output; a target of any other extension is rejected.
pub open spec fn spec_plan(values: Seq<Seq<char>>, target: Option<Seq<char>>) -> Result<
    OutputPlan,
    DffError,
> {
    if values.len() == 0 {
        Ok(OutputPlan::Silent)
    } else {
        match target {
            None => Ok(OutputPlan::Stdout),
            Some(p) => match spec_filetype(vstd::utf8::encode_utf8(p)) {
                Ok(FileType::Text) => Ok(OutputPlan::WriteFile),
                Ok(FileType::Csv) => Ok(OutputPlan::Stdout),
                Err(e) => Err(e),
            },
        }
    }
}

/// Decide the sink for `values` and the optional target path, as
/// `spec_plan` says.
pub fn plan_output(values: &Vec<String>, target: Option<&String>) -> (r: Result<
    OutputPlan,
    DffError,
>)
    ensures
        r == spec_plan(
            values.deep_view(),
            match target {
                Some(t) => Some(t@),
                None => None,
            },
        ),
{
    if values.len() == 0 {
        proof {
            assert(values.deep_view().len() == 0);
        }
        return Ok(OutputPlan::Silent);
    }
    proof {
        assert(values.deep_view().len() == values@.len());
    }
    match target {
        None => Ok(OutputPlan::Stdout),
        Some(t) => match crate::format::get_filetype(t.as_str()) {
            Ok(FileType::Text) => Ok(OutputPlan::WriteFile),
            Ok(FileType::Csv) => Ok(OutputPlan::Stdout),
            Err(e) => Err(e),
        },
    }
}

/// The values joined into one string, in order, nothing between them.
pub open spec fn concat_all(values: Seq<Seq<char>>) -> Seq<char>
    decreases values.len(),
{
    if values.len() == 0 {
        Seq::empty()
    } else {
        concat_all(values.drop_last()) + values.last()
    }
}

/// Render the values for the file sink. They are written consecutively
/// with no separator inserted between them — the file form is kept exactly
/// as the tool has always written it, so boundaries exist only where a
/// value itself ends in a line terminator.
pub fn concat_values(values: &Vec<String>) -> (r: String)
    ensures
        r@ == concat_all(values.deep_view()),
{
    let ghost vd = values.deep_view();
    let n = values.len();
    let mut out = String::new();
    let mut i: usize = 0;
    proof {
        assert(vd.subrange(0, 0) =~= Seq::<Seq<char>>::empty());
    }
    while i < n
        invariant
            n == values.len(),
            vd == values.deep_view(),
            i <= n,
            out@ == concat_all(vd.subrange(0, i as int)),
        decreases n - i,
    {
        proof {
            assert(vd.subrange(0, i + 1).drop_last() =~= vd.subrange(0, i as int));
            assert(vd.subrange(0, i + 1).last() == vd[i as int]);
        }
        out.append(values[i].as_str());
        i += 1;
    }
    proof {
        assert(vd.subrange(0, n as int) =~= vd);
    }
    out
}

} // verus!
