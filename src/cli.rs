use vstd::prelude::*;
use vstd::string::*;
use vstd::utf8::encode_utf8;
use crate::filter::{FilterError, filter_fq, filter_outcome};
use crate::idset::{get_list, lines_of};

verus! {

/// What a run is asked to do: the compressed FASTQ path, the identifier-list path, and
/// whether to drop (rather than keep) the listed identifiers.
pub struct Command {
    pub in_fastq: String,
    pub in_id_list: String,
    pub inverse: bool,
}

/// What a successful run reports.
pub struct RunSummary {
    /// Distinct identifiers in the list.
    pub id_count: usize,
    /// Records read.
    pub read_count: u64,
    /// Records written.
    pub out_count: u64,
}

/// The word for the selected mode.
pub fn action(inverse: bool) -> (r: &'static str)
    ensures
        inverse ==> r@ == "remove"@,
        !inverse ==> r@ == "retain"@,
{
    if inverse {
        "remove"
    } else {
        "retain"
    }
}

/// Builds the identifier set from `id_text` and filters the compressed FASTQ content
/// `fastq_data` of `args.in_fastq` with it, appending the kept records to `out`.
pub fn run(args: &Command, id_text: &str, fastq_data: &[u8], out: &mut String) -> (r: Result<RunSummary, FilterError>)
    ensures
        ({
            let ids = lines_of(id_text.spec_bytes()).to_set();
            let path = encode_utf8(args.in_fastq@);
            match r {
                Ok(s) => {
                    &&& s.id_count == ids.len()
                    &&& filter_outcome(path, fastq_data@, ids, args.inverse, Ok((s.read_count, s.out_count)), old(out)@, final(out)@)
                },
                Err(e) => filter_outcome(path, fastq_data@, ids, args.inverse, Err(e), old(out)@, final(out)@),
            }
        }),
{
    let id_set = get_list(id_text);
    let id_count = id_set.len();
    match filter_fq(args.in_fastq.as_str(), fastq_data, &id_set, args.inverse, out) {
        Ok((read_count, out_count)) => Ok(RunSummary { id_count, read_count, out_count }),
        Err(e) => Err(e),
    }
}

} // verus!
