use vstd::prelude::*;
use vstd::string::*;
use vstd::utf8::encode_utf8;
use crate::idset::{IdSet, LF, copy_range};
use crate::record::{Record, RecordView, fastq_text, fastq_records_of, parse_records, record_text};

verus! {

/// Why a run failed.
pub enum FilterError {
    /// A file could not be opened or read.
    Io(String),
    /// The compressed stream is corrupt or not gzip.
    Decompression(String),
    /// The decompressed text holds a malformed record.
    Format(String),
    /// The input path does not end in `.gz`.
    InputContract,
}

impl FilterError {
    /// A one-line description of the failure.
    pub fn message(&self) -> (r: String)
        ensures
            match self {
                FilterError::Io(m) => r@ == m@,
                FilterError::Decompression(m) => r@ == m@,
                FilterError::Format(m) => r@ == m@,
                FilterError::InputContract => r@ == "Input must be gz fastq file"@,
            },
    {
        match self {
            FilterError::Io(m) => m.clone(),
            FilterError::Decompression(m) => m.clone(),
            FilterError::Format(m) => m.clone(),
            FilterError::InputContract => String::from_str("Input must be gz fastq file"),
        }
    }
}

/// The bytes that identify a record: its identifier in UTF-8.
pub open spec fn id_key(r: RecordView) -> Seq<u8> {
    encode_utf8(r.id)
}

/// Whether a record with identifier `id` is kept: present in `s`, or absent in inverse mode.
pub open spec fn keeps(id: Seq<u8>, s: Set<Seq<u8>>, inverse: bool) -> bool {
    s.contains(id) != inverse
}

/// The records of `rs` that are kept, in input order.
pub open spec fn kept(rs: Seq<RecordView>, s: Set<Seq<u8>>, inverse: bool) -> Seq<RecordView>
    decreases rs.len(),
{
    if rs.len() == 0 {
        seq![]
    } else {
        let k = kept(rs.drop_last(), s, inverse);
        if keeps(id_key(rs.last()), s, inverse) {
            k.push(rs.last())
        } else {
            k
        }
    }
}

/// The text form of `rs`, record after record.
pub open spec fn text_of(rs: Seq<RecordView>) -> Seq<char>
    decreases rs.len(),
{
    if rs.len() == 0 {
        seq![]
    } else {
        text_of(rs.drop_last()) + fastq_text(rs.last())
    }
}

/// The views of a vector of records.
pub open spec fn views(rs: Seq<Record>) -> Seq<RecordView> {
    rs.map_values(|x: Record| x@)
}

/// Whether a path ends in `.gz`.
pub open spec fn ends_with_gz(p: Seq<u8>) -> bool {
    p.len() >= 3 && p[p.len() - 3] == 46u8 && p[p.len() - 2] == 103u8 && p[p.len() - 1] == 122u8
}

/// What decompressing `data` gives: the bytes produced up to where the decoder stopped, and
/// whether it stopped at the end of a valid gzip stream (`false`: at an error).
pub uninterp spec fn gunzip_of(data: Seq<u8>) -> (Seq<u8>, bool);

/// Relies on `flate2::read::GzDecoder` read to its end with `Read::read_to_end`, which keeps
/// the bytes decoded before an error: those bytes, then the decoder's error message if any.
#[verifier::external_body]
fn gunzip(data: &[u8]) -> (r: (Vec<u8>, Option<String>))
    ensures
        gunzip_of(data@) == (r.0@, r.1 is None),
{
    let mut v = Vec::new();
    match std::io::Read::read_to_end(&mut flate2::read::GzDecoder::new(data), &mut v) {
        Ok(_) => (v, None),
        Err(e) => (v, Some(e.to_string())),
    }
}

/// The length of the part of `b` that ends with its last line feed (0 if it has none).
pub open spec fn complete_len(b: Seq<u8>) -> int
    decreases b.len(),
{
    if b.len() == 0 {
        0
    } else if b.last() == LF {
        b.len() as int
    } else {
        complete_len(b.drop_last())
    }
}

/// The text that a run parses: all of the decompressed bytes when the stream is valid,
/// otherwise only its complete lines, since the line being decoded when the stream failed
/// was never whole.
pub open spec fn readable_text(data: Seq<u8>) -> Seq<u8> {
    let (bytes, whole) = gunzip_of(data);
    if whole {
        bytes
    } else {
        bytes.subrange(0, complete_len(bytes))
    }
}

/// Finds the end of the last complete line of `b`.
pub fn complete_lines_end(b: &[u8]) -> (r: usize)
    ensures
        r == complete_len(b@),
        r <= b@.len(),
{
    let mut n: usize = b.len();
    assert(b@.subrange(0, n as int) =~= b@);
    while n > 0 && b[n - 1] != LF
        invariant
            n <= b@.len(),
            complete_len(b@) == complete_len(b@.subrange(0, n as int)),
        decreases n,
    {
        assert(b@.subrange(0, n as int).drop_last() =~= b@.subrange(0, n - 1));
        n = n - 1;
    }
    n
}

/// The keep/drop decision for one identifier.
pub fn decide(id: &str, id_list: &IdSet, inverse: bool) -> (r: bool)
    requires
        id_list.wf(),
    ensures
        r == keeps(id.spec_bytes(), id_list@, inverse),
        r == (id_list@.contains(id.spec_bytes()) != inverse),
{
    id_list.contains(id.as_bytes()) != inverse
}

/// Appends `record` to `out` in text form if it is kept; returns how many records were written.
pub fn process_read(record: &Record, id_list: &IdSet, inverse: bool, out: &mut String) -> (r: u64)
    requires
        id_list.wf(),
    ensures
        keeps(id_key(record@), id_list@, inverse) ==> r == 1 && final(out)@ == old(out)@
            + fastq_text(record@),
        !keeps(id_key(record@), id_list@, inverse) ==> r == 0 && final(out)@ == old(out)@,
{
    if decide(record.id.as_str(), id_list, inverse) {
        let text = record_text(record);
        out.append(text.as_str());
        1
    } else {
        0
    }
}

/// Runs the filter over parsed records, appending the kept ones to `out`.
/// Returns (records observed, records written).
pub fn filter_records(records: &Vec<Record>, id_list: &IdSet, inverse: bool, out: &mut String) -> (r: (u64, u64))
    requires
        id_list.wf(),
    ensures
        r.0 == records@.len(),
        r.1 == kept(views(records@), id_list@, inverse).len(),
        final(out)@ == old(out)@ + text_of(kept(views(records@), id_list@, inverse)),
{
    let ghost rs = views(records@);
    let mut read_count: u64 = 0;
    let mut out_count: u64 = 0;
    let mut i: usize = 0;
    while i < records.len()
        invariant
            rs == views(records@),
            id_list.wf(),
            0 <= i <= records@.len(),
            read_count == i,
            out_count == kept(rs.subrange(0, i as int), id_list@, inverse).len(),
            out_count <= read_count,
            out@ == old(out)@ + text_of(kept(rs.subrange(0, i as int), id_list@, inverse)),
        decreases records@.len() - i,
    {
        let ghost before = out@;
        let oc = process_read(&records[i], id_list, inverse, out);
        proof {
            let pre = rs.subrange(0, i as int);
            let next = rs.subrange(0, i + 1);
            assert(next.drop_last() =~= pre);
            assert(next.last() == records@[i as int]@);
            let k = kept(pre, id_list@, inverse);
            if keeps(id_key(next.last()), id_list@, inverse) {
                assert(kept(next, id_list@, inverse) == k.push(next.last()));
                assert(k.push(next.last()).drop_last() =~= k);
                assert(text_of(k.push(next.last())) == text_of(k) + fastq_text(next.last()));
                assert(out@ =~= old(out)@ + text_of(kept(next, id_list@, inverse)));
            } else {
                assert(kept(next, id_list@, inverse) == k);
            }
        }
        read_count = read_count + 1;
        out_count = out_count + oc;
        i += 1;
    }
    assert(rs.subrange(0, i as int) =~= rs);
    (read_count, out_count)
}

/// Whether `path` carries the gzip suffix `.gz`.
pub fn is_gz_path(path: &str) -> (r: bool)
    ensures
        r == ends_with_gz(path.spec_bytes()),
{
    let b = path.as_bytes();
    let n = b.len();
    n >= 3 && b[n - 3] == 46u8 && b[n - 2] == 103u8 && b[n - 1] == 122u8
}

/// What filtering the compressed content `data` of the file at `path` with the set `s` gives:
/// `r` is the result, `before` and `after` the output text before and after.
/// A path without the `.gz` suffix is refused before anything is read, and nothing is written.
/// Otherwise the records that the reader hands out from the readable text are filtered in
/// input order and the kept ones written, also where the run then fails; it fails with the
/// decompression error where the stream is not valid gzip, else with the format error where
/// a record is malformed, else it returns the records read and the records written.
pub open spec fn filter_outcome(
    path: Seq<u8>,
    data: Seq<u8>,
    s: Set<Seq<u8>>,
    inverse: bool,
    r: Result<(u64, u64), FilterError>,
    before: Seq<char>,
    after: Seq<char>,
) -> bool {
    let whole = gunzip_of(data).1;
    let (rs, parsed) = fastq_records_of(readable_text(data));
    &&& !ends_with_gz(path) ==> (r matches Err(FilterError::InputContract)) && after == before
    &&& ends_with_gz(path) ==> after == before + text_of(kept(rs, s, inverse))
    &&& ends_with_gz(path) && !whole ==> (r matches Err(FilterError::Decompression(_)))
    &&& ends_with_gz(path) && whole && !parsed ==> (r matches Err(FilterError::Format(_)))
    &&& ends_with_gz(path) && whole && parsed ==> {
        &&& r is Ok
        &&& r->Ok_0.0 == rs.len()
        &&& r->Ok_0.1 == kept(rs, s, inverse).len()
    }
    &&& ends_with_gz(path) && gunzip_of(data) == (Seq::<u8>::empty(), true) ==> r == Ok::<
        (u64, u64),
        FilterError,
    >((0u64, 0u64))
}

/// Filters the gzip-compressed FASTQ content `data`, read from `fastq_file`, appending the
/// kept records to `out` in input order. Returns (records observed, records written). Where
/// the stream or a record turns out bad, the kept records read before it stay written and
/// the error is returned.
pub fn filter_fq(fastq_file: &str, data: &[u8], id_list: &IdSet, inverse: bool, out: &mut String) -> (r: Result<(u64, u64), FilterError>)
    requires
        id_list.wf(),
    ensures
        filter_outcome(fastq_file.spec_bytes(), data@, id_list@, inverse, r, old(out)@, final(out)@),
{
    if !is_gz_path(fastq_file) {
        return Err(FilterError::InputContract);
    }
    let (bytes, gz_error) = gunzip(data);
    let end = if gz_error.is_some() {
        complete_lines_end(bytes.as_slice())
    } else {
        bytes.len()
    };
    let text = copy_range(bytes.as_slice(), 0, end);
    assert(text@ == readable_text(data@)) by {
        if gz_error.is_none() {
            assert(text@ =~= bytes@);
        }
    }
    let (records, parse_error) = parse_records(text.as_slice());
    let counts = filter_records(&records, id_list, inverse, out);
    proof {
        if text@.len() == 0 {
            assert(views(records@) =~= Seq::<RecordView>::empty());
        }
    }
    match gz_error {
        Some(m) => Err(FilterError::Decompression(m)),
        None => match parse_error {
            Some(m) => Err(FilterError::Format(m)),
            None => Ok(counts),
        },
    }
}

} // verus!
