use vstd::prelude::*;

verus! {

/// One FASTQ entry: identifier, optional description, sequence and qualities.
pub struct Record {
    pub id: String,
    pub desc: Option<String>,
    pub seq: String,
    pub qual: String,
}

/// The mathematical content of a `Record`.
pub ghost struct RecordView {
    pub id: Seq<char>,
    pub desc: Option<Seq<char>>,
    pub seq: Seq<char>,
    pub qual: Seq<char>,
}

impl View for Record {
    type V = RecordView;

    open spec fn view(&self) -> RecordView {
        RecordView {
            id: self.id@,
            desc: match self.desc {
                Some(d) => Some(d@),
                None => None,
            },
            seq: self.seq@,
            qual: self.qual@,
        }
    }
}

/// Characters with the Unicode White_Space property, as `char::is_whitespace` tests them.
pub open spec fn is_whitespace(c: char) -> bool {
    let u = c as u32;
    (0x9 <= u && u <= 0xd) || u == 0x20 || u == 0x85 || u == 0xa0 || u == 0x1680 || (0x2000 <= u
        && u <= 0x200a) || u == 0x2028 || u == 0x2029 || u == 0x202f || u == 0x205f || u == 0x3000
}

/// `s` without its trailing whitespace.
pub open spec fn trim_end_ws(s: Seq<char>) -> Seq<char>
    decreases s.len(),
{
    if s.len() > 0 && is_whitespace(s.last()) {
        trim_end_ws(s.drop_last())
    } else {
        s
    }
}

/// The header line's content: the identifier, then a space and the description if there is one.
pub open spec fn header_text(r: RecordView) -> Seq<char> {
    match r.desc {
        Some(d) => r.id + seq![' '] + d,
        None => r.id,
    }
}

/// The four-line text form of a record, each line ended by a line feed.
pub open spec fn fastq_text(r: RecordView) -> Seq<char> {
    seq!['@'] + header_text(r) + seq!['\n'] + trim_end_ws(r.seq) + seq!['\n', '+', '\n']
        + trim_end_ws(r.qual) + seq!['\n']
}

/// What the FASTQ reader hands out from `text`: the records in order up to where it stopped,
/// and whether it stopped at the end of the text (`false`: at a malformed record).
pub uninterp spec fn fastq_records_of(text: Seq<u8>) -> (Seq<RecordView>, bool);

/// Relies on the `Display` impl of `bio::io::fastq::Record`, built by `Record::with_attrs`:
/// `@`, the header, the sequence, `+` and the qualities, sequence and qualities trimmed of
/// trailing whitespace, each line ended by a line feed.
#[verifier::external_body]
pub(crate) fn record_text(r: &Record) -> (s: String)
    ensures
        s@ == fastq_text(r@),
{
    let desc = r.desc.as_deref();
    bio::io::fastq::Record::with_attrs(&r.id, desc, r.seq.as_bytes(), r.qual.as_bytes()).to_string()
}

/// Relies on `bio::io::fastq::Reader::records` over an in-memory text: the records it hands
/// out in order, then the reader's error message if it stopped at one; an empty text holds
/// no records and no error.
#[verifier::external_body]
pub(crate) fn parse_records(text: &[u8]) -> (r: (Vec<Record>, Option<String>))
    ensures
        fastq_records_of(text@) == (r.0@.map_values(|x: Record| x@), r.1 is None),
        text@.len() == 0 ==> (r.0@.len() == 0 && r.1 is None),
{
    let mut v = Vec::new();
    for rec in bio::io::fastq::Reader::new(text).records() {
        match rec {
            Ok(rec) => v.push(Record {
                id: rec.id().to_string(),
                desc: rec.desc().map(str::to_string),
                seq: String::from_utf8_lossy(rec.seq()).into_owned(),
                qual: String::from_utf8_lossy(rec.qual()).into_owned(),
            }),
            Err(e) => return (v, Some(e.to_string())),
        }
    }
    (v, None)
}

} // verus!
