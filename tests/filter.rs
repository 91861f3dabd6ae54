use std::io::Write;

use flate2::write::GzEncoder;
use flate2::Compression;
use fq_filter_reads::cli::{action, run, Command};
use fq_filter_reads::{decide, filter_fq, filter_records, get_list, is_gz_path, process_read};
use fq_filter_reads::{FilterError, IdSet, Record};

const THREE: &[u8] = b"@a\nAAA\n+\nAAA\n@c\nCCC\n+\nCCC\n@t\nTTT\n+\nTTT";

fn gz(data: &[u8]) -> Vec<u8> {
    let mut enc = GzEncoder::new(Vec::new(), Compression::default());
    enc.write_all(data).unwrap();
    enc.finish().unwrap()
}

fn set_of(ids: &[&str]) -> IdSet {
    let mut s = IdSet::new();
    for id in ids {
        s.insert(id.as_bytes().to_vec());
    }
    s
}

fn rec(id: &str, desc: Option<&str>, seq: &str, qual: &str) -> Record {
    Record {
        id: id.to_string(),
        desc: desc.map(|d| d.to_string()),
        seq: seq.to_string(),
        qual: qual.to_string(),
    }
}

#[test]
fn process_read_keeps_listed_ids() {
    let hash = set_of(&["a", "t"]);
    let record1 = rec("a", None, "AAA", "AAA");
    let record2 = rec("b", None, "AAA", "AAA");
    let mut out = String::new();
    assert_eq!(process_read(&record1, &hash, false, &mut out), 1);
    assert_eq!(out, "@a\nAAA\n+\nAAA\n");
    assert_eq!(process_read(&record2, &hash, false, &mut out), 0);
    assert_eq!(out, "@a\nAAA\n+\nAAA\n");
    let mut out2 = String::new();
    assert_eq!(process_read(&record1, &hash, true, &mut out2), 0);
    assert_eq!(process_read(&record2, &hash, true, &mut out2), 1);
    assert_eq!(out2, "@b\nAAA\n+\nAAA\n");
}

#[test]
fn process_read_writes_description() {
    let hash = set_of(&["r1"]);
    let mut out = String::new();
    let r = rec("r1", Some("sample 7"), "ACGT", "IIII");
    assert_eq!(process_read(&r, &hash, false, &mut out), 1);
    assert_eq!(out, "@r1 sample 7\nACGT\n+\nIIII\n");
}

#[test]
fn filter_fq_three_records() {
    let data = gz(THREE);
    let hash = set_of(&["a", "t"]);
    let mut out = String::new();
    let (read_count, out_count) = filter_fq("test.fq.gz", &data, &hash, false, &mut out).unwrap_or((99, 99));
    assert_eq!(read_count, 3);
    assert_eq!(out_count, 2);
    assert_eq!(out, "@a\nAAA\n+\nAAA\n@t\nTTT\n+\nTTT\n");

    let mut out2 = String::new();
    let (read_count2, out_count2) = filter_fq("test.fq.gz", &data, &hash, true, &mut out2).unwrap_or((99, 99));
    assert_eq!(read_count2, 3);
    assert_eq!(out_count2, 1);
    assert_eq!(out2, "@c\nCCC\n+\nCCC\n");
}

#[test]
fn filter_fq_twice_gives_the_same() {
    let data = gz(THREE);
    let hash = set_of(&["c"]);
    let mut out1 = String::new();
    let mut out2 = String::new();
    let r1 = filter_fq("x.gz", &data, &hash, false, &mut out1).unwrap_or((99, 99));
    let r2 = filter_fq("x.gz", &data, &hash, false, &mut out2).unwrap_or((98, 98));
    assert_eq!(r1, r2);
    assert_eq!(out1, out2);
    assert_eq!(out1, "@c\nCCC\n+\nCCC\n");
}

#[test]
fn emitted_records_parse_back_unchanged() {
    let data = gz(b"@r1 first read\nACGT\n+\nIIII\n@r2\nGG\n+\n!!\n");
    let mut out = String::new();
    let r = filter_fq("in.fq.gz", &data, &IdSet::new(), true, &mut out).unwrap_or((99, 99));
    assert_eq!(r, (2, 2));
    let mut again = String::new();
    let r2 = filter_fq("in.fq.gz", &gz(out.as_bytes()), &IdSet::new(), true, &mut again).unwrap_or((99, 99));
    assert_eq!(r2, (2, 2));
    assert_eq!(again, out);
    assert_eq!(out, "@r1 first read\nACGT\n+\nIIII\n@r2\nGG\n+\n!!\n");
}

#[test]
fn empty_id_list_keeps_none_or_all() {
    let data = gz(THREE);
    let ids = get_list("");
    assert_eq!(ids.len(), 0);
    let mut out = String::new();
    assert_eq!(filter_fq("f.gz", &data, &ids, false, &mut out).unwrap_or((99, 99)), (3, 0));
    assert_eq!(out, "");
    let mut out2 = String::new();
    assert_eq!(filter_fq("f.gz", &data, &ids, true, &mut out2).unwrap_or((99, 99)), (3, 3));
    assert_eq!(out2, "@a\nAAA\n+\nAAA\n@c\nCCC\n+\nCCC\n@t\nTTT\n+\nTTT\n");
}

#[test]
fn empty_input_gives_zero_counts() {
    let data = gz(b"");
    let hash = set_of(&["a"]);
    let mut out = String::new();
    assert_eq!(filter_fq("e.fq.gz", &data, &hash, false, &mut out).unwrap_or((9, 9)), (0, 0));
    assert_eq!(filter_fq("e.fq.gz", &data, &hash, true, &mut out).unwrap_or((9, 9)), (0, 0));
    assert_eq!(out, "");
}

#[test]
fn get_list_reads_lines() {
    let ids = get_list("a\nb\nc");
    assert!(ids.contains(b"a"));
    assert!(ids.contains(b"b"));
    assert!(ids.contains(b"c"));
    assert!(!ids.contains(b"d"));
    assert_eq!(ids.len(), 3);
}

#[test]
fn get_list_line_terminators_and_duplicates() {
    let ids = get_list("x\r\ny \nx\n\n");
    assert!(ids.contains(b"x"));
    assert!(ids.contains(b"y "));
    assert!(!ids.contains(b"y"));
    assert!(ids.contains(b""));
    assert!(!ids.contains(b"x\r"));
    assert_eq!(ids.len(), 3);
    let one = get_list("a\n");
    assert_eq!(one.len(), 1);
    let cr = get_list("a\r");
    assert!(cr.contains(b"a\r"));
}

#[test]
fn suffix_is_required() {
    let data = gz(THREE);
    let mut out = String::new();
    let r = filter_fq("reads.fq", &data, &set_of(&["a"]), false, &mut out);
    assert!(matches!(r, Err(FilterError::InputContract)));
    assert_eq!(out, "");
    assert!(is_gz_path("a.gz"));
    assert!(!is_gz_path("a.gzip"));
    assert!(!is_gz_path("gz"));
    assert!(is_gz_path(".gz"));
}

#[test]
fn corrupt_stream_is_a_decompression_error() {
    let mut out = String::new();
    let r = filter_fq("bad.gz", b"not gzip at all", &set_of(&["a"]), false, &mut out);
    assert!(matches!(r, Err(FilterError::Decompression(_))));
    assert_eq!(out, "");
}

#[test]
fn malformed_record_is_a_format_error() {
    let mut out = String::new();
    let data = gz(b"@a\nAAA\n+\nAAA\nno marker\nCC\n+\nCC\n");
    let r = filter_fq("bad.fq.gz", &data, &set_of(&["a"]), false, &mut out);
    assert!(matches!(r, Err(FilterError::Format(_))));
    assert_eq!(out, "@a\nAAA\n+\nAAA\n");
    let mut out2 = String::new();
    let truncated = gz(b"@a\nAAA\n+\n");
    let r2 = filter_fq("t.fq.gz", &truncated, &set_of(&["a"]), false, &mut out2);
    assert!(matches!(r2, Err(FilterError::Format(_))));
    assert_eq!(out2, "");
}

#[test]
fn bad_checksum_keeps_records_read_before() {
    let mut data = gz(b"@a\nAAA\n+\nAAA\n@c\nCCC\n+\nCCC\n");
    let n = data.len();
    data[n - 8] ^= 0xff;
    let mut out = String::new();
    let r = filter_fq("crc.fq.gz", &data, &set_of(&["c"]), false, &mut out);
    assert!(matches!(r, Err(FilterError::Decompression(_))));
    assert_eq!(out, "@c\nCCC\n+\nCCC\n");
}

#[test]
fn truncated_stream_keeps_records_read_before() {
    let data = gz(b"@a\nAAA\n+\nAAA\n@c\nCCC\n+\nCCC\n");
    let cut = &data[..data.len() - 8];
    let mut out = String::new();
    let r = filter_fq("cut.fq.gz", cut, &IdSet::new(), true, &mut out);
    assert!(matches!(r, Err(FilterError::Decompression(_))));
    assert_eq!(out, "@a\nAAA\n+\nAAA\n@c\nCCC\n+\nCCC\n");
}

#[test]
fn decide_is_exact_membership() {
    let s = set_of(&["a", ""]);
    assert!(decide("a", &s, false));
    assert!(!decide("a", &s, true));
    assert!(decide("", &s, false));
    assert!(!decide("A", &s, false));
    assert!(decide("A", &s, true));
    assert!(!decide("ab", &s, false));
}

#[test]
fn filter_records_counts() {
    let rs = vec![rec("a", None, "A", "I"), rec("b", None, "C", "I"), rec("a", None, "G", "I")];
    let s = set_of(&["a"]);
    let mut out = String::new();
    assert_eq!(filter_records(&rs, &s, false, &mut out), (3, 2));
    assert_eq!(out, "@a\nA\n+\nI\n@a\nG\n+\nI\n");
}

#[test]
fn id_set_insert_collapses_duplicates() {
    let mut s = IdSet::new();
    s.insert(b"q".to_vec());
    s.insert(b"q".to_vec());
    s.insert(b"r".to_vec());
    assert_eq!(s.len(), 2);
}

#[test]
fn run_reports_counts() {
    let args = Command { in_fastq: "in.fq.gz".to_string(), in_id_list: "ids.txt".to_string(), inverse: false };
    let mut out = String::new();
    let summary = run(&args, "a\nt\n", &gz(THREE), &mut out).ok().unwrap();
    assert_eq!(summary.id_count, 2);
    assert_eq!(summary.read_count, 3);
    assert_eq!(summary.out_count, 2);
    assert_eq!(action(false), "retain");
    assert_eq!(action(true), "remove");
    let bad = Command { in_fastq: "in.fq".to_string(), in_id_list: "ids.txt".to_string(), inverse: true };
    let e = run(&bad, "a", &gz(THREE), &mut out).err().unwrap();
    assert_eq!(e.message(), "Input must be gz fastq file");
}

#[test]
fn id_set_lookup_across_order_and_prefixes() {
    let s = get_list("m\nab\na\nzz\nabc\n\u{e9}\nb");
    assert_eq!(s.len(), 7);
    for id in ["m", "ab", "a", "zz", "abc", "\u{e9}", "b"] {
        assert!(s.contains(id.as_bytes()));
    }
    for id in ["", "aa", "abd", "z", "zzz", "c", "e"] {
        assert!(!s.contains(id.as_bytes()));
    }
}
