use vstd::prelude::*;
use crate::filter::{FilterError, filter_outcome, id_key, keeps, kept, readable_text};
use crate::record::fastq_records_of;
use crate::idset::lines_of;
use crate::record::RecordView;

verus! {

/// Inverse mode negates the decision exactly: without it a record is kept iff its identifier
/// is in the set, with it iff the identifier is not, for every identifier.
pub proof fn lemma_inverse_negates(id: Seq<u8>, s: Set<Seq<u8>>)
    ensures
        keeps(id, s, false) == s.contains(id),
        keeps(id, s, true) == !s.contains(id),
        keeps(id, s, true) == !keeps(id, s, false),
{
}

/// A run never writes more records than it reads, and writes all of them exactly when
/// every record is kept under the chosen mode.
pub proof fn lemma_emitted_le_observed(rs: Seq<RecordView>, s: Set<Seq<u8>>, inverse: bool)
    ensures
        kept(rs, s, inverse).len() <= rs.len(),
        kept(rs, s, inverse).len() == rs.len() <==> forall|i: int|
            0 <= i < rs.len() ==> #[trigger] keeps(id_key(rs[i]), s, inverse),
    decreases rs.len(),
{
    if rs.len() > 0 {
        let p = rs.drop_last();
        lemma_emitted_le_observed(p, s, inverse);
        assert forall|i: int| 0 <= i < p.len() implies #[trigger] p[i] == rs[i] by {}
        if kept(rs, s, inverse).len() == rs.len() {
            assert(keeps(id_key(rs.last()), s, inverse));
            assert forall|i: int| 0 <= i < rs.len() implies #[trigger] keeps(
                id_key(rs[i]),
                s,
                inverse,
            ) by {
                if i < p.len() {
                    assert(p[i] == rs[i]);
                    assert(keeps(id_key(p[i]), s, inverse));
                }
            }
        }
        if forall|i: int| 0 <= i < rs.len() ==> #[trigger] keeps(id_key(rs[i]), s, inverse) {
            assert(keeps(id_key(rs[rs.len() - 1]), s, inverse));
            assert forall|i: int| 0 <= i < p.len() implies #[trigger] keeps(id_key(p[i]), s, inverse) by {
                assert(p[i] == rs[i]);
            }
        }
    }
}

/// Filtering splits over concatenation: the kept records of two inputs in a row are those
/// of the first followed by those of the second, so input order is kept.
pub proof fn lemma_kept_concat(a: Seq<RecordView>, b: Seq<RecordView>, s: Set<Seq<u8>>, inverse: bool)
    ensures
        kept(a + b, s, inverse) == kept(a, s, inverse) + kept(b, s, inverse),
    decreases b.len(),
{
    if b.len() == 0 {
        assert(a + b =~= a);
        assert(kept(a, s, inverse) + kept(b, s, inverse) =~= kept(a, s, inverse));
    } else {
        lemma_kept_concat(a, b.drop_last(), s, inverse);
        assert((a + b).drop_last() =~= a + b.drop_last());
        assert((a + b).last() == b.last());
        let ka = kept(a, s, inverse);
        let kb = kept(b.drop_last(), s, inverse);
        assert((ka + kb).push(b.last()) =~= ka + kb.push(b.last()));
    }
}

/// Filtering again what a run wrote, with the same set and mode, changes nothing.
pub proof fn lemma_kept_idempotent(rs: Seq<RecordView>, s: Set<Seq<u8>>, inverse: bool)
    ensures
        kept(kept(rs, s, inverse), s, inverse) == kept(rs, s, inverse),
    decreases rs.len(),
{
    if rs.len() > 0 {
        let k = kept(rs.drop_last(), s, inverse);
        lemma_kept_idempotent(rs.drop_last(), s, inverse);
        if keeps(id_key(rs.last()), s, inverse) {
            assert(k.push(rs.last()).drop_last() =~= k);
        }
    }
}

/// With an empty identifier set nothing is written in normal mode and everything in
/// inverse mode.
pub proof fn lemma_empty_set(rs: Seq<RecordView>)
    ensures
        kept(rs, Set::<Seq<u8>>::empty(), false).len() == 0,
        kept(rs, Set::<Seq<u8>>::empty(), true) == rs,
    decreases rs.len(),
{
    if rs.len() > 0 {
        lemma_empty_set(rs.drop_last());
        assert(rs.drop_last().push(rs.last()) =~= rs);
    }
}

/// An input without records gives no output in either mode.
pub proof fn lemma_no_records(s: Set<Seq<u8>>, inverse: bool)
    ensures
        kept(Seq::<RecordView>::empty(), s, inverse).len() == 0,
{
}

/// An identifier-list file without lines gives the empty set, so nothing is written in
/// normal mode and every record in inverse mode.
pub proof fn lemma_empty_id_list(rs: Seq<RecordView>)
    ensures
        lines_of(Seq::<u8>::empty()).to_set() == Set::<Seq<u8>>::empty(),
        kept(rs, lines_of(Seq::<u8>::empty()).to_set(), false).len() == 0,
        kept(rs, lines_of(Seq::<u8>::empty()).to_set(), true) == rs,
{
    assert(lines_of(Seq::<u8>::empty()).to_set() =~= Set::<Seq<u8>>::empty());
    lemma_empty_set(rs);
}

/// Two runs on the same path, compressed content, identifier set and mode, starting from
/// the same output, agree: both succeed with the same counts or both fail, and they leave
/// the same output.
pub proof fn lemma_runs_agree(
    path: Seq<u8>,
    data: Seq<u8>,
    s: Set<Seq<u8>>,
    inverse: bool,
    r1: Result<(u64, u64), FilterError>,
    r2: Result<(u64, u64), FilterError>,
    before: Seq<char>,
    after1: Seq<char>,
    after2: Seq<char>,
)
    requires
        filter_outcome(path, data, s, inverse, r1, before, after1),
        filter_outcome(path, data, s, inverse, r2, before, after2),
    ensures
        r1 is Ok <==> r2 is Ok,
        r1 is Ok ==> r1 == r2,
        after1 == after2,
{
}

/// A successful run writes no more records than it reads, and writes all of them exactly
/// when every record read is kept under the chosen mode.
pub proof fn lemma_run_counts(
    path: Seq<u8>,
    data: Seq<u8>,
    s: Set<Seq<u8>>,
    inverse: bool,
    observed: u64,
    emitted: u64,
    before: Seq<char>,
    after: Seq<char>,
)
    requires
        filter_outcome(path, data, s, inverse, Ok((observed, emitted)), before, after),
    ensures
        emitted <= observed,
        ({
            let rs = fastq_records_of(readable_text(data)).0;
            emitted == observed <==> forall|i: int|
                0 <= i < rs.len() ==> #[trigger] keeps(id_key(rs[i]), s, inverse)
        }),
{
    lemma_emitted_le_observed(fastq_records_of(readable_text(data)).0, s, inverse);
}

} // verus!
