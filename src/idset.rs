use vstd::prelude::*;
use vstd::string::*;

verus! {

broadcast use vstd::seq_lib::lemma_seq_contains_after_push;

/// The byte value of a line feed.
pub const LF: u8 = 10;

/// The byte value of a carriage return.
pub const CR: u8 = 13;

/// A line without the carriage return that may precede its line feed.
pub open spec fn strip_cr(l: Seq<u8>) -> Seq<u8> {
    if l.len() > 0 && l.last() == CR {
        l.drop_last()
    } else {
        l
    }
}

/// The lines of `b` from position `i` on, where the current line began at `start`.
/// A line ends at a line feed (a carriage return before it is dropped) or at the end of
/// the text; an empty remainder after the last line feed is no line.
pub open spec fn lines_from(b: Seq<u8>, start: int, i: int) -> Seq<Seq<u8>>
    decreases b.len() - i,
{
    if i < 0 || i >= b.len() {
        if 0 <= start < b.len() {
            seq![b.subrange(start, b.len() as int)]
        } else {
            seq![]
        }
    } else if b[i] == LF {
        seq![strip_cr(b.subrange(start, i))] + lines_from(b, i + 1, i + 1)
    } else {
        lines_from(b, start, i + 1)
    }
}

/// The lines of a text, in order.
pub open spec fn lines_of(b: Seq<u8>) -> Seq<Seq<u8>> {
    lines_from(b, 0, 0)
}

/// A copy of `b[start..end]`.
pub fn copy_range(b: &[u8], start: usize, end: usize) -> (r: Vec<u8>)
    requires
        start <= end <= b@.len(),
    ensures
        r@ == b@.subrange(start as int, end as int),
{
    let mut r: Vec<u8> = Vec::new();
    let mut i: usize = start;
    while i < end
        invariant
            start <= i <= end <= b@.len(),
            r@ == b@.subrange(start as int, i as int),
        decreases end - i,
    {
        r.push(b[i]);
        i += 1;
        assert(r@ =~= b@.subrange(start as int, i as int));
    }
    r
}

/// `a` and `b` agree before position `k`, and there `a` ends first or has the smaller byte.
pub open spec fn lt_at(a: Seq<u8>, b: Seq<u8>, k: int) -> bool {
    &&& 0 <= k <= a.len()
    &&& k <= b.len()
    &&& forall|j: int| 0 <= j < k ==> a[j] == b[j]
    &&& (k == a.len() && k < b.len()) || (k < a.len() && k < b.len() && a[k] < b[k])
}

/// Lexicographic order on byte strings, a proper prefix coming first.
pub open spec fn lex_lt(a: Seq<u8>, b: Seq<u8>) -> bool {
    exists|k: int| lt_at(a, b, k)
}

/// The order is irreflexive.
pub proof fn lemma_lex_irrefl(a: Seq<u8>)
    ensures
        !lex_lt(a, a),
{
    assert forall|k: int| !lt_at(a, a, k) by {}
}

/// The order is transitive.
pub proof fn lemma_lex_trans(a: Seq<u8>, b: Seq<u8>, c: Seq<u8>)
    requires
        lex_lt(a, b),
        lex_lt(b, c),
    ensures
        lex_lt(a, c),
{
    let k1 = choose|k: int| lt_at(a, b, k);
    let k2 = choose|k: int| lt_at(b, c, k);
    let k = if k1 < k2 {
        k1
    } else {
        k2
    };
    assert(lt_at(a, c, k));
}

/// Compares two byte strings: negative, zero or positive as `a` comes before, equals or
/// comes after `b`.
pub fn compare_bytes(a: &[u8], b: &[u8]) -> (r: i8)
    ensures
        r < 0 <==> lex_lt(a@, b@),
        r == 0 <==> a@ == b@,
        r > 0 <==> lex_lt(b@, a@),
{
    let mut i: usize = 0;
    while i < a.len() && i < b.len()
        invariant
            0 <= i <= a@.len(),
            i <= b@.len(),
            forall|j: int| 0 <= j < i ==> a@[j] == b@[j],
        decreases a@.len() - i,
    {
        if a[i] != b[i] {
            proof {
                lemma_lex_irrefl(a@);
                lemma_lex_irrefl(b@);
            }
            if a[i] < b[i] {
                assert(lt_at(a@, b@, i as int));
                proof {
                    if lex_lt(b@, a@) {
                        lemma_lex_trans(a@, b@, a@);
                    }
                }
                return -1;
            } else {
                assert(lt_at(b@, a@, i as int));
                proof {
                    if lex_lt(a@, b@) {
                        lemma_lex_trans(a@, b@, a@);
                    }
                }
                return 1;
            }
        }
        i += 1;
    }
    proof {
        lemma_lex_irrefl(a@);
        lemma_lex_irrefl(b@);
    }
    if a.len() == b.len() {
        assert(a@ =~= b@);
        0
    } else if a.len() < b.len() {
        assert(lt_at(a@, b@, i as int));
        proof {
            if lex_lt(b@, a@) {
                lemma_lex_trans(a@, b@, a@);
            }
        }
        -1
    } else {
        assert(lt_at(b@, a@, i as int));
        proof {
            if lex_lt(a@, b@) {
                lemma_lex_trans(a@, b@, a@);
            }
        }
        1
    }
}

/// A set of identifiers, compared byte for byte, kept in strictly increasing order so that
/// a lookup takes a logarithmic number of comparisons.
pub struct IdSet {
    ids: Vec<Vec<u8>>,
}

impl View for IdSet {
    type V = Set<Seq<u8>>;

    closed spec fn view(&self) -> Set<Seq<u8>> {
        self.model().to_set()
    }
}

impl IdSet {
    /// The identifiers as stored.
    pub closed spec fn model(&self) -> Seq<Seq<u8>> {
        self.ids@.map_values(|v: Vec<u8>| v@)
    }

    /// The identifiers are stored in strictly increasing order.
    pub closed spec fn wf(&self) -> bool {
        forall|i: int, j: int|
            0 <= i < j < self.ids@.len() ==> lex_lt(#[trigger] self.model()[i], #[trigger] self.model()[j])
    }

    /// The empty set.
    pub fn new() -> (r: IdSet)
        ensures
            r.wf(),
            r@ == Set::<Seq<u8>>::empty(),
    {
        let r = IdSet { ids: Vec::new() };
        assert(r@ =~= Set::<Seq<u8>>::empty());
        r
    }

    /// Binary search: whether `id` is stored, and the position where it is or would go.
    fn find(&self, id: &[u8]) -> (r: (bool, usize))
        requires
            self.wf(),
        ensures
            r.1 <= self.ids@.len(),
            forall|i: int| 0 <= i < r.1 ==> lex_lt(#[trigger] self.model()[i], id@),
            r.0 ==> r.1 < self.ids@.len() && self.model()[r.1 as int] == id@,
            !r.0 ==> forall|i: int| r.1 <= i < self.ids@.len() ==> lex_lt(id@, #[trigger] self.model()[i]),
    {
        let mut lo: usize = 0;
        let mut hi: usize = self.ids.len();
        while lo < hi
            invariant
                self.wf(),
                0 <= lo <= hi <= self.ids@.len(),
                forall|i: int| 0 <= i < lo ==> lex_lt(#[trigger] self.model()[i], id@),
                forall|i: int| hi <= i < self.ids@.len() ==> lex_lt(id@, #[trigger] self.model()[i]),
            decreases hi - lo,
        {
            let mid = lo + (hi - lo) / 2;
            let c = compare_bytes(self.ids[mid].as_slice(), id);
            let ghost m = self.model();
            assert(m[mid as int] == self.ids@[mid as int]@);
            if c == 0 {
                return (true, mid);
            } else if c < 0 {
                assert forall|i: int| 0 <= i < mid + 1 implies lex_lt(#[trigger] m[i], id@) by {
                    if i < mid {
                        lemma_lex_trans(m[i], m[mid as int], id@);
                    }
                }
                lo = mid + 1;
            } else {
                assert forall|i: int| mid <= i < self.ids@.len() implies lex_lt(id@, #[trigger] m[i]) by {
                    if i > mid {
                        lemma_lex_trans(id@, m[mid as int], m[i]);
                    }
                }
                hi = mid;
            }
        }
        (false, lo)
    }

    /// Whether `id` is in the set.
    pub fn contains(&self, id: &[u8]) -> (r: bool)
        requires
            self.wf(),
        ensures
            r == self@.contains(id@),
    {
        let (found, pos) = self.find(id);
        proof {
            lemma_lex_irrefl(id@);
            if !found {
                assert forall|i: int| 0 <= i < self.ids@.len() implies self.model()[i] != id@ by {
                    if i < pos {
                        assert(lex_lt(self.model()[i], id@));
                    } else {
                        assert(lex_lt(id@, self.model()[i]));
                    }
                }
            }
        }
        found
    }

    /// Adds `id`; an identifier already present is kept once.
    pub fn insert(&mut self, id: Vec<u8>)
        requires
            old(self).wf(),
        ensures
            final(self).wf(),
            final(self)@ == old(self)@.insert(id@),
    {
        let (found, pos) = self.find(id.as_slice());
        if found {
            assert(self.model().contains(id@));
            assert(self@ =~= self@.insert(id@));
            return;
        }
        let ghost m0 = self.model();
        let ghost x = id@;
        self.ids.insert(pos, id);
        proof {
            m0.insert_ensures(pos as int, x);
            let m1 = m0.insert(pos as int, x);
            assert(self.model() =~= m1);
            assert forall|i: int, j: int| 0 <= i < j < m1.len() implies lex_lt(#[trigger] m1[i], #[trigger] m1[j]) by {
                if j < pos {
                } else if j == pos {
                } else if i < pos {
                    lemma_lex_trans(m1[i], x, m1[j]);
                } else if i == pos {
                } else {
                    assert(m1[i] == m0[i - 1]);
                    assert(m1[j] == m0[j - 1]);
                }
            }
            assert forall|y: Seq<u8>| m1.contains(y) <==> m0.contains(y) || y == x by {
                if m1.contains(y) {
                    let i = choose|i: int| 0 <= i < m1.len() && m1[i] == y;
                    if i < pos {
                        assert(m0[i] == y);
                    } else if i > pos {
                        assert(m0[i - 1] == y);
                    }
                }
                if m0.contains(y) {
                    let i = choose|i: int| 0 <= i < m0.len() && m0[i] == y;
                    if i < pos {
                        assert(m1[i] == y);
                    } else {
                        assert(m1[i + 1] == y);
                    }
                }
                if y == x {
                    assert(m1[pos as int] == y);
                }
            }
            assert(self@ =~= m0.to_set().insert(x));
        }
    }

    /// The number of identifiers in the set.
    pub fn len(&self) -> (r: usize)
        requires
            self.wf(),
        ensures
            r == self@.len(),
    {
        proof {
            let m = self.model();
            assert forall|i: int, j: int| 0 <= i < m.len() && 0 <= j < m.len() && i != j implies m[i] != m[j] by {
                lemma_lex_irrefl(m[i]);
                if i < j {
                    assert(lex_lt(m[i], m[j]));
                } else {
                    assert(lex_lt(m[j], m[i]));
                }
            }
            m.unique_seq_to_set();
        }
        self.ids.len()
    }
}

/// Builds the set of the lines of `text`, taken verbatim but for their line terminators
/// (a line feed, or a carriage return and a line feed).
pub fn get_list(text: &str) -> (r: IdSet)
    ensures
        r.wf(),
        r@ == lines_of(text.spec_bytes()).to_set(),
{
    let b = text.as_bytes();
    let mut set = IdSet::new();
    let mut start: usize = 0;
    let mut i: usize = 0;
    let ghost mut done: Seq<Seq<u8>> = seq![];
    while i < b.len()
        invariant
            0 <= start <= i <= b@.len(),
            set.wf(),
            set@ == done.to_set(),
            done + lines_from(b@, start as int, i as int) == lines_of(b@),
        decreases b@.len() - i,
    {
        if b[i] == LF {
            let mut end = i;
            if end > start && b[end - 1] == CR {
                end = end - 1;
            }
            let line = copy_range(b, start, end);
            proof {
                assert(line@ =~= strip_cr(b@.subrange(start as int, i as int)));
                let rest = lines_from(b@, i + 1, i + 1);
                assert(lines_from(b@, start as int, i as int) == seq![line@] + rest);
                assert(done.push(line@) + rest =~= done + (seq![line@] + rest));
                assert(done.push(line@).to_set() =~= done.to_set().insert(line@));
                done = done.push(line@);
            }
            set.insert(line);
            start = i + 1;
        }
        i += 1;
    }
    if start < b.len() {
        let line = copy_range(b, start, b.len());
        proof {
            assert(done.push(line@) =~= done + lines_from(b@, start as int, i as int));
            assert(done.push(line@).to_set() =~= done.to_set().insert(line@));
            done = done.push(line@);
        }
        set.insert(line);
    } else {
        assert(done =~= done + lines_from(b@, start as int, i as int));
    }
    set
}

} // verus!
