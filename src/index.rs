use vstd::prelude::*;
use crate::error::IndexError;
use crate::rank::SIGN_BIT;

verus! {

/// The bit pattern of positive infinity; finite non-negative values lie below it.
pub const INFINITY_BITS: u64 = 0x7FF0_0000_0000_0000;

/// The bit pattern of 1.0.
pub const ONE_BITS: u64 = 0x3FF0_0000_0000_0000;

/// A non-negative binary64 value keeps its numeric order in its bit pattern,
/// so the configuration rules below compare patterns.
/// `avg_doc_length` must be positive and finite.
pub open spec fn valid_avg_doc_length(bits: u64) -> bool {
    0 < bits < INFINITY_BITS
}

/// `k1` must be finite and not negative (negative zero counts as zero).
pub open spec fn valid_k1(bits: u64) -> bool {
    bits < INFINITY_BITS || bits == SIGN_BIT
}

/// `b` must lie in `[0, 1]` (negative zero counts as zero).
pub open spec fn valid_b(bits: u64) -> bool {
    bits <= ONE_BITS || bits == SIGN_BIT
}

pub open spec fn valid_config(avg_doc_length: u64, k1: u64, b: u64) -> bool {
    valid_avg_doc_length(avg_doc_length) && valid_k1(k1) && valid_b(b)
}

/// Tests the configuration rules above.
pub fn config_is_valid(avg_doc_length: u64, k1: u64, b: u64) -> (r: bool)
    ensures
        r == valid_config(avg_doc_length, k1, b),
{
    let avg_ok = 0 < avg_doc_length && avg_doc_length < INFINITY_BITS;
    let k1_ok = k1 < INFINITY_BITS || k1 == SIGN_BIT;
    let b_ok = b <= ONE_BITS || b == SIGN_BIT;
    avg_ok && k1_ok && b_ok
}

/// The posting list of term `t` in the arena `p`; a term outside the arena has
/// an empty list.
pub open spec fn posting_of(p: Seq<Seq<(usize, u64)>>, t: int) -> Seq<(usize, u64)> {
    if 0 <= t < p.len() {
        p[t]
    } else {
        Seq::empty()
    }
}

/// The entries that document `d`'s row adds to the list of term `t`, in row order.
pub open spec fn row_entries(row: Seq<(usize, u64)>, d: usize, t: usize) -> Seq<(usize, u64)>
    decreases row.len(),
{
    if row.len() == 0 {
        Seq::empty()
    } else {
        let rest = row_entries(row.drop_last(), d, t);
        if row.last().0 == t {
            rest.push((d, row.last().1))
        } else {
            rest
        }
    }
}

/// The entries that the first `n` rows add to the list of term `t`, by
/// document, then by position in the row.
pub open spec fn built_entries(rows: Seq<Seq<(usize, u64)>>, t: usize, n: nat) -> Seq<(usize, u64)>
    decreases n,
{
    if n == 0 || n > rows.len() {
        Seq::empty()
    } else {
        built_entries(rows, t, (n - 1) as nat) + row_entries(rows[n - 1], (n - 1) as usize, t)
    }
}

proof fn lemma_row_has_entry(row: Seq<(usize, u64)>, d: usize, t: usize, j: int)
    requires
        0 <= j < row.len(),
        row[j].0 == t,
    ensures
        row_entries(row, d, t).len() > 0,
    decreases row.len(),
{
    if j < row.len() - 1 {
        lemma_row_has_entry(row.drop_last(), d, t, j);
    }
}

/// A term that occurs in one of the first `n` rows gets an entry from them.
proof fn lemma_built_has_entry(rows: Seq<Seq<(usize, u64)>>, t: usize, n: nat, e: int, j: int)
    requires
        0 <= e < n <= rows.len(),
        0 <= j < rows[e].len(),
        rows[e][j].0 == t,
    ensures
        built_entries(rows, t, n).len() > 0,
    decreases n,
{
    if e == n - 1 {
        lemma_row_has_entry(rows[e], e as usize, t, j);
    } else {
        lemma_built_has_entry(rows, t, (n - 1) as nat, e, j);
    }
}

/// The scores that a posting list holds for document `d`, in list order.
pub open spec fn list_contributions(list: Seq<(usize, u64)>, d: usize) -> Seq<u64>
    decreases list.len(),
{
    if list.len() == 0 {
        Seq::empty()
    } else {
        let rest = list_contributions(list.drop_last(), d);
        if list.last().0 == d {
            rest.push(list.last().1)
        } else {
            rest
        }
    }
}

/// The scores that query `q` collects for document `d`: for each query term in
/// turn, the scores of its posting list for `d`. A repeated term counts again.
pub open spec fn query_contributions(p: Seq<Seq<(usize, u64)>>, q: Seq<usize>, d: usize) -> Seq<u64>
    decreases q.len(),
{
    if q.len() == 0 {
        Seq::empty()
    } else {
        query_contributions(p, q.drop_last(), d) + list_contributions(posting_of(p, q.last() as int), d)
    }
}

/// A BM25 index: per term, the list of (document, precomputed contribution)
/// entries, with scores and configuration values as binary64 bit patterns.
pub struct BM25S {
    sparse_matrix: Vec<Vec<(usize, u64)>>,
    doc_count: usize,
    avg_doc_length: u64,
    k1: u64,
    b: u64,
}

impl BM25S {
    /// The posting lists, indexed by term identifier.
    pub closed spec fn postings(&self) -> Seq<Seq<(usize, u64)>> {
        self.sparse_matrix@.map_values(|v: Vec<(usize, u64)>| v@)
    }

    pub closed spec fn spec_doc_count(&self) -> usize {
        self.doc_count
    }

    pub closed spec fn spec_avg_doc_length(&self) -> u64 {
        self.avg_doc_length
    }

    pub closed spec fn spec_k1(&self) -> u64 {
        self.k1
    }

    pub closed spec fn spec_b(&self) -> u64 {
        self.b
    }

    /// The configuration is valid, every posting names a document below
    /// `doc_count`, and the arena ends with a non-empty list, so that it holds
    /// lists up to the largest term that occurs and no further.
    pub open spec fn wf(&self) -> bool {
        &&& valid_config(self.spec_avg_doc_length(), self.spec_k1(), self.spec_b())
        &&& self.postings().len() > 0 ==> self.postings().last().len() > 0
        &&& forall|t: int, i: int|
            0 <= t < self.postings().len() && 0 <= i < self.postings()[t].len()
                ==> #[trigger] self.postings()[t][i].0 < self.spec_doc_count()
    }

    /// Creates an empty index, or reports `InvalidConfiguration`.
    pub fn new(doc_count: usize, avg_doc_length: u64, k1: u64, b: u64) -> (r: Result<BM25S, IndexError>)
        ensures
            valid_config(avg_doc_length, k1, b) <==> r is Ok,
            !valid_config(avg_doc_length, k1, b) ==> r == Err::<BM25S, IndexError>(IndexError::InvalidConfiguration),
            r matches Ok(x) ==> {
                &&& x.wf()
                &&& x.postings() == Seq::<Seq<(usize, u64)>>::empty()
                &&& x.spec_doc_count() == doc_count
                &&& x.spec_avg_doc_length() == avg_doc_length
                &&& x.spec_k1() == k1
                &&& x.spec_b() == b
            },
    {
        if config_is_valid(avg_doc_length, k1, b) {
            let x = BM25S { sparse_matrix: Vec::new(), doc_count, avg_doc_length, k1, b };
            assert(x.postings() =~= Seq::<Seq<(usize, u64)>>::empty());
            Ok(x)
        } else {
            Err(IndexError::InvalidConfiguration)
        }
    }

    /// Adds one row per document: each `(term_id, score)` pair of row `d`
    /// appends `(d, score)` to the posting list of `term_id`. The arena of
    /// lists grows only as far as the largest term identifier that occurs. The scores are the
    /// precomputed contributions of the term to the document. Repeated calls
    /// add to what is there. On error nothing changes: `DimensionMismatch` when
    /// the row count differs from `doc_count`, else `OutOfRangeTermId` when a
    /// term identifier is not below `idf_len`, the number of IDF values.
    pub fn index(&mut self, term_scores: Vec<Vec<(usize, u64)>>, idf_len: usize) -> (r: Result<(), IndexError>)
        requires
            old(self).wf(),
        ensures
            final(self).wf(),
            term_scores@.len() != old(self).spec_doc_count() ==> r == Err::<(), IndexError>(IndexError::DimensionMismatch),
            term_scores@.len() == old(self).spec_doc_count() && (exists|d: int, i: int|
                0 <= d < term_scores@.len() && 0 <= i < term_scores@[d]@.len() && #[trigger] term_scores@[d]@[i].0 >= idf_len)
                ==> r == Err::<(), IndexError>(IndexError::OutOfRangeTermId),
            r is Err ==> *final(self) == *old(self),
            r is Ok <==> (term_scores@.len() == old(self).spec_doc_count() && forall|d: int, i: int|
                0 <= d < term_scores@.len() && 0 <= i < term_scores@[d]@.len() ==> #[trigger] term_scores@[d]@[i].0 < idf_len),
            r is Ok ==> {
                &&& final(self).postings().len() >= old(self).postings().len()
                &&& forall|d: int, i: int| 0 <= d < term_scores@.len() && 0 <= i < term_scores@[d]@.len()
                    ==> #[trigger] term_scores@[d]@[i].0 < final(self).postings().len()
                &&& final(self).postings().len() == old(self).postings().len() || exists|d: int, i: int|
                    0 <= d < term_scores@.len() && 0 <= i < term_scores@[d]@.len()
                        && #[trigger] term_scores@[d]@[i].0 + 1 == final(self).postings().len()
                &&& forall|t: usize| #![trigger posting_of(final(self).postings(), t as int)]
                    posting_of(final(self).postings(), t as int) == posting_of(old(self).postings(), t as int)
                        + built_entries(term_scores@.map_values(|row: Vec<(usize, u64)>| row@), t, term_scores@.len())
                &&& final(self).spec_doc_count() == old(self).spec_doc_count()
                &&& final(self).spec_avg_doc_length() == old(self).spec_avg_doc_length()
                &&& final(self).spec_k1() == old(self).spec_k1()
                &&& final(self).spec_b() == old(self).spec_b()
            },
    {
        if term_scores.len() != self.doc_count {
            return Err(IndexError::DimensionMismatch);
        }
        let ghost rows = term_scores@.map_values(|row: Vec<(usize, u64)>| row@);
        let n = term_scores.len();
        let mut needed: usize = 0;
        let mut d: usize = 0;
        while d < n
            invariant
                n == term_scores@.len(),
                n == self.doc_count,
                *self == *old(self),
                old(self).wf(),
                d <= n,
                needed <= idf_len,
                forall|e: int, i: int| 0 <= e < d && 0 <= i < term_scores@[e]@.len() ==> #[trigger] term_scores@[e]@[i].0 < idf_len,
                forall|e: int, i: int| 0 <= e < d && 0 <= i < term_scores@[e]@.len() ==> #[trigger] term_scores@[e]@[i].0 < needed,
                needed == 0 || exists|e: int, i: int| 0 <= e < d && 0 <= i < term_scores@[e]@.len()
                    && #[trigger] term_scores@[e]@[i].0 + 1 == needed,
            decreases n - d,
        {
            let row = &term_scores[d];
            let mut i: usize = 0;
            while i < row.len()
                invariant
                    n == term_scores@.len(),
                    n == self.doc_count,
                    *self == *old(self),
                    old(self).wf(),
                    d < n,
                    row@ == term_scores@[d as int]@,
                    i <= row@.len(),
                    needed <= idf_len,
                    forall|e: int, j: int| 0 <= e < d && 0 <= j < term_scores@[e]@.len() ==> #[trigger] term_scores@[e]@[j].0 < idf_len,
                    forall|j: int| 0 <= j < i ==> #[trigger] row@[j].0 < idf_len,
                    forall|e: int, j: int| 0 <= e < d && 0 <= j < term_scores@[e]@.len() ==> #[trigger] term_scores@[e]@[j].0 < needed,
                    forall|j: int| 0 <= j < i ==> #[trigger] row@[j].0 < needed,
                    needed == 0 || (exists|e: int, j: int| 0 <= e < d && 0 <= j < term_scores@[e]@.len()
                        && #[trigger] term_scores@[e]@[j].0 + 1 == needed) || (exists|j: int| 0 <= j < i && #[trigger] row@[j].0 + 1 == needed),
                decreases row@.len() - i,
            {
                if row[i].0 >= idf_len {
                    return Err(IndexError::OutOfRangeTermId);
                }
                if row[i].0 >= needed {
                    needed = row[i].0 + 1;
                }
                i = i + 1;
            }
            proof {
                if needed > 0 && !(exists|e: int, j: int| 0 <= e < d && 0 <= j < term_scores@[e]@.len()
                    && #[trigger] term_scores@[e]@[j].0 + 1 == needed) {
                    let j = choose|j: int| 0 <= j < row@.len() && #[trigger] row@[j].0 + 1 == needed;
                    assert(term_scores@[d as int]@[j].0 + 1 == needed);
                }
            }
            d = d + 1;
        }
        let ghost old_p = self.postings();
        while self.sparse_matrix.len() < needed
            invariant
                old(self).wf(),
                self.doc_count == old(self).doc_count,
                self.avg_doc_length == old(self).avg_doc_length,
                self.k1 == old(self).k1,
                self.b == old(self).b,
                old_p == old(self).postings(),
                self.sparse_matrix@.len() >= old_p.len(),
                forall|t: int| #![trigger posting_of(self.postings(), t)] posting_of(self.postings(), t) == posting_of(old_p, t),
                self.sparse_matrix@.len() == old_p.len() || self.sparse_matrix@.len() <= needed,
                forall|t: int, i: int| 0 <= t < self.postings().len() && 0 <= i < self.postings()[t].len()
                    ==> #[trigger] self.postings()[t][i].0 < self.doc_count,
            decreases needed - self.sparse_matrix.len(),
        {
            let ghost before = self.postings();
            self.sparse_matrix.push(Vec::new());
            proof {
                assert forall|t: int| #![trigger posting_of(self.postings(), t)] posting_of(self.postings(), t) == posting_of(old_p, t) by {
                    assert(posting_of(before, t) == posting_of(old_p, t));
                    if t == before.len() {
                        assert(self.postings()[t] =~= Seq::<(usize, u64)>::empty());
                    }
                }
                assert forall|t: int, i: int| 0 <= t < self.postings().len() && 0 <= i < self.postings()[t].len()
                    implies #[trigger] self.postings()[t][i].0 < self.doc_count by {
                    assert(self.postings()[t] == before[t]);
                }
            }
        }
        assert(self.postings().len() == (if old_p.len() < needed { needed as nat } else { old_p.len() }));
        let mut d: usize = 0;
        while d < n
            invariant
                n == term_scores@.len(),
                n == self.doc_count,
                d <= n,
                rows == term_scores@.map_values(|row: Vec<(usize, u64)>| row@),
                self.doc_count == old(self).doc_count,
                self.avg_doc_length == old(self).avg_doc_length,
                self.k1 == old(self).k1,
                self.b == old(self).b,
                old(self).wf(),
                old_p == old(self).postings(),
                self.postings().len() == (if old_p.len() < needed { needed as nat } else { old_p.len() }),
                forall|e: int, i: int| 0 <= e < n && 0 <= i < term_scores@[e]@.len() ==> #[trigger] term_scores@[e]@[i].0 < needed,
                forall|t: int, i: int| 0 <= t < self.postings().len() && 0 <= i < self.postings()[t].len()
                    ==> #[trigger] self.postings()[t][i].0 < self.doc_count,
                forall|t: usize| #![trigger posting_of(self.postings(), t as int)]
                    posting_of(self.postings(), t as int) == posting_of(old_p, t as int) + built_entries(rows, t, d as nat),
            decreases n - d,
        {
            let row = &term_scores[d];
            let mut i: usize = 0;
            while i < row.len()
                invariant
                    n == term_scores@.len(),
                    n == self.doc_count,
                    d < n,
                    row@ == term_scores@[d as int]@,
                    rows == term_scores@.map_values(|row: Vec<(usize, u64)>| row@),
                    i <= row@.len(),
                    self.doc_count == old(self).doc_count,
                    self.avg_doc_length == old(self).avg_doc_length,
                    self.k1 == old(self).k1,
                    self.b == old(self).b,
                    old(self).wf(),
                    old_p == old(self).postings(),
                    self.postings().len() == (if old_p.len() < needed { needed as nat } else { old_p.len() }),
                    forall|e: int, j: int| 0 <= e < n && 0 <= j < term_scores@[e]@.len() ==> #[trigger] term_scores@[e]@[j].0 < needed,
                    forall|t: int, j: int| 0 <= t < self.postings().len() && 0 <= j < self.postings()[t].len()
                        ==> #[trigger] self.postings()[t][j].0 < self.doc_count,
                    forall|t: usize| #![trigger posting_of(self.postings(), t as int)]
                        posting_of(self.postings(), t as int) == posting_of(old_p, t as int) + built_entries(rows, t, d as nat)
                            + row_entries(row@.take(i as int), d, t),
                decreases row@.len() - i,
            {
                let (t, score) = row[i];
                assert(row@[i as int].0 == term_scores@[d as int]@[i as int].0);
                let ghost before = self.postings();
                self.sparse_matrix[t].push((d, score));
                proof {
                    assert(row@.take(i + 1).drop_last() =~= row@.take(i as int));
                    assert forall|u: usize| #![trigger posting_of(self.postings(), u as int)]
                        posting_of(self.postings(), u as int) == posting_of(old_p, u as int) + built_entries(rows, u, d as nat)
                            + row_entries(row@.take(i + 1), d, u) by {
                        assert(posting_of(before, u as int) == posting_of(old_p, u as int) + built_entries(rows, u, d as nat)
                            + row_entries(row@.take(i as int), d, u));
                        if u == t {
                            assert(posting_of(self.postings(), u as int) =~= posting_of(before, u as int).push((d, score)));
                        } else {
                            assert(posting_of(self.postings(), u as int) == posting_of(before, u as int));
                        }
                    }
                    assert forall|u: int, j: int| 0 <= u < self.postings().len() && 0 <= j < self.postings()[u].len()
                        implies #[trigger] self.postings()[u][j].0 < self.doc_count by {
                        if u != t as int || j < before[u].len() {
                            assert(self.postings()[u][j] == before[u][j]);
                        }
                    }
                }
                i = i + 1;
            }
            proof {
                assert(row@.take(row@.len() as int) =~= row@);
                assert(rows[d as int] == row@);
                assert forall|t: usize| #![trigger posting_of(self.postings(), t as int)]
                    posting_of(self.postings(), t as int) == posting_of(old_p, t as int) + built_entries(rows, t, (d + 1) as nat) by {
                    assert(built_entries(rows, t, (d + 1) as nat) == built_entries(rows, t, d as nat) + row_entries(rows[d as int], d, t));
                    vstd::seq_lib::lemma_concat_associative(posting_of(old_p, t as int), built_entries(rows, t, d as nat), row_entries(rows[d as int], d, t));
                }
            }
            d = d + 1;
        }
        proof {
            let fp = self.postings();
            if fp.len() > 0 {
                let last = fp.len() - 1;
                assert(fp.last() == posting_of(fp, last));
                if fp.len() == old_p.len() {
                    assert(posting_of(old_p, last) == old_p.last());
                } else {
                    let (e, j) = choose|e: int, j: int| 0 <= e < n && 0 <= j < term_scores@[e]@.len()
                        && #[trigger] term_scores@[e]@[j].0 + 1 == needed;
                    assert(rows[e][j] == term_scores@[e]@[j]);
                    lemma_built_has_entry(rows, last as usize, n as nat, e, j);
                    assert(posting_of(fp, last) == posting_of(old_p, last) + built_entries(rows, last as usize, n as nat));
                }
            }
        }
        Ok(())
    }

    /// For each document, the contributions that the query terms collect for
    /// it, in query order: the caller's score of document `d` is the sum of
    /// `r[d]`. A term with no posting list contributes nothing.
    pub fn query(&self, query_terms: Vec<usize>) -> (r: Vec<Vec<u64>>)
        requires
            self.wf(),
        ensures
            r@.len() == self.spec_doc_count(),
            forall|d: int| 0 <= d < r@.len() ==> #[trigger] r@[d]@ == query_contributions(self.postings(), query_terms@, d as usize),
    {
        let n = self.doc_count;
        let ghost p = self.postings();
        let mut out: Vec<Vec<u64>> = Vec::new();
        while out.len() < n
            invariant
                out@.len() <= n,
                forall|d: int| 0 <= d < out@.len() ==> #[trigger] out@[d]@ == Seq::<u64>::empty(),
            decreases n - out.len(),
        {
            out.push(Vec::new());
        }
        let mut qi: usize = 0;
        while qi < query_terms.len()
            invariant
                self.wf(),
                n == self.doc_count,
                p == self.postings(),
                qi <= query_terms@.len(),
                out@.len() == n,
                forall|d: int| 0 <= d < n ==> #[trigger] out@[d]@ == query_contributions(p, query_terms@.take(qi as int), d as usize),
            decreases query_terms@.len() - qi,
        {
            let t = query_terms[qi];
            let ghost start = out@;
            if t < self.sparse_matrix.len() {
                let list = &self.sparse_matrix[t];
                assert(list@ == p[t as int]);
                let mut j: usize = 0;
                while j < list.len()
                    invariant
                        self.wf(),
                        n == self.doc_count,
                        p == self.postings(),
                        list@ == p[t as int],
                        0 <= t < p.len(),
                        j <= list@.len(),
                        out@.len() == n,
                        forall|d: int| 0 <= d < n ==> #[trigger] out@[d]@ == start[d]@ + list_contributions(list@.take(j as int), d as usize),
                    decreases list@.len() - j,
                {
                    let (doc, score) = list[j];
                    assert(p[t as int][j as int].0 < n);
                    let ghost before = out@;
                    out[doc].push(score);
                    proof {
                        assert(list@.take(j + 1).drop_last() =~= list@.take(j as int));
                        assert forall|d: int| 0 <= d < n implies #[trigger] out@[d]@ == start[d]@
                            + list_contributions(list@.take(j + 1), d as usize) by {
                            assert(before[d]@ == start[d]@ + list_contributions(list@.take(j as int), d as usize));
                            if d == doc as int {
                                assert(out@[d]@ =~= before[d]@.push(score));
                            } else {
                                assert(out@[d] == before[d]);
                            }
                        }
                    }
                    j = j + 1;
                }
                assert(list@.take(list@.len() as int) =~= list@);
            } else {
                assert forall|d: int| 0 <= d < n implies #[trigger] out@[d]@ =~= start[d]@
                    + list_contributions(posting_of(p, t as int), d as usize) by {
                    assert(posting_of(p, t as int) =~= Seq::<(usize, u64)>::empty());
                }
            }
            proof {
                assert(query_terms@.take(qi + 1).drop_last() =~= query_terms@.take(qi as int));
                assert forall|d: int| 0 <= d < n implies #[trigger] out@[d]@ == query_contributions(p, query_terms@.take(qi + 1), d as usize) by {
                    assert(start[d]@ == query_contributions(p, query_terms@.take(qi as int), d as usize));
                }
            }
            qi = qi + 1;
        }
        assert(query_terms@.take(query_terms@.len() as int) =~= query_terms@);
        out
    }

    /// The posting lists, indexed by term identifier.
    pub fn sparse_matrix(&self) -> (r: &Vec<Vec<(usize, u64)>>)
        ensures
            r@.map_values(|v: Vec<(usize, u64)>| v@) == self.postings(),
    {
        &self.sparse_matrix
    }

    /// Assembles an index from its configuration and posting lists.
    pub(crate) fn from_parts(doc_count: usize, avg_doc_length: u64, k1: u64, b: u64, lists: Vec<Vec<(usize, u64)>>) -> (r: BM25S)
        requires
            valid_config(avg_doc_length, k1, b),
            forall|t: int, i: int| 0 <= t < lists@.len() && 0 <= i < lists@[t]@.len() ==> #[trigger] lists@[t]@[i].0 < doc_count,
            lists@.len() > 0 ==> lists@.last()@.len() > 0,
        ensures
            r.wf(),
            r.postings() == lists@.map_values(|v: Vec<(usize, u64)>| v@),
            r.spec_doc_count() == doc_count,
            r.spec_avg_doc_length() == avg_doc_length,
            r.spec_k1() == k1,
            r.spec_b() == b,
    {
        let r = BM25S { sparse_matrix: lists, doc_count, avg_doc_length, k1, b };
        assert forall|t: int, i: int| 0 <= t < r.postings().len() && 0 <= i < r.postings()[t].len()
            implies #[trigger] r.postings()[t][i].0 < r.spec_doc_count() by {
            assert(r.postings()[t] == lists@[t]@);
        }
        r
    }

    /// The arena and each posting list have lengths that fit in `usize`.
    pub proof fn lemma_lengths_fit(&self)
        ensures
            self.postings().len() <= usize::MAX,
            forall|t: int| 0 <= t < self.postings().len() ==> #[trigger] self.postings()[t].len() <= usize::MAX,
    {
        assert(self.sparse_matrix.len() <= usize::MAX);
        assert forall|t: int| 0 <= t < self.postings().len() implies #[trigger] self.postings()[t].len() <= usize::MAX by {
            assert(self.sparse_matrix@[t].len() <= usize::MAX);
        }
    }

    pub fn doc_count(&self) -> (r: usize)
        ensures
            r == self.spec_doc_count(),
    {
        self.doc_count
    }

    pub fn avg_doc_length(&self) -> (r: u64)
        ensures
            r == self.spec_avg_doc_length(),
    {
        self.avg_doc_length
    }

    pub fn k1(&self) -> (r: u64)
        ensures
            r == self.spec_k1(),
    {
        self.k1
    }

    pub fn b(&self) -> (r: u64)
        ensures
            r == self.spec_b(),
    {
        self.b
    }
}

} // verus!
