use vstd::prelude::*;
use crate::index::{built_entries, posting_of, query_contributions, row_entries, BM25S};

verus! {

/// Querying the concatenation of two term sequences collects, for every
/// document, what the first collects followed by what the second collects: the
/// summed score of `a + b` is the sum of the scores of `a` and of `b`.
pub proof fn query_is_additive(x: &BM25S, a: Seq<usize>, b: Seq<usize>)
    ensures
        forall|d: usize| #[trigger] query_contributions(x.postings(), a + b, d)
            == query_contributions(x.postings(), a, d) + query_contributions(x.postings(), b, d),
    decreases b.len(),
{
    let p = x.postings();
    assert forall|d: usize| #[trigger] query_contributions(p, a + b, d)
        == query_contributions(p, a, d) + query_contributions(p, b, d) by {
        if b.len() == 0 {
            assert(a + b =~= a);
            assert(query_contributions(p, a, d) + Seq::<u64>::empty() =~= query_contributions(p, a, d));
        } else {
            query_is_additive(x, a, b.drop_last());
            assert((a + b).drop_last() =~= a + b.drop_last());
            assert((a + b).last() == b.last());
            let tail = crate::index::list_contributions(posting_of(p, b.last() as int), d);
            vstd::seq_lib::lemma_concat_associative(query_contributions(p, a, d), query_contributions(p, b.drop_last(), d), tail);
            assert(query_contributions(p, a + b, d) == query_contributions(p, (a + b).drop_last(), d) + tail);
            assert(query_contributions(p, a + b.drop_last(), d) == query_contributions(p, a, d) + query_contributions(p, b.drop_last(), d));
            assert(query_contributions(p, b, d) == query_contributions(p, b.drop_last(), d) + tail);
        }
    }
}

/// A term whose posting list is empty adds nothing to any query: the query
/// with the term appended collects the same contributions for every document.
pub proof fn absent_term_adds_nothing(x: &BM25S, q: Seq<usize>, t: usize)
    requires
        posting_of(x.postings(), t as int).len() == 0,
    ensures
        forall|d: usize| #[trigger] query_contributions(x.postings(), q.push(t), d) == query_contributions(x.postings(), q, d),
{
    let p = x.postings();
    assert forall|d: usize| #[trigger] query_contributions(p, q.push(t), d) == query_contributions(p, q, d) by {
        assert(q.push(t).drop_last() =~= q);
        assert(posting_of(p, t as int) =~= Seq::<(usize, u64)>::empty());
        assert(query_contributions(p, q, d) + Seq::<u64>::empty() =~= query_contributions(p, q, d));
    }
}

proof fn lemma_row_without_term(row: Seq<(usize, u64)>, d: usize, t: usize)
    requires
        forall|i: int| 0 <= i < row.len() ==> #[trigger] row[i].0 != t,
    ensures
        row_entries(row, d, t) == Seq::<(usize, u64)>::empty(),
    decreases row.len(),
{
    if row.len() > 0 {
        lemma_row_without_term(row.drop_last(), d, t);
    }
}

/// Rows in which a term never occurs add no entry to its posting list, so a
/// term unseen while building keeps the list it had (empty for a new index).
pub proof fn unseen_term_gets_no_entries(rows: Seq<Seq<(usize, u64)>>, t: usize, n: nat)
    requires
        forall|d: int, i: int| 0 <= d < rows.len() && 0 <= i < rows[d].len() ==> #[trigger] rows[d][i].0 != t,
    ensures
        built_entries(rows, t, n) == Seq::<(usize, u64)>::empty(),
    decreases n,
{
    if n > 0 && n <= rows.len() {
        unseen_term_gets_no_entries(rows, t, (n - 1) as nat);
        let row = rows[n - 1];
        assert forall|i: int| 0 <= i < row.len() implies #[trigger] row[i].0 != t by {
            assert(rows[n - 1][i].0 != t);
        }
        lemma_row_without_term(row, (n - 1) as usize, t);
        assert(Seq::<(usize, u64)>::empty() + Seq::<(usize, u64)>::empty() =~= Seq::<(usize, u64)>::empty());
    }
}

} // verus!
