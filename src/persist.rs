use vstd::prelude::*;
use crate::codec::{bytes_of_words, bytes_to_words, lemma_bytes_injective, words_to_bytes};
use crate::error::IndexError;
use crate::index::{config_is_valid, posting_of, query_contributions, BM25S};

verus! {

/// The first word of every saved index: the format name and its version.
pub const FORMAT_TAG: u64 = 0x4249_4D32_3553_0001;

/// The words of posting entries: document identifier, then score, per entry.
pub open spec fn entry_words(l: Seq<(usize, u64)>) -> Seq<u64>
    decreases l.len(),
{
    if l.len() == 0 {
        Seq::empty()
    } else {
        seq![l[0].0 as u64, l[0].1] + entry_words(l.drop_first())
    }
}

/// The words of a posting list: its length, then its entries.
pub open spec fn list_words(l: Seq<(usize, u64)>) -> Seq<u64> {
    seq![l.len() as u64] + entry_words(l)
}

/// The words of the posting lists, in term order.
pub open spec fn term_words(p: Seq<Seq<(usize, u64)>>) -> Seq<u64>
    decreases p.len(),
{
    if p.len() == 0 {
        Seq::empty()
    } else {
        list_words(p[0]) + term_words(p.drop_first())
    }
}

/// The words of an index: the format tag, the document count, the three
/// configuration values, the number of posting lists, then the lists.
pub open spec fn index_words(x: BM25S) -> Seq<u64> {
    seq![
        FORMAT_TAG,
        x.spec_doc_count() as u64,
        x.spec_avg_doc_length(),
        x.spec_k1(),
        x.spec_b(),
        x.postings().len() as u64,
    ] + term_words(x.postings())
}

/// The saved form of an index.
pub open spec fn encoding(x: BM25S) -> Seq<u8> {
    bytes_of_words(index_words(x))
}

proof fn lemma_entry_words_index(l: Seq<(usize, u64)>)
    ensures
        entry_words(l).len() == 2 * l.len(),
        forall|j: int| #![trigger l[j]] 0 <= j < l.len() ==> entry_words(l)[2 * j] == l[j].0 as u64 && entry_words(l)[2 * j + 1] == l[j].1,
    decreases l.len(),
{
    if l.len() > 0 {
        lemma_entry_words_index(l.drop_first());
        assert(entry_words(l) == seq![l[0].0 as u64, l[0].1] + entry_words(l.drop_first()));
        assert forall|j: int| #![trigger l[j]] 0 <= j < l.len() implies entry_words(l)[2 * j] == l[j].0 as u64
            && entry_words(l)[2 * j + 1] == l[j].1 by {
            if j > 0 {
                assert(l.drop_first()[j - 1] == l[j]);
                assert(entry_words(l)[2 * j] == entry_words(l.drop_first())[2 * (j - 1)]);
                assert(entry_words(l)[2 * j + 1] == entry_words(l.drop_first())[2 * (j - 1) + 1]);
            }
        }
    }
}

proof fn lemma_entry_words_push(l: Seq<(usize, u64)>, e: (usize, u64))
    ensures
        entry_words(l.push(e)) == entry_words(l) + seq![e.0 as u64, e.1],
    decreases l.len(),
{
    let m = l.push(e);
    if l.len() == 0 {
        assert(m.drop_first() =~= Seq::<(usize, u64)>::empty());
        assert(entry_words(m) == seq![e.0 as u64, e.1] + entry_words(m.drop_first()));
        assert(entry_words(m) =~= entry_words(l) + seq![e.0 as u64, e.1]);
    } else {
        lemma_entry_words_push(l.drop_first(), e);
        assert(m.drop_first() =~= l.drop_first().push(e));
        assert(m[0] == l[0]);
        assert(entry_words(m) == seq![l[0].0 as u64, l[0].1] + entry_words(m.drop_first()));
        assert(entry_words(l) == seq![l[0].0 as u64, l[0].1] + entry_words(l.drop_first()));
        vstd::seq_lib::lemma_concat_associative(seq![l[0].0 as u64, l[0].1], entry_words(l.drop_first()), seq![e.0 as u64, e.1]);
    }
}

proof fn lemma_term_words_split(p: Seq<Seq<(usize, u64)>>, t: int)
    requires
        0 <= t <= p.len(),
    ensures
        term_words(p) == term_words(p.take(t)) + term_words(p.skip(t)),
    decreases t,
{
    if t == 0 {
        assert(p.take(0) =~= Seq::<Seq<(usize, u64)>>::empty());
        assert(p.skip(0) =~= p);
        assert(term_words(p.take(0)) + term_words(p) =~= term_words(p));
    } else {
        let q = p.drop_first();
        lemma_term_words_split(q, t - 1);
        assert(p.take(t).drop_first() =~= q.take(t - 1));
        assert(p.take(t)[0] == p[0]);
        assert(p.skip(t) =~= q.skip(t - 1));
        vstd::seq_lib::lemma_concat_associative(list_words(p[0]), term_words(q.take(t - 1)), term_words(q.skip(t - 1)));
    }
}

proof fn lemma_term_words_push(p: Seq<Seq<(usize, u64)>>, l: Seq<(usize, u64)>)
    ensures
        term_words(p.push(l)) == term_words(p) + list_words(l),
{
    let q = p.push(l);
    lemma_term_words_split(q, p.len() as int);
    assert(q.take(p.len() as int) =~= p);
    assert(q.skip(p.len() as int) =~= seq![l]);
    assert(seq![l].drop_first() =~= Seq::<Seq<(usize, u64)>>::empty());
    assert(term_words(seq![l]) == list_words(seq![l][0]) + term_words(seq![l].drop_first()));
    assert(term_words(seq![l]) =~= list_words(l));
}

proof fn lemma_term_words_injective(p: Seq<Seq<(usize, u64)>>, q: Seq<Seq<(usize, u64)>>)
    requires
        p.len() == q.len(),
        term_words(p) == term_words(q),
        forall|t: int| 0 <= t < p.len() ==> #[trigger] p[t].len() <= usize::MAX,
        forall|t: int| 0 <= t < q.len() ==> #[trigger] q[t].len() <= usize::MAX,
    ensures
        p == q,
    decreases p.len(),
{
    if p.len() > 0 {
        let a = p[0];
        let b = q[0];
        lemma_entry_words_index(a);
        lemma_entry_words_index(b);
        assert(term_words(p)[0] == a.len() as u64);
        assert(term_words(q)[0] == b.len() as u64);
        assert(a.len() == b.len());
        let m: int = 1 + 2 * (a.len() as int);
        assert(term_words(p).subrange(0, m) =~= list_words(a));
        assert(term_words(q).subrange(0, m) =~= list_words(b));
        assert(term_words(p).subrange(m, term_words(p).len() as int) =~= term_words(p.drop_first()));
        assert(term_words(q).subrange(m, term_words(q).len() as int) =~= term_words(q.drop_first()));
        assert forall|j: int| 0 <= j < a.len() implies #[trigger] a[j] == b[j] by {
            assert(list_words(a)[1 + 2 * j] == entry_words(a)[2 * j]);
            assert(list_words(b)[1 + 2 * j] == entry_words(b)[2 * j]);
            assert(list_words(a)[2 + 2 * j] == entry_words(a)[2 * j + 1]);
            assert(list_words(b)[2 + 2 * j] == entry_words(b)[2 * j + 1]);
        }
        assert(a =~= b);
        lemma_term_words_injective(p.drop_first(), q.drop_first());
        assert(p =~= seq![a] + p.drop_first());
        assert(q =~= seq![b] + q.drop_first());
    } else {
        assert(p =~= q);
    }
}

proof fn lemma_term_words_nonempty(p: Seq<Seq<(usize, u64)>>)
    requires
        p.len() > 0,
    ensures
        term_words(p) == list_words(p[0]) + term_words(p.drop_first()),
        term_words(p).len() >= 1 + 2 * p[0].len(),
        term_words(p)[0] == p[0].len() as u64,
{
    lemma_entry_words_index(p[0]);
}

impl BM25S {
    /// The saved form of the index: a versioned byte stream that `load` reads
    /// back into an index with the same configuration and posting lists.
    pub fn save(&self) -> (r: Vec<u8>)
        ensures
            r@ == encoding(*self),
    {
        let lists = self.sparse_matrix();
        let ghost p = self.postings();
        let mut ws: Vec<u64> = Vec::new();
        ws.push(FORMAT_TAG);
        ws.push(self.doc_count() as u64);
        ws.push(self.avg_doc_length());
        ws.push(self.k1());
        ws.push(self.b());
        ws.push(lists.len() as u64);
        let ghost header = ws@;
        assert(p.take(0) =~= Seq::<Seq<(usize, u64)>>::empty());
        assert(ws@ =~= header + term_words(p.take(0)));
        let mut t: usize = 0;
        while t < lists.len()
            invariant
                lists@.map_values(|v: Vec<(usize, u64)>| v@) == p,
                t <= lists@.len(),
                ws@ == header + term_words(p.take(t as int)),
            decreases lists@.len() - t,
        {
            let l = &lists[t];
            assert(l@ == p[t as int]);
            let ghost before = ws@;
            ws.push(l.len() as u64);
            assert(l@.take(0) =~= Seq::<(usize, u64)>::empty());
            assert(ws@ =~= before + seq![l@.len() as u64] + entry_words(l@.take(0)));
            let mut j: usize = 0;
            while j < l.len()
                invariant
                    j <= l@.len(),
                    ws@ == before + seq![l@.len() as u64] + entry_words(l@.take(j as int)),
                decreases l@.len() - j,
            {
                let (d, score) = l[j];
                let ghost mid = ws@;
                ws.push(d as u64);
                ws.push(score);
                proof {
                    assert(l@.take(j + 1) =~= l@.take(j as int).push((d, score)));
                    lemma_entry_words_push(l@.take(j as int), (d, score));
                    assert(ws@ =~= mid + seq![d as u64, score]);
                    assert(ws@ =~= before + seq![l@.len() as u64] + entry_words(l@.take(j + 1)));
                }
                j = j + 1;
            }
            proof {
                assert(l@.take(l@.len() as int) =~= l@);
                assert(p.take(t + 1) =~= p.take(t as int).push(l@));
                lemma_term_words_push(p.take(t as int), l@);
                assert(ws@ =~= header + term_words(p.take(t + 1)));
            }
            t = t + 1;
        }
        assert(p.take(lists@.len() as int) =~= p);
        assert(ws@ =~= index_words(*self));
        words_to_bytes(&ws)
    }
}

/// Reads an index from its words; `DeserializationError` exactly when no
/// well-formed index has these words.
fn index_from_words(ws: &Vec<u64>) -> (r: Result<BM25S, IndexError>)
    ensures
        r matches Ok(x) ==> x.wf() && index_words(x) == ws@,
        r is Err ==> r == Err::<BM25S, IndexError>(IndexError::DeserializationError),
        r is Err ==> forall|y: BM25S| y.wf() ==> #[trigger] index_words(y) != ws@,
{
    let ghost has = exists|y: BM25S| y.wf() && #[trigger] index_words(y) == ws@;
    let ghost y = choose|y: BM25S| y.wf() && #[trigger] index_words(y) == ws@;
    let ghost yp = y.postings();
    proof {
        if has {
            y.lemma_lengths_fit();
            assert(ws@[0] == FORMAT_TAG);
            assert(ws@[1] == y.spec_doc_count() as u64);
            assert(ws@[2] == y.spec_avg_doc_length());
            assert(ws@[3] == y.spec_k1());
            assert(ws@[4] == y.spec_b());
            assert(ws@[5] == yp.len() as u64);
            assert(ws@.skip(6) =~= term_words(yp));
            assert(yp.skip(0) =~= yp);
        }
    }
    let wlen = ws.len();
    if ws.len() < 6 || ws[0] != FORMAT_TAG || ws[1] > usize::MAX as u64 {
        assert(!has);
        return Err(IndexError::DeserializationError);
    }
    let doc_count = ws[1] as usize;
    let avg_doc_length = ws[2];
    let k1 = ws[3];
    let b = ws[4];
    let n_terms = ws[5];
    if !config_is_valid(avg_doc_length, k1, b) {
        assert(!has);
        return Err(IndexError::DeserializationError);
    }
    let mut lists: Vec<Vec<(usize, u64)>> = Vec::new();
    let mut pos: usize = 6;
    let mut t: usize = 0;
    assert(ws@.take(6) + term_words(Seq::<Seq<(usize, u64)>>::empty()) =~= ws@.take(6));
    assert(lists@.map_values(|v: Vec<(usize, u64)>| v@) =~= yp.take(0));
    while (t as u64) < n_terms
        invariant
            wlen == ws@.len(),
            6 <= pos <= ws@.len(),
            t as int <= pos - 6,
            t as u64 <= n_terms,
            ws@[0] == FORMAT_TAG,
            ws@[2] == avg_doc_length,
            ws@[3] == k1,
            ws@[4] == b,
            doc_count as u64 == ws@[1],
            n_terms == ws@[5],
            lists@.len() == t,
            ws@.take(pos as int) == ws@.take(6) + term_words(lists@.map_values(|v: Vec<(usize, u64)>| v@)),
            forall|u: int, i: int| 0 <= u < lists@.len() && 0 <= i < lists@[u]@.len() ==> #[trigger] lists@[u]@[i].0 < doc_count,
            has == exists|z: BM25S| z.wf() && #[trigger] index_words(z) == ws@,
            has ==> y.wf() && index_words(y) == ws@ && yp == y.postings(),
            has ==> doc_count == y.spec_doc_count() && n_terms == yp.len() as u64 && yp.len() <= usize::MAX,
            has ==> forall|u: int| 0 <= u < yp.len() ==> #[trigger] yp[u].len() <= usize::MAX,
            has ==> t <= yp.len() && lists@.map_values(|v: Vec<(usize, u64)>| v@) == yp.take(t as int),
            has ==> ws@.skip(pos as int) == term_words(yp.skip(t as int)),
        decreases ws@.len() - pos,
    {
        let ghost lv = lists@.map_values(|v: Vec<(usize, u64)>| v@);
        let ghost ly = yp[t as int];
        proof {
            if has {
                assert(t < yp.len());
                lemma_term_words_nonempty(yp.skip(t as int));
                assert(yp.skip(t as int)[0] == ly);
                assert(yp.skip(t as int).drop_first() =~= yp.skip(t + 1));
            }
        }
        if pos >= ws.len() {
            proof {
                if has {
                    assert(ws@.skip(pos as int).len() == 0);
                }
            }
            return Err(IndexError::DeserializationError);
        }
        let len_w = ws[pos];
        let rem = ws.len() - pos - 1;
        proof {
            if has {
                assert(ws@[pos as int] == ws@.skip(pos as int)[0]);
                assert(len_w == ly.len() as u64);
                assert(len_w as int == ly.len());
            }
        }
        if len_w > (rem / 2) as u64 {
            return Err(IndexError::DeserializationError);
        }
        let len = len_w as usize;
        let mut list: Vec<(usize, u64)> = Vec::new();
        let mut j: usize = 0;
        proof {
            assert(list@.take(0) =~= Seq::<(usize, u64)>::empty());
            assert(ws@.take(pos + 1) =~= ws@.take(pos as int) + seq![len_w]);
            assert(ws@.take(pos + 1) =~= ws@.take(pos as int) + seq![len_w] + entry_words(list@));
            if has {
                lemma_entry_words_index(ly);
                assert(list@ =~= ly.take(0));
            }
        }
        while j < len
            invariant
                wlen == ws@.len(),
                6 <= pos,
                pos + 1 + 2 * len <= ws@.len(),
                j <= len,
                len as u64 == len_w,
                doc_count as u64 == ws@[1],
                list@.len() == j,
                ws@.take(pos + 1 + 2 * j) == ws@.take(pos as int) + seq![len_w] + entry_words(list@),
                forall|i: int| 0 <= i < list@.len() ==> #[trigger] list@[i].0 < doc_count,
                has == exists|z: BM25S| z.wf() && #[trigger] index_words(z) == ws@,
                has ==> y.wf() && index_words(y) == ws@ && yp == y.postings() && doc_count == y.spec_doc_count(),
                has ==> t < yp.len() && ly == yp[t as int] && len == ly.len(),
                has ==> ws@.skip(pos as int) == list_words(ly) + term_words(yp.skip(t + 1)),
                has ==> list@ == ly.take(j as int),
            decreases len - j,
        {
            let k = pos + 1 + 2 * j;
            let doc_w = ws[k];
            let score = ws[k + 1];
            proof {
                if has {
                    lemma_entry_words_index(ly);
                    assert(ws@[k as int] == ws@.skip(pos as int)[1 + 2 * j]);
                    assert(ws@[k + 1] == ws@.skip(pos as int)[2 + 2 * j]);
                    assert(list_words(ly)[1 + 2 * j] == entry_words(ly)[2 * j]);
                    assert(list_words(ly)[2 + 2 * j] == entry_words(ly)[2 * j + 1]);
                    assert(doc_w == ly[j as int].0 as u64);
                    assert(score == ly[j as int].1);
                    assert(ly[j as int] == yp[t as int][j as int]);
                    assert(ly[j as int].0 < doc_count);
                }
            }
            if doc_w >= doc_count as u64 {
                return Err(IndexError::DeserializationError);
            }
            let ghost before = list@;
            list.push((doc_w as usize, score));
            proof {
                lemma_entry_words_push(before, (doc_w as usize, score));
                assert(ws@.take(k + 2) =~= ws@.take(k as int) + seq![doc_w, score]);
                vstd::seq_lib::lemma_concat_associative(ws@.take(pos as int) + seq![len_w], entry_words(before), seq![doc_w, score]);
                if has {
                    assert(list@ =~= ly.take(j + 1));
                }
            }
            j = j + 1;
        }
        let ghost old_pos = pos;
        pos = pos + 1 + 2 * len;
        lists.push(list);
        t = t + 1;
        proof {
            let nv = lists@.map_values(|v: Vec<(usize, u64)>| v@);
            assert(nv =~= lv.push(list@));
            lemma_term_words_push(lv, list@);
            assert(ws@.take(old_pos + 1) + entry_words(list@) =~= ws@.take(old_pos as int) + list_words(list@)) by {
                assert(ws@.take(old_pos as int) + seq![len_w] + entry_words(list@) =~= ws@.take(old_pos as int) + list_words(list@));
            }
            assert(ws@.take(pos as int) =~= ws@.take(6) + term_words(nv)) by {
                assert(ws@.take(pos as int) == ws@.take(old_pos as int) + seq![len_w] + entry_words(list@));
                assert(ws@.take(old_pos as int) + seq![len_w] + entry_words(list@) =~= ws@.take(old_pos as int) + list_words(list@));
                vstd::seq_lib::lemma_concat_associative(ws@.take(6), term_words(lv), list_words(list@));
            }
            if has {
                assert(list@ =~= ly);
                assert(nv =~= yp.take(t as int));
                lemma_entry_words_index(ly);
                assert(ws@.skip(pos as int) =~= ws@.skip(old_pos as int).skip(1 + 2 * len));
                assert(list_words(ly).len() == 1 + 2 * len);
                assert((list_words(ly) + term_words(yp.skip(t as int))).skip(1 + 2 * len) =~= term_words(yp.skip(t as int)));
            }
        }
    }
    if pos != ws.len() {
        proof {
            if has {
                assert(t == yp.len());
                assert(yp.skip(t as int) =~= Seq::<Seq<(usize, u64)>>::empty());
            }
        }
        return Err(IndexError::DeserializationError);
    }
    let ghost lv = lists@.map_values(|v: Vec<(usize, u64)>| v@);
    if lists.len() > 0 && lists[lists.len() - 1].len() == 0 {
        proof {
            if has {
                assert(t == yp.len());
                assert(lv =~= yp);
                assert(yp.last() == lists@.last()@);
            }
        }
        return Err(IndexError::DeserializationError);
    }
    proof {
        assert forall|u: int, i: int| 0 <= u < lists@.len() && 0 <= i < lists@[u]@.len() implies #[trigger] lists@[u]@[i].0 < doc_count by {
        }
    }
    let x = BM25S::from_parts(doc_count, avg_doc_length, k1, b, lists);
    proof {
        assert(ws@.take(pos as int) =~= ws@);
        assert(ws@.take(6) =~= seq![FORMAT_TAG, doc_count as u64, avg_doc_length, k1, b, lv.len() as u64]);
    }
    Ok(x)
}

impl BM25S {
    /// Reads an index from its saved form. It succeeds exactly when the bytes
    /// are the saved form of some well-formed index, and then gives an index
    /// whose saved form they are; otherwise it reports `DeserializationError`.
    pub fn load(bytes: &Vec<u8>) -> (r: Result<BM25S, IndexError>)
        ensures
            r matches Ok(x) ==> x.wf() && encoding(x) == bytes@,
            r is Err ==> r == Err::<BM25S, IndexError>(IndexError::DeserializationError),
            r is Ok <==> exists|y: BM25S| y.wf() && #[trigger] encoding(y) == bytes@,
    {
        match bytes_to_words(bytes) {
            None => {
                proof {
                    assert forall|y: BM25S| y.wf() implies #[trigger] encoding(y) != bytes@ by {
                        crate::codec::lemma_bytes_len(index_words(y));
                    }
                }
                Err(IndexError::DeserializationError)
            },
            Some(ws) => {
                let r = index_from_words(&ws);
                proof {
                    if r is Err {
                        assert forall|y: BM25S| y.wf() implies #[trigger] encoding(y) != bytes@ by {
                            if encoding(y) == bytes@ {
                                lemma_bytes_injective(index_words(y), ws@);
                            }
                        }
                    }
                }
                r
            },
        }
    }
}

/// An index is determined by its saved form: two well-formed indexes with the
/// same saved form have the same configuration and posting lists, so loading
/// the saved form of an index answers every query exactly as the index does.
pub proof fn saved_form_determines_index(x: BM25S, y: BM25S)
    requires
        x.wf(),
        y.wf(),
        encoding(y) == encoding(x),
    ensures
        y.postings() == x.postings(),
        y.spec_doc_count() == x.spec_doc_count(),
        y.spec_avg_doc_length() == x.spec_avg_doc_length(),
        y.spec_k1() == x.spec_k1(),
        y.spec_b() == x.spec_b(),
        forall|q: Seq<usize>, d: usize| #[trigger] query_contributions(y.postings(), q, d) == query_contributions(x.postings(), q, d),
{
    lemma_bytes_injective(index_words(y), index_words(x));
    x.lemma_lengths_fit();
    y.lemma_lengths_fit();
    let wx = index_words(x);
    let wy = index_words(y);
    assert(wx[1] == wy[1]);
    assert(wx[2] == wy[2]);
    assert(wx[3] == wy[3]);
    assert(wx[4] == wy[4]);
    assert(wx[5] == wy[5]);
    assert(wx.skip(6) =~= term_words(x.postings()));
    assert(wy.skip(6) =~= term_words(y.postings()));
    lemma_term_words_injective(y.postings(), x.postings());
}

/// Saving is reproducible: two well-formed indexes with the same
/// configuration and, for every term, the same posting list save to the same
/// bytes.
pub proof fn equal_lists_save_alike(x: BM25S, y: BM25S)
    requires
        x.wf(),
        y.wf(),
        x.spec_doc_count() == y.spec_doc_count(),
        x.spec_avg_doc_length() == y.spec_avg_doc_length(),
        x.spec_k1() == y.spec_k1(),
        x.spec_b() == y.spec_b(),
        forall|t: int| #[trigger] posting_of(x.postings(), t) == posting_of(y.postings(), t),
    ensures
        encoding(x) == encoding(y),
{
    let p = x.postings();
    let q = y.postings();
    if p.len() < q.len() {
        assert(posting_of(q, q.len() - 1) == q.last());
        assert(posting_of(p, q.len() - 1).len() == 0);
    }
    if q.len() < p.len() {
        assert(posting_of(p, p.len() - 1) == p.last());
        assert(posting_of(q, p.len() - 1).len() == 0);
    }
    assert forall|t: int| 0 <= t < p.len() implies #[trigger] p[t] == q[t] by {
        assert(posting_of(p, t) == posting_of(q, t));
    }
    assert(p =~= q);
}

} // verus!
