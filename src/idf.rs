use vstd::prelude::*;

verus! {

/// The number of the first `n` documents whose term list holds `t`.
pub open spec fn docs_containing(docs: Seq<Seq<usize>>, t: usize, n: nat) -> nat
    decreases n,
{
    if n == 0 || n > docs.len() {
        0
    } else {
        docs_containing(docs, t, (n - 1) as nat) + (if docs[n - 1].contains(t) { 1nat } else { 0nat })
    }
}

proof fn lemma_docs_containing_bound(docs: Seq<Seq<usize>>, t: usize, n: nat)
    ensures
        docs_containing(docs, t, n) <= n,
    decreases n,
{
    if n > 0 && n <= docs.len() {
        lemma_docs_containing_bound(docs, t, (n - 1) as nat);
    }
}

/// Document frequency of every term identifier below `vocab_size`: entry `t`
/// counts the documents in which `t` occurs at least once. The IDF of a term is
/// a function of this count and of the number of documents.
pub fn document_frequencies(corpus_tokens: &Vec<Vec<usize>>, vocab_size: usize) -> (r: Vec<usize>)
    requires
        forall|d: int, i: int| 0 <= d < corpus_tokens@.len() && 0 <= i < corpus_tokens@[d]@.len()
            ==> #[trigger] corpus_tokens@[d]@[i] < vocab_size,
    ensures
        r@.len() == vocab_size,
        forall|t: int| 0 <= t < vocab_size ==> #[trigger] r@[t]
            == docs_containing(corpus_tokens@.map_values(|doc: Vec<usize>| doc@), t as usize, corpus_tokens@.len()),
{
    let ghost docs = corpus_tokens@.map_values(|doc: Vec<usize>| doc@);
    let mut df: Vec<usize> = Vec::new();
    while df.len() < vocab_size
        invariant
            df@.len() <= vocab_size,
            forall|t: int| 0 <= t < df@.len() ==> #[trigger] df@[t] == 0,
        decreases vocab_size - df.len(),
    {
        df.push(0);
    }
    let n = corpus_tokens.len();
    let mut d: usize = 0;
    while d < n
        invariant
            n == corpus_tokens@.len(),
            docs == corpus_tokens@.map_values(|doc: Vec<usize>| doc@),
            d <= n,
            df@.len() == vocab_size,
            forall|e: int, i: int| 0 <= e < corpus_tokens@.len() && 0 <= i < corpus_tokens@[e]@.len()
                ==> #[trigger] corpus_tokens@[e]@[i] < vocab_size,
            forall|t: int| 0 <= t < vocab_size ==> #[trigger] df@[t] == docs_containing(docs, t as usize, d as nat),
        decreases n - d,
    {
        let doc = &corpus_tokens[d];
        assert(docs[d as int] == doc@);
        let mut seen: Vec<bool> = Vec::new();
        while seen.len() < vocab_size
            invariant
                seen@.len() <= vocab_size,
                forall|t: int| 0 <= t < seen@.len() ==> !#[trigger] seen@[t],
            decreases vocab_size - seen.len(),
        {
            seen.push(false);
        }
        let mut i: usize = 0;
        while i < doc.len()
            invariant
                n == corpus_tokens@.len(),
                docs == corpus_tokens@.map_values(|doc: Vec<usize>| doc@),
                d < n,
                doc@ == docs[d as int],
                i <= doc@.len(),
                df@.len() == vocab_size,
                seen@.len() == vocab_size,
                forall|j: int| 0 <= j < doc@.len() ==> #[trigger] doc@[j] < vocab_size,
                forall|t: int| 0 <= t < vocab_size ==> (#[trigger] seen@[t] <==> doc@.take(i as int).contains(t as usize)),
                forall|t: int| 0 <= t < vocab_size ==> #[trigger] df@[t] == docs_containing(docs, t as usize, d as nat)
                    + (if seen@[t] { 1nat } else { 0nat }),
            decreases doc@.len() - i,
        {
            let t = doc[i];
            assert(doc@[i as int] == corpus_tokens@[d as int]@[i as int]);
            proof {
                assert forall|u: int| 0 <= u < vocab_size implies
                    (#[trigger] doc@.take(i + 1).contains(u as usize) <==> doc@.take(i as int).contains(u as usize) || u == t) by {
                    if doc@.take(i + 1).contains(u as usize) {
                        let k = choose|k: int| 0 <= k < i + 1 && #[trigger] doc@.take(i + 1)[k] == u as usize;
                        if k < i {
                            assert(doc@.take(i as int)[k] == u as usize);
                        }
                    }
                    if doc@.take(i as int).contains(u as usize) {
                        let k = choose|k: int| 0 <= k < i && #[trigger] doc@.take(i as int)[k] == u as usize;
                        assert(doc@.take(i + 1)[k] == u as usize);
                    }
                    if u == t {
                        assert(doc@.take(i + 1)[i as int] == t);
                    }
                }
            }
            if !seen[t] {
                proof {
                    lemma_docs_containing_bound(docs, t, d as nat);
                }
                df.set(t, df[t] + 1);
                seen.set(t, true);
            }
            i = i + 1;
        }
        proof {
            assert(doc@.take(doc@.len() as int) =~= doc@);
        }
        d = d + 1;
    }
    df
}

} // verus!
