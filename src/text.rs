use vstd::prelude::*;
use std::collections::HashMap;

verus! {

/// The characters with the Unicode White_Space property.
pub open spec fn is_white_space(c: char) -> bool {
    let u = c as u32;
    (0x9 <= u <= 0xD) || u == 0x20 || u == 0x85 || u == 0xA0 || u == 0x1680 || (0x2000 <= u <= 0x200A)
        || u == 0x2028 || u == 0x2029 || u == 0x202F || u == 0x205F || u == 0x3000
}

/// The words of a text, in order: its maximal runs of characters that are
/// not white space.
pub open spec fn words_of(s: Seq<char>) -> Seq<Seq<char>>
    decreases s.len(),
{
    if s.len() == 0 {
        Seq::empty()
    } else {
        let rest = words_of(s.drop_last());
        if is_white_space(s.last()) {
            rest
        } else if s.len() >= 2 && !is_white_space(s[s.len() - 2]) {
            rest.drop_last().push(rest.last().push(s.last()))
        } else {
            rest.push(seq![s.last()])
        }
    }
}

/// Relies on `str::split_whitespace`: the substrings of `s` separated by any
/// amount of Unicode White_Space, in order, without empty ones.
#[verifier::external_body]
fn split_words(s: &str) -> (r: Vec<String>)
    ensures
        r@.map_values(|w: String| w@) == words_of(s@),
{
    s.split_whitespace().map(|w| w.to_string()).collect()
}

/// The identifier that the vocabulary gives to word `w`, if it holds it.
pub open spec fn term_id_of(vocab: Map<String, usize>, w: Seq<char>) -> Option<usize> {
    if exists|k: String| vocab.contains_key(k) && #[trigger] k@ == w {
        Some(vocab[choose|k: String| vocab.contains_key(k) && #[trigger] k@ == w])
    } else {
        None
    }
}

/// Relies on `HashMap::get`: the value stored under the key equal to `w`.
#[verifier::external_body]
fn lookup_term(vocab: &HashMap<String, usize>, w: &String) -> (r: Option<usize>)
    ensures
        r == term_id_of(vocab@, w@),
{
    vocab.get(w).copied()
}

/// The identifiers of the words of a query that the vocabulary holds, in
/// query order; other words are dropped.
pub open spec fn known_term_ids(vocab: Map<String, usize>, ws: Seq<Seq<char>>) -> Seq<usize>
    decreases ws.len(),
{
    if ws.len() == 0 {
        Seq::empty()
    } else {
        let rest = known_term_ids(vocab, ws.drop_last());
        match term_id_of(vocab, ws.last()) {
            Some(id) => rest.push(id),
            None => rest,
        }
    }
}

/// Splits a query on whitespace and maps each word to its term identifier,
/// dropping words outside the vocabulary.
pub fn tokenize_query(query: &str, term_to_id: &HashMap<String, usize>) -> (r: Vec<usize>)
    ensures
        r@ == known_term_ids(term_to_id@, words_of(query@)),
{
    let words = split_words(query);
    let ghost ws = words_of(query@);
    let mut out: Vec<usize> = Vec::new();
    let mut i: usize = 0;
    while i < words.len()
        invariant
            words@.map_values(|w: String| w@) == ws,
            i <= words@.len(),
            out@ == known_term_ids(term_to_id@, ws.take(i as int)),
        decreases words@.len() - i,
    {
        let id = lookup_term(term_to_id, &words[i]);
        proof {
            assert(ws.take(i + 1).drop_last() =~= ws.take(i as int));
            assert(ws.take(i + 1).last() == words@[i as int]@);
        }
        if let Some(t) = id {
            out.push(t);
        }
        i = i + 1;
    }
    assert(ws.take(words@.len() as int) =~= ws);
    out
}

/// Relies on `HashMap::insert`: afterwards the map holds `id` under `w`.
#[verifier::external_body]
fn insert_term(vocab: &mut HashMap<String, usize>, w: String, id: usize)
    ensures
        final(vocab)@ == old(vocab)@.insert(w, id),
{
    vocab.insert(w, id);
}

/// Relies on `HashMap::len`: the number of keys in the map.
#[verifier::external_body]
fn vocabulary_size(vocab: &HashMap<String, usize>) -> (r: usize)
    ensures
        r == vocab@.len(),
{
    vocab.len()
}

/// A vocabulary of `n` terms: no two keys read alike, and the keys carry the
/// identifiers `0..n`, each once.
pub open spec fn dense_vocabulary(vocab: Map<String, usize>, n: nat) -> bool {
    &&& vocab.dom().finite()
    &&& vocab.dom().len() == n
    &&& forall|k: String, j: String| vocab.contains_key(k) && vocab.contains_key(j) && #[trigger] k@ == #[trigger] j@ ==> k == j
    &&& forall|k: String| #[trigger] vocab.contains_key(k) ==> vocab[k] < n
    &&& forall|k: String, j: String| vocab.contains_key(k) && vocab.contains_key(j) && k != j
        ==> #[trigger] vocab[k] != #[trigger] vocab[j]
}

proof fn lemma_add_term(vocab: Map<String, usize>, n: nat, w: String, u: Seq<char>)
    requires
        dense_vocabulary(vocab, n),
        term_id_of(vocab, w@) is None,
        n <= usize::MAX,
    ensures
        dense_vocabulary(vocab.insert(w, n as usize), n + 1),
        term_id_of(vocab.insert(w, n as usize), w@) == Some(n as usize),
        u != w@ ==> term_id_of(vocab.insert(w, n as usize), u) == term_id_of(vocab, u),
{
    let m = vocab.insert(w, n as usize);
    assert(!vocab.contains_key(w));
    assert(m.dom() == vocab.dom().insert(w));
    assert(m.contains_key(w) && w@ == w@);
    let c = choose|k: String| m.contains_key(k) && #[trigger] k@ == w@;
    assert(c == w);
    if u != w@ {
        if exists|k: String| vocab.contains_key(k) && #[trigger] k@ == u {
            let a = choose|k: String| vocab.contains_key(k) && #[trigger] k@ == u;
            let b = choose|k: String| m.contains_key(k) && #[trigger] k@ == u;
            assert(m.contains_key(a));
            assert(a == b);
        } else {
            assert forall|k: String| m.contains_key(k) implies #[trigger] k@ != u by {
                if k != w {
                    assert(vocab.contains_key(k));
                }
            }
        }
    }
}

/// Word `j` of document `e` comes before word `i` of document `d`.
pub open spec fn precedes(e: int, j: int, d: int, i: int) -> bool {
    e < d || (e == d && j < i)
}

/// Word `i` of document `d` is the first occurrence of its text in the corpus.
pub open spec fn first_occurrence(corpus: Seq<&str>, d: int, i: int) -> bool {
    forall|e: int, j: int|
        0 <= e < corpus.len() && 0 <= j < words_of(corpus[e]@).len() && precedes(e, j, d, i)
            ==> #[trigger] words_of(corpus[e]@)[j] != words_of(corpus[d]@)[i]
}

/// Among the words before position `(nd, ni)`, each first occurrence of a
/// word has an identifier above those of all words before it: identifiers
/// are handed out in order of first occurrence.
pub open spec fn numbered_in_order(corpus: Seq<&str>, ids: Seq<Seq<usize>>, nd: int, ni: int) -> bool {
    forall|d: int, i: int, e: int, j: int|
        0 <= d < corpus.len() && 0 <= i < words_of(corpus[d]@).len() && precedes(d, i, nd, ni)
            && 0 <= e && 0 <= j < words_of(corpus[e]@).len() && precedes(e, j, d, i)
            && first_occurrence(corpus, d, i)
            ==> #[trigger] ids[e][j] < #[trigger] ids[d][i]
}

/// Gives each distinct word of the corpus an identifier below the number of
/// distinct words, different words different identifiers, in order of first
/// occurrence (by document, then by position). Returns, per document, the
/// identifier of each of its words, and the vocabulary.
pub fn tokenize_corpus(corpus: &[&str]) -> (r: (Vec<Vec<usize>>, HashMap<String, usize>))
    ensures
        r.0@.len() == corpus@.len(),
        dense_vocabulary(r.1@, r.1@.len()),
        forall|d: int| 0 <= d < corpus@.len() ==> (#[trigger] r.0@[d])@.len() == words_of(corpus@[d]@).len(),
        forall|d: int, i: int| 0 <= d < corpus@.len() && 0 <= i < words_of(corpus@[d]@).len()
            ==> term_id_of(r.1@, words_of(corpus@[d]@)[i]) == Some(#[trigger] r.0@[d]@[i]),
        forall|k: String| #[trigger] r.1@.contains_key(k) ==> exists|d: int, i: int|
            0 <= d < corpus@.len() && 0 <= i < words_of(corpus@[d]@).len() && #[trigger] words_of(corpus@[d]@)[i] == k@,
        numbered_in_order(corpus@, r.0@.map_values(|v: Vec<usize>| v@), corpus@.len() as int, 0),
{
    let mut vocab: HashMap<String, usize> = HashMap::new();
    let mut next: usize = 0;
    let mut docs: Vec<Vec<usize>> = Vec::new();
    let mut d: usize = 0;
    while d < corpus.len()
        invariant
            d <= corpus@.len(),
            docs@.len() == d,
            dense_vocabulary(vocab@, next as nat),
            forall|e: int| 0 <= e < d ==> (#[trigger] docs@[e])@.len() == words_of(corpus@[e]@).len(),
            forall|e: int, i: int| 0 <= e < d && 0 <= i < words_of(corpus@[e]@).len()
                ==> term_id_of(vocab@, words_of(corpus@[e]@)[i]) == Some(#[trigger] docs@[e]@[i]),
            forall|k: String| #[trigger] vocab@.contains_key(k) ==> exists|e: int, i: int|
                0 <= e < d && 0 <= i < words_of(corpus@[e]@).len() && #[trigger] words_of(corpus@[e]@)[i] == k@,
            forall|e: int, i: int| 0 <= e < d && 0 <= i < words_of(corpus@[e]@).len() ==> #[trigger] docs@[e]@[i] < next,
            numbered_in_order(corpus@, docs@.map_values(|v: Vec<usize>| v@), d as int, 0),
        decreases corpus@.len() - d,
    {
        let words = split_words(corpus[d]);
        let ghost ws = words_of(corpus@[d as int]@);
        let mut ids: Vec<usize> = Vec::new();
        let mut i: usize = 0;
        proof {
            let dv = docs@.map_values(|v: Vec<usize>| v@);
            let nc = dv.push(ids@);
            assert forall|d2: int, i2: int, e: int, j: int|
                0 <= d2 < corpus@.len() && 0 <= i2 < words_of(corpus@[d2]@).len() && precedes(d2, i2, d as int, 0)
                    && 0 <= e && 0 <= j < words_of(corpus@[e]@).len() && precedes(e, j, d2, i2)
                    && first_occurrence(corpus@, d2, i2)
                implies #[trigger] nc[e][j] < #[trigger] nc[d2][i2] by {
                assert(dv[e][j] < dv[d2][i2]);
            }
        }
        while i < words.len()
            invariant
                d < corpus@.len(),
                docs@.len() == d,
                ws == words_of(corpus@[d as int]@),
                words@.map_values(|w: String| w@) == ws,
                i <= words@.len(),
                ids@.len() == i,
                dense_vocabulary(vocab@, next as nat),
                forall|e: int| 0 <= e < d ==> (#[trigger] docs@[e])@.len() == words_of(corpus@[e]@).len(),
                forall|e: int, j: int| 0 <= e < d && 0 <= j < words_of(corpus@[e]@).len()
                    ==> term_id_of(vocab@, words_of(corpus@[e]@)[j]) == Some(#[trigger] docs@[e]@[j]),
                forall|j: int| 0 <= j < i ==> term_id_of(vocab@, ws[j]) == Some(#[trigger] ids@[j]),
                forall|k: String| #[trigger] vocab@.contains_key(k) ==> exists|e: int, j: int|
                    0 <= e <= d && 0 <= j < words_of(corpus@[e]@).len() && (e < d || j < i)
                    && #[trigger] words_of(corpus@[e]@)[j] == k@,
                forall|e: int, j: int| 0 <= e < d && 0 <= j < words_of(corpus@[e]@).len() ==> #[trigger] docs@[e]@[j] < next,
                forall|j: int| 0 <= j < i ==> #[trigger] ids@[j] < next,
                numbered_in_order(corpus@, docs@.map_values(|v: Vec<usize>| v@).push(ids@), d as int, i as int),
            decreases words@.len() - i,
        {
            assert(words@[i as int]@ == ws[i as int]);
            let ghost old_ids = ids@;
            let ghost old_next = next;
            let ghost dv = docs@.map_values(|v: Vec<usize>| v@);
            match lookup_term(&vocab, &words[i]) {
                Some(t) => {
                    proof {
                        let k = choose|k: String| vocab@.contains_key(k) && #[trigger] k@ == ws[i as int];
                        assert(vocab@[k] == t);
                        let (e, j) = choose|e: int, j: int| 0 <= e <= d && 0 <= j < words_of(corpus@[e]@).len()
                            && (e < d || j < i) && #[trigger] words_of(corpus@[e]@)[j] == k@;
                        assert(precedes(e, j, d as int, i as int));
                        assert(!first_occurrence(corpus@, d as int, i as int));
                    }
                    ids.push(t);
                },
                None => {
                    let ghost before = vocab@;
                    let w = words[i].clone();
                    insert_term(&mut vocab, w, next);
                    proof {
                        assert forall|u: Seq<char>| u != ws[i as int] implies #[trigger] term_id_of(vocab@, u) == term_id_of(before, u) by {
                            lemma_add_term(before, next as nat, w, u);
                        }
                        lemma_add_term(before, next as nat, w, ws[i as int]);
                    }
                    ids.push(next);
                    next = vocabulary_size(&vocab);
                    proof {
                        assert forall|k: String| #[trigger] vocab@.contains_key(k) implies exists|e: int, j: int|
                            0 <= e <= d && 0 <= j < words_of(corpus@[e]@).len() && (e < d || j < i + 1)
                            && #[trigger] words_of(corpus@[e]@)[j] == k@ by {
                            if k == w {
                                assert(words_of(corpus@[d as int]@)[i as int] == k@);
                            } else {
                                assert(before.contains_key(k));
                            }
                        }
                    }
                },
            }
            proof {
                let oc = dv.push(old_ids);
                let nc = dv.push(ids@);
                assert(ids@ == old_ids.push(ids@[i as int]));
                assert forall|j: int| 0 <= j < i + 1 implies #[trigger] ids@[j] < next by {
                    if j < i {
                        assert(ids@[j] == old_ids[j]);
                    }
                }
                assert forall|d2: int, i2: int, e: int, j: int|
                    0 <= d2 < corpus@.len() && 0 <= i2 < words_of(corpus@[d2]@).len() && precedes(d2, i2, d as int, i + 1)
                        && 0 <= e && 0 <= j < words_of(corpus@[e]@).len() && precedes(e, j, d2, i2)
                        && first_occurrence(corpus@, d2, i2)
                    implies #[trigger] nc[e][j] < #[trigger] nc[d2][i2] by {
                    if e < d {
                        assert(nc[e] == dv[e]);
                        assert(dv[e] == docs@[e]@);
                        assert(docs@[e]@[j] < old_next);
                    } else {
                        assert(nc[e] == ids@);
                        if j < i {
                            assert(ids@[j] == old_ids[j]);
                        }
                    }
                    if d2 == d && i2 == i {
                        assert(nc[d2][i2] == old_next);
                    } else {
                        assert(oc[e][j] < oc[d2][i2]);
                        if d2 < d {
                            assert(nc[d2] == oc[d2]);
                        } else {
                            assert(oc[d2][i2] == nc[d2][i2]);
                        }
                        if e < d {
                            assert(nc[e] == oc[e]);
                        } else {
                            assert(oc[e][j] == nc[e][j]);
                        }
                    }
                }
            }
            i = i + 1;
        }
        proof {
            assert forall|k: String| #[trigger] vocab@.contains_key(k) implies exists|e: int, j: int|
                0 <= e < d + 1 && 0 <= j < words_of(corpus@[e]@).len() && #[trigger] words_of(corpus@[e]@)[j] == k@ by {
                let (e, j) = choose|e: int, j: int| 0 <= e <= d && 0 <= j < words_of(corpus@[e]@).len() && (e < d || j < i)
                    && #[trigger] words_of(corpus@[e]@)[j] == k@;
                assert(words_of(corpus@[e]@)[j] == k@);
            }
            assert(words@.len() == ws.len());
        }
        let ghost dv0 = docs@.map_values(|v: Vec<usize>| v@);
        docs.push(ids);
        proof {
            let dv = docs@.map_values(|v: Vec<usize>| v@);
            assert(dv =~= dv0.push(ids@));
            assert forall|e: int, j: int| 0 <= e < d + 1 && 0 <= j < words_of(corpus@[e]@).len() implies #[trigger] docs@[e]@[j] < next by {
                if e < d {
                    assert(docs@[e]@ == dv0[e]);
                } else {
                    assert(docs@[e]@ == ids@);
                }
            }
        }
        d = d + 1;
    }
    (docs, vocab)
}

} // verus!
