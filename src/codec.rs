use vstd::prelude::*;

verus! {

/// The eight bytes of a word, least significant first.
pub open spec fn le_bytes(w: u64) -> Seq<u8> {
    seq![
        w as u8,
        (w >> 8u64) as u8,
        (w >> 16u64) as u8,
        (w >> 24u64) as u8,
        (w >> 32u64) as u8,
        (w >> 40u64) as u8,
        (w >> 48u64) as u8,
        (w >> 56u64) as u8,
    ]
}

/// The bytes of a word sequence: each word as eight little-endian bytes.
pub open spec fn bytes_of_words(ws: Seq<u64>) -> Seq<u8>
    decreases ws.len(),
{
    if ws.len() == 0 {
        Seq::empty()
    } else {
        bytes_of_words(ws.drop_last()) + le_bytes(ws.last())
    }
}

pub proof fn lemma_bytes_len(ws: Seq<u64>)
    ensures
        bytes_of_words(ws).len() == 8 * ws.len(),
    decreases ws.len(),
{
    if ws.len() > 0 {
        lemma_bytes_len(ws.drop_last());
    }
}

proof fn lemma_le_bytes_injective(v: u64, w: u64)
    requires
        le_bytes(v) == le_bytes(w),
    ensures
        v == w,
{
    assert(le_bytes(v)[0] == le_bytes(w)[0]);
    assert(le_bytes(v)[1] == le_bytes(w)[1]);
    assert(le_bytes(v)[2] == le_bytes(w)[2]);
    assert(le_bytes(v)[3] == le_bytes(w)[3]);
    assert(le_bytes(v)[4] == le_bytes(w)[4]);
    assert(le_bytes(v)[5] == le_bytes(w)[5]);
    assert(le_bytes(v)[6] == le_bytes(w)[6]);
    assert(le_bytes(v)[7] == le_bytes(w)[7]);
    assert(v == w) by (bit_vector)
        requires
            v as u8 == w as u8,
            (v >> 8u64) as u8 == (w >> 8u64) as u8,
            (v >> 16u64) as u8 == (w >> 16u64) as u8,
            (v >> 24u64) as u8 == (w >> 24u64) as u8,
            (v >> 32u64) as u8 == (w >> 32u64) as u8,
            (v >> 40u64) as u8 == (w >> 40u64) as u8,
            (v >> 48u64) as u8 == (w >> 48u64) as u8,
            (v >> 56u64) as u8 == (w >> 56u64) as u8,
    ;
}

/// Distinct word sequences have distinct bytes.
pub proof fn lemma_bytes_injective(a: Seq<u64>, b: Seq<u64>)
    requires
        bytes_of_words(a) == bytes_of_words(b),
    ensures
        a == b,
    decreases a.len(),
{
    lemma_bytes_len(a);
    lemma_bytes_len(b);
    if a.len() > 0 {
        let n = 8 * (a.len() - 1);
        lemma_bytes_len(a.drop_last());
        lemma_bytes_len(b.drop_last());
        assert(bytes_of_words(a).subrange(0, n) =~= bytes_of_words(a.drop_last()));
        assert(bytes_of_words(b).subrange(0, n) =~= bytes_of_words(b.drop_last()));
        assert(bytes_of_words(a).subrange(n, n + 8) =~= le_bytes(a.last()));
        assert(bytes_of_words(b).subrange(n, n + 8) =~= le_bytes(b.last()));
        lemma_bytes_injective(a.drop_last(), b.drop_last());
        lemma_le_bytes_injective(a.last(), b.last());
        assert(a =~= a.drop_last().push(a.last()));
        assert(b =~= b.drop_last().push(b.last()));
    } else {
        assert(b.len() == 0);
        assert(a =~= b);
    }
}

/// Writes each word as eight little-endian bytes.
pub fn words_to_bytes(ws: &Vec<u64>) -> (r: Vec<u8>)
    ensures
        r@ == bytes_of_words(ws@),
{
    let mut out: Vec<u8> = Vec::new();
    let mut i: usize = 0;
    while i < ws.len()
        invariant
            i <= ws@.len(),
            out@ == bytes_of_words(ws@.take(i as int)),
        decreases ws@.len() - i,
    {
        let w = ws[i];
        let ghost before = out@;
        out.push(w as u8);
        out.push((w >> 8u64) as u8);
        out.push((w >> 16u64) as u8);
        out.push((w >> 24u64) as u8);
        out.push((w >> 32u64) as u8);
        out.push((w >> 40u64) as u8);
        out.push((w >> 48u64) as u8);
        out.push((w >> 56u64) as u8);
        proof {
            assert(ws@.take(i + 1).drop_last() =~= ws@.take(i as int));
            assert(out@ =~= before + le_bytes(w));
        }
        i = i + 1;
    }
    assert(ws@.take(ws@.len() as int) =~= ws@);
    out
}

/// Reads a byte stream as little-endian words; `None` when its length is not
/// a multiple of eight.
pub fn bytes_to_words(bytes: &Vec<u8>) -> (r: Option<Vec<u64>>)
    ensures
        r matches Some(ws) ==> bytes_of_words(ws@) == bytes@,
        r is None <==> bytes@.len() % 8 != 0,
{
    if bytes.len() % 8 != 0 {
        proof {
            assert forall|ws: Seq<u64>| bytes_of_words(ws) != bytes@ by {
                lemma_bytes_len(ws);
            }
        }
        return None;
    }
    let len = bytes.len();
    let n = len / 8;
    let mut out: Vec<u64> = Vec::new();
    let mut i: usize = 0;
    while i < n
        invariant
            len == bytes@.len(),
            n == bytes@.len() / 8,
            bytes@.len() % 8 == 0,
            i <= n,
            out@.len() == i,
            bytes_of_words(out@) == bytes@.take(8 * i),
        decreases n - i,
    {
        assert(8 * (i as int) + 8 <= bytes@.len()) by (nonlinear_arith)
            requires
                i < n,
                n == bytes@.len() / 8,
                bytes@.len() % 8 == 0,
        ;
        let k = 8 * i;
        let b0 = bytes[k];
        let b1 = bytes[k + 1];
        let b2 = bytes[k + 2];
        let b3 = bytes[k + 3];
        let b4 = bytes[k + 4];
        let b5 = bytes[k + 5];
        let b6 = bytes[k + 6];
        let b7 = bytes[k + 7];
        let w: u64 = (b0 as u64) | ((b1 as u64) << 8u64) | ((b2 as u64) << 16u64) | ((b3 as u64) << 24u64)
            | ((b4 as u64) << 32u64) | ((b5 as u64) << 40u64) | ((b6 as u64) << 48u64) | ((b7 as u64) << 56u64);
        assert(w as u8 == b0 && (w >> 8u64) as u8 == b1 && (w >> 16u64) as u8 == b2 && (w >> 24u64) as u8 == b3
            && (w >> 32u64) as u8 == b4 && (w >> 40u64) as u8 == b5 && (w >> 48u64) as u8 == b6
            && (w >> 56u64) as u8 == b7) by (bit_vector)
            requires
                w == (b0 as u64) | ((b1 as u64) << 8u64) | ((b2 as u64) << 16u64) | ((b3 as u64) << 24u64)
                    | ((b4 as u64) << 32u64) | ((b5 as u64) << 40u64) | ((b6 as u64) << 48u64) | ((b7 as u64) << 56u64),
        ;
        let ghost before = out@;
        out.push(w);
        proof {
            assert(out@.drop_last() =~= before);
            assert(bytes@.take(8 * (i + 1)) =~= bytes@.take(8 * i) + le_bytes(w));
        }
        i = i + 1;
    }
    assert(bytes@.take(8 * n) =~= bytes@);
    Some(out)
}

} // verus!
