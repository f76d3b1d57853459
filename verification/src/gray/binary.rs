//! The binary reflected Gray code.

use vstd::prelude::*;
use vstd::arithmetic::power2::{lemma_pow2_unfold, pow2};
use crate::sequences::rows;

verus! {

/// The codeword `c` with the bit `b` put in front.
pub open spec fn with_bit(b: u8, c: Seq<u8>) -> Seq<u8> {
    seq![b] + c
}

/// The binary reflected Gray code of `n` bits: the code of `n - 1` bits
/// with 0 in front of each word, then the same code in reverse with 1 in
/// front of each word.
pub open spec fn reflected_gray(n: nat) -> Seq<Seq<u8>>
    decreases n,
{
    if n == 0 {
        seq![Seq::empty()]
    } else {
        let prev = reflected_gray((n - 1) as nat);
        Seq::new(
            2 * prev.len(),
            |k: int|
                if k < prev.len() {
                    with_bit(0, prev[k])
                } else {
                    with_bit(1, prev[2 * prev.len() - 1 - k])
                },
        )
    }
}

/// The words `a` and `b` have one length and differ at exactly one place.
pub open spec fn differ_in_one_bit(a: Seq<u8>, b: Seq<u8>) -> bool {
    &&& a.len() == b.len()
    &&& exists|i: int|
        0 <= i < a.len() && #[trigger] a[i] != b[i] && forall|j: int|
            0 <= j < a.len() && j != i ==> a[j] == b[j]
}

proof fn lemma_with_bit_differ(b: u8, x: Seq<u8>, y: Seq<u8>)
    requires
        differ_in_one_bit(x, y),
    ensures
        differ_in_one_bit(with_bit(b, x), with_bit(b, y)),
        differ_in_one_bit(with_bit(b, y), with_bit(b, x)),
{
    let i = choose|i: int|
        0 <= i < x.len() && #[trigger] x[i] != y[i] && forall|j: int|
            0 <= j < x.len() && j != i ==> x[j] == y[j];
    let p = with_bit(b, x);
    let q = with_bit(b, y);
    assert(p[i + 1] != q[i + 1]);
    assert forall|j: int| 0 <= j < p.len() && j != i + 1 implies p[j] == q[j] by {
        if j > 0 {
            assert(x[j - 1] == y[j - 1]);
        }
    }
    assert(q[i + 1] != p[i + 1]);
}

proof fn lemma_flip_first(x: Seq<u8>)
    ensures
        differ_in_one_bit(with_bit(0, x), with_bit(1, x)),
        differ_in_one_bit(with_bit(1, x), with_bit(0, x)),
{
    let p = with_bit(0, x);
    let q = with_bit(1, x);
    assert(p[0] != q[0]);
    assert(q[0] != p[0]);
}

/// The binary reflected Gray code of `n` bits has 2^n words of `n` bits;
/// each word differs from the next in exactly one bit, and for `n >= 1` so
/// does the last word from the first.
pub proof fn lemma_reflected_gray_minimal_change(n: nat)
    ensures
        reflected_gray(n).len() == pow2(n),
        forall|k: int| 0 <= k < reflected_gray(n).len() ==> (#[trigger] reflected_gray(n)[k]).len() == n,
        forall|k: int|
            0 <= k < reflected_gray(n).len() - 1 ==> differ_in_one_bit(
                #[trigger] reflected_gray(n)[k],
                reflected_gray(n)[k + 1],
            ),
        n >= 1 ==> differ_in_one_bit(
            reflected_gray(n)[reflected_gray(n).len() - 1],
            reflected_gray(n)[0],
        ),
    decreases n,
{
    let g = reflected_gray(n);
    if n == 0 {
        assert(pow2(0) == 1) by {
            vstd::arithmetic::power2::lemma2_to64();
        }
    } else {
        let prev = reflected_gray((n - 1) as nat);
        let m = prev.len() as int;
        lemma_reflected_gray_minimal_change((n - 1) as nat);
        lemma_pow2_unfold(n);
        assert(m >= 1) by {
            vstd::arithmetic::power2::lemma_pow2_pos((n - 1) as nat);
        }
        assert forall|k: int| 0 <= k < g.len() - 1 implies differ_in_one_bit(
            #[trigger] g[k],
            g[k + 1],
        ) by {
            if k + 1 < m {
                lemma_with_bit_differ(0, prev[k], prev[k + 1]);
            } else if k + 1 == m {
                lemma_flip_first(prev[m - 1]);
            } else {
                lemma_with_bit_differ(1, prev[2 * m - 2 - k], prev[2 * m - 1 - k]);
            }
        }
        lemma_flip_first(prev[0]);
    }
}

/// A word of `n` bits.
pub open spec fn is_word(w: Seq<u8>, n: nat) -> bool {
    w.len() == n && forall|i: int| 0 <= i < w.len() ==> (#[trigger] w[i]) <= 1
}

/// No word stands twice in the binary reflected Gray code.
pub proof fn lemma_reflected_gray_distinct(n: nat)
    ensures
        reflected_gray(n).no_duplicates(),
    decreases n,
{
    let g = reflected_gray(n);
    if n > 0 {
        let prev = reflected_gray((n - 1) as nat);
        let m = prev.len() as int;
        lemma_reflected_gray_distinct((n - 1) as nat);
        assert forall|j: int, k: int| 0 <= j < k < g.len() implies g[j] != g[k] by {
            let a = if j < m {
                j
            } else {
                2 * m - 1 - j
            };
            let b = if k < m {
                k
            } else {
                2 * m - 1 - k
            };
            assert(g[j].skip(1) =~= prev[a]);
            assert(g[k].skip(1) =~= prev[b]);
            if (j < m) != (k < m) {
                assert(g[j][0] != g[k][0]);
            } else {
                assert(prev[a] != prev[b]);
            }
        }
    }
}

/// The binary reflected Gray code of `n` bits holds exactly the words of
/// `n` bits.
pub proof fn lemma_reflected_gray_words(n: nat, w: Seq<u8>)
    ensures
        reflected_gray(n).contains(w) <==> is_word(w, n),
    decreases n,
{
    let g = reflected_gray(n);
    if n == 0 {
        assert(g[0] == Seq::<u8>::empty());
        if is_word(w, n) {
            assert(w =~= Seq::<u8>::empty());
        }
    } else {
        let prev = reflected_gray((n - 1) as nat);
        let m = prev.len() as int;
        if g.contains(w) {
            let k = choose|k: int| 0 <= k < g.len() && g[k] == w;
            let src = if k < m {
                prev[k]
            } else {
                prev[2 * m - 1 - k]
            };
            lemma_reflected_gray_words((n - 1) as nat, src);
            assert(prev.contains(src));
            assert forall|i: int| 0 <= i < w.len() implies (#[trigger] w[i]) <= 1 by {
                if i > 0 {
                    assert(w[i] == src[i - 1]);
                }
            }
        }
        if is_word(w, n) {
            let rest = w.skip(1);
            assert(is_word(rest, (n - 1) as nat)) by {
                assert forall|i: int| 0 <= i < rest.len() implies (#[trigger] rest[i]) <= 1 by {
                    assert(rest[i] == w[i + 1]);
                }
            }
            lemma_reflected_gray_words((n - 1) as nat, rest);
            let j = choose|j: int| 0 <= j < prev.len() && prev[j] == rest;
            assert(w[0] <= 1);
            if w[0] == 0 {
                assert(g[j] =~= w);
            } else {
                assert(g[2 * m - 1 - j] =~= w);
            }
        }
    }
}

/// The codeword `code` with `bit` put in front.
fn prefixed(bit: u8, code: &Vec<u8>) -> (res: Vec<u8>)
    ensures
        res@ == with_bit(bit, code@),
{
    let mut res: Vec<u8> = Vec::new();
    res.push(bit);
    let mut i: usize = 0;
    while i < code.len()
        invariant
            i <= code.len(),
            res@ == with_bit(bit, code@.take(i as int)),
        decreases code.len() - i,
    {
        res.push(code[i]);
        i += 1;
        assert(res@ =~= with_bit(bit, code@.take(i as int)));
    }
    assert(code@.take(i as int) =~= code@);
    res
}

/// Produce the binary reflected Gray code sequence for `n` bits.
pub fn binary_reflected_gray(n: usize) -> (out: Vec<Vec<u8>>)
    ensures
        rows(out@) == reflected_gray(n as nat),
        out.len() == pow2(n as nat),
        forall|k: int| 0 <= k < out.len() ==> (#[trigger] out[k])@.len() == n,
        forall|k: int|
            0 <= k < out.len() - 1 ==> differ_in_one_bit((#[trigger] out[k])@, out[k + 1]@),
        n >= 1 ==> differ_in_one_bit(out[out.len() - 1]@, out[0]@),
        forall|w: Seq<u8>| #[trigger] rows(out@).contains(w) <==> is_word(w, n as nat),
        rows(out@).no_duplicates(),
    decreases n,
{
    proof {
        lemma_reflected_gray_distinct(n as nat);
        assert forall|w: Seq<u8>| #[trigger]
            reflected_gray(n as nat).contains(w) <==> is_word(w, n as nat) by {
            lemma_reflected_gray_words(n as nat, w);
        }
        lemma_reflected_gray_minimal_change(n as nat);
        let g = reflected_gray(n as nat);
        assert forall|k: int| 0 <= k < g.len() - 1 implies differ_in_one_bit(
            #[trigger] g[k],
            g[k + 1],
        ) by {}
        vstd::arithmetic::power2::lemma_pow2_pos(n as nat);
    }
    let mut out: Vec<Vec<u8>> = Vec::new();
    if n == 0 {
        out.push(Vec::new());
        assert(rows(out@) =~= reflected_gray(0));
        return out;
    }
    let prev = binary_reflected_gray(n - 1);
    let ghost p = reflected_gray((n - 1) as nat);
    let ghost g = reflected_gray(n as nat);
    let mut i: usize = 0;
    while i < prev.len()
        invariant
            i <= prev.len(),
            rows(prev@) == p,
            g.len() == 2 * p.len(),
            g == reflected_gray(n as nat),
            p == reflected_gray((n - 1) as nat),
            n >= 1,
            out.len() == i,
            forall|k: int| 0 <= k < i ==> (#[trigger] out[k])@ == g[k],
        decreases prev.len() - i,
    {
        let with_zero = prefixed(0, &prev[i]);
        assert(p[i as int] == prev[i as int]@);
        out.push(with_zero);
        i += 1;
    }
    let mut j: usize = prev.len();
    while j > 0
        invariant
            j <= prev.len(),
            rows(prev@) == p,
            g.len() == 2 * p.len(),
            g == reflected_gray(n as nat),
            p == reflected_gray((n - 1) as nat),
            n >= 1,
            out.len() == 2 * prev.len() - j,
            forall|k: int| 0 <= k < out.len() ==> (#[trigger] out[k])@ == g[k],
        decreases j,
    {
        j -= 1;
        let with_one = prefixed(1, &prev[j]);
        assert(p[j as int] == prev[j as int]@);
        out.push(with_one);
    }
    assert(rows(out@) =~= g);
    out
}

} // verus!
