//! 64-bit words in chunks of bits.
use vstd::arithmetic::div_mod::*;
use vstd::arithmetic::power2::*;
use vstd::bits::*;
use vstd::prelude::*;

verus! {

/// The number of bits of the chunks.
pub open spec fn total_bits(sizes: Seq<nat>) -> nat
    decreases sizes.len(),
{
    if sizes.len() == 0 {
        0
    } else {
        sizes[0] + total_bits(sizes.drop_first())
    }
}

/// The number that the chunks spell, the first one least significant.
pub open spec fn expand(chunks: Seq<int>, sizes: Seq<nat>) -> int
    decreases sizes.len(),
{
    if sizes.len() == 0 {
        0
    } else {
        chunks[0] + pow2(sizes[0]) * expand(chunks.drop_first(), sizes.drop_first())
    }
}

/// The chunks of a number, the first one least significant.
pub open spec fn split(x: int, sizes: Seq<nat>) -> Seq<int>
    decreases sizes.len(),
{
    if sizes.len() == 0 {
        Seq::empty()
    } else {
        seq![x % pow2(sizes[0]) as int] + split(x / pow2(sizes[0]) as int, sizes.drop_first())
    }
}

/// Each chunk has its size.
pub open spec fn chunks_fit(chunks: Seq<int>, sizes: Seq<nat>) -> bool {
    &&& chunks.len() == sizes.len()
    &&& forall|i: int| 0 <= i < sizes.len() ==> 0 <= #[trigger] chunks[i] < pow2(sizes[i])
}

proof fn lemma_fit_rest(chunks: Seq<int>, sizes: Seq<nat>)
    requires
        chunks_fit(chunks, sizes),
        sizes.len() > 0,
    ensures
        chunks_fit(chunks.drop_first(), sizes.drop_first()),
{
    let (c, s) = (chunks.drop_first(), sizes.drop_first());
    assert forall|i: int| 0 <= i < s.len() implies 0 <= #[trigger] c[i] < pow2(s[i]) by {
        assert(c[i] == chunks[i + 1]);
    }
}

pub proof fn lemma_split_fits(x: int, sizes: Seq<nat>)
    ensures
        chunks_fit(split(x, sizes), sizes),
    decreases sizes.len(),
{
    if sizes.len() > 0 {
        let p = pow2(sizes[0]) as int;
        lemma_pow2_pos(sizes[0]);
        lemma_split_fits(x / p, sizes.drop_first());
        lemma_mod_bound(x, p);
        let rest = split(x / p, sizes.drop_first());
        let all = split(x, sizes);
        assert forall|i: int| 0 <= i < sizes.len() implies 0 <= #[trigger] all[i] < pow2(
            sizes[i],
        ) by {
            if i > 0 {
                assert(all[i] == rest[i - 1]);
            }
        }
    }
}

/// Chunks of their size spell a number of the total size.
pub proof fn lemma_expand_bound(chunks: Seq<int>, sizes: Seq<nat>)
    requires
        chunks_fit(chunks, sizes),
    ensures
        0 <= expand(chunks, sizes) < pow2(total_bits(sizes)),
    decreases sizes.len(),
{
    lemma_pow2_pos(total_bits(sizes));
    if sizes.len() > 0 {
        lemma_fit_rest(chunks, sizes);
        lemma_expand_bound(chunks.drop_first(), sizes.drop_first());
        let p = pow2(sizes[0]) as int;
        let q = pow2(total_bits(sizes.drop_first())) as int;
        let e = expand(chunks.drop_first(), sizes.drop_first());
        lemma_pow2_adds(sizes[0], total_bits(sizes.drop_first()));
        assert(0 <= chunks[0] + p * e < p * q) by (nonlinear_arith)
            requires
                0 <= chunks[0] < p,
                0 <= e < q,
        ;
    } else {
        lemma2_to64();
    }
}

/// Splitting and spelling gives back a number of the total size.
pub proof fn lemma_expand_split(x: int, sizes: Seq<nat>)
    requires
        0 <= x < pow2(total_bits(sizes)),
    ensures
        expand(split(x, sizes), sizes) == x,
    decreases sizes.len(),
{
    if sizes.len() > 0 {
        let p = pow2(sizes[0]) as int;
        let q = pow2(total_bits(sizes.drop_first())) as int;
        lemma_pow2_pos(sizes[0]);
        lemma_pow2_adds(sizes[0], total_bits(sizes.drop_first()));
        lemma_fundamental_div_mod(x, p);
        lemma_mod_bound(x, p);
        assert(0 <= x / p < q) by (nonlinear_arith)
            requires
                x == p * (x / p) + x % p,
                0 <= x % p < p,
                0 <= x < p * q,
                p > 0,
        ;
        lemma_expand_split(x / p, sizes.drop_first());
        assert(split(x, sizes).drop_first() =~= split(x / p, sizes.drop_first()));
    } else {
        lemma2_to64();
    }
}

/// Spelling and splitting gives back the chunks.
pub proof fn lemma_split_expand(chunks: Seq<int>, sizes: Seq<nat>)
    requires
        chunks_fit(chunks, sizes),
    ensures
        split(expand(chunks, sizes), sizes) == chunks,
    decreases sizes.len(),
{
    if sizes.len() > 0 {
        let p = pow2(sizes[0]) as int;
        let e = expand(chunks.drop_first(), sizes.drop_first());
        lemma_pow2_pos(sizes[0]);
        lemma_fit_rest(chunks, sizes);
        lemma_split_expand(chunks.drop_first(), sizes.drop_first());
        assert(e * p == p * e) by (nonlinear_arith);
        lemma_fundamental_div_mod_converse(chunks[0] + p * e, p, e, chunks[0]);
    }
    assert(split(expand(chunks, sizes), sizes) =~= chunks);
}

/// The chunks of two lists one after the other.
pub proof fn lemma_expand_append(a: Seq<int>, s: Seq<nat>, b: Seq<int>, t: Seq<nat>)
    requires
        a.len() == s.len(),
    ensures
        expand(a + b, s + t) == expand(a, s) + pow2(total_bits(s)) * expand(b, t),
        total_bits(s + t) == total_bits(s) + total_bits(t),
    decreases s.len(),
{
    if s.len() == 0 {
        assert(a + b =~= b);
        assert(s + t =~= t);
        lemma2_to64();
        assert(1 * expand(b, t) == expand(b, t));
    } else {
        let (p, q) = (pow2(s[0]) as int, pow2(total_bits(s.drop_first())) as int);
        lemma_expand_append(a.drop_first(), s.drop_first(), b, t);
        assert((a + b).drop_first() =~= a.drop_first() + b);
        assert((s + t).drop_first() =~= s.drop_first() + t);
        lemma_pow2_adds(s[0], total_bits(s.drop_first()));
        let (e, f) = (expand(a.drop_first(), s.drop_first()), expand(b, t));
        assert(p * (e + q * f) == p * e + (p * q) * f) by (nonlinear_arith);
    }
}

/// Each chunk by itself.
pub proof fn lemma_split_index(x: int, sizes: Seq<nat>, k: int)
    requires
        0 <= x,
        0 <= k < sizes.len(),
    ensures
        split(x, sizes).len() == sizes.len(),
        split(x, sizes)[k] == (x / pow2(total_bits(sizes.take(k))) as int) % pow2(sizes[k]) as int,
    decreases sizes.len(),
{
    lemma_split_fits(x, sizes);
    let p = pow2(sizes[0]) as int;
    lemma_pow2_pos(sizes[0]);
    if k == 0 {
        assert(sizes.take(0) =~= Seq::<nat>::empty());
        lemma2_to64();
        assert(x / 1 == x);
    } else {
        lemma_div_pos_is_pos(x, p);
        lemma_split_index(x / p, sizes.drop_first(), k - 1);
        let r = total_bits(sizes.drop_first().take(k - 1));
        assert(sizes.take(k).drop_first() =~= sizes.drop_first().take(k - 1));
        lemma_pow2_adds(sizes[0], r);
        lemma_pow2_pos(r);
        lemma_div_denominator(x, p, pow2(r) as int);
    }
}

/// Eight chunks of eight bits.
pub open spec fn byte_sizes() -> Seq<nat> {
    Seq::new(8, |i: int| 8nat)
}

proof fn lemma_repeat_total(n: nat, size: nat)
    ensures
        total_bits(Seq::new(n, |i: int| size)) == n * size,
    decreases n,
{
    let s = Seq::new(n, |i: int| size);
    if n > 0 {
        lemma_repeat_total((n - 1) as nat, size);
        assert(s.drop_first() =~= Seq::new((n - 1) as nat, |i: int| size));
        assert(n * size == size + (n - 1) * size) by (nonlinear_arith);
    } else {
        assert(0 * size == 0);
    }
}

pub proof fn lemma_byte_sizes()
    ensures
        total_bits(byte_sizes()) == 64,
        forall|k: int| 0 <= k <= 8 ==> total_bits(#[trigger] byte_sizes().take(k)) == 8 * k,
{
    lemma_repeat_total(8, 8);
    assert forall|k: int| 0 <= k <= 8 implies total_bits(#[trigger] byte_sizes().take(k)) == 8
        * k by {
        lemma_repeat_total(k as nat, 8);
        assert(byte_sizes().take(k) =~= Seq::new(k as nat, |i: int| 8nat));
    }
}

/// The bytes of a word, the first one least significant.
pub open spec fn bytes(w: u64) -> Seq<int> {
    split(w as int, byte_sizes())
}

/// The word that eight bytes spell.
pub open spec fn word(b: Seq<int>) -> int {
    expand(b, byte_sizes())
}

/// A byte by itself.
pub proof fn lemma_byte(w: u64, k: int)
    requires
        0 <= k < 8,
    ensures
        bytes(w).len() == 8,
        bytes(w)[k] == (w >> ((8 * k) as u64)) & 255,
        0 <= bytes(w)[k] < 256,
{
    lemma_byte_sizes();
    lemma_split_index(w as int, byte_sizes(), k);
    lemma2_to64();
    let s = (8 * k) as u64;
    lemma_u64_shr_is_div(w, s);
    let v = w >> s;
    assert(v & 255 == v % 256) by (bit_vector);
    lemma_mod_bound(v as int, 256);
}

pub proof fn lemma_word_bytes(w: u64)
    ensures
        word(bytes(w)) == w,
        chunks_fit(bytes(w), byte_sizes()),
{
    lemma_byte_sizes();
    lemma2_to64_rest();
    lemma_expand_split(w as int, byte_sizes());
    lemma_split_fits(w as int, byte_sizes());
}

/// Bytes spell a word whose bytes they are.
pub proof fn lemma_bytes_word(b: Seq<int>)
    requires
        chunks_fit(b, byte_sizes()),
    ensures
        0 <= word(b) <= u64::MAX,
        bytes(word(b) as u64) == b,
{
    lemma_byte_sizes();
    lemma2_to64_rest();
    lemma_expand_bound(b, byte_sizes());
    lemma_split_expand(b, byte_sizes());
}

/// The entries of the table of exclusive disjunctions of bytes.
pub open spec fn xor8(a: int, b: int, c: int) -> bool {
    0 <= a < 256 && 0 <= b < 256 && c == (a as u64) ^ (b as u64)
}

/// The entries of the table of conjunctions of bytes.
pub open spec fn and8(a: int, b: int, c: int) -> bool {
    0 <= a < 256 && 0 <= b < 256 && c == (a as u64) & (b as u64)
}

pub proof fn lemma_byte_ops(a: u64, b: u64)
    ensures
        forall|k: int|
            0 <= k < 8 ==> xor8(#[trigger] bytes(a)[k], bytes(b)[k], bytes(a ^ b)[k]),
        forall|k: int|
            0 <= k < 8 ==> and8(255 - #[trigger] bytes(a)[k], bytes(b)[k], bytes(!a & b)[k]),
{
    assert forall|k: int| 0 <= k < 8 implies xor8(
        #[trigger] bytes(a)[k],
        bytes(b)[k],
        bytes(a ^ b)[k],
    ) && and8(255 - bytes(a)[k], bytes(b)[k], bytes(!a & b)[k]) by {
        lemma_byte(a, k);
        lemma_byte(b, k);
        lemma_byte(a ^ b, k);
        lemma_byte(!a & b, k);
        let s = (8 * k) as u64;
        assert(((a ^ b) >> s) & 255 == ((a >> s) & 255) ^ ((b >> s) & 255)) by (bit_vector);
        let (x, y) = (a >> s, b >> s);
        assert((!a & b) >> s & 255 == (!x & y) & 255) by (bit_vector)
            requires
                x == a >> s,
                y == b >> s,
        ;
        assert((!x & y) & 255 == ((255 - (x & 255)) as u64) & (y & 255)) by (bit_vector);
    }
}

/// Bytes related by the table spell words related by the operation.
pub proof fn lemma_xor_words(a: Seq<int>, b: Seq<int>, c: Seq<int>)
    requires
        a.len() == 8,
        b.len() == 8,
        c.len() == 8,
        forall|k: int| 0 <= k < 8 ==> xor8(#[trigger] a[k], b[k], c[k]),
    ensures
        chunks_fit(a, byte_sizes()),
        chunks_fit(b, byte_sizes()),
        chunks_fit(c, byte_sizes()),
        word(c) == (word(a) as u64) ^ (word(b) as u64),
{
    lemma2_to64();
    assert forall|k: int| 0 <= k < 8 implies 0 <= #[trigger] c[k] < 256 by {
        let (x, y) = (a[k] as u64, b[k] as u64);
        assert(xor8(a[k], b[k], c[k]));
        assert(x < 256 && y < 256 ==> x ^ y < 256) by (bit_vector);
    }
    assert forall|k: int| 0 <= k < 8 implies 0 <= #[trigger] b[k] < 256 by {
        assert(xor8(a[k], b[k], c[k]));
    }
    lemma_bytes_word(a);
    lemma_bytes_word(b);
    let (x, y) = (word(a) as u64, word(b) as u64);
    lemma_byte_ops(x, y);
    lemma_word_bytes(x ^ y);
    assert(bytes(x ^ y) =~= c) by {
        assert forall|k: int| 0 <= k < 8 implies bytes(x ^ y)[k] == c[k] by {
            assert(xor8(bytes(x)[k], bytes(y)[k], bytes(x ^ y)[k]));
            assert(xor8(a[k], b[k], c[k]));
        }
    }
}

/// The same for the conjunction with a complement.
pub proof fn lemma_and_not_words(a: Seq<int>, b: Seq<int>, c: Seq<int>)
    requires
        a.len() == 8,
        b.len() == 8,
        c.len() == 8,
        forall|k: int| 0 <= k < 8 ==> and8(255 - #[trigger] a[k], b[k], c[k]),
    ensures
        chunks_fit(a, byte_sizes()),
        chunks_fit(b, byte_sizes()),
        chunks_fit(c, byte_sizes()),
        word(c) == !(word(a) as u64) & (word(b) as u64),
{
    lemma2_to64();
    assert forall|k: int| 0 <= k < 8 implies 0 <= #[trigger] c[k] < 256 by {
        let (x, y) = ((255 - a[k]) as u64, b[k] as u64);
        assert(and8(255 - a[k], b[k], c[k]));
        assert(x < 256 && y < 256 ==> x & y < 256) by (bit_vector);
    }
    assert forall|k: int| 0 <= k < 8 implies 0 <= #[trigger] b[k] < 256 by {
        assert(and8(255 - a[k], b[k], c[k]));
    }
    lemma_bytes_word(a);
    lemma_bytes_word(b);
    let (x, y) = (word(a) as u64, word(b) as u64);
    lemma_byte_ops(x, y);
    lemma_word_bytes(!x & y);
    assert(bytes(!x & y) =~= c) by {
        assert forall|k: int| 0 <= k < 8 implies bytes(!x & y)[k] == c[k] by {
            assert(and8(255 - bytes(x)[k], bytes(y)[k], bytes(!x & y)[k]));
            assert(and8(255 - a[k], b[k], c[k]));
        }
    }
}

/// The word rotated to the left.
pub open spec fn rotl(w: u64, delta: nat) -> u64
    recommends
        delta < 64,
{
    let p = pow2((64 - delta) as nat) as int;
    ((w as int % p) * pow2(delta) + w as int / p) as u64
}

/// The rotation puts the upper bits below the others.
pub proof fn lemma_rotl(low: int, high: int, delta: nat)
    requires
        delta < 64,
        0 <= low < pow2((64 - delta) as nat),
        0 <= high < pow2(delta),
    ensures
        0 <= low + pow2((64 - delta) as nat) * high <= u64::MAX,
        0 <= high + pow2(delta) * low <= u64::MAX,
        rotl((low + pow2((64 - delta) as nat) * high) as u64, delta) == high + pow2(delta) * low,
{
    let (p, q) = (pow2((64 - delta) as nat) as int, pow2(delta) as int);
    lemma2_to64_rest();
    lemma_pow2_adds((64 - delta) as nat, delta);
    assert(0 <= low + p * high < p * q && 0 <= high + q * low < p * q) by (nonlinear_arith)
        requires
            0 <= low < p,
            0 <= high < q,
    ;
    assert(high * p == p * high && low * q == q * low) by (nonlinear_arith);
    lemma_fundamental_div_mod_converse(low + p * high, p, high, low);
}

/// Every word is such a sum.
pub proof fn lemma_rotl_parts(w: u64, delta: nat)
    requires
        delta < 64,
    ensures
        0 <= (w as int % pow2((64 - delta) as nat) as int) < pow2((64 - delta) as nat),
        0 <= (w as int / pow2((64 - delta) as nat) as int) < pow2(delta),
        w == w as int % pow2((64 - delta) as nat) as int + pow2((64 - delta) as nat) * (w as int
            / pow2((64 - delta) as nat) as int),
        rotl(w, delta) == w as int / pow2((64 - delta) as nat) as int + pow2(delta) * (w as int
            % pow2((64 - delta) as nat) as int),
{
    let (p, q) = (pow2((64 - delta) as nat) as int, pow2(delta) as int);
    lemma_pow2_pos((64 - delta) as nat);
    lemma2_to64_rest();
    lemma_pow2_adds((64 - delta) as nat, delta);
    lemma_fundamental_div_mod(w as int, p);
    lemma_mod_bound(w as int, p);
    assert(0 <= (w as int / p) < q) by (nonlinear_arith)
        requires
            w == p * (w as int / p) + w as int % p,
            0 <= (w as int % p) < p,
            0 <= w < p * q,
            p > 0,
    ;
    lemma_rotl(w as int % p, w as int / p, delta);
}

/// Two to the given power.
pub fn two_to(e: usize) -> (r: u64)
    requires
        e < 64,
    ensures
        r == pow2(e as nat),
{
    proof {
        lemma2_to64();
    }
    let mut r: u64 = 1;
    let mut i: usize = 0;
    while i < e
        invariant
            i <= e,
            e < 64,
            r == pow2(i as nat),
        decreases e - i,
    {
        proof {
            lemma_pow2_adds(1, i as nat);
            lemma2_to64();
            lemma2_to64_rest();
            lemma_pow2_adds((i + 1) as nat, (63 - i) as nat);
            lemma_pow2_pos((63 - i) as nat);
            let (a, b) = (pow2((i + 1) as nat) as int, pow2((63 - i) as nat) as int);
            assert(a <= a * b) by (nonlinear_arith)
                requires
                    a >= 0,
                    b >= 1,
            ;
            if i + 1 < 64 {
                lemma_pow2_strictly_increases((i + 1) as nat, 64);
            }
        }
        r = 2 * r;
        i = i + 1;
    }
    r
}

/// Rotates a word to the left.
pub fn rotate_left(w: u64, delta: usize) -> (r: u64)
    requires
        delta < 64,
    ensures
        r == rotl(w, delta as nat),
{
    if delta == 0 {
        proof {
            lemma_rotl_parts(w, 0);
            lemma2_to64();
            lemma2_to64_rest();
            assert(w as int / pow2(64) as int == 0) by {
                lemma_basic_div(w as int, pow2(64) as int);
            }
            assert(1 * (w as int % pow2(64) as int) == w as int % pow2(64) as int);
            lemma_small_mod(w as nat, pow2(64));
        }
        return w;
    }
    let p: u64 = two_to(64 - delta);
    let q: u64 = two_to(delta);
    proof {
        lemma_rotl_parts(w, delta as nat);
        lemma_pow2_pos((64 - delta) as nat);
        let a = w as int % p as int;
        assert(a * q == q * a) by (nonlinear_arith);
    }
    (w % p) * q + w / p
}

/// The sizes of the chunks as numbers.
pub open spec fn sizes_of(sizes: Seq<usize>) -> Seq<nat> {
    sizes.map_values(|s: usize| s as nat)
}

/// Splits a word.
pub fn split_word(w: u64, sizes: &Vec<usize>) -> (r: Vec<u64>)
    requires
        forall|i: int| 0 <= i < sizes@.len() ==> #[trigger] sizes@[i] < 64,
    ensures
        r@.map_values(|v: u64| v as int) == split(w as int, sizes_of(sizes@)),
{
    let mut r: Vec<u64> = Vec::with_capacity(sizes.len());
    let mut rest: u64 = w;
    let mut i: usize = 0;
    let ghost all = sizes_of(sizes@);
    proof {
        assert(all.skip(0) =~= all);
        assert(r@.map_values(|v: u64| v as int) + split(rest as int, all.skip(0)) =~= split(
            w as int,
            all,
        ));
    }
    while i < sizes.len()
        invariant
            i <= sizes@.len(),
            all == sizes_of(sizes@),
            forall|i: int| 0 <= i < sizes@.len() ==> #[trigger] sizes@[i] < 64,
            r@.map_values(|v: u64| v as int) + split(rest as int, all.skip(i as int)) == split(
                w as int,
                all,
            ),
        decreases sizes@.len() - i,
    {
        let p: u64 = two_to(sizes[i]);
        let ghost before = r@.map_values(|v: u64| v as int);
        let ghost tail = all.skip(i as int);
        proof {
            lemma_pow2_pos(sizes@[i as int] as nat);
            assert(tail[0] == sizes@[i as int] as nat);
            assert(tail.drop_first() =~= all.skip(i + 1));
        }
        r.push(rest % p);
        proof {
            assert(r@.map_values(|v: u64| v as int) =~= before.push(rest as int % p as int));
            assert(before + split(rest as int, tail) =~= before.push(rest as int % p as int)
                + split(rest as int / p as int, all.skip(i + 1)));
        }
        rest = rest / p;
        i = i + 1;
    }
    proof {
        assert(all.skip(sizes@.len() as int) =~= Seq::<nat>::empty());
        assert(r@.map_values(|v: u64| v as int) =~= split(w as int, all));
    }
    r
}

} // verus!
