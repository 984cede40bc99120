//! Construction of tower witnesses from multilinear extensions.
use vstd::arithmetic::div_mod::*;
use vstd::arithmetic::power2::*;
use vstd::prelude::*;

use crate::field::{e_one, group_field, Ext, GoldilocksExt2};
use crate::mle::{chunk, ext_seq, lemma_chunk_bounds, FieldType, IntoMLE, MultilinearExtension};
use crate::multilinear::e_prod;

use crate::tower::{column, product_layer_above, FracLayer};
use crate::util::{
    ceil_log2, is_pow2, lemma_ceil_log2, lemma_ceil_log2_pow2, lemma_pow2_monotone, pow2_usize,
    spec_ceil_log2, spec_next_power_of_two,
};
use crate::witness::{
    lemma_padding_is_pow2, next_pow2_instance_padding, spec_next_pow2_instance_padding,
};

verus! {

broadcast use group_field;

/// The table with every entry from `num_instance` on replaced by `default`.
pub open spec fn masked(s: Seq<Ext>, num_instance: int, default: Ext) -> Seq<Ext> {
    Seq::new(
        s.len(),
        |i: int|
            if i < num_instance {
                s[i]
            } else {
                default
            },
    )
}

/// Replaces the entries from `num_instance` on by `default` and splits the table into
/// `num_chunks` parts, over the extension.
pub fn masked_mle_split_to_chunks(
    mle: &MultilinearExtension,
    num_instance: usize,
    num_chunks: usize,
    default: GoldilocksExt2,
) -> (r: Vec<MultilinearExtension<'static>>)
    requires
        is_pow2(num_chunks as int),
        num_instance <= mle@.len(),
        !(mle.evaluations is Unreachable),
        is_pow2(mle@.len() as int / num_chunks as int),
    ensures
        r@.len() == num_chunks,
        forall|c: int|
            0 <= c < num_chunks ==> {
                &&& (#[trigger] r@[c]).wf()
                &&& r@[c].is_ext()
                &&& r@[c]@ == crate::mle::chunk(
                    masked(mle@, num_instance as int, default@),
                    num_chunks as int,
                    c,
                )
            },
{
    let len: usize = mle.evaluations.len();
    proof {
        lemma_pow2_positive(num_chunks as int);
    }
    let n: usize = len / num_chunks;
    let ghost all = masked(mle@, num_instance as int, default@);
    let mut out: Vec<MultilinearExtension<'static>> = Vec::with_capacity(num_chunks);
    let mut c: usize = 0;
    while c < num_chunks
        invariant
            c <= num_chunks,
            len == mle@.len(),
            n == len / num_chunks,
            num_instance <= len,
            is_pow2(n as int),
            all == masked(mle@, num_instance as int, default@),
            out@.len() == c,
            forall|k: int|
                0 <= k < c ==> {
                    &&& (#[trigger] out@[k]).wf()
                    &&& out@[k].is_ext()
                    &&& out@[k]@ == crate::mle::chunk(all, num_chunks as int, k)
                },
        decreases num_chunks - c,
    {
        proof {
            lemma_chunk_bounds(len as int, num_chunks as int, c as int);
        }
        let start: usize = n * c;
        let mut part: Vec<GoldilocksExt2> = Vec::with_capacity(n);
        let mut i: usize = 0;
        while i < n
            invariant
                i <= n,
                start + n <= len,
                len == mle@.len(),
                num_instance <= len,
                all == masked(mle@, num_instance as int, default@),
                part@.len() == i,
                forall|k: int| 0 <= k < i ==> (#[trigger] part@[k])@ == all[start + k],
            decreases n - i,
        {
            if start + i < num_instance {
                part.push(mle.evaluations.get(start + i));
            } else {
                part.push(default);
            }
            i = i + 1;
        }
        assert(ext_seq(part@) =~= crate::mle::chunk(all, num_chunks as int, c as int));
        out.push(part.into_mle());
        c = c + 1;
    }
    out
}

/// Powers of two are positive.
pub proof fn lemma_pow2_positive(x: int)
    requires
        is_pow2(x),
    ensures
        x > 0,
{
    let n = choose|n: nat| x == #[trigger] pow2(n);
    lemma_pow2_pos(n);
}

/// How many instances of table `m` go into the limb that starts at instance `start`: those of the
/// limb that the table has, and over the extension only the valid ones.
pub open spec fn taken(
    m: MultilinearExtension,
    start: int,
    per_limb: int,
    num_instances: int,
) -> int {
    let wanted = if m.is_ext() && num_instances - start < per_limb {
        num_instances - start
    } else {
        per_limb
    };
    if start < num_instances && start + wanted <= m@.len() {
        wanted
    } else {
        0
    }
}

/// The entry of an interleaved limb: instance after instance, one value of each table, and the
/// default where there is none.
pub open spec fn interleaved(
    mles: Seq<MultilinearExtension>,
    num_instances: int,
    per_limb: int,
    width: int,
    limb: int,
    default: Ext,
    pos: int,
) -> Ext {
    let inst = pos / width;
    let t = pos % width;
    let start = per_limb * limb;
    if t < mles.len() && inst < taken(mles[t], start, per_limb, num_instances) {
        mles[t]@[start + inst]
    } else {
        default
    }
}

/// The number of instances in a limb, at least one.
pub open spec fn instances_per_limb(len: int, num_limbs: int) -> int {
    if len / num_limbs < 1 {
        1
    } else {
        len / num_limbs
    }
}

/// The logarithm of the number of instance slots in a limb.
pub open spec fn log_slots(num_instances: nat, num_limbs: nat) -> nat {
    let n = spec_ceil_log2(spec_next_pow2_instance_padding(num_instances));
    let l = spec_ceil_log2(num_limbs);
    if n >= l {
        (n - l) as nat
    } else {
        0
    }
}

/// The tables hold the entries of other tables in turn, one limb after the other.
pub open spec fn are_interleaved(
    r: Seq<MultilinearExtension>,
    mles: Seq<MultilinearExtension>,
    num_instances: int,
    num_limbs: int,
    default: Ext,
) -> bool {
    &&& r.len() == num_limbs
    &&& forall|limb: int|
        0 <= limb < num_limbs ==> {
            &&& (#[trigger] r[limb]).wf()
            &&& r[limb].is_ext()
            &&& r[limb]@.len() == pow2(
                spec_ceil_log2(mles.len()) + log_slots(num_instances as nat, num_limbs as nat),
            )
            &&& forall|pos: int|
                0 <= pos < r[limb]@.len() ==> #[trigger] r[limb]@[pos] == interleaved(
                    mles,
                    num_instances,
                    instances_per_limb(mles[0]@.len() as int, num_limbs),
                    pow2(spec_ceil_log2(mles.len())) as int,
                    limb,
                    default,
                    pos,
                )
        }
}

/// Interleaves tables: limb `k` takes the `k`-th part of the instances and lists, instance after
/// instance, the values of all tables, padded with `default`. With the tables `[1,2]`, `[3,4]`,
/// `[5,6]`, `[7,8]` and two limbs the result is `[1,3,5,7]` and `[2,4,6,8]`.
pub fn interleaving_mles_to_mles(
    mles: &[MultilinearExtension],
    num_instances: usize,
    num_limbs: usize,
    default: GoldilocksExt2,
) -> (r: Vec<MultilinearExtension<'static>>)
    requires
        is_pow2(num_limbs as int),
        mles@.len() > 0,
        spec_next_power_of_two(num_instances as nat) <= usize::MAX,
        forall|k: int|
            0 <= k < mles@.len() ==> !((#[trigger] mles@[k]).evaluations is Unreachable)
                && mles@[k]@.len() <= spec_next_pow2_instance_padding(num_instances as nat),
        pow2(
            spec_ceil_log2(mles@.len()) + log_slots(num_instances as nat, num_limbs as nat),
        ) <= usize::MAX,
    ensures
        are_interleaved(r@, mles@, num_instances as int, num_limbs as int, default@),
{
    let padded: usize = next_pow2_instance_padding(num_instances);
    let log_instances: usize = ceil_log2(padded);
    proof {
        lemma_pow2_positive(num_limbs as int);
    }
    let mut per_limb: usize = mles[0].evaluations.len() / num_limbs;
    if per_limb < 1 {
        per_limb = 1;
    }
    let log_width: usize = ceil_log2(mles.len());
    let log_limbs: usize = ceil_log2(num_limbs);
    let log_rows: usize = if log_instances >= log_limbs {
        log_instances - log_limbs
    } else {
        0
    };
    proof {
        lemma_pow2_monotone(log_width as nat, (log_width + log_rows) as nat);
        lemma_pow2_adds(log_width as nat, log_rows as nat);
        lemma_pow2_pos(log_width as nat);
        lemma_pow2_pos(log_rows as nat);
        lemma_ceil_log2(mles@.len());
    }
    let size: usize = pow2_usize(log_width + log_rows);
    let width: usize = pow2_usize(log_width);
    let mut out: Vec<MultilinearExtension<'static>> = Vec::with_capacity(num_limbs);
    let mut limb: usize = 0;
    while limb < num_limbs
        invariant
            limb <= num_limbs,
            mles@.len() > 0,
            width == pow2(log_width as nat),
            log_width == spec_ceil_log2(mles@.len()),
            log_rows == log_slots(num_instances as nat, num_limbs as nat),
            size == pow2((log_width + log_rows) as nat),
            per_limb == instances_per_limb(mles@[0]@.len() as int, num_limbs as int),
            width > 0,
            forall|k: int|
                0 <= k < mles@.len() ==> !((#[trigger] mles@[k]).evaluations is Unreachable)
                    && mles@[k]@.len() <= usize::MAX,
            out@.len() == limb,
            forall|k: int|
                0 <= k < limb ==> {
                    &&& (#[trigger] out@[k]).wf()
                    &&& out@[k].is_ext()
                    &&& out@[k]@.len() == size
                    &&& forall|pos: int|
                        0 <= pos < size ==> #[trigger] out@[k]@[pos] == interleaved(
                            mles@,
                            num_instances as int,
                            per_limb as int,
                            width as int,
                            k,
                            default@,
                            pos,
                        )
                },
        decreases num_limbs - limb,
    {
        let part = interleave_limb(mles, num_instances, per_limb, width, size, limb, default);
        assert(is_pow2(size as int));
        out.push(part.into_mle());
        limb = limb + 1;
    }
    out
}

fn interleave_limb(
    mles: &[MultilinearExtension],
    num_instances: usize,
    per_limb: usize,
    width: usize,
    size: usize,
    limb: usize,
    default: GoldilocksExt2,
) -> (r: Vec<GoldilocksExt2>)
    requires
        width > 0,
        per_limb > 0,
        forall|k: int| 0 <= k < mles@.len() ==> !((#[trigger] mles@[k]).evaluations is Unreachable),
    ensures
        r@.len() == size,
        forall|pos: int|
            0 <= pos < size ==> (#[trigger] r@[pos])@ == interleaved(
                mles@,
                num_instances as int,
                per_limb as int,
                width as int,
                limb as int,
                default@,
                pos,
            ),
{
    let mut part: Vec<GoldilocksExt2> = Vec::with_capacity(size);
    // instances before this limb; a limb that starts past the machine words starts past them all
    let start: Option<usize> = per_limb.checked_mul(limb);
    let mut pos: usize = 0;
    while pos < size
        invariant
            pos <= size,
            width > 0,
            per_limb > 0,
            start matches Some(s) ==> s == per_limb * limb,
            start is None ==> per_limb * limb > usize::MAX,
            part@.len() == pos,
            forall|k: int|
                0 <= k < mles@.len() ==> !((#[trigger] mles@[k]).evaluations is Unreachable),
            forall|k: int|
                0 <= k < pos ==> (#[trigger] part@[k])@ == interleaved(
                    mles@,
                    num_instances as int,
                    per_limb as int,
                    width as int,
                    limb as int,
                    default@,
                    k,
                ),
        decreases size - pos,
    {
        let inst: usize = pos / width;
        let t: usize = pos % width;
        let mut value = default;
        if let Some(s) = start {
            if t < mles.len() && s < num_instances {
                let m = &mles[t];
                let len: usize = m.evaluations.len();
                let left: usize = num_instances - s;
                let is_ext: bool = matches!(m.evaluations, FieldType::Ext(_));
                let wanted: usize = if is_ext && left < per_limb {
                    left
                } else {
                    per_limb
                };
                if s <= len && wanted <= len - s && inst < wanted {
                    value = m.evaluations.get(s + inst);
                }
            }
        }
        part.push(value);
        pos = pos + 1;
    }
    part
}

/// The tables of a layer.
pub open spec fn layer_view(layer: Seq<MultilinearExtension>) -> Seq<Seq<Ext>> {
    Seq::new(layer.len(), |t: int| layer[t]@)
}

/// The length of the tables `k` layers above tables of length `len`.
pub open spec fn length_above(len: nat, fanin: nat, k: nat) -> nat
    decreases k,
{
    if k == 0 {
        len
    } else {
        length_above(len, fanin, (k - 1) as nat) / fanin
    }
}

/// The layers of a product tower, from the layer with the shortest tables down to the last layer.
/// Each entry of a layer is the product over the tables of the layer below it at one position.
pub fn infer_tower_product_witness<'a>(
    num_vars: usize,
    last_layer: Vec<MultilinearExtension<'a>>,
    num_product_fanin: usize,
) -> (r: Vec<Vec<MultilinearExtension<'a>>>)
    requires
        last_layer@.len() == num_product_fanin,
        num_product_fanin >= 2,
        num_product_fanin % 2 == 0,
        num_vars as int / spec_ceil_log2(num_product_fanin as nat) as int >= 1,
        num_vars as int / spec_ceil_log2(num_product_fanin as nat) as int > 1 ==> forall|t: int|
            0 <= t < last_layer@.len() ==> (#[trigger] last_layer@[t]).is_ext()
                && last_layer@[t]@.len() >= last_layer@[0]@.len(),
        forall|k: nat|
            1 <= k < num_vars as int / spec_ceil_log2(num_product_fanin as nat) as int ==> is_pow2(
                #[trigger] length_above(
                    last_layer@[0]@.len(),
                    num_product_fanin as nat,
                    k,
                ) as int,
            ),
    ensures
        r@.len() == num_vars as int / spec_ceil_log2(num_product_fanin as nat) as int,
        r@.last()@ == last_layer@,
        forall|k: int|
            0 <= k < r@.len() - 1 ==> layer_view((#[trigger] r@[k])@) == product_layer_above(
                layer_view(r@[k + 1]@),
            ),
        forall|k: int, t: int|
            0 <= k < r@.len() - 1 && 0 <= t < num_product_fanin ==> (#[trigger] r@[k]@[t]).wf()
                && r@[k]@[t].is_ext(),
{
    let log_fanin: usize = ceil_log2(num_product_fanin);
    proof {
        lemma_ceil_log2(num_product_fanin as nat);
    }
    let rounds: usize = num_vars / log_fanin;
    let ghost len0 = last_layer@[0]@.len();
    let ghost bottom = last_layer@;
    // layers from the bottom up
    let mut layers: Vec<Vec<MultilinearExtension<'a>>> = Vec::new();
    layers.push(last_layer);
    let mut k: usize = 1;
    while k < rounds
        invariant
            1 <= k <= rounds,
            rounds == num_vars as int / spec_ceil_log2(num_product_fanin as nat) as int,
            num_product_fanin >= 2,
            num_product_fanin % 2 == 0,
            len0 == bottom[0]@.len(),
            bottom.len() == num_product_fanin,
            layers@.len() == k,
            layers@[0]@ == bottom,
            forall|j: int|
                0 <= j < k ==> (#[trigger] layers@[j])@.len() == num_product_fanin
                    && layers@[j]@[0]@.len() == length_above(
                    len0,
                    num_product_fanin as nat,
                    j as nat,
                ),
            rounds > 1 ==> forall|j: int, t: int|
                0 <= j < k && 0 <= t < num_product_fanin ==> (#[trigger] layers@[j]@[t]).is_ext()
                    && layers@[j]@[t]@.len() >= layers@[j]@[0]@.len(),
            forall|j: int, t: int|
                1 <= j < k && 0 <= t < num_product_fanin ==> (#[trigger] layers@[j]@[t]).wf(),
            forall|j: int|
                1 <= j < k ==> layer_view((#[trigger] layers@[j])@) == product_layer_above(
                    layer_view(layers@[j - 1]@),
                ),
            forall|j: nat|
                1 <= j < rounds ==> is_pow2(
                    #[trigger] length_above(len0, num_product_fanin as nat, j) as int,
                ),
        decreases rounds - k,
    {
        let below = &layers[k - 1];
        assert(layers@[k - 1]@.len() == num_product_fanin);
        assert(length_above(len0, num_product_fanin as nat, k as nat) == length_above(
            len0,
            num_product_fanin as nat,
            (k - 1) as nat,
        ) / (num_product_fanin as nat));
        assert forall|t: int| 0 <= t < below@.len() implies (#[trigger] below@[t]).is_ext()
            && below@[t]@.len() >= below@[0]@.len() by {
            assert(layers@[k - 1]@[t].is_ext());
        }
        let above = product_layer(below);
        layers.push(above);
        k = k + 1;
    }
    let ghost up = layers@;
    let mut out: Vec<Vec<MultilinearExtension<'a>>> = Vec::new();
    while layers.len() > 0
        invariant
            layers@ == up.subrange(0, layers@.len() as int),
            layers@.len() <= up.len(),
            out@.len() + layers@.len() == up.len(),
            forall|j: int| 0 <= j < out@.len() ==> #[trigger] out@[j] == up[up.len() - 1 - j],
        decreases layers@.len(),
    {
        let n: usize = layers.len();
        let layer = layers.pop().unwrap();
        assert(up.subrange(0, n as int).drop_last() =~= up.subrange(0, n - 1));
        out.push(layer);
    }
    proof {
        assert forall|j: int| 0 <= j < out@.len() - 1 implies layer_view((#[trigger] out@[j])@)
            == product_layer_above(layer_view(out@[j + 1]@)) by {
            let i = up.len() - 1 - j;
            assert(out@[j] == up[i]);
            assert(out@[j + 1] == up[i - 1]);
        }
        assert forall|j: int, t: int|
            0 <= j < out@.len() - 1 && 0 <= t < num_product_fanin implies (#[trigger] out@[j]@[t]).wf()
            && out@[j]@[t].is_ext() by {
            let i = up.len() - 1 - j;
            assert(out@[j] == up[i]);
            assert(up[i]@[t].wf());
            assert(up[i]@[t].is_ext());
        }
    }
    out
}

/// The layer above a product layer.
fn product_layer<'a>(below: &Vec<MultilinearExtension<'a>>) -> (r: Vec<MultilinearExtension<'a>>)
    requires
        below@.len() > 0,
        forall|t: int|
            0 <= t < below@.len() ==> (#[trigger] below@[t]).is_ext() && below@[t]@.len()
                >= below@[0]@.len(),
        is_pow2(below@[0]@.len() as int / below@.len() as int),
    ensures
        layer_view(r@) == product_layer_above(layer_view(below@)),
        r@.len() == below@.len(),
        forall|t: int|
            0 <= t < r@.len() ==> (#[trigger] r@[t]).wf() && r@[t].is_ext() && r@[t]@.len()
                == below@[0]@.len() / below@.len(),
{
    let fanin: usize = below.len();
    let len: usize = below[0].evaluations.len() / fanin;
    let ghost v = layer_view(below@);
    let mut out: Vec<MultilinearExtension<'a>> = Vec::with_capacity(fanin);
    let mut index: usize = 0;
    while index < fanin
        invariant
            index <= fanin,
            fanin == below@.len(),
            fanin > 0,
            len == below@[0]@.len() / below@.len(),
            below@[0]@.len() <= usize::MAX,
            v == layer_view(below@),
            is_pow2(len as int),
            forall|t: int|
                0 <= t < below@.len() ==> (#[trigger] below@[t]).is_ext() && below@[t]@.len()
                    >= below@[0]@.len(),
            out@.len() == index,
            forall|k: int|
                0 <= k < index ==> {
                    &&& (#[trigger] out@[k]).wf()
                    &&& out@[k].is_ext()
                    &&& out@[k]@ == product_layer_above(v)[k]
                },
        decreases fanin - index,
    {
        proof {
            lemma_chunk_bounds(below@[0]@.len() as int, fanin as int, index as int);
            assert(len * index == index * len) by (nonlinear_arith);
        }
        let start: usize = index * len;
        let mut evaluations: Vec<GoldilocksExt2> = Vec::with_capacity(len);
        let mut i: usize = 0;
        while i < len
            invariant
                i <= len,
                start == index * len,
                start + len <= below@[0]@.len(),
                below@[0]@.len() <= usize::MAX,
                v == layer_view(below@),
                forall|t: int|
                    0 <= t < below@.len() ==> (#[trigger] below@[t]).is_ext() && below@[t]@.len()
                        >= below@[0]@.len(),
                evaluations@.len() == i,
                forall|k: int|
                    0 <= k < i ==> (#[trigger] evaluations@[k])@ == e_prod(
                        column(v, index * len + k),
                    ),
            decreases len - i,
        {
            let p = column_product(below, start + i);
            evaluations.push(p);
            i = i + 1;
        }
        assert(ext_seq(evaluations@) =~= product_layer_above(v)[index as int]);
        out.push(evaluations.into_mle());
        index = index + 1;
    }
    assert(layer_view(out@) =~= product_layer_above(v));
    out
}

/// The product of all tables at one position.
fn column_product(layer: &Vec<MultilinearExtension>, j: usize) -> (r: GoldilocksExt2)
    requires
        forall|t: int| 0 <= t < layer@.len() ==> j < (#[trigger] layer@[t])@.len(),
    ensures
        r@ == e_prod(column(layer_view(layer@), j as int)),
{
    let ghost c = column(layer_view(layer@), j as int);
    let mut acc = GoldilocksExt2::one();
    let mut t: usize = 0;
    assert(c.subrange(0, 0) =~= Seq::empty());
    while t < layer.len()
        invariant
            t <= layer@.len(),
            c == column(layer_view(layer@), j as int),
            forall|t: int| 0 <= t < layer@.len() ==> j < (#[trigger] layer@[t])@.len(),
            acc@ == e_prod(c.subrange(0, t as int)),
        decreases layer@.len() - t,
    {
        acc = acc * layer[t].evaluations.get(j);
        proof {
            assert(c.subrange(0, t + 1).drop_last() =~= c.subrange(0, t as int));
        }
        t = t + 1;
    }
    assert(c.subrange(0, t as int) =~= c);
    acc
}

/// The four tables of a layer of fractions.
pub open spec fn frac_view(layer: Seq<MultilinearExtension>) -> FracLayer {
    FracLayer { p1: layer[0]@, p2: layer[1]@, q1: layer[2]@, q2: layer[3]@ }
}

/// The tables of the input layer: numerators that are not given are all one.
pub open spec fn frac_input(
    p_mles: Option<Vec<MultilinearExtension>>,
    q_mles: Seq<MultilinearExtension>,
) -> FracLayer {
    let ones = Seq::new(q_mles[0]@.len(), |i: int| e_one());
    FracLayer {
        p1: if p_mles is Some {
            p_mles->0@[0]@
        } else {
            ones
        },
        p2: if p_mles is Some {
            p_mles->0@[1]@
        } else {
            ones
        },
        q1: q_mles[0]@,
        q2: q_mles[1]@,
    }
}

/// The fractions at the positions of the tables can be added up.
pub open spec fn can_add_up(
    p_mles: Option<Vec<MultilinearExtension>>,
    q_mles: Seq<MultilinearExtension>,
) -> bool {
    &&& q_mles[0].is_ext() && q_mles[1].is_ext()
    &&& q_mles[1]@.len() == q_mles[0]@.len()
    &&& p_mles matches Some(p) ==> {
        &&& p@[0].is_ext() == p@[1].is_ext()
        &&& p@[0]@.len() == q_mles[0]@.len()
        &&& p@[1]@.len() == q_mles[0]@.len()
    }
}

/// The layers of a tower of fractions, from the layer with one position down to the input layer.
/// Each layer is `[p1, p2, q1, q2]`, and the fractions at a position add up to an entry of the
/// layer above.
pub fn infer_tower_logup_witness<'a>(
    p_mles: Option<Vec<MultilinearExtension<'a>>>,
    q_mles: Vec<MultilinearExtension<'a>>,
) -> (r: Vec<Vec<MultilinearExtension<'a>>>)
    requires
        q_mles@.len() == 2,
        is_pow2(q_mles@[0]@.len() as int),
        p_mles matches Some(p) ==> p@.len() == 2,
        q_mles@[0]@.len() > 1 ==> can_add_up(p_mles, q_mles@),
    ensures
        r@.len() == spec_ceil_log2(q_mles@[0]@.len()) + 1,
        forall|k: int| 0 <= k < r@.len() ==> (#[trigger] r@[k])@.len() == 4,
        frac_view(r@.last()@) == frac_input(p_mles, q_mles@),
        r@.last()@[2] == q_mles@[0],
        r@.last()@[3] == q_mles@[1],
        p_mles matches Some(p) ==> r@.last()@[0] == p@[0] && r@.last()@[1] == p@[1],
        p_mles is None ==> forall|t: int|
            0 <= t < 2 ==> (#[trigger] r@.last()@[t]).is_ext() && r@.last()@[t].wf(),
        forall|k: int|
            0 <= k < r@.len() - 1 ==> frac_view((#[trigger] r@[k])@) == frac_view(
                r@[k + 1]@,
            ).above(),
        forall|k: int, t: int|
            0 <= k < r@.len() - 1 && 0 <= t < 4 ==> (#[trigger] r@[k]@[t]).is_ext()
                && r@[k]@[t].wf(),
{
    let len: usize = q_mles[0].evaluations.len();
    let num_vars: usize = ceil_log2(len);
    let ghost log = choose|n: nat| len == #[trigger] pow2(n);
    proof {
        lemma_ceil_log2_pow2(log);
    }
    let ghost input = frac_input(p_mles, q_mles@);
    let mut q_mles = q_mles;
    let q2 = q_mles.pop().unwrap();
    let q1 = q_mles.pop().unwrap();
    let mut bottom: Vec<MultilinearExtension<'a>> = Vec::with_capacity(4);
    match p_mles {
        Some(p) => {
            let mut p = p;
            let p2 = p.pop().unwrap();
            let p1 = p.pop().unwrap();
            bottom.push(p1);
            bottom.push(p2);
        },
        None => {
            bottom.push(ones(len));
            bottom.push(ones(len));
        },
    }
    bottom.push(q1);
    bottom.push(q2);
    assert(frac_view(bottom@) =~= input);
    let ghost first = bottom@;
    let mut layers: Vec<Vec<MultilinearExtension<'a>>> = Vec::new();
    layers.push(bottom);
    let mut k: usize = 0;
    while k < num_vars
        invariant
            k <= num_vars,
            num_vars == log,
            len == pow2(log),
            num_vars > 0 ==> input.even(),
            input.q1.len() == len,
            layers@.len() == k + 1,
            layers@[0]@ == first,
            first.len() == 4,
            frac_view(first) == input,
            num_vars > 0 ==> first[2].is_ext() && first[3].is_ext(),
            forall|j: int|
                0 <= j <= k ==> {
                    &&& (#[trigger] layers@[j])@.len() == 4
                    &&& num_vars > 0 ==> frac_view(layers@[j]@).even()
                    &&& frac_view(layers@[j]@).q1.len() == pow2((log - j) as nat)
                },
            forall|j: int|
                1 <= j <= k ==> frac_view((#[trigger] layers@[j])@) == frac_view(
                    layers@[j - 1]@,
                ).above(),
            forall|j: int, t: int|
                1 <= j <= k && 0 <= t < 4 ==> (#[trigger] layers@[j]@[t]).is_ext()
                    && layers@[j]@[t].wf(),
        decreases num_vars - k,
    {
        proof {
            lemma_pow2_unfold((log - k) as nat);
            assert(layers@[k as int]@.len() == 4);
            assert(is_pow2(pow2((log - k - 1) as nat) as int));
        }
        let above = frac_layer_above(&layers[k]);
        layers.push(above);
        k = k + 1;
    }
    let ghost up = layers@;
    let mut out: Vec<Vec<MultilinearExtension<'a>>> = Vec::new();
    while layers.len() > 0
        invariant
            layers@ == up.subrange(0, layers@.len() as int),
            layers@.len() <= up.len(),
            out@.len() + layers@.len() == up.len(),
            forall|j: int| 0 <= j < out@.len() ==> #[trigger] out@[j] == up[up.len() - 1 - j],
        decreases layers@.len(),
    {
        let n: usize = layers.len();
        let layer = layers.pop().unwrap();
        assert(up.subrange(0, n as int).drop_last() =~= up.subrange(0, n - 1));
        out.push(layer);
    }
    proof {
        assert forall|j: int| 0 <= j < out@.len() implies (#[trigger] out@[j])@.len() == 4 by {
            assert(out@[j] == up[up.len() - 1 - j]);
        }
        assert forall|j: int| 0 <= j < out@.len() - 1 implies frac_view((#[trigger] out@[j])@)
            == frac_view(out@[j + 1]@).above() by {
            let i = up.len() - 1 - j;
            assert(out@[j] == up[i]);
            assert(out@[j + 1] == up[i - 1]);
        }
        assert forall|j: int, t: int|
            0 <= j < out@.len() - 1 && 0 <= t < 4 implies (#[trigger] out@[j]@[t]).is_ext()
            && out@[j]@[t].wf() by {
            let i = up.len() - 1 - j;
            assert(out@[j] == up[i]);
            assert(up[i]@[t].is_ext() && up[i]@[t].wf());
        }
        assert(out@.last() == up[0]);
    }
    out
}

/// The table of all ones.
fn ones(len: usize) -> (r: MultilinearExtension<'static>)
    requires
        is_pow2(len as int),
    ensures
        r@ == Seq::new(len as nat, |i: int| e_one()),
        r.is_ext(),
        r.wf(),
{
    let mut v: Vec<GoldilocksExt2> = Vec::with_capacity(len);
    let mut i: usize = 0;
    while i < len
        invariant
            i <= len,
            v@.len() == i,
            forall|k: int| 0 <= k < i ==> (#[trigger] v@[k])@ == e_one(),
        decreases len - i,
    {
        v.push(GoldilocksExt2::one());
        i = i + 1;
    }
    assert(ext_seq(v@) =~= Seq::new(len as nat, |i: int| e_one()));
    v.into_mle()
}

/// The layer above a layer of fractions.
fn frac_layer_above<'a>(below: &Vec<MultilinearExtension<'a>>) -> (r: Vec<MultilinearExtension<'a>>)
    requires
        below@.len() == 4,
        frac_view(below@).even(),
        is_pow2(below@[2]@.len() as int / 2),
    ensures
        r@.len() == 4,
        frac_view(r@) == frac_view(below@).above(),
        frac_view(r@).even(),
        forall|t: int| 0 <= t < 4 ==> (#[trigger] r@[t]).is_ext() && r@[t].wf(),
{
    let half: usize = below[2].evaluations.len() / 2;
    let ghost v = frac_view(below@);
    let (p1, q1) = frac_half(below, 0, half);
    let (p2, q2) = frac_half(below, half, half);
    assert(ext_seq(p1@) =~= v.above().p1);
    assert(ext_seq(p2@) =~= v.above().p2);
    assert(ext_seq(q1@) =~= v.above().q1);
    assert(ext_seq(q2@) =~= v.above().q2);
    let mut out: Vec<MultilinearExtension<'a>> = Vec::with_capacity(4);
    out.push(p1.into_mle());
    out.push(p2.into_mle());
    out.push(q1.into_mle());
    out.push(q2.into_mle());
    out
}

/// The sums of the fractions at the positions `start..start + len`.
fn frac_half(below: &Vec<MultilinearExtension>, start: usize, len: usize) -> (r: (
    Vec<GoldilocksExt2>,
    Vec<GoldilocksExt2>,
))
    requires
        below@.len() == 4,
        frac_view(below@).even(),
        start + len <= below@[2]@.len(),
    ensures
        r.0@.len() == len,
        r.1@.len() == len,
        forall|i: int| 0 <= i < len ==> (#[trigger] r.0@[i])@ == frac_view(below@).sum_at(start + i).p,
        forall|i: int| 0 <= i < len ==> (#[trigger] r.1@[i])@ == frac_view(below@).sum_at(start + i).q,
{
    let total: usize = below[2].evaluations.len();
    let mut ps: Vec<GoldilocksExt2> = Vec::with_capacity(len);
    let mut qs: Vec<GoldilocksExt2> = Vec::with_capacity(len);
    let mut i: usize = 0;
    while i < len
        invariant
            i <= len,
            below@.len() == 4,
            frac_view(below@).even(),
            total == below@[2]@.len(),
            start + len <= total,
            ps@.len() == i,
            qs@.len() == i,
            forall|k: int|
                0 <= k < i ==> (#[trigger] ps@[k])@ == frac_view(below@).sum_at(start + k).p,
            forall|k: int|
                0 <= k < i ==> (#[trigger] qs@[k])@ == frac_view(below@).sum_at(start + k).q,
        decreases len - i,
    {
        let j: usize = start + i;
        let p1 = below[0].evaluations.get(j);
        let p2 = below[1].evaluations.get(j);
        let q1 = below[2].evaluations.get(j);
        let q2 = below[3].evaluations.get(j);
        ps.push(q1 * p2 + q2 * p1);
        qs.push(q1 * q2);
        i = i + 1;
    }
    (ps, qs)
}

/// Interleaving keeps every entry of an instance: with `per` instances to a limb, entry `k` of
/// table `t` stands in limb `k / per`, in the slot of `t` of instance `k % per`. The slots after
/// the tables hold the default value, and so do those of a table over the extension after the
/// instances; a table over the base field fills the limb of the last instance.
pub proof fn lemma_interleaved(
    r: Seq<MultilinearExtension>,
    mles: Seq<MultilinearExtension>,
    num_instances: int,
    num_limbs: int,
    default: Ext,
    t: int,
    k: int,
)
    requires
        are_interleaved(r, mles, num_instances, num_limbs, default),
        is_pow2(num_limbs),
        mles.len() > 0,
        is_pow2(mles[0]@.len() as int),
        num_limbs <= mles[0]@.len(),
        0 <= num_instances <= mles[0]@.len(),
        mles[0]@.len() <= spec_next_pow2_instance_padding(num_instances as nat),
        forall|i: int| 0 <= i < mles.len() ==> (#[trigger] mles[i])@.len() == mles[0]@.len(),
        0 <= k < mles[0]@.len(),
        0 <= t < pow2(spec_ceil_log2(mles.len())),
    ensures
        ({
            let per = mles[0]@.len() as int / num_limbs;
            let slot = k % per * pow2(spec_ceil_log2(mles.len())) + t;
            &&& mles.len() <= pow2(spec_ceil_log2(mles.len()))
            &&& per * num_limbs == mles[0]@.len()
            &&& 0 <= k / per < r.len()
            &&& 0 <= slot < r[k / per]@.len()
            &&& t < mles.len() && k < num_instances ==> r[k / per]@[slot] == mles[t]@[k]
            &&& t < mles.len() && k >= num_instances && mles[t].is_ext() ==> r[k / per]@[slot]
                == default
            &&& t < mles.len() && !mles[t].is_ext() && per * (k / per) < num_instances
                ==> r[k / per]@[slot] == mles[t]@[k]
            &&& per * (k / per) >= num_instances ==> r[k / per]@[slot] == default
            &&& t >= mles.len() ==> r[k / per]@[slot] == default
        }),
{
    let len = mles[0]@.len() as int;
    let per = len / num_limbs;
    let log = spec_ceil_log2(mles.len());
    let width = pow2(log) as int;
    let (limb, inst) = (k / per, k % per);
    let slot = inst * width + t;
    let (a, b) = (choose|a: nat| len == pow2(a), choose|b: nat| num_limbs == pow2(b));
    let padded = spec_next_pow2_instance_padding(num_instances as nat);
    lemma_padding_is_pow2(num_instances as nat);
    let c = choose|c: nat| padded == pow2(c);
    lemma_ceil_log2(mles.len());
    lemma_ceil_log2_pow2(b);
    lemma_ceil_log2_pow2(c);
    if b > a {
        lemma_pow2_strictly_increases(a, b);
    }
    if a > c {
        lemma_pow2_strictly_increases(c, a);
    }
    let d = (a - b) as nat;
    lemma_pow2_adds(d, b);
    lemma_pow2_pos(b);
    lemma_pow2_pos(d);
    lemma_pow2_pos(log);
    lemma_div_multiples_vanish(pow2(d) as int, num_limbs);
    assert(per == pow2(d)) by {
        assert(num_limbs * pow2(d) == pow2(d) * pow2(b)) by (nonlinear_arith)
            requires
                num_limbs == pow2(b),
        ;
    }
    assert(log_slots(num_instances as nat, num_limbs as nat) == c - b);
    lemma_pow2_monotone(d, (c - b) as nat);
    lemma_pow2_adds(log, (c - b) as nat);
    lemma_fundamental_div_mod(k, per);
    assert(0 <= limb < num_limbs && 0 <= inst < per && k == per * limb + inst) by (nonlinear_arith)
        requires
            0 <= k < len,
            per > 0,
            len == per * num_limbs,
            limb == k / per,
            inst == k % per,
            k == per * (k / per) + k % per,
    ;
    assert(0 <= slot < width * pow2((c - b) as nat)) by (nonlinear_arith)
        requires
            slot == inst * width + t,
            0 <= t < width,
            0 <= inst < per,
            per <= pow2((c - b) as nat),
    ;
    lemma_fundamental_div_mod_converse(slot, width, inst, t);
    assert(r[limb].wf());
    assert(r[limb]@.len() == pow2(log + log_slots(num_instances as nat, num_limbs as nat)));
    assert(r[limb]@[slot] == interleaved(mles, num_instances, per, width, limb, default, slot));
    if t < mles.len() {
        assert(mles[t]@.len() == len);
        assert(per * limb + per <= len) by (nonlinear_arith)
            requires
                0 <= limb < num_limbs,
                len == per * num_limbs,
                per > 0,
        ;
    }
}

/// A part of a masked table: its entries are those of the table, in their places, below the number
/// of instances, and the default value from there on.
pub proof fn lemma_masked_chunk(
    s: Seq<Ext>,
    num_instances: int,
    default: Ext,
    num_chunks: int,
    c: int,
    i: int,
)
    requires
        num_chunks > 0,
        0 <= c < num_chunks,
        0 <= i < s.len() as int / num_chunks,
    ensures
        ({
            let size = s.len() as int / num_chunks;
            let part = chunk(masked(s, num_instances, default), num_chunks, c);
            &&& part.len() == size
            &&& size * c + i < num_instances ==> part[i] == s[size * c + i]
            &&& size * c + i >= num_instances ==> part[i] == default
        }),
{
    let size = s.len() as int / num_chunks;
    lemma_chunk_bounds(s.len() as int, num_chunks, c);
}

} // verus!
