//! Witnesses of product and fraction towers.
//!
//! The last layer of a tower holds the leaves. Each layer above it multiplies the leaves (or adds
//! the fractions) of one position into one entry, until the first layer remains.
use vstd::arithmetic::power2::*;
use vstd::prelude::*;

use crate::expression::laws::lemma_mul_exchange;
use crate::field::{e_add, e_mul, e_one, e_zero, group_field, Ext};
use crate::mle::{chunk, join_chunks, lemma_chunk_bounds, lemma_chunks_join};
use crate::multilinear::e_prod;
use crate::ring::{
    lemma_e_add_assoc, lemma_e_add_comm, lemma_e_mul_add, lemma_e_mul_assoc, lemma_e_mul_comm,
    lemma_e_mul_one,
};

verus! {

broadcast use group_field;

/// The entries of all tables at one position.
pub open spec fn column(layer: Seq<Seq<Ext>>, j: int) -> Seq<Ext> {
    Seq::new(layer.len(), |t: int| layer[t][j])
}

/// The product of each position over all tables.
pub open spec fn column_products(layer: Seq<Seq<Ext>>, len: nat) -> Seq<Ext> {
    Seq::new(len, |j: int| e_prod(column(layer, j)))
}

/// The layer above a product layer: table `k` holds the products of the `k`-th part of the
/// positions.
pub open spec fn product_layer_above(layer: Seq<Seq<Ext>>) -> Seq<Seq<Ext>> {
    let fanin = layer.len() as int;
    let len = layer[0].len() as int / fanin;
    Seq::new(
        layer.len(),
        |k: int| Seq::new(len as nat, |i: int| e_prod(column(layer, k * len + i))),
    )
}

/// The product of all entries of a layer.
pub open spec fn layer_product(layer: Seq<Seq<Ext>>) -> Ext {
    e_prod(Seq::new(layer.len(), |t: int| e_prod(layer[t])))
}

pub broadcast proof fn lemma_e_prod_valid(s: Seq<Ext>)
    ensures
        (#[trigger] e_prod(s)).valid(),
{
}

/// The product of a concatenation.
pub proof fn lemma_prod_concat(a: Seq<Ext>, b: Seq<Ext>)
    ensures
        e_prod(a + b) == e_mul(e_prod(a), e_prod(b)),
    decreases b.len(),
{
    broadcast use lemma_e_prod_valid;

    if b.len() == 0 {
        assert(a + b =~= a);
        lemma_e_mul_one(e_prod(a));
    } else {
        assert((a + b).drop_last() =~= a + b.drop_last());
        lemma_prod_concat(a, b.drop_last());
        lemma_e_mul_assoc(e_prod(a), e_prod(b.drop_last()), b.last());
    }
}

/// The product of entrywise products.
pub proof fn lemma_prod_pointwise(a: Seq<Ext>, b: Seq<Ext>, c: Seq<Ext>)
    requires
        a.len() == b.len() == c.len(),
        forall|j: int| 0 <= j < c.len() ==> #[trigger] c[j] == e_mul(a[j], b[j]),
    ensures
        e_prod(c) == e_mul(e_prod(a), e_prod(b)),
    decreases c.len(),
{
    if c.len() == 0 {
        lemma_e_mul_one(e_one());
    } else {
        lemma_prod_pointwise(a.drop_last(), b.drop_last(), c.drop_last());
        assert(c.last() == c[c.len() - 1]);
        lemma_mul_exchange(e_prod(a.drop_last()), e_prod(b.drop_last()), a.last(), b.last());
    }
}

/// The product of all ones.
pub proof fn lemma_prod_ones(s: Seq<Ext>)
    requires
        forall|j: int| 0 <= j < s.len() ==> #[trigger] s[j] == e_one(),
    ensures
        e_prod(s) == e_one(),
    decreases s.len(),
{
    if s.len() > 0 {
        lemma_prod_ones(s.drop_last());
        assert(s.last() == s[s.len() - 1]);
        lemma_e_mul_one(e_one());
    }
}

/// Multiplying position by position or table by table gives one product.
pub proof fn lemma_prod_columns(layer: Seq<Seq<Ext>>, len: nat)
    requires
        forall|t: int| 0 <= t < layer.len() ==> (#[trigger] layer[t]).len() == len,
    ensures
        e_prod(column_products(layer, len)) == layer_product(layer),
    decreases layer.len(),
{
    let c = column_products(layer, len);
    if layer.len() == 0 {
        assert forall|j: int| 0 <= j < c.len() implies #[trigger] c[j] == e_one() by {
            assert(column(layer, j) =~= Seq::empty());
        }
        lemma_prod_ones(c);
        assert(Seq::new(layer.len(), |t: int| e_prod(layer[t])) =~= Seq::empty());
    } else {
        let rest = layer.drop_last();
        lemma_prod_columns(rest, len);
        let d = column_products(rest, len);
        assert forall|j: int| 0 <= j < c.len() implies #[trigger] c[j] == e_mul(
            d[j],
            layer.last()[j],
        ) by {
            assert(column(layer, j).drop_last() =~= column(rest, j));
        }
        assert(layer.last().len() == len) by {
            assert(layer.last() == layer[layer.len() - 1]);
        }
        lemma_prod_pointwise(d, layer.last(), c);
        let all = Seq::new(layer.len(), |t: int| e_prod(layer[t]));
        assert(all.drop_last() =~= Seq::new(rest.len(), |t: int| e_prod(rest[t])));
    }
}

/// The product of a sequence from the products of its chunks.
proof fn lemma_prod_chunks(s: Seq<Ext>, n: int, k: int)
    requires
        0 <= k <= n,
    ensures
        e_prod(join_chunks(s, n, k)) == e_prod(Seq::new(k as nat, |i: int| e_prod(chunk(s, n, i)))),
    decreases k,
{
    let parts = Seq::new(k as nat, |i: int| e_prod(chunk(s, n, i)));
    if k > 0 {
        lemma_prod_chunks(s, n, k - 1);
        lemma_prod_concat(join_chunks(s, n, k - 1), chunk(s, n, k - 1));
        assert(parts.drop_last() =~= Seq::new((k - 1) as nat, |i: int| e_prod(chunk(s, n, i))));
    } else {
        assert(parts =~= Seq::empty());
    }
}

/// A product layer and the layer above it have one product, where the tables split evenly.
pub proof fn lemma_product_layer_above(layer: Seq<Seq<Ext>>)
    requires
        layer.len() > 0,
        forall|t: int| 0 <= t < layer.len() ==> (#[trigger] layer[t]).len() == layer[0].len(),
        layer[0].len() as int % layer.len() as int == 0,
    ensures
        layer_product(product_layer_above(layer)) == layer_product(layer),
{
    let n = layer.len() as int;
    let len = layer[0].len();
    let c = column_products(layer, len);
    let above = product_layer_above(layer);
    lemma_prod_columns(layer, len);
    lemma_chunks_join(c, n);
    lemma_prod_chunks(c, n, n);
    assert forall|k: int| 0 <= k < n implies #[trigger] above[k] == chunk(c, n, k) by {
        lemma_chunk_bounds(len as int, n, k);
        let size = len as int / n;
        assert(size * k == k * size) by (nonlinear_arith);
        assert(above[k] =~= chunk(c, n, k));
    }
    assert(Seq::new(above.len(), |t: int| e_prod(above[t])) =~= Seq::new(
        n as nat,
        |i: int| e_prod(chunk(c, n, i)),
    ));
}

/// A fraction.
pub struct Frac {
    pub p: Ext,
    pub q: Ext,
}

/// The sum of two fractions over the product of the denominators.
pub open spec fn frac_add(a: Frac, b: Frac) -> Frac {
    Frac { p: e_add(e_mul(a.q, b.p), e_mul(b.q, a.p)), q: e_mul(a.q, b.q) }
}

/// The fraction zero.
pub open spec fn frac_zero() -> Frac {
    Frac { p: e_zero(), q: e_one() }
}

/// The sum of a sequence of fractions.
pub open spec fn frac_sum(s: Seq<Frac>) -> Frac
    decreases s.len(),
{
    if s.len() == 0 {
        frac_zero()
    } else {
        frac_add(frac_sum(s.drop_last()), s.last())
    }
}

/// Two tables of fractions.
#[verifier::ext_equal]
pub struct FracLayer {
    pub p1: Seq<Ext>,
    pub p2: Seq<Ext>,
    pub q1: Seq<Ext>,
    pub q2: Seq<Ext>,
}

impl FracLayer {
    /// The four tables have one length.
    pub open spec fn even(self) -> bool {
        self.p1.len() == self.p2.len() == self.q1.len() == self.q2.len()
    }

    /// The fractions of the first table.
    pub open spec fn first(self) -> Seq<Frac> {
        Seq::new(self.q1.len(), |i: int| Frac { p: self.p1[i], q: self.q1[i] })
    }

    /// The fractions of the second table.
    pub open spec fn second(self) -> Seq<Frac> {
        Seq::new(self.q1.len(), |i: int| Frac { p: self.p2[i], q: self.q2[i] })
    }

    /// The sum of the fractions at one position.
    pub open spec fn sum_at(self, j: int) -> Frac {
        frac_add(
            Frac { p: self.p1[j], q: self.q1[j] },
            Frac { p: self.p2[j], q: self.q2[j] },
        )
    }

    /// The layer above: the sums of the first half of the positions and those of the second half.
    pub open spec fn above(self) -> FracLayer {
        let half = self.q1.len() / 2;
        FracLayer {
            p1: Seq::new(half, |i: int| self.sum_at(i).p),
            p2: Seq::new(half, |i: int| self.sum_at(half + i).p),
            q1: Seq::new(half, |i: int| self.sum_at(i).q),
            q2: Seq::new(half, |i: int| self.sum_at(half + i).q),
        }
    }

    /// The sum of all fractions.
    pub open spec fn total(self) -> Frac {
        frac_add(frac_sum(self.first()), frac_sum(self.second()))
    }
}

/// Adding fractions is commutative.
pub proof fn lemma_frac_add_comm(a: Frac, b: Frac)
    ensures
        frac_add(a, b) == frac_add(b, a),
{
    lemma_e_mul_comm(a.q, b.q);
    lemma_e_add_comm(e_mul(a.q, b.p), e_mul(b.q, a.p));
}

/// Adding fractions is associative.
pub proof fn lemma_frac_add_assoc(a: Frac, b: Frac, c: Frac)
    ensures
        frac_add(frac_add(a, b), c) == frac_add(a, frac_add(b, c)),
{
    lemma_e_mul_assoc(a.q, b.q, c.q);
    // (aq bq) cp + cq (aq bp + bq ap) == aq (bq cp + cq bp) + (bq cq) ap
    let (x, y) = (e_mul(a.q, b.p), e_mul(b.q, a.p));
    lemma_e_mul_add(c.q, x, y);
    lemma_e_mul_add(a.q, e_mul(b.q, c.p), e_mul(c.q, b.p));
    lemma_e_mul_assoc(a.q, b.q, c.p);
    lemma_e_mul_assoc(c.q, a.q, b.p);
    lemma_e_mul_comm(c.q, a.q);
    lemma_e_mul_assoc(a.q, c.q, b.p);
    lemma_e_mul_assoc(c.q, b.q, a.p);
    lemma_e_mul_comm(c.q, b.q);
    lemma_e_add_assoc(
        e_mul(a.q, e_mul(b.q, c.p)),
        e_mul(a.q, e_mul(c.q, b.p)),
        e_mul(e_mul(b.q, c.q), a.p),
    );
}

/// Zero is neutral.
pub proof fn lemma_frac_add_zero(a: Frac)
    requires
        a.p.valid(),
        a.q.valid(),
    ensures
        frac_add(a, frac_zero()) == a,
        frac_add(frac_zero(), a) == a,
{
    crate::ring::lemma_e_mul_zero(a.q);
    lemma_e_mul_one(a.p);
    lemma_e_mul_one(a.q);
    crate::ring::lemma_e_add_zero(a.p);
}

/// `(a + b) + (c + d)` is `(a + c) + (b + d)`.
pub proof fn lemma_frac_exchange(a: Frac, b: Frac, c: Frac, d: Frac)
    ensures
        frac_add(frac_add(a, b), frac_add(c, d)) == frac_add(frac_add(a, c), frac_add(b, d)),
{
    lemma_frac_add_assoc(a, b, frac_add(c, d));
    lemma_frac_add_assoc(b, c, d);
    lemma_frac_add_comm(b, c);
    lemma_frac_add_assoc(c, b, d);
    lemma_frac_add_assoc(a, c, frac_add(b, d));
}

/// The sum of entrywise sums.
pub proof fn lemma_frac_sum_pointwise(a: Seq<Frac>, b: Seq<Frac>, c: Seq<Frac>)
    requires
        a.len() == b.len() == c.len(),
        forall|j: int| 0 <= j < c.len() ==> #[trigger] c[j] == frac_add(a[j], b[j]),
    ensures
        frac_sum(c) == frac_add(frac_sum(a), frac_sum(b)),
    decreases c.len(),
{
    if c.len() == 0 {
        lemma_frac_add_zero(frac_zero());
    } else {
        lemma_frac_sum_pointwise(a.drop_last(), b.drop_last(), c.drop_last());
        assert(c.last() == c[c.len() - 1]);
        lemma_frac_exchange(
            frac_sum(a.drop_last()),
            frac_sum(b.drop_last()),
            a.last(),
            b.last(),
        );
    }
}

proof fn lemma_frac_sum_valid(s: Seq<Frac>)
    ensures
        frac_sum(s).p.valid(),
        frac_sum(s).q.valid(),
{
}

/// The sum of a concatenation.
pub proof fn lemma_frac_sum_concat(a: Seq<Frac>, b: Seq<Frac>)
    ensures
        frac_sum(a + b) == frac_add(frac_sum(a), frac_sum(b)),
    decreases b.len(),
{
    lemma_frac_sum_valid(a);
    if b.len() == 0 {
        assert(a + b =~= a);
        lemma_frac_add_zero(frac_sum(a));
    } else {
        assert((a + b).drop_last() =~= a + b.drop_last());
        lemma_frac_sum_concat(a, b.drop_last());
        lemma_frac_add_assoc(frac_sum(a), frac_sum(b.drop_last()), b.last());
    }
}

/// A layer of fractions and the layer above it have one sum.
pub proof fn lemma_frac_layer_above(layer: FracLayer)
    requires
        layer.even(),
        layer.q1.len() % 2 == 0,
    ensures
        layer.above().total() == layer.total(),
        layer.above().even(),
{
    let above = layer.above();
    let sums = above.first() + above.second();
    lemma_frac_sum_concat(above.first(), above.second());
    assert forall|j: int| 0 <= j < sums.len() implies #[trigger] sums[j] == frac_add(
        layer.first()[j],
        layer.second()[j],
    ) by {
        let half = layer.q1.len() as int / 2;
        if j < half {
            assert(sums[j] == above.first()[j]);
        } else {
            assert(sums[j] == above.second()[j - half]);
        }
    }
    lemma_frac_sum_pointwise(layer.first(), layer.second(), sums);
}

/// The first layer of a product tower has the product of the leaves.
pub proof fn lemma_product_tower(layers: Seq<Seq<Seq<Ext>>>)
    requires
        layers.len() > 0,
        forall|k: int|
            0 <= k < layers.len() - 1 ==> #[trigger] layers[k] == product_layer_above(layers[k + 1]),
        forall|k: int|
            1 <= k < layers.len() ==> (#[trigger] layers[k]).len() > 0 && layers[k][0].len() as int
                % layers[k].len() as int == 0,
        forall|k: int, t: int|
            1 <= k < layers.len() && 0 <= t < layers[k].len() ==> (#[trigger] layers[k][t]).len()
                == layers[k][0].len(),
    ensures
        layer_product(layers[0]) == layer_product(layers.last()),
    decreases layers.len(),
{
    if layers.len() > 1 {
        let rest = layers.drop_first();
        assert forall|k: int| 0 <= k < rest.len() - 1 implies #[trigger] rest[k]
            == product_layer_above(rest[k + 1]) by {
            assert(layers[k + 1] == product_layer_above(layers[k + 2]));
        }
        assert forall|k: int| 1 <= k < rest.len() implies (#[trigger] rest[k]).len() > 0
            && rest[k][0].len() as int % rest[k].len() as int == 0 by {
            assert(layers[k + 1].len() > 0);
        }
        assert forall|k: int, t: int| 1 <= k < rest.len() && 0 <= t < rest[k].len() implies (
        #[trigger] rest[k][t]).len() == rest[k][0].len() by {
            assert(layers[k + 1][t].len() == layers[k + 1][0].len());
        }
        lemma_product_tower(rest);
        assert(layers[0] == product_layer_above(layers[1]));
        assert(layers[1].len() > 0);
        assert forall|t: int| 0 <= t < layers[1].len() implies (#[trigger] layers[1][t]).len()
            == layers[1][0].len() by {}
        lemma_product_layer_above(layers[1]);
    }
}

/// The first layer of a tower of fractions has the sum of the leaves.
pub proof fn lemma_frac_tower(layers: Seq<FracLayer>)
    requires
        layers.len() > 0,
        layers.last().even(),
        forall|k: int| 0 <= k < layers.len() - 1 ==> #[trigger] layers[k] == layers[k + 1].above(),
        forall|k: int| 1 <= k < layers.len() ==> (#[trigger] layers[k]).q1.len() % 2 == 0,
    ensures
        layers[0].total() == layers.last().total(),
        layers[0].even(),
    decreases layers.len(),
{
    if layers.len() > 1 {
        let rest = layers.drop_first();
        assert forall|k: int| 0 <= k < rest.len() - 1 implies #[trigger] rest[k] == rest[k
            + 1].above() by {
            assert(layers[k + 1] == layers[k + 2].above());
        }
        lemma_frac_tower(rest);
        assert(layers[0] == layers[1].above());
        lemma_frac_layer_above(layers[1]);
    }
}

/// Two fractions with numerator one add up to `(q1 + q2) / (q1 * q2)`.
pub proof fn lemma_frac_add_units(q1: Ext, q2: Ext)
    requires
        q1.valid(),
        q2.valid(),
    ensures
        frac_add(Frac { p: e_one(), q: q1 }, Frac { p: e_one(), q: q2 }) == (Frac {
            p: e_add(q1, q2),
            q: e_mul(q1, q2),
        }),
{
    lemma_e_mul_one(q1);
    lemma_e_mul_one(q2);
}

/// The entries of the layer above: table `t` holds the products, over all tables, of the entries in
/// part `t` of the positions.
pub proof fn lemma_entries_above(layer: Seq<Seq<Ext>>, t: int, i: int)
    requires
        0 <= t < layer.len(),
        0 <= i < layer[0].len() as int / layer.len() as int,
    ensures
        ({
            let size = layer[0].len() as int / layer.len() as int;
            let above = product_layer_above(layer);
            &&& above.len() == layer.len()
            &&& above[t].len() == size
            &&& above[t][i] == e_prod(Seq::new(layer.len(), |s: int| layer[s][size * t + i]))
        }),
{
    let size = layer[0].len() as int / layer.len() as int;
    lemma_chunk_bounds(layer[0].len() as int, layer.len() as int, t);
    vstd::arithmetic::mul::lemma_mul_is_commutative(size, t);
    assert(column(layer, size * t + i) =~= Seq::new(layer.len(), |s: int| layer[s][size * t + i]));
}

/// The entries of the layer of fractions above: the first table adds up the two fractions at each
/// position of the first half, the second one those of the second half.
pub proof fn lemma_fractions_above(layer: FracLayer, i: int)
    requires
        layer.even(),
        0 <= i < layer.q1.len() as int / 2,
    ensures
        ({
            let half = layer.q1.len() as int / 2;
            let above = layer.above();
            let (a, b) = (
                Frac { p: layer.p1[i], q: layer.q1[i] },
                Frac { p: layer.p2[i], q: layer.q2[i] },
            );
            let (c, d) = (
                Frac { p: layer.p1[half + i], q: layer.q1[half + i] },
                Frac { p: layer.p2[half + i], q: layer.q2[half + i] },
            );
            &&& above.even()
            &&& above.q1.len() == half
            &&& (Frac { p: above.p1[i], q: above.q1[i] }) == frac_add(a, b)
            &&& (Frac { p: above.p2[i], q: above.q2[i] }) == frac_add(c, d)
        }),
{
}

/// The sum of two fractions is their sum in the field: where the denominators have inverses, the
/// numerator times the inverse of the denominator is the sum of those of the two.
pub proof fn lemma_frac_add_value(a: Frac, b: Frac, u: Ext, v: Ext)
    requires
        a.p.valid() && a.q.valid() && b.p.valid() && b.q.valid() && u.valid() && v.valid(),
        e_mul(a.q, u) == e_one(),
        e_mul(b.q, v) == e_one(),
    ensures
        e_mul(frac_add(a, b).q, e_mul(u, v)) == e_one(),
        e_mul(frac_add(a, b).p, e_mul(u, v)) == e_add(e_mul(a.p, u), e_mul(b.p, v)),
{
    let w = e_mul(u, v);
    lemma_mul_exchange(a.q, b.q, u, v);
    lemma_e_mul_one(e_one());
    // (a.q * b.p) * (u * v) == (a.q * u) * (b.p * v)
    lemma_mul_exchange(a.q, b.p, u, v);
    lemma_e_mul_one(e_mul(b.p, v));
    // (b.q * a.p) * (u * v) == (b.q * v) * (a.p * u)
    lemma_e_mul_comm(u, v);
    lemma_mul_exchange(b.q, a.p, v, u);
    lemma_e_mul_one(e_mul(a.p, u));
    let (x, y) = (e_mul(a.q, b.p), e_mul(b.q, a.p));
    lemma_e_mul_comm(e_add(x, y), w);
    lemma_e_mul_add(w, x, y);
    lemma_e_mul_comm(w, x);
    lemma_e_mul_comm(w, y);
    lemma_e_add_comm(e_mul(b.p, v), e_mul(a.p, u));
}

} // verus!
