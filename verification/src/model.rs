//! Mathematical model of row-major (mixed-radix) index decomposition.
//!
//! A coordinate vector `coords` against a vector of dimension lengths
//! `lengths` linearizes to the flat index
//! `sum over k of coords[k] * product(lengths[k+1..])`,
//! with dimension 0 varying slowest (C order).

use vstd::prelude::*;

verus! {

/// Product of all entries of `lengths`; 1 for the empty sequence.
pub open spec fn product(lengths: Seq<usize>) -> nat
    decreases lengths.len(),
{
    if lengths.len() == 0 {
        1
    } else {
        (lengths[0] as nat) * product(lengths.skip(1))
    }
}

/// Row-major linearization of `coords` against `lengths`:
/// `sum over k of coords[k] * product(lengths[k+1..])`.
pub open spec fn linearize(coords: Seq<usize>, lengths: Seq<usize>) -> nat
    recommends
        coords.len() == lengths.len(),
    decreases lengths.len(),
{
    if lengths.len() == 0 {
        0
    } else {
        (coords[0] as nat) * product(lengths.skip(1)) + linearize(coords.skip(1), lengths.skip(1))
    }
}

/// `coords` is a well-formed coordinate vector for `lengths`.
pub open spec fn in_bounds(coords: Seq<usize>, lengths: Seq<usize>) -> bool {
    &&& coords.len() == lengths.len()
    &&& forall|k: int| 0 <= k < lengths.len() ==> coords[k] < lengths[k]
}

/// Appending one more length multiplies the product by it.
pub proof fn lemma_product_push(lengths: Seq<usize>, x: usize)
    ensures
        product(lengths.push(x)) == product(lengths) * x,
    decreases lengths.len(),
{
    if lengths.len() == 0 {
        assert(lengths.push(x).skip(1) =~= Seq::<usize>::empty());
        assert(product(Seq::<usize>::empty()) == 1);
        assert(product(lengths.push(x)) == (x as nat) * product(lengths.push(x).skip(1)));
        assert((x as nat) * 1 == 1 * (x as nat)) by (nonlinear_arith);
    } else {
        let l0 = lengths[0] as nat;
        let tail = lengths.skip(1);
        assert(lengths.push(x)[0] == lengths[0]);
        assert(lengths.push(x).skip(1) =~= tail.push(x));
        lemma_product_push(tail, x);
        assert(product(lengths.push(x)) == l0 * product(tail.push(x)));
        assert(l0 * (product(tail) * x) == (l0 * product(tail)) * x) by (nonlinear_arith);
    }
}

/// The product splits at any cut point `k` into the product of the
/// prefix and the product of the suffix.
pub proof fn lemma_product_split(lengths: Seq<usize>, k: int)
    requires
        0 <= k <= lengths.len(),
    ensures
        product(lengths) == product(lengths.take(k)) * product(lengths.skip(k)),
    decreases k,
{
    if k == 0 {
        assert(lengths.take(0) =~= Seq::<usize>::empty());
        assert(lengths.skip(0) =~= lengths);
        assert(1 * product(lengths) == product(lengths)) by (nonlinear_arith);
    } else {
        let l0 = lengths[0] as nat;
        let tail = lengths.skip(1);
        lemma_product_split(tail, k - 1);
        assert(lengths.take(k)[0] == lengths[0]);
        assert(lengths.take(k).skip(1) =~= tail.take(k - 1));
        assert(lengths.skip(k) =~= tail.skip(k - 1));
        let a = product(tail.take(k - 1));
        let b = product(tail.skip(k - 1));
        assert(product(lengths.take(k)) == l0 * a);
        assert(l0 * (a * b) == (l0 * a) * b) by (nonlinear_arith);
    }
}

/// A product of positive lengths is positive.
pub proof fn lemma_product_pos(lengths: Seq<usize>)
    requires
        forall|k: int| 0 <= k < lengths.len() ==> lengths[k] > 0,
    ensures
        product(lengths) >= 1,
    decreases lengths.len(),
{
    if lengths.len() > 0 {
        let l0 = lengths[0] as nat;
        let tail = lengths.skip(1);
        assert(forall|k: int| 0 <= k < tail.len() ==> tail[k] > 0);
        lemma_product_pos(tail);
        assert(l0 >= 1 && product(tail) >= 1 ==> l0 * product(tail) >= 1) by (nonlinear_arith);
    }
}

/// A single zero length makes the whole product zero.
pub proof fn lemma_product_zero(lengths: Seq<usize>, k: int)
    requires
        0 <= k < lengths.len(),
        lengths[k] == 0,
    ensures
        product(lengths) == 0,
    decreases k,
{
    let tail = lengths.skip(1);
    if k == 0 {
        assert((0 as nat) * product(tail) == 0) by (nonlinear_arith);
    } else {
        lemma_product_zero(tail, k - 1);
        assert((lengths[0] as nat) * 0 == 0) by (nonlinear_arith);
    }
}

/// Appending a coordinate `x` with bound `m` turns a linearization into
/// its Horner step: the old value scaled by `m`, plus `x`.
pub proof fn lemma_linearize_push(coords: Seq<usize>, lengths: Seq<usize>, x: usize, m: usize)
    requires
        coords.len() == lengths.len(),
    ensures
        linearize(coords.push(x), lengths.push(m)) == linearize(coords, lengths) * m + x,
    decreases lengths.len(),
{
    let cp = coords.push(x);
    let lp = lengths.push(m);
    if lengths.len() == 0 {
        assert(lp.skip(1) =~= Seq::<usize>::empty());
        assert(cp.skip(1) =~= Seq::<usize>::empty());
        assert(product(Seq::<usize>::empty()) == 1);
        assert(linearize(Seq::<usize>::empty(), Seq::<usize>::empty()) == 0);
        assert((x as nat) * 1 == x) by (nonlinear_arith);
        assert((0 as nat) * m == 0) by (nonlinear_arith);
    } else {
        let c0 = coords[0] as nat;
        let p1 = product(lengths.skip(1));
        let li1 = linearize(coords.skip(1), lengths.skip(1));
        assert(lp.skip(1) =~= lengths.skip(1).push(m));
        assert(cp.skip(1) =~= coords.skip(1).push(x));
        lemma_product_push(lengths.skip(1), m);
        lemma_linearize_push(coords.skip(1), lengths.skip(1), x, m);
        assert(linearize(cp, lp) == c0 * (p1 * m) + (li1 * m + x));
        assert(c0 * (p1 * m) + li1 * m == (c0 * p1 + li1) * m) by (nonlinear_arith);
    }
}

/// Reading a linearization from the right: peel off the last coordinate.
pub proof fn lemma_linearize_drop_last(coords: Seq<usize>, lengths: Seq<usize>)
    requires
        coords.len() == lengths.len(),
        lengths.len() > 0,
    ensures
        linearize(coords, lengths) == linearize(coords.drop_last(), lengths.drop_last())
            * lengths.last() + coords.last(),
{
    assert(coords =~= coords.drop_last().push(coords.last()));
    assert(lengths =~= lengths.drop_last().push(lengths.last()));
    lemma_linearize_push(coords.drop_last(), lengths.drop_last(), coords.last(), lengths.last());
}

/// The two-dimensional linearization written out.
pub proof fn lemma_linearize2(i: usize, j: usize, len_a: usize, len_b: usize)
    ensures
        linearize(seq![i, j], seq![len_a, len_b]) == i * len_b + j,
{
    let e = Seq::<usize>::empty();
    assert(linearize(e, e) == 0);
    assert(seq![i] =~= e.push(i));
    assert(seq![len_a] =~= e.push(len_a));
    lemma_linearize_push(e, e, i, len_a);
    assert((0 as nat) * len_a == 0) by (nonlinear_arith);
    assert(seq![i, j] =~= seq![i].push(j));
    assert(seq![len_a, len_b] =~= seq![len_a].push(len_b));
    lemma_linearize_push(seq![i], seq![len_a], j, len_b);
}

/// The three-dimensional linearization written out.
pub proof fn lemma_linearize3(i: usize, j: usize, k: usize, len_a: usize, len_b: usize, len_c: usize)
    ensures
        linearize(seq![i, j, k], seq![len_a, len_b, len_c])
            == i * (len_b * len_c) + j * len_c + k,
{
    lemma_linearize2(i, j, len_a, len_b);
    assert(seq![i, j, k] =~= seq![i, j].push(k));
    assert(seq![len_a, len_b, len_c] =~= seq![len_a, len_b].push(len_c));
    lemma_linearize_push(seq![i, j], seq![len_a, len_b], k, len_c);
    assert(((i * len_b + j) as nat) * len_c == i * (len_b * len_c) + j * len_c)
        by (nonlinear_arith);
}

/// A well-formed coordinate vector linearizes to an index inside the
/// product space.
pub proof fn lemma_linearize_bound(coords: Seq<usize>, lengths: Seq<usize>)
    requires
        in_bounds(coords, lengths),
    ensures
        linearize(coords, lengths) < product(lengths),
    decreases lengths.len(),
{
    if lengths.len() == 0 {
        assert(product(lengths) == 1);
    } else {
        let c0 = coords[0] as nat;
        let l0 = lengths[0] as nat;
        let p1 = product(lengths.skip(1));
        let li1 = linearize(coords.skip(1), lengths.skip(1));
        assert(in_bounds(coords.skip(1), lengths.skip(1)));
        lemma_linearize_bound(coords.skip(1), lengths.skip(1));
        assert(c0 < l0 && li1 < p1 ==> c0 * p1 + li1 < l0 * p1) by (nonlinear_arith);
    }
}

} // verus!
