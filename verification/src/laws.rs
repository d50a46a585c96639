//! Library-wide laws of the mixed-radix decomposition.
//!
//! The decoders' contracts pin each result down as a well-formed
//! coordinate vector that linearizes back to the given flat index. The
//! lemmas here state what follows for the family as a whole: such a
//! vector is unique (so the two- and three-dimensional entry points
//! agree with the general one), and consecutive flat indices decode to
//! consecutive vectors in odometer order.

use vstd::prelude::*;

use crate::model::{
    in_bounds, lemma_linearize_bound, lemma_linearize_drop_last, lemma_linearize_push,
    lemma_product_push, linearize, product,
};

verus! {

/// Two well-formed coordinate vectors with the same linearization are
/// equal: a flat index has exactly one decomposition. In particular the
/// pair returned by `product_index_2d` and the triple returned by
/// `product_index_3d` coincide coordinate-for-coordinate with the vector
/// returned by `product_index_Nd` on the same lengths, since each
/// satisfies this characterization for the same index.
pub proof fn lemma_decomposition_unique(c1: Seq<usize>, c2: Seq<usize>, lengths: Seq<usize>)
    requires
        in_bounds(c1, lengths),
        in_bounds(c2, lengths),
        linearize(c1, lengths) == linearize(c2, lengths),
    ensures
        c1 == c2,
    decreases lengths.len(),
{
    if lengths.len() == 0 {
        assert(c1 =~= c2);
    } else {
        let p1 = product(lengths.skip(1));
        let a = c1[0] as nat;
        let b = c2[0] as nat;
        let la = linearize(c1.skip(1), lengths.skip(1));
        let lb = linearize(c2.skip(1), lengths.skip(1));
        assert(in_bounds(c1.skip(1), lengths.skip(1)));
        assert(in_bounds(c2.skip(1), lengths.skip(1)));
        lemma_linearize_bound(c1.skip(1), lengths.skip(1));
        lemma_linearize_bound(c2.skip(1), lengths.skip(1));
        assert(a == b && la == lb) by (nonlinear_arith)
            requires
                la < p1,
                lb < p1,
                a * p1 + la == b * p1 + lb,
        ;
        lemma_decomposition_unique(c1.skip(1), c2.skip(1), lengths.skip(1));
        assert forall|k: int| 0 <= k < c1.len() implies c1[k] == c2[k] by {
            if k > 0 {
                assert(c1[k] == c1.skip(1)[k - 1]);
                assert(c2[k] == c2.skip(1)[k - 1]);
            }
        }
        assert(c1 =~= c2);
    }
}

/// The coordinate vector that follows `coords` in row-major enumeration
/// order: the last coordinate is incremented when that stays within its
/// bound; otherwise it wraps to 0 and the carry propagates leftward,
/// exactly as in odometer (mixed-radix) counting.
pub open spec fn odometer_next(coords: Seq<usize>, lengths: Seq<usize>) -> Seq<usize>
    recommends
        coords.len() == lengths.len(),
    decreases lengths.len(),
{
    if lengths.len() == 0 {
        coords
    } else if coords.last() + 1 < lengths.last() {
        coords.update(coords.len() - 1, (coords.last() + 1) as usize)
    } else {
        odometer_next(coords.drop_last(), lengths.drop_last()).push(0)
    }
}

/// Taking one odometer step from a well-formed coordinate vector that is
/// not the last one of the product space yields a well-formed vector
/// whose linearization is exactly one higher.
pub proof fn lemma_odometer_step(coords: Seq<usize>, lengths: Seq<usize>)
    requires
        lengths.len() > 0,
        in_bounds(coords, lengths),
        linearize(coords, lengths) + 1 < product(lengths),
    ensures
        in_bounds(odometer_next(coords, lengths), lengths),
        linearize(odometer_next(coords, lengths), lengths) == linearize(coords, lengths) + 1,
    decreases lengths.len(),
{
    let n = lengths.len() as int;
    let cf = coords.drop_last();
    let lf = lengths.drop_last();
    let ll = lengths.last() as nat;
    let cl = coords.last() as nat;
    let pf = product(lf);
    let linf = linearize(cf, lf);
    lemma_linearize_drop_last(coords, lengths);
    assert(lengths =~= lf.push(lengths.last()));
    lemma_product_push(lf, lengths.last());
    assert(in_bounds(cf, lf));
    lemma_linearize_bound(cf, lf);
    if cl + 1 < ll {
        let c2 = coords.update(n - 1, (coords.last() + 1) as usize);
        assert(c2.drop_last() =~= cf);
        lemma_linearize_drop_last(c2, lengths);
        assert(in_bounds(c2, lengths));
    } else {
        assert(cl + 1 == ll);
        assert(linf * ll + cl + 1 == (linf + 1) * ll) by (nonlinear_arith)
            requires
                cl + 1 == ll,
        ;
        if n == 1 {
            assert(linf == 0);
            assert(pf == 1);
            assert((0 as nat + 1) * ll == 1 * ll) by (nonlinear_arith);
            assert(false);
        } else {
            assert(linf + 1 < pf) by (nonlinear_arith)
                requires
                    (linf + 1) * ll < pf * ll,
                    ll >= 1,
            ;
            lemma_odometer_step(cf, lf);
            let cn = odometer_next(cf, lf);
            let c2 = cn.push(0);
            assert(odometer_next(coords, lengths) == c2);
            lemma_linearize_push(cn, lf, 0, lengths.last());
            assert(in_bounds(c2, lengths)) by {
                assert forall|k: int| 0 <= k < lengths.len() implies c2[k] < lengths[k] by {
                    if k < n - 1 {
                        assert(c2[k] == cn[k]);
                        assert(lengths[k] == lf[k]);
                    }
                }
            }
        }
    }
}

/// Ordering law: between two consecutive valid flat indices the
/// coordinate vector advances by exactly one odometer step — only the
/// last coordinate changes unless it overflows its bound, in which case
/// the carry propagates leftward.
pub proof fn lemma_ordering(c1: Seq<usize>, c2: Seq<usize>, lengths: Seq<usize>)
    requires
        lengths.len() > 0,
        in_bounds(c1, lengths),
        in_bounds(c2, lengths),
        linearize(c2, lengths) == linearize(c1, lengths) + 1,
    ensures
        c2 == odometer_next(c1, lengths),
{
    lemma_linearize_bound(c2, lengths);
    lemma_odometer_step(c1, lengths);
    lemma_decomposition_unique(c2, odometer_next(c1, lengths), lengths);
}

} // verus!
