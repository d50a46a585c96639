//! Mixed-radix decoding of flat indices into a Cartesian product.
//!
//! Given the lengths of `n` ordered sequences, a flat index into their
//! Cartesian product (enumerated in row-major order, first dimension
//! slowest) is converted into the unique per-dimension coordinate vector,
//! without materializing the product.

use vstd::prelude::*;

pub mod laws;
pub mod model;

use crate::model::{
    in_bounds, lemma_linearize2, lemma_linearize3, lemma_linearize_push, lemma_product_pos,
    lemma_product_push, lemma_product_split, lemma_product_zero, linearize, product,
};
use vstd::arithmetic::div_mod::{
    lemma_div_denominator, lemma_fundamental_div_mod, lemma_mod_division_less_than_divisor,
    lemma_multiply_divide_lt,
};

verus! {

/// Error returned when a flat index does not address any tuple of the
/// product space: either the index is at least the product of the given
/// lengths, or no lengths were given at all (a product size of 0).
#[derive(Debug, Clone, Copy, PartialEq, Eq, Structural)]
pub struct InvalidIndex {
    /// The offending flat index.
    pub index: usize,
    /// The size of the product space it was held against
    /// (0 when the dimension list was empty).
    pub product_size: usize,
}

/// From the flat index into the Cartesian product of two sequences, get
/// the two coordinates into the original sequences.
///
/// `len_a` is the length of the first sequence; iteration over the
/// product is slowest along it. The call succeeds exactly when `index`
/// falls inside the product space, and then the pair it returns is the
/// unique one that linearizes back to `index`.
pub fn product_index_2d(index: usize, len_a: usize, len_b: usize) -> (r: Result<
    (usize, usize),
    InvalidIndex,
>)
    requires
        len_a * len_b <= usize::MAX,
    ensures
        match r {
            Ok(c) => {
                &&& index < len_a * len_b
                &&& c.0 < len_a
                &&& c.1 < len_b
                &&& c.0 * len_b + c.1 == index
                &&& linearize(seq![c.0, c.1], seq![len_a, len_b]) == index
            },
            Err(e) => {
                &&& index >= len_a * len_b
                &&& e.index == index
                &&& e.product_size == len_a * len_b
            },
        },
{
    if index >= len_a * len_b {
        return Err(InvalidIndex { index, product_size: len_a * len_b });
    }
    proof {
        assert(len_b > 0) by (nonlinear_arith)
            requires
                index < len_a * len_b,
        ;
    }
    let i = index / len_b;
    let j = index % len_b;
    proof {
        assert(len_b * len_a == len_a * len_b) by (nonlinear_arith);
        lemma_multiply_divide_lt(index as int, len_b as int, len_a as int);
        lemma_mod_division_less_than_divisor(index as int, len_b as int);
        lemma_fundamental_div_mod(index as int, len_b as int);
        assert(len_b * (index as int / len_b as int) == i * len_b) by (nonlinear_arith)
            requires
                i == index as int / len_b as int,
        ;
        lemma_linearize2(i, j, len_a, len_b);
    }
    Ok((i, j))
}

/// From the flat index into the Cartesian product of three sequences,
/// get the three coordinates into the original sequences.
///
/// `len_a` is the length of the first sequence; iteration over the
/// product is slowest along it and fastest along the third. The call
/// succeeds exactly when `index` falls inside the product space, and
/// then the triple it returns is the unique one that linearizes back
/// to `index`.
pub fn product_index_3d(index: usize, len_a: usize, len_b: usize, len_c: usize) -> (r: Result<
    (usize, usize, usize),
    InvalidIndex,
>)
    requires
        len_a * len_b * len_c <= usize::MAX,
    ensures
        match r {
            Ok(c) => {
                &&& index < len_a * len_b * len_c
                &&& c.0 < len_a
                &&& c.1 < len_b
                &&& c.2 < len_c
                &&& c.0 * (len_b * len_c) + c.1 * len_c + c.2 == index
                &&& linearize(seq![c.0, c.1, c.2], seq![len_a, len_b, len_c]) == index
            },
            Err(e) => {
                &&& index >= len_a * len_b * len_c
                &&& e.index == index
                &&& e.product_size == len_a * len_b * len_c
            },
        },
{
    if len_a == 0 || len_b == 0 || len_c == 0 {
        proof {
            assert(len_a == 0 || len_b == 0 || len_c == 0 ==> len_a * len_b * len_c == 0)
                by (nonlinear_arith);
        }
        return Err(InvalidIndex { index, product_size: 0 });
    }
    proof {
        assert(len_b * len_c <= len_a * len_b * len_c && len_a * (len_b * len_c) == len_a * len_b
            * len_c) by (nonlinear_arith)
            requires
                len_a >= 1,
        ;
    }
    let bc = len_b * len_c;
    let product_size = len_a * bc;
    if index >= product_size {
        return Err(InvalidIndex { index, product_size });
    }
    let i = index / bc;
    let t = index / len_c;
    let j = t % len_b;
    let k = index % len_c;
    proof {
        assert((len_b * len_c) * len_a == len_a * (len_b * len_c) && len_c * len_b == len_b
            * len_c) by (nonlinear_arith);
        lemma_multiply_divide_lt(index as int, bc as int, len_a as int);
        lemma_mod_division_less_than_divisor(t as int, len_b as int);
        lemma_mod_division_less_than_divisor(index as int, len_c as int);
        lemma_fundamental_div_mod(index as int, len_c as int);
        lemma_fundamental_div_mod(t as int, len_b as int);
        lemma_div_denominator(index as int, len_c as int, len_b as int);
        assert(i == t as int / len_b as int);
        assert(len_c * (len_b * i + j) + k == i * (len_b * len_c) + j * len_c + k)
            by (nonlinear_arith);
        lemma_linearize3(i, j, k, len_a, len_b, len_c);
    }
    Ok((i, j, k))
}

/// Decode `rem` against the first `j` dimensions of `lengths`, peeling
/// the fastest-varying dimension off the right end.
fn decode_prefix(rem: usize, lengths: &[usize], j: usize) -> (coords: Vec<usize>)
    requires
        1 <= j <= lengths@.len(),
        forall|q: int| 0 <= q < lengths@.len() ==> lengths@[q] > 0,
        rem < product(lengths@.take(j as int)),
    ensures
        coords@.len() == j,
        forall|q: int| 0 <= q < j ==> coords@[q] < lengths@[q],
        linearize(coords@, lengths@.take(j as int)) == rem,
    decreases j,
{
    let lj = lengths[j - 1];
    if j == 1 {
        proof {
            let e = Seq::<usize>::empty();
            assert(lengths@.take(1) =~= e.push(lj));
            lemma_product_push(e, lj);
            assert(product(e) == 1);
            assert((1 as nat) * lj == lj) by (nonlinear_arith);
            assert(seq![rem] =~= e.push(rem));
            assert(linearize(e, e) == 0);
            lemma_linearize_push(e, e, rem, lj);
            assert((0 as nat) * lj == 0) by (nonlinear_arith);
        }
        let mut coords: Vec<usize> = Vec::new();
        coords.push(rem);
        coords
    } else {
        let ghost front = lengths@.take(j as int - 1);
        proof {
            assert(lengths@.take(j as int) =~= lengths@.take(j as int - 1).push(lj));
            lemma_product_push(lengths@.take(j as int - 1), lj);
            assert(product(front) * lj == lj * product(front)) by (nonlinear_arith);
            lemma_multiply_divide_lt(rem as int, lj as int, product(front) as int);
        }
        let q = rem / lj;
        let r = rem % lj;
        let mut coords = decode_prefix(q, lengths, j - 1);
        proof {
            lemma_mod_division_less_than_divisor(rem as int, lj as int);
            lemma_fundamental_div_mod(rem as int, lj as int);
            assert(lj * (rem as int / lj as int) == q * lj) by (nonlinear_arith)
                requires
                    q == rem as int / lj as int,
            ;
            lemma_linearize_push(coords@, front, r, lj);
        }
        coords.push(r);
        coords
    }
}

/// From the flat index into the Cartesian product of N sequences, get
/// the N coordinates into the original sequences.
///
/// `lengths` holds the lengths of the N sequences, slowest-varying
/// dimension first. The call succeeds exactly when `lengths` is
/// non-empty and `index` falls inside the product space, and then the
/// coordinate vector it returns is the unique one that linearizes back
/// to `index` in row-major order.
#[allow(non_snake_case)]
pub fn product_index_Nd(index: usize, lengths: &[usize]) -> (r: Result<Vec<usize>, InvalidIndex>)
    requires
        product(lengths@) <= usize::MAX,
    ensures
        match r {
            Ok(coords) => {
                &&& lengths@.len() > 0
                &&& index < product(lengths@)
                &&& in_bounds(coords@, lengths@)
                &&& linearize(coords@, lengths@) == index
            },
            Err(e) => {
                &&& lengths@.len() == 0 || index >= product(lengths@)
                &&& e.index == index
                &&& e.product_size == (if lengths@.len() == 0 {
                    0nat
                } else {
                    product(lengths@)
                })
            },
        },
{
    let n = lengths.len();
    if n == 0 {
        return Err(InvalidIndex { index, product_size: 0 });
    }
    let mut m: usize = 0;
    while m < n
        invariant
            n == lengths@.len(),
            0 <= m <= n,
            forall|q: int| 0 <= q < m ==> lengths@[q] > 0,
        decreases n - m,
    {
        if lengths[m] == 0 {
            proof {
                lemma_product_zero(lengths@, m as int);
            }
            return Err(InvalidIndex { index, product_size: 0 });
        }
        m += 1;
    }
    let mut product_size: usize = 1;
    let mut i: usize = 0;
    while i < n
        invariant
            n == lengths@.len(),
            0 <= i <= n,
            forall|q: int| 0 <= q < n ==> lengths@[q] > 0,
            product(lengths@) <= usize::MAX,
            product_size == product(lengths@.take(i as int)),
        decreases n - i,
    {
        proof {
            let li = lengths@[i as int];
            let upto = lengths@.take(i as int);
            let rest = lengths@.skip(i as int + 1);
            assert(lengths@.take(i as int + 1) =~= upto.push(li));
            lemma_product_push(upto, li);
            lemma_product_split(lengths@, i as int + 1);
            assert(forall|q: int| 0 <= q < rest.len() ==> rest[q] > 0);
            lemma_product_pos(rest);
            assert(product(lengths@.take(i as int + 1)) <= product(lengths@)) by (nonlinear_arith)
                requires
                    product(lengths@) == product(lengths@.take(i as int + 1)) * product(rest),
                    product(rest) >= 1,
            ;
        }
        product_size = product_size * lengths[i];
        i += 1;
    }
    proof {
        assert(lengths@.take(n as int) =~= lengths@);
    }
    if index >= product_size {
        return Err(InvalidIndex { index, product_size });
    }
    let coords = decode_prefix(index, lengths, n);
    Ok(coords)
}

} // verus!
