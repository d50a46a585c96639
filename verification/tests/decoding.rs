use product_index::{product_index_2d, product_index_3d, product_index_Nd, InvalidIndex};

#[test]
fn test_2d() {
    let x: [i32; 10] = [1, 2, 3, 4, 5, 6, 53452, 345235, 33333, 112312];

    let y: [i32; 6] = [7, 8, 9, 123, 100, 1232];

    let mut product: Vec<(&i32, &i32)> = Vec::new();
    for a in x.iter() {
        for b in y.iter() {
            product.push((a, b));
        }
    }

    assert_eq!(product.len(), x.len() * y.len());
    for (i, expected) in product.iter().enumerate() {
        let (i1, i2) = product_index_2d(i, x.len(), y.len()).unwrap();
        assert_eq!(x[i1], *expected.0);
        assert_eq!(y[i2], *expected.1);
    }
}

#[test]
fn test_3d() {
    let x: [i32; 10] = [1, 2, 3, 4, 5, 6, 53452, 345235, 33333, 112312];

    let y: [i32; 6] = [7, 8, 9, 123, 100, 1232];

    let z: [i32; 8] = [7, 870980, 8098, 9, 123, 100, 1232, 98098908];

    let mut product: Vec<(&i32, &i32, &i32)> = Vec::new();
    for a in x.iter() {
        for b in y.iter() {
            for c in z.iter() {
                product.push((a, b, c));
            }
        }
    }

    assert_eq!(product.len(), x.len() * y.len() * z.len());

    for (i, expected) in product.iter().enumerate() {
        let (i1, i2, i3) = product_index_3d(i, x.len(), y.len(), z.len()).unwrap();
        assert_eq!(x[i1], *expected.0);
        assert_eq!(y[i2], *expected.1);
        assert_eq!(z[i3], *expected.2);
    }
}

#[test]
fn test_4d() {
    let x: [i32; 10] = [1, 2, 3, 4, 5, 6, 53452, 345235, 33333, 112312];

    let y: [i32; 6] = [7, 8, 9, 123, 100, 1232];

    let z: [i32; 8] = [7, 870980, 8098, 9, 123, 100, 1232, 98098908];

    let w: [i32; 8] = [798098, 34234, 8098, 982120912, 123, 100, 1232, 98098908];

    let mut product: Vec<(&i32, &i32, &i32, &i32)> = Vec::new();
    for a in x.iter() {
        for b in y.iter() {
            for c in z.iter() {
                for d in w.iter() {
                    product.push((a, b, c, d));
                }
            }
        }
    }

    assert_eq!(product.len(), x.len() * y.len() * z.len() * w.len());

    for (i, expected) in product.iter().enumerate() {
        let indicies =
            product_index_Nd(i, vec![x.len(), y.len(), z.len(), w.len()].as_ref()).unwrap();

        if let &[i1, i2, i3, i4] = &indicies[..] {
            assert_eq!(x[i1], *expected.0);
            assert_eq!(y[i2], *expected.1);
            assert_eq!(z[i3], *expected.2);
            assert_eq!(w[i4], *expected.3);
        } else {
            panic!("{indicies:?} Had a bad shape");
        };
    }
}

#[test]
fn test_5d() {
    let x: [i32; 10] = [1, 2, 3, 4, 5, 6, 53452, 345235, 33333, 112312];

    let y: [i32; 6] = [7, 8, 9, 123, 100, 1232];

    let z: [i32; 8] = [7, 870980, 8098, 9, 123, 100, 1232, 98098908];

    let w: [i32; 8] = [798098, 34234, 8098, 982120912, 123, 100, 1232, 98098908];
    let u: [i32; 11] = [
        908908, 34234, 8098, 982120912, 123, 100, 1232, 123123, 123123, 423423, 69,
    ];

    let mut product: Vec<(&i32, &i32, &i32, &i32, &i32)> = Vec::new();
    for a in x.iter() {
        for b in y.iter() {
            for c in z.iter() {
                for d in w.iter() {
                    for e in u.iter() {
                        product.push((a, b, c, d, e));
                    }
                }
            }
        }
    }

    assert_eq!(
        product.len(),
        x.len() * y.len() * z.len() * w.len() * u.len()
    );

    for (i, expected) in product.iter().enumerate() {
        let indicies = product_index_Nd(
            i,
            vec![x.len(), y.len(), z.len(), w.len(), u.len()].as_ref(),
        )
        .unwrap();

        if let &[i1, i2, i3, i4, i5] = &indicies[..] {
            assert_eq!(x[i1], *expected.0);
            assert_eq!(y[i2], *expected.1);
            assert_eq!(z[i3], *expected.2);
            assert_eq!(w[i4], *expected.3);
            assert_eq!(u[i5], *expected.4);
        } else {
            panic!("{indicies:?} Had a bad shape");
        };
    }
}

#[test]
fn nd_still_same() {
    let index: usize = 40;
    let len_a: usize = 12;
    let len_b: usize = 420;
    let len_c: usize = 69;

    let (ix, iy, iz) = product_index_3d(index, len_a, len_b, len_c).unwrap();
    let nd_indx = product_index_Nd(index, &[len_a, len_b, len_c]).unwrap();
    let (i2x, i2y, i2z) = (nd_indx[0], nd_indx[1], nd_indx[2]);

    assert_eq!(ix, i2x);
    assert_eq!(iy, i2y);
    assert_eq!(iz, i2z);

    let (ix, iy) = product_index_2d(index, len_a, len_b).unwrap();
    let nd_indx = product_index_Nd(index, &[len_a, len_b]).unwrap();
    let (i2x, i2y) = (nd_indx[0], nd_indx[1]);

    assert_eq!(ix, i2x);
    assert_eq!(iy, i2y);
    assert_eq!(iz, i2z);
}

fn reflatten(coords: &[usize], lengths: &[usize]) -> usize {
    let mut index: usize = 0;
    for k in 0..lengths.len() {
        let mut suffix: usize = 1;
        for m in (k + 1)..lengths.len() {
            suffix *= lengths[m];
        }
        index += coords[k] * suffix;
    }
    index
}

#[test]
fn validity_all_indices() {
    let lengths: [usize; 3] = [3, 4, 5];
    for index in 0..(3 * 4 * 5) {
        let coords = product_index_Nd(index, &lengths).unwrap();
        assert_eq!(coords.len(), lengths.len());
        for k in 0..lengths.len() {
            assert!(coords[k] < lengths[k]);
        }
    }
}

#[test]
fn rejection_at_and_past_product() {
    let lengths: [usize; 3] = [3, 4, 5];
    let product: usize = 60;
    for index in [product, product + 1, product + 1000] {
        let err: InvalidIndex = product_index_Nd(index, &lengths).unwrap_err();
        assert_eq!(err.index, index);
        assert_eq!(err.product_size, product);
    }
    let err = product_index_Nd(7, &[]).unwrap_err();
    assert_eq!(err.index, 7);
    assert_eq!(err.product_size, 0);
}

#[test]
fn rejection_zero_length_dimension() {
    let err = product_index_Nd(0, &[2, 0, 3]).unwrap_err();
    assert_eq!(err.index, 0);
    assert_eq!(err.product_size, 0);
}

#[test]
fn round_trip_all_indices() {
    let lengths: [usize; 3] = [4, 3, 2];
    for index in 0..(4 * 3 * 2) {
        let coords = product_index_Nd(index, &lengths).unwrap();
        assert_eq!(reflatten(&coords, &lengths), index);
    }
}

#[test]
fn specializations_match_general() {
    let len_a: usize = 4;
    let len_b: usize = 5;
    let len_c: usize = 3;
    for index in 0..(len_a * len_b) {
        let (i, j) = product_index_2d(index, len_a, len_b).unwrap();
        let coords = product_index_Nd(index, &[len_a, len_b]).unwrap();
        assert_eq!(vec![i, j], coords);
    }
    for index in 0..(len_a * len_b * len_c) {
        let (i, j, k) = product_index_3d(index, len_a, len_b, len_c).unwrap();
        let coords = product_index_Nd(index, &[len_a, len_b, len_c]).unwrap();
        assert_eq!(vec![i, j, k], coords);
    }
}

#[test]
fn odometer_ordering() {
    let lengths: [usize; 3] = [2, 3, 2];
    let product: usize = 12;
    for index in 0..(product - 1) {
        let current = product_index_Nd(index, &lengths).unwrap();
        let next = product_index_Nd(index + 1, &lengths).unwrap();

        let mut expected = current.clone();
        let mut k = lengths.len();
        loop {
            assert!(k > 0, "no coordinate left to carry into");
            k -= 1;
            if expected[k] + 1 < lengths[k] {
                expected[k] += 1;
                break;
            }
            expected[k] = 0;
        }
        assert_eq!(next, expected);
    }
}

#[test]
fn concrete_scenarios() {
    assert_eq!(product_index_2d(0, 3, 4).unwrap(), (0, 0));
    assert_eq!(product_index_2d(11, 3, 4).unwrap(), (2, 3));
    let err = product_index_2d(12, 3, 4).unwrap_err();
    assert_eq!(err.index, 12);
    assert_eq!(err.product_size, 12);

    let (i, j, k) = product_index_3d(40, 12, 420, 69).unwrap();
    let coords = product_index_Nd(40, &[12, 420, 69]).unwrap();
    assert_eq!(vec![i, j, k], coords);

    assert_eq!(product_index_Nd(5, &[2, 3]).unwrap(), vec![1, 2]);

    let err = product_index_Nd(0, &[]).unwrap_err();
    assert_eq!(err.index, 0);
    assert_eq!(err.product_size, 0);
}

#[test]
fn error_values_are_plain_data() {
    let a = InvalidIndex {
        index: 12,
        product_size: 12,
    };
    let b = product_index_2d(12, 3, 4).unwrap_err();
    assert_eq!(a, b);
    assert_eq!(a, a.clone());
}
