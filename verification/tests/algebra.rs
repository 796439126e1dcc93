use risc0_zkp::baby_bear::{BabyBearElem, BabyBearExtElem, P};
use risc0_zkp::cpu::{evaluate_piece, interpolate_piece, reverse_piece, shift_piece};
use risc0_zkp::field::{power, Elem, ExtElem, Field, RootsOfUnity};
use risc0_zkp::poly::{poly_divide, poly_eval, poly_interpolate};
use risc0_zkp::transform::{bit_reverse_index, log2_exact};

fn elem(n: u64) -> BabyBearElem {
    BabyBearElem::from_u64(n)
}

fn ext(a: u32, b: u32, c: u32, d: u32) -> BabyBearExtElem {
    BabyBearExtElem {
        c0: BabyBearElem { value: a },
        c1: BabyBearElem { value: b },
        c2: BabyBearElem { value: c },
        c3: BabyBearElem { value: d },
    }
}

#[test]
fn base_field_arithmetic() {
    let top = elem(P as u64 - 1);
    assert_eq!(top.plus(elem(1)), BabyBearElem::zero());
    assert_eq!(BabyBearElem::zero().minus(elem(1)), top);
    assert_eq!(top.times(top), BabyBearElem::one());
    assert_eq!(elem(P as u64), BabyBearElem::zero());
    assert_eq!(elem(u64::MAX).value, (u64::MAX % P as u64) as u32);
    assert_eq!(power(elem(2), 31).value, (1u64 << 31).rem_euclid(P as u64) as u32);
}

#[test]
fn unreduced_representations_are_reduced_by_operations() {
    let raw = BabyBearElem { value: P + 5 };
    assert!(!raw.is_same(elem(5)));
    assert_eq!(raw.plus(BabyBearElem::zero()), elem(5));
    assert_eq!(raw.times(BabyBearElem::one()), elem(5));
    assert_eq!(BabyBearElem::zero().minus(raw), elem(P as u64 - 5));
}

#[test]
fn base_field_inverses() {
    for n in [1u64, 2, 3, 137, 1 << 27, P as u64 - 1] {
        assert_eq!(elem(n).times(elem(n).inv()), BabyBearElem::one());
    }
    assert_eq!(BabyBearElem::zero().inv(), BabyBearElem::zero());
}

#[test]
fn extension_arithmetic() {
    let a = ext(1, 2, 3, 4);
    let b = ext(5, 6, 7, 8);
    assert_eq!(a.times(b), ext(2013265255, 2013265365, 2013265603, 60));
    assert_eq!(a.plus(b), ext(6, 8, 10, 12));
    assert_eq!(b.minus(a), ext(4, 4, 4, 4));
    assert_eq!(a.inv(), ext(913204995, 645615856, 471318424, 1520759288));
    assert_eq!(a.times(a.inv()), BabyBearExtElem::one());
    // The fourth power of the adjoined root is -11.
    let t = ext(0, 1, 0, 0);
    assert_eq!(power(t, 4), ext(P - 11, 0, 0, 0));
}

#[test]
fn extension_inverses() {
    for a in [
        ext(1, 0, 0, 0),
        ext(0, 1, 0, 0),
        ext(0, 0, 1, 0),
        ext(0, 0, 0, 1),
        ext(5, 0, 7, 0),
        ext(P - 1, P - 2, P - 3, P - 4),
        ext(123456789, 987654321, 0, 2013265900),
    ] {
        assert_eq!(a.times(a.inv()), BabyBearExtElem::one());
    }
    assert_eq!(BabyBearExtElem::zero().inv(), BabyBearExtElem::zero());
}

#[test]
fn extension_coordinates() {
    let a = ext(1, 2, 3, 4);
    assert_eq!(a.subelems(), vec![elem(1), elem(2), elem(3), elem(4)]);
    assert_eq!(BabyBearExtElem::from_subelems(&a.subelems()), a);
    assert_eq!(BabyBearExtElem::from_subfield(&elem(9)), ext(9, 0, 0, 0));
    assert_eq!(a.to_u32_words(), vec![1, 2, 3, 4]);
}

#[test]
fn random_elements_fold_their_words() {
    assert_eq!(BabyBearElem::from_draw(&[0, 0, 0, 0, 0, 7]), elem(7));
    assert_eq!(BabyBearElem::from_draw(&[0, 0, 0, 0, 1, 0]), elem(1 << 32));
    let mut words = vec![0u32; 24];
    words[5] = 1;
    words[11] = 2;
    words[17] = 3;
    words[23] = 4;
    assert_eq!(BabyBearExtElem::from_draw(&words), ext(1, 2, 3, 4));
}

#[test]
fn roots_of_unity() {
    assert_eq!(BabyBearElem::max_rou_po2(), 27);
    assert_eq!(BabyBearElem::rou_fwd(27), elem(137));
    assert_eq!(BabyBearElem::rou_fwd(2), elem(284861408));
    assert_eq!(BabyBearElem::rou_rev(2), elem(1728404513));
    for po2 in 0..=27usize {
        let w = BabyBearElem::rou_fwd(po2);
        assert_eq!(w.times(BabyBearElem::rou_rev(po2)), BabyBearElem::one());
        assert_eq!(power(w, 1u128 << po2), BabyBearElem::one());
        if po2 > 0 {
            assert_eq!(power(w, 1u128 << (po2 - 1)), elem(P as u64 - 1));
        }
    }
}

#[test]
fn evaluation_is_by_increasing_degree() {
    let p = [elem(1), elem(2), elem(3)];
    assert_eq!(poly_eval(&p, elem(10)), elem(321));
    assert_eq!(poly_eval::<BabyBearElem>(&[], elem(10)), BabyBearElem::zero());
}

#[test]
fn division_leaves_quotient_and_remainder() {
    // x^3 - 6x^2 + 11x - 6 = (x - 1)(x - 2)(x - 3)
    let minus_six = BabyBearElem::zero().minus(elem(6));
    let mut p = [minus_six, elem(11), minus_six, elem(1)];
    assert_eq!(poly_divide(&mut p, elem(1)), BabyBearElem::zero());
    // x^2 - 5x + 6
    assert_eq!(p, [elem(6), BabyBearElem::zero().minus(elem(5)), elem(1), elem(0)]);
    assert_eq!(poly_divide(&mut p, elem(4)), elem(2));
    // Quotient x - 1
    assert_eq!(p, [BabyBearElem::zero().minus(elem(1)), elem(1), elem(0), elem(0)]);
}

#[test]
fn division_multiplies_back() {
    let p: Vec<BabyBearElem> = (0..9).map(|i| elem(i * i + 3)).collect();
    for z in [0u64, 1, 77] {
        let mut q = p.clone();
        let remainder = poly_divide(&mut q, elem(z));
        for x in [5u64, 1000, P as u64 - 2] {
            let product = elem(x).minus(elem(z)).times(poly_eval(&q, elem(x)));
            assert_eq!(product.plus(remainder), poly_eval(&p, elem(x)));
        }
    }
}

#[test]
fn interpolation_meets_every_point() {
    let xs = [elem(2), elem(5), elem(11), elem(7)];
    let fs = [elem(1), elem(0), elem(9), elem(4)];
    let mut out = vec![elem(42); 5];
    poly_interpolate(&mut out, &xs, &fs, 4);
    for i in 0..4 {
        assert_eq!(poly_eval(&out[..4], xs[i]), fs[i]);
    }
    assert_eq!(out[4], elem(42));
    poly_interpolate(&mut out, &xs, &fs, 1);
    assert_eq!(out[0], elem(1));
}

#[test]
fn bit_reversal() {
    assert_eq!(bit_reverse_index(3, 1), 4);
    assert_eq!(bit_reverse_index(3, 6), 3);
    assert_eq!(bit_reverse_index(0, 5), 0);
    assert_eq!(log2_exact(1), 0);
    assert_eq!(log2_exact(1024), 10);
    assert_eq!(reverse_piece(&[0u32, 1, 2, 3, 4, 5, 6, 7]), vec![0, 4, 2, 6, 1, 5, 3, 7]);
}

#[test]
fn interpolation_on_roots_of_unity_is_exact() {
    for po2 in 0..5usize {
        let n = 1usize << po2;
        let values: Vec<BabyBearElem> = (0..n as u64).map(|i| elem(i * i * i + 5)).collect();
        let coeffs = interpolate_piece(&values);
        assert_eq!(evaluate_piece(&coeffs, n), values);
    }
}

#[test]
fn shifting_substitutes_the_triple() {
    let coeffs: Vec<BabyBearElem> = (1..9).map(elem).collect();
    let plain = reverse_piece(&coeffs);
    let shifted = reverse_piece(&shift_piece(&coeffs));
    for x in [1u64, 2, 12345] {
        assert_eq!(poly_eval(&shifted, elem(x)), poly_eval(&plain, elem(3 * x)));
    }
}

#[test]
fn strides_recombine() {
    // f(x) = g0(x^4) + g1(x^4) x + g2(x^4) x^2 + g3(x^4) x^3, where the g's
    // are contiguous in the bit-reversed coefficients.
    let values: Vec<BabyBearElem> = (0..16).map(|i| elem(7 * i + 1)).collect();
    let coeffs = interpolate_piece(&values);
    let f = reverse_piece(&coeffs);
    let x = elem(98765);
    let y = power(x, 4);
    let parts: Vec<BabyBearElem> = (0..4usize)
        .map(|r| {
            let at = bit_reverse_index(2, r);
            poly_eval(&reverse_piece(&coeffs[4 * at..4 * at + 4]), y)
        })
        .collect();
    assert_eq!(poly_eval(&parts, x), poly_eval(&f, x));
}
