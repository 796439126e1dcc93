//! Why the Baby Bear field and its extension are fields: one can divide by
//! everything but zero.
use crate::baby_bear::{lemma_reduce_left, lemma_square_step, lemma_squared_is_power, lemma_times_commutes};
use crate::baby_bear::{residue, BabyBearElem, BabyBearExtElem, Quad, P};
use crate::field::{divides_all, invertible, lemma_invertible_cancels, lemma_mul_one, lemma_mul_zero};
use crate::field::{lemma_pow_adds, lemma_pow_multiplies};
use crate::field::{lemma_pow_of_one, lemma_pow_reduced, pow, reduced, Elem, Field};
use vstd::arithmetic::div_mod::{lemma_fundamental_div_mod, lemma_fundamental_div_mod_converse, lemma_mul_mod_noop};
use vstd::arithmetic::div_mod::{lemma_mul_mod_noop_left, lemma_sub_mod_noop};
use vstd::arithmetic::mul::{lemma_mul_is_associative, lemma_mul_is_commutative};
use vstd::arithmetic::power2::{lemma2_to64, lemma_pow2_unfold, pow2};
use vstd::prelude::*;
use vstd::set_lib::{lemma_int_range, lemma_map_size, lemma_subset_equality, set_int_range};

verus! {

/// A generator of the group of non-zero residues.
pub const GENERATOR: u32 = 31;

/// One multiplication, on given residues.
proof fn lemma_power_step(x: BabyBearElem, k: nat, a: u32, b: u32)
    requires
        pow(x, k).value == a,
        (x.value * a) % P as int == b,
    ensures
        pow(x, k + 1).value == b,
{
    assert(pow(x, k + 1) == x.spec_mul(pow(x, k)));
}

/// The generator raised to the order of the group.
proof fn lemma_generator_full()
    ensures
        pow(BabyBearElem { value: GENERATOR }, 15 * pow2(27)).value == 1,
{
    let g = BabyBearElem { value: GENERATOR };
    let h = BabyBearElem { value: 440564289 };
    assert(pow(g, 0).value == 1);
    lemma_power_step(g, 0, 1, 31);
    lemma_power_step(g, 1, 31, 961);
    lemma_power_step(g, 2, 961, 29791);
    lemma_power_step(g, 3, 29791, 923521);
    lemma_power_step(g, 4, 923521, 28629151);
    lemma_power_step(g, 5, 28629151, 887503681);
    lemma_power_step(g, 6, 887503681, 1340157138);
    lemma_power_step(g, 7, 1340157138, 1279552858);
    lemma_power_step(g, 8, 1279552858, 1414086099);
    lemma_power_step(g, 9, 1414086099, 1558084728);
    lemma_power_step(g, 10, 1558084728, 1995510385);
    lemma_power_step(g, 11, 1995510385, 1462844305);
    lemma_power_step(g, 12, 1462844305, 1056323193);
    lemma_power_step(g, 13, 1056323193, 533764247);
    lemma_power_step(g, 14, 533764247, 440564289);
    assert(pow(g, 15) == h);
    lemma_square_step(h, 0, 440564289, 975630072);
    lemma_square_step(h, 1, 975630072, 1149491290);
    lemma_square_step(h, 2, 1149491290, 1003846038);
    lemma_square_step(h, 3, 1003846038, 1267047229);
    lemma_square_step(h, 4, 1267047229, 570250684);
    lemma_square_step(h, 5, 570250684, 414040701);
    lemma_square_step(h, 6, 414040701, 195061667);
    lemma_square_step(h, 7, 195061667, 1049899240);
    lemma_square_step(h, 8, 1049899240, 1559589183);
    lemma_square_step(h, 9, 1559589183, 1286330022);
    lemma_square_step(h, 10, 1286330022, 1421947380);
    lemma_square_step(h, 11, 1421947380, 2009781145);
    lemma_square_step(h, 12, 2009781145, 1657000625);
    lemma_square_step(h, 13, 1657000625, 298008106);
    lemma_square_step(h, 14, 298008106, 1282623253);
    lemma_square_step(h, 15, 1282623253, 1340477990);
    lemma_square_step(h, 16, 1340477990, 341742893);
    lemma_square_step(h, 17, 341742893, 1753498361);
    lemma_square_step(h, 18, 1753498361, 1732600167);
    lemma_square_step(h, 19, 1732600167, 397765732);
    lemma_square_step(h, 20, 397765732, 1721589904);
    lemma_square_step(h, 21, 1721589904, 760005850);
    lemma_square_step(h, 22, 760005850, 196396260);
    lemma_square_step(h, 23, 196396260, 1592366214);
    lemma_square_step(h, 24, 1592366214, 1728404513);
    lemma_square_step(h, 25, 1728404513, 2013265920);
    lemma_square_step(h, 26, 2013265920, 1);
    lemma_squared_is_power(h, 27);
    lemma_pow_multiplies(g, 15, pow2(27));
}

/// The generator raised to half the order.
proof fn lemma_generator_half()
    ensures
        pow(BabyBearElem { value: GENERATOR }, 15 * pow2(26)).value == 2013265920,
{
    let g = BabyBearElem { value: GENERATOR };
    let h = BabyBearElem { value: 440564289 };
    assert(pow(g, 0).value == 1);
    lemma_power_step(g, 0, 1, 31);
    lemma_power_step(g, 1, 31, 961);
    lemma_power_step(g, 2, 961, 29791);
    lemma_power_step(g, 3, 29791, 923521);
    lemma_power_step(g, 4, 923521, 28629151);
    lemma_power_step(g, 5, 28629151, 887503681);
    lemma_power_step(g, 6, 887503681, 1340157138);
    lemma_power_step(g, 7, 1340157138, 1279552858);
    lemma_power_step(g, 8, 1279552858, 1414086099);
    lemma_power_step(g, 9, 1414086099, 1558084728);
    lemma_power_step(g, 10, 1558084728, 1995510385);
    lemma_power_step(g, 11, 1995510385, 1462844305);
    lemma_power_step(g, 12, 1462844305, 1056323193);
    lemma_power_step(g, 13, 1056323193, 533764247);
    lemma_power_step(g, 14, 533764247, 440564289);
    assert(pow(g, 15) == h);
    lemma_square_step(h, 0, 440564289, 975630072);
    lemma_square_step(h, 1, 975630072, 1149491290);
    lemma_square_step(h, 2, 1149491290, 1003846038);
    lemma_square_step(h, 3, 1003846038, 1267047229);
    lemma_square_step(h, 4, 1267047229, 570250684);
    lemma_square_step(h, 5, 570250684, 414040701);
    lemma_square_step(h, 6, 414040701, 195061667);
    lemma_square_step(h, 7, 195061667, 1049899240);
    lemma_square_step(h, 8, 1049899240, 1559589183);
    lemma_square_step(h, 9, 1559589183, 1286330022);
    lemma_square_step(h, 10, 1286330022, 1421947380);
    lemma_square_step(h, 11, 1421947380, 2009781145);
    lemma_square_step(h, 12, 2009781145, 1657000625);
    lemma_square_step(h, 13, 1657000625, 298008106);
    lemma_square_step(h, 14, 298008106, 1282623253);
    lemma_square_step(h, 15, 1282623253, 1340477990);
    lemma_square_step(h, 16, 1340477990, 341742893);
    lemma_square_step(h, 17, 341742893, 1753498361);
    lemma_square_step(h, 18, 1753498361, 1732600167);
    lemma_square_step(h, 19, 1732600167, 397765732);
    lemma_square_step(h, 20, 397765732, 1721589904);
    lemma_square_step(h, 21, 1721589904, 760005850);
    lemma_square_step(h, 22, 760005850, 196396260);
    lemma_square_step(h, 23, 196396260, 1592366214);
    lemma_square_step(h, 24, 1592366214, 1728404513);
    lemma_square_step(h, 25, 1728404513, 2013265920);
    lemma_squared_is_power(h, 26);
    lemma_pow_multiplies(g, 15, pow2(26));
}

/// The generator raised to a third of the order.
proof fn lemma_generator_third()
    ensures
        pow(BabyBearElem { value: GENERATOR }, 5 * pow2(27)).value == 1314723123,
{
    let g = BabyBearElem { value: GENERATOR };
    let h = BabyBearElem { value: 28629151 };
    assert(pow(g, 0).value == 1);
    lemma_power_step(g, 0, 1, 31);
    lemma_power_step(g, 1, 31, 961);
    lemma_power_step(g, 2, 961, 29791);
    lemma_power_step(g, 3, 29791, 923521);
    lemma_power_step(g, 4, 923521, 28629151);
    assert(pow(g, 5) == h);
    lemma_square_step(h, 0, 28629151, 1558084728);
    lemma_square_step(h, 1, 1558084728, 1422208504);
    lemma_square_step(h, 2, 1422208504, 1678705229);
    lemma_square_step(h, 3, 1678705229, 1771892767);
    lemma_square_step(h, 4, 1771892767, 940487245);
    lemma_square_step(h, 5, 940487245, 1516982208);
    lemma_square_step(h, 6, 1516982208, 792115306);
    lemma_square_step(h, 7, 792115306, 452791590);
    lemma_square_step(h, 8, 452791590, 1605829134);
    lemma_square_step(h, 9, 1605829134, 2008025366);
    lemma_square_step(h, 10, 2008025366, 456279664);
    lemma_square_step(h, 11, 456279664, 1492617483);
    lemma_square_step(h, 12, 1492617483, 1252078097);
    lemma_square_step(h, 13, 1252078097, 12770214);
    lemma_square_step(h, 14, 12770214, 1812738875);
    lemma_square_step(h, 15, 1812738875, 1048536409);
    lemma_square_step(h, 16, 1048536409, 434152628);
    lemma_square_step(h, 17, 434152628, 1734511292);
    lemma_square_step(h, 18, 1734511292, 839726776);
    lemma_square_step(h, 19, 839726776, 629262984);
    lemma_square_step(h, 20, 629262984, 1502726565);
    lemma_square_step(h, 21, 1502726565, 48459945);
    lemma_square_step(h, 22, 48459945, 288916259);
    lemma_square_step(h, 23, 288916259, 503591070);
    lemma_square_step(h, 24, 503591070, 782862608);
    lemma_square_step(h, 25, 782862608, 1314723124);
    lemma_square_step(h, 26, 1314723124, 1314723123);
    lemma_squared_is_power(h, 27);
    lemma_pow_multiplies(g, 5, pow2(27));
}

/// The generator raised to a fifth of the order.
proof fn lemma_generator_fifth()
    ensures
        pow(BabyBearElem { value: GENERATOR }, 3 * pow2(27)).value == 645581151,
{
    let g = BabyBearElem { value: GENERATOR };
    let h = BabyBearElem { value: 29791 };
    assert(pow(g, 0).value == 1);
    lemma_power_step(g, 0, 1, 31);
    lemma_power_step(g, 1, 31, 961);
    lemma_power_step(g, 2, 961, 29791);
    assert(pow(g, 3) == h);
    lemma_square_step(h, 0, 29791, 887503681);
    lemma_square_step(h, 1, 887503681, 1462844305);
    lemma_square_step(h, 2, 1462844305, 839089552);
    lemma_square_step(h, 3, 839089552, 1646113519);
    lemma_square_step(h, 4, 1646113519, 989735200);
    lemma_square_step(h, 5, 989735200, 354087134);
    lemma_square_step(h, 6, 354087134, 939704260);
    lemma_square_step(h, 7, 939704260, 210852613);
    lemma_square_step(h, 8, 210852613, 1924503713);
    lemma_square_step(h, 9, 1924503713, 620932417);
    lemma_square_step(h, 10, 620932417, 953858903);
    lemma_square_step(h, 11, 953858903, 911499372);
    lemma_square_step(h, 12, 911499372, 1788359951);
    lemma_square_step(h, 13, 1788359951, 1109355884);
    lemma_square_step(h, 14, 1109355884, 712883858);
    lemma_square_step(h, 15, 712883858, 1634029288);
    lemma_square_step(h, 16, 1634029288, 475368472);
    lemma_square_step(h, 17, 475368472, 233410736);
    lemma_square_step(h, 18, 233410736, 1351192264);
    lemma_square_step(h, 19, 1351192264, 1537548338);
    lemma_square_step(h, 20, 1537548338, 981668758);
    lemma_square_step(h, 21, 981668758, 410767134);
    lemma_square_step(h, 22, 410767134, 1902556399);
    lemma_square_step(h, 23, 1902556399, 422226006);
    lemma_square_step(h, 24, 422226006, 161600065);
    lemma_square_step(h, 25, 161600065, 1403701133);
    lemma_square_step(h, 26, 1403701133, 645581151);
    lemma_squared_is_power(h, 27);
    lemma_pow_multiplies(g, 3, pow2(27));
}

/// Eleven raised to half the order of the group.
proof fn lemma_eleven_half()
    ensures
        pow(BabyBearElem { value: 11 }, 15 * pow2(26)).value == 2013265920,
{
    let g = BabyBearElem { value: 11 };
    let h = BabyBearElem { value: 1227303670 };
    assert(pow(g, 0).value == 1);
    lemma_power_step(g, 0, 1, 11);
    lemma_power_step(g, 1, 11, 121);
    lemma_power_step(g, 2, 121, 1331);
    lemma_power_step(g, 3, 1331, 14641);
    lemma_power_step(g, 4, 14641, 161051);
    lemma_power_step(g, 5, 161051, 1771561);
    lemma_power_step(g, 6, 1771561, 19487171);
    lemma_power_step(g, 7, 19487171, 214358881);
    lemma_power_step(g, 8, 214358881, 344681770);
    lemma_power_step(g, 9, 344681770, 1778233549);
    lemma_power_step(g, 10, 1778233549, 1441175750);
    lemma_power_step(g, 11, 1441175750, 1760071803);
    lemma_power_step(g, 12, 1760071803, 1241396544);
    lemma_power_step(g, 13, 1241396544, 1575766458);
    lemma_power_step(g, 14, 1575766458, 1227303670);
    assert(pow(g, 15) == h);
    lemma_square_step(h, 0, 1227303670, 93415323);
    lemma_square_step(h, 1, 93415323, 1967256669);
    lemma_square_step(h, 2, 1967256669, 803698133);
    lemma_square_step(h, 3, 803698133, 1468189886);
    lemma_square_step(h, 4, 1468189886, 551940703);
    lemma_square_step(h, 5, 551940703, 845732530);
    lemma_square_step(h, 6, 845732530, 1179029991);
    lemma_square_step(h, 7, 1179029991, 139700921);
    lemma_square_step(h, 8, 139700921, 1161580287);
    lemma_square_step(h, 9, 1161580287, 234232845);
    lemma_square_step(h, 10, 234232845, 74384512);
    lemma_square_step(h, 11, 74384512, 921325686);
    lemma_square_step(h, 12, 921325686, 400588301);
    lemma_square_step(h, 13, 400588301, 772837880);
    lemma_square_step(h, 14, 772837880, 1619789736);
    lemma_square_step(h, 15, 1619789736, 709697997);
    lemma_square_step(h, 16, 709697997, 1054808915);
    lemma_square_step(h, 17, 1054808915, 949217896);
    lemma_square_step(h, 18, 949217896, 1734697937);
    lemma_square_step(h, 19, 1734697937, 784229619);
    lemma_square_step(h, 20, 784229619, 1917679203);
    lemma_square_step(h, 21, 1917679203, 1835875777);
    lemma_square_step(h, 22, 1835875777, 1400279418);
    lemma_square_step(h, 23, 1400279418, 420899707);
    lemma_square_step(h, 24, 420899707, 1728404513);
    lemma_square_step(h, 25, 1728404513, 2013265920);
    lemma_squared_is_power(h, 26);
    lemma_pow_multiplies(g, 15, pow2(26));
}

/// Minus eleven raised to half the order of the group.
proof fn lemma_minus_eleven_half()
    ensures
        pow(BabyBearElem { value: 2013265910 }, 15 * pow2(26)).value == 2013265920,
{
    let g = BabyBearElem { value: 2013265910 };
    let h = BabyBearElem { value: 785962251 };
    assert(pow(g, 0).value == 1);
    lemma_power_step(g, 0, 1, 2013265910);
    lemma_power_step(g, 1, 2013265910, 121);
    lemma_power_step(g, 2, 121, 2013264590);
    lemma_power_step(g, 3, 2013264590, 14641);
    lemma_power_step(g, 4, 14641, 2013104870);
    lemma_power_step(g, 5, 2013104870, 1771561);
    lemma_power_step(g, 6, 1771561, 1993778750);
    lemma_power_step(g, 7, 1993778750, 214358881);
    lemma_power_step(g, 8, 214358881, 1668584151);
    lemma_power_step(g, 9, 1668584151, 1778233549);
    lemma_power_step(g, 10, 1778233549, 572090171);
    lemma_power_step(g, 11, 572090171, 1760071803);
    lemma_power_step(g, 12, 1760071803, 771869377);
    lemma_power_step(g, 13, 771869377, 1575766458);
    lemma_power_step(g, 14, 1575766458, 785962251);
    assert(pow(g, 15) == h);
    lemma_square_step(h, 0, 785962251, 93415323);
    lemma_square_step(h, 1, 93415323, 1967256669);
    lemma_square_step(h, 2, 1967256669, 803698133);
    lemma_square_step(h, 3, 803698133, 1468189886);
    lemma_square_step(h, 4, 1468189886, 551940703);
    lemma_square_step(h, 5, 551940703, 845732530);
    lemma_square_step(h, 6, 845732530, 1179029991);
    lemma_square_step(h, 7, 1179029991, 139700921);
    lemma_square_step(h, 8, 139700921, 1161580287);
    lemma_square_step(h, 9, 1161580287, 234232845);
    lemma_square_step(h, 10, 234232845, 74384512);
    lemma_square_step(h, 11, 74384512, 921325686);
    lemma_square_step(h, 12, 921325686, 400588301);
    lemma_square_step(h, 13, 400588301, 772837880);
    lemma_square_step(h, 14, 772837880, 1619789736);
    lemma_square_step(h, 15, 1619789736, 709697997);
    lemma_square_step(h, 16, 709697997, 1054808915);
    lemma_square_step(h, 17, 1054808915, 949217896);
    lemma_square_step(h, 18, 949217896, 1734697937);
    lemma_square_step(h, 19, 1734697937, 784229619);
    lemma_square_step(h, 20, 784229619, 1917679203);
    lemma_square_step(h, 21, 1917679203, 1835875777);
    lemma_square_step(h, 22, 1835875777, 1400279418);
    lemma_square_step(h, 23, 1400279418, 420899707);
    lemma_square_step(h, 24, 420899707, 1728404513);
    lemma_square_step(h, 25, 1728404513, 2013265920);
    lemma_squared_is_power(h, 26);
    lemma_pow_multiplies(g, 15, pow2(26));
}

/// The order of the group of non-zero residues.
spec fn order() -> nat {
    (P - 1) as nat
}

spec fn generator() -> BabyBearElem {
    BabyBearElem { value: GENERATOR }
}

/// A common divisor of two exponents that lead to one leads to one.
proof fn lemma_common_exponent(x: BabyBearElem, a: nat, b: nat) -> (m: nat)
    requires
        a > 0,
        pow(x, a) == BabyBearElem::spec_one(),
        pow(x, b) == BabyBearElem::spec_one(),
    ensures
        m > 0,
        a % m == 0,
        b % m == 0,
        pow(x, m) == BabyBearElem::spec_one(),
    decreases b,
{
    if b == 0 {
        a
    } else {
        let (q, r) = (a / b, a % b);
        lemma_fundamental_div_mod(a as int, b as int);
        assert(b * q >= 0) by (nonlinear_arith);
        lemma_pow_adds(x, b * q, r);
        lemma_pow_multiplies(x, b, q);
        lemma_pow_of_one::<BabyBearElem>(q);
        lemma_pow_reduced(x, r);
        lemma_mul_one(pow(x, r));
        let m = lemma_common_exponent(x, b, r);
        let (u, v) = (b / m, r / m);
        lemma_fundamental_div_mod(b as int, m as int);
        lemma_fundamental_div_mod(r as int, m as int);
        assert(a == (u * q + v) * m) by (nonlinear_arith)
            requires
                a == b * q + r,
                b == m * u,
                r == m * v,
        ;
        lemma_fundamental_div_mod_converse(a as int, m as int, (u * q + v) as int, 0);
        m
    }
}

/// An odd divisor of `2^j * 15` divides fifteen.
proof fn lemma_odd_divisor(k: nat, m: nat, j: nat) -> (c: nat)
    requires
        k % 2 == 1,
        k * m == pow2(j) * 15,
    ensures
        k * c == 15,
    decreases j,
{
    if j == 0 {
        lemma2_to64();
        m
    } else {
        lemma_pow2_unfold(j);
        let (h, half) = (k / 2, m / 2);
        let low = pow2((j - 1) as nat);
        assert(k * m == 2 * (h * m) + m) by (nonlinear_arith)
            requires
                k == 2 * h + 1,
        ;
        assert(m == 2 * half);
        assert(k * half == low * 15) by (nonlinear_arith)
            requires
                m == 2 * half,
                k * m == (2 * low) * 15,
        ;
        lemma_odd_divisor(k, half, (j - 1) as nat)
    }
}

/// A divisor of the order, other than one, is even or a multiple of three or
/// five.
proof fn lemma_prime_factor(k: nat, m: nat)
    requires
        k > 1,
        k * m == order(),
    ensures
        k % 2 == 0 || k % 3 == 0 || k % 5 == 0,
{
    lemma2_to64();
    if k % 2 == 1 {
        let c = lemma_odd_divisor(k, m, 27);
        assert(0 < c <= 7) by (nonlinear_arith)
            requires
                k > 1,
                k * c == 15,
        ;
        assert(c == 1 || c == 2 || c == 3 || c == 4 || c == 5 || c == 6 || c == 7);
        if c == 1 {
            assert(k * 1 == 15);
        } else if c == 2 {
            assert(k * 2 == 15);
        } else if c == 3 {
            assert(k * 3 == 15);
        } else if c == 4 {
            assert(k * 4 == 15);
        } else if c == 5 {
            assert(k * 5 == 15);
        } else if c == 6 {
            assert(k * 6 == 15);
        } else {
            assert(k * 7 == 15);
        }
    }
}

/// A multiple of an exponent that leads to one leads to one.
proof fn lemma_multiple_exponent(x: BabyBearElem, m: nat, q: nat, n: nat)
    requires
        pow(x, m) == BabyBearElem::spec_one(),
        n == m * q,
    ensures
        pow(x, n) == BabyBearElem::spec_one(),
{
    lemma_pow_multiplies(x, m, q);
    lemma_pow_of_one::<BabyBearElem>(q);
}

/// No smaller exponent than the order leads the generator to one.
proof fn lemma_generator_order(d: nat)
    requires
        0 < d < order(),
    ensures
        pow(generator(), order()) == BabyBearElem::spec_one(),
        pow(generator(), d) != BabyBearElem::spec_one(),
{
    let g = generator();
    let one = BabyBearElem::spec_one();
    let n = order();
    lemma2_to64();
    lemma_generator_full();
    lemma_generator_half();
    lemma_generator_third();
    lemma_generator_fifth();
    assert(pow(g, n) == one);
    if pow(g, d) == one {
        let m = lemma_common_exponent(g, n, d);
        let k = n / m;
        lemma_fundamental_div_mod(n as int, m as int);
        lemma_fundamental_div_mod(d as int, m as int);
        let e = d / m;
        assert(m <= d) by (nonlinear_arith)
            requires
                d == m * e,
                d > 0,
                m > 0,
        ;
        assert(k > 1) by (nonlinear_arith)
            requires
                n == m * k,
                m < n,
                m > 0,
        ;
        assert(k * m == n) by (nonlinear_arith)
            requires
                n == m * k,
        ;
        lemma_prime_factor(k, m);
        if k % 2 == 0 {
            let h = k / 2;
            assert(15 * pow2(26) == m * h) by (nonlinear_arith)
                requires
                    n == m * k,
                    k == 2 * h,
                    n == 2 * (15 * pow2(26)),
            ;
            lemma_multiple_exponent(g, m, h, 15 * pow2(26));
        } else if k % 3 == 0 {
            let h = k / 3;
            assert(5 * pow2(27) == m * h) by (nonlinear_arith)
                requires
                    n == m * k,
                    k == 3 * h,
                    n == 3 * (5 * pow2(27)),
            ;
            lemma_multiple_exponent(g, m, h, 5 * pow2(27));
        } else {
            let h = k / 5;
            assert(3 * pow2(27) == m * h) by (nonlinear_arith)
                requires
                    n == m * k,
                    k == 5 * h,
                    n == 5 * (3 * pow2(27)),
            ;
            lemma_multiple_exponent(g, m, h, 3 * pow2(27));
        }
    }
}

/// Different exponents below the order give different powers.
proof fn lemma_powers_differ(i: nat, j: nat)
    requires
        i < j < order(),
    ensures
        pow(generator(), i) != pow(generator(), j),
{
    let g = generator();
    let n = order();
    let (a, d) = (pow(g, i), (j - i) as nat);
    lemma_generator_order(d);
    lemma_pow_adds(g, i, d);
    lemma_pow_adds(g, i, (n - i) as nat);
    let b = pow(g, (n - i) as nat);
    if a == pow(g, j) {
        // b * a == b * (a * g^d) and b * a == 1
        BabyBearElem::law_mul_commutes(a, b);
        BabyBearElem::law_mul_associates(b, a, pow(g, d));
        lemma_pow_reduced(g, d);
        lemma_mul_one(pow(g, d));
    }
}

/// The powers of the generator are reduced and not zero.
proof fn lemma_powers_are_residues(i: nat)
    requires
        i < order(),
    ensures
        1 <= pow(generator(), i).value < P,
{
    let g = generator();
    let n = order();
    lemma_generator_order(1);
    lemma_pow_adds(g, i, (n - i) as nat);
    lemma_pow_reduced(g, i);
    if pow(g, i).value == 0 {
        lemma_mul_zero(pow(g, (n - i) as nat));
        assert(pow(g, i) == BabyBearElem::spec_zero());
    }
}

/// Every non-zero residue is a power of the generator.
proof fn lemma_logarithm(x: BabyBearElem) -> (i: nat)
    requires
        1 <= x.value < P,
    ensures
        i < order(),
        pow(generator(), i) == x,
{
    let f = |i: int| pow(generator(), i as nat).value as int;
    let exponents = set_int_range(0, order() as int);
    let residues = set_int_range(1, P as int);
    let image = exponents.map(f);
    lemma_int_range(0, order() as int);
    lemma_int_range(1, P as int);
    assert forall|i: int, j: int| exponents.contains(i) && exponents.contains(j) && #[trigger] f(i) == #[trigger] f(
        j,
    ) implies i == j by {
        let (a, b) = (pow(generator(), i as nat), pow(generator(), j as nat));
        assert(a == b);
        if i < j {
            lemma_powers_differ(i as nat, j as nat);
        } else if j < i {
            lemma_powers_differ(j as nat, i as nat);
        }
    }
    lemma_map_size(exponents, image, f);
    assert(image.subset_of(residues)) by {
        assert forall|v: int| image.contains(v) implies #[trigger] residues.contains(v) by {
            let i = choose|i: int| exponents.contains(i) && f(i) == v;
            lemma_powers_are_residues(i as nat);
        }
    }
    lemma_subset_equality(image, residues);
    assert(image.contains(x.value as int));
    let i = choose|i: int| exponents.contains(i) && f(i) == x.value as int;
    assert(pow(generator(), i as nat).value == x.value);
    i as nat
}

/// A non-zero residue raised to the order of the group is one.
proof fn lemma_little_theorem(x: BabyBearElem)
    requires
        1 <= x.value < P,
    ensures
        pow(x, order()) == BabyBearElem::spec_one(),
{
    let i = lemma_logarithm(x);
    let (g, n) = (generator(), order());
    lemma_generator_order(1);
    lemma_pow_multiplies(g, i, n);
    lemma_pow_multiplies(g, n, i);
    assert(i * n == n * i) by (nonlinear_arith);
    lemma_pow_of_one::<BabyBearElem>(i);
}

/// The Baby Bear field is a field.
pub proof fn law_base_divides_all()
    ensures
        divides_all::<BabyBearElem>(),
{
    assert forall|x: BabyBearElem| reduced(x) && x != BabyBearElem::spec_zero() implies #[trigger] invertible(x) by {
        assert(x.value != 0);
        lemma_little_theorem(x);
        assert(pow(x, order()) == x.spec_mul(pow(x, (P - 2) as nat)));
    }
}

/// `n` is a multiple of the modulus.
spec fn vanishes(n: int) -> bool {
    n % P as int == 0
}

/// The product of two numbers vanishes only where one of them does.
proof fn lemma_no_zero_divisors(x: int, y: int)
    requires
        vanishes(x * y),
    ensures
        vanishes(x) || vanishes(y),
{
    if !vanishes(x) {
        let (a, b) = (residue(x), residue(y));
        lemma_mul_mod_noop(x, y, P as int);
        law_base_divides_all();
        assert(invertible(a));
        lemma_invertible_cancels(a, b, a.spec_inv());
    }
}

/// No square is one of the two given elements.
proof fn lemma_not_a_square(z: BabyBearElem, t: BabyBearElem)
    requires
        reduced(z),
        t.value == 11 || t.value == P - 11,
    ensures
        z.spec_mul(z) != t,
{
    if z.spec_mul(z) == t {
        lemma2_to64();
        lemma_eleven_half();
        lemma_minus_eleven_half();
        let half = 15 * pow2(26);
        if z.value == 0 {
            assert(z == BabyBearElem::spec_zero());
            lemma_mul_zero(z);
        } else {
            lemma_little_theorem(z);
            lemma_pow_multiplies(z, 2, half);
            assert(2 * half == order());
            assert(pow(z, 2) == t) by {
                assert(pow(z, 0) == BabyBearElem::spec_one());
                lemma_mul_one(z);
                assert(pow(z, 1) == z.spec_mul(pow(z, 0)));
                assert(pow(z, 2) == z.spec_mul(pow(z, 1)));
            }
        }
    }
}

/// `x^2` is neither `11 y^2` nor `-11 y^2`, unless both are zero.
proof fn lemma_forms_vanish_at_zero(x: int, y: int, c: int)
    requires
        c == 11 || c == -11,
        vanishes(x * x - c * (y * y)),
    ensures
        vanishes(x),
        vanishes(y),
{
    let (a, b, t) = (residue(x), residue(y), residue(c));
    let p = P as int;
    if !vanishes(y) {
        law_base_divides_all();
        assert(invertible(b));
        let w = b.spec_inv();
        let z = a.spec_mul(w);
        // a^2 == t * b^2
        lemma_mul_mod_noop(x, x, p);
        lemma_mul_mod_noop(y, y, p);
        lemma_mul_mod_noop(c, y * y, p);
        assert((x * x) % p == (c * (y * y)) % p) by {
            lemma_sub_mod_noop(x * x, c * (y * y), p);
        }
        assert(a.spec_mul(a) == t.spec_mul(b.spec_mul(b)));
        // z^2 == a^2 * w^2 == t * (b * w)^2 == t
        let (bb, ww, one) = (b.spec_mul(b), w.spec_mul(w), BabyBearElem::spec_one());
        lemma_square_of_product(a, w);
        lemma_square_of_product(b, w);
        BabyBearElem::law_mul_associates(t, bb, ww);
        BabyBearElem::law_reduced(one, one);
        lemma_mul_one(one);
        lemma_mul_one(t);
        assert(z.spec_mul(z) == t);
        BabyBearElem::law_reduced(a, w);
        lemma_not_a_square(z, t);
    } else {
        lemma_multiple_vanishes(y, y);
        lemma_multiple_vanishes(y * y, c);
        assert(c * (y * y) == (y * y) * c) by (nonlinear_arith);
        assert(vanishes(x * x));
        lemma_no_zero_divisors(x, x);
    }
}

/// A multiple of what vanishes vanishes.
proof fn lemma_multiple_vanishes(x: int, y: int)
    requires
        vanishes(x),
    ensures
        vanishes(x * y),
{
    lemma_mul_mod_noop_left(x, y, P as int);
    assert(0 * y == 0);
}

/// `(a * w)^2` is `a^2 * w^2`.
proof fn lemma_square_of_product(a: BabyBearElem, w: BabyBearElem)
    ensures
        a.spec_mul(w).spec_mul(a.spec_mul(w)) == a.spec_mul(a).spec_mul(w.spec_mul(w)),
{
    BabyBearElem::law_mul_associates(a, w, a.spec_mul(w));
    BabyBearElem::law_mul_associates(w, a, w);
    BabyBearElem::law_mul_commutes(w, a);
    BabyBearElem::law_mul_associates(a, w, w);
    BabyBearElem::law_mul_associates(a, a, w.spec_mul(w));
}

/// Products of products can be paired otherwise.
proof fn lemma_pairings(a: int, b: int, c: int, d: int)
    ensures
        (a * b) * (c * d) == (a * c) * (b * d),
        (a * b) * (c * d) == (a * d) * (b * c),
{
    lemma_mul_is_associative(a, b, c * d);
    lemma_mul_is_associative(b, c, d);
    lemma_mul_is_commutative(b, c);
    lemma_mul_is_associative(c, b, d);
    lemma_mul_is_associative(a, c, b * d);
    lemma_mul_is_associative(c, d, b);
    lemma_mul_is_commutative(c * d, b);
    lemma_mul_is_commutative(c, d);
    lemma_mul_is_associative(d, c, b);
    lemma_mul_is_commutative(c, b);
    lemma_mul_is_associative(a, d, b * c);
    lemma_mul_is_associative(d, b, c);
    lemma_mul_is_commutative(d, b);
    lemma_mul_is_associative(b, d, c);
}

/// A product with a sum of three terms.
proof fn lemma_three_terms(i: int, x: int, j: int, y: int, k: int, z: int, w: int)
    ensures
        (i * x + j * y + k * z) * w == i * (x * w) + j * (y * w) + k * (z * w),
{
    let (a, b, c) = (i * x, j * y, k * z);
    assert((a + b + c) * w == a * w + b * w + c * w) by (nonlinear_arith);
    lemma_mul_is_associative(i, x, w);
    lemma_mul_is_associative(j, y, w);
    lemma_mul_is_associative(k, z, w);
}

/// Where the norm vanishes, so do all coordinates.
proof fn lemma_norm_vanishes(a: Quad)
    requires
        vanishes(a.norm()),
    ensures
        vanishes(a.c0),
        vanishes(a.c1),
        vanishes(a.c2),
        vanishes(a.c3),
{
    let (u, v) = (a.even(), a.square());
    let (a0, a1, a2, a3) = (a.c0, a.c1, a.c2, a.c3);
    assert(u * u - (-11) * (v * v) == a.norm());
    lemma_forms_vanish_at_zero(u, v, -11);
    let (p00, p11, p22, p33) = (a0 * a0, a1 * a1, a2 * a2, a3 * a3);
    let (p01, p02, p03, p12, p13, p23) = (a0 * a1, a0 * a2, a0 * a3, a1 * a2, a1 * a3, a2 * a3);
    // (p + q s) is the product of a0 + a2 s and the conjugate of a1 + a3 s, where s^2 == -11.
    let (p, q, m) = (p01 + 11 * p23, p12 - p03, p11 + 11 * p33);
    let d = p11 - 11 * p33;
    lemma_pairings(a0, a1, a0, a1);
    lemma_pairings(a0, a1, a2, a3);
    lemma_pairings(a2, a3, a2, a3);
    lemma_pairings(a1, a2, a1, a2);
    lemma_pairings(a0, a3, a0, a3);
    lemma_pairings(a1, a2, a0, a3);
    lemma_pairings(a0, a2, a1, a3);
    lemma_pairings(a1, a3, a1, a3);
    lemma_pairings(a0, a1, a1, a2);
    lemma_pairings(a0, a1, a0, a3);
    lemma_pairings(a2, a3, a1, a2);
    lemma_pairings(a2, a3, a0, a3);
    lemma_mul_is_commutative(a1, a0);
    lemma_mul_is_commutative(a2, a0);
    lemma_mul_is_commutative(a3, a0);
    lemma_mul_is_commutative(a2, a1);
    lemma_mul_is_commutative(a3, a1);
    lemma_mul_is_commutative(a3, a2);
    assert(p01 * p01 == p00 * p11);
    assert(p23 * p23 == p22 * p33);
    assert(p12 * p12 == p11 * p22);
    assert(p03 * p03 == p00 * p33);
    assert(p13 * p13 == p11 * p33);
    assert(p01 * p23 == p02 * p13);
    assert(p12 * p03 == p02 * p13) by {
        lemma_mul_is_commutative(p12, p03);
        lemma_mul_is_commutative(p13, p02);
    }
    assert(p01 * p12 == p02 * p11) by {
        lemma_mul_is_commutative(p11, p02);
    }
    assert(p01 * p03 == p00 * p13);
    assert(p23 * p12 == p22 * p13) by {
        lemma_mul_is_commutative(p13, p22);
    }
    assert(p23 * p03 == p02 * p33) by {
        lemma_mul_is_commutative(p33, p02);
    }
    // The products of the sums, term by term.
    lemma_three_terms(1, p01, 11, p23, 0, 0, p);
    lemma_three_terms(1, p01, 11, p23, 0, 0, p01);
    lemma_three_terms(1, p01, 11, p23, 0, 0, p23);
    lemma_three_terms(1, p01, 11, p23, 0, 0, p12);
    lemma_three_terms(1, p01, 11, p23, 0, 0, p03);
    lemma_three_terms(1, p12, -1, p03, 0, 0, q);
    lemma_three_terms(1, p12, -1, p03, 0, 0, p12);
    lemma_three_terms(1, p12, -1, p03, 0, 0, p03);
    lemma_three_terms(1, p12, -1, p03, 0, 0, p);
    lemma_three_terms(1, p11, 11, p33, 0, 0, m);
    lemma_three_terms(1, p11, 11, p33, 0, 0, p11);
    lemma_three_terms(1, p11, 11, p33, 0, 0, p33);
    lemma_three_terms(1, p11, -11, p33, 0, 0, u);
    lemma_three_terms(1, p11, -11, p33, 0, 0, v);
    lemma_three_terms(1, p00, 22, p13, -11, p22, p11);
    lemma_three_terms(1, p00, 22, p13, -11, p22, p33);
    lemma_three_terms(1, p00, 22, p13, -11, p22, p13);
    lemma_three_terms(2, p02, -1, p11, 11, p33, p11);
    lemma_three_terms(2, p02, -1, p11, 11, p33, p33);
    lemma_three_terms(2, p02, -1, p11, 11, p33, p13);
    lemma_mul_is_commutative(p23, p01);
    lemma_mul_is_commutative(p03, p12);
    lemma_mul_is_commutative(p03, p01);
    lemma_mul_is_commutative(p12, p01);
    lemma_mul_is_commutative(p12, p23);
    lemma_mul_is_commutative(p03, p23);
    lemma_mul_is_commutative(p33, p11);
    lemma_mul_is_commutative(p22, p11);
    lemma_mul_is_commutative(p13, p11);
    lemma_mul_is_commutative(p13, p33);
    lemma_mul_is_commutative(p, p01);
    lemma_mul_is_commutative(p, p23);
    lemma_mul_is_commutative(p, p12);
    lemma_mul_is_commutative(p, p03);
    lemma_mul_is_commutative(p, q);
    lemma_mul_is_commutative(q, p12);
    lemma_mul_is_commutative(q, p03);
    lemma_mul_is_commutative(m, p11);
    lemma_mul_is_commutative(m, p33);
    lemma_mul_is_commutative(u, d);
    lemma_mul_is_commutative(v, d);
    lemma_mul_is_commutative(u, p11);
    lemma_mul_is_commutative(u, p33);
    lemma_mul_is_commutative(v, p11);
    lemma_mul_is_commutative(v, p33);
    assert(p * p - 11 * (q * q) == u * d + 22 * (v * p13));
    assert(2 * (p * q) - m * m == v * d - 2 * (u * p13));
    lemma_multiple_vanishes(u, d);
    lemma_multiple_vanishes(v, p13);
    lemma_multiple_vanishes(v, d);
    lemma_multiple_vanishes(u, p13);
    assert(vanishes(p * p - 11 * (q * q)));
    lemma_forms_vanish_at_zero(p, q, 11);
    lemma_multiple_vanishes(p, q);
    assert(vanishes(m * m));
    lemma_no_zero_divisors(m, m);
    assert(a1 * a1 - (-11) * (a3 * a3) == m);
    lemma_forms_vanish_at_zero(a1, a3, -11);
    lemma_multiple_vanishes(a1, a3);
    assert(vanishes(a0 * a0 - 11 * (a2 * a2)));
    lemma_forms_vanish_at_zero(a0, a2, 11);
}

/// An element times its adjoint is its norm.
proof fn lemma_adjoint(a: Quad)
    ensures
        a.times(a.adjoint()) == (Quad { c0: a.norm(), c1: 0, c2: 0, c3: 0 }),
{
    let (u, v) = (a.even(), a.square());
    let (a0, a1, a2, a3) = (a.c0, a.c1, a.c2, a.c3);
    let b = a.adjoint();
    lemma_spread_product(a0, a0, u, a2, v);
    lemma_spread_product(a1, a0, u, a2, v);
    lemma_spread_product(a2, a0, u, a2, v);
    lemma_spread_product(a3, a0, u, a2, v);
    lemma_spread_negative(a0, a1, u, a3, v);
    lemma_spread_negative(a1, a1, u, a3, v);
    lemma_spread_negative(a2, a1, u, a3, v);
    lemma_spread_negative(a3, a1, u, a3, v);
    lemma_spread_difference(a0, a2, u, a0, v);
    lemma_spread_difference(a1, a2, u, a0, v);
    lemma_spread_difference(a2, a2, u, a0, v);
    lemma_spread_difference(a3, a2, u, a0, v);
    lemma_spread_difference(a0, a1, v, a3, u);
    lemma_spread_difference(a1, a1, v, a3, u);
    lemma_spread_difference(a2, a1, v, a3, u);
    lemma_spread_difference(a3, a1, v, a3, u);
    lemma_mul_is_commutative(a1, a0);
    lemma_mul_is_commutative(a2, a0);
    lemma_mul_is_commutative(a3, a0);
    lemma_mul_is_commutative(a2, a1);
    lemma_mul_is_commutative(a3, a1);
    lemma_mul_is_commutative(a3, a2);
    let (p00, p11, p22, p33) = (a0 * a0, a1 * a1, a2 * a2, a3 * a3);
    let (p02, p13) = (a0 * a2, a1 * a3);
    assert(p00 * u + 22 * (p13 * u) - 11 * (p22 * u) == u * u) by (nonlinear_arith)
        requires
            u == p00 + 22 * p13 - 11 * p22,
    ;
    assert(2 * (p02 * v) - p11 * v + 11 * (p33 * v) == v * v) by (nonlinear_arith)
        requires
            v == 2 * p02 - p11 + 11 * p33,
    ;
    assert(2 * (p02 * u) - p11 * u + 11 * (p33 * u) == v * u) by (nonlinear_arith)
        requires
            v == 2 * p02 - p11 + 11 * p33,
    ;
    assert(p00 * v + 22 * (p13 * v) - 11 * (p22 * v) == u * v) by (nonlinear_arith)
        requires
            u == p00 + 22 * p13 - 11 * p22,
    ;
    lemma_mul_is_commutative(u, v);
}

proof fn lemma_spread_product(x: int, a: int, u: int, b: int, v: int)
    ensures
        x * (a * u + 11 * (b * v)) == (x * a) * u + 11 * ((x * b) * v),
{
    lemma_mul_is_associative(x, a, u);
    lemma_mul_is_associative(x, b, v);
    let (s, t) = (a * u, b * v);
    assert(x * (s + 11 * t) == x * s + 11 * (x * t)) by (nonlinear_arith);
}

proof fn lemma_spread_negative(x: int, a: int, u: int, b: int, v: int)
    ensures
        x * -(a * u + 11 * (b * v)) == -((x * a) * u) - 11 * ((x * b) * v),
{
    lemma_spread_product(x, a, u, b, v);
    let s = a * u + 11 * (b * v);
    assert(x * -s == -(x * s)) by (nonlinear_arith);
}

proof fn lemma_spread_difference(x: int, a: int, u: int, b: int, v: int)
    ensures
        x * (a * u - b * v) == (x * a) * u - (x * b) * v,
{
    lemma_mul_is_associative(x, a, u);
    lemma_mul_is_associative(x, b, v);
    let (s, t) = (a * u, b * v);
    assert(x * (s - t) == x * s - x * t) by (nonlinear_arith);
}

/// Multiplying by an integer multiplies all coordinates.
proof fn lemma_times_scalar(a: Quad, n: int)
    ensures
        a.times(Quad { c0: n, c1: 0, c2: 0, c3: 0 }) == (Quad {
            c0: a.c0 * n,
            c1: a.c1 * n,
            c2: a.c2 * n,
            c3: a.c3 * n,
        }),
{
    assert(a.c0 * 0 == 0 && a.c1 * 0 == 0 && a.c2 * 0 == 0 && a.c3 * 0 == 0);
}

/// The image of an element of the base field in the extension.
spec fn embedded(n: BabyBearElem) -> BabyBearExtElem {
    let zero = BabyBearElem::spec_zero();
    BabyBearExtElem { c0: n, c1: zero, c2: zero, c3: zero }
}

/// Multiplying by an element of the base field multiplies all coordinates.
proof fn lemma_scaled(b: BabyBearExtElem, n: BabyBearElem)
    ensures
        b.spec_mul(embedded(n)) == (BabyBearExtElem {
            c0: b.c0.spec_mul(n),
            c1: b.c1.spec_mul(n),
            c2: b.c2.spec_mul(n),
            c3: b.c3.spec_mul(n),
        }),
{
    lemma_times_scalar(b.quad(), n.value as int);
    assert(embedded(n).quad() == (Quad { c0: n.value as int, c1: 0, c2: 0, c3: 0 }));
}

/// An element times its reduced adjoint is its norm.
proof fn lemma_times_adjoint(x: BabyBearExtElem)
    ensures
        x.spec_mul(x.quad().adjoint().reduce()) == embedded(residue(x.quad().norm())),
{
    let a = x.quad();
    let b = a.adjoint().reduce();
    lemma_times_commutes(a, b.quad());
    lemma_reduce_left(a.adjoint(), a);
    lemma_times_commutes(a.adjoint(), a);
    lemma_adjoint(a);
}

/// An element whose norm does not vanish is inverted.
proof fn lemma_extension_inverts(x: BabyBearExtElem)
    requires
        !vanishes(x.quad().norm()),
    ensures
        invertible(x),
{
    let n = residue(x.quad().norm());
    let scale = n.spec_inv();
    let b = x.quad().adjoint().reduce();
    law_base_divides_all();
    assert(invertible(n));
    lemma_scaled(b, scale);
    assert(x.spec_inv() == b.spec_mul(embedded(scale)));
    BabyBearExtElem::law_mul_associates(x, b, embedded(scale));
    lemma_times_adjoint(x);
    lemma_scaled(embedded(n), scale);
    lemma_mul_zero(scale);
}

/// The extension of the Baby Bear field is a field.
pub proof fn law_extension_divides_all()
    ensures
        divides_all::<BabyBearExtElem>(),
{
    assert forall|x: BabyBearExtElem| reduced(x) && x != BabyBearExtElem::spec_zero() implies #[trigger] invertible(
        x,
    ) by {
        let a = x.quad();
        if vanishes(a.norm()) {
            lemma_norm_vanishes(a);
            assert(x.c0 == residue(a.c0) && x.c1 == residue(a.c1) && x.c2 == residue(a.c2) && x.c3 == residue(a.c3));
        }
        lemma_extension_inverts(x);
    }
}

} // verus!
