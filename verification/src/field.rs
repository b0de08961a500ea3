//! The base field: integers modulo a fixed 64-bit prime, stored canonically
//! as a `u64` below the order. All circuit values live in this field.

use vstd::prelude::*;

verus! {

/// Order of the base field: 2^64 - 2^32 + 1, a 64-bit prime.
pub const FIELD_ORDER: u64 = 0xFFFF_FFFF_0000_0001;

/// The field order as a mathematical integer.
pub open spec fn fp() -> int {
    FIELD_ORDER as int
}

/// A canonical field element: a `u64` strictly below the field order.
pub open spec fn is_felt(x: u64) -> bool {
    (x as int) < fp()
}

/// Field addition on canonical representatives.
pub open spec fn fadd(a: int, b: int) -> int {
    (a + b) % fp()
}

/// Field subtraction on canonical representatives (both in `[0, fp())`).
pub open spec fn fsub(a: int, b: int) -> int {
    (a + fp() - b) % fp()
}

/// Field multiplication on canonical representatives.
pub open spec fn fmul(a: int, b: int) -> int {
    (a * b) % fp()
}

pub fn f_add(a: u64, b: u64) -> (r: u64)
    requires
        is_felt(a),
        is_felt(b),
    ensures
        is_felt(r),
        r as int == fadd(a as int, b as int),
{
    let s: u128 = a as u128 + b as u128;
    let m: u128 = s % (FIELD_ORDER as u128);
    m as u64
}

pub fn f_sub(a: u64, b: u64) -> (r: u64)
    requires
        is_felt(a),
        is_felt(b),
    ensures
        is_felt(r),
        r as int == fsub(a as int, b as int),
{
    let s: u128 = a as u128 + FIELD_ORDER as u128 - b as u128;
    let m: u128 = s % (FIELD_ORDER as u128);
    m as u64
}

pub fn f_mul(a: u64, b: u64) -> (r: u64)
    requires
        is_felt(a),
        is_felt(b),
    ensures
        is_felt(r),
        r as int == fmul(a as int, b as int),
{
    proof {
        assert((a as int) * (b as int) < 0x1_0000_0000_0000_0000_0000_0000_0000_0000int)
            by (nonlinear_arith)
            requires a < 0x1_0000_0000_0000_0000u128, b < 0x1_0000_0000_0000_0000u128;
        assert((a as int) * (b as int) >= 0) by (nonlinear_arith)
            requires a >= 0, b >= 0;
    }
    let p: u128 = a as u128 * b as u128;
    let m: u128 = p % (FIELD_ORDER as u128);
    m as u64
}

/// Square-and-multiply exponentiation in the field. Only canonicality of the
/// result is promised; `f_try_inverse` checks the defining property at run
/// time instead of trusting this routine.
pub fn f_pow(base: u64, exp: u64) -> (r: u64)
    requires
        is_felt(base),
    ensures
        is_felt(r),
{
    let mut b = base;
    let mut e = exp;
    let mut acc: u64 = 1;
    while e > 0
        invariant
            is_felt(acc),
            is_felt(b),
        decreases e,
    {
        if e % 2 == 1 {
            acc = f_mul(acc, b);
        }
        b = f_mul(b, b);
        e = e / 2;
    }
    acc
}

/// Canonical subtraction is zero exactly on equal elements.
pub proof fn lemma_fsub_zero_iff(a: int, b: int)
    requires
        0 <= a < fp(),
        0 <= b < fp(),
    ensures
        fsub(a, b) == 0 <==> a == b,
{
    if a == b {
        assert(a + fp() - b == fp());
        vstd::arithmetic::div_mod::lemma_mod_self_0(fp());
    } else if a > b {
        vstd::arithmetic::div_mod::lemma_mod_add_multiples_vanish(a - b, fp());
        vstd::arithmetic::div_mod::lemma_small_mod((a - b) as nat, fp() as nat);
    } else {
        vstd::arithmetic::div_mod::lemma_small_mod((a + fp() - b) as nat, fp() as nat);
    }
}

/// Subtracting zero leaves a canonical element unchanged.
pub proof fn lemma_fsub_zero_right(a: int)
    requires
        0 <= a < fp(),
    ensures
        fsub(a, 0) == a,
{
    vstd::arithmetic::div_mod::lemma_mod_add_multiples_vanish(a, fp());
    vstd::arithmetic::div_mod::lemma_small_mod(a as nat, fp() as nat);
}

/// Multiplication by zero gives zero, on either side.
pub proof fn lemma_fmul_zero(a: int)
    ensures
        fmul(a, 0) == 0,
        fmul(0, a) == 0,
{
    vstd::arithmetic::div_mod::lemma_small_mod(0nat, fp() as nat);
}

/// Field multiplication is commutative.
pub proof fn lemma_fmul_comm(a: int, b: int)
    ensures
        fmul(a, b) == fmul(b, a),
{
    assert(a * b == b * a) by (nonlinear_arith);
}

/// Adding zero leaves a canonical element unchanged.
pub proof fn lemma_fadd_zero(a: int)
    requires
        0 <= a < fp(),
    ensures
        fadd(a, 0) == a,
        fadd(0, a) == a,
    {
    vstd::arithmetic::div_mod::lemma_small_mod(a as nat, fp() as nat);
}

/// Differences up to this bound have their field inverses available as
/// precomputed constants, so witness generation for small gates never has to
/// search for one.
pub const SMALL_INVERSE_BOUND: u64 = 64;

/// The multiplicative inverse of a small positive element, as a precomputed
/// canonical constant.
pub fn small_inverse(m: u64) -> (d: u64)
    requires
        1 <= m <= SMALL_INVERSE_BOUND,
    ensures
        0 < d < FIELD_ORDER,
        fmul(m as int, d as int) == 1,
{
    let d: u64 = match m {
        1 => 1,
        2 => 9223372034707292161,
        3 => 12297829379609722881,
        4 => 13835058052060938241,
        5 => 14757395255531667457,
        6 => 15372286724512153601,
        7 => 2635249152773512046,
        8 => 16140901060737761281,
        9 => 4099276459869907627,
        10 => 16602069662473125889,
        11 => 8384883667915720146,
        12 => 16909515396963368961,
        13 => 11351842504255128813,
        14 => 1317624576386756023,
        15 => 17216961131453612033,
        16 => 17293822565076172801,
        17 => 17361641477096079361,
        18 => 11273010264642245974,
        19 => 10679693934924233028,
        20 => 17524406865943855105,
        21 => 7027331074062698789,
        22 => 4192441833957860073,
        23 => 11228452911817573065,
        24 => 17678129733188976641,
        25 => 14019525492755084084,
        26 => 14899293286834856567,
        27 => 13664254866233025423,
        28 => 9882184322900670172,
        29 => 10177513969332184453,
        30 => 17831852600434098177,
        31 => 11306068945770229100,
        32 => 17870283317245378561,
        33 => 2794961222638573382,
        34 => 17904192773255331841,
        35 => 15284445086086369866,
        36 => 5636505132321122987,
        37 => 2991363903148310971,
        38 => 5339846967462116514,
        39 => 3783947501418376271,
        40 => 17985575467679219713,
        41 => 17546902895296799720,
        42 => 12737037571738641555,
        43 => 16301773828784981493,
        44 => 11319592951686222197,
        45 => 11887901733622732118,
        46 => 14837598490616078693,
        47 => 1177451749111569212,
        48 => 18062436901301780481,
        49 => 5646962470228954384,
        50 => 7009762746377542042,
        51 => 18085043205308416001,
        52 => 16673018678124720444,
        53 => 17750640519625354724,
        54 => 16055499467823804872,
        55 => 16434371989114811486,
        56 => 4941092161450335086,
        57 => 3559897978308077676,
        58 => 14312129019373384387,
        59 => 6565790261995021538,
        60 => 18139298334924341249,
        61 => 8769763573983982710,
        62 => 5653034472885114550,
        63 => 8491358381159094370,
        _ => 18158513693329981441,
    };
    proof {
        if m == 1 {
            assert(fmul(1int, 1int) == 1) by (nonlinear_arith);
        } else if m == 2 {
            assert(fmul(2int, 9223372034707292161int) == 1) by (nonlinear_arith);
        } else if m == 3 {
            assert(fmul(3int, 12297829379609722881int) == 1) by (nonlinear_arith);
        } else if m == 4 {
            assert(fmul(4int, 13835058052060938241int) == 1) by (nonlinear_arith);
        } else if m == 5 {
            assert(fmul(5int, 14757395255531667457int) == 1) by (nonlinear_arith);
        } else if m == 6 {
            assert(fmul(6int, 15372286724512153601int) == 1) by (nonlinear_arith);
        } else if m == 7 {
            assert(fmul(7int, 2635249152773512046int) == 1) by (nonlinear_arith);
        } else if m == 8 {
            assert(fmul(8int, 16140901060737761281int) == 1) by (nonlinear_arith);
        } else if m == 9 {
            assert(fmul(9int, 4099276459869907627int) == 1) by (nonlinear_arith);
        } else if m == 10 {
            assert(fmul(10int, 16602069662473125889int) == 1) by (nonlinear_arith);
        } else if m == 11 {
            assert(fmul(11int, 8384883667915720146int) == 1) by (nonlinear_arith);
        } else if m == 12 {
            assert(fmul(12int, 16909515396963368961int) == 1) by (nonlinear_arith);
        } else if m == 13 {
            assert(fmul(13int, 11351842504255128813int) == 1) by (nonlinear_arith);
        } else if m == 14 {
            assert(fmul(14int, 1317624576386756023int) == 1) by (nonlinear_arith);
        } else if m == 15 {
            assert(fmul(15int, 17216961131453612033int) == 1) by (nonlinear_arith);
        } else if m == 16 {
            assert(fmul(16int, 17293822565076172801int) == 1) by (nonlinear_arith);
        } else if m == 17 {
            assert(fmul(17int, 17361641477096079361int) == 1) by (nonlinear_arith);
        } else if m == 18 {
            assert(fmul(18int, 11273010264642245974int) == 1) by (nonlinear_arith);
        } else if m == 19 {
            assert(fmul(19int, 10679693934924233028int) == 1) by (nonlinear_arith);
        } else if m == 20 {
            assert(fmul(20int, 17524406865943855105int) == 1) by (nonlinear_arith);
        } else if m == 21 {
            assert(fmul(21int, 7027331074062698789int) == 1) by (nonlinear_arith);
        } else if m == 22 {
            assert(fmul(22int, 4192441833957860073int) == 1) by (nonlinear_arith);
        } else if m == 23 {
            assert(fmul(23int, 11228452911817573065int) == 1) by (nonlinear_arith);
        } else if m == 24 {
            assert(fmul(24int, 17678129733188976641int) == 1) by (nonlinear_arith);
        } else if m == 25 {
            assert(fmul(25int, 14019525492755084084int) == 1) by (nonlinear_arith);
        } else if m == 26 {
            assert(fmul(26int, 14899293286834856567int) == 1) by (nonlinear_arith);
        } else if m == 27 {
            assert(fmul(27int, 13664254866233025423int) == 1) by (nonlinear_arith);
        } else if m == 28 {
            assert(fmul(28int, 9882184322900670172int) == 1) by (nonlinear_arith);
        } else if m == 29 {
            assert(fmul(29int, 10177513969332184453int) == 1) by (nonlinear_arith);
        } else if m == 30 {
            assert(fmul(30int, 17831852600434098177int) == 1) by (nonlinear_arith);
        } else if m == 31 {
            assert(fmul(31int, 11306068945770229100int) == 1) by (nonlinear_arith);
        } else if m == 32 {
            assert(fmul(32int, 17870283317245378561int) == 1) by (nonlinear_arith);
        } else if m == 33 {
            assert(fmul(33int, 2794961222638573382int) == 1) by (nonlinear_arith);
        } else if m == 34 {
            assert(fmul(34int, 17904192773255331841int) == 1) by (nonlinear_arith);
        } else if m == 35 {
            assert(fmul(35int, 15284445086086369866int) == 1) by (nonlinear_arith);
        } else if m == 36 {
            assert(fmul(36int, 5636505132321122987int) == 1) by (nonlinear_arith);
        } else if m == 37 {
            assert(fmul(37int, 2991363903148310971int) == 1) by (nonlinear_arith);
        } else if m == 38 {
            assert(fmul(38int, 5339846967462116514int) == 1) by (nonlinear_arith);
        } else if m == 39 {
            assert(fmul(39int, 3783947501418376271int) == 1) by (nonlinear_arith);
        } else if m == 40 {
            assert(fmul(40int, 17985575467679219713int) == 1) by (nonlinear_arith);
        } else if m == 41 {
            assert(fmul(41int, 17546902895296799720int) == 1) by (nonlinear_arith);
        } else if m == 42 {
            assert(fmul(42int, 12737037571738641555int) == 1) by (nonlinear_arith);
        } else if m == 43 {
            assert(fmul(43int, 16301773828784981493int) == 1) by (nonlinear_arith);
        } else if m == 44 {
            assert(fmul(44int, 11319592951686222197int) == 1) by (nonlinear_arith);
        } else if m == 45 {
            assert(fmul(45int, 11887901733622732118int) == 1) by (nonlinear_arith);
        } else if m == 46 {
            assert(fmul(46int, 14837598490616078693int) == 1) by (nonlinear_arith);
        } else if m == 47 {
            assert(fmul(47int, 1177451749111569212int) == 1) by (nonlinear_arith);
        } else if m == 48 {
            assert(fmul(48int, 18062436901301780481int) == 1) by (nonlinear_arith);
        } else if m == 49 {
            assert(fmul(49int, 5646962470228954384int) == 1) by (nonlinear_arith);
        } else if m == 50 {
            assert(fmul(50int, 7009762746377542042int) == 1) by (nonlinear_arith);
        } else if m == 51 {
            assert(fmul(51int, 18085043205308416001int) == 1) by (nonlinear_arith);
        } else if m == 52 {
            assert(fmul(52int, 16673018678124720444int) == 1) by (nonlinear_arith);
        } else if m == 53 {
            assert(fmul(53int, 17750640519625354724int) == 1) by (nonlinear_arith);
        } else if m == 54 {
            assert(fmul(54int, 16055499467823804872int) == 1) by (nonlinear_arith);
        } else if m == 55 {
            assert(fmul(55int, 16434371989114811486int) == 1) by (nonlinear_arith);
        } else if m == 56 {
            assert(fmul(56int, 4941092161450335086int) == 1) by (nonlinear_arith);
        } else if m == 57 {
            assert(fmul(57int, 3559897978308077676int) == 1) by (nonlinear_arith);
        } else if m == 58 {
            assert(fmul(58int, 14312129019373384387int) == 1) by (nonlinear_arith);
        } else if m == 59 {
            assert(fmul(59int, 6565790261995021538int) == 1) by (nonlinear_arith);
        } else if m == 60 {
            assert(fmul(60int, 18139298334924341249int) == 1) by (nonlinear_arith);
        } else if m == 61 {
            assert(fmul(61int, 8769763573983982710int) == 1) by (nonlinear_arith);
        } else if m == 62 {
            assert(fmul(62int, 5653034472885114550int) == 1) by (nonlinear_arith);
        } else if m == 63 {
            assert(fmul(63int, 8491358381159094370int) == 1) by (nonlinear_arith);
        } else if m == 64 {
            assert(fmul(64int, 18158513693329981441int) == 1) by (nonlinear_arith);
        }
    }
    d
}

/// The negation of an invertible element is inverted by its negated inverse.
pub proof fn lemma_neg_inverse(m: int, d: int)
    requires
        0 < m < fp(),
        0 < d < fp(),
        fmul(m, d) == 1,
    ensures
        fmul(fp() - m, fp() - d) == 1,
{
    assert((fp() - m) * (fp() - d) == fp() * (fp() - d - m) + m * d) by (nonlinear_arith);
    vstd::arithmetic::div_mod::lemma_mod_multiples_vanish(fp() - d - m, m * d, fp());
}

/// Multiplicative inverse, if one is found: any returned value is checked to
/// satisfy `x * d == 1` in the field, and zero never has an inverse.
pub fn f_try_inverse(x: u64) -> (r: Option<u64>)
    requires
        is_felt(x),
    ensures
        r matches Some(d) ==> is_felt(d) && fmul(x as int, d as int) == 1,
        x == 0 ==> r is None,
{
    let cand = f_pow(x, FIELD_ORDER - 2);
    let check = f_mul(x, cand);
    if check == 1 {
        Some(cand)
    } else {
        None
    }
}

} // verus!
