//! The channel moduli are pairwise coprime, so a residue in each channel fixes a
//! residue modulo their product.

use super::primes;
use crate::nt;
use vstd::arithmetic::power2::{
    lemma2_to64, lemma2_to64_rest, lemma_pow2_adds, lemma_pow2_pos, lemma_pow2_strictly_increases,
    pow2,
};
use vstd::prelude::*;

verus! {

/// The product of the first `n` channel moduli.
pub open spec fn product(n: int) -> int
    decreases n,
{
    if n <= 0 {
        1
    } else {
        product(n - 1) * primes::prime(n - 1)
    }
}

/// `w` inverts the product of the earlier moduli in channel `j`.
pub open spec fn inverts(w: int, j: int) -> bool {
    nt::cong(w * product(j), 1, primes::prime(j))
}

spec fn prefix0() -> int {
    1
}

spec fn prefix1() -> int {
    prefix0() * 9223372036854775783
}

spec fn prefix2() -> int {
    prefix1() * 9223372036854775643
}

spec fn prefix3() -> int {
    prefix2() * 9223372036854775549
}

spec fn prefix4() -> int {
    prefix3() * 9223372036854775507
}

spec fn prefix5() -> int {
    prefix4() * 9223372036854775433
}

spec fn prefix6() -> int {
    prefix5() * 9223372036854775421
}

spec fn prefix7() -> int {
    prefix6() * 9223372036854775417
}

spec fn prefix8() -> int {
    prefix7() * 9223372036854775399
}

spec fn prefix9() -> int {
    prefix8() * 9223372036854775351
}

spec fn prefix10() -> int {
    prefix9() * 9223372036854775337
}

spec fn prefix11() -> int {
    prefix10() * 9223372036854775291
}

spec fn prefix12() -> int {
    prefix11() * 9223372036854775279
}

spec fn prefix13() -> int {
    prefix12() * 9223372036854775259
}

spec fn prefix14() -> int {
    prefix13() * 9223372036854775181
}

spec fn prefix15() -> int {
    prefix14() * 9223372036854775159
}

spec fn prefix16() -> int {
    prefix15() * 9223372036854775139
}

spec fn prefix17() -> int {
    prefix16() * 9223372036854775097
}

spec fn prefix18() -> int {
    prefix17() * 9223372036854775073
}

spec fn prefix19() -> int {
    prefix18() * 9223372036854775057
}

spec fn prefix20() -> int {
    prefix19() * 9223372036854774959
}

spec fn prefix21() -> int {
    prefix20() * 9223372036854774937
}

spec fn prefix22() -> int {
    prefix21() * 9223372036854774917
}

spec fn prefix23() -> int {
    prefix22() * 9223372036854774893
}

spec fn prefix24() -> int {
    prefix23() * 9223372036854774797
}

spec fn prefix25() -> int {
    prefix24() * 9223372036854774739
}

spec fn prefix26() -> int {
    prefix25() * 9223372036854774713
}

spec fn prefix27() -> int {
    prefix26() * 9223372036854774679
}

spec fn prefix28() -> int {
    prefix27() * 9223372036854774629
}

spec fn prefix29() -> int {
    prefix28() * 9223372036854774587
}

spec fn prefix30() -> int {
    prefix29() * 9223372036854774571
}

spec fn prefix31() -> int {
    prefix30() * 9223372036854774559
}

spec fn prefix32() -> int {
    prefix31() * 9223372036854774511
}

spec fn prefix33() -> int {
    prefix32() * 9223372036854774509
}

spec fn prefix34() -> int {
    prefix33() * 9223372036854774499
}

spec fn prefix35() -> int {
    prefix34() * 9223372036854774451
}

spec fn prefix36() -> int {
    prefix35() * 9223372036854774413
}

spec fn prefix37() -> int {
    prefix36() * 9223372036854774341
}

spec fn prefix38() -> int {
    prefix37() * 9223372036854774319
}

spec fn prefix39() -> int {
    prefix38() * 9223372036854774307
}

spec fn prefix40() -> int {
    prefix39() * 9223372036854774277
}

spec fn prefix41() -> int {
    prefix40() * 9223372036854774257
}

spec fn prefix42() -> int {
    prefix41() * 9223372036854774247
}

spec fn prefix43() -> int {
    prefix42() * 9223372036854774233
}

spec fn prefix44() -> int {
    prefix43() * 9223372036854774199
}

spec fn prefix45() -> int {
    prefix44() * 9223372036854774179
}

spec fn prefix46() -> int {
    prefix45() * 9223372036854774173
}

spec fn prefix47() -> int {
    prefix46() * 9223372036854774053
}

spec fn prefix48() -> int {
    prefix47() * 9223372036854773999
}

spec fn prefix49() -> int {
    prefix48() * 9223372036854773977
}

spec fn prefix50() -> int {
    prefix49() * 9223372036854773953
}

spec fn prefix51() -> int {
    prefix50() * 9223372036854773899
}

spec fn prefix52() -> int {
    prefix51() * 9223372036854773867
}

spec fn prefix53() -> int {
    prefix52() * 9223372036854773783
}

spec fn prefix54() -> int {
    prefix53() * 9223372036854773639
}

spec fn prefix55() -> int {
    prefix54() * 9223372036854773561
}

spec fn prefix56() -> int {
    prefix55() * 9223372036854773557
}

spec fn prefix57() -> int {
    prefix56() * 9223372036854773519
}

spec fn prefix58() -> int {
    prefix57() * 9223372036854773507
}

spec fn prefix59() -> int {
    prefix58() * 9223372036854773489
}

spec fn prefix60() -> int {
    prefix59() * 9223372036854773477
}

spec fn prefix61() -> int {
    prefix60() * 9223372036854773443
}

spec fn prefix62() -> int {
    prefix61() * 9223372036854773429
}

spec fn prefix63() -> int {
    prefix62() * 9223372036854773407
}

/// One row of the table: the prefix product `m` has the inverse `w` modulo the channel
/// modulus `p`.
proof fn row(j: int, m: int, p: int, w: int)
    requires
        0 <= j < 64,
        product(j) == m,
        primes::prime(j) == p,
        p > 0,
        (w * m) % p == 1,
    ensures
        product(j + 1) == m * p,
        inverts(w, j),
{
    nt::cong_mod(w * m, p);
    nt::cong_sym((w * m) % p, w * m, p);
}

/// In every channel the product of the earlier moduli has an inverse.
pub proof fn lemma_inverses() -> (ws: Seq<int>)
    ensures
        ws.len() == 64,
        forall|j: int| 0 <= j < 64 ==> #[trigger] inverts(ws[j], j),
{
    let ws: Seq<int> = seq![
        1,
        2174080551544339973,
        4196139478669109789,
        819472669938580582,
        7020619613728807357,
        5241777736790394358,
        8320414596651337192,
        1006686748518991328,
        67085500503948287,
        4055185350850434877,
        3782575405628567065,
        4259975323811413069,
        4141842253573290422,
        5282806517567257267,
        5393776748814967291,
        7558629513596523396,
        6956350873264556283,
        5739462781638583825,
        8872110676806524041,
        7148549630462663219,
        3003186813111107351,
        5260896248698641442,
        7590572072035832988,
        1616248814012095237,
        7267892435138671089,
        214166628320147774,
        2261756566405897252,
        4347220123995725309,
        8604327271838314,
        7328928380263746762,
        6522688220510028595,
        6716644720854626267,
        6716543009471016635,
        1570484544985354275,
        1748029042319259629,
        4708944785791915287,
        315203153258108505,
        3898889478973457453,
        6006015865025358958,
        7840514205410933576,
        5145588224778384142,
        1119887550839293453,
        4839033908974840209,
        767069852477850845,
        8138580534072459504,
        5068991516433819722,
        987644432161762606,
        5176250811910213376,
        8326992629867391035,
        5819031809072053073,
        672331748759296830,
        1876031243309774668,
        1523460488053452341,
        87970198249545532,
        550016678692540082,
        4390886178712881200,
        165730578229228043,
        8526471494673201947,
        4962416918188912537,
        6762433861037563456,
        3044423392123597686,
        4745246025811588,
        3702417831439126407,
        1899565270744879435,
    ];
    row(0, prefix0(), 9223372036854775783, 1);
    row(1, prefix1(), 9223372036854775643, 2174080551544339973);
    row(2, prefix2(), 9223372036854775549, 4196139478669109789);
    row(3, prefix3(), 9223372036854775507, 819472669938580582);
    row(4, prefix4(), 9223372036854775433, 7020619613728807357);
    row(5, prefix5(), 9223372036854775421, 5241777736790394358);
    row(6, prefix6(), 9223372036854775417, 8320414596651337192);
    row(7, prefix7(), 9223372036854775399, 1006686748518991328);
    row(8, prefix8(), 9223372036854775351, 67085500503948287);
    row(9, prefix9(), 9223372036854775337, 4055185350850434877);
    row(10, prefix10(), 9223372036854775291, 3782575405628567065);
    row(11, prefix11(), 9223372036854775279, 4259975323811413069);
    row(12, prefix12(), 9223372036854775259, 4141842253573290422);
    row(13, prefix13(), 9223372036854775181, 5282806517567257267);
    row(14, prefix14(), 9223372036854775159, 5393776748814967291);
    row(15, prefix15(), 9223372036854775139, 7558629513596523396);
    row(16, prefix16(), 9223372036854775097, 6956350873264556283);
    row(17, prefix17(), 9223372036854775073, 5739462781638583825);
    row(18, prefix18(), 9223372036854775057, 8872110676806524041);
    row(19, prefix19(), 9223372036854774959, 7148549630462663219);
    row(20, prefix20(), 9223372036854774937, 3003186813111107351);
    row(21, prefix21(), 9223372036854774917, 5260896248698641442);
    row(22, prefix22(), 9223372036854774893, 7590572072035832988);
    row(23, prefix23(), 9223372036854774797, 1616248814012095237);
    row(24, prefix24(), 9223372036854774739, 7267892435138671089);
    row(25, prefix25(), 9223372036854774713, 214166628320147774);
    row(26, prefix26(), 9223372036854774679, 2261756566405897252);
    row(27, prefix27(), 9223372036854774629, 4347220123995725309);
    row(28, prefix28(), 9223372036854774587, 8604327271838314);
    row(29, prefix29(), 9223372036854774571, 7328928380263746762);
    row(30, prefix30(), 9223372036854774559, 6522688220510028595);
    row(31, prefix31(), 9223372036854774511, 6716644720854626267);
    row(32, prefix32(), 9223372036854774509, 6716543009471016635);
    row(33, prefix33(), 9223372036854774499, 1570484544985354275);
    row(34, prefix34(), 9223372036854774451, 1748029042319259629);
    row(35, prefix35(), 9223372036854774413, 4708944785791915287);
    row(36, prefix36(), 9223372036854774341, 315203153258108505);
    row(37, prefix37(), 9223372036854774319, 3898889478973457453);
    row(38, prefix38(), 9223372036854774307, 6006015865025358958);
    row(39, prefix39(), 9223372036854774277, 7840514205410933576);
    row(40, prefix40(), 9223372036854774257, 5145588224778384142);
    row(41, prefix41(), 9223372036854774247, 1119887550839293453);
    row(42, prefix42(), 9223372036854774233, 4839033908974840209);
    row(43, prefix43(), 9223372036854774199, 767069852477850845);
    row(44, prefix44(), 9223372036854774179, 8138580534072459504);
    row(45, prefix45(), 9223372036854774173, 5068991516433819722);
    row(46, prefix46(), 9223372036854774053, 987644432161762606);
    row(47, prefix47(), 9223372036854773999, 5176250811910213376);
    row(48, prefix48(), 9223372036854773977, 8326992629867391035);
    row(49, prefix49(), 9223372036854773953, 5819031809072053073);
    row(50, prefix50(), 9223372036854773899, 672331748759296830);
    row(51, prefix51(), 9223372036854773867, 1876031243309774668);
    row(52, prefix52(), 9223372036854773783, 1523460488053452341);
    row(53, prefix53(), 9223372036854773639, 87970198249545532);
    row(54, prefix54(), 9223372036854773561, 550016678692540082);
    row(55, prefix55(), 9223372036854773557, 4390886178712881200);
    row(56, prefix56(), 9223372036854773519, 165730578229228043);
    row(57, prefix57(), 9223372036854773507, 8526471494673201947);
    row(58, prefix58(), 9223372036854773489, 4962416918188912537);
    row(59, prefix59(), 9223372036854773477, 6762433861037563456);
    row(60, prefix60(), 9223372036854773443, 3044423392123597686);
    row(61, prefix61(), 9223372036854773429, 4745246025811588);
    row(62, prefix62(), 9223372036854773407, 3702417831439126407);
    row(63, prefix63(), 9223372036854773353, 1899565270744879435);
    ws
}

/// Every modulus lies between `2^62` and `2^63`.
pub proof fn lemma_prime_range(j: int)
    requires
        0 <= j < 64,
    ensures
        0x4000_0000_0000_0000 < primes::prime(j) < 0x8000_0000_0000_0000,
{
}

/// The first `c` moduli multiply to at least `2^(62 c)`, and to more where there are any.
proof fn lemma_product_lower(c: int)
    requires
        0 <= c <= 64,
    ensures
        product(c) >= pow2((62 * c) as nat),
        c > 0 ==> product(c) > pow2((62 * c) as nat),
        product(c) > 0,
    decreases c,
{
    lemma2_to64();
    if c > 0 {
        lemma_product_lower(c - 1);
        lemma_prime_range(c - 1);
        lemma_pow2_adds((62 * (c - 1)) as nat, 62);
        lemma2_to64_rest();
        let a: int = product(c - 1);
        let b: int = pow2((62 * (c - 1)) as nat) as int;
        let p: int = primes::prime(c - 1);
        let q: int = pow2(62) as int;
        lemma_pow2_pos((62 * (c - 1)) as nat);
        assert(a * p > b * q && a * p > 0) by (nonlinear_arith)
            requires
                a >= b > 0,
                p > q > 0,
        ;
        assert((62 * (c - 1)) as nat + 62 == (62 * c) as nat);
    }
}

/// More channels have a larger product.
pub proof fn lemma_product_grows(c: int, d: int)
    requires
        0 <= c <= d <= 64,
    ensures
        product(c) <= product(d),
    decreases d,
{
    if c < d {
        lemma_product_grows(c, d - 1);
        lemma_product_lower(d - 1);
        lemma_prime_range(d - 1);
        let a: int = product(d - 1);
        let p: int = primes::prime(d - 1);
        assert(a <= a * p) by (nonlinear_arith)
            requires
                a > 0,
                p >= 1,
        ;
    }
}

/// The whole table is not known to clear `bits` bits: 64 moduli clear 62 bits each, and
/// that is all that is counted on.
pub open spec fn too_many(bits: nat) -> bool {
    bits > 3968
}

/// The channels counted for `bits` bits: so many that 62 bits for each are more than
/// asked for, and never more than the table holds.
pub open spec fn needed(bits: nat) -> nat {
    if bits < 3968 {
        bits / 62 + 1
    } else {
        64
    }
}

/// The channels counted for a number of bits have a product of moduli beyond it.
pub proof fn lemma_product_exceeds(bits: nat)
    requires
        !too_many(bits),
    ensures
        1 <= needed(bits) <= 64,
        pow2(bits) < product(needed(bits) as int),
{
    let c: int = needed(bits) as int;
    lemma_product_lower(c);
    if bits < 3968 {
        lemma_pow2_strictly_increases(bits, (62 * c) as nat);
    }
}

/// A number that vanishes in each of the first `c` channels is a multiple of the product
/// of their moduli.
pub proof fn lemma_channels_combine(x: int, c: int)
    requires
        0 <= c <= 64,
        forall|j: int| 0 <= j < c ==> nt::cong(x, 0, #[trigger] primes::prime(j)),
    ensures
        nt::cong(x, 0, product(c)),
    decreases c,
{
    if c == 0 {
        nt::cong_from_quotient(x, 0, 1, x);
    } else {
        lemma_channels_combine(x, c - 1);
        lemma_product_lower(c - 1);
        lemma_prime_range(c - 1);
        let ws: Seq<int> = lemma_inverses();
        assert(inverts(ws[c - 1], c - 1));
        nt::coprime_product_divides(x, product(c - 1), primes::prime(c - 1), ws[c - 1]);
    }
}

/// Channels decide equality with zero: a number smaller in magnitude than the product of
/// the first `c` moduli is zero exactly where it vanishes in each of those channels.
pub proof fn law_channels_decide_zero(x: int, c: int)
    requires
        0 <= c <= 64,
        nt::abs(x) < product(c),
    ensures
        x == 0 <==> (forall|j: int| 0 <= j < c ==> nt::cong(x, 0, #[trigger] primes::prime(j))),
{
    if x == 0 {
        assert forall|j: int| 0 <= j < c implies nt::cong(x, 0, #[trigger] primes::prime(j)) by {
            lemma_prime_range(j);
            nt::cong_refl(0, primes::prime(j));
        }
    } else if forall|j: int| 0 <= j < c ==> nt::cong(x, 0, #[trigger] primes::prime(j)) {
        lemma_channels_combine(x, c);
        nt::small_multiple_is_zero(x, product(c));
    }
}

/// A mismatch in any one channel is a mismatch.
pub proof fn law_nonzero_channel_is_sound(x: int, j: int)
    requires
        0 <= j < 64,
        !nt::cong(x, 0, primes::prime(j)),
    ensures
        x != 0,
{
    lemma_prime_range(j);
    nt::cong_refl(0, primes::prime(j));
}

} // verus!
