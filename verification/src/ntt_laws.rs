use vstd::prelude::*;
use crate::ntt::{
    lemma_block_position, spec_invntt_layer, spec_invntt_scale, spec_invntt_tomont, spec_ntt,
    spec_ntt_layer, ZETAS,
};
use crate::reduce::{lemma_montgomery_exact, spec_montgomery_reduce};

verus! {

/// Whether `a` and `b` differ by a multiple of `Q`.
pub open spec fn spec_congruent(a: int, b: int) -> bool {
    (a - b) % 8380417 == 0
}

/// The entry of `ZETAS` that undoes entry `k`: in the layer whose entries
/// are `k0` to `2 * k0 - 1` it is entry `3 * k0 - 1 - k`.
pub open spec fn spec_zeta_partner(k: int) -> int {
    if k < 2 {
        1
    } else if k < 4 {
        5 - k
    } else if k < 8 {
        11 - k
    } else if k < 16 {
        23 - k
    } else if k < 32 {
        47 - k
    } else if k < 64 {
        95 - k
    } else if k < 128 {
        191 - k
    } else {
        383 - k
    }
}

/// Whether entry `k` of `ZETAS` times the negative of its partner is `2^64`
/// modulo `Q`: times `2^-64`, which is 7593442 modulo `Q`, the product is 1.
pub open spec fn spec_zeta_pair_ok(k: int) -> bool {
    spec_congruent((ZETAS@[k] as int) * (-(ZETAS@[spec_zeta_partner(k)] as int)) * 7593442, 1)
}

pub proof fn lemma_congruent_from_multiple(a: int, b: int, k: int)
    requires
        a - b == k * 8380417,
    ensures
        spec_congruent(a, b),
{
    assert((k * 8380417) % 8380417 == 0) by (nonlinear_arith);
}

pub proof fn lemma_congruent_multiple(a: int, b: int) -> (k: int)
    requires
        spec_congruent(a, b),
    ensures
        a - b == k * 8380417,
{
    (a - b) / 8380417
}

/// The Montgomery reduction of `a` is `a * 2^-32` modulo `Q`, and `2^-32` is
/// 8265825 modulo `Q`.
pub proof fn lemma_montgomery_congruent(a: int)
    ensures
        spec_congruent(spec_montgomery_reduce(a), a * 8265825),
{
    lemma_montgomery_exact(a);
    let r = spec_montgomery_reduce(a);
    let k = lemma_congruent_multiple(r * 0x1_0000_0000, a);
    assert(r - a * 8265825 == (k * 8265825 - 4236238847 * r) * 8380417) by (nonlinear_arith)
        requires
            r * 0x1_0000_0000 - a == k * 8380417,
    ;
    lemma_congruent_from_multiple(r, a * 8265825, k * 8265825 - 4236238847 * r);
}

/// Entry `k` and its partner `pk`, whose values are `zk` and `zp`, are a
/// pair as `spec_zeta_pair_ok` asks.
proof fn lemma_zeta_pair(k: int, pk: int, zk: int, zp: int)
    requires
        0 <= k < 256,
        0 <= pk < 256,
        spec_zeta_partner(k) == pk,
        ZETAS@[k] == zk,
        ZETAS@[pk] == zp,
        (zk * (-zp) * 7593442 - 1) % 8380417 == 0,
    ensures
        spec_zeta_pair_ok(k),
{
    let a = ZETAS@[k] as int;
    let b = ZETAS@[pk] as int;
    assert(a * (-b) * 7593442 == zk * (-zp) * 7593442) by (nonlinear_arith)
        requires
            a == zk,
            b == zp,
    ;
}

proof fn lemma_zeta_pairs_1_to_31()
    ensures
        forall|k: int| 1 <= k < 32 ==> #[trigger] spec_zeta_pair_ok(k),
{
    lemma_zeta_pair(1, 1, 25847, 25847);
    lemma_zeta_pair(2, 3, -2608894, -518909);
    lemma_zeta_pair(3, 2, -518909, -2608894);
    lemma_zeta_pair(4, 7, 237124, 466468);
    lemma_zeta_pair(5, 6, -777960, -876248);
    lemma_zeta_pair(6, 5, -876248, -777960);
    lemma_zeta_pair(7, 4, 466468, 237124);
    lemma_zeta_pair(8, 15, 1826347, 2680103);
    lemma_zeta_pair(9, 14, 2353451, 3111497);
    lemma_zeta_pair(10, 13, -359251, -2884855);
    lemma_zeta_pair(11, 12, -2091905, 3119733);
    lemma_zeta_pair(12, 11, 3119733, -2091905);
    lemma_zeta_pair(13, 10, -2884855, -359251);
    lemma_zeta_pair(14, 9, 3111497, 2353451);
    lemma_zeta_pair(15, 8, 2680103, 1826347);
    lemma_zeta_pair(16, 31, 2725464, 280005);
    lemma_zeta_pair(17, 30, 1024112, 4010497);
    lemma_zeta_pair(18, 29, -1079900, -19422);
    lemma_zeta_pair(19, 28, 3585928, 1757237);
    lemma_zeta_pair(20, 27, -549488, -3277672);
    lemma_zeta_pair(21, 26, -1119584, -1399561);
    lemma_zeta_pair(22, 25, 2619752, -3859737);
    lemma_zeta_pair(23, 24, -2108549, -2118186);
    lemma_zeta_pair(24, 23, -2118186, -2108549);
    lemma_zeta_pair(25, 22, -3859737, 2619752);
    lemma_zeta_pair(26, 21, -1399561, -1119584);
    lemma_zeta_pair(27, 20, -3277672, -549488);
    lemma_zeta_pair(28, 19, 1757237, 3585928);
    lemma_zeta_pair(29, 18, -19422, -1079900);
    lemma_zeta_pair(30, 17, 4010497, 1024112);
    lemma_zeta_pair(31, 16, 280005, 2725464);
}

proof fn lemma_zeta_pairs_32_to_63()
    ensures
        forall|k: int| 32 <= k < 64 ==> #[trigger] spec_zeta_pair_ok(k),
{
    lemma_zeta_pair(32, 63, 2706023, -2797779);
    lemma_zeta_pair(33, 62, 95776, 2071892);
    lemma_zeta_pair(34, 61, 3077325, -2556880);
    lemma_zeta_pair(35, 60, 3530437, 3900724);
    lemma_zeta_pair(36, 59, -1661693, 3881043);
    lemma_zeta_pair(37, 58, -3592148, 954230);
    lemma_zeta_pair(38, 57, -2537516, 531354);
    lemma_zeta_pair(39, 56, 3915439, 811944);
    lemma_zeta_pair(40, 55, -3861115, 3699596);
    lemma_zeta_pair(41, 54, -3043716, -1600420);
    lemma_zeta_pair(42, 53, 3574422, -2140649);
    lemma_zeta_pair(43, 52, -2867647, 3507263);
    lemma_zeta_pair(44, 51, 3539968, -3821735);
    lemma_zeta_pair(45, 50, -300467, 3505694);
    lemma_zeta_pair(46, 49, 2348700, -1643818);
    lemma_zeta_pair(47, 48, -539299, -1699267);
    lemma_zeta_pair(48, 47, -1699267, -539299);
    lemma_zeta_pair(49, 46, -1643818, 2348700);
    lemma_zeta_pair(50, 45, 3505694, -300467);
    lemma_zeta_pair(51, 44, -3821735, 3539968);
    lemma_zeta_pair(52, 43, 3507263, -2867647);
    lemma_zeta_pair(53, 42, -2140649, 3574422);
    lemma_zeta_pair(54, 41, -1600420, -3043716);
    lemma_zeta_pair(55, 40, 3699596, -3861115);
    lemma_zeta_pair(56, 39, 811944, 3915439);
    lemma_zeta_pair(57, 38, 531354, -2537516);
    lemma_zeta_pair(58, 37, 954230, -3592148);
    lemma_zeta_pair(59, 36, 3881043, -1661693);
    lemma_zeta_pair(60, 35, 3900724, 3530437);
    lemma_zeta_pair(61, 34, -2556880, 3077325);
    lemma_zeta_pair(62, 33, 2071892, 95776);
    lemma_zeta_pair(63, 32, -2797779, 2706023);
}

proof fn lemma_zeta_pairs_64_to_95()
    ensures
        forall|k: int| 64 <= k < 96 ==> #[trigger] spec_zeta_pair_ok(k),
{
    lemma_zeta_pair(64, 127, -3930395, 3839961);
    lemma_zeta_pair(65, 126, -1528703, -3628969);
    lemma_zeta_pair(66, 125, -3677745, -3881060);
    lemma_zeta_pair(67, 124, -3041255, -3019102);
    lemma_zeta_pair(68, 123, -1452451, -1439742);
    lemma_zeta_pair(69, 122, 3475950, -812732);
    lemma_zeta_pair(70, 121, 2176455, -1584928);
    lemma_zeta_pair(71, 120, -1585221, 1285669);
    lemma_zeta_pair(72, 119, -1257611, 1341330);
    lemma_zeta_pair(73, 118, 1939314, 1315589);
    lemma_zeta_pair(74, 117, -4083598, -177440);
    lemma_zeta_pair(75, 116, -1000202, -2409325);
    lemma_zeta_pair(76, 115, -3190144, -1851402);
    lemma_zeta_pair(77, 114, -3157330, 3159746);
    lemma_zeta_pair(78, 113, -3632928, -3553272);
    lemma_zeta_pair(79, 112, 126922, 189548);
    lemma_zeta_pair(80, 111, 3412210, -1316856);
    lemma_zeta_pair(81, 110, -983419, 759969);
    lemma_zeta_pair(82, 109, 2147896, -210977);
    lemma_zeta_pair(83, 108, 2715295, 2389356);
    lemma_zeta_pair(84, 107, -2967645, -3249728);
    lemma_zeta_pair(85, 106, -3693493, 1653064);
    lemma_zeta_pair(86, 105, -411027, -8578);
    lemma_zeta_pair(87, 104, -2477047, -3724342);
    lemma_zeta_pair(88, 103, -671102, 3958618);
    lemma_zeta_pair(89, 102, -1228525, 904516);
    lemma_zeta_pair(90, 101, -22981, -1100098);
    lemma_zeta_pair(91, 100, -1308169, 44288);
    lemma_zeta_pair(92, 99, -381987, 3097992);
    lemma_zeta_pair(93, 98, 1349076, 508951);
    lemma_zeta_pair(94, 97, 1852771, 264944);
    lemma_zeta_pair(95, 96, -1430430, -3343383);
}

proof fn lemma_zeta_pairs_96_to_127()
    ensures
        forall|k: int| 96 <= k < 128 ==> #[trigger] spec_zeta_pair_ok(k),
{
    lemma_zeta_pair(96, 95, -3343383, -1430430);
    lemma_zeta_pair(97, 94, 264944, 1852771);
    lemma_zeta_pair(98, 93, 508951, 1349076);
    lemma_zeta_pair(99, 92, 3097992, -381987);
    lemma_zeta_pair(100, 91, 44288, -1308169);
    lemma_zeta_pair(101, 90, -1100098, -22981);
    lemma_zeta_pair(102, 89, 904516, -1228525);
    lemma_zeta_pair(103, 88, 3958618, -671102);
    lemma_zeta_pair(104, 87, -3724342, -2477047);
    lemma_zeta_pair(105, 86, -8578, -411027);
    lemma_zeta_pair(106, 85, 1653064, -3693493);
    lemma_zeta_pair(107, 84, -3249728, -2967645);
    lemma_zeta_pair(108, 83, 2389356, 2715295);
    lemma_zeta_pair(109, 82, -210977, 2147896);
    lemma_zeta_pair(110, 81, 759969, -983419);
    lemma_zeta_pair(111, 80, -1316856, 3412210);
    lemma_zeta_pair(112, 79, 189548, 126922);
    lemma_zeta_pair(113, 78, -3553272, -3632928);
    lemma_zeta_pair(114, 77, 3159746, -3157330);
    lemma_zeta_pair(115, 76, -1851402, -3190144);
    lemma_zeta_pair(116, 75, -2409325, -1000202);
    lemma_zeta_pair(117, 74, -177440, -4083598);
    lemma_zeta_pair(118, 73, 1315589, 1939314);
    lemma_zeta_pair(119, 72, 1341330, -1257611);
    lemma_zeta_pair(120, 71, 1285669, -1585221);
    lemma_zeta_pair(121, 70, -1584928, 2176455);
    lemma_zeta_pair(122, 69, -812732, 3475950);
    lemma_zeta_pair(123, 68, -1439742, -1452451);
    lemma_zeta_pair(124, 67, -3019102, -3041255);
    lemma_zeta_pair(125, 66, -3881060, -3677745);
    lemma_zeta_pair(126, 65, -3628969, -1528703);
    lemma_zeta_pair(127, 64, 3839961, -3930395);
}

proof fn lemma_zeta_pairs_128_to_159()
    ensures
        forall|k: int| 128 <= k < 160 ==> #[trigger] spec_zeta_pair_ok(k),
{
    lemma_zeta_pair(128, 255, 2091667, 1976782);
    lemma_zeta_pair(129, 254, 3407706, -846154);
    lemma_zeta_pair(130, 253, 2316500, 1400424);
    lemma_zeta_pair(131, 252, 3817976, 3937738);
    lemma_zeta_pair(132, 251, -3342478, -1362209);
    lemma_zeta_pair(133, 250, 2244091, -48306);
    lemma_zeta_pair(134, 249, -2446433, 3919660);
    lemma_zeta_pair(135, 248, -3562462, -554416);
    lemma_zeta_pair(136, 247, 266997, -3545687);
    lemma_zeta_pair(137, 246, 2434439, 1612842);
    lemma_zeta_pair(138, 245, -1235728, -976891);
    lemma_zeta_pair(139, 244, 3513181, 183443);
    lemma_zeta_pair(140, 243, -3520352, -2286327);
    lemma_zeta_pair(141, 242, -3759364, -420899);
    lemma_zeta_pair(142, 241, -1197226, -2235985);
    lemma_zeta_pair(143, 240, -3193378, -2939036);
    lemma_zeta_pair(144, 239, 900702, -3833893);
    lemma_zeta_pair(145, 238, 1859098, -260646);
    lemma_zeta_pair(146, 237, 909542, -1104333);
    lemma_zeta_pair(147, 236, 819034, -1667432);
    lemma_zeta_pair(148, 235, 495491, 1910376);
    lemma_zeta_pair(149, 234, -1613174, -1803090);
    lemma_zeta_pair(150, 233, -43260, 1723600);
    lemma_zeta_pair(151, 232, -522500, -426683);
    lemma_zeta_pair(152, 231, -655327, 472078);
    lemma_zeta_pair(153, 230, -3122442, 1717735);
    lemma_zeta_pair(154, 229, 2031748, -975884);
    lemma_zeta_pair(155, 228, 3207046, 2213111);
    lemma_zeta_pair(156, 227, -3556995, 269760);
    lemma_zeta_pair(157, 226, -525098, 3866901);
    lemma_zeta_pair(158, 225, -768622, 3523897);
    lemma_zeta_pair(159, 224, -3595838, -3038916);
}

proof fn lemma_zeta_pairs_160_to_191()
    ensures
        forall|k: int| 160 <= k < 192 ==> #[trigger] spec_zeta_pair_ok(k),
{
    lemma_zeta_pair(160, 223, 342297, -1799107);
    lemma_zeta_pair(161, 222, 286988, -3694233);
    lemma_zeta_pair(162, 221, -2437823, 1652634);
    lemma_zeta_pair(163, 220, 4108315, 810149);
    lemma_zeta_pair(164, 219, 3437287, 3014001);
    lemma_zeta_pair(165, 218, -3342277, 1616392);
    lemma_zeta_pair(166, 217, 1735879, 162844);
    lemma_zeta_pair(167, 216, 203044, -3183426);
    lemma_zeta_pair(168, 215, 2842341, -1207385);
    lemma_zeta_pair(169, 214, 2691481, 185531);
    lemma_zeta_pair(170, 213, -2590150, 3369112);
    lemma_zeta_pair(171, 212, 1265009, 1957272);
    lemma_zeta_pair(172, 211, 4055324, -164721);
    lemma_zeta_pair(173, 210, 1247620, 2454455);
    lemma_zeta_pair(174, 209, 2486353, 2432395);
    lemma_zeta_pair(175, 208, 1595974, -2013608);
    lemma_zeta_pair(176, 207, -3767016, -3776993);
    lemma_zeta_pair(177, 206, 1250494, 594136);
    lemma_zeta_pair(178, 205, 2635921, -3724270);
    lemma_zeta_pair(179, 204, -3548272, -2584293);
    lemma_zeta_pair(180, 203, -2994039, -1846953);
    lemma_zeta_pair(181, 202, 1869119, -1671176);
    lemma_zeta_pair(182, 201, 1903435, -2831860);
    lemma_zeta_pair(183, 200, -1050970, -542412);
    lemma_zeta_pair(184, 199, -1333058, 3406031);
    lemma_zeta_pair(185, 198, 1237275, 2235880);
    lemma_zeta_pair(186, 197, -3318210, 777191);
    lemma_zeta_pair(187, 196, -1430225, 1500165);
    lemma_zeta_pair(188, 195, -451100, -1374803);
    lemma_zeta_pair(189, 194, 1312455, -2546312);
    lemma_zeta_pair(190, 193, 3306115, 1917081);
    lemma_zeta_pair(191, 192, -1962642, -1279661);
}

proof fn lemma_zeta_pairs_192_to_223()
    ensures
        forall|k: int| 192 <= k < 224 ==> #[trigger] spec_zeta_pair_ok(k),
{
    lemma_zeta_pair(192, 191, -1279661, -1962642);
    lemma_zeta_pair(193, 190, 1917081, 3306115);
    lemma_zeta_pair(194, 189, -2546312, 1312455);
    lemma_zeta_pair(195, 188, -1374803, -451100);
    lemma_zeta_pair(196, 187, 1500165, -1430225);
    lemma_zeta_pair(197, 186, 777191, -3318210);
    lemma_zeta_pair(198, 185, 2235880, 1237275);
    lemma_zeta_pair(199, 184, 3406031, -1333058);
    lemma_zeta_pair(200, 183, -542412, -1050970);
    lemma_zeta_pair(201, 182, -2831860, 1903435);
    lemma_zeta_pair(202, 181, -1671176, 1869119);
    lemma_zeta_pair(203, 180, -1846953, -2994039);
    lemma_zeta_pair(204, 179, -2584293, -3548272);
    lemma_zeta_pair(205, 178, -3724270, 2635921);
    lemma_zeta_pair(206, 177, 594136, 1250494);
    lemma_zeta_pair(207, 176, -3776993, -3767016);
    lemma_zeta_pair(208, 175, -2013608, 1595974);
    lemma_zeta_pair(209, 174, 2432395, 2486353);
    lemma_zeta_pair(210, 173, 2454455, 1247620);
    lemma_zeta_pair(211, 172, -164721, 4055324);
    lemma_zeta_pair(212, 171, 1957272, 1265009);
    lemma_zeta_pair(213, 170, 3369112, -2590150);
    lemma_zeta_pair(214, 169, 185531, 2691481);
    lemma_zeta_pair(215, 168, -1207385, 2842341);
    lemma_zeta_pair(216, 167, -3183426, 203044);
    lemma_zeta_pair(217, 166, 162844, 1735879);
    lemma_zeta_pair(218, 165, 1616392, -3342277);
    lemma_zeta_pair(219, 164, 3014001, 3437287);
    lemma_zeta_pair(220, 163, 810149, 4108315);
    lemma_zeta_pair(221, 162, 1652634, -2437823);
    lemma_zeta_pair(222, 161, -3694233, 286988);
    lemma_zeta_pair(223, 160, -1799107, 342297);
}

proof fn lemma_zeta_pairs_224_to_255()
    ensures
        forall|k: int| 224 <= k < 256 ==> #[trigger] spec_zeta_pair_ok(k),
{
    lemma_zeta_pair(224, 159, -3038916, -3595838);
    lemma_zeta_pair(225, 158, 3523897, -768622);
    lemma_zeta_pair(226, 157, 3866901, -525098);
    lemma_zeta_pair(227, 156, 269760, -3556995);
    lemma_zeta_pair(228, 155, 2213111, 3207046);
    lemma_zeta_pair(229, 154, -975884, 2031748);
    lemma_zeta_pair(230, 153, 1717735, -3122442);
    lemma_zeta_pair(231, 152, 472078, -655327);
    lemma_zeta_pair(232, 151, -426683, -522500);
    lemma_zeta_pair(233, 150, 1723600, -43260);
    lemma_zeta_pair(234, 149, -1803090, -1613174);
    lemma_zeta_pair(235, 148, 1910376, 495491);
    lemma_zeta_pair(236, 147, -1667432, 819034);
    lemma_zeta_pair(237, 146, -1104333, 909542);
    lemma_zeta_pair(238, 145, -260646, 1859098);
    lemma_zeta_pair(239, 144, -3833893, 900702);
    lemma_zeta_pair(240, 143, -2939036, -3193378);
    lemma_zeta_pair(241, 142, -2235985, -1197226);
    lemma_zeta_pair(242, 141, -420899, -3759364);
    lemma_zeta_pair(243, 140, -2286327, -3520352);
    lemma_zeta_pair(244, 139, 183443, 3513181);
    lemma_zeta_pair(245, 138, -976891, -1235728);
    lemma_zeta_pair(246, 137, 1612842, 2434439);
    lemma_zeta_pair(247, 136, -3545687, 266997);
    lemma_zeta_pair(248, 135, -554416, -3562462);
    lemma_zeta_pair(249, 134, 3919660, -2446433);
    lemma_zeta_pair(250, 133, -48306, 2244091);
    lemma_zeta_pair(251, 132, -1362209, -3342478);
    lemma_zeta_pair(252, 131, 3937738, 3817976);
    lemma_zeta_pair(253, 130, 1400424, 2316500);
    lemma_zeta_pair(254, 129, -846154, 3407706);
    lemma_zeta_pair(255, 128, 1976782, 2091667);
}

/// Every entry of `ZETAS` from 1 on, times the negative of its partner, is
/// `2^64` modulo `Q`.
pub proof fn lemma_zeta_pairs()
    ensures
        forall|k: int| 1 <= k < 256 ==> #[trigger] spec_zeta_pair_ok(k),
{
    lemma_zeta_pairs_1_to_31();
    lemma_zeta_pairs_32_to_63();
    lemma_zeta_pairs_64_to_95();
    lemma_zeta_pairs_96_to_127();
    lemma_zeta_pairs_128_to_159();
    lemma_zeta_pairs_160_to_191();
    lemma_zeta_pairs_192_to_223();
    lemma_zeta_pairs_224_to_255();
}

/// Whether `y` is `c` times `x` modulo `Q`, coefficient by coefficient.
pub open spec fn spec_scaled(y: Seq<int>, c: int, x: Seq<int>) -> bool {
    forall|j: int| 0 <= j < 256 ==> spec_congruent(#[trigger] y[j], c * x[j])
}

/// Whether `len` and `k0` belong to one of the eight layers.
pub open spec fn spec_layer(len: int, k0: int) -> bool {
    (len == 128 && k0 == 1) || (len == 64 && k0 == 2) || (len == 32 && k0 == 4) || (len == 16
        && k0 == 8) || (len == 8 && k0 == 16) || (len == 4 && k0 == 32) || (len == 2 && k0 == 64)
        || (len == 1 && k0 == 128)
}

/// The place of `j` in its block, for a layer.
proof fn lemma_layer_position(j: int, len: int, k0: int) -> (r: (int, int))
    requires
        spec_layer(len, k0),
        0 <= j < 256,
    ensures
        r.0 == j / (2 * len),
        r.1 == j % (2 * len),
        0 <= r.0 < k0,
        0 <= r.1 < 2 * len,
        j == r.0 * (2 * len) + r.1,
        spec_zeta_partner(k0 + r.0) == 2 * k0 - 1 - r.0,
        0 <= r.0 * (2 * len),
        r.0 * (2 * len) + 2 * len <= 256,
{
    let block = j / (2 * len);
    let off = j % (2 * len);
    vstd::arithmetic::div_mod::lemma_fundamental_div_mod(j, 2 * len);
    vstd::arithmetic::div_mod::lemma_mod_bound(j, 2 * len);
    assert(0 <= block < k0 && j == block * (2 * len) + off && 0 <= block * (2 * len) && block * (
    2 * len) + 2 * len <= 256) by (nonlinear_arith)
        requires
            j == (2 * len) * block + off,
            0 <= off < 2 * len,
            0 <= j < 256,
            k0 * (2 * len) == 256,
            0 < len,
    ;
    (block, off)
}

/// The step of the proof for a place in the upper half of a block. `g` is
/// what the inverse layer gives there, `d` the difference that it reduces,
/// `t` the product that the forward layer reduced, `v` the coefficient.
proof fn lemma_upper_half(
    g: int,
    d: int,
    t: int,
    v: int,
    c: int,
    zeta: int,
    zeta_inv: int,
    k2: int,
)
    requires
        spec_congruent(g, zeta_inv * d * 8265825),
        spec_congruent(t, zeta * v * 8265825),
        d == 2 * c * t + k2 * 8380417,
        spec_congruent(zeta * zeta_inv * 7593442, 1),
    ensures
        spec_congruent(g, 2 * c * v),
{
    let q: int = 8380417;
    let k1 = lemma_congruent_multiple(g, zeta_inv * d * 8265825);
    let k3 = lemma_congruent_multiple(t, zeta * v * 8265825);
    let k4 = lemma_congruent_multiple(zeta * zeta_inv * 7593442, 1);
    let e = zeta_inv * 8265825;
    let w = zeta * zeta_inv;
    assert(zeta_inv * d * 8265825 == e * d) by (nonlinear_arith)
        requires
            e == zeta_inv * 8265825,
    ;
    assert(e * d == 2 * c * (e * t) + (e * k2) * q) by (nonlinear_arith)
        requires
            d == 2 * c * t + k2 * q,
    ;
    assert(e * t == (e * zeta * 8265825) * v + (e * k3) * q) by (nonlinear_arith)
        requires
            t - zeta * v * 8265825 == k3 * q,
    ;
    assert(e * zeta * 8265825 == w * 68323862930625) by (nonlinear_arith)
        requires
            e == zeta_inv * 8265825,
            w == zeta * zeta_inv,
    ;
    assert(w * 68323862930625 == w * 7593442 + (w * 8152799) * q) by (nonlinear_arith)
        requires
            q == 8380417,
    ;
    assert(w * 7593442 == 1 + k4 * q) by (nonlinear_arith)
        requires
            zeta * zeta_inv * 7593442 - 1 == k4 * q,
            w == zeta * zeta_inv,
    ;
    let f = e * zeta * 8265825;
    assert(f == 1 + (k4 + w * 8152799) * q) by (nonlinear_arith)
        requires
            f == w * 68323862930625,
            w * 68323862930625 == w * 7593442 + (w * 8152799) * q,
            w * 7593442 == 1 + k4 * q,
    ;
    let m = k4 + w * 8152799;
    assert(e * t == v + (m * v + e * k3) * q) by (nonlinear_arith)
        requires
            e * t == f * v + (e * k3) * q,
            f == 1 + m * q,
    ;
    let n = m * v + e * k3;
    assert(g - 2 * c * v == (k1 + e * k2 + 2 * c * n) * q) by (nonlinear_arith)
        requires
            g - e * d == k1 * q,
            e * d == 2 * c * (e * t) + (e * k2) * q,
            e * t == v + n * q,
    ;
    lemma_congruent_from_multiple(g, 2 * c * v, k1 + e * k2 + 2 * c * n);
}

/// A layer of the inverse transform undoes the layer of the forward
/// transform with the same blocks, but for a factor 2: where `y` is `c` times
/// the forward layer of `x`, the inverse layer of `y` is `2 * c` times `x`,
/// all modulo `Q`.
pub proof fn lemma_invntt_layer_undoes(x: Seq<int>, y: Seq<int>, len: int, k0: int, c: int)
    requires
        x.len() == 256,
        y.len() == 256,
        spec_layer(len, k0),
        spec_scaled(y, c, spec_ntt_layer(x, len, k0)),
    ensures
        spec_scaled(spec_invntt_layer(y, len, 2 * k0 - 1), 2 * c, x),
        spec_invntt_layer(y, len, 2 * k0 - 1).len() == 256,
        spec_ntt_layer(x, len, k0).len() == 256,
{
    let fwd = spec_ntt_layer(x, len, k0);
    let inv = spec_invntt_layer(y, len, 2 * k0 - 1);
    lemma_zeta_pairs();
    assert forall|j: int| 0 <= j < 256 implies spec_congruent(#[trigger] inv[j], (2 * c) * x[j]) by {
        let (block, off) = lemma_layer_position(j, len, k0);
        let zeta = ZETAS@[k0 + block] as int;
        let zeta_inv = -(ZETAS@[2 * k0 - 1 - block] as int);
        assert(spec_zeta_pair_ok(k0 + block));
        if off < len {
            let hi = j + len;
            lemma_block_position(hi, len, block, off + len);
            let t = spec_montgomery_reduce(zeta * x[hi]);
            assert(fwd[j] == x[j] + t);
            assert(fwd[hi] == x[j] - t);
            assert(inv[j] == y[j] + y[hi]);
            let a1 = lemma_congruent_multiple(y[j], c * fwd[j]);
            let a2 = lemma_congruent_multiple(y[hi], c * fwd[hi]);
            assert(inv[j] - (2 * c) * x[j] == (a1 + a2) * 8380417) by (nonlinear_arith)
                requires
                    inv[j] == y[j] + y[hi],
                    y[j] - c * (x[j] + t) == a1 * 8380417,
                    y[hi] - c * (x[j] - t) == a2 * 8380417,
            ;
            lemma_congruent_from_multiple(inv[j], (2 * c) * x[j], a1 + a2);
        } else {
            let lo = j - len;
            lemma_block_position(lo, len, block, off - len);
            let t = spec_montgomery_reduce(zeta * x[j]);
            assert(fwd[lo] == x[lo] + t);
            assert(fwd[j] == x[lo] - t);
            let d = y[lo] - y[j];
            assert(inv[j] == spec_montgomery_reduce(zeta_inv * d));
            let a1 = lemma_congruent_multiple(y[lo], c * fwd[lo]);
            let a2 = lemma_congruent_multiple(y[j], c * fwd[j]);
            assert(d == 2 * c * t + (a1 - a2) * 8380417) by (nonlinear_arith)
                requires
                    d == y[lo] - y[j],
                    y[lo] - c * (x[lo] + t) == a1 * 8380417,
                    y[j] - c * (x[lo] - t) == a2 * 8380417,
            ;
            lemma_montgomery_congruent(zeta_inv * d);
            lemma_montgomery_congruent(zeta * x[j]);
            assert(zeta * zeta_inv * 7593442 == zeta * (-(ZETAS@[2 * k0 - 1 - block] as int))
                * 7593442);
            lemma_upper_half(inv[j], d, t, x[j], c, zeta, zeta_inv, a1 - a2);
            assert(2 * c * x[j] == (2 * c) * x[j]) by (nonlinear_arith);
        }
    }
}

/// The inverse transform of the forward transform of a polynomial is the
/// polynomial times `2^32` modulo `Q`, coefficient by coefficient. `2^32` is
/// 4193792 modulo `Q`.
pub proof fn lemma_invntt_of_ntt(p: Seq<int>)
    requires
        p.len() == 256,
    ensures
        spec_scaled(spec_invntt_tomont(spec_ntt(p)), 4193792, p),
{
    let x1 = spec_ntt_layer(p, 128, 1);
    let x2 = spec_ntt_layer(x1, 64, 2);
    let x3 = spec_ntt_layer(x2, 32, 4);
    let x4 = spec_ntt_layer(x3, 16, 8);
    let x5 = spec_ntt_layer(x4, 8, 16);
    let x6 = spec_ntt_layer(x5, 4, 32);
    let x7 = spec_ntt_layer(x6, 2, 64);
    let x8 = spec_ntt_layer(x7, 1, 128);
    let y1 = spec_invntt_layer(x8, 1, 255);
    let y2 = spec_invntt_layer(y1, 2, 127);
    let y3 = spec_invntt_layer(y2, 4, 63);
    let y4 = spec_invntt_layer(y3, 8, 31);
    let y5 = spec_invntt_layer(y4, 16, 15);
    let y6 = spec_invntt_layer(y5, 32, 7);
    let y7 = spec_invntt_layer(y6, 64, 3);
    let y8 = spec_invntt_layer(y7, 128, 1);
    assert forall|j: int| 0 <= j < 256 implies spec_congruent(#[trigger] x8[j], 1 * x8[j]) by {
        lemma_congruent_from_multiple(x8[j], 1 * x8[j], 0);
    }
    lemma_invntt_layer_undoes(x7, x8, 1, 128, 1);
    lemma_invntt_layer_undoes(x6, y1, 2, 64, 2);
    lemma_invntt_layer_undoes(x5, y2, 4, 32, 4);
    lemma_invntt_layer_undoes(x4, y3, 8, 16, 8);
    lemma_invntt_layer_undoes(x3, y4, 16, 8, 16);
    lemma_invntt_layer_undoes(x2, y5, 32, 4, 32);
    lemma_invntt_layer_undoes(x1, y6, 64, 2, 64);
    lemma_invntt_layer_undoes(p, y7, 128, 1, 128);
    let out = spec_invntt_scale(y8);
    assert(out == spec_invntt_tomont(spec_ntt(p)));
    assert forall|j: int| 0 <= j < 256 implies spec_congruent(#[trigger] out[j], 4193792 * p[j]) by {
        let a = lemma_congruent_multiple(y8[j], 256 * p[j]);
        lemma_montgomery_congruent(41978 * y8[j]);
        let k = lemma_congruent_multiple(out[j], 41978 * y8[j] * 8265825);
        assert(out[j] - 4193792 * p[j] == (k + 346982801850 * a + 10599424 * p[j]) * 8380417)
            by (nonlinear_arith)
            requires
                out[j] - 41978 * y8[j] * 8265825 == k * 8380417,
                y8[j] - 256 * p[j] == a * 8380417,
        ;
        lemma_congruent_from_multiple(
            out[j],
            4193792 * p[j],
            k + 346982801850 * a + 10599424 * p[j],
        );
    }
}

/// Whether `x` is `alpha * a + beta * b` modulo `Q`, coefficient by
/// coefficient.
pub open spec fn spec_combination(x: Seq<int>, alpha: int, a: Seq<int>, beta: int, b: Seq<int>) -> bool {
    forall|j: int| 0 <= j < 256 ==> spec_congruent(#[trigger] x[j], alpha * a[j] + beta * b[j])
}

/// `s` times a combination is the combination of the `s`-fold terms.
proof fn lemma_scale_combination(s: int, x: int, alpha: int, a: int, beta: int, b: int, k: int)
    requires
        x == alpha * a + beta * b + k * 8380417,
    ensures
        s * x == alpha * (s * a) + beta * (s * b) + (s * k) * 8380417,
{
    let u = alpha * a;
    let v = beta * b;
    let w = k * 8380417;
    assert(s * (u + v + w) == s * u + s * v + s * w) by (nonlinear_arith);
    assert(s * (alpha * a) == alpha * (s * a)) by (nonlinear_arith);
    assert(s * (beta * b) == beta * (s * b)) by (nonlinear_arith);
    assert(s * (k * 8380417) == (s * k) * 8380417) by (nonlinear_arith);
}

/// Sums and differences of combinations are combinations.
pub proof fn lemma_congruent_linear(
    x1: int,
    a1: int,
    b1: int,
    x2: int,
    a2: int,
    b2: int,
    alpha: int,
    beta: int,
    s: int,
)
    requires
        spec_congruent(x1, alpha * a1 + beta * b1),
        spec_congruent(x2, alpha * a2 + beta * b2),
    ensures
        spec_congruent(x1 + s * x2, alpha * (a1 + s * a2) + beta * (b1 + s * b2)),
{
    let k1 = lemma_congruent_multiple(x1, alpha * a1 + beta * b1);
    let k2 = lemma_congruent_multiple(x2, alpha * a2 + beta * b2);
    let q: int = 8380417;
    lemma_scale_combination(s, x2, alpha, a2, beta, b2, k2);
    assert(alpha * (a1 + s * a2) == alpha * a1 + alpha * (s * a2)) by (nonlinear_arith);
    assert(beta * (b1 + s * b2) == beta * b1 + beta * (s * b2)) by (nonlinear_arith);
    assert((k1 + s * k2) * q == k1 * q + (s * k2) * q) by (nonlinear_arith);
    lemma_congruent_from_multiple(
        x1 + s * x2,
        alpha * (a1 + s * a2) + beta * (b1 + s * b2),
        k1 + s * k2,
    );
}

/// The Montgomery reduction of `z` times a combination is the combination
/// of the Montgomery reductions.
pub proof fn lemma_montgomery_linear(z: int, x: int, a: int, b: int, alpha: int, beta: int)
    requires
        spec_congruent(x, alpha * a + beta * b),
    ensures
        spec_congruent(
            spec_montgomery_reduce(z * x),
            alpha * spec_montgomery_reduce(z * a) + beta * spec_montgomery_reduce(z * b),
        ),
{
    lemma_montgomery_congruent(z * x);
    lemma_montgomery_congruent(z * a);
    lemma_montgomery_congruent(z * b);
    let mx = spec_montgomery_reduce(z * x);
    let ma = spec_montgomery_reduce(z * a);
    let mb = spec_montgomery_reduce(z * b);
    let k = lemma_congruent_multiple(x, alpha * a + beta * b);
    let kx = lemma_congruent_multiple(mx, z * x * 8265825);
    let ka = lemma_congruent_multiple(ma, z * a * 8265825);
    let kb = lemma_congruent_multiple(mb, z * b * 8265825);
    let e = z * 8265825;
    let q: int = 8380417;
    assert(z * x * 8265825 == e * x) by (nonlinear_arith)
        requires
            e == z * 8265825,
    ;
    assert(z * a * 8265825 == e * a) by (nonlinear_arith)
        requires
            e == z * 8265825,
    ;
    assert(z * b * 8265825 == e * b) by (nonlinear_arith)
        requires
            e == z * 8265825,
    ;
    let ea = e * a;
    let eb = e * b;
    lemma_scale_combination(e, x, alpha, a, beta, b, k);
    assert(alpha * ma == alpha * ea + (alpha * ka) * q) by (nonlinear_arith)
        requires
            ma == ea + ka * q,
    ;
    assert(beta * mb == beta * eb + (beta * kb) * q) by (nonlinear_arith)
        requires
            mb == eb + kb * q,
    ;
    let n = kx + e * k - alpha * ka - beta * kb;
    assert(n * q == kx * q + (e * k) * q - (alpha * ka) * q - (beta * kb) * q) by (nonlinear_arith)
        requires
            n == kx + e * k - alpha * ka - beta * kb,
    ;
    assert(mx - (alpha * ma + beta * mb) == n * q);
    lemma_congruent_from_multiple(mx, alpha * ma + beta * mb, n);
}

/// A layer of the forward transform takes combinations to combinations.
pub proof fn lemma_ntt_layer_linear(
    x: Seq<int>,
    a: Seq<int>,
    b: Seq<int>,
    alpha: int,
    beta: int,
    len: int,
    k0: int,
)
    requires
        x.len() == 256,
        a.len() == 256,
        b.len() == 256,
        spec_layer(len, k0),
        spec_combination(x, alpha, a, beta, b),
    ensures
        spec_combination(
            spec_ntt_layer(x, len, k0),
            alpha,
            spec_ntt_layer(a, len, k0),
            beta,
            spec_ntt_layer(b, len, k0),
        ),
{
    let fx = spec_ntt_layer(x, len, k0);
    let fa = spec_ntt_layer(a, len, k0);
    let fb = spec_ntt_layer(b, len, k0);
    assert forall|j: int| 0 <= j < 256 implies spec_congruent(
        #[trigger] fx[j],
        alpha * fa[j] + beta * fb[j],
    ) by {
        let (block, off) = lemma_layer_position(j, len, k0);
        let zeta = ZETAS@[k0 + block] as int;
        if off < len {
            let hi = j + len;
            lemma_montgomery_linear(zeta, x[hi], a[hi], b[hi], alpha, beta);
            lemma_congruent_linear(
                x[j],
                a[j],
                b[j],
                spec_montgomery_reduce(zeta * x[hi]),
                spec_montgomery_reduce(zeta * a[hi]),
                spec_montgomery_reduce(zeta * b[hi]),
                alpha,
                beta,
                1,
            );
        } else {
            let lo = j - len;
            lemma_montgomery_linear(zeta, x[j], a[j], b[j], alpha, beta);
            lemma_congruent_linear(
                x[lo],
                a[lo],
                b[lo],
                spec_montgomery_reduce(zeta * x[j]),
                spec_montgomery_reduce(zeta * a[j]),
                spec_montgomery_reduce(zeta * b[j]),
                alpha,
                beta,
                -1,
            );
        }
    }
}

/// A layer of the inverse transform takes combinations to combinations.
pub proof fn lemma_invntt_layer_linear(
    x: Seq<int>,
    a: Seq<int>,
    b: Seq<int>,
    alpha: int,
    beta: int,
    len: int,
    k0: int,
)
    requires
        x.len() == 256,
        a.len() == 256,
        b.len() == 256,
        spec_layer(len, k0),
        spec_combination(x, alpha, a, beta, b),
    ensures
        spec_combination(
            spec_invntt_layer(x, len, 2 * k0 - 1),
            alpha,
            spec_invntt_layer(a, len, 2 * k0 - 1),
            beta,
            spec_invntt_layer(b, len, 2 * k0 - 1),
        ),
{
    let gx = spec_invntt_layer(x, len, 2 * k0 - 1);
    let ga = spec_invntt_layer(a, len, 2 * k0 - 1);
    let gb = spec_invntt_layer(b, len, 2 * k0 - 1);
    assert forall|j: int| 0 <= j < 256 implies spec_congruent(
        #[trigger] gx[j],
        alpha * ga[j] + beta * gb[j],
    ) by {
        let (block, off) = lemma_layer_position(j, len, k0);
        let zeta_inv = -(ZETAS@[2 * k0 - 1 - block] as int);
        if off < len {
            let hi = j + len;
            lemma_congruent_linear(x[j], a[j], b[j], x[hi], a[hi], b[hi], alpha, beta, 1);
        } else {
            let lo = j - len;
            lemma_congruent_linear(x[lo], a[lo], b[lo], x[j], a[j], b[j], alpha, beta, -1);
            lemma_montgomery_linear(
                zeta_inv,
                x[lo] + (-1) * x[j],
                a[lo] + (-1) * a[j],
                b[lo] + (-1) * b[j],
                alpha,
                beta,
            );
        }
    }
}

/// The forward transform takes combinations to combinations.
pub proof fn lemma_ntt_linear(x: Seq<int>, a: Seq<int>, b: Seq<int>, alpha: int, beta: int)
    requires
        x.len() == 256,
        a.len() == 256,
        b.len() == 256,
        spec_combination(x, alpha, a, beta, b),
    ensures
        spec_combination(spec_ntt(x), alpha, spec_ntt(a), beta, spec_ntt(b)),
        spec_ntt(x).len() == 256,
{
    let x1 = spec_ntt_layer(x, 128, 1);
    let a1 = spec_ntt_layer(a, 128, 1);
    let b1 = spec_ntt_layer(b, 128, 1);
    lemma_ntt_layer_linear(x, a, b, alpha, beta, 128, 1);
    let x2 = spec_ntt_layer(x1, 64, 2);
    let a2 = spec_ntt_layer(a1, 64, 2);
    let b2 = spec_ntt_layer(b1, 64, 2);
    lemma_ntt_layer_linear(x1, a1, b1, alpha, beta, 64, 2);
    let x3 = spec_ntt_layer(x2, 32, 4);
    let a3 = spec_ntt_layer(a2, 32, 4);
    let b3 = spec_ntt_layer(b2, 32, 4);
    lemma_ntt_layer_linear(x2, a2, b2, alpha, beta, 32, 4);
    let x4 = spec_ntt_layer(x3, 16, 8);
    let a4 = spec_ntt_layer(a3, 16, 8);
    let b4 = spec_ntt_layer(b3, 16, 8);
    lemma_ntt_layer_linear(x3, a3, b3, alpha, beta, 16, 8);
    let x5 = spec_ntt_layer(x4, 8, 16);
    let a5 = spec_ntt_layer(a4, 8, 16);
    let b5 = spec_ntt_layer(b4, 8, 16);
    lemma_ntt_layer_linear(x4, a4, b4, alpha, beta, 8, 16);
    let x6 = spec_ntt_layer(x5, 4, 32);
    let a6 = spec_ntt_layer(a5, 4, 32);
    let b6 = spec_ntt_layer(b5, 4, 32);
    lemma_ntt_layer_linear(x5, a5, b5, alpha, beta, 4, 32);
    let x7 = spec_ntt_layer(x6, 2, 64);
    let a7 = spec_ntt_layer(a6, 2, 64);
    let b7 = spec_ntt_layer(b6, 2, 64);
    lemma_ntt_layer_linear(x6, a6, b6, alpha, beta, 2, 64);
    lemma_ntt_layer_linear(x7, a7, b7, alpha, beta, 1, 128);
}

/// The inverse transform takes combinations to combinations.
pub proof fn lemma_invntt_linear(x: Seq<int>, a: Seq<int>, b: Seq<int>, alpha: int, beta: int)
    requires
        x.len() == 256,
        a.len() == 256,
        b.len() == 256,
        spec_combination(x, alpha, a, beta, b),
    ensures
        spec_combination(
            spec_invntt_tomont(x),
            alpha,
            spec_invntt_tomont(a),
            beta,
            spec_invntt_tomont(b),
        ),
        spec_invntt_tomont(x).len() == 256,
{
    let x1 = spec_invntt_layer(x, 1, 255);
    let a1 = spec_invntt_layer(a, 1, 255);
    let b1 = spec_invntt_layer(b, 1, 255);
    lemma_invntt_layer_linear(x, a, b, alpha, beta, 1, 128);
    let x2 = spec_invntt_layer(x1, 2, 127);
    let a2 = spec_invntt_layer(a1, 2, 127);
    let b2 = spec_invntt_layer(b1, 2, 127);
    lemma_invntt_layer_linear(x1, a1, b1, alpha, beta, 2, 64);
    let x3 = spec_invntt_layer(x2, 4, 63);
    let a3 = spec_invntt_layer(a2, 4, 63);
    let b3 = spec_invntt_layer(b2, 4, 63);
    lemma_invntt_layer_linear(x2, a2, b2, alpha, beta, 4, 32);
    let x4 = spec_invntt_layer(x3, 8, 31);
    let a4 = spec_invntt_layer(a3, 8, 31);
    let b4 = spec_invntt_layer(b3, 8, 31);
    lemma_invntt_layer_linear(x3, a3, b3, alpha, beta, 8, 16);
    let x5 = spec_invntt_layer(x4, 16, 15);
    let a5 = spec_invntt_layer(a4, 16, 15);
    let b5 = spec_invntt_layer(b4, 16, 15);
    lemma_invntt_layer_linear(x4, a4, b4, alpha, beta, 16, 8);
    let x6 = spec_invntt_layer(x5, 32, 7);
    let a6 = spec_invntt_layer(a5, 32, 7);
    let b6 = spec_invntt_layer(b5, 32, 7);
    lemma_invntt_layer_linear(x5, a5, b5, alpha, beta, 32, 4);
    let x7 = spec_invntt_layer(x6, 64, 3);
    let a7 = spec_invntt_layer(a6, 64, 3);
    let b7 = spec_invntt_layer(b6, 64, 3);
    lemma_invntt_layer_linear(x6, a6, b6, alpha, beta, 64, 2);
    let x8 = spec_invntt_layer(x7, 128, 1);
    let a8 = spec_invntt_layer(a7, 128, 1);
    let b8 = spec_invntt_layer(b7, 128, 1);
    lemma_invntt_layer_linear(x7, a7, b7, alpha, beta, 128, 1);
    let sx = spec_invntt_scale(x8);
    let sa = spec_invntt_scale(a8);
    let sb = spec_invntt_scale(b8);
    assert forall|j: int| 0 <= j < 256 implies spec_congruent(
        #[trigger] sx[j],
        alpha * sa[j] + beta * sb[j],
    ) by {
        lemma_montgomery_linear(41978, x8[j], a8[j], b8[j], alpha, beta);
    }
}

/// The step of the proof that the forward transform undoes the inverse one:
/// `m` reduces `zeta * u`, `u` is `c` times `g`, and `g` reduces
/// `zeta_inv * d`; then `m` is `c * d`.
proof fn lemma_double_reduce(m: int, u: int, g: int, d: int, c: int, zeta: int, zeta_inv: int)
    requires
        spec_congruent(m, zeta * u * 8265825),
        spec_congruent(u, c * g),
        spec_congruent(g, zeta_inv * d * 8265825),
        spec_congruent(zeta * zeta_inv * 7593442, 1),
    ensures
        spec_congruent(m, c * d),
{
    let q: int = 8380417;
    let k1 = lemma_congruent_multiple(m, zeta * u * 8265825);
    let k2 = lemma_congruent_multiple(u, c * g);
    let k3 = lemma_congruent_multiple(g, zeta_inv * d * 8265825);
    let k4 = lemma_congruent_multiple(zeta * zeta_inv * 7593442, 1);
    let e = zeta * 8265825;
    let w = zeta * zeta_inv;
    assert(zeta * u * 8265825 == e * u) by (nonlinear_arith)
        requires
            e == zeta * 8265825,
    ;
    assert(e * u == c * (e * g) + (e * k2) * q) by (nonlinear_arith)
        requires
            u - c * g == k2 * q,
    ;
    assert(e * g == (e * zeta_inv * 8265825) * d + (e * k3) * q) by (nonlinear_arith)
        requires
            g - zeta_inv * d * 8265825 == k3 * q,
    ;
    let f = e * zeta_inv * 8265825;
    assert(f == w * 68323862930625) by (nonlinear_arith)
        requires
            f == e * zeta_inv * 8265825,
            e == zeta * 8265825,
            w == zeta * zeta_inv,
    ;
    assert(w * 68323862930625 == w * 7593442 + (w * 8152799) * q) by (nonlinear_arith)
        requires
            q == 8380417,
    ;
    assert(w * 7593442 == 1 + k4 * q) by (nonlinear_arith)
        requires
            zeta * zeta_inv * 7593442 - 1 == k4 * q,
            w == zeta * zeta_inv,
    ;
    let mm = k4 + w * 8152799;
    assert(f == 1 + mm * q) by (nonlinear_arith)
        requires
            f == w * 68323862930625,
            w * 68323862930625 == w * 7593442 + (w * 8152799) * q,
            w * 7593442 == 1 + k4 * q,
            mm == k4 + w * 8152799,
    ;
    assert(e * g == d + (mm * d + e * k3) * q) by (nonlinear_arith)
        requires
            e * g == f * d + (e * k3) * q,
            f == 1 + mm * q,
    ;
    let n = mm * d + e * k3;
    assert(m - c * d == (k1 + e * k2 + c * n) * q) by (nonlinear_arith)
        requires
            m - e * u == k1 * q,
            e * u == c * (e * g) + (e * k2) * q,
            e * g == d + n * q,
    ;
    lemma_congruent_from_multiple(m, c * d, k1 + e * k2 + c * n);
}

/// A layer of the forward transform undoes the layer of the inverse
/// transform with the same blocks, but for a factor 2: where `yp` is `c`
/// times the inverse layer of `y`, the forward layer of `yp` is `2 * c` times
/// `y`, all modulo `Q`.
pub proof fn lemma_ntt_layer_undoes(y: Seq<int>, yp: Seq<int>, len: int, k0: int, c: int)
    requires
        y.len() == 256,
        yp.len() == 256,
        spec_layer(len, k0),
        spec_scaled(yp, c, spec_invntt_layer(y, len, 2 * k0 - 1)),
    ensures
        spec_scaled(spec_ntt_layer(yp, len, k0), 2 * c, y),
        spec_ntt_layer(yp, len, k0).len() == 256,
{
    let inv = spec_invntt_layer(y, len, 2 * k0 - 1);
    let fwd = spec_ntt_layer(yp, len, k0);
    lemma_zeta_pairs();
    assert forall|j: int| 0 <= j < 256 implies spec_congruent(#[trigger] fwd[j], (2 * c) * y[j]) by {
        let (block, off) = lemma_layer_position(j, len, k0);
        let zeta = ZETAS@[k0 + block] as int;
        let zeta_inv = -(ZETAS@[2 * k0 - 1 - block] as int);
        assert(spec_zeta_pair_ok(k0 + block));
        assert(zeta * zeta_inv * 7593442 == zeta * (-(ZETAS@[2 * k0 - 1 - block] as int))
            * 7593442);
        let lo = if off < len {
            j
        } else {
            j - len
        };
        let hi = lo + len;
        if off < len {
            lemma_block_position(hi, len, block, off + len);
        } else {
            lemma_block_position(lo, len, block, off - len);
        }
        let d = y[lo] - y[hi];
        let g = spec_montgomery_reduce(zeta_inv * d);
        assert(inv[lo] == y[lo] + y[hi]);
        assert(inv[hi] == g);
        let m = spec_montgomery_reduce(zeta * yp[hi]);
        lemma_montgomery_congruent(zeta * yp[hi]);
        lemma_montgomery_congruent(zeta_inv * d);
        lemma_double_reduce(m, yp[hi], g, d, c, zeta, zeta_inv);
        let k1 = lemma_congruent_multiple(yp[lo], c * inv[lo]);
        let k2 = lemma_congruent_multiple(m, c * d);
        if off < len {
            assert(fwd[j] == yp[lo] + m);
            assert(fwd[j] - (2 * c) * y[j] == (k1 + k2) * 8380417) by (nonlinear_arith)
                requires
                    fwd[j] == yp[lo] + m,
                    yp[lo] - c * (y[lo] + y[hi]) == k1 * 8380417,
                    m - c * (y[lo] - y[hi]) == k2 * 8380417,
                    j == lo,
            ;
            lemma_congruent_from_multiple(fwd[j], (2 * c) * y[j], k1 + k2);
        } else {
            assert(fwd[j] == yp[lo] - m);
            assert(fwd[j] - (2 * c) * y[j] == (k1 - k2) * 8380417) by (nonlinear_arith)
                requires
                    fwd[j] == yp[lo] - m,
                    yp[lo] - c * (y[lo] + y[hi]) == k1 * 8380417,
                    m - c * (y[lo] - y[hi]) == k2 * 8380417,
                    j == hi,
            ;
            lemma_congruent_from_multiple(fwd[j], (2 * c) * y[j], k1 - k2);
        }
    }
}

/// The forward transform of the inverse transform of a polynomial is the
/// polynomial times `2^32` modulo `Q`, coefficient by coefficient.
pub proof fn lemma_ntt_of_invntt(p: Seq<int>)
    requires
        p.len() == 256,
    ensures
        spec_scaled(spec_ntt(spec_invntt_tomont(p)), 4193792, p),
        spec_ntt(spec_invntt_tomont(p)).len() == 256,
        spec_invntt_tomont(p).len() == 256,
{
    let u1 = spec_invntt_layer(p, 1, 255);
    let u2 = spec_invntt_layer(u1, 2, 127);
    let u3 = spec_invntt_layer(u2, 4, 63);
    let u4 = spec_invntt_layer(u3, 8, 31);
    let u5 = spec_invntt_layer(u4, 16, 15);
    let u6 = spec_invntt_layer(u5, 32, 7);
    let u7 = spec_invntt_layer(u6, 64, 3);
    let u8 = spec_invntt_layer(u7, 128, 1);
    let s = spec_invntt_scale(u8);
    let sigma: int = 346982801850;
    assert forall|j: int| 0 <= j < 256 implies spec_congruent(#[trigger] s[j], sigma * u8[j]) by {
        lemma_montgomery_congruent(41978 * u8[j]);
        assert(41978 * u8[j] * 8265825 == sigma * u8[j]) by (nonlinear_arith)
            requires
                sigma == 346982801850,
        ;
    }
    let f1 = spec_ntt_layer(s, 128, 1);
    lemma_ntt_layer_undoes(u7, s, 128, 1, sigma);
    let f2 = spec_ntt_layer(f1, 64, 2);
    lemma_ntt_layer_undoes(u6, f1, 64, 2, 2 * sigma);
    let f3 = spec_ntt_layer(f2, 32, 4);
    lemma_ntt_layer_undoes(u5, f2, 32, 4, 4 * sigma);
    let f4 = spec_ntt_layer(f3, 16, 8);
    lemma_ntt_layer_undoes(u4, f3, 16, 8, 8 * sigma);
    let f5 = spec_ntt_layer(f4, 8, 16);
    lemma_ntt_layer_undoes(u3, f4, 8, 16, 16 * sigma);
    let f6 = spec_ntt_layer(f5, 4, 32);
    lemma_ntt_layer_undoes(u2, f5, 4, 32, 32 * sigma);
    let f7 = spec_ntt_layer(f6, 2, 64);
    lemma_ntt_layer_undoes(u1, f6, 2, 64, 64 * sigma);
    let f8 = spec_ntt_layer(f7, 1, 128);
    lemma_ntt_layer_undoes(p, f7, 1, 128, 128 * sigma);
    assert(f8 == spec_ntt(spec_invntt_tomont(p)));
    assert forall|j: int| 0 <= j < 256 implies spec_congruent(#[trigger] f8[j], 4193792 * p[j]) by {
        let k = lemma_congruent_multiple(f8[j], (2 * (128 * sigma)) * p[j]);
        assert(f8[j] - 4193792 * p[j] == (k + 10599424 * p[j]) * 8380417) by (nonlinear_arith)
            requires
                f8[j] - (2 * (128 * sigma)) * p[j] == k * 8380417,
                sigma == 346982801850,
        ;
        lemma_congruent_from_multiple(f8[j], 4193792 * p[j], k + 10599424 * p[j]);
    }
}

} // verus!
