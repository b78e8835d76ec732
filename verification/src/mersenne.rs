//! The number `2^61 - 1` is a prime.
//!
//! The proof is Pocklington's: `2^61 - 2` has the prime factors 61, 151, 331 and
//! 1321, and three raised to `2^61 - 2` is one modulo `2^61 - 1`, while leaving
//! out any one of the four factors from the exponent gives a number that is not
//! one modulo any divisor. Every prime divisor of `2^61 - 1` is then one more
//! than a multiple of all four factors, so it is greater than the square root.

use vstd::prelude::*;
use vstd::arithmetic::div_mod::*;
use vstd::arithmetic::mul::*;
use vstd::arithmetic::power::*;

verus! {

/// `2^61 - 1`.
pub open spec fn p() -> int {
    2305843009213693951
}

/// Squares a residue; `q` is the quotient that the reduction drops.
proof fn lemma_square(b: int, e: nat, x: int, q: int, y: int)
    requires
        pow(b, e) % p() == x,
        x * x == q * p() + y,
        0 <= y < p(),
    ensures
        pow(b, 2 * e) % p() == y,
{
    lemma_pow_adds(b, e, e);
    lemma_mul_mod_noop_general(pow(b, e), pow(b, e), p());
    lemma_fundamental_div_mod_converse(x * x, p(), q, y);
}

/// Multiplies a residue by the base; `q` is the quotient that the reduction
/// drops.
proof fn lemma_times(b: int, e: nat, x: int, q: int, y: int)
    requires
        pow(b, e) % p() == x,
        x * b == q * p() + y,
        0 <= y < p(),
    ensures
        pow(b, e + 1) % p() == y,
{
    lemma_pow_adds(b, e, 1);
    lemma_pow1(b);
    lemma_mul_mod_noop_left(pow(b, e), b, p());
    lemma_fundamental_div_mod_converse(x * b, p(), q, y);
}

/// Powers of powers, with a residue in between.
proof fn lemma_compose(b: int, e: nat, x: int, f: nat, y: int)
    requires
        pow(b, e) % p() == x,
        pow(x, f) % p() == y,
    ensures
        pow(b, e * f) % p() == y,
{
    lemma_pow_multiplies(b, e, f);
    lemma_pow_mod_noop(pow(b, e), f, p());
}

proof fn lemma_power_cofactor()
    ensures
        pow(3, 572521950) % p() == 2254674356018424053,
{
    lemma_pow1(3);
    lemma_square(3, 1, 3, 0, 9);
    lemma_square(3, 2, 9, 0, 81);
    lemma_square(3, 4, 81, 0, 6561);
    lemma_square(3, 8, 6561, 0, 43046721);
    lemma_times(3, 16, 43046721, 0, 129140163);
    lemma_square(3, 17, 129140163, 0, 16677181699666569);
    lemma_square(3, 34, 16677181699666569, 120618961625898, 1792134848248688763);
    lemma_square(3, 68, 1792134848248688763, 1392873366258605547, 1501429718753523972);
    lemma_square(3, 136, 1501429718753523972, 977642966736496372, 1380851334748811012);
    lemma_square(3, 272, 1380851334748811012, 826921174190339197, 609481365655366797);
    lemma_times(3, 544, 609481365655366797, 0, 1828444096966100391);
    lemma_square(3, 545, 1828444096966100391, 1449885270754070932, 221376482697020549);
    lemma_times(3, 1090, 221376482697020549, 0, 664129448091061647);
    lemma_square(3, 1091, 664129448091061647, 191282720488479788, 2223639947672990221);
    lemma_times(3, 2182, 2223639947672990221, 2, 2059233824591582761);
    lemma_square(3, 2183, 2059233824591582761, 1838999414703472723, 1476570204513784548);
    lemma_times(3, 4366, 1476570204513784548, 1, 2123867604327659693);
    lemma_square(3, 4367, 2123867604327659693, 1956253562227866692, 703478594702074157);
    lemma_times(3, 8734, 703478594702074157, 0, 2110435784106222471);
    lemma_square(3, 8735, 2110435784106222471, 1931588222198555298, 1038000871223743443);
    lemma_times(3, 17470, 1038000871223743443, 1, 808159604457536378);
    lemma_square(3, 17471, 808159604457536378, 283246493220577095, 635009472262706539);
    lemma_times(3, 34942, 635009472262706539, 0, 1905028416788119617);
    lemma_square(3, 34943, 1905028416788119617, 1573885669696049866, 2194089215741666123);
    lemma_times(3, 69886, 2194089215741666123, 2, 1970581628797610467);
    lemma_square(3, 69887, 1970581628797610467, 1684066061842967696, 1642911636544351193);
    lemma_times(3, 139774, 1642911636544351193, 2, 317048891205665677);
    lemma_square(3, 139775, 317048891205665677, 43593600697481977, 1321216712279447202);
    lemma_times(3, 279550, 1321216712279447202, 1, 1657807127624647655);
    lemma_square(3, 279551, 1657807127624647655, 1191895745469800926, 1167500617836600399);
    lemma_times(3, 559102, 1167500617836600399, 1, 1196658844296107246);
    lemma_square(3, 559103, 1196658844296107246, 621027703928730553, 1871704117848719613);
    lemma_square(3, 1118206, 1871704117848719613, 1519303912180253561, 139057966858960258);
    lemma_times(3, 2236412, 139057966858960258, 0, 417173900576880774);
    lemma_square(3, 2236413, 417173900576880774, 75475243816306404, 62864157713476872);
    lemma_times(3, 4472826, 62864157713476872, 0, 188592473140430616);
    lemma_square(3, 4472827, 188592473140430616, 15424779910473020, 2119935907987437436);
    lemma_times(3, 8945654, 2119935907987437436, 2, 1748121705534924406);
    lemma_square(3, 8945655, 1748121705534924406, 1325298160001110793, 274644913389539693);
    lemma_square(3, 17891310, 274644913389539693, 32712473550603852, 1757122386852834997);
    lemma_times(3, 35782620, 1757122386852834997, 2, 659681142131117089);
    lemma_square(3, 35782621, 659681142131117089, 188728897650241062, 2247472780386617959);
    lemma_times(3, 71565242, 2247472780386617959, 2, 2130732322732465975);
    lemma_square(3, 71565243, 2130732322732465975, 1968919919090703049, 787267201624144026);
    lemma_times(3, 143130486, 787267201624144026, 1, 55958595658738127);
    lemma_square(3, 143130487, 55958595658738127, 1358012846315135, 972359997974219744);
    lemma_times(3, 286260974, 972359997974219744, 1, 611236984708965281);
    lemma_square(3, 286260975, 611236984708965281, 162027791997648308, 2254674356018424053);
}

proof fn lemma_power_small_pair()
    ensures
        pow(2254674356018424053, 9211) % p() == 1614074007461378547,
{
    lemma_pow1(2254674356018424053);
    lemma_square(2254674356018424053, 1, 2254674356018424053, 2204641179548740358, 2220181235554772351);
    lemma_square(2254674356018424053, 2, 2220181235554772351, 2137701785860262619, 476423307482349532);
    lemma_square(2254674356018424053, 4, 476423307482349532, 98436522783839738, 43273844456594186);
    lemma_square(2254674356018424053, 8, 43273844456594186, 812121903603525, 1793738815294225321);
    lemma_times(2254674356018424053, 16, 1793738815294225321, 1753934197635548238, 2184382990878737675);
    lemma_square(2254674356018424053, 17, 2184382990878737675, 2069320865199517149, 887991837602339926);
    lemma_times(2254674356018424053, 34, 887991837602339926, 868286529740119521, 1964166727065922607);
    lemma_square(2254674356018424053, 35, 1964166727065922607, 1673119512602222865, 1193976287709286834);
    lemma_times(2254674356018424053, 70, 1193976287709286834, 1167480919921865018, 1581550944236712084);
    lemma_square(2254674356018424053, 71, 1581550944236712084, 1084767427453352414, 945060731168575342);
    lemma_times(2254674356018424053, 142, 945060731168575342, 924089015137429225, 241644251962383151);
    lemma_square(2254674356018424053, 143, 241644251962383151, 25323469235822654, 2039255351660122847);
    lemma_times(2254674356018424053, 286, 2039255351660122847, 1994002509446342834, 676479944621641757);
    lemma_square(2254674356018424053, 287, 676479944621641757, 198463257752899820, 1211374765803058229);
    lemma_times(2254674356018424053, 574, 1211374765803058229, 1184493310719949587, 671889691606333900);
    lemma_square(2254674356018424053, 575, 671889691606333900, 195779051688690951, 1991989447952072599);
    lemma_times(2254674356018424053, 1150, 1991989447952072599, 1947785477073042725, 1084363030526767272);
    lemma_square(2254674356018424053, 1151, 1084363030526767272, 509940692959042455, 968949320464632279);
    lemma_square(2254674356018424053, 2302, 968949320464632279, 407166828737846468, 1487810747710418773);
    lemma_times(2254674356018424053, 4604, 1487810747710418773, 1454794938799928311, 1586383893831600208);
    lemma_square(2254674356018424053, 4605, 1586383893831600208, 1091407285124103028, 1046974040561259636);
    lemma_times(2254674356018424053, 9210, 1046974040561259636, 1023740779939497711, 1614074007461378547);
}

proof fn lemma_power_without_1321()
    ensures
        pow(1614074007461378547, 331) % p() == 234060095121088422,
{
    lemma_pow1(1614074007461378547);
    lemma_square(1614074007461378547, 1, 1614074007461378547, 1129840536043620219, 233807737690235940);
    lemma_square(1614074007461378547, 2, 233807737690235940, 23707623626322948, 1947760782507596052);
    lemma_times(1614074007461378547, 4, 1947760782507596052, 1363418948833906378, 1409562348255776966);
    lemma_square(1614074007461378547, 5, 1409562348255776966, 861665779361914703, 1983771053527103603);
    lemma_square(1614074007461378547, 10, 1983771053527103603, 1706684963844963261, 129631426602647398);
    lemma_square(1614074007461378547, 20, 129631426602647398, 7287706359839270, 1660117670984914634);
    lemma_times(1614074007461378547, 40, 1660117670984914634, 1162070779041377479, 944168153784027269);
    lemma_square(1614074007461378547, 41, 944168153784027269, 386606329684139885, 484300673473262726);
    lemma_square(1614074007461378547, 82, 484300673473262726, 101718608504330830, 719026678147141746);
    lemma_times(1614074007461378547, 164, 719026678147141746, 503313654585859454, 1877802471516560308);
    lemma_square(1614074007461378547, 165, 1877802471516560308, 1529220379680634685, 858834578775764429);
    lemma_times(1614074007461378547, 330, 858834578775764429, 601178208911851791, 234060095121088422);
}

proof fn lemma_power_without_331()
    ensures
        pow(1614074007461378547, 1321) % p() == 1491285494954315879,
{
    lemma_pow1(1614074007461378547);
    lemma_square(1614074007461378547, 1, 1614074007461378547, 1129840536043620219, 233807737690235940);
    lemma_square(1614074007461378547, 2, 233807737690235940, 23707623626322948, 1947760782507596052);
    lemma_times(1614074007461378547, 4, 1947760782507596052, 1363418948833906378, 1409562348255776966);
    lemma_square(1614074007461378547, 5, 1409562348255776966, 861665779361914703, 1983771053527103603);
    lemma_square(1614074007461378547, 10, 1983771053527103603, 1706684963844963261, 129631426602647398);
    lemma_square(1614074007461378547, 20, 129631426602647398, 7287706359839270, 1660117670984914634);
    lemma_times(1614074007461378547, 40, 1660117670984914634, 1162070779041377479, 944168153784027269);
    lemma_square(1614074007461378547, 41, 944168153784027269, 386606329684139885, 484300673473262726);
    lemma_square(1614074007461378547, 82, 484300673473262726, 101718608504330830, 719026678147141746);
    lemma_times(1614074007461378547, 164, 719026678147141746, 503313654585859454, 1877802471516560308);
    lemma_square(1614074007461378547, 165, 1877802471516560308, 1529220379680634685, 858834578775764429);
    lemma_square(1614074007461378547, 330, 858834578775764429, 319881635806797437, 1223596823332492454);
    lemma_square(1614074007461378547, 660, 1223596823332492454, 649302307263284624, 1822197611426832692);
    lemma_times(1614074007461378547, 1320, 1822197611426832692, 1275525605737232395, 1491285494954315879);
}

proof fn lemma_power_large_pair()
    ensures
        pow(2254674356018424053, 437251) % p() == 1538197715420448506,
{
    lemma_pow1(2254674356018424053);
    lemma_square(2254674356018424053, 1, 2254674356018424053, 2204641179548740358, 2220181235554772351);
    lemma_times(2254674356018424053, 2, 2220181235554772351, 2170913491298632598, 1378381263433743905);
    lemma_square(2254674356018424053, 3, 1378381263433743905, 823965421667233584, 1893171397319798641);
    lemma_square(2254674356018424053, 6, 1893171397319798641, 1554354709018979309, 1984592321257987022);
    lemma_times(2254674356018424053, 12, 1984592321257987022, 1940552499026084781, 1244504273653780435);
    lemma_square(2254674356018424053, 13, 1244504273653780435, 671680977826270330, 412164298777015395);
    lemma_square(2254674356018424053, 26, 412164298777015395, 73673449800157337, 1041385529301837538);
    lemma_times(2254674356018424053, 52, 1041385529301837538, 1018276282584477866, 1525657275339912948);
    lemma_square(2254674356018424053, 53, 1525657275339912948, 1009448653918265897, 1893344268619561657);
    lemma_square(2254674356018424053, 106, 1893344268619561657, 1554638587792221194, 1322007938812788155);
    lemma_times(2254674356018424053, 212, 1322007938812788155, 1292671437814147916, 1978285430177036099);
    lemma_square(2254674356018424053, 213, 1978285430177036099, 1697259192240197627, 845600905414683524);
    lemma_times(2254674356018424053, 426, 845600905414683524, 826836289047533317, 2180942385910537305);
    lemma_square(2254674356018424053, 427, 2180942385910537305, 2062807256025268108, 2151457963963848317);
    lemma_square(2254674356018424053, 854, 2151457963963848317, 2007409590422162325, 979560569991136414);
    lemma_square(2254674356018424053, 1708, 979560569991136414, 416133668444569642, 517893633863143854);
    lemma_square(2254674356018424053, 3416, 517893633863143854, 116319200797384117, 1176737061271597049);
    lemma_square(2254674356018424053, 6832, 1176737061271597049, 600522284404049108, 914498028738962693);
    lemma_square(2254674356018424053, 13664, 914498028738962693, 362690192361636158, 653577196218331991);
    lemma_square(2254674356018424053, 27328, 653577196218331991, 185252486708659835, 886231309237865996);
    lemma_square(2254674356018424053, 54656, 886231309237865996, 340615527741973256, 952218082442097560);
    lemma_square(2254674356018424053, 109312, 952218082442097560, 393226803779196537, 1658472019960905913);
    lemma_times(2254674356018424053, 218624, 1658472019960905913, 1621669089629418732, 2071315613794635257);
    lemma_square(2254674356018424053, 218625, 2071315613794635257, 1860642010234894814, 1284247836794385935);
    lemma_times(2254674356018424053, 437250, 1284247836794385935, 1255749265159139999, 1538197715420448506);
}

proof fn lemma_power_without_61()
    ensures
        pow(1538197715420448506, 151) % p() == 1125899906842624,
{
    lemma_pow1(1538197715420448506);
    lemma_square(1538197715420448506, 1, 1538197715420448506, 1026111579266415378, 2193822140465653558);
    lemma_square(1538197715420448506, 2, 2193822140465653558, 2087243392011546300, 164775609611628064);
    lemma_square(1538197715420448506, 4, 164775609611628064, 11774869934507079, 376294200723408967);
    lemma_times(1538197715420448506, 8, 376294200723408967, 251020940092574055, 551883873829111997);
    lemma_square(1538197715420448506, 9, 551883873829111997, 132088702038951626, 675227502711513683);
    lemma_square(1538197715420448506, 18, 675227502711513683, 197729064206111229, 704286805225748710);
    lemma_times(1538197715420448506, 36, 704286805225748710, 469820517038770898, 286046832473489262);
    lemma_square(1538197715420448506, 37, 286046832473489262, 35484978830375136, 1465989603605302308);
    lemma_times(1538197715420448506, 74, 1465989603605302308, 977942492218829333, 21996395313487165);
    lemma_square(1538197715420448506, 75, 21996395313487165, 209832761750850, 51599121805628875);
    lemma_times(1538197715420448506, 150, 51599121805628875, 34421099338495426, 1125899906842624);
}

proof fn lemma_power_without_151()
    ensures
        pow(1538197715420448506, 61) % p() == 2211238755008147949,
{
    lemma_pow1(1538197715420448506);
    lemma_square(1538197715420448506, 1, 1538197715420448506, 1026111579266415378, 2193822140465653558);
    lemma_times(1538197715420448506, 2, 2193822140465653558, 1463470058897809326, 1457548638657097322);
    lemma_square(1538197715420448506, 3, 1457548638657097322, 921332469540329613, 568486056735300721);
    lemma_times(1538197715420448506, 6, 568486056735300721, 379229613735416263, 1877460603735047713);
    lemma_square(1538197715420448506, 7, 1877460603735047713, 1528663618681987940, 408374142953579429);
    lemma_times(1538197715420448506, 14, 408374142953579429, 272421050009898916, 285205500804725958);
    lemma_square(1538197715420448506, 15, 285205500804725958, 35276546306165353, 1705455760537138061);
    lemma_square(1538197715420448506, 30, 1705455760537138061, 1261395220545023441, 762123615079934330);
    lemma_times(1538197715420448506, 60, 762123615079934330, 508402696497403081, 2211238755008147949);
}

proof fn lemma_power_all()
    ensures
        pow(234060095121088422, 1321) % p() == 1,
{
    lemma_pow1(234060095121088422);
    lemma_square(234060095121088422, 1, 234060095121088422, 23758828293681047, 1138144871675203387);
    lemma_square(234060095121088422, 2, 1138144871675203387, 561778813104147651, 925218022786712668);
    lemma_times(234060095121088422, 4, 925218022786712668, 93916462463353220, 1232610417245157676);
    lemma_square(234060095121088422, 5, 1232610417245157676, 658903678450937406, 2052015042159889870);
    lemma_square(234060095121088422, 10, 2052015042159889870, 1826128542327064373, 1413654373430909177);
    lemma_square(234060095121088422, 20, 1413654373430909177, 866675953018071667, 1399396648900431012);
    lemma_times(234060095121088422, 40, 1399396648900431012, 142049095035945800, 1189989421339087264);
    lemma_square(234060095121088422, 41, 1189989421339087264, 614124559755620835, 606841734917936611);
    lemma_square(234060095121088422, 82, 606841734917936611, 159705968605290702, 1236305722200221719);
    lemma_times(234060095121088422, 164, 1236305722200221719, 125494161476156449, 2270811616122897419);
    lemma_square(234060095121088422, 165, 2270811616122897419, 2236312435544825414, 2278904677273990847);
    lemma_square(234060095121088422, 330, 2278904677273990847, 2252281056147120177, 1173230281344828082);
    lemma_square(234060095121088422, 660, 1173230281344828082, 596948399160031538, 125558427495972086);
    lemma_times(234060095121088422, 1320, 125558427495972086, 12745107696201341, 1);
}

/// The powers of three that the proof needs.
proof fn lemma_powers_of_three()
    ensures
        pow(3, 2305843009213693950) % p() == 1,
        pow(3, 37800705069076950) % p() == 1125899906842624,
        pow(3, 15270483504726450) % p() == 2211238755008147949,
        pow(3, 6966293079195450) % p() == 1491285494954315879,
        pow(3, 1745528394559950) % p() == 234060095121088422,
{
    lemma_power_cofactor();
    lemma_power_small_pair();
    lemma_compose(3, 572521950, 2254674356018424053, 9211, 1614074007461378547);
    lemma_power_without_1321();
    lemma_compose(3, 5273499681450, 1614074007461378547, 331, 234060095121088422);
    lemma_power_without_331();
    lemma_compose(3, 5273499681450, 1614074007461378547, 1321, 1491285494954315879);
    lemma_power_large_pair();
    lemma_compose(3, 572521950, 2254674356018424053, 437251, 1538197715420448506);
    lemma_power_without_61();
    lemma_compose(3, 250335795159450, 1538197715420448506, 151, 1125899906842624);
    lemma_power_without_151();
    lemma_compose(3, 250335795159450, 1538197715420448506, 61, 2211238755008147949);
    lemma_power_all();
    lemma_compose(3, 1745528394559950, 234060095121088422, 1321, 1);
}

// ---------------------------------------------------------------------------
// The factors are primes
// ---------------------------------------------------------------------------

/// No number from two to `k` divides `n`.
spec fn no_divisor(n: int, k: int) -> bool
    decreases k,
{
    k < 2 || (n % k != 0 && no_divisor(n, k - 1))
}

proof fn lemma_no_divisor(n: int, k: int, d: int)
    requires
        no_divisor(n, k),
        2 <= d <= k,
    ensures
        n % d != 0,
    decreases k,
{
    if d < k {
        lemma_no_divisor(n, k - 1, d);
    }
}

/// A number without a divisor up to its square root is a prime.
proof fn lemma_trial_division(n: int, k: int)
    requires
        n >= 2,
        k >= 0,
        no_divisor(n, k),
        n < k * k,
    ensures
        crate::arith::is_prime(n),
{
    assert forall|d: int| 1 < d < n implies #[trigger] (n % d) != 0 by {
        if n % d == 0 {
            let f = crate::arith::lemma_quotient(n, d);
            if d <= k {
                lemma_no_divisor(n, k, d);
            } else {
                assert(2 <= f <= k) by (nonlinear_arith)
                    requires
                        n == f * d,
                        1 < d < n,
                        d > k,
                        k >= 0,
                        n < k * k,
                ;
                lemma_mul_is_commutative(f, d);
                crate::arith::lemma_multiple(n, d, f);
                lemma_no_divisor(n, k, f);
            }
        }
    }
}

proof fn lemma_factors_are_prime()
    ensures
        crate::arith::is_prime(61),
        crate::arith::is_prime(151),
        crate::arith::is_prime(331),
        crate::arith::is_prime(1321),
{
    reveal_with_fuel(no_divisor, 20);
    lemma_trial_division(61, 8);
    lemma_trial_division(151, 13);
    lemma_trial_division(331, 19);
    assert(no_divisor(1321, 10));
    assert(no_divisor(1321, 19));
    assert(no_divisor(1321, 28));
    assert(no_divisor(1321, 37));
    lemma_trial_division(1321, 37);
}

// ---------------------------------------------------------------------------
// Every prime divisor is large
// ---------------------------------------------------------------------------

/// If three raised to `n` is one modulo a prime `r`, but three raised to
/// `n / q` is not, then the prime `q` divides `r - 1`.
proof fn lemma_factor_divides(r: int, n: nat, q: int)
    requires
        crate::arith::is_prime(r),
        crate::arith::is_prime(q),
        3int % r != 0,
        n > 0,
        n as int % q == 0,
        pow(3, n) % r == 1,
        pow(3, (n as int / q) as nat) % r != 1,
    ensures
        (r - 1) % q == 0,
{
    let e = crate::arith::gcd((r - 1) as nat, n);
    crate::arith::lemma_gcd_divides((r - 1) as nat, n);
    crate::arith::lemma_fermat(3, r);
    lemma_small_mod(1, r as nat);
    crate::arith::lemma_pow_gcd(3, (r - 1) as nat, n, r);
    if (r - 1) % q != 0 {
        let f = crate::arith::lemma_quotient(n as int, e as int);
        if e as int % q == 0 {
            let k = crate::arith::lemma_quotient(e as int, q);
            let j = crate::arith::lemma_quotient(r - 1, e as int);
            assert(r - 1 == (j * k) * q) by (nonlinear_arith)
                requires
                    r - 1 == j * e,
                    e == k * q,
            ;
            crate::arith::lemma_multiple(r - 1, j * k, q);
        }
        crate::arith::lemma_euclid(f, e as int, q);
        let g = crate::arith::lemma_quotient(f, q);
        let m = crate::arith::lemma_quotient(n as int, q);
        assert(m == e * g && g >= 0) by (nonlinear_arith)
            requires
                n == m * q,
                n == f * e,
                f == g * q,
                q >= 2,
                e > 0,
                n > 0,
        ;
        lemma_pow_multiplies(3, e, g as nat);
        crate::arith::lemma_congruent_pow(pow(3, e), 1, g as nat, r);
        lemma1_pow(g as nat);
    }
}

/// A residue whose difference to one is invertible modulo `2^61 - 1` is not one
/// modulo any of its divisors.
proof fn lemma_not_one(r: int, x: int, y: int, inverse: int)
    requires
        r > 1,
        p() % r == 0,
        x % p() == y,
        ((y - 1) * inverse) % p() == 1,
    ensures
        x % r != 1,
{
    let k = crate::arith::lemma_quotient(p(), r);
    lemma_fundamental_div_mod(x, p());
    let a = x / p();
    lemma_fundamental_div_mod((y - 1) * inverse, p());
    let c = ((y - 1) * inverse) / p();
    if x % r == 1 {
        lemma_small_mod(1, r as nat);
        crate::arith::lemma_congruent_difference(x, 1, r);
        let j = crate::arith::lemma_quotient(x - 1, r);
        assert(1 == ((j - k * a) * inverse - k * c) * r) by (nonlinear_arith)
            requires
                x == p() * a + y,
                x - 1 == j * r,
                p() == k * r,
                (y - 1) * inverse == p() * c + 1,
        ;
        crate::arith::lemma_multiple(1, (j - k * a) * inverse - k * c, r);
    }
}

/// A prime divisor of `2^61 - 1` is greater than the square root.
proof fn lemma_divisors_are_large(r: int)
    requires
        crate::arith::is_prime(r),
        p() % r == 0,
    ensures
        r > 4027518961,
{
    let n: nat = 2305843009213693950;
    lemma_powers_of_three();
    lemma_factors_are_prime();
    let k = crate::arith::lemma_quotient(p(), r);
    lemma_not_one(r, pow(3, 37800705069076950), 1125899906842624, 73219245529501761);
    lemma_not_one(r, pow(3, 15270483504726450), 2211238755008147949, 1896004468068488480);
    lemma_not_one(r, pow(3, 6966293079195450), 1491285494954315879, 1881382712785867029);
    lemma_not_one(r, pow(3, 1745528394559950), 234060095121088422, 828993518632009434);
    assert(pow(3, n) % r == 1) by {
        lemma_fundamental_div_mod(pow(3, n), p());
        let a = pow(3, n) / p();
        assert(pow(3, n) - 1 == (a * k) * r) by (nonlinear_arith)
            requires
                pow(3, n) == p() * a + 1,
                p() == k * r,
        ;
        crate::arith::lemma_multiple(pow(3, n) - 1, a * k, r);
        crate::arith::lemma_congruent_difference(pow(3, n), 1, r);
        lemma_small_mod(1, r as nat);
    }
    assert(3int % r != 0) by {
        if r > 3 {
            lemma_small_mod(3, r as nat);
        } else {
            assert(p() % 2 != 0 && p() % 3 != 0);
        }
    }
    lemma_factor_divides(r, n, 61);
    lemma_factor_divides(r, n, 151);
    lemma_factor_divides(r, n, 331);
    lemma_factor_divides(r, n, 1321);
    crate::arith::lemma_prime_factors_multiply(r - 1, 61, 151);
    crate::arith::lemma_prime_factors_multiply(r - 1, 9211, 331);
    crate::arith::lemma_prime_factors_multiply(r - 1, 3048841, 1321);
    let j = crate::arith::lemma_quotient(r - 1, 4027518961);
    assert(j >= 1);
}

/// `2^61 - 1` is a prime.
pub proof fn lemma_p_is_prime()
    ensures
        crate::arith::is_prime(p()),
{
    if !crate::arith::is_prime(p()) {
        let r = crate::arith::lemma_least_divisor(p());
        lemma_divisors_are_large(r);
        assert(r * r > p()) by (nonlinear_arith)
            requires
                r > 4027518961,
                p() == 2305843009213693951,
        ;
    }
}

} // verus!
