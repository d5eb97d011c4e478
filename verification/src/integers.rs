//! Signed integers of 512 bits.
use vstd::prelude::*;
use vstd::string::*;
use crate::errors::{InvalidOperationError, SyntaxError, SyntaxErrorView};
use crate::position::Position;
use crate::text::{decimal_text, digit_char};

verus! {

/// A signed integer of 512 bits, held as eight 64-bit limbs in two's
/// complement, least significant limb first.
#[derive(Clone, Copy, Debug)]
pub struct Integer {
    limbs: [u64; 8],
}

/// The unsigned number spelled by limbs of 64 bits, least significant first.
pub open spec fn limbs_value(limbs: Seq<u64>) -> nat
    decreases limbs.len(),
{
    if limbs.len() == 0 {
        0
    } else {
        limbs[0] as nat + 0x1_0000_0000_0000_0000 * limbs_value(limbs.drop_first())
    }
}

/// `2^511`: one more than the largest [`Integer`].
pub open spec fn integer_bound() -> int {
    0x8000_0000_0000_0000_0000_0000_0000_0000_0000_0000_0000_0000_0000_0000_0000_0000_0000_0000_0000_0000_0000_0000_0000_0000_0000_0000_0000_0000_0000_0000_0000_0000int
}

/// Whether `x` can be held in an [`Integer`].
pub open spec fn fits_integer(x: int) -> bool {
    -integer_bound() <= x < integer_bound()
}

/// The signed number that 512 bits spell in two's complement, given the
/// unsigned number that they spell.
pub open spec fn twos_complement(unsigned: nat) -> int {
    if unsigned >= integer_bound() {
        unsigned - 2 * integer_bound()
    } else {
        unsigned as int
    }
}

/// The number spelled by eight limbs, written out.
pub open spec fn eight_limbs(l: Seq<u64>) -> int {
    l[0] as int + 0x1_0000_0000_0000_0000int * l[1] as int
        + 0x1_0000_0000_0000_0000_0000_0000_0000_0000int * l[2] as int
        + 0x1_0000_0000_0000_0000_0000_0000_0000_0000_0000_0000_0000_0000int * l[3] as int
        + 0x1_0000_0000_0000_0000_0000_0000_0000_0000_0000_0000_0000_0000_0000_0000_0000_0000int
        * l[4] as int
        + 0x1_0000_0000_0000_0000_0000_0000_0000_0000_0000_0000_0000_0000_0000_0000_0000_0000_0000_0000_0000_0000int
        * l[5] as int
        + 0x1_0000_0000_0000_0000_0000_0000_0000_0000_0000_0000_0000_0000_0000_0000_0000_0000_0000_0000_0000_0000_0000_0000_0000_0000int
        * l[6] as int
        + 0x1_0000_0000_0000_0000_0000_0000_0000_0000_0000_0000_0000_0000_0000_0000_0000_0000_0000_0000_0000_0000_0000_0000_0000_0000_0000_0000_0000_0000int
        * l[7] as int
}

/// Eight limbs spell the sum of their places.
pub proof fn lemma_eight_limbs(l: Seq<u64>)
    requires
        l.len() == 8,
    ensures
        limbs_value(l) == eight_limbs(l),
{
    let l1 = l.drop_first();
    let l2 = l1.drop_first();
    let l3 = l2.drop_first();
    let l4 = l3.drop_first();
    let l5 = l4.drop_first();
    let l6 = l5.drop_first();
    let l7 = l6.drop_first();
    let l8 = l7.drop_first();
    assert(limbs_value(l8) == 0);
    assert(limbs_value(l7) == l[7] as nat);
    assert(limbs_value(l6) == l[6] as nat + 0x1_0000_0000_0000_0000 * limbs_value(l7));
    assert(limbs_value(l5) == l[5] as nat + 0x1_0000_0000_0000_0000 * limbs_value(l6));
    assert(limbs_value(l4) == l[4] as nat + 0x1_0000_0000_0000_0000 * limbs_value(l5));
    assert(limbs_value(l3) == l[3] as nat + 0x1_0000_0000_0000_0000 * limbs_value(l4));
    assert(limbs_value(l2) == l[2] as nat + 0x1_0000_0000_0000_0000 * limbs_value(l3));
    assert(limbs_value(l1) == l[1] as nat + 0x1_0000_0000_0000_0000 * limbs_value(l2));
    assert(limbs_value(l) == l[0] as nat + 0x1_0000_0000_0000_0000 * limbs_value(l1));
}

/// The decimal numeral of `x`, with a minus sign where it is below zero.
pub open spec fn signed_decimal_text(x: int) -> Seq<char> {
    if x < 0 {
        seq!['-'] + decimal_text((-x) as nat)
    } else {
        decimal_text(x as nat)
    }
}

/// The quotient of `a` by `b`, rounded toward zero.
pub open spec fn truncated_quotient(a: int, b: int) -> int {
    if b == 0 {
        0
    } else if (a >= 0) == (b > 0) {
        (vstd::math::abs(a) / vstd::math::abs(b)) as int
    } else {
        -((vstd::math::abs(a) / vstd::math::abs(b)) as int)
    }
}

/// Whether `a` can be divided by `b`: `b` is not zero and 512 bits can hold
/// the quotient.
pub open spec fn divisible(a: int, b: int) -> bool {
    b != 0 && fits_integer(truncated_quotient(a, b))
}

/// What is left of `a` after the quotient by `b`, rounded toward zero, has
/// been taken out. It has the sign of `a`.
pub open spec fn truncated_remainder(a: int, b: int) -> int {
    a - b * truncated_quotient(a, b)
}

/// `base` to the power `exponent`.
pub open spec fn power(base: int, exponent: nat) -> int
    decreases exponent,
{
    if exponent == 0 {
        1
    } else {
        base * power(base, (exponent - 1) as nat)
    }
}

/// The product of the numbers from one to `n`.
pub open spec fn factorial(n: nat) -> nat
    decreases n,
{
    if n == 0 {
        1
    } else {
        n * factorial((n - 1) as nat)
    }
}

/// The largest number whose factorial is taken.
pub const MAX_FACTORIAL: u64 = 97;

/// The number that the character `c` stands for as a digit: a decimal digit
/// for itself, a Latin letter of either case for ten and more; 255 for a
/// character that is no digit.
pub open spec fn digit_of(c: char) -> nat {
    if '0' <= c <= '9' {
        (c as u32 - '0' as u32) as nat
    } else if 'a' <= c <= 'z' {
        (c as u32 - 'a' as u32 + 10) as nat
    } else if 'A' <= c <= 'Z' {
        (c as u32 - 'A' as u32 + 10) as nat
    } else {
        255
    }
}

/// Whether every character of `digits` is a digit of base `radix`.
pub open spec fn all_digits(digits: Seq<char>, radix: int) -> bool {
    forall|i: int| 0 <= i < digits.len() ==> digit_of(#[trigger] digits[i]) < radix
}

/// The number that `digits` spell in base `radix`, most significant first.
pub open spec fn digits_value(digits: Seq<char>, radix: int) -> int
    decreases digits.len(),
{
    if digits.len() == 0 {
        0
    } else {
        digits_value(digits.drop_last(), radix) * radix + digit_of(digits.last())
    }
}

/// Whether `digits` are more than are read in base `radix`: in the bases 2,
/// 4 and 16 no more digits are read than 512 bits have room for, leading
/// zeros counted.
pub open spec fn too_many_digits(digits: Seq<char>, radix: int) -> bool {
    ||| radix == 2 && digits.len() > 512
    ||| radix == 4 && digits.len() > 256
    ||| radix == 16 && digits.len() > 128
}

/// What is read from `text` as an integer in base `radix`: behind a sign or
/// not, one digit of the base at least and digits only spell the number,
/// where 512 bits in two's complement can hold it; anything else is `None`.
pub open spec fn parsed_integer(text: Seq<char>, radix: int) -> Option<int> {
    let signed = text.len() > 0 && (text[0] == '-' || text[0] == '+');
    let digits = if signed {
        text.skip(1)
    } else {
        text
    };
    if digits.len() == 0 || !all_digits(digits, radix) || too_many_digits(digits, radix) {
        None
    } else {
        let magnitude = digits_value(digits, radix);
        let number = if text[0] == '-' {
            -magnitude
        } else {
            magnitude
        };
        if fits_integer(number) {
            Some(number)
        } else {
            None
        }
    }
}

/// Reads `text` as an integer in base `radix`.
///
/// Trusted: `fastnum::I512::from_str_radix`, which reads an optional sign
/// and then digits, `0-9`, `a-z` and `A-Z`, of which each must be below the
/// radix, and gives an error for an empty text, for any other character and
/// for a number that 512 bits in two's complement cannot hold. In the bases
/// 2, 4 and 16 it also gives an error for more digits than 512 bits have
/// room for. For a radix outside 2 to 36 the outside function panics.
#[verifier::external_body]
fn parse_radix(text: &str, radix: u32) -> (r: Option<Integer>)
    requires
        2 <= radix <= 36,
    ensures
        match r {
            Some(i) => parsed_integer(text@, radix as int) == Some(i@),
            None => parsed_integer(text@, radix as int) is None,
        },
{
    match fastnum::I512::from_str_radix(text, radix) {
        Ok(x) => Some(Integer { limbs: *x.to_bits().digits() }),
        Err(_) => None,
    }
}

/// Writes `i` in decimal digits, with a minus sign where it is below zero.
///
/// Trusted: the `Display` of `fastnum::I512`, which writes as that of the
/// primitive integer types does.
#[verifier::external_body]
fn render_decimal(i: &Integer) -> (s: String)
    ensures
        s@ == signed_decimal_text(i@),
{
    fastnum::I512::from_digits(i.limbs).to_string()
}

/// The sum of `a` and `b`, where 512 bits can hold it.
///
/// Trusted: `fastnum::I512::checked_add`, which gives `None` on overflow.
#[verifier::external_body]
fn checked_add_limbs(a: &Integer, b: &Integer) -> (r: Option<Integer>)
    ensures
        r is Some <==> fits_integer(a@ + b@),
        r matches Some(x) ==> x@ == a@ + b@,
{
    match fastnum::I512::from_digits(a.limbs).checked_add(fastnum::I512::from_digits(b.limbs)) {
        Some(x) => Some(Integer { limbs: *x.to_bits().digits() }),
        None => None,
    }
}

/// The difference of `a` and `b`, where 512 bits can hold it.
///
/// Trusted: `fastnum::I512::checked_sub`, which gives `None` on overflow.
#[verifier::external_body]
fn checked_sub_limbs(a: &Integer, b: &Integer) -> (r: Option<Integer>)
    ensures
        r is Some <==> fits_integer(a@ - b@),
        r matches Some(x) ==> x@ == a@ - b@,
{
    match fastnum::I512::from_digits(a.limbs).checked_sub(fastnum::I512::from_digits(b.limbs)) {
        Some(x) => Some(Integer { limbs: *x.to_bits().digits() }),
        None => None,
    }
}

/// The product of `a` and `b`, where 512 bits can hold it.
///
/// Trusted: `fastnum::I512::checked_mul`, which gives `None` on overflow.
#[verifier::external_body]
fn checked_mul_limbs(a: &Integer, b: &Integer) -> (r: Option<Integer>)
    ensures
        r is Some <==> fits_integer(a@ * b@),
        r matches Some(x) ==> x@ == a@ * b@,
{
    match fastnum::I512::from_digits(a.limbs).checked_mul(fastnum::I512::from_digits(b.limbs)) {
        Some(x) => Some(Integer { limbs: *x.to_bits().digits() }),
        None => None,
    }
}

/// The quotient of `a` by `b`, rounded toward zero, where 512 bits can hold
/// it.
///
/// Trusted: `fastnum::I512::checked_div`, which gives `None` on overflow and
/// divides as the primitive integer types do. For a zero divisor the outside
/// function panics.
#[verifier::external_body]
fn checked_div_limbs(a: &Integer, b: &Integer) -> (r: Option<Integer>)
    requires
        b@ != 0,
    ensures
        r is Some <==> divisible(a@, b@),
        r matches Some(x) ==> x@ == truncated_quotient(a@, b@),
{
    match fastnum::I512::from_digits(a.limbs).checked_div(fastnum::I512::from_digits(b.limbs)) {
        Some(x) => Some(Integer { limbs: *x.to_bits().digits() }),
        None => None,
    }
}

/// The remainder of `a` by `b`, with the sign of `a`, where 512 bits can
/// hold the quotient.
///
/// Trusted: `fastnum::I512::checked_rem`, which gives `None` where the
/// division overflows and takes remainders as the primitive integer types
/// do. For a zero divisor the outside function panics.
#[verifier::external_body]
fn checked_rem_limbs(a: &Integer, b: &Integer) -> (r: Option<Integer>)
    requires
        b@ != 0,
    ensures
        r is Some <==> divisible(a@, b@),
        r matches Some(x) ==> x@ == truncated_remainder(a@, b@),
{
    match fastnum::I512::from_digits(a.limbs).checked_rem(fastnum::I512::from_digits(b.limbs)) {
        Some(x) => Some(Integer { limbs: *x.to_bits().digits() }),
        None => None,
    }
}

/// `a` to the power `exponent`, where 512 bits can hold it.
///
/// Trusted: `fastnum::I512::checked_pow`, which gives `None` on overflow.
#[verifier::external_body]
fn checked_pow_limbs(a: &Integer, exponent: u32) -> (r: Option<Integer>)
    ensures
        r is Some <==> fits_integer(power(a@, exponent as nat)),
        r matches Some(x) ==> x@ == power(a@, exponent as nat),
{
    match fastnum::I512::from_digits(a.limbs).checked_pow(exponent) {
        Some(x) => Some(Integer { limbs: *x.to_bits().digits() }),
        None => None,
    }
}

/// Whether `a` is below `b`.
///
/// Trusted: `fastnum::I512::lt`, the order of signed integers.
#[verifier::external_body]
fn less_limbs(a: &Integer, b: &Integer) -> (r: bool)
    ensures
        r == (a@ < b@),
{
    fastnum::I512::from_digits(a.limbs).lt(&fastnum::I512::from_digits(b.limbs))
}

/// For a dividend that is not negative and a divisor above zero, rounding
/// toward zero is rounding down.
pub proof fn lemma_truncated_nonnegative(a: int, b: int)
    requires
        a >= 0,
        b > 0,
    ensures
        truncated_quotient(a, b) == a / b,
        truncated_remainder(a, b) == a % b,
        0 <= a / b <= a,
{
    vstd::arithmetic::div_mod::lemma_fundamental_div_mod(a, b);
    vstd::arithmetic::div_mod::lemma_div_pos_is_pos(a, b);
    vstd::arithmetic::div_mod::lemma_div_is_ordered_by_denominator(a, 1, b);
    vstd::arithmetic::div_mod::lemma_div_basics(a);
}

/// The character that writes a decimal digit stands for that digit.
pub proof fn lemma_digit_of_digit_char(d: nat)
    requires
        d < 10,
    ensures
        digit_of(digit_char(d)) == d,
        '0' <= digit_char(d) <= '9',
{
}

/// The decimal numeral of a number spells the number.
pub proof fn lemma_decimal_text_value(n: nat)
    ensures
        all_digits(decimal_text(n), 10),
        digits_value(decimal_text(n), 10) == n,
        decimal_text(n).len() >= 1,
        '0' <= decimal_text(n)[0] <= '9',
    decreases n,
{
    lemma_digit_of_digit_char(n % 10);
    if n >= 10 {
        lemma_decimal_text_value(n / 10);
        let s = decimal_text(n);
        assert(s.drop_last() =~= decimal_text(n / 10));
        assert(s.last() == digit_char(n % 10));
        assert(s[0] == decimal_text(n / 10)[0]);
        assert forall|i: int| 0 <= i < s.len() implies digit_of(#[trigger] s[i]) < 10 by {
            if i < s.len() - 1 {
                assert(s[i] == decimal_text(n / 10)[i]);
            }
        }
    } else {
        let s = decimal_text(n);
        assert(s.drop_last() =~= Seq::<char>::empty());
        assert(s.last() == digit_char(n));
        assert(digits_value(s.drop_last(), 10) == 0);
    }
}

/// The text of an integer reads back in base ten as the integer.
pub proof fn lemma_signed_text_reads_back(x: int)
    requires
        fits_integer(x),
    ensures
        parsed_integer(signed_decimal_text(x), 10) == Some(x),
{
    let text = signed_decimal_text(x);
    if x < 0 {
        lemma_decimal_text_value((-x) as nat);
        assert(text.skip(1) =~= decimal_text((-x) as nat));
        assert(text[0] == '-');
    } else {
        lemma_decimal_text_value(x as nat);
    }
}

/// The factorial is never zero.
pub proof fn lemma_factorial_positive(n: nat)
    ensures
        factorial(n) >= 1,
    decreases n,
{
    if n > 0 {
        lemma_factorial_positive((n - 1) as nat);
        assert(n * factorial((n - 1) as nat) >= 1) by (nonlinear_arith)
            requires
                n >= 1,
                factorial((n - 1) as nat) >= 1,
        ;
    }
}

/// The factorial grows with its argument.
pub proof fn lemma_factorial_grows(m: nat, n: nat)
    requires
        m <= n,
    ensures
        factorial(m) <= factorial(n),
    decreases n,
{
    if m < n {
        lemma_factorial_grows(m, (n - 1) as nat);
        lemma_factorial_positive((n - 1) as nat);
        assert(n * factorial((n - 1) as nat) >= factorial((n - 1) as nat)) by (nonlinear_arith)
            requires
                n >= 1,
                factorial((n - 1) as nat) >= 1,
        ;
    }
}

/// The factorials up to that of [`MAX_FACTORIAL`], of which the last still
/// fits in 512 bits.
pub proof fn lemma_factorial_table()
    ensures
        factorial(97)
            == 96192759682482119853328425949563698712343813919172976158104477319333745612481875498805879175589072651261284189679678167647067832320000000000000000000000nat,
        fits_integer(factorial(97) as int),
{
    assert(factorial(0) == 1);
    assert(factorial(1) == 1nat);
    assert(factorial(2) == 2nat);
    assert(factorial(3) == 6nat);
    assert(factorial(4) == 24nat);
    assert(factorial(5) == 120nat);
    assert(factorial(6) == 720nat);
    assert(factorial(7) == 5040nat);
    assert(factorial(8) == 40320nat);
    assert(factorial(9) == 362880nat);
    assert(factorial(10) == 3628800nat);
    assert(factorial(11) == 39916800nat);
    assert(factorial(12) == 479001600nat);
    assert(factorial(13) == 6227020800nat);
    assert(factorial(14) == 87178291200nat);
    assert(factorial(15) == 1307674368000nat);
    assert(factorial(16) == 20922789888000nat);
    assert(factorial(17) == 355687428096000nat);
    assert(factorial(18) == 6402373705728000nat);
    assert(factorial(19) == 121645100408832000nat);
    assert(factorial(20) == 2432902008176640000nat);
    assert(factorial(21) == 51090942171709440000nat);
    assert(factorial(22) == 1124000727777607680000nat);
    assert(factorial(23) == 25852016738884976640000nat);
    assert(factorial(24) == 620448401733239439360000nat);
    assert(factorial(25) == 15511210043330985984000000nat);
    assert(factorial(26) == 403291461126605635584000000nat);
    assert(factorial(27) == 10888869450418352160768000000nat);
    assert(factorial(28) == 304888344611713860501504000000nat);
    assert(factorial(29) == 8841761993739701954543616000000nat);
    assert(factorial(30) == 265252859812191058636308480000000nat);
    assert(factorial(31) == 8222838654177922817725562880000000nat);
    assert(factorial(32) == 263130836933693530167218012160000000nat);
    assert(factorial(33) == 8683317618811886495518194401280000000nat);
    assert(factorial(34) == 295232799039604140847618609643520000000nat);
    assert(factorial(35) == 10333147966386144929666651337523200000000nat);
    assert(factorial(36) == 371993326789901217467999448150835200000000nat);
    assert(factorial(37) == 13763753091226345046315979581580902400000000nat);
    assert(factorial(38) == 523022617466601111760007224100074291200000000nat);
    assert(factorial(39) == 20397882081197443358640281739902897356800000000nat);
    assert(factorial(40) == 815915283247897734345611269596115894272000000000nat);
    assert(factorial(41) == 33452526613163807108170062053440751665152000000000nat);
    assert(factorial(42) == 1405006117752879898543142606244511569936384000000000nat);
    assert(factorial(43) == 60415263063373835637355132068513997507264512000000000nat);
    assert(factorial(44) == 2658271574788448768043625811014615890319638528000000000nat);
    assert(factorial(45) == 119622220865480194561963161495657715064383733760000000000nat);
    assert(factorial(46) == 5502622159812088949850305428800254892961651752960000000000nat);
    assert(factorial(47) == 258623241511168180642964355153611979969197632389120000000000nat);
    assert(factorial(48) == 12413915592536072670862289047373375038521486354677760000000000nat);
    assert(factorial(49) == 608281864034267560872252163321295376887552831379210240000000000nat);
    assert(factorial(50) == 30414093201713378043612608166064768844377641568960512000000000000nat);
    assert(factorial(51) == 1551118753287382280224243016469303211063259720016986112000000000000nat);
    assert(factorial(52) == 80658175170943878571660636856403766975289505440883277824000000000000nat);
    assert(factorial(53) == 4274883284060025564298013753389399649690343788366813724672000000000000nat);
    assert(factorial(54) == 230843697339241380472092742683027581083278564571807941132288000000000000nat);
    assert(factorial(55) == 12696403353658275925965100847566516959580321051449436762275840000000000000nat);
    assert(factorial(56) == 710998587804863451854045647463724949736497978881168458687447040000000000000nat);
    assert(factorial(57) == 40526919504877216755680601905432322134980384796226602145184481280000000000000nat);
    assert(factorial(58) == 2350561331282878571829474910515074683828862318181142924420699914240000000000000nat);
    assert(factorial(59) == 138683118545689835737939019720389406345902876772687432540821294940160000000000000nat);
    assert(factorial(60) == 8320987112741390144276341183223364380754172606361245952449277696409600000000000000nat);
    assert(factorial(61) == 507580213877224798800856812176625227226004528988036003099405939480985600000000000000nat);
    assert(factorial(62) == 31469973260387937525653122354950764088012280797258232192163168247821107200000000000000nat);
    assert(factorial(63) == 1982608315404440064116146708361898137544773690227268628106279599612729753600000000000000nat);
    assert(factorial(64) == 126886932185884164103433389335161480802865516174545192198801894375214704230400000000000000nat);
    assert(factorial(65) == 8247650592082470666723170306785496252186258551345437492922123134388955774976000000000000000nat);
    assert(factorial(66) == 544344939077443064003729240247842752644293064388798874532860126869671081148416000000000000000nat);
    assert(factorial(67) == 36471110918188685288249859096605464427167635314049524593701628500267962436943872000000000000000nat);
    assert(factorial(68) == 2480035542436830599600990418569171581047399201355367672371710738018221445712183296000000000000000nat);
    assert(factorial(69) == 171122452428141311372468338881272839092270544893520369393648040923257279754140647424000000000000000nat);
    assert(factorial(70) == 11978571669969891796072783721689098736458938142546425857555362864628009582789845319680000000000000000nat);
    assert(factorial(71) == 850478588567862317521167644239926010288584608120796235886430763388588680378079017697280000000000000000nat);
    assert(factorial(72) == 61234458376886086861524070385274672740778091784697328983823014963978384987221689274204160000000000000000nat);
    assert(factorial(73) == 4470115461512684340891257138125051110076800700282905015819080092370422104067183317016903680000000000000000nat);
    assert(factorial(74) == 330788544151938641225953028221253782145683251820934971170611926835411235700971565459250872320000000000000000nat);
    assert(factorial(75) == 24809140811395398091946477116594033660926243886570122837795894512655842677572867409443815424000000000000000000nat);
    assert(factorial(76) == 1885494701666050254987932260861146558230394535379329335672487982961844043495537923117729972224000000000000000000nat);
    assert(factorial(77) == 145183092028285869634070784086308284983740379224208358846781574688061991349156420080065207861248000000000000000000nat);
    assert(factorial(78) == 11324281178206297831457521158732046228731749579488251990048962825668835325234200766245086213177344000000000000000000nat);
    assert(factorial(79) == 894618213078297528685144171539831652069808216779571907213868063227837990693501860533361810841010176000000000000000000nat);
    assert(factorial(80) == 71569457046263802294811533723186532165584657342365752577109445058227039255480148842668944867280814080000000000000000000nat);
    assert(factorial(81) == 5797126020747367985879734231578109105412357244731625958745865049716390179693892056256184534249745940480000000000000000000nat);
    assert(factorial(82) == 475364333701284174842138206989404946643813294067993328617160934076743994734899148613007131808479167119360000000000000000000nat);
    assert(factorial(83) == 39455239697206586511897471180120610571436503407643446275224357528369751562996629334879591940103770870906880000000000000000000nat);
    assert(factorial(84) == 3314240134565353266999387579130131288000666286242049487118846032383059131291716864129885722968716753156177920000000000000000000nat);
    assert(factorial(85) == 281710411438055027694947944226061159480056634330574206405101912752560026159795933451040286452340924018275123200000000000000000000nat);
    assert(factorial(86) == 24227095383672732381765523203441259715284870552429381750838764496720162249742450276789464634901319465571660595200000000000000000000nat);
    assert(factorial(87) == 2107757298379527717213600518699389595229783738061356212322972511214654115727593174080683423236414793504734471782400000000000000000000nat);
    assert(factorial(88) == 185482642257398439114796845645546284380220968949399346684421580986889562184028199319100141244804501828416633516851200000000000000000000nat);
    assert(factorial(89) == 16507955160908461081216919262453619309839666236496541854913520707833171034378509739399912570787600662729080382999756800000000000000000000nat);
    assert(factorial(90) == 1485715964481761497309522733620825737885569961284688766942216863704985393094065876545992131370884059645617234469978112000000000000000000000nat);
    assert(factorial(91) == 135200152767840296255166568759495142147586866476906677791741734597153670771559994765685283954750449427751168336768008192000000000000000000000nat);
    assert(factorial(92) == 12438414054641307255475324325873553077577991715875414356840239582938137710983519518443046123837041347353107486982656753664000000000000000000000nat);
    assert(factorial(93) == 1156772507081641574759205162306240436214753229576413535186142281213246807121467315215203289516844845303838996289387078090752000000000000000000000nat);
    assert(factorial(94) == 108736615665674308027365285256786601004186803580182872307497374434045199869417927630229109214583415458560865651202385340530688000000000000000000000nat);
    assert(factorial(95) == 10329978488239059262599702099394727095397746340117372869212250571234293987594703124871765375385424468563282236864226607350415360000000000000000000000nat);
    assert(factorial(96) == 991677934870949689209571401541893801158183648651267795444376054838492222809091499987689476037000748982075094738965754305639874560000000000000000000000nat);
    assert(factorial(97) == 96192759682482119853328425949563698712343813919172976158104477319333745612481875498805879175589072651261284189679678167647067832320000000000000000000000nat);
}

/// The factorial of every number up to [`MAX_FACTORIAL`] fits in 512 bits.
pub proof fn lemma_factorial_fits(n: nat)
    requires
        n <= MAX_FACTORIAL,
    ensures
        fits_integer(factorial(n) as int),
{
    lemma_factorial_table();
    lemma_factorial_grows(n, 97);
}

/// The message for the factorial of a number below zero.
pub open spec fn factorial_undefined() -> Seq<char> {
    "Factorial undefined for values < 0"@
}

/// What the factorial of `i` gives: an error below zero and above
/// [`MAX_FACTORIAL`], else the product of the numbers from one to `i`.
pub open spec fn factorial_outcome(i: int) -> Result<int, Seq<char>> {
    if i < 0 {
        Err(factorial_undefined())
    } else if i > MAX_FACTORIAL {
        Err(factorial_too_large())
    } else {
        Ok(factorial(i as nat) as int)
    }
}

/// The message for a factorial that is not taken.
pub open spec fn factorial_too_large() -> Seq<char> {
    "Factorial of value > 97 exceeds size of Integer type, consider approximating the factorial via `gamma (x + 1)`"@
}

fn factorial_out_of_range() -> (e: InvalidOperationError)
    ensures
        e@ == factorial_too_large(),
{
    InvalidOperationError::new(
        "Factorial of value > 97 exceeds size of Integer type, consider approximating the factorial via `gamma (x + 1)`",
    )
}

impl View for Integer {
    type V = int;

    closed spec fn view(&self) -> int {
        twos_complement(limbs_value(self.limbs@))
    }
}

impl Integer {
    /// Every integer is inside the range of 512 bits in two's complement.
    pub proof fn lemma_range(self)
        ensures
            fits_integer(self@),
    {
        lemma_eight_limbs(self.limbs@);
    }

    /// The integer zero.
    pub fn zero() -> (r: Integer)
        ensures
            r@ == 0,
    {
        Integer::from_u64(0)
    }

    /// The integer one.
    pub fn one() -> (r: Integer)
        ensures
            r@ == 1,
    {
        Integer::from_u64(1)
    }

    /// The integer `value`.
    pub fn from_u64(value: u64) -> (r: Integer)
        ensures
            r@ == value,
    {
        let r = Integer { limbs: [value, 0, 0, 0, 0, 0, 0, 0] };
        proof {
            lemma_eight_limbs(r.limbs@);
        }
        r
    }

    /// One for true, zero for false.
    pub fn from_bool(value: bool) -> (r: Integer)
        ensures
            r@ == (if value {
                1int
            } else {
                0int
            }),
    {
        if value {
            Integer::one()
        } else {
            Integer::zero()
        }
    }

    /// The integer `value`.
    pub fn from_u128(value: u128) -> (r: Integer)
        ensures
            r@ == value,
    {
        let low = (value & 0xffff_ffff_ffff_ffff) as u64;
        let high = (value >> 64) as u64;
        let r = Integer { limbs: [low, high, 0, 0, 0, 0, 0, 0] };
        proof {
            lemma_eight_limbs(r.limbs@);
            assert(value == (value & 0xffff_ffff_ffff_ffff) + 0x1_0000_0000_0000_0000 * (value
                >> 64)) by (bit_vector);
            assert((value & 0xffff_ffff_ffff_ffff) <= 0xffff_ffff_ffff_ffff) by (bit_vector);
            assert((value >> 64) <= 0xffff_ffff_ffff_ffff) by (bit_vector);
        }
        r
    }

    /// Whether the integer is below zero.
    pub fn is_negative(&self) -> (b: bool)
        ensures
            b == (self@ < 0),
    {
        proof {
            lemma_eight_limbs(self.limbs@);
        }
        self.limbs[7] >= 0x8000_0000_0000_0000
    }

    /// Whether the integer is zero.
    pub fn is_zero(&self) -> (b: bool)
        ensures
            b == (self@ == 0),
    {
        proof {
            lemma_eight_limbs(self.limbs@);
        }
        self.limbs[0] == 0 && self.limbs[1] == 0 && self.limbs[2] == 0 && self.limbs[3] == 0
            && self.limbs[4] == 0 && self.limbs[5] == 0 && self.limbs[6] == 0 && self.limbs[7]
            == 0
    }

    /// The sum with `other`, or `None` where 512 bits cannot hold it.
    pub fn checked_add(&self, other: &Integer) -> (r: Option<Integer>)
        ensures
            r is Some <==> fits_integer(self@ + other@),
            r matches Some(x) ==> x@ == self@ + other@,
    {
        checked_add_limbs(self, other)
    }

    /// The difference with `other`, or `None` where 512 bits cannot hold it.
    pub fn checked_sub(&self, other: &Integer) -> (r: Option<Integer>)
        ensures
            r is Some <==> fits_integer(self@ - other@),
            r matches Some(x) ==> x@ == self@ - other@,
    {
        checked_sub_limbs(self, other)
    }

    /// The product with `other`, or `None` where 512 bits cannot hold it.
    pub fn checked_mul(&self, other: &Integer) -> (r: Option<Integer>)
        ensures
            r is Some <==> fits_integer(self@ * other@),
            r matches Some(x) ==> x@ == self@ * other@,
    {
        checked_mul_limbs(self, other)
    }

    /// The quotient by `other`, rounded toward zero, or `None` where `other`
    /// is zero or 512 bits cannot hold the quotient.
    pub fn checked_div(&self, other: &Integer) -> (r: Option<Integer>)
        ensures
            r is Some <==> divisible(self@, other@),
            r matches Some(x) ==> x@ == truncated_quotient(self@, other@),
    {
        if other.is_zero() {
            None
        } else {
            checked_div_limbs(self, other)
        }
    }

    /// The remainder by `other`, with the sign of `self`, or `None` where
    /// `other` is zero or 512 bits cannot hold the quotient.
    pub fn checked_rem(&self, other: &Integer) -> (r: Option<Integer>)
        ensures
            r is Some <==> divisible(self@, other@),
            r matches Some(x) ==> x@ == truncated_remainder(self@, other@),
    {
        if other.is_zero() {
            None
        } else {
            checked_rem_limbs(self, other)
        }
    }

    /// `self` to the power `exponent`, or `None` where 512 bits cannot hold
    /// it.
    pub fn checked_pow(&self, exponent: u32) -> (r: Option<Integer>)
        ensures
            r is Some <==> fits_integer(power(self@, exponent as nat)),
            r matches Some(x) ==> x@ == power(self@, exponent as nat),
    {
        checked_pow_limbs(self, exponent)
    }

    /// The negation, or `None` for the least integer, which has none.
    pub fn checked_neg(&self) -> (r: Option<Integer>)
        ensures
            r is Some <==> fits_integer(-self@),
            r matches Some(x) ==> x@ == -self@,
    {
        Integer::zero().checked_sub(self)
    }

    /// Whether `self` is below `other`.
    pub fn less_than(&self, other: &Integer) -> (b: bool)
        ensures
            b == (self@ < other@),
    {
        less_limbs(self, other)
    }

    /// Whether `self` and `other` are the same number.
    pub fn equals(&self, other: &Integer) -> (b: bool)
        ensures
            b == (self@ == other@),
    {
        !less_limbs(self, other) && !less_limbs(other, self)
    }

    /// The integer in decimal digits, with a minus sign where it is below
    /// zero.
    pub fn to_string(&self) -> (s: String)
        ensures
            s@ == signed_decimal_text(self@),
            parsed_integer(s@, 10) == Some(self@),
    {
        proof {
            self.lemma_range();
            lemma_signed_text_reads_back(self@);
        }
        render_decimal(self)
    }

    /// Reads `text` as an integer in base `radix`: an optional sign, then
    /// digits of the base.
    pub fn parse(text: &str, radix: u32) -> (r: Option<Integer>)
        requires
            2 <= radix <= 36,
        ensures
            match r {
                Some(i) => parsed_integer(text@, radix as int) == Some(i@),
                None => parsed_integer(text@, radix as int) is None,
            },
    {
        parse_radix(text, radix)
    }

    /// Reads `src` as an integer in base `radix`: an optional sign, then
    /// digits of the base; an error where it reads none.
    pub fn from_str_radix(src: &str, radix: u32) -> (r: Result<Integer, SyntaxError>)
        requires
            2 <= radix <= 36,
        ensures
            match r {
                Ok(i) => parsed_integer(src@, radix as int) == Some(i@),
                Err(e) => parsed_integer(src@, radix as int) is None && e@ == (SyntaxErrorView {
                    msg: "Failed to parse string \"{}\" of base {} into Integer"@,
                    position: Position { line: 0, chr: 0 },
                }),
            },
    {
        match parse_radix(src, radix) {
            Some(i) => Ok(i),
            None => Err(
                SyntaxError::new(
                    "Failed to parse string \"{}\" of base {} into Integer",
                    Position::new(0, 0),
                ),
            ),
        }
    }

    /// The factorial: the product of the numbers from one to `self`. It is
    /// not defined below zero, and not taken above [`MAX_FACTORIAL`], where
    /// 512 bits could no longer hold it.
    pub fn factorial(&self) -> (r: Result<Integer, InvalidOperationError>)
        ensures
            match r {
                Ok(f) => factorial_outcome(self@) == Ok::<int, Seq<char>>(f@),
                Err(e) => factorial_outcome(self@) == Err::<int, Seq<char>>(e@),
            },
    {
        if self.is_negative() {
            return Err(InvalidOperationError::new("Factorial undefined for values < 0"));
        }
        let n: u64 = match self.to_u128() {
            Some(v) => if v > MAX_FACTORIAL as u128 {
                return Err(factorial_out_of_range());
            } else {
                v as u64
            },
            None => {
                return Err(factorial_out_of_range());
            },
        };
        let mut result = Integer::one();
        let mut i: u64 = 0;
        while i < n
            invariant
                i <= n <= MAX_FACTORIAL,
                n == self@,
                result@ == factorial(i as nat),
            decreases n - i,
        {
            i = i + 1;
            proof {
                lemma_factorial_fits(i as nat);
                assert(factorial(i as nat) == i * factorial((i - 1) as nat));
                assert(result@ * i == factorial(i as nat)) by (nonlinear_arith)
                    requires
                        result@ == factorial((i - 1) as nat),
                        factorial(i as nat) == i * factorial((i - 1) as nat),
                ;
            }
            result = result.checked_mul(&Integer::from_u64(i)).unwrap();
        }
        Ok(result)
    }

    /// The integer whose limbs, read as an unsigned number, are `limbs`: none
    /// where that number is `2^511` or more.
    pub fn from_magnitude(limbs: [u64; 8]) -> (r: Option<Integer>)
        ensures
            r is Some <==> limbs_value(limbs@) < integer_bound(),
            r matches Some(i) ==> i@ == limbs_value(limbs@),
    {
        proof {
            lemma_eight_limbs(limbs@);
        }
        if limbs[7] >= 0x8000_0000_0000_0000 {
            None
        } else {
            Some(Integer { limbs })
        }
    }

    /// The limbs of the absolute value, read as an unsigned number.
    pub fn magnitude(&self) -> (limbs: [u64; 8])
        ensures
            limbs_value(limbs@) == vstd::math::abs(self@),
    {
        proof {
            lemma_eight_limbs(self.limbs@);
        }
        if self.is_negative() {
            match self.checked_neg() {
                Some(n) => {
                    proof {
                        lemma_eight_limbs(n.limbs@);
                    }
                    n.limbs
                },
                None => self.limbs,
            }
        } else {
            self.limbs
        }
    }

    /// The limbs of the integer: 512 bits in two's complement, the least
    /// significant 64 first.
    pub fn inner_value(self) -> (limbs: [u64; 8])
        ensures
            twos_complement(limbs_value(limbs@)) == self@,
    {
        self.limbs
    }

    /// The integer as an unsigned number of 128 bits, where it is one.
    pub fn to_u128(&self) -> (r: Option<u128>)
        ensures
            r is Some <==> 0 <= self@ <= u128::MAX,
            r matches Some(v) ==> v == self@,
    {
        proof {
            lemma_eight_limbs(self.limbs@);
        }
        if self.limbs[2] == 0 && self.limbs[3] == 0 && self.limbs[4] == 0 && self.limbs[5] == 0
            && self.limbs[6] == 0 && self.limbs[7] == 0 {
            let low = self.limbs[0] as u128;
            let high = self.limbs[1] as u128;
            assert(high << 64 == high * 0x1_0000_0000_0000_0000) by (bit_vector)
                requires
                    high <= 0xffff_ffff_ffff_ffff,
            ;
            Some(low + (high << 64))
        } else {
            None
        }
    }
}

} // verus!
