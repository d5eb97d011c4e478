//! Bit sequences: unsigned bit patterns of a fixed width.
use vstd::prelude::*;
use vstd::arithmetic::power2::*;
use crate::text::{chars_of, string_of};

verus! {

/// A bit pattern of `len` bits, `len` between 1 and 127, read as an unsigned
/// number. Bits above `len` are zero.
#[derive(Clone, Copy, Debug)]
pub struct Bitseq {
    value: u128,
    len: usize,
}

/// What a [`Bitseq`] holds: the number that its bits spell, and how many bits
/// there are.
pub ghost struct BitseqView {
    pub value: nat,
    pub len: nat,
}

impl BitseqView {
    /// The width is between 1 and 127 and the value fits in it.
    pub open spec fn wf(self) -> bool {
        1 <= self.len <= MAX_WIDTH && self.value < pow2(self.len)
    }
}

/// The widest bit sequence, in bits.
pub const MAX_WIDTH: usize = 127;

/// The number spelled by a text of binary digits, most significant first. A
/// character other than `1` counts as zero.
pub open spec fn bits_value(s: Seq<char>) -> nat
    decreases s.len(),
{
    if s.len() == 0 {
        0
    } else {
        2 * bits_value(s.drop_last()) + (if s.last() == '1' {
            1nat
        } else {
            0nat
        })
    }
}

/// Every character is `0` or `1`.
pub open spec fn all_binary_digits(s: Seq<char>) -> bool {
    forall|i: int| 0 <= i < s.len() ==> s[i] == '0' || s[i] == '1'
}

/// The lowest `len` bits of `value` as text, most significant first.
pub open spec fn binary_text(value: nat, len: nat) -> Seq<char>
    decreases len,
{
    if len == 0 {
        Seq::empty()
    } else {
        binary_text(value / 2, (len - 1) as nat).push(
            if value % 2 == 1 {
                '1'
            } else {
                '0'
            },
        )
    }
}

/// The number of bits that it takes to write `value`; one for zero.
pub open spec fn bit_width(value: nat) -> nat
    decreases value,
{
    if value < 2 {
        1
    } else {
        1 + bit_width(value / 2)
    }
}

pub proof fn lemma_pow2_128()
    ensures
        pow2(127) == 0x8000_0000_0000_0000_0000_0000_0000_0000,
        pow2(128) == 0x1_0000_0000_0000_0000_0000_0000_0000_0000,
{
    lemma2_to64();
    lemma_pow2_adds(64, 32);
    lemma_pow2_adds(96, 31);
    lemma_pow2_adds(96, 32);
}

/// A text of `n` binary digits spells a number below `2^n`.
pub proof fn lemma_bits_value_bound(s: Seq<char>)
    ensures
        bits_value(s) < pow2(s.len()),
    decreases s.len(),
{
    if s.len() == 0 {
        lemma2_to64();
    } else {
        lemma_bits_value_bound(s.drop_last());
        lemma_pow2_unfold(s.len());
    }
}

/// Shifting one to the left by `k` gives `2^k`.
proof fn lemma_shl_is_pow2(k: nat)
    requires
        k <= 127,
    ensures
        (1u128 << (k as u128)) == pow2(k),
    decreases k,
{
    if k == 0 {
        lemma2_to64();
        assert((1u128 << 0u128) == 1) by (bit_vector);
    } else {
        lemma_shl_is_pow2((k - 1) as nat);
        lemma_pow2_unfold(k);
        let j = (k - 1) as u128;
        let kk = k as u128;
        assert(j < 127 && kk == j + 1 ==> (1u128 << kk) == 2 * (1u128 << j)) by (bit_vector);
    }
}

/// A number is below `2^len` where it takes no more than `len` bits, and
/// at least `2^(len - 1)` where it takes no fewer.
pub proof fn lemma_bit_width(value: nat, len: nat)
    requires
        len >= 1,
        value < pow2(len),
        len == 1 || value >= pow2((len - 1) as nat),
    ensures
        bit_width(value) == len,
    decreases len,
{
    lemma2_to64();
    if len == 1 {
    } else {
        lemma_pow2_unfold(len);
        lemma_pow2_unfold((len - 1) as nat);
        lemma_pow2_pos((len - 1) as nat);
        if len == 2 {
        } else {
            lemma_pow2_unfold((len - 2) as nat);
        }
        lemma_bit_width(value / 2, (len - 1) as nat);
    }
}

/// Every number is below two to the number of bits that it takes.
pub proof fn lemma_bit_width_bounds(value: nat)
    ensures
        bit_width(value) >= 1,
        value < pow2(bit_width(value)),
        bit_width(value) == 1 || value >= pow2((bit_width(value) - 1) as nat),
    decreases value,
{
    lemma2_to64();
    if value >= 2 {
        lemma_bit_width_bounds(value / 2);
        lemma_pow2_unfold(bit_width(value));
        if bit_width(value / 2) > 1 {
            lemma_pow2_unfold((bit_width(value) - 1) as nat);
        }
    }
}

/// Reading the text of a bit sequence gives its value back.
pub proof fn lemma_binary_text_value(value: nat, len: nat)
    requires
        value < pow2(len),
    ensures
        binary_text(value, len).len() == len,
        all_binary_digits(binary_text(value, len)),
        bits_value(binary_text(value, len)) == value,
    decreases len,
{
    if len == 0 {
        lemma2_to64();
    } else {
        lemma_pow2_unfold(len);
        lemma_binary_text_value(value / 2, (len - 1) as nat);
        let t = binary_text(value, len);
        assert(t.drop_last() =~= binary_text(value / 2, (len - 1) as nat));
    }
}

/// The wider of two widths.
pub open spec fn wider(a: nat, b: nat) -> nat {
    if a >= b {
        a
    } else {
        b
    }
}

/// The bits of `a` and `b` combined by `and`, in the wider of their widths.
pub open spec fn bits_and(a: BitseqView, b: BitseqView) -> BitseqView {
    BitseqView { value: ((a.value as u128) & (b.value as u128)) as nat, len: wider(a.len, b.len) }
}

/// The bits of `a` and `b` combined by `or`, in the wider of their widths.
pub open spec fn bits_or(a: BitseqView, b: BitseqView) -> BitseqView {
    BitseqView { value: ((a.value as u128) | (b.value as u128)) as nat, len: wider(a.len, b.len) }
}

/// The bits of `a` and `b` combined by exclusive `or`, in the wider of their
/// widths.
pub open spec fn bits_xor(a: BitseqView, b: BitseqView) -> BitseqView {
    BitseqView { value: ((a.value as u128) ^ (b.value as u128)) as nat, len: wider(a.len, b.len) }
}

/// The bits of `a` moved `n` places toward the most significant end of its
/// width; those that leave it are lost.
pub open spec fn bits_shifted_left(a: BitseqView, n: nat) -> BitseqView {
    BitseqView {
        value: if n >= a.len {
            0
        } else {
            ((((a.value as u128) << (n as u128)) & (((1u128 << (a.len as u128)) - 1) as u128))
                as u128) as nat
        },
        len: a.len,
    }
}

/// The bits of `a` moved `n` places toward the least significant end; those
/// that leave it are lost.
pub open spec fn bits_shifted_right(a: BitseqView, n: nat) -> BitseqView {
    BitseqView {
        value: if n >= a.len {
            0
        } else {
            ((a.value as u128) >> (n as u128)) as nat
        },
        len: a.len,
    }
}

/// A number below `2^la` is below `2^k` for every `k` from `la` on.
proof fn lemma_below_wider(value: nat, la: nat, k: nat)
    requires
        value < pow2(la),
        la <= k,
    ensures
        value < pow2(k),
{
    if la < k {
        lemma_pow2_strictly_increases(la, k);
    }
}

impl View for Bitseq {
    type V = BitseqView;

    closed spec fn view(&self) -> BitseqView {
        BitseqView { value: self.value as nat, len: self.len as nat }
    }
}

impl Bitseq {
    #[verifier::type_invariant]
    spec fn inv(self) -> bool {
        self@.wf()
    }

    /// The sequence of one zero bit.
    pub fn zero() -> (b: Bitseq)
        ensures
            b@ == (BitseqView { value: 0, len: 1 }),
    {
        proof {
            lemma2_to64();
        }
        Bitseq { value: 0, len: 1 }
    }

    /// The sequence of one set bit.
    pub fn one() -> (b: Bitseq)
        ensures
            b@ == (BitseqView { value: 1, len: 1 }),
    {
        proof {
            lemma2_to64();
        }
        Bitseq { value: 1, len: 1 }
    }

    /// The sequence of `len` bits that spells `value`.
    pub fn new(value: u128, len: usize) -> (b: Bitseq)
        requires
            1 <= len <= MAX_WIDTH,
            value < pow2(len as nat),
        ensures
            b@ == (BitseqView { value: value as nat, len: len as nat }),
    {
        Bitseq { value, len }
    }

    /// Every bit sequence is well formed.
    pub fn well_formed(&self)
        ensures
            self@.wf(),
            self@.value <= u128::MAX,
    {
        proof {
            use_type_invariant(self);
        }
    }

    /// Reads a text of binary digits: the width is the number of digits.
    /// Fails on an empty text, on more than 127 digits and on any character
    /// other than `0` and `1`.
    pub fn from_str(s: &str) -> (r: Option<Bitseq>)
        ensures
            r is Some <==> 1 <= s@.len() <= MAX_WIDTH && all_binary_digits(s@),
            r matches Some(b) ==> b@ == (BitseqView { value: bits_value(s@), len: s@.len() }),
    {
        let chars = chars_of(s);
        Bitseq::from_chars(&chars)
    }

    /// As [`Bitseq::from_str`], on characters.
    pub fn from_chars(chars: &Vec<char>) -> (r: Option<Bitseq>)
        ensures
            r is Some <==> 1 <= chars@.len() <= MAX_WIDTH && all_binary_digits(chars@),
            r matches Some(b) ==> b@ == (BitseqView {
                value: bits_value(chars@),
                len: chars@.len(),
            }),
    {
        let n = chars.len();
        if n < 1 || n > MAX_WIDTH {
            return None;
        }
        let mut value: u128 = 0;
        let mut i: usize = 0;
        while i < n
            invariant
                i <= n,
                n == chars.len(),
                n <= MAX_WIDTH,
                value == bits_value(chars@.take(i as int)),
                all_binary_digits(chars@.take(i as int)),
            decreases n - i,
        {
            let c = chars[i];
            if c != '0' && c != '1' {
                return None;
            }
            proof {
                let t = chars@.take(i + 1);
                assert(t.drop_last() =~= chars@.take(i as int));
                lemma_bits_value_bound(t);
                lemma_pow2_strictly_increases(t.len(), 128);
                lemma_pow2_128();
            }
            value = value * 2 + (if c == '1' {
                1
            } else {
                0
            });
            i += 1;
        }
        proof {
            assert(chars@.take(n as int) =~= chars@);
            lemma_bits_value_bound(chars@);
        }
        Some(Bitseq { value, len: n })
    }

    /// The shortest bit sequence that spells `value`: none where it takes
    /// more than 127 bits.
    pub fn from_value(value: u128) -> (r: Option<Bitseq>)
        ensures
            r is Some <==> value < pow2(MAX_WIDTH as nat),
            r matches Some(b) ==> b@ == (BitseqView {
                value: value as nat,
                len: bit_width(value as nat),
            }),
    {
        let mut len: usize = 1;
        proof {
            lemma2_to64();
            lemma_shl_is_pow2(1);
        }
        while len < 128 && (value >> (len as u128)) != 0
            invariant
                1 <= len <= 128,
                len == 1 || value >= pow2((len - 1) as nat),
            decreases 128 - len,
        {
            proof {
                let k = len as u128;
                lemma_shl_is_pow2(len as nat);
                assert(k < 128 && (value >> k) != 0 ==> value >= (1u128 << k)) by (bit_vector);
            }
            len += 1;
        }
        if len > MAX_WIDTH {
            proof {
                lemma_pow2_128();
            }
            return None;
        }
        proof {
            let k = len as u128;
            lemma_shl_is_pow2(len as nat);
            assert(k < 128 && (value >> k) == 0 ==> value < (1u128 << k)) by (bit_vector);
            lemma_bit_width(value as nat, len as nat);
            lemma_pow2_strictly_increases(len as nat, 128);
            if len < MAX_WIDTH {
                lemma_pow2_strictly_increases(len as nat, MAX_WIDTH as nat);
            }
        }
        Some(Bitseq { value, len })
    }

    /// The bits of `self` and `other` combined by `and`, in the wider of
    /// their widths.
    pub fn and(&self, other: &Bitseq) -> (r: Bitseq)
        ensures
            r@ == bits_and(self@, other@),
    {
        proof {
            use_type_invariant(self);
            use_type_invariant(other);
        }
        let len = if self.len >= other.len {
            self.len
        } else {
            other.len
        };
        let x = self.value;
        let y = other.value;
        proof {
            let k = len as u128;
            lemma_below_wider(x as nat, self.len as nat, len as nat);
            lemma_below_wider(y as nat, other.len as nat, len as nat);
            lemma_shl_is_pow2(len as nat);
            assert(k <= 127 && x < (1u128 << k) && y < (1u128 << k) ==> (x & y) < (1u128 << k))
                by (bit_vector);
        }
        Bitseq { value: x & y, len }
    }

    /// The bits of `self` and `other` combined by `or`, in the wider of their
    /// widths.
    pub fn or(&self, other: &Bitseq) -> (r: Bitseq)
        ensures
            r@ == bits_or(self@, other@),
    {
        proof {
            use_type_invariant(self);
            use_type_invariant(other);
        }
        let len = if self.len >= other.len {
            self.len
        } else {
            other.len
        };
        let x = self.value;
        let y = other.value;
        proof {
            let k = len as u128;
            lemma_below_wider(x as nat, self.len as nat, len as nat);
            lemma_below_wider(y as nat, other.len as nat, len as nat);
            lemma_shl_is_pow2(len as nat);
            assert(k <= 127 && x < (1u128 << k) && y < (1u128 << k) ==> (x | y) < (1u128 << k))
                by (bit_vector);
        }
        Bitseq { value: x | y, len }
    }

    /// The bits of `self` and `other` combined by exclusive `or`, in the
    /// wider of their widths.
    pub fn xor(&self, other: &Bitseq) -> (r: Bitseq)
        ensures
            r@ == bits_xor(self@, other@),
    {
        proof {
            use_type_invariant(self);
            use_type_invariant(other);
        }
        let len = if self.len >= other.len {
            self.len
        } else {
            other.len
        };
        let x = self.value;
        let y = other.value;
        proof {
            let k = len as u128;
            lemma_below_wider(x as nat, self.len as nat, len as nat);
            lemma_below_wider(y as nat, other.len as nat, len as nat);
            lemma_shl_is_pow2(len as nat);
            assert(k <= 127 && x < (1u128 << k) && y < (1u128 << k) ==> (x ^ y) < (1u128 << k))
                by (bit_vector);
        }
        Bitseq { value: x ^ y, len }
    }

    /// The bits moved `n` places toward the most significant end of the
    /// width; those that leave it are lost.
    pub fn shifted_left(&self, n: usize) -> (r: Bitseq)
        ensures
            r@ == bits_shifted_left(self@, n as nat),
    {
        proof {
            use_type_invariant(self);
            lemma2_to64();
        }
        if n >= self.len {
            return Bitseq { value: 0, len: self.len };
        }
        let x = self.value;
        let k = self.len as u128;
        let s = n as u128;
        proof {
            lemma_shl_is_pow2(self.len as nat);
            assert(k <= 127 ==> ((x << s) & (((1u128 << k) - 1) as u128)) < (1u128 << k))
                by (bit_vector);
            assert(k <= 127 ==> (1u128 << k) >= 1) by (bit_vector);
        }
        Bitseq { value: (x << s) & ((1u128 << k) - 1), len: self.len }
    }

    /// The bits moved `n` places toward the least significant end; those
    /// that leave it are lost.
    pub fn shifted_right(&self, n: usize) -> (r: Bitseq)
        ensures
            r@ == bits_shifted_right(self@, n as nat),
    {
        proof {
            use_type_invariant(self);
            lemma2_to64();
        }
        if n >= self.len {
            return Bitseq { value: 0, len: self.len };
        }
        let x = self.value;
        let s = n as u128;
        proof {
            assert(s < 128 ==> (x >> s) <= x) by (bit_vector);
        }
        Bitseq { value: x >> s, len: self.len }
    }

    /// Flips every bit of the sequence.
    pub fn neg_mut(&mut self)
        ensures
            final(self)@ == (BitseqView {
                value: (pow2(old(self)@.len) - 1 - old(self)@.value) as nat,
                len: old(self)@.len,
            }),
    {
        proof {
            use_type_invariant(&*self);
        }
        let len = self.len;
        let mut mask: u128 = 0;
        let mut i: usize = 0;
        proof {
            assert((1u128 << 0u128) - 1 == 0) by (bit_vector);
        }
        while i < len
            invariant
                i <= len <= MAX_WIDTH,
                mask == (1u128 << (i as u128)) - 1,
            decreases len - i,
        {
            proof {
                let k = i as u128;
                assert(k < 127 && mask == (1u128 << k) - 1 ==> (mask | (1u128 << k)) == (1u128 << ((k
                    + 1) as u128)) - 1) by (bit_vector);
            }
            mask = mask | (1u128 << (i as u128));
            i += 1;
        }
        proof {
            let k = len as u128;
            let v = self.value;
            lemma_shl_is_pow2(len as nat);
            assert(k <= 127 && mask == (1u128 << k) - 1 && v <= mask ==> (v ^ mask) == mask - v)
                by (bit_vector);
        }
        self.value = self.value ^ mask;
    }

    /// The text of the sequence: `0b` and then every bit, most significant
    /// first.
    pub open spec fn rendering(b: BitseqView) -> Seq<char> {
        seq!['0', 'b'] + binary_text(b.value, b.len)
    }

    /// Renders the sequence as a binary literal of its full width.
    pub fn to_chars(&self) -> (v: Vec<char>)
        ensures
            v@ == Bitseq::rendering(self@),
    {
        proof {
            use_type_invariant(self);
        }
        let mut digits: Vec<char> = Vec::new();
        let mut rest: u128 = self.value;
        let mut k: usize = 0;
        assert(binary_text(self.value as nat, self.len as nat) =~= binary_text(
            rest as nat,
            (self.len - k) as nat,
        ) + digits@);
        while k < self.len
            invariant
                k <= self.len,
                binary_text(self.value as nat, self.len as nat) == binary_text(
                    rest as nat,
                    (self.len - k) as nat,
                ) + digits@,
            decreases self.len - k,
        {
            let c = if rest % 2 == 1 {
                '1'
            } else {
                '0'
            };
            proof {
                assert(binary_text(rest as nat, (self.len - k) as nat) + digits@ =~= binary_text(
                    (rest / 2) as nat,
                    (self.len - k - 1) as nat,
                ) + digits@.insert(0, c));
            }
            digits.insert(0, c);
            rest = rest / 2;
            k += 1;
        }
        let mut v: Vec<char> = Vec::new();
        v.push('0');
        v.push('b');
        let mut j: usize = 0;
        while j < digits.len()
            invariant
                j <= digits.len(),
                v@ == seq!['0', 'b'] + digits@.take(j as int),
            decreases digits.len() - j,
        {
            v.push(digits[j]);
            j += 1;
            assert(v@ =~= seq!['0', 'b'] + digits@.take(j as int));
        }
        assert(digits@.take(digits.len() as int) =~= digits@);
        assert(binary_text(rest as nat, 0) + digits@ =~= digits@);
        v
    }

    /// The text of the sequence: `0b` and then every bit, most significant
    /// first.
    pub fn to_string(&self) -> (s: String)
        ensures
            s@ == Bitseq::rendering(self@),
    {
        string_of(&self.to_chars())
    }

    /// Whether no bit is set.
    pub fn is_zero(&self) -> (b: bool)
        ensures
            b == (self@.value == 0),
    {
        self.value == 0
    }

    /// The number that the bits spell.
    pub fn inner_value(self) -> (v: u128)
        ensures
            v == self@.value,
            self@.wf(),
    {
        proof {
            use_type_invariant(self);
        }
        self.value
    }

    /// The number of bits.
    pub fn len(&self) -> (n: usize)
        ensures
            n == self@.len,
            self@.wf(),
    {
        proof {
            use_type_invariant(self);
        }
        self.len
    }
}

} // verus!
