//! 256-bit storage words, kept as 32 big-endian bytes, and the decimal
//! parsing a layout artifact's slot numbers need.

use vstd::prelude::*;

use crate::errors::DigestError;

verus! {

/// 256^n.
pub open spec fn pow256(n: nat) -> nat
    decreases n,
{
    if n == 0 {
        1
    } else {
        256 * pow256((n - 1) as nat)
    }
}

/// The value of a byte sequence read as a big-endian integer.
pub open spec fn be_nat(s: Seq<u8>) -> nat
    decreases s.len(),
{
    if s.len() == 0 {
        0
    } else {
        be_nat(s.drop_last()) * 256 + s.last() as nat
    }
}

/// The numeric value of a decimal digit character; non-digits clamp to 0.
pub open spec fn digit_val(c: char) -> nat {
    (c as int - 48) as nat
}

pub open spec fn is_dec_digit(c: char) -> bool {
    '0' <= c && c <= '9'
}

/// A non-empty, all-digit character sequence.
pub open spec fn is_dec_seq(s: Seq<char>) -> bool {
    s.len() > 0 && forall|i: int| 0 <= i < s.len() ==> is_dec_digit(#[trigger] s[i])
}

/// The value of a character sequence read as a decimal number.
pub open spec fn dec_value(s: Seq<char>) -> nat
    decreases s.len(),
{
    if s.len() == 0 {
        0
    } else {
        dec_value(s.drop_last()) * 10 + digit_val(s.last())
    }
}

pub proof fn lemma_pow256_pos(n: nat)
    ensures
        pow256(n) >= 1,
    decreases n,
{
    if n > 0 {
        lemma_pow256_pos((n - 1) as nat);
    }
}

/// Splitting a byte sequence splits its big-endian value.
pub proof fn lemma_be_nat_append(a: Seq<u8>, b: Seq<u8>)
    ensures
        be_nat(a + b) == be_nat(a) * pow256(b.len()) + be_nat(b),
    decreases b.len(),
{
    if b.len() == 0 {
        assert(a + b =~= a);
        assert(be_nat(b) == 0);
        assert(pow256(b.len()) == 1);
        assert(be_nat(a) * 1 == be_nat(a)) by (nonlinear_arith);
        assert(be_nat(a + b) == be_nat(a) * pow256(b.len()) + be_nat(b));
    } else {
        lemma_be_nat_append(a, b.drop_last());
        assert((a + b).drop_last() =~= a + b.drop_last());
        assert((a + b).last() == b.last());
        let x = be_nat(a);
        let y = be_nat(b.drop_last());
        let p = pow256((b.len() - 1) as nat);
        assert(be_nat(a + b) == (x * p + y) * 256 + b.last());
        assert((x * p + y) * 256 == x * (256 * p) + y * 256) by (nonlinear_arith);
        assert(pow256(b.len()) == 256 * p);
        assert(be_nat(b) == y * 256 + b.last());
        assert(x * pow256(b.len()) == x * (256 * p));
        assert(be_nat(a + b) == x * (256 * p) + (y * 256 + b.last()));
        assert(be_nat(a + b) == be_nat(a) * pow256(b.len()) + be_nat(b));
    }
}

/// A sequence of n bytes holds a value below 256^n.
pub proof fn lemma_be_nat_bound(s: Seq<u8>)
    ensures
        be_nat(s) < pow256(s.len()),
    decreases s.len(),
{
    if s.len() > 0 {
        lemma_be_nat_bound(s.drop_last());
        let y = be_nat(s.drop_last());
        let p = pow256((s.len() - 1) as nat);
        assert(y + 1 <= p);
        assert(y * 256 + 256 <= p * 256) by (nonlinear_arith)
            requires y + 1 <= p;
        assert(pow256(s.len()) == 256 * p);
    }
}

/// Peeling the first byte off a big-endian sequence.
pub proof fn lemma_be_nat_first(s: Seq<u8>)
    requires
        s.len() > 0,
    ensures
        be_nat(s) == s.first() * pow256((s.len() - 1) as nat) + be_nat(s.drop_first()),
{
    let a = seq![s.first()];
    let b = s.drop_first();
    assert(s =~= a + b);
    assert(a.drop_last() =~= Seq::<u8>::empty());
    assert(be_nat(Seq::<u8>::empty()) == 0);
    assert(be_nat(a) == be_nat(a.drop_last()) * 256 + a.last());
    assert(be_nat(a) == s.first());
    lemma_be_nat_append(a, b);
}

/// The canonical big-endian encoding of a value in `len` bytes.
pub open spec fn be_bytes(n: nat, len: nat) -> Seq<u8>
    decreases len,
{
    if len == 0 {
        Seq::empty()
    } else {
        be_bytes(n / 256, (len - 1) as nat).push((n % 256) as u8)
    }
}

/// The canonical 32-byte big-endian encoding of a 256-bit value.
pub open spec fn be32(n: nat) -> Seq<u8> {
    be_bytes(n, 32)
}

pub proof fn lemma_be_bytes_len(n: nat, len: nat)
    ensures
        be_bytes(n, len).len() == len,
    decreases len,
{
    if len > 0 {
        lemma_be_bytes_len(n / 256, (len - 1) as nat);
    }
}

/// The canonical encoding of a value in range reads back as that value.
pub proof fn lemma_be_bytes_value(n: nat, len: nat)
    requires
        n < pow256(len),
    ensures
        be_nat(be_bytes(n, len)) == n,
    decreases len,
{
    if len == 0 {
        assert(be_bytes(n, 0) =~= Seq::<u8>::empty());
    } else {
        let p = pow256((len - 1) as nat);
        assert(pow256(len) == 256 * p);
        assert(n / 256 < p) by (nonlinear_arith)
            requires n < 256 * p, p >= 1;
        lemma_pow256_pos((len - 1) as nat);
        lemma_be_bytes_value(n / 256, (len - 1) as nat);
        let head = be_bytes(n / 256, (len - 1) as nat);
        let s = be_bytes(n, len);
        assert(s == head.push((n % 256) as u8));
        assert(s.drop_last() =~= head);
        assert(s.last() == (n % 256) as u8);
        assert(be_nat(s) == be_nat(head) * 256 + n % 256);
        assert(n == (n / 256) * 256 + n % 256);
    }
}

/// Byte sequences of equal length with equal big-endian values are equal.
pub proof fn lemma_be_nat_injective(s1: Seq<u8>, s2: Seq<u8>)
    requires
        s1.len() == s2.len(),
        be_nat(s1) == be_nat(s2),
    ensures
        s1 == s2,
    decreases s1.len(),
{
    if s1.len() == 0 {
        assert(s1 =~= s2);
    } else {
        let q1 = be_nat(s1.drop_last());
        let q2 = be_nat(s2.drop_last());
        let r1 = s1.last() as nat;
        let r2 = s2.last() as nat;
        assert(q1 * 256 + r1 == q2 * 256 + r2);
        assert(q1 == q2 && r1 == r2) by (nonlinear_arith)
            requires
                q1 * 256 + r1 == q2 * 256 + r2,
                r1 < 256,
                r2 < 256,
        ;
        lemma_be_nat_injective(s1.drop_last(), s2.drop_last());
        assert(s1 =~= s1.drop_last().push(s1.last()));
        assert(s2 =~= s2.drop_last().push(s2.last()));
        assert(s1 =~= s2);
    }
}

/// A decimal prefix never exceeds the value of the whole digit string.
pub proof fn lemma_dec_prefix_mono(s: Seq<char>, j: int)
    requires
        0 <= j <= s.len(),
    ensures
        dec_value(s.subrange(0, j)) <= dec_value(s),
    decreases s.len() - j,
{
    if j == s.len() {
        assert(s.subrange(0, j) =~= s);
    } else {
        lemma_dec_prefix_mono(s, j + 1);
        let p = s.subrange(0, j);
        let q = s.subrange(0, j + 1);
        assert(q.drop_last() =~= p);
        assert(dec_value(q) == dec_value(p) * 10 + digit_val(q.last()));
        assert(dec_value(p) <= dec_value(p) * 10) by (nonlinear_arith);
    }
}

/// Parses a decimal string into a `u64`, as a type descriptor's byte width
/// is written. Succeeds exactly on non-empty all-digit strings whose value
/// fits in 64 bits; anything else is a `ParseError`.
pub fn parse_dec_u64(s: &str) -> (r: Result<u64, DigestError>)
    ensures
        match r {
            Ok(v) => is_dec_seq(s@) && dec_value(s@) < 0x1_0000_0000_0000_0000 && v == dec_value(
                s@,
            ),
            Err(e) => e == DigestError::ParseError && (!is_dec_seq(s@) || dec_value(s@)
                >= 0x1_0000_0000_0000_0000),
        },
{
    let n = s.unicode_len();
    if n == 0 {
        return Err(DigestError::ParseError);
    }
    let mut acc: u64 = 0;
    let mut j: usize = 0;
    while j < n
        invariant
            j <= n,
            n == s@.len(),
            n > 0,
            acc == dec_value(s@.subrange(0, j as int)),
            forall|i: int| 0 <= i < j ==> is_dec_digit(#[trigger] s@[i]),
        decreases n - j,
    {
        let c = s.get_char(j);
        let cv = c as u32;
        if cv < 48 || cv > 57 {
            return Err(DigestError::ParseError);
        }
        let d = (cv - 48) as u64;
        let t: u128 = acc as u128 * 10 + d as u128;
        proof {
            assert(s@.subrange(0, j + 1).drop_last() =~= s@.subrange(0, j as int));
            assert(s@.subrange(0, j + 1).last() == s@[j as int]);
            assert(digit_val(s@[j as int]) == d);
        }
        if t > 0xFFFF_FFFF_FFFF_FFFFu128 {
            proof {
                lemma_dec_prefix_mono(s@, j + 1);
            }
            return Err(DigestError::ParseError);
        }
        acc = t as u64;
        j += 1;
    }
    proof {
        assert(s@.subrange(0, n as int) =~= s@);
    }
    Ok(acc)
}

/// A 256-bit storage word: exactly 32 bytes, big-endian.
#[derive(Debug)]
pub struct Word {
    pub bytes: Vec<u8>,
}

impl View for Word {
    type V = Seq<u8>;

    open spec fn view(&self) -> Seq<u8> {
        self.bytes@
    }
}

impl Word {
    /// A word is exactly 32 bytes long.
    pub open spec fn wf(&self) -> bool {
        self.bytes@.len() == 32
    }

    /// The word's numeric value.
    pub open spec fn value(&self) -> nat {
        be_nat(self@)
    }

    /// The all-zero word.
    pub fn zero() -> (w: Word)
        ensures
            w.wf(),
            w.value() == 0,
            forall|i: int| 0 <= i < 32 ==> w@[i] == 0u8,
    {
        let mut bytes: Vec<u8> = Vec::new();
        let mut j: usize = 0;
        while j < 32
            invariant
                j <= 32,
                bytes@.len() == j,
                be_nat(bytes@) == 0,
                forall|i: int| 0 <= i < j ==> bytes@[i] == 0u8,
            decreases 32 - j,
        {
            let ghost prev = bytes@;
            bytes.push(0u8);
            proof {
                assert(bytes@.drop_last() =~= prev);
            }
            j += 1;
        }
        Word { bytes }
    }

    /// A copy of the word, byte for byte.
    pub fn duplicate(&self) -> (w: Word)
        ensures
            w@ == self@,
    {
        let mut bytes: Vec<u8> = Vec::new();
        let mut j: usize = 0;
        let n = self.bytes.len();
        while j < n
            invariant
                j <= n,
                n == self.bytes@.len(),
                bytes@ =~= self.bytes@.subrange(0, j as int),
            decreases n - j,
        {
            bytes.push(self.bytes[j]);
            j += 1;
        }
        proof {
            assert(bytes@ =~= self.bytes@);
        }
        Word { bytes }
    }

    /// Whether two words hold the same bytes.
    pub fn same(&self, other: &Word) -> (r: bool)
        ensures
            r == (self@ == other@),
    {
        let n = self.bytes.len();
        if n != other.bytes.len() {
            proof {
                assert(self@.len() != other@.len());
            }
            return false;
        }
        let mut j: usize = 0;
        while j < n
            invariant
                j <= n,
                n == self.bytes@.len(),
                n == other.bytes@.len(),
                forall|i: int| 0 <= i < j ==> self.bytes@[i] == other.bytes@[i],
            decreases n - j,
        {
            if self.bytes[j] != other.bytes[j] {
                return false;
            }
            j += 1;
        }
        proof {
            assert(self@ =~= other@);
        }
        true
    }

    /// Multiplies the word by ten and adds a digit, in place; reports whether
    /// the true result overflowed 256 bits.
    fn mul10_add(&mut self, d: u8) -> (overflow: bool)
        requires
            old(self).wf(),
            d < 10,
        ensures
            final(self).wf(),
            overflow == (10 * be_nat(old(self)@) + d >= pow256(32)),
            !overflow ==> be_nat(final(self)@) == 10 * be_nat(old(self)@) + d,
    {
        let mut carry: u16 = d as u16;
        let mut i: usize = 32;
        proof {
            assert(old(self)@.subrange(32, 32) =~= Seq::<u8>::empty());
            assert(self.bytes@.subrange(32, 32) =~= Seq::<u8>::empty());
            assert(be_nat(Seq::<u8>::empty()) == 0);
            assert(pow256(0) == 1);
            assert(carry * pow256(0) == carry) by (nonlinear_arith)
                requires pow256(0) == 1;
        }
        while i > 0
            invariant
                i <= 32,
                old(self).bytes@.len() == 32,
                self.bytes@.len() == 32,
                carry <= 10,
                forall|k: int| 0 <= k < i ==> self.bytes@[k] == old(self).bytes@[k],
                10 * be_nat(old(self)@.subrange(i as int, 32)) + d == be_nat(
                    self.bytes@.subrange(i as int, 32),
                ) + carry * pow256((32 - i) as nat),
            decreases i,
        {
            let ghost prev = self.bytes@;
            let ghost prev_carry = carry as nat;
            i -= 1;
            let t: u16 = (self.bytes[i] as u16) * 10 + carry;
            self.bytes[i] = (t % 256) as u8;
            carry = t / 256;
            proof {
                let o = old(self)@;
                let n = self.bytes@;
                let ii = i as int;
                let p = pow256((31 - i) as nat);
                let ob = o[ii] as nat;
                let nb = n[ii] as nat;
                let tv = t as nat;
                let nc = carry as nat;
                assert(prev[ii] == o[ii]);
                assert(tv == ob * 10 + prev_carry);
                assert(tv == nc * 256 + nb);
                // the suffix past the written byte is unchanged
                assert(n.subrange(ii + 1, 32) =~= prev.subrange(ii + 1, 32));
                // peel the first byte off both suffixes
                lemma_be_nat_first(o.subrange(ii, 32));
                lemma_be_nat_first(n.subrange(ii, 32));
                assert(o.subrange(ii, 32).drop_first() =~= o.subrange(ii + 1, 32));
                assert(n.subrange(ii, 32).drop_first() =~= n.subrange(ii + 1, 32));
                assert(be_nat(o.subrange(ii, 32)) == ob * p + be_nat(o.subrange(ii + 1, 32)));
                assert(be_nat(n.subrange(ii, 32)) == nb * p + be_nat(n.subrange(ii + 1, 32)));
                let orest = be_nat(o.subrange(ii + 1, 32));
                let nrest = be_nat(n.subrange(ii + 1, 32));
                // the invariant before this step
                assert(10 * orest + d == nrest + prev_carry * p);
                assert(10 * (ob * p + orest) + d == (nb * p + nrest) + nc * (256 * p))
                    by (nonlinear_arith)
                    requires
                        10 * orest + d == nrest + prev_carry * p,
                        ob * 10 + prev_carry == nc * 256 + nb,
                {}
                assert(pow256((32 - i) as nat) == 256 * p);
            }
        }
        proof {
            assert(old(self)@.subrange(0, 32) =~= old(self)@);
            assert(self.bytes@.subrange(0, 32) =~= self.bytes@);
            lemma_be_nat_bound(self.bytes@);
            lemma_pow256_pos(32);
            if carry == 0 {
                assert(10 * be_nat(old(self)@) + d == be_nat(self.bytes@));
            } else {
                assert(carry * pow256(32) >= pow256(32)) by (nonlinear_arith)
                    requires carry >= 1, pow256(32) >= 1;
            }
        }
        carry > 0
    }

    /// Parses a decimal string into a 256-bit word, as a storage item's
    /// declared slot number is written in a layout artifact.
    ///
    /// Succeeds exactly on non-empty all-digit strings whose value fits in
    /// 256 bits; anything else is a `ParseError`.
    pub fn from_decimal(s: &str) -> (r: Result<Word, DigestError>)
        ensures
            match r {
                Ok(w) => is_dec_seq(s@) && dec_value(s@) < pow256(32) && w.wf() && w.value()
                    == dec_value(s@) && w@ == be32(dec_value(s@)),
                Err(e) => e == DigestError::ParseError && (!is_dec_seq(s@) || dec_value(s@)
                    >= pow256(32)),
            },
    {
        let n = s.unicode_len();
        if n == 0 {
            return Err(DigestError::ParseError);
        }
        let mut w = Word::zero();
        let mut j: usize = 0;
        while j < n
            invariant
                j <= n,
                n == s@.len(),
                n > 0,
                w.wf(),
                be_nat(w@) == dec_value(s@.subrange(0, j as int)),
                forall|i: int| 0 <= i < j ==> is_dec_digit(#[trigger] s@[i]),
            decreases n - j,
        {
            let c = s.get_char(j);
            let cv = c as u32;
            if cv < 48 || cv > 57 {
                return Err(DigestError::ParseError);
            }
            let d = (cv - 48) as u8;
            let ghost before = w@;
            let overflow = w.mul10_add(d);
            proof {
                assert(s@.subrange(0, j + 1).drop_last() =~= s@.subrange(0, j as int));
                assert(s@.subrange(0, j + 1).last() == s@[j as int]);
                assert(digit_val(s@[j as int]) == d);
                assert(dec_value(s@.subrange(0, j + 1)) == dec_value(s@.subrange(0, j as int))
                    * 10 + d);
            }
            if overflow {
                proof {
                    lemma_dec_prefix_mono(s@, j + 1);
                }
                return Err(DigestError::ParseError);
            }
            j += 1;
        }
        proof {
            assert(s@.subrange(0, n as int) =~= s@);
            lemma_be_nat_bound(w@);
            lemma_be_bytes_len(dec_value(s@), 32);
            lemma_be_bytes_value(dec_value(s@), 32);
            lemma_be_nat_injective(w@, be32(dec_value(s@)));
        }
        Ok(w)
    }
}

} // verus!
