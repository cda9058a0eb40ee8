//! Little-endian bit streams: a reader over a byte slice and a writer that
//! packs bits back into bytes.
use vstd::arithmetic::div_mod::{lemma_div_denominator, lemma_fundamental_div_mod};
use vstd::arithmetic::power2::{
    lemma2_to64, lemma_pow2_pos, lemma_pow2_strictly_increases, lemma_pow2_unfold, pow2,
};
use vstd::bits::lemma_u8_shr_is_div;
use vstd::prelude::*;

use crate::error::ErrorKind;

verus! {

/// The number that a bit sequence stands for, its first bit the least significant.
pub open spec fn bits_value(s: Seq<bool>) -> nat
    decreases s.len(),
{
    if s.len() == 0 {
        0
    } else {
        (if s[0] { 1nat } else { 0nat }) + 2 * bits_value(s.drop_first())
    }
}

/// The `w` low bits of `v`, least significant first.
pub open spec fn bits_of(v: nat, w: nat) -> Seq<bool> {
    Seq::new(w, |i: int| (v / pow2(i as nat)) % 2 == 1)
}

/// The bits of a byte sequence, each byte least significant bit first.
pub open spec fn bytes_bits(b: Seq<u8>) -> Seq<bool> {
    Seq::new(8 * b.len(), |i: int| (b[i / 8] as nat / pow2((i % 8) as nat)) % 2 == 1)
}

/// Bits packed into bytes, eight to a byte, the last byte filled up with zero bits.
pub open spec fn pack_bits(bits: Seq<bool>) -> Seq<u8> {
    let n = (bits.len() + 7) / 8;
    let padded = bits + zero_bits((8 * n - bits.len()) as nat);
    Seq::new(n as nat, |j: int| bits_value(padded.subrange(8 * j, 8 * j + 8)) as u8)
}

/// Packed bits read back as the bits, then zero bits up to a whole byte.
pub proof fn lemma_pack_bits(bits: Seq<bool>)
    ensures
        pack_bits(bits).len() == (bits.len() + 7) / 8,
        bytes_bits(pack_bits(bits)) == bits + zero_bits(
            (8 * ((bits.len() + 7) / 8) - bits.len()) as nat,
        ),
{
    let n = (bits.len() + 7) / 8;
    let padded = bits + zero_bits((8 * n - bits.len()) as nat);
    let r = pack_bits(bits);
    lemma2_to64();
    assert forall|i: int| 0 <= i < 8 * n implies #[trigger] bytes_bits(r)[i] == padded[i] by {
        let jj = i / 8;
        let t = padded.subrange(8 * jj, 8 * jj + 8);
        lemma_bits_value_bound(t);
        assert(r[jj] as nat == bits_value(t));
        lemma_bits_of_value(t);
        assert(bits_of(bits_value(t), 8)[i % 8] == t[i % 8]);
    }
    assert(bytes_bits(r) =~= padded);
}

/// `n` false bits.
pub open spec fn zero_bits(n: nat) -> Seq<bool> {
    Seq::new(n, |i: int| false)
}

pub proof fn lemma_bits_value_bound(s: Seq<bool>)
    ensures
        bits_value(s) < pow2(s.len()),
    decreases s.len(),
{
    if s.len() == 0 {
        lemma2_to64();
    } else {
        lemma_bits_value_bound(s.drop_first());
        lemma_pow2_unfold(s.len());
    }
}

pub proof fn lemma_bits_value_of(v: nat, w: nat)
    requires
        v < pow2(w),
    ensures
        bits_value(bits_of(v, w)) == v,
    decreases w,
{
    if w == 0 {
        lemma2_to64();
    } else {
        lemma_pow2_unfold(w);
        let h = v / 2;
        lemma_fundamental_div_mod(v as int, 2);
        assert(h < pow2((w - 1) as nat));
        lemma_bits_value_of(h, (w - 1) as nat);
        assert forall|i: int| 0 <= i < w - 1 implies #[trigger] bits_of(v, w)[i + 1] == bits_of(
            h,
            (w - 1) as nat,
        )[i] by {
            lemma_pow2_pos(i as nat);
            lemma_pow2_unfold((i + 1) as nat);
            lemma_div_denominator(v as int, 2, pow2(i as nat) as int);
        }
        assert(bits_of(v, w).drop_first() =~= bits_of(h, (w - 1) as nat));
        lemma2_to64();
        assert(v / pow2(0) == v);
        assert(bits_of(v, w)[0] == (v % 2 == 1));
        assert(bits_value(bits_of(v, w)) == v % 2 + 2 * h);
    }
}

pub proof fn lemma_bits_of_value(s: Seq<bool>)
    ensures
        bits_of(bits_value(s), s.len()) == s,
    decreases s.len(),
{
    if s.len() > 0 {
        let t = s.drop_first();
        lemma_bits_of_value(t);
        let v = bits_value(s);
        let h = bits_value(t);
        assert(v == (if s[0] { 1nat } else { 0nat }) + 2 * h);
        assert(v / 2 == h);
        assert forall|i: int| 0 <= i < s.len() implies #[trigger] bits_of(v, s.len())[i] == s[i] by {
            if i == 0 {
                lemma2_to64();
                assert(v / pow2(0) == v);
                assert(v % 2 == (if s[0] { 1nat } else { 0nat }));
            } else {
                lemma_pow2_pos((i - 1) as nat);
                lemma_pow2_unfold(i as nat);
                lemma_div_denominator(v as int, 2, pow2((i - 1) as nat) as int);
                assert(bits_of(h, t.len())[i - 1] == t[i - 1]);
            }
        }
        assert(bits_of(v, s.len()) =~= s);
    } else {
        assert(bits_of(bits_value(s), s.len()) =~= s);
    }
}


proof fn lemma_pow2_le(e1: nat, e2: nat)
    requires
        e1 <= e2,
    ensures
        pow2(e1) <= pow2(e2),
{
    if e1 < e2 {
        lemma_pow2_strictly_increases(e1, e2);
    }
}

/// `n` bits at `pos` of `s`, read as a number, if they are all there.
pub open spec fn take_bits(s: Seq<bool>, pos: int, n: nat) -> Option<nat> {
    if 0 <= pos && pos + n <= s.len() {
        Some(bits_value(s.subrange(pos, pos + n)))
    } else {
        None
    }
}

pub proof fn lemma_take_one(s: Seq<bool>, pos: int)
    requires
        0 <= pos < s.len(),
    ensures
        take_bits(s, pos, 1) == Some(if s[pos] { 1nat } else { 0nat }),
{
    let t = s.subrange(pos, pos + 1);
    assert(t.drop_first().len() == 0);
    assert(bits_value(t.drop_first()) == 0);
}

/// A cursor over the bits of a byte slice, least significant bit of each byte first.
pub struct BitReader<'a> {
    pub data: &'a [u8],
    pub pos: usize,
}

impl<'a> BitReader<'a> {
    pub open spec fn bits(&self) -> Seq<bool> {
        bytes_bits(self.data@)
    }

    pub open spec fn wf(&self) -> bool {
        &&& self.data@.len() * 8 <= usize::MAX
        &&& self.pos <= self.data@.len() * 8
    }

    /// A reader over `data` whose cursor stands at bit `pos`.
    pub fn new(data: &'a [u8], pos: usize) -> (r: Self)
        requires
            data@.len() * 8 <= usize::MAX,
            pos <= data@.len() * 8,
        ensures
            r.data@ == data@,
            r.pos == pos,
            r.wf(),
    {
        BitReader { data, pos }
    }

    fn bit_at(&self, i: usize) -> (r: bool)
        requires
            self.wf(),
            i < self.data@.len() * 8,
        ensures
            r == self.bits()[i as int],
    {
        let byte = self.data[i / 8];
        let shift = (i % 8) as u8;
        proof {
            lemma_u8_shr_is_div(byte, shift);
        }
        (byte >> shift) % 2 == 1
    }

    /// Reads one bit.
    pub fn read_1_bit(&mut self) -> (r: Result<bool, ErrorKind>)
        requires
            old(self).wf(),
        ensures
            final(self).wf(),
            final(self).data@ == old(self).data@,
            match r {
                Ok(b) => old(self).pos < old(self).bits().len() && b == old(self).bits()[old(
                    self,
                ).pos as int] && final(self).pos == old(self).pos + 1,
                Err(e) => e == ErrorKind::ShortRead && old(self).pos >= old(self).bits().len()
                    && final(self).pos == old(self).pos,
            },
    {
        if self.pos / 8 >= self.data.len() {
            return Err(ErrorKind::ShortRead);
        }
        let b = self.bit_at(self.pos);
        self.pos = self.pos + 1;
        Ok(b)
    }

    /// Reads `n` bits as an unsigned number, its first bit the least significant.
    pub fn read_n_bit(&mut self, n: u32) -> (r: Result<u32, ErrorKind>)
        requires
            old(self).wf(),
            n <= 32,
        ensures
            final(self).wf(),
            final(self).data@ == old(self).data@,
            match r {
                Ok(v) => take_bits(old(self).bits(), old(self).pos as int, n as nat) == Some(
                    v as nat,
                ) && final(self).pos == old(self).pos + n && v < pow2(n as nat),
                Err(e) => e == ErrorKind::ShortRead && take_bits(
                    old(self).bits(),
                    old(self).pos as int,
                    n as nat,
                ) is None && final(self).pos == old(self).pos,
            },
    {
        let total = self.data.len() * 8;
        if total - self.pos < n as usize {
            return Err(ErrorKind::ShortRead);
        }
        let ghost s = self.bits();
        let ghost p = self.pos as int;
        let mut v: u64 = 0;
        let mut k: u32 = n;
        proof {
            lemma2_to64();
        }
        while k > 0
            invariant
                self.wf(),
                s == self.bits(),
                p == self.pos,
                k <= n <= 32,
                p + n <= s.len(),
                v == bits_value(s.subrange(p + k, p + n)),
                v < pow2((n - k) as nat),
            decreases k,
        {
            k = k - 1;
            let b = self.bit_at(self.pos + k as usize);
            proof {
                let t = s.subrange(p + k, p + n);
                assert(t.drop_first() =~= s.subrange(p + k + 1, p + n));
                assert(t[0] == b);
                lemma_pow2_unfold((n - k) as nat);
                lemma_pow2_le((n - k) as nat, 32);
                lemma2_to64();
            }
            v = 2 * v + (if b { 1u64 } else { 0u64 });
        }
        proof {
            lemma2_to64();
            lemma_pow2_le(n as nat, 32);
        }
        self.pos = self.pos + n as usize;
        Ok(v as u32)
    }

    /// The bytes that the cursor has entered, a partly read byte included.
    pub fn get_consumed_bytes(&self) -> (r: usize)
        requires
            self.wf(),
        ensures
            r == (self.pos + 7) / 8,
    {
        (self.pos / 8) + if self.pos % 8 == 0 { 0 } else { 1 }
    }
}

/// A growing sequence of bits, packed into bytes at the end.
pub struct BitWriter {
    pub bits: Vec<bool>,
}

impl BitWriter {
    pub fn new() -> (r: Self)
        ensures
            r.bits@ == Seq::<bool>::empty(),
    {
        BitWriter { bits: Vec::new() }
    }

    pub fn append_bit(&mut self, b: bool)
        ensures
            final(self).bits@ == old(self).bits@.push(b),
    {
        self.bits.push(b);
    }

    /// Appends the `w` low bits of `v`, least significant first.
    pub fn append_u32_range(&mut self, v: u32, w: u32)
        requires
            w <= 32,
        ensures
            final(self).bits@ == old(self).bits@ + bits_of(v as nat, w as nat),
    {
        let ghost start = self.bits@;
        let mut cur: u32 = v;
        let mut k: u32 = 0;
        proof {
            lemma2_to64();
        }
        while k < w
            invariant
                k <= w <= 32,
                cur as nat == v as nat / pow2(k as nat),
                self.bits@ == start + bits_of(v as nat, k as nat),
            decreases w - k,
        {
            proof {
                lemma_pow2_pos(k as nat);
                lemma_pow2_unfold((k + 1) as nat);
                lemma_div_denominator(v as int, pow2(k as nat) as int, 2);
                assert(bits_of(v as nat, (k + 1) as nat) =~= bits_of(v as nat, k as nat).push(
                    cur % 2 == 1,
                ));
            }
            self.bits.push(cur % 2 == 1);
            cur = cur / 2;
            k = k + 1;
        }
    }

    /// Appends a sequence of bits as it stands.
    pub fn append_vec(&mut self, more: &Vec<bool>)
        ensures
            final(self).bits@ == old(self).bits@ + more@,
    {
        let ghost start = self.bits@;
        let mut i: usize = 0;
        while i < more.len()
            invariant
                i <= more@.len(),
                self.bits@ == start + more@.subrange(0, i as int),
            decreases more@.len() - i,
        {
            self.bits.push(more[i]);
            i = i + 1;
            assert(more@.subrange(0, i as int) =~= more@.subrange(0, i - 1).push(more@[i - 1]));
        }
        assert(more@.subrange(0, more@.len() as int) =~= more@);
    }

    /// The bits packed into bytes, the last byte filled up with zero bits.
    pub fn get_u8_vec(&self) -> (r: Vec<u8>)
        ensures
            r@.len() == (self.bits@.len() + 7) / 8,
            r@ == pack_bits(self.bits@),
            bytes_bits(r@) == self.bits@ + zero_bits((8 * r@.len() - self.bits@.len()) as nat),
    {
        let len = self.bits.len();
        let nbytes = len / 8 + if len % 8 == 0 {
            0
        } else {
            1
        };
        let ghost padded = self.bits@ + zero_bits((8 * nbytes - len) as nat);
        let mut out: Vec<u8> = Vec::new();
        let mut j: usize = 0;
        while j < nbytes
            invariant
                nbytes == (len + 7) / 8,
                len == self.bits@.len(),
                padded.len() == 8 * nbytes,
                padded == self.bits@ + zero_bits((8 * nbytes - len) as nat),
                j <= nbytes,
                out@.len() == j,
                forall|jj: int|
                    0 <= jj < j ==> #[trigger] out@[jj] as nat == bits_value(
                        padded.subrange(8 * jj, 8 * jj + 8),
                    ),
            decreases nbytes - j,
        {
            let mut v: u32 = 0;
            let mut k: usize = 8;
            proof {
                lemma2_to64();
            }
            while k > 0
                invariant
                    j < nbytes,
                    nbytes == (len + 7) / 8,
                    padded.len() == 8 * nbytes,
                    len == self.bits@.len(),
                    padded == self.bits@ + zero_bits((8 * nbytes - len) as nat),
                    k <= 8,
                    v == bits_value(padded.subrange(8 * j + k, 8 * j + 8)),
                    v < pow2((8 - k) as nat),
                decreases k,
            {
                k = k - 1;
                let base = 8 * j;
                let b = if k < len - base {
                    self.bits[base + k]
                } else {
                    false
                };
                proof {
                    let t = padded.subrange(8 * j + k, 8 * j + 8);
                    assert(t.drop_first() =~= padded.subrange(8 * j + k + 1, 8 * j + 8));
                    assert(t[0] == b);
                    lemma_pow2_unfold((8 - k) as nat);
                    lemma2_to64();
                    lemma_pow2_le((8 - k) as nat, 8);
                }
                v = 2 * v + if b { 1u32 } else { 0u32 };
            }
            proof {
                lemma2_to64();
            }
            out.push(v as u8);
            j = j + 1;
        }
        proof {
            assert forall|i: int| 0 <= i < 8 * nbytes implies #[trigger] bytes_bits(out@)[i]
                == padded[i] by {
                let jj = i / 8;
                let t = padded.subrange(8 * jj, 8 * jj + 8);
                lemma_bits_of_value(t);
                assert(bits_of(bits_value(t), 8)[i % 8] == t[i % 8]);
            }
            assert(bytes_bits(out@) =~= padded);
            assert(out@ =~= pack_bits(self.bits@));
        }
        out
    }
}

} // verus!
