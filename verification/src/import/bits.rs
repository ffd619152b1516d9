//! Bit-level reading (MSB first), as used by SWF RECT and ADPCM records.
use vstd::prelude::*;
use vstd::arithmetic::power2::*;
use crate::import::swf::SwfError;

verus! {

// ---------------------------------------------------------------------
// Bit-level reading (MSB first), as used by RECT and ADPCM records.
// ---------------------------------------------------------------------

/// Bit `i` of `data`, counting from the most significant bit of byte 0.
pub open spec fn bit_at(data: Seq<u8>, i: int) -> int {
    ((data[i / 8] >> ((7 - i % 8) as u8)) & 1u8) as int
}

/// Unsigned value of the `n` bits starting at bit `start`, MSB first.
pub open spec fn bits_val(data: Seq<u8>, start: int, n: nat) -> int
    decreases n,
{
    if n == 0 {
        0
    } else {
        2 * bits_val(data, start, (n - 1) as nat) + bit_at(data, start + n - 1)
    }
}

/// Two's-complement reading of an `n`-bit unsigned value.
pub open spec fn sign_extend(v: int, n: nat) -> int {
    if v >= pow2((n - 1) as nat) {
        v - pow2(n)
    } else {
        v
    }
}

pub proof fn lemma_bit_at_bound(data: Seq<u8>, i: int)
    requires
        0 <= i,
        i / 8 < data.len(),
    ensures
        0 <= bit_at(data, i) <= 1,
{
    let b = data[i / 8];
    let s = (7 - i % 8) as u8;
    assert((b >> s) & 1u8 <= 1u8) by (bit_vector);
}

pub proof fn lemma_bits_val_bound(data: Seq<u8>, start: int, n: nat)
    requires
        0 <= start,
        start + n <= 8 * data.len(),
    ensures
        0 <= bits_val(data, start, n) < pow2(n),
    decreases n,
{
    if n == 0 {
        lemma2_to64();
    } else {
        lemma_bits_val_bound(data, start, (n - 1) as nat);
        let i = start + n - 1;
        assert(i / 8 < data.len()) by (nonlinear_arith)
            requires
                0 <= i < 8 * data.len(),
        ;
        lemma_bit_at_bound(data, i);
        lemma_pow2_unfold(n);
        assert(bits_val(data, start, n) == 2 * bits_val(data, start, (n - 1) as nat) + bit_at(
            data,
            i,
        ));
    }
}

pub struct BitReader<'a> {
    pub data: &'a [u8],
    pub bit: usize,
}

impl<'a> BitReader<'a> {
    pub open spec fn wf(&self) -> bool {
        &&& self.bit <= 8 * self.data@.len()
        &&& 8 * self.data@.len() <= usize::MAX
    }

    pub fn new(data: &'a [u8]) -> (r: Self)
        requires
            8 * data@.len() <= usize::MAX,
        ensures
            r.wf(),
            r.data@ == data@,
            r.bit == 0,
    {
        BitReader { data, bit: 0 }
    }

    /// Reads `n` bits MSB first. Fails (and leaves the data untouched) when
    /// fewer than `n` bits remain.
    pub fn read_bits(&mut self, n: usize) -> (r: Result<u32, SwfError>)
        requires
            old(self).wf(),
            n <= 32,
        ensures
            final(self).wf(),
            final(self).data@ == old(self).data@,
            r is Ok <==> old(self).bit + n <= 8 * old(self).data@.len(),
            r matches Ok(v) ==> {
                &&& v as int == bits_val(old(self).data@, old(self).bit as int, n as nat)
                &&& final(self).bit == old(self).bit + n
            },
            r matches Err(e) ==> e == SwfError::BadRect,
    {
        let ghost start = self.bit as int;
        let ghost data = self.data@;
        let mut out: u32 = 0;
        let mut k: usize = 0;
        proof {
            lemma2_to64();
        }
        while k < n
            invariant
                self.wf(),
                self.data@ == data,
                data == old(self).data@,
                start == old(self).bit,
                k <= n <= 32,
                self.bit == start + k,
                start + k <= 8 * data.len(),
                out as int == bits_val(data, start, k as nat),
                out < pow2(k as nat),
            decreases n - k,
        {
            if self.bit / 8 >= self.data.len() {
                proof {
                    let b = self.bit as int;
                    assert(b >= 8 * data.len()) by (nonlinear_arith)
                        requires
                            b / 8 >= data.len(),
                            b >= 0,
                    ;
                }
                return Err(SwfError::BadRect);
            }
            proof {
                let b = self.bit as int;
                assert(b < 8 * data.len()) by (nonlinear_arith)
                    requires
                        b / 8 < data.len(),
                        b >= 0,
                ;
            }
            let byte = self.data[self.bit / 8];
            let shift = (7 - (self.bit % 8)) as u8;
            let b = (byte >> shift) & 1u8;
            proof {
                lemma_bit_at_bound(data, start + k);
                lemma_pow2_unfold((k + 1) as nat);
                lemma2_to64();
                if k < 32 {
                    lemma_pow2_strictly_increases(k as nat, 32);
                }
            }
            out = out * 2 + b as u32;
            self.bit = self.bit + 1;
            k = k + 1;
        }
        Ok(out)
    }

    /// Reads an `n`-bit two's-complement value.
    pub fn read_signed(&mut self, n: usize) -> (r: Result<i32, SwfError>)
        requires
            old(self).wf(),
            1 <= n <= 16,
        ensures
            final(self).wf(),
            final(self).data@ == old(self).data@,
            r is Ok <==> old(self).bit + n <= 8 * old(self).data@.len(),
            r matches Ok(v) ==> {
                &&& v as int == sign_extend(
                    bits_val(old(self).data@, old(self).bit as int, n as nat),
                    n as nat,
                )
                &&& final(self).bit == old(self).bit + n
            },
            r matches Err(e) ==> e == SwfError::BadRect,
    {
        let ghost start = self.bit as int;
        let value = self.read_bits(n)?;
        proof {
            lemma_bits_val_bound(self.data@, start, n as nat);
            lemma2_to64();
            lemma_pow2_strictly_increases(n as nat, 17);
            lemma_pow2_unfold(n as nat);
        }
        let half = pow2_u32(n - 1);
        if value >= half {
            Ok(value as i32 - (2 * half) as i32)
        } else {
            Ok(value as i32)
        }
    }
}

/// `2^e` for small exponents.
pub fn pow2_u32(e: usize) -> (r: u32)
    requires
        e < 32,
    ensures
        r as int == pow2(e as nat),
{
    let mut r: u32 = 1;
    let mut i: usize = 0;
    proof {
        lemma2_to64();
    }
    while i < e
        invariant
            i <= e < 32,
            r as int == pow2(i as nat),
        decreases e - i,
    {
        proof {
            lemma_pow2_unfold((i + 1) as nat);
            lemma_pow2_strictly_increases((i + 1) as nat, 32);
            lemma2_to64();
        }
        r = r * 2;
        i = i + 1;
    }
    proof {
        reveal(pow2);
    }
    r
}

} // verus!
