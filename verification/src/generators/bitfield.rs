//! A run of up to 24 modules.

use vstd::prelude::*;

verus! {

/// The bit of weight `2^k` of `value`.
pub open spec fn bit_at(value: u32, k: nat) -> bool {
    (value as nat / vstd::arithmetic::power2::pow2(k)) % 2 == 1
}

/// The last `count` bits of `value`, the most significant first.
pub open spec fn bits_of(value: u32, count: nat) -> Seq<bool> {
    Seq::new(count, |i: int| bit_at(value, (count - 1 - i) as nat))
}

/// A run of up to 24 modules: the last `size()` bits of `bits()`, the most
/// significant of them the first module.
#[derive(Clone, Copy, Debug)]
pub struct Bitfield {
    value: u32,
    count: u8,
}

impl View for Bitfield {
    type V = Seq<bool>;

    closed spec fn view(&self) -> Seq<bool> {
        bits_of(self.value, self.count as nat)
    }
}

impl Bitfield {
    #[verifier::type_invariant]
    spec fn within_bounds(self) -> bool {
        self.count <= 24 && self.value < 0x100_0000
    }

    /// The value that holds the modules.
    pub closed spec fn value(self) -> u32 {
        self.value
    }

    /// The number of modules.
    pub closed spec fn length(self) -> nat {
        self.count as nat
    }

    /// The modules of a run are the last `size()` bits of `bits()`.
    pub proof fn lemma_view(self)
        ensures
            self@ == bits_of(self.value(), self.length()),
            self@.len() == self.length(),
    {
    }

    /// The run of the last `count` bits of `bits`.
    pub fn new(bits: u32, count: u8) -> (r: Self)
        requires
            count <= 24,
            bits < vstd::arithmetic::power2::pow2(count as nat),
        ensures
            r.value() == bits,
            r.length() == count,
            r@ == bits_of(bits, count as nat),
    {
        proof {
            vstd::arithmetic::power2::lemma2_to64();
            if count < 24 {
                vstd::arithmetic::power2::lemma_pow2_strictly_increases(count as nat, 24);
            }
        }
        Bitfield { value: bits, count }
    }

    /// The number of modules that are left.
    pub fn size(&self) -> (r: u8)
        ensures
            r == self.length(),
            r == self@.len(),
            r <= 24,
    {
        proof {
            use_type_invariant(self);
        }
        self.count
    }

    /// The value that holds the modules.
    pub fn bits(&self) -> (r: u32)
        ensures
            r == self.value(),
    {
        self.value
    }

    /// The value that holds the modules, and their number.
    pub fn as_pair(&self) -> (r: (u32, u32))
        ensures
            r.0 == self.value(),
            r.1 == self.length(),
    {
        (self.value, self.count as u32)
    }

    /// The number of modules that are left, as the bounds that an
    /// iterator reports.
    pub fn size_hint(&self) -> (r: (usize, Option<usize>))
        ensures
            r.0 == self@.len(),
            r.1 == Some(r.0),
    {
        let count = self.count as usize;
        (count, Some(count))
    }

    /// Takes the first module off the run, where one is left.
    pub fn next(&mut self) -> (r: Option<bool>)
        ensures
            final(self).value() == old(self).value(),
            match r {
                Some(bit) => {
                    &&& old(self)@.len() > 0
                    &&& bit == old(self)@[0]
                    &&& final(self)@ == old(self)@.skip(1)
                },
                None => old(self)@.len() == 0 && final(self)@ == old(self)@,
            },
    {
        proof {
            use_type_invariant(&*self);
        }
        if self.count > 0 {
            let k: u32 = (self.count - 1) as u32;
            let bit = (self.value >> k) & 1 == 1;
            proof {
                let v = self.value;
                assert((v >> k) == v as nat / vstd::arithmetic::power2::pow2(k as nat)) by {
                    vstd::bits::lemma_u32_shr_is_div(v, k);
                }
                let q = v >> k;
                assert(q & 1 == q % 2) by (bit_vector);
                assert(self@.skip(1) =~= bits_of(self.value, (self.count - 1) as nat));
            }
            self.count = self.count - 1;
            Some(bit)
        } else {
            None
        }
    }
}

} // verus!
