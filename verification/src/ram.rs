//! Sparse counter tables addressed by packed retina bits.
//!
//! A `Ram` maps addresses in `[0, 2^num_bits)` to 64-bit occurrence
//! counters. Two counting disciplines exist, fixed at construction:
//! cumulative (insert increments, remove decrements with a floor at zero)
//! and non-cumulative (insert sets the counter to 1, remove to 0).

use crate::ConfigurationError;
use std::collections::HashMap;
use vstd::arithmetic::power2::{
    lemma2_to64, lemma2_to64_rest, lemma_pow2_strictly_increases, lemma_pow2_unfold, pow2,
};
use vstd::prelude::*;

verus! {

broadcast use vstd::std_specs::hash::group_hash_axioms;

/// The counter an insert leaves at the addressed cell, given the counter
/// that was there. Cumulative tables saturate at `u64::MAX` instead of
/// overflowing.
pub open spec fn bumped_count(current: u64, is_cumulative: bool) -> u64 {
    if !is_cumulative {
        1u64
    } else if current < u64::MAX {
        (current + 1) as u64
    } else {
        u64::MAX
    }
}

/// The counter a remove leaves at the addressed cell, given the counter
/// that was there. A cumulative remove of an address that was never
/// written decrements an implicit count of 1, yielding 0; counters never
/// go negative.
pub open spec fn dropped_count(current: u64, is_cumulative: bool) -> u64 {
    if !is_cumulative {
        0u64
    } else if current >= 1 {
        (current - 1) as u64
    } else {
        0u64
    }
}

pub struct Ram {
    data: HashMap<u64, u64>,
    address_space: u64,
    is_cumulative: bool,
}

impl Ram {
    /// The counter stored at an address; addresses never written count 0.
    pub closed spec fn count(self, address: u64) -> u64 {
        if self.data@.contains_key(address) {
            self.data@[address]
        } else {
            0u64
        }
    }

    /// The number of addresses this table accepts, `2^num_bits`: every
    /// valid address lies strictly below it.
    pub closed spec fn address_space(self) -> u64 {
        self.address_space
    }

    pub closed spec fn is_cumulative(self) -> bool {
        self.is_cumulative
    }

    /// An empty table of `2^num_bits` addresses.
    pub fn new(num_bits: usize, is_cumulative: bool) -> (ram: Ram)
        requires
            num_bits <= 62,
        ensures
            ram.address_space() == pow2(num_bits as nat),
            ram.is_cumulative() == is_cumulative,
            forall|a: u64| ram.count(a) == 0,
    {
        let mut address_space: u64 = 1;
        let mut i: usize = 0;
        proof {
            lemma2_to64();
            lemma2_to64_rest();
        }
        while i < num_bits
            invariant
                i <= num_bits,
                num_bits <= 62,
                address_space == pow2(i as nat),
                address_space <= pow2(62),
            decreases num_bits - i,
        {
            proof {
                lemma_pow2_unfold((i + 1) as nat);
                if i + 1 < 62 {
                    lemma_pow2_strictly_increases((i + 1) as nat, 62);
                }
                lemma2_to64_rest();
            }
            address_space = address_space * 2;
            i = i + 1;
        }
        Ram { data: HashMap::new(), address_space, is_cumulative }
    }

    /// Applies the configured counting discipline at `address`; all other
    /// cells are untouched. Rejects addresses outside the address space.
    pub fn insert(&mut self, address: u64) -> (result: Result<(), ConfigurationError>)
        ensures
            final(self).address_space() == old(self).address_space(),
            final(self).is_cumulative() == old(self).is_cumulative(),
            match result {
                Ok(()) => {
                    &&& address < old(self).address_space()
                    &&& final(self).count(address) == bumped_count(
                        old(self).count(address),
                        old(self).is_cumulative(),
                    )
                    &&& forall|a: u64| a != address ==> final(self).count(a) == old(self).count(a)
                },
                Err(e) => {
                    &&& e == ConfigurationError::AddressOutOfRange
                    &&& address >= old(self).address_space()
                    &&& *final(self) == *old(self)
                },
            },
    {
        if address >= self.address_space {
            return Err(ConfigurationError::AddressOutOfRange);
        }
        if !self.is_cumulative {
            self.data.insert(address, 1);
        } else {
            let current: u64 = match self.data.get(&address) {
                Some(value) => *value,
                None => 0,
            };
            let bumped: u64 = if current < u64::MAX {
                current + 1
            } else {
                u64::MAX
            };
            self.data.insert(address, bumped);
        }
        Ok(())
    }

    /// The inverse discipline of `insert` at `address`, with a floor at
    /// zero; all other cells are untouched.
    pub fn remove(&mut self, address: u64) -> (result: Result<(), ConfigurationError>)
        ensures
            final(self).address_space() == old(self).address_space(),
            final(self).is_cumulative() == old(self).is_cumulative(),
            match result {
                Ok(()) => {
                    &&& address < old(self).address_space()
                    &&& final(self).count(address) == dropped_count(
                        old(self).count(address),
                        old(self).is_cumulative(),
                    )
                    &&& forall|a: u64| a != address ==> final(self).count(a) == old(self).count(a)
                },
                Err(e) => {
                    &&& e == ConfigurationError::AddressOutOfRange
                    &&& address >= old(self).address_space()
                    &&& *final(self) == *old(self)
                },
            },
    {
        if address >= self.address_space {
            return Err(ConfigurationError::AddressOutOfRange);
        }
        if !self.is_cumulative {
            self.data.insert(address, 0);
        } else {
            let current: u64 = match self.data.get(&address) {
                Some(value) => *value,
                None => 0,
            };
            let dropped: u64 = if current >= 1 {
                current - 1
            } else {
                0
            };
            self.data.insert(address, dropped);
        }
        Ok(())
    }

    /// The stored counter, or 0 if the address was never written.
    pub fn get(&self, address: u64) -> (count: u64)
        ensures
            count == self.count(address),
    {
        match self.data.get(&address) {
            Some(value) => *value,
            None => 0,
        }
    }
}

} // verus!
