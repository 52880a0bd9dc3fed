//! Per-class banks of RAMs partitioning the retina into contiguous chunks.
//!
//! A discriminator owns `ceil(retina_size / ram_num_bits)` RAMs. Chunk `c`
//! covers the retina positions `[c * num_bits, c * num_bits + width)` where
//! the width is `num_bits` except for a narrower final chunk when
//! `retina_size` is not divisible by `num_bits`. Bit `j` of chunk `c` reads
//! `retina[mapping[c * num_bits + j]]` and contributes `2^j` to the chunk's
//! RAM address (little-endian packing).

use crate::ram::{bumped_count, dropped_count, Ram};
use crate::ConfigurationError;
use vstd::arithmetic::div_mod::{lemma_fundamental_div_mod, lemma_mod_division_less_than_divisor};
use vstd::arithmetic::mul::lemma_mul_inequality;
use vstd::arithmetic::power2::{lemma2_to64, lemma_pow2_strictly_increases, lemma_pow2_unfold, pow2};
use vstd::prelude::*;

verus! {

/// How many RAMs a retina of `retina_size` bits needs when each covers
/// `num_bits` positions: the division rounded up.
pub open spec fn spec_rams_count(retina_size: nat, num_bits: nat) -> nat
    recommends
        num_bits >= 1,
{
    if retina_size % num_bits == 0 {
        retina_size / num_bits
    } else {
        retina_size / num_bits + 1
    }
}

/// The number of retina positions chunk `c` covers: `num_bits` for every
/// chunk but possibly the last, which takes what remains of the retina.
pub open spec fn spec_chunk_width(retina_size: nat, num_bits: nat, c: nat) -> nat
    recommends
        num_bits >= 1,
        c < spec_rams_count(retina_size, num_bits),
{
    if (c + 1) * num_bits <= retina_size {
        num_bits
    } else {
        (retina_size - c * num_bits) as nat
    }
}

/// The RAM address packed from `width` retina bits starting at mapped
/// position `start`: the bit at `start + j` contributes `2^j`.
pub open spec fn chunk_address(retina: Seq<bool>, mapping: Seq<usize>, start: int, width: nat) -> nat
    decreases width,
{
    if width == 0 {
        0
    } else {
        (if retina[mapping[start] as int] {
            1nat
        } else {
            0nat
        }) + 2 * chunk_address(retina, mapping, start + 1, (width - 1) as nat)
    }
}

/// Every chunk of a valid layout is non-empty, at most `num_bits` wide,
/// and lies inside the retina.
pub proof fn lemma_chunk_layout(retina_size: nat, num_bits: nat, c: nat)
    requires
        num_bits >= 1,
        c < spec_rams_count(retina_size, num_bits),
    ensures
        1 <= spec_chunk_width(retina_size, num_bits, c) <= num_bits,
        c * num_bits + spec_chunk_width(retina_size, num_bits, c) <= retina_size,
        c * num_bits < retina_size,
{
    let q = retina_size / num_bits;
    let m = retina_size % num_bits;
    lemma_fundamental_div_mod(retina_size as int, num_bits as int);
    lemma_mod_division_less_than_divisor(retina_size as int, num_bits as int);
    if m == 0 {
        assert(c + 1 <= q);
        lemma_mul_inequality((c + 1) as int, q as int, num_bits as int);
        assert(q * num_bits == num_bits * q) by (nonlinear_arith);
        assert((c + 1) * num_bits == c * num_bits + num_bits) by (nonlinear_arith);
    } else {
        assert(c <= q);
        lemma_mul_inequality(c as int, q as int, num_bits as int);
        assert(q * num_bits == num_bits * q) by (nonlinear_arith);
        assert((c + 1) * num_bits == c * num_bits + num_bits) by (nonlinear_arith);
        if c < q {
            lemma_mul_inequality((c + 1) as int, q as int, num_bits as int);
        } else {
            assert(c * num_bits == num_bits * c) by (nonlinear_arith);
        }
    }
}

/// A chunk count never exceeds the retina size (each chunk is non-empty).
pub proof fn lemma_rams_count_le_retina(retina_size: nat, num_bits: nat)
    requires
        num_bits >= 1,
    ensures
        spec_rams_count(retina_size, num_bits) <= retina_size || retina_size == 0,
        retina_size >= 1 ==> spec_rams_count(retina_size, num_bits) >= 1,
{
    let q = retina_size / num_bits;
    let m = retina_size % num_bits;
    lemma_fundamental_div_mod(retina_size as int, num_bits as int);
    lemma_mod_division_less_than_divisor(retina_size as int, num_bits as int);
    assert(q <= num_bits * q) by (nonlinear_arith)
        requires
            num_bits >= 1,
            q >= 0,
    ;
    assert(q == 0 ==> num_bits * q == 0) by (nonlinear_arith);
}

/// A packed chunk address is below `2^width`.
pub proof fn lemma_chunk_address_bound(
    retina: Seq<bool>,
    mapping: Seq<usize>,
    start: int,
    width: nat,
)
    ensures
        chunk_address(retina, mapping, start, width) < pow2(width),
    decreases width,
{
    if width == 0 {
        lemma2_to64();
    } else {
        lemma_chunk_address_bound(retina, mapping, start + 1, (width - 1) as nat);
        lemma_pow2_unfold(width);
    }
}

/// Extending a chunk by one bit adds that bit at the next power of two.
pub proof fn lemma_chunk_address_extend(
    retina: Seq<bool>,
    mapping: Seq<usize>,
    start: int,
    width: nat,
)
    ensures
        chunk_address(retina, mapping, start, width + 1) == chunk_address(
            retina,
            mapping,
            start,
            width,
        ) + pow2(width) * (if retina[mapping[start + width] as int] {
            1nat
        } else {
            0nat
        }),
    decreases width,
{
    let bit = (if retina[mapping[start + width] as int] {
        1nat
    } else {
        0nat
    });
    if width == 0 {
        lemma2_to64();
        assert(chunk_address(retina, mapping, start, 1) == bit + 2 * chunk_address(
            retina,
            mapping,
            start + 1,
            0,
        ));
    } else {
        lemma_chunk_address_extend(retina, mapping, start + 1, (width - 1) as nat);
        lemma_pow2_unfold(width);
        assert(chunk_address(retina, mapping, start + 1, width) == chunk_address(
            retina,
            mapping,
            start + 1,
            (width - 1) as nat,
        ) + pow2((width - 1) as nat) * bit);
        assert(2 * (chunk_address(retina, mapping, start + 1, (width - 1) as nat) + pow2(
            (width - 1) as nat,
        ) * bit) == 2 * chunk_address(retina, mapping, start + 1, (width - 1) as nat) + 2 * (pow2(
            (width - 1) as nat,
        ) * bit)) by (nonlinear_arith);
        assert(2 * (pow2((width - 1) as nat) * bit) == (2 * pow2((width - 1) as nat)) * bit)
            by (nonlinear_arith);
    }
}

/// The configuration of two discriminators agrees: only RAM contents may
/// differ.
pub open spec fn same_config(pre: Discriminator, post: Discriminator) -> bool {
    &&& post.retina_size() == pre.retina_size()
    &&& post.ram_num_bits() == pre.ram_num_bits()
    &&& post.rams_count() == pre.rams_count()
    &&& post.mapping() == pre.mapping()
    &&& post.is_cumulative() == pre.is_cumulative()
}

/// `post` is `pre` after training one retina: every RAM's counter at the
/// address that retina packs for it is bumped, and no other cell changes.
pub open spec fn train_rel(pre: Discriminator, post: Discriminator, retina: Seq<bool>) -> bool {
    &&& same_config(pre, post)
    &&& forall|c: int, a: u64|
        0 <= c < pre.rams_count() ==> #[trigger] post.count(c, a) == (if a as nat
            == pre.spec_address(retina, c) {
            bumped_count(pre.count(c, a), pre.is_cumulative())
        } else {
            pre.count(c, a)
        })
}

/// `post` is `pre` after forgetting one retina: every RAM's counter at the
/// address that retina packs for it is dropped, and no other cell changes.
pub open spec fn forget_rel(pre: Discriminator, post: Discriminator, retina: Seq<bool>) -> bool {
    &&& same_config(pre, post)
    &&& forall|c: int, a: u64|
        0 <= c < pre.rams_count() ==> #[trigger] post.count(c, a) == (if a as nat
            == pre.spec_address(retina, c) {
            dropped_count(pre.count(c, a), pre.is_cumulative())
        } else {
            pre.count(c, a)
        })
}

/// Packs `width` mapped retina bits starting at `start` into a RAM address.
fn compute_address(retina: &Vec<bool>, mapping: &Vec<usize>, start: usize, width: usize) -> (address:
    u64)
    requires
        width <= 62,
        start + width <= mapping@.len(),
        forall|i: int| 0 <= i < mapping@.len() ==> (mapping@[i] as int) < retina@.len(),
    ensures
        address as nat == chunk_address(retina@, mapping@, start as int, width as nat),
        (address as nat) < pow2(width as nat),
{
    let mut address: u64 = 0;
    let mut base: u64 = 1;
    let mut j: usize = 0;
    let mapping_len = mapping.len();
    proof {
        lemma2_to64();
    }
    while j < width
        invariant
            j <= width,
            width <= 62,
            mapping_len == mapping@.len(),
            start + width <= mapping_len,
            forall|i: int| 0 <= i < mapping@.len() ==> (mapping@[i] as int) < retina@.len(),
            base == pow2(j as nat),
            address as nat == chunk_address(retina@, mapping@, start as int, j as nat),
            address < base,
        decreases width - j,
    {
        proof {
            lemma_chunk_address_extend(retina@, mapping@, start as int, j as nat);
            lemma_pow2_unfold((j + 1) as nat);
            if j + 1 < 62 {
                lemma_pow2_strictly_increases((j + 1) as nat, 62);
            }
            vstd::arithmetic::power2::lemma2_to64_rest();
        }
        let position = mapping[start + j];
        if retina[position] {
            address = address + base;
        }
        base = base * 2;
        j = j + 1;
    }
    proof {
        lemma_chunk_address_bound(retina@, mapping@, start as int, width as nat);
    }
    address
}

pub struct Discriminator {
    retina_size: usize,
    ram_num_bits: usize,
    rams_count: usize,
    rams: Vec<Ram>,
    ram_address_mapping: Vec<usize>,
    is_cumulative: bool,
}

impl Discriminator {
    pub closed spec fn retina_size(self) -> usize {
        self.retina_size
    }

    pub closed spec fn ram_num_bits(self) -> usize {
        self.ram_num_bits
    }

    pub closed spec fn rams_count(self) -> usize {
        self.rams_count
    }

    pub closed spec fn mapping(self) -> Seq<usize> {
        self.ram_address_mapping@
    }

    pub closed spec fn is_cumulative(self) -> bool {
        self.is_cumulative
    }

    /// The counter RAM `c` stores at `address`.
    pub closed spec fn count(self, c: int, address: u64) -> u64 {
        self.rams@[c].count(address)
    }

    pub closed spec fn wf(self) -> bool {
        &&& 1 <= self.ram_num_bits <= 62
        &&& self.rams_count == spec_rams_count(self.retina_size as nat, self.ram_num_bits as nat)
        &&& self.rams@.len() == self.rams_count
        &&& self.ram_address_mapping@.len() == self.retina_size
        &&& forall|i: int|
            0 <= i < self.ram_address_mapping@.len() ==> (#[trigger] self.ram_address_mapping@[i]
                as int) < self.retina_size
        &&& forall|c: int|
            0 <= c < self.rams@.len() ==> (#[trigger] self.rams@[c]).is_cumulative()
                == self.is_cumulative
        &&& forall|c: int|
            0 <= c < self.rams@.len() ==> (#[trigger] self.rams@[c]).address_space() == pow2(
                spec_chunk_width(self.retina_size as nat, self.ram_num_bits as nat, c as nat),
            )
    }

    /// What well-formedness pins about a discriminator's shape: it owns
    /// exactly `ceil(retina_size / ram_num_bits)` RAMs over chunks of
    /// 1..=62 bits, and its mapping covers the retina.
    pub proof fn lemma_shape(self)
        requires
            self.wf(),
        ensures
            self.rams_count() == spec_rams_count(
                self.retina_size() as nat,
                self.ram_num_bits() as nat,
            ),
            1 <= self.ram_num_bits() <= 62,
            self.mapping().len() == self.retina_size(),
            forall|i: int|
                0 <= i < self.mapping().len() ==> (#[trigger] self.mapping()[i] as int)
                    < self.retina_size(),
    {
    }

    /// The RAM address chunk `c` reads from a retina.
    pub open spec fn spec_address(self, retina: Seq<bool>, c: int) -> nat {
        chunk_address(
            retina,
            self.mapping(),
            c * (self.ram_num_bits() as int),
            spec_chunk_width(self.retina_size() as nat, self.ram_num_bits() as nat, c as nat),
        )
    }

    /// The counter chunk `c` answers for a retina: the count stored at the
    /// address that retina packs for it.
    pub open spec fn response(self, retina: Seq<bool>, c: int) -> u64 {
        self.count(c, self.spec_address(retina, c) as u64)
    }

    /// An empty discriminator for retinas of `retina_size` bits, reading
    /// them through `ram_address_mapping`.
    pub fn new(
        retina_size: usize,
        ram_num_bits: usize,
        ram_address_mapping: Vec<usize>,
        is_cumulative: bool,
    ) -> (result: Result<Discriminator, ConfigurationError>)
        requires
            retina_size >= 1,
            ram_address_mapping@.len() == retina_size,
            forall|i: int|
                0 <= i < ram_address_mapping@.len() ==> (#[trigger] ram_address_mapping@[i] as int)
                    < retina_size,
        ensures
            match result {
                Ok(d) => {
                    &&& 1 <= ram_num_bits <= 62
                    &&& d.wf()
                    &&& d.retina_size() == retina_size
                    &&& d.ram_num_bits() == ram_num_bits
                    &&& d.is_cumulative() == is_cumulative
                    &&& d.mapping() == ram_address_mapping@
                    &&& d.rams_count() == spec_rams_count(retina_size as nat, ram_num_bits as nat)
                    &&& forall|c: int, a: u64|
                        0 <= c < d.rams_count() ==> #[trigger] d.count(c, a) == 0
                },
                Err(e) => {
                    &&& e == ConfigurationError::NumBitsOutOfRange
                    &&& !(1 <= ram_num_bits <= 62)
                },
            },
    {
        if ram_num_bits < 1 || ram_num_bits > 62 {
            return Err(ConfigurationError::NumBitsOutOfRange);
        }
        proof {
            lemma_rams_count_le_retina(retina_size as nat, ram_num_bits as nat);
        }
        let rams_count: usize = if retina_size % ram_num_bits == 0 {
            retina_size / ram_num_bits
        } else {
            retina_size / ram_num_bits + 1
        };
        let mut rams: Vec<Ram> = Vec::new();
        let mut c: usize = 0;
        while c < rams_count
            invariant
                c <= rams_count,
                1 <= ram_num_bits <= 62,
                retina_size >= 1,
                rams_count == spec_rams_count(retina_size as nat, ram_num_bits as nat),
                rams@.len() == c,
                forall|k: int|
                    0 <= k < c ==> (#[trigger] rams@[k]).is_cumulative() == is_cumulative,
                forall|k: int|
                    0 <= k < c ==> (#[trigger] rams@[k]).address_space() == pow2(
                        spec_chunk_width(retina_size as nat, ram_num_bits as nat, k as nat),
                    ),
                forall|k: int, a: u64| 0 <= k < c ==> #[trigger] rams@[k].count(a) == 0,
            decreases rams_count - c,
        {
            proof {
                lemma_chunk_layout(retina_size as nat, ram_num_bits as nat, c as nat);
            }
            let start = c * ram_num_bits;
            let width = if retina_size - start >= ram_num_bits {
                ram_num_bits
            } else {
                retina_size - start
            };
            rams.push(Ram::new(width, is_cumulative));
            c = c + 1;
        }
        Ok(
            Discriminator {
                retina_size,
                ram_num_bits,
                rams_count,
                rams,
                ram_address_mapping,
                is_cumulative,
            },
        )
    }

    /// Bumps, in each RAM, the counter at the address the retina packs for
    /// it. Rejects retinas of the wrong length, leaving the state unchanged.
    pub fn train(&mut self, retina: &Vec<bool>) -> (result: Result<(), ConfigurationError>)
        requires
            old(self).wf(),
        ensures
            final(self).wf(),
            match result {
                Ok(()) => {
                    &&& retina@.len() == old(self).retina_size()
                    &&& train_rel(*old(self), *final(self), retina@)
                },
                Err(e) => {
                    &&& e == ConfigurationError::RetinaLengthMismatch
                    &&& retina@.len() != old(self).retina_size()
                    &&& *final(self) == *old(self)
                },
            },
    {
        if retina.len() != self.retina_size {
            return Err(ConfigurationError::RetinaLengthMismatch);
        }
        let ghost pre = *self;
        let rams_count = self.rams_count;
        let mut c: usize = 0;
        while c < rams_count
            invariant
                c <= rams_count,
                rams_count == pre.rams_count(),
                self.wf(),
                same_config(pre, *self),
                retina@.len() == pre.retina_size(),
                pre.wf(),
                forall|k: int, a: u64|
                    0 <= k < c ==> #[trigger] self.count(k, a) == (if a as nat
                        == pre.spec_address(retina@, k) {
                        bumped_count(pre.count(k, a), pre.is_cumulative())
                    } else {
                        pre.count(k, a)
                    }),
                forall|k: int, a: u64|
                    c <= k < rams_count ==> #[trigger] self.count(k, a) == pre.count(k, a),
            decreases rams_count - c,
        {
            proof {
                lemma_chunk_layout(
                    self.retina_size as nat,
                    self.ram_num_bits as nat,
                    c as nat,
                );
            }
            let start = c * self.ram_num_bits;
            let width = if self.retina_size - start >= self.ram_num_bits {
                self.ram_num_bits
            } else {
                self.retina_size - start
            };
            let address = compute_address(retina, &self.ram_address_mapping, start, width);
            let ghost before = *self;
            proof {
                assert((c as int + 1) * (self.ram_num_bits as int) == c as int
                    * (self.ram_num_bits as int) + self.ram_num_bits as int) by (nonlinear_arith);
                assert(width as nat == spec_chunk_width(
                    pre.retina_size() as nat,
                    pre.ram_num_bits() as nat,
                    c as nat,
                ));
                assert(address as nat == pre.spec_address(retina@, c as int));
            }
            let insert_result = self.rams[c].insert(address);
            match insert_result {
                Ok(()) => (),
                Err(_) => {
                    proof {
                        assert(false);
                    }
                },
            }
            proof {
                assert(self.count(c as int, address) == bumped_count(
                    before.count(c as int, address),
                    before.is_cumulative(),
                ));
                assert(forall|a: u64|
                    a != address ==> #[trigger] self.count(c as int, a) == before.count(c as int, a));
                assert(forall|k: int, a: u64|
                    0 <= k < rams_count && k != c ==> #[trigger] self.count(k, a) == before.count(
                        k,
                        a,
                    ));
            }
            c = c + 1;
        }
        Ok(())
    }

    /// Drops, in each RAM, the counter at the address the retina packs for
    /// it. Rejects retinas of the wrong length, leaving the state unchanged.
    pub fn forget(&mut self, retina: &Vec<bool>) -> (result: Result<(), ConfigurationError>)
        requires
            old(self).wf(),
        ensures
            final(self).wf(),
            match result {
                Ok(()) => {
                    &&& retina@.len() == old(self).retina_size()
                    &&& forget_rel(*old(self), *final(self), retina@)
                },
                Err(e) => {
                    &&& e == ConfigurationError::RetinaLengthMismatch
                    &&& retina@.len() != old(self).retina_size()
                    &&& *final(self) == *old(self)
                },
            },
    {
        if retina.len() != self.retina_size {
            return Err(ConfigurationError::RetinaLengthMismatch);
        }
        let ghost pre = *self;
        let rams_count = self.rams_count;
        let mut c: usize = 0;
        while c < rams_count
            invariant
                c <= rams_count,
                rams_count == pre.rams_count(),
                self.wf(),
                same_config(pre, *self),
                retina@.len() == pre.retina_size(),
                pre.wf(),
                forall|k: int, a: u64|
                    0 <= k < c ==> #[trigger] self.count(k, a) == (if a as nat
                        == pre.spec_address(retina@, k) {
                        dropped_count(pre.count(k, a), pre.is_cumulative())
                    } else {
                        pre.count(k, a)
                    }),
                forall|k: int, a: u64|
                    c <= k < rams_count ==> #[trigger] self.count(k, a) == pre.count(k, a),
            decreases rams_count - c,
        {
            proof {
                lemma_chunk_layout(
                    self.retina_size as nat,
                    self.ram_num_bits as nat,
                    c as nat,
                );
            }
            let start = c * self.ram_num_bits;
            let width = if self.retina_size - start >= self.ram_num_bits {
                self.ram_num_bits
            } else {
                self.retina_size - start
            };
            let address = compute_address(retina, &self.ram_address_mapping, start, width);
            let ghost before = *self;
            proof {
                assert((c as int + 1) * (self.ram_num_bits as int) == c as int
                    * (self.ram_num_bits as int) + self.ram_num_bits as int) by (nonlinear_arith);
                assert(width as nat == spec_chunk_width(
                    pre.retina_size() as nat,
                    pre.ram_num_bits() as nat,
                    c as nat,
                ));
                assert(address as nat == pre.spec_address(retina@, c as int));
            }
            let remove_result = self.rams[c].remove(address);
            match remove_result {
                Ok(()) => (),
                Err(_) => {
                    proof {
                        assert(false);
                    }
                },
            }
            proof {
                assert(self.count(c as int, address) == dropped_count(
                    before.count(c as int, address),
                    before.is_cumulative(),
                ));
                assert(forall|a: u64|
                    a != address ==> #[trigger] self.count(c as int, a) == before.count(c as int, a));
                assert(forall|k: int, a: u64|
                    0 <= k < rams_count && k != c ==> #[trigger] self.count(k, a) == before.count(
                        k,
                        a,
                    ));
            }
            c = c + 1;
        }
        Ok(())
    }

    /// The ordered per-RAM counters the retina addresses: the
    /// discriminator's raw votes, not yet aggregated into a probability.
    pub fn classify(&self, retina: &Vec<bool>) -> (result: Result<Vec<u64>, ConfigurationError>)
        requires
            self.wf(),
        ensures
            match result {
                Ok(votes) => {
                    &&& retina@.len() == self.retina_size()
                    &&& votes@.len() == self.rams_count()
                    &&& forall|c: int|
                        0 <= c < votes@.len() ==> #[trigger] votes@[c] == self.response(retina@, c)
                },
                Err(e) => {
                    &&& e == ConfigurationError::RetinaLengthMismatch
                    &&& retina@.len() != self.retina_size()
                },
            },
    {
        if retina.len() != self.retina_size {
            return Err(ConfigurationError::RetinaLengthMismatch);
        }
        let rams_count = self.rams_count;
        let mut votes: Vec<u64> = Vec::new();
        let mut c: usize = 0;
        while c < rams_count
            invariant
                c <= rams_count,
                rams_count == self.rams_count(),
                self.wf(),
                retina@.len() == self.retina_size(),
                votes@.len() == c,
                forall|k: int|
                    0 <= k < c ==> #[trigger] votes@[k] == self.response(retina@, k),
            decreases rams_count - c,
        {
            proof {
                lemma_chunk_layout(
                    self.retina_size as nat,
                    self.ram_num_bits as nat,
                    c as nat,
                );
            }
            let start = c * self.ram_num_bits;
            let width = if self.retina_size - start >= self.ram_num_bits {
                self.ram_num_bits
            } else {
                self.retina_size - start
            };
            let address = compute_address(retina, &self.ram_address_mapping, start, width);
            votes.push(self.rams[c].get(address));
            c = c + 1;
        }
        Ok(votes)
    }
}

/// Law: training a retina and then forgetting the same retina restores
/// every RAM counter to its value before the training. In cumulative mode
/// this holds whenever no counter is saturated; in non-cumulative mode it
/// holds when the addressed cells were unset before the training (a set
/// flag would be cleared, not restored).
pub proof fn lemma_train_forget_round_trip(
    pre: Discriminator,
    mid: Discriminator,
    post: Discriminator,
    retina: Seq<bool>,
)
    requires
        train_rel(pre, mid, retina),
        forget_rel(mid, post, retina),
        pre.is_cumulative() ==> forall|c: int, a: u64|
            0 <= c < pre.rams_count() ==> #[trigger] pre.count(c, a) < u64::MAX,
        !pre.is_cumulative() ==> forall|c: int|
            0 <= c < pre.rams_count() ==> #[trigger] pre.response(retina, c) == 0,
    ensures
        forall|c: int, a: u64|
            0 <= c < pre.rams_count() ==> #[trigger] post.count(c, a) == pre.count(c, a),
{
    assert forall|c: int, a: u64|
        0 <= c < pre.rams_count() implies #[trigger] post.count(c, a) == pre.count(c, a) by {
        assert(mid.spec_address(retina, c) == pre.spec_address(retina, c));
        if a as nat == pre.spec_address(retina, c) {
            if !pre.is_cumulative() {
                assert(pre.response(retina, c) == 0);
            }
        }
    }
}

} // verus!
