//! Sampling of an index from a discrete distribution by the alias method.
//!
//! An alias table cuts `[0, 1)` into `bucket_count` equal buckets. Each bucket
//! has a cutoff and an alias: a fraction that falls in bucket `c` gives `c`
//! where it is below the cutoff of `c`, and the alias of `c` otherwise. So one
//! output decides both the bucket and the side of the cutoff.
//!
//! A cutoff is a double precision number, held here by its bit pattern.

use crate::error::SamplingError;
use crate::fraction::{below_cutoff, is_below_cutoff, ONE_BITS};
use crate::generator::{advance, nth_output, taus_get, GeneratorState};
use crate::rounding::{
    lemma_rounded_product_below, lemma_small_is_exact, round_product, round_to_double,
};
use vstd::prelude::*;

verus! {

/// What an alias table holds.
pub struct AliasTableView {
    pub bucket_count: u32,
    pub alias_of: Seq<u32>,
    pub cutoff_bits: Seq<u64>,
}

/// A table is valid when it has a bucket, an alias and a cutoff for each
/// bucket, and every alias names a bucket.
pub open spec fn is_valid_table(t: AliasTableView) -> bool {
    &&& t.bucket_count >= 1
    &&& t.alias_of.len() == t.bucket_count
    &&& t.cutoff_bits.len() == t.bucket_count
    &&& forall|i: int| 0 <= i < t.bucket_count ==> #[trigger] t.alias_of[i] < t.bucket_count
}

/// A valid alias table. It is built once and sampled from any number of times.
pub struct AliasTable {
    bucket_count: u32,
    alias_of: Vec<u32>,
    cutoff_bits: Vec<u64>,
}

impl View for AliasTable {
    type V = AliasTableView;

    closed spec fn view(&self) -> AliasTableView {
        AliasTableView {
            bucket_count: self.bucket_count,
            alias_of: self.alias_of@,
            cutoff_bits: self.cutoff_bits@,
        }
    }
}

impl AliasTable {
    #[verifier::type_invariant]
    spec fn holds_valid_table(&self) -> bool {
        is_valid_table(self@)
    }

    /// Makes a table of its three parts, if they form a valid one.
    pub fn new(bucket_count: u32, alias_of: Vec<u32>, cutoff_bits: Vec<u64>) -> (r: Result<
        AliasTable,
        SamplingError,
    >)
        ensures
            r is Ok <==> is_valid_table(
                AliasTableView { bucket_count, alias_of: alias_of@, cutoff_bits: cutoff_bits@ },
            ),
            r matches Ok(t) ==> t@ == (AliasTableView {
                bucket_count,
                alias_of: alias_of@,
                cutoff_bits: cutoff_bits@,
            }),
            r matches Err(e) ==> e == SamplingError::InvalidArgument,
    {
        if bucket_count == 0 || alias_of.len() != bucket_count as usize || cutoff_bits.len()
            != bucket_count as usize {
            return Err(SamplingError::InvalidArgument);
        }
        let mut i: usize = 0;
        while i < alias_of.len()
            invariant
                i <= alias_of@.len(),
                forall|k: int| 0 <= k < i ==> #[trigger] alias_of@[k] < bucket_count,
            decreases alias_of@.len() - i,
        {
            if alias_of[i] >= bucket_count {
                return Err(SamplingError::InvalidArgument);
            }
            i += 1;
        }
        Ok(AliasTable { bucket_count, alias_of, cutoff_bits })
    }

    /// Makes a table of parts that are known to form a valid one.
    pub(crate) fn from_valid_parts(
        bucket_count: u32,
        alias_of: Vec<u32>,
        cutoff_bits: Vec<u64>,
    ) -> (t: AliasTable)
        requires
            is_valid_table(
                AliasTableView { bucket_count, alias_of: alias_of@, cutoff_bits: cutoff_bits@ },
            ),
        ensures
            t@ == (AliasTableView { bucket_count, alias_of: alias_of@, cutoff_bits: cutoff_bits@ }),
    {
        AliasTable { bucket_count, alias_of, cutoff_bits }
    }

    /// The number of buckets.
    pub fn bucket_count(&self) -> (k: u32)
        ensures
            k == self@.bucket_count,
            is_valid_table(self@),
    {
        proof {
            use_type_invariant(self);
        }
        self.bucket_count
    }

    /// The alias of each bucket.
    pub fn alias_of(&self) -> (a: &Vec<u32>)
        ensures
            a@ == self@.alias_of,
            is_valid_table(self@),
    {
        proof {
            use_type_invariant(self);
        }
        &self.alias_of
    }

    /// The bit pattern of the cutoff of each bucket.
    pub fn cutoff_bits(&self) -> (f: &Vec<u64>)
        ensures
            f@ == self@.cutoff_bits,
            is_valid_table(self@),
    {
        proof {
            use_type_invariant(self);
        }
        &self.cutoff_bits
    }
}

/// The bucket that the fraction `raw / 2^32` falls in: the whole part of the
/// fraction times `buckets`, the product rounded as a double precision
/// product is.
pub open spec fn bucket_of(raw: u32, buckets: u32) -> nat {
    round_to_double(buckets as nat * raw as nat) / 0x1_0000_0000
}

/// The index that the output `raw` gives on table `t`.
pub open spec fn discrete_pick(raw: u32, t: AliasTableView) -> u32 {
    let c = bucket_of(raw, t.bucket_count) as int;
    let f = t.cutoff_bits[c];
    if f == ONE_BITS || below_cutoff(raw, f) {
        c as u32
    } else {
        t.alias_of[c]
    }
}

/// The indices that `count` draws from `st` give on table `t`.
pub open spec fn discrete_spec(st: GeneratorState, count: nat, t: AliasTableView) -> Seq<u32> {
    Seq::new(count, |i: int| discrete_pick(nth_output(st, (i + 1) as nat), t))
}

/// Every output falls in one of the buckets.
pub proof fn lemma_bucket_in_range(raw: u32, buckets: u32)
    requires
        buckets >= 1,
    ensures
        bucket_of(raw, buckets) < buckets,
{
    lemma_rounded_product_below(buckets, raw);
}

/// With no more than 2^21 buckets the product has no more than 53 bits and is
/// not rounded: the bucket is the whole part of `buckets * raw / 2^32`.
pub proof fn lemma_bucket_is_exact(raw: u32, buckets: u32)
    requires
        buckets <= 0x20_0000,
    ensures
        bucket_of(raw, buckets) == (buckets * raw) / 0x1_0000_0000,
{
    assert(buckets * raw < 0x20_0000 * 0x1_0000_0000) by (nonlinear_arith)
        requires
            buckets <= 0x20_0000,
            raw < 0x1_0000_0000,
    ;
    lemma_small_is_exact(buckets as nat * raw as nat);
}

/// On a valid table every output gives the index of a bucket.
pub proof fn lemma_pick_in_range(raw: u32, t: AliasTableView)
    requires
        is_valid_table(t),
    ensures
        discrete_pick(raw, t) < t.bucket_count,
{
    lemma_bucket_in_range(raw, t.bucket_count);
}

/// Draws `count` indices from the distribution that `table` was made for:
/// each output picks its bucket, and gives the bucket where its fraction is
/// below the bucket's cutoff or the cutoff is one, and the bucket's alias
/// otherwise.
pub fn discrete(rng: GeneratorState, count: u32, table: &AliasTable) -> (r: (
    GeneratorState,
    Vec<u32>,
))
    ensures
        r.0 == advance(rng, count as nat),
        r.1@ == discrete_spec(rng, count as nat, table@),
        forall|i: int| 0 <= i < count ==> #[trigger] r.1@[i] < table@.bucket_count,
{
    proof {
        use_type_invariant(table);
    }
    let mut st = rng;
    let mut a: Vec<u32> = Vec::new();
    let mut i: u32 = 0;
    while i < count
        invariant
            i <= count,
            is_valid_table(table@),
            table@.bucket_count == table.bucket_count,
            table@.alias_of == table.alias_of@,
            table@.cutoff_bits == table.cutoff_bits@,
            st == advance(rng, i as nat),
            a@ == discrete_spec(rng, i as nat, table@),
            forall|k: int| 0 <= k < i ==> #[trigger] a@[k] < table@.bucket_count,
        decreases count - i,
    {
        let (next, raw) = taus_get(st);
        st = next;
        proof {
            lemma_pick_in_range(raw, table@);
            lemma_bucket_in_range(raw, table@.bucket_count);
            assert(table.bucket_count * raw <= 0xFFFF_FFFF * 0xFFFF_FFFF) by (nonlinear_arith)
                requires
                    table.bucket_count <= 0xFFFF_FFFF,
                    raw <= 0xFFFF_FFFF,
            ;
        }
        let scaled: u64 = round_product((table.bucket_count as u64) * (raw as u64));
        let c: usize = (scaled / 0x1_0000_0000) as usize;
        let f: u64 = table.cutoff_bits[c];
        if f == ONE_BITS || is_below_cutoff(raw, f) {
            a.push(c as u32);
        } else {
            a.push(table.alias_of[c]);
        }
        i += 1;
    }
    (st, a)
}

} // verus!
