//! The pairing of buckets from which an alias table is made.
//!
//! The alias method starts from the share of each bucket in the whole. A
//! bucket whose share is below the mean share is small, any other is big.
//! Small buckets are taken one by one: each gets a big bucket as its alias
//! and fills up to the mean from that bucket's share, which may turn the big
//! bucket into a small one. A bucket that finds no partner, or whose share
//! has come down to the mean exactly, keeps itself.
//!
//! The shares are the caller's, who computes with them as it likes. The
//! builder decides which buckets meet, in which order, and records the
//! aliases; the caller reports how a share stands to the mean.

use crate::discrete::{AliasTable, AliasTableView};
use crate::error::SamplingError;
use vstd::prelude::*;

verus! {

/// How the share of a bucket stands to the mean share.
#[derive(Clone, Copy, Debug, PartialEq, Eq)]
pub enum Level {
    Below,
    At,
    Above,
}

/// What the builder has decided in one step.
#[derive(Clone, Copy, Debug, PartialEq, Eq)]
pub enum Pairing {
    /// Bucket `small` gets bucket `big` as its alias. The caller moves what
    /// `small` lacks to the mean from the share of `big`, and reports with
    /// the next step how the share of `big` then stands to the mean.
    Pair { small: u32, big: u32 },
    /// `bucket` keeps itself: it is its own alias, and all of it is its own.
    Keep { bucket: u32 },
    /// Every bucket has its alias.
    Done,
}

/// What a builder holds: the alias of each bucket as far as decided, the big
/// and the small buckets that wait, the last to come being the first to go,
/// and the big bucket of the last pairing while its new level is not known.
pub struct AliasBuilderView {
    pub alias_of: Seq<u32>,
    pub bigs: Seq<u32>,
    pub smalls: Seq<u32>,
    pub pending: Option<u32>,
}

/// A builder is valid when it has a bucket, not more than 2^32 - 1 of them,
/// and every alias and every bucket that waits is one of them.
pub open spec fn is_valid_builder(v: AliasBuilderView) -> bool {
    &&& 1 <= v.alias_of.len() <= u32::MAX
    &&& forall|i: int| 0 <= i < v.alias_of.len() ==> #[trigger] v.alias_of[i] < v.alias_of.len()
    &&& forall|i: int| 0 <= i < v.bigs.len() ==> #[trigger] v.bigs[i] < v.alias_of.len()
    &&& forall|i: int| 0 <= i < v.smalls.len() ==> #[trigger] v.smalls[i] < v.alias_of.len()
    &&& v.pending matches Some(b) ==> b < v.alias_of.len()
}

/// The buckets below `upto` whose flag is `wanted`, in ascending order.
pub open spec fn buckets_flagged(flags: Seq<bool>, wanted: bool, upto: nat) -> Seq<u32>
    decreases upto,
{
    if upto == 0 {
        Seq::empty()
    } else {
        let before = buckets_flagged(flags, wanted, (upto - 1) as nat);
        if flags[upto - 1] == wanted {
            before.push((upto - 1) as u32)
        } else {
            before
        }
    }
}

/// The builder at the start: no alias decided, the buckets flagged as below
/// the mean waiting as small and the others as big, the highest to go first.
pub open spec fn builder_at_start(below_mean: Seq<bool>) -> AliasBuilderView {
    AliasBuilderView {
        alias_of: Seq::new(below_mean.len(), |i: int| 0u32),
        bigs: buckets_flagged(below_mean, false, below_mean.len()),
        smalls: buckets_flagged(below_mean, true, below_mean.len()),
        pending: None,
    }
}

/// The builder once the level of the pending bucket is known: below the mean
/// it waits as a small bucket, above as a big one, and at the mean it keeps
/// itself. Without a pending bucket nothing changes.
pub open spec fn with_report(v: AliasBuilderView, level: Level) -> AliasBuilderView {
    match v.pending {
        None => v,
        Some(b) => match level {
            Level::Below => AliasBuilderView {
                alias_of: v.alias_of,
                bigs: v.bigs,
                smalls: v.smalls.push(b),
                pending: None,
            },
            Level::Above => AliasBuilderView {
                alias_of: v.alias_of,
                bigs: v.bigs.push(b),
                smalls: v.smalls,
                pending: None,
            },
            Level::At => AliasBuilderView {
                alias_of: v.alias_of.update(b as int, b),
                bigs: v.bigs,
                smalls: v.smalls,
                pending: None,
            },
        },
    }
}

/// The decision on a builder without a pending bucket: the small bucket that
/// came last meets the big bucket that came last, or keeps itself where no
/// big bucket waits; without small buckets, the big bucket that came last
/// keeps itself; without any, the work is done.
pub open spec fn with_pairing(v: AliasBuilderView) -> (AliasBuilderView, Pairing) {
    if v.smalls.len() > 0 {
        let s = v.smalls.last();
        if v.bigs.len() > 0 {
            let b = v.bigs.last();
            (
                AliasBuilderView {
                    alias_of: v.alias_of.update(s as int, b),
                    bigs: v.bigs.drop_last(),
                    smalls: v.smalls.drop_last(),
                    pending: Some(b),
                },
                Pairing::Pair { small: s, big: b },
            )
        } else {
            (
                AliasBuilderView {
                    alias_of: v.alias_of.update(s as int, s),
                    bigs: v.bigs,
                    smalls: v.smalls.drop_last(),
                    pending: v.pending,
                },
                Pairing::Keep { bucket: s },
            )
        }
    } else if v.bigs.len() > 0 {
        let b = v.bigs.last();
        (
            AliasBuilderView {
                alias_of: v.alias_of.update(b as int, b),
                bigs: v.bigs.drop_last(),
                smalls: v.smalls,
                pending: v.pending,
            },
            Pairing::Keep { bucket: b },
        )
    } else {
        (v, Pairing::Done)
    }
}

/// One step: the report on the pending bucket is taken in, then the next
/// pairing is decided.
pub open spec fn step(v: AliasBuilderView, level: Level) -> (AliasBuilderView, Pairing) {
    with_pairing(with_report(v, level))
}

/// The number of buckets whose alias is still open.
pub open spec fn open_buckets(v: AliasBuilderView) -> nat {
    v.bigs.len() + v.smalls.len() + if v.pending is Some {
        1nat
    } else {
        0nat
    }
}

/// Whether bucket `c` waits: as a big bucket, as a small one, or for the
/// report on it.
pub open spec fn is_waiting(v: AliasBuilderView, c: u32) -> bool {
    v.bigs.contains(c) || v.smalls.contains(c) || v.pending == Some(c)
}

/// Whether the alias of bucket `c` is decided for good: it is a bucket, and
/// it does not wait.
pub open spec fn is_closed(v: AliasBuilderView, c: u32) -> bool {
    c < v.alias_of.len() && !is_waiting(v, c)
}

/// A builder is tidy when no bucket waits twice.
pub open spec fn is_tidy(v: AliasBuilderView) -> bool {
    &&& v.bigs.no_duplicates()
    &&& v.smalls.no_duplicates()
    &&& forall|c: u32| !(v.bigs.contains(c) && v.smalls.contains(c))
    &&& v.pending matches Some(b) ==> !v.bigs.contains(b) && !v.smalls.contains(b)
}

/// Every step but the last closes a bucket, and the last finds none open: so
/// the steps are at most one more than the buckets. A valid builder stays
/// valid.
pub proof fn lemma_step_closes_a_bucket(v: AliasBuilderView, level: Level)
    requires
        is_valid_builder(v),
    ensures
        is_valid_builder(step(v, level).0),
        step(v, level).0.alias_of.len() == v.alias_of.len(),
        step(v, level).1 != Pairing::Done ==> open_buckets(step(v, level).0) < open_buckets(v),
        step(v, level).1 == Pairing::Done ==> open_buckets(step(v, level).0) == 0,
        step(v, level).1 matches Pairing::Pair { small, big } ==> small < v.alias_of.len() && big
            < v.alias_of.len(),
        step(v, level).1 matches Pairing::Keep { bucket } ==> bucket < v.alias_of.len(),
{
}

/// The flagged buckets are buckets with that flag, in ascending order, and
/// there are no more of them than flags.
pub proof fn lemma_buckets_flagged(flags: Seq<bool>, wanted: bool, upto: nat)
    requires
        upto <= flags.len() <= u32::MAX,
    ensures
        buckets_flagged(flags, wanted, upto).len() <= upto,
        forall|i: int|
            0 <= i < buckets_flagged(flags, wanted, upto).len() ==> (#[trigger] buckets_flagged(
                flags,
                wanted,
                upto,
            )[i]) < upto && flags[buckets_flagged(flags, wanted, upto)[i] as int] == wanted,
        forall|i: int, j: int|
            0 <= i < j < buckets_flagged(flags, wanted, upto).len() ==> buckets_flagged(
                flags,
                wanted,
                upto,
            )[i] < buckets_flagged(flags, wanted, upto)[j],
    decreases upto,
{
    if upto > 0 {
        lemma_buckets_flagged(flags, wanted, (upto - 1) as nat);
    }
}

/// In a tidy builder a step leaves tidy what it finds tidy, and a bucket
/// that is closed stays closed and keeps its alias: each alias is decided
/// once.
pub proof fn lemma_closed_stays_closed(v: AliasBuilderView, level: Level, c: u32)
    requires
        is_valid_builder(v),
        is_tidy(v),
    ensures
        is_tidy(step(v, level).0),
        is_closed(v, c) ==> is_closed(step(v, level).0, c) && step(v, level).0.alias_of[c as int]
            == v.alias_of[c as int],
        step(v, level).1 matches Pairing::Pair { small, big } ==> is_waiting(
            with_report(v, level),
            small,
        ) && is_closed(step(v, level).0, small) && step(v, level).0.pending == Some(big),
        step(v, level).1 matches Pairing::Keep { bucket } ==> is_waiting(
            with_report(v, level),
            bucket,
        ) && is_closed(step(v, level).0, bucket),
{
    let w = with_report(v, level);
    lemma_report_keeps_tidy(v, level, c);
    lemma_pairing_keeps_tidy(w, c);
}

/// Taking in a report leaves a tidy builder tidy, and closes no bucket but
/// the pending one.
proof fn lemma_report_keeps_tidy(v: AliasBuilderView, level: Level, c: u32)
    requires
        is_valid_builder(v),
        is_tidy(v),
    ensures
        is_valid_builder(with_report(v, level)),
        is_tidy(with_report(v, level)),
        with_report(v, level).pending is None,
        is_closed(v, c) ==> is_closed(with_report(v, level), c) && with_report(
            v,
            level,
        ).alias_of[c as int] == v.alias_of[c as int],
{
    let w = with_report(v, level);
    match v.pending {
        None => {},
        Some(b) => {
            assert forall|x: u32| w.smalls.contains(x) implies v.smalls.contains(x) || x == b by {
                let i = choose|i: int| 0 <= i < w.smalls.len() && w.smalls[i] == x;
                if i < v.smalls.len() {
                    assert(v.smalls[i] == x);
                }
            }
            assert forall|x: u32| w.bigs.contains(x) implies v.bigs.contains(x) || x == b by {
                let i = choose|i: int| 0 <= i < w.bigs.len() && w.bigs[i] == x;
                if i < v.bigs.len() {
                    assert(v.bigs[i] == x);
                }
            }
            assert(w.smalls.no_duplicates()) by {
                assert forall|i: int, j: int|
                    0 <= i < w.smalls.len() && 0 <= j < w.smalls.len() && i != j implies w.smalls[i]
                    != w.smalls[j] by {
                    if i < v.smalls.len() {
                        assert(v.smalls.contains(w.smalls[i]));
                    }
                    if j < v.smalls.len() {
                        assert(v.smalls.contains(w.smalls[j]));
                    }
                }
            }
            assert(w.bigs.no_duplicates()) by {
                assert forall|i: int, j: int|
                    0 <= i < w.bigs.len() && 0 <= j < w.bigs.len() && i != j implies w.bigs[i]
                    != w.bigs[j] by {
                    if i < v.bigs.len() {
                        assert(v.bigs.contains(w.bigs[i]));
                    }
                    if j < v.bigs.len() {
                        assert(v.bigs.contains(w.bigs[j]));
                    }
                }
            }
        },
    }
}

/// Deciding a pairing leaves a tidy builder tidy, and closes no bucket but
/// one that waits.
proof fn lemma_pairing_keeps_tidy(v: AliasBuilderView, c: u32)
    requires
        is_valid_builder(v),
        is_tidy(v),
        v.pending is None,
    ensures
        is_tidy(with_pairing(v).0),
        is_closed(v, c) ==> is_closed(with_pairing(v).0, c) && with_pairing(v).0.alias_of[c as int]
            == v.alias_of[c as int],
        with_pairing(v).1 matches Pairing::Pair { small, big } ==> is_waiting(v, small)
            && is_closed(with_pairing(v).0, small) && with_pairing(v).0.pending == Some(big),
        with_pairing(v).1 matches Pairing::Keep { bucket } ==> is_waiting(v, bucket) && is_closed(
            with_pairing(v).0,
            bucket,
        ),
{
    let w = with_pairing(v).0;
    assert forall|x: u32| w.smalls.contains(x) implies v.smalls.contains(x) by {
        let i = choose|i: int| 0 <= i < w.smalls.len() && w.smalls[i] == x;
        assert(v.smalls[i] == x);
    }
    assert forall|x: u32| w.bigs.contains(x) implies v.bigs.contains(x) by {
        let i = choose|i: int| 0 <= i < w.bigs.len() && w.bigs[i] == x;
        assert(v.bigs[i] == x);
    }
    if v.smalls.len() > 0 {
        let s = v.smalls.last();
        assert(v.smalls[v.smalls.len() - 1] == s);
        assert(v.smalls.contains(s));
        assert(!w.smalls.contains(s)) by {
            if w.smalls.contains(s) {
                let i = choose|i: int| 0 <= i < w.smalls.len() && w.smalls[i] == s;
                assert(v.smalls[i] == v.smalls[v.smalls.len() - 1]);
            }
        }
        if v.bigs.len() > 0 {
            let b = v.bigs.last();
            assert(v.bigs[v.bigs.len() - 1] == b);
            assert(v.bigs.contains(b));
            assert(!w.bigs.contains(b)) by {
                if w.bigs.contains(b) {
                    let i = choose|i: int| 0 <= i < w.bigs.len() && w.bigs[i] == b;
                    assert(v.bigs[i] == v.bigs[v.bigs.len() - 1]);
                }
            }
        }
    } else if v.bigs.len() > 0 {
        let b = v.bigs.last();
        assert(v.bigs[v.bigs.len() - 1] == b);
        assert(v.bigs.contains(b));
        assert(!w.bigs.contains(b)) by {
            if w.bigs.contains(b) {
                let i = choose|i: int| 0 <= i < w.bigs.len() && w.bigs[i] == b;
                assert(v.bigs[i] == v.bigs[v.bigs.len() - 1]);
            }
        }
    }
}

/// At the start the builder is valid and every bucket is open: so the work
/// is done after one step more than there are buckets, at the latest.
pub proof fn lemma_start_is_valid(below_mean: Seq<bool>)
    requires
        1 <= below_mean.len() <= u32::MAX,
    ensures
        is_valid_builder(builder_at_start(below_mean)),
        is_tidy(builder_at_start(below_mean)),
        open_buckets(builder_at_start(below_mean)) == below_mean.len(),
{
    let v = builder_at_start(below_mean);
    lemma_buckets_flagged(below_mean, false, below_mean.len());
    lemma_buckets_flagged(below_mean, true, below_mean.len());
    lemma_every_bucket_is_flagged(below_mean, below_mean.len());
    assert forall|c: u32| !(v.bigs.contains(c) && v.smalls.contains(c)) by {
        if v.bigs.contains(c) && v.smalls.contains(c) {
            let i = choose|i: int| 0 <= i < v.bigs.len() && v.bigs[i] == c;
            let j = choose|j: int| 0 <= j < v.smalls.len() && v.smalls[j] == c;
            assert(below_mean[v.bigs[i] as int] == false);
            assert(below_mean[v.smalls[j] as int] == true);
        }
    }
}

/// Each bucket is flagged one way or the other.
proof fn lemma_every_bucket_is_flagged(flags: Seq<bool>, upto: nat)
    ensures
        buckets_flagged(flags, false, upto).len() + buckets_flagged(flags, true, upto).len()
            == upto,
    decreases upto,
{
    if upto > 0 {
        lemma_every_bucket_is_flagged(flags, (upto - 1) as nat);
    }
}

/// The decisions of the alias method, one step at a time.
pub struct AliasBuilder {
    alias_of: Vec<u32>,
    bigs: Vec<u32>,
    smalls: Vec<u32>,
    pending: Option<u32>,
}

impl View for AliasBuilder {
    type V = AliasBuilderView;

    closed spec fn view(&self) -> AliasBuilderView {
        AliasBuilderView {
            alias_of: self.alias_of@,
            bigs: self.bigs@,
            smalls: self.smalls@,
            pending: self.pending,
        }
    }
}

impl AliasBuilder {
    #[verifier::type_invariant]
    spec fn holds_valid_builder(&self) -> bool {
        is_valid_builder(self@) && is_tidy(self@)
    }

    /// Starts the work on as many buckets as there are flags: a flag says
    /// whether the share of its bucket is below the mean share. No bucket, or
    /// more than 2^32 - 1 of them, is refused.
    pub fn new(below_mean: &Vec<bool>) -> (r: Result<AliasBuilder, SamplingError>)
        ensures
            r is Ok <==> 1 <= below_mean@.len() <= u32::MAX,
            r matches Ok(builder) ==> builder@ == builder_at_start(below_mean@),
            r matches Err(e) ==> e == SamplingError::InvalidArgument,
    {
        if below_mean.len() == 0 || below_mean.len() > u32::MAX as usize {
            return Err(SamplingError::InvalidArgument);
        }
        let count: u32 = below_mean.len() as u32;
        let mut alias_of: Vec<u32> = Vec::new();
        let mut bigs: Vec<u32> = Vec::new();
        let mut smalls: Vec<u32> = Vec::new();
        let mut k: u32 = 0;
        while k < count
            invariant
                k <= count,
                count == below_mean@.len(),
                alias_of@ == Seq::new(k as nat, |i: int| 0u32),
                bigs@ == buckets_flagged(below_mean@, false, k as nat),
                smalls@ == buckets_flagged(below_mean@, true, k as nat),
            decreases count - k,
        {
            alias_of.push(0);
            if below_mean[k as usize] {
                smalls.push(k);
            } else {
                bigs.push(k);
            }
            k += 1;
        }
        proof {
            lemma_start_is_valid(below_mean@);
        }
        Ok(AliasBuilder { alias_of, bigs, smalls, pending: None })
    }

    /// The number of buckets.
    pub fn bucket_count(&self) -> (k: u32)
        ensures
            k == self@.alias_of.len(),
            is_valid_builder(self@),
            is_tidy(self@),
    {
        proof {
            use_type_invariant(self);
        }
        self.alias_of.len() as u32
    }

    /// Takes the next step, and gives the builder after it with the pairing
    /// decided. `level` reports how the share of the big bucket of the
    /// pairing before stands to the mean, now that the small bucket of that
    /// pairing has been filled from it; it is not read where the step before
    /// gave no pairing.
    pub fn next(self, level: Level) -> (r: (AliasBuilder, Pairing))
        ensures
            r.0@ == step(self@, level).0,
            r.1 == step(self@, level).1,
            is_valid_builder(self@),
            is_tidy(self@),
    {
        proof {
            use_type_invariant(&self);
            lemma_step_closes_a_bucket(self@, level);
            lemma_closed_stays_closed(self@, level, 0);
        }
        let AliasBuilder { mut alias_of, mut bigs, mut smalls, pending } = self;
        match pending {
            Some(b) => {
                match level {
                    Level::Below => {
                        smalls.push(b);
                    },
                    Level::Above => {
                        bigs.push(b);
                    },
                    Level::At => {
                        alias_of.set(b as usize, b);
                    },
                }
            },
            None => {},
        }
        let ghost reported = AliasBuilderView {
            alias_of: alias_of@,
            bigs: bigs@,
            smalls: smalls@,
            pending: None,
        };
        assert(reported == with_report(self@, level));
        if smalls.len() > 0 {
            let s: u32 = smalls.pop().unwrap();
            if bigs.len() > 0 {
                let b: u32 = bigs.pop().unwrap();
                alias_of.set(s as usize, b);
                (
                    AliasBuilder { alias_of, bigs, smalls, pending: Some(b) },
                    Pairing::Pair { small: s, big: b },
                )
            } else {
                alias_of.set(s as usize, s);
                (AliasBuilder { alias_of, bigs, smalls, pending: None }, Pairing::Keep { bucket: s })
            }
        } else if bigs.len() > 0 {
            let b: u32 = bigs.pop().unwrap();
            alias_of.set(b as usize, b);
            (AliasBuilder { alias_of, bigs, smalls, pending: None }, Pairing::Keep { bucket: b })
        } else {
            (AliasBuilder { alias_of, bigs, smalls, pending: None }, Pairing::Done)
        }
    }

    /// Whether every bucket has its alias.
    pub fn is_done(&self) -> (done: bool)
        ensures
            done == (open_buckets(self@) == 0),
    {
        self.bigs.len() == 0 && self.smalls.len() == 0 && self.pending.is_none()
    }

    /// Makes the table of the aliases decided and the cutoffs given, one
    /// cutoff for each bucket by its bit pattern. This is refused while a
    /// bucket is open, and where the cutoffs are not as many as the buckets.
    pub fn finish(self, cutoff_bits: Vec<u64>) -> (r: Result<AliasTable, SamplingError>)
        ensures
            r is Ok <==> open_buckets(self@) == 0 && cutoff_bits@.len() == self@.alias_of.len(),
            r matches Ok(t) ==> t@ == (AliasTableView {
                bucket_count: self@.alias_of.len() as u32,
                alias_of: self@.alias_of,
                cutoff_bits: cutoff_bits@,
            }),
            r matches Err(e) ==> e == SamplingError::InvalidArgument,
    {
        proof {
            use_type_invariant(&self);
        }
        if !self.is_done() || cutoff_bits.len() != self.alias_of.len() {
            return Err(SamplingError::InvalidArgument);
        }
        let count: u32 = self.alias_of.len() as u32;
        Ok(AliasTable::from_valid_parts(count, self.alias_of, cutoff_bits))
    }
}

} // verus!
