//! Random samples of the indices `[0, n)`, with or without replacement.

use crate::error::SamplingError;
use crate::generator::{next_state, output, taus_get, GeneratorState};
use crate::rounding::{
    lemma_rounded_product_below, lemma_small_is_exact, round_product, round_to_double,
};
use crate::shuffle::{is_permutation, lemma_shuffle_is_permutation, shuffle, shuffle_spec};
use crate::uniform::{draw_below, lemma_uniform_int_is_first_accepted, uniform_int_spec};
use vstd::prelude::*;

verus! {

/// Whether selection sampling takes the candidate at hand: `avail` candidates
/// are left, `need` are still to be taken, and the output `raw` stands for the
/// fraction `raw / 2^32`. The candidate is taken when `avail` times that
/// fraction, rounded as a double precision product is, is below `need`.
pub open spec fn takes(avail: u32, raw: u32, need: u32) -> bool {
    round_to_double(avail as nat * raw as nat) < need as nat * 0x1_0000_0000
}

/// Selection sampling from candidate `i` on, with `j` taken so far: one
/// output is drawn per candidate, until the candidates end or `count` are
/// taken. Gives the state after the last draw and the candidates taken.
pub open spec fn select_from(st: GeneratorState, n: u32, count: u32, i: nat, j: nat) -> (
    GeneratorState,
    Seq<u32>,
)
    decreases n - i,
{
    if i >= n || j >= count {
        (st, Seq::empty())
    } else {
        let next = next_state(st);
        if takes((n - i) as u32, output(next), (count - j) as u32) {
            let (end, rest) = select_from(next, n, count, i + 1, j + 1);
            (end, seq![i as u32] + rest)
        } else {
            select_from(next, n, count, i + 1, j)
        }
    }
}

/// `count` uniform integers below `n`, drawn one after the other.
pub open spec fn uniform_run(st: GeneratorState, count: nat, n: u32) -> (GeneratorState, Seq<u32>)
    decreases count,
{
    if count == 0 {
        (st, Seq::empty())
    } else {
        let (mid, init) = uniform_run(st, (count - 1) as nat, n);
        let (next, k) = uniform_int_spec(mid, n);
        (next, init.push(k))
    }
}

/// `items` in the order that `order` names: item `order[k]` at place `k`.
pub open spec fn arranged(items: Seq<u32>, order: Seq<u32>) -> Seq<u32> {
    Seq::new(order.len(), |k: int| items[order[k] as int])
}

/// The state and the sample that `choice` gives where it does not refuse.
pub open spec fn choice_spec(
    st: GeneratorState,
    count: u32,
    n: u32,
    replacement: bool,
    permutation: bool,
) -> (GeneratorState, Seq<u32>) {
    if replacement {
        uniform_run(st, count as nat, n)
    } else {
        let (mid, taken) = select_from(st, n, count, 0, 0);
        if permutation {
            let (end, order) = shuffle_spec(mid, taken.len() as u32);
            (end, arranged(taken, order))
        } else {
            (mid, taken)
        }
    }
}

/// The lesser of two counts.
pub open spec fn lesser(a: int, b: int) -> int {
    if a <= b {
        a
    } else {
        b
    }
}

/// `s` is strictly ascending.
pub open spec fn is_ascending(s: Seq<u32>) -> bool {
    forall|a: int, b: int| 0 <= a < b < s.len() ==> s[a] < s[b]
}

/// With no more than 2^21 candidates left the product has no more than 53
/// bits and is not rounded: the candidate is taken exactly when `avail` times
/// the fraction is below `need`.
pub proof fn lemma_takes_is_exact(avail: u32, raw: u32, need: u32)
    requires
        avail <= 0x20_0000,
    ensures
        takes(avail, raw, need) <==> avail * raw < need * 0x1_0000_0000,
{
    assert(avail * raw < 0x20_0000 * 0x1_0000_0000) by (nonlinear_arith)
        requires
            avail <= 0x20_0000,
            raw < 0x1_0000_0000,
    ;
    lemma_small_is_exact(avail as nat * raw as nat);
}

/// A candidate is always taken when no more candidates are left than are
/// still needed.
pub proof fn lemma_takes_when_scarce(avail: u32, raw: u32, need: u32)
    requires
        1 <= avail <= need,
    ensures
        takes(avail, raw, need),
{
    lemma_rounded_product_below(avail, raw);
    assert(avail as nat * 0x1_0000_0000 <= need as nat * 0x1_0000_0000);
}

/// Selection sampling takes as many candidates as are needed, or all that
/// are left if these are fewer; it takes them in ascending order.
pub proof fn lemma_select_from(st: GeneratorState, n: u32, count: u32, i: nat, j: nat)
    requires
        i <= n,
        j <= count,
    ensures
        select_from(st, n, count, i, j).1.len() == lesser(count - j, n - i),
        is_ascending(select_from(st, n, count, i, j).1),
        forall|k: int|
            0 <= k < select_from(st, n, count, i, j).1.len() ==> i <= (#[trigger] select_from(
                st,
                n,
                count,
                i,
                j,
            ).1[k]) < n,
    decreases n - i,
{
    if i < n && j < count {
        let next = next_state(st);
        if takes((n - i) as u32, output(next), (count - j) as u32) {
            lemma_select_from(next, n, count, i + 1, j + 1);
        } else {
            if n - i <= count - j {
                lemma_takes_when_scarce((n - i) as u32, output(next), (count - j) as u32);
            }
            lemma_select_from(next, n, count, i + 1, j);
        }
    }
}

/// `count` uniform integers below `n` are `count` values below `n`.
pub proof fn lemma_uniform_run(st: GeneratorState, count: nat, n: u32)
    requires
        n >= 1,
    ensures
        uniform_run(st, count, n).1.len() == count,
        forall|k: int| 0 <= k < count ==> (#[trigger] uniform_run(st, count, n).1[k]) < n,
    decreases count,
{
    if count > 0 {
        lemma_uniform_run(st, (count - 1) as nat, n);
        lemma_uniform_int_is_first_accepted(uniform_run(st, (count - 1) as nat, n).0, n);
    }
}

/// Arranging by a permutation changes the order of the items and nothing
/// else: the same values, as many of them, and no value twice where none
/// was twice before.
pub proof fn lemma_arranged_keeps_values(items: Seq<u32>, order: Seq<u32>)
    requires
        items.len() <= u32::MAX,
        is_permutation(order, items.len()),
    ensures
        arranged(items, order).len() == items.len(),
        arranged(items, order).to_set() == items.to_set(),
        items.no_duplicates() ==> arranged(items, order).no_duplicates(),
{
    let out = arranged(items, order);
    assert forall|v: u32| out.to_set().contains(v) <==> items.to_set().contains(v) by {
        if out.contains(v) {
            let k = choose|k: int| 0 <= k < out.len() && out[k] == v;
            assert(order[k] < items.len());
            assert(items[order[k] as int] == v);
        }
        if items.contains(v) {
            let at = choose|at: int| 0 <= at < items.len() && items[at] == v;
            assert(order.contains(at as u32));
            let k = choose|k: int| 0 <= k < order.len() && order[k] == at as u32;
            assert(out[k] == v);
        }
    }
    assert(out.to_set() =~= items.to_set());
}

/// With `permutation` the sample holds the values that it holds without,
/// drawn from the same state, in an order that the shuffle picks.
pub proof fn lemma_permutation_keeps_sample(st: GeneratorState, count: u32, n: u32)
    ensures
        choice_spec(st, count, n, false, true).1.len() == choice_spec(
            st,
            count,
            n,
            false,
            false,
        ).1.len(),
        choice_spec(st, count, n, false, true).1.to_set() == choice_spec(
            st,
            count,
            n,
            false,
            false,
        ).1.to_set(),
        choice_spec(st, count, n, false, true).1.no_duplicates(),
{
    let (mid, taken) = select_from(st, n, count, 0, 0);
    lemma_select_from(st, n, count, 0, 0);
    lemma_shuffle_is_permutation(mid, taken.len() as u32);
    lemma_arranged_keeps_values(taken, shuffle_spec(mid, taken.len() as u32).1);
}

/// Decides whether selection sampling takes the candidate at hand.
pub fn takes_candidate(avail: u32, raw: u32, need: u32) -> (b: bool)
    ensures
        b == takes(avail, raw, need),
{
    assert(avail * raw <= 0xFFFF_FFFF * 0xFFFF_FFFF) by (nonlinear_arith)
        requires
            avail <= 0xFFFF_FFFF,
            raw <= 0xFFFF_FFFF,
    ;
    let product: u64 = (avail as u64) * (raw as u64);
    let rounded: u64 = round_product(product);
    rounded < (need as u64) * 0x1_0000_0000
}

/// Draws a sample of the indices `0, 1, .., n - 1`.
///
/// With `replacement`, `count` uniform indices are drawn, so an index may
/// come more than once and `count` may exceed `n`; `n = 0` is refused, and
/// `permutation` changes nothing.
///
/// Without it, the indices are visited in ascending order and each is taken
/// with the chance that fills the sample exactly, one output per index, so
/// the sample is ascending. It holds `count` indices, or all `n` where
/// `count` exceeds `n`. With `permutation` the sample is then put into the
/// order that a shuffle of its places gives.
pub fn choice(rng: GeneratorState, count: u32, n: u32, replacement: bool, permutation: bool) -> (r:
    Result<(GeneratorState, Vec<u32>), SamplingError>)
    ensures
        (replacement && n == 0) <==> r is Err,
        r matches Err(e) ==> e == SamplingError::InvalidArgument,
        r matches Ok(drawn) ==> {
            &&& (drawn.0, drawn.1@) == choice_spec(rng, count, n, replacement, permutation)
            &&& forall|k: int| 0 <= k < drawn.1@.len() ==> #[trigger] drawn.1@[k] < n
            &&& replacement ==> drawn.1@.len() == count
            &&& !replacement ==> drawn.1@.len() == lesser(count as int, n as int)
                && drawn.1@.no_duplicates()
            &&& !replacement && !permutation ==> is_ascending(drawn.1@)
        },
{
    let mut st = rng;
    let mut a: Vec<u32> = Vec::new();
    if replacement {
        if n == 0 {
            return Err(SamplingError::InvalidArgument);
        }
        let mut k: u32 = 0;
        while k < count
            invariant
                k <= count,
                n >= 1,
                (st, a@) == uniform_run(rng, k as nat, n),
            decreases count - k,
        {
            let (next, val) = draw_below(st, n);
            st = next;
            a.push(val);
            k += 1;
        }
        proof {
            lemma_uniform_run(rng, count as nat, n);
        }
        return Ok((st, a));
    }
    let mut i: u32 = 0;
    let mut j: u32 = 0;
    while i < n && j < count
        invariant
            i <= n,
            j <= count,
            a@.len() == j,
            select_from(rng, n, count, 0, 0) == (
                select_from(st, n, count, i as nat, j as nat).0,
                a@ + select_from(st, n, count, i as nat, j as nat).1,
            ),
        decreases n - i,
    {
        let (next, raw) = taus_get(st);
        let ghost rest = select_from(next, n, count, (i + 1) as nat, (j + 1) as nat).1;
        if takes_candidate(n - i, raw, count - j) {
            assert(a@.push(i) + rest == a@ + (seq![i] + rest));
            a.push(i);
            j += 1;
        }
        st = next;
        i += 1;
    }
    proof {
        assert(a@ + Seq::<u32>::empty() == a@);
        lemma_select_from(rng, n, count, 0, 0);
        lemma_ascending_is_distinct(a@);
    }
    if permutation {
        let len: u32 = j;
        let (end, order) = shuffle(st, len);
        let mut arranged_items: Vec<u32> = Vec::new();
        let mut k: usize = 0;
        while k < order.len()
            invariant
                k <= order@.len(),
                order@.len() == a@.len(),
                is_permutation(order@, a@.len()),
                arranged_items@ == arranged(a@, order@.take(k as int)),
            decreases order@.len() - k,
        {
            let at: u32 = order[k];
            arranged_items.push(a[at as usize]);
            assert(order@.take(k + 1) == order@.take(k as int).push(order@[k as int]));
            k += 1;
        }
        proof {
            assert(order@.take(k as int) == order@);
            lemma_arranged_keeps_values(a@, order@);
        }
        return Ok((end, arranged_items));
    }
    Ok((st, a))
}

/// A strictly ascending sequence holds no value twice.
pub proof fn lemma_ascending_is_distinct(s: Seq<u32>)
    requires
        is_ascending(s),
    ensures
        s.no_duplicates(),
{
    assert forall|a: int, b: int| 0 <= a < s.len() && 0 <= b < s.len() && a != b implies s[a]
        != s[b] by {
        if a < b {
            assert(s[a] < s[b]);
        } else {
            assert(s[b] < s[a]);
        }
    }
}

} // verus!
