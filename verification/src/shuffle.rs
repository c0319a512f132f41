//! A random permutation of `[0, n)` by the backward Fisher-Yates shuffle.

use crate::generator::GeneratorState;
use crate::uniform::{draw_below, lemma_uniform_int_is_first_accepted, uniform_int_spec};
use vstd::prelude::*;

verus! {

/// The sequence `0, 1, .., n - 1`.
pub open spec fn identity_seq(n: nat) -> Seq<u32> {
    Seq::new(n, |i: int| i as u32)
}

/// `s` with the items at `i` and `j` exchanged.
pub open spec fn swapped(s: Seq<u32>, i: int, j: int) -> Seq<u32> {
    s.update(i, s[j]).update(j, s[i])
}

/// `s` holds each of `0, 1, .., n - 1` exactly once.
pub open spec fn is_permutation(s: Seq<u32>, n: nat) -> bool {
    &&& s.len() == n
    &&& forall|i: int| 0 <= i < n ==> #[trigger] s[i] < n
    &&& forall|i: int, j: int| 0 <= i < j < n ==> s[i] != s[j]
    &&& forall|v: u32| v < n ==> s.contains(v)
}

/// The shuffle from position `i` down to 1: position `i` is exchanged with a
/// uniform position in `[0, i]`, then the shuffle goes on below it.
pub open spec fn shuffle_down(st: GeneratorState, arr: Seq<u32>, i: nat) -> (
    GeneratorState,
    Seq<u32>,
)
    decreases i,
{
    if i == 0 {
        (st, arr)
    } else {
        let (next, j) = uniform_int_spec(st, (i + 1) as u32);
        shuffle_down(next, swapped(arr, i as int, j as int), (i - 1) as nat)
    }
}

/// The state and the permutation that `shuffle` gives.
pub open spec fn shuffle_spec(st: GeneratorState, n: u32) -> (GeneratorState, Seq<u32>) {
    if n == 0 {
        (st, Seq::empty())
    } else {
        shuffle_down(st, identity_seq(n as nat), (n - 1) as nat)
    }
}

/// Exchanging two items of a permutation leaves a permutation.
pub proof fn lemma_swap_keeps_permutation(s: Seq<u32>, n: nat, i: int, j: int)
    requires
        is_permutation(s, n),
        0 <= i < n,
        0 <= j < n,
    ensures
        is_permutation(swapped(s, i, j), n),
{
    let t = swapped(s, i, j);
    assert forall|v: u32| v < n implies t.contains(v) by {
        assert(s.contains(v));
        let at = choose|at: int| 0 <= at < s.len() && s[at] == v;
        let to = if at == i {
            j
        } else if at == j {
            i
        } else {
            at
        };
        assert(t[to] == v);
    }
}

/// The shuffle of a permutation is a permutation.
pub proof fn lemma_shuffle_down_permutes(st: GeneratorState, arr: Seq<u32>, n: nat, i: nat)
    requires
        is_permutation(arr, n),
        i < n <= u32::MAX,
    ensures
        is_permutation(shuffle_down(st, arr, i).1, n),
    decreases i,
{
    if i > 0 {
        let (next, j) = uniform_int_spec(st, (i + 1) as u32);
        lemma_uniform_int_is_first_accepted(st, (i + 1) as u32);
        lemma_swap_keeps_permutation(arr, n, i as int, j as int);
        lemma_shuffle_down_permutes(next, swapped(arr, i as int, j as int), n, (i - 1) as nat);
    }
}

/// The identity sequence is a permutation.
pub proof fn lemma_identity_is_permutation(n: nat)
    requires
        n <= u32::MAX,
    ensures
        is_permutation(identity_seq(n), n),
{
    let s = identity_seq(n);
    assert forall|v: u32| v < n implies s.contains(v) by {
        assert(s[v as int] == v);
    }
}

/// Whatever the state, `shuffle_spec` gives a permutation of `[0, n)`.
pub proof fn lemma_shuffle_is_permutation(st: GeneratorState, n: u32)
    ensures
        is_permutation(shuffle_spec(st, n).1, n as nat),
{
    if n > 0 {
        lemma_identity_is_permutation(n as nat);
        lemma_shuffle_down_permutes(st, identity_seq(n as nat), n as nat, (n - 1) as nat);
    } else {
        assert forall|v: u32| v < 0 implies shuffle_spec(st, n).1.contains(v) by {}
    }
}

/// Shuffles the indices `0, 1, .., n - 1`: for `i` from `n - 1` down to 1, a
/// uniform `j` in `[0, i]` is drawn and positions `i` and `j` are exchanged.
/// For `n` of zero or one nothing is drawn.
pub fn shuffle(rng: GeneratorState, n: u32) -> (r: (GeneratorState, Vec<u32>))
    ensures
        (r.0, r.1@) == shuffle_spec(rng, n),
        is_permutation(r.1@, n as nat),
{
    let mut st = rng;
    let mut a: Vec<u32> = Vec::new();
    let mut k: u32 = 0;
    while k < n
        invariant
            k <= n,
            a@ == identity_seq(k as nat),
        decreases n - k,
    {
        a.push(k);
        k += 1;
    }
    proof {
        lemma_shuffle_is_permutation(rng, n);
    }
    if n == 0 {
        return (st, a);
    }
    let mut i: u32 = n - 1;
    while i > 0
        invariant
            i < n,
            a@.len() == n,
            shuffle_down(st, a@, i as nat) == shuffle_spec(rng, n),
        decreases i,
    {
        let (next, j) = draw_below(st, i + 1);
        st = next;
        let ghost before = a@;
        if i != j {
            let at_i: u32 = a[i as usize];
            let at_j: u32 = a[j as usize];
            a.set(i as usize, at_j);
            a.set(j as usize, at_i);
        }
        assert(a@ == swapped(before, i as int, j as int));
        i -= 1;
    }
    (st, a)
}

} // verus!
