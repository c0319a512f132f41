//! The samplers on integers as functions from bytes to bytes: the arguments
//! arrive as one CBOR item and the state goes back with the result as one
//! CBOR item. A host that can pass only bytes calls these.
//!
//! Reading and writing CBOR is the work of the `ciborium` crate. What it
//! makes of given bytes, and the bytes it writes for a given value, are named
//! here and not described: the contracts say which value is handed to the
//! encoder, and that nothing is computed where the decoder refuses the bytes.

use crate::choice::{choice, choice_spec};
use crate::generator::{taus_set, taus_set_spec, GeneratorState};
use crate::samplers::{integers, integers_spec};
use crate::shuffle::{shuffle, shuffle_spec};
use vstd::prelude::*;

verus! {

/// What the decoder makes of `bytes` read as one unsigned 32-bit integer;
/// `None` where it refuses them.
pub uninterp spec fn decoded_seed(bytes: Seq<u8>) -> Option<u32>;

/// What the decoder makes of `bytes` read as the arguments of `integers`: the
/// three words of the state, the count, the low end and the gap.
pub uninterp spec fn decoded_integers_call(bytes: Seq<u8>) -> Option<(Seq<u32>, u32, i64, u32)>;

/// What the decoder makes of `bytes` read as the arguments of `shuffle`: the
/// three words of the state and the length.
pub uninterp spec fn decoded_shuffle_call(bytes: Seq<u8>) -> Option<(Seq<u32>, u32)>;

/// What the decoder makes of `bytes` read as the arguments of `choice`: the
/// three words of the state, the count, the number of candidates, and the two
/// flags.
pub uninterp spec fn decoded_choice_call(bytes: Seq<u8>) -> Option<(Seq<u32>, u32, u32, bool, bool)>;

/// The bytes that the encoder writes for the three words of a state.
pub uninterp spec fn encoded_state(words: Seq<u32>) -> Seq<u8>;

/// The bytes that the encoder writes for the three words of a state paired
/// with a sequence of signed integers.
pub uninterp spec fn encoded_integers(words: Seq<u32>, values: Seq<i64>) -> Seq<u8>;

/// The bytes that the encoder writes for the three words of a state paired
/// with a sequence of indices.
pub uninterp spec fn encoded_indices(words: Seq<u32>, values: Seq<u32>) -> Seq<u8>;

/// The three words of a state, the first register first.
pub open spec fn words_of(st: GeneratorState) -> Seq<u32> {
    seq![st.s1, st.s2, st.s3]
}

/// The state that holds the first three of `words`.
pub open spec fn state_of(words: Seq<u32>) -> GeneratorState {
    GeneratorState { s1: words[0], s2: words[1], s3: words[2] }
}

/// Calls `ciborium::de::from_reader` on the bytes for an unsigned 32-bit
/// integer. The decoder reads nothing but the bytes, so its answer is the
/// named function of them; an error of any kind is `None`.
#[verifier::external_body]
fn decode_seed(arg: &[u8]) -> (r: Option<u32>)
    ensures
        r == decoded_seed(arg@),
{
    ciborium::de::from_reader::<u32, &[u8]>(arg).ok()
}

/// Calls `ciborium::de::from_reader` on the bytes for the tuple of a state's
/// words, a count, a low end and a gap. The answer is the named function of
/// the bytes, the words taken as a sequence; an error of any kind is `None`.
#[verifier::external_body]
fn decode_integers_call(arg: &[u8]) -> (r: Option<([u32; 3], u32, i64, u32)>)
    ensures
        r matches Some(v) ==> decoded_integers_call(arg@) == Some((v.0@, v.1, v.2, v.3)),
        r is None ==> decoded_integers_call(arg@) is None,
{
    ciborium::de::from_reader::<([u32; 3], u32, i64, u32), &[u8]>(arg).ok()
}

/// Calls `ciborium::de::from_reader` on the bytes for the pair of a state's
/// words and a length. The answer is the named function of the bytes, the
/// words taken as a sequence; an error of any kind is `None`.
#[verifier::external_body]
fn decode_shuffle_call(arg: &[u8]) -> (r: Option<([u32; 3], u32)>)
    ensures
        r matches Some(v) ==> decoded_shuffle_call(arg@) == Some((v.0@, v.1)),
        r is None ==> decoded_shuffle_call(arg@) is None,
{
    ciborium::de::from_reader::<([u32; 3], u32), &[u8]>(arg).ok()
}

/// Calls `ciborium::de::from_reader` on the bytes for the tuple of a state's
/// words, a count, a number of candidates and two flags. The answer is the
/// named function of the bytes, the words taken as a sequence; an error of
/// any kind is `None`.
#[verifier::external_body]
fn decode_choice_call(arg: &[u8]) -> (r: Option<([u32; 3], u32, u32, bool, bool)>)
    ensures
        r matches Some(v) ==> decoded_choice_call(arg@) == Some((v.0@, v.1, v.2, v.3, v.4)),
        r is None ==> decoded_choice_call(arg@) is None,
{
    ciborium::de::from_reader::<([u32; 3], u32, u32, bool, bool), &[u8]>(arg).ok()
}

/// Calls `ciborium::ser::into_writer` on the three words, writing into a new
/// vector. The bytes written are the named function of the words. Writing
/// integers into a vector has no way to fail.
#[verifier::external_body]
fn encode_state(words: [u32; 3]) -> (out: Vec<u8>)
    ensures
        out@ == encoded_state(words@),
{
    let mut out = Vec::new();
    ciborium::ser::into_writer(&words, &mut out).unwrap();
    out
}

/// Calls `ciborium::ser::into_writer` on the pair of the three words and the
/// values, writing into a new vector. The bytes written are the named
/// function of the two. Writing integers into a vector has no way to fail.
#[verifier::external_body]
fn encode_integers(words: [u32; 3], values: &Vec<i64>) -> (out: Vec<u8>)
    ensures
        out@ == encoded_integers(words@, values@),
{
    let mut out = Vec::new();
    ciborium::ser::into_writer(&(words, values), &mut out).unwrap();
    out
}

/// Calls `ciborium::ser::into_writer` on the pair of the three words and the
/// indices, writing into a new vector. The bytes written are the named
/// function of the two. Writing integers into a vector has no way to fail.
#[verifier::external_body]
fn encode_indices(words: [u32; 3], values: &Vec<u32>) -> (out: Vec<u8>)
    ensures
        out@ == encoded_indices(words@, values@),
{
    let mut out = Vec::new();
    ciborium::ser::into_writer(&(words, values), &mut out).unwrap();
    out
}

/// Whether `bytes` hold arguments that `integers_fn` can work on: the decoder
/// accepts them, the gap is positive, and the interval fits the signed 64-bit
/// integers.
pub open spec fn is_integers_call(bytes: Seq<u8>) -> bool {
    decoded_integers_call(bytes) matches Some(call) && call.3 >= 1 && call.2 + call.3 - 1
        <= i64::MAX
}

/// Whether `bytes` hold arguments that `choice_fn` can work on: the decoder
/// accepts them, and they do not ask for a sample with replacement from no
/// candidates.
pub open spec fn is_choice_call(bytes: Seq<u8>) -> bool {
    decoded_choice_call(bytes) matches Some(call) && !(call.3 && call.2 == 0)
}

/// Seeds a generator: `arg` holds the seed, the result holds the state.
pub fn gen_rng_fn(arg: &[u8]) -> (out: Vec<u8>)
    requires
        decoded_seed(arg@) is Some,
    ensures
        out@ == encoded_state(words_of(taus_set_spec(decoded_seed(arg@).unwrap()))),
{
    let seed: u32 = decode_seed(arg).unwrap();
    let st = taus_set(seed);
    let words = st.to_words();
    assert(words@ =~= words_of(st));
    encode_state(words)
}

/// `gen_rng_fn` where the decoder accepts `arg`, and nothing otherwise.
pub fn try_gen_rng_fn(arg: &[u8]) -> (r: Option<Vec<u8>>)
    ensures
        r is Some <==> decoded_seed(arg@) is Some,
        r matches Some(out) ==> out@ == encoded_state(
            words_of(taus_set_spec(decoded_seed(arg@).unwrap())),
        ),
{
    if decode_seed(arg).is_some() {
        Some(gen_rng_fn(arg))
    } else {
        None
    }
}

/// Draws integers: `arg` holds the state, the count, the low end and the
/// gap, the result holds the new state and the values.
pub fn integers_fn(arg: &[u8]) -> (out: Vec<u8>)
    requires
        is_integers_call(arg@),
    ensures
        ({
            let call = decoded_integers_call(arg@).unwrap();
            let drawn = integers_spec(state_of(call.0), call.1 as nat, call.2, call.3);
            out@ == encoded_integers(words_of(drawn.0), drawn.1)
        }),
{
    let call = decode_integers_call(arg).unwrap();
    let (st, values) = integers(GeneratorState::from_words(call.0), call.1, call.2, call.3).unwrap();
    let words = st.to_words();
    assert(words@ =~= words_of(st));
    encode_integers(words, &values)
}

/// `integers_fn` where `arg` holds arguments that it can work on, and
/// nothing otherwise.
pub fn try_integers_fn(arg: &[u8]) -> (r: Option<Vec<u8>>)
    ensures
        r is Some <==> is_integers_call(arg@),
        r matches Some(out) ==> {
            let call = decoded_integers_call(arg@).unwrap();
            let drawn = integers_spec(state_of(call.0), call.1 as nat, call.2, call.3);
            out@ == encoded_integers(words_of(drawn.0), drawn.1)
        },
{
    match decode_integers_call(arg) {
        Some(call) => {
            if call.3 >= 1 && call.2 <= i64::MAX - (call.3 as i64 - 1) {
                Some(integers_fn(arg))
            } else {
                None
            }
        },
        None => None,
    }
}

/// Shuffles indices: `arg` holds the state and the length, the result holds
/// the new state and the permutation.
pub fn shuffle_fn(arg: &[u8]) -> (out: Vec<u8>)
    requires
        decoded_shuffle_call(arg@) is Some,
    ensures
        ({
            let call = decoded_shuffle_call(arg@).unwrap();
            let drawn = shuffle_spec(state_of(call.0), call.1);
            out@ == encoded_indices(words_of(drawn.0), drawn.1)
        }),
{
    let call = decode_shuffle_call(arg).unwrap();
    let (st, values) = shuffle(GeneratorState::from_words(call.0), call.1);
    let words = st.to_words();
    assert(words@ =~= words_of(st));
    encode_indices(words, &values)
}

/// `shuffle_fn` where the decoder accepts `arg`, and nothing otherwise.
pub fn try_shuffle_fn(arg: &[u8]) -> (r: Option<Vec<u8>>)
    ensures
        r is Some <==> decoded_shuffle_call(arg@) is Some,
        r matches Some(out) ==> {
            let call = decoded_shuffle_call(arg@).unwrap();
            let drawn = shuffle_spec(state_of(call.0), call.1);
            out@ == encoded_indices(words_of(drawn.0), drawn.1)
        },
{
    if decode_shuffle_call(arg).is_some() {
        Some(shuffle_fn(arg))
    } else {
        None
    }
}

/// Draws a sample of indices: `arg` holds the state, the count, the number
/// of candidates and the two flags, the result holds the new state and the
/// sample.
pub fn choice_fn(arg: &[u8]) -> (out: Vec<u8>)
    requires
        is_choice_call(arg@),
    ensures
        ({
            let call = decoded_choice_call(arg@).unwrap();
            let drawn = choice_spec(state_of(call.0), call.1, call.2, call.3, call.4);
            out@ == encoded_indices(words_of(drawn.0), drawn.1)
        }),
{
    let call = decode_choice_call(arg).unwrap();
    let (st, values) = choice(
        GeneratorState::from_words(call.0),
        call.1,
        call.2,
        call.3,
        call.4,
    ).unwrap();
    let words = st.to_words();
    assert(words@ =~= words_of(st));
    encode_indices(words, &values)
}

/// `choice_fn` where `arg` holds arguments that it can work on, and nothing
/// otherwise.
pub fn try_choice_fn(arg: &[u8]) -> (r: Option<Vec<u8>>)
    ensures
        r is Some <==> is_choice_call(arg@),
        r matches Some(out) ==> {
            let call = decoded_choice_call(arg@).unwrap();
            let drawn = choice_spec(state_of(call.0), call.1, call.2, call.3, call.4);
            out@ == encoded_indices(words_of(drawn.0), drawn.1)
        },
{
    match decode_choice_call(arg) {
        Some(call) => {
            if call.3 && call.2 == 0 {
                None
            } else {
                Some(choice_fn(arg))
            }
        },
        None => None,
    }
}

} // verus!
