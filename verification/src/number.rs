//! Variable-length unsigned numbers, as they are embedded in bytecode.
//!
//! A number is written as a run of bytes, most significant group first.
//! The low seven bits of each byte carry payload;
//! the high bit is set on every byte but the last of the run.

use vstd::prelude::*;

verus! {

/// The seven payload bits of a byte.
pub open spec fn payload(byte: u8) -> nat {
    (byte % 128) as nat
}

/// Whether the high bit of a byte announces that more bytes follow.
pub open spec fn continues(byte: u8) -> bool {
    byte >= 128
}

/// The bytes that carry the groups of `high`, each with its high bit set.
/// Nothing is written for zero.
pub open spec fn leading_bytes(high: nat) -> Seq<u8>
    decreases high,
{
    if high == 0 {
        Seq::empty()
    } else {
        leading_bytes(high / 128).push((128 + high % 128) as u8)
    }
}

/// The encoding of `n`: the groups above the lowest with their high bit set,
/// then the lowest group with its high bit clear.
pub open spec fn encoding(n: nat) -> Seq<u8> {
    leading_bytes(n / 128).push((n % 128) as u8)
}

/// How many bytes a decoder reads from the front of `bytes`:
/// up to and including the first byte whose high bit is clear,
/// or all of them where there is no such byte.
pub open spec fn consumed(bytes: Seq<u8>) -> nat
    decreases bytes.len(),
{
    if bytes.len() == 0 {
        0
    } else if !continues(bytes[0]) {
        1
    } else {
        1 + consumed(bytes.drop_first())
    }
}

/// The number that the payloads of `bytes` spell, most significant first.
pub open spec fn payload_value(bytes: Seq<u8>) -> nat
    decreases bytes.len(),
{
    if bytes.len() == 0 {
        0
    } else {
        payload_value(bytes.drop_last()) * 128 + payload(bytes.last())
    }
}

/// The number at the front of `bytes`.
pub open spec fn decoded_value(bytes: Seq<u8>) -> nat {
    payload_value(bytes.take(consumed(bytes) as int))
}

/// Whether the number at the front of `bytes` ends within `bytes`.
pub open spec fn terminated(bytes: Seq<u8>) -> bool {
    consumed(bytes) > 0 && !continues(bytes[consumed(bytes) - 1])
}

/// A decoder reads no more bytes than there are, at least one where there is one,
/// and every byte that it reads but the last announces more.
pub proof fn lemma_consumed_bounds(bytes: Seq<u8>)
    ensures
        consumed(bytes) <= bytes.len(),
        bytes.len() > 0 ==> consumed(bytes) > 0,
        forall|j: int| 0 <= j < consumed(bytes) - 1 ==> continues(#[trigger] bytes[j]),
    decreases bytes.len(),
{
    if bytes.len() > 0 && continues(bytes[0]) {
        let rest = bytes.drop_first();
        lemma_consumed_bounds(rest);
        assert forall|j: int| 0 <= j < consumed(bytes) - 1 implies continues(
            #[trigger] bytes[j],
        ) by {
            if j > 0 {
                assert(bytes[j] == rest[j - 1]);
            }
        }
    }
}

/// Past a run of `i` continuing bytes, the decoder reads on as if it had started there.
pub proof fn lemma_consumed_after_run(bytes: Seq<u8>, i: int)
    requires
        0 <= i <= bytes.len(),
        forall|j: int| 0 <= j < i ==> continues(#[trigger] bytes[j]),
    ensures
        consumed(bytes) == i + consumed(bytes.skip(i)),
    decreases i,
{
    if i == 0 {
        assert(bytes.skip(0) =~= bytes);
    } else {
        let rest = bytes.drop_first();
        assert forall|j: int| 0 <= j < i - 1 implies continues(#[trigger] rest[j]) by {
            assert(rest[j] == bytes[j + 1]);
        }
        lemma_consumed_after_run(rest, i - 1);
        assert(rest.skip(i - 1) =~= bytes.skip(i));
    }
}

proof fn lemma_payload_value_step(bytes: Seq<u8>, i: int)
    requires
        0 <= i < bytes.len(),
    ensures
        payload_value(bytes.take(i + 1)) == payload_value(bytes.take(i)) * 128 + payload(bytes[i]),
{
    assert(bytes.take(i + 1).drop_last() =~= bytes.take(i));
}

proof fn lemma_leading_bytes(high: nat)
    ensures
        payload_value(leading_bytes(high)) == high,
        forall|j: int| 0 <= j < leading_bytes(high).len() ==> continues(
            #[trigger] leading_bytes(high)[j],
        ),
    decreases high,
{
    if high > 0 {
        lemma_leading_bytes(high / 128);
        let shorter = leading_bytes(high / 128);
        let byte: u8 = (128 + high % 128) as u8;
        assert(leading_bytes(high).drop_last() =~= shorter);
        assert(payload(byte) == high % 128);
    }
}

/// Decoding what was encoded gives the number back, and reads exactly the bytes
/// that were written, whatever follows them.
pub proof fn lemma_round_trip_then(n: nat, rest: Seq<u8>)
    ensures
        decoded_value(encoding(n) + rest) == n,
        consumed(encoding(n) + rest) == encoding(n).len(),
        terminated(encoding(n) + rest),
{
    let lead = leading_bytes(n / 128);
    let low = (n % 128) as u8;
    let all = encoding(n) + rest;
    lemma_leading_bytes(n / 128);
    assert forall|j: int| 0 <= j < lead.len() implies continues(#[trigger] all[j]) by {
        assert(all[j] == lead[j]);
    }
    lemma_consumed_after_run(all, lead.len() as int);
    assert(all.skip(lead.len() as int)[0] == low);
    assert(all.take(lead.len() as int + 1) =~= encoding(n));
    assert(encoding(n).drop_last() =~= lead);
    assert(payload(low) == n % 128);
}

/// Decoding the encoding of a number gives the number and the encoding's length.
pub proof fn lemma_round_trip(n: nat)
    ensures
        decoded_value(encoding(n)) == n,
        consumed(encoding(n)) == encoding(n).len(),
        terminated(encoding(n)),
{
    lemma_round_trip_then(n, Seq::empty());
    assert(encoding(n) + Seq::<u8>::empty() =~= encoding(n));
}

/// Splits a number into its bytes.
pub fn split_number(n: usize) -> (bytes: Vec<u8>)
    ensures
        bytes@ == encoding(n as nat),
{
    let mut backwards: Vec<u8> = Vec::new();
    backwards.push((n % 128) as u8);
    let mut high: usize = n / 128;
    assert(backwards@.reverse() =~= seq![(n % 128) as u8]);
    assert(encoding(n as nat) =~= leading_bytes(high as nat) + backwards@.reverse());
    while high > 0
        invariant
            encoding(n as nat) == leading_bytes(high as nat) + backwards@.reverse(),
        decreases high,
    {
        let byte: u8 = (128 + high % 128) as u8;
        proof {
            let ghost before = backwards@;
            assert(before.push(byte).reverse() =~= seq![byte] + before.reverse());
            assert(leading_bytes(high as nat) + before.reverse() =~= leading_bytes(
                (high / 128) as nat,
            ) + before.push(byte).reverse());
        }
        backwards.push(byte);
        high = high / 128;
    }
    let mut bytes: Vec<u8> = Vec::new();
    let mut left: usize = backwards.len();
    while left > 0
        invariant
            left <= backwards.len(),
            bytes@ == backwards@.reverse().take(backwards.len() - left),
        decreases left,
    {
        left = left - 1;
        bytes.push(backwards[left]);
        assert(bytes@ =~= backwards@.reverse().take(backwards.len() - left));
    }
    assert(backwards@.reverse().take(backwards.len() as int) =~= backwards@.reverse());
    assert(leading_bytes(0) + backwards@.reverse() =~= backwards@.reverse());
    bytes
}

/// Reads the number at the front of `bytes` as far as it fits a `usize`.
/// Returns the number, if it fits, and how many bytes it takes up.
fn scan_number(bytes: &[u8]) -> (r: (Option<usize>, usize))
    ensures
        r.1 == consumed(bytes@),
        r.0 is Some <==> decoded_value(bytes@) <= usize::MAX,
        r.0 is Some ==> r.0.unwrap() == decoded_value(bytes@),
{
    let mut value: Option<usize> = Some(0);
    let mut at: usize = 0;
    assert(bytes@.skip(0) =~= bytes@);
    while at < bytes.len()
        invariant_except_break
            consumed(bytes@) == at + consumed(bytes@.skip(at as int)),
        invariant
            at <= bytes.len(),
            value is Some <==> payload_value(bytes@.take(at as int)) <= usize::MAX,
            value is Some ==> value.unwrap() == payload_value(bytes@.take(at as int)),
        ensures
            at == consumed(bytes@),
        decreases bytes.len() - at,
    {
        let byte: u8 = bytes[at];
        proof {
            lemma_payload_value_step(bytes@, at as int);
            assert(bytes@.skip(at as int)[0] == byte);
            assert(bytes@.skip(at as int).drop_first() =~= bytes@.skip(at + 1));
        }
        value = match value {
            Some(v) => match v.checked_mul(128) {
                Some(shifted) => shifted.checked_add((byte % 128) as usize),
                None => None,
            },
            None => None,
        };
        at = at + 1;
        if byte < 128 {
            break;
        }
    }
    (value, at)
}

/// Builds the number at the front of `bytes`,
/// and says how many bytes it took up.
/// Reading stops after the first byte whose high bit is clear.
pub fn build_number(bytes: &[u8]) -> (r: (usize, usize))
    requires
        decoded_value(bytes@) <= usize::MAX,
    ensures
        r.0 == decoded_value(bytes@),
        r.1 == consumed(bytes@),
{
    let (value, taken) = scan_number(bytes);
    match value {
        Some(v) => (v, taken),
        None => (0, taken),
    }
}

/// Builds the number at the front of `bytes` where there is a whole one that fits a `usize`:
/// `None` where the bytes end before the number does, or where the number is too large.
pub fn try_build_number(bytes: &[u8]) -> (r: Option<(usize, usize)>)
    ensures
        r is Some <==> terminated(bytes@) && decoded_value(bytes@) <= usize::MAX,
        r is Some ==> r.unwrap().0 == decoded_value(bytes@) && r.unwrap().1 == consumed(bytes@),
{
    let (value, taken) = scan_number(bytes);
    proof {
        lemma_consumed_bounds(bytes@);
    }
    if taken == 0 || bytes[taken - 1] >= 128 {
        return None;
    }
    match value {
        Some(v) => Some((v, taken)),
        None => None,
    }
}

} // verus!
