//! Short tokens that look random, and the names that are made unique with them.

use vstd::prelude::*;
use crate::text::{digit_char, digit, push_char, push_text};

verus! {

/// The number behind a stamp: thirty-two bits out of the middle of a product
/// that the seed and the number of tries so far go into.
pub open spec fn stamp_value(seed: u64, tries: nat) -> nat {
    ((seed as nat * 6364136223846793005 + tries * 1442695040888963407 + 1013904223)
        / 0x1_0000_0000) % 0x1_0000_0000
}

/// A number below two to the thirty-second as eight hexadecimal digits.
pub open spec fn hex8(value: nat) -> Seq<char> {
    seq![
        digit_char((value / 0x1000_0000) % 16),
        digit_char((value / 0x100_0000) % 16),
        digit_char((value / 0x10_0000) % 16),
        digit_char((value / 0x1_0000) % 16),
        digit_char((value / 0x1000) % 16),
        digit_char((value / 0x100) % 16),
        digit_char((value / 0x10) % 16),
        digit_char(value % 16),
    ]
}

/// The stamp for a seed and a number of tries: eight hexadecimal digits.
pub open spec fn stamp_text(seed: u64, tries: nat) -> Seq<char> {
    hex8(stamp_value(seed, tries))
}

/// A name made unique: the name, a hash sign, and a stamp.
pub open spec fn tagged(base: Seq<char>, seed: u64, tries: nat) -> Seq<char> {
    base + seq!['#'] + stamp_text(seed, tries)
}

/// Where the first hash sign of a name stands; the length of the name where it has none.
pub open spec fn first_hash(name: Seq<char>) -> nat
    decreases name.len(),
{
    if name.len() == 0 || name[0] == '#' {
        0
    } else {
        1 + first_hash(name.drop_first())
    }
}

/// A name without its tag: what stands before its first hash sign.
pub open spec fn untagged(name: Seq<char>) -> Seq<char> {
    name.take(first_hash(name) as int)
}

/// The first hash sign of a name stands after a run of characters that are none.
pub proof fn lemma_first_hash(name: Seq<char>, at: int)
    requires
        0 <= at <= name.len(),
        forall|j: int| 0 <= j < at ==> name[j] != '#',
        at < name.len() ==> name[at] == '#',
    ensures
        first_hash(name) == at,
    decreases at,
{
    if at > 0 {
        let rest = name.drop_first();
        assert forall|j: int| 0 <= j < at - 1 implies rest[j] != '#' by {
            assert(rest[j] == name[j + 1]);
        }
        lemma_first_hash(rest, at - 1);
    }
}

/// No hash sign stands before the first hash sign of a name.
pub proof fn lemma_first_hash_bounds(name: Seq<char>)
    ensures
        first_hash(name) <= name.len(),
        forall|j: int| 0 <= j < first_hash(name) ==> name[j] != '#',
        first_hash(name) < name.len() ==> name[first_hash(name) as int] == '#',
    decreases name.len(),
{
    if !(name.len() == 0 || name[0] == '#') {
        let rest = name.drop_first();
        lemma_first_hash_bounds(rest);
        assert forall|j: int| 0 <= j < first_hash(name) implies name[j] != '#' by {
            if j > 0 {
                assert(name[j] == rest[j - 1]);
            }
        }
    }
}

/// A name that was made unique goes back to what its base goes back to
/// when its tag is taken off.
pub proof fn lemma_untagged_of_tagged(base: Seq<char>, seed: u64, tries: nat)
    ensures
        untagged(tagged(base, seed, tries)) == untagged(base),
        tagged(base, seed, tries).contains('#'),
{
    let name = tagged(base, seed, tries);
    let at = first_hash(base) as int;
    lemma_first_hash_bounds(base);
    assert forall|j: int| 0 <= j < at implies name[j] != '#' by {
        assert(name[j] == base[j]);
    }
    if at < base.len() {
        assert(name[at] == base[at]);
    } else {
        assert(name[at] == '#');
    }
    lemma_first_hash(name, at);
    assert(name.take(at) =~= base.take(at));
    assert(name[base.len() as int] == '#');
}

/// The present time as a number, to start the stamps of one expansion from.
/// This is `SystemTime::now`, of which nothing is known but that it returns.
#[verifier::external_body]
pub(crate) fn clock_seed() -> (seed: u64) {
    std::time::SystemTime::now().duration_since(std::time::UNIX_EPOCH).unwrap_or_default().as_nanos()
        as u64
}

/// The stamp for a seed and a number of tries.
pub fn stamp(seed: u64, tries: usize) -> (text: String)
    ensures
        text@ == stamp_text(seed, tries as nat),
{
    let product: u128 = seed as u128 * 6364136223846793005 + tries as u128 * 1442695040888963407
        + 1013904223;
    let value: u128 = (product / 0x1_0000_0000) % 0x1_0000_0000;
    let mut text = String::new();
    push_char(&mut text, digit(((value / 0x1000_0000) % 16) as u8));
    push_char(&mut text, digit(((value / 0x100_0000) % 16) as u8));
    push_char(&mut text, digit(((value / 0x10_0000) % 16) as u8));
    push_char(&mut text, digit(((value / 0x1_0000) % 16) as u8));
    push_char(&mut text, digit(((value / 0x1000) % 16) as u8));
    push_char(&mut text, digit(((value / 0x100) % 16) as u8));
    push_char(&mut text, digit(((value / 0x10) % 16) as u8));
    push_char(&mut text, digit((value % 16) as u8));
    assert(text@ =~= stamp_text(seed, tries as nat));
    text
}

/// The name `base` made unique with the stamp for a seed and a number of tries.
pub fn tag(base: &str, seed: u64, tries: usize) -> (name: String)
    ensures
        name@ == tagged(base@, seed, tries as nat),
{
    let mut name = base.to_owned();
    push_char(&mut name, '#');
    let stamp = stamp(seed, tries);
    push_text(&mut name, stamp.as_str());
    name
}

/// Takes the tag off a name: returns what stands before its first hash sign,
/// and the whole name where it has none.
pub fn untag(name: &str) -> (base: String)
    ensures
        base@ == untagged(name@),
{
    let total = name.unicode_len();
    let mut found = false;
    let mut at: usize = 0;
    let mut index: usize = 0;
    for c in it: name.chars()
        invariant
            it.seq() == name@,
            total == name@.len(),
            index == it.index(),
            !found ==> at == index,
            found ==> at < index && name@[at as int] == '#',
            forall|j: int| 0 <= j < at ==> name@[j] != '#',
    {
        assert(c == name@[index as int]);
        if !found {
            if c == '#' {
                found = true;
            } else {
                at = at + 1;
            }
        }
        index = index + 1;
    }
    proof {
        lemma_first_hash(name@, at as int);
    }
    name.substring_char(0, at).to_owned()
}

} // verus!
