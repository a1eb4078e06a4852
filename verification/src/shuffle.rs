//! The salted shuffle: a deterministic, salt-driven permutation of a
//! character buffer.  The same salt always produces the same permutation of
//! any same-length input, which is what lets the decoder regenerate the
//! alphabet orderings chosen at encode time.  The exact arithmetic below is a
//! wire-format contract: any deviation changes every encoded string.

use vstd::prelude::*;
use vstd::seq_lib::lemma_multiset_commutative;
use vstd::wrapping::u64_specs;

verus! {

/// One round of the shuffle per position `i`, walking `i` from `len - 1`
/// down to `1`.  `v0` is the running salt cursor (reduced modulo the salt
/// length before use) and `p` the running sum of consumed salt code points,
/// wrapping as a 64-bit value.
pub open spec fn shuffle_rounds(s: Seq<char>, salt: Seq<char>, i: int, v0: int, p: u64) -> Seq<
    char,
>
    decreases i,
{
    if i <= 0 || salt.len() == 0 {
        s
    } else {
        let v = v0 % (salt.len() as int);
        let t = salt[v] as u64;
        let p2 = u64_specs::wrapping_add(p, t);
        let j = (u64_specs::wrapping_add(u64_specs::wrapping_add(t, v as u64), p2) as int) % i;
        let s2 = s.update(i, s[j]).update(j, s[i]);
        shuffle_rounds(s2, salt, i - 1, v + 1, p2)
    }
}

/// The salted shuffle of `s` under `salt`; the identity when the salt is
/// empty.
pub open spec fn spec_shuffle(s: Seq<char>, salt: Seq<char>) -> Seq<char> {
    shuffle_rounds(s, salt, s.len() as int - 1, 0, 0)
}

/// Swapping two positions of a sequence leaves its multiset of elements
/// unchanged.
proof fn lemma_swap_multiset(s: Seq<char>, i: int, j: int)
    requires
        0 <= j <= i < s.len(),
    ensures
        s.update(i, s[j]).update(j, s[i]).to_multiset() == s.to_multiset(),
{
    let s2 = s.update(i, s[j]).update(j, s[i]);
    if i == j {
        assert(s2 =~= s);
    } else {
        broadcast use lemma_multiset_commutative;
        broadcast use vstd::multiset::group_multiset_axioms;

        let a = s.take(j);
        let b = s.subrange(j + 1, i);
        let c = s.skip(i + 1);
        assert(s =~= a + seq![s[j]] + b + seq![s[i]] + c);
        assert(s2 =~= a + seq![s[i]] + b + seq![s[j]] + c);
        assert((a + seq![s[j]] + b + seq![s[i]] + c).to_multiset() =~= (a + seq![s[i]] + b
            + seq![s[j]] + c).to_multiset());
    }
}

/// Every round of the shuffle permutes the buffer: the multiset of
/// characters, and hence the length, never changes.
pub proof fn lemma_shuffle_rounds_multiset(s: Seq<char>, salt: Seq<char>, i: int, v0: int, p: u64)
    requires
        i < s.len(),
    ensures
        shuffle_rounds(s, salt, i, v0, p).to_multiset() == s.to_multiset(),
        shuffle_rounds(s, salt, i, v0, p).len() == s.len(),
    decreases i,
{
    broadcast use vstd::seq_lib::group_to_multiset_ensures;

    if i <= 0 || salt.len() == 0 {
    } else {
        let v = v0 % (salt.len() as int);
        let t = salt[v] as u64;
        let p2 = u64_specs::wrapping_add(p, t);
        let j = (u64_specs::wrapping_add(u64_specs::wrapping_add(t, v as u64), p2) as int) % i;
        let s2 = s.update(i, s[j]).update(j, s[i]);
        lemma_swap_multiset(s, i, j);
        lemma_shuffle_rounds_multiset(s2, salt, i - 1, v + 1, p2);
    }
}

/// The salted shuffle permutes its input.
pub proof fn lemma_spec_shuffle_multiset(s: Seq<char>, salt: Seq<char>)
    ensures
        spec_shuffle(s, salt).to_multiset() == s.to_multiset(),
        spec_shuffle(s, salt).len() == s.len(),
{
    lemma_shuffle_rounds_multiset(s, salt, s.len() as int - 1, 0, 0);
}

/// Shuffles `alphabet` in place, driven by `salt`.  A no-op when the salt is
/// empty.
pub fn shuffle(alphabet: &mut Vec<char>, salt: &Vec<char>)
    ensures
        final(alphabet)@ == spec_shuffle(old(alphabet)@, salt@),
{
    let salt_len = salt.len();
    if salt_len == 0 {
        return;
    }
    let len = alphabet.len();
    if len == 0 {
        return;
    }
    let mut i: usize = len - 1;
    let mut v: usize = 0;
    let mut p: u64 = 0;
    while i >= 1
        invariant
            salt@.len() == salt_len > 0,
            alphabet@.len() == len,
            i <= len - 1,
            v <= salt_len,
            shuffle_rounds(alphabet@, salt@, i as int, v as int, p) == spec_shuffle(
                old(alphabet)@,
                salt@,
            ),
        decreases i,
    {
        v = v % salt_len;
        let t: u64 = salt[v] as u64;
        p = p.wrapping_add(t);
        let j_wide: u64 = t.wrapping_add(v as u64).wrapping_add(p) % (i as u64);
        let j: usize = j_wide as usize;
        let ci = alphabet[i];
        let cj = alphabet[j];
        alphabet.set(i, cj);
        alphabet.set(j, ci);
        v = v + 1;
        i = i - 1;
    }
}

} // verus!
