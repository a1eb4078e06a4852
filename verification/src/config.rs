//! Configuration of the codec: the alphabet partitioner and the builder.
//!
//! A configuration is built once from a salt, an optional custom alphabet and
//! a minimum output length.  The partitioner deduplicates the raw alphabet,
//! splits off the separator candidates, salts and shuffles both sets, and
//! finally extracts the guard characters.  The three resulting character sets
//! are pairwise disjoint, and together they hold exactly the characters of
//! the deduplicated input alphabet.

use crate::shuffle::{lemma_spec_shuffle_multiset, shuffle, spec_shuffle};
use crate::text::{append_chars, chars_of, contains_char, skip_chars, take_chars};
use vstd::prelude::*;
use vstd::seq_lib::lemma_multiset_commutative;

verus! {

/// The default raw alphabet: 62 alphanumeric characters.
pub open spec fn default_alphabet() -> Seq<char> {
    seq![
        'a', 'b', 'c', 'd', 'e', 'f', 'g', 'h', 'i', 'j', 'k', 'l', 'm',
        'n', 'o', 'p', 'q', 'r', 's', 't', 'u', 'v', 'w', 'x', 'y', 'z',
        'A', 'B', 'C', 'D', 'E', 'F', 'G', 'H', 'I', 'J', 'K', 'L', 'M',
        'N', 'O', 'P', 'Q', 'R', 'S', 'T', 'U', 'V', 'W', 'X', 'Y', 'Z',
        '1', '2', '3', '4', '5', '6', '7', '8', '9', '0',
    ]
}

/// The candidate separator characters that the partitioner pulls out of the
/// raw alphabet.
pub open spec fn default_separators() -> Seq<char> {
    seq![
        'c', 'f', 'h', 'i', 's', 't', 'u', 'C', 'F', 'H', 'I', 'S', 'T',
        'U',
    ]
}

/// Why a configuration could not be built.
#[derive(Debug, Copy, Clone, PartialEq, Eq, Structural)]
pub enum BuildError {
    /// The alphabet has fewer than 16 distinct characters.
    ShortAlphabet,
    /// The alphabet contains the reserved space character.
    SpaceInAlphabet,
}

impl BuildError {
    /// A short description of the error.
    pub fn description(&self) -> (r: &'static str)
        ensures
            *self == BuildError::ShortAlphabet ==> r@ == "Invalid Alphabet Length"@,
            *self == BuildError::SpaceInAlphabet ==> r@ == "Space character found in alphabet"@,
    {
        match *self {
            BuildError::ShortAlphabet => "Invalid Alphabet Length",
            BuildError::SpaceInAlphabet => "Space character found in alphabet",
        }
    }
}

/// The mathematical content of a configuration: the salt and the three
/// disjoint character sets, plus the minimum output length.
pub struct ConfigModel {
    pub salt: Seq<char>,
    pub alphabet: Seq<char>,
    pub separators: Seq<char>,
    pub guards: Seq<char>,
    pub min_hash_length: nat,
}

impl ConfigModel {
    /// Well-formedness: enough characters to encode with, and no character
    /// appears twice across the three sets.
    pub open spec fn wf(self) -> bool {
        &&& self.alphabet.len() >= 2
        &&& self.separators.len() >= 1
        &&& self.guards.len() >= 1
        &&& (self.alphabet + self.separators + self.guards).no_duplicates()
    }
}

/// A built configuration.  Immutable once constructed; every encode and
/// decode call is a pure function of it and of the call's input.
#[derive(Debug, Clone)]
pub struct HashIds {
    pub(crate) salt: Vec<char>,
    pub(crate) alphabet: Vec<char>,
    pub(crate) separators: Vec<char>,
    pub(crate) min_hash_length: usize,
    pub(crate) guards: Vec<char>,
}

impl View for HashIds {
    type V = ConfigModel;

    open(crate) spec fn view(&self) -> ConfigModel {
        ConfigModel {
            salt: self.salt@,
            alphabet: self.alphabet@,
            separators: self.separators@,
            guards: self.guards@,
            min_hash_length: self.min_hash_length as nat,
        }
    }
}

/// `s` with duplicate characters removed, keeping the first occurrence of
/// each character and the order of first occurrences.
pub open spec fn spec_dedup(s: Seq<char>) -> Seq<char>
    decreases s.len(),
{
    if s.len() == 0 {
        Seq::empty()
    } else {
        let p = spec_dedup(s.drop_last());
        if p.contains(s.last()) {
            p
        } else {
            p.push(s.last())
        }
    }
}

/// The characters of `src`, in order, that occur in `members`.
pub open spec fn spec_keep_in(src: Seq<char>, members: Seq<char>) -> Seq<char>
    decreases src.len(),
{
    if src.len() == 0 {
        Seq::empty()
    } else {
        let p = spec_keep_in(src.drop_last(), members);
        if members.contains(src.last()) {
            p.push(src.last())
        } else {
            p
        }
    }
}

/// The characters of `src`, in order, that do not occur in `members`.
pub open spec fn spec_drop_in(src: Seq<char>, members: Seq<char>) -> Seq<char>
    decreases src.len(),
{
    if src.len() == 0 {
        Seq::empty()
    } else {
        let p = spec_drop_in(src.drop_last(), members);
        if members.contains(src.last()) {
            p
        } else {
            p.push(src.last())
        }
    }
}

/// What deduplication yields: a duplicate-free sequence holding exactly the
/// characters of the input, never longer than the input.
pub proof fn lemma_dedup_props(s: Seq<char>)
    ensures
        spec_dedup(s).no_duplicates(),
        forall|c: char| #[trigger] spec_dedup(s).contains(c) <==> s.contains(c),
        spec_dedup(s).len() <= s.len(),
    decreases s.len(),
{
    if s.len() == 0 {
    } else {
        lemma_dedup_props(s.drop_last());
        let p = spec_dedup(s.drop_last());
        let d = spec_dedup(s);
        assert forall|c: char| #[trigger] d.contains(c) implies s.contains(c) by {
            let k = choose|k: int| 0 <= k < d.len() && d[k] == c;
            if p.contains(c) || k < p.len() {
                assert(p.contains(c));
                assert(s.drop_last().contains(c));
                let k2 = choose|k2: int|
                    0 <= k2 < s.drop_last().len() && s.drop_last()[k2] == c;
                assert(s[k2] == c);
            } else {
                assert(c == s.last());
                assert(s[s.len() - 1] == c);
            }
        }
        assert forall|c: char| s.contains(c) implies #[trigger] d.contains(c) by {
            let k = choose|k: int| 0 <= k < s.len() && s[k] == c;
            if k < s.len() - 1 {
                assert(s.drop_last()[k] == c);
                assert(p.contains(c));
                if !p.contains(s.last()) {
                    let k2 = choose|k2: int| 0 <= k2 < p.len() && p[k2] == c;
                    assert(d[k2] == c);
                }
            } else {
                if p.contains(s.last()) {
                    assert(d.contains(c));
                } else {
                    assert(d[d.len() - 1] == c);
                }
            }
        }
        if !p.contains(s.last()) {
            assert forall|i: int, j: int| 0 <= i < d.len() && 0 <= j < d.len() && i != j implies d[i]
                != d[j] by {
                if i < p.len() && j < p.len() {
                    assert(d[i] == p[i] && d[j] == p[j]);
                } else if i < p.len() {
                    assert(d[i] == p[i] && p.contains(p[i]));
                } else {
                    assert(d[j] == p[j] && p.contains(p[j]));
                }
            }
        }
    }
}

/// Deduplicating a duplicate-free sequence leaves it unchanged.
pub proof fn lemma_dedup_of_distinct(s: Seq<char>)
    requires
        s.no_duplicates(),
    ensures
        spec_dedup(s) == s,
    decreases s.len(),
{
    if s.len() == 0 {
        assert(spec_dedup(s) =~= s);
    } else {
        assert forall|i: int, j: int|
            0 <= i < s.drop_last().len() && 0 <= j < s.drop_last().len() && i
                != j implies s.drop_last()[i] != s.drop_last()[j] by {
            assert(s[i] == s.drop_last()[i] && s[j] == s.drop_last()[j]);
        }
        lemma_dedup_of_distinct(s.drop_last());
        if s.drop_last().contains(s.last()) {
            let k = choose|k: int| 0 <= k < s.drop_last().len() && s.drop_last()[k] == s.last();
            assert(s[k] == s[s.len() - 1]);
        }
        assert(spec_dedup(s) =~= s);
    }
}

/// What filtering by membership yields, given a duplicate-free source.
pub proof fn lemma_keep_in_props(src: Seq<char>, members: Seq<char>)
    requires
        src.no_duplicates(),
    ensures
        spec_keep_in(src, members).no_duplicates(),
        forall|c: char| #[trigger]
            spec_keep_in(src, members).contains(c) <==> (src.contains(c) && members.contains(c)),
        spec_keep_in(src, members).len() <= src.len(),
    decreases src.len(),
{
    if src.len() == 0 {
    } else {
        assert forall|i: int, j: int|
            0 <= i < src.drop_last().len() && 0 <= j < src.drop_last().len() && i
                != j implies src.drop_last()[i] != src.drop_last()[j] by {
            assert(src[i] == src.drop_last()[i] && src[j] == src.drop_last()[j]);
        }
        lemma_keep_in_props(src.drop_last(), members);
        let p = spec_keep_in(src.drop_last(), members);
        let d = spec_keep_in(src, members);
        assert forall|c: char| #[trigger] d.contains(c) implies (src.contains(c)
            && members.contains(c)) by {
            let k = choose|k: int| 0 <= k < d.len() && d[k] == c;
            if members.contains(src.last()) && k == d.len() - 1 && !p.contains(c) {
                assert(c == src.last());
                assert(src[src.len() - 1] == c);
            } else {
                assert(p.contains(c));
                let k2 = choose|k2: int|
                    0 <= k2 < src.drop_last().len() && src.drop_last()[k2] == c;
                assert(src[k2] == c);
            }
        }
        assert forall|c: char| (src.contains(c) && members.contains(c)) implies #[trigger] d.contains(
            c,
        ) by {
            let k = choose|k: int| 0 <= k < src.len() && src[k] == c;
            if k < src.len() - 1 {
                assert(src.drop_last()[k] == c);
                assert(p.contains(c));
                if members.contains(src.last()) {
                    let k2 = choose|k2: int| 0 <= k2 < p.len() && p[k2] == c;
                    assert(d[k2] == c);
                }
            } else {
                assert(c == src.last());
                assert(d[d.len() - 1] == c);
            }
        }
        if members.contains(src.last()) {
            if src.drop_last().contains(src.last()) {
                let k = choose|k: int|
                    0 <= k < src.drop_last().len() && src.drop_last()[k] == src.last();
                assert(src[k] == src[src.len() - 1]);
            }
            assert(!p.contains(src.last()));
            assert forall|i: int, j: int| 0 <= i < d.len() && 0 <= j < d.len() && i != j implies d[i]
                != d[j] by {
                if i < p.len() && j < p.len() {
                    assert(d[i] == p[i] && d[j] == p[j]);
                } else if i < p.len() {
                    assert(d[i] == p[i] && p.contains(p[i]));
                } else if j < p.len() {
                    assert(d[j] == p[j] && p.contains(p[j]));
                }
            }
        }
    }
}

/// What filtering by non-membership yields, given a duplicate-free source.
pub proof fn lemma_drop_in_props(src: Seq<char>, members: Seq<char>)
    requires
        src.no_duplicates(),
    ensures
        spec_drop_in(src, members).no_duplicates(),
        forall|c: char| #[trigger]
            spec_drop_in(src, members).contains(c) <==> (src.contains(c) && !members.contains(c)),
        spec_drop_in(src, members).len() <= src.len(),
    decreases src.len(),
{
    if src.len() == 0 {
    } else {
        assert forall|i: int, j: int|
            0 <= i < src.drop_last().len() && 0 <= j < src.drop_last().len() && i
                != j implies src.drop_last()[i] != src.drop_last()[j] by {
            assert(src[i] == src.drop_last()[i] && src[j] == src.drop_last()[j]);
        }
        lemma_drop_in_props(src.drop_last(), members);
        let p = spec_drop_in(src.drop_last(), members);
        let d = spec_drop_in(src, members);
        assert forall|c: char| #[trigger] d.contains(c) implies (src.contains(c)
            && !members.contains(c)) by {
            let k = choose|k: int| 0 <= k < d.len() && d[k] == c;
            if !members.contains(src.last()) && k == d.len() - 1 && !p.contains(c) {
                assert(c == src.last());
                assert(src[src.len() - 1] == c);
            } else {
                assert(p.contains(c));
                let k2 = choose|k2: int|
                    0 <= k2 < src.drop_last().len() && src.drop_last()[k2] == c;
                assert(src[k2] == c);
            }
        }
        assert forall|c: char| (src.contains(c) && !members.contains(c)) implies #[trigger] d.contains(
            c,
        ) by {
            let k = choose|k: int| 0 <= k < src.len() && src[k] == c;
            if k < src.len() - 1 {
                assert(src.drop_last()[k] == c);
                assert(p.contains(c));
                if !members.contains(src.last()) {
                    let k2 = choose|k2: int| 0 <= k2 < p.len() && p[k2] == c;
                    assert(d[k2] == c);
                }
            } else {
                assert(c == src.last());
                assert(d[d.len() - 1] == c);
            }
        }
        if !members.contains(src.last()) {
            if src.drop_last().contains(src.last()) {
                let k = choose|k: int|
                    0 <= k < src.drop_last().len() && src.drop_last()[k] == src.last();
                assert(src[k] == src[src.len() - 1]);
            }
            assert(!p.contains(src.last()));
            assert forall|i: int, j: int| 0 <= i < d.len() && 0 <= j < d.len() && i != j implies d[i]
                != d[j] by {
                if i < p.len() && j < p.len() {
                    assert(d[i] == p[i] && d[j] == p[j]);
                } else if i < p.len() {
                    assert(d[i] == p[i] && p.contains(p[i]));
                } else if j < p.len() {
                    assert(d[j] == p[j] && p.contains(p[j]));
                }
            }
        }
    }
}

/// The number of separators the partitioner aims for: `ceil(alen / 3.5)`,
/// but at least 2.
pub open spec fn sep_target(alen: int) -> int {
    let q = (2 * alen + 6) / 7;
    if q < 2 {
        2
    } else {
        q
    }
}

/// Separator candidates found in the deduplicated alphabet `u`, in the
/// candidate order.
pub open spec fn part_s0(u: Seq<char>) -> Seq<char> {
    spec_keep_in(default_separators(), u)
}

/// The deduplicated alphabet with the separator candidates removed.
pub open spec fn part_a0(u: Seq<char>) -> Seq<char> {
    spec_drop_in(u, default_separators())
}

/// The separators after the salted shuffle.
pub open spec fn part_s1(salt: Seq<char>, u: Seq<char>) -> Seq<char> {
    spec_shuffle(part_s0(u), salt)
}

/// Whether the separator count must be adjusted: no separators at all, or
/// more than 3.5 alphabet characters per separator.
pub open spec fn part_stretch(salt: Seq<char>, u: Seq<char>) -> bool {
    part_s1(salt, u).len() == 0 || 2 * part_a0(u).len() > 7 * part_s1(salt, u).len()
}

/// The separator count the adjustment aims for.
pub open spec fn part_t(u: Seq<char>) -> int {
    sep_target(part_a0(u).len() as int)
}

/// The alphabet after the adjustment moved leading characters out of it.
pub open spec fn part_a2(salt: Seq<char>, u: Seq<char>) -> Seq<char> {
    if part_stretch(salt, u) && part_t(u) > part_s1(salt, u).len() {
        part_a0(u).skip(part_t(u) - part_s1(salt, u).len())
    } else {
        part_a0(u)
    }
}

/// The separators after the adjustment.
pub open spec fn part_s2(salt: Seq<char>, u: Seq<char>) -> Seq<char> {
    if part_stretch(salt, u) {
        if part_t(u) > part_s1(salt, u).len() {
            part_s1(salt, u) + part_a0(u).take(part_t(u) - part_s1(salt, u).len())
        } else {
            part_s1(salt, u).take(part_t(u))
        }
    } else {
        part_s1(salt, u)
    }
}

/// The alphabet after its own salted shuffle.
pub open spec fn part_a3(salt: Seq<char>, u: Seq<char>) -> Seq<char> {
    spec_shuffle(part_a2(salt, u), salt)
}

/// How many guard characters are extracted: `ceil(|alphabet| / 12)`.
pub open spec fn part_g(salt: Seq<char>, u: Seq<char>) -> int {
    (part_a3(salt, u).len() + 11) as int / 12
}

/// The partitioning of a deduplicated alphabet `u` under `salt`: separator
/// extraction, the salted shuffles, the separator count adjustment, and the
/// guard extraction.  Guards come from the separators when the alphabet is
/// left with fewer than three characters, else from the alphabet.
pub open spec fn spec_partition(salt: Seq<char>, u: Seq<char>, min_length: nat) -> ConfigModel {
    let s2 = part_s2(salt, u);
    let a3 = part_a3(salt, u);
    let g = part_g(salt, u);
    if a3.len() < 3 {
        ConfigModel {
            salt,
            alphabet: a3,
            separators: s2.skip(g),
            guards: s2.take(g),
            min_hash_length: min_length,
        }
    } else {
        ConfigModel {
            salt,
            alphabet: a3.skip(g),
            separators: s2,
            guards: a3.take(g),
            min_hash_length: min_length,
        }
    }
}

/// Building a configuration from a salt, a raw alphabet and a minimum
/// length: deduplicate, reject alphabets that are too short or hold the
/// reserved space character, then partition.
pub open spec fn spec_build(salt: Seq<char>, alphabet: Seq<char>, min_length: nat) -> Result<
    ConfigModel,
    BuildError,
> {
    let u = spec_dedup(alphabet);
    if u.len() < 16 {
        Err(BuildError::ShortAlphabet)
    } else if u.contains(' ') {
        Err(BuildError::SpaceInAlphabet)
    } else {
        Ok(spec_partition(salt, u, min_length))
    }
}

pub proof fn lemma_default_separators_distinct()
    ensures
        default_separators().no_duplicates(),
{
    assert(default_separators().no_duplicates());
}

pub proof fn lemma_default_alphabet_distinct()
    ensures
        default_alphabet().no_duplicates(),
{
    assert(default_alphabet().no_duplicates());
}

/// In a duplicate-free sequence every character counts 0 or 1.
proof fn lemma_count_no_dup(s: Seq<char>, x: char)
    requires
        s.no_duplicates(),
    ensures
        s.to_multiset().count(x) == if s.contains(x) {
            1nat
        } else {
            0nat
        },
{
    broadcast use vstd::seq_lib::group_to_multiset_ensures;

    s.lemma_multiset_has_no_duplicates();
}

/// Concatenation of three sequences adds their multisets.
proof fn lemma_ms_split3(a: Seq<char>, b: Seq<char>, c: Seq<char>)
    ensures
        (a + b + c).to_multiset() == a.to_multiset().add(b.to_multiset()).add(c.to_multiset()),
{
    lemma_multiset_commutative(a + b, c);
    lemma_multiset_commutative(a, b);
}

/// A sequence splits at any point into a prefix and a suffix whose multisets
/// add back to the whole.
proof fn lemma_ms_take_skip(s: Seq<char>, k: int)
    requires
        0 <= k <= s.len(),
    ensures
        s.take(k).to_multiset().add(s.skip(k).to_multiset()) == s.to_multiset(),
{
    assert(s =~= s.take(k) + s.skip(k));
    lemma_multiset_commutative(s.take(k), s.skip(k));
}

/// Separator extraction partitions the deduplicated alphabet: the two parts
/// hold exactly its characters between them.
proof fn lemma_partition_multiset(u: Seq<char>)
    requires
        u.no_duplicates(),
    ensures
        (spec_drop_in(u, default_separators()) + spec_keep_in(default_separators(), u)).to_multiset()
            == u.to_multiset(),
{
    broadcast use vstd::multiset::group_multiset_axioms;

    let ds = default_separators();
    lemma_default_separators_distinct();
    lemma_drop_in_props(u, ds);
    lemma_keep_in_props(ds, u);
    let a0 = part_a0(u);
    let s0 = part_s0(u);
    lemma_multiset_commutative(a0, s0);
    assert forall|x: char| (a0 + s0).to_multiset().count(x) == u.to_multiset().count(x) by {
        lemma_count_no_dup(a0, x);
        lemma_count_no_dup(s0, x);
        lemma_count_no_dup(u, x);
    }
    assert((a0 + s0).to_multiset() =~= u.to_multiset());
}

/// The alphabet-construction invariant: partitioning a deduplicated
/// alphabet of at least 16 characters yields a well-formed configuration
/// whose three sets are pairwise disjoint and together hold exactly the
/// characters of the deduplicated input.
pub proof fn lemma_partition_wf(salt: Seq<char>, u: Seq<char>, min_length: nat)
    requires
        u.no_duplicates(),
        u.len() >= 16,
    ensures
        spec_partition(salt, u, min_length).wf(),
        (spec_partition(salt, u, min_length).alphabet + spec_partition(
            salt,
            u,
            min_length,
        ).separators + spec_partition(salt, u, min_length).guards).to_multiset() == u.to_multiset(),
        spec_partition(salt, u, min_length).salt == salt,
        spec_partition(salt, u, min_length).min_hash_length == min_length,
        part_a0(u).len() + part_s0(u).len() == u.len(),
        part_s0(u).len() <= 14,
        part_a0(u).len() >= 2,
        2 <= part_t(u) <= part_a0(u).len(),
        part_a2(salt, u).len() >= 2,
        part_s2(salt, u).len() >= 1,
        part_a3(salt, u).len() == part_a2(salt, u).len(),
        1 <= part_g(salt, u) <= part_a3(salt, u).len(),
        part_a3(salt, u).len() < 3 ==> part_g(salt, u) == 1 && part_s2(salt, u).len() >= 14,
        part_a3(salt, u).len() >= 3 ==> part_g(salt, u) <= part_a3(salt, u).len() - 2,
{
    broadcast use vstd::multiset::group_multiset_axioms;
    broadcast use vstd::seq_lib::group_to_multiset_ensures;

    let ds = default_separators();
    lemma_default_separators_distinct();
    lemma_drop_in_props(u, ds);
    lemma_keep_in_props(ds, u);
    lemma_partition_multiset(u);
    let a0 = part_a0(u);
    let s0 = part_s0(u);
    lemma_multiset_commutative(a0, s0);
    assert(a0.len() + s0.len() == u.len()) by {
        assert((a0 + s0).to_multiset().len() == u.to_multiset().len());
    }
    assert(s0.len() <= 14);
    assert(a0.len() >= 2);
    let alen = a0.len() as int;
    let s1 = part_s1(salt, u);
    lemma_spec_shuffle_multiset(s0, salt);
    assert(s1.len() == s0.len());
    let stretch = part_stretch(salt, u);
    let t = part_t(u);
    let q = (2 * alen + 6) / 7;
    vstd::arithmetic::div_mod::lemma_fundamental_div_mod(2 * alen + 6, 7);
    assert(0 <= (2 * alen + 6) % 7 < 7);
    assert(7 * q <= 2 * alen + 6 && 2 * alen + 6 < 7 * q + 7);
    assert(2 <= t);
    assert(t <= alen) by {
        assert(7 * q <= 2 * alen + 6);
        assert(alen >= 2);
    }
    let moved = t - s1.len();
    let a2 = part_a2(salt, u);
    let s2 = part_s2(salt, u);
    if stretch {
        // The target always exceeds the current count here, so the branch
        // that would shorten the separator list cannot run.
        assert(t > s1.len()) by {
            if s1.len() > 0 {
                assert(2 * alen > 7 * s1.len());
                assert(7 * q > 7 * s1.len() - 7 + 6);
            }
        }
        // At least three alphabet characters survive the move.
        if s1.len() == 0 {
            assert(a0.len() == u.len() >= 16);
        } else {
            assert(2 * alen > 7 * s1.len());
        }
        assert(a2.len() >= 3) by {
            assert(7 * q <= 2 * alen + 6);
            if s1.len() == 0 {
                assert(alen >= 16);
                assert(a2.len() == alen - t);
                if t == 2 {
                    assert(alen - t >= 14);
                } else {
                    assert(t == q);
                    assert(7 * (alen - q) >= 7 * alen - (2 * alen + 6));
                    assert(7 * (alen - q) >= 5 * alen - 6 >= 74);
                }
            } else {
                assert(2 * alen > 7 * s1.len() >= 7);
                assert(alen >= 4);
                assert(a2.len() == alen + s1.len() - t);
                if t == 2 {
                    assert(alen + s1.len() - t >= 3);
                } else {
                    assert(t == q);
                    assert(7 * (alen + s1.len() - q) >= 7 * alen + 7 * s1.len() - (2 * alen + 6));
                    assert(7 * (alen + s1.len() - q) >= 5 * alen + 7 * s1.len() - 6 >= 21);
                }
            }
        }
        assert(s2.len() == t >= 2);
        // The move keeps the combined contents.
        assert((a2 + s2).to_multiset() == u.to_multiset()) by {
            lemma_ms_take_skip(a0, moved);
            lemma_multiset_commutative(a2, s2);
            lemma_multiset_commutative(s1, a0.take(moved));
            assert forall|x: char| (a2 + s2).to_multiset().count(x) == (a0 + s0).to_multiset().count(
                x,
            ) by {
                lemma_multiset_commutative(a0, s0);
            }
            assert((a2 + s2).to_multiset() =~= (a0 + s0).to_multiset());
        }
    } else {
        assert(s2.len() == s1.len() >= 1);
        assert(a2.len() >= 2);
        assert((a2 + s2).to_multiset() == u.to_multiset()) by {
            lemma_multiset_commutative(a2, s2);
            lemma_multiset_commutative(a0, s0);
            assert((a2 + s2).to_multiset() =~= (a0 + s0).to_multiset());
        }
    }
    let a3 = part_a3(salt, u);
    lemma_spec_shuffle_multiset(a2, salt);
    assert(a3.len() == a2.len());
    let g = part_g(salt, u);
    vstd::arithmetic::div_mod::lemma_fundamental_div_mod(a3.len() as int + 11, 12);
    assert(12 * g <= a3.len() + 11 && a3.len() + 11 < 12 * g + 12);
    assert(g >= 1);
    assert(g <= a3.len()) by {
        if g > a3.len() {
            assert(12 * g >= 12 * a3.len() + 12);
        }
    }
    let m = spec_partition(salt, u, min_length);
    if a3.len() < 3 {
        // Only a 2-character alphabet reaches this branch, and then the
        // separators were never reshuffled away from the full candidate set.
        assert(a3.len() == 2);
        assert(!stretch);
        assert(s2.len() == s0.len());
        assert(a0.len() == 2);
        assert(s0.len() >= 14);
        assert(g == 1);
        assert(m.alphabet == a3 && m.separators == s2.skip(1) && m.guards == s2.take(1));
        assert(m.separators.len() >= 13);
        assert((m.alphabet + m.separators + m.guards).to_multiset() == u.to_multiset()) by {
            lemma_ms_split3(m.alphabet, m.separators, m.guards);
            lemma_ms_take_skip(s2, 1);
            lemma_multiset_commutative(a2, s2);
            assert((m.alphabet + m.separators + m.guards).to_multiset() =~= (a2
                + s2).to_multiset());
        }
    } else {
        assert(g <= a3.len() - 2) by {
            if a3.len() >= 4 {
                assert(12 * g <= a3.len() + 11);
                assert(12 * (a3.len() - 2) >= a3.len() + 11);
            } else {
                assert(a3.len() == 3);
                assert(g == (14int) / 12 == 1);
            }
        }
        assert(m.alphabet == a3.skip(g) && m.separators == s2 && m.guards == a3.take(g));
        assert(m.alphabet.len() >= 2);
        assert((m.alphabet + m.separators + m.guards).to_multiset() == u.to_multiset()) by {
            lemma_ms_split3(m.alphabet, m.separators, m.guards);
            lemma_ms_take_skip(a3, g);
            lemma_multiset_commutative(a2, s2);
            assert((m.alphabet + m.separators + m.guards).to_multiset() =~= (a2
                + s2).to_multiset());
        }
    }
    // Disjointness: the combined sequence inherits the input's freedom from
    // duplicates through the unchanged multiset.
    let combined = m.alphabet + m.separators + m.guards;
    assert(combined.no_duplicates()) by {
        assert forall|x: char| combined.to_multiset().contains(x) implies combined.to_multiset().count(
            x,
        ) == 1 by {
            lemma_count_no_dup(u, x);
        }
        combined.lemma_multiset_has_no_duplicates_conv();
    }
}


/// The default raw alphabet as a character vector.
fn default_alphabet_vec() -> (v: Vec<char>)
    ensures
        v@ == default_alphabet(),
{
    let mut v: Vec<char> = Vec::new();
    v.push('a');
    v.push('b');
    v.push('c');
    v.push('d');
    v.push('e');
    v.push('f');
    v.push('g');
    v.push('h');
    v.push('i');
    v.push('j');
    v.push('k');
    v.push('l');
    v.push('m');
    v.push('n');
    v.push('o');
    v.push('p');
    v.push('q');
    v.push('r');
    v.push('s');
    v.push('t');
    v.push('u');
    v.push('v');
    v.push('w');
    v.push('x');
    v.push('y');
    v.push('z');
    v.push('A');
    v.push('B');
    v.push('C');
    v.push('D');
    v.push('E');
    v.push('F');
    v.push('G');
    v.push('H');
    v.push('I');
    v.push('J');
    v.push('K');
    v.push('L');
    v.push('M');
    v.push('N');
    v.push('O');
    v.push('P');
    v.push('Q');
    v.push('R');
    v.push('S');
    v.push('T');
    v.push('U');
    v.push('V');
    v.push('W');
    v.push('X');
    v.push('Y');
    v.push('Z');
    v.push('1');
    v.push('2');
    v.push('3');
    v.push('4');
    v.push('5');
    v.push('6');
    v.push('7');
    v.push('8');
    v.push('9');
    v.push('0');
    proof {
        assert(v@ =~= default_alphabet());
    }
    v
}

/// The default separator candidates as a character vector.
fn default_separators_vec() -> (v: Vec<char>)
    ensures
        v@ == default_separators(),
{
    let mut v: Vec<char> = Vec::new();
    v.push('c');
    v.push('f');
    v.push('h');
    v.push('i');
    v.push('s');
    v.push('t');
    v.push('u');
    v.push('C');
    v.push('F');
    v.push('H');
    v.push('I');
    v.push('S');
    v.push('T');
    v.push('U');
    proof {
        assert(v@ =~= default_separators());
    }
    v
}

/// Removes duplicate characters, keeping first occurrences in order.
fn dedup_chars(input: &Vec<char>) -> (r: Vec<char>)
    ensures
        r@ == spec_dedup(input@),
{
    let mut r: Vec<char> = Vec::new();
    let mut i: usize = 0;
    while i < input.len()
        invariant
            i <= input@.len(),
            r@ == spec_dedup(input@.take(i as int)),
        decreases input@.len() - i,
    {
        let c = input[i];
        proof {
            assert(input@.take(i as int + 1).drop_last() =~= input@.take(i as int));
            assert(input@.take(i as int + 1).last() == input@[i as int]);
        }
        if !contains_char(&r, c) {
            r.push(c);
        }
        i = i + 1;
    }
    proof {
        assert(input@.take(input@.len() as int) =~= input@);
    }
    r
}

/// The characters of `src`, in order, that occur in `members`.
fn filter_keep(src: &Vec<char>, members: &Vec<char>) -> (r: Vec<char>)
    ensures
        r@ == spec_keep_in(src@, members@),
{
    let mut r: Vec<char> = Vec::new();
    let mut i: usize = 0;
    while i < src.len()
        invariant
            i <= src@.len(),
            r@ == spec_keep_in(src@.take(i as int), members@),
        decreases src@.len() - i,
    {
        let c = src[i];
        proof {
            assert(src@.take(i as int + 1).drop_last() =~= src@.take(i as int));
            assert(src@.take(i as int + 1).last() == src@[i as int]);
        }
        if contains_char(members, c) {
            r.push(c);
        }
        i = i + 1;
    }
    proof {
        assert(src@.take(src@.len() as int) =~= src@);
    }
    r
}

/// The characters of `src`, in order, that do not occur in `members`.
fn filter_drop(src: &Vec<char>, members: &Vec<char>) -> (r: Vec<char>)
    ensures
        r@ == spec_drop_in(src@, members@),
{
    let mut r: Vec<char> = Vec::new();
    let mut i: usize = 0;
    while i < src.len()
        invariant
            i <= src@.len(),
            r@ == spec_drop_in(src@.take(i as int), members@),
        decreases src@.len() - i,
    {
        let c = src[i];
        proof {
            assert(src@.take(i as int + 1).drop_last() =~= src@.take(i as int));
            assert(src@.take(i as int + 1).last() == src@[i as int]);
        }
        if !contains_char(members, c) {
            r.push(c);
        }
        i = i + 1;
    }
    proof {
        assert(src@.take(src@.len() as int) =~= src@);
    }
    r
}

/// The mathematical content of a builder: what has been set so far.
pub struct BuilderModel {
    pub salt: Seq<char>,
    pub min_length: nat,
    pub alphabet: Option<Seq<char>>,
}

/// The raw alphabet a builder hands to the partitioner: the custom one if
/// set, else the default.
pub open spec fn spec_builder_input(m: BuilderModel) -> Seq<char> {
    match m.alphabet {
        Some(a) => a,
        None => default_alphabet(),
    }
}

/// Collects a salt, an optional custom alphabet and a minimum output length,
/// then builds the configuration.
#[derive(Debug, Clone)]
pub struct HashIdsBuilder {
    pub(crate) salt: Vec<char>,
    pub(crate) min_length: usize,
    pub(crate) alphabet: Option<Vec<char>>,
}

impl View for HashIdsBuilder {
    type V = BuilderModel;

    open(crate) spec fn view(&self) -> BuilderModel {
        BuilderModel {
            salt: self.salt@,
            min_length: self.min_length as nat,
            alphabet: match self.alphabet {
                Some(v) => Some(v@),
                None => None,
            },
        }
    }
}

impl Default for HashIdsBuilder {
    /// A builder with an empty salt, no custom alphabet and no minimum
    /// length.
    fn default() -> (r: Self)
        ensures
            r@.salt == Seq::<char>::empty(),
            r@.min_length == 0,
            r@.alphabet is None,
    {
        HashIdsBuilder { salt: Vec::new(), min_length: 0, alphabet: None }
    }
}

impl HashIdsBuilder {
    /// A builder with an empty salt, no custom alphabet and no minimum
    /// length.
    pub fn new() -> (r: Self)
        ensures
            r@.salt == Seq::<char>::empty(),
            r@.min_length == 0,
            r@.alphabet is None,
    {
        HashIdsBuilder { salt: Vec::new(), min_length: 0, alphabet: None }
    }

    /// Sets the salt.
    pub fn salt(self, salt: &str) -> (r: Self)
        ensures
            r@.salt == salt@,
            r@.min_length == self@.min_length,
            r@.alphabet == self@.alphabet,
    {
        let HashIdsBuilder { salt: _, min_length, alphabet } = self;
        HashIdsBuilder { salt: chars_of(salt), min_length, alphabet }
    }

    /// Sets the minimum length of encoded strings.
    pub fn min_length(self, min_length: usize) -> (r: Self)
        ensures
            r@.salt == self@.salt,
            r@.min_length == min_length,
            r@.alphabet == self@.alphabet,
    {
        let HashIdsBuilder { salt, min_length: _, alphabet } = self;
        HashIdsBuilder { salt, min_length, alphabet }
    }

    /// Sets a custom alphabet.
    pub fn alphabet(self, alphabet: &str) -> (r: Self)
        ensures
            r@.salt == self@.salt,
            r@.min_length == self@.min_length,
            r@.alphabet == Some(alphabet@),
    {
        let HashIdsBuilder { salt, min_length, alphabet: _ } = self;
        HashIdsBuilder { salt, min_length, alphabet: Some(chars_of(alphabet)) }
    }

    /// Builds the configuration: deduplicates the alphabet, rejects ones
    /// that are too short or hold a space, and partitions the rest into
    /// alphabet, separators and guards.
    pub fn build(self) -> (r: Result<HashIds, BuildError>)
        ensures
            match r {
                Ok(ids) => {
                    &&& Ok::<ConfigModel, BuildError>(ids@) == spec_build(
                        self@.salt,
                        spec_builder_input(self@),
                        self@.min_length,
                    )
                    &&& ids@.wf()
                    &&& (ids@.alphabet + ids@.separators + ids@.guards).to_multiset()
                        == spec_dedup(spec_builder_input(self@)).to_multiset()
                },
                Err(e) => spec_build(self@.salt, spec_builder_input(self@), self@.min_length)
                    == Err::<ConfigModel, BuildError>(e),
            },
    {
        let ghost gsalt = self@.salt;
        let ghost gmin = self@.min_length;
        let HashIdsBuilder { salt, min_length, alphabet } = self;
        let input: Vec<char> = match alphabet {
            Some(a) => a,
            None => default_alphabet_vec(),
        };
        let u = dedup_chars(&input);
        proof {
            lemma_dedup_props(input@);
        }
        if u.len() < 16 {
            return Err(BuildError::ShortAlphabet);
        }
        if contains_char(&u, ' ') {
            return Err(BuildError::SpaceInAlphabet);
        }
        proof {
            lemma_partition_wf(gsalt, u@, gmin);
        }
        let ds = default_separators_vec();
        let mut seps = filter_keep(&ds, &u);
        let mut alpha = filter_drop(&u, &ds);
        shuffle(&mut seps, &salt);
        assert(seps@ == part_s1(gsalt, u@));
        let stretch = seps.len() == 0 || 2u128 * (alpha.len() as u128) > 7u128 * (seps.len()
            as u128);
        assert(stretch == part_stretch(gsalt, u@));
        if stretch {
            let q: u128 = (2u128 * (alpha.len() as u128) + 6) / 7;
            let t128: u128 = if q < 2 {
                2
            } else {
                q
            };
            assert(t128 == part_t(u@));
            let t = t128 as usize;
            if t > seps.len() {
                let d = t - seps.len();
                let moved_part = take_chars(&alpha, d);
                append_chars(&mut seps, &moved_part);
                alpha = skip_chars(&alpha, d);
            } else {
                seps = take_chars(&seps, t);
            }
        }
        assert(alpha@ == part_a2(gsalt, u@));
        assert(seps@ == part_s2(gsalt, u@));
        shuffle(&mut alpha, &salt);
        assert(alpha@ == part_a3(gsalt, u@));
        let g128: u128 = (alpha.len() as u128 + 11) / 12;
        assert(g128 == part_g(gsalt, u@));
        let g = g128 as usize;
        let ids: HashIds;
        if alpha.len() < 3 {
            let guards = take_chars(&seps, g);
            let seps_rest = skip_chars(&seps, g);
            ids = HashIds {
                salt,
                alphabet: alpha,
                separators: seps_rest,
                min_hash_length: min_length,
                guards,
            };
        } else {
            let guards = take_chars(&alpha, g);
            let alpha_rest = skip_chars(&alpha, g);
            ids = HashIds {
                salt,
                alphabet: alpha_rest,
                separators: seps,
                min_hash_length: min_length,
                guards,
            };
        }
        assert(ids@ == spec_partition(gsalt, u@, gmin));
        Ok(ids)
    }
}

/// With the default alphabet, building never fails, whatever the salt and
/// the minimum length.
pub proof fn lemma_default_build_ok(salt: Seq<char>, min_length: nat)
    ensures
        spec_build(salt, default_alphabet(), min_length) is Ok,
        spec_build(salt, default_alphabet(), min_length) == Ok::<ConfigModel, BuildError>(
            spec_partition(salt, default_alphabet(), min_length),
        ),
{
    lemma_default_alphabet_distinct();
    lemma_dedup_of_distinct(default_alphabet());
    assert(spec_dedup(default_alphabet()).len() == 62);
    assert(!default_alphabet().contains(' '));
}

impl HashIds {
    /// The configuration with the default alphabet, no salt and no minimum
    /// length.
    pub fn new() -> (r: Self)
        ensures
            Ok::<ConfigModel, BuildError>(r@) == spec_build(
                Seq::<char>::empty(),
                default_alphabet(),
                0,
            ),
            r@.wf(),
    {
        proof {
            lemma_default_build_ok(Seq::<char>::empty(), 0);
        }
        match HashIdsBuilder::new().build() {
            Ok(ids) => ids,
            Err(_) => vstd::pervasive::unreached(),
        }
    }

    /// The configuration with the default alphabet and the given salt.
    pub fn with_salt(salt: &str) -> (r: Self)
        ensures
            Ok::<ConfigModel, BuildError>(r@) == spec_build(salt@, default_alphabet(), 0),
            r@.wf(),
    {
        proof {
            lemma_default_build_ok(salt@, 0);
        }
        match HashIdsBuilder::new().salt(salt).build() {
            Ok(ids) => ids,
            Err(_) => vstd::pervasive::unreached(),
        }
    }

    /// The configuration with the default alphabet, the given salt and the
    /// given minimum length.
    pub fn new_with_salt_and_min_length(salt: String, min_hash_length: usize) -> (r: Self)
        ensures
            Ok::<ConfigModel, BuildError>(r@) == spec_build(
                salt@,
                default_alphabet(),
                min_hash_length as nat,
            ),
            r@.wf(),
    {
        proof {
            lemma_default_build_ok(salt@, min_hash_length as nat);
        }
        match HashIdsBuilder::new().salt(salt.as_str()).min_length(min_hash_length).build() {
            Ok(ids) => ids,
            Err(_) => vstd::pervasive::unreached(),
        }
    }

    /// The configuration with the default alphabet and the given salt, with
    /// no minimum length.
    pub fn new_with_salt(salt: String) -> (r: Self)
        ensures
            Ok::<ConfigModel, BuildError>(r@) == spec_build(salt@, default_alphabet(), 0),
            r@.wf(),
    {
        HashIds::new_with_salt_and_min_length(salt, 0)
    }
}

} // verus!
