//! Properties of the codec that hold beyond the contracts of the single
//! functions: the encode/decode round trip, what the decoder can accept at
//! all, determinism, and the minimum output length.

use crate::codec::{
    pad_needed, spec_add_guards, spec_buffer, spec_char_pos, spec_checksum, spec_decode,
    spec_decode_pieces, spec_digits, spec_encode, spec_encode_loop, spec_first_in, spec_last_in,
    spec_pad, spec_sep_index, spec_split_from, spec_strip_guards, spec_unhash_from, DecodeError,
};
use crate::config::ConfigModel;
use crate::shuffle::{lemma_spec_shuffle_multiset, spec_shuffle};
use vstd::prelude::*;

verus! {

/// All characters of `s` occur in `set`.
pub open spec fn chars_within(s: Seq<char>, set: Seq<char>) -> bool {
    forall|k: int| 0 <= k < s.len() ==> set.contains(#[trigger] s[k])
}

/// Two sequences with the same multiset contain the same characters, and a
/// permutation of a duplicate-free sequence is duplicate-free.
proof fn lemma_multiset_same_contents(a: Seq<char>, b: Seq<char>)
    requires
        a.to_multiset() == b.to_multiset(),
    ensures
        forall|c: char| a.contains(c) <==> b.contains(c),
        a.no_duplicates() ==> b.no_duplicates(),
        a.len() == b.len(),
{
    a.to_multiset_ensures();
    b.to_multiset_ensures();
    assert forall|c: char| a.contains(c) <==> b.contains(c) by {
        assert(a.to_multiset().count(c) == b.to_multiset().count(c));
        assert(a.contains(c) <==> a.to_multiset().count(c) > 0);
        assert(b.contains(c) <==> b.to_multiset().count(c) > 0);
    }
    if a.no_duplicates() {
        a.lemma_multiset_has_no_duplicates();
        b.lemma_multiset_has_no_duplicates_conv();
    }
}

/// Under well-formedness, the three character sets are pairwise disjoint
/// and each is duplicate-free.
proof fn lemma_wf_disjoint(m: ConfigModel)
    requires
        m.wf(),
    ensures
        m.alphabet.no_duplicates(),
        forall|c: char| m.alphabet.contains(c) ==> !m.separators.contains(c),
        forall|c: char| m.alphabet.contains(c) ==> !m.guards.contains(c),
        forall|c: char| m.separators.contains(c) ==> !m.guards.contains(c),
{
    let all = m.alphabet + m.separators + m.guards;
    let na = m.alphabet.len() as int;
    let ns = m.separators.len() as int;
    assert forall|i: int, j: int|
        0 <= i < m.alphabet.len() && 0 <= j < m.alphabet.len() && i != j implies m.alphabet[i]
        != m.alphabet[j] by {
        assert(all[i] == m.alphabet[i] && all[j] == m.alphabet[j]);
    }
    assert forall|c: char| m.alphabet.contains(c) implies !m.separators.contains(c) by {
        if m.separators.contains(c) {
            let i = choose|i: int| 0 <= i < m.alphabet.len() && m.alphabet[i] == c;
            let j = choose|j: int| 0 <= j < m.separators.len() && m.separators[j] == c;
            assert(all[i] == c && all[na + j] == c);
        }
    }
    assert forall|c: char| m.alphabet.contains(c) implies !m.guards.contains(c) by {
        if m.guards.contains(c) {
            let i = choose|i: int| 0 <= i < m.alphabet.len() && m.alphabet[i] == c;
            let j = choose|j: int| 0 <= j < m.guards.len() && m.guards[j] == c;
            assert(all[i] == c && all[na + ns + j] == c);
        }
    }
    assert forall|c: char| m.separators.contains(c) implies !m.guards.contains(c) by {
        if m.guards.contains(c) {
            let i = choose|i: int| 0 <= i < m.separators.len() && m.separators[i] == c;
            let j = choose|j: int| 0 <= j < m.guards.len() && m.guards[j] == c;
            assert(all[na + i] == c && all[na + ns + j] == c);
        }
    }
}

/// Every character of a rendering is drawn from the alphabet it was
/// rendered in.
proof fn lemma_digits_within(n: u64, alpha: Seq<char>)
    requires
        alpha.len() >= 2,
    ensures
        chars_within(spec_digits(n, alpha), alpha),
        spec_digits(n, alpha).len() >= 1,
    decreases n,
{
    let len = alpha.len() as int;
    if alpha.len() <= 1 || n < alpha.len() {
        assert(alpha.contains(alpha[n as int]));
    } else {
        vstd::arithmetic::div_mod::lemma_div_is_ordered_by_denominator(n as int, 2, len);
        lemma_digits_within((n as int / len) as u64, alpha);
        assert(alpha.contains(alpha[n as int % len]));
        let d = spec_digits(n, alpha);
        let p = spec_digits((n as int / len) as u64, alpha);
        assert forall|k: int| 0 <= k < d.len() implies alpha.contains(#[trigger] d[k]) by {
            if k < p.len() {
                assert(d[k] == p[k]);
            }
        }
    }
}

/// Where the scan for a character of `set` stops: at the first member at or
/// after `from`, or at the end when there is none.
proof fn lemma_first_in_props(s: Seq<char>, set: Seq<char>, from: int)
    requires
        0 <= from <= s.len(),
    ensures
        from <= spec_first_in(s, set, from) <= s.len(),
        spec_first_in(s, set, from) < s.len() ==> set.contains(s[spec_first_in(s, set, from)]),
        forall|k: int| from <= k < spec_first_in(s, set, from) ==> !set.contains(#[trigger] s[k]),
    decreases s.len() - from,
{
    if from < s.len() && !set.contains(s[from]) {
        lemma_first_in_props(s, set, from + 1);
    }
}

/// The scan finds exactly the position whose earlier positions hold no
/// member of `set`.
proof fn lemma_first_in_exact(s: Seq<char>, set: Seq<char>, from: int, p: int)
    requires
        0 <= from <= p <= s.len(),
        p < s.len() ==> set.contains(s[p]),
        forall|k: int| from <= k < p ==> !set.contains(#[trigger] s[k]),
    ensures
        spec_first_in(s, set, from) == p,
    decreases s.len() - from,
{
    if from < p {
        lemma_first_in_exact(s, set, from + 1, p);
    }
}

/// The backward scan finds exactly the position whose later positions hold
/// no member of `set`.
proof fn lemma_last_in_exact(s: Seq<char>, set: Seq<char>, from: int, p: int)
    requires
        -1 <= p <= from < s.len(),
        p >= 0 ==> set.contains(s[p]),
        forall|k: int| p < k <= from ==> !set.contains(#[trigger] s[k]),
    ensures
        spec_last_in(s, set, from) == p,
    decreases from - p,
{
    if p < from {
        lemma_last_in_exact(s, set, from - 1, p);
    }
}

/// What the encoder's main loop emits from position `i` on, and how the
/// decoder reads it back: the body is non-empty, holds only alphabet and
/// separator characters, and splitting it at the separators and reading
/// each token in the replayed alphabets recovers exactly the encoded
/// numbers.
proof fn lemma_body_decodes(
    m: ConfigModel,
    nums: Seq<u64>,
    i: int,
    alpha: Seq<char>,
    lottery: char,
    acc: Seq<u64>,
)
    requires
        m.wf(),
        0 <= i < nums.len(),
        alpha.to_multiset() == m.alphabet.to_multiset(),
    ensures
        enc_body(m, nums, i, alpha, lottery).len() >= 1,
        chars_within(enc_body(m, nums, i, alpha, lottery), m.alphabet + m.separators),
        spec_decode_pieces(
            m,
            spec_split_from(enc_body(m, nums, i, alpha, lottery), m.separators, 0),
            alpha,
            lottery,
            acc,
        ) == Some(acc + nums.skip(i)),
    decreases nums.len() - i,
{
    lemma_wf_disjoint(m);
    lemma_multiset_same_contents(m.alphabet, alpha);
    let buf = spec_buffer(lottery, m.salt, alpha);
    let a2 = spec_shuffle(alpha, buf);
    lemma_spec_shuffle_multiset(alpha, buf);
    lemma_multiset_same_contents(m.alphabet, a2);
    assert(a2.len() == alpha.len() == m.alphabet.len());
    assert(a2.no_duplicates());
    let digits = spec_digits(nums[i], a2);
    lemma_digits_within(nums[i], a2);
    lemma_digits_round_trip(nums[i], a2);
    assert forall|k: int| 0 <= k < digits.len() implies m.alphabet.contains(
        #[trigger] digits[k],
    ) by {
        assert(a2.contains(digits[k]));
    }
    let body = enc_body(m, nums, i, alpha, lottery);
    let sets = m.alphabet + m.separators;
    if i + 1 >= nums.len() {
        assert(body == spec_encode_loop(m, nums, i + 1, a2, Seq::<char>::empty() + digits,
            lottery).0);
        assert(body =~= digits);
        assert forall|k: int| 0 <= k < body.len() implies sets.contains(#[trigger] body[k]) by {
            assert(m.alphabet.contains(digits[k]));
            let j = choose|j: int| 0 <= j < m.alphabet.len() && m.alphabet[j] == digits[k];
            assert(sets[j] == digits[k]);
        }
        lemma_first_in_exact(body, m.separators, 0, body.len() as int);
        assert(spec_split_from(body, m.separators, 0) == seq![body.subrange(
            0,
            body.len() as int,
        )]);
        assert(body.subrange(0, body.len() as int) =~= digits);
        assert(spec_unhash_from(digits, a2, 0, 0u64) == Some(nums[i]));
        assert(seq![digits].drop_first() =~= Seq::<Seq<char>>::empty());
        assert(spec_decode_pieces(m, Seq::<Seq<char>>::empty(), a2, lottery, acc.push(nums[i]))
            == Some(acc.push(nums[i])));
        assert(acc.push(nums[i]) =~= acc + nums.skip(i));
    } else {
        let si = spec_sep_index(m, nums[i], digits[0], i);
        assert(0 <= si < m.separators.len()) by {
            let d = digits[0] as u64 + i;
            if d != 0 {
                assert(0 <= (nums[i] as int % d) % (m.separators.len() as int)
                    < m.separators.len());
            }
        }
        let sc = m.separators[si];
        assert(m.separators.contains(sc));
        lemma_encode_loop_acc(m, nums, i + 1, a2, (Seq::<char>::empty() + digits).push(sc),
            lottery);
        let tail = enc_body(m, nums, i + 1, a2, lottery);
        lemma_body_decodes(m, nums, i + 1, a2, lottery, acc.push(nums[i]));
        let front = digits + seq![sc];
        assert(body =~= front + tail);
        assert forall|k: int| 0 <= k < body.len() implies sets.contains(#[trigger] body[k]) by {
            if k < digits.len() {
                assert(body[k] == digits[k]);
                assert(m.alphabet.contains(digits[k]));
                let j = choose|j: int| 0 <= j < m.alphabet.len() && m.alphabet[j] == digits[k];
                assert(sets[j] == digits[k]);
            } else if k == digits.len() {
                assert(body[k] == sc);
                assert(sets[m.alphabet.len() + si] == sc);
            } else {
                assert(body[k] == tail[k - digits.len() - 1]);
                assert(sets.contains(tail[k - digits.len() - 1]));
            }
        }
        // The first separator stands right after this number's digits.
        assert forall|k: int| 0 <= k < digits.len() implies !m.separators.contains(
            #[trigger] body[k],
        ) by {
            assert(body[k] == digits[k]);
            assert(m.alphabet.contains(digits[k]));
        }
        assert(body[digits.len() as int] == sc);
        lemma_first_in_exact(body, m.separators, 0, digits.len() as int);
        lemma_split_shift(front, tail, m.separators, 0);
        assert(spec_split_from(body, m.separators, 0) == seq![body.subrange(
            0,
            digits.len() as int,
        )] + spec_split_from(body, m.separators, digits.len() as int + 1)) by {
            lemma_first_in_props(body, m.separators, 0);
        }
        assert(body.subrange(0, digits.len() as int) =~= digits);
        assert(front + tail =~= body);
        assert(spec_split_from(body, m.separators, front.len() as int + 0) == spec_split_from(
            tail,
            m.separators,
            0,
        ));
        let pieces = spec_split_from(body, m.separators, 0);
        assert(pieces == seq![digits] + spec_split_from(tail, m.separators, 0));
        assert(pieces[0] == digits);
        assert(pieces.drop_first() =~= spec_split_from(tail, m.separators, 0));
        assert(spec_unhash_from(digits, a2, 0, 0u64) == Some(nums[i]));
        assert(spec_decode_pieces(m, pieces, alpha, lottery, acc) == spec_decode_pieces(
            m,
            spec_split_from(tail, m.separators, 0),
            a2,
            lottery,
            acc.push(nums[i]),
        ));
        assert(acc.push(nums[i]) + nums.skip(i + 1) =~= acc + nums.skip(i));
    }
}

/// What the padding wraps around the string: a prefix and a suffix of
/// working-alphabet characters.
spec fn pad_wrap(m: ConfigModel, alpha: Seq<char>, res: Seq<char>) -> (Seq<char>, Seq<char>)
    decreases pad_needed(m, res),
{
    if res.len() >= m.min_hash_length || alpha.len() == 0 {
        (Seq::empty(), Seq::empty())
    } else {
        let a2 = spec_shuffle(alpha, alpha);
        let half = alpha.len() as int / 2;
        let excess = res.len() + alpha.len() - m.min_hash_length;
        let start = if excess > 0 {
            excess / 2
        } else {
            0
        };
        let tail_keep = if excess > 0 {
            half - (excess - start)
        } else {
            half
        };
        let res2 = a2.skip(half + start) + res + a2.take(tail_keep);
        proof {
            lemma_spec_shuffle_multiset(alpha, alpha);
        }
        let pq = pad_wrap(m, a2, res2);
        (pq.0 + a2.skip(half + start), a2.take(tail_keep) + pq.1)
    }
}

/// The padding only wraps working-alphabet characters around the string it
/// was given: the string itself survives contiguously in the middle.
proof fn lemma_pad_wrap(m: ConfigModel, alpha: Seq<char>, res: Seq<char>)
    requires
        m.wf(),
        alpha.to_multiset() == m.alphabet.to_multiset(),
    ensures
        spec_pad(m, alpha, res) == pad_wrap(m, alpha, res).0 + res + pad_wrap(m, alpha, res).1,
        chars_within(pad_wrap(m, alpha, res).0, m.alphabet),
        chars_within(pad_wrap(m, alpha, res).1, m.alphabet),
    decreases pad_needed(m, res),
{
    lemma_multiset_same_contents(m.alphabet, alpha);
    if res.len() >= m.min_hash_length || alpha.len() == 0 {
        assert(Seq::<char>::empty() + res + Seq::<char>::empty() =~= res);
    } else {
        let a2 = spec_shuffle(alpha, alpha);
        lemma_spec_shuffle_multiset(alpha, alpha);
        lemma_multiset_same_contents(m.alphabet, a2);
        let half = alpha.len() as int / 2;
        let excess = res.len() + alpha.len() - m.min_hash_length;
        let start = if excess > 0 {
            excess / 2
        } else {
            0
        };
        let tail_keep = if excess > 0 {
            half - (excess - start)
        } else {
            half
        };
        let res2 = a2.skip(half + start) + res + a2.take(tail_keep);
        lemma_pad_wrap(m, a2, res2);
        let pq = pad_wrap(m, a2, res2);
        let front = a2.skip(half + start);
        let tail = a2.take(tail_keep);
        assert((pq.0 + front) + res + (tail + pq.1) =~= pq.0 + (front + res + tail) + pq.1);
        assert forall|k: int| 0 <= k < (pq.0 + front).len() implies m.alphabet.contains(
            #[trigger] (pq.0 + front)[k],
        ) by {
            if k >= pq.0.len() {
                assert((pq.0 + front)[k] == a2[half + start + k - pq.0.len()]);
                assert(a2.contains(a2[half + start + k - pq.0.len()]));
            }
        }
        assert forall|k: int| 0 <= k < (tail + pq.1).len() implies m.alphabet.contains(
            #[trigger] (tail + pq.1)[k],
        ) by {
            if k < tail.len() {
                assert((tail + pq.1)[k] == a2[k]);
                assert(a2.contains(a2[k]));
            }
        }
    }
}

/// Stripping the guards from a padded, guarded encoding recovers exactly
/// the unpadded core.
proof fn lemma_strip_recovers(m: ConfigModel, h: u64, core: Seq<char>, alpha_after: Seq<char>)
    requires
        m.wf(),
        core.len() >= 1,
        chars_within(core, m.alphabet + m.separators),
        alpha_after.to_multiset() == m.alphabet.to_multiset(),
    ensures
        spec_strip_guards(m, spec_pad(m, alpha_after, spec_add_guards(m, h, core))) == core,
{
    lemma_wf_disjoint(m);
    let sets = m.alphabet + m.separators;
    assert forall|k: int| 0 <= k < core.len() implies !m.guards.contains(#[trigger] core[k]) by {
        assert(sets.contains(core[k]));
        let j = choose|j: int| 0 <= j < sets.len() && sets[j] == core[k];
        if j < m.alphabet.len() {
            assert(m.alphabet.contains(core[k]));
        } else {
            assert(m.separators[j - m.alphabet.len()] == core[k]);
            assert(m.separators.contains(core[k]));
        }
    }
    let glen = m.guards.len() as int;
    if core.len() >= m.min_hash_length {
        // No guards were needed, and the padding leaves a long-enough
        // string alone.
        let s = spec_pad(m, alpha_after, core);
        assert(s == core);
        lemma_first_in_exact(s, m.guards, 0, s.len() as int);
        assert(spec_strip_guards(m, s) =~= core);
    } else {
        let g1 = m.guards[(h + core[0] as u64) % glen];
        assert(m.guards.contains(g1));
        let r1 = seq![g1] + core;
        if r1.len() >= m.min_hash_length {
            let s = spec_pad(m, alpha_after, r1);
            assert(s == r1);
            assert(s[0] == g1);
            lemma_first_in_exact(s, m.guards, 0, 0);
            assert forall|k: int| 0 < k <= s.len() - 1 implies !m.guards.contains(
                #[trigger] s[k],
            ) by {
                assert(s[k] == core[k - 1]);
            }
            lemma_last_in_exact(s, m.guards, s.len() - 1, 0);
            assert(spec_strip_guards(m, s) =~= core);
        } else {
            let g2 = m.guards[(h + r1[2] as u64) % glen];
            assert(m.guards.contains(g2));
            let guarded = r1.push(g2);
            let s = spec_pad(m, alpha_after, guarded);
            lemma_pad_wrap(m, alpha_after, guarded);
            let p = pad_wrap(m, alpha_after, guarded).0;
            let q = pad_wrap(m, alpha_after, guarded).1;
            let np = p.len() as int;
            let nc = core.len() as int;
            assert(s == p + guarded + q);
            assert(s =~= p + seq![g1] + core + seq![g2] + q);
            assert forall|k: int| 0 <= k < np implies !m.guards.contains(#[trigger] s[k]) by {
                assert(s[k] == p[k]);
                assert(m.alphabet.contains(p[k]));
            }
            assert(s[np] == g1);
            lemma_first_in_exact(s, m.guards, 0, np);
            assert(s[np + 1 + nc] == g2);
            assert forall|k: int| np + 1 + nc < k <= s.len() - 1 implies !m.guards.contains(
                #[trigger] s[k],
            ) by {
                assert(s[k] == q[k - (np + nc + 2)]);
                assert(m.alphabet.contains(q[k - (np + nc + 2)]));
            }
            lemma_last_in_exact(s, m.guards, s.len() - 1, np + 1 + nc);
            assert(spec_strip_guards(m, s) == s.subrange(np + 1, np + 1 + nc));
            assert(s.subrange(np + 1, np + 1 + nc) =~= core);
        }
    }
}

/// Round trip: decoding an encoded sequence of numbers under the same
/// well-formed configuration recovers exactly that sequence.
pub proof fn lemma_round_trip(m: ConfigModel, nums: Seq<u64>)
    requires
        m.wf(),
    ensures
        spec_decode(m, spec_encode(m, nums)) == Ok::<Seq<u64>, DecodeError>(nums),
{
    lemma_wf_disjoint(m);
    if nums.len() == 0 {
        let s = spec_encode(m, nums);
        assert(s == Seq::<char>::empty());
        assert(spec_strip_guards(m, s) =~= Seq::<char>::empty());
        assert(nums =~= Seq::<u64>::empty());
    } else {
        let h = spec_checksum(nums, nums.len() as int);
        let alen = m.alphabet.len() as int;
        let lottery = m.alphabet[h as int % alen];
        assert(m.alphabet.contains(lottery));
        let pair = spec_encode_loop(m, nums, 0, m.alphabet, seq![lottery], lottery);
        lemma_encode_loop_acc(m, nums, 0, m.alphabet, seq![lottery], lottery);
        lemma_encode_loop_alpha(m, nums, 0, m.alphabet, seq![lottery], lottery);
        let body = enc_body(m, nums, 0, m.alphabet, lottery);
        lemma_body_decodes(m, nums, 0, m.alphabet, lottery, Seq::empty());
        let core = pair.0;
        assert(core == seq![lottery] + body);
        assert(core.len() >= 2);
        let sets = m.alphabet + m.separators;
        assert forall|k: int| 0 <= k < core.len() implies sets.contains(#[trigger] core[k]) by {
            if k == 0 {
                let j = choose|j: int| 0 <= j < m.alphabet.len() && m.alphabet[j] == lottery;
                assert(sets[j] == lottery);
            } else {
                assert(core[k] == body[k - 1]);
                assert(sets.contains(body[k - 1]));
            }
        }
        lemma_strip_recovers(m, h, core, pair.1);
        let s = spec_encode(m, nums);
        assert(s == spec_pad(m, pair.1, spec_add_guards(m, h, core)));
        assert(spec_strip_guards(m, s) == core);
        // No guard survives inside the stripped core.
        assert forall|k: int| 0 <= k < core.len() implies !m.guards.contains(
            #[trigger] core[k],
        ) by {
            assert(sets.contains(core[k]));
            let j = choose|j: int| 0 <= j < sets.len() && sets[j] == core[k];
            if j < m.alphabet.len() {
                assert(m.alphabet.contains(core[k]));
            } else {
                assert(m.separators[j - m.alphabet.len()] == core[k]);
                assert(m.separators.contains(core[k]));
            }
        }
        lemma_first_in_exact(core, m.guards, 0, core.len() as int);
        assert(core[0] == lottery);
        assert(core.skip(1) =~= body);
        assert(spec_decode_pieces(
            m,
            spec_split_from(body, m.separators, 0),
            m.alphabet,
            lottery,
            Seq::empty(),
        ) == Some(Seq::<u64>::empty() + nums.skip(0)));
        assert(Seq::<u64>::empty() + nums.skip(0) =~= nums);
    }
}

/// Cross-configuration non-acceptance, the deterministic part: a decode
/// that yields a non-empty sequence accepted only a string this very
/// configuration encodes to.  A string issued under a different salt is
/// therefore either rejected or — in the rare case of a collision — decodes
/// to numbers that re-encode to it under this configuration too.  (Strings
/// that strip to nothing decode to the empty sequence by convention and are
/// exempt.)
pub proof fn lemma_decode_accepts_only_encodings(m: ConfigModel, s: Seq<char>, v: Seq<u64>)
    requires
        spec_decode(m, s) == Ok::<Seq<u64>, DecodeError>(v),
        v.len() > 0,
    ensures
        spec_encode(m, v) == s,
{
}

/// Determinism: the encoded string is a function of the configuration's
/// mathematical content and the numbers alone.  Two configurations built
/// from the same salt, alphabet and minimum length have the same content
/// (`build` fixes it as `spec_build` of those inputs), so they produce
/// byte-identical encodings for the same input.
pub proof fn lemma_encode_deterministic(c1: ConfigModel, c2: ConfigModel, nums: Seq<u64>)
    requires
        c1 == c2,
    ensures
        spec_encode(c1, nums) == spec_encode(c2, nums),
{
}

/// The padding loop never stops short of the minimum length.
proof fn lemma_pad_reaches_min(m: ConfigModel, alpha: Seq<char>, res: Seq<char>)
    requires
        alpha.len() >= 1,
    ensures
        spec_pad(m, alpha, res).len() >= m.min_hash_length,
    decreases pad_needed(m, res),
{
    if res.len() >= m.min_hash_length {
    } else {
        let a2 = crate::shuffle::spec_shuffle(alpha, alpha);
        let half = alpha.len() as int / 2;
        let excess = res.len() + alpha.len() - m.min_hash_length;
        let start = if excess > 0 {
            excess / 2
        } else {
            0
        };
        let tail_keep = if excess > 0 {
            half - (excess - start)
        } else {
            half
        };
        let res2 = a2.skip(half + start) + res + a2.take(tail_keep);
        lemma_spec_shuffle_multiset(alpha, alpha);
        lemma_pad_reaches_min(m, a2, res2);
    }
}

/// The encoder's main loop only reshuffles the working alphabet: its
/// contents, and hence its length, never change.
proof fn lemma_encode_loop_alpha(
    m: ConfigModel,
    nums: Seq<u64>,
    i: int,
    alpha: Seq<char>,
    res: Seq<char>,
    lottery: char,
)
    ensures
        spec_encode_loop(m, nums, i, alpha, res, lottery).1.to_multiset() == alpha.to_multiset(),
        spec_encode_loop(m, nums, i, alpha, res, lottery).1.len() == alpha.len(),
    decreases nums.len() - i,
{
    if i < 0 || i >= nums.len() {
    } else {
        let a2 = spec_shuffle(alpha, spec_buffer(lottery, m.salt, alpha));
        lemma_spec_shuffle_multiset(alpha, spec_buffer(lottery, m.salt, alpha));
        let digits = spec_digits(nums[i], a2);
        let res2 = res + digits;
        let res3 = if i + 1 < nums.len() {
            res2.push(m.separators[spec_sep_index(m, nums[i], digits[0], i)])
        } else {
            res2
        };
        lemma_encode_loop_alpha(m, nums, i + 1, a2, res3, lottery);
    }
}

/// The output that the encoder's main loop appends does not depend on what
/// stands in the accumulator before it.
proof fn lemma_encode_loop_acc(
    m: ConfigModel,
    nums: Seq<u64>,
    i: int,
    alpha: Seq<char>,
    res: Seq<char>,
    lottery: char,
)
    ensures
        spec_encode_loop(m, nums, i, alpha, res, lottery).0 == res + enc_body(
            m,
            nums,
            i,
            alpha,
            lottery,
        ),
        spec_encode_loop(m, nums, i, alpha, res, lottery).1 == spec_encode_loop(
            m,
            nums,
            i,
            alpha,
            Seq::empty(),
            lottery,
        ).1,
    decreases nums.len() - i,
{
    if i < 0 || i >= nums.len() {
        assert(res + Seq::<char>::empty() =~= res);
    } else {
        let a2 = spec_shuffle(alpha, spec_buffer(lottery, m.salt, alpha));
        let digits = spec_digits(nums[i], a2);
        let step: Seq<char> = if i + 1 < nums.len() {
            (digits).push(m.separators[spec_sep_index(m, nums[i], digits[0], i)])
        } else {
            digits
        };
        let res3 = if i + 1 < nums.len() {
            (res + digits).push(m.separators[spec_sep_index(m, nums[i], digits[0], i)])
        } else {
            res + digits
        };
        let emp3 = if i + 1 < nums.len() {
            (Seq::<char>::empty() + digits).push(
                m.separators[spec_sep_index(m, nums[i], digits[0], i)],
            )
        } else {
            Seq::<char>::empty() + digits
        };
        lemma_encode_loop_acc(m, nums, i + 1, a2, res3, lottery);
        lemma_encode_loop_acc(m, nums, i + 1, a2, emp3, lottery);
        let tail = enc_body(m, nums, i + 1, a2, lottery);
        assert(res3 =~= res + step);
        assert(emp3 =~= step);
        assert(res3 + tail =~= res + (step + tail));
        assert(emp3 + tail =~= step + tail);
    }
}

/// What the encoder's main loop appends from position `i` on, given the
/// working alphabet it starts from.
pub open spec fn enc_body(
    m: ConfigModel,
    nums: Seq<u64>,
    i: int,
    alpha: Seq<char>,
    lottery: char,
) -> Seq<char> {
    spec_encode_loop(m, nums, i, alpha, Seq::empty(), lottery).0
}

/// Scanning past a leading block looks only at what follows it.
proof fn lemma_first_in_shift(x: Seq<char>, y: Seq<char>, set: Seq<char>, k: int)
    requires
        0 <= k <= y.len(),
    ensures
        spec_first_in(x + y, set, x.len() + k) == x.len() + spec_first_in(y, set, k),
    decreases y.len() - k,
{
    if k < y.len() {
        assert((x + y)[x.len() + k] == y[k]);
        if !set.contains(y[k]) {
            lemma_first_in_shift(x, y, set, k + 1);
        }
    }
}

/// Splitting past a leading block splits only what follows it.
proof fn lemma_split_shift(x: Seq<char>, y: Seq<char>, seps: Seq<char>, k: int)
    requires
        0 <= k <= y.len(),
    ensures
        spec_split_from(x + y, seps, x.len() + k) == spec_split_from(y, seps, k),
    decreases y.len() - k,
{
    lemma_first_in_shift(x, y, seps, k);
    lemma_first_in_props(y, seps, k);
    let f = spec_first_in(y, seps, k);
    if f >= y.len() {
        assert((x + y).subrange(x.len() + k, (x + y).len() as int) =~= y.subrange(
            k,
            y.len() as int,
        ));
    } else {
        lemma_split_shift(x, y, seps, f + 1);
        assert((x + y).subrange(x.len() + k, x.len() + f) =~= y.subrange(k, f));
        assert(spec_split_from(x + y, seps, x.len() + k) =~= spec_split_from(y, seps, k));
    }
}

/// Minimum length: the encoding of a non-empty sequence of numbers under a
/// well-formed configuration is never shorter than the configured minimum.
/// (The empty input encodes to the empty string by convention, whatever the
/// minimum.)
pub proof fn lemma_encode_min_length(m: ConfigModel, nums: Seq<u64>)
    requires
        m.wf(),
        nums.len() > 0,
    ensures
        spec_encode(m, nums).len() >= m.min_hash_length,
{
    let h = crate::codec::spec_checksum(nums, nums.len() as int);
    let lottery = m.alphabet[h as int % (m.alphabet.len() as int)];
    lemma_encode_loop_alpha(m, nums, 0, m.alphabet, seq![lottery], lottery);
    let pair = spec_encode_loop(m, nums, 0, m.alphabet, seq![lottery], lottery);
    lemma_pad_reaches_min(m, pair.1, crate::codec::spec_add_guards(m, h, pair.0));
}

/// In a duplicate-free alphabet, looking a character up by value recovers
/// its position.
proof fn lemma_char_pos_of_index(alpha: Seq<char>, d: int, from: int)
    requires
        alpha.no_duplicates(),
        0 <= from <= d < alpha.len(),
    ensures
        spec_char_pos(alpha, alpha[d], from) == d,
    decreases alpha.len() - from,
{
    if from < d {
        lemma_char_pos_of_index(alpha, d, from + 1);
    }
}

/// Reading one more digit character after a digit string multiplies the
/// value read so far and adds the new digit's position.
proof fn lemma_unhash_push(s: Seq<char>, alpha: Seq<char>, c: char, from: int, acc: u64)
    requires
        0 <= from <= s.len(),
    ensures
        spec_unhash_from(s.push(c), alpha, from, acc) == match spec_unhash_from(
            s,
            alpha,
            from,
            acc,
        ) {
            None => None::<u64>,
            Some(v) => {
                let p = spec_char_pos(alpha, c, 0);
                if p < 0 {
                    None::<u64>
                } else if v * alpha.len() + p > u64::MAX {
                    None::<u64>
                } else {
                    Some((v * alpha.len() + p) as u64)
                }
            },
        },
    decreases s.len() - from,
{
    assert(s.push(c).len() == s.len() + 1);
    if from >= s.len() {
        assert(s.push(c)[from] == c);
        assert(spec_unhash_from(s, alpha, from, acc) == Some(acc));
        let p = spec_char_pos(alpha, c, 0);
        if p >= 0 && acc * alpha.len() + p <= u64::MAX {
            assert(spec_unhash_from(s.push(c), alpha, from + 1, (acc * alpha.len() + p) as u64)
                == Some((acc * alpha.len() + p) as u64));
        }
    } else {
        assert(s.push(c)[from] == s[from]);
        let p0 = spec_char_pos(alpha, s[from], 0);
        if p0 >= 0 && acc * alpha.len() + p0 <= u64::MAX {
            lemma_unhash_push(s, alpha, c, from + 1, (acc * alpha.len() + p0) as u64);
        }
    }
}

/// Round trip at the digit level: reading back the rendering of `n` in a
/// duplicate-free alphabet of at least two characters recovers exactly `n`.
/// This is the inversion the decoder applies, token by token, with the same
/// reshuffled alphabet the encoder used.
pub proof fn lemma_digits_round_trip(n: u64, alpha: Seq<char>)
    requires
        alpha.len() >= 2,
        alpha.no_duplicates(),
    ensures
        spec_unhash_from(spec_digits(n, alpha), alpha, 0, 0u64) == Some(n),
    decreases n,
{
    let len = alpha.len() as int;
    if n < alpha.len() {
        lemma_char_pos_of_index(alpha, n as int, 0);
        assert(spec_digits(n, alpha) == seq![alpha[n as int]]);
        assert(spec_unhash_from(seq![alpha[n as int]], alpha, 1, n) == Some(n));
    } else {
        let q = (n as int / len) as u64;
        let r = n as int % len;
        vstd::arithmetic::div_mod::lemma_div_is_ordered_by_denominator(n as int, 2, len);
        lemma_digits_round_trip(q, alpha);
        lemma_char_pos_of_index(alpha, r, 0);
        lemma_unhash_push(spec_digits(q, alpha), alpha, alpha[r], 0, 0u64);
        vstd::arithmetic::div_mod::lemma_fundamental_div_mod(n as int, len);
        assert(q == n as int / len);
        assert(q * len + r == n) by (nonlinear_arith)
            requires
                q == n as int / len,
                r == n as int % len,
                len != 0,
                n as int == len * (n as int / len) + n as int % len,
        ;
        assert(spec_digits(n, alpha) == spec_digits(q, alpha).push(alpha[r]));
    }
}

} // verus!
