//! The encoder and decoder.
//!
//! Encoding seeds a lottery character from a cheap checksum of the input
//! numbers, then renders each number in the current working alphabet,
//! reshuffling that alphabet before every number with a buffer derived from
//! the lottery character, the salt and the alphabet itself.  Separators
//! stand between numbers; guards and alphabet halves pad the result up to
//! the configured minimum length.  Decoding strips the guards, splits on the
//! separators, replays the same shuffles, and finally re-encodes the
//! recovered numbers to reject strings that this configuration never
//! produced.

use crate::config::{ConfigModel, HashIds};
use crate::shuffle::{lemma_spec_shuffle_multiset, shuffle, spec_shuffle};
use crate::text::{append_chars, chars_of, contains_char, copy_chars, skip_chars, string_of, take_chars};
use vstd::prelude::*;
use vstd::wrapping::u64_specs;

verus! {

/// The checksum accumulator after the first `k` numbers: the 64-bit wrapping
/// sum of `nums[i] mod (i + 100)`.
pub open spec fn spec_checksum(nums: Seq<u64>, k: int) -> u64
    decreases k,
{
    if k <= 0 {
        0u64
    } else {
        u64_specs::wrapping_add(
            spec_checksum(nums, k - 1),
            (nums[k - 1] as int % (k + 99)) as u64,
        )
    }
}

/// The salt buffer used to reshuffle the working alphabet before a number:
/// the lottery character, then the salt, then the alphabet itself, clipped
/// to the alphabet's length.
pub open spec fn spec_buffer(lottery: char, salt: Seq<char>, alpha: Seq<char>) -> Seq<char> {
    (seq![lottery] + salt + alpha).take(alpha.len() as int)
}

/// The rendering of `n` in the alphabet `alpha`, most significant digit
/// first.  A value below the alphabet length is a single digit.
pub open spec fn spec_digits(n: u64, alpha: Seq<char>) -> Seq<char>
    decreases n,
{
    if alpha.len() <= 1 || n < alpha.len() {
        seq![alpha[n as int]]
    } else {
        proof {
            vstd::arithmetic::div_mod::lemma_div_is_ordered_by_denominator(
                n as int,
                2,
                alpha.len() as int,
            );
        }
        spec_digits((n as int / alpha.len() as int) as u64, alpha).push(
            alpha[n as int % alpha.len() as int],
        )
    }
}

/// Which separator follows the rendering of the number `n` at position `i`,
/// whose first digit character is `first`.  The degenerate divisor 0 (a NUL
/// first digit at position 0) selects the first separator.
pub open spec fn spec_sep_index(m: ConfigModel, n: u64, first: char, i: int) -> int {
    let d = first as u64 + i;
    if d == 0 {
        0
    } else {
        (n as int % d) % (m.separators.len() as int)
    }
}

/// The encoder's main loop from position `i` on: reshuffle the working
/// alphabet, append the number's digits, and append a separator after every
/// number but the last.  Yields the output so far and the final working
/// alphabet.
pub open spec fn spec_encode_loop(
    m: ConfigModel,
    nums: Seq<u64>,
    i: int,
    alpha: Seq<char>,
    res: Seq<char>,
    lottery: char,
) -> (Seq<char>, Seq<char>)
    decreases nums.len() - i,
{
    if i < 0 || i >= nums.len() {
        (res, alpha)
    } else {
        let a2 = crate::shuffle::spec_shuffle(alpha, spec_buffer(lottery, m.salt, alpha));
        let digits = spec_digits(nums[i], a2);
        let res2 = res + digits;
        let res3 = if i + 1 < nums.len() {
            res2.push(m.separators[spec_sep_index(m, nums[i], digits[0], i)])
        } else {
            res2
        };
        spec_encode_loop(m, nums, i + 1, a2, res3, lottery)
    }
}

/// Guard padding: when the output is short of the minimum length, one guard
/// character chosen from the checksum and the first character is prepended;
/// if that still falls short, a second guard chosen from the character now
/// at position 2 is appended.
pub open spec fn spec_add_guards(m: ConfigModel, h: u64, core: Seq<char>) -> Seq<char> {
    if core.len() < m.min_hash_length {
        let g1 = m.guards[(h + core[0] as u64) % (m.guards.len() as int)];
        let r1 = seq![g1] + core;
        if r1.len() < m.min_hash_length {
            let g2 = m.guards[(h + r1[2] as u64) % (m.guards.len() as int)];
            r1.push(g2)
        } else {
            r1
        }
    } else {
        core
    }
}

/// How many characters the padding still owes.
pub open spec fn pad_needed(m: ConfigModel, res: Seq<char>) -> int {
    if res.len() >= m.min_hash_length {
        0
    } else {
        m.min_hash_length - res.len()
    }
}

/// Length padding: while the output is short of the minimum length, the
/// working alphabet is reshuffled with itself as salt and split at its
/// midpoint; the second half is prepended and the first half appended, and
/// any overshoot is trimmed evenly from both ends.
pub open spec fn spec_pad(m: ConfigModel, alpha: Seq<char>, res: Seq<char>) -> Seq<char>
    decreases pad_needed(m, res),
{
    if res.len() >= m.min_hash_length || alpha.len() == 0 {
        res
    } else {
        let a2 = crate::shuffle::spec_shuffle(alpha, alpha);
        let half = alpha.len() as int / 2;
        let excess = res.len() + alpha.len() - m.min_hash_length;
        let start = if excess > 0 {
            excess / 2
        } else {
            0
        };
        let tail_keep = if excess > 0 {
            half - (excess - start)
        } else {
            half
        };
        let res2 = a2.skip(half + start) + res + a2.take(tail_keep);
        proof {
            crate::shuffle::lemma_spec_shuffle_multiset(alpha, alpha);
            assert(a2.len() == alpha.len());
            assert(excess < alpha.len());
            assert(0 <= start);
            assert(excess > 0 ==> start <= excess / 2);
            assert(half + start <= a2.len());
            assert(0 <= tail_keep <= half);
            assert(res2.len() > res.len());
        }
        spec_pad(m, a2, res2)
    }
}

/// The encoded string for `nums` under the configuration `m`.  The empty
/// input encodes to the empty string by convention.
pub open spec fn spec_encode(m: ConfigModel, nums: Seq<u64>) -> Seq<char> {
    if nums.len() == 0 {
        Seq::empty()
    } else {
        let h = spec_checksum(nums, nums.len() as int);
        let lottery = m.alphabet[h as int % (m.alphabet.len() as int)];
        let pair = spec_encode_loop(m, nums, 0, m.alphabet, seq![lottery], lottery);
        spec_pad(m, pair.1, spec_add_guards(m, h, pair.0))
    }
}

/// Builds the reshuffle buffer: the lottery character, then as much of the
/// salt as fits, then leading characters of the working alphabet, clipped to
/// the alphabet's length.
fn make_buffer(lottery: char, salt: &Vec<char>, alpha: &Vec<char>) -> (b: Vec<char>)
    requires
        alpha@.len() >= 1,
    ensures
        b@ == spec_buffer(lottery, salt@, alpha@),
{
    let mut buffer: Vec<char> = Vec::new();
    buffer.push(lottery);
    let a_len = alpha.len();
    let needed = if salt.len() < a_len - 1 {
        salt.len()
    } else {
        a_len - 1
    };
    let salt_part = take_chars(salt, needed);
    append_chars(&mut buffer, &salt_part);
    if buffer.len() < a_len {
        let extra = a_len - buffer.len();
        let alpha_part = take_chars(alpha, extra);
        append_chars(&mut buffer, &alpha_part);
    }
    proof {
        assert(buffer@ =~= spec_buffer(lottery, salt@, alpha@));
    }
    buffer
}

/// Appends the rendering of `input` in `alphabet` to `hash`, most
/// significant digit first.
pub fn add_num_with_alphabet(hash: &mut Vec<char>, input: u64, alphabet: &Vec<char>)
    requires
        alphabet@.len() >= 2,
    ensures
        final(hash)@ == old(hash)@ + spec_digits(input, alphabet@),
{
    let len_u64: u64 = alphabet.len() as u64;
    let mut digits_rev: Vec<char> = Vec::new();
    let mut cur: u64 = input;
    loop
        invariant_except_break
            alphabet@.len() >= 2,
            len_u64 == alphabet@.len(),
            len_u64 <= usize::MAX,
            cur > 0 ==> spec_digits(input, alphabet@) == spec_digits(cur, alphabet@)
                + digits_rev@.reverse(),
            cur == 0 ==> input == 0 && digits_rev@.len() == 0,
        ensures
            spec_digits(input, alphabet@) == digits_rev@.reverse(),
            digits_rev@.len() >= 1,
        decreases cur,
    {
        let ghost prev = cur;
        let ghost digits_prev = digits_rev@;
        proof {
            assert(cur % len_u64 < len_u64);
            assert(len_u64 <= usize::MAX);
        }
        let d = (cur % len_u64) as usize;
        proof {
            assert(d == prev % len_u64);
        }
        digits_rev.push(alphabet[d]);
        cur = cur / len_u64;
        proof {
            vstd::arithmetic::div_mod::lemma_div_is_ordered_by_denominator(
                prev as int,
                2,
                len_u64 as int,
            );
            assert(digits_rev@.reverse() =~= seq![alphabet@[d as int]] + digits_prev.reverse());
            if prev < len_u64 {
                vstd::arithmetic::div_mod::lemma_small_mod(prev as nat, len_u64 as nat);
                vstd::arithmetic::div_mod::lemma_basic_div(prev as int, len_u64 as int);
                assert(cur == 0);
                assert(d == prev);
                assert(spec_digits(prev, alphabet@) == seq![alphabet@[prev as int]]);
            } else {
                assert(spec_digits(prev, alphabet@) == spec_digits(cur, alphabet@).push(
                    alphabet@[d as int],
                ));
                assert(spec_digits(cur, alphabet@) + digits_rev@.reverse() =~= spec_digits(
                    prev,
                    alphabet@,
                ) + digits_prev.reverse());
                assert(spec_digits(input, alphabet@) == spec_digits(prev, alphabet@)
                    + digits_prev.reverse());
                assert(spec_digits(input, alphabet@) == spec_digits(cur, alphabet@)
                    + digits_rev@.reverse());
            }
            if prev == 0 {
                assert(input == 0 && digits_prev.len() == 0);
                assert(digits_rev@ =~= seq![alphabet@[0]]);
                assert(digits_rev@.reverse().len() == 1);
                assert(digits_rev@.reverse()[0] == alphabet@[0]);
                assert(spec_digits(input, alphabet@) == seq![alphabet@[0]]);
                assert(spec_digits(input, alphabet@) =~= digits_rev@.reverse());
            } else if cur == 0 {
                assert(prev < len_u64) by {
                    if prev >= len_u64 {
                        vstd::arithmetic::div_mod::lemma_div_non_zero(
                            prev as int,
                            len_u64 as int,
                        );
                    }
                }
                assert(spec_digits(input, alphabet@) =~= digits_rev@.reverse());
            }
        }
        if cur == 0 {
            break;
        }
    }
    let total = digits_rev.len();
    let mut k: usize = 0;
    while k < total
        invariant
            total == digits_rev@.len(),
            k <= total,
            hash@ == old(hash)@ + digits_rev@.reverse().take(k as int),
        decreases total - k,
    {
        hash.push(digits_rev[total - 1 - k]);
        k = k + 1;
        proof {
            assert(hash@ =~= old(hash)@ + digits_rev@.reverse().take(k as int));
        }
    }
    proof {
        assert(digits_rev@.reverse().take(total as int) =~= digits_rev@.reverse());
    }
}

impl HashIds {
    /// Encodes the numbers as an opaque string.  The empty input yields the
    /// empty string; a non-empty input always reaches the configured
    /// minimum length.  Decoding the result under the same configuration
    /// recovers exactly the input.
    pub fn encode(&self, numbers: &[u64]) -> (r: String)
        requires
            self@.wf(),
        ensures
            r@ == spec_encode(self@, numbers@),
            numbers@.len() > 0 ==> r@.len() >= self@.min_hash_length,
            spec_decode(self@, r@) == Ok::<Seq<u64>, DecodeError>(numbers@),
    {
        proof {
            crate::laws::lemma_round_trip(self@, numbers@);
        }
        if numbers.len() == 0 {
            return String::new();
        }
        let mut h: u64 = 0;
        let mut i: usize = 0;
        while i < numbers.len()
            invariant
                i <= numbers@.len(),
                h == spec_checksum(numbers@, i as int),
            decreases numbers@.len() - i,
        {
            let div128: u128 = i as u128 + 100;
            let term: u64 = ((numbers[i] as u128) % div128) as u64;
            h = h.wrapping_add(term);
            i = i + 1;
        }
        let alen = self.alphabet.len();
        let lidx = (h % (alen as u64)) as usize;
        let lottery = self.alphabet[lidx];
        let mut result: Vec<char> = Vec::new();
        result.push(lottery);
        let mut alpha = copy_chars(&self.alphabet);
        let mut i: usize = 0;
        while i < numbers.len()
            invariant
                self@.wf(),
                i <= numbers@.len(),
                numbers@.len() >= 1,
                alpha@.len() == self@.alphabet.len(),
                result@.len() >= 1,
                i > 0 ==> result@.len() >= 2,
                spec_encode_loop(self@, numbers@, i as int, alpha@, result@, lottery)
                    == spec_encode_loop(
                    self@,
                    numbers@,
                    0,
                    self@.alphabet,
                    seq![lottery],
                    lottery,
                ),
            decreases numbers@.len() - i,
        {
            let ghost alpha_prev = alpha@;
            let ghost res_prev = result@;
            let buffer = make_buffer(lottery, &self.salt, &alpha);
            shuffle(&mut alpha, &buffer);
            proof {
                lemma_spec_shuffle_multiset(alpha_prev, buffer@);
            }
            let last_start = result.len();
            add_num_with_alphabet(&mut result, numbers[i], &alpha);
            proof {
                assert(spec_digits(numbers@[i as int], alpha@).len() >= 1);
            }
            let first = result[last_start];
            if i + 1 < numbers.len() {
                let d128: u128 = (first as u64) as u128 + i as u128;
                let sep_idx: usize;
                if d128 == 0 {
                    sep_idx = 0;
                } else {
                    sep_idx = (((numbers[i] as u128) % d128) % (self.separators.len()
                        as u128)) as usize;
                }
                proof {
                    assert(sep_idx as int == spec_sep_index(
                        self@,
                        numbers@[i as int],
                        first,
                        i as int,
                    ));
                }
                result.push(self.separators[sep_idx]);
            }
            proof {
                assert(spec_encode_loop(self@, numbers@, i as int, alpha_prev, res_prev, lottery)
                    == spec_encode_loop(self@, numbers@, i as int + 1, alpha@, result@, lottery));
            }
            i = i + 1;
        }
        let ghost core = result@;
        let ghost alpha_after = alpha@;
        if result.len() < self.min_hash_length {
            let glen128: u128 = self.guards.len() as u128;
            let gidx = ((h as u128 + (result[0] as u64) as u128) % glen128) as usize;
            let guard = self.guards[gidx];
            result.insert(0, guard);
            proof {
                assert(result@ =~= seq![guard] + core);
            }
            if result.len() < self.min_hash_length {
                let gidx2 = ((h as u128 + (result[2] as u64) as u128) % glen128) as usize;
                let guard2 = self.guards[gidx2];
                result.push(guard2);
            }
        }
        proof {
            assert(result@ == spec_add_guards(self@, h, core));
        }
        let half = alpha.len() / 2;
        while result.len() < self.min_hash_length
            invariant
                self@.wf(),
                alpha@.len() == self@.alphabet.len(),
                half == alpha@.len() / 2,
                spec_pad(self@, alpha@, result@) == spec_pad(
                    self@,
                    alpha_after,
                    spec_add_guards(self@, h, core),
                ),
            decreases self@.min_hash_length - result@.len(),
        {
            let ghost alpha_prev = alpha@;
            let ghost res_prev = result@;
            let prev = copy_chars(&alpha);
            shuffle(&mut alpha, &prev);
            proof {
                lemma_spec_shuffle_multiset(alpha_prev, alpha_prev);
            }
            let sum128: u128 = result.len() as u128 + alpha.len() as u128;
            let min128: u128 = self.min_hash_length as u128;
            let excess: usize = if sum128 > min128 {
                (sum128 - min128) as usize
            } else {
                0
            };
            let start = excess / 2;
            proof {
                assert(excess < alpha@.len());
                assert(excess - start <= half);
                assert(half + start <= alpha@.len());
            }
            let tail_keep = half - (excess - start);
            let front = skip_chars(&alpha, half + start);
            let tail = take_chars(&alpha, tail_keep);
            let mut new_res = front;
            append_chars(&mut new_res, &result);
            append_chars(&mut new_res, &tail);
            result = new_res;
            proof {
                assert(spec_pad(self@, alpha_prev, res_prev) == spec_pad(self@, alpha@, result@));
            }
        }
        string_of(&result)
    }
}

/// Why a string was rejected by the decoder.
#[derive(Debug, Copy, Clone, PartialEq, Eq, Structural)]
pub enum DecodeError {
    /// A guard character stands in the interior of the string.
    InternalGuardChars,
    /// A character of some number's rendering is not in the alphabet, or a
    /// rendering does not fit the supported integer width.
    NonAlphabetChars,
    /// The string is well formed but re-encoding the recovered numbers does
    /// not reproduce it: it was not produced under this configuration.
    ChecksumMismatch,
}

impl DecodeError {
    /// A short description of the error.
    pub fn description(&self) -> (r: &'static str)
        ensures
            *self == DecodeError::InternalGuardChars ==> r@
                == "Hash contains more than 2 guard characters"@,
            *self == DecodeError::NonAlphabetChars ==> r@
                == "Hash contains a character not found in the alphabet"@,
            *self == DecodeError::ChecksumMismatch ==> r@
                == "Hash was not produced by this configuration"@,
    {
        match *self {
            DecodeError::InternalGuardChars => "Hash contains more than 2 guard characters",
            DecodeError::NonAlphabetChars => "Hash contains a character not found in the alphabet",
            DecodeError::ChecksumMismatch => "Hash was not produced by this configuration",
        }
    }
}

/// The first position in `s`, at `from` or later, holding a character of
/// `set`; the length of `s` when there is none.
pub open spec fn spec_first_in(s: Seq<char>, set: Seq<char>, from: int) -> int
    decreases s.len() - from,
{
    if from < 0 || from >= s.len() {
        s.len() as int
    } else if set.contains(s[from]) {
        from
    } else {
        spec_first_in(s, set, from + 1)
    }
}

/// The last position in `s`, at `from` or earlier, holding a character of
/// `set`; -1 when there is none.
pub open spec fn spec_last_in(s: Seq<char>, set: Seq<char>, from: int) -> int
    decreases from + 1,
{
    if from < 0 || from >= s.len() {
        -1
    } else if set.contains(s[from]) {
        from
    } else {
        spec_last_in(s, set, from - 1)
    }
}

/// The first position of `c` in `alpha`; -1 when absent.
pub open spec fn spec_char_pos(alpha: Seq<char>, c: char, from: int) -> int
    decreases alpha.len() - from,
{
    if from < 0 || from >= alpha.len() {
        -1
    } else if alpha[from] == c {
        from
    } else {
        spec_char_pos(alpha, c, from + 1)
    }
}

/// The string with its outer guard runs removed: everything up to and
/// including the first guard character goes, and from the last guard
/// character on, provided that guard stands after the first.
pub open spec fn spec_strip_guards(m: ConfigModel, s: Seq<char>) -> Seq<char> {
    let fg = spec_first_in(s, m.guards, 0);
    let start = if fg == s.len() {
        0
    } else {
        fg + 1
    };
    let lg = spec_last_in(s, m.guards, s.len() - 1);
    let end = if start == 0 {
        s.len() as int
    } else if lg >= start {
        lg
    } else {
        s.len() as int
    };
    s.subrange(start, end)
}

/// The first match of a character set scan lies between the start of the
/// scan and the end of the sequence.
pub proof fn lemma_first_in_bounds(s: Seq<char>, set: Seq<char>, from: int)
    requires
        0 <= from <= s.len(),
    ensures
        from <= spec_first_in(s, set, from) <= s.len(),
    decreases s.len() - from,
{
    if from < s.len() && !set.contains(s[from]) {
        lemma_first_in_bounds(s, set, from + 1);
    }
}

/// The split of `s` from position `from` on at separator characters.  A
/// trailing separator yields a final empty token, and the split of an empty
/// string is one empty token.
pub open spec fn spec_split_from(s: Seq<char>, seps: Seq<char>, from: int) -> Seq<Seq<char>>
    decreases s.len() - from,
{
    if from < 0 || from > s.len() {
        Seq::empty()
    } else {
        let f = spec_first_in(s, seps, from);
        if f >= s.len() {
            seq![s.subrange(from, s.len() as int)]
        } else {
            proof {
                lemma_first_in_bounds(s, seps, from);
            }
            seq![s.subrange(from, f)] + spec_split_from(s, seps, f + 1)
        }
    }
}

/// The value read from `piece` in the alphabet `alpha`, most significant
/// digit first; nothing if a character is missing from the alphabet or the
/// value exceeds the 64-bit range.  An empty piece reads as 0.
pub open spec fn spec_unhash_from(piece: Seq<char>, alpha: Seq<char>, from: int, acc: u64) -> Option<
    u64,
>
    decreases piece.len() - from,
{
    if from < 0 || from >= piece.len() {
        Some(acc)
    } else {
        let p = spec_char_pos(alpha, piece[from], 0);
        if p < 0 {
            None
        } else {
            let v = acc * alpha.len() + p;
            if v > u64::MAX {
                None
            } else {
                spec_unhash_from(piece, alpha, from + 1, v as u64)
            }
        }
    }
}

/// The decoder's main loop: for each token, reshuffle the working alphabet
/// exactly as the encoder did and read the token's value in it.
pub open spec fn spec_decode_pieces(
    m: ConfigModel,
    pieces: Seq<Seq<char>>,
    alpha: Seq<char>,
    lottery: char,
    acc: Seq<u64>,
) -> Option<Seq<u64>>
    decreases pieces.len(),
{
    if pieces.len() == 0 {
        Some(acc)
    } else {
        let a2 = spec_shuffle(alpha, spec_buffer(lottery, m.salt, alpha));
        match spec_unhash_from(pieces[0], a2, 0, 0u64) {
            None => None,
            Some(n) => spec_decode_pieces(m, pieces.drop_first(), a2, lottery, acc.push(n)),
        }
    }
}

/// The decoding of `s` under `m`: strip the guards, reject interior guards,
/// split off the lottery character, split the rest at separators, read each
/// token, and accept only if re-encoding the numbers reproduces `s`.
pub open spec fn spec_decode(m: ConfigModel, s: Seq<char>) -> Result<Seq<u64>, DecodeError> {
    let core = spec_strip_guards(m, s);
    if core.len() == 0 {
        Ok(Seq::empty())
    } else if spec_first_in(core, m.guards, 0) < core.len() {
        Err(DecodeError::InternalGuardChars)
    } else {
        let lottery = core[0];
        let pieces = spec_split_from(core.skip(1), m.separators, 0);
        match spec_decode_pieces(m, pieces, m.alphabet, lottery, Seq::empty()) {
            None => Err(DecodeError::NonAlphabetChars),
            Some(nums) => if spec_encode(m, nums) == s {
                Ok(nums)
            } else {
                Err(DecodeError::ChecksumMismatch)
            },
        }
    }
}

/// The first position in `s`, at `from` or later, holding a character of
/// `set`; the length of `s` when there is none.
fn find_first_in(s: &Vec<char>, set: &Vec<char>, from: usize) -> (r: usize)
    requires
        from <= s@.len(),
    ensures
        r == spec_first_in(s@, set@, from as int),
        from <= r <= s@.len(),
{
    let mut i = from;
    while i < s.len()
        invariant
            from <= i <= s@.len(),
            spec_first_in(s@, set@, from as int) == spec_first_in(s@, set@, i as int),
        decreases s@.len() - i,
    {
        if contains_char(set, s[i]) {
            return i;
        }
        i = i + 1;
    }
    s.len()
}

/// The last position in `s` holding a character of `set`, if any.
fn find_last_in(s: &Vec<char>, set: &Vec<char>) -> (r: Option<usize>)
    ensures
        match r {
            Some(p) => spec_last_in(s@, set@, s@.len() - 1) == p && p < s@.len(),
            None => spec_last_in(s@, set@, s@.len() - 1) == -1,
        },
{
    let mut i = s.len();
    while i > 0
        invariant
            i <= s@.len(),
            spec_last_in(s@, set@, s@.len() - 1) == spec_last_in(s@, set@, i - 1),
        decreases i,
    {
        i = i - 1;
        if contains_char(set, s[i]) {
            return Some(i);
        }
    }
    None
}

/// The first position of `c` in `alphabet`, if any.
fn index_of(alphabet: &Vec<char>, c: char) -> (r: Option<usize>)
    ensures
        match r {
            Some(p) => spec_char_pos(alphabet@, c, 0) == p && p < alphabet@.len(),
            None => spec_char_pos(alphabet@, c, 0) == -1,
        },
{
    let mut i: usize = 0;
    while i < alphabet.len()
        invariant
            i <= alphabet@.len(),
            spec_char_pos(alphabet@, c, 0) == spec_char_pos(alphabet@, c, i as int),
        decreases alphabet@.len() - i,
    {
        if alphabet[i] == c {
            return Some(i);
        }
        i = i + 1;
    }
    None
}

/// Reads the value of `piece` in `alphabet`, most significant digit first.
/// Nothing if a character is missing from the alphabet or the value does
/// not fit in 64 bits.
fn unhash(piece: &Vec<char>, alphabet: &Vec<char>) -> (r: Option<u64>)
    requires
        alphabet@.len() >= 1,
    ensures
        r == spec_unhash_from(piece@, alphabet@, 0, 0u64),
{
    let mut acc: u64 = 0;
    let mut i: usize = 0;
    while i < piece.len()
        invariant
            alphabet@.len() >= 1,
            i <= piece@.len(),
            spec_unhash_from(piece@, alphabet@, 0, 0u64) == spec_unhash_from(
                piece@,
                alphabet@,
                i as int,
                acc,
            ),
        decreases piece@.len() - i,
    {
        let p = match index_of(alphabet, piece[i]) {
            Some(p) => p,
            None => {
                return None;
            },
        };
        let scaled = match acc.checked_mul(alphabet.len() as u64) {
            Some(t) => t,
            None => {
                return None;
            },
        };
        acc = match scaled.checked_add(p as u64) {
            Some(v) => v,
            None => {
                return None;
            },
        };
        i = i + 1;
    }
    Some(acc)
}

impl HashIds {
    /// Decodes a string back into the numbers it encodes.  Accepts exactly
    /// the strings that `encode` produces under this configuration: anything
    /// else is rejected with the matching error.
    pub fn decode(&self, hash: &str) -> (r: Result<Vec<u64>, DecodeError>)
        requires
            self@.wf(),
        ensures
            match r {
                Ok(v) => spec_decode(self@, hash@) == Ok::<Seq<u64>, DecodeError>(v@),
                Err(e) => spec_decode(self@, hash@) == Err::<Seq<u64>, DecodeError>(e),
            },
    {
        let chars = chars_of(hash);
        let n = chars.len();
        let fg = find_first_in(&chars, &self.guards, 0);
        let start = if fg == n {
            0
        } else {
            fg + 1
        };
        let end: usize;
        if start == 0 {
            end = n;
        } else {
            match find_last_in(&chars, &self.guards) {
                Some(lg) => {
                    if lg >= start {
                        end = lg;
                    } else {
                        end = n;
                    }
                },
                None => {
                    end = n;
                },
            }
        }
        let head = take_chars(&chars, end);
        let core = skip_chars(&head, start);
        proof {
            assert(core@ =~= spec_strip_guards(self@, hash@));
        }
        if core.len() == 0 {
            return Ok(Vec::new());
        }
        let ig = find_first_in(&core, &self.guards, 0);
        if ig < core.len() {
            return Err(DecodeError::InternalGuardChars);
        }
        let lottery = core[0];
        let rest = skip_chars(&core, 1);
        let mut alpha = copy_chars(&self.alphabet);
        let mut result: Vec<u64> = Vec::new();
        let mut pos: usize = 0;
        let ghost pieces0 = spec_split_from(rest@, self@.separators, 0);
        loop
            invariant_except_break
                self@.wf(),
                chars@ == hash@,
                core@ == spec_strip_guards(self@, hash@),
                core@.len() > 0,
                spec_first_in(core@, self@.guards, 0) == core@.len(),
                lottery == core@[0],
                rest@ == core@.skip(1),
                pieces0 == spec_split_from(rest@, self@.separators, 0),
                pos <= rest@.len(),
                alpha@.len() == self@.alphabet.len(),
                spec_decode_pieces(
                    self@,
                    spec_split_from(rest@, self@.separators, pos as int),
                    alpha@,
                    lottery,
                    result@,
                ) == spec_decode_pieces(self@, pieces0, self@.alphabet, lottery, Seq::empty()),
            ensures
                spec_decode_pieces(self@, pieces0, self@.alphabet, lottery, Seq::empty())
                    == Some(result@),
            decreases rest@.len() - pos,
        {
            let pend = find_first_in(&rest, &self.separators, pos);
            let head_piece = take_chars(&rest, pend);
            let piece = skip_chars(&head_piece, pos);
            let buffer = make_buffer(lottery, &self.salt, &alpha);
            let ghost alpha_prev = alpha@;
            shuffle(&mut alpha, &buffer);
            proof {
                lemma_spec_shuffle_multiset(alpha_prev, buffer@);
                assert(piece@ =~= rest@.subrange(pos as int, pend as int));
            }
            let value = match unhash(&piece, &alpha) {
                Some(v) => v,
                None => {
                    return Err(DecodeError::NonAlphabetChars);
                },
            };
            let ghost res_prev = result@;
            result.push(value);
            proof {
                if pend == rest@.len() {
                    assert(spec_split_from(rest@, self@.separators, pos as int) == seq![piece@]);
                    assert(seq![piece@].drop_first() =~= Seq::<Seq<char>>::empty());
                    assert(spec_decode_pieces(
                        self@,
                        Seq::<Seq<char>>::empty(),
                        alpha@,
                        lottery,
                        result@,
                    ) == Some(result@));
                    assert(spec_decode_pieces(
                        self@,
                        spec_split_from(rest@, self@.separators, pos as int),
                        alpha_prev,
                        lottery,
                        res_prev,
                    ) == Some(result@));
                } else {
                    assert(spec_split_from(rest@, self@.separators, pos as int) == seq![piece@]
                        + spec_split_from(rest@, self@.separators, pend + 1));
                    assert((seq![piece@] + spec_split_from(
                        rest@,
                        self@.separators,
                        pend + 1,
                    )).drop_first() =~= spec_split_from(rest@, self@.separators, pend + 1));
                    assert(spec_decode_pieces(
                        self@,
                        spec_split_from(rest@, self@.separators, pos as int),
                        alpha_prev,
                        lottery,
                        res_prev,
                    ) == spec_decode_pieces(
                        self@,
                        spec_split_from(rest@, self@.separators, pend + 1),
                        alpha@,
                        lottery,
                        result@,
                    ));
                }
            }
            if pend == rest.len() {
                break;
            }
            pos = pend + 1;
        }
        let recheck = self.encode(result.as_slice());
        let recheck_chars = chars_of(recheck.as_str());
        if chars_eq(&recheck_chars, &chars) {
            Ok(result)
        } else {
            Err(DecodeError::ChecksumMismatch)
        }
    }
}

/// Whether two character vectors hold the same characters.
fn chars_eq(a: &Vec<char>, b: &Vec<char>) -> (r: bool)
    ensures
        r == (a@ == b@),
{
    if a.len() != b.len() {
        return false;
    }
    let mut i: usize = 0;
    while i < a.len()
        invariant
            a@.len() == b@.len(),
            i <= a@.len(),
            forall|k: int| 0 <= k < i ==> a@[k] == b@[k],
        decreases a@.len() - i,
    {
        if a[i] != b[i] {
            return false;
        }
        i = i + 1;
    }
    proof {
        assert(a@ =~= b@);
    }
    true
}

} // verus!
