//! Hexadecimal convenience wrappers around the encoder and decoder.
//!
//! A hex string is validated, cut into chunks of at most twelve digits, and
//! each chunk is read as a base-16 number behind an injected leading `1`
//! digit, which preserves leading zeros across the round trip.  Decoding
//! renders each recovered number in hex again and drops that first digit.

use crate::codec::{spec_decode, spec_digits, spec_encode, DecodeError};
use crate::config::HashIds;
use crate::text::{chars_of, skip_chars, string_of};
use vstd::prelude::*;

verus! {

/// Whether `c` is an ASCII hexadecimal digit.
pub open spec fn is_hex_digit(c: char) -> bool {
    let v = c as u32;
    (48 <= v <= 57) || (97 <= v <= 102) || (65 <= v <= 70)
}

/// Whether `s` is one or more hexadecimal digits and nothing else.
pub open spec fn is_hex_string(s: Seq<char>) -> bool {
    s.len() > 0 && forall|i: int| 0 <= i < s.len() ==> is_hex_digit(#[trigger] s[i])
}

/// The value of a hexadecimal digit; 0 for any other character.
pub open spec fn hex_val(c: char) -> int {
    let v = c as u32;
    if 48 <= v <= 57 {
        v - 48
    } else if 97 <= v <= 102 {
        v - 87
    } else if 65 <= v <= 70 {
        v - 55
    } else {
        0
    }
}

/// The value of a string of hexadecimal digits, most significant first.
pub open spec fn spec_hex_value(s: Seq<char>) -> int
    decreases s.len(),
{
    if s.len() == 0 {
        0
    } else {
        spec_hex_value(s.drop_last()) * 16 + hex_val(s.last())
    }
}

/// The `n`-th power of 16.
pub open spec fn pow16(n: nat) -> int
    decreases n,
{
    if n == 0 {
        1
    } else {
        16 * pow16((n - 1) as nat)
    }
}

/// The numbers a hex string turns into: chunks of at most twelve digits,
/// each read behind an injected leading `1` digit.
pub open spec fn spec_hex_numbers_from(s: Seq<char>, from: int) -> Seq<u64>
    decreases s.len() - from,
{
    if from < 0 || from >= s.len() {
        Seq::empty()
    } else {
        let end = if s.len() - from <= 12 {
            s.len() as int
        } else {
            from + 12
        };
        seq![(pow16((end - from) as nat) + spec_hex_value(s.subrange(from, end))) as u64]
            + spec_hex_numbers_from(s, end)
    }
}

/// The sixteen hexadecimal digit characters, in value order.
pub open spec fn hex_digits() -> Seq<char> {
    seq!['0', '1', '2', '3', '4', '5', '6', '7', '8', '9', 'a', 'b', 'c', 'd', 'e', 'f']
}

/// The hex renderings of the numbers, each with its first (injected) digit
/// dropped, concatenated in order.
pub open spec fn spec_hex_render_from(nums: Seq<u64>, from: int) -> Seq<char>
    decreases nums.len() - from,
{
    if from < 0 || from >= nums.len() {
        Seq::empty()
    } else {
        spec_digits(nums[from], hex_digits()).skip(1) + spec_hex_render_from(nums, from + 1)
    }
}

/// A hex value never reaches the power of 16 at its digit count.
pub proof fn lemma_hex_value_bound(s: Seq<char>)
    ensures
        0 <= spec_hex_value(s) < pow16(s.len()),
    decreases s.len(),
{
    if s.len() > 0 {
        lemma_hex_value_bound(s.drop_last());
    }
}

/// Powers of 16 grow monotonically, and the ones in a chunk's range are
/// small enough for 64-bit arithmetic.
pub proof fn lemma_pow16_bounds(n: nat)
    requires
        n <= 13,
    ensures
        0 < pow16(n) <= 0x10000000000000,
    decreases n,
{
    if n > 0 {
        lemma_pow16_bounds((n - 1) as nat);
        assert(pow16(13) == 0x10000000000000) by {
            reveal_with_fuel(pow16, 14);
        }
        assert(16 * pow16((n - 1) as nat) <= pow16(13)) by {
            lemma_pow16_le(n, 13);
        }
    }
}

/// Powers of 16 are monotone in the exponent.
pub proof fn lemma_pow16_le(i: nat, j: nat)
    requires
        i <= j,
    ensures
        pow16(i) <= pow16(j),
        0 < pow16(i),
    decreases j,
{
    if i < j {
        lemma_pow16_le(i, (j - 1) as nat);
    } else if i > 0 {
        lemma_pow16_le((i - 1) as nat, (i - 1) as nat);
    }
}

/// Relies on regex::Regex::is_match with the anchored pattern
/// `^[0-9a-fA-F]+$`: true exactly when the string is one or more ASCII hex
/// digits and nothing else.
#[verifier::external_body]
fn is_hex_input(s: &str) -> (r: bool)
    ensures
        r == is_hex_string(s@),
{
    regex::Regex::new("^[0-9a-fA-F]+$").unwrap().is_match(s)
}

/// The value of a hexadecimal digit character.
fn hex_digit_val(c: char) -> (r: u8)
    ensures
        r == hex_val(c),
        r <= 15,
{
    let v = c as u32;
    if 48 <= v && v <= 57 {
        (v - 48) as u8
    } else if 97 <= v && v <= 102 {
        (v - 87) as u8
    } else if 65 <= v && v <= 70 {
        (v - 55) as u8
    } else {
        0
    }
}

/// The sixteen hexadecimal digit characters as a vector.
fn hex_digits_vec() -> (v: Vec<char>)
    ensures
        v@ == hex_digits(),
{
    let mut v: Vec<char> = Vec::new();
    v.push('0');
    v.push('1');
    v.push('2');
    v.push('3');
    v.push('4');
    v.push('5');
    v.push('6');
    v.push('7');
    v.push('8');
    v.push('9');
    v.push('a');
    v.push('b');
    v.push('c');
    v.push('d');
    v.push('e');
    v.push('f');
    proof {
        assert(v@ =~= hex_digits());
    }
    v
}

impl HashIds {
    /// Encodes a string of hex digits: the digits are cut into chunks of at
    /// most twelve, each chunk is read as a base-16 number behind an
    /// injected leading `1` digit, and the numbers are encoded.  Nothing is
    /// returned when the input is not entirely hex digits, or is empty.
    pub fn encode_hex(&self, hex: &str) -> (r: Option<String>)
        requires
            self@.wf(),
        ensures
            match r {
                Some(out) => is_hex_string(hex@) && out@ == spec_encode(
                    self@,
                    spec_hex_numbers_from(hex@, 0),
                ),
                None => !is_hex_string(hex@),
            },
    {
        if !is_hex_input(hex) {
            return None;
        }
        let chars = chars_of(hex);
        let n = chars.len();
        let mut numbers: Vec<u64> = Vec::new();
        let mut pos: usize = 0;
        while pos < n
            invariant
                n == chars@.len(),
                chars@ == hex@,
                pos <= n,
                spec_hex_numbers_from(chars@, 0) == numbers@ + spec_hex_numbers_from(
                    chars@,
                    pos as int,
                ),
            decreases n - pos,
        {
            let csize = if n - pos <= 12 {
                n - pos
            } else {
                12
            };
            let ghost chunk = chars@.subrange(pos as int, pos as int + csize as int);
            let mut v: u64 = 1;
            let mut k: usize = 0;
            while k < csize
                invariant
                    n == chars@.len(),
                    pos + csize <= n,
                    1 <= csize <= 12,
                    k <= csize,
                    chunk == chars@.subrange(pos as int, pos as int + csize as int),
                    v == pow16(k as nat) + spec_hex_value(chunk.take(k as int)),
                decreases csize - k,
            {
                let c = chars[pos + k];
                let d = hex_digit_val(c);
                proof {
                    lemma_pow16_bounds(k as nat);
                    lemma_hex_value_bound(chunk.take(k as int));
                    assert(chunk.take(k as int + 1).drop_last() =~= chunk.take(k as int));
                    assert(chunk.take(k as int + 1).last() == chunk[k as int]);
                    assert(chunk[k as int] == chars@[pos + k]);
                }
                v = v * 16 + (d as u64);
                k = k + 1;
            }
            proof {
                assert(chunk.take(csize as int) =~= chunk);
                lemma_pow16_bounds(csize as nat);
                lemma_hex_value_bound(chunk);
            }
            numbers.push(v);
            proof {
                assert(numbers@ =~= numbers@.subrange(0, numbers@.len() - 1) + seq![v]);
                assert(spec_hex_numbers_from(chars@, pos as int) == seq![v]
                    + spec_hex_numbers_from(chars@, pos as int + csize as int));
            }
            pos = pos + csize;
        }
        Some(self.encode(numbers.as_slice()))
    }

    /// Decodes a string and renders the recovered numbers as hex digits,
    /// dropping the injected leading digit of each.  Nothing is returned
    /// when the string does not decode under this configuration.
    pub fn decode_hex(&self, hash: &str) -> (r: Option<String>)
        requires
            self@.wf(),
        ensures
            match r {
                Some(out) => spec_decode(self@, hash@) is Ok && out@ == spec_hex_render_from(
                    spec_decode(self@, hash@)->Ok_0,
                    0,
                ),
                None => spec_decode(self@, hash@) is Err,
            },
    {
        let nums = match self.decode(hash) {
            Ok(nums) => nums,
            Err(_) => {
                return None;
            },
        };
        let table = hex_digits_vec();
        let mut out: Vec<char> = Vec::new();
        let mut i: usize = 0;
        while i < nums.len()
            invariant
                table@ == hex_digits(),
                i <= nums@.len(),
                spec_hex_render_from(nums@, 0) == out@ + spec_hex_render_from(nums@, i as int),
            decreases nums@.len() - i,
        {
            let mut digits: Vec<char> = Vec::new();
            crate::codec::add_num_with_alphabet(&mut digits, nums[i], &table);
            proof {
                assert(spec_digits(nums@[i as int], hex_digits()).len() >= 1);
            }
            let trimmed = skip_chars(&digits, 1);
            crate::text::append_chars(&mut out, &trimmed);
            i = i + 1;
            proof {
                assert(spec_hex_render_from(nums@, 0) =~= out@ + spec_hex_render_from(
                    nums@,
                    i as int,
                ));
            }
        }
        Some(string_of(&out))
    }
}

} // verus!
