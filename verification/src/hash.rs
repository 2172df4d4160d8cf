//! The legacy 64-bit name hash stored in an archive's trailing integrity
//! table.
//!
//! The hash folds ASCII upper-case letters to lower case, XORs the first
//! half of the name into a 32-bit word, and mixes the whole name into a
//! second 32-bit word through a shift-and-rotate step.  It is a legacy
//! fingerprint, not a cryptographic hash, and is never consulted when an
//! archive is read back; it is reproduced bit-for-bit so that archives
//! written here match what other tools of the ecosystem expect.

use vstd::prelude::*;

verus! {

/// The code a name character contributes to the hash: ASCII upper-case
/// letters fold to lower case, every other character passes through.
pub open spec fn folded_code(c: char) -> u32 {
    if 65 <= c as u32 && c as u32 <= 90 {
        ((c as u32) + 32) as u32
    } else {
        c as u32
    }
}

/// The shift applied to the character at index `i`: eight bits per
/// character, wrapping within a 32-bit word.
pub open spec fn shift_amt(i: int) -> u32 {
    (8 * (i % 4)) as u32
}

/// The low 32-bit accumulator after the first `n` characters of `s`:
/// each character's folded code, shifted, is XORed in.
pub open spec fn low_acc(s: Seq<char>, n: int) -> u32
    decreases n,
{
    if n <= 0 {
        0
    } else {
        low_acc(s, n - 1) ^ (folded_code(s[n - 1]) << shift_amt(n - 1))
    }
}

/// One step of the high accumulator: XOR the shifted code in, then rotate
/// the 64-bit word by the low five bits of the shifted code.  The rotation
/// moves the low 32 bits up rather than the full word around; that quirk is
/// part of the on-disk format and is kept exactly.
pub open spec fn high_step(acc: u64, code: u32, i: int) -> u64 {
    let temp = code << shift_amt(i);
    let x = acc ^ (temp as u64);
    let bits = temp & 0x1Fu32;
    (x << ((32 - bits) as u64)) | (x >> (bits as u64))
}

/// The high 64-bit accumulator after the first `n` characters of `s`.
pub open spec fn high_acc(s: Seq<char>, n: int) -> u64
    decreases n,
{
    if n <= 0 {
        0
    } else {
        high_step(high_acc(s, n - 1), folded_code(s[n - 1]), n - 1)
    }
}

/// The hash of a name: the low accumulator over the first half of the
/// characters, combined with the high accumulator over all of them.
pub open spec fn name_hash(s: Seq<char>) -> u64 {
    (low_acc(s, (s.len() / 2) as int) as u64) | (high_acc(s, s.len() as int) << 32)
}

/// The folded code of a character, computed.
fn fold_char(c: char) -> (r: u32)
    ensures
        r == folded_code(c),
{
    let code = c as u32;
    if 65 <= code && code <= 90 {
        code + 32
    } else {
        code
    }
}

/// The shift for index `i`, computed.
fn shift_for(i: usize) -> (r: u32)
    ensures
        r == shift_amt(i as int),
{
    (8 * (i % 4)) as u32
}

/// The 64-bit fingerprint of `name`.  Pure and total: equal names always
/// hash equal, and names differing only in ASCII letter case hash equal
/// (see [`lemma_hash_ignores_ascii_case`]).
pub fn calculate_hash(name: &str) -> (h: u64)
    ensures
        h == name_hash(name@),
{
    let n = name.unicode_len();
    let half = n / 2;

    let mut low: u32 = 0;
    let mut i: usize = 0;
    while i < half
        invariant
            i <= half,
            half == name@.len() / 2,
            n == name@.len(),
            low == low_acc(name@, i as int),
        decreases half - i,
    {
        let c = name.get_char(i);
        let code = fold_char(c);
        let sh = shift_for(i);
        low = low ^ (code << sh);
        i = i + 1;
    }

    let mut high: u64 = 0;
    let mut j: usize = 0;
    while j < n
        invariant
            j <= n,
            n == name@.len(),
            high == high_acc(name@, j as int),
        decreases n - j,
    {
        let c = name.get_char(j);
        let code = fold_char(c);
        let sh = shift_for(j);
        let temp = code << sh;
        let x = high ^ (temp as u64);
        let bits = temp & 0x1F;
        assert(temp & 0x1Fu32 < 32) by (bit_vector);
        high = (x << ((32 - bits) as u64)) | (x >> (bits as u64));
        j = j + 1;
    }

    (low as u64) | (high << 32)
}

/// The low accumulators of two names agree wherever their folded codes do.
proof fn lemma_low_acc_congruent(s: Seq<char>, t: Seq<char>, n: int)
    requires
        n <= s.len(),
        n <= t.len(),
        forall|i: int| 0 <= i < n ==> folded_code(s[i]) == folded_code(t[i]),
    ensures
        low_acc(s, n) == low_acc(t, n),
    decreases n,
{
    if n > 0 {
        lemma_low_acc_congruent(s, t, n - 1);
    }
}

/// The high accumulators of two names agree wherever their folded codes do.
proof fn lemma_high_acc_congruent(s: Seq<char>, t: Seq<char>, n: int)
    requires
        n <= s.len(),
        n <= t.len(),
        forall|i: int| 0 <= i < n ==> folded_code(s[i]) == folded_code(t[i]),
    ensures
        high_acc(s, n) == high_acc(t, n),
    decreases n,
{
    if n > 0 {
        lemma_high_acc_congruent(s, t, n - 1);
    }
}

/// The hash is insensitive to ASCII letter case: two names of equal length
/// whose characters fold to the same codes — that is, names equal up to
/// ASCII case — always hash to the same value.
pub proof fn lemma_hash_ignores_ascii_case(s: Seq<char>, t: Seq<char>)
    requires
        s.len() == t.len(),
        forall|i: int| 0 <= i < s.len() ==> folded_code(s[i]) == folded_code(t[i]),
    ensures
        name_hash(s) == name_hash(t),
{
    lemma_low_acc_congruent(s, t, (s.len() / 2) as int);
    lemma_high_acc_congruent(s, t, s.len() as int);
}

} // verus!
