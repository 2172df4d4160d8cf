//! Entry names: the archive's naming convention and the byte-level text
//! handling behind it.
//!
//! On disk an entry name is stored lower-cased, with backslash separators,
//! UTF-8 encoded and null-terminated; the name block of the directory is the
//! concatenation of all those terminated names.  Normalization and the
//! null-splitting of the name block both work on the UTF-8 bytes: the bytes
//! the normalization touches are all ASCII, and every byte of a multi-byte
//! encoding lies outside the touched range, so the byte-level maps agree
//! with the character-level ones and preserve UTF-8 validity.

use vstd::prelude::*;
use vstd::utf8::*;
use vstd::string::StrSliceExecFns;

verus! {

/// How one byte of a name is normalized: a forward slash becomes a
/// backslash, an ASCII upper-case letter folds to lower case, and every
/// other byte passes through unchanged.
pub open spec fn norm_byte(b: u8) -> u8 {
    if b == 0x2F {
        0x5C
    } else if 0x41 <= b && b <= 0x5A {
        (b + 32) as u8
    } else {
        b
    }
}

/// A name's bytes normalized to the archive convention.
pub open spec fn norm_bytes(s: Seq<u8>) -> Seq<u8> {
    Seq::new(s.len(), |i: int| norm_byte(s[i]))
}

/// True when no byte of `s` is null.
pub open spec fn zero_free(s: Seq<u8>) -> bool {
    forall|i: int| 0 <= i < s.len() ==> s[i] != 0u8
}

/// Splitting a byte sequence on null bytes, as the name block of an archive
/// directory is split.  There is always at least one segment, and a
/// terminating null leaves a trailing empty segment.
pub open spec fn spec_split(s: Seq<u8>) -> Seq<Seq<u8>>
    decreases s.len(),
{
    if s.len() == 0 {
        seq![Seq::<u8>::empty()]
    } else if s[0] == 0u8 {
        seq![Seq::<u8>::empty()] + spec_split(s.drop_first())
    } else {
        let rest = spec_split(s.drop_first());
        seq![seq![s[0]] + rest[0]] + rest.drop_first()
    }
}

/// A split always yields at least one segment.
pub proof fn lemma_split_len(s: Seq<u8>)
    ensures
        spec_split(s).len() >= 1,
    decreases s.len(),
{
    if s.len() != 0 {
        lemma_split_len(s.drop_first());
    }
}

/// Appending a null byte closes the current segment and opens an empty one.
proof fn lemma_split_push_zero(s: Seq<u8>)
    ensures
        spec_split(s.push(0u8)) == spec_split(s).push(Seq::<u8>::empty()),
    decreases s.len(),
{
    lemma_split_len(s);
    if s.len() == 0 {
        assert(s.push(0u8).drop_first() =~= s);
        assert(spec_split(s.push(0u8)) =~~= spec_split(s).push(Seq::<u8>::empty()));
    } else {
        lemma_split_push_zero(s.drop_first());
        assert(s.push(0u8).drop_first() =~= s.drop_first().push(0u8));
        lemma_split_len(s.drop_first());
        assert(spec_split(s.push(0u8)) =~~= spec_split(s).push(Seq::<u8>::empty()));
    }
}

/// Appending a non-null byte extends the last segment.
proof fn lemma_split_push_byte(s: Seq<u8>, b: u8)
    requires
        b != 0u8,
    ensures
        spec_split(s.push(b)) == spec_split(s).update(
            spec_split(s).len() - 1,
            spec_split(s).last().push(b),
        ),
    decreases s.len(),
{
    lemma_split_len(s);
    if s.len() == 0 {
        reveal_with_fuel(spec_split, 3);
        assert(s.push(b).drop_first() =~= Seq::<u8>::empty());
        assert(s =~= Seq::<u8>::empty());
        assert(spec_split(s.push(b)) =~~= spec_split(s).update(
            spec_split(s).len() - 1,
            spec_split(s).last().push(b),
        ));
    } else {
        lemma_split_push_byte(s.drop_first(), b);
        assert(s.push(b).drop_first() =~= s.drop_first().push(b));
        lemma_split_len(s.drop_first());
        assert(spec_split(s.push(b)) =~~= spec_split(s).update(
            spec_split(s).len() - 1,
            spec_split(s).last().push(b),
        ));
    }
}

/// Splitting a null-free segment, its terminator, and whatever follows
/// yields that segment and then the split of what follows.
pub proof fn lemma_split_terminated(a: Seq<u8>, rest: Seq<u8>)
    requires
        zero_free(a),
    ensures
        spec_split(a + seq![0u8] + rest) == seq![a] + spec_split(rest),
    decreases a.len(),
{
    lemma_split_len(rest);
    if a.len() == 0 {
        assert((a + seq![0u8] + rest).drop_first() =~= rest);
        assert(a + seq![0u8] + rest =~= seq![0u8] + rest);
        assert((seq![0u8] + rest)[0] == 0u8);
        assert(spec_split(a + seq![0u8] + rest) =~~= seq![a] + spec_split(rest));
    } else {
        let s = a + seq![0u8] + rest;
        assert(s[0] == a[0]);
        assert(s.drop_first() =~= a.drop_first() + seq![0u8] + rest);
        assert(zero_free(a.drop_first()));
        lemma_split_terminated(a.drop_first(), rest);
        lemma_split_len(a.drop_first() + seq![0u8] + rest);
        assert(seq![a[0]] + (seq![a.drop_first()] + spec_split(rest))[0] =~= a);
        assert(spec_split(s) =~~= seq![a] + spec_split(rest));
    }
}

/// Splits a byte block on null bytes, the executable counterpart of
/// [`spec_split`].
pub fn split_block(block: &[u8]) -> (r: Vec<Vec<u8>>)
    ensures
        r@.len() == spec_split(block@).len(),
        forall|i: int| 0 <= i < r@.len() ==> (#[trigger] r@[i])@ == spec_split(block@)[i],
{
    let mut out: Vec<Vec<u8>> = Vec::new();
    let mut cur: Vec<u8> = Vec::new();
    let n = block.len();
    let mut i: usize = 0;
    while i < n
        invariant
            i <= n,
            n == block@.len(),
            out.deep_view().push(cur@) == spec_split(block@.subrange(0, i as int)),
        decreases n - i,
    {
        let b = *vstd::slice::slice_index_get(block, i);
        proof {
            assert(block@.subrange(0, i + 1) =~= block@.subrange(0, i as int).push(block@[i as int]));
            lemma_split_len(block@.subrange(0, i as int));
            if b == 0u8 {
                lemma_split_push_zero(block@.subrange(0, i as int));
            } else {
                lemma_split_push_byte(block@.subrange(0, i as int), b);
            }
        }
        if b == 0 {
            out.push(cur);
            cur = Vec::new();
            proof {
                assert(out.deep_view().push(cur@) =~~= spec_split(block@.subrange(0, i + 1)));
            }
        } else {
            cur.push(b);
            proof {
                assert(out.deep_view().push(cur@) =~~= spec_split(block@.subrange(0, i + 1)));
            }
        }
        i = i + 1;
    }
    out.push(cur);
    proof {
        assert(block@.subrange(0, n as int) =~= block@);
        assert(out.deep_view() =~~= spec_split(block@));
        assert(out.deep_view().len() == out@.len());
        assert forall|i: int| 0 <= i < out@.len()
            implies (#[trigger] out@[i])@ == spec_split(block@)[i] by {
            assert(out@[i].deep_view() =~= out@[i]@);
            assert(out.deep_view()[i] == out@[i].deep_view());
        }
    }
    out
}

/// Relies on `String::from_utf8`: it accepts exactly the byte sequences
/// that are valid UTF-8 and decodes them to their character sequence.
#[verifier::external_body]
pub(crate) fn string_from_utf8(bytes: &[u8]) -> (r: Option<String>)
    ensures
        (match r {
            Some(s) => valid_utf8(bytes@) && s@ == decode_utf8(bytes@),
            None => !valid_utf8(bytes@),
        }),
{
    match String::from_utf8(bytes.to_vec()) {
        Ok(s) => Some(s),
        Err(_) => None,
    }
}

/// Normalization never introduces a null byte.
pub proof fn lemma_norm_zero_free(s: Seq<u8>)
    requires
        zero_free(s),
    ensures
        zero_free(norm_bytes(s)),
{
}

/// Normalization keeps a byte sequence valid UTF-8: the bytes it rewrites
/// are ASCII and stay ASCII, and the bytes of multi-byte encodings are
/// outside the rewritten range and pass through unchanged.
pub proof fn lemma_norm_preserves_valid_utf8(s: Seq<u8>)
    requires
        valid_utf8(s),
    ensures
        valid_utf8(norm_bytes(s)),
    decreases s.len(),
{
    if s.len() != 0 {
        let ns = norm_bytes(s);
        assert(ns[0] == norm_byte(s[0]));
        let k = length_of_first_scalar(s);
        if is_leading_byte_width_1(s[0]) {
            assert(is_leading_byte_width_1(ns[0]));
            let b0 = ns[0];
            assert((b0 & 0x7F) as u32 <= 0x7F) by (bit_vector);
            assert(valid_first_scalar(ns));
            assert(pop_first_scalar(ns) =~= norm_bytes(pop_first_scalar(s)));
            lemma_norm_preserves_valid_utf8(pop_first_scalar(s));
        } else {
            assert(forall|i: int| 0 <= i < k ==> s[i] >= 0x80 ==> norm_byte(s[i]) == s[i]);
            assert(ns[0] == s[0]);
            if is_leading_byte_width_2(s[0]) {
                assert(ns[1] == s[1]);
                assert(valid_first_scalar(ns));
            } else if is_leading_byte_width_3(s[0]) {
                assert(ns[1] == s[1] && ns[2] == s[2]);
                assert(valid_first_scalar(ns));
            } else {
                assert(ns[1] == s[1] && ns[2] == s[2] && ns[3] == s[3]);
                assert(valid_first_scalar(ns));
            }
            assert(pop_first_scalar(ns) =~= norm_bytes(pop_first_scalar(s)));
            lemma_norm_preserves_valid_utf8(pop_first_scalar(s));
        }
    }
}

/// The UTF-8 encoding of a name contains a null byte only where the name
/// contains the null character.
pub proof fn lemma_encode_zero_free(chars: Seq<char>)
    requires
        forall|i: int| 0 <= i < chars.len() ==> chars[i] != '\0',
    ensures
        zero_free(encode_utf8(chars)),
    decreases chars.len(),
{
    if chars.len() != 0 {
        let c = chars[0];
        let u = c as u32;
        char_is_scalar(c);
        assert(u != 0) by {
            if u == 0 {
                char_u32_cast(c, u);
                assert('\0' as u32 == 0);
                char_u32_cast('\0', 0);
                assert(c == '\0');
            }
        }
        assert(zero_free(encode_scalar(u))) by {
            assert(u != 0 && u <= 0x7F ==> (u & 0x7F) as u8 != 0) by (bit_vector);
            assert((0xC0u8 | ((u >> 6) & 0x1F) as u8) != 0) by (bit_vector);
            assert((0xE0u8 | ((u >> 12) & 0x0F) as u8) != 0) by (bit_vector);
            assert((0xF0u8 | ((u >> 18) & 0x7) as u8) != 0) by (bit_vector);
            assert((0x80u8 | (u & 0x3F) as u8) != 0) by (bit_vector);
            assert((0x80u8 | ((u >> 6) & 0x3F) as u8) != 0) by (bit_vector);
            assert((0x80u8 | ((u >> 12) & 0x3F) as u8) != 0) by (bit_vector);
        }
        lemma_encode_zero_free(chars.drop_first());
        assert(encode_utf8(chars) == encode_scalar(u) + encode_utf8(chars.drop_first()));
        assert(zero_free(encode_scalar(u) + encode_utf8(chars.drop_first())));
    }
}

/// Normalizes a name to the archive convention: lower-cased, with forward
/// slashes replaced by backslashes.
pub fn normalize_name(name: &str) -> (r: String)
    ensures
        r@ == decode_utf8(norm_bytes(encode_utf8(name@))),
{
    let bytes = name.as_bytes_vec();
    let mut nb: Vec<u8> = Vec::new();
    let n = bytes.len();
    let mut i: usize = 0;
    while i < n
        invariant
            i <= n,
            n == bytes@.len(),
            bytes@ == encode_utf8(name@),
            nb@ == norm_bytes(bytes@.subrange(0, i as int)),
        decreases n - i,
    {
        let b = bytes[i];
        let m: u8 = if b == 0x2F {
            0x5C
        } else if 0x41 <= b && b <= 0x5A {
            b + 32
        } else {
            b
        };
        nb.push(m);
        proof {
            assert(nb@ =~= norm_bytes(bytes@.subrange(0, i + 1)));
        }
        i = i + 1;
    }
    proof {
        assert(bytes@.subrange(0, n as int) =~= bytes@);
        vstd::utf8::encode_utf8_valid_utf8(name@);
        lemma_norm_preserves_valid_utf8(bytes@);
    }
    match string_from_utf8(nb.as_slice()) {
        Some(s) => s,
        None => vstd::pervasive::unreached(),
    }
}

} // verus!
