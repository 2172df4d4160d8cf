//! The on-disk archive layout, as a mathematical model.
//!
//! An archive image is, in order: a 4-byte magic constant, the directory
//! size and the entry count as little-endian 32-bit words, a table of
//! per-entry `(size, relative offset)` word pairs, a table of per-entry
//! name positions, the null-terminated normalized names, a per-entry
//! 64-bit name-hash table that is written but never read back, and the
//! concatenated entry payloads.  [`spec_parse`] says exactly which images
//! decode, to which entries, and with which error otherwise; the
//! `spec_encode` family says which image a list of source files produces.

use vstd::prelude::*;
use vstd::bytes::*;
use vstd::utf8::*;
use crate::error::BsaError;
use crate::hash::name_hash;
use crate::names::norm_bytes;
use crate::names::spec_split;

verus! {

/// The model of one directory entry: its stored name, its payload length,
/// and the absolute byte offset of its payload in the archive image.
#[verifier::ext_equal]
pub ghost struct SpecEntry {
    pub name: Seq<char>,
    pub size: u32,
    pub offset: u32,
}

/// The model of one source file handed to the encoder: its path as given
/// by the caller and its contents.
#[verifier::ext_equal]
pub ghost struct SpecSource {
    pub name: Seq<char>,
    pub data: Seq<u8>,
}

/// The four magic bytes every archive starts with.
pub open spec fn spec_magic() -> Seq<u8> {
    seq![0u8, 1u8, 0u8, 0u8]
}

/// The `j`-th little-endian 32-bit word of the directory table.
pub open spec fn spec_word(data: Seq<u8>, j: int) -> u32 {
    spec_u32_from_le_bytes(data.subrange(12 + 4 * j, 16 + 4 * j))
}

/// The declared byte length of the directory: size/offset table plus name
/// block, header and hash table excluded.
pub open spec fn parse_dirsize(data: Seq<u8>) -> int {
    spec_u32_from_le_bytes(data.subrange(4, 8)) as int
}

/// The declared entry count.
pub open spec fn parse_filenum(data: Seq<u8>) -> int {
    spec_u32_from_le_bytes(data.subrange(8, 12)) as int
}

/// Where the payload section starts: header, directory and hash table all
/// precede it, and every stored entry offset is relative to this point.
pub open spec fn parse_data_start(data: Seq<u8>) -> int {
    12 + parse_dirsize(data) + 8 * parse_filenum(data)
}

/// The name block split at its null bytes, one segment per entry plus a
/// trailing empty segment when the block is well formed.
pub open spec fn parse_segments(data: Seq<u8>) -> Seq<Seq<u8>> {
    spec_split(data.subrange(12 + 12 * parse_filenum(data), 12 + parse_dirsize(data)))
}

/// Whether entry `i`'s payload range stays inside the image and its
/// absolute offset fits the format's 32-bit offset field.
pub open spec fn entry_in_bounds(data: Seq<u8>, i: int) -> bool {
    let abs = spec_word(data, 2 * i + 1) + parse_data_start(data);
    abs <= u32::MAX && abs + spec_word(data, 2 * i) <= data.len()
}

/// Entry `i` of a well-formed image: its decoded name, its size word, and
/// its relative offset word resolved to an absolute offset.
pub open spec fn parse_entry(data: Seq<u8>, i: int) -> SpecEntry {
    SpecEntry {
        name: decode_utf8(parse_segments(data)[i]),
        size: spec_word(data, 2 * i),
        offset: ((spec_word(data, 2 * i + 1) + parse_data_start(data)) as u32),
    }
}

/// The parse of an archive image: the directory entries of a well-formed
/// image, or the exact error a corrupt one is rejected with.  The checks
/// run in the order the bytes are consumed: length, magic, the directory
/// guards, the name block, and finally the per-entry offset ranges.
pub open spec fn spec_parse(data: Seq<u8>) -> Result<Seq<SpecEntry>, BsaError> {
    let fsize = data.len() as int;
    if fsize < 12 {
        Err(BsaError::TooSmall(fsize as u64))
    } else if data.subrange(0, 4) != spec_magic() {
        Err(BsaError::BadHeader)
    } else {
        let dirsize = parse_dirsize(data);
        let filenum = parse_filenum(data);
        if 21 * filenum > fsize - 12 || dirsize + 8 * filenum > fsize - 12 {
            Err(BsaError::DirSize)
        } else if dirsize < 12 * filenum {
            Err(BsaError::Position {
                expected: ((dirsize + 12) as u32),
                actual: ((12 * filenum + 12) as u64),
            })
        } else if parse_segments(data).len() < filenum {
            Err(BsaError::DirSize)
        } else if exists|i: int|
            0 <= i < filenum && !valid_utf8(#[trigger] parse_segments(data)[i]) {
            Err(BsaError::DirSize)
        } else if exists|i: int| 0 <= i < filenum && !(#[trigger] entry_in_bounds(data, i)) {
            Err(BsaError::OffsetOutside)
        } else {
            Ok(Seq::new(filenum as nat, |i: int| parse_entry(data, i)))
        }
    }
}

/// An image shorter than the fixed 12-byte header is always rejected as
/// too small, reporting its length.
pub proof fn lemma_too_small_rejected(data: Seq<u8>)
    requires
        data.len() < 12,
    ensures
        spec_parse(data) == Err::<Seq<SpecEntry>, BsaError>(BsaError::TooSmall(data.len() as u64)),
{
}

/// An image whose first four bytes are not the magic constant is always
/// rejected as `BadHeader`, whatever the rest of its bytes hold.
pub proof fn lemma_bad_magic_rejected(data: Seq<u8>)
    requires
        data.len() >= 12,
        data.subrange(0, 4) != spec_magic(),
    ensures
        spec_parse(data) == Err::<Seq<SpecEntry>, BsaError>(BsaError::BadHeader),
{
}

/// The facts established once the fixed header and the directory guards
/// have been checked: a parse of such an image proceeds past the header
/// to the name block and the entries.
pub open spec fn header_ok(data: Seq<u8>) -> bool {
    &&& data.len() >= 12
    &&& data.subrange(0, 4) == spec_magic()
    &&& 21 * parse_filenum(data) <= data.len() - 12
    &&& parse_dirsize(data) + 8 * parse_filenum(data) <= data.len() - 12
    &&& 12 * parse_filenum(data) <= parse_dirsize(data)
}

/// In every archive that parses, each entry's payload range lies inside
/// the image: `offset + size <= fsize`.
pub proof fn lemma_parse_entries_in_bounds(data: Seq<u8>)
    requires
        spec_parse(data) is Ok,
    ensures
        forall|i: int| 0 <= i < spec_parse(data).unwrap().len()
            ==> (#[trigger] spec_parse(data).unwrap()[i]).offset
                + spec_parse(data).unwrap()[i].size <= data.len(),
{
    let es = spec_parse(data).unwrap();
    assert forall|i: int| 0 <= i < es.len()
        implies (#[trigger] es[i]).offset + es[i].size <= data.len() by {
        assert(entry_in_bounds(data, i));
    }
}

/// The normalized UTF-8 bytes of source `i`'s name.
pub open spec fn src_name_bytes(srcs: Seq<SpecSource>, i: int) -> Seq<u8> {
    norm_bytes(encode_utf8(srcs[i].name))
}

/// The stored name of source `i`: its path lower-cased with backslash
/// separators.
pub open spec fn src_stored_name(srcs: Seq<SpecSource>, i: int) -> Seq<char> {
    decode_utf8(src_name_bytes(srcs, i))
}

/// Total bytes of the first `i` null-terminated normalized names.
pub open spec fn names_len(srcs: Seq<SpecSource>, i: int) -> int
    decreases i,
{
    if i <= 0 {
        0
    } else {
        names_len(srcs, i - 1) + src_name_bytes(srcs, i - 1).len() + 1
    }
}

/// Total bytes of the first `i` payloads; also the relative offset at
/// which payload `i` is laid down, since payloads are contiguous.
pub open spec fn data_len(srcs: Seq<SpecSource>, i: int) -> int
    decreases i,
{
    if i <= 0 {
        0
    } else {
        data_len(srcs, i - 1) + srcs[i - 1].data.len()
    }
}

/// The directory size an encoded archive declares: the size/offset table,
/// the name-position table, and the null-terminated names.
pub open spec fn spec_dir_size(srcs: Seq<SpecSource>) -> int {
    12 * srcs.len() + names_len(srcs, srcs.len() as int)
}

/// The total length of the encoded archive image.
pub open spec fn spec_encode_len(srcs: Seq<SpecSource>) -> int {
    12 + spec_dir_size(srcs) + 8 * srcs.len() + data_len(srcs, srcs.len() as int)
}

/// The size/offset word pairs of the first `i` entries.
pub open spec fn size_table(srcs: Seq<SpecSource>, i: int) -> Seq<u8>
    decreases i,
{
    if i <= 0 {
        Seq::empty()
    } else {
        size_table(srcs, i - 1) + spec_u32_to_le_bytes(srcs[i - 1].data.len() as u32)
            + spec_u32_to_le_bytes(data_len(srcs, i - 1) as u32)
    }
}

/// The name-position words of the first `i` entries: each name's byte
/// offset within the name block.
pub open spec fn name_off_table(srcs: Seq<SpecSource>, i: int) -> Seq<u8>
    decreases i,
{
    if i <= 0 {
        Seq::empty()
    } else {
        name_off_table(srcs, i - 1) + spec_u32_to_le_bytes(names_len(srcs, i - 1) as u32)
    }
}

/// The name block of the first `i` entries: normalized names, each
/// followed by a null byte.
pub open spec fn name_block(srcs: Seq<SpecSource>, i: int) -> Seq<u8>
    decreases i,
{
    if i <= 0 {
        Seq::empty()
    } else {
        name_block(srcs, i - 1) + src_name_bytes(srcs, i - 1) + seq![0u8]
    }
}

/// The legacy hash table of the first `i` entries: the 64-bit name hash of
/// each null-terminated stored name.
pub open spec fn hash_block(srcs: Seq<SpecSource>, i: int) -> Seq<u8>
    decreases i,
{
    if i <= 0 {
        Seq::empty()
    } else {
        hash_block(srcs, i - 1) + spec_u64_to_le_bytes(
            name_hash(src_stored_name(srcs, i - 1) + seq!['\0']),
        )
    }
}

/// The payloads of the first `i` entries, laid down contiguously.
pub open spec fn payload(srcs: Seq<SpecSource>, i: int) -> Seq<u8>
    decreases i,
{
    if i <= 0 {
        Seq::empty()
    } else {
        payload(srcs, i - 1) + srcs[i - 1].data
    }
}

/// The full encoded archive image for the given source files.
pub open spec fn spec_encode(srcs: Seq<SpecSource>) -> Seq<u8> {
    let n = srcs.len() as int;
    spec_magic() + spec_u32_to_le_bytes(spec_dir_size(srcs) as u32) + spec_u32_to_le_bytes(
        n as u32,
    ) + size_table(srcs, n) + name_off_table(srcs, n) + name_block(srcs, n) + hash_block(srcs, n)
        + payload(srcs, n)
}

/// The directory entries an encoded archive holds: source order is entry
/// order, sizes are the payload lengths, and offsets resolve to where each
/// payload was laid down.
pub open spec fn spec_encode_entries(srcs: Seq<SpecSource>) -> Seq<SpecEntry> {
    Seq::new(srcs.len(), |i: int| SpecEntry {
        name: src_stored_name(srcs, i),
        size: (srcs[i].data.len() as u32),
        offset: ((12 + spec_dir_size(srcs) + 8 * srcs.len() + data_len(srcs, i)) as u32),
    })
}

/// Whether the encoded image fits the format: every offset field is 32
/// bits wide, so the whole image must stay within that range.
pub open spec fn sources_fit(srcs: Seq<SpecSource>) -> bool {
    spec_encode_len(srcs) <= u32::MAX
}

/// Whether every source name is free of null characters; the format
/// terminates stored names with a null byte, so a null inside a name
/// cannot survive a round trip.
pub open spec fn names_null_free(srcs: Seq<SpecSource>) -> bool {
    forall|i: int| 0 <= i < srcs.len() ==> !(#[trigger] srcs[i].name).contains('\0')
}

/// `names_len` grows by at least one byte per name.
pub proof fn lemma_names_len_at_least(srcs: Seq<SpecSource>, i: int)
    requires
        i >= 0,
    ensures
        names_len(srcs, i) >= i,
    decreases i,
{
    if i > 0 {
        lemma_names_len_at_least(srcs, i - 1);
    }
}

/// `names_len` never shrinks as more names are counted.
pub proof fn lemma_names_len_mono(srcs: Seq<SpecSource>, i: int, j: int)
    requires
        0 <= i <= j,
    ensures
        names_len(srcs, i) <= names_len(srcs, j),
    decreases j,
{
    if i < j {
        lemma_names_len_mono(srcs, i, j - 1);
    }
}

/// `data_len` never shrinks as more payloads are counted.
pub proof fn lemma_data_len_mono(srcs: Seq<SpecSource>, i: int, j: int)
    requires
        0 <= i <= j,
    ensures
        data_len(srcs, i) <= data_len(srcs, j),
    decreases j,
{
    if i < j {
        lemma_data_len_mono(srcs, i, j - 1);
    }
}

/// The lengths of the encoded pieces over the first `i` entries.
pub proof fn lemma_piece_lens(srcs: Seq<SpecSource>, i: int)
    requires
        i >= 0,
    ensures
        size_table(srcs, i).len() == 8 * i,
        name_off_table(srcs, i).len() == 4 * i,
        name_block(srcs, i).len() == names_len(srcs, i),
        hash_block(srcs, i).len() == 8 * i,
        payload(srcs, i).len() == data_len(srcs, i),
    decreases i,
{
    lemma_auto_spec_u32_to_from_le_bytes();
    lemma_auto_spec_u64_to_from_le_bytes();
    if i > 0 {
        lemma_piece_lens(srcs, i - 1);
    }
}

/// A prefix-sized subrange of a concatenation is a subrange of the prefix.
proof fn lemma_cat_sub_left(a: Seq<u8>, b: Seq<u8>, x: int, y: int)
    requires
        0 <= x <= y <= a.len(),
    ensures
        (a + b).subrange(x, y) == a.subrange(x, y),
{
    assert((a + b).subrange(x, y) =~= a.subrange(x, y));
}

/// A subrange past the prefix of a concatenation is a subrange of the
/// suffix.
proof fn lemma_cat_sub_right(a: Seq<u8>, b: Seq<u8>, x: int, y: int)
    requires
        0 <= x <= y <= b.len(),
    ensures
        (a + b).subrange(a.len() + x, a.len() + y) == b.subrange(x, y),
{
    assert((a + b).subrange(a.len() + x, a.len() + y) =~= b.subrange(x, y));
}

/// A subrange of a subrange is a subrange of the original.
proof fn lemma_sub_sub(s: Seq<u8>, a: int, b: int, x: int, y: int)
    requires
        0 <= a <= b <= s.len(),
        0 <= x <= y <= b - a,
    ensures
        s.subrange(a, b).subrange(x, y) == s.subrange(a + x, a + y),
{
    assert(s.subrange(a, b).subrange(x, y) =~= s.subrange(a + x, a + y));
}

/// Where each piece of the encoded image lies: the image cut at the
/// layout's section boundaries gives back exactly the pieces it was built
/// from.
pub proof fn lemma_encode_layout(srcs: Seq<SpecSource>)
    ensures
        spec_encode(srcs).len() == spec_encode_len(srcs),
        spec_encode(srcs).subrange(0, 4) == spec_magic(),
        spec_encode(srcs).subrange(4, 8) == spec_u32_to_le_bytes(spec_dir_size(srcs) as u32),
        spec_encode(srcs).subrange(8, 12) == spec_u32_to_le_bytes(srcs.len() as u32),
        spec_encode(srcs).subrange(12, 12 + 8 * (srcs.len() as int)) == size_table(
            srcs,
            srcs.len() as int,
        ),
        spec_encode(srcs).subrange(12 + 8 * (srcs.len() as int), 12 + 12 * (srcs.len() as int)) == name_off_table(
            srcs,
            srcs.len() as int,
        ),
        spec_encode(srcs).subrange(12 + 12 * (srcs.len() as int), 12 + spec_dir_size(srcs)) == name_block(
            srcs,
            srcs.len() as int,
        ),
        spec_encode(srcs).subrange(
            12 + spec_dir_size(srcs),
            12 + spec_dir_size(srcs) + 8 * (srcs.len() as int),
        ) == hash_block(srcs, srcs.len() as int),
        spec_encode(srcs).subrange(
            12 + spec_dir_size(srcs) + 8 * (srcs.len() as int),
            spec_encode_len(srcs),
        ) == payload(srcs, srcs.len() as int),
{
    let n = srcs.len() as int;
    lemma_auto_spec_u32_to_from_le_bytes();
    lemma_piece_lens(srcs, n);
    lemma_names_len_at_least(srcs, n);
    let e = spec_encode(srcs);
    assert(e.len() == spec_encode_len(srcs));
    assert(e.subrange(0, 4) =~= spec_magic());
    assert(e.subrange(4, 8) =~= spec_u32_to_le_bytes(spec_dir_size(srcs) as u32));
    assert(e.subrange(8, 12) =~= spec_u32_to_le_bytes(srcs.len() as u32));
    assert(e.subrange(12, 12 + 8 * n) =~= size_table(srcs, n));
    assert(e.subrange(12 + 8 * n, 12 + 12 * n) =~= name_off_table(srcs, n));
    assert(e.subrange(12 + 12 * n, 12 + spec_dir_size(srcs)) =~= name_block(srcs, n));
    assert(e.subrange(12 + spec_dir_size(srcs), 12 + spec_dir_size(srcs) + 8 * n) =~= hash_block(
        srcs,
        n,
    ));
    assert(e.subrange(12 + spec_dir_size(srcs) + 8 * n, spec_encode_len(srcs)) =~= payload(
        srcs,
        n,
    ));
}

/// The two words the size/offset table holds for entry `i`: its payload
/// length and its relative offset.
proof fn lemma_size_table_words(srcs: Seq<SpecSource>, n: int, i: int)
    requires
        0 <= i < n <= srcs.len(),
    ensures
        size_table(srcs, n).subrange(8 * i, 8 * i + 4) == spec_u32_to_le_bytes(
            srcs[i].data.len() as u32,
        ),
        size_table(srcs, n).subrange(8 * i + 4, 8 * i + 8) == spec_u32_to_le_bytes(
            data_len(srcs, i) as u32,
        ),
    decreases n,
{
    lemma_auto_spec_u32_to_from_le_bytes();
    lemma_piece_lens(srcs, n - 1);
    lemma_piece_lens(srcs, n);
    if i == n - 1 {
        assert(size_table(srcs, n).subrange(8 * i, 8 * i + 4) =~= spec_u32_to_le_bytes(
            srcs[i].data.len() as u32,
        ));
        assert(size_table(srcs, n).subrange(8 * i + 4, 8 * i + 8) =~= spec_u32_to_le_bytes(
            data_len(srcs, i) as u32,
        ));
    } else {
        lemma_size_table_words(srcs, n - 1, i);
        assert(size_table(srcs, n).subrange(8 * i, 8 * i + 4) =~= size_table(srcs, n - 1).subrange(
            8 * i,
            8 * i + 4,
        ));
        assert(size_table(srcs, n).subrange(8 * i + 4, 8 * i + 8) =~= size_table(
            srcs,
            n - 1,
        ).subrange(8 * i + 4, 8 * i + 8));
    }
}

/// Payload `i` lies at its relative offset within the payload section.
proof fn lemma_payload_slice(srcs: Seq<SpecSource>, n: int, i: int)
    requires
        0 <= i < n <= srcs.len(),
    ensures
        payload(srcs, n).subrange(data_len(srcs, i), data_len(srcs, i) + srcs[i].data.len())
            == srcs[i].data,
    decreases n,
{
    lemma_piece_lens(srcs, n - 1);
    lemma_piece_lens(srcs, n);
    lemma_data_len_mono(srcs, 0, i);
    lemma_data_len_mono(srcs, i, n - 1);
    assert(payload(srcs, n) == payload(srcs, n - 1) + srcs[n - 1].data);
    if i == n - 1 {
        lemma_cat_sub_right(payload(srcs, n - 1), srcs[n - 1].data, 0, srcs[i].data.len() as int);
        assert(srcs[i].data.subrange(0, srcs[i].data.len() as int) =~= srcs[i].data);
    } else {
        lemma_payload_slice(srcs, n - 1, i);
        lemma_data_len_mono(srcs, i + 1, n - 1);
        assert(data_len(srcs, i) + srcs[i].data.len() == data_len(srcs, i + 1));
        lemma_cat_sub_left(
            payload(srcs, n - 1),
            srcs[n - 1].data,
            data_len(srcs, i),
            data_len(srcs, i) + srcs[i].data.len(),
        );
    }
}

/// The name block from entry `i` on: each remaining normalized name with
/// its null terminator.
pub open spec fn name_block_from(srcs: Seq<SpecSource>, i: int) -> Seq<u8>
    decreases srcs.len() - i,
{
    if i < 0 || i >= srcs.len() {
        Seq::empty()
    } else {
        src_name_bytes(srcs, i) + seq![0u8] + name_block_from(srcs, i + 1)
    }
}

/// The name block is the names up to `i` followed by the names from `i`.
proof fn lemma_name_block_decomp(srcs: Seq<SpecSource>, i: int)
    requires
        0 <= i <= srcs.len(),
    ensures
        name_block(srcs, srcs.len() as int) == name_block(srcs, i) + name_block_from(srcs, i),
    decreases srcs.len() - i,
{
    if i == srcs.len() {
        assert(name_block(srcs, i) + name_block_from(srcs, i) =~= name_block(srcs, i));
    } else {
        lemma_name_block_decomp(srcs, i + 1);
        assert(name_block(srcs, i) + name_block_from(srcs, i) =~= name_block(srcs, i + 1)
            + name_block_from(srcs, i + 1));
    }
}

/// Splitting the name block from entry `i` on yields exactly the
/// normalized names, in order, plus the trailing empty segment.
proof fn lemma_split_name_block_from(srcs: Seq<SpecSource>, i: int)
    requires
        0 <= i <= srcs.len(),
        names_null_free(srcs),
    ensures
        spec_split(name_block_from(srcs, i)) == Seq::new(
            (srcs.len() - i) as nat,
            |k: int| src_name_bytes(srcs, i + k),
        ).push(Seq::<u8>::empty()),
    decreases srcs.len() - i,
{
    if i == srcs.len() {
        assert(spec_split(name_block_from(srcs, i)) =~~= Seq::new(
            (srcs.len() - i) as nat,
            |k: int| src_name_bytes(srcs, i + k),
        ).push(Seq::<u8>::empty()));
    } else {
        assert(!srcs[i].name.contains('\0'));
        assert(forall|j: int| 0 <= j < srcs[i].name.len() ==> srcs[i].name[j] != '\0');
        crate::names::lemma_encode_zero_free(srcs[i].name);
        crate::names::lemma_norm_zero_free(encode_utf8(srcs[i].name));
        lemma_split_name_block_from(srcs, i + 1);
        crate::names::lemma_split_terminated(src_name_bytes(srcs, i), name_block_from(srcs, i + 1));
        assert(name_block_from(srcs, i) == src_name_bytes(srcs, i) + seq![0u8] + name_block_from(
            srcs,
            i + 1,
        ));
        assert(spec_split(name_block_from(srcs, i)) =~~= Seq::new(
            (srcs.len() - i) as nat,
            |k: int| src_name_bytes(srcs, i + k),
        ).push(Seq::<u8>::empty()));
    }
}

/// An encoded archive parses, and parses back to exactly the entries it
/// was built from.
pub proof fn lemma_encode_parse(srcs: Seq<SpecSource>)
    requires
        names_null_free(srcs),
        sources_fit(srcs),
    ensures
        spec_parse(spec_encode(srcs)) == Ok::<Seq<SpecEntry>, BsaError>(spec_encode_entries(srcs)),
{
    let n = srcs.len() as int;
    let e = spec_encode(srcs);
    let ds = spec_dir_size(srcs);
    lemma_encode_layout(srcs);
    lemma_piece_lens(srcs, n);
    lemma_names_len_at_least(srcs, n);
    lemma_data_len_mono(srcs, 0, n);
    lemma_auto_spec_u32_to_from_le_bytes();

    assert(e.len() == spec_encode_len(srcs));
    assert(e.len() >= 12 + 21 * n);
    assert(parse_dirsize(e) == ds);
    assert(parse_filenum(e) == n);
    assert(!(21 * n > e.len() - 12));
    assert(!(ds + 8 * n > e.len() - 12));
    assert(!(ds < 12 * n));

    // The name block splits into the normalized names plus an empty tail.
    lemma_name_block_decomp(srcs, 0);
    assert(name_block(srcs, 0) =~= Seq::<u8>::empty());
    assert(Seq::<u8>::empty() + name_block_from(srcs, 0) =~= name_block_from(srcs, 0));
    assert(name_block_from(srcs, 0) == name_block(srcs, n));
    lemma_split_name_block_from(srcs, 0);
    let segs = Seq::new(n as nat, |k: int| src_name_bytes(srcs, 0 + k)).push(Seq::<u8>::empty());
    assert(parse_segments(e) == segs);
    assert(segs.len() == n + 1);

    assert forall|i: int| 0 <= i < n implies valid_utf8(#[trigger] parse_segments(e)[i]) by {
        encode_utf8_valid_utf8(srcs[i].name);
        crate::names::lemma_norm_preserves_valid_utf8(encode_utf8(srcs[i].name));
        assert(parse_segments(e)[i] == src_name_bytes(srcs, i));
    }

    // The directory words read back as the sizes and relative offsets.
    assert forall|i: int| 0 <= i < n implies spec_word(e, 2 * i) == srcs[i].data.len() as u32
        && spec_word(e, 2 * i + 1) == data_len(srcs, i) as u32 by {
        lemma_size_table_words(srcs, n, i);
        lemma_sub_sub(e, 12, 12 + 8 * n, 8 * i, 8 * i + 4);
        lemma_sub_sub(e, 12, 12 + 8 * n, 8 * i + 4, 8 * i + 8);
        assert(e.subrange(12 + 4 * (2 * i), 16 + 4 * (2 * i)) == size_table(srcs, n).subrange(
            8 * i,
            8 * i + 4,
        ));
        assert(e.subrange(12 + 4 * (2 * i + 1), 16 + 4 * (2 * i + 1)) == size_table(
            srcs,
            n,
        ).subrange(8 * i + 4, 8 * i + 8));
    }

    // Every entry's payload range stays inside the image.
    assert forall|i: int| 0 <= i < n implies #[trigger] entry_in_bounds(e, i) by {
        lemma_data_len_mono(srcs, 0, i);
        lemma_data_len_mono(srcs, i, n);
        lemma_data_len_mono(srcs, i + 1, n);
        assert(spec_word(e, 2 * i + 1) == data_len(srcs, i) as u32);
        assert(0 <= data_len(srcs, i) <= data_len(srcs, n));
        assert(spec_word(e, 2 * i + 1) + parse_data_start(e) == 12 + ds + 8 * n + data_len(
            srcs,
            i,
        ));
        assert(data_len(srcs, i) + srcs[i].data.len() == data_len(srcs, i + 1));
    }

    let parsed = Seq::new(n as nat, |i: int| parse_entry(e, i));
    assert(spec_parse(e) == Ok::<Seq<SpecEntry>, BsaError>(parsed));
    assert forall|i: int| 0 <= i < n implies parsed[i] == spec_encode_entries(srcs)[i] by {
        lemma_data_len_mono(srcs, 0, i);
        lemma_data_len_mono(srcs, i, n);
        assert(parse_segments(e)[i] == src_name_bytes(srcs, i));
        assert(entry_in_bounds(e, i));
        assert(spec_word(e, 2 * i) == srcs[i].data.len() as u32);
        assert(spec_word(e, 2 * i + 1) == data_len(srcs, i) as u32);
        assert(0 <= data_len(srcs, i) <= data_len(srcs, n));
        assert(spec_word(e, 2 * i + 1) + parse_data_start(e) == 12 + ds + 8 * n + data_len(
            srcs,
            i,
        ));
        assert(parsed[i] =~~= spec_encode_entries(srcs)[i]);
    }
    assert(parsed =~~= spec_encode_entries(srcs));
}

/// Round trip: an archive encoded from source files parses back to one
/// entry per source, in order, each entry's size being the source's byte
/// length and each entry's payload range in the image holding exactly the
/// source's bytes.
#[verifier::rlimit(60)]
pub proof fn lemma_round_trip(srcs: Seq<SpecSource>)
    requires
        names_null_free(srcs),
        sources_fit(srcs),
    ensures
        spec_parse(spec_encode(srcs)) == Ok::<Seq<SpecEntry>, BsaError>(spec_encode_entries(srcs)),
        spec_encode_entries(srcs).len() == srcs.len(),
        forall|i: int| 0 <= i < srcs.len()
            ==> (#[trigger] spec_encode_entries(srcs)[i]).size == srcs[i].data.len(),
        forall|i: int| 0 <= i < srcs.len()
            ==> spec_encode(srcs).subrange(
                (#[trigger] spec_encode_entries(srcs)[i]).offset as int,
                spec_encode_entries(srcs)[i].offset + spec_encode_entries(srcs)[i].size,
            ) == srcs[i].data,
{
    let n = srcs.len() as int;
    let e = spec_encode(srcs);
    let ds = spec_dir_size(srcs);
    lemma_encode_parse(srcs);
    lemma_encode_layout(srcs);
    lemma_piece_lens(srcs, n);
    lemma_names_len_at_least(srcs, n);
    assert forall|i: int| 0 <= i < srcs.len()
        implies (#[trigger] spec_encode_entries(srcs)[i]).size == srcs[i].data.len() by {
        lemma_data_len_mono(srcs, 0, i);
        lemma_data_len_mono(srcs, i + 1, n);
        assert(data_len(srcs, i) + srcs[i].data.len() == data_len(srcs, i + 1));
    }
    assert forall|i: int| 0 <= i < srcs.len() implies spec_encode(srcs).subrange(
        (#[trigger] spec_encode_entries(srcs)[i]).offset as int,
        spec_encode_entries(srcs)[i].offset + spec_encode_entries(srcs)[i].size,
    ) == srcs[i].data by {
        lemma_data_len_mono(srcs, 0, i);
        lemma_data_len_mono(srcs, i, n);
        lemma_data_len_mono(srcs, i + 1, n);
        assert(data_len(srcs, i) + srcs[i].data.len() == data_len(srcs, i + 1));
        let off = 12 + ds + 8 * n + data_len(srcs, i);
        assert(spec_encode_entries(srcs)[i].offset == off as u32);
        assert(0 <= off <= u32::MAX);
        assert(spec_encode_entries(srcs)[i].offset as int == off);
        assert(spec_encode_entries(srcs)[i].size == srcs[i].data.len() as u32);
        assert(spec_encode_entries(srcs)[i].size as int == srcs[i].data.len());
        lemma_sub_sub(
            e,
            12 + ds + 8 * n,
            spec_encode_len(srcs),
            data_len(srcs, i),
            data_len(srcs, i) + srcs[i].data.len(),
        );
        lemma_payload_slice(srcs, n, i);
    }
}

} // verus!
