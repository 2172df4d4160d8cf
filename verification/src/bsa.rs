//! The archive codec: opening an archive image, querying its directory,
//! extracting entry payloads, and building a new image from source files.
//!
//! The codec works entirely on bytes in memory.  A caller reads the
//! archive file into a byte vector before opening it, and writes the
//! vector a build produces back to disk; every check and every layout
//! decision in between is part of the codec and is specified against the
//! model in [`crate::format`].

use vstd::prelude::*;
use vstd::bytes::u32_from_le_bytes;
use vstd::bytes::spec_u32_from_le_bytes;
use vstd::slice::slice_subrange;
use vstd::slice::slice_to_vec;
use crate::error::BsaError;
use crate::format::SpecEntry;
use crate::format::SpecSource;
use crate::format::spec_magic;
use crate::format::spec_parse;
use crate::format::parse_dirsize;
use crate::format::parse_filenum;
use crate::format::parse_data_start;
use crate::format::parse_segments;
use crate::format::parse_entry;
use crate::format::entry_in_bounds;
use crate::format::header_ok;
use crate::format::lemma_parse_entries_in_bounds;
use crate::names::split_block;
use crate::names::string_from_utf8;
use crate::names::normalize_name;
use crate::names::norm_bytes;
use crate::format::spec_encode;
use crate::format::spec_encode_entries;
use crate::format::spec_encode_len;
use crate::format::spec_dir_size;
use crate::format::src_name_bytes;
use crate::format::src_stored_name;
use crate::format::names_len;
use crate::format::data_len;
use crate::format::size_table;
use crate::format::name_off_table;
use crate::format::name_block;
use crate::format::hash_block;
use crate::format::payload;
use crate::format::names_null_free;
use crate::format::sources_fit;
use crate::format::lemma_encode_parse;
use crate::format::lemma_names_len_at_least;
use crate::format::lemma_names_len_mono;
use crate::format::lemma_data_len_mono;
use crate::hash::calculate_hash;
use vstd::bytes::u32_to_le_bytes;
use vstd::bytes::u64_to_le_bytes;
use vstd::bytes::spec_u32_to_le_bytes;
use vstd::string::StrSliceExecFns;
use vstd::string::StringExecFns;

verus! {

/// One archived file's metadata.
#[derive(Debug)]
pub struct FileStruct {
    /// Declared size of the file's data in bytes.
    pub file_size: u32,
    /// Absolute offset of the file's data from the start of the archive.
    pub offset: u32,
    /// Stored name of the file.
    pub name: String,
}

impl View for FileStruct {
    type V = SpecEntry;

    open spec fn view(&self) -> SpecEntry {
        SpecEntry { name: self.name@, size: self.file_size, offset: self.offset }
    }
}

/// Vec of FileStruct type.
pub type FileList = Vec<FileStruct>;

/// One source file handed to [`BSAFile::create`]: its path, which becomes
/// the entry name after normalization, and its contents.
pub struct SourceFile {
    /// Path of the file as the caller names it.
    pub name: String,
    /// The file's contents.
    pub data: Vec<u8>,
}

impl View for SourceFile {
    type V = SpecSource;

    open spec fn view(&self) -> SpecSource {
        SpecSource { name: self.name@, data: self.data@ }
    }
}

/// The entry models of a list of file records, in order.
pub open spec fn entry_views(files: Seq<FileStruct>) -> Seq<SpecEntry> {
    Seq::new(files.len(), |i: int| files[i]@)
}

/// The source models of a list of source files, in order.
pub open spec fn source_views(srcs: Seq<SourceFile>) -> Seq<SpecSource> {
    Seq::new(srcs.len(), |i: int| srcs[i]@)
}

/// The index the name lookup resolves a name to: the highest entry index
/// carrying exactly that name, so that the last of duplicate names wins.
pub open spec fn lookup_index(es: Seq<SpecEntry>, name: Seq<char>) -> Option<int>
    decreases es.len(),
{
    if es.len() == 0 {
        None
    } else if es.last().name == name {
        Some(es.len() - 1)
    } else {
        lookup_index(es.drop_last(), name)
    }
}

/// What the lookup index means: a hit is the last entry with the queried
/// name, and a miss means no entry has it.  In particular the lookup
/// succeeds if and only if the name is a stored entry name, compared
/// exactly and case-sensitively.
pub proof fn lemma_lookup_index(es: Seq<SpecEntry>, name: Seq<char>)
    ensures
        match lookup_index(es, name) {
            Some(i) => 0 <= i < es.len() && es[i].name == name && (forall|j: int|
                i < j < es.len() ==> es[j].name != name),
            None => forall|j: int| 0 <= j < es.len() ==> es[j].name != name,
        },
    decreases es.len(),
{
    if es.len() != 0 && es.last().name != name {
        lemma_lookup_index(es.drop_last(), name);
        assert forall|j: int| 0 <= j < es.len() - 1
            implies (#[trigger] es[j]).name == es.drop_last()[j].name by {
            assert(es.drop_last()[j] == es[j]);
        }
    }
}

/// When the stored names are pairwise distinct, the lookup resolves each
/// entry's name to exactly that entry; extracting by name then returns
/// each entry's own payload.
pub proof fn lemma_lookup_distinct(es: Seq<SpecEntry>, i: int)
    requires
        0 <= i < es.len(),
        forall|a: int, b: int|
            0 <= a < b < es.len() ==> (#[trigger] es[a]).name != (#[trigger] es[b]).name,
    ensures
        lookup_index(es, es[i].name) == Some(i),
{
    lemma_lookup_index(es, es[i].name);
    if lookup_index(es, es[i].name) is Some {
        let k = lookup_index(es, es[i].name).unwrap();
        assert(es[k].name == es[i].name);
        if k < i {
            assert(es[k].name != es[i].name);
        } else if k > i {
            assert(es[i].name != es[k].name);
        }
    } else {
        assert(es[i].name != es[i].name);
    }
}

/// Main struct for reading and building archives.  An instance starts
/// empty; one successful [`BSAFile::open`] or [`BSAFile::create`] loads it,
/// after which it is queryable and immutable.
#[derive(Debug)]
pub struct BSAFile {
    files: Vec<FileStruct>,
    is_loaded: bool,
    data: Vec<u8>,
}

impl BSAFile {
    /// Whether the archive has been loaded by a successful open or create.
    pub closed spec fn loaded(&self) -> bool {
        self.is_loaded
    }

    /// The directory entries, in on-disk order.
    pub closed spec fn entries(&self) -> Seq<SpecEntry> {
        entry_views(self.files@)
    }

    /// The archive image the entries refer into.
    pub closed spec fn content(&self) -> Seq<u8> {
        self.data@
    }

    /// A loaded archive always holds an image that parses to exactly the
    /// entries it carries.
    #[verifier::type_invariant]
    spec fn wf(&self) -> bool {
        self.is_loaded ==> spec_parse(self.data@) == Ok::<Seq<SpecEntry>, BsaError>(self.entries())
    }
}

impl Default for BSAFile {
    /// An empty archive object, not yet loaded and not yet queryable.
    fn default() -> (r: Self)
        ensures
            !r.loaded(),
            r.entries() == Seq::<SpecEntry>::empty(),
    {
        let r = BSAFile { files: Vec::new(), is_loaded: false, data: Vec::new() };
        proof {
            assert(r.entries() =~= Seq::<SpecEntry>::empty());
        }
        r
    }
}

/// The little-endian 32-bit word at byte position `pos` of the image.
fn read_u32(data: &Vec<u8>, pos: usize) -> (r: u32)
    requires
        pos + 4 <= data@.len(),
    ensures
        r == spec_u32_from_le_bytes(data@.subrange(pos as int, pos as int + 4)),
{
    let len: usize = data.len();
    proof {
        assert(pos + 4 <= len);
    }
    let s = slice_subrange(data.as_slice(), pos, pos + 4);
    u32_from_le_bytes(s)
}

impl BSAFile {
    /// Create a new archive object and load it from the given image.
    pub fn new(data: Vec<u8>) -> (r: Result<Self, BsaError>)
        ensures
            match spec_parse(data@) {
                Ok(es) => r matches Ok(b) && b.loaded() && b.entries() == es && b.content()
                    == data@,
                Err(e) => r matches Err(e2) && e2 == e,
            },
    {
        let mut obj = Self::default();
        match obj.open(data) {
            Ok(()) => Ok(obj),
            Err(e) => Err(e),
        }
    }

    /// Parse an archive image and load this instance from it.
    ///
    /// A corrupt image is rejected with the exact error [`spec_parse`]
    /// names for it, and the instance is left untouched; loading an
    /// already loaded instance fails with `AlreadyOpen`.
    #[verifier::loop_isolation(false)]
    pub fn open(&mut self, data: Vec<u8>) -> (r: Result<(), BsaError>)
        ensures
            old(self).loaded() ==> r == Err::<(), BsaError>(BsaError::AlreadyOpen) && *final(self)
                == *old(self),
            !old(self).loaded() ==> match spec_parse(data@) {
                Ok(es) => r == Ok::<(), BsaError>(()) && final(self).loaded()
                    && final(self).entries() == es && final(self).content() == data@,
                Err(e) => r == Err::<(), BsaError>(e) && *final(self) == *old(self),
            },
    {
        if self.is_loaded {
            return Err(BsaError::AlreadyOpen);
        }
        let fsize = data.len();
        if fsize < 12 {
            return Err(BsaError::TooSmall(fsize as u64));
        }

        // Magic constant.
        if !(data[0] == 0x00 && data[1] == 0x01 && data[2] == 0x00 && data[3] == 0x00) {
            proof {
                if data@.subrange(0, 4) == spec_magic() {
                    assert(data@[0] == spec_magic()[0]);
                    assert(data@[1] == spec_magic()[1]);
                    assert(data@[2] == spec_magic()[2]);
                    assert(data@[3] == spec_magic()[3]);
                }
            }
            return Err(BsaError::BadHeader);
        }
        proof {
            assert(data@.subrange(0, 4) =~= spec_magic());
        }

        // Directory size and entry count.
        let dirsize = read_u32(&data, 4);
        let filenum = read_u32(&data, 8);
        proof {
            assert(parse_dirsize(data@) == dirsize as int);
            assert(parse_filenum(data@) == filenum as int);
        }

        // Corruption guards: each entry takes at least 21 bytes, and the
        // directory plus the hash table must fit inside the image.
        if (filenum as u64) * 21 > (fsize as u64) - 12 || (dirsize as u64) + 8 * (filenum as u64)
            > (fsize as u64) - 12 {
            return Err(BsaError::DirSize);
        }

        // The size/offset table cannot reach past the declared directory.
        if (dirsize as u64) < 12 * (filenum as u64) {
            return Err(BsaError::Position {
                expected: (#[verifier::truncate] ((dirsize as u64 + 12) as u32)),
                actual: 12 * (filenum as u64) + 12,
            });
        }
        proof {
            assert(header_ok(data@));
        }

        let n = filenum as usize;

        // The name block, split at its null terminators.
        let block_start = 12 + 12 * n;
        let block_end = 12 + dirsize as usize;
        let block = slice_to_vec(slice_subrange(data.as_slice(), block_start, block_end));
        let segs = split_block(block.as_slice());
        proof {
            assert(block@ == data@.subrange(
                12 + 12 * parse_filenum(data@),
                12 + parse_dirsize(data@),
            ));
        }
        if segs.len() < n {
            return Err(BsaError::DirSize);
        }

        // Decode one name per entry; a block that is not valid UTF-8 is
        // directory corruption.
        let mut names: Vec<String> = Vec::new();
        let mut i: usize = 0;
        while i < n
            invariant
                i <= n,
                n == parse_filenum(data@),
                header_ok(data@),
                segs@.len() >= n,
                segs@.len() == parse_segments(data@).len(),
                forall|k: int| 0 <= k < segs@.len() ==> (#[trigger] segs@[k])@ == parse_segments(
                    data@,
                )[k],
                names@.len() == i,
                forall|k: int| 0 <= k < i ==> vstd::utf8::valid_utf8(
                    #[trigger] parse_segments(data@)[k],
                ),
                forall|k: int| 0 <= k < i ==> (#[trigger] names@[k])@ == vstd::utf8::decode_utf8(
                    parse_segments(data@)[k],
                ),
            decreases n - i,
        {
            match string_from_utf8(segs[i].as_slice()) {
                Some(s) => {
                    names.push(s);
                },
                None => {
                    proof {
                        assert(!vstd::utf8::valid_utf8(parse_segments(data@)[i as int]));
                        assert(spec_parse(data@) == Err::<Seq<SpecEntry>, BsaError>(
                            BsaError::DirSize,
                        ));
                    }
                    return Err(BsaError::DirSize);
                },
            }
            i = i + 1;
        }

        // Resolve each entry's offset and check it stays inside the image.
        let dss: u64 = 12 + dirsize as u64 + 8 * (filenum as u64);
        let mut files: Vec<FileStruct> = Vec::new();
        let mut j: usize = 0;
        while j < n
            invariant
                j <= n,
                n == parse_filenum(data@),
                fsize == data@.len(),
                header_ok(data@),
                dss == parse_data_start(data@),
                segs@.len() >= n,
                segs@.len() == parse_segments(data@).len(),
                names@.len() == n,
                forall|k: int| 0 <= k < n ==> vstd::utf8::valid_utf8(
                    #[trigger] parse_segments(data@)[k],
                ),
                forall|k: int| 0 <= k < n ==> (#[trigger] names@[k])@ == vstd::utf8::decode_utf8(
                    parse_segments(data@)[k],
                ),
                files@.len() == j,
                forall|k: int| 0 <= k < j ==> #[trigger] entry_in_bounds(data@, k),
                forall|k: int| 0 <= k < j ==> (#[trigger] files@[k])@ == parse_entry(data@, k),
            decreases n - j,
        {
            let size = read_u32(&data, 12 + 8 * j);
            let rel = read_u32(&data, 12 + 8 * j + 4);
            proof {
                assert(data@.subrange(12 + 8 * (j as int), 12 + 8 * (j as int) + 4)
                    == data@.subrange(12 + 4 * (2 * (j as int)), 16 + 4 * (2 * (j as int))));
                assert(data@.subrange(12 + 8 * (j as int) + 4, 12 + 8 * (j as int) + 8)
                    == data@.subrange(12 + 4 * (2 * (j as int) + 1), 16 + 4 * (2 * (j as int) + 1)));
            }
            let abs: u64 = rel as u64 + dss;
            if abs > 0xFFFF_FFFF || abs + (size as u64) > fsize as u64 {
                proof {
                    assert(!entry_in_bounds(data@, j as int));
                    assert(spec_parse(data@) == Err::<Seq<SpecEntry>, BsaError>(
                        BsaError::OffsetOutside,
                    ));
                }
                return Err(BsaError::OffsetOutside);
            }
            let name = names[j].clone();
            let fs = FileStruct { file_size: size, offset: abs as u32, name };
            proof {
                assert(entry_in_bounds(data@, j as int));
                assert(fs@ =~~= parse_entry(data@, j as int));
            }
            files.push(fs);
            j = j + 1;
        }

        proof {
            assert(spec_parse(data@) == Ok::<Seq<SpecEntry>, BsaError>(
                Seq::new(parse_filenum(data@) as nat, |i: int| parse_entry(data@, i)),
            ));
            assert(entry_views(files@) =~~= Seq::new(
                parse_filenum(data@) as nat,
                |i: int| parse_entry(data@, i),
            ));
        }
        let loaded = BSAFile { files, is_loaded: true, data };
        *self = loaded;
        Ok(())
    }

    /// Succeeds only on a loaded archive.
    fn ensure_loaded(&self) -> (r: Result<(), BsaError>)
        ensures
            self.loaded() ==> r == Ok::<(), BsaError>(()),
            !self.loaded() ==> r == Err::<(), BsaError>(BsaError::NotOpen),
    {
        if !self.is_loaded {
            return Err(BsaError::NotOpen);
        }
        Ok(())
    }

    /// Succeeds only on an archive that has not been loaded yet.
    fn ensure_not_loaded(&self) -> (r: Result<(), BsaError>)
        ensures
            self.loaded() ==> r == Err::<(), BsaError>(BsaError::AlreadyOpen),
            !self.loaded() ==> r == Ok::<(), BsaError>(()),
    {
        if self.is_loaded {
            return Err(BsaError::AlreadyOpen);
        }
        Ok(())
    }

    /// The index of the entry carrying the given name, scanning so that
    /// the last of duplicate names wins.
    fn get_index(&self, file: &str) -> (r: Option<usize>)
        ensures
            match r {
                Some(i) => lookup_index(self.entries(), file@) == Some(i as int),
                None => lookup_index(self.entries(), file@) is None,
            },
    {
        let target: String = file.to_owned();
        let mut j: usize = self.files.len();
        proof {
            assert(self.entries().subrange(0, j as int) =~= self.entries());
        }
        while j > 0
            invariant
                j <= self.files@.len(),
                target@ == file@,
                self.entries().len() == self.files@.len(),
                lookup_index(self.entries(), file@) == lookup_index(
                    self.entries().subrange(0, j as int),
                    file@,
                ),
            decreases j,
        {
            j = j - 1;
            proof {
                let es = self.entries();
                assert(es.subrange(0, j + 1).last() == es[j as int]);
                assert(es[j as int].name == self.files@[j as int].name@);
            }
            if self.files[j].name == target {
                proof {
                    assert(lookup_index(self.entries().subrange(0, j + 1), file@) == Some(
                        j as int,
                    ));
                }
                return Some(j);
            }
            proof {
                assert(self.entries().subrange(0, j + 1).drop_last() =~= self.entries().subrange(
                    0,
                    j as int,
                ));
            }
        }
        proof {
            assert(self.entries().subrange(0, 0) =~= Seq::<SpecEntry>::empty());
        }
        None
    }

    /// Check whether a given file name is present within the archive: true
    /// exactly when the name is a stored entry name, compared exactly and
    /// case-sensitively.  Fails with `NotOpen` on an unloaded archive.
    pub fn has_file(&self, file: &str) -> (r: Result<bool, BsaError>)
        ensures
            !self.loaded() ==> r == Err::<bool, BsaError>(BsaError::NotOpen),
            self.loaded() ==> r == Ok::<bool, BsaError>(
                lookup_index(self.entries(), file@) is Some,
            ),
    {
        match self.ensure_loaded() {
            Err(e) => return Err(e),
            Ok(()) => {},
        }
        match self.get_index(file) {
            Some(_) => Ok(true),
            None => Ok(false),
        }
    }

    /// Get the directory of the archive, in on-disk order.  Fails with
    /// `NotOpen` on an unloaded archive.
    pub fn get_list(&self) -> (r: Result<&FileList, BsaError>)
        ensures
            !self.loaded() ==> r == Err::<&FileList, BsaError>(BsaError::NotOpen),
            self.loaded() ==> (r matches Ok(l) && entry_views(l@) == self.entries()),
    {
        match self.ensure_loaded() {
            Err(e) => return Err(e),
            Ok(()) => {},
        }
        Ok(&self.files)
    }

    /// Get the bytes of the named entry: exactly the entry's byte range of
    /// the archive image.  Fails with `NotOpen` on an unloaded archive and
    /// with `FileNotFound` when the name is not stored.
    pub fn get_file(&self, file: &str) -> (r: Result<Vec<u8>, BsaError>)
        ensures
            !self.loaded() ==> r == Err::<Vec<u8>, BsaError>(BsaError::NotOpen),
            self.loaded() ==> match lookup_index(self.entries(), file@) {
                Some(i) => (r matches Ok(bytes) && bytes@ == self.content().subrange(
                    self.entries()[i].offset as int,
                    self.entries()[i].offset + self.entries()[i].size,
                )),
                None => (r matches Err(e) && (e matches BsaError::FileNotFound(n) && n@
                    == file@)),
            },
    {
        match self.ensure_loaded() {
            Err(e) => return Err(e),
            Ok(()) => {},
        }
        let i = match self.get_index(file) {
            Some(i) => i,
            None => {
                return Err(BsaError::FileNotFound(file.to_owned()));
            },
        };
        proof {
            use_type_invariant(self);
            lemma_lookup_index(self.entries(), file@);
            lemma_parse_entries_in_bounds(self.data@);
        }
        let fs = &self.files[i];
        let off = fs.offset as usize;
        let len: usize = fs.file_size as usize;
        let total: usize = self.data.len();
        proof {
            assert(spec_parse(self.data@).unwrap() == self.entries());
            assert(spec_parse(self.data@).unwrap()[i as int].offset + spec_parse(
                self.data@,
            ).unwrap()[i as int].size <= self.data@.len());
            assert(self.entries()[i as int] == self.files@[i as int]@);
            assert(off + len <= total);
        }
        let s = slice_subrange(self.data.as_slice(), off, off + len);
        Ok(slice_to_vec(s))
    }

    /// Build a new archive from the given source files, in the given
    /// order: that order becomes directory order and entry indices.
    ///
    /// Each source's path is normalized to the archive convention and
    /// becomes the stored name; payloads are laid down contiguously in
    /// source order.  The instance then holds the encoded image and its
    /// directory, exactly as a fresh open of that image would.  Building
    /// on an already loaded instance fails with `AlreadyOpen`.
    ///
    /// The caller must hand over names free of null characters, and
    /// sources whose encoded image fits the format's 32-bit offsets.
    #[verifier::loop_isolation(false)]
    #[verifier::rlimit(100)]
    pub fn create(&mut self, sources: &Vec<SourceFile>) -> (r: Result<(), BsaError>)
        requires
            names_null_free(source_views(sources@)),
            sources_fit(source_views(sources@)),
        ensures
            old(self).loaded() ==> r == Err::<(), BsaError>(BsaError::AlreadyOpen) && *final(self)
                == *old(self),
            !old(self).loaded() ==> r == Ok::<(), BsaError>(()) && final(self).loaded()
                && final(self).content() == spec_encode(source_views(sources@))
                && final(self).entries() == spec_encode_entries(source_views(sources@)),
    {
        match self.ensure_not_loaded() {
            Err(e) => return Err(e),
            Ok(()) => {},
        }
        let ghost srcs = source_views(sources@);
        let n = sources.len();
        proof {
            lemma_names_len_at_least(srcs, n as int);
            lemma_data_len_mono(srcs, 0, n as int);
            assert(spec_encode_len(srcs) <= u32::MAX);
        }

        // Normalize every name once, keeping both the text and its bytes.
        let mut names: Vec<String> = Vec::new();
        let mut namebytes: Vec<Vec<u8>> = Vec::new();
        let mut i: usize = 0;
        while i < n
            invariant
                i <= n,
                names@.len() == i,
                namebytes@.len() == i,
                forall|k: int| 0 <= k < i ==> (#[trigger] names@[k])@ == src_stored_name(srcs, k),
                forall|k: int| 0 <= k < i ==> (#[trigger] namebytes@[k])@ == src_name_bytes(
                    srcs,
                    k,
                ),
            decreases n - i,
        {
            let s = normalize_name(sources[i].name.as_str());
            let nb = s.as_str().as_bytes_vec();
            proof {
                let name_chars = srcs[i as int].name;
                assert(name_chars == sources@[i as int].name@);
                vstd::utf8::encode_utf8_valid_utf8(name_chars);
                crate::names::lemma_norm_preserves_valid_utf8(
                    vstd::utf8::encode_utf8(name_chars),
                );
                vstd::utf8::decode_utf8_encode_utf8(
                    norm_bytes(vstd::utf8::encode_utf8(name_chars)),
                );
                assert(s@ == src_stored_name(srcs, i as int));
                assert(nb@ == src_name_bytes(srcs, i as int));
            }
            names.push(s);
            namebytes.push(nb);
            i = i + 1;
        }

        // The directory size: the two word tables plus the terminated names.
        let mut name_total: u64 = 0;
        let mut i2: usize = 0;
        while i2 < n
            invariant
                i2 <= n,
                name_total == names_len(srcs, i2 as int),
            decreases n - i2,
        {
            proof {
                lemma_names_len_mono(srcs, i2 + 1, n as int);
                lemma_names_len_at_least(srcs, i2 as int);
            }
            name_total = name_total + namebytes[i2].len() as u64 + 1;
            i2 = i2 + 1;
        }
        let dirsize64: u64 = 12 * (n as u64) + name_total;
        proof {
            assert(dirsize64 == spec_dir_size(srcs));
        }

        // Entry records: sizes, contiguous offsets resolved to absolute
        // positions, and the stored names.
        let dss: u64 = 12 + dirsize64 + 8 * (n as u64);
        let mut files: Vec<FileStruct> = Vec::new();
        let mut rel: u64 = 0;
        let mut i3: usize = 0;
        while i3 < n
            invariant
                i3 <= n,
                rel == data_len(srcs, i3 as int),
                files@.len() == i3,
                forall|k: int| 0 <= k < i3 ==> (#[trigger] files@[k])@ == spec_encode_entries(
                    srcs,
                )[k],
            decreases n - i3,
        {
            proof {
                lemma_data_len_mono(srcs, 0, i3 as int);
                lemma_data_len_mono(srcs, i3 + 1, n as int);
                assert(data_len(srcs, i3 as int) + srcs[i3 as int].data.len() == data_len(
                    srcs,
                    i3 + 1,
                ));
            }
            let fs = FileStruct {
                file_size: sources[i3].data.len() as u32,
                offset: (rel + dss) as u32,
                name: names[i3].clone(),
            };
            proof {
                assert(fs@ =~~= spec_encode_entries(srcs)[i3 as int]);
            }
            files.push(fs);
            rel = rel + sources[i3].data.len() as u64;
            i3 = i3 + 1;
        }

        // Header: magic, directory size, entry count.
        let mut out: Vec<u8> = Vec::new();
        out.push(0x00);
        out.push(0x01);
        out.push(0x00);
        out.push(0x00);
        proof {
            assert(out@ =~= spec_magic());
        }
        let mut t_ds = u32_to_le_bytes(dirsize64 as u32);
        out.append(&mut t_ds);
        let mut t_fn = u32_to_le_bytes(n as u32);
        out.append(&mut t_fn);
        let ghost header = spec_magic() + spec_u32_to_le_bytes(spec_dir_size(srcs) as u32)
            + spec_u32_to_le_bytes(srcs.len() as u32);
        proof {
            assert(out@ =~= header);
        }

        // The per-entry size and relative-offset words.
        let mut rel2: u64 = 0;
        let mut i4: usize = 0;
        while i4 < n
            invariant
                i4 <= n,
                rel2 == data_len(srcs, i4 as int),
                out@ == header + size_table(srcs, i4 as int),
            decreases n - i4,
        {
            proof {
                lemma_data_len_mono(srcs, 0, i4 as int);
                lemma_data_len_mono(srcs, i4 + 1, n as int);
            }
            let mut t1 = u32_to_le_bytes(sources[i4].data.len() as u32);
            out.append(&mut t1);
            let mut t2 = u32_to_le_bytes(rel2 as u32);
            out.append(&mut t2);
            proof {
                assert(out@ =~= header + size_table(srcs, i4 + 1));
            }
            rel2 = rel2 + sources[i4].data.len() as u64;
            i4 = i4 + 1;
        }
        let ghost p_sizes = header + size_table(srcs, n as int);

        // The per-entry name positions within the name block.
        let mut start: u64 = 0;
        let mut i5: usize = 0;
        while i5 < n
            invariant
                i5 <= n,
                start == names_len(srcs, i5 as int),
                out@ == p_sizes + name_off_table(srcs, i5 as int),
            decreases n - i5,
        {
            proof {
                lemma_names_len_at_least(srcs, i5 as int);
                lemma_names_len_mono(srcs, i5 + 1, n as int);
            }
            let mut t = u32_to_le_bytes(start as u32);
            out.append(&mut t);
            proof {
                assert(out@ =~= p_sizes + name_off_table(srcs, i5 + 1));
            }
            start = start + namebytes[i5].len() as u64 + 1;
            i5 = i5 + 1;
        }
        let ghost p_offs = p_sizes + name_off_table(srcs, n as int);

        // The name block: each normalized name, null-terminated.
        let mut i6: usize = 0;
        while i6 < n
            invariant
                i6 <= n,
                out@ == p_offs + name_block(srcs, i6 as int),
            decreases n - i6,
        {
            let m = namebytes[i6].len();
            let mut k: usize = 0;
            while k < m
                invariant
                    k <= m,
                    m == src_name_bytes(srcs, i6 as int).len(),
                    i6 < n,
                    out@ == p_offs + name_block(srcs, i6 as int) + src_name_bytes(
                        srcs,
                        i6 as int,
                    ).subrange(0, k as int),
                decreases m - k,
            {
                let b = namebytes[i6][k];
                out.push(b);
                proof {
                    assert(src_name_bytes(srcs, i6 as int).subrange(0, k + 1)
                        =~= src_name_bytes(srcs, i6 as int).subrange(0, k as int).push(b));
                    assert(out@ =~= p_offs + name_block(srcs, i6 as int) + src_name_bytes(
                        srcs,
                        i6 as int,
                    ).subrange(0, k + 1));
                }
                k = k + 1;
            }
            out.push(0u8);
            proof {
                assert(src_name_bytes(srcs, i6 as int).subrange(
                    0,
                    src_name_bytes(srcs, i6 as int).len() as int,
                ) =~= src_name_bytes(srcs, i6 as int));
                assert(out@ =~= p_offs + name_block(srcs, i6 + 1));
            }
            i6 = i6 + 1;
        }
        let ghost p_names = p_offs + name_block(srcs, n as int);

        // The legacy hash table: the hash of each null-terminated name.
        let mut i7: usize = 0;
        while i7 < n
            invariant
                i7 <= n,
                out@ == p_names + hash_block(srcs, i7 as int),
            decreases n - i7,
        {
            let terminated = names[i7].clone().concat("\0");
            proof {
                reveal_strlit("\0");
                assert("\0"@ =~= seq!['\0']);
                assert(terminated@ == src_stored_name(srcs, i7 as int) + seq!['\0']);
            }
            let h = calculate_hash(terminated.as_str());
            let mut t = u64_to_le_bytes(h);
            out.append(&mut t);
            proof {
                assert(out@ =~= p_names + hash_block(srcs, i7 + 1));
            }
            i7 = i7 + 1;
        }
        let ghost p_hashes = p_names + hash_block(srcs, n as int);

        // The payloads, contiguous and in order.
        let mut i8: usize = 0;
        while i8 < n
            invariant
                i8 <= n,
                out@ == p_hashes + payload(srcs, i8 as int),
            decreases n - i8,
        {
            let m = sources[i8].data.len();
            let mut k: usize = 0;
            while k < m
                invariant
                    k <= m,
                    i8 < n,
                    m == srcs[i8 as int].data.len(),
                    out@ == p_hashes + payload(srcs, i8 as int) + srcs[i8 as int].data.subrange(
                        0,
                        k as int,
                    ),
                decreases m - k,
            {
                let b = sources[i8].data[k];
                out.push(b);
                proof {
                    assert(srcs[i8 as int].data.subrange(0, k + 1) =~= srcs[i8 as int]
                        .data.subrange(0, k as int).push(b));
                    assert(out@ =~= p_hashes + payload(srcs, i8 as int) + srcs[i8 as int]
                        .data.subrange(0, k + 1));
                }
                k = k + 1;
            }
            proof {
                assert(srcs[i8 as int].data.subrange(0, srcs[i8 as int].data.len() as int)
                    =~= srcs[i8 as int].data);
                assert(out@ =~= p_hashes + payload(srcs, i8 + 1));
            }
            i8 = i8 + 1;
        }

        proof {
            assert(out@ =~= spec_encode(srcs));
            lemma_encode_parse(srcs);
            assert(entry_views(files@) =~~= spec_encode_entries(srcs));
        }
        let built = BSAFile { files, is_loaded: true, data: out };
        *self = built;
        Ok(())
    }

    /// The archive image this instance holds: the bytes a successful open
    /// was given, or the bytes create built.
    pub fn archive_bytes(&self) -> (r: &Vec<u8>)
        ensures
            r@ == self.content(),
    {
        &self.data
    }
}

} // verus!
