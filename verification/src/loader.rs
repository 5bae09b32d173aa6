//! Walking the block chain of an archive held in memory and assembling the
//! file tree.
//!
//! The archive opens with an 18-byte magic literal; the absolute offset of
//! the first block stands at byte 784.  Each block holds a 32-byte header,
//! then its file-header section, then (directly addressed, or as one
//! contiguous region) the payload bytes.  The walk follows each block's
//! `next_block_offset` until it meets the end-of-chain sentinel (any
//! negative offset), an offset where no block fits, or an offset it has
//! already visited; the set of visited offsets makes every walk finite.
//!
//! A file header is laid out as `flags: u32`, `content_offset: i64`,
//! `compressed_size: i64`, `uncompressed_size: i64`, `component count: u32`,
//! then each path component as a `u32` length followed by that many bytes of
//! UTF-8; the last component names the file, the ones before it the
//! directories above it.

use vstd::prelude::*;

use crate::codec::{check_magic, magic_ok, read_le_i64, read_le_u32, spec_le_i64, spec_le_u32};
use crate::decode::{decode_payload, BlockFlags, DecodeError};
use crate::filesystem::{
    fs_root_children, fs_root_name, paths_view, NodeView, RDAFile, RDAFileSystem, RDANode,
    TreeError,
};

verus! {

/// The fixed header of one block.
#[derive(Clone, Copy, PartialEq, Eq, Structural, Debug)]
pub struct BlockHeader {
    /// Default transform flags for the block's files and its header section.
    pub flags: BlockFlags,
    /// The block's own position in the stream, kept for diagnostics.
    pub offset: i64,
    /// How many file headers the header section holds.
    pub num_files: u32,
    /// On-disk size of the file-header section.
    pub compressed_file_headers_size: i64,
    /// Size of the file-header section once decoded.
    pub uncompressed_file_headers_size: i64,
    /// Position of the next block; any negative value ends the chain.
    pub next_block_offset: i64,
}

/// One decoded file header, consumed to drive payload decoding.
pub struct FileHeader {
    /// The file's own transform flags.
    pub flags: BlockFlags,
    /// Path components; the last one names the file.
    pub path: Vec<String>,
    /// Where the payload bytes stand: absolute, or relative to the block's
    /// data section when the block keeps one contiguous region.
    pub content_offset: i64,
    /// On-disk size of the payload.
    pub compressed_size: i64,
    /// Size the decoded payload must have.
    pub uncompressed_size: i64,
}

/// Mathematical shape of a file header.
pub ghost struct FileHeaderView {
    pub flags: BlockFlags,
    pub path: Seq<Seq<char>>,
    pub content_offset: i64,
    pub compressed_size: i64,
    pub uncompressed_size: i64,
}

/// Abstraction of one file header.
pub open spec fn file_header_view(fh: FileHeader) -> FileHeaderView {
    FileHeaderView {
        flags: fh.flags,
        path: paths_view(fh.path@),
        content_offset: fh.content_offset,
        compressed_size: fh.compressed_size,
        uncompressed_size: fh.uncompressed_size,
    }
}

/// Why a load was aborted.  No partial tree is ever returned.
#[derive(Clone, Copy, PartialEq, Eq, Structural, Debug)]
pub enum LoaderError {
    /// A structurally invalid header, detected at the carried byte position;
    /// position 0 marks a magic mismatch.
    FileFormatError(usize),
    /// The chain's first offset pointed where no block can stand.
    ChainIntegrityError(i64),
    /// A payload or header section could not be decoded.
    DecodeError(DecodeError),
    /// The tree refused an insertion.
    TreeInsertionError(TreeError),
}

/// Checks the archive's magic literal; any shorter or differing opening is
/// refused at position 0.
pub fn check_header(data: &[u8]) -> (r: Result<(), LoaderError>)
    ensures
        magic_ok(data@) ==> r == Ok::<(), LoaderError>(()),
        !magic_ok(data@) ==> r == Err::<(), LoaderError>(LoaderError::FileFormatError(0)),
{
    if check_magic(data) {
        Ok(())
    } else {
        Err(LoaderError::FileFormatError(0))
    }
}

/// Reads the absolute offset of the first block from byte 784.
pub fn read_first_block_offset(data: &[u8]) -> (r: Result<i64, LoaderError>)
    ensures
        data@.len() >= 792 ==> r == Ok::<i64, LoaderError>(spec_le_i64(data@, 784)),
        data@.len() < 792 ==> r == Err::<i64, LoaderError>(LoaderError::FileFormatError(784)),
{
    if data.len() < 792 {
        Err(LoaderError::FileFormatError(784))
    } else {
        Ok(read_le_i64(data, 784))
    }
}

/// The 32-byte block header at `off`: flags, file count, the two
/// header-section sizes, and the chain pointer, in that order.
pub open spec fn spec_block_header(data: Seq<u8>, off: int) -> BlockHeader {
    BlockHeader {
        flags: BlockFlags { bits: spec_le_u32(data, off) },
        offset: off as i64,
        num_files: spec_le_u32(data, off + 4),
        compressed_file_headers_size: spec_le_i64(data, off + 8),
        uncompressed_file_headers_size: spec_le_i64(data, off + 16),
        next_block_offset: spec_le_i64(data, off + 24),
    }
}

/// Decodes the block header standing at `off`.
pub fn decode_block_header(data: &[u8], off: usize) -> (h: BlockHeader)
    requires
        off + 32 <= data@.len(),
    ensures
        h == spec_block_header(data@, off as int),
{
    // Calling len pins the slice's length as a machine word, so the offset
    // sums below stay in range.
    let n = data.len();
    let offset = #[verifier::truncate] (off as i64);
    BlockHeader {
        flags: BlockFlags { bits: read_le_u32(data, off) },
        offset,
        num_files: read_le_u32(data, off + 4),
        compressed_file_headers_size: read_le_i64(data, off + 8),
        uncompressed_file_headers_size: read_le_i64(data, off + 16),
        next_block_offset: read_le_i64(data, off + 24),
    }
}

/// One path component at `pos`: a `u32` length, then that many bytes of
/// UTF-8; a zero length, a short section and malformed UTF-8 are refused.
pub open spec fn spec_component(b: Seq<u8>, pos: int) -> Option<(Seq<char>, int)> {
    if pos + 4 > b.len() {
        None
    } else {
        let l = spec_le_u32(b, pos);
        if l == 0 || pos + 4 + l > b.len() {
            None
        } else {
            let seg = b.subrange(pos + 4, pos + 4 + l);
            if vstd::utf8::valid_utf8(seg) {
                Some((vstd::utf8::decode_utf8(seg), pos + 4 + l))
            } else {
                None
            }
        }
    }
}

/// `n` path components in a row starting at `pos`.
pub open spec fn spec_components(b: Seq<u8>, pos: int, n: nat) -> Option<(Seq<Seq<char>>, int)>
    decreases n,
{
    if n == 0 {
        Some((Seq::empty(), pos))
    } else {
        match spec_component(b, pos) {
            None => None,
            Some((c, p2)) => match spec_components(b, p2, (n - 1) as nat) {
                None => None,
                Some((rest, p3)) => Some((seq![c] + rest, p3)),
            },
        }
    }
}

/// One file header at `pos`: the fixed 32-byte part, then its path
/// components; a zero component count is refused.
pub open spec fn spec_file_header(b: Seq<u8>, pos: int) -> Option<(FileHeaderView, int)> {
    if pos + 32 > b.len() {
        None
    } else {
        let ncomp = spec_le_u32(b, pos + 28);
        if ncomp == 0 {
            None
        } else {
            match spec_components(b, pos + 32, ncomp as nat) {
                None => None,
                Some((path, p2)) => Some(
                    (
                        FileHeaderView {
                            flags: BlockFlags { bits: spec_le_u32(b, pos) },
                            path,
                            content_offset: spec_le_i64(b, pos + 4),
                            compressed_size: spec_le_i64(b, pos + 12),
                            uncompressed_size: spec_le_i64(b, pos + 20),
                        },
                        p2,
                    ),
                ),
            }
        }
    }
}

/// Relies on `String::from_utf8`: it accepts exactly the valid UTF-8 byte
/// strings and decodes them, and refuses every other input.
#[verifier::external_body]
fn utf8_to_string(bytes: Vec<u8>) -> (r: Option<String>)
    ensures
        match r {
            Some(s) => vstd::utf8::valid_utf8(bytes@) && s@ == vstd::utf8::decode_utf8(bytes@),
            None => !vstd::utf8::valid_utf8(bytes@),
        },
{
    match String::from_utf8(bytes) {
        Ok(s) => Some(s),
        Err(_) => None,
    }
}

fn read_component(b: &[u8], pos: usize) -> (r: Result<(String, usize), ()>)
    ensures
        match r {
            Ok((s, p2)) => spec_component(b@, pos as int) == Some((s@, p2 as int)),
            Err(()) => spec_component(b@, pos as int) is None,
        },
{
    let n = b.len();
    if n < 4 || pos > n - 4 {
        return Err(());
    }
    let l = read_le_u32(b, pos);
    if l == 0 {
        return Err(());
    }
    if (l as u64) > (n as u64) - (pos as u64) - 4 {
        return Err(());
    }
    let start = pos + 4;
    let end = start + (l as usize);
    let seg = vstd::slice::slice_subrange(b, start, end);
    let seg_vec = vstd::slice::slice_to_vec(seg);
    match utf8_to_string(seg_vec) {
        Some(s) => Ok((s, end)),
        None => Err(()),
    }
}

fn read_components(b: &[u8], pos: usize, n: u32) -> (r: Result<(Vec<String>, usize), ()>)
    ensures
        match r {
            Ok((v, p2)) => {
                &&& spec_components(b@, pos as int, n as nat) == Some(
                    (paths_view(v@), p2 as int),
                )
                &&& v@.len() == n
            },
            Err(()) => spec_components(b@, pos as int, n as nat) is None,
        },
    decreases n,
{
    if n == 0 {
        let v: Vec<String> = Vec::new();
        proof {
            assert(paths_view(v@) =~= Seq::<Seq<char>>::empty());
        }
        Ok((v, pos))
    } else {
        match read_component(b, pos) {
            Err(()) => Err(()),
            Ok((s, p2)) => match read_components(b, p2, n - 1) {
                Err(()) => Err(()),
                Ok((mut rest, p3)) => {
                    rest.insert(0, s);
                    proof {
                        assert(paths_view(rest@) =~= seq![s@] + paths_view(
                            rest@.drop_first(),
                        ));
                    }
                    Ok((rest, p3))
                },
            },
        }
    }
}

/// Decodes the file header standing at `pos` of the decoded header section,
/// returning it with the position just past it.
pub fn read_file(b: &[u8], pos: usize) -> (r: Result<(FileHeader, usize), LoaderError>)
    ensures
        match r {
            Ok((fh, p2)) => {
                &&& spec_file_header(b@, pos as int) == Some((file_header_view(fh), p2 as int))
                &&& fh.path@.len() >= 1
            },
            Err(e) => {
                &&& spec_file_header(b@, pos as int) is None
                &&& e == LoaderError::FileFormatError(pos)
            },
        },
{
    let n = b.len();
    if n < 32 || pos > n - 32 {
        return Err(LoaderError::FileFormatError(pos));
    }
    let ncomp = read_le_u32(b, pos + 28);
    if ncomp == 0 {
        return Err(LoaderError::FileFormatError(pos));
    }
    match read_components(b, pos + 32, ncomp) {
        Err(()) => Err(LoaderError::FileFormatError(pos)),
        Ok((path, p2)) => {
            let fh = FileHeader {
                flags: BlockFlags { bits: read_le_u32(b, pos) },
                path,
                content_offset: read_le_i64(b, pos + 4),
                compressed_size: read_le_i64(b, pos + 12),
                uncompressed_size: read_le_i64(b, pos + 20),
            };
            Ok((fh, p2))
        },
    }
}

/// A root that insertions keep: the empty sentinel before the first file,
/// a directory afterwards.
pub open spec fn root_wf(fs: RDAFileSystem) -> bool {
    fs.root is Directory || fs.root is Empty
}

proof fn lemma_wf_from_view(a: RDANode, b: RDANode)
    requires
        crate::filesystem::node_view(a) == crate::filesystem::node_view(b),
        a is Directory || a is Empty,
    ensures
        b is Directory || b is Empty,
{
    if b is File {
        assert(crate::filesystem::node_view(b) is File);
        assert(!(crate::filesystem::node_view(a) is File));
    }
}

/// The views of a run of decoded file headers.
pub open spec fn views_of(v: Seq<FileHeader>) -> Seq<FileHeaderView> {
    v.map_values(|fh: FileHeader| file_header_view(fh))
}

/// `n` file headers in a row starting at `pos`, with the position just past
/// them; a malformed header fails at its own position.
pub open spec fn spec_file_headers(b: Seq<u8>, pos: int, n: nat) -> Result<
    (Seq<FileHeaderView>, int),
    int,
>
    decreases n,
{
    if n == 0 {
        Ok((Seq::empty(), pos))
    } else {
        match spec_file_header(b, pos) {
            None => Err(pos),
            Some((fh, p2)) => match spec_file_headers(b, p2, (n - 1) as nat) {
                Err(p) => Err(p),
                Ok((rest, p3)) => Ok((seq![fh] + rest, p3)),
            },
        }
    }
}

/// The decoded bytes of a block's file-header section: the
/// `compressed_file_headers_size` bytes after the block header, inflated to
/// `uncompressed_file_headers_size` bytes when the block's compression flag
/// is set, taken as they stand otherwise.
pub open spec fn spec_header_section(data: Seq<u8>, h: BlockHeader) -> Result<
    Seq<u8>,
    LoaderError,
> {
    let off = h.offset as int;
    let start = off + 32;
    let chs = h.compressed_file_headers_size as int;
    let uhs = h.uncompressed_file_headers_size as int;
    if chs < 0 || uhs < 0 {
        Err(LoaderError::FileFormatError(h.offset as usize))
    } else if chs > data.len() - start {
        Err(LoaderError::FileFormatError(h.offset as usize))
    } else {
        let raw = data.subrange(start, start + chs);
        if h.flags.spec_compressed() {
            match crate::decode::inflate_of(raw) {
                None => Err(LoaderError::DecodeError(DecodeError::BadData)),
                Some(out) => if out.len() != uhs {
                    Err(LoaderError::DecodeError(DecodeError::SizeMismatch))
                } else {
                    Ok(out)
                },
            }
        } else {
            if uhs != chs {
                Err(LoaderError::FileFormatError(h.offset as usize))
            } else {
                Ok(raw)
            }
        }
    }
}

/// What inserting the files `fhs[i..]` of one block does to the root's
/// children: tombstones are skipped; every other entry has its payload
/// located, decoded and pushed under its path, and the first failure aborts
/// the block.
pub open spec fn spec_apply_files(
    data: Seq<u8>,
    h: BlockHeader,
    fhs: Seq<FileHeaderView>,
    i: int,
    cs: Seq<crate::filesystem::NodeView>,
) -> Result<Seq<crate::filesystem::NodeView>, LoaderError>
    decreases fhs.len() - i,
{
    if i >= fhs.len() {
        Ok(cs)
    } else {
        let fh = fhs[i];
        if fh.flags.spec_deleted() {
            spec_apply_files(data, h, fhs, i + 1, cs)
        } else {
            let ds: int = h.offset + 32 + h.compressed_file_headers_size;
            let base: int = if h.flags.spec_contiguous() {
                ds
            } else {
                0
            };
            if fh.content_offset < 0 || fh.compressed_size < 0 || fh.uncompressed_size < 0 {
                Err(LoaderError::FileFormatError(h.offset as usize))
            } else if fh.content_offset > data.len() - base {
                Err(LoaderError::FileFormatError(h.offset as usize))
            } else if fh.compressed_size > data.len() - base - fh.content_offset {
                Err(LoaderError::FileFormatError(h.offset as usize))
            } else if fh.uncompressed_size > usize::MAX {
                Err(LoaderError::FileFormatError(h.offset as usize))
            } else {
                let abs = base + fh.content_offset;
                let raw = data.subrange(abs, abs + fh.compressed_size);
                match crate::decode::spec_decode(raw, fh.flags, fh.uncompressed_size as nat) {
                    Err(e) => Err(LoaderError::DecodeError(e)),
                    Ok(content) => {
                        let node = crate::filesystem::NodeView::File {
                            name: fh.path[fh.path.len() - 1],
                            content,
                        };
                        match crate::filesystem::spec_push(
                            cs,
                            fh.path.take(fh.path.len() - 1),
                            0,
                            node,
                        ) {
                            Err(e) => Err(LoaderError::TreeInsertionError(e)),
                            Ok(cs2) => spec_apply_files(data, h, fhs, i + 1, cs2),
                        }
                    },
                }
            }
        }
    }
}

/// What one whole block does to the root's children: decode the header
/// section, read `num_files` file headers from it, and apply each file.
pub open spec fn spec_load_files(
    data: Seq<u8>,
    h: BlockHeader,
    cs: Seq<crate::filesystem::NodeView>,
) -> Result<Seq<crate::filesystem::NodeView>, LoaderError> {
    match spec_header_section(data, h) {
        Err(e) => Err(e),
        Ok(hdr) => match spec_file_headers(hdr, 0, h.num_files as nat) {
            Err(p) => Err(LoaderError::FileFormatError(p as usize)),
            Ok((fhs, _)) => spec_apply_files(data, h, fhs, 0, cs),
        },
    }
}

/// Applying a block's files never rewrites or hides a file the tree already
/// holds.
pub proof fn lemma_apply_files_preserves_file_get(
    data: Seq<u8>,
    h: BlockHeader,
    fhs: Seq<FileHeaderView>,
    i: int,
    cs: Seq<NodeView>,
    cs2: Seq<NodeView>,
    p: Seq<Seq<char>>,
    name: Seq<char>,
    content: Seq<u8>,
)
    requires
        0 <= i,
        crate::filesystem::spec_get(cs, p, 0) == Some(NodeView::File { name, content }),
        spec_apply_files(data, h, fhs, i, cs) == Ok::<_, LoaderError>(cs2),
    ensures
        crate::filesystem::spec_get(cs2, p, 0) == Some(NodeView::File { name, content }),
    decreases fhs.len() - i,
{
    if i < fhs.len() {
        let fh = fhs[i];
        if fh.flags.spec_deleted() {
            lemma_apply_files_preserves_file_get(
                data,
                h,
                fhs,
                i + 1,
                cs,
                cs2,
                p,
                name,
                content,
            );
        } else {
            let ds: int = h.offset + 32 + h.compressed_file_headers_size;
            let base: int = if h.flags.spec_contiguous() {
                ds
            } else {
                0
            };
            let abs = base + fh.content_offset;
            let raw = data.subrange(abs, abs + fh.compressed_size);
            let c2 = crate::decode::spec_decode(raw, fh.flags, fh.uncompressed_size as nat)->Ok_0;
            let node = NodeView::File { name: fh.path[fh.path.len() - 1], content: c2 };
            let q = fh.path.take(fh.path.len() - 1);
            let mid = crate::filesystem::spec_push(cs, q, 0, node)->Ok_0;
            crate::filesystem::lemma_push_preserves_file_get(
                cs,
                p,
                q,
                0,
                node,
                mid,
                name,
                content,
            );
            lemma_apply_files_preserves_file_get(
                data,
                h,
                fhs,
                i + 1,
                mid,
                cs2,
                p,
                name,
                content,
            );
        }
    }
}

/// Once a block's fold has gone through, each file it listed without a
/// tombstone is found under its own path, holding exactly its decoded
/// payload.
pub proof fn lemma_apply_files_finds_inserted(
    data: Seq<u8>,
    h: BlockHeader,
    fhs: Seq<FileHeaderView>,
    i: int,
    k: int,
    cs: Seq<NodeView>,
    cs2: Seq<NodeView>,
)
    requires
        0 <= i <= k < fhs.len(),
        fhs[k].path.len() >= 1,
        !fhs[k].flags.spec_deleted(),
        spec_apply_files(data, h, fhs, i, cs) == Ok::<_, LoaderError>(cs2),
    ensures
        ({
            let fh = fhs[k];
            let ds: int = h.offset + 32 + h.compressed_file_headers_size;
            let base: int = if h.flags.spec_contiguous() {
                ds
            } else {
                0
            };
            let raw = data.subrange(
                base + fh.content_offset,
                base + fh.content_offset + fh.compressed_size,
            );
            let c = crate::decode::spec_decode(raw, fh.flags, fh.uncompressed_size as nat)->Ok_0;
            crate::filesystem::spec_get(cs2, fh.path, 0) == Some(
                NodeView::File { name: fh.path[fh.path.len() - 1], content: c },
            )
        }),
    decreases fhs.len() - i,
{
    let fh = fhs[i];
    if fh.flags.spec_deleted() {
        lemma_apply_files_finds_inserted(data, h, fhs, i + 1, k, cs, cs2);
    } else {
        let ds: int = h.offset + 32 + h.compressed_file_headers_size;
        let base: int = if h.flags.spec_contiguous() {
            ds
        } else {
            0
        };
        let raw = data.subrange(
            base + fh.content_offset,
            base + fh.content_offset + fh.compressed_size,
        );
        let c = crate::decode::spec_decode(raw, fh.flags, fh.uncompressed_size as nat)->Ok_0;
        let node = NodeView::File { name: fh.path[fh.path.len() - 1], content: c };
        let q = fh.path.take(fh.path.len() - 1);
        let mid = crate::filesystem::spec_push(cs, q, 0, node)->Ok_0;
        if k == i {
            crate::filesystem::lemma_push_then_get(cs, q, 0, node, mid);
            assert(q.push(crate::filesystem::nv_name(node)) =~= fh.path);
            lemma_apply_files_preserves_file_get(
                data,
                h,
                fhs,
                i + 1,
                mid,
                cs2,
                fh.path,
                node->File_name,
                c,
            );
        } else {
            lemma_apply_files_finds_inserted(data, h, fhs, i + 1, k, mid, cs2);
        }
    }
}

/// The rest of a walk never rewrites or hides a file the tree already
/// holds: together with the block-level laws, every file a block inserted
/// is found intact in the tree the whole load returns.
pub proof fn lemma_walk_preserves_file_get(
    data: Seq<u8>,
    cs: Seq<NodeView>,
    next: i64,
    visited: Set<i64>,
    fuel: nat,
    cs2: Seq<NodeView>,
    p: Seq<Seq<char>>,
    name: Seq<char>,
    content: Seq<u8>,
)
    requires
        crate::filesystem::spec_get(cs, p, 0) == Some(NodeView::File { name, content }),
        spec_walk(data, cs, next, visited, fuel) == Ok::<_, LoaderError>(cs2),
    ensures
        crate::filesystem::spec_get(cs2, p, 0) == Some(NodeView::File { name, content }),
    decreases fuel,
{
    if fuel > 0 {
        let h = spec_block_header(data, next as int);
        let mid = spec_load_files(data, h, cs)->Ok_0;
        let hdr = spec_header_section(data, h)->Ok_0;
        let fhs = spec_file_headers(hdr, 0, h.num_files as nat)->Ok_0.0;
        lemma_apply_files_preserves_file_get(data, h, fhs, 0, cs, mid, p, name, content);
        let nxt = h.next_block_offset;
        if !(nxt < 0) && !(nxt > data.len() - 32) && !visited.insert(next).contains(nxt) {
            lemma_walk_preserves_file_get(
                data,
                mid,
                nxt,
                visited.insert(next),
                (fuel - 1) as nat,
                cs2,
                p,
                name,
                content,
            );
        }
    }
}

/// There are only `bound` places a block can stand, so a list of distinct
/// block offsets can never be longer than that.
proof fn lemma_distinct_offsets_bound(s: Seq<i64>, bound: int)
    requires
        s.no_duplicates(),
        forall|k: int| 0 <= k < s.len() ==> 0 <= #[trigger] s[k] && s[k] < bound,
        0 <= bound,
    ensures
        s.len() <= bound,
{
    let t = s.map_values(|x: i64| x as int);
    assert forall|i: int, j: int| i != j && 0 <= i < t.len() && 0 <= j < t.len() implies t[i]
        != t[j] by {
        assert(s[i] != s[j]);
    }
    assert(t.no_duplicates());
    t.unique_seq_to_set();
    let rng = vstd::set_lib::set_int_range(0, bound);
    vstd::set_lib::lemma_int_range(0, bound);
    assert forall|x: int| t.to_set().contains(x) implies rng.contains(x) by {
        let i = choose|i: int| 0 <= i < t.len() && t[i] == x;
        assert(0 <= s[i] && s[i] < bound);
    }
    assert(t.to_set().subset_of(rng));
    vstd::set_lib::lemma_len_subset(t.to_set(), rng);
}

/// Whether the walk has already visited offset `x`.
fn contains_offset(v: &Vec<i64>, x: i64) -> (r: bool)
    ensures
        r == v@.contains(x),
{
    let n = v.len();
    for i in 0..n
        invariant
            n == v@.len(),
            forall|k: int| 0 <= k < i ==> v@[k] != x,
    {
        if v[i] == x {
            return true;
        }
    }
    assert(!v@.contains(x));
    false
}

/// Reads `n` file headers in a row starting at `pos`.
fn read_files(b: &[u8], pos: usize, n: u32) -> (r: Result<(Vec<FileHeader>, usize), LoaderError>)
    ensures
        match r {
            Ok((v, p2)) => {
                &&& spec_file_headers(b@, pos as int, n as nat) == Ok::<_, int>(
                    (views_of(v@), p2 as int),
                )
                &&& forall|k: int| 0 <= k < v@.len() ==> #[trigger] v@[k].path@.len() >= 1
                &&& v@.len() == n
            },
            Err(e) => {
                &&& spec_file_headers(b@, pos as int, n as nat) is Err
                &&& e == LoaderError::FileFormatError(
                    spec_file_headers(b@, pos as int, n as nat)->Err_0 as usize,
                )
            },
        },
    decreases n,
{
    if n == 0 {
        let v: Vec<FileHeader> = Vec::new();
        proof {
            assert(views_of(v@) =~= Seq::<FileHeaderView>::empty());
        }
        Ok((v, pos))
    } else {
        match read_file(b, pos) {
            Err(e) => Err(e),
            Ok((fh, p2)) => match read_files(b, p2, n - 1) {
                Err(e) => Err(e),
                Ok((mut rest, p3)) => {
                    let ghost old_rest = rest@;
                    rest.insert(0, fh);
                    proof {
                        assert(rest@.drop_first() =~= old_rest);
                        assert(views_of(rest@) =~= seq![file_header_view(rest@[0])] + views_of(
                            rest@.drop_first(),
                        ));
                    }
                    Ok((rest, p3))
                },
            },
        }
    }
}

/// Decodes one block's header section, then reads, decodes and inserts each
/// listed file; tombstoned entries are skipped.  The tree's root keeps its
/// name and stays a directory or the empty sentinel through every outcome;
/// on success its children change exactly as `spec_load_files` says.
pub fn load_files(data: &[u8], h: &BlockHeader, fs: &mut RDAFileSystem) -> (r: Result<
    (),
    LoaderError,
>)
    requires
        h.offset >= 0,
        h.offset + 32 <= data@.len(),
        root_wf(*old(fs)),
    ensures
        root_wf(*final(fs)),
        crate::filesystem::fs_root_name(final(fs).root) == crate::filesystem::fs_root_name(
            old(fs).root,
        ),
        match r {
            Ok(()) => spec_load_files(
                data@,
                *h,
                crate::filesystem::fs_root_children(old(fs).root),
            ) == Ok::<_, LoaderError>(crate::filesystem::fs_root_children(final(fs).root)),
            Err(e) => spec_load_files(
                data@,
                *h,
                crate::filesystem::fs_root_children(old(fs).root),
            ) == Err::<Seq<crate::filesystem::NodeView>, _>(e),
        },
{
    let len = data.len();
    let off = h.offset as usize;
    let start = off + 32;
    let chs = h.compressed_file_headers_size;
    let uhs = h.uncompressed_file_headers_size;
    if chs < 0 || uhs < 0 {
        return Err(LoaderError::FileFormatError(off));
    }
    if (chs as u64) > (len as u64) - (start as u64) {
        return Err(LoaderError::FileFormatError(off));
    }
    let chs_u = chs as usize;
    let raw_hdrs = vstd::slice::slice_subrange(data, start, start + chs_u);
    let hdr_vec: Vec<u8> = if h.flags.is_compressed() {
        match crate::decode::inflate(raw_hdrs) {
            None => {
                return Err(LoaderError::DecodeError(DecodeError::BadData));
            },
            Some(out) => {
                if (out.len() as u64) != (uhs as u64) {
                    return Err(LoaderError::DecodeError(DecodeError::SizeMismatch));
                }
                out
            },
        }
    } else {
        if uhs != chs {
            return Err(LoaderError::FileFormatError(off));
        }
        vstd::slice::slice_to_vec(raw_hdrs)
    };
    assert(spec_header_section(data@, *h) == Ok::<Seq<u8>, LoaderError>(hdr_vec@));
    let (files, _end) = match read_files(hdr_vec.as_slice(), 0, h.num_files) {
        Ok(pair) => pair,
        Err(e) => {
            return Err(e);
        },
    };
    let ghost fhs = views_of(files@);
    let ghost cs0 = crate::filesystem::fs_root_children(old(fs).root);
    let ds = start + chs_u;
    let mut fi: usize = 0;
    while fi < files.len()
        invariant
            root_wf(*fs),
            crate::filesystem::fs_root_name(fs.root) == crate::filesystem::fs_root_name(
                old(fs).root,
            ),
            fi <= files@.len(),
            len == data@.len(),
            h.offset >= 0,
            h.offset + 32 <= len,
            h.compressed_file_headers_size >= 0,
            off as int == h.offset as int,
            ds as int == h.offset + 32 + h.compressed_file_headers_size,
            ds <= len,
            fhs == views_of(files@),
            forall|k: int| 0 <= k < files@.len() ==> #[trigger] files@[k].path@.len() >= 1,
            cs0 == crate::filesystem::fs_root_children(old(fs).root),
            spec_load_files(data@, *h, cs0) == spec_apply_files(data@, *h, fhs, 0, cs0),
            spec_apply_files(
                data@,
                *h,
                fhs,
                fi as int,
                crate::filesystem::fs_root_children(fs.root),
            ) == spec_apply_files(data@, *h, fhs, 0, cs0),
        decreases files@.len() - fi,
    {
        let fh = &files[fi];
        assert(fhs[fi as int] == file_header_view(*fh));
        if !fh.flags.is_deleted() {
            if fh.content_offset < 0 || fh.compressed_size < 0 || fh.uncompressed_size < 0 {
                return Err(LoaderError::FileFormatError(off));
            }
            let base: u64 = if h.flags.is_contiguous() {
                ds as u64
            } else {
                0
            };
            if (fh.content_offset as u64) > (len as u64) - base {
                return Err(LoaderError::FileFormatError(off));
            }
            let abs: u64 = base + (fh.content_offset as u64);
            if (fh.compressed_size as u64) > (len as u64) - abs {
                return Err(LoaderError::FileFormatError(off));
            }
            let a = abs as usize;
            let c = fh.compressed_size as usize;
            if (fh.uncompressed_size as u64) > (usize::MAX as u64) {
                return Err(LoaderError::FileFormatError(off));
            }
            let raw = vstd::slice::slice_subrange(data, a, a + c);
            let content = match decode_payload(raw, fh.flags, fh.uncompressed_size as usize) {
                Ok(v) => v,
                Err(e) => {
                    return Err(LoaderError::DecodeError(e));
                },
            };
            let n_comp = fh.path.len();
            let filename = fh.path[n_comp - 1].clone();
            let mut dirs: Vec<String> = Vec::new();
            for k in 0..n_comp - 1
                invariant
                    n_comp == fh.path@.len(),
                    n_comp >= 1,
                    dirs@.len() == k,
                    forall|j: int| 0 <= j < k ==> #[trigger] dirs@[j]@ == fh.path@[j]@,
            {
                dirs.push(fh.path[k].clone());
            }
            proof {
                assert(crate::filesystem::paths_view(dirs@) =~= file_header_view(
                    *fh,
                ).path.take(n_comp - 1));
            }
            let node = RDANode::File(RDAFile { filename, content });
            let ghost pre = *fs;
            match fs.push(dirs.as_slice(), node) {
                Ok(()) => {},
                Err(e) => {
                    proof {
                        lemma_wf_from_view(pre.root, fs.root);
                    }
                    return Err(LoaderError::TreeInsertionError(e));
                },
            }
        }
        fi = fi + 1;
    }
    Ok(())
}

/// The chain walk from block offset `next` on, applied to the root's
/// children `cs`.  `visited` holds the offsets of the blocks already
/// processed; a chain pointer that is negative, out of range or already
/// visited ends the walk with the children built so far.  `fuel` bounds the
/// recursion; the walk itself visits each offset at most once, so any fuel
/// above the number of possible block offsets is never exhausted.
pub open spec fn spec_walk(
    data: Seq<u8>,
    cs: Seq<NodeView>,
    next: i64,
    visited: Set<i64>,
    fuel: nat,
) -> Result<Seq<NodeView>, LoaderError>
    decreases fuel,
{
    if fuel == 0 {
        Ok(cs)
    } else {
        let h = spec_block_header(data, next as int);
        match spec_load_files(data, h, cs) {
            Err(e) => Err(e),
            Ok(cs2) => {
                let nxt = h.next_block_offset;
                if nxt < 0 {
                    Ok(cs2)
                } else if nxt > data.len() - 32 {
                    Ok(cs2)
                } else if visited.insert(next).contains(nxt) {
                    Ok(cs2)
                } else {
                    spec_walk(data, cs2, nxt, visited.insert(next), (fuel - 1) as nat)
                }
            },
        }
    }
}

/// What loading a whole archive yields: the root directory's children, or
/// the error that aborted the load.  A bad magic is refused at position 0, a
/// stream too short for the first-block field at position 784, and a first
/// offset where no block fits is a chain-integrity error; then the chain is
/// walked from the first block.
pub open spec fn spec_load(data: Seq<u8>) -> Result<Seq<NodeView>, LoaderError> {
    if !magic_ok(data) {
        Err(LoaderError::FileFormatError(0))
    } else if data.len() < 792 {
        Err(LoaderError::FileFormatError(784))
    } else {
        let first = spec_le_i64(data, 784);
        if first < 0 || first > data.len() - 32 {
            Err(LoaderError::ChainIntegrityError(first))
        } else {
            spec_walk(data, Seq::empty(), first, Set::empty(), (data.len() + 1) as nat)
        }
    }
}

/// Pushing an offset onto the visited list is inserting it into the visited
/// set.
proof fn lemma_push_to_set(s: Seq<i64>, x: i64)
    ensures
        s.push(x).to_set() == s.to_set().insert(x),
{
    assert forall|y: i64| s.push(x).to_set().contains(y) implies s.to_set().insert(x).contains(
        y,
    ) by {
        let i = choose|i: int| 0 <= i < s.push(x).len() && s.push(x)[i] == y;
        if i < s.len() {
            assert(s[i] == y);
        }
    }
    assert forall|y: i64| s.to_set().insert(x).contains(y) implies s.push(x).to_set().contains(
        y,
    ) by {
        if y == x {
            assert(s.push(x)[s.len() as int] == y);
        } else {
            let i = choose|i: int| 0 <= i < s.len() && s[i] == y;
            assert(s.push(x)[i] == y);
        }
    }
    assert(s.push(x).to_set() =~= s.to_set().insert(x));
}

/// Loads a whole archive held in `data`: checks the magic, finds the first
/// block, and walks the chain until its end, assembling the file tree.
///
/// A bad magic is refused at position 0 and a short archive at position 784.
/// A first block offset pointing where no block fits is a chain-integrity
/// error; once the walk is under way, a chain pointer that is negative, out
/// of range or already visited ends it, and the tree built so far is the
/// result.  The visited-offset list makes the walk provably finite.
pub fn load_rda(data: &[u8]) -> (r: Result<RDAFileSystem, LoaderError>)
    ensures
        match r {
            Ok(fs) => {
                &&& spec_load(data@) == Ok::<_, LoaderError>(fs_root_children(fs.root))
                &&& root_wf(fs)
                &&& fs_root_name(fs.root) == "/"@
            },
            Err(e) => spec_load(data@) == Err::<Seq<NodeView>, _>(e),
        },
{
    match check_header(data) {
        Ok(()) => {},
        Err(e) => {
            return Err(e);
        },
    }
    let first = match read_first_block_offset(data) {
        Ok(v) => v,
        Err(e) => {
            return Err(e);
        },
    };
    let len = data.len();
    if first < 0 || (first as u64) > (len as u64) - 32 || len < 32 {
        return Err(LoaderError::ChainIntegrityError(first));
    }
    let mut fs = RDAFileSystem::default();
    let mut next: i64 = first;
    let mut visited: Vec<i64> = Vec::new();
    proof {
        assert(Seq::<i64>::empty().to_set() =~= Set::<i64>::empty());
        assert(fs_root_children(fs.root) =~= Seq::<NodeView>::empty());
    }
    loop
        invariant
            len == data@.len(),
            len >= 792,
            magic_ok(data@),
            0 <= next,
            next + 32 <= len,
            visited@.no_duplicates(),
            forall|k: int| 0 <= k < visited@.len() ==> 0 <= #[trigger] visited@[k]
                && visited@[k] + 32 <= len,
            !visited@.contains(next),
            root_wf(fs),
            fs_root_name(fs.root) == "/"@,
            spec_load(data@) == spec_walk(
                data@,
                fs_root_children(fs.root),
                next,
                visited@.to_set(),
                (len + 1 - visited@.len()) as nat,
            ),
        decreases len + 1 - visited@.len(),
    {
        let h = decode_block_header(data, next as usize);
        let ghost fuel = (len + 1 - visited@.len()) as nat;
        proof {
            lemma_distinct_offsets_bound(visited@, len as int);
            assert(fuel >= 1);
        }
        match load_files(data, &h, &mut fs) {
            Ok(()) => {},
            Err(e) => {
                return Err(e);
            },
        }
        proof {
            let v2 = visited@.push(next);
            assert forall|i: int, j: int|
                i != j && 0 <= i < v2.len() && 0 <= j < v2.len() implies v2[i] != v2[j] by {
                if i < v2.len() - 1 && j < v2.len() - 1 {
                    assert(v2[i] == visited@[i] && v2[j] == visited@[j]);
                } else if j == v2.len() - 1 {
                    assert(v2[i] == visited@[i] && v2[j] == next);
                } else {
                    assert(v2[j] == visited@[j] && v2[i] == next);
                }
            }
            assert(v2.no_duplicates());
            lemma_distinct_offsets_bound(v2, len as int);
            lemma_push_to_set(visited@, next);
        }
        visited.push(next);
        next = h.next_block_offset;
        if next < 0 {
            return Ok(fs);
        }
        if (next as u64) > (len as u64) - 32 {
            return Ok(fs);
        }
        if contains_offset(&visited, next) {
            return Ok(fs);
        }
    }
}

} // verus!
