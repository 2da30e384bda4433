//! Detection and in-flight repair of malformed audio container headers.
//!
//! A truncated MP4 file has an `mdat` box whose size runs past the end of the file, and
//! is rejected although its audio decodes fine. The repair is described as byte
//! patches, which are laid over the file as it is read; the file itself stays as it is.

use vstd::prelude::*;

use crate::fingerprint::mp4_extension;
use crate::path::extension;
use crate::text::to_ascii_lowercase;

verus! {

/// A single-byte overlay: when reading, the byte at `offset` is replaced by `value`.
#[derive(Debug, Clone, Copy, PartialEq, Eq, Structural)]
pub struct Patch {
    /// Absolute file offset of the byte to replace.
    pub offset: u64,
    /// Replacement byte.
    pub value: u8,
}

// --- Numbers in headers ---

/// The number that bytes hold, highest first.
pub open spec fn be_value(bytes: Seq<u8>) -> int
    decreases bytes.len(),
{
    if bytes.len() == 0 {
        0
    } else {
        256 * be_value(bytes.drop_last()) + bytes.last()
    }
}

/// The `width` lowest bytes of a number, highest first.
pub open spec fn be_bytes(value: int, width: int) -> Seq<u8>
    decreases width,
{
    if width <= 0 {
        seq![]
    } else {
        be_bytes(value / 256, width - 1).push((value % 256) as u8)
    }
}

/// Patches that write `bytes` at `offset`.
pub open spec fn write_patches(offset: int, bytes: Seq<u8>) -> Seq<Patch> {
    Seq::new(bytes.len(), |i: int| Patch { offset: (offset + i) as u64, value: bytes[i] })
}

fn read_be(bytes: &[u8], from: usize, width: usize) -> (r: u64)
    requires
        width <= 8,
        from + width <= bytes@.len(),
    ensures
        r == be_value(bytes@.subrange(from as int, from + width)),
        width == 4 ==> r <= 0xffff_ffff,
{
    let mut value: u64 = 0;
    let mut i: usize = 0;
    let ghost mut limit: int = 1;
    while i < width
        invariant
            i <= width <= 8,
            from + width <= bytes.len(),
            value == be_value(bytes@.subrange(from as int, from + i)),
            0 <= value < limit,
            i == 0 ==> limit == 1,
            i == 1 ==> limit == 0x100,
            i == 2 ==> limit == 0x1_0000,
            i == 3 ==> limit == 0x100_0000,
            i == 4 ==> limit == 0x1_0000_0000,
            i == 5 ==> limit == 0x100_0000_0000,
            i == 6 ==> limit == 0x1_0000_0000_0000,
            i == 7 ==> limit == 0x100_0000_0000_0000,
            i == 8 ==> limit == 0x1_0000_0000_0000_0000,
        decreases width - i,
    {
        proof {
            assert(bytes@.subrange(from as int, from + i + 1).drop_last() =~= bytes@.subrange(
                from as int,
                from + i,
            ));
            limit = 256 * limit;
        }
        value = 256 * value + bytes[from + i] as u64;
        i = i + 1;
    }
    value
}

proof fn lemma_be_roundtrip(value: int, width: int)
    requires
        0 <= width,
        0 <= value < vstd::arithmetic::power::pow(256, width as nat),
    ensures
        be_bytes(value, width).len() == width,
        be_value(be_bytes(value, width)) == value,
    decreases width,
{
    reveal(vstd::arithmetic::power::pow);
    if width > 0 {
        assert(vstd::arithmetic::power::pow(256, width as nat) == 256
            * vstd::arithmetic::power::pow(256, (width - 1) as nat));
        lemma_be_roundtrip(value / 256, width - 1);
        assert(be_bytes(value, width).drop_last() =~= be_bytes(value / 256, width - 1));
    }
}

proof fn lemma_be_bytes_len(value: int, width: int)
    requires
        0 <= width,
    ensures
        be_bytes(value, width).len() == width,
    decreases width,
{
    if width > 0 {
        lemma_be_bytes_len(value / 256, width - 1);
    }
}

/// Patches that write the `width` lowest bytes of `value` at `offset`, highest first.
fn patches_for(offset: u64, value: u64, width: u64) -> (r: Vec<Patch>)
    requires
        offset + width <= u64::MAX,
        width <= 8,
    ensures
        r@ == write_patches(offset as int, be_bytes(value as int, width as int)),
    decreases width,
{
    proof {
        lemma_be_bytes_len(value as int, width as int);
    }
    if width == 0 {
        let out: Vec<Patch> = Vec::new();
        proof {
            assert(out@ =~= write_patches(offset as int, be_bytes(value as int, 0)));
        }
        return out;
    }
    let mut out = patches_for(offset, value / 256, width - 1);
    proof {
        lemma_be_bytes_len(value as int / 256, width - 1);
    }
    out.push(Patch { offset: offset + (width - 1), value: (value % 256) as u8 });
    proof {
        assert(out@ =~= write_patches(offset as int, be_bytes(value as int, width as int)));
    }
    out
}

// --- Scanning ---

/// What the header of a box leads to.
pub enum StepSpec {
    /// Nothing more to look at.
    Stop,
    /// The next box, at this position.
    Next(int),
    /// The repair of this box.
    Repair(Seq<Patch>),
}

/// Whether a box with this header is one of media data.
pub open spec fn is_mdat(header: Seq<u8>) -> bool {
    header[4] == 109 && header[5] == 100 && header[6] == 97 && header[7] == 116
}

/// Whether the size of a box is in the 64-bit field behind its type.
pub open spec fn is_wide(header: Seq<u8>) -> bool {
    be_value(header.subrange(0, 4)) == 1
}

/// The size that a box declares.
pub open spec fn declared_size(header: Seq<u8>) -> int {
    if is_wide(header) {
        be_value(header.subrange(8, 16))
    } else {
        be_value(header.subrange(0, 4))
    }
}

/// Where a box ends, as far as 64 bits can tell.
pub open spec fn box_end(pos: int, header: Seq<u8>) -> int {
    if pos + declared_size(header) > u64::MAX {
        u64::MAX as int
    } else {
        pos + declared_size(header)
    }
}

/// The patches that make a box at `pos` end with the file: its size field is rewritten,
/// unless the size does not fit.
pub open spec fn size_patches(file_len: int, pos: int, header: Seq<u8>) -> Seq<Patch> {
    let corrected = file_len - pos;
    if is_wide(header) {
        write_patches(pos + 8, be_bytes(corrected, 8))
    } else if corrected <= u32::MAX {
        write_patches(pos, be_bytes(corrected, 4))
    } else {
        seq![]
    }
}

/// What the header of the box at `pos` leads to. `header` holds what could be read of
/// sixteen bytes. A size of zero means that the box extends to the end of the file; one
/// below eight is malformed.
pub open spec fn scan_step(file_len: int, pos: int, header: Seq<u8>) -> StepSpec {
    if pos + 8 > file_len || header.len() < 8 || be_value(header.subrange(0, 4)) == 0 {
        StepSpec::Stop
    } else if is_wide(header) && header.len() < 16 {
        StepSpec::Stop
    } else if declared_size(header) < 8 {
        StepSpec::Stop
    } else if is_mdat(header) && box_end(pos, header) > file_len {
        StepSpec::Repair(size_patches(file_len, pos, header))
    } else {
        StepSpec::Next(box_end(pos, header))
    }
}

/// What is left to do after a header was read.
#[derive(Debug)]
pub enum ScanStep {
    /// Read the next header.
    Continue,
    /// The scan is over, with these patches.
    Done(Vec<Patch>),
}

/// A scan of the top-level boxes of an MP4 file. It asks for headers only, never for
/// the media data.
#[derive(Debug)]
pub struct BoxScan {
    file_len: u64,
    pos: u64,
}

impl BoxScan {
    /// The length of the file.
    pub closed spec fn spec_file_len(&self) -> int {
        self.file_len as int
    }

    /// The position of the next box.
    pub closed spec fn spec_pos(&self) -> int {
        self.pos as int
    }

    /// Offsets in the file are those that a file can have.
    pub open spec fn wf(&self) -> bool {
        self.spec_file_len() <= i64::MAX
    }

    /// Starts a scan of a file of `file_len` bytes.
    pub fn new(file_len: u64) -> (r: BoxScan)
        requires
            file_len <= i64::MAX,
        ensures
            r.wf(),
            r.spec_file_len() == file_len,
            r.spec_pos() == 0,
    {
        BoxScan { file_len, pos: 0 }
    }

    /// Where the next header is to be read, or nothing where the scan is over.
    pub fn next_header(&self) -> (r: Option<u64>)
        ensures
            r is Some <==> self.spec_pos() + 8 <= self.spec_file_len(),
            r matches Some(pos) ==> pos == self.spec_pos(),
    {
        if self.pos <= self.file_len && self.file_len - self.pos >= 8 {
            Some(self.pos)
        } else {
            None
        }
    }

    /// Takes in what could be read of the sixteen bytes at the position of the next header.
    pub fn on_header(&mut self, header: &[u8]) -> (r: ScanStep)
        requires
            old(self).wf(),
        ensures
            final(self).wf(),
            final(self).spec_file_len() == old(self).spec_file_len(),
            match scan_step(old(self).spec_file_len(), old(self).spec_pos(), header@) {
                StepSpec::Stop => r matches ScanStep::Done(patches) && patches@ == Seq::<Patch>::empty(),
                StepSpec::Next(pos) => r is Continue && final(self).spec_pos() == pos,
                StepSpec::Repair(expected) => r matches ScanStep::Done(patches) && patches@
                    == expected,
            },
    {
        if self.pos > self.file_len || self.file_len - self.pos < 8 || header.len() < 8 {
            return ScanStep::Done(Vec::new());
        }
        let size32: u64 = read_be(header, 0, 4);
        if size32 == 0 {
            return ScanStep::Done(Vec::new());
        }
        let wide = size32 == 1;
        if wide && header.len() < 16 {
            return ScanStep::Done(Vec::new());
        }
        let size: u64 = if wide {
            read_be(header, 8, 8)
        } else {
            size32
        };
        if size < 8 {
            return ScanStep::Done(Vec::new());
        }
        let end: u64 = self.pos.saturating_add(size);
        let media = header[4] == 109 && header[5] == 100 && header[6] == 97 && header[7] == 116;
        if media && end > self.file_len {
            let corrected: u64 = self.file_len - self.pos;
            let patches = if wide {
                patches_for(self.pos + 8, corrected, 8)
            } else if corrected <= u32::MAX as u64 {
                patches_for(self.pos, corrected, 4)
            } else {
                Vec::new()
            };
            return ScanStep::Done(patches);
        }
        self.pos = end;
        ScanStep::Continue
    }
}

/// What can be read of the sixteen bytes at `pos`.
pub open spec fn header_at(file: Seq<u8>, pos: int) -> Seq<u8> {
    if pos + 16 <= file.len() {
        file.subrange(pos, pos + 16)
    } else {
        file.subrange(pos, file.len() as int)
    }
}

/// How much of a file lies behind `pos`.
pub open spec fn left_from(file: Seq<u8>, pos: int) -> int {
    if pos < file.len() {
        file.len() - pos
    } else {
        0
    }
}

/// The patches that repair a file, looking at its boxes from `pos` on.
pub open spec fn repair_from(file: Seq<u8>, pos: int) -> Seq<Patch>
    decreases left_from(file, pos),
{
    if pos + 8 > file.len() {
        seq![]
    } else {
        match scan_step(file.len() as int, pos, header_at(file, pos)) {
            StepSpec::Stop => seq![],
            StepSpec::Next(next) => if next > pos {
                repair_from(file, next)
            } else {
                seq![]
            },
            StepSpec::Repair(patches) => patches,
        }
    }
}

/// Scans the top-level boxes of an MP4 file for an `mdat` box whose declared size overruns
/// the end of the file, and returns the patches that rewrite its size to what is there.
pub fn mdat_size_patches(file: &[u8]) -> (r: Vec<Patch>)
    requires
        file@.len() <= i64::MAX,
    ensures
        r@ == repair_from(file@, 0),
{
    let mut scan = BoxScan::new(file.len() as u64);
    let total: usize = file.len();
    loop
        invariant
            total == file@.len(),
            scan.wf(),
            scan.spec_file_len() == file@.len(),
            0 <= scan.spec_pos(),
            repair_from(file@, 0) == repair_from(file@, scan.spec_pos()),
        decreases left_from(file@, scan.spec_pos()),
    {
        let pos: usize = match scan.next_header() {
            Some(at) => at as usize,
            None => {
                return Vec::new();
            },
        };
        let end: usize = if total - pos >= 16 {
            pos + 16
        } else {
            total
        };
        let header = vstd::slice::slice_subrange(file, pos, end);
        assert(header@ == header_at(file@, pos as int));
        match scan.on_header(header) {
            ScanStep::Continue => {},
            ScanStep::Done(patches) => {
                return patches;
            },
        }
    }
}

/// Which files are looked at: those with the extension of an MP4 container.
pub fn needs_scan(path: &str) -> (r: bool)
    ensures
        r == match crate::path::path_extension(path@) {
            Some(ext) => crate::fingerprint::is_mp4_extension(crate::text::ascii_lowered(ext)),
            None => false,
        },
{
    match extension(path) {
        Some(ext) => mp4_extension(to_ascii_lowercase(ext.as_str()).as_str()),
        None => false,
    }
}

/// Detects known container defects of the file at `path`, and returns the byte patches
/// that repair them. Other files than MP4 containers have none.
pub fn detect_repairs(file: &[u8], path: &str) -> (r: Vec<Patch>)
    requires
        file@.len() <= i64::MAX,
    ensures
        r@ == match crate::path::path_extension(path@) {
            Some(ext) => if crate::fingerprint::is_mp4_extension(
                crate::text::ascii_lowered(ext),
            ) {
                repair_from(file@, 0)
            } else {
                seq![]
            },
            None => seq![],
        },
{
    if needs_scan(path) {
        mdat_size_patches(file)
    } else {
        Vec::new()
    }
}

// --- Reading ---

/// The byte at `offset` once `patches` are laid over it; a later patch covers an earlier one.
pub open spec fn patched_byte(patches: Seq<Patch>, offset: int, byte: u8) -> u8
    decreases patches.len(),
{
    if patches.len() == 0 {
        byte
    } else if patches.last().offset == offset {
        patches.last().value
    } else {
        patched_byte(patches.drop_last(), offset, byte)
    }
}

/// A file with `patches` laid over it.
pub open spec fn patched(file: Seq<u8>, patches: Seq<Patch>) -> Seq<u8> {
    Seq::new(file.len(), |i: int| patched_byte(patches, i, file[i]))
}

/// Lays `patches` over the `n` bytes in `buf` that were read from offset `start` on.
pub fn overlay(buf: &mut Vec<u8>, start: u64, n: usize, patches: &Vec<Patch>)
    requires
        n <= old(buf)@.len(),
        start + n <= u64::MAX,
    ensures
        final(buf)@.len() == old(buf)@.len(),
        forall|i: int|
            0 <= i < old(buf)@.len() ==> #[trigger] final(buf)@[i] == if i < n {
                patched_byte(patches@, start + i, old(buf)@[i])
            } else {
                old(buf)@[i]
            },
{
    let end: u64 = start + n as u64;
    let mut k: usize = 0;
    while k < patches.len()
        invariant
            k <= patches@.len(),
            n <= buf@.len(),
            end == start + n,
            buf@.len() == old(buf)@.len(),
            forall|i: int|
                0 <= i < old(buf)@.len() ==> #[trigger] buf@[i] == if i < n {
                    patched_byte(patches@.take(k as int), start + i, old(buf)@[i])
                } else {
                    old(buf)@[i]
                },
        decreases patches@.len() - k,
    {
        let patch = patches[k];
        proof {
            assert(patches@.take(k + 1).drop_last() =~= patches@.take(k as int));
        }
        if patch.offset >= start && patch.offset < end {
            buf.set((patch.offset - start) as usize, patch.value);
        }
        k = k + 1;
    }
    proof {
        assert(patches@.take(patches@.len() as int) =~= patches@);
    }
}

/// Bytes that no patch names pass through unchanged, and the length stays.
pub proof fn law_other_bytes_are_unchanged(file: Seq<u8>, patches: Seq<Patch>, i: int)
    requires
        0 <= i < file.len(),
        forall|k: int| 0 <= k < patches.len() ==> (#[trigger] patches[k]).offset != i,
    ensures
        patched(file, patches).len() == file.len(),
        patched(file, patches)[i] == file[i],
    decreases patches.len(),
{
    if patches.len() > 0 {
        assert(patches[patches.len() - 1].offset != i);
        assert forall|k: int| 0 <= k < patches.drop_last().len() implies (
        #[trigger] patches.drop_last()[k]).offset != i by {
            assert(patches.drop_last()[k] == patches[k]);
        }
        law_other_bytes_are_unchanged(file, patches.drop_last(), i);
    }
}

proof fn lemma_written_byte(offset: int, bytes: Seq<u8>, n: int, i: int, byte: u8)
    requires
        0 <= n <= bytes.len(),
        0 <= offset,
        offset + bytes.len() <= u64::MAX,
    ensures
        patched_byte(write_patches(offset, bytes).take(n), i, byte) == if offset <= i < offset + n {
            bytes[i - offset]
        } else {
            byte
        },
    decreases n,
{
    let patches = write_patches(offset, bytes);
    if n > 0 {
        lemma_written_byte(offset, bytes, n - 1, i, byte);
        assert(patches.take(n).drop_last() =~= patches.take(n - 1));
        assert(patches.take(n).last() == patches[n - 1]);
    }
}

/// Writing `bytes` at `offset` by patches gives a file that reads `bytes` there.
proof fn lemma_written_file(file: Seq<u8>, offset: int, bytes: Seq<u8>)
    requires
        0 <= offset,
        offset + bytes.len() <= file.len() <= i64::MAX,
    ensures
        patched(file, write_patches(offset, bytes)).subrange(offset, offset + bytes.len()) == bytes,
        forall|i: int|
            0 <= i < file.len() && !(offset <= i < offset + bytes.len()) ==> #[trigger] patched(
                file,
                write_patches(offset, bytes),
            )[i] == file[i],
{
    let patches = write_patches(offset, bytes);
    let after = patched(file, patches);
    assert(patches.take(bytes.len() as int) =~= patches);
    assert forall|i: int| 0 <= i < file.len() implies #[trigger] after[i] == if offset <= i < offset
        + bytes.len() {
        bytes[i - offset]
    } else {
        file[i]
    } by {
        lemma_written_byte(offset, bytes, bytes.len() as int, i, file[i]);
    }
    assert(after.subrange(offset, offset + bytes.len()) =~= bytes);
}

// --- What a repair does ---

/// The position of the size field of the box at `at`.
pub open spec fn size_field(at: int, header: Seq<u8>) -> int {
    if is_wide(header) {
        at + 8
    } else {
        at
    }
}

/// How many bytes the size field of a box has.
pub open spec fn size_width(header: Seq<u8>) -> int {
    if is_wide(header) {
        8
    } else {
        4
    }
}

/// The position of the box that is repaired, looking at the boxes from `pos` on; nothing
/// where none is.
pub open spec fn repaired_at(file: Seq<u8>, pos: int) -> Option<int>
    decreases left_from(file, pos),
{
    if pos + 8 > file.len() {
        None
    } else {
        match scan_step(file.len() as int, pos, header_at(file, pos)) {
            StepSpec::Stop => None,
            StepSpec::Next(next) => if next > pos {
                repaired_at(file, next)
            } else {
                None
            },
            StepSpec::Repair(patches) => if patches.len() > 0 {
                Some(pos)
            } else {
                None
            },
        }
    }
}

proof fn lemma_repaired_at(file: Seq<u8>, pos: int)
    requires
        0 <= pos,
        file.len() <= i64::MAX,
        repair_from(file, pos).len() > 0,
    ensures
        repaired_at(file, pos) is Some,
        ({
            let at = repaired_at(file, pos)->0;
            &&& pos <= at
            &&& at + 8 <= file.len()
            &&& scan_step(file.len() as int, at, header_at(file, at)) == StepSpec::Repair(
                repair_from(file, pos),
            )
        }),
    decreases left_from(file, pos),
{
    let header = header_at(file, pos);
    if let StepSpec::Next(next) = scan_step(file.len() as int, pos, header) {
        lemma_repaired_at(file, next);
    }
}

/// A repair is empty, or rewrites the whole size field of one top-level `mdat` box that
/// overruns the file: four or eight bytes one behind the other, which then hold what is
/// there of the box. The repaired box ends with the file, and all other bytes stay.
pub proof fn law_a_repair_rewrites_one_size_field(file: Seq<u8>)
    requires
        file.len() <= i64::MAX,
    ensures
        repair_from(file, 0).len() > 0 <==> repaired_at(file, 0) is Some,
        repaired_at(file, 0) matches Some(at) ==> {
            let header = header_at(file, at);
            let field = size_field(at, header);
            let width = size_width(header);
            let patches = repair_from(file, 0);
            let after = patched(file, patches);
            let len = file.len() as int;
            &&& 0 <= at
            &&& is_mdat(header)
            &&& box_end(at, header) > len
            &&& field + width <= len
            &&& patches.len() == width
            &&& forall|k: int|
                0 <= k < width ==> (#[trigger] patches[k]).offset == field + k
            &&& after.len() == len
            &&& be_value(after.subrange(field, field + width)) == len - at
            &&& is_mdat(header_at(after, at))
            &&& box_end(at, header_at(after, at)) == len
            &&& forall|i: int|
                0 <= i < len && !(field <= i < field + width) ==> #[trigger] after[i] == file[i]
        },
{
    if repair_from(file, 0).len() > 0 {
        lemma_repaired_at(file, 0);
        lemma_repaired_box(file, repaired_at(file, 0)->0);
    } else if repaired_at(file, 0) is Some {
        lemma_nothing_repaired(file, 0);
    }
}

proof fn lemma_nothing_repaired(file: Seq<u8>, pos: int)
    requires
        repair_from(file, pos).len() == 0,
    ensures
        repaired_at(file, pos) is None,
    decreases left_from(file, pos),
{
    if pos + 8 <= file.len() {
        if let StepSpec::Next(next) = scan_step(file.len() as int, pos, header_at(file, pos)) {
            if next > pos {
                lemma_nothing_repaired(file, next);
            }
        }
    }
}

/// What the repair of the box at `at` does to the file.
proof fn lemma_repaired_box(file: Seq<u8>, at: int)
    requires
        0 <= at,
        at + 8 <= file.len() <= i64::MAX,
        scan_step(file.len() as int, at, header_at(file, at)) is Repair,
        size_patches(file.len() as int, at, header_at(file, at)).len() > 0,
    ensures
        ({
            let header = header_at(file, at);
            let field = size_field(at, header);
            let width = size_width(header);
            let patches = size_patches(file.len() as int, at, header);
            let after = patched(file, patches);
            let len = file.len() as int;
            &&& field + width <= len
            &&& patches.len() == width
            &&& forall|k: int|
                0 <= k < width ==> (#[trigger] patches[k]).offset == field + k
            &&& be_value(after.subrange(field, field + width)) == len - at
            &&& is_mdat(header_at(after, at))
            &&& box_end(at, header_at(after, at)) == len
            &&& scan_step(len, at, header_at(after, at)) == StepSpec::Next(len)
            &&& forall|i: int|
                0 <= i < len && !(field <= i < field + width) ==> #[trigger] after[i] == file[i]
        }),
{
    let header = header_at(file, at);
    let len = file.len() as int;
    let field = size_field(at, header);
    let width = size_width(header);
    let patches = size_patches(len, at, header);
    let after = patched(file, patches);
    let header2 = header_at(after, at);
    let value = len - at;
    assert(vstd::arithmetic::power::pow(256, 4) == 0x1_0000_0000
        && vstd::arithmetic::power::pow(256, 8) == 0x1_0000_0000_0000_0000) by {
        reveal_with_fuel(vstd::arithmetic::power::pow, 9);
    }
    lemma_be_roundtrip(value, width);
    assert(patches == write_patches(field, be_bytes(value, width)));
    lemma_written_file(file, field, be_bytes(value, width));
    assert(header2[4] == header[4] && header2[5] == header[5] && header2[6] == header[6]
        && header2[7] == header[7]);
    if is_wide(header) {
        assert(header2.subrange(0, 4) =~= header.subrange(0, 4));
        assert(header2.subrange(8, 16) =~= after.subrange(field, field + width));
    } else {
        assert(header2.subrange(0, 4) =~= after.subrange(field, field + width));
    }
    assert(declared_size(header2) == value);
}

// --- Repaired files ---

/// Whether a repair settles: a second scan passes the boxes before the one that is repaired
/// as the first did, and where one of them leads it elsewhere, finds nothing from there on.
pub open spec fn settles(file: Seq<u8>, after: Seq<u8>, pos: int) -> bool
    decreases left_from(file, pos),
{
    if pos + 8 > file.len() {
        true
    } else {
        match scan_step(file.len() as int, pos, header_at(file, pos)) {
            StepSpec::Next(next) => match scan_step(
                file.len() as int,
                pos,
                header_at(after, pos),
            ) {
                StepSpec::Stop => true,
                StepSpec::Next(other) => if other == next {
                    next > pos ==> settles(file, after, next)
                } else {
                    repair_from(after, other) == Seq::<Patch>::empty()
                },
                StepSpec::Repair(patches) => patches == Seq::<Patch>::empty(),
            },
            _ => true,
        }
    }
}

proof fn lemma_rescan(file: Seq<u8>, pos: int)
    requires
        0 <= pos,
        file.len() <= i64::MAX,
        repair_from(file, pos).len() > 0,
    ensures
        repair_from(patched(file, repair_from(file, pos)), pos) == Seq::<Patch>::empty()
            <==> settles(file, patched(file, repair_from(file, pos)), pos),
    decreases left_from(file, pos),
{
    let patches = repair_from(file, pos);
    let after = patched(file, patches);
    let len = file.len() as int;
    assert(pos + 8 <= len);
    assert(after.len() == len);
    match scan_step(len, pos, header_at(file, pos)) {
        StepSpec::Stop => {},
        StepSpec::Next(next) => {
            assert(next > pos);
            assert(patches == repair_from(file, next));
            lemma_rescan(file, next);
        },
        StepSpec::Repair(_) => {
            lemma_repaired_box(file, pos);
            assert(repair_from(after, len) == Seq::<Patch>::empty());
            assert(repair_from(after, pos) == repair_from(after, len));
        },
    }
}

/// A repaired file needs no repair, where the repair settles.
pub proof fn law_repaired_file_needs_no_repair(file: Seq<u8>)
    requires
        file.len() <= i64::MAX,
        settles(file, patched(file, repair_from(file, 0)), 0),
    ensures
        repair_from(patched(file, repair_from(file, 0)), 0) == Seq::<Patch>::empty(),
{
    if repair_from(file, 0).len() > 0 {
        lemma_rescan(file, 0);
    } else {
        assert(patched(file, repair_from(file, 0)) =~= file);
        assert(repair_from(file, 0) =~= Seq::<Patch>::empty());
    }
}

/// A repaired file needs another repair wherever the repair does not settle.
pub proof fn law_a_repair_that_does_not_settle_needs_another(file: Seq<u8>)
    requires
        file.len() <= i64::MAX,
        !settles(file, patched(file, repair_from(file, 0)), 0),
    ensures
        repair_from(patched(file, repair_from(file, 0)), 0).len() > 0,
{
    let after = patched(file, repair_from(file, 0));
    if repair_from(file, 0).len() > 0 {
        lemma_rescan(file, 0);
    } else {
        assert(after =~= file);
        assert(repair_from(file, 0) =~= Seq::<Patch>::empty());
        lemma_unchanged_settles(file, 0);
    }
    if repair_from(after, 0).len() == 0 {
        assert(repair_from(after, 0) =~= Seq::<Patch>::empty());
    }
}

proof fn lemma_unchanged_settles(file: Seq<u8>, pos: int)
    ensures
        settles(file, file, pos),
    decreases left_from(file, pos),
{
    if pos + 8 <= file.len() {
        if let StepSpec::Next(next) = scan_step(file.len() as int, pos, header_at(file, pos)) {
            if next > pos {
                lemma_unchanged_settles(file, next);
            }
        }
    }
}

/// The box right before the one that is repaired, looking at the boxes from `pos` on.
pub open spec fn box_before_repair(file: Seq<u8>, pos: int) -> Option<int>
    decreases left_from(file, pos),
{
    if pos + 8 > file.len() {
        None
    } else {
        match scan_step(file.len() as int, pos, header_at(file, pos)) {
            StepSpec::Next(next) => if next <= pos {
                None
            } else if repaired_at(file, pos) == Some(next) {
                Some(pos)
            } else {
                box_before_repair(file, next)
            },
            _ => None,
        }
    }
}

/// Whether a box claims, in a 64-bit field, to end inside the last bytes of that field, so
/// that the next box begins there.
pub open spec fn ends_in_its_size(header: Seq<u8>) -> bool {
    is_wide(header) && 13 <= declared_size(header) <= 15
}

proof fn lemma_be_value_of_zeros(bytes: Seq<u8>)
    requires
        forall|i: int| 0 <= i < bytes.len() ==> #[trigger] bytes[i] == 0,
    ensures
        be_value(bytes) == 0,
    decreases bytes.len(),
{
    if bytes.len() > 0 {
        lemma_be_value_of_zeros(bytes.drop_last());
    }
}

proof fn lemma_be_value_of_last(bytes: Seq<u8>)
    requires
        bytes.len() > 0,
        forall|i: int| 0 <= i < bytes.len() - 1 ==> #[trigger] bytes[i] == 0,
    ensures
        be_value(bytes) == bytes.last(),
{
    lemma_be_value_of_zeros(bytes.drop_last());
}

proof fn lemma_zero_bytes(bytes: Seq<u8>)
    ensures
        be_value(bytes) >= 0,
        be_value(bytes) == 0 ==> forall|i: int|
            0 <= i < bytes.len() ==> #[trigger] bytes[i] == 0,
    decreases bytes.len(),
{
    if bytes.len() > 0 {
        let before = bytes.drop_last();
        lemma_zero_bytes(before);
        if be_value(bytes) == 0 {
            assert forall|i: int| 0 <= i < bytes.len() implies #[trigger] bytes[i] == 0 by {
                if i < before.len() {
                    assert(before[i] == 0);
                }
            }
        }
    }
}

/// Bytes that hold a number below 256 are zero but for the last.
proof fn lemma_small_bytes(bytes: Seq<u8>)
    requires
        bytes.len() > 0,
        be_value(bytes) < 256,
    ensures
        bytes.last() == be_value(bytes),
        forall|i: int| 0 <= i < bytes.len() - 1 ==> #[trigger] bytes[i] == 0,
{
    let before = bytes.drop_last();
    lemma_zero_bytes(before);
    assert forall|i: int| 0 <= i < bytes.len() - 1 implies #[trigger] bytes[i] == 0 by {
        assert(before[i] == 0);
    }
}

/// A box with a size of zero ends the scan.
proof fn lemma_zero_size_stops(file: Seq<u8>, pos: int)
    requires
        0 <= pos,
        pos + 4 <= file.len(),
        forall|i: int| pos <= i < pos + 4 ==> #[trigger] file[i] == 0,
    ensures
        pos + 8 <= file.len() ==> scan_step(file.len() as int, pos, header_at(file, pos)) is Stop,
        repair_from(file, pos) == Seq::<Patch>::empty(),
{
    if pos + 8 <= file.len() {
        let field = header_at(file, pos).subrange(0, 4);
        assert forall|i: int| 0 <= i < field.len() implies #[trigger] field[i] == 0 by {
            assert(field[i] == file[pos + i]);
        }
        lemma_be_value_of_zeros(field);
    }
}

/// A box that claims to end in the first bytes of its 64-bit size is harmless: the box behind
/// it has a size of zero, or the repair leads the scan to one that has.
proof fn lemma_short_box_settles(file: Seq<u8>, pos: int)
    requires
        0 <= pos,
        pos + 8 <= file.len() <= i64::MAX,
        repair_from(file, pos).len() > 0,
        is_wide(header_at(file, pos)),
        declared_size(header_at(file, pos)) <= 12,
        scan_step(file.len() as int, pos, header_at(file, pos)) == StepSpec::Next(
            box_end(pos, header_at(file, pos)),
        ),
        repaired_at(file, pos) == Some(box_end(pos, header_at(file, pos))),
        !is_wide(header_at(file, box_end(pos, header_at(file, pos)))),
    ensures
        settles(file, patched(file, repair_from(file, pos)), pos),
{
    let len = file.len() as int;
    let header = header_at(file, pos);
    let size = declared_size(header);
    let at = pos + size;
    let patches = repair_from(file, pos);
    let after = patched(file, patches);
    let header2 = header_at(after, pos);
    let mdat = header_at(file, at);
    lemma_repaired_at(file, pos);
    assert(box_end(pos, header) == at);
    let wide_field = header.subrange(8, 16);
    lemma_small_bytes(wide_field);
    assert forall|i: int| pos + 8 <= i < pos + 15 implies #[trigger] file[i] == 0 by {
        assert(wide_field[i - pos - 8] == file[i]);
    }
    assert(file[pos + 15] == size) by {
        assert(wide_field[7] == file[pos + 15]);
    }
    if size <= 11 {
        lemma_zero_size_stops(file, at);
    } else {
        let field = mdat.subrange(0, 4);
        assert forall|i: int| 0 <= i < 4 implies #[trigger] field[i] == file[at + i] by {}
        lemma_be_value_of_last(field);
        assert(declared_size(mdat) == 12);
        let left = len - at;
        assert(8 <= left < 12);
        lemma_repaired_box(file, at);
        let written = after.subrange(at, at + 4);
        lemma_small_bytes(written);
        assert forall|i: int| pos + 8 <= i < pos + 15 implies #[trigger] after[i] == 0 by {
            if i >= at {
                assert(written[i - at] == after[i]);
            } else {
                assert(after[i] == file[i]);
            }
        }
        assert(after[pos + 15] == left) by {
            assert(written[3] == after[pos + 15]);
        }
        let wide_field2 = header2.subrange(8, 16);
        assert forall|i: int| 0 <= i < 8 implies #[trigger] wide_field2[i] == after[pos + 8 + i] by {}
        lemma_be_value_of_last(wide_field2);
        assert(header2.subrange(0, 4) =~= header.subrange(0, 4));
        assert(declared_size(header2) == left);
        assert(scan_step(len, pos, header2) == StepSpec::Next(pos + left));
        lemma_zero_size_stops(after, pos + left);
    }
}

/// A repair settles unless the box right before the one that is repaired claims to end in the
/// last bytes of its own 64-bit size, and the repaired size is one of 32 bits.
pub proof fn law_only_a_box_that_ends_in_its_size_is_moved(file: Seq<u8>, pos: int)
    requires
        0 <= pos,
        file.len() <= i64::MAX,
        repaired_at(file, pos) matches Some(at) && (box_before_repair(file, pos) matches Some(before)
            ==> !(ends_in_its_size(header_at(file, before)) && !is_wide(header_at(file, at)))),
    ensures
        settles(file, patched(file, repair_from(file, pos)), pos),
    decreases left_from(file, pos),
{
    if repair_from(file, pos).len() == 0 {
        lemma_nothing_repaired(file, pos);
    }
    let patches = repair_from(file, pos);
    let after = patched(file, patches);
    let header = header_at(file, pos);
    let header2 = header_at(after, pos);
    let len = file.len() as int;
    lemma_repaired_at(file, pos);
    let at = repaired_at(file, pos)->0;
    if let StepSpec::Next(next) = scan_step(len, pos, header) {
        assert(next > pos);
        assert(patches == repair_from(file, next));
        lemma_repaired_at(file, next);
        lemma_repaired_box(file, at);
        let field = size_field(at, header_at(file, at));
        if at != next {
            lemma_at_next_or_later(file, next);
        }
        if is_wide(header) && field < pos + 16 {
            assert(at == next);
            assert(box_before_repair(file, pos) == Some(pos));
            lemma_short_box_settles(file, pos);
        } else {
            assert(header2.subrange(0, 4) =~= header.subrange(0, 4));
            assert(header2[4] == header[4] && header2[5] == header[5] && header2[6] == header[6]
                && header2[7] == header[7]);
            if is_wide(header) {
                assert(header2.subrange(8, 16) =~= header.subrange(8, 16));
            }
            assert(scan_step(len, pos, header2) == scan_step(len, pos, header));
            if at == next {
                assert(settles(file, after, next));
            } else {
                law_only_a_box_that_ends_in_its_size_is_moved(file, next);
            }
        }
    }
}

/// A box that is not the one that is repaired lies at least eight bytes before it.
proof fn lemma_at_next_or_later(file: Seq<u8>, pos: int)
    requires
        0 <= pos,
        file.len() <= i64::MAX,
        repair_from(file, pos).len() > 0,
        repaired_at(file, pos) != Some(pos),
    ensures
        repaired_at(file, pos)->0 >= pos + 8,
{
    lemma_repaired_at(file, pos);
    if let StepSpec::Next(next) = scan_step(file.len() as int, pos, header_at(file, pos)) {
        lemma_repaired_at(file, next);
    }
}

// --- Which files are repaired ---

/// The 32-bit number at an offset, highest byte first.
pub open spec fn number32(file: Seq<u8>, at: int) -> int {
    file[at] * 0x100_0000 + file[at + 1] * 0x1_0000 + file[at + 2] * 0x100 + file[at + 3]
}

/// The 64-bit number at an offset, highest byte first.
pub open spec fn number64(file: Seq<u8>, at: int) -> int {
    number32(file, at) * 0x1_0000_0000 + number32(file, at + 4)
}

/// Whether a header at `at` declares a box of `size` bytes: by a number of 32 bits, or where
/// that is one, by a number of 64 bits behind the type.
pub open spec fn declares(file: Seq<u8>, at: int, size: int) -> bool {
    &&& 0 <= at
    &&& at + 8 <= file.len()
    &&& size >= 8
    &&& number32(file, at) == size || (number32(file, at) == 1 && at + 16 <= file.len()
        && number64(file, at + 8) == size)
}

/// Whether boxes lead from the start of a file over `starts`: each declares a size that ends
/// it where the next one starts.
pub open spec fn boxes_lead_over(file: Seq<u8>, starts: Seq<int>) -> bool {
    &&& starts.len() > 0
    &&& starts[0] == 0
    &&& forall|i: int|
        0 <= i < starts.len() - 1 ==> starts[i + 1] <= file.len() && declares(
            file,
            #[trigger] starts[i],
            starts[i + 1] - starts[i],
        )
}

proof fn lemma_number32(file: Seq<u8>, at: int)
    requires
        0 <= at,
        at + 4 <= file.len(),
    ensures
        be_value(file.subrange(at, at + 4)) == number32(file, at),
        0 <= number32(file, at) <= u32::MAX,
{
    let s = file.subrange(at, at + 4);
    let s3 = s.drop_last();
    let s2 = s3.drop_last();
    let s1 = s2.drop_last();
    assert(s1.drop_last() =~= Seq::<u8>::empty());
    assert(be_value(s1.drop_last()) == 0);
    assert(be_value(s1) == file[at]);
    assert(be_value(s2) == 256 * be_value(s1) + file[at + 1]);
    assert(be_value(s3) == 256 * be_value(s2) + file[at + 2]);
    assert(be_value(s) == 256 * be_value(s3) + file[at + 3]);
}

proof fn lemma_number64(file: Seq<u8>, at: int)
    requires
        0 <= at,
        at + 8 <= file.len(),
    ensures
        be_value(file.subrange(at, at + 8)) == number64(file, at),
{
    lemma_number32(file, at);
    let s = file.subrange(at, at + 8);
    let s7 = s.drop_last();
    let s6 = s7.drop_last();
    let s5 = s6.drop_last();
    let s4 = s5.drop_last();
    assert(s4 =~= file.subrange(at, at + 4));
    assert(be_value(s5) == 256 * be_value(s4) + file[at + 4]);
    assert(be_value(s6) == 256 * be_value(s5) + file[at + 5]);
    assert(be_value(s7) == 256 * be_value(s6) + file[at + 6]);
    assert(be_value(s) == 256 * be_value(s7) + file[at + 7]);
}

/// What a header declares is what is read of it.
proof fn lemma_declared(file: Seq<u8>, at: int, size: int)
    requires
        file.len() <= i64::MAX,
        declares(file, at, size),
    ensures
        ({
            let header = header_at(file, at);
            &&& header.len() >= 8
            &&& be_value(header.subrange(0, 4)) == number32(file, at)
            &&& be_value(header.subrange(0, 4)) != 0
            &&& is_wide(header) <==> number32(file, at) == 1
            &&& is_wide(header) ==> header.len() == 16
            &&& declared_size(header) == size
        }),
{
    let header = header_at(file, at);
    lemma_number32(file, at);
    assert(header.subrange(0, 4) =~= file.subrange(at, at + 4));
    if number32(file, at) == 1 {
        lemma_number64(file, at + 8);
        assert(header.subrange(8, 16) =~= file.subrange(at + 8, at + 16));
    }
}

proof fn lemma_boxes_are_passed(file: Seq<u8>, starts: Seq<int>, i: int)
    requires
        file.len() <= i64::MAX,
        boxes_lead_over(file, starts),
        0 <= i < starts.len(),
    ensures
        repair_from(file, 0) == repair_from(file, starts[i]),
        0 <= starts[i] <= file.len(),
    decreases i,
{
    if i > 0 {
        lemma_boxes_are_passed(file, starts, i - 1);
        let at = starts[i - 1];
        let size = starts[i] - at;
        assert(declares(file, at, size));
        lemma_declared(file, at, size);
        assert(scan_step(file.len() as int, at, header_at(file, at)) == StepSpec::Next(starts[i]));
    }
}

/// Every truncated file is repaired: where boxes of whatever type lead from the start of the
/// file to an `mdat` box that overruns it, and what is there of that box fits its size field,
/// the repair rewrites that field with the number of bytes from the box to the end of the file.
pub proof fn law_a_truncated_file_is_repaired(file: Seq<u8>, starts: Seq<int>, size: int)
    requires
        file.len() <= i64::MAX,
        boxes_lead_over(file, starts),
        ({
            let at = starts.last();
            &&& declares(file, at, size)
            &&& file[at + 4] == 109 && file[at + 5] == 100 && file[at + 6] == 97 && file[at + 7]
                == 116
            &&& at + size > file.len()
            &&& number32(file, at) == 1 || file.len() - at <= 0xffff_ffff
        }),
    ensures
        ({
            let at = starts.last();
            let wide = number32(file, at) == 1;
            let patches = repair_from(file, 0);
            let after = patched(file, patches);
            &&& patches.len() == if wide {
                8int
            } else {
                4
            }
            &&& forall|k: int|
                0 <= k < patches.len() ==> (#[trigger] patches[k]).offset == k + if wide {
                    at + 8
                } else {
                    at
                }
            &&& wide ==> number64(after, at + 8) == file.len() - at
            &&& !wide ==> number32(after, at) == file.len() - at
        }),
{
    let at = starts.last();
    let header = header_at(file, at);
    let len = file.len() as int;
    lemma_boxes_are_passed(file, starts, starts.len() - 1);
    lemma_declared(file, at, size);
    assert(scan_step(len, at, header) == StepSpec::Repair(size_patches(len, at, header)));
    assert(repair_from(file, 0) == size_patches(len, at, header));
    lemma_be_bytes_len(len - at, 4);
    lemma_be_bytes_len(len - at, 8);
    lemma_repaired_box(file, at);
    let after = patched(file, repair_from(file, 0));
    if is_wide(header) {
        lemma_number64(after, at + 8);
    } else {
        lemma_number32(after, at);
    }
}

/// A file whose boxes lead to its end, or to fewer bytes than a header has, is left alone.
pub proof fn law_a_whole_file_is_left_alone(file: Seq<u8>, starts: Seq<int>)
    requires
        file.len() <= i64::MAX,
        boxes_lead_over(file, starts),
        starts.last() + 8 > file.len(),
    ensures
        repair_from(file, 0).len() == 0,
{
    lemma_boxes_are_passed(file, starts, starts.len() - 1);
}

/// The scan ends at a box without a size, at one smaller than its header, and at one of
/// another type than `mdat` that overruns the file: nothing is repaired then.
pub proof fn law_nothing_is_repaired_behind_a_broken_box(
    file: Seq<u8>,
    starts: Seq<int>,
    size: int,
)
    requires
        file.len() <= i64::MAX,
        boxes_lead_over(file, starts),
        ({
            let at = starts.last();
            &&& at + 8 <= file.len()
            &&& number32(file, at) == 0 || 1 < number32(file, at) < 8 || (number32(file, at) == 1
                && at + 16 > file.len()) || (number32(file, at) == 1 && at + 16 <= file.len()
                && number64(file, at + 8) < 8) || (declares(file, at, size) && at + size
                > file.len() && !(file[at + 4] == 109 && file[at + 5] == 100 && file[at + 6] == 97
                && file[at + 7] == 116))
        }),
    ensures
        repair_from(file, 0).len() == 0,
{
    let at = starts.last();
    let header = header_at(file, at);
    lemma_boxes_are_passed(file, starts, starts.len() - 1);
    lemma_number32(file, at);
    assert(header.subrange(0, 4) =~= file.subrange(at, at + 4));
    if number32(file, at) == 1 && at + 16 <= file.len() {
        lemma_number64(file, at + 8);
        assert(header.subrange(8, 16) =~= file.subrange(at + 8, at + 16));
    }
    if declares(file, at, size) {
        lemma_declared(file, at, size);
        if at + size > file.len() {
            let end = box_end(at, header);
            assert(end > file.len());
            if !is_mdat(header) {
                assert(scan_step(file.len() as int, at, header) == StepSpec::Next(end));
                assert(repair_from(file, end) == Seq::<Patch>::empty());
                assert(repair_from(file, at) == repair_from(file, end));
            }
        }
    }
}

/// The last patch at an offset decides what is read there.
pub proof fn law_a_patch_replaces_its_byte(patches: Seq<Patch>, k: int, byte: u8)
    requires
        0 <= k < patches.len(),
        forall|j: int|
            k < j < patches.len() ==> (#[trigger] patches[j]).offset != patches[k].offset,
    ensures
        patched_byte(patches, patches[k].offset as int, byte) == patches[k].value,
    decreases patches.len(),
{
    if k < patches.len() - 1 {
        let before = patches.drop_last();
        assert(patches[patches.len() - 1].offset != patches[k].offset);
        assert forall|j: int| k < j < before.len() implies (#[trigger] before[j]).offset
            != before[k].offset by {
            assert(before[j] == patches[j]);
        }
        law_a_patch_replaces_its_byte(before, k, byte);
    }
}

} // verus!
