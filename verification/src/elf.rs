//! What the loader reads of an ELF file.
use crate::packet::{le_value, lemma_le_value_step};
use elf_rs::{Elf, ElfMachine, ProgramType};
use vstd::prelude::*;

verus! {

/// The header of a 64-bit ELF file, as far as the loader needs it.
#[derive(Debug, Clone, Copy, PartialEq, Eq, Structural)]
pub struct ElfHeader {
    /// The file is for a RISC-V machine.
    pub riscv: bool,
    /// Where the program starts.
    pub entry: u64,
    /// Where the program header table stands in the file.
    pub table_offset: u64,
    /// The number of entries in the program header table.
    pub table_len: u16,
}

/// What a file is to the loader.
#[derive(Debug, Clone, Copy, PartialEq, Eq, Structural)]
pub enum ElfKind {
    NotElf,
    Elf32,
    Elf64(ElfHeader),
}

/// An entry of the program header table.
#[derive(Debug, Clone, Copy, PartialEq, Eq, Structural)]
pub struct Segment {
    /// The entry describes a part of the file that is loaded.
    pub load: bool,
    /// The physical address that the part is loaded to.
    pub address: u64,
    /// Where the part stands in the file.
    pub offset: u64,
    /// The size of the part in the file.
    pub size: u64,
}

/// The 16-bit number at `at`, least significant byte first.
pub open spec fn word16(s: Seq<u8>, at: int) -> int {
    s[at] + 0x100 * s[at + 1]
}

/// The 32-bit number at `at`, least significant byte first.
pub open spec fn word32(s: Seq<u8>, at: int) -> int {
    word16(s, at) + 0x1_0000 * word16(s, at + 2)
}

/// The 64-bit number at `at`, least significant byte first.
pub open spec fn word64(s: Seq<u8>, at: int) -> int {
    word32(s, at) + 0x1_0000_0000 * word32(s, at + 4)
}

/// The file is long enough for the smaller ELF header and begins with the
/// magic number.
pub open spec fn has_magic(image: Seq<u8>) -> bool {
    image.len() >= 52 && image[0] == 0x7f && image[1] == 0x45 && image[2] == 0x4c && image[3] == 0x46
}

/// The header of a 64-bit ELF file.
pub open spec fn header_of(image: Seq<u8>) -> ElfHeader {
    ElfHeader {
        riscv: word16(image, 18) == 0xf3,
        entry: word64(image, 24) as u64,
        table_offset: word64(image, 32) as u64,
        table_len: word16(image, 56) as u16,
    }
}

/// What a file is: an ELF file has the magic number, one of two classes, and
/// the length that its header claims for itself.
pub open spec fn elf_kind(image: Seq<u8>) -> ElfKind {
    if !has_magic(image) {
        ElfKind::NotElf
    } else if image[4] == 1 && image.len() >= word16(image, 40) {
        ElfKind::Elf32
    } else if image[4] == 2 && image.len() >= word16(image, 52) {
        ElfKind::Elf64(header_of(image))
    } else {
        ElfKind::NotElf
    }
}

/// The file claims to be a 64-bit ELF file, but its header is cut short.
pub open spec fn header_cut(image: Seq<u8>) -> bool {
    has_magic(image) && image[4] == 2 && image.len() < 64
}

/// The file holds what tells whether it is an ELF file: a header that is cut
/// short must still hold the length that it claims for itself.
pub open spec fn kind_known(image: Seq<u8>) -> bool {
    header_cut(image) ==> image.len() >= 54
}

/// The program header table of a 64-bit ELF file lies inside the file.
pub open spec fn table_in_bounds(image: Seq<u8>) -> bool {
    let header = header_of(image);
    header.table_offset + 56 * header.table_len <= image.len()
}

/// The file holds the program header table of a 64-bit ELF file: its number of
/// entries, and every entry. An empty table may be said to stand anywhere.
pub open spec fn table_known(image: Seq<u8>) -> bool {
    image.len() >= 58 && (header_of(image).table_len == 0 || table_in_bounds(image))
}

/// The entry of the program header table that stands at `at`.
pub open spec fn segment_at(image: Seq<u8>, at: int) -> Segment {
    Segment {
        load: word32(image, at) == 1,
        address: word64(image, at + 24) as u64,
        offset: word64(image, at + 8) as u64,
        size: word64(image, at + 32) as u64,
    }
}

/// The program header table of a 64-bit ELF file.
pub open spec fn segments_of(image: Seq<u8>) -> Seq<Segment> {
    let header = header_of(image);
    Seq::new(header.table_len as nat, |i: int| segment_at(image, header.table_offset + 56 * i))
}

/// `Elf::from_bytes` tells what a file is, and `header` reads its header.
///
/// The crate reads in place, without a check that the header is all there, in
/// the byte order of the host and at the alignment of the buffer. The contract
/// is that of a little-endian host, on which the allocator places a buffer at
/// a multiple of eight.
#[verifier::external_body]
pub(crate) fn read_kind(image: &Vec<u8>) -> (kind: ElfKind)
    requires
        !header_cut(image@),
    ensures
        kind == elf_kind(image@),
{
    match Elf::from_bytes(image) {
        Ok(Elf::Elf64(elf)) => ElfKind::Elf64(ElfHeader {
            riscv: matches!(elf.header().machine(), ElfMachine::RISC_V),
            entry: elf.header().entry_point(),
            table_offset: elf.header().program_header_offset(),
            table_len: elf.header().program_header_entry_num(),
        }),
        Ok(Elf::Elf32(_)) => ElfKind::Elf32,
        Err(_) => ElfKind::NotElf,
    }
}

/// `program_header_iter` walks the program header table of a 64-bit ELF file
/// in order.
///
/// The crate reads the table in place, unchecked, under the same terms as the
/// header, and only a table at a multiple of eight is aligned; another file
/// has no table here.
#[verifier::external_body]
pub(crate) fn read_segments(image: &Vec<u8>) -> (segments: Vec<Segment>)
    requires
        !header_cut(image@),
        elf_kind(image@) is Elf64,
        table_in_bounds(image@),
        header_of(image@).table_offset % 8 == 0,
    ensures
        segments@ == segments_of(image@),
{
    match Elf::from_bytes(image) {
        Ok(Elf::Elf64(elf)) => elf.program_header_iter().map(|entry| Segment {
            load: matches!(entry.ph.ph_type(), ProgramType::LOAD),
            address: entry.ph.paddr(),
            offset: entry.ph.offset(),
            size: entry.ph.filesz(),
        }).collect(),
        _ => Vec::new(),
    }
}

/// Tells whether a file that claims to be a 64-bit ELF file has its header cut
/// short.
pub(crate) fn is_header_cut(image: &[u8]) -> (cut: bool)
    ensures
        cut == header_cut(image@),
{
    image.len() >= 52 && image[0] == 0x7f && image[1] == 0x45 && image[2] == 0x4c && image[3] == 0x46
        && image[4] == 2 && image.len() < 64
}

/// The 16-bit word at `at`, lowest byte first.
pub(crate) fn read16(image: &[u8], at: usize) -> (word: u16)
    requires
        at + 2 <= image@.len(),
    ensures
        word == word16(image@, at as int),
{
    image[at] as u16 + 0x100 * image[at + 1] as u16
}

/// The 32-bit word at `at`, lowest byte first.
fn read32(image: &[u8], at: usize) -> (word: u32)
    requires
        at + 4 <= image@.len(),
    ensures
        word == word32(image@, at as int),
{
    assert(image@.len() == image.len());
    read16(image, at) as u32 + 0x1_0000 * read16(image, at + 2) as u32
}

/// The 64-bit word at `at`, lowest byte first.
fn read64(image: &[u8], at: usize) -> (word: u64)
    requires
        at + 8 <= image@.len(),
    ensures
        word == word64(image@, at as int),
{
    assert(image@.len() == image.len());
    read32(image, at) as u64 + 0x1_0000_0000 * read32(image, at + 4) as u64
}

/// Reads a header byte by byte. A header that is cut short is read so, as far
/// as its number of program headers: in place it would be read past the end of
/// the file.
pub(crate) fn header_from_bytes(image: &[u8]) -> (header: ElfHeader)
    requires
        image@.len() >= 58,
    ensures
        header == header_of(image@),
{
    ElfHeader {
        riscv: read16(image, 18) == 0xf3,
        entry: read64(image, 24),
        table_offset: read64(image, 32),
        table_len: read16(image, 56),
    }
}

/// Reads a program header table byte by byte. A table that is not aligned, or
/// that goes with a header that is cut short, is read so: neither can be read
/// in place.
pub(crate) fn segments_from_bytes(image: &[u8], header: ElfHeader) -> (segments: Vec<Segment>)
    requires
        header == header_of(image@),
        table_in_bounds(image@),
    ensures
        segments@ == segments_of(image@),
{
    assert(image@.len() == image.len());
    let mut segments: Vec<Segment> = Vec::new();
    let mut at: usize = header.table_offset as usize;
    let mut i: u16 = 0;
    while i < header.table_len
        invariant
            i <= header.table_len,
            image@.len() <= usize::MAX,
            header == header_of(image@),
            table_in_bounds(image@),
            at == header.table_offset + 56 * i,
            segments@ == segments_of(image@).take(i as int),
        decreases header.table_len - i,
    {
        segments.push(
            Segment {
                load: read32(image, at) == 1,
                address: read64(image, at + 24),
                offset: read64(image, at + 8),
                size: read64(image, at + 32),
            },
        );
        assert(segments_of(image@).take(i + 1) =~= segments_of(image@).take(i as int).push(
            segment_at(image@, at as int),
        ));
        at += 56;
        i += 1;
    }
    assert(segments_of(image@).take(i as int) =~= segments_of(image@));
    segments
}

/// The number in the bytes of a file from `from` up to `to`, least significant
/// first.
pub open spec fn field(image: Seq<u8>, from: int, to: int) -> nat {
    le_value(image.subrange(from, to))
}

proof fn lemma_field16(image: Seq<u8>, at: int)
    requires
        0 <= at <= image.len() - 2,
    ensures
        word16(image, at) == field(image, at, at + 2),
        word16(image, at) <= 0xffff,
{
    lemma_le_value_step(image, at, at + 2);
    lemma_le_value_step(image, at + 1, at + 2);
    assert(image.subrange(at + 2, at + 2) =~= Seq::empty());
}

proof fn lemma_field32(image: Seq<u8>, at: int)
    requires
        0 <= at <= image.len() - 4,
    ensures
        word32(image, at) == field(image, at, at + 4),
        word32(image, at) <= 0xffff_ffff,
{
    lemma_le_value_step(image, at, at + 4);
    lemma_le_value_step(image, at + 1, at + 4);
    lemma_le_value_step(image, at + 2, at + 4);
    lemma_le_value_step(image, at + 3, at + 4);
    assert(image.subrange(at + 4, at + 4) =~= Seq::empty());
}

proof fn lemma_field64(image: Seq<u8>, at: int)
    requires
        0 <= at <= image.len() - 8,
    ensures
        word64(image, at) == field(image, at, at + 8),
        word64(image, at) <= 0xffff_ffff_ffff_ffff,
{
    lemma_le_value_step(image, at, at + 8);
    lemma_le_value_step(image, at + 1, at + 8);
    lemma_le_value_step(image, at + 2, at + 8);
    lemma_le_value_step(image, at + 3, at + 8);
    lemma_le_value_step(image, at + 4, at + 8);
    lemma_le_value_step(image, at + 5, at + 8);
    lemma_le_value_step(image, at + 6, at + 8);
    lemma_le_value_step(image, at + 7, at + 8);
    assert(image.subrange(at + 8, at + 8) =~= Seq::empty());
}

/// What a file is can be told from its first bytes: the magic number, the class
/// behind it, and the length of the header, where each class keeps it. A 64-bit
/// header tells the machine.
pub proof fn law_file_kind(image: Seq<u8>)
    ensures
        ({
            let magic = image.len() >= 52 && image.take(4) == seq![0x7fu8, 0x45, 0x4c, 0x46];
            let narrow = magic && image[4] == 1 && image.len() >= field(image, 40, 42);
            let wide = magic && image[4] == 2;
            &&& (elf_kind(image) is Elf32 <==> narrow)
            &&& (image.len() >= 54 ==> (elf_kind(image) is Elf64 <==> wide && image.len() >= field(
                image,
                52,
                54,
            )))
            &&& (elf_kind(image) matches ElfKind::Elf64(header) ==> wide && header.riscv == (field(
                image,
                18,
                20,
            ) == 0xf3))
            &&& (kind_known(image) <==> !wide || image.len() >= 54)
            &&& (header_cut(image) <==> wide && image.len() < 64)
        }),
{
    if image.len() >= 52 {
        lemma_field16(image, 18);
        lemma_field16(image, 40);
        let magic = seq![0x7fu8, 0x45, 0x4c, 0x46];
        if has_magic(image) {
            assert(image.take(4) =~= magic);
        }
        if image.take(4) == magic {
            assert(image.take(4)[0] == image[0] && image.take(4)[1] == image[1] && image.take(4)[2]
                == image[2] && image.take(4)[3] == image[3]);
            assert(magic[0] == 0x7f && magic[1] == 0x45 && magic[2] == 0x4c && magic[3] == 0x46);
        }
    }
    if image.len() >= 54 {
        lemma_field16(image, 52);
    }
}

/// A 64-bit header keeps the entry point, the place of the program header table
/// and the number of its entries, each at its place.
pub proof fn law_header_fields(image: Seq<u8>)
    requires
        image.len() >= 58,
    ensures
        header_of(image).riscv == (field(image, 18, 20) == 0xf3),
        header_of(image).entry == field(image, 24, 32),
        header_of(image).table_offset == field(image, 32, 40),
        header_of(image).table_len == field(image, 56, 58),
        elf_kind(image) is Elf64 ==> elf_kind(image) == ElfKind::Elf64(header_of(image)),
        table_known(image) <==> field(image, 56, 58) == 0 || field(image, 32, 40) + 56 * field(
            image,
            56,
            58,
        ) <= image.len(),
{
    lemma_field16(image, 18);
    lemma_field64(image, 24);
    lemma_field64(image, 32);
    lemma_field16(image, 56);
}

/// The program header table has as many entries as the header says, 56 bytes
/// each, one behind the other. Each keeps its type, offset, address and size at
/// its place; type one is loaded.
pub proof fn law_program_headers(image: Seq<u8>, i: int)
    requires
        image.len() >= 58,
        field(image, 32, 40) + 56 * field(image, 56, 58) <= image.len(),
        0 <= i < field(image, 56, 58),
    ensures
        ({
            let at = field(image, 32, 40) + 56 * i;
            &&& segments_of(image).len() == field(image, 56, 58)
            &&& segments_of(image)[i].load == (field(image, at, at + 4) == 1)
            &&& segments_of(image)[i].offset == field(image, at + 8, at + 16)
            &&& segments_of(image)[i].address == field(image, at + 24, at + 32)
            &&& segments_of(image)[i].size == field(image, at + 32, at + 40)
        }),
{
    law_header_fields(image);
    let at = field(image, 32, 40) + 56 * i;
    lemma_field32(image, at);
    lemma_field64(image, at + 8);
    lemma_field64(image, at + 24);
    lemma_field64(image, at + 32);
}

} // verus!
