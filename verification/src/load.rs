//! The steps that load an image into the memory of the target and start it.
use crate::elf::{
    elf_kind, field, header_cut, header_from_bytes, header_of, is_header_cut, kind_known, law_file_kind,
    law_header_fields, law_program_headers, read16, read_kind, read_segments, segments_from_bytes,
    segments_of, table_known, ElfHeader, ElfKind, Segment,
};
use crate::error::Error;
use crate::steps::{
    block_models, blocks_of, law_blocks_are_slices, law_blocks_fill_memory, lemma_written_append, split_blocks, step_models,
    written, BlockModel, Step, StepModel,
};
use vstd::prelude::*;

verus! {

/// Where an image that says nothing of its address is loaded and started.
pub const LOAD_ADDRESS: u32 = 0x8000_0000;

/// The size of the blocks that are written to memory.
pub const MEMORY_BLOCK: usize = 1024;

/// The steps that write the blocks of a list.
pub open spec fn write_steps(blocks: Seq<BlockModel>) -> Seq<StepModel> {
    Seq::new(blocks.len(), |i: int| StepModel::Write(blocks[i]))
}

/// The steps that load one section: it is announced, then written block by
/// block.
pub open spec fn section_steps(address: u32, data: Seq<u8>) -> Seq<StepModel> {
    seq![StepModel::Section { address, size: data.len() }] + write_steps(
        blocks_of(address as int, data, MEMORY_BLOCK as nat),
    )
}

/// A section of the given size fits behind its address.
pub open spec fn section_fits(address: u32, size: nat) -> bool {
    address + size <= u32::MAX
}

/// Appends the steps that load one section.
pub fn load_section(steps: &mut Vec<Step>, section: &[u8], address: u32)
    requires
        section_fits(address, section@.len()),
    ensures
        step_models(final(steps)@) == step_models(old(steps)@) + section_steps(address, section@),
{
    let ghost before = step_models(steps@);
    let ghost head = seq![StepModel::Section { address, size: section@.len() }];
    let blocks = split_blocks(section, address, MEMORY_BLOCK);
    let ghost models = block_models(blocks@);
    let ghost count = blocks@.len();
    steps.push(Step::Section { address, size: section.len() });
    assert(step_models(steps@) =~= before + head + write_steps(models.take(0)));
    for block in each: blocks
        invariant
            models.len() == count,
            each.seq().len() == count,
            forall|i: int| 0 <= i < count ==> #[trigger] each.seq()[i]@ == models[i],
            step_models(steps@) == before + head + write_steps(models.take(each.index() as int)),
    {
        let ghost n = each.index() as int;
        let ghost earlier = step_models(steps@);
        steps.push(Step::Write(block));
        assert(step_models(steps@) =~= earlier.push(StepModel::Write(models[n])));
        assert(write_steps(models.take(n + 1)) =~= write_steps(models.take(n)).push(
            StepModel::Write(models[n]),
        ));
        assert(step_models(steps@) =~= before + head + write_steps(models.take(n + 1)));
    }
    assert(models.take(count as int) =~= models);
    assert(before + head + write_steps(models) =~= before + (head + write_steps(models)));
}

/// The low 32 bits of an address, which is all that a command carries.
pub open spec fn low_word(address: u64) -> u32 {
    (address % 0x1_0000_0000) as u32
}

/// The part of the file that a segment describes lies inside the file, and
/// fits behind its address.
pub open spec fn segment_fits(image: Seq<u8>, segment: Segment) -> bool {
    &&& (segment.offset as usize) + (segment.size as usize) <= image.len()
    &&& section_fits(low_word(segment.address), (segment.size as usize) as nat)
}

/// The part of the file that a segment describes.
pub open spec fn segment_data(image: Seq<u8>, segment: Segment) -> Seq<u8> {
    image.subrange(
        segment.offset as usize as int,
        (segment.offset as usize) + (segment.size as usize),
    )
}

/// Every segment that is loaded fits.
pub open spec fn segments_fit(image: Seq<u8>, segments: Seq<Segment>) -> bool {
    forall|i: int|
        0 <= i < segments.len() && (#[trigger] segments[i]).load ==> segment_fits(image, segments[i])
}

/// The steps that load the segments of a file, in order; segments that are
/// not loaded take no step.
pub open spec fn segment_steps(image: Seq<u8>, segments: Seq<Segment>) -> Seq<StepModel>
    decreases segments.len(),
{
    if segments.len() == 0 {
        Seq::empty()
    } else {
        let earlier = segment_steps(image, segments.drop_last());
        let last = segments.last();
        if last.load {
            earlier + section_steps(low_word(last.address), segment_data(image, last))
        } else {
            earlier
        }
    }
}

/// The steps that load an ELF file and start it at its entry point.
pub open spec fn elf_steps(image: Seq<u8>, segments: Seq<Segment>, entry: u64) -> Seq<StepModel> {
    (seq![StepModel::Elf] + segment_steps(image, segments)).push(StepModel::Boot(low_word(entry)))
}

/// The steps that load a plain image and start it at its first byte.
pub open spec fn raw_steps(image: Seq<u8>) -> Seq<StepModel> {
    section_steps(LOAD_ADDRESS, image).push(StepModel::Boot(LOAD_ADDRESS))
}

/// The steps that load a plain image; there is no answer where it reaches
/// beyond the last address.
pub open spec fn plain_steps(image: Seq<u8>) -> Option<Result<Seq<StepModel>, Error>> {
    if section_fits(LOAD_ADDRESS, image.len()) {
        Some(Ok(raw_steps(image)))
    } else {
        None
    }
}

/// The steps that load a 64-bit ELF file for RISC-V. There is no answer where
/// the number of program headers, one of them or a loaded segment is not all
/// in the file, or a loaded segment reaches beyond the last address. The table
/// need not be aligned, and an empty one may be said to stand anywhere.
pub open spec fn riscv_steps(image: Seq<u8>) -> Option<Result<Seq<StepModel>, Error>> {
    if table_known(image) && segments_fit(image, segments_of(image)) {
        Some(Ok(elf_steps(image, segments_of(image), header_of(image).entry)))
    } else {
        None
    }
}

/// The steps that load a file, whatever it is. A 32-bit ELF file takes no step
/// at all, and one for another machine than RISC-V is refused. There is no
/// answer where the file is cut before what tells whether it is an ELF file,
/// nor where a plain image or an ELF file for RISC-V has none.
pub open spec fn image_steps(image: Seq<u8>) -> Option<Result<Seq<StepModel>, Error>> {
    if !kind_known(image) {
        None
    } else {
        match elf_kind(image) {
            ElfKind::NotElf => plain_steps(image),
            ElfKind::Elf32 => Some(Ok(Seq::empty())),
            ElfKind::Elf64(header) => if header.riscv {
                riscv_steps(image)
            } else {
                Some(Err(Error::NotRiscv))
            },
        }
    }
}

/// The model of what [`load_image`] returns.
pub open spec fn load_outcome(outcome: Option<Result<Vec<Step>, Error>>) -> Option<
    Result<Seq<StepModel>, Error>,
> {
    match outcome {
        None => None,
        Some(Ok(steps)) => Some(Ok(step_models(steps@))),
        Some(Err(error)) => Some(Err(error)),
    }
}

fn word_of_address(address: u64) -> (word: u32)
    ensures
        word == low_word(address),
{
    (address % 0x1_0000_0000) as u32
}

/// The steps that load a plain image and start it.
pub fn load_raw(image: &[u8]) -> (steps: Vec<Step>)
    requires
        section_fits(LOAD_ADDRESS, image@.len()),
    ensures
        step_models(steps@) == raw_steps(image@),
{
    let mut steps: Vec<Step> = Vec::new();
    load_section(&mut steps, image, LOAD_ADDRESS);
    let ghost before = step_models(steps@);
    steps.push(Step::Boot(LOAD_ADDRESS));
    assert(step_models(Seq::<Step>::empty()) =~= Seq::empty());
    assert(step_models(steps@) =~= before.push(StepModel::Boot(LOAD_ADDRESS)));
    assert(before =~= section_steps(LOAD_ADDRESS, image@));
    steps
}

/// The steps that load an ELF file, given its program header table and its
/// entry point.
pub fn load_elf(image: &[u8], segments: &[Segment], entry: u64) -> (steps: Vec<Step>)
    requires
        segments_fit(image@, segments@),
    ensures
        step_models(steps@) == elf_steps(image@, segments@, entry),
{
    let mut steps: Vec<Step> = Vec::new();
    steps.push(Step::Elf);
    let mut i: usize = 0;
    assert(step_models(steps@) =~= seq![StepModel::Elf] + segment_steps(image@, segments@.take(0)));
    while i < segments.len()
        invariant
            i <= segments@.len(),
            segments_fit(image@, segments@),
            step_models(steps@) == seq![StepModel::Elf] + segment_steps(image@, segments@.take(i as int)),
        decreases segments@.len() - i,
    {
        let segment = segments[i];
        proof {
            assert(segments@.take(i + 1).drop_last() =~= segments@.take(i as int));
            assert(segments@.take(i + 1).last() == segment);
        }
        if segment.load {
            assert(segment_fits(image@, segments@[i as int]));
            assert(image@.len() == image.len());
            let offset = #[verifier::truncate] (segment.offset as usize);
            let size = #[verifier::truncate] (segment.size as usize);
            let section = vstd::slice::slice_subrange(image, offset, offset + size);
            load_section(&mut steps, section, word_of_address(segment.address));
            assert(step_models(steps@) =~= seq![StepModel::Elf] + segment_steps(
                image@,
                segments@.take(i + 1),
            ));
        }
        i += 1;
    }
    assert(segments@.take(i as int) =~= segments@);
    let ghost before = step_models(steps@);
    steps.push(Step::Boot(word_of_address(entry)));
    assert(step_models(steps@) =~= before.push(StepModel::Boot(low_word(entry))));
    steps
}

/// Tells whether a segment can be loaded from the image.
fn check_segment(image: &[u8], segment: &Segment) -> (fits: bool)
    ensures
        fits == segment_fits(image@, *segment),
{
    let offset = #[verifier::truncate] (segment.offset as usize);
    let size = #[verifier::truncate] (segment.size as usize);
    offset <= image.len() && size <= image.len() - offset && size as u64 <= (u32::MAX
        - word_of_address(segment.address)) as u64
}

/// Tells whether all segments can be loaded from the image.
fn check_segments(image: &[u8], segments: &[Segment]) -> (fit: bool)
    ensures
        fit == segments_fit(image@, segments@),
{
    let mut i: usize = 0;
    while i < segments.len()
        invariant
            i <= segments@.len(),
            forall|j: int|
                0 <= j < i && (#[trigger] segments@[j]).load ==> segment_fits(image@, segments@[j]),
        decreases segments@.len() - i,
    {
        if segments[i].load && !check_segment(image, &segments[i]) {
            assert(segments@[i as int].load && !segment_fits(image@, segments@[i as int]));
            return false;
        }
        i += 1;
    }
    true
}

/// The steps that load a plain image, where it fits.
fn load_plain(image: &[u8]) -> (outcome: Option<Result<Vec<Step>, Error>>)
    ensures
        load_outcome(outcome) == plain_steps(image@),
{
    if image.len() as u64 <= (u32::MAX - LOAD_ADDRESS) as u64 {
        Some(Ok(load_raw(image)))
    } else {
        None
    }
}

/// The steps that load a 64-bit ELF file for RISC-V, given its header.
fn load_riscv(image: &Vec<u8>, header: ElfHeader) -> (outcome: Option<Result<Vec<Step>, Error>>)
    requires
        image@.len() >= 58,
        elf_kind(image@) == ElfKind::Elf64(header),
    ensures
        load_outcome(outcome) == riscv_steps(image@),
{
    let table: u64 = header.table_len as u64 * 56;
    let segments = if header.table_len == 0 {
        let none: Vec<Segment> = Vec::new();
        assert(none@ =~= segments_of(image@));
        none
    } else if header.table_offset > image.len() as u64 || table > image.len() as u64
        - header.table_offset {
        return None;
    } else if header.table_offset % 8 == 0 && !is_header_cut(image.as_slice()) {
        read_segments(image)
    } else {
        segments_from_bytes(image.as_slice(), header)
    };
    if check_segments(image.as_slice(), segments.as_slice()) {
        Some(Ok(load_elf(image.as_slice(), segments.as_slice(), header.entry)))
    } else {
        None
    }
}

/// The steps that load a file whose 64-bit ELF header is cut short.
fn load_cut(image: &Vec<u8>) -> (outcome: Option<Result<Vec<Step>, Error>>)
    requires
        header_cut(image@),
    ensures
        load_outcome(outcome) == image_steps(image@),
{
    let bytes = image.as_slice();
    if bytes.len() < 54 {
        None
    } else if bytes.len() < read16(bytes, 52) as usize {
        load_plain(bytes)
    } else if read16(bytes, 18) != 0xf3 {
        Some(Err(Error::NotRiscv))
    } else if bytes.len() < 58 {
        None
    } else {
        load_riscv(image, header_from_bytes(bytes))
    }
}

/// The steps that load a file: an ELF file is loaded as its program header
/// table says, anything else as a plain image.
pub fn load_image(image: &Vec<u8>) -> (outcome: Option<Result<Vec<Step>, Error>>)
    ensures
        load_outcome(outcome) == image_steps(image@),
{
    if is_header_cut(image.as_slice()) {
        return load_cut(image);
    }
    match read_kind(image) {
        ElfKind::NotElf => load_plain(image.as_slice()),
        ElfKind::Elf32 => {
            let steps: Vec<Step> = Vec::new();
            assert(step_models(steps@) =~= Seq::empty());
            Some(Ok(steps))
        },
        ElfKind::Elf64(header) => {
            if header.riscv {
                load_riscv(image, header)
            } else {
                Some(Err(Error::NotRiscv))
            }
        },
    }
}

/// A list of steps starts the program in its last step, and in no other.
pub open spec fn boots_last(steps: Seq<StepModel>) -> bool {
    &&& steps.len() > 0
    &&& steps.last() is Boot
    &&& forall|i: int| 0 <= i < steps.len() - 1 ==> !(#[trigger] steps[i] is Boot)
}

proof fn lemma_segment_steps_no_boot(image: Seq<u8>, segments: Seq<Segment>)
    ensures
        forall|i: int|
            0 <= i < segment_steps(image, segments).len() ==> !(#[trigger] segment_steps(image, segments)[i] is Boot),
    decreases segments.len(),
{
    if segments.len() > 0 {
        lemma_segment_steps_no_boot(image, segments.drop_last());
    }
}

/// A file that is loaded is started once, when all of it is in memory: a
/// 64-bit ELF file at its entry point, and a plain image at its first byte.
pub proof fn law_image_boots_last(image: Seq<u8>, steps: Seq<StepModel>)
    requires
        image_steps(image) == Some(Ok::<Seq<StepModel>, Error>(steps)),
    ensures
        elf_kind(image) is Elf32 ==> steps.len() == 0,
        !(elf_kind(image) is Elf32) ==> boots_last(steps),
        elf_kind(image) is Elf64 ==> steps.last() == StepModel::Boot(low_word(header_of(image).entry)),
        elf_kind(image) is NotElf ==> steps.last() == StepModel::Boot(LOAD_ADDRESS),
{
    lemma_segment_steps_no_boot(image, segments_of(image));
}

/// The blocks that a list of steps writes, in order.
pub open spec fn blocks_in(steps: Seq<StepModel>) -> Seq<BlockModel>
    decreases steps.len(),
{
    if steps.len() == 0 {
        Seq::empty()
    } else {
        match steps.last() {
            StepModel::Write(block) => blocks_in(steps.drop_last()).push(block),
            _ => blocks_in(steps.drop_last()),
        }
    }
}

proof fn lemma_blocks_in_append(first: Seq<StepModel>, rest: Seq<StepModel>)
    ensures
        blocks_in(first + rest) == blocks_in(first) + blocks_in(rest),
    decreases rest.len(),
{
    let all = first + rest;
    if rest.len() == 0 {
        assert(all =~= first);
        assert(blocks_in(first) + blocks_in(rest) =~= blocks_in(first));
    } else {
        assert(all.last() == rest.last());
        assert(all.drop_last() =~= first + rest.drop_last());
        lemma_blocks_in_append(first, rest.drop_last());
        if let StepModel::Write(block) = rest.last() {
            assert((blocks_in(first) + blocks_in(rest.drop_last())).push(block) =~= blocks_in(first)
                + blocks_in(rest.drop_last()).push(block));
        }
    }
}

proof fn lemma_blocks_in_writes(blocks: Seq<BlockModel>)
    ensures
        blocks_in(write_steps(blocks)) == blocks,
    decreases blocks.len(),
{
    if blocks.len() == 0 {
        assert(blocks_in(write_steps(blocks)) =~= blocks);
    } else {
        assert(write_steps(blocks).drop_last() =~= write_steps(blocks.drop_last()));
        lemma_blocks_in_writes(blocks.drop_last());
        assert(blocks.drop_last().push(blocks.last()) =~= blocks);
    }
}

proof fn lemma_blocks_in_section(address: u32, data: Seq<u8>)
    ensures
        blocks_in(section_steps(address, data)) == blocks_of(address as int, data, MEMORY_BLOCK as nat),
{
    let blocks = blocks_of(address as int, data, MEMORY_BLOCK as nat);
    let head = seq![StepModel::Section { address, size: data.len() }];
    lemma_blocks_in_append(head, write_steps(blocks));
    lemma_blocks_in_writes(blocks);
    assert(head.drop_last() =~= Seq::empty());
    assert(blocks_in(head.drop_last()) =~= Seq::empty());
    assert(blocks_in(head) =~= Seq::empty());
    assert(Seq::<BlockModel>::empty() + blocks =~= blocks);
}

/// Loading a plain image puts it into memory from the load address on, and
/// writes nothing else.
pub proof fn law_raw_image_in_memory(image: Seq<u8>, at: int)
    requires
        section_fits(LOAD_ADDRESS, image.len()),
    ensures
        written(blocks_in(raw_steps(image)), at) == (if LOAD_ADDRESS <= at < LOAD_ADDRESS + image.len() {
            Some(image[at - LOAD_ADDRESS])
        } else {
            None
        }),
{
    assert(raw_steps(image).drop_last() =~= section_steps(LOAD_ADDRESS, image));
    lemma_blocks_in_section(LOAD_ADDRESS, image);
    law_blocks_fill_memory(LOAD_ADDRESS as int, image, MEMORY_BLOCK as nat, at);
}

/// The byte that the segments of a file put at an address, where one of them
/// is loaded there; a later segment covers an earlier one.
pub open spec fn segment_byte(image: Seq<u8>, segments: Seq<Segment>, at: int) -> Option<u8>
    decreases segments.len(),
{
    if segments.len() == 0 {
        None
    } else {
        let last = segments.last();
        let start = low_word(last.address);
        let data = segment_data(image, last);
        if last.load && start <= at < start + data.len() {
            Some(data[at - start])
        } else {
            segment_byte(image, segments.drop_last(), at)
        }
    }
}

proof fn lemma_segments_in_memory(image: Seq<u8>, segments: Seq<Segment>, at: int)
    requires
        segments_fit(image, segments),
    ensures
        written(blocks_in(segment_steps(image, segments)), at) == segment_byte(image, segments, at),
    decreases segments.len(),
{
    if segments.len() > 0 {
        let earlier = segments.drop_last();
        let last = segments.last();
        assert(segments_fit(image, earlier)) by {
            assert forall|i: int| 0 <= i < earlier.len() && (#[trigger] earlier[i]).load implies segment_fits(
                image,
                earlier[i],
            ) by {
                assert(segments[i].load);
            }
        }
        lemma_segments_in_memory(image, earlier, at);
        if last.load {
            assert(segment_fits(image, segments[segments.len() - 1]));
            let start = low_word(last.address);
            let data = segment_data(image, last);
            lemma_blocks_in_append(segment_steps(image, earlier), section_steps(start, data));
            lemma_blocks_in_section(start, data);
            lemma_written_append(
                blocks_in(segment_steps(image, earlier)),
                blocks_of(start as int, data, MEMORY_BLOCK as nat),
                at,
            );
            law_blocks_fill_memory(start as int, data, MEMORY_BLOCK as nat, at);
        }
    }
}

/// Loading an ELF file puts every loaded segment into memory at its address,
/// and writes nothing else.
pub proof fn law_elf_image_in_memory(image: Seq<u8>, segments: Seq<Segment>, entry: u64, at: int)
    requires
        segments_fit(image, segments),
    ensures
        written(blocks_in(elf_steps(image, segments, entry)), at) == segment_byte(image, segments, at),
{
    let head = seq![StepModel::Elf];
    assert(elf_steps(image, segments, entry).drop_last() =~= head + segment_steps(image, segments));
    lemma_blocks_in_append(head, segment_steps(image, segments));
    assert(head.drop_last() =~= Seq::empty());
    assert(blocks_in(head.drop_last()) =~= Seq::empty());
    assert(blocks_in(head) + blocks_in(segment_steps(image, segments)) =~= blocks_in(
        segment_steps(image, segments),
    ));
    lemma_segments_in_memory(image, segments, at);
}

/// Step by step: a section is announced with its address and its size; then
/// each step writes its next 1024 bytes, or all that are left, to the address
/// that they have in it, up to its end.
pub proof fn law_section_step_by_step(address: u32, data: Seq<u8>, i: int)
    requires
        address + data.len() <= u32::MAX,
        0 <= i <= section_steps(address, data).len(),
    ensures
        ({
            let steps = section_steps(address, data);
            let from = (i - 1) * 1024;
            let to = if data.len() < from + 1024 {
                data.len() as int
            } else {
                from + 1024
            };
            &&& steps.len() >= 1
            &&& i == 0 ==> steps[i] == (StepModel::Section { address, size: data.len() })
            &&& 1 <= i < steps.len() ==> from < data.len() && steps[i] == StepModel::Write(
                BlockModel { address: (address + from) as u32, data: data.subrange(from, to) },
            )
            &&& i == steps.len() ==> from >= data.len()
        }),
{
    let blocks = blocks_of(address as int, data, MEMORY_BLOCK as nat);
    law_blocks_are_slices(address as int, data, MEMORY_BLOCK as nat);
    if 1 <= i < section_steps(address, data).len() {
        assert(section_steps(address, data)[i] == StepModel::Write(blocks[i - 1]));
    }
}

/// A plain image is loaded as one section from 0x80000000 on, and started
/// there.
pub proof fn law_plain_image_is_one_section(image: Seq<u8>)
    requires
        0x8000_0000 + image.len() <= u32::MAX,
    ensures
        raw_steps(image) == section_steps(0x8000_0000, image).push(StepModel::Boot(0x8000_0000)),
{
}

/// An ELF file is announced, and started at the low word of its entry point,
/// with the segments loaded between, one after the other: a loaded segment
/// adds a section at the low word of its address, with as many bytes of the
/// file as it says, from its offset on; a segment that is not loaded adds
/// nothing.
pub proof fn law_elf_segment_by_segment(image: Seq<u8>, segments: Seq<Segment>, next: Segment, entry: u64)
    requires
        next.load ==> (next.offset as usize) + (next.size as usize) <= image.len(),
    ensures
        ({
            let boot = StepModel::Boot((entry % 0x1_0000_0000) as u32);
            let before = elf_steps(image, segments, entry);
            let after = elf_steps(image, segments.push(next), entry);
            let from = next.offset as usize;
            let section = section_steps(
                (next.address % 0x1_0000_0000) as u32,
                image.subrange(from as int, from + (next.size as usize)),
            );
            &&& elf_steps(image, Seq::empty(), entry) == seq![StepModel::Elf, boot]
            &&& before.len() >= 2 && before[0] == StepModel::Elf && before.last() == boot
            &&& next.load ==> after == (before.drop_last() + section).push(boot)
            &&& !next.load ==> after == before
        }),
{
    let boot = StepModel::Boot((entry % 0x1_0000_0000) as u32);
    let before = elf_steps(image, segments, entry);
    let after = elf_steps(image, segments.push(next), entry);
    assert(segments.push(next).drop_last() =~= segments);
    assert(elf_steps(image, Seq::empty(), entry) =~= seq![StepModel::Elf, boot]);
    let from = next.offset as usize;
    let section = section_steps(
        (next.address % 0x1_0000_0000) as u32,
        image.subrange(from as int, from + (next.size as usize)),
    );
    if next.load {
        assert(after =~= (before.drop_last() + section).push(boot));
    } else {
        assert(after =~= before);
    }
}

/// A loaded segment covers an address: the address lies no further behind the
/// low word of its own than it has bytes.
pub open spec fn covers(segment: Segment, at: int) -> bool {
    segment.load && segment.address % 0x1_0000_0000 <= at < segment.address % 0x1_0000_0000 + (
    segment.size as usize)
}

proof fn lemma_segment_byte(image: Seq<u8>, segments: Seq<Segment>, j: int, at: int)
    requires
        segments_fit(image, segments),
        0 <= j < segments.len(),
        covers(segments[j], at),
        forall|l: int| j < l < segments.len() ==> !covers(#[trigger] segments[l], at),
    ensures
        segment_byte(image, segments, at) == Some(
            image[(segments[j].offset as usize) + (at - segments[j].address % 0x1_0000_0000)],
        ),
    decreases segments.len(),
{
    let last = segments[segments.len() - 1];
    if last.load {
        assert(segment_fits(image, segments[segments.len() - 1]));
    }
    if j < segments.len() - 1 {
        let earlier = segments.drop_last();
        assert(segments_fit(image, earlier)) by {
            assert forall|i: int| 0 <= i < earlier.len() && (#[trigger] earlier[i]).load implies segment_fits(
                image,
                earlier[i],
            ) by {
                assert(segments[i].load);
            }
        }
        assert forall|l: int| j < l < earlier.len() implies !covers(#[trigger] earlier[l], at) by {
            assert(earlier[l] == segments[l]);
        }
        lemma_segment_byte(image, earlier, j, at);
        assert(!covers(last, at));
    }
}

proof fn lemma_no_segment_byte(image: Seq<u8>, segments: Seq<Segment>, at: int)
    requires
        segments_fit(image, segments),
        forall|l: int| 0 <= l < segments.len() ==> !covers(#[trigger] segments[l], at),
    ensures
        segment_byte(image, segments, at) is None,
    decreases segments.len(),
{
    if segments.len() > 0 {
        let last = segments[segments.len() - 1];
        if last.load {
            assert(segment_fits(image, segments[segments.len() - 1]));
        }
        let earlier = segments.drop_last();
        assert(segments_fit(image, earlier)) by {
            assert forall|i: int| 0 <= i < earlier.len() && (#[trigger] earlier[i]).load implies segment_fits(
                image,
                earlier[i],
            ) by {
                assert(segments[i].load);
            }
        }
        assert forall|l: int| 0 <= l < earlier.len() implies !covers(#[trigger] earlier[l], at) by {
            assert(earlier[l] == segments[l]);
        }
        lemma_no_segment_byte(image, earlier, at);
        assert(!covers(last, at));
    }
}

/// Every loaded segment that lies inside the file and fits behind its address
/// can be loaded.
pub proof fn law_segments_fit(image: Seq<u8>, segments: Seq<Segment>)
    ensures
        segments_fit(image, segments) <==> forall|i: int|
            0 <= i < segments.len() && (#[trigger] segments[i]).load ==> (segments[i].offset as usize) + (
            segments[i].size as usize) <= image.len() && segments[i].address % 0x1_0000_0000 + (
            segments[i].size as usize) <= u32::MAX,
{
    assert forall|i: int| 0 <= i < segments.len() && (#[trigger] segments[i]).load implies (segment_fits(
        image,
        segments[i],
    ) <==> (segments[i].offset as usize) + (segments[i].size as usize) <= image.len()
        && segments[i].address % 0x1_0000_0000 + (segments[i].size as usize) <= u32::MAX) by {}
}

/// Byte by byte: loading an ELF file leaves the byte with the number `k` of
/// each loaded segment, which stands in the file that far behind the offset of
/// the segment, that far behind the low word of the segment's address, unless a
/// later segment covers that address.
pub proof fn law_segment_reaches_memory(
    image: Seq<u8>,
    segments: Seq<Segment>,
    entry: u64,
    j: int,
    k: int,
)
    requires
        forall|i: int|
            0 <= i < segments.len() && (#[trigger] segments[i]).load ==> (segments[i].offset as usize) + (
            segments[i].size as usize) <= image.len() && segments[i].address % 0x1_0000_0000 + (
            segments[i].size as usize) <= u32::MAX,
        0 <= j < segments.len(),
        segments[j].load,
        0 <= k < segments[j].size as usize,
        forall|l: int|
            j < l < segments.len() ==> !covers(
                #[trigger] segments[l],
                segments[j].address % 0x1_0000_0000 + k,
            ),
    ensures
        written(
            blocks_in(elf_steps(image, segments, entry)),
            segments[j].address % 0x1_0000_0000 + k,
        ) == Some(image[(segments[j].offset as usize) + k]),
{
    let at = segments[j].address % 0x1_0000_0000 + k;
    law_segments_fit(image, segments);
    law_elf_image_in_memory(image, segments, entry, at);
    lemma_segment_byte(image, segments, j, at);
}

/// Loading an ELF file writes to no address that none of its loaded segments
/// covers.
pub proof fn law_segments_only_in_memory(image: Seq<u8>, segments: Seq<Segment>, entry: u64, at: int)
    requires
        forall|i: int|
            0 <= i < segments.len() && (#[trigger] segments[i]).load ==> (segments[i].offset as usize) + (
            segments[i].size as usize) <= image.len() && segments[i].address % 0x1_0000_0000 + (
            segments[i].size as usize) <= u32::MAX,
        forall|l: int| 0 <= l < segments.len() ==> !covers(#[trigger] segments[l], at),
    ensures
        written(blocks_in(elf_steps(image, segments, entry)), at) is None,
{
    law_segments_fit(image, segments);
    law_elf_image_in_memory(image, segments, entry, at);
    lemma_no_segment_byte(image, segments, at);
}

/// A program header whose segment is loaded, but not all in the file, or
/// reaches beyond the last address.
pub open spec fn cannot_load(image: Seq<u8>, i: int) -> bool {
    let at = field(image, 32, 40) + 56 * i;
    let size = field(image, at + 32, at + 40) as usize;
    &&& field(image, at, at + 4) == 1
    &&& {
        ||| (field(image, at + 8, at + 16) as usize) + size > image.len()
        ||| field(image, at + 24, at + 32) % 0x1_0000_0000 + size > u32::MAX
    }
}

/// How loading a file ends is told by its bytes. A file with the magic number
/// is an ELF file where it is as long as the header that it claims: one of the
/// smaller class takes no step, one of the larger class is refused for another
/// machine than RISC-V, and has no answer where the number of its program
/// headers, one of them or what one of them loads is missing or out of reach.
/// A file of the larger class that is cut before the length of its header has
/// no answer. Any other file is a plain image.
pub proof fn law_image_outcome(image: Seq<u8>)
    ensures
        ({
            let len = image.len();
            let magic = len >= 52 && image.take(4) == seq![0x7fu8, 0x45, 0x4c, 0x46];
            let narrow = magic && image[4] == 1 && len >= field(image, 40, 42);
            let cut = magic && image[4] == 2 && len < 54;
            let wide = magic && image[4] == 2 && len >= 54 && len >= field(image, 52, 54);
            let riscv = wide && field(image, 18, 20) == 0xf3;
            let count = field(image, 56, 58);
            let loads = len >= 58 && (count == 0 || field(image, 32, 40) + 56 * count <= len) && forall|i: int|
                0 <= i < count ==> !#[trigger] cannot_load(image, i);
            &&& narrow ==> image_steps(image) == Some(Ok::<Seq<StepModel>, Error>(Seq::empty()))
            &&& cut ==> image_steps(image) is None
            &&& wide && !riscv ==> image_steps(image) == Some(
                Err::<Seq<StepModel>, Error>(Error::NotRiscv),
            )
            &&& riscv && loads ==> image_steps(image) == Some(
                Ok::<Seq<StepModel>, Error>(
                    elf_steps(image, segments_of(image), field(image, 24, 32) as u64),
                ),
            )
            &&& riscv && !loads ==> image_steps(image) is None
            &&& !narrow && !cut && !wide && 0x8000_0000 + len <= u32::MAX ==> image_steps(image) == Some(
                Ok::<Seq<StepModel>, Error>(raw_steps(image)),
            )
            &&& !narrow && !cut && !wide && 0x8000_0000 + len > u32::MAX ==> image_steps(image) is None
        }),
{
    law_file_kind(image);
    let count = field(image, 56, 58);
    let table = field(image, 32, 40);
    let segments = segments_of(image);
    if image.len() >= 58 {
        law_header_fields(image);
        if count == 0 || table + 56 * count <= image.len() {
            law_segments_fit(image, segments);
            assert forall|i: int| 0 <= i < count implies (#[trigger] cannot_load(image, i) <==> segments[i].load
                && !segment_fits(image, segments[i])) by {
                law_program_headers(image, i);
            }
            assert(segments.len() == count);
            if segments_fit(image, segments) {
                assert forall|i: int| 0 <= i < count implies !#[trigger] cannot_load(image, i) by {
                    assert(segments[i].load ==> segment_fits(image, segments[i]));
                }
            } else {
                let i = choose|i: int|
                    0 <= i < segments.len() && (#[trigger] segments[i]).load && !segment_fits(image, segments[i]);
                assert(cannot_load(image, i));
            }
        }
    }
}

/// The model of a loader's result tells the steps or the error that it holds.
pub proof fn law_load_model(steps: Vec<Step>, error: Error)
    ensures
        load_outcome(None) is None,
        load_outcome(Some(Err(error))) == Some(Err::<Seq<StepModel>, Error>(error)),
        load_outcome(Some(Ok(steps))) == Some(Ok::<Seq<StepModel>, Error>(step_models(steps@))),
{
}

} // verus!
