//! The steps of loading and flashing, and the blocks that they write.
use crate::rom_cmd::K210FlashType;
use vstd::prelude::*;

verus! {

/// Bytes to be written at an address.
#[derive(Debug, PartialEq, Eq)]
pub struct Block {
    pub address: u32,
    pub data: Vec<u8>,
}

/// A [`Block`] in the model.
#[verifier::ext_equal]
pub struct BlockModel {
    pub address: u32,
    pub data: Seq<u8>,
}

impl View for Block {
    type V = BlockModel;

    open spec fn view(&self) -> BlockModel {
        BlockModel { address: self.address, data: self.data@ }
    }
}

/// A step in loading or flashing an image.
#[derive(Debug, PartialEq, Eq)]
pub enum Step {
    /// Announce an ELF file, whose segments follow.
    Elf,
    /// Announce a section of `size` bytes that is loaded to `address`.
    Section { address: u32, size: usize },
    /// Write a block to memory.
    Write(Block),
    /// Start the program at an address.
    Boot(u32),
    /// Wait, in milliseconds.
    Wait(u64),
    /// Greet the in-system programmer.
    FlashGreet,
    /// Select the flash chip.
    SelectFlash(K210FlashType),
    /// Write a block to flash.
    FlashWrite(Block),
    /// Restart the target.
    Reset,
}

/// A [`Step`] in the model.
#[verifier::ext_equal]
pub enum StepModel {
    Elf,
    Section { address: u32, size: nat },
    Write(BlockModel),
    Boot(u32),
    Wait(u64),
    FlashGreet,
    SelectFlash(K210FlashType),
    FlashWrite(BlockModel),
    Reset,
}

impl View for Step {
    type V = StepModel;

    open spec fn view(&self) -> StepModel {
        match *self {
            Step::Elf => StepModel::Elf,
            Step::Section { address, size } => StepModel::Section { address, size: size as nat },
            Step::Write(block) => StepModel::Write(block@),
            Step::Boot(address) => StepModel::Boot(address),
            Step::Wait(ms) => StepModel::Wait(ms),
            Step::FlashGreet => StepModel::FlashGreet,
            Step::SelectFlash(ftype) => StepModel::SelectFlash(ftype),
            Step::FlashWrite(block) => StepModel::FlashWrite(block@),
            Step::Reset => StepModel::Reset,
        }
    }
}

/// The blocks of a list, in the model.
pub open spec fn block_models(blocks: Seq<Block>) -> Seq<BlockModel> {
    Seq::new(blocks.len(), |i: int| blocks[i]@)
}

/// The steps of a list, in the model.
pub open spec fn step_models(steps: Seq<Step>) -> Seq<StepModel> {
    Seq::new(steps.len(), |i: int| steps[i]@)
}

/// The data cut into blocks of the given size, the last of which may be
/// shorter, at ascending addresses from `address` on.
pub open spec fn blocks_of(address: int, data: Seq<u8>, size: nat) -> Seq<BlockModel>
    decreases data.len(),
{
    if data.len() == 0 || size == 0 {
        Seq::empty()
    } else if data.len() <= size {
        seq![BlockModel { address: address as u32, data }]
    } else {
        seq![BlockModel { address: address as u32, data: data.take(size as int) }] + blocks_of(
            address + size,
            data.skip(size as int),
            size,
        )
    }
}

/// Cuts data into blocks of `size` bytes at ascending addresses.
pub fn split_blocks(data: &[u8], address: u32, size: usize) -> (blocks: Vec<Block>)
    requires
        size > 0,
        address + data@.len() <= u32::MAX,
    ensures
        block_models(blocks@) == blocks_of(address as int, data@, size as nat),
{
    let mut blocks: Vec<Block> = Vec::new();
    let mut done: usize = 0;
    let mut next: u32 = address;
    assert(data@.skip(0) =~= data@);
    assert(block_models(blocks@) =~= Seq::empty());
    assert(Seq::<BlockModel>::empty() + blocks_of(address as int, data@, size as nat) =~= blocks_of(
        address as int,
        data@,
        size as nat,
    ));
    while done < data.len()
        invariant
            size > 0,
            done <= data@.len(),
            address + data@.len() <= u32::MAX,
            next == address + done,
            block_models(blocks@) + blocks_of(next as int, data@.skip(done as int), size as nat)
                == blocks_of(address as int, data@, size as nat),
        decreases data@.len() - done,
    {
        let left = data.len() - done;
        let len = if left <= size {
            left
        } else {
            size
        };
        let chunk = vstd::slice::slice_to_vec(vstd::slice::slice_subrange(data, done, done + len));
        let ghost before = block_models(blocks@);
        let ghost rest = data@.skip(done as int);
        proof {
            assert(chunk@ =~= rest.take(len as int));
            if left <= size {
                assert(rest.take(len as int) =~= rest);
                assert(data@.skip(done + len) =~= Seq::empty());
            } else {
                assert(rest.skip(len as int) =~= data@.skip(done + len));
            }
        }
        blocks.push(Block { address: next, data: chunk });
        proof {
            let head = seq![BlockModel { address: next, data: chunk@ }];
            assert(block_models(blocks@) =~= before + head);
            assert(blocks_of(next as int, rest, size as nat) =~= head + blocks_of(
                next + len,
                data@.skip(done + len),
                size as nat,
            ));
            assert((before + head) + blocks_of(next + len, data@.skip(done + len), size as nat)
                =~= before + (head + blocks_of(next + len, data@.skip(done + len), size as nat)));
        }
        next += len as u32;
        done += len;
    }
    assert(data@.skip(done as int) =~= Seq::empty());
    assert(block_models(blocks@) =~= block_models(blocks@) + blocks_of(
        next as int,
        data@.skip(done as int),
        size as nat,
    ));
    blocks
}

/// The byte that a list of blocks leaves at an address, where it writes there;
/// a later block covers an earlier one.
pub open spec fn written(blocks: Seq<BlockModel>, at: int) -> Option<u8>
    decreases blocks.len(),
{
    if blocks.len() == 0 {
        None
    } else {
        let last = blocks.last();
        if last.address <= at < last.address + last.data.len() {
            Some(last.data[at - last.address])
        } else {
            written(blocks.drop_last(), at)
        }
    }
}

/// The data of a list of blocks, one behind the other.
pub open spec fn joined(blocks: Seq<BlockModel>) -> Seq<u8>
    decreases blocks.len(),
{
    if blocks.len() == 0 {
        Seq::empty()
    } else {
        blocks[0].data + joined(blocks.drop_first())
    }
}

/// Cutting data into blocks loses nothing: the blocks, put together again, are
/// the data.
pub proof fn law_blocks_join(address: int, data: Seq<u8>, size: nat)
    requires
        size > 0,
    ensures
        joined(blocks_of(address, data, size)) == data,
    decreases data.len(),
{
    let blocks = blocks_of(address, data, size);
    if data.len() == 0 {
        assert(joined(blocks) =~= data);
    } else if data.len() <= size {
        assert(blocks.drop_first() =~= Seq::empty());
        assert(joined(blocks.drop_first()) =~= Seq::empty());
        assert(joined(blocks) =~= data);
    } else {
        let rest = blocks_of(address + size, data.skip(size as int), size);
        law_blocks_join(address + size, data.skip(size as int), size);
        assert(blocks.drop_first() =~= rest);
        assert(data.take(size as int) + data.skip(size as int) =~= data);
    }
}

/// Blocks follow one another without gap or overlap, none is empty, and all
/// but the last have the full size.
pub proof fn law_blocks_contiguous(address: int, data: Seq<u8>, size: nat)
    requires
        size > 0,
        0 <= address,
        address + data.len() <= u32::MAX,
    ensures
        forall|i: int|
            0 <= i < blocks_of(address, data, size).len() ==> {
                let block = #[trigger] blocks_of(address, data, size)[i];
                &&& block.address == address + i * size
                &&& 0 < block.data.len() <= size
                &&& i < blocks_of(address, data, size).len() - 1 ==> block.data.len() == size
            },
    decreases data.len(),
{
    let blocks = blocks_of(address, data, size);
    if data.len() > size {
        let rest = blocks_of(address + size, data.skip(size as int), size);
        law_blocks_contiguous(address + size, data.skip(size as int), size);
        assert forall|i: int| 0 <= i < blocks.len() implies {
            let block = #[trigger] blocks[i];
            &&& block.address == address + i * size
            &&& 0 < block.data.len() <= size
            &&& i < blocks.len() - 1 ==> block.data.len() == size
        } by {
            if i == 0 {
                assert(0 * size == 0) by (nonlinear_arith);
            } else {
                assert(blocks[i] == rest[i - 1]);
                assert((i - 1) * size + size == i * size) by (nonlinear_arith);
            }
        }
    } else {
        assert(0 * size == 0) by (nonlinear_arith);
    }
}

pub(crate) proof fn lemma_written_append(first: Seq<BlockModel>, rest: Seq<BlockModel>, at: int)
    ensures
        written(first + rest, at) == (if written(rest, at) is Some {
            written(rest, at)
        } else {
            written(first, at)
        }),
    decreases rest.len(),
{
    let all = first + rest;
    if rest.len() == 0 {
        assert(all =~= first);
    } else {
        assert(all.last() == rest.last());
        assert(all.drop_last() =~= first + rest.drop_last());
        lemma_written_append(first, rest.drop_last(), at);
    }
}

/// Writing the blocks of some data leaves exactly the data behind, from the
/// first address on, and touches nothing else.
pub proof fn law_blocks_fill_memory(address: int, data: Seq<u8>, size: nat, at: int)
    requires
        size > 0,
        0 <= address,
        address + data.len() <= u32::MAX,
    ensures
        written(blocks_of(address, data, size), at) == (if address <= at < address + data.len() {
            Some(data[at - address])
        } else {
            None
        }),
    decreases data.len(),
{
    let blocks = blocks_of(address, data, size);
    reveal_with_fuel(written, 2);
    if data.len() == 0 {
    } else if data.len() <= size {
        assert(blocks.drop_last() =~= Seq::empty());
    } else {
        let rest = blocks_of(address + size, data.skip(size as int), size);
        let first = BlockModel { address: address as u32, data: data.take(size as int) };
        law_blocks_fill_memory(address + size, data.skip(size as int), size, at);
        lemma_written_append(seq![first], rest, at);
        assert(seq![first].drop_last() =~= Seq::empty());
    }
}

/// The block holds the bytes from `from` on, `size` of them or all that are
/// left, at the address that lies as far behind the first.
pub open spec fn is_slice(block: BlockModel, address: int, data: Seq<u8>, size: nat, from: int) -> bool {
    &&& 0 <= from < data.len()
    &&& block.address == address + from
    &&& block.data == data.subrange(
        from,
        if data.len() - from < size {
            data.len() as int
        } else {
            from + size
        },
    )
}

/// Block by block: the block with the number `i` holds the bytes from
/// `i * size` on, and the blocks reach to the end of the data.
pub proof fn law_blocks_are_slices(address: int, data: Seq<u8>, size: nat)
    requires
        size > 0,
        0 <= address,
        address + data.len() <= u32::MAX,
    ensures
        blocks_of(address, data, size).len() * size >= data.len(),
        forall|i: int|
            0 <= i < blocks_of(address, data, size).len() ==> is_slice(
                #[trigger] blocks_of(address, data, size)[i],
                address,
                data,
                size,
                i * size,
            ),
    decreases data.len(),
{
    let blocks = blocks_of(address, data, size);
    assert(0 * size == 0) by (nonlinear_arith);
    assert(1 * size == size) by (nonlinear_arith);
    if data.len() > size {
        let behind = data.skip(size as int);
        let rest = blocks_of(address + size, behind, size);
        law_blocks_are_slices(address + size, behind, size);
        assert(blocks.len() == rest.len() + 1);
        assert((rest.len() + 1) * size == rest.len() * size + size) by (nonlinear_arith);
        assert forall|i: int| 0 <= i < blocks.len() implies is_slice(
            #[trigger] blocks[i],
            address,
            data,
            size,
            i * size,
        ) by {
            let from = i * size;
            let to = if data.len() - from < size {
                data.len() as int
            } else {
                from + size
            };
            if i == 0 {
                assert(data.take(size as int) =~= data.subrange(from, to));
            } else {
                assert((i - 1) * size + size == i * size) by (nonlinear_arith);
                assert(blocks[i] == rest[i - 1]);
                assert(behind.subrange(from - size, to - size) =~= data.subrange(from, to));
            }
        }
    } else if data.len() > 0 {
        assert(data.subrange(0, data.len() as int) =~= data);
        assert(is_slice(blocks[0], address, data, size, 0));
    }
}

/// The model of a step tells the step, with all that it holds, and the model of
/// a list of steps or blocks holds the model of each.
pub proof fn law_step_model(step: Step, steps: Seq<Step>, block: Block, blocks: Seq<Block>)
    ensures
        match step {
            Step::Elf => step@ == StepModel::Elf,
            Step::Section { address, size } => step@ == (StepModel::Section { address, size: size as nat }),
            Step::Write(b) => step@ == StepModel::Write(
                BlockModel { address: b.address, data: b.data@ },
            ),
            Step::Boot(address) => step@ == StepModel::Boot(address),
            Step::Wait(ms) => step@ == StepModel::Wait(ms),
            Step::FlashGreet => step@ == StepModel::FlashGreet,
            Step::SelectFlash(ftype) => step@ == StepModel::SelectFlash(ftype),
            Step::FlashWrite(b) => step@ == StepModel::FlashWrite(
                BlockModel { address: b.address, data: b.data@ },
            ),
            Step::Reset => step@ == StepModel::Reset,
        },
        step_models(steps).len() == steps.len(),
        forall|i: int| 0 <= i < steps.len() ==> #[trigger] step_models(steps)[i] == steps[i]@,
        block@.address == block.address,
        block@.data == block.data@,
        block_models(blocks).len() == blocks.len(),
        forall|i: int| 0 <= i < blocks.len() ==> #[trigger] block_models(blocks)[i] == blocks[i]@,
{
}

} // verus!
