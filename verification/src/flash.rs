//! The image that is written to flash, and the steps that write it.
use crate::packet::{law_number_round_trip, le32, le_value, packet_of, push_all, push_le32};
use crate::rom_cmd::{
    attempt, flash_block, length_word, step_command, word_of_length, K210FlashType, Kind,
    CMD_FLASH_WRITE, FLASH_BLOCK, FLASH_REPLY_MS,
};
use crate::steps::{
    block_models, blocks_of, law_blocks_are_slices, lemma_written_append, split_blocks, step_models, written, BlockModel, Step,
    StepModel,
};
use sha2::{Digest, Sha256};
use vstd::prelude::*;

verus! {

/// How long the in-system programmer takes to start, in milliseconds.
pub const PROGRAMMER_START_MS: u64 = 500;

/// What sealing adds to an image: a flag byte, the length and the digest.
pub const SEAL_LEN: usize = 37;

/// The SHA-256 digest of a run of bytes.
pub uninterp spec fn sha256(bytes: Seq<u8>) -> Seq<u8>;

/// `Sha256::input` feeds the bytes and `Sha256::result` gives their digest; it
/// is a function of the bytes alone and 32 bytes long.
#[verifier::external_body]
fn digest(bytes: &[u8]) -> (sum: Vec<u8>)
    ensures
        sum@ == sha256(bytes@),
        sum@.len() == 32,
{
    let mut hasher = Sha256::new();
    hasher.input(bytes);
    hasher.result().to_vec()
}

/// What the digest covers: a zero byte, the length of the image and the image.
pub open spec fn sealed_body(image: Seq<u8>) -> Seq<u8> {
    seq![0u8] + le32(length_word(image.len())) + image
}

/// The image as it stands in flash, with the given digest behind it.
pub open spec fn sealed_with(image: Seq<u8>, sum: Seq<u8>) -> Seq<u8> {
    sealed_body(image) + sum
}

/// The image as it stands in flash, with its digest behind it.
pub open spec fn sealed(image: Seq<u8>) -> Seq<u8> {
    sealed_with(image, sha256(sealed_body(image)))
}

/// The part of a sealed image that the digest covers.
pub fn seal_body(image: &[u8]) -> (body: Vec<u8>)
    ensures
        body@ == sealed_body(image@),
{
    let mut body: Vec<u8> = Vec::new();
    body.push(0);
    push_le32(&mut body, word_of_length(image.len()));
    push_all(&mut body, image);
    assert(body@ =~= sealed_body(image@));
    body
}

/// Seals an image, given its digest.
pub fn seal_with(image: &[u8], sum: &[u8]) -> (bytes: Vec<u8>)
    ensures
        bytes@ == sealed_with(image@, sum@),
{
    let mut bytes = seal_body(image);
    push_all(&mut bytes, sum);
    bytes
}

/// Seals an image: puts its length before it and its digest behind it.
pub fn seal(image: &[u8]) -> (bytes: Vec<u8>)
    ensures
        bytes@ == sealed(image@),
        bytes@.len() == image@.len() + SEAL_LEN,
{
    let body = seal_body(image);
    let sum = digest(body.as_slice());
    seal_with(image, sum.as_slice())
}

/// The steps that write the blocks of a list.
pub open spec fn flash_writes(blocks: Seq<BlockModel>) -> Seq<StepModel> {
    Seq::new(blocks.len(), |i: int| StepModel::FlashWrite(blocks[i]))
}

/// The steps that come before the first write.
pub open spec fn flash_opening() -> Seq<StepModel> {
    seq![
        StepModel::Wait(PROGRAMMER_START_MS),
        StepModel::FlashGreet,
        StepModel::SelectFlash(K210FlashType::External),
    ]
}

/// The steps that write the given bytes to the start of the external flash
/// and restart the target.
pub open spec fn flash_steps(bytes: Seq<u8>) -> Seq<StepModel> {
    flash_opening() + flash_writes(blocks_of(0, bytes, FLASH_BLOCK as nat)) + seq![StepModel::Reset]
}

/// The steps that write bytes to the start of the external flash.
pub fn flash_bytes(bytes: &[u8]) -> (steps: Vec<Step>)
    requires
        bytes@.len() <= u32::MAX,
    ensures
        step_models(steps@) == flash_steps(bytes@),
{
    let mut steps: Vec<Step> = Vec::new();
    steps.push(Step::Wait(PROGRAMMER_START_MS));
    steps.push(Step::FlashGreet);
    steps.push(Step::SelectFlash(K210FlashType::External));
    let blocks = split_blocks(bytes, 0, FLASH_BLOCK);
    let ghost models = block_models(blocks@);
    let ghost count = blocks@.len();
    assert(step_models(steps@) =~= flash_opening() + flash_writes(models.take(0)));
    for block in each: blocks
        invariant
            models.len() == count,
            each.seq().len() == count,
            forall|i: int| 0 <= i < count ==> #[trigger] each.seq()[i]@ == models[i],
            step_models(steps@) == flash_opening() + flash_writes(models.take(each.index() as int)),
    {
        let ghost n = each.index() as int;
        let ghost earlier = step_models(steps@);
        steps.push(Step::FlashWrite(block));
        assert(step_models(steps@) =~= earlier.push(StepModel::FlashWrite(models[n])));
        assert(step_models(steps@) =~= flash_opening() + flash_writes(models.take(n + 1)));
    }
    assert(models.take(count as int) =~= models);
    let ghost before = step_models(steps@);
    steps.push(Step::Reset);
    assert(step_models(steps@) =~= before + seq![StepModel::Reset]);
    steps
}

/// The steps that seal an image and write it to flash.
pub fn flash_image(image: &[u8]) -> (steps: Vec<Step>)
    requires
        image@.len() + SEAL_LEN <= u32::MAX,
    ensures
        step_models(steps@) == flash_steps(sealed(image@)),
{
    let bytes = seal(image);
    flash_bytes(bytes.as_slice())
}

/// A sealed image gives the image and its digest back: no two images, and no
/// two digests, are sealed alike.
pub proof fn law_seal_unambiguous(a: Seq<u8>, sum_a: Seq<u8>, b: Seq<u8>, sum_b: Seq<u8>)
    requires
        sum_a.len() == 32,
        sum_b.len() == 32,
        sealed_with(a, sum_a) == sealed_with(b, sum_b),
    ensures
        a == b,
        sum_a == sum_b,
{
    let x = sealed_with(a, sum_a);
    let y = sealed_with(b, sum_b);
    assert(x.len() == a.len() + 37 && y.len() == b.len() + 37);
    assert(x.subrange(5, 5int + a.len()) =~= a && y.subrange(5, 5int + b.len()) =~= b);
    assert(x.skip(5int + a.len()) =~= sum_a && y.skip(5int + b.len()) =~= sum_b);
}

/// The data of a block, filled up with zeros to a whole block of flash.
pub open spec fn filled_data(data: Seq<u8>) -> Seq<u8> {
    Seq::new(0x1_0000, |k: int| if k < data.len() { data[k] } else { 0 })
}

/// The blocks as the programmer writes them, each filled up to a whole block.
pub open spec fn filled(blocks: Seq<BlockModel>) -> Seq<BlockModel> {
    Seq::new(
        blocks.len(),
        |i: int| BlockModel { address: blocks[i].address, data: filled_data(blocks[i].data) },
    )
}

/// The blocks that a list of steps writes to flash, in order.
pub open spec fn flash_blocks_in(steps: Seq<StepModel>) -> Seq<BlockModel>
    decreases steps.len(),
{
    if steps.len() == 0 {
        Seq::empty()
    } else {
        match steps.last() {
            StepModel::FlashWrite(block) => flash_blocks_in(steps.drop_last()).push(block),
            _ => flash_blocks_in(steps.drop_last()),
        }
    }
}

proof fn lemma_flash_blocks_in(before: Seq<StepModel>, blocks: Seq<BlockModel>)
    requires
        forall|i: int| 0 <= i < before.len() ==> !(#[trigger] before[i] is FlashWrite),
    ensures
        flash_blocks_in(before + flash_writes(blocks)) == blocks,
    decreases before.len() + blocks.len(),
{
    let steps = before + flash_writes(blocks);
    if blocks.len() > 0 {
        assert(steps.last() == StepModel::FlashWrite(blocks.last()));
        assert(steps.drop_last() =~= before + flash_writes(blocks.drop_last()));
        lemma_flash_blocks_in(before, blocks.drop_last());
        assert(blocks.drop_last().push(blocks.last()) =~= blocks);
    } else if before.len() > 0 {
        assert(steps =~= before);
        assert(!(before[before.len() - 1] is FlashWrite));
        assert(steps.drop_last() =~= before.drop_last() + flash_writes(blocks));
        lemma_flash_blocks_in(before.drop_last(), blocks);
    } else {
        assert(blocks =~= Seq::empty());
    }
}

proof fn lemma_flash_steps_write(bytes: Seq<u8>)
    ensures
        flash_blocks_in(flash_steps(bytes)) == blocks_of(0, bytes, FLASH_BLOCK as nat),
{
    let blocks = blocks_of(0, bytes, FLASH_BLOCK as nat);
    assert(flash_steps(bytes).drop_last() =~= flash_opening() + flash_writes(blocks));
    lemma_flash_blocks_in(flash_opening(), blocks);
}

proof fn lemma_filled_contents(address: int, bytes: Seq<u8>, at: int)
    requires
        0 <= address,
        address + bytes.len() <= u32::MAX,
    ensures
        address <= at < address + bytes.len() ==> written(
            filled(blocks_of(address, bytes, FLASH_BLOCK as nat)),
            at,
        ) == Some(bytes[at - address]),
        at < address ==> written(filled(blocks_of(address, bytes, FLASH_BLOCK as nat)), at) is None,
        at >= address + bytes.len() ==> {
            ||| written(filled(blocks_of(address, bytes, FLASH_BLOCK as nat)), at) == Some(0u8)
            ||| written(filled(blocks_of(address, bytes, FLASH_BLOCK as nat)), at) is None
        },
    decreases bytes.len(),
{
    let size = FLASH_BLOCK as nat;
    let blocks = blocks_of(address, bytes, size);
    reveal_with_fuel(written, 2);
    if bytes.len() == 0 {
    } else if bytes.len() <= size {
        assert(filled(blocks).drop_last() =~= Seq::empty());
    } else {
        let rest = blocks_of(address + size, bytes.skip(size as int), size);
        let first = BlockModel { address: address as u32, data: filled_data(bytes.take(size as int)) };
        lemma_filled_contents(address + size, bytes.skip(size as int), at);
        lemma_written_append(seq![first], filled(rest), at);
        assert(filled(blocks) =~= seq![first] + filled(rest));
        assert(seq![first].drop_last() =~= Seq::empty());
    }
}

/// Flashing leaves the bytes at the start of the flash: the blocks that the
/// steps write there, in order and each filled up, put every byte at its
/// place, and whatever they write behind them is zero.
pub proof fn law_flash_contents(bytes: Seq<u8>, at: int)
    requires
        bytes.len() <= u32::MAX,
    ensures
        0 <= at < bytes.len() ==> written(filled(flash_blocks_in(flash_steps(bytes))), at) == Some(
            bytes[at],
        ),
        at < 0 ==> written(filled(flash_blocks_in(flash_steps(bytes))), at) is None,
        at >= bytes.len() ==> {
            ||| written(filled(flash_blocks_in(flash_steps(bytes))), at) == Some(0u8)
            ||| written(filled(flash_blocks_in(flash_steps(bytes))), at) is None
        },
{
    lemma_filled_contents(0, bytes, at);
    lemma_flash_steps_write(bytes);
}

/// A flashed image stands in flash as the boot ROM looks for it: a zero byte,
/// the length of the image in four bytes, the image, and the digest of all
/// that.
pub proof fn law_flashed_image(image: Seq<u8>, at: int)
    requires
        sealed(image).len() <= u32::MAX,
        0 <= at < sealed(image).len(),
    ensures
        ({
            let byte = written(filled(flash_blocks_in(flash_steps(sealed(image)))), at);
            let body = sealed(image).take(5 + image.len() as int);
            &&& at == 0 ==> byte == Some(0u8)
            &&& 1 <= at < 5 ==> byte == Some(sealed(image)[at])
            &&& le_value(sealed(image).subrange(1, 5)) == image.len()
            &&& 5 <= at < 5 + image.len() ==> byte == Some(image[at - 5])
            &&& at >= 5 + image.len() ==> byte == Some(sha256(body)[at - 5 - image.len()])
        }),
{
    law_flash_contents(sealed(image), at);
    law_seal_layout(image, sha256(sealed_body(image)));
    assert(sealed(image).take(5 + image.len() as int) =~= sealed_body(image));
}

/// A sealed image holds a zero byte, the length of the image as a number of
/// four bytes, the image, and behind it the digest. The digest of
/// [`seal`] is that of everything before it.
pub proof fn law_seal_layout(image: Seq<u8>, sum: Seq<u8>)
    ensures
        ({
            let bytes = sealed_with(image, sum);
            let end = 5int + image.len();
            &&& bytes.len() == end + sum.len()
            &&& bytes[0] == 0
            &&& le_value(bytes.subrange(1, 5)) == image.len() % 0x1_0000_0000
            &&& bytes.subrange(5, end) == image
            &&& bytes.skip(end) == sum
            &&& sealed_body(image) == bytes.take(end)
            &&& sealed(image).take(end) == bytes.take(end)
            &&& sealed(image).skip(end) == sha256(sealed(image).take(end))
        }),
{
    let bytes = sealed_with(image, sum);
    let end = 5int + image.len();
    law_number_round_trip(length_word(image.len()));
    assert(bytes.subrange(1, 5) =~= le32(length_word(image.len())));
    assert(bytes.subrange(5, end) =~= image);
    assert(bytes.skip(end) =~= sum);
    assert(bytes.take(end) =~= sealed_body(image));
    assert(sealed(image).take(end) =~= sealed_body(image));
    assert(sealed(image).skip(end) =~= sha256(sealed_body(image)));
}

/// Step by step: after half a second the programmer is greeted and the external
/// chip selected; then each step writes the next 65536 bytes, or all that are
/// left, at the address that they have in the bytes; when they are all
/// written, the target is restarted.
pub proof fn law_flash_step_by_step(bytes: Seq<u8>, i: int)
    requires
        bytes.len() <= u32::MAX,
        0 <= i < flash_steps(bytes).len(),
    ensures
        ({
            let steps = flash_steps(bytes);
            let from = (i - 3) * 0x1_0000;
            let to = if bytes.len() < from + 0x1_0000 {
                bytes.len() as int
            } else {
                from + 0x1_0000
            };
            &&& steps.len() >= 4
            &&& i == 0 ==> steps[i] == StepModel::Wait(500)
            &&& i == 1 ==> steps[i] == StepModel::FlashGreet
            &&& i == 2 ==> steps[i] == StepModel::SelectFlash(K210FlashType::External)
            &&& 3 <= i < steps.len() - 1 ==> from < bytes.len() && steps[i] == StepModel::FlashWrite(
                BlockModel { address: from as u32, data: bytes.subrange(from, to) },
            )
            &&& i == steps.len() - 1 ==> from >= bytes.len() && steps[i] == StepModel::Reset
        }),
{
    let blocks = blocks_of(0, bytes, FLASH_BLOCK as nat);
    law_blocks_are_slices(0, bytes, FLASH_BLOCK as nat);
    if 3 <= i < flash_steps(bytes).len() - 1 {
        assert(flash_steps(bytes)[i] == StepModel::FlashWrite(blocks[i - 3]));
    }
}

/// What a flash step sends is the filled block: the command that performs the
/// write of a block carries its address and the data that it is filled up to.
pub proof fn law_flash_write_sends_filled(blocks: Seq<BlockModel>, i: int)
    requires
        0 <= i < blocks.len(),
    ensures
        step_command(StepModel::FlashWrite(blocks[i])) == Some(
            attempt(
                CMD_FLASH_WRITE,
                packet_of(
                    CMD_FLASH_WRITE,
                    filled(blocks)[i].address,
                    FLASH_BLOCK as u32,
                    filled(blocks)[i].data,
                ),
                Kind::Reply(FLASH_REPLY_MS),
            ),
        ),
{
    assert(flash_block(blocks[i].data) =~= filled_data(blocks[i].data));
}

/// Nothing is written before the programmer has been greeted and the chip
/// selected, and the target is restarted once, after the last write.
pub proof fn law_flash_order(bytes: Seq<u8>)
    ensures
        flash_steps(bytes)[1] == StepModel::FlashGreet,
        flash_steps(bytes)[2] == StepModel::SelectFlash(K210FlashType::External),
        flash_steps(bytes).last() == StepModel::Reset,
        forall|i: int| 0 <= i < flash_steps(bytes).len() && #[trigger] flash_steps(bytes)[i] is FlashWrite ==> 2 < i,
        forall|i: int|
            0 <= i < flash_steps(bytes).len() && #[trigger] flash_steps(bytes)[i] is Reset ==> i
                == flash_steps(bytes).len() - 1,
{
}

} // verus!
