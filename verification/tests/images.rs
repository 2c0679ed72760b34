use k210_flash::elf::Segment;
use k210_flash::error::Error;
use k210_flash::flash::{flash_bytes, flash_image, seal, seal_body, seal_with};
use k210_flash::load::{load_elf, load_image, load_raw};
use k210_flash::rom_cmd::K210FlashType;
use k210_flash::steps::{split_blocks, Block, Step};

fn put(image: &mut Vec<u8>, at: usize, bytes: &[u8]) {
    image[at..at + bytes.len()].copy_from_slice(bytes);
}

/// A 64-bit RISC-V ELF file with a note and two loaded segments.
fn elf_file() -> Vec<u8> {
    let mut image = vec![0u8; 64 + 3 * 56 + 1500 + 4];
    put(&mut image, 0, &[0x7f, 0x45, 0x4c, 0x46, 2, 1, 1]);
    put(&mut image, 16, &2u16.to_le_bytes());
    put(&mut image, 18, &0xf3u16.to_le_bytes());
    put(&mut image, 24, &0x1_8000_0010u64.to_le_bytes());
    put(&mut image, 32, &64u64.to_le_bytes());
    put(&mut image, 52, &64u16.to_le_bytes());
    put(&mut image, 54, &56u16.to_le_bytes());
    put(&mut image, 56, &3u16.to_le_bytes());
    let entries: [(u32, u64, u64, u64); 3] =
        [(4, 0, 0, 64), (1, 232, 0x8000_0000, 1500), (1, 1732, 0x1_8000_2000, 4)];
    for (i, entry) in entries.iter().enumerate() {
        let at = 64 + 56 * i;
        put(&mut image, at, &entry.0.to_le_bytes());
        put(&mut image, at + 8, &entry.1.to_le_bytes());
        put(&mut image, at + 24, &entry.2.to_le_bytes());
        put(&mut image, at + 32, &entry.3.to_le_bytes());
    }
    for i in 0..1500 {
        image[232 + i] = (i % 251) as u8;
    }
    put(&mut image, 1732, &[9, 8, 7, 6]);
    image
}

fn block(address: u32, data: &[u8]) -> Block {
    Block { address, data: data.to_vec() }
}

#[test]
fn blocks_cover_the_data_in_order() {
    let data: Vec<u8> = (0..=9).collect();
    assert_eq!(
        split_blocks(&data, 100, 4),
        vec![block(100, &[0, 1, 2, 3]), block(104, &[4, 5, 6, 7]), block(108, &[8, 9])]
    );
    assert_eq!(split_blocks(&data, 0, 5), vec![block(0, &[0, 1, 2, 3, 4]), block(5, &[5, 6, 7, 8, 9])]);
    assert_eq!(split_blocks(&data, 7, 10), vec![block(7, &data)]);
    assert_eq!(split_blocks(&[], 7, 10), vec![]);
}

#[test]
fn joined_blocks_are_the_data() {
    let data: Vec<u8> = (0..3000).map(|i| (i % 255) as u8).collect();
    let mut joined: Vec<u8> = Vec::new();
    for block in split_blocks(&data, 0x8000_0000, 1024) {
        assert_eq!(block.address as usize, 0x8000_0000 + joined.len());
        joined.extend_from_slice(&block.data);
    }
    assert_eq!(joined, data);
}

#[test]
fn a_plain_image_is_loaded_and_started() {
    let image = vec![5u8; 1025];
    let steps = vec![
        Step::Section { address: 0x8000_0000, size: 1025 },
        Step::Write(block(0x8000_0000, &[5; 1024])),
        Step::Write(block(0x8000_0400, &[5])),
        Step::Boot(0x8000_0000),
    ];
    assert_eq!(load_raw(&image), steps);
    assert_eq!(load_image(&image), Some(Ok(steps)));
}

#[test]
fn an_empty_image_is_still_started() {
    assert_eq!(
        load_image(&vec![]),
        Some(Ok(vec![Step::Section { address: 0x8000_0000, size: 0 }, Step::Boot(0x8000_0000)]))
    );
}

#[test]
fn an_elf_file_is_loaded_by_its_segments() {
    let image = elf_file();
    assert_eq!(
        load_image(&image),
        Some(Ok(vec![
            Step::Elf,
            Step::Section { address: 0x8000_0000, size: 1500 },
            Step::Write(block(0x8000_0000, &image[232..1256])),
            Step::Write(block(0x8000_0400, &image[1256..1732])),
            Step::Section { address: 0x8000_2000, size: 4 },
            Step::Write(block(0x8000_2000, &[9, 8, 7, 6])),
            Step::Boot(0x8000_0010),
        ]))
    );
}

#[test]
fn segments_are_loaded_as_given() {
    let segments = [
        Segment { load: false, address: 0, offset: 900, size: 900 },
        Segment { load: true, address: 0x10, offset: 1, size: 2 },
    ];
    assert_eq!(
        load_elf(&[1, 2, 3, 4], &segments, 0x22),
        vec![
            Step::Elf,
            Step::Section { address: 0x10, size: 2 },
            Step::Write(block(0x10, &[2, 3])),
            Step::Boot(0x22),
        ]
    );
}

#[test]
fn an_elf_file_without_segments_is_only_started() {
    assert_eq!(load_elf(&[], &[], 0x1_0000_0007), vec![Step::Elf, Step::Boot(7)]);
}

#[test]
fn an_elf_file_for_another_machine_is_refused() {
    let mut image = elf_file();
    put(&mut image, 18, &0x3eu16.to_le_bytes());
    assert_eq!(load_image(&image), Some(Err(Error::NotRiscv)));
    // Its program header table is not looked at.
    put(&mut image, 32, &0xffff_ffffu64.to_le_bytes());
    assert_eq!(load_image(&image), Some(Err(Error::NotRiscv)));
}

#[test]
fn a_small_elf_file_takes_no_step() {
    let mut image = elf_file();
    image[4] = 1;
    assert_eq!(load_image(&image), Some(Ok(vec![])));
}

#[test]
fn a_file_that_is_almost_elf_is_a_plain_image() {
    for (at, byte) in [(0usize, 0u8), (3, 0x47), (4, 3)] {
        let mut image = elf_file();
        image[at] = byte;
        assert_eq!(load_image(&image), Some(Ok(load_raw(&image))));
    }
    // The header claims to be longer than the file.
    let mut image = elf_file();
    put(&mut image, 52, &0xffffu16.to_le_bytes());
    assert_eq!(load_image(&image), Some(Ok(load_raw(&image))));
    // The file is shorter than any header.
    let image = elf_file()[..51].to_vec();
    assert_eq!(load_image(&image), Some(Ok(load_raw(&image))));
}

#[test]
fn a_file_with_parts_missing_has_no_answer() {
    // The header is cut before the length that it claims.
    assert_eq!(load_image(&elf_file()[..52].to_vec()), None);
    assert_eq!(load_image(&elf_file()[..53].to_vec()), None);
    // The program header table is not all there.
    assert_eq!(load_image(&elf_file()[..231].to_vec()), None);
    // The last segment is not all there.
    assert_eq!(load_image(&elf_file()[..1735].to_vec()), None);
    // A segment reaches beyond the last address.
    let mut image = elf_file();
    put(&mut image, 64 + 56 + 24, &0xffff_ff00u64.to_le_bytes());
    assert_eq!(load_image(&image), None);
}

#[test]
fn a_header_that_claims_more_than_the_file_is_a_plain_image() {
    for len in 54..64 {
        let image = elf_file()[..len].to_vec();
        assert_eq!(load_image(&image), Some(Ok(load_raw(&image))));
    }
}

#[test]
fn a_short_header_is_read_as_far_as_it_goes() {
    let mut header = elf_file()[..64].to_vec();
    put(&mut header, 52, &54u16.to_le_bytes());
    put(&mut header, 56, &0u16.to_le_bytes());
    for len in 54..58 {
        // The number of program headers is not all there.
        assert_eq!(load_image(&header[..len].to_vec()), None);
    }
    for len in 58..=64 {
        assert_eq!(
            load_image(&header[..len].to_vec()),
            Some(Ok(vec![Step::Elf, Step::Boot(0x8000_0010)]))
        );
    }
    // One program header, which starts inside the header.
    let mut image = header.clone();
    put(&mut image, 56, &1u16.to_le_bytes());
    put(&mut image, 32, &4u64.to_le_bytes());
    assert_eq!(load_image(&image[..59].to_vec()), None);
    assert_eq!(
        load_image(&image[..60].to_vec()),
        Some(Ok(vec![Step::Elf, Step::Boot(0x8000_0010)]))
    );
    // Another machine is refused, whatever follows.
    put(&mut header, 18, &0x3eu16.to_le_bytes());
    for len in 54..=64 {
        assert_eq!(load_image(&header[..len].to_vec()), Some(Err(Error::NotRiscv)));
    }
}

#[test]
fn a_table_need_not_be_aligned() {
    let aligned = elf_file();
    for shift in 1..=8usize {
        let mut image = aligned.clone();
        let at = image.len() + shift;
        image.resize(at, 0);
        image.extend_from_slice(&aligned[64..232]);
        put(&mut image, 32, &(at as u64).to_le_bytes());
        assert_eq!(load_image(&image), load_image(&aligned));
        // One byte of it is missing.
        image.pop();
        assert_eq!(load_image(&image), None);
    }
}

#[test]
fn an_empty_table_may_stand_anywhere() {
    for offset in [0u64, 3, 64, 1736, 1737, u64::MAX] {
        let mut image = elf_file();
        put(&mut image, 32, &offset.to_le_bytes());
        put(&mut image, 56, &0u16.to_le_bytes());
        assert_eq!(load_image(&image), Some(Ok(vec![Step::Elf, Step::Boot(0x8000_0010)])));
    }
}

#[test]
fn sealing_adds_length_and_digest() {
    let mut expected = vec![0, 3, 0, 0, 0, 0x61, 0x62, 0x63];
    assert_eq!(seal_body(b"abc"), expected);
    assert_eq!(seal_with(b"abc", &[1, 2]), vec![0, 3, 0, 0, 0, 0x61, 0x62, 0x63, 1, 2]);
    expected.extend_from_slice(&[
        57, 21, 82, 125, 202, 59, 214, 3, 163, 128, 207, 87, 213, 82, 89, 154, 69, 38, 92, 112, 136, 20,
        55, 192, 148, 47, 141, 154, 79, 158, 53, 30,
    ]);
    assert_eq!(seal(b"abc"), expected);
}

#[test]
fn sealing_nothing_gives_the_digest_of_five_zeros() {
    let mut expected = vec![0; 5];
    expected.extend_from_slice(&[
        136, 85, 80, 138, 173, 225, 110, 197, 115, 210, 30, 106, 72, 93, 253, 10, 118, 36, 8, 92, 26, 20,
        181, 236, 221, 100, 133, 222, 12, 104, 57, 164,
    ]);
    assert_eq!(seal(&[]), expected);
}

#[test]
fn flashing_greets_selects_writes_and_resets() {
    let image = vec![3u8; 65536];
    let sealed = seal(&image);
    assert_eq!(sealed.len(), 65536 + 37);
    let steps = vec![
        Step::Wait(500),
        Step::FlashGreet,
        Step::SelectFlash(K210FlashType::External),
        Step::FlashWrite(block(0, &sealed[..65536])),
        Step::FlashWrite(block(0x1_0000, &sealed[65536..])),
        Step::Reset,
    ];
    assert_eq!(flash_bytes(&sealed), steps);
    assert_eq!(flash_image(&image), steps);
}
