use k210_flash::error::Error;
use k210_flash::packet::{assemble_packet, cmd_ok, encode_cmd};
use k210_flash::rom_cmd::{Action, Event, K210FlashType, K210RomCmd, LineStep};
use k210_flash::slip::SlipDecoded;
use k210_flash::steps::{Block, Step};

fn reply(item: &[u8], log: &str) -> Event {
    Event::Reply(SlipDecoded { item: item.to_vec(), log: log.as_bytes().to_vec() })
}

fn greeting_packet(cmd: u8) -> Vec<u8> {
    vec![cmd, 0, 0, 0, 0x69, 0xdf, 0x22, 0x65, 0, 0, 0, 0, 0, 0, 0, 0]
}

#[test]
fn packets_carry_the_checksum() {
    // The parameters and the data spell "123456789".
    let packet = encode_cmd(0xc3, [0x3433_3231, 0x3837_3635], b"9").unwrap();
    assert_eq!(
        packet,
        vec![
            0xc3, 0, 0, 0, 0x26, 0x39, 0xf4, 0xcb, 0x31, 0x32, 0x33, 0x34, 0x35, 0x36, 0x37, 0x38,
            0x39
        ]
    );
}

/// A checksum computed bit by bit.
fn crc_by_bits(bytes: &[u8]) -> u32 {
    let mut c: u32 = 0xffff_ffff;
    for b in bytes {
        c ^= *b as u32;
        for _ in 0..8 {
            c = if c & 1 == 1 { (c >> 1) ^ 0xedb8_8320 } else { c >> 1 };
        }
    }
    c ^ 0xffff_ffff
}

#[test]
fn the_checksum_is_crc32_for_every_byte() {
    for b in 0..=255u8 {
        for data in [vec![b], vec![b; 3], vec![b, 0x55, 255 - b]] {
            let packet = encode_cmd(0xd4, [b as u32, 0x0102_0304], &data).unwrap();
            let crc = crc_by_bits(&packet[8..]);
            assert_eq!(packet[4..8].to_vec(), crc.to_le_bytes().to_vec());
        }
    }
    assert_eq!(crc_by_bits(b"123456789"), 0xcbf4_3926);
}

#[test]
fn packets_without_data_hold_sixteen_bytes() {
    assert_eq!(encode_cmd(0xc2, [0, 0], &[]).unwrap(), greeting_packet(0xc2));
}

#[test]
fn packets_are_assembled_in_order() {
    assert_eq!(
        assemble_packet(1, &[2, 3, 4, 5], [0x0908_0706, 0x0d0c_0b0a], &[14]),
        vec![1, 0, 0, 0, 2, 3, 4, 5, 6, 7, 8, 9, 10, 11, 12, 13, 14]
    );
}

#[test]
fn replies_acknowledge_their_command() {
    assert_eq!(cmd_ok(0xc2, &[0xc2, 0xe0]), Ok(()));
    assert_eq!(cmd_ok(0xc2, &[0xc3, 0xe0]), Err(Error::InvalidResponse));
    assert_eq!(cmd_ok(0xc2, &[0xc2, 0xe1]), Err(Error::InvalidResponse));
    assert_eq!(cmd_ok(0xc2, &[0xc2, 0xe0, 0]), Err(Error::InvalidResponse));
    assert_eq!(cmd_ok(0xc2, &[0xc2]), Err(Error::InvalidResponse));
    assert_eq!(cmd_ok(0xc2, &[]), Err(Error::InvalidResponse));
}

#[test]
fn reset_pulses_the_reset_line() {
    assert_eq!(
        K210RomCmd::reset_target(),
        vec![
            LineStep::Dtr(false),
            LineStep::Delay(100),
            LineStep::Dtr(true),
            LineStep::Delay(100),
            LineStep::Dtr(false),
        ]
    );
}

#[test]
fn isp_mode_holds_the_boot_line_during_reset() {
    assert_eq!(
        K210RomCmd::target_isp_mode(),
        vec![
            LineStep::Rts(false),
            LineStep::Delay(100),
            LineStep::Rts(true),
            LineStep::Dtr(false),
            LineStep::Delay(100),
            LineStep::Dtr(true),
            LineStep::Delay(100),
            LineStep::Dtr(false),
            LineStep::Delay(100),
            LineStep::Rts(false),
        ]
    );
}

#[test]
fn greeting_ends_with_the_first_acknowledgement() {
    let mut rom = K210RomCmd::new();
    assert_eq!(rom.greet(), Action::Lines(K210RomCmd::target_isp_mode()));
    assert_eq!(rom.advance(Event::LinesDone), Action::Send(greeting_packet(0xc2)));
    assert_eq!(rom.advance(Event::Sent), Action::Await(500));
    assert_eq!(rom.advance(Event::TimedOut), Action::Lines(K210RomCmd::target_isp_mode()));
    assert_eq!(rom.advance(Event::LinesDone), Action::Send(greeting_packet(0xc2)));
    assert_eq!(rom.advance(Event::SendFailed), Action::Lines(K210RomCmd::target_isp_mode()));
    assert_eq!(rom.advance(Event::LinesDone), Action::Send(greeting_packet(0xc2)));
    assert_eq!(rom.advance(Event::Sent), Action::Await(500));
    assert_eq!(rom.advance(reply(&[0xc2, 0xe0], "[hi]")), Action::Finish(Ok("[hi]".to_string())));
}

#[test]
fn greeting_gives_up_after_fifteen_attempts() {
    let mut rom = K210RomCmd::new();
    let mut action = rom.flash_greet();
    for n in 0..15 {
        assert_eq!(action, Action::Send(greeting_packet(0xd2)));
        assert_eq!(rom.advance(Event::Sent), Action::Await(500));
        action = match n % 4 {
            0 => rom.advance(Event::TimedOut),
            1 => rom.advance(Event::Closed),
            2 => rom.advance(Event::ReplyFailed(Error::InvalidByte)),
            _ => rom.advance(reply(&[0xd2, 0xe1], "")),
        };
    }
    assert_eq!(action, Action::Finish(Err(Error::Timeout)));
}

#[test]
fn greeting_may_succeed_at_the_last_attempt() {
    let mut rom = K210RomCmd::new();
    rom.flash_greet();
    for _ in 0..14 {
        rom.advance(Event::SendFailed);
    }
    rom.advance(Event::Sent);
    assert_eq!(rom.advance(reply(&[0xd2, 0xe0], "")), Action::Finish(Ok("".to_string())));
}

#[test]
fn memory_write_sends_address_length_and_data() {
    let mut rom = K210RomCmd::new();
    assert_eq!(
        rom.memory_write(0x8000_0000, &[1, 2, 3]),
        Action::Send(vec![
            0xc3, 0, 0, 0, 0xa4, 0x77, 0xa9, 0xa3, 0, 0, 0, 0x80, 3, 0, 0, 0, 1, 2, 3
        ])
    );
    assert_eq!(rom.advance(Event::Sent), Action::Await(500));
    assert_eq!(rom.advance(reply(&[0xc3, 0xe0], "x")), Action::Finish(Ok("x".to_string())));
}

#[test]
fn a_command_reports_why_it_failed() {
    let cases = vec![
        (reply(&[0xc3, 0xe2], ""), Error::InvalidResponse),
        (Event::Closed, Error::InvalidResponse),
        (Event::TimedOut, Error::Timeout),
        (Event::ReplyFailed(Error::InvalidEscape), Error::InvalidEscape),
    ];
    for (event, error) in cases {
        let mut rom = K210RomCmd::new();
        rom.memory_write(0, &[]);
        rom.advance(Event::Sent);
        assert_eq!(rom.advance(event), Action::Finish(Err(error)));
    }
    let mut rom = K210RomCmd::new();
    rom.memory_write(0, &[]);
    assert_eq!(rom.advance(Event::SendFailed), Action::Finish(Err(Error::Io)));
}

#[test]
fn memory_boot_expects_no_reply() {
    let mut rom = K210RomCmd::new();
    assert_eq!(
        rom.memory_boot(0x8000_0000),
        Action::Send(vec![0xc5, 0, 0, 0, 0xfb, 0x6f, 0xc4, 0xd4, 0, 0, 0, 0x80, 0, 0, 0, 0])
    );
    assert_eq!(rom.advance(Event::Sent), Action::Finish(Ok("".to_string())));
    rom.memory_boot(0);
    assert_eq!(rom.advance(Event::SendFailed), Action::Finish(Err(Error::Io)));
}

#[test]
fn flash_type_is_sent_as_a_number() {
    let mut rom = K210RomCmd::new();
    assert_eq!(
        rom.select_flash_type(K210FlashType::External),
        Action::Send(vec![0xd7, 0, 0, 0, 0xf7, 0xdf, 0x88, 0xa9, 1, 0, 0, 0, 0, 0, 0, 0])
    );
    assert_eq!(rom.advance(Event::Sent), Action::Await(500));
    assert_eq!(K210FlashType::OnChip.code(), 0);
    assert_eq!(K210FlashType::External.code(), 1);
}

#[test]
fn flash_write_fills_up_the_block() {
    let mut rom = K210RomCmd::new();
    let packet = match rom.flash_write(0x1_0000, &[7]) {
        Action::Send(packet) => packet,
        _ => panic!("nothing sent"),
    };
    assert_eq!(packet.len(), 16 + 65536);
    assert_eq!(
        packet[..18].to_vec(),
        vec![0xd4, 0, 0, 0, 0x42, 0x42, 0xe6, 0x7f, 0, 0, 1, 0, 0, 0, 1, 0, 7, 0]
    );
    assert_eq!(rom.advance(Event::Sent), Action::Await(3000));
    assert_eq!(rom.advance(reply(&[0xd4, 0xe0], "")), Action::Finish(Ok("".to_string())));
}

#[test]
fn steps_are_performed_by_their_commands() {
    let block = |data: &[u8]| Block { address: 0x20, data: data.to_vec() };
    let mut a = K210RomCmd::new();
    let mut b = K210RomCmd::new();
    assert_eq!(a.perform(&Step::Write(block(&[1]))), Some(b.memory_write(0x20, &[1])));
    assert_eq!(a.perform(&Step::Boot(0x30)), Some(b.memory_boot(0x30)));
    assert_eq!(a.perform(&Step::FlashGreet), Some(b.flash_greet()));
    assert_eq!(
        a.perform(&Step::SelectFlash(K210FlashType::External)),
        Some(b.select_flash_type(K210FlashType::External))
    );
    assert_eq!(a.perform(&Step::FlashWrite(block(&[2]))), Some(b.flash_write(0x20, &[2])));
    assert_eq!(a.advance(Event::Sent), Action::Await(3000));
}

#[test]
fn other_steps_take_no_command() {
    let mut rom = K210RomCmd::new();
    rom.memory_boot(0);
    assert_eq!(rom.perform(&Step::Elf), None);
    assert_eq!(rom.perform(&Step::Section { address: 0, size: 1 }), None);
    assert_eq!(rom.perform(&Step::Wait(500)), None);
    assert_eq!(rom.perform(&Step::Reset), None);
    // The command under way goes on.
    assert_eq!(rom.advance(Event::Sent), Action::Finish(Ok("".to_string())));
}

#[test]
fn flash_write_cuts_what_is_too_long() {
    let mut rom = K210RomCmd::new();
    let packet = match rom.flash_write(0, &vec![9; 65540]) {
        Action::Send(packet) => packet,
        _ => panic!("nothing sent"),
    };
    assert_eq!(packet.len(), 16 + 65536);
    assert_eq!(packet[12..16].to_vec(), vec![0, 0, 1, 0]);
}
