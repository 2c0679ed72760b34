//! The packets of the boot ROM and the in-system programmer: commands sent to
//! the target, and the replies that acknowledge them.
use crate::error::Error;
use crc_any::CRC;
use vstd::prelude::*;

verus! {

/// The status byte of a reply to a command that succeeded.
pub const STATUS_OK: u8 = 0xe0;

/// The four bytes of a number, least significant first.
pub open spec fn le32(x: u32) -> Seq<u8> {
    seq![
        (x % 0x100) as u8,
        (x / 0x100 % 0x100) as u8,
        (x / 0x1_0000 % 0x100) as u8,
        (x / 0x100_0000) as u8,
    ]
}

/// Appends the four bytes of `x`, least significant first.
pub(crate) fn push_le32(bytes: &mut Vec<u8>, x: u32)
    ensures
        final(bytes)@ == old(bytes)@ + le32(x),
{
    let ghost before = bytes@;
    bytes.push((x % 0x100) as u8);
    bytes.push((x / 0x100 % 0x100) as u8);
    bytes.push((x / 0x1_0000 % 0x100) as u8);
    bytes.push((x / 0x100_0000) as u8);
    assert(bytes@ =~= before + le32(x));
}

/// Appends a run of bytes.
pub(crate) fn push_all(bytes: &mut Vec<u8>, more: &[u8])
    ensures
        final(bytes)@ == old(bytes)@ + more@,
{
    let ghost before = bytes@;
    bytes.extend_from_slice(more);
    assert(bytes@ =~= before + more@);
}

/// One bit of a CRC-32 division, by the reflected polynomial.
pub open spec fn crc_bit(c: u32) -> u32 {
    if c & 1 == 1 {
        (c >> 1) ^ 0xedb8_8320
    } else {
        c >> 1
    }
}

/// `n` bits of a CRC-32 division.
pub open spec fn crc_bits(c: u32, n: nat) -> u32
    decreases n,
{
    if n == 0 {
        c
    } else {
        crc_bit(crc_bits(c, (n - 1) as nat))
    }
}

/// The state of a CRC-32 division after a run of bytes, eight bits for each.
pub open spec fn crc_state(bytes: Seq<u8>) -> u32
    decreases bytes.len(),
{
    if bytes.len() == 0 {
        0xffff_ffff
    } else {
        crc_bits(crc_state(bytes.drop_last()) ^ (bytes.last() as u32), 8)
    }
}

/// The CRC-32 checksum of a run of bytes, least significant byte first.
pub open spec fn crc32(bytes: Seq<u8>) -> Seq<u8> {
    le32(crc_state(bytes) ^ 0xffff_ffff)
}

/// `crc_any::CRC::crc32` digests the bytes, and `CRC::get_crc_vec_le` gives
/// the checksum. The crate documents it by its parameters: the reflected
/// polynomial 0xEDB88320, and 0xFFFFFFFF to start with and to invert by.
#[verifier::external_body]
fn checksum(bytes: &[u8]) -> (crc: Vec<u8>)
    ensures
        crc@ == crc32(bytes@),
{
    let mut crc = CRC::crc32();
    crc.digest(bytes);
    crc.get_crc_vec_le()
}

/// What the checksum of a command covers: its two parameters and its data.
pub open spec fn covered(p0: u32, p1: u32, data: Seq<u8>) -> Seq<u8> {
    le32(p0) + le32(p1) + data
}

/// A command packet with the given checksum.
pub open spec fn packet_with(cmd: u8, crc: Seq<u8>, p0: u32, p1: u32, data: Seq<u8>) -> Seq<u8> {
    le32(cmd as u32) + crc + covered(p0, p1, data)
}

/// A command packet: the command, the checksum, the parameters and the data.
pub open spec fn packet_of(cmd: u8, p0: u32, p1: u32, data: Seq<u8>) -> Seq<u8> {
    packet_with(cmd, crc32(covered(p0, p1, data)), p0, p1, data)
}

/// Puts a command packet together, given its checksum.
pub fn assemble_packet(cmd: u8, crc: &[u8], param: [u32; 2], data: &[u8]) -> (packet: Vec<u8>)
    ensures
        packet@ == packet_with(cmd, crc@, param[0], param[1], data@),
{
    let mut packet: Vec<u8> = Vec::new();
    push_le32(&mut packet, cmd as u32);
    push_all(&mut packet, crc);
    push_le32(&mut packet, param[0]);
    push_le32(&mut packet, param[1]);
    push_all(&mut packet, data);
    assert(packet@ =~= packet_with(cmd, crc@, param[0], param[1], data@));
    packet
}

/// Encodes a command with its parameters and data.
pub fn encode_cmd(cmd: u8, param: [u32; 2], data: &[u8]) -> (packet: Result<Vec<u8>, Error>)
    ensures
        packet matches Ok(bytes) && bytes@ == packet_of(cmd, param[0], param[1], data@) && bytes@.len()
            == 16 + data@.len(),
{
    let mut body: Vec<u8> = Vec::new();
    push_le32(&mut body, param[0]);
    push_le32(&mut body, param[1]);
    push_all(&mut body, data);
    assert(body@ =~= covered(param[0], param[1], data@));
    let crc = checksum(body.as_slice());
    Ok(assemble_packet(cmd, crc.as_slice(), param, data))
}

/// The reply that acknowledges a command.
pub open spec fn acknowledges(cmd: u8, response: Seq<u8>) -> bool {
    response == seq![cmd, STATUS_OK]
}

/// Checks that a reply acknowledges the command `cmd`.
pub fn cmd_ok(cmd: u8, response: &[u8]) -> (checked: Result<(), Error>)
    ensures
        checked is Ok <==> acknowledges(cmd, response@),
        checked matches Err(error) ==> error == Error::InvalidResponse,
{
    if response.len() == 2 && response[0] == cmd && response[1] == STATUS_OK {
        assert(response@ =~= seq![cmd, STATUS_OK]);
        Ok(())
    } else {
        Err(Error::InvalidResponse)
    }
}

proof fn lemma_le32_injective(x: u32, y: u32)
    requires
        le32(x) == le32(y),
    ensures
        x == y,
{
    let a = le32(x);
    let b = le32(y);
    assert(a[0] == b[0] && a[1] == b[1] && a[2] == b[2] && a[3] == b[3]);
}

/// A packet tells its command, checksum, parameters and data apart: two
/// commands with the same packet are the same command.
pub proof fn law_packet_unambiguous(
    cmd: u8,
    crc: Seq<u8>,
    p0: u32,
    p1: u32,
    data: Seq<u8>,
    other_cmd: u8,
    other_crc: Seq<u8>,
    other_p0: u32,
    other_p1: u32,
    other_data: Seq<u8>,
)
    requires
        crc.len() == 4,
        other_crc.len() == 4,
        packet_with(cmd, crc, p0, p1, data) == packet_with(
            other_cmd,
            other_crc,
            other_p0,
            other_p1,
            other_data,
        ),
    ensures
        cmd == other_cmd,
        crc == other_crc,
        p0 == other_p0,
        p1 == other_p1,
        data == other_data,
{
    let a = packet_with(cmd, crc, p0, p1, data);
    let b = packet_with(other_cmd, other_crc, other_p0, other_p1, other_data);
    assert(a.subrange(0, 4) =~= le32(cmd as u32) && b.subrange(0, 4) =~= le32(other_cmd as u32));
    assert(a.subrange(4, 8) =~= crc && b.subrange(4, 8) =~= other_crc);
    assert(a.subrange(8, 12) =~= le32(p0) && b.subrange(8, 12) =~= le32(other_p0));
    assert(a.subrange(12, 16) =~= le32(p1) && b.subrange(12, 16) =~= le32(other_p1));
    assert(a.skip(16) =~= data && b.skip(16) =~= other_data);
    lemma_le32_injective(cmd as u32, other_cmd as u32);
    lemma_le32_injective(p0, other_p0);
    lemma_le32_injective(p1, other_p1);
}

/// A reply acknowledges one command at most.
pub proof fn law_reply_acknowledges_one(cmd: u8, other_cmd: u8, response: Seq<u8>)
    requires
        acknowledges(cmd, response),
        acknowledges(other_cmd, response),
    ensures
        cmd == other_cmd,
{
    assert(response[0] == cmd);
    assert(response[0] == other_cmd);
}

/// The number that a run of bytes stands for, least significant first.
pub open spec fn le_value(bytes: Seq<u8>) -> nat
    decreases bytes.len(),
{
    if bytes.len() == 0 {
        0
    } else {
        bytes[0] as nat + 0x100 * le_value(bytes.drop_first())
    }
}

pub(crate) proof fn lemma_le_value_step(bytes: Seq<u8>, from: int, to: int)
    requires
        0 <= from < to <= bytes.len(),
    ensures
        le_value(bytes.subrange(from, to)) == bytes[from] + 0x100 * le_value(bytes.subrange(from + 1, to)),
{
    assert(bytes.subrange(from, to).drop_first() =~= bytes.subrange(from + 1, to));
}

/// A number comes back from its four bytes.
pub proof fn law_number_round_trip(x: u32)
    ensures
        le32(x).len() == 4,
        le_value(le32(x)) == x,
{
    let bytes = le32(x);
    lemma_le_value_step(bytes, 0, 4);
    lemma_le_value_step(bytes, 1, 4);
    lemma_le_value_step(bytes, 2, 4);
    lemma_le_value_step(bytes, 3, 4);
    assert(bytes.subrange(0, 4) =~= bytes);
    assert(bytes.subrange(4, 4) =~= Seq::empty());
}

/// What the target finds in a packet: the command and the two parameters as
/// numbers of four bytes each, the data behind them, and a checksum of all
/// that stands behind the checksum.
pub open spec fn carries(packet: Seq<u8>, cmd: int, p0: int, p1: int, data: Seq<u8>) -> bool {
    &&& packet.len() == 16 + data.len()
    &&& le_value(packet.subrange(0, 4)) == cmd
    &&& packet.subrange(4, 8) == crc32(packet.skip(8))
    &&& le_value(packet.subrange(8, 12)) == p0
    &&& le_value(packet.subrange(12, 16)) == p1
    &&& packet.skip(16) == data
}

/// A packet carries its command, parameters and data, and the checksum of the
/// parameters and the data.
pub proof fn law_packet_carries(cmd: u8, p0: u32, p1: u32, data: Seq<u8>)
    ensures
        carries(packet_of(cmd, p0, p1, data), cmd as int, p0 as int, p1 as int, data),
{
    let packet = packet_of(cmd, p0, p1, data);
    law_number_round_trip(cmd as u32);
    law_number_round_trip(p0);
    law_number_round_trip(p1);
    assert(packet.subrange(0, 4) =~= le32(cmd as u32));
    assert(packet.skip(8) =~= covered(p0, p1, data));
    assert(packet.subrange(4, 8) =~= crc32(covered(p0, p1, data)));
    assert(packet.subrange(8, 12) =~= le32(p0));
    assert(packet.subrange(12, 16) =~= le32(p1));
    assert(packet.skip(16) =~= data);
}

/// A packet that is put together with a given checksum holds the command, the
/// checksum, the parameters and the data, one behind the other.
pub proof fn law_packet_parts(cmd: u8, crc: Seq<u8>, p0: u32, p1: u32, data: Seq<u8>)
    ensures
        ({
            let packet = packet_with(cmd, crc, p0, p1, data);
            let at = 4int + crc.len();
            &&& packet.len() == 12 + crc.len() + data.len()
            &&& le_value(packet.subrange(0, 4)) == cmd
            &&& packet.subrange(4, at) == crc
            &&& le_value(packet.subrange(at, at + 4)) == p0
            &&& le_value(packet.subrange(at + 4, at + 8)) == p1
            &&& packet.skip(at + 8) == data
        }),
{
    let packet = packet_with(cmd, crc, p0, p1, data);
    let at = 4int + crc.len();
    law_number_round_trip(cmd as u32);
    law_number_round_trip(p0);
    law_number_round_trip(p1);
    assert(packet.subrange(0, 4) =~= le32(cmd as u32));
    assert(packet.subrange(4, at) =~= crc);
    assert(packet.subrange(at, at + 4) =~= le32(p0));
    assert(packet.subrange(at + 4, at + 8) =~= le32(p1));
    assert(packet.skip(at + 8) =~= data);
}

/// A reply acknowledges a command where it is two bytes long: the command and
/// the status of success.
pub proof fn law_acknowledgement(cmd: u8, response: Seq<u8>)
    ensures
        acknowledges(cmd, response) <==> response.len() == 2 && response[0] == cmd && response[1] == 0xe0,
{
    if response.len() == 2 && response[0] == cmd && response[1] == 0xe0 {
        assert(response =~= seq![cmd, STATUS_OK]);
    }
}

proof fn lemma_crc_bit_injective(c: u32, d: u32)
    requires
        crc_bit(c) == crc_bit(d),
    ensures
        c == d,
{
    assert((if c & 1 == 1 {
        (c >> 1) ^ 0xedb8_8320
    } else {
        c >> 1
    }) == (if d & 1 == 1 {
        (d >> 1) ^ 0xedb8_8320
    } else {
        d >> 1
    }) ==> c == d) by (bit_vector);
}

proof fn lemma_crc_bits_injective(c: u32, d: u32, n: nat)
    requires
        crc_bits(c, n) == crc_bits(d, n),
    ensures
        c == d,
    decreases n,
{
    if n > 0 {
        lemma_crc_bit_injective(crc_bits(c, (n - 1) as nat), crc_bits(d, (n - 1) as nat));
        lemma_crc_bits_injective(c, d, (n - 1) as nat);
    }
}

proof fn lemma_crc_state_injective(a: Seq<u8>, b: Seq<u8>, rest: Seq<u8>)
    requires
        crc_state(a + rest) == crc_state(b + rest),
    ensures
        crc_state(a) == crc_state(b),
    decreases rest.len(),
{
    if rest.len() == 0 {
        assert(a + rest =~= a && b + rest =~= b);
    } else {
        assert((a + rest).drop_last() =~= a + rest.drop_last());
        assert((b + rest).drop_last() =~= b + rest.drop_last());
        let c = crc_state(a + rest.drop_last());
        let d = crc_state(b + rest.drop_last());
        let last = rest.last() as u32;
        assert((a + rest).last() == rest.last() && (b + rest).last() == rest.last());
        lemma_crc_bits_injective(c ^ last, d ^ last, 8);
        assert(c ^ last == d ^ last ==> c == d) by (bit_vector);
        lemma_crc_state_injective(a, b, rest.drop_last());
    }
}

/// A byte that arrives changed does not pass for the one that was sent:
/// wherever it stands, the checksum differs.
pub proof fn law_checksum_tells_bytes_apart(before: Seq<u8>, x: u8, y: u8, behind: Seq<u8>)
    requires
        x != y,
    ensures
        crc32(before + seq![x] + behind) != crc32(before + seq![y] + behind),
{
    let a = before + seq![x];
    let b = before + seq![y];
    let c = crc_state(a + behind);
    let d = crc_state(b + behind);
    if crc32(a + behind) == crc32(b + behind) {
        lemma_le32_injective(c ^ 0xffff_ffff, d ^ 0xffff_ffff);
        assert(c ^ 0xffff_ffff == d ^ 0xffff_ffff ==> c == d) by (bit_vector);
        lemma_crc_state_injective(a, b, behind);
        assert(a.drop_last() =~= before && b.drop_last() =~= before);
        let s = crc_state(before);
        lemma_crc_bits_injective(s ^ (x as u32), s ^ (y as u32), 8);
        assert(s ^ (x as u32) == s ^ (y as u32) ==> x == y) by (bit_vector);
    }
}

proof fn lemma_crc_byte(c: u32)
    ensures
        c & 0xff == 0xff ==> crc_bits(c, 8) == (c >> 8) ^ 0x2d02_ef8d,
        c & 0xff == 0x72 ==> crc_bits(c, 8) == (c >> 8) ^ 0xbe0b_1010,
        c & 0xff == 0x00 ==> crc_bits(c, 8) == c >> 8,
        c & 0xff == 0xed ==> crc_bits(c, 8) == (c >> 8) ^ 0xdebb_9ec5,
{
    reveal_with_fuel(crc_bits, 9);
    let c1 = crc_bit(c);
    let c2 = crc_bit(c1);
    let c3 = crc_bit(c2);
    let c4 = crc_bit(c3);
    let c5 = crc_bit(c4);
    let c6 = crc_bit(c5);
    let c7 = crc_bit(c6);
    let c8 = crc_bit(c7);
    assert(crc_bits(c, 8) == c8);
    assert((c & 0xff == 0xff ==> c8 == (c >> 8) ^ 0x2d02_ef8d) && (c & 0xff == 0x72 ==> c8 == (c >> 8)
        ^ 0xbe0b_1010) && (c & 0xff == 0x00 ==> c8 == c >> 8) && (c & 0xff == 0xed ==> c8 == (c >> 8)
        ^ 0xdebb_9ec5)) by (bit_vector)
        requires
            c1 == crc_bit(c),
            c2 == crc_bit(c1),
            c3 == crc_bit(c2),
            c4 == crc_bit(c3),
            c5 == crc_bit(c4),
            c6 == crc_bit(c5),
            c7 == crc_bit(c6),
            c8 == crc_bit(c7),
    ;
}

proof fn lemma_crc_push(bytes: Seq<u8>, b: u8)
    ensures
        crc_state(bytes.push(b)) == crc_bits(crc_state(bytes) ^ (b as u32), 8),
{
    assert(bytes.push(b).drop_last() =~= bytes);
}

/// A receiver checks a run of bytes by going on over the checksum behind it:
/// whatever the bytes are, it comes to the same number.
pub proof fn law_checksum_checks_out(bytes: Seq<u8>)
    ensures
        crc32(bytes).len() == 4,
        crc_state(bytes + crc32(bytes)) == 0xdebb_20e3,
{
    let c = crc_state(bytes);
    let n = c ^ 0xffff_ffff;
    let sum = crc32(bytes);
    let t1 = bytes.push(sum[0]);
    let t2 = t1.push(sum[1]);
    let t3 = t2.push(sum[2]);
    let t4 = t3.push(sum[3]);
    assert(bytes + sum =~= t4);
    lemma_crc_push(bytes, sum[0]);
    lemma_crc_push(t1, sum[1]);
    lemma_crc_push(t2, sum[2]);
    lemma_crc_push(t3, sum[3]);
    let s1 = crc_state(t1);
    let s2 = crc_state(t2);
    let s3 = crc_state(t3);
    let b0 = n % 0x100;
    let b1 = n / 0x100 % 0x100;
    let b2 = n / 0x1_0000 % 0x100;
    let b3 = n / 0x100_0000;
    assert(sum[0] as u32 == b0 && sum[1] as u32 == b1 && sum[2] as u32 == b2 && sum[3] as u32 == b3);
    lemma_crc_byte(c ^ b0);
    assert((c ^ b0) & 0xff == 0xff && s1 == ((c ^ b0) >> 8) ^ 0x2d02_ef8d ==> (s1 ^ b1) & 0xff == 0x72)
        by (bit_vector)
        requires
            n == c ^ 0xffff_ffff,
            b0 == n % 0x100,
            b1 == n / 0x100 % 0x100,
    ;
    assert((c ^ b0) & 0xff == 0xff) by (bit_vector)
        requires
            n == c ^ 0xffff_ffff,
            b0 == n % 0x100,
    ;
    lemma_crc_byte(s1 ^ b1);
    assert((s2 ^ b2) & 0xff == 0 && (((s2 ^ b2) >> 8) ^ b3) & 0xff == 0xed && ((((s2 ^ b2) >> 8) ^ b3) >> 8)
        ^ 0xdebb_9ec5 == 0xdebb_20e3) by (bit_vector)
        requires
            n == c ^ 0xffff_ffff,
            b0 == n % 0x100,
            b1 == n / 0x100 % 0x100,
            b2 == n / 0x1_0000 % 0x100,
            b3 == n / 0x100_0000,
            s1 == ((c ^ b0) >> 8) ^ 0x2d02_ef8d,
            s2 == ((s1 ^ b1) >> 8) ^ 0xbe0b_1010,
    ;
    lemma_crc_byte(s2 ^ b2);
    lemma_crc_byte(s3 ^ b3);
}

} // verus!
