//! SLIP frames: how a packet is delimited and escaped on the serial line.
use crate::buffer::{buffer_bytes, contents};
use crate::error::Error;
use bytes::BytesMut;
use vstd::prelude::*;

verus! {

/// Delimits a frame on both sides.
pub const END: u8 = 0xc0;

/// Begins an escape sequence.
pub const ESC: u8 = 0xdb;

/// Follows [`ESC`] in place of an [`END`] in the packet.
pub const ESC_END: u8 = 0xdc;

/// Follows [`ESC`] in place of an [`ESC`] in the packet.
pub const ESC_ESC: u8 = 0xdd;

/// The character `[`, with which the target's log output begins.
pub const LOG_START: u8 = 0x5b;

/// How one byte of a packet is written inside a frame.
pub open spec fn escape_byte(b: u8) -> Seq<u8> {
    if b == END {
        seq![ESC, ESC_END]
    } else if b == ESC {
        seq![ESC, ESC_ESC]
    } else {
        seq![b]
    }
}

/// How a packet is written between the delimiters of its frame.
pub open spec fn escape(packet: Seq<u8>) -> Seq<u8>
    decreases packet.len(),
{
    if packet.len() == 0 {
        Seq::empty()
    } else {
        escape_byte(packet[0]) + escape(packet.drop_first())
    }
}

/// The frame that carries a packet.
pub open spec fn frame(packet: Seq<u8>) -> Seq<u8> {
    seq![END] + escape(packet) + seq![END]
}

/// The position of the first delimiter at or after `from`.
pub open spec fn next_end(s: Seq<u8>, from: int) -> Option<int>
    decreases s.len() - from,
{
    if from >= s.len() {
        None
    } else if s[from] == END {
        Some(from)
    } else {
        next_end(s, from + 1)
    }
}

/// The two bytes that may end an escape sequence.
pub open spec fn is_escape_code(b: u8) -> bool {
    b == ESC_END || b == ESC_ESC
}

/// The body of a frame holds an escape sequence.
pub open spec fn has_escape(body: Seq<u8>) -> bool {
    exists|i: int| 0 <= i < body.len() - 1 && #[trigger] body[i] == ESC && is_escape_code(body[i + 1])
}

/// The body of a frame without the escape codes that it begins with.
pub open spec fn strip_codes(body: Seq<u8>) -> Seq<u8>
    decreases body.len(),
{
    if body.len() > 0 && is_escape_code(body[0]) {
        strip_codes(body.drop_first())
    } else {
        body
    }
}

/// A decoded frame in the model: the packet, and the log text before it.
#[verifier::ext_equal]
pub struct DecodedModel {
    pub item: Seq<u8>,
    pub log: Seq<u8>,
}

/// What decoding a frame that stands at the front of `s` gives, and the bytes
/// that remain, where `log` is the log text that stood before it.
pub open spec fn decode_frame(log: Seq<u8>, s: Seq<u8>) -> (
    Result<Option<DecodedModel>, Error>,
    Seq<u8>,
) {
    if s.len() < 2 {
        (Ok(None), s)
    } else if s[0] != END {
        (Err(Error::InvalidByte), s)
    } else {
        match next_end(s, 1) {
            None => (Ok(None), s),
            Some(end) => {
                let body = s.subrange(1, end);
                if has_escape(body) {
                    (Err(Error::InvalidEscape), s.skip(end + 1))
                } else {
                    (Ok(Some(DecodedModel { item: strip_codes(body), log })), s.skip(end + 1))
                }
            },
        }
    }
}

/// What decoding the received bytes `s` gives, and the bytes that remain.
pub open spec fn decode_bytes(s: Seq<u8>) -> (Result<Option<DecodedModel>, Error>, Seq<u8>) {
    if s[0] == LOG_START {
        match next_end(s, 1) {
            None => (Ok(None), s),
            Some(start) => decode_frame(s.take(start), s.skip(start)),
        }
    } else {
        decode_frame(Seq::empty(), s)
    }
}

proof fn lemma_next_end(s: Seq<u8>, from: int)
    requires
        0 <= from <= s.len(),
    ensures
        match next_end(s, from) {
            Some(end) => {
                &&& from <= end < s.len()
                &&& s[end] == END
                &&& forall|i: int| from <= i < end ==> s[i] != END
            },
            None => forall|i: int| from <= i < s.len() ==> s[i] != END,
        },
    decreases s.len() - from,
{
    if from < s.len() && s[from] != END {
        lemma_next_end(s, from + 1);
    }
}

proof fn lemma_strip_codes_push(body: Seq<u8>, b: u8)
    ensures
        strip_codes(body).len() == 0 && is_escape_code(b) ==> strip_codes(body.push(b)) == Seq::<u8>::empty(),
        !(strip_codes(body).len() == 0 && is_escape_code(b)) ==> strip_codes(body.push(b))
            == strip_codes(body).push(b),
    decreases body.len(),
{
    if body.len() == 0 {
        assert(body.push(b).drop_first() =~= Seq::empty());
        assert(body =~= Seq::empty());
        reveal_with_fuel(strip_codes, 2);
    } else if is_escape_code(body[0]) {
        assert(body.push(b).drop_first() =~= body.drop_first().push(b));
        lemma_strip_codes_push(body.drop_first(), b);
    }
}

proof fn lemma_strip_codes_last(body: Seq<u8>)
    ensures
        strip_codes(body).len() > 0 ==> body.len() > 0 && strip_codes(body).last() == body.last(),
        strip_codes(body).len() == 0 && body.len() > 0 ==> is_escape_code(body.last()),
    decreases body.len(),
{
    if body.len() > 0 && is_escape_code(body[0]) {
        lemma_strip_codes_last(body.drop_first());
    }
}

proof fn lemma_has_escape_push(body: Seq<u8>, b: u8)
    ensures
        has_escape(body.push(b)) <==> has_escape(body) || (body.len() > 0 && body.last() == ESC
            && is_escape_code(b)),
{
    let longer = body.push(b);
    if has_escape(body) {
        let i = choose|i: int| 0 <= i < body.len() - 1 && #[trigger] body[i] == ESC && is_escape_code(body[i + 1]);
        assert(longer[i] == ESC && is_escape_code(longer[i + 1]));
    }
    if body.len() > 0 && body.last() == ESC && is_escape_code(b) {
        assert(longer[body.len() - 1] == ESC && is_escape_code(longer[body.len() - 1 + 1]));
    }
    if has_escape(longer) {
        let i = choose|i: int|
            0 <= i < longer.len() - 1 && #[trigger] longer[i] == ESC && is_escape_code(longer[i + 1]);
        if i < body.len() - 1 {
            assert(body[i] == ESC && is_escape_code(body[i + 1]));
        }
    }
}

proof fn lemma_has_escape_prefix(body: Seq<u8>, n: int)
    requires
        0 <= n <= body.len(),
        has_escape(body.take(n)),
    ensures
        has_escape(body),
{
    let front = body.take(n);
    let i = choose|i: int| 0 <= i < front.len() - 1 && #[trigger] front[i] == ESC && is_escape_code(front[i + 1]);
    assert(body[i] == ESC && is_escape_code(body[i + 1]));
}

/// The text that a run of bytes stands for, with every invalid UTF-8 sequence
/// replaced.
pub uninterp spec fn lossy_text(bytes: Seq<u8>) -> Seq<char>;

/// `String::from_utf8_lossy` decodes UTF-8 and replaces what is not valid; its
/// result is a function of the bytes alone, and on valid UTF-8 it is the text
/// that the bytes encode.
#[verifier::external_body]
fn text_from_utf8_lossy(bytes: &[u8]) -> (text: String)
    ensures
        text@ == lossy_text(bytes@),
        vstd::utf8::valid_utf8(bytes@) ==> text@ == vstd::utf8::decode_utf8(bytes@),
{
    String::from_utf8_lossy(bytes).into_owned()
}

/// A decoded frame: the packet that it carried, and the log text that the
/// target printed before it.
#[derive(Debug, PartialEq, Eq)]
pub struct SlipDecoded {
    pub item: Vec<u8>,
    pub log: Vec<u8>,
}

impl View for SlipDecoded {
    type V = DecodedModel;

    open spec fn view(&self) -> DecodedModel {
        DecodedModel { item: self.item@, log: self.log@ }
    }
}

impl SlipDecoded {
    /// An empty packet without log text.
    pub fn new() -> (decoded: SlipDecoded)
        ensures
            decoded@ == (DecodedModel { item: Seq::empty(), log: Seq::empty() }),
    {
        SlipDecoded { item: Vec::new(), log: Vec::new() }
    }

    /// The packet.
    pub fn get_item(&self) -> (item: &Vec<u8>)
        ensures
            item@ == self@.item,
    {
        &self.item
    }

    /// The log text, for the user to read.
    pub fn get_debug_info(&self) -> (text: String)
        ensures
            text@ == lossy_text(self@.log),
            vstd::utf8::valid_utf8(self@.log) ==> text@ == vstd::utf8::decode_utf8(self@.log),
    {
        text_from_utf8_lossy(self.log.as_slice())
    }
}

/// The model of what a decoder returns.
pub open spec fn outcome_model(outcome: Result<Option<SlipDecoded>, Error>) -> Result<
    Option<DecodedModel>,
    Error,
> {
    match outcome {
        Ok(Some(decoded)) => Ok(Some(decoded@)),
        Ok(None) => Ok(None),
        Err(error) => Err(error),
    }
}

/// The position of the first delimiter behind the first byte.
fn find_end(s: &[u8]) -> (found: Option<usize>)
    requires
        s@.len() > 0,
    ensures
        match found {
            Some(end) => {
                &&& next_end(s@, 1) == Some(end as int)
                &&& 1 <= end < s@.len()
                &&& s@[end as int] == END
                &&& forall|i: int| 1 <= i < end ==> s@[i] != END
            },
            None => next_end(s@, 1) is None,
        },
{
    let mut i: usize = 1;
    while i < s.len()
        invariant
            1 <= i <= s@.len(),
            next_end(s@, 1) == next_end(s@, i as int),
        decreases s@.len() - i,
    {
        if s[i] == END {
            proof {
                lemma_next_end(s@, 1);
            }
            return Some(i);
        }
        i += 1;
    }
    None
}

/// Reads the packet out of a frame, given the frame behind its first delimiter.
fn unescape(tail: &[u8]) -> (packet: Result<Vec<u8>, Error>)
    requires
        tail@.len() > 0,
        tail@.last() == END,
        forall|i: int| 0 <= i < tail@.len() - 1 ==> tail@[i] != END,
    ensures
        packet is Err <==> has_escape(tail@.drop_last()),
        packet matches Err(error) ==> error == Error::InvalidEscape,
        packet matches Ok(bytes) ==> bytes@ == strip_codes(tail@.drop_last()),
{
    let ghost body = tail@.drop_last();
    let mut result: Vec<u8> = Vec::with_capacity(tail.len());
    let mut i: usize = 0;
    assert(body.take(0) =~= Seq::empty());
    while i < tail.len()
        invariant
            i <= tail@.len(),
            tail@.len() > 0,
            body == tail@.drop_last(),
            tail@.last() == END,
            forall|j: int| 0 <= j < tail@.len() - 1 ==> tail@[j] != END,
            i < tail@.len() ==> result@ == strip_codes(body.take(i as int)),
            i < tail@.len() ==> !has_escape(body.take(i as int)),
            i == tail@.len() ==> result@ == strip_codes(body) && !has_escape(body),
        decreases tail@.len() - i,
    {
        let val = tail[i];
        proof {
            if i < tail@.len() - 1 {
                assert(body.take(i + 1) =~= body.take(i as int).push(val));
                lemma_strip_codes_push(body.take(i as int), val);
                lemma_strip_codes_last(body.take(i as int));
                lemma_has_escape_push(body.take(i as int), val);
                if has_escape(body.take(i + 1)) {
                    lemma_has_escape_prefix(body, i + 1);
                }
            } else {
                assert(body.take(i as int) =~= body);
            }
        }
        if val == ESC_END || val == ESC_ESC {
            let len = result.len();
            if len > 0 {
                if result[len - 1] == ESC {
                    return Err(Error::InvalidEscape);
                }
                result.push(val);
            }
        } else if val != END {
            result.push(val);
        }
        i += 1;
    }
    Ok(result)
}

/// The frame codec of the serial line.
#[derive(Debug, Clone, Copy)]
pub struct SlipCodec;

impl SlipCodec {
    /// Takes the next frame out of the received bytes.
    ///
    /// Log text, which begins with `[`, is dropped up to the next delimiter;
    /// it comes back with the frame where the frame is complete. `Ok(None)`
    /// asks for more bytes. A frame that holds an escape sequence is consumed
    /// and refused.
    pub fn decode(&mut self, src: &mut BytesMut) -> (outcome: Result<Option<SlipDecoded>, Error>)
        requires
            buffer_bytes(*old(src)).len() > 0,
        ensures
            outcome_model(outcome) == decode_bytes(buffer_bytes(*old(src))).0,
            buffer_bytes(*final(src)) == decode_bytes(buffer_bytes(*old(src))).1,
    {
        let ghost received = buffer_bytes(*src);
        let mut log: Vec<u8> = Vec::new();
        if contents(src)[0] == LOG_START {
            match find_end(contents(src)) {
                Some(start) => {
                    let text = src.split_to(start);
                    log = vstd::slice::slice_to_vec(contents(&text));
                },
                None => {
                    return Ok(None);
                },
            }
        } else {
            assert(log@ =~= Seq::empty());
        }
        let ghost s = buffer_bytes(*src);
        assert(decode_bytes(received) == decode_frame(log@, s));

        if src.len() < 2 {
            return Ok(None);
        }
        if contents(src)[0] != END {
            return Err(Error::InvalidByte);
        }
        match find_end(contents(src)) {
            Some(end) => {
                let mut taken = src.split_to(end + 1);
                let _ = taken.split_to(1);
                assert(buffer_bytes(taken) =~= s.subrange(1, end as int).push(END));
                assert(buffer_bytes(taken).drop_last() =~= s.subrange(1, end as int));
                match unescape(contents(&taken)) {
                    Ok(item) => Ok(Some(SlipDecoded { item, log })),
                    Err(error) => Err(error),
                }
            },
            None => Ok(None),
        }
    }

    /// Appends the frame that carries `item` to the bytes to be sent.
    pub fn encode(&mut self, item: &[u8], dst: &mut BytesMut) -> (outcome: Result<(), Error>)
        requires
            buffer_bytes(*old(dst)).len() + frame(item@).len() <= isize::MAX / 2,
        ensures
            outcome is Ok,
            buffer_bytes(*final(dst)) == buffer_bytes(*old(dst)) + frame(item@),
    {
        proof {
            lemma_escape_len(item@);
            assert(item@.skip(0) =~= item@);
        }
        let mut buffer: Vec<u8> = Vec::with_capacity(item.len() + 2);
        buffer.push(END);
        let mut i: usize = 0;
        while i < item.len()
            invariant
                i <= item@.len(),
                buffer@ + escape(item@.skip(i as int)) == seq![END] + escape(item@),
            decreases item@.len() - i,
        {
            let b = item[i];
            let ghost before = buffer@;
            if b == END {
                buffer.push(ESC);
                buffer.push(ESC_END);
            } else if b == ESC {
                buffer.push(ESC);
                buffer.push(ESC_ESC);
            } else {
                buffer.push(b);
            }
            proof {
                assert(buffer@ =~= before + escape_byte(b));
                assert(item@.skip(i as int).drop_first() =~= item@.skip(i + 1));
                assert(buffer@ + escape(item@.skip(i + 1)) =~= before + (escape_byte(b) + escape(
                    item@.skip(i + 1),
                )));
            }
            i += 1;
        }
        buffer.push(END);
        assert(buffer@ =~= frame(item@)) by {
            assert(item@.skip(item@.len() as int) =~= Seq::empty());
            assert(buffer@.drop_last() =~= buffer@.drop_last() + escape(Seq::<u8>::empty()));
        }
        dst.extend_from_slice(buffer.as_slice());
        Ok(())
    }
}

proof fn lemma_escape_len(packet: Seq<u8>)
    ensures
        packet.len() <= escape(packet).len() <= 2 * packet.len(),
    decreases packet.len(),
{
    if packet.len() > 0 {
        lemma_escape_len(packet.drop_first());
    }
}

/// A packet that [`SlipCodec::decode`] reads back from its own frame: it needs
/// no escaping, and does not begin with an escape code.
pub open spec fn reads_back(packet: Seq<u8>) -> bool {
    &&& !packet.contains(END)
    &&& !packet.contains(ESC)
    &&& packet.len() > 0 ==> !is_escape_code(packet[0])
}

/// Log text as the target prints it: it begins with `[` and holds no delimiter.
pub open spec fn is_log(text: Seq<u8>) -> bool {
    &&& text.len() > 0
    &&& text[0] == LOG_START
    &&& !text.contains(END)
}

proof fn lemma_escape_plain(packet: Seq<u8>)
    requires
        !packet.contains(END),
        !packet.contains(ESC),
    ensures
        escape(packet) == packet,
    decreases packet.len(),
{
    if packet.len() > 0 {
        assert forall|b: u8| packet.drop_first().contains(b) implies packet.contains(b) by {
            let i = choose|i: int| 0 <= i < packet.drop_first().len() && packet.drop_first()[i] == b;
            assert(packet[i + 1] == b);
        }
        lemma_escape_plain(packet.drop_first());
        assert(packet.contains(packet[0]));
        assert(seq![packet[0]] + packet.drop_first() =~= packet);
    } else {
        assert(packet =~= Seq::empty());
    }
}

proof fn lemma_escape_has_no_end(packet: Seq<u8>)
    ensures
        !escape(packet).contains(END),
    decreases packet.len(),
{
    if packet.len() > 0 {
        lemma_escape_has_no_end(packet.drop_first());
        let head = escape_byte(packet[0]);
        let rest = escape(packet.drop_first());
        assert forall|i: int| 0 <= i < (head + rest).len() implies (head + rest)[i] != END by {
            if i >= head.len() {
                assert(rest.contains(rest[i - head.len()]));
            }
        }
    }
}

proof fn lemma_escape_shows(packet: Seq<u8>)
    requires
        packet.contains(END) || packet.contains(ESC),
    ensures
        has_escape(escape(packet)),
    decreases packet.len(),
{
    let head = escape_byte(packet[0]);
    let rest = escape(packet.drop_first());
    let whole = head + rest;
    if packet[0] == END || packet[0] == ESC {
        assert(whole[0] == ESC && is_escape_code(whole[1]));
    } else {
        if packet.contains(END) {
            let i = choose|i: int| 0 <= i < packet.len() && packet[i] == END;
            assert(packet.drop_first()[i - 1] == END);
        } else {
            let i = choose|i: int| 0 <= i < packet.len() && packet[i] == ESC;
            assert(packet.drop_first()[i - 1] == ESC);
        }
        lemma_escape_shows(packet.drop_first());
        let i = choose|i: int| 0 <= i < rest.len() - 1 && #[trigger] rest[i] == ESC && is_escape_code(rest[i + 1]);
        assert(whole[i + 1] == ESC && is_escape_code(whole[i + 1 + 1]));
    }
}

proof fn lemma_next_end_at(s: Seq<u8>, from: int, end: int)
    requires
        0 <= from <= end < s.len(),
        s[end] == END,
        forall|i: int| from <= i < end ==> s[i] != END,
    ensures
        next_end(s, from) == Some(end),
    decreases end - from,
{
    if from < end {
        lemma_next_end_at(s, from + 1, end);
    }
}

/// The front of the received bytes is the frame of `packet`.
proof fn lemma_decode_frame(log: Seq<u8>, packet: Seq<u8>, more: Seq<u8>)
    ensures
        decode_frame(log, frame(packet) + more) == (
            if has_escape(escape(packet)) {
                Err::<Option<DecodedModel>, Error>(Error::InvalidEscape)
            } else {
                Ok(Some(DecodedModel { item: strip_codes(escape(packet)), log }))
            },
            more,
        ),
{
    let body = escape(packet);
    let s = frame(packet) + more;
    let end = (body.len() + 1) as int;
    lemma_escape_has_no_end(packet);
    assert forall|i: int| 1 <= i < end implies s[i] != END by {
        assert(s[i] == body[i - 1]);
        assert(body.contains(body[i - 1]));
    }
    lemma_next_end_at(s, 1, end);
    assert(s.subrange(1, end) =~= body);
    assert(s.skip(end + 1) =~= more);
}

/// A frame travels intact: decoding the frame of a packet, with anything
/// behind it, gives the packet back and leaves what is behind it. The packet
/// must hold neither a delimiter nor an escape byte, nor begin with an escape
/// code.
pub proof fn law_frame_round_trip(packet: Seq<u8>, more: Seq<u8>)
    requires
        reads_back(packet),
    ensures
        decode_bytes(frame(packet) + more) == (
            Ok::<Option<DecodedModel>, Error>(Some(DecodedModel { item: packet, log: Seq::empty() })),
            more,
        ),
{
    lemma_decode_frame(Seq::empty(), packet, more);
    lemma_escape_plain(packet);
    lemma_plain_has_no_escape(packet);
}

proof fn lemma_plain_has_no_escape(packet: Seq<u8>)
    requires
        !packet.contains(ESC),
    ensures
        !has_escape(packet),
{
    if has_escape(packet) {
        let i = choose|i: int|
            0 <= i < packet.len() - 1 && #[trigger] packet[i] == ESC && is_escape_code(packet[i + 1]);
        assert(packet.contains(packet[i]));
    }
}

/// No other packet comes back from its frame: one that holds a delimiter or an
/// escape byte is refused, whatever is behind its frame, and one that begins
/// with escape codes comes back without them.
pub proof fn law_frame_not_read_back(packet: Seq<u8>, more: Seq<u8>)
    requires
        !reads_back(packet),
    ensures
        packet.contains(END) || packet.contains(ESC) ==> decode_bytes(frame(packet) + more) == (
            Err::<Option<DecodedModel>, Error>(Error::InvalidEscape),
            more,
        ),
        !packet.contains(END) && !packet.contains(ESC) ==> decode_bytes(frame(packet) + more) == (
            Ok::<Option<DecodedModel>, Error>(
                Some(DecodedModel { item: strip_codes(packet), log: Seq::empty() }),
            ),
            more,
        ) && strip_codes(packet).len() < packet.len(),
{
    lemma_decode_frame(Seq::empty(), packet, more);
    if packet.contains(END) || packet.contains(ESC) {
        lemma_escape_shows(packet);
    } else {
        lemma_escape_plain(packet);
        lemma_plain_has_no_escape(packet);
        lemma_strip_codes_len(packet.drop_first());
    }
}

proof fn lemma_strip_codes_len(body: Seq<u8>)
    ensures
        strip_codes(body).len() <= body.len(),
    decreases body.len(),
{
    if body.len() > 0 && is_escape_code(body[0]) {
        lemma_strip_codes_len(body.drop_first());
    }
}

/// Log text in front of a frame changes nothing of what the frame carries, and
/// is handed out with it.
pub proof fn law_log_before_frame(log: Seq<u8>, packet: Seq<u8>, more: Seq<u8>)
    requires
        is_log(log),
    ensures
        decode_bytes(log + frame(packet) + more) == (
            match decode_bytes(frame(packet) + more).0 {
                Ok(Some(decoded)) => Ok(Some(DecodedModel { item: decoded.item, log })),
                other => other,
            },
            decode_bytes(frame(packet) + more).1,
        ),
{
    assert(log + frame(packet) + more =~= log + (frame(packet) + more));
    law_log_before_delimiter(log, frame(packet) + more);
}

/// Log text in front of a delimiter is handed out with whatever the delimiter
/// begins, be it a whole frame, the part of one or none, and changes nothing
/// else.
pub proof fn law_log_before_delimiter(log: Seq<u8>, f: Seq<u8>)
    requires
        is_log(log),
        f.len() > 0,
        f[0] == END,
    ensures
        decode_bytes(log + f) == decode_frame(log, f),
        decode_bytes(f) == decode_frame(Seq::empty(), f),
        decode_frame(log, f).1 == decode_frame(Seq::empty(), f).1,
        decode_frame(log, f).0 == (match decode_frame(Seq::empty(), f).0 {
            Ok(Some(decoded)) => Ok(Some(DecodedModel { item: decoded.item, log })),
            other => other,
        }),
{
    let s = log + f;
    assert forall|i: int| 1 <= i < log.len() implies s[i] != END by {
        assert(log.contains(log[i]));
    }
    lemma_next_end_at(s, 1, log.len() as int);
    assert(s.take(log.len() as int) =~= log);
    assert(s.skip(log.len() as int) =~= f);
}

/// A delimiter occurs in a frame at its two ends and nowhere else.
pub proof fn law_frame_delimited(packet: Seq<u8>)
    ensures
        frame(packet).len() >= 2,
        forall|i: int|
            0 <= i < frame(packet).len() ==> (#[trigger] frame(packet)[i] == END <==> i == 0 || i
                == frame(packet).len() - 1),
{
    lemma_escape_has_no_end(packet);
    let body = escape(packet);
    assert forall|i: int| 0 <= i < frame(packet).len() implies (#[trigger] frame(packet)[i] == END <==> i == 0
        || i == frame(packet).len() - 1) by {
        if 0 < i < frame(packet).len() - 1 {
            assert(body.contains(body[i - 1]));
        }
    }
}

proof fn lemma_escape_injective(a: Seq<u8>, b: Seq<u8>)
    requires
        escape(a) == escape(b),
    ensures
        a == b,
    decreases a.len(),
{
    lemma_escape_len(a);
    lemma_escape_len(b);
    if a.len() == 0 || b.len() == 0 {
        assert(a =~= b);
    } else {
        let x = escape(a);
        let y = escape(b);
        let head_a = escape_byte(a[0]);
        let head_b = escape_byte(b[0]);
        assert(x[0] == head_a[0] && y[0] == head_b[0]);
        if x[0] == ESC {
            assert(x[1] == head_a[1] && y[1] == head_b[1]);
        }
        assert(a[0] == b[0]);
        assert(x.skip(head_a.len() as int) =~= escape(a.drop_first()));
        assert(y.skip(head_b.len() as int) =~= escape(b.drop_first()));
        lemma_escape_injective(a.drop_first(), b.drop_first());
        assert(a =~= seq![a[0]] + a.drop_first());
        assert(b =~= seq![b[0]] + b.drop_first());
    }
}

/// Two packets never share a frame.
pub proof fn law_frame_unambiguous(a: Seq<u8>, b: Seq<u8>)
    requires
        frame(a) == frame(b),
    ensures
        a == b,
{
    assert(frame(a).subrange(1, frame(a).len() - 1) =~= escape(a));
    assert(frame(b).subrange(1, frame(b).len() - 1) =~= escape(b));
    lemma_escape_injective(a, b);
}

/// Asking for more bytes drops log text at most: what remains is the end of
/// what was received, and what went is empty or log text.
pub proof fn law_waiting_keeps_frames(s: Seq<u8>)
    requires
        s.len() > 0,
        decode_bytes(s).0 == Ok::<Option<DecodedModel>, Error>(None),
    ensures
        exists|n: int|
            0 <= n < s.len() && decode_bytes(s).1 == #[trigger] s.skip(n) && (n == 0 || is_log(s.take(n))),
{
    lemma_next_end(s, 1);
    assert(s.skip(0) =~= s);
    if s[0] == LOG_START && next_end(s, 1) is Some {
        let start = next_end(s, 1)->0;
        assert(decode_bytes(s).1 == s.skip(start));
        assert(!s.take(start).contains(END));
    } else {
        assert(decode_bytes(s).1 == s.skip(0));
    }
}

/// A frame that arrives in two parts decodes like one that arrives at once:
/// where `s` asks for more, decoding what remains of `s` with `more` behind it
/// gives the same packet or error, and leaves the same bytes, as decoding `s`
/// with `more` behind it.
pub proof fn law_decode_resumes(s: Seq<u8>, more: Seq<u8>)
    requires
        s.len() > 0,
        decode_bytes(s).0 == Ok::<Option<DecodedModel>, Error>(None),
    ensures
        decode_bytes(decode_bytes(s).1 + more).1 == decode_bytes(s + more).1,
        match (decode_bytes(decode_bytes(s).1 + more).0, decode_bytes(s + more).0) {
            (Ok(Some(a)), Ok(Some(b))) => a.item == b.item,
            (Ok(None), Ok(None)) => true,
            (Err(a), Err(b)) => a == b,
            _ => false,
        },
{
    lemma_next_end(s, 1);
    if s[0] == LOG_START && next_end(s, 1) is Some {
        let start = next_end(s, 1)->0;
        lemma_next_end_at(s + more, 1, start);
        assert((s + more).skip(start) =~= s.skip(start) + more);
    }
}

/// What a SLIP receiver reads between two delimiters: the escape byte and the
/// code behind it stand for one byte, every other byte for itself. An escape
/// byte with anything else behind it means nothing.
pub open spec fn slip_read(inside: Seq<u8>) -> Option<Seq<u8>>
    decreases inside.len(),
{
    if inside.len() == 0 {
        Some(Seq::empty())
    } else if inside[0] != 0xdb {
        match slip_read(inside.skip(1)) {
            Some(rest) => Some(seq![inside[0]] + rest),
            None => None,
        }
    } else if inside.len() >= 2 && (inside[1] == 0xdc || inside[1] == 0xdd) {
        let byte: u8 = if inside[1] == 0xdc {
            0xc0
        } else {
            0xdb
        };
        match slip_read(inside.skip(2)) {
            Some(rest) => Some(seq![byte] + rest),
            None => None,
        }
    } else {
        None
    }
}

proof fn lemma_receiver_reads_escaped(packet: Seq<u8>)
    ensures
        slip_read(escape(packet)) == Some(packet),
    decreases packet.len(),
{
    if packet.len() == 0 {
        assert(packet =~= Seq::empty());
    } else {
        let rest = packet.drop_first();
        let inside = escape(packet);
        lemma_receiver_reads_escaped(rest);
        if packet[0] == END || packet[0] == ESC {
            assert(inside.skip(2) =~= escape(rest));
        } else {
            assert(inside.skip(1) =~= escape(rest));
        }
        assert(seq![packet[0]] + rest =~= packet);
    }
}

/// A receiver gets every packet that is sent, delimiters and escape bytes in
/// it too: the frame stands between two delimiters, holds no other, and what a
/// SLIP receiver reads between them is the packet.
pub proof fn law_receiver_reads_packet(packet: Seq<u8>)
    ensures
        frame(packet).len() >= 2,
        frame(packet)[0] == 0xc0,
        frame(packet).last() == 0xc0,
        forall|i: int| 0 < i < frame(packet).len() - 1 ==> frame(packet)[i] != 0xc0,
        slip_read(frame(packet).subrange(1, frame(packet).len() - 1)) == Some(packet),
{
    law_frame_delimited(packet);
    lemma_receiver_reads_escaped(packet);
    assert(frame(packet).subrange(1, frame(packet).len() - 1) =~= escape(packet));
}

proof fn lemma_strip_codes_from(body: Seq<u8>, from: int)
    requires
        0 <= from <= body.len(),
        forall|i: int| 0 <= i < from ==> body[i] == 0xdc || body[i] == 0xdd,
        from < body.len() ==> body[from] != 0xdc && body[from] != 0xdd,
    ensures
        strip_codes(body) == body.skip(from),
    decreases from,
{
    if from == 0 {
        assert(body.skip(0) =~= body);
    } else {
        let rest = body.drop_first();
        assert forall|i: int| 0 <= i < from - 1 implies rest[i] == 0xdc || rest[i] == 0xdd by {
            assert(rest[i] == body[i + 1]);
        }
        lemma_strip_codes_from(rest, from - 1);
        assert(rest.skip(from - 1) =~= body.skip(from));
    }
}

/// A frame that is all there is taken out of the received bytes, with the log
/// text before it, and what is behind it stays. It is refused where the escape
/// byte with a code behind it stands in it. Otherwise the packet is what
/// stands between the delimiters, from the first byte on that is no code; the
/// log text is handed out with it.
pub proof fn law_decode_takes_frame(log: Seq<u8>, body: Seq<u8>, more: Seq<u8>, from: int)
    requires
        log.len() > 0 ==> log[0] == 0x5b,
        forall|i: int| 0 <= i < log.len() ==> log[i] != 0xc0,
        forall|i: int| 0 <= i < body.len() ==> body[i] != 0xc0,
        0 <= from <= body.len(),
        forall|i: int| 0 <= i < from ==> body[i] == 0xdc || body[i] == 0xdd,
        from < body.len() ==> body[from] != 0xdc && body[from] != 0xdd,
    ensures
        decode_bytes(log + seq![0xc0u8] + body + seq![0xc0u8] + more).1 == more,
        (exists|i: int|
            0 <= i < body.len() - 1 && #[trigger] body[i] == 0xdb && (body[i + 1] == 0xdc || body[i + 1]
                == 0xdd)) ==> decode_bytes(log + seq![0xc0u8] + body + seq![0xc0u8] + more).0 == Err::<
            Option<DecodedModel>,
            Error,
        >(Error::InvalidEscape),
        (forall|i: int|
            0 <= i < body.len() - 1 && #[trigger] body[i] == 0xdb ==> body[i + 1] != 0xdc && body[i + 1]
                != 0xdd) ==> decode_bytes(log + seq![0xc0u8] + body + seq![0xc0u8] + more).0 == Ok::<
            Option<DecodedModel>,
            Error,
        >(Some(DecodedModel { item: body.skip(from), log })),
{
    let f = seq![0xc0u8] + body + seq![0xc0u8] + more;
    let s = log + seq![0xc0u8] + body + seq![0xc0u8] + more;
    let end = (body.len() + 1) as int;
    assert(s =~= log + f);
    assert forall|i: int| 1 <= i < end implies f[i] != END by {
        assert(f[i] == body[i - 1]);
    }
    lemma_next_end_at(f, 1, end);
    assert(f.subrange(1, end) =~= body);
    assert(f.skip(end + 1) =~= more);
    lemma_strip_codes_from(body, from);
    if log.len() > 0 {
        assert(!log.contains(END));
        law_log_before_delimiter(log, f);
    } else {
        assert(s =~= f);
        assert(log =~= Seq::empty());
    }
    if has_escape(body) {
        let i = choose|i: int| 0 <= i < body.len() - 1 && #[trigger] body[i] == ESC && is_escape_code(body[i + 1]);
        assert(body[i] == 0xdb);
    }
}

/// Where the delimiter that ends a frame has not arrived, more bytes are asked
/// for. Of what has arrived only the log text before the frame is dropped;
/// log text alone stays.
pub proof fn law_decode_waits_for_frame(log: Seq<u8>, rest: Seq<u8>)
    requires
        log.len() > 0 ==> log[0] == 0x5b,
        forall|i: int| 0 <= i < log.len() ==> log[i] != 0xc0,
        forall|i: int| 0 <= i < rest.len() ==> rest[i] != 0xc0,
    ensures
        decode_bytes(log + seq![0xc0u8] + rest) == (
            Ok::<Option<DecodedModel>, Error>(None),
            seq![0xc0u8] + rest,
        ),
        log.len() > 0 ==> decode_bytes(log) == (Ok::<Option<DecodedModel>, Error>(None), log),
{
    let f = seq![0xc0u8] + rest;
    let s = log + seq![0xc0u8] + rest;
    assert(s =~= log + f);
    lemma_next_end(f, 1);
    if log.len() > 0 {
        lemma_next_end(log, 1);
        assert(!log.contains(END));
        law_log_before_delimiter(log, f);
    } else {
        assert(s =~= f);
    }
}

/// Received bytes that begin neither with a delimiter nor with log text are
/// refused, and stay; a single byte is not judged yet.
pub proof fn law_decode_refuses_stray_bytes(s: Seq<u8>)
    requires
        s.len() > 0,
        s[0] != 0xc0,
        s[0] != 0x5b,
    ensures
        decode_bytes(s).1 == s,
        s.len() == 1 ==> decode_bytes(s).0 == Ok::<Option<DecodedModel>, Error>(None),
        s.len() > 1 ==> decode_bytes(s).0 == Err::<Option<DecodedModel>, Error>(Error::InvalidByte),
{
}

/// The model of a decoded frame holds the bytes of its packet and its log text,
/// and the model of a decoder's result tells what the decoder returned.
pub proof fn law_decoded_model(decoded: SlipDecoded, error: Error)
    ensures
        decoded@.item == decoded.item@,
        decoded@.log == decoded.log@,
        outcome_model(Ok(Some(decoded))) == Ok::<Option<DecodedModel>, Error>(Some(decoded@)),
        outcome_model(Ok(None)) == Ok::<Option<DecodedModel>, Error>(None),
        outcome_model(Err(error)) == Err::<Option<DecodedModel>, Error>(error),
{
}

} // verus!
