//! The commands of the target, each as an exchange that the caller performs
//! step by step.
//!
//! [`K210RomCmd`] says what to do next on the serial line (an [`Action`]); the
//! caller does it and reports what happened (an [`Event`]), until the command
//! is finished.
use crate::error::Error;
use crate::packet::{
    acknowledges, carries, cmd_ok, encode_cmd, law_acknowledgement, law_packet_carries, packet_of,
    STATUS_OK,
};
use crate::slip::{
    decode_bytes, frame, is_escape_code, law_frame_round_trip, lossy_text, reads_back, DecodedModel,
    SlipDecoded, END, ESC,
};
use crate::steps::{BlockModel, Step, StepModel};
use vstd::prelude::*;

verus! {

/// The speed of the serial line.
pub const BAUD_RATE: u32 = 115200;

/// Greets the boot ROM.
pub const CMD_GREET: u8 = 0xc2;

/// Writes a block to memory.
pub const CMD_MEMORY_WRITE: u8 = 0xc3;

/// Starts the program in memory.
pub const CMD_MEMORY_BOOT: u8 = 0xc5;

/// Greets the in-system programmer.
pub const CMD_FLASH_GREET: u8 = 0xd2;

/// Writes a block to flash.
pub const CMD_FLASH_WRITE: u8 = 0xd4;

/// Selects the flash chip.
pub const CMD_SELECT_FLASH: u8 = 0xd7;

/// How often a greeting is tried.
pub const GREETING_ATTEMPTS: u32 = 15;

/// How long most replies may take, in milliseconds.
pub const REPLY_MS: u64 = 500;

/// How long the reply to a flash write may take, in milliseconds.
pub const FLASH_REPLY_MS: u64 = 3000;

/// How long a control line is held, in milliseconds.
pub const LINE_MS: u64 = 100;

/// The size of a flash block: sixteen sectors.
pub const FLASH_BLOCK: usize = 65536;

/// The flash chip that the programmer writes to.
#[derive(Debug, Clone, Copy, PartialEq, Eq, Structural)]
pub enum K210FlashType {
    OnChip,
    External,
}

impl K210FlashType {
    /// The number by which the programmer knows each chip.
    pub open spec fn number(self) -> u32 {
        match self {
            K210FlashType::OnChip => 0,
            K210FlashType::External => 1,
        }
    }

    /// The number by which the programmer knows this chip.
    pub fn code(self) -> (code: u32)
        ensures
            code == self.number(),
    {
        match self {
            K210FlashType::OnChip => 0,
            K210FlashType::External => 1,
        }
    }
}

/// One step in driving the control lines of the serial line.
#[derive(Debug, Clone, Copy, PartialEq, Eq, Structural)]
pub enum LineStep {
    /// Set the data-terminal-ready line, which resets the target.
    Dtr(bool),
    /// Set the request-to-send line, which selects the boot mode.
    Rts(bool),
    /// Wait, in milliseconds.
    Delay(u64),
}

/// The pulse on the reset line that restarts the target.
pub open spec fn reset_steps() -> Seq<LineStep> {
    seq![
        LineStep::Dtr(false),
        LineStep::Delay(LINE_MS),
        LineStep::Dtr(true),
        LineStep::Delay(LINE_MS),
        LineStep::Dtr(false),
    ]
}

/// The restart of the target with the boot-mode line held.
pub open spec fn isp_steps() -> Seq<LineStep> {
    seq![LineStep::Rts(false), LineStep::Delay(LINE_MS), LineStep::Rts(true)] + reset_steps() + seq![
        LineStep::Delay(LINE_MS),
        LineStep::Rts(false),
    ]
}

/// How a command proceeds after its packet is sent.
#[derive(Debug, Clone, Copy, PartialEq, Eq, Structural)]
pub enum Kind {
    /// The target acknowledges the command within the given milliseconds.
    Reply(u64),
    /// The target does not answer.
    NoReply,
    /// The command is tried anew until it is acknowledged, `left` times more
    /// at most; with `isp`, each attempt begins by restarting the target.
    Greeting { isp: bool, left: u32 },
}

/// What a command waits for.
#[derive(Debug, Clone, Copy, PartialEq, Eq, Structural)]
pub enum Phase {
    /// No command is under way.
    Idle,
    /// The control lines are being driven.
    Lines,
    /// The packet is being sent.
    Sending,
    /// The reply is awaited.
    Awaiting,
}

/// What the caller is to do next.
#[derive(Debug, PartialEq, Eq)]
pub enum Action {
    /// Drive the control lines; report [`Event::LinesDone`].
    Lines(Vec<LineStep>),
    /// Send a packet in a frame; report [`Event::Sent`] or
    /// [`Event::SendFailed`].
    Send(Vec<u8>),
    /// Wait for a frame, for the given milliseconds at most; report
    /// [`Event::Reply`], [`Event::Closed`], [`Event::ReplyFailed`] or
    /// [`Event::TimedOut`].
    Await(u64),
    /// The command is finished, with the target's log text where it succeeded.
    Finish(Result<String, Error>),
}

/// What happened on the serial line.
#[derive(Debug, PartialEq, Eq)]
pub enum Event {
    /// The control lines have been driven.
    LinesDone,
    /// The packet has been sent.
    Sent,
    /// The packet could not be sent.
    SendFailed,
    /// A frame arrived.
    Reply(SlipDecoded),
    /// The line was closed before a frame arrived.
    Closed,
    /// No frame could be read.
    ReplyFailed(Error),
    /// No frame arrived in time.
    TimedOut,
}

/// The course of one command at a time.
pub struct K210RomCmd {
    phase: Phase,
    cmd: u8,
    packet: Vec<u8>,
    kind: Kind,
}

/// A command's course in the model.
#[verifier::ext_equal]
pub struct RomModel {
    pub phase: Phase,
    pub cmd: u8,
    pub packet: Seq<u8>,
    pub kind: Kind,
}

/// An [`Action`] in the model.
#[verifier::ext_equal]
pub enum ActionModel {
    Lines(Seq<LineStep>),
    Send(Seq<u8>),
    Await(u64),
    Finish(Result<Seq<char>, Error>),
}

/// An [`Event`] in the model.
#[verifier::ext_equal]
pub enum EventModel {
    LinesDone,
    Sent,
    SendFailed,
    Reply(DecodedModel),
    Closed,
    ReplyFailed(Error),
    TimedOut,
}

impl View for Action {
    type V = ActionModel;

    open spec fn view(&self) -> ActionModel {
        match *self {
            Action::Lines(steps) => ActionModel::Lines(steps@),
            Action::Send(packet) => ActionModel::Send(packet@),
            Action::Await(ms) => ActionModel::Await(ms),
            Action::Finish(Ok(text)) => ActionModel::Finish(Ok(text@)),
            Action::Finish(Err(error)) => ActionModel::Finish(Err(error)),
        }
    }
}

impl View for Event {
    type V = EventModel;

    open spec fn view(&self) -> EventModel {
        match *self {
            Event::LinesDone => EventModel::LinesDone,
            Event::Sent => EventModel::Sent,
            Event::SendFailed => EventModel::SendFailed,
            Event::Reply(decoded) => EventModel::Reply(decoded@),
            Event::Closed => EventModel::Closed,
            Event::ReplyFailed(error) => EventModel::ReplyFailed(error),
            Event::TimedOut => EventModel::TimedOut,
        }
    }
}

impl View for K210RomCmd {
    type V = RomModel;

    closed spec fn view(&self) -> RomModel {
        RomModel { phase: self.phase, cmd: self.cmd, packet: self.packet@, kind: self.kind }
    }
}

/// The events that can follow the last action.
pub open spec fn expects(m: RomModel, event: EventModel) -> bool {
    match m.phase {
        Phase::Idle => false,
        Phase::Lines => event is LinesDone,
        Phase::Sending => event is Sent || event is SendFailed,
        Phase::Awaiting => event is Reply || event is Closed || event is ReplyFailed || event is TimedOut,
    }
}

/// What sending a command and waiting for its reply came to. A line that was
/// closed counts as an empty reply.
pub open spec fn exchange_result(event: EventModel) -> Result<DecodedModel, Error> {
    match event {
        EventModel::Reply(decoded) => Ok(decoded),
        EventModel::Closed => Ok(DecodedModel { item: Seq::empty(), log: Seq::empty() }),
        EventModel::ReplyFailed(error) => Err(error),
        EventModel::TimedOut => Err(Error::Timeout),
        _ => Err(Error::Io),
    }
}

/// The exchange ended with a reply that acknowledges `cmd`.
pub open spec fn succeeds(cmd: u8, result: Result<DecodedModel, Error>) -> bool {
    result is Ok && acknowledges(cmd, result->Ok_0.item)
}

/// A command whose packet is about to be sent for the first time or anew.
pub open spec fn attempt(cmd: u8, packet: Seq<u8>, kind: Kind) -> (RomModel, ActionModel) {
    if kind matches Kind::Greeting { isp: true, .. } {
        (RomModel { phase: Phase::Lines, cmd, packet, kind }, ActionModel::Lines(isp_steps()))
    } else {
        (RomModel { phase: Phase::Sending, cmd, packet, kind }, ActionModel::Send(packet))
    }
}

/// A command that ends with the given result.
pub open spec fn finish(m: RomModel, result: Result<Seq<char>, Error>) -> (RomModel, ActionModel) {
    (RomModel { phase: Phase::Idle, ..m }, ActionModel::Finish(result))
}

/// What follows the end of an exchange. A greeting that failed is tried anew
/// while attempts are left; another command reports why it failed.
pub open spec fn conclude(m: RomModel, result: Result<DecodedModel, Error>) -> (
    RomModel,
    ActionModel,
) {
    if succeeds(m.cmd, result) {
        finish(m, Ok(lossy_text(result->Ok_0.log)))
    } else {
        match m.kind {
            Kind::Greeting { isp, left } => if left > 0 {
                attempt(m.cmd, m.packet, Kind::Greeting { isp, left: (left - 1) as u32 })
            } else {
                finish(m, Err(Error::Timeout))
            },
            _ => match result {
                Ok(_) => finish(m, Err(Error::InvalidResponse)),
                Err(error) => finish(m, Err(error)),
            },
        }
    }
}

/// The command's course and the next action, after an event.
pub open spec fn step(m: RomModel, event: EventModel) -> (RomModel, ActionModel) {
    match event {
        EventModel::LinesDone => (RomModel { phase: Phase::Sending, ..m }, ActionModel::Send(m.packet)),
        EventModel::Sent => match m.kind {
            Kind::NoReply => finish(m, Ok(Seq::empty())),
            Kind::Reply(ms) => (RomModel { phase: Phase::Awaiting, ..m }, ActionModel::Await(ms)),
            Kind::Greeting { .. } => (
                RomModel { phase: Phase::Awaiting, ..m },
                ActionModel::Await(REPLY_MS),
            ),
        },
        _ => conclude(m, exchange_result(event)),
    }
}

/// The command that performs a step of loading or flashing, as it begins.
/// Announcements, waiting and restarting the target take no command.
pub open spec fn step_command(step: StepModel) -> Option<(RomModel, ActionModel)> {
    match step {
        StepModel::Write(block) => Some(
            attempt(
                CMD_MEMORY_WRITE,
                packet_of(CMD_MEMORY_WRITE, block.address, length_word(block.data.len()), block.data),
                Kind::Reply(REPLY_MS),
            ),
        ),
        StepModel::Boot(address) => Some(
            attempt(
                CMD_MEMORY_BOOT,
                packet_of(CMD_MEMORY_BOOT, address, 0, Seq::empty()),
                Kind::NoReply,
            ),
        ),
        StepModel::FlashGreet => Some(
            attempt(
                CMD_FLASH_GREET,
                packet_of(CMD_FLASH_GREET, 0, 0, Seq::empty()),
                Kind::Greeting { isp: false, left: (GREETING_ATTEMPTS - 1) as u32 },
            ),
        ),
        StepModel::SelectFlash(ftype) => Some(
            attempt(
                CMD_SELECT_FLASH,
                packet_of(CMD_SELECT_FLASH, ftype.number(), 0, Seq::empty()),
                Kind::Reply(REPLY_MS),
            ),
        ),
        StepModel::FlashWrite(block) => Some(
            attempt(
                CMD_FLASH_WRITE,
                packet_of(CMD_FLASH_WRITE, block.address, FLASH_BLOCK as u32, flash_block(block.data)),
                Kind::Reply(FLASH_REPLY_MS),
            ),
        ),
        _ => None,
    }
}

/// The low 32 bits of a length, as a packet carries it.
pub open spec fn length_word(len: nat) -> u32 {
    (len % 0x1_0000_0000) as u32
}

/// A flash block: the data cut to the size of a block, or filled up with
/// zeros.
pub open spec fn flash_block(data: Seq<u8>) -> Seq<u8> {
    Seq::new(FLASH_BLOCK as nat, |i: int| if i < data.len() { data[i] } else { 0 })
}

pub(crate) fn word_of_length(len: usize) -> (word: u32)
    ensures
        word == length_word(len as nat),
{
    (len as u64 % 0x1_0000_0000) as u32
}

impl K210RomCmd {
    /// A command's course before the first command.
    pub fn new() -> (rom: K210RomCmd)
        ensures
            rom@ == (RomModel { phase: Phase::Idle, cmd: 0, packet: Seq::empty(), kind: Kind::NoReply }),
    {
        K210RomCmd { phase: Phase::Idle, cmd: 0, packet: Vec::new(), kind: Kind::NoReply }
    }

    /// The steps that restart the target.
    pub fn reset_target() -> (steps: Vec<LineStep>)
        ensures
            steps@ == reset_steps(),
    {
        let mut steps: Vec<LineStep> = Vec::new();
        steps.push(LineStep::Dtr(false));
        steps.push(LineStep::Delay(LINE_MS));
        steps.push(LineStep::Dtr(true));
        steps.push(LineStep::Delay(LINE_MS));
        steps.push(LineStep::Dtr(false));
        assert(steps@ =~= reset_steps());
        steps
    }

    /// The steps that restart the target in its boot ROM.
    pub fn target_isp_mode() -> (steps: Vec<LineStep>)
        ensures
            steps@ == isp_steps(),
    {
        let mut steps: Vec<LineStep> = Vec::new();
        steps.push(LineStep::Rts(false));
        steps.push(LineStep::Delay(LINE_MS));
        steps.push(LineStep::Rts(true));
        let mut reset = Self::reset_target();
        steps.append(&mut reset);
        steps.push(LineStep::Delay(LINE_MS));
        steps.push(LineStep::Rts(false));
        assert(steps@ =~= isp_steps());
        steps
    }

    fn copy_packet(&self) -> (packet: Vec<u8>)
        ensures
            packet@ == self@.packet,
    {
        vstd::slice::slice_to_vec(self.packet.as_slice())
    }

    fn begin_attempt(&mut self) -> (action: Action)
        ensures
            (final(self)@, action@) == attempt(old(self)@.cmd, old(self)@.packet, old(self)@.kind),
    {
        match self.kind {
            Kind::Greeting { isp: true, .. } => {
                self.phase = Phase::Lines;
                Action::Lines(Self::target_isp_mode())
            },
            _ => {
                self.phase = Phase::Sending;
                Action::Send(self.copy_packet())
            },
        }
    }

    fn begin(&mut self, cmd: u8, param: [u32; 2], data: &[u8], kind: Kind) -> (action: Action)
        ensures
            (final(self)@, action@) == attempt(cmd, packet_of(cmd, param[0], param[1], data@), kind),
    {
        match encode_cmd(cmd, param, data) {
            Ok(packet) => {
                self.cmd = cmd;
                self.packet = packet;
                self.kind = kind;
                self.begin_attempt()
            },
            Err(error) => {
                assert(false);
                Action::Finish(Err(error))
            },
        }
    }

    /// Begins to greet the boot ROM, restarting the target for each attempt.
    pub fn greet(&mut self) -> (action: Action)
        ensures
            (final(self)@, action@) == attempt(
                CMD_GREET,
                packet_of(CMD_GREET, 0, 0, Seq::empty()),
                Kind::Greeting { isp: true, left: (GREETING_ATTEMPTS - 1) as u32 },
            ),
            carries(final(self)@.packet, 0xc2, 0, 0, Seq::empty()),
    {
        proof {
            law_packet_carries(CMD_GREET, 0, 0, Seq::empty());
        }
        self.do_greeting(CMD_GREET, true)
    }

    /// Begins to greet the in-system programmer.
    pub fn flash_greet(&mut self) -> (action: Action)
        ensures
            (final(self)@, action@) == attempt(
                CMD_FLASH_GREET,
                packet_of(CMD_FLASH_GREET, 0, 0, Seq::empty()),
                Kind::Greeting { isp: false, left: (GREETING_ATTEMPTS - 1) as u32 },
            ),
            action@ matches ActionModel::Send(packet) && carries(packet, 0xd2, 0, 0, Seq::empty()),
    {
        proof {
            law_packet_carries(CMD_FLASH_GREET, 0, 0, Seq::empty());
        }
        self.do_greeting(CMD_FLASH_GREET, false)
    }

    /// Begins a greeting, with or without restarting the target.
    pub fn do_greeting(&mut self, cmd: u8, do_isp: bool) -> (action: Action)
        ensures
            (final(self)@, action@) == attempt(
                cmd,
                packet_of(cmd, 0, 0, Seq::empty()),
                Kind::Greeting { isp: do_isp, left: (GREETING_ATTEMPTS - 1) as u32 },
            ),
    {
        let data: Vec<u8> = Vec::new();
        assert(data@ =~= Seq::empty());
        self.begin(
            cmd,
            [0, 0],
            data.as_slice(),
            Kind::Greeting { isp: do_isp, left: GREETING_ATTEMPTS - 1 },
        )
    }

    /// Begins to write a block to memory.
    pub fn memory_write(&mut self, address: u32, data: &[u8]) -> (action: Action)
        ensures
            (final(self)@, action@) == attempt(
                CMD_MEMORY_WRITE,
                packet_of(CMD_MEMORY_WRITE, address, length_word(data@.len()), data@),
                Kind::Reply(REPLY_MS),
            ),
            action@ matches ActionModel::Send(packet) && carries(
                packet,
                0xc3,
                address as int,
                (data@.len() % 0x1_0000_0000) as int,
                data@,
            ),
    {
        proof {
            law_packet_carries(CMD_MEMORY_WRITE, address, length_word(data@.len()), data@);
        }
        self.begin(CMD_MEMORY_WRITE, [address, word_of_length(data.len())], data, Kind::Reply(REPLY_MS))
    }

    /// Begins to write a block to flash.
    pub fn flash_write(&mut self, address: u32, data: &[u8]) -> (action: Action)
        ensures
            (final(self)@, action@) == attempt(
                CMD_FLASH_WRITE,
                packet_of(CMD_FLASH_WRITE, address, FLASH_BLOCK as u32, flash_block(data@)),
                Kind::Reply(FLASH_REPLY_MS),
            ),
            action@ matches ActionModel::Send(packet) && packet.len() == 0x1_0010 && carries(
                packet,
                0xd4,
                address as int,
                0x1_0000,
                packet.skip(16),
            ) && forall|i: int|
                0 <= i < 0x1_0000 ==> #[trigger] packet[16 + i] == (if i < data@.len() {
                    data@[i]
                } else {
                    0
                }),
    {
        proof {
            law_flash_write_command(BlockModel { address, data: data@ });
        }
        let mut block = vstd::slice::slice_to_vec(data);
        block.resize(FLASH_BLOCK, 0);
        assert(block@ =~= flash_block(data@)) by {
            if data@.len() < FLASH_BLOCK {
                assert forall|i: int| 0 <= i < data@.len() implies block@[i] == data@[i] by {
                    assert(block@.subrange(0, data@.len() as int)[i] == data@[i]);
                }
            }
        }
        self.begin(
            CMD_FLASH_WRITE,
            [address, word_of_length(block.len())],
            block.as_slice(),
            Kind::Reply(FLASH_REPLY_MS),
        )
    }

    /// Begins to start the program at `address`. The target does not answer.
    pub fn memory_boot(&mut self, address: u32) -> (action: Action)
        ensures
            (final(self)@, action@) == attempt(
                CMD_MEMORY_BOOT,
                packet_of(CMD_MEMORY_BOOT, address, 0, Seq::empty()),
                Kind::NoReply,
            ),
            action@ matches ActionModel::Send(packet) && carries(
                packet,
                0xc5,
                address as int,
                0,
                Seq::empty(),
            ),
    {
        proof {
            law_packet_carries(CMD_MEMORY_BOOT, address, 0, Seq::empty());
        }
        let data: Vec<u8> = Vec::new();
        assert(data@ =~= Seq::empty());
        self.begin(CMD_MEMORY_BOOT, [address, 0], data.as_slice(), Kind::NoReply)
    }

    /// Begins to select the flash chip.
    pub fn select_flash_type(&mut self, ftype: K210FlashType) -> (action: Action)
        ensures
            (final(self)@, action@) == attempt(
                CMD_SELECT_FLASH,
                packet_of(CMD_SELECT_FLASH, ftype.number(), 0, Seq::empty()),
                Kind::Reply(REPLY_MS),
            ),
            action@ matches ActionModel::Send(packet) && carries(
                packet,
                0xd7,
                if ftype is External {
                    1
                } else {
                    0
                },
                0,
                Seq::empty(),
            ),
    {
        proof {
            law_packet_carries(CMD_SELECT_FLASH, ftype.number(), 0, Seq::empty());
        }
        let data: Vec<u8> = Vec::new();
        assert(data@ =~= Seq::empty());
        self.begin(CMD_SELECT_FLASH, [ftype.code(), 0], data.as_slice(), Kind::Reply(REPLY_MS))
    }

    /// Begins the command that performs a step of loading or flashing, where
    /// the step takes one.
    pub fn perform(&mut self, step: &Step) -> (action: Option<Action>)
        ensures
            match action {
                Some(first) => step_command(step@) == Some((final(self)@, first@)),
                None => step_command(step@) is None && final(self)@ == old(self)@,
            },
    {
        match step {
            Step::Write(block) => Some(self.memory_write(block.address, block.data.as_slice())),
            Step::Boot(address) => Some(self.memory_boot(*address)),
            Step::FlashGreet => Some(self.flash_greet()),
            Step::SelectFlash(ftype) => Some(self.select_flash_type(*ftype)),
            Step::FlashWrite(block) => Some(self.flash_write(block.address, block.data.as_slice())),
            _ => None,
        }
    }

    fn fail(&mut self, error: Error) -> (action: Action)
        ensures
            (final(self)@, action@) == match old(self)@.kind {
                Kind::Greeting { isp, left } => if left > 0 {
                    attempt(
                        old(self)@.cmd,
                        old(self)@.packet,
                        Kind::Greeting { isp, left: (left - 1) as u32 },
                    )
                } else {
                    finish(old(self)@, Err(Error::Timeout))
                },
                _ => finish(old(self)@, Err(error)),
            },
    {
        match self.kind {
            Kind::Greeting { isp, left } => {
                if left > 0 {
                    self.kind = Kind::Greeting { isp, left: left - 1 };
                    self.begin_attempt()
                } else {
                    self.phase = Phase::Idle;
                    Action::Finish(Err(Error::Timeout))
                }
            },
            _ => {
                self.phase = Phase::Idle;
                Action::Finish(Err(error))
            },
        }
    }

    fn receive(&mut self, reply: SlipDecoded) -> (action: Action)
        ensures
            (final(self)@, action@) == conclude(old(self)@, Ok(reply@)),
    {
        match cmd_ok(self.cmd, reply.get_item().as_slice()) {
            Ok(()) => {
                self.phase = Phase::Idle;
                Action::Finish(Ok(reply.get_debug_info()))
            },
            Err(error) => self.fail(error),
        }
    }

    /// Takes the command further after an event that its last action allows.
    pub fn advance(&mut self, event: Event) -> (action: Action)
        requires
            expects(old(self)@, event@),
        ensures
            (final(self)@, action@) == step(old(self)@, event@),
    {
        match event {
            Event::LinesDone => {
                self.phase = Phase::Sending;
                Action::Send(self.copy_packet())
            },
            Event::Sent => match self.kind {
                Kind::NoReply => {
                    self.phase = Phase::Idle;
                    let text = String::new();
                    assert(text@ =~= Seq::empty());
                    Action::Finish(Ok(text))
                },
                Kind::Reply(ms) => {
                    self.phase = Phase::Awaiting;
                    Action::Await(ms)
                },
                Kind::Greeting { .. } => {
                    self.phase = Phase::Awaiting;
                    Action::Await(REPLY_MS)
                },
            },
            Event::SendFailed => self.fail(Error::Io),
            Event::Reply(decoded) => self.receive(decoded),
            Event::Closed => self.receive(SlipDecoded::new()),
            Event::ReplyFailed(error) => self.fail(error),
            Event::TimedOut => self.fail(Error::Timeout),
        }
    }
}

/// A course that a command can take: only a greeting that restarts the target
/// drives the control lines, a reply is awaited only where one is due, and a
/// greeting has fewer attempts left than it began with.
pub open spec fn well_formed(m: RomModel) -> bool {
    &&& m.phase is Lines ==> (m.kind matches Kind::Greeting { isp: true, .. })
    &&& m.phase is Awaiting ==> !(m.kind is NoReply)
    &&& (m.kind matches Kind::Greeting { left, .. } ==> left < GREETING_ATTEMPTS)
}

/// Every command begins in a course that it can take.
pub proof fn law_attempt_is_well_formed(cmd: u8, packet: Seq<u8>, kind: Kind)
    requires
        kind matches Kind::Greeting { left, .. } ==> left < GREETING_ATTEMPTS,
    ensures
        well_formed(attempt(cmd, packet, kind).0),
{
}

/// No event takes a command out of the courses that it can take, and every
/// event keeps the command and its packet.
pub proof fn law_step_keeps_form(m: RomModel, event: EventModel)
    requires
        well_formed(m),
        expects(m, event),
    ensures
        well_formed(step(m, event).0),
        step(m, event).0.cmd == m.cmd,
        step(m, event).0.packet == m.packet,
{
}

/// The target's acknowledgement of a command is read back from its frame and
/// taken for what it is, unless the command is one of the four bytes with a
/// meaning in frames; no command of the target is.
pub proof fn law_acknowledgement_survives_framing(cmd: u8, more: Seq<u8>)
    requires
        cmd != END,
        cmd != ESC,
        !is_escape_code(cmd),
    ensures
        decode_bytes(frame(seq![cmd, STATUS_OK]) + more).0 matches Ok(Some(decoded)) && acknowledges(
            cmd,
            decoded.item,
        ),
        decode_bytes(frame(seq![cmd, STATUS_OK]) + more).1 == more,
{
    let reply = seq![cmd, STATUS_OK];
    assert(reads_back(reply));
    law_frame_round_trip(reply, more);
}

/// An upper bound on the events that a command still takes.
pub open spec fn remaining(m: RomModel) -> nat {
    let later: nat = match m.kind {
        Kind::Greeting { left, .. } => 3 * left as nat,
        _ => 0,
    };
    match m.phase {
        Phase::Idle => 0,
        Phase::Lines => 3 + later,
        Phase::Sending => 2 + later,
        Phase::Awaiting => 1 + later,
    }
}

/// Every event brings a command nearer to its end, so that each command
/// finishes.
pub proof fn law_step_progresses(m: RomModel, event: EventModel)
    requires
        expects(m, event),
    ensures
        remaining(step(m, event).0) < remaining(m),
        step(m, event).0.phase is Idle <==> step(m, event).1 is Finish,
{
}

/// A command whose reply is awaited succeeds only where the reply acknowledges
/// it, and then hands out the log text that came with the reply.
pub proof fn law_success_is_acknowledged(m: RomModel, event: EventModel, text: Seq<char>)
    requires
        expects(m, event),
        !(m.kind is NoReply),
        step(m, event).1 == ActionModel::Finish(Ok(text)),
    ensures
        event is Reply,
        acknowledges(m.cmd, event->Reply_0.item),
        text == lossy_text(event->Reply_0.log),
{
    assert(Seq::<u8>::empty() != seq![m.cmd, STATUS_OK]) by {
        assert(seq![m.cmd, STATUS_OK].len() == 2);
    }
}

/// The events that end an attempt to reach the target.
pub open spec fn ends_attempt(event: EventModel) -> bool {
    !(event is LinesDone) && !(event is Sent)
}

/// A command after one attempt that ends with `outcome`.
pub open spec fn after_attempt(m: RomModel, outcome: EventModel) -> (RomModel, ActionModel) {
    let ready = if m.phase is Lines {
        step(m, EventModel::LinesDone).0
    } else {
        m
    };
    if outcome is SendFailed {
        step(ready, outcome)
    } else {
        step(step(ready, EventModel::Sent).0, outcome)
    }
}

/// A command after one attempt for each of the outcomes, in turn.
pub open spec fn after_attempts(m: RomModel, outcomes: Seq<EventModel>) -> (RomModel, ActionModel)
    decreases outcomes.len(),
{
    if outcomes.len() <= 1 {
        after_attempt(m, outcomes[0])
    } else {
        after_attempt(after_attempts(m, outcomes.drop_last()).0, outcomes.last())
    }
}

/// Every outcome ends an attempt, and none acknowledges `cmd`.
pub open spec fn all_fail(cmd: u8, outcomes: Seq<EventModel>) -> bool {
    forall|i: int|
        0 <= i < outcomes.len() ==> ends_attempt(#[trigger] outcomes[i]) && (outcomes[i] matches EventModel::Reply(
            reply,
        ) ==> reply.item != seq![cmd, 0xe0u8])
}

/// A greeting that failed is tried again from the start, with the same packet,
/// while attempts are left.
pub proof fn law_greeting_tries_again(
    cmd: u8,
    packet: Seq<u8>,
    isp: bool,
    left: u32,
    outcomes: Seq<EventModel>,
)
    requires
        all_fail(cmd, outcomes),
        0 < outcomes.len() <= left,
    ensures
        after_attempts(attempt(cmd, packet, Kind::Greeting { isp, left }).0, outcomes) == attempt(
            cmd,
            packet,
            Kind::Greeting { isp, left: (left - outcomes.len()) as u32 },
        ),
    decreases outcomes.len(),
{
    lemma_closed_is_no_acknowledgement(cmd);
    assert(all_fail(cmd, outcomes.drop_last()));
    assert(ends_attempt(outcomes[outcomes.len() - 1]));
    if outcomes.len() > 1 {
        law_greeting_tries_again(cmd, packet, isp, left, outcomes.drop_last());
    }
}

proof fn lemma_closed_is_no_acknowledgement(cmd: u8)
    ensures
        !acknowledges(cmd, Seq::empty()),
{
    assert(seq![cmd, STATUS_OK].len() == 2);
}

/// A greeting gives up with a timeout when the first attempt and all that were
/// left have failed, however each of them failed.
pub proof fn law_greeting_gives_up(
    cmd: u8,
    packet: Seq<u8>,
    isp: bool,
    left: u32,
    outcomes: Seq<EventModel>,
)
    requires
        all_fail(cmd, outcomes),
        outcomes.len() == left + 1,
    ensures
        after_attempts(attempt(cmd, packet, Kind::Greeting { isp, left }).0, outcomes).1
            == ActionModel::Finish(Err(Error::Timeout)),
{
    lemma_closed_is_no_acknowledgement(cmd);
    assert(all_fail(cmd, outcomes.drop_last()));
    assert(ends_attempt(outcomes[outcomes.len() - 1]));
    if left > 0 {
        law_greeting_tries_again(cmd, packet, isp, left, outcomes.drop_last());
    }
}

/// A greeting ends with the first reply that acknowledges it, if one comes
/// before the attempts run out, and hands out the log text of that reply.
pub proof fn law_greeting_takes_first_reply(
    cmd: u8,
    packet: Seq<u8>,
    isp: bool,
    left: u32,
    outcomes: Seq<EventModel>,
    reply: DecodedModel,
)
    requires
        all_fail(cmd, outcomes),
        outcomes.len() <= left,
        acknowledges(cmd, reply.item),
    ensures
        after_attempts(
            attempt(cmd, packet, Kind::Greeting { isp, left }).0,
            outcomes.push(EventModel::Reply(reply)),
        ).1 == ActionModel::Finish(Ok(lossy_text(reply.log))),
{
    let all = outcomes.push(EventModel::Reply(reply));
    assert(all.drop_last() =~= outcomes);
    assert(all.last() == EventModel::Reply(reply));
    if outcomes.len() > 0 {
        law_greeting_tries_again(cmd, packet, isp, left, outcomes);
    }
}

/// The level of the boot-mode line after the given steps, once it was set.
pub open spec fn rts_after(steps: Seq<LineStep>) -> Option<bool>
    decreases steps.len(),
{
    if steps.len() == 0 {
        None
    } else {
        match steps.last() {
            LineStep::Rts(level) => Some(level),
            _ => rts_after(steps.drop_last()),
        }
    }
}

/// The level of the reset line after the given steps, once it was set.
pub open spec fn dtr_after(steps: Seq<LineStep>) -> Option<bool>
    decreases steps.len(),
{
    if steps.len() == 0 {
        None
    } else {
        match steps.last() {
            LineStep::Dtr(level) => Some(level),
            _ => dtr_after(steps.drop_last()),
        }
    }
}

/// Restarting the target in its boot ROM holds the boot-mode line during the
/// whole pulse on the reset line, and releases both lines in the end.
pub proof fn law_isp_holds_boot_line()
    ensures
        forall|n: int|
            0 <= n < isp_steps().len() && isp_steps()[n] is Dtr ==> rts_after(#[trigger] isp_steps().take(n))
                == Some(true),
        rts_after(isp_steps()) == Some(false),
        dtr_after(isp_steps()) == Some(false),
        dtr_after(reset_steps()) == Some(false),
{
    let steps = isp_steps();
    assert(steps.len() == 10);
    let held = steps.take(3);
    assert(held.last() == LineStep::Rts(true));
    assert forall|n: int| 0 <= n < steps.len() && steps[n] is Dtr implies rts_after(
        #[trigger] steps.take(n),
    ) == Some(true) by {
        lemma_rts_unchanged(steps, 3, n);
    }
    lemma_dtr_unchanged(steps, 8, 10);
    assert(steps.take(8).last() == LineStep::Dtr(false));
    assert(steps.take(10) =~= steps);
}

proof fn lemma_rts_unchanged(steps: Seq<LineStep>, from: int, to: int)
    requires
        0 <= from <= to <= steps.len(),
        forall|i: int| from <= i < to ==> !(#[trigger] steps[i] is Rts),
    ensures
        rts_after(steps.take(to)) == rts_after(steps.take(from)),
    decreases to - from,
{
    if from < to {
        lemma_rts_unchanged(steps, from, to - 1);
        assert(steps.take(to).drop_last() =~= steps.take(to - 1));
        assert(steps.take(to).last() == steps[to - 1]);
    }
}

proof fn lemma_dtr_unchanged(steps: Seq<LineStep>, from: int, to: int)
    requires
        0 <= from <= to <= steps.len(),
        forall|i: int| from <= i < to ==> !(#[trigger] steps[i] is Dtr),
    ensures
        dtr_after(steps.take(to)) == dtr_after(steps.take(from)),
    decreases to - from,
{
    if from < to {
        lemma_dtr_unchanged(steps, from, to - 1);
        assert(steps.take(to).drop_last() =~= steps.take(to - 1));
        assert(steps.take(to).last() == steps[to - 1]);
    }
}

/// A flash block begins with the data that fits into it and holds zeros
/// behind it.
pub proof fn law_flash_block_keeps_data(data: Seq<u8>)
    requires
        data.len() <= FLASH_BLOCK,
    ensures
        flash_block(data).len() == FLASH_BLOCK,
        flash_block(data).take(data.len() as int) == data,
        forall|i: int| data.len() <= i < FLASH_BLOCK ==> flash_block(data)[i] == 0,
{
    assert(flash_block(data).take(data.len() as int) =~= data);
}

/// Data that is too long for a flash block is cut.
pub proof fn law_flash_block_cuts(data: Seq<u8>)
    requires
        data.len() >= 0x1_0000,
    ensures
        flash_block(data) == data.take(0x1_0000),
{
    assert(flash_block(data) =~= data.take(0x1_0000));
}

/// A length that fits into a packet is carried as it is; of a longer one the
/// packet carries the rest that 32 bits leave.
pub proof fn law_length_is_carried(len: nat)
    ensures
        len <= u32::MAX ==> length_word(len) == len,
        (len - length_word(len)) % 0x1_0000_0000 == 0,
{
}

/// Writing a block to memory sends one packet, which carries the address of the
/// block, the number of its bytes and the bytes, and waits half a second for
/// the reply to it.
pub proof fn law_write_command(block: BlockModel)
    ensures
        step_command(StepModel::Write(block)) matches Some((m, action)) && m.phase is Sending && m.cmd
            == 0xc3 && m.kind == Kind::Reply(500) && action == ActionModel::Send(m.packet) && carries(
            m.packet,
            0xc3,
            block.address as int,
            (block.data.len() % 0x1_0000_0000) as int,
            block.data,
        ) && (block.data.len() <= u32::MAX ==> carries(
            m.packet,
            0xc3,
            block.address as int,
            block.data.len() as int,
            block.data,
        )),
{
    law_packet_carries(CMD_MEMORY_WRITE, block.address, length_word(block.data.len()), block.data);
}

/// Writing a block to flash sends one packet, which carries the address of the
/// block, the size of a flash block and that many bytes: those of the block,
/// then zeros. The reply may take three seconds.
pub proof fn law_flash_write_command(block: BlockModel)
    ensures
        step_command(StepModel::FlashWrite(block)) matches Some((m, action)) && m.phase is Sending && m.cmd
            == 0xd4 && m.kind == Kind::Reply(3000) && action == ActionModel::Send(m.packet)
            && m.packet.len() == 0x1_0010 && carries(
            m.packet,
            0xd4,
            block.address as int,
            0x1_0000,
            m.packet.skip(16),
        ) && forall|i: int|
            0 <= i < 0x1_0000 ==> #[trigger] m.packet[16 + i] == (if i < block.data.len() {
                block.data[i]
            } else {
                0
            }),
{
    let data = flash_block(block.data);
    let packet = packet_of(CMD_FLASH_WRITE, block.address, FLASH_BLOCK as u32, data);
    law_packet_carries(CMD_FLASH_WRITE, block.address, FLASH_BLOCK as u32, data);
    assert forall|i: int| 0 <= i < 0x1_0000 implies #[trigger] packet[16 + i] == data[i] by {
        assert(packet.skip(16)[i] == packet[16 + i]);
    }
}

/// Starting the program sends one packet, which carries the address, and waits
/// for nothing.
pub proof fn law_boot_command(address: u32)
    ensures
        step_command(StepModel::Boot(address)) matches Some((m, action)) && m.phase is Sending && m.cmd
            == 0xc5 && m.kind is NoReply && action == ActionModel::Send(m.packet) && carries(
            m.packet,
            0xc5,
            address as int,
            0,
            Seq::empty(),
        ),
{
    law_packet_carries(CMD_MEMORY_BOOT, address, 0, Seq::empty());
}

/// Selecting the chip sends one packet, which carries its number: one for the
/// external chip, zero for the other.
pub proof fn law_select_command(ftype: K210FlashType)
    ensures
        step_command(StepModel::SelectFlash(ftype)) matches Some((m, action)) && m.phase is Sending && m.cmd
            == 0xd7 && m.kind == Kind::Reply(500) && action == ActionModel::Send(m.packet) && carries(
            m.packet,
            0xd7,
            if ftype is External {
                1
            } else {
                0
            },
            0,
            Seq::empty(),
        ),
        ftype.number() == (if ftype is External {
            1u32
        } else {
            0u32
        }),
{
    law_packet_carries(CMD_SELECT_FLASH, ftype.number(), 0, Seq::empty());
}

/// Greeting the programmer sends a packet without parameters or data, fifteen
/// times at most.
pub proof fn law_flash_greet_command()
    ensures
        step_command(StepModel::FlashGreet) matches Some((m, action)) && m.phase is Sending && m.cmd == 0xd2
            && m.kind == (Kind::Greeting { isp: false, left: 14 }) && action == ActionModel::Send(m.packet)
            && carries(m.packet, 0xd2, 0, 0, Seq::empty()),
{
    law_packet_carries(CMD_FLASH_GREET, 0, 0, Seq::empty());
}

/// A step takes a command exactly where it writes, starts, greets or selects.
pub proof fn law_steps_with_command(step: StepModel)
    ensures
        step_command(step) is Some <==> step is Write || step is Boot || step is FlashGreet
            || step is SelectFlash || step is FlashWrite,
{
}

/// A command begins by sending its packet; a greeting of the boot ROM begins
/// by restarting the target, with the packet kept for later.
pub proof fn law_command_begins(cmd: u8, packet: Seq<u8>, kind: Kind)
    ensures
        attempt(cmd, packet, kind).0.cmd == cmd,
        attempt(cmd, packet, kind).0.packet == packet,
        attempt(cmd, packet, kind).0.kind == kind,
        match kind {
            Kind::Greeting { isp: true, .. } => attempt(cmd, packet, kind).1 == ActionModel::Lines(
                isp_steps(),
            ) && attempt(cmd, packet, kind).0.phase is Lines,
            _ => attempt(cmd, packet, kind).1 == ActionModel::Send(packet) && attempt(
                cmd,
                packet,
                kind,
            ).0.phase is Sending,
        },
{
}

/// When the control lines have been driven, the packet is sent. When it has
/// been sent, a command without a reply has succeeded, and another waits for
/// its reply as long as it may take: half a second for a greeting.
pub proof fn law_command_goes_on(m: RomModel)
    ensures
        m.phase is Lines ==> step(m, EventModel::LinesDone) == (
            RomModel { phase: Phase::Sending, cmd: m.cmd, packet: m.packet, kind: m.kind },
            ActionModel::Send(m.packet),
        ),
        m.phase is Sending ==> match m.kind {
            Kind::NoReply => step(m, EventModel::Sent).0.phase is Idle && step(m, EventModel::Sent).1
                == ActionModel::Finish(Ok(Seq::empty())),
            Kind::Reply(ms) => step(m, EventModel::Sent) == (
                RomModel { phase: Phase::Awaiting, cmd: m.cmd, packet: m.packet, kind: m.kind },
                ActionModel::Await(ms),
            ),
            Kind::Greeting { .. } => step(m, EventModel::Sent) == (
                RomModel { phase: Phase::Awaiting, cmd: m.cmd, packet: m.packet, kind: m.kind },
                ActionModel::Await(500),
            ),
        },
{
}

/// A reply of two bytes, the command and the status of success, ends the
/// command well, with the log text that came with it.
pub proof fn law_command_succeeds(m: RomModel, reply: DecodedModel)
    requires
        m.phase is Awaiting,
        reply.item == seq![m.cmd, 0xe0u8],
    ensures
        step(m, EventModel::Reply(reply)).0.phase is Idle,
        step(m, EventModel::Reply(reply)).1 == ActionModel::Finish(Ok(lossy_text(reply.log))),
{
    law_acknowledgement(m.cmd, reply.item);
}

/// Any other end of an exchange fails. A command that is no greeting says why:
/// another reply, or none before the line was closed, is an invalid response;
/// a reply that could not be read gives its own error; one that did not come
/// in time is a timeout; and a packet that could not be sent is a failure of
/// input or output.
pub proof fn law_command_fails(m: RomModel, event: EventModel)
    requires
        expects(m, event),
        ends_attempt(event),
        event matches EventModel::Reply(reply) ==> reply.item != seq![m.cmd, 0xe0u8],
        !(m.kind is Greeting),
    ensures
        step(m, event).0.phase is Idle,
        match event {
            EventModel::Reply(_) => step(m, event).1 == ActionModel::Finish(Err(Error::InvalidResponse)),
            EventModel::Closed => step(m, event).1 == ActionModel::Finish(Err(Error::InvalidResponse)),
            EventModel::ReplyFailed(error) => step(m, event).1 == ActionModel::Finish(Err(error)),
            EventModel::TimedOut => step(m, event).1 == ActionModel::Finish(Err(Error::Timeout)),
            _ => step(m, event).1 == ActionModel::Finish(Err(Error::Io)),
        },
{
    lemma_closed_is_no_acknowledgement(m.cmd);
}

/// A greeting that fails, however it fails, is tried anew while attempts are
/// left, with one attempt less: the target is restarted again, or the same
/// packet sent again. Behind the last attempt it ends with a timeout.
pub proof fn law_greeting_fails(m: RomModel, event: EventModel, isp: bool, left: u32)
    requires
        expects(m, event),
        ends_attempt(event),
        event matches EventModel::Reply(reply) ==> reply.item != seq![m.cmd, 0xe0u8],
        m.kind == (Kind::Greeting { isp, left }),
    ensures
        left == 0 ==> step(m, event).0.phase is Idle && step(m, event).1 == ActionModel::Finish(
            Err(Error::Timeout),
        ),
        left > 0 ==> step(m, event).0.cmd == m.cmd && step(m, event).0.packet == m.packet && step(
            m,
            event,
        ).0.kind == (Kind::Greeting { isp, left: (left - 1) as u32 }),
        left > 0 && isp ==> step(m, event).0.phase is Lines && step(m, event).1 == ActionModel::Lines(
            isp_steps(),
        ),
        left > 0 && !isp ==> step(m, event).0.phase is Sending && step(m, event).1 == ActionModel::Send(
            m.packet,
        ),
{
    lemma_closed_is_no_acknowledgement(m.cmd);
}

/// The boot ROM and the programmer are each greeted fifteen times before the
/// greeting gives up, and not given up before.
pub proof fn law_fifteen_greetings(outcomes: Seq<EventModel>, isp: bool)
    requires
        all_fail(if isp { 0xc2 } else { 0xd2 }, outcomes),
        0 < outcomes.len() <= 15,
    ensures
        ({
            let begun = if isp {
                attempt(
                    CMD_GREET,
                    packet_of(CMD_GREET, 0, 0, Seq::empty()),
                    Kind::Greeting { isp: true, left: (GREETING_ATTEMPTS - 1) as u32 },
                )
            } else {
                step_command(StepModel::FlashGreet)->0
            };
            let after = after_attempts(begun.0, outcomes);
            &&& outcomes.len() == 15 ==> after.1 == ActionModel::Finish(Err(Error::Timeout))
            &&& outcomes.len() < 15 && isp ==> after.1 == ActionModel::Lines(isp_steps())
            &&& outcomes.len() < 15 && !isp ==> after.1 == ActionModel::Send(begun.0.packet)
            &&& carries(begun.0.packet, if isp { 0xc2 } else { 0xd2 }, 0, 0, Seq::empty())
        }),
{
    let cmd: u8 = if isp { CMD_GREET } else { CMD_FLASH_GREET };
    let packet = packet_of(cmd, 0, 0, Seq::empty());
    law_packet_carries(cmd, 0, 0, Seq::empty());
    if outcomes.len() == 15 {
        law_greeting_gives_up(cmd, packet, isp, 14, outcomes);
    } else {
        law_greeting_tries_again(cmd, packet, isp, 14, outcomes);
    }
}

/// How long the steps before the one with the number `n` wait, in milliseconds.
pub open spec fn time_before(steps: Seq<LineStep>, n: int) -> nat
    decreases n,
{
    if n <= 0 {
        0
    } else {
        time_before(steps, n - 1) + (match steps[n - 1] {
            LineStep::Delay(ms) => ms as nat,
            _ => 0,
        })
    }
}

/// The reset line is released, pulled and released, a tenth of a second apart.
/// When the target is restarted in its boot ROM, the boot-mode line is released, then held a tenth
/// of a second later, and released a tenth of a second after the pulse.
pub proof fn law_line_timing()
    ensures
        reset_steps().len() == 5,
        reset_steps()[0] == LineStep::Dtr(false) && time_before(reset_steps(), 0) == 0,
        reset_steps()[2] == LineStep::Dtr(true) && time_before(reset_steps(), 2) == 100,
        reset_steps()[4] == LineStep::Dtr(false) && time_before(reset_steps(), 4) == 200,
        isp_steps().len() == 10,
        isp_steps()[0] == LineStep::Rts(false) && time_before(isp_steps(), 0) == 0,
        isp_steps()[2] == LineStep::Rts(true) && time_before(isp_steps(), 2) == 100,
        isp_steps()[3] == LineStep::Dtr(false) && time_before(isp_steps(), 3) == 100,
        isp_steps()[5] == LineStep::Dtr(true) && time_before(isp_steps(), 5) == 200,
        isp_steps()[7] == LineStep::Dtr(false) && time_before(isp_steps(), 7) == 300,
        isp_steps()[9] == LineStep::Rts(false) && time_before(isp_steps(), 9) == 400,
{
    reveal_with_fuel(time_before, 10);
    let steps = isp_steps();
    assert(steps[1] == LineStep::Delay(100) && steps[4] == LineStep::Delay(100) && steps[6]
        == LineStep::Delay(100) && steps[8] == LineStep::Delay(100));
}

/// The models of an action and of an event tell what the action and the event
/// hold.
pub proof fn law_exchange_model(action: Action, event: Event)
    ensures
        match action {
            Action::Lines(steps) => action@ == ActionModel::Lines(steps@),
            Action::Send(packet) => action@ == ActionModel::Send(packet@),
            Action::Await(ms) => action@ == ActionModel::Await(ms),
            Action::Finish(Ok(text)) => action@ == ActionModel::Finish(Ok(text@)),
            Action::Finish(Err(error)) => action@ == ActionModel::Finish(Err(error)),
        },
        match event {
            Event::LinesDone => event@ == EventModel::LinesDone,
            Event::Sent => event@ == EventModel::Sent,
            Event::SendFailed => event@ == EventModel::SendFailed,
            Event::Reply(decoded) => event@ == EventModel::Reply(
                DecodedModel { item: decoded.item@, log: decoded.log@ },
            ),
            Event::Closed => event@ == EventModel::Closed,
            Event::ReplyFailed(error) => event@ == EventModel::ReplyFailed(error),
            Event::TimedOut => event@ == EventModel::TimedOut,
        },
{
}

/// Whatever can come of the last action is expected: lines that were driven, a
/// packet that was sent or not, and every end of waiting for a reply. Nothing
/// is expected where no command is under way.
pub proof fn law_expected_events(m: RomModel, event: EventModel)
    ensures
        m.phase is Idle ==> !expects(m, event),
        m.phase is Lines ==> (expects(m, event) <==> event is LinesDone),
        m.phase is Sending ==> (expects(m, event) <==> event is Sent || event is SendFailed),
        m.phase is Awaiting ==> (expects(m, event) <==> event is Reply || event is Closed
            || event is ReplyFailed || event is TimedOut),
{
}

/// The serial line runs at the speed that the boot ROM expects.
pub proof fn law_line_speed()
    ensures
        BAUD_RATE == 115200,
{
}

} // verus!
