//! The rules of the terminal: what is sent to the target, what is shown to the
//! user, and when the terminal ends.
use vstd::prelude::*;

verus! {

/// The character that ends the terminal: control and `]`.
pub const QUIT: u8 = 0x1d;

/// How long sending to the target may take, in milliseconds.
pub const SEND_MS: u64 = 500;

/// How many bytes are read from the keyboard at a time.
pub const KEY_BUFFER: usize = 10;

/// What happened to a terminal.
#[derive(Debug, PartialEq, Eq)]
pub enum TerminalEvent {
    /// The keyboard delivered bytes, or was closed.
    Keys(Option<Vec<u8>>),
    /// Sending to the target ended, in time or not.
    Sent { in_time: bool },
    /// The target delivered bytes, or its line was closed.
    Output(Option<Vec<u8>>),
}

/// What a terminal does next.
#[derive(Debug, PartialEq, Eq)]
pub enum TerminalAction {
    /// Wait for the next event.
    Wait,
    /// Send bytes to the target.
    Send(Vec<u8>),
    /// Show bytes to the user.
    Show(Vec<u8>),
    /// End the terminal.
    Quit,
}

/// A [`TerminalEvent`] in the model.
#[verifier::ext_equal]
pub enum TerminalEventModel {
    Keys(Option<Seq<u8>>),
    Sent { in_time: bool },
    Output(Option<Seq<u8>>),
}

/// A [`TerminalAction`] in the model.
#[verifier::ext_equal]
pub enum TerminalActionModel {
    Wait,
    Send(Seq<u8>),
    Show(Seq<u8>),
    Quit,
}

impl View for TerminalEvent {
    type V = TerminalEventModel;

    open spec fn view(&self) -> TerminalEventModel {
        match *self {
            TerminalEvent::Keys(Some(keys)) => TerminalEventModel::Keys(Some(keys@)),
            TerminalEvent::Keys(None) => TerminalEventModel::Keys(None),
            TerminalEvent::Sent { in_time } => TerminalEventModel::Sent { in_time },
            TerminalEvent::Output(Some(bytes)) => TerminalEventModel::Output(Some(bytes@)),
            TerminalEvent::Output(None) => TerminalEventModel::Output(None),
        }
    }
}

impl View for TerminalAction {
    type V = TerminalActionModel;

    open spec fn view(&self) -> TerminalActionModel {
        match *self {
            TerminalAction::Wait => TerminalActionModel::Wait,
            TerminalAction::Send(bytes) => TerminalActionModel::Send(bytes@),
            TerminalAction::Show(bytes) => TerminalActionModel::Show(bytes@),
            TerminalAction::Quit => TerminalActionModel::Quit,
        }
    }
}

/// The action that follows each event: the quit character on its own, a closed
/// end, or a target that does not take what it is sent ends the terminal.
pub open spec fn terminal_action(event: TerminalEventModel) -> TerminalActionModel {
    match event {
        TerminalEventModel::Keys(Some(keys)) => if keys == seq![QUIT] {
            TerminalActionModel::Quit
        } else {
            TerminalActionModel::Send(keys)
        },
        TerminalEventModel::Sent { in_time: true } => TerminalActionModel::Wait,
        TerminalEventModel::Output(Some(bytes)) => TerminalActionModel::Show(bytes),
        _ => TerminalActionModel::Quit,
    }
}

/// Decides what a terminal does after an event.
pub fn terminal_step(event: TerminalEvent) -> (action: TerminalAction)
    ensures
        action@ == terminal_action(event@),
        event matches TerminalEvent::Output(Some(bytes)) ==> (action matches TerminalAction::Show(shown)
            && shown@ == bytes@),
        event matches TerminalEvent::Keys(Some(keys)) ==> (action is Quit <==> keys@.len() == 1 && keys@[0]
            == 0x1d),
        event matches TerminalEvent::Keys(Some(keys)) ==> (action is Quit || (
        action matches TerminalAction::Send(sent) && sent@ == keys@)),
{
    match event {
        TerminalEvent::Keys(Some(keys)) => {
            if keys.len() == 1 && keys[0] == QUIT {
                assert(keys@ =~= seq![QUIT]);
                TerminalAction::Quit
            } else {
                TerminalAction::Send(keys)
            }
        },
        TerminalEvent::Keys(None) => TerminalAction::Quit,
        TerminalEvent::Sent { in_time } => {
            if in_time {
                TerminalAction::Wait
            } else {
                TerminalAction::Quit
            }
        },
        TerminalEvent::Output(Some(bytes)) => TerminalAction::Show(bytes),
        TerminalEvent::Output(None) => TerminalAction::Quit,
    }
}

/// What happened to the reader of the keyboard.
#[derive(Debug, PartialEq, Eq)]
pub enum KeyEvent {
    /// The keyboard could not be read.
    ReadFailed,
    /// Reading filled the first `len` bytes of a buffer.
    Read { buffer: Vec<u8>, len: usize },
    /// What was read was handed to the terminal, which took it or is gone.
    Forwarded { taken: bool },
    /// The terminal told the reader to stop.
    Stop,
    /// Something else happened.
    Other,
}

/// What the reader of the keyboard does next.
#[derive(Debug, PartialEq, Eq)]
pub enum KeyAction {
    /// Look at the next event.
    Next,
    /// Leave the events that are left and wait for new ones.
    Poll,
    /// Interrupt the program, then wait for new events.
    Interrupt,
    /// Hand bytes to the terminal.
    Forward(Vec<u8>),
    /// End the reader.
    Stop,
}

/// A [`KeyEvent`] in the model.
#[verifier::ext_equal]
pub enum KeyEventModel {
    ReadFailed,
    Read { buffer: Seq<u8>, len: nat },
    Forwarded { taken: bool },
    Stop,
    Other,
}

/// A [`KeyAction`] in the model.
#[verifier::ext_equal]
pub enum KeyActionModel {
    Next,
    Poll,
    Interrupt,
    Forward(Seq<u8>),
    Stop,
}

impl View for KeyEvent {
    type V = KeyEventModel;

    open spec fn view(&self) -> KeyEventModel {
        match *self {
            KeyEvent::ReadFailed => KeyEventModel::ReadFailed,
            KeyEvent::Read { buffer, len } => KeyEventModel::Read { buffer: buffer@, len: len as nat },
            KeyEvent::Forwarded { taken } => KeyEventModel::Forwarded { taken },
            KeyEvent::Stop => KeyEventModel::Stop,
            KeyEvent::Other => KeyEventModel::Other,
        }
    }
}

impl View for KeyAction {
    type V = KeyActionModel;

    open spec fn view(&self) -> KeyActionModel {
        match *self {
            KeyAction::Next => KeyActionModel::Next,
            KeyAction::Poll => KeyActionModel::Poll,
            KeyAction::Interrupt => KeyActionModel::Interrupt,
            KeyAction::Forward(bytes) => KeyActionModel::Forward(bytes@),
            KeyAction::Stop => KeyActionModel::Stop,
        }
    }
}

/// The action that follows each event at the keyboard: bytes are handed on,
/// unless the quit character is among them, which interrupts the program.
pub open spec fn key_action(event: KeyEventModel) -> KeyActionModel {
    match event {
        KeyEventModel::ReadFailed => KeyActionModel::Poll,
        KeyEventModel::Read { buffer, len } => if len == 0 {
            KeyActionModel::Next
        } else if buffer.contains(QUIT) {
            KeyActionModel::Interrupt
        } else {
            KeyActionModel::Forward(buffer.take(len as int))
        },
        KeyEventModel::Forwarded { taken: true } => KeyActionModel::Next,
        KeyEventModel::Forwarded { taken: false } => KeyActionModel::Stop,
        KeyEventModel::Stop => KeyActionModel::Stop,
        KeyEventModel::Other => KeyActionModel::Next,
    }
}

/// Tells whether the quit character is among the bytes.
fn has_quit(bytes: &[u8]) -> (found: bool)
    ensures
        found == bytes@.contains(QUIT),
{
    let mut i: usize = 0;
    while i < bytes.len()
        invariant
            i <= bytes@.len(),
            forall|j: int| 0 <= j < i ==> bytes@[j] != QUIT,
        decreases bytes@.len() - i,
    {
        if bytes[i] == QUIT {
            return true;
        }
        i += 1;
    }
    false
}

/// Decides what the reader of the keyboard does after an event.
pub fn key_step(event: KeyEvent) -> (action: KeyAction)
    requires
        event matches KeyEvent::Read { buffer, len } ==> len <= buffer@.len(),
    ensures
        action@ == key_action(event@),
        event matches KeyEvent::Read { buffer, len } ==> (len > 0 && !buffer@.contains(0x1d)
            ==> (action matches KeyAction::Forward(bytes) && bytes@ == buffer@.take(len as int))),
{
    match event {
        KeyEvent::ReadFailed => KeyAction::Poll,
        KeyEvent::Read { buffer, len } => {
            if len == 0 {
                KeyAction::Next
            } else if has_quit(buffer.as_slice()) {
                KeyAction::Interrupt
            } else {
                KeyAction::Forward(
                    vstd::slice::slice_to_vec(
                        vstd::slice::slice_subrange(buffer.as_slice(), 0, len),
                    ),
                )
            }
        },
        KeyEvent::Forwarded { taken } => {
            if taken {
                KeyAction::Next
            } else {
                KeyAction::Stop
            }
        },
        KeyEvent::Stop => KeyAction::Stop,
        KeyEvent::Other => KeyAction::Next,
    }
}

/// The quit character never reaches the target: what the reader of the
/// keyboard hands on does not hold it, and the terminal sends it unchanged.
pub proof fn law_quit_is_not_sent(buffer: Seq<u8>, len: nat, keys: Seq<u8>)
    requires
        len <= buffer.len(),
        key_action(KeyEventModel::Read { buffer, len }) == KeyActionModel::Forward(keys),
    ensures
        keys.len() > 0,
        !keys.contains(QUIT),
        terminal_action(TerminalEventModel::Keys(Some(keys))) == TerminalActionModel::Send(keys),
{
    assert forall|i: int| 0 <= i < keys.len() implies keys[i] != QUIT by {
        assert(buffer.contains(buffer[i]));
    }
    if keys == seq![QUIT] {
        assert(keys[0] == QUIT);
    }
}

/// The user sees all that the target prints, and nothing else: the bytes that
/// are shown are those that were delivered, as many and each at its place. The
/// terminal ends where the target's line is closed.
pub proof fn law_output_is_shown(bytes: Seq<u8>)
    ensures
        terminal_action(TerminalEventModel::Output(Some(bytes))) matches TerminalActionModel::Show(shown)
            && shown.len() == bytes.len() && forall|i: int|
            0 <= i < bytes.len() ==> #[trigger] shown[i] == bytes[i],
        terminal_action(TerminalEventModel::Output(None)) is Quit,
{
}

/// The target gets all that the user types, and nothing else: the bytes that
/// are sent are those that were typed, as many and each at its place. The one
/// exception is the quit character on its own, which ends the terminal, as does
/// the end of the keyboard.
pub proof fn law_keys_are_sent(keys: Seq<u8>)
    ensures
        keys.len() == 1 && keys[0] == 0x1d ==> terminal_action(TerminalEventModel::Keys(Some(keys))) is Quit,
        keys.len() != 1 || keys[0] != 0x1d ==> (terminal_action(
            TerminalEventModel::Keys(Some(keys)),
        ) matches TerminalActionModel::Send(sent) && sent.len() == keys.len() && forall|i: int|
            0 <= i < keys.len() ==> #[trigger] sent[i] == keys[i]),
        terminal_action(TerminalEventModel::Keys(None)) is Quit,
{
    if keys.len() == 1 && keys[0] == 0x1d {
        assert(keys =~= seq![QUIT]);
    }
}

/// The terminal goes on where the target took what it was sent in time, and
/// ends where it did not.
pub proof fn law_late_send_ends_terminal(in_time: bool)
    ensures
        in_time ==> terminal_action(TerminalEventModel::Sent { in_time }) is Wait,
        !in_time ==> terminal_action(TerminalEventModel::Sent { in_time }) is Quit,
{
}

/// What is read from the keyboard is handed on byte by byte, as much as was
/// read, unless the quit character stands in the buffer, which interrupts the
/// program.
pub proof fn law_keys_are_forwarded(buffer: Seq<u8>, len: nat)
    requires
        len <= buffer.len(),
    ensures
        len == 0 ==> key_action(KeyEventModel::Read { buffer, len }) is Next,
        len > 0 && (exists|i: int| 0 <= i < buffer.len() && buffer[i] == 0x1d) ==> key_action(
            KeyEventModel::Read { buffer, len },
        ) is Interrupt,
        len > 0 && (forall|i: int| 0 <= i < buffer.len() ==> buffer[i] != 0x1d) ==> (key_action(
            KeyEventModel::Read { buffer, len },
        ) matches KeyActionModel::Forward(keys) && keys.len() == len && forall|i: int|
            0 <= i < len ==> #[trigger] keys[i] == buffer[i]),
{
}

/// The reader of the keyboard ends where it is told to or where the terminal is
/// gone, waits for new events where the keyboard could not be read, and goes on
/// otherwise.
pub proof fn law_reader_goes_on(event: KeyEventModel)
    requires
        !(event is Read),
    ensures
        key_action(event) is Stop <==> event is Stop || event == (KeyEventModel::Forwarded { taken: false }),
        key_action(event) is Poll <==> event is ReadFailed,
        key_action(event) is Next <==> event is Other || event == (KeyEventModel::Forwarded { taken: true }),
{
}

/// The models of events and actions tell what the events and actions hold.
pub proof fn law_terminal_model(
    event: TerminalEvent,
    action: TerminalAction,
    key_event: KeyEvent,
    reaction: KeyAction,
)
    ensures
        match event {
            TerminalEvent::Keys(Some(keys)) => event@ == TerminalEventModel::Keys(Some(keys@)),
            TerminalEvent::Keys(None) => event@ == TerminalEventModel::Keys(None),
            TerminalEvent::Sent { in_time } => event@ == (TerminalEventModel::Sent { in_time }),
            TerminalEvent::Output(Some(bytes)) => event@ == TerminalEventModel::Output(Some(bytes@)),
            TerminalEvent::Output(None) => event@ == TerminalEventModel::Output(None),
        },
        match action {
            TerminalAction::Wait => action@ == TerminalActionModel::Wait,
            TerminalAction::Send(bytes) => action@ == TerminalActionModel::Send(bytes@),
            TerminalAction::Show(bytes) => action@ == TerminalActionModel::Show(bytes@),
            TerminalAction::Quit => action@ == TerminalActionModel::Quit,
        },
        match key_event {
            KeyEvent::ReadFailed => key_event@ == KeyEventModel::ReadFailed,
            KeyEvent::Read { buffer, len } => key_event@ == (KeyEventModel::Read {
                buffer: buffer@,
                len: len as nat,
            }),
            KeyEvent::Forwarded { taken } => key_event@ == (KeyEventModel::Forwarded { taken }),
            KeyEvent::Stop => key_event@ == KeyEventModel::Stop,
            KeyEvent::Other => key_event@ == KeyEventModel::Other,
        },
        match reaction {
            KeyAction::Next => reaction@ == KeyActionModel::Next,
            KeyAction::Poll => reaction@ == KeyActionModel::Poll,
            KeyAction::Interrupt => reaction@ == KeyActionModel::Interrupt,
            KeyAction::Forward(bytes) => reaction@ == KeyActionModel::Forward(bytes@),
            KeyAction::Stop => reaction@ == KeyActionModel::Stop,
        },
{
}

/// The keyboard is read ten bytes at a time, and what is typed must be sent
/// within half a second.
pub proof fn law_terminal_limits()
    ensures
        KEY_BUFFER == 10,
        SEND_MS == 500,
{
}

} // verus!
