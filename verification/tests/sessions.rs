use k210_flash::error::Error;
use k210_flash::flash::flash_image;
use k210_flash::load::load_raw;
use k210_flash::session::{Session, SessionAction, SessionEvent};
use k210_flash::steps::Step;
use k210_flash::terminal::{
    key_step, terminal_step, KeyAction, KeyEvent, TerminalAction, TerminalEvent,
};

fn performed(session: &mut Session, mut action: SessionAction) -> (Vec<Step>, SessionAction) {
    let mut steps = Vec::new();
    while let SessionAction::Perform(step) = action {
        steps.push(step);
        action = session.advance(SessionEvent::Done);
    }
    (steps, action)
}

#[test]
fn loading_greets_reads_and_performs_every_step() {
    let image = vec![1u8; 3000];
    let (mut session, action) = Session::load();
    assert_eq!(action, SessionAction::Greet);
    assert_eq!(session.advance(SessionEvent::Done), SessionAction::ReadImage);
    let action = session.advance(SessionEvent::Image(image.clone()));
    let (steps, end) = performed(&mut session, action);
    assert_eq!(steps, load_raw(&image));
    assert_eq!(end, SessionAction::Finish(Ok(())));
}

#[test]
fn flashing_loads_the_programmer_first() {
    let programmer = vec![2u8; 2000];
    let image = vec![4u8; 100];
    let (mut session, action) = Session::flash(&programmer);
    assert_eq!(action, SessionAction::Greet);
    let action = session.advance(SessionEvent::Done);
    let (steps, action) = performed(&mut session, action);
    assert_eq!(steps, load_raw(&programmer));
    assert_eq!(action, SessionAction::ReadImage);
    let action = session.advance(SessionEvent::Image(image.clone()));
    let (steps, end) = performed(&mut session, action);
    assert_eq!(steps, flash_image(&image));
    assert_eq!(end, SessionAction::Finish(Ok(())));
}

#[test]
fn a_failure_ends_the_session() {
    let (mut session, _) = Session::load();
    assert_eq!(
        session.advance(SessionEvent::Failed(Error::Timeout)),
        SessionAction::Finish(Err(Error::Timeout))
    );
    let (mut session, _) = Session::load();
    session.advance(SessionEvent::Done);
    assert_eq!(
        session.advance(SessionEvent::Failed(Error::Io)),
        SessionAction::Finish(Err(Error::Io))
    );
    let (mut session, _) = Session::flash(&[1]);
    session.advance(SessionEvent::Done);
    session.advance(SessionEvent::Done);
    assert_eq!(
        session.advance(SessionEvent::Failed(Error::InvalidResponse)),
        SessionAction::Finish(Err(Error::InvalidResponse))
    );
}

#[test]
fn a_refused_file_ends_the_session() {
    let mut image = vec![0u8; 64];
    image[..5].copy_from_slice(&[0x7f, 0x45, 0x4c, 0x46, 2]);
    let (mut session, _) = Session::load();
    session.advance(SessionEvent::Done);
    assert_eq!(
        session.advance(SessionEvent::Image(image.clone())),
        SessionAction::Finish(Err(Error::NotRiscv))
    );
    let (mut session, _) = Session::load();
    session.advance(SessionEvent::Done);
    assert_eq!(
        session.advance(SessionEvent::Image(image[..53].to_vec())),
        SessionAction::Unloadable
    );
}

#[test]
fn the_terminal_sends_keys_and_shows_output() {
    assert_eq!(
        terminal_step(TerminalEvent::Keys(Some(vec![0x61, 0x62]))),
        TerminalAction::Send(vec![0x61, 0x62])
    );
    assert_eq!(
        terminal_step(TerminalEvent::Keys(Some(vec![0x1d, 0x62]))),
        TerminalAction::Send(vec![0x1d, 0x62])
    );
    assert_eq!(terminal_step(TerminalEvent::Sent { in_time: true }), TerminalAction::Wait);
    assert_eq!(
        terminal_step(TerminalEvent::Output(Some(vec![0x1d]))),
        TerminalAction::Show(vec![0x1d])
    );
}

#[test]
fn the_terminal_ends() {
    assert_eq!(terminal_step(TerminalEvent::Keys(Some(vec![0x1d]))), TerminalAction::Quit);
    assert_eq!(terminal_step(TerminalEvent::Keys(None)), TerminalAction::Quit);
    assert_eq!(terminal_step(TerminalEvent::Sent { in_time: false }), TerminalAction::Quit);
    assert_eq!(terminal_step(TerminalEvent::Output(None)), TerminalAction::Quit);
}

#[test]
fn the_keyboard_reader_hands_on_what_was_read() {
    let buffer = vec![0x61, 0x62, 0x63, 0, 0, 0, 0, 0, 0, 0];
    assert_eq!(
        key_step(KeyEvent::Read { buffer: buffer.clone(), len: 3 }),
        KeyAction::Forward(vec![0x61, 0x62, 0x63])
    );
    assert_eq!(key_step(KeyEvent::Read { buffer, len: 0 }), KeyAction::Next);
    assert_eq!(key_step(KeyEvent::Forwarded { taken: true }), KeyAction::Next);
    assert_eq!(key_step(KeyEvent::Forwarded { taken: false }), KeyAction::Stop);
}

#[test]
fn the_quit_character_is_never_handed_on() {
    let buffer = vec![0x61, 0x1d, 0x63, 0, 0, 0, 0, 0, 0, 0];
    assert_eq!(key_step(KeyEvent::Read { buffer: buffer.clone(), len: 3 }), KeyAction::Interrupt);
    assert_eq!(key_step(KeyEvent::Read { buffer, len: 0 }), KeyAction::Next);
}

#[test]
fn the_keyboard_reader_stops_and_polls() {
    assert_eq!(key_step(KeyEvent::Stop), KeyAction::Stop);
    assert_eq!(key_step(KeyEvent::ReadFailed), KeyAction::Poll);
    assert_eq!(key_step(KeyEvent::Other), KeyAction::Next);
}
