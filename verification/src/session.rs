//! Loading or flashing a file from beginning to end, as a course that the
//! caller performs step by step.
use crate::error::Error;
use crate::flash::{flash_image, flash_steps, sealed, SEAL_LEN};
use crate::load::{image_steps, load_image, load_outcome, load_raw, raw_steps, section_fits, LOAD_ADDRESS};
use crate::steps::{step_models, Step, StepModel};
use std::collections::VecDeque;
use vstd::prelude::*;

verus! {

/// What a session does with the file.
#[derive(Debug, Clone, Copy, PartialEq, Eq, Structural)]
pub enum Job {
    /// Load the file into memory and start it.
    Load,
    /// Write the file to flash.
    Flash,
}

/// How far a session has come.
#[derive(Debug, Clone, Copy, PartialEq, Eq, Structural)]
pub enum Stage {
    /// The boot ROM is being greeted.
    Greeting,
    /// The in-system programmer is being loaded.
    Programmer,
    /// The file is being read.
    Reading,
    /// The steps that the file asks for are being performed.
    Running,
    /// Nothing is left to do.
    Finished,
}

/// What the caller is to do next.
#[derive(Debug, PartialEq, Eq)]
pub enum SessionAction {
    /// Greet the boot ROM; report [`SessionEvent::Done`] or
    /// [`SessionEvent::Failed`].
    Greet,
    /// Read the file; report [`SessionEvent::Image`] or
    /// [`SessionEvent::Failed`].
    ReadImage,
    /// Perform a step; report [`SessionEvent::Done`] or
    /// [`SessionEvent::Failed`].
    Perform(Step),
    /// The session is over.
    Finish(Result<(), Error>),
    /// The session is over, for the file has no answer in
    /// [`image_steps`](crate::load::image_steps): what it says of itself, its
    /// program header table or a loaded segment is not all in the file, or what
    /// is to be loaded reaches beyond the last address.
    Unloadable,
}

/// What came of the last action.
#[derive(Debug, PartialEq, Eq)]
pub enum SessionEvent {
    /// It succeeded.
    Done,
    /// It failed.
    Failed(Error),
    /// The file was read.
    Image(Vec<u8>),
}

/// The course of loading or flashing one file.
pub struct Session {
    job: Job,
    stage: Stage,
    queue: VecDeque<Step>,
}

/// A session in the model.
#[verifier::ext_equal]
pub struct SessionModel {
    pub job: Job,
    pub stage: Stage,
    pub queue: Seq<StepModel>,
}

/// A [`SessionAction`] in the model.
#[verifier::ext_equal]
pub enum SessionActionModel {
    Greet,
    ReadImage,
    Perform(StepModel),
    Finish(Result<(), Error>),
    Unloadable,
}

/// A [`SessionEvent`] in the model.
#[verifier::ext_equal]
pub enum SessionEventModel {
    Done,
    Failed(Error),
    Image(Seq<u8>),
}

impl View for Session {
    type V = SessionModel;

    closed spec fn view(&self) -> SessionModel {
        SessionModel { job: self.job, stage: self.stage, queue: step_models(self.queue@) }
    }
}

impl View for SessionAction {
    type V = SessionActionModel;

    open spec fn view(&self) -> SessionActionModel {
        match *self {
            SessionAction::Greet => SessionActionModel::Greet,
            SessionAction::ReadImage => SessionActionModel::ReadImage,
            SessionAction::Perform(step) => SessionActionModel::Perform(step@),
            SessionAction::Finish(result) => SessionActionModel::Finish(result),
            SessionAction::Unloadable => SessionActionModel::Unloadable,
        }
    }
}

impl View for SessionEvent {
    type V = SessionEventModel;

    open spec fn view(&self) -> SessionEventModel {
        match *self {
            SessionEvent::Done => SessionEventModel::Done,
            SessionEvent::Failed(error) => SessionEventModel::Failed(error),
            SessionEvent::Image(bytes) => SessionEventModel::Image(bytes@),
        }
    }
}

/// The events that can follow the last action.
pub open spec fn allows(m: SessionModel, event: SessionEventModel) -> bool {
    match m.stage {
        Stage::Finished => false,
        Stage::Reading => event is Image || event is Failed,
        _ => event is Done || event is Failed,
    }
}

/// A session that is over.
pub open spec fn over(m: SessionModel, action: SessionActionModel) -> (
    SessionModel,
    SessionActionModel,
) {
    (SessionModel { stage: Stage::Finished, ..m }, action)
}

/// A session that performs the steps in its queue at the given stage. Behind
/// the last step of the programmer the file is read; behind the last step of
/// the file the session is over.
pub open spec fn proceed(m: SessionModel, stage: Stage) -> (SessionModel, SessionActionModel) {
    if m.queue.len() > 0 {
        (
            SessionModel { stage, queue: m.queue.drop_first(), ..m },
            SessionActionModel::Perform(m.queue[0]),
        )
    } else if stage is Programmer {
        (SessionModel { stage: Stage::Reading, ..m }, SessionActionModel::ReadImage)
    } else {
        over(m, SessionActionModel::Finish(Ok(())))
    }
}

/// The steps that a file asks for, or how it ends the session.
pub open spec fn file_steps(job: Job, image: Seq<u8>) -> Option<Result<Seq<StepModel>, Error>> {
    match job {
        Job::Load => image_steps(image),
        Job::Flash => if image.len() + SEAL_LEN <= u32::MAX {
            Some(Ok(flash_steps(sealed(image))))
        } else {
            None
        },
    }
}

/// The session and the next action, after an event. The first failure ends the
/// session.
pub open spec fn session_step(m: SessionModel, event: SessionEventModel) -> (
    SessionModel,
    SessionActionModel,
) {
    match event {
        SessionEventModel::Failed(error) => over(m, SessionActionModel::Finish(Err(error))),
        SessionEventModel::Image(image) => match file_steps(m.job, image) {
            Some(Ok(steps)) => proceed(SessionModel { queue: steps, ..m }, Stage::Running),
            Some(Err(error)) => over(m, SessionActionModel::Finish(Err(error))),
            None => over(m, SessionActionModel::Unloadable),
        },
        SessionEventModel::Done => match (m.stage, m.job) {
            (Stage::Greeting, Job::Load) => (
                SessionModel { stage: Stage::Reading, ..m },
                SessionActionModel::ReadImage,
            ),
            (Stage::Greeting, Job::Flash) => proceed(m, Stage::Programmer),
            _ => proceed(m, m.stage),
        },
    }
}

fn queue_of(steps: Vec<Step>) -> (queue: VecDeque<Step>)
    ensures
        queue@ == steps@,
{
    let mut queue: VecDeque<Step> = VecDeque::new();
    let ghost all = steps@;
    assert(all.take(0) =~= Seq::empty());
    for step in each: steps
        invariant
            each.seq() == all,
            queue@ == all.take(each.index() as int),
    {
        assert(all.take(each.index() + 1) =~= all.take(each.index() as int).push(step));
        queue.push_back(step);
    }
    assert(all.take(all.len() as int) =~= all);
    queue
}

impl Session {
    /// Begins to load a file: the boot ROM is greeted first.
    pub fn load() -> (begun: (Session, SessionAction))
        ensures
            begun.0@ == (SessionModel { job: Job::Load, stage: Stage::Greeting, queue: Seq::empty() }),
            begun.1@ == SessionActionModel::Greet,
    {
        let queue: VecDeque<Step> = VecDeque::new();
        assert(step_models(queue@) =~= Seq::empty());
        (Session { job: Job::Load, stage: Stage::Greeting, queue }, SessionAction::Greet)
    }

    /// Begins to flash a file by means of the in-system programmer: the boot
    /// ROM is greeted first.
    pub fn flash(programmer: &[u8]) -> (begun: (Session, SessionAction))
        requires
            section_fits(LOAD_ADDRESS, programmer@.len()),
        ensures
            begun.0@ == (SessionModel {
                job: Job::Flash,
                stage: Stage::Greeting,
                queue: raw_steps(programmer@),
            }),
            begun.1@ == SessionActionModel::Greet,
    {
        let queue = queue_of(load_raw(programmer));
        (Session { job: Job::Flash, stage: Stage::Greeting, queue }, SessionAction::Greet)
    }

    fn end(&mut self, result: Result<(), Error>) -> (action: SessionAction)
        ensures
            (final(self)@, action@) == over(old(self)@, SessionActionModel::Finish(result)),
    {
        self.stage = Stage::Finished;
        SessionAction::Finish(result)
    }

    fn take_step(&mut self, stage: Stage) -> (action: SessionAction)
        ensures
            (final(self)@, action@) == proceed(old(self)@, stage),
    {
        let ghost before = self@;
        match self.queue.pop_front() {
            Some(step) => {
                self.stage = stage;
                assert(self@.queue =~= before.queue.drop_first());
                SessionAction::Perform(step)
            },
            None => {
                if let Stage::Programmer = stage {
                    self.stage = Stage::Reading;
                    SessionAction::ReadImage
                } else {
                    self.end(Ok(()))
                }
            },
        }
    }

    fn steps_for(&self, image: &Vec<u8>) -> (outcome: Option<Result<Vec<Step>, Error>>)
        ensures
            load_outcome(outcome) == file_steps(self@.job, image@),
    {
        match self.job {
            Job::Load => load_image(image),
            Job::Flash => {
                if image.len() as u64 <= u32::MAX as u64 - SEAL_LEN as u64 {
                    Some(Ok(flash_image(image.as_slice())))
                } else {
                    None
                }
            },
        }
    }

    /// Takes the session further after an event that its last action allows.
    pub fn advance(&mut self, event: SessionEvent) -> (action: SessionAction)
        requires
            allows(old(self)@, event@),
        ensures
            (final(self)@, action@) == session_step(old(self)@, event@),
    {
        match event {
            SessionEvent::Failed(error) => self.end(Err(error)),
            SessionEvent::Image(image) => match self.steps_for(&image) {
                Some(Ok(steps)) => {
                    self.queue = queue_of(steps);
                    self.take_step(Stage::Running)
                },
                Some(Err(error)) => self.end(Err(error)),
                None => {
                    self.stage = Stage::Finished;
                    SessionAction::Unloadable
                },
            },
            SessionEvent::Done => match (self.stage, self.job) {
                (Stage::Greeting, Job::Load) => {
                    self.stage = Stage::Reading;
                    SessionAction::ReadImage
                },
                (Stage::Greeting, Job::Flash) => self.take_step(Stage::Programmer),
                _ => {
                    let stage = self.stage;
                    self.take_step(stage)
                },
            },
        }
    }
}

/// The session and the last action, after `n` steps that succeeded.
pub open spec fn after_done(m: SessionModel, n: nat) -> (SessionModel, SessionActionModel)
    decreases n,
{
    if n <= 1 {
        session_step(m, SessionEventModel::Done)
    } else {
        session_step(after_done(m, (n - 1) as nat).0, SessionEventModel::Done)
    }
}

proof fn lemma_after_done(m: SessionModel, n: nat)
    requires
        m.stage is Programmer || m.stage is Running,
        1 <= n <= m.queue.len(),
    ensures
        after_done(m, n) == (
            SessionModel { queue: m.queue.skip(n as int), ..m },
            SessionActionModel::Perform(m.queue[n - 1]),
        ),
    decreases n,
{
    if n == 1 {
        assert(m.queue.drop_first() =~= m.queue.skip(1));
    } else {
        lemma_after_done(m, (n - 1) as nat);
        assert(m.queue.skip(n - 1).drop_first() =~= m.queue.skip(n as int));
    }
}

/// While steps succeed, a session performs the steps in its queue one after
/// the other, each once and none left out; then it reads the file, if that is
/// still to be done, or ends well.
pub proof fn law_session_performs_all(m: SessionModel, n: nat)
    requires
        m.stage is Programmer || m.stage is Running,
        1 <= n <= m.queue.len() + 1,
    ensures
        n <= m.queue.len() ==> after_done(m, n).1 == SessionActionModel::Perform(m.queue[n - 1]),
        n == m.queue.len() + 1 && m.stage is Programmer ==> after_done(m, n).1
            == SessionActionModel::ReadImage,
        n == m.queue.len() + 1 && m.stage is Running ==> after_done(m, n).1
            == SessionActionModel::Finish(Ok(())),
{
    if n <= m.queue.len() {
        lemma_after_done(m, n);
    } else if n > 1 {
        lemma_after_done(m, (n - 1) as nat);
        assert(m.queue.skip(n - 1) =~= Seq::empty());
    }
}

/// A session performs exactly the steps that the file asks for, in order, and
/// then ends well, as long as every step succeeds.
pub proof fn law_file_is_performed(m: SessionModel, image: Seq<u8>, steps: Seq<StepModel>, n: nat)
    requires
        m.stage is Reading,
        file_steps(m.job, image) == Some(Ok::<Seq<StepModel>, Error>(steps)),
        n <= steps.len(),
    ensures
        ({
            let begun = session_step(m, SessionEventModel::Image(image));
            let last = if n == 0 {
                begun.1
            } else {
                after_done(begun.0, n).1
            };
            &&& n < steps.len() ==> last == SessionActionModel::Perform(steps[n as int])
            &&& n == steps.len() ==> last == SessionActionModel::Finish(Ok(()))
        }),
{
    let begun = session_step(m, SessionEventModel::Image(image));
    if n > 0 {
        assert(begun.0.queue == steps.drop_first());
        law_session_performs_all(begun.0, n);
    }
}

/// A failure ends a session at once, with the error of the step that failed,
/// and a session that is over takes no further event.
pub proof fn law_session_stops_at_failure(m: SessionModel, error: Error, later: SessionEventModel)
    requires
        allows(m, SessionEventModel::Failed(error)),
    ensures
        session_step(m, SessionEventModel::Failed(error)).1 == SessionActionModel::Finish(Err(error)),
        !allows(session_step(m, SessionEventModel::Failed(error)).0, later),
{
}

/// A session is over exactly when its last action says so.
pub proof fn law_session_end(m: SessionModel, event: SessionEventModel)
    requires
        allows(m, event),
    ensures
        session_step(m, event).0.stage is Finished <==> session_step(m, event).1 is Finish || session_step(
            m,
            event,
        ).1 is Unloadable,
{
}

/// The in-system programmer is in memory and started before the file that is
/// to be flashed is read.
pub proof fn law_programmer_first(programmer: Seq<u8>, n: nat)
    requires
        1 <= n <= raw_steps(programmer).len() + 1,
    ensures
        ({
            let begun = SessionModel {
                job: Job::Flash,
                stage: Stage::Greeting,
                queue: raw_steps(programmer),
            };
            &&& n <= raw_steps(programmer).len() ==> after_done(begun, n).1
                == SessionActionModel::Perform(raw_steps(programmer)[n - 1])
            &&& n == raw_steps(programmer).len() + 1 ==> after_done(begun, n).1
                == SessionActionModel::ReadImage
        }),
{
    let begun = SessionModel { job: Job::Flash, stage: Stage::Greeting, queue: raw_steps(programmer) };
    let loading = SessionModel { stage: Stage::Programmer, ..begun };
    lemma_greeted_like_loading(begun, loading, n);
    law_session_performs_all(loading, n);
}

proof fn lemma_greeted_like_loading(begun: SessionModel, loading: SessionModel, n: nat)
    requires
        begun.job is Flash,
        begun.stage is Greeting,
        loading == (SessionModel { stage: Stage::Programmer, ..begun }),
        n >= 1,
        begun.queue.len() > 0,
    ensures
        after_done(begun, n) == after_done(loading, n),
    decreases n,
{
    if n > 1 {
        lemma_greeted_like_loading(begun, loading, (n - 1) as nat);
    }
}

/// Whatever can come of the last action is allowed: a file or a failure where
/// the file is being read, success or failure where something else is under
/// way, and nothing behind the end.
pub proof fn law_allowed_events(m: SessionModel, event: SessionEventModel)
    ensures
        m.stage is Finished ==> !allows(m, event),
        m.stage is Reading ==> (allows(m, event) <==> event is Image || event is Failed),
        m.stage is Greeting || m.stage is Programmer || m.stage is Running ==> (allows(m, event)
            <==> event is Done || event is Failed),
{
}

/// A session that loads a file greets the boot ROM, then reads the file, then
/// performs the steps that load it, one after the other and all of them, and
/// ends well behind the last. A file that is refused ends the session with the
/// error, and one that cannot be loaded ends it too.
pub proof fn law_load_session(m: SessionModel, image: Seq<u8>, n: nat)
    requires
        m.job is Load,
        m.stage is Greeting,
    ensures
        ({
            let read = session_step(m, SessionEventModel::Done);
            let begun = session_step(read.0, SessionEventModel::Image(image));
            let last = if n == 0 {
                begun.1
            } else {
                after_done(begun.0, n).1
            };
            &&& read.1 == SessionActionModel::ReadImage
            &&& read.0.stage is Reading
            &&& match image_steps(image) {
                Some(Ok(steps)) => {
                    &&& n < steps.len() ==> last == SessionActionModel::Perform(steps[n as int])
                    &&& n == steps.len() ==> last == SessionActionModel::Finish(Ok(()))
                },
                Some(Err(error)) => begun.1 == SessionActionModel::Finish(Err(error))
                    && begun.0.stage is Finished,
                None => begun.1 == SessionActionModel::Unloadable && begun.0.stage is Finished,
            }
        }),
{
    let read = session_step(m, SessionEventModel::Done);
    if let Some(Ok(steps)) = image_steps(image) {
        if n <= steps.len() {
            law_file_is_performed(read.0, image, steps, n);
        }
    }
}

/// A session that flashes a file greets the boot ROM, performs all the steps
/// that load and start the programmer, then reads the file, seals it, performs
/// all the steps that write it to flash, and ends well behind the last. A file
/// that is too long for the flash addresses ends the session.
pub proof fn law_flash_session(programmer: Seq<u8>, image: Seq<u8>, n: nat)
    ensures
        ({
            let greeted = SessionModel {
                job: Job::Flash,
                stage: Stage::Greeting,
                queue: raw_steps(programmer),
            };
            let read = after_done(greeted, raw_steps(programmer).len() + 1);
            let begun = session_step(read.0, SessionEventModel::Image(image));
            let last = if n == 0 {
                begun.1
            } else {
                after_done(begun.0, n).1
            };
            let steps = flash_steps(sealed(image));
            let fits = image.len() + 37 <= u32::MAX;
            &&& read.1 == SessionActionModel::ReadImage
            &&& read.0.stage is Reading
            &&& fits && n < steps.len() ==> last == SessionActionModel::Perform(steps[n as int])
            &&& fits && n == steps.len() ==> last == SessionActionModel::Finish(Ok(()))
            &&& !fits ==> begun.1 == SessionActionModel::Unloadable && begun.0.stage is Finished
        }),
{
    let queue = raw_steps(programmer);
    let greeted = SessionModel { job: Job::Flash, stage: Stage::Greeting, queue };
    let loading = SessionModel { stage: Stage::Programmer, ..greeted };
    lemma_greeted_like_loading(greeted, loading, queue.len() + 1);
    lemma_greeted_like_loading(greeted, loading, queue.len());
    lemma_after_done(loading, queue.len());
    assert(loading.queue.skip(queue.len() as int) =~= Seq::empty());
    let read = after_done(greeted, queue.len() + 1);
    let steps = flash_steps(sealed(image));
    if image.len() + 37 <= u32::MAX && n <= steps.len() {
        law_file_is_performed(read.0, image, steps, n);
    }
}

/// The models of an action and of an event tell what the action and the event
/// hold.
pub proof fn law_session_model(action: SessionAction, event: SessionEvent)
    ensures
        match action {
            SessionAction::Greet => action@ == SessionActionModel::Greet,
            SessionAction::ReadImage => action@ == SessionActionModel::ReadImage,
            SessionAction::Perform(step) => action@ == SessionActionModel::Perform(step@),
            SessionAction::Finish(result) => action@ == SessionActionModel::Finish(result),
            SessionAction::Unloadable => action@ == SessionActionModel::Unloadable,
        },
        match event {
            SessionEvent::Done => event@ == SessionEventModel::Done,
            SessionEvent::Failed(error) => event@ == SessionEventModel::Failed(error),
            SessionEvent::Image(bytes) => event@ == SessionEventModel::Image(bytes@),
        },
{
}

} // verus!
