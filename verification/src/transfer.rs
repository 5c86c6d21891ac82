//! The transfer itself, one step at a time. The library decides what is done
//! next; the caller does it and reports how it went. A file is marked as
//! copied only in answer to the report that its copy succeeded, and the
//! record is stored right after, so a transfer that is cut short at any point
//! can be taken up again: what is marked has been copied, and what is not
//! marked is copied anew.

use crate::paths::{file_name, join, path_file_name, path_join};
use crate::session::{session_views, DatedFileView, Session, SessionView};
use crate::state::{file_key, file_key_spec, TransferState, TransferStateView};
use crate::text::{text_of, texts_of};
use vstd::prelude::*;

verus! {

/// How the action that was asked for last has ended. The first step of a
/// transfer, which follows no action, is taken with `Succeeded`.
#[derive(Debug, Clone, Copy, PartialEq, Eq)]
pub enum Outcome {
    Succeeded,
    Failed,
}

/// What the caller is asked to do next.
#[derive(Debug, PartialEq, Eq)]
pub enum Action {
    /// Make sure that the folder of a session exists.
    CreateFolder { path: String },
    /// Nothing to copy: the file was copied by an earlier run. Its size
    /// counts as progress.
    Skip { source: String },
    /// Nothing to copy either: in a dry run, say what would be copied where.
    Preview { source: String, destination: String },
    /// Copy the file, byte by byte, and give the copy the time of its source.
    Copy { source: String, destination: String },
    /// Store the record of the transfer in both directories.
    Persist,
    /// The transfer is complete.
    Finish,
    /// The last action failed: the transfer ends here, with that failure.
    Abort,
}

/// What an action holds.
pub enum ActionView {
    CreateFolder { path: Seq<char> },
    Skip { source: Seq<char> },
    Preview { source: Seq<char>, destination: Seq<char> },
    Copy { source: Seq<char>, destination: Seq<char> },
    Persist,
    Finish,
    Abort,
}

impl View for Action {
    type V = ActionView;

    open spec fn view(&self) -> ActionView {
        match self {
            Action::CreateFolder { path } => ActionView::CreateFolder { path: path@ },
            Action::Skip { source } => ActionView::Skip { source: source@ },
            Action::Preview { source, destination } => ActionView::Preview {
                source: source@,
                destination: destination@,
            },
            Action::Copy { source, destination } => ActionView::Copy {
                source: source@,
                destination: destination@,
            },
            Action::Persist => ActionView::Persist,
            Action::Finish => ActionView::Finish,
            Action::Abort => ActionView::Abort,
        }
    }
}

/// What a transfer is busy with.
#[derive(Debug, Clone, Copy, PartialEq, Eq)]
pub enum Stage {
    /// About to enter a session.
    Entering,
    /// About to look at a file of the session.
    Files,
    /// The copy of a file has been asked for.
    Copying,
    /// An action has failed.
    Stopped,
}

/// How far a transfer has come: the session and the file it has reached.
#[derive(Debug)]
pub struct TransferCursor {
    session: usize,
    file: usize,
    stage: Stage,
}

/// Where a transfer stands: at which session, at which file of it, and in
/// which stage.
pub struct CursorView {
    pub session: int,
    pub file: int,
    pub stage: Stage,
}

impl View for TransferCursor {
    type V = CursorView;

    closed spec fn view(&self) -> CursorView {
        CursorView { session: self.session as int, file: self.file as int, stage: self.stage }
    }
}

/// What is to be transferred, and how.
pub struct Job {
    pub sessions: Seq<SessionView>,
    pub output_dir: Seq<char>,
    pub input_dir: Seq<char>,
    pub dry_run: bool,
}

/// What a transfer does from some point on if nothing fails: the actions it
/// asks for, and the files that are marked as copied in the end.
pub struct Run {
    pub actions: Seq<ActionView>,
    pub completed: Set<Seq<char>>,
}

/// One move of a transfer: the action it asks for, if it asks for one, the
/// files that are marked once the action has succeeded, and where the
/// transfer then stands.
pub struct Move {
    pub action: Option<ActionView>,
    pub completed: Set<Seq<char>>,
    pub at: CursorView,
}

impl Run {
    /// The run that begins with `action` and goes on as this one.
    pub open spec fn after(self, action: ActionView) -> Run {
        Run { actions: seq![action] + self.actions, completed: self.completed }
    }
}

/// The name of a file, or the empty name for a path that has none.
pub open spec fn name_or_empty_spec(name: Option<Seq<char>>) -> Seq<char> {
    match name {
        Some(n) => n,
        None => Seq::empty(),
    }
}

/// Where a file is copied to: into the folder of its session under the output
/// directory, under its own name.
pub open spec fn destination_spec(
    output_dir: Seq<char>,
    folder_name: Seq<char>,
    source: Seq<char>,
) -> Seq<char> {
    path_join(path_join(output_dir, folder_name), name_or_empty_spec(path_file_name(source)))
}

impl Job {
    /// The key of the file at `file` in the session at `session`.
    pub open spec fn key(self, session: int, file: int) -> Seq<char> {
        file_key_spec(self.sessions[session].files[file].path, self.input_dir)
    }

    /// Whether there is such a file.
    pub open spec fn has(self, session: int, file: int) -> bool {
        0 <= session < self.sessions.len() && 0 <= file < self.sessions[session].files.len()
    }

    /// How many files of its session a transfer at `at` has still to look at.
    pub open spec fn files_left(self, at: CursorView) -> int {
        if 0 <= at.session < self.sessions.len() && 0 <= at.file
            < self.sessions[at.session].files.len() {
            self.sessions[at.session].files.len() - at.file
        } else {
            0
        }
    }

    /// The next move of a transfer at `at`, with `completed` marked so far;
    /// `None` where the transfer has come to its end.
    pub open spec fn next_move(self, completed: Set<Seq<char>>, at: CursorView) -> Option<Move> {
        if at.stage is Stopped || at.session < 0 || at.session >= self.sessions.len() {
            None
        } else {
            let session = self.sessions[at.session];
            let next_session = CursorView {
                session: at.session + 1,
                file: 0,
                stage: Stage::Entering,
            };
            let next_file = CursorView {
                session: at.session,
                file: at.file + 1,
                stage: Stage::Files,
            };
            if at.stage is Entering {
                Some(
                    Move {
                        action: if self.dry_run {
                            None
                        } else {
                            Some(
                                ActionView::CreateFolder {
                                    path: path_join(self.output_dir, session.folder_name),
                                },
                            )
                        },
                        completed,
                        at: CursorView { session: at.session, file: 0, stage: Stage::Files },
                    },
                )
            } else if at.file < 0 || at.file >= session.files.len() {
                Some(Move { action: None, completed, at: next_session })
            } else {
                let source = session.files[at.file].path;
                let destination = destination_spec(self.output_dir, session.folder_name, source);
                let key = self.key(at.session, at.file);
                if at.stage is Copying {
                    Some(
                        Move {
                            action: Some(ActionView::Persist),
                            completed: completed.insert(key),
                            at: next_file,
                        },
                    )
                } else if completed.contains(key) {
                    Some(
                        Move { action: Some(ActionView::Skip { source }), completed, at: next_file },
                    )
                } else if self.dry_run {
                    Some(
                        Move {
                            action: Some(ActionView::Preview { source, destination }),
                            completed,
                            at: next_file,
                        },
                    )
                } else {
                    Some(
                        Move {
                            action: Some(ActionView::Copy { source, destination }),
                            completed,
                            at: CursorView {
                                session: at.session,
                                file: at.file,
                                stage: Stage::Copying,
                            },
                        },
                    )
                }
            }
        }
    }

    /// What the transfer does from `at` on, with `completed` marked so far.
    pub open spec fn remaining(self, completed: Set<Seq<char>>, at: CursorView) -> Run
        decreases
            self.sessions.len() - at.session,
            (if at.stage is Entering {
                1int
            } else {
                0int
            }),
            self.files_left(at),
            (if at.stage is Copying {
                0int
            } else {
                1int
            }),
    {
        match self.next_move(completed, at) {
            None => Run { actions: Seq::empty(), completed },
            Some(step) => {
                let rest = self.remaining(step.completed, step.at);
                match step.action {
                    Some(action) => rest.after(action),
                    None => rest,
                }
            },
        }
    }

    /// The next move of a transfer at `at` that asks for an action, or the
    /// move without action at which the transfer has come to its end.
    pub open spec fn step(self, completed: Set<Seq<char>>, at: CursorView) -> Move
        decreases
            self.sessions.len() - at.session,
            (if at.stage is Entering {
                1int
            } else {
                0int
            }),
            self.files_left(at),
            (if at.stage is Copying {
                0int
            } else {
                1int
            }),
    {
        match self.next_move(completed, at) {
            None => Move { action: None, completed, at },
            Some(step) => if step.action is Some {
                step
            } else {
                self.step(step.completed, step.at)
            },
        }
    }

    /// The key of the file whose copy the transfer at `at` has asked for, if
    /// it has asked for one.
    pub open spec fn awaited(self, at: CursorView) -> Option<Seq<char>> {
        if at.stage is Copying && self.has(at.session, at.file) {
            Some(self.key(at.session, at.file))
        } else {
            None
        }
    }
}

/// The cursor of a transfer that has not begun.
pub open spec fn start() -> CursorView {
    CursorView { session: 0, file: 0, stage: Stage::Entering }
}

impl TransferCursor {
    /// The cursor of a transfer that has not begun.
    pub fn new() -> (cursor: Self)
        ensures
            cursor@ == start(),
    {
        TransferCursor { session: 0, file: 0, stage: Stage::Entering }
    }
}

/// The name of a file, or the empty name for a path that has none.
pub fn name_or_empty(name: Option<String>) -> (text: String)
    ensures
        text@ == name_or_empty_spec(text_of(name)),
{
    match name {
        Some(n) => n,
        None => String::new(),
    }
}

/// Where a file is copied to.
pub fn destination(output_dir: &str, folder_name: &str, source: &str) -> (path: String)
    ensures
        path@ == destination_spec(output_dir@, folder_name@, source@),
{
    let folder = join(output_dir, folder_name);
    let name = name_or_empty(file_name(source));
    join(folder.as_str(), name.as_str())
}

proof fn lemma_run_after(rest: Run, action: ActionView)
    ensures
        rest.after(action).actions.len() > 0,
        rest.after(action).actions[0] == action,
        rest.after(action).actions.skip(1) == rest.actions,
        rest.after(action).completed == rest.completed,
{
    assert(rest.after(action).actions.skip(1) =~= rest.actions);
}

/// The job that a call describes.
pub open spec fn job_of(
    sessions: Seq<Session>,
    output_dir: Seq<char>,
    input_dir: Seq<char>,
    dry_run: bool,
) -> Job {
    Job { sessions: session_views(sessions), output_dir, input_dir, dry_run }
}

/// What one step of a transfer brings about, given how the action before it
/// has ended.
///
/// After a failure the transfer is stopped where it stands, and nothing is
/// marked. Otherwise the step makes the next move that asks for an action:
/// it hands out that action, marks what the move marks and stands where the
/// move ends; where no such move is left, it says that the transfer is
/// finished.
pub open spec fn step_spec(
    job: Job,
    before: (TransferStateView, CursorView),
    outcome: Outcome,
    after: (TransferStateView, CursorView),
    action: ActionView,
) -> bool {
    if outcome is Failed || before.1.stage is Stopped {
        &&& action == ActionView::Abort
        &&& after.0 == before.0
        &&& after.1 == (CursorView { stage: Stage::Stopped, ..before.1 })
    } else {
        let step = job.step(before.0.completed_files, before.1);
        &&& after.0 == (TransferStateView { completed_files: step.completed, ..before.0 })
        &&& after.1 == step.at
        &&& action == match step.action {
            Some(asked) => asked,
            None => ActionView::Finish,
        }
    }
}

/// Takes the transfer one step further: given how the action that was asked
/// for last has ended, says what is to be done next.
pub fn transfer_sessions(
    sessions: &[Session],
    output_dir: &str,
    input_dir: &str,
    state: &mut TransferState,
    dry_run: bool,
    cursor: &mut TransferCursor,
    outcome: Outcome,
) -> (action: Action)
    ensures
        step_spec(
            job_of(sessions@, output_dir@, input_dir@, dry_run),
            (old(state)@, old(cursor)@),
            outcome,
            (final(state)@, final(cursor)@),
            action@,
        ),
{
    let ghost job = job_of(sessions@, output_dir@, input_dir@, dry_run);
    let ghost planned = job.step(state@.completed_files, cursor@);
    match outcome {
        Outcome::Failed => {
            cursor.stage = Stage::Stopped;
            return Action::Abort;
        },
        Outcome::Succeeded => {},
    }
    loop
        invariant
            job == job_of(sessions@, output_dir@, input_dir@, dry_run),
            outcome is Succeeded,
            state@ == old(state)@,
            job.step(state@.completed_files, cursor@) == planned,
            planned == job.step(old(state)@.completed_files, old(cursor)@),
            cursor@.stage is Stopped <==> old(cursor)@.stage is Stopped,
            old(cursor)@.stage is Stopped ==> cursor@ == old(cursor)@,
        decreases
            sessions.len() - cursor.session,
            (if cursor.stage is Entering {
                1int
            } else {
                0int
            }),
            job.files_left(cursor@),
            (if cursor.stage is Copying {
                0int
            } else {
                1int
            }),
    {
        if cursor.session >= sessions.len() {
            match cursor.stage {
                Stage::Stopped => {
                    return Action::Abort;
                },
                _ => {
                    return Action::Finish;
                },
            }
        }
        let session = &sessions[cursor.session];
        assert(job.sessions[cursor.session as int] == session@);
        match cursor.stage {
            Stage::Stopped => {
                return Action::Abort;
            },
            Stage::Entering => {
                cursor.stage = Stage::Files;
                cursor.file = 0;
                if !dry_run {
                    let path = join(output_dir, session.folder_name.as_str());
                    return Action::CreateFolder { path };
                }
            },
            Stage::Files => {
                if cursor.file >= session.files.len() {
                    cursor.session = cursor.session + 1;
                    cursor.file = 0;
                    cursor.stage = Stage::Entering;
                } else {
                    let file = &session.files[cursor.file];
                    assert(session@.files[cursor.file as int] == file@);
                    let key = file_key(file.path.as_str(), input_dir);
                    let source = file.path.clone();
                    if state.is_completed(key.as_str()) {
                        cursor.file = cursor.file + 1;
                        return Action::Skip { source };
                    }
                    let destination = destination(
                        output_dir,
                        session.folder_name.as_str(),
                        file.path.as_str(),
                    );
                    if dry_run {
                        cursor.file = cursor.file + 1;
                        return Action::Preview { source, destination };
                    }
                    cursor.stage = Stage::Copying;
                    return Action::Copy { source, destination };
                }
            },
            Stage::Copying => {
                if cursor.file >= session.files.len() {
                    cursor.session = cursor.session + 1;
                    cursor.file = 0;
                    cursor.stage = Stage::Entering;
                } else {
                    let file = &session.files[cursor.file];
                    assert(session@.files[cursor.file as int] == file@);
                    let key = file_key(file.path.as_str(), input_dir);
                    state.mark_completed(key);
                    cursor.file = cursor.file + 1;
                    cursor.stage = Stage::Files;
                    return Action::Persist;
                }
            },
        }
    }
}

impl Job {
    /// Whether the transfer at `at` has still to deal with the file at `file`
    /// in the session at `session`.
    pub open spec fn ahead(self, at: CursorView, session: int, file: int) -> bool {
        &&& self.has(session, file)
        &&& !(at.stage is Stopped)
        &&& 0 <= at.session
        &&& session > at.session || (session == at.session && (at.stage is Entering || 0
            <= at.file <= file))
    }

    /// The keys of all files of the job.
    pub open spec fn all_keys(self) -> Set<Seq<char>> {
        Set::new(|key: Seq<char>| exists|s: int, f: int| self.has(s, f) && self.key(s, f) == key)
    }

    /// Whether the action is the copy of a file with this key.
    pub open spec fn copies(self, action: ActionView, key: Seq<char>) -> bool {
        action matches ActionView::Copy { source, .. } && file_key_spec(source, self.input_dir)
            == key
    }

    /// A step marks a file in one case only: the transfer has asked for the
    /// copy of that file, and the step answers the report that it succeeded.
    /// So what is marked has been copied, wherever a transfer is cut short.
    pub proof fn lemma_step_marks_what_was_copied(self, completed: Set<Seq<char>>, at: CursorView)
        ensures
            self.step(completed, at).completed == match self.awaited(at) {
                Some(key) => completed.insert(key),
                None => completed,
            },
            self.awaited(at) is Some ==> self.step(completed, at).action == Some(
                ActionView::Persist,
            ),
        decreases
            self.sessions.len() - at.session,
            (if at.stage is Entering {
                1int
            } else {
                0int
            }),
            self.files_left(at),
            (if at.stage is Copying {
                0int
            } else {
                1int
            }),
    {
        match self.next_move(completed, at) {
            None => {},
            Some(step) => {
                if step.action is None {
                    self.lemma_step_marks_what_was_copied(step.completed, step.at);
                }
            },
        }
    }

    /// The run of a transfer is what its steps hand out, one after the other.
    pub proof fn lemma_run_follows_steps(self, completed: Set<Seq<char>>, at: CursorView)
        ensures
            self.remaining(completed, at) == match self.step(completed, at).action {
                Some(action) => self.remaining(
                    self.step(completed, at).completed,
                    self.step(completed, at).at,
                ).after(action),
                None => Run { actions: Seq::empty(), completed },
            },
        decreases
            self.sessions.len() - at.session,
            (if at.stage is Entering {
                1int
            } else {
                0int
            }),
            self.files_left(at),
            (if at.stage is Copying {
                0int
            } else {
                1int
            }),
    {
        match self.next_move(completed, at) {
            None => {},
            Some(step) => {
                if step.action is None {
                    self.lemma_run_follows_steps(step.completed, step.at);
                }
            },
        }
    }

    proof fn lemma_keeps_marks(self, completed: Set<Seq<char>>, at: CursorView, key: Seq<char>)
        requires
            completed.contains(key),
        ensures
            self.remaining(completed, at).completed.contains(key),
        decreases
            self.sessions.len() - at.session,
            (if at.stage is Entering {
                1int
            } else {
                0int
            }),
            self.files_left(at),
            (if at.stage is Copying {
                0int
            } else {
                1int
            }),
    {
        match self.next_move(completed, at) {
            None => {},
            Some(step) => {
                self.lemma_keeps_marks(step.completed, step.at, key);
            },
        }
    }

    proof fn lemma_marks_all_ahead(
        self,
        completed: Set<Seq<char>>,
        at: CursorView,
        session: int,
        file: int,
    )
        requires
            !self.dry_run,
            self.ahead(at, session, file),
        ensures
            self.remaining(completed, at).completed.contains(self.key(session, file)),
        decreases
            self.sessions.len() - at.session,
            (if at.stage is Entering {
                1int
            } else {
                0int
            }),
            self.files_left(at),
            (if at.stage is Copying {
                0int
            } else {
                1int
            }),
    {
        match self.next_move(completed, at) {
            None => {},
            Some(step) => {
                if self.ahead(step.at, session, file) {
                    self.lemma_marks_all_ahead(step.completed, step.at, session, file);
                } else {
                    assert(session == at.session && file == at.file);
                    assert(step.completed.contains(self.key(session, file)));
                    self.lemma_keeps_marks(step.completed, step.at, self.key(session, file));
                }
            },
        }
    }

    proof fn lemma_marks_only_ahead(self, completed: Set<Seq<char>>, at: CursorView, key: Seq<char>)
        requires
            self.remaining(completed, at).completed.contains(key),
            !completed.contains(key),
        ensures
            exists|s: int, f: int| self.ahead(at, s, f) && self.key(s, f) == key,
        decreases
            self.sessions.len() - at.session,
            (if at.stage is Entering {
                1int
            } else {
                0int
            }),
            self.files_left(at),
            (if at.stage is Copying {
                0int
            } else {
                1int
            }),
    {
        match self.next_move(completed, at) {
            None => {},
            Some(step) => {
                if step.completed.contains(key) {
                    assert(self.ahead(at, at.session, at.file) && self.key(at.session, at.file)
                        == key);
                } else {
                    self.lemma_marks_only_ahead(step.completed, step.at, key);
                    let (s, f) = choose|s: int, f: int|
                        self.ahead(step.at, s, f) && self.key(s, f) == key;
                    assert(self.ahead(at, s, f) && self.key(s, f) == key);
                }
            },
        }
    }

    /// A transfer copies no file that is marked as copied when it starts, nor
    /// one that it has marked on its way.
    pub proof fn lemma_copies_only_pending(
        self,
        completed: Set<Seq<char>>,
        at: CursorView,
        i: int,
        key: Seq<char>,
    )
        requires
            0 <= i < self.remaining(completed, at).actions.len(),
            self.copies(self.remaining(completed, at).actions[i], key),
        ensures
            !completed.contains(key),
        decreases
            self.sessions.len() - at.session,
            (if at.stage is Entering {
                1int
            } else {
                0int
            }),
            self.files_left(at),
            (if at.stage is Copying {
                0int
            } else {
                1int
            }),
    {
        match self.next_move(completed, at) {
            None => {},
            Some(step) => {
                let rest = self.remaining(step.completed, step.at);
                match step.action {
                    None => {
                        self.lemma_copies_only_pending(step.completed, step.at, i, key);
                    },
                    Some(action) => {
                        lemma_run_after(rest, action);
                        if i > 0 {
                            assert(rest.after(action).actions[i] == rest.actions[i - 1]);
                            self.lemma_copies_only_pending(step.completed, step.at, i - 1, key);
                        }
                    },
                }
            },
        }
    }

    /// A transfer that is not a dry run copies every file that lies ahead of
    /// it and is not marked as copied, unless the copy of a file with that
    /// key is what it is waiting for.
    pub proof fn lemma_copies_every_pending(
        self,
        completed: Set<Seq<char>>,
        at: CursorView,
        session: int,
        file: int,
    )
        requires
            !self.dry_run,
            self.ahead(at, session, file),
            !completed.contains(self.key(session, file)),
            self.awaited(at) != Some(self.key(session, file)),
        ensures
            exists|i: int|
                0 <= i < self.remaining(completed, at).actions.len() && self.copies(
                    #[trigger] self.remaining(completed, at).actions[i],
                    self.key(session, file),
                ),
        decreases
            self.sessions.len() - at.session,
            (if at.stage is Entering {
                1int
            } else {
                0int
            }),
            self.files_left(at),
            (if at.stage is Copying {
                0int
            } else {
                1int
            }),
    {
        let key = self.key(session, file);
        let run = self.remaining(completed, at);
        match self.next_move(completed, at) {
            None => {},
            Some(step) => {
                let rest = self.remaining(step.completed, step.at);
                match step.action {
                    None => {
                        self.lemma_copies_every_pending(step.completed, step.at, session, file);
                    },
                    Some(action) => {
                        lemma_run_after(rest, action);
                        if self.copies(action, key) {
                            assert(self.copies(run.actions[0], key));
                        } else {
                            self.lemma_copies_every_pending(
                                step.completed,
                                step.at,
                                session,
                                file,
                            );
                            let i = choose|i: int|
                                0 <= i < rest.actions.len() && self.copies(
                                    #[trigger] rest.actions[i],
                                    key,
                                );
                            assert(run.actions[i + 1] == rest.actions[i]);
                            assert(self.copies(run.actions[i + 1], key));
                        }
                    },
                }
            },
        }
    }

    /// A transfer copies no two files with the same key: where two files
    /// share one, the first is copied and the second is skipped.
    pub proof fn lemma_copies_once(
        self,
        completed: Set<Seq<char>>,
        at: CursorView,
        i: int,
        j: int,
        key: Seq<char>,
    )
        requires
            0 <= i < j < self.remaining(completed, at).actions.len(),
            self.copies(self.remaining(completed, at).actions[i], key),
        ensures
            !self.copies(self.remaining(completed, at).actions[j], key),
        decreases
            self.sessions.len() - at.session,
            (if at.stage is Entering {
                1int
            } else {
                0int
            }),
            self.files_left(at),
            (if at.stage is Copying {
                0int
            } else {
                1int
            }),
    {
        let run = self.remaining(completed, at);
        match self.next_move(completed, at) {
            None => {},
            Some(step) => {
                let rest = self.remaining(step.completed, step.at);
                match step.action {
                    None => {
                        self.lemma_copies_once(step.completed, step.at, i, j, key);
                    },
                    Some(action) => {
                        lemma_run_after(rest, action);
                        assert(run.actions[j] == rest.actions[j - 1]);
                        if i > 0 {
                            assert(run.actions[i] == rest.actions[i - 1]);
                            self.lemma_copies_once(step.completed, step.at, i - 1, j - 1, key);
                        } else {
                            // the copy at the front is that of the file at hand: it is
                            // marked before anything else is looked at
                            assert(step.at.stage is Copying);
                            assert(self.awaited(step.at) == Some(key));
                            let marked = self.next_move(step.completed, step.at)->0;
                            let later = self.remaining(marked.completed, marked.at);
                            lemma_run_after(later, ActionView::Persist);
                            if j - 1 > 0 && self.copies(rest.actions[j - 1], key) {
                                assert(rest.actions[j - 1] == later.actions[j - 2]);
                                self.lemma_copies_only_pending(
                                    marked.completed,
                                    marked.at,
                                    j - 2,
                                    key,
                                );
                            }
                        }
                    },
                }
            },
        }
    }
}

/// Taking a transfer up again: no file that is marked as copied is copied
/// again.
pub proof fn lemma_resumed_run_skips_completed(
    job: Job,
    completed: Set<Seq<char>>,
    i: int,
    key: Seq<char>,
)
    requires
        completed.contains(key),
        0 <= i < job.remaining(completed, start()).actions.len(),
    ensures
        !job.copies(job.remaining(completed, start()).actions[i], key),
{
    if job.copies(job.remaining(completed, start()).actions[i], key) {
        job.lemma_copies_only_pending(completed, start(), i, key);
    }
}

/// Taking a transfer up again: every file that is not marked as copied is
/// copied, or a file with the same key is.
pub proof fn lemma_resumed_run_copies_the_rest(
    job: Job,
    completed: Set<Seq<char>>,
    session: int,
    file: int,
)
    requires
        !job.dry_run,
        job.has(session, file),
        !completed.contains(job.key(session, file)),
    ensures
        exists|i: int|
            0 <= i < job.remaining(completed, start()).actions.len() && job.copies(
                #[trigger] job.remaining(completed, start()).actions[i],
                job.key(session, file),
            ),
{
    job.lemma_copies_every_pending(completed, start(), session, file);
}

/// Taking a transfer up again: when it is through, the files that are marked
/// as copied are those that were marked before and all files of the job.
pub proof fn lemma_resumed_run_completes(job: Job, completed: Set<Seq<char>>)
    requires
        !job.dry_run,
    ensures
        job.remaining(completed, start()).completed == completed.union(job.all_keys()),
{
    let done = job.remaining(completed, start()).completed;
    assert forall|key: Seq<char>| done.contains(key) implies completed.union(
        job.all_keys(),
    ).contains(key) by {
        if !completed.contains(key) {
            job.lemma_marks_only_ahead(completed, start(), key);
            let (s, f) = choose|s: int, f: int| job.ahead(start(), s, f) && job.key(s, f) == key;
            assert(job.has(s, f) && job.key(s, f) == key);
        }
    }
    assert forall|key: Seq<char>| completed.union(job.all_keys()).contains(
        key,
    ) implies done.contains(key) by {
        if completed.contains(key) {
            job.lemma_keeps_marks(completed, start(), key);
        } else {
            let (s, f) = choose|s: int, f: int| job.has(s, f) && job.key(s, f) == key;
            assert(job.ahead(start(), s, f));
            job.lemma_marks_all_ahead(completed, start(), s, f);
        }
    }
    assert(done =~= completed.union(job.all_keys()));
}

/// Whether the action leaves the destination and the record as they are.
pub open spec fn changes_nothing(action: ActionView) -> bool {
    action is Skip || action is Preview
}

/// A dry run asks for nothing that changes the destination or the record,
/// and marks no file.
pub proof fn lemma_dry_run_changes_nothing(job: Job, completed: Set<Seq<char>>, at: CursorView)
    requires
        job.dry_run,
        !(at.stage is Copying),
    ensures
        job.remaining(completed, at).completed == completed,
        forall|i: int|
            0 <= i < job.remaining(completed, at).actions.len() ==> changes_nothing(
                #[trigger] job.remaining(completed, at).actions[i],
            ),
    decreases
        job.sessions.len() - at.session,
        (if at.stage is Entering {
            1int
        } else {
            0int
        }),
        job.files_left(at),
        (if at.stage is Copying {
            0int
        } else {
            1int
        }),
{
    let run = job.remaining(completed, at);
    match job.next_move(completed, at) {
        None => {},
        Some(step) => {
            let rest = job.remaining(step.completed, step.at);
            lemma_dry_run_changes_nothing(job, step.completed, step.at);
            match step.action {
                None => {},
                Some(action) => {
                    lemma_run_after(rest, action);
                    assert forall|i: int| 0 <= i < run.actions.len() implies changes_nothing(
                        #[trigger] run.actions[i],
                    ) by {
                        if i > 0 {
                            assert(run.actions[i] == rest.actions[i - 1]);
                        }
                    }
                },
            }
        },
    }
}

/// The paths of the files, in their order.
pub open spec fn paths_of(files: Seq<DatedFileView>) -> Seq<Seq<char>> {
    files.map_values(|f: DatedFileView| f.path)
}

/// The paths of the files of all sessions, session after session.
pub open spec fn source_paths(sessions: Seq<SessionView>) -> Seq<Seq<char>>
    decreases sessions.len(),
{
    if sessions.len() == 0 {
        Seq::empty()
    } else {
        source_paths(sessions.drop_last()) + paths_of(sessions.last().files)
    }
}

/// Those of the paths whose files are not marked as copied, in their order.
pub open spec fn pending(
    paths: Seq<Seq<char>>,
    input_dir: Seq<char>,
    completed: Set<Seq<char>>,
) -> Seq<Seq<char>>
    decreases paths.len(),
{
    if paths.len() == 0 {
        Seq::empty()
    } else if completed.contains(file_key_spec(paths.last(), input_dir)) {
        pending(paths.drop_last(), input_dir, completed)
    } else {
        pending(paths.drop_last(), input_dir, completed).push(paths.last())
    }
}

/// The files that are still to be copied, in the order in which the transfer
/// comes to them. Their sizes add up to the work that lies ahead.
pub fn pending_sources(sessions: &[Session], input_dir: &str, state: &TransferState) -> (sources:
    Vec<String>)
    ensures
        texts_of(sources@) == pending(
            source_paths(session_views(sessions@)),
            input_dir@,
            state@.completed_files,
        ),
{
    let ghost all = session_views(sessions@);
    let ghost done = state@.completed_files;
    let mut sources: Vec<String> = Vec::new();
    assert(texts_of(sources@) =~= Seq::empty());
    let mut i: usize = 0;
    while i < sessions.len()
        invariant
            i <= sessions.len(),
            all == session_views(sessions@),
            done == state@.completed_files,
            texts_of(sources@) == pending(source_paths(all.take(i as int)), input_dir@, done),
        decreases sessions.len() - i,
    {
        let session = &sessions[i];
        let ghost before = source_paths(all.take(i as int));
        let ghost paths = paths_of(session@.files);
        assert(all.take(i + 1).drop_last() =~= all.take(i as int));
        assert(all.take(i + 1).last() == session@);
        assert(before + paths.take(0) =~= before);
        let mut j: usize = 0;
        while j < session.files.len()
            invariant
                j <= session.files.len(),
                paths == paths_of(session@.files),
                done == state@.completed_files,
                texts_of(sources@) == pending(before + paths.take(j as int), input_dir@, done),
            decreases session.files.len() - j,
        {
            let file = &session.files[j];
            assert(paths[j as int] == file.path@);
            assert((before + paths.take(j + 1)).drop_last() =~= before + paths.take(j as int));
            assert((before + paths.take(j + 1)).last() == file.path@);
            let key = file_key(file.path.as_str(), input_dir);
            if !state.is_completed(key.as_str()) {
                let ghost listed = texts_of(sources@);
                sources.push(file.path.clone());
                assert(texts_of(sources@) =~= listed.push(file.path@));
            }
            j = j + 1;
        }
        assert(paths.take(paths.len() as int) =~= paths);
        i = i + 1;
    }
    assert(all.take(all.len() as int) =~= all);
    sources
}

} // verus!
