//! The record of a transfer: which files have been copied, under which keys,
//! and where that record is kept between runs.

use crate::paths::{join, path_join, path_without_prefix, strip_prefix};
use crate::text::{decimal_text, digits, hex_text, text_of, texts_of};
use vstd::prelude::*;

verus! {

/// The name of the file that holds the record, in each directory that has one.
pub const STATE_FILENAME: &'static str = ".image-processor-state.json";

/// The start of the name of the file that a record is written to before it
/// takes the place of the old one; the writing process's number follows.
pub const TEMP_PREFIX: &'static str = ".image-processor-state.tmp.";

/// What a transfer state says: the keys of the files that have been copied
/// form a set, so a key is in it or not, however often it was marked.
pub struct TransferStateView {
    pub transfer_id: Seq<char>,
    pub completed_files: Set<Seq<char>>,
    pub total_files: nat,
    pub total_bytes: nat,
}

impl TransferStateView {
    /// The state after the file with this key has been marked as copied.
    pub open spec fn marked(self, key: Seq<char>) -> TransferStateView {
        TransferStateView { completed_files: self.completed_files.insert(key), ..self }
    }

    /// Whether as many files have been copied as the transfer was to copy.
    pub open spec fn all_done(self) -> bool {
        self.completed_files.len() >= self.total_files
    }
}

/// The state of one transfer. The keys of the copied files are kept in the
/// order in which they were marked, each of them once.
#[derive(Debug)]
pub struct TransferState {
    transfer_id: String,
    completed_files: Vec<String>,
    total_files: usize,
    total_bytes: u64,
}

impl View for TransferState {
    type V = TransferStateView;

    closed spec fn view(&self) -> TransferStateView {
        TransferStateView {
            transfer_id: self.transfer_id@,
            completed_files: texts_of(self.completed_files@).to_set(),
            total_files: self.total_files as nat,
            total_bytes: self.total_bytes as nat,
        }
    }
}

/// The identifier made of a clock reading: the seconds and the nanoseconds
/// within the second, each in hexadecimal, with a hyphen between them.
pub open spec fn transfer_id_text(seconds: u64, nanoseconds: u32) -> Seq<char> {
    digits(seconds as nat, 16) + seq!['-'] + digits(nanoseconds as nat, 16)
}

/// Reads the system clock: `SystemTime::now`, as the time since `UNIX_EPOCH`
/// in whole seconds and the nanoseconds beyond them (zero for a clock set
/// before the epoch). Nothing is claimed of the reading.
#[verifier::external_body]
fn clock_reading() -> (reading: (u64, u32)) {
    let since_epoch = std::time::SystemTime::now().duration_since(
        std::time::UNIX_EPOCH,
    ).unwrap_or_default();
    (since_epoch.as_secs(), since_epoch.subsec_nanos())
}

/// The identifier for a clock reading.
pub fn transfer_id_from(seconds: u64, nanoseconds: u32) -> (id: String)
    ensures
        id@ == transfer_id_text(seconds, nanoseconds),
{
    let mut id = hex_text(seconds);
    id.push('-');
    let low = hex_text(nanoseconds as u64);
    id.append(low.as_str());
    id
}

/// An identifier for a new transfer, made of the time at which it is asked
/// for. Two transfers started within the same nanosecond share theirs.
pub fn uuid_v4() -> (id: String)
    ensures
        exists|seconds: u64, nanoseconds: u32| id@ == transfer_id_text(seconds, nanoseconds),
{
    let reading = clock_reading();
    transfer_id_from(reading.0, reading.1)
}

impl TransferState {
    #[verifier::type_invariant]
    spec fn each_key_once(self) -> bool {
        texts_of(self.completed_files@).no_duplicates()
    }

    /// The set of copied files is finite.
    pub proof fn lemma_completed_finite(self)
        ensures
            self@.completed_files.finite(),
    {
        vstd::seq_lib::seq_to_set_is_finite(texts_of(self.completed_files@));
    }

    /// The state of a transfer with the given identifier, of which nothing
    /// has been copied yet.
    pub fn with_id(transfer_id: String, total_files: usize, total_bytes: u64) -> (state: Self)
        ensures
            state@ == (TransferStateView {
                transfer_id: transfer_id@,
                completed_files: Set::empty(),
                total_files: total_files as nat,
                total_bytes: total_bytes as nat,
            }),
    {
        let state = TransferState {
            transfer_id,
            completed_files: Vec::new(),
            total_files,
            total_bytes,
        };
        assert(texts_of(state.completed_files@).to_set() =~= Set::empty());
        state
    }

    /// The state of a new transfer: nothing copied yet, and an identifier
    /// made of the current time.
    pub fn new(total_files: usize, total_bytes: u64) -> (state: Self)
        ensures
            state@.completed_files == Set::<Seq<char>>::empty(),
            state@.total_files == total_files,
            state@.total_bytes == total_bytes,
            exists|seconds: u64, nanoseconds: u32|
                state@.transfer_id == transfer_id_text(seconds, nanoseconds),
    {
        TransferState::with_id(uuid_v4(), total_files, total_bytes)
    }

    /// The state that a stored record describes. A key that the record lists
    /// more than once counts once.
    pub fn from_parts(
        transfer_id: String,
        completed_files: Vec<String>,
        total_files: usize,
        total_bytes: u64,
    ) -> (state: Self)
        ensures
            state@ == (TransferStateView {
                transfer_id: transfer_id@,
                completed_files: texts_of(completed_files@).to_set(),
                total_files: total_files as nat,
                total_bytes: total_bytes as nat,
            }),
    {
        let mut state = TransferState::with_id(transfer_id, total_files, total_bytes);
        let ghost listed = texts_of(completed_files@);
        for key in it: completed_files
            invariant
                texts_of(it.seq()) == listed,
                state@.transfer_id == transfer_id@,
                state@.total_files == total_files,
                state@.total_bytes == total_bytes,
                state@.completed_files == listed.take(it.index() as int).to_set(),
        {
            state.mark_completed(key);
            proof {
                let shorter = listed.take(it.index() as int);
                assert(listed.take(it.index() + 1) =~= shorter.push(key@));
                shorter.lemma_push_to_set_commute(key@);
            }
        }
        assert(listed.take(listed.len() as int) =~= listed);
        state
    }

    /// The identifier of the transfer.
    pub fn transfer_id(&self) -> (id: &String)
        ensures
            id@ == self@.transfer_id,
    {
        &self.transfer_id
    }

    /// The keys of the copied files, each once, in the order in which they
    /// were marked.
    pub fn completed_files(&self) -> (files: &Vec<String>)
        ensures
            texts_of(files@).to_set() == self@.completed_files,
            texts_of(files@).no_duplicates(),
    {
        proof {
            use_type_invariant(self);
        }
        &self.completed_files
    }

    /// How many files the transfer is to copy.
    pub fn total_files(&self) -> (total: usize)
        ensures
            total == self@.total_files,
    {
        self.total_files
    }

    /// How many bytes the transfer is to copy.
    pub fn total_bytes(&self) -> (total: u64)
        ensures
            total == self@.total_bytes,
    {
        self.total_bytes
    }

    /// How many files have been copied.
    pub fn completed_count(&self) -> (count: usize)
        ensures
            count == self@.completed_files.len(),
            self@.completed_files.finite(),
    {
        proof {
            use_type_invariant(self);
            texts_of(self.completed_files@).unique_seq_to_set();
            vstd::seq_lib::seq_to_set_is_finite(texts_of(self.completed_files@));
        }
        self.completed_files.len()
    }

    /// Whether the file with this key has been copied.
    pub fn is_completed(&self, file_key: &str) -> (completed: bool)
        ensures
            completed == self@.completed_files.contains(file_key@),
    {
        let wanted = String::from_str(file_key);
        let mut i: usize = 0;
        while i < self.completed_files.len()
            invariant
                i <= self.completed_files.len(),
                wanted@ == file_key@,
                forall|j: int| 0 <= j < i ==> texts_of(self.completed_files@)[j] != file_key@,
            decreases self.completed_files.len() - i,
        {
            if self.completed_files[i] == wanted {
                assert(texts_of(self.completed_files@)[i as int] == file_key@);
                assert(texts_of(self.completed_files@).contains(file_key@));
                return true;
            }
            i = i + 1;
        }
        assert(!texts_of(self.completed_files@).contains(file_key@));
        false
    }

    /// Marks the file with this key as copied. Marking a file that is marked
    /// already changes nothing.
    pub fn mark_completed(&mut self, file_key: String)
        ensures
            final(self)@ == old(self)@.marked(file_key@),
    {
        proof {
            use_type_invariant(&*self);
        }
        let ghost before = texts_of(self.completed_files@);
        if !self.is_completed(file_key.as_str()) {
            // the list leaves the state while it grows, and comes back whole
            let mut files: Vec<String> = Vec::new();
            std::mem::swap(&mut files, &mut self.completed_files);
            files.push(file_key);
            let ghost after = texts_of(files@);
            assert(after =~= before.push(file_key@));
            assert(after.no_duplicates());
            self.completed_files = files;
            proof {
                before.lemma_push_to_set_commute(file_key@);
            }
        } else {
            assert(before.to_set().insert(file_key@) =~= before.to_set());
        }
    }

    /// Whether the transfer has copied as many files as it was to copy. The
    /// count alone decides: which files they were is not looked at.
    pub fn all_done(&self) -> (done: bool)
        ensures
            done == self@.all_done(),
    {
        self.completed_count() >= self.total_files
    }
}

/// Marking a file twice is marking it once: the second time neither the set
/// of copied files nor its size changes.
pub proof fn lemma_mark_completed_idempotent(state: TransferStateView, key: Seq<char>)
    ensures
        state.marked(key).marked(key) == state.marked(key),
        state.marked(key).marked(key).completed_files.len() == state.marked(
            key,
        ).completed_files.len(),
{
    assert(state.completed_files.insert(key).insert(key) =~= state.completed_files.insert(key));
}

/// A state never loses a key: what was copied before a file is marked is
/// copied after it.
pub proof fn lemma_mark_completed_keeps(state: TransferStateView, key: Seq<char>)
    ensures
        state.completed_files.subset_of(state.marked(key).completed_files),
        state.marked(key).completed_files.contains(key),
{
}

/// A state rebuilt from what it hands out (its identifier, its list of keys
/// and its two totals) is the state itself.
pub proof fn lemma_parts_restore_state(
    state: TransferStateView,
    transfer_id: Seq<char>,
    completed_files: Seq<Seq<char>>,
    total_files: nat,
    total_bytes: nat,
)
    requires
        transfer_id == state.transfer_id,
        completed_files.to_set() == state.completed_files,
        total_files == state.total_files,
        total_bytes == state.total_bytes,
    ensures
        (TransferStateView {
            transfer_id,
            completed_files: completed_files.to_set(),
            total_files,
            total_bytes,
        }) == state,
{
}

/// The key of a file, given the path that `Path::strip_prefix` found for it
/// relative to the input directory: that path, or the whole path where the
/// file does not lie under the directory.
pub open spec fn key_of(relative: Option<Seq<char>>, whole: Seq<char>) -> Seq<char> {
    match relative {
        Some(rest) => rest,
        None => whole,
    }
}

/// The key under which a file is recorded: its path relative to the input
/// directory, so that the record still holds when the card is mounted elsewhere.
pub open spec fn file_key_spec(file_path: Seq<char>, input_dir: Seq<char>) -> Seq<char> {
    key_of(path_without_prefix(file_path, input_dir), file_path)
}

/// The key of a file whose path relative to the input directory is given,
/// if it has one.
pub fn relative_or_whole(relative: Option<String>, whole: &str) -> (key: String)
    ensures
        key@ == key_of(text_of(relative), whole@),
{
    match relative {
        Some(rest) => rest,
        None => String::from_str(whole),
    }
}

/// The key under which a file is recorded.
pub fn file_key(file_path: &str, input_dir: &str) -> (key: String)
    ensures
        key@ == file_key_spec(file_path@, input_dir@),
{
    relative_or_whole(strip_prefix(file_path, input_dir), file_path)
}

/// Where the record of a transfer is kept in a directory.
pub open spec fn state_path_spec(dir: Seq<char>) -> Seq<char> {
    path_join(dir, STATE_FILENAME@)
}

/// Where the record of a transfer is kept in a directory.
pub fn state_path(dir: &str) -> (path: String)
    ensures
        path@ == state_path_spec(dir@),
{
    join(dir, STATE_FILENAME)
}

/// Whether the record in the input directory is read at all: only where none
/// was found in the output directory.
pub fn needs_input_record(from_output: &Option<TransferState>) -> (needed: bool)
    ensures
        needed == from_output.is_none(),
{
    from_output.is_none()
}

/// Which of the records found is taken up: the one from the output directory,
/// which can always be written, before the one from the input directory.
pub fn load_state(from_input: Option<TransferState>, from_output: Option<TransferState>) -> (state:
    Option<TransferState>)
    ensures
        state == if from_output.is_some() {
            from_output
        } else {
            from_input
        },
{
    match from_output {
        Some(found) => Some(found),
        None => from_input,
    }
}

/// One attempt to store the record in a directory: it is written to the
/// temporary file, which then takes the place of the target in one step, so
/// that no reader ever finds half a record.
#[derive(Debug)]
pub struct SaveRequest {
    pub temp_path: String,
    pub target_path: String,
    pub best_effort: bool,
}

/// What a request to store the record holds.
pub struct SaveRequestView {
    pub temp_path: Seq<char>,
    pub target_path: Seq<char>,
    pub best_effort: bool,
}

impl View for SaveRequest {
    type V = SaveRequestView;

    open spec fn view(&self) -> SaveRequestView {
        SaveRequestView {
            temp_path: self.temp_path@,
            target_path: self.target_path@,
            best_effort: self.best_effort,
        }
    }
}

/// What follows the attempt to write the temporary file.
#[derive(Debug, Clone, Copy, PartialEq, Eq)]
pub enum AfterWrite {
    /// It was written: it is to take the place of the target.
    Replace,
    /// It was not written, and the directory is one that may be read-only or
    /// gone: what is left of the file is removed, a warning is given, and the
    /// save counts as done.
    Forgive,
    /// It was not written, and the directory is one that must take the
    /// record: the save has failed.
    Fail,
}

/// The attempt to store the record in `dir`, made by the process with the
/// given number.
pub open spec fn save_request(dir: Seq<char>, best_effort: bool, process_id: u32) -> SaveRequestView {
    SaveRequestView {
        temp_path: path_join(dir, TEMP_PREFIX@ + digits(process_id as nat, 10)),
        target_path: state_path_spec(dir),
        best_effort,
    }
}

/// How an attempt to store the record has ended.
#[derive(Debug, Clone, Copy, PartialEq, Eq)]
pub enum SaveResult {
    /// The record is stored, or it could not be written and that is forgiven.
    Saved,
    /// The record is not stored, and the failure stands.
    Failed,
}

/// What follows the attempt to write the temporary file.
pub open spec fn after_write_spec(best_effort: bool, written: bool) -> AfterWrite {
    if written {
        AfterWrite::Replace
    } else if best_effort {
        AfterWrite::Forgive
    } else {
        AfterWrite::Fail
    }
}

/// How an attempt to store the record ends, given whether the temporary file
/// was written and, if it was, whether it took the place of the target. Only
/// a failure to write is ever forgiven: a file that was written and could not
/// be put in place fails the save in either kind of directory.
pub open spec fn save_result_spec(best_effort: bool, written: bool, renamed: bool) -> SaveResult {
    match after_write_spec(best_effort, written) {
        AfterWrite::Replace => if renamed {
            SaveResult::Saved
        } else {
            SaveResult::Failed
        },
        AfterWrite::Forgive => SaveResult::Saved,
        AfterWrite::Fail => SaveResult::Failed,
    }
}

/// Whether the attempt that follows is made: only after one that has not
/// failed.
pub open spec fn attempts_next_spec(result: SaveResult) -> bool {
    result is Saved
}

/// Best effort forgives a failure to write and nothing else; where the
/// record must be stored, nothing is forgiven.
pub proof fn lemma_only_a_failed_write_is_forgiven(best_effort: bool, written: bool, renamed: bool)
    ensures
        save_result_spec(best_effort, written, renamed) is Saved <==> (written && renamed) || (
        !written && best_effort),
{
}

/// Whether the attempt that follows is made.
pub fn attempts_next(result: SaveResult) -> (next: bool)
    ensures
        next == attempts_next_spec(result),
{
    match result {
        SaveResult::Saved => true,
        SaveResult::Failed => false,
    }
}

impl SaveRequest {
    /// How this attempt has ended. `renamed` says whether the temporary file
    /// took the place of the target; it counts only where the file was
    /// written.
    pub fn result(&self, written: bool, renamed: bool) -> (result: SaveResult)
        ensures
            result == save_result_spec(self.best_effort, written, renamed),
    {
        match self.after_write(written) {
            AfterWrite::Replace => if renamed {
                SaveResult::Saved
            } else {
                SaveResult::Failed
            },
            AfterWrite::Forgive => SaveResult::Saved,
            AfterWrite::Fail => SaveResult::Failed,
        }
    }

    /// What follows the attempt to write the temporary file of this request.
    pub fn after_write(&self, written: bool) -> (next: AfterWrite)
        ensures
            next == after_write_spec(self.best_effort, written),
    {
        if written {
            AfterWrite::Replace
        } else if self.best_effort {
            AfterWrite::Forgive
        } else {
            AfterWrite::Fail
        }
    }
}

/// How the record is stored in `dir`: under which temporary name it is
/// written first, which file it then replaces, and whether a failure to
/// write is forgiven.
pub fn save_state(dir: &str, best_effort: bool, process_id: u32) -> (request: SaveRequest)
    ensures
        request@ == save_request(dir@, best_effort, process_id),
{
    let mut temp_name = String::from_str(TEMP_PREFIX);
    let number = decimal_text(process_id as u64);
    temp_name.append(number.as_str());
    SaveRequest {
        temp_path: join(dir, temp_name.as_str()),
        target_path: state_path(dir),
        best_effort,
    }
}

/// How the record is stored in both directories, in the order in which the
/// two attempts are made: first in the output directory, where it must
/// succeed, then in the input directory, where a failure to write is
/// forgiven. The second attempt is made only if the first has not failed.
pub fn save_state_both(input_dir: &str, output_dir: &str, process_id: u32) -> (requests: Vec<
    SaveRequest,
>)
    ensures
        requests.len() == 2,
        requests[0]@ == save_request(output_dir@, false, process_id),
        requests[1]@ == save_request(input_dir@, true, process_id),
{
    let mut requests: Vec<SaveRequest> = Vec::new();
    requests.push(save_state(output_dir, false, process_id));
    requests.push(save_state(input_dir, true, process_id));
    requests
}

/// The record files to remove once a transfer is done, in the order in which
/// they are removed: the one in the output directory, then the one in the
/// input directory. A file that cannot be removed is left where it is.
pub fn cleanup_state(input_dir: &str, output_dir: &str) -> (paths: Vec<String>)
    ensures
        paths.len() == 2,
        paths[0]@ == state_path_spec(output_dir@),
        paths[1]@ == state_path_spec(input_dir@),
{
    let mut paths: Vec<String> = Vec::new();
    paths.push(state_path(output_dir));
    paths.push(state_path(input_dir));
    paths
}

} // verus!
