//! Sessions: runs of files taken close together in time, each with a folder
//! of its own, named after the day on which the run began.

use crate::text::texts_of;
use crate::timestamp::{date_label, is_date_char, is_date_shaped, seconds_apart, Timestamp};
use vstd::hash_map::StringHashMap;
use vstd::prelude::*;

verus! {

/// A file and the time at which its picture or film was taken.
#[derive(Debug)]
pub struct DatedFile {
    pub path: String,
    pub datetime: Timestamp,
    pub sequence_number: Option<u64>,
}

/// What a dated file holds: its path as text, and its time in seconds since
/// the start of 1970.
pub struct DatedFileView {
    pub path: Seq<char>,
    pub datetime: int,
    pub sequence_number: Option<u64>,
}

impl View for DatedFile {
    type V = DatedFileView;

    open spec fn view(&self) -> DatedFileView {
        DatedFileView {
            path: self.path@,
            datetime: self.datetime@,
            sequence_number: self.sequence_number,
        }
    }
}

impl Clone for DatedFile {
    fn clone(&self) -> (copy: Self)
        ensures
            copy@ == self@,
    {
        DatedFile {
            path: self.path.clone(),
            datetime: self.datetime,
            sequence_number: self.sequence_number,
        }
    }
}

/// The files of one session and the name of the folder they go to.
#[derive(Debug)]
pub struct Session {
    pub folder_name: String,
    pub files: Vec<DatedFile>,
}

/// What a session holds.
pub struct SessionView {
    pub folder_name: Seq<char>,
    pub files: Seq<DatedFileView>,
}

/// What a list of files holds.
pub open spec fn file_views(files: Seq<DatedFile>) -> Seq<DatedFileView> {
    files.map_values(|f: DatedFile| f@)
}

/// What a list of groups of files holds.
pub open spec fn group_views(groups: Seq<Vec<DatedFile>>) -> Seq<Seq<DatedFileView>> {
    groups.map_values(|g: Vec<DatedFile>| file_views(g@))
}

impl View for Session {
    type V = SessionView;

    open spec fn view(&self) -> SessionView {
        SessionView { folder_name: self.folder_name@, files: file_views(self.files@) }
    }
}

/// What a list of sessions holds.
pub open spec fn session_views(sessions: Seq<Session>) -> Seq<SessionView> {
    sessions.map_values(|s: Session| s@)
}

/// Whether a session begins with the file at `i`: it is the first file, or it
/// was taken more than `gap` seconds before or after the file in front of it.
pub open spec fn starts_session(files: Seq<DatedFileView>, gap: int, i: int) -> bool {
    i == 0 || seconds_apart(files[i].datetime, files[i - 1].datetime) > gap
}

/// The files in their order, cut wherever a session begins. Only neighbours
/// are compared: a file far from the start of its session stays in it as long
/// as each step on the way was short enough.
pub open spec fn split_by_gap(files: Seq<DatedFileView>, gap: int) -> Seq<Seq<DatedFileView>>
    decreases files.len(),
{
    if files.len() == 0 {
        Seq::empty()
    } else {
        let earlier = split_by_gap(files.drop_last(), gap);
        if starts_session(files, gap, files.len() - 1) {
            earlier.push(seq![files.last()])
        } else {
            earlier.drop_last().push(earlier.last().push(files.last()))
        }
    }
}

/// Whether each file of the group was taken within `gap` seconds of the one
/// in front of it.
pub open spec fn close_together(group: Seq<DatedFileView>, gap: int) -> bool {
    forall|i: int|
        0 < i < group.len() ==> seconds_apart(
            (#[trigger] group[i]).datetime,
            group[i - 1].datetime,
        ) <= gap
}

/// Whether more than `gap` seconds lie between the end of one group and the
/// start of the next.
pub open spec fn far_apart(group: Seq<DatedFileView>, next: Seq<DatedFileView>, gap: int) -> bool {
    seconds_apart(next.first().datetime, group.last().datetime) > gap
}

/// Whether the groups are sessions for this gap: within each of them the
/// files are close together, and each is far apart from the one that follows.
pub open spec fn cut_at_gaps(groups: Seq<Seq<DatedFileView>>, gap: int) -> bool {
    &&& forall|k: int| 0 <= k < groups.len() ==> close_together(#[trigger] groups[k], gap)
    &&& forall|k: int| 0 < k < groups.len() ==> far_apart(groups[k - 1], #[trigger] groups[k], gap)
}

/// The groups hold the files, all of them and in their order; no group is
/// empty, and the last group ends with the last file.
pub proof fn lemma_split_keeps_files(files: Seq<DatedFileView>, gap: int)
    ensures
        split_by_gap(files, gap).flatten() == files,
        forall|k: int|
            0 <= k < split_by_gap(files, gap).len() ==> (#[trigger] split_by_gap(
                files,
                gap,
            )[k]).len() > 0,
        files.len() > 0 ==> split_by_gap(files, gap).len() > 0 && split_by_gap(
            files,
            gap,
        ).last().last() == files.last(),
        files.len() == 0 ==> split_by_gap(files, gap).len() == 0,
    decreases files.len(),
{
    if files.len() > 0 {
        let shorter = files.drop_last();
        let earlier = split_by_gap(shorter, gap);
        lemma_split_keeps_files(shorter, gap);
        let groups = split_by_gap(files, gap);
        if starts_session(files, gap, files.len() - 1) {
            earlier.lemma_flatten_push(seq![files.last()]);
            assert(groups.flatten() =~= files);
        } else {
            assert(shorter.len() > 0);
            let kept = earlier.drop_last();
            let grown = earlier.last().push(files.last());
            assert(earlier =~= kept.push(earlier.last()));
            kept.lemma_flatten_push(earlier.last());
            kept.lemma_flatten_push(grown);
            assert(groups == kept.push(grown));
            assert(kept.flatten() + earlier.last() == shorter);
            assert(kept.flatten() + grown =~= shorter.push(files.last()));
            assert(shorter.push(files.last()) =~= files);
        }
    }
}

proof fn lemma_cut_with_new_group(
    earlier: Seq<Seq<DatedFileView>>,
    group: Seq<DatedFileView>,
    gap: int,
)
    requires
        cut_at_gaps(earlier, gap),
        close_together(group, gap),
        earlier.len() > 0 ==> far_apart(earlier.last(), group, gap),
    ensures
        cut_at_gaps(earlier.push(group), gap),
{
    let groups = earlier.push(group);
    assert forall|k: int| 0 <= k < groups.len() implies close_together(#[trigger] groups[k], gap) by {
        if k < earlier.len() {
            assert(groups[k] == earlier[k]);
        }
    }
    assert forall|k: int| 0 < k < groups.len() implies far_apart(
        groups[k - 1],
        #[trigger] groups[k],
        gap,
    ) by {
        assert(groups[k - 1] == earlier[k - 1]);
        if k < earlier.len() {
            assert(groups[k] == earlier[k]);
        }
    }
}

proof fn lemma_cut_with_longer_group(
    earlier: Seq<Seq<DatedFileView>>,
    file: DatedFileView,
    gap: int,
)
    requires
        cut_at_gaps(earlier, gap),
        earlier.len() > 0,
        earlier.last().len() > 0,
        seconds_apart(file.datetime, earlier.last().last().datetime) <= gap,
    ensures
        cut_at_gaps(earlier.drop_last().push(earlier.last().push(file)), gap),
{
    let last = earlier.len() - 1;
    let full = earlier[last];
    let grown = full.push(file);
    let groups = earlier.drop_last().push(grown);
    assert(close_together(full, gap));
    assert(close_together(grown, gap)) by {
        assert forall|i: int| 0 < i < grown.len() implies seconds_apart(
            (#[trigger] grown[i]).datetime,
            grown[i - 1].datetime,
        ) <= gap by {
            if i < full.len() {
                assert(grown[i] == full[i]);
                assert(grown[i - 1] == full[i - 1]);
            } else {
                assert(grown[i] == file);
                assert(grown[i - 1] == full.last());
            }
        }
    }
    assert forall|k: int| 0 <= k < groups.len() implies close_together(#[trigger] groups[k], gap) by {
        if k < last {
            assert(groups[k] == earlier[k]);
        } else {
            assert(groups[k] == grown);
        }
    }
    assert forall|k: int| 0 < k < groups.len() implies far_apart(
        groups[k - 1],
        #[trigger] groups[k],
        gap,
    ) by {
        assert(groups[k - 1] == earlier[k - 1]);
        assert(far_apart(earlier[k - 1], earlier[k], gap));
        if k < last {
            assert(groups[k] == earlier[k]);
        } else {
            assert(groups[k] == grown);
            assert(grown.first() == full.first());
        }
    }
}

/// Within each session every file was taken within `gap` seconds of the one
/// in front of it, and between the end of a session and the start of the next
/// lie more than `gap` seconds.
pub proof fn lemma_gap_property(files: Seq<DatedFileView>, gap: int)
    ensures
        cut_at_gaps(split_by_gap(files, gap), gap),
    decreases files.len(),
{
    if files.len() > 0 {
        let shorter = files.drop_last();
        let earlier = split_by_gap(shorter, gap);
        lemma_gap_property(shorter, gap);
        lemma_split_keeps_files(shorter, gap);
        if starts_session(files, gap, files.len() - 1) {
            let alone = seq![files.last()];
            assert(close_together(alone, gap));
            if earlier.len() > 0 {
                assert(earlier.last().last() == files[files.len() - 2]);
                assert(alone.first() == files[files.len() - 1]);
            }
            lemma_cut_with_new_group(earlier, alone, gap);
        } else {
            assert(earlier.last().last() == files[files.len() - 2]);
            lemma_cut_with_longer_group(earlier, files.last(), gap);
        }
    }
}

/// Whether the groups are the files cut into pieces: put end to end they
/// are the files, and none of them is empty.
pub open spec fn pieces_of(groups: Seq<Seq<DatedFileView>>, files: Seq<DatedFileView>) -> bool {
    &&& groups.flatten() == files
    &&& forall|k: int| 0 <= k < groups.len() ==> (#[trigger] groups[k]).len() > 0
}

proof fn lemma_front_is_cut(groups: Seq<Seq<DatedFileView>>, gap: int)
    requires
        cut_at_gaps(groups, gap),
        groups.len() > 0,
    ensures
        cut_at_gaps(groups.drop_last(), gap),
{
    let front = groups.drop_last();
    assert forall|k: int| 0 <= k < front.len() implies close_together(#[trigger] front[k], gap) by {
        assert(front[k] == groups[k]);
    }
    assert forall|k: int| 0 < k < front.len() implies far_apart(
        front[k - 1],
        #[trigger] front[k],
        gap,
    ) by {
        assert(front[k] == groups[k]);
        assert(front[k - 1] == groups[k - 1]);
    }
}

proof fn lemma_last_piece(groups: Seq<Seq<DatedFileView>>, files: Seq<DatedFileView>)
    requires
        pieces_of(groups, files),
        groups.len() > 0,
    ensures
        files == groups.drop_last().flatten() + groups.last(),
        groups.last().len() > 0,
        pieces_of(groups.drop_last(), groups.drop_last().flatten()),
        groups.len() > 1 ==> groups.drop_last().flatten().len() > 0
            && groups.drop_last().flatten().last() == groups[groups.len() - 2].last(),
        groups.len() == 1 ==> groups.drop_last().flatten().len() == 0,
{
    let front = groups.drop_last();
    assert(groups =~= front.push(groups.last()));
    front.lemma_flatten_push(groups.last());
    if groups.len() == 1 {
        assert(front =~= Seq::empty());
    }
    assert forall|k: int| 0 <= k < front.len() implies (#[trigger] front[k]).len() > 0 by {
        assert(front[k] == groups[k]);
    }
    if groups.len() > 1 {
        let inner = front.drop_last();
        assert(front =~= inner.push(front.last()));
        inner.lemma_flatten_push(front.last());
        assert(front.last() == groups[groups.len() - 2]);
        assert(front.last().len() > 0);
    }
}

proof fn lemma_unique_with_new_group(
    files: Seq<DatedFileView>,
    gap: int,
    groups: Seq<Seq<DatedFileView>>,
)
    requires
        groups.len() > 0,
        groups.last() == seq![files.last()],
        files.len() > 0,
        starts_session(files, gap, files.len() - 1),
        groups.drop_last() == split_by_gap(files.drop_last(), gap),
    ensures
        groups == split_by_gap(files, gap),
{
    assert(groups =~= groups.drop_last().push(groups.last()));
}

proof fn lemma_unique_with_longer_group(
    files: Seq<DatedFileView>,
    gap: int,
    groups: Seq<Seq<DatedFileView>>,
)
    requires
        groups.len() > 0,
        groups.last().len() > 1,
        files.len() > 1,
        groups.last().last() == files.last(),
        !starts_session(files, gap, files.len() - 1),
        groups.drop_last().push(groups.last().drop_last()) == split_by_gap(
            files.drop_last(),
            gap,
        ),
    ensures
        groups == split_by_gap(files, gap),
{
    let front = groups.drop_last();
    let tail = groups.last();
    let rest = tail.drop_last();
    let before = front.push(rest);
    assert(before.drop_last() =~= front);
    assert(before.last() == rest);
    assert(rest.push(files.last()) =~= tail);
    assert(groups =~= front.push(tail));
}

proof fn lemma_end_of_cut(groups: Seq<Seq<DatedFileView>>, gap: int)
    requires
        cut_at_gaps(groups, gap),
        groups.len() > 0,
    ensures
        groups.len() > 1 ==> far_apart(groups[groups.len() - 2], groups.last(), gap),
        groups.last().len() > 1 ==> seconds_apart(
            groups.last()[groups.last().len() - 1].datetime,
            groups.last()[groups.last().len() - 2].datetime,
        ) <= gap,
{
    let tail = groups[groups.len() - 1];
    assert(close_together(tail, gap));
    if tail.len() > 1 {
        assert(seconds_apart(tail[tail.len() - 1].datetime, tail[tail.len() - 2].datetime) <= gap);
    }
}

proof fn lemma_end_of_files(
    files: Seq<DatedFileView>,
    prefix: Seq<DatedFileView>,
    tail: Seq<DatedFileView>,
    gap: int,
)
    requires
        files == prefix + tail,
        tail.len() > 0,
        tail.len() == 1 && prefix.len() > 0 ==> seconds_apart(
            tail[0].datetime,
            prefix.last().datetime,
        ) > gap,
        tail.len() > 1 ==> seconds_apart(
            tail[tail.len() - 1].datetime,
            tail[tail.len() - 2].datetime,
        ) <= gap,
    ensures
        files.len() > 0,
        tail.last() == files.last(),
        tail.len() == 1 ==> tail == seq![files.last()] && prefix == files.drop_last()
            && starts_session(files, gap, files.len() - 1),
        tail.len() > 1 ==> files.len() > 1 && !starts_session(files, gap, files.len() - 1),
{
    let n = files.len() as int;
    assert(files[n - 1] == tail[tail.len() - 1]);
    if tail.len() == 1 {
        assert(tail =~= seq![files.last()]);
        assert(prefix =~= files.drop_last());
        if prefix.len() > 0 {
            assert(files[n - 2] == prefix[prefix.len() - 1]);
        }
    } else {
        assert(files[n - 2] == tail[tail.len() - 2]);
    }
}

proof fn lemma_shorter_pieces(groups: Seq<Seq<DatedFileView>>, files: Seq<DatedFileView>, gap: int)
    requires
        pieces_of(groups, files),
        cut_at_gaps(groups, gap),
        groups.len() > 0,
        groups.last().len() > 1,
    ensures
        pieces_of(groups.drop_last().push(groups.last().drop_last()), files.drop_last()),
        cut_at_gaps(groups.drop_last().push(groups.last().drop_last()), gap),
{
    let front = groups.drop_last();
    let tail = groups.last();
    let rest = tail.drop_last();
    let before = front.push(rest);
    lemma_last_piece(groups, files);
    lemma_front_is_cut(groups, gap);
    front.lemma_flatten_push(rest);
    assert(before.flatten() =~= files.drop_last());
    assert forall|k: int| 0 <= k < before.len() implies (#[trigger] before[k]).len() > 0 by {
        if k < front.len() {
            assert(before[k] == groups[k]);
        }
    }
    assert(close_together(tail, gap));
    assert(close_together(rest, gap)) by {
        assert forall|i: int| 0 < i < rest.len() implies seconds_apart(
            (#[trigger] rest[i]).datetime,
            rest[i - 1].datetime,
        ) <= gap by {
            assert(rest[i] == tail[i]);
            assert(rest[i - 1] == tail[i - 1]);
        }
    }
    if front.len() > 0 {
        assert(far_apart(groups[groups.len() - 2], groups[groups.len() - 1], gap));
        assert(groups[groups.len() - 2] == front.last());
        assert(rest.first() == tail.first());
    }
    lemma_cut_with_new_group(front, rest, gap);
}

/// There is one way only to cut the files at the gaps: whatever pieces of
/// the files are close together within and far apart from each other are the
/// sessions that `split_by_gap` finds.
pub proof fn lemma_cut_is_unique(
    files: Seq<DatedFileView>,
    gap: int,
    groups: Seq<Seq<DatedFileView>>,
)
    requires
        pieces_of(groups, files),
        cut_at_gaps(groups, gap),
    ensures
        groups == split_by_gap(files, gap),
    decreases files.len(),
{
    if groups.len() == 0 {
        assert(groups.flatten() =~= Seq::empty());
        assert(groups =~= Seq::empty());
    } else {
        lemma_last_piece(groups, files);
        lemma_end_of_cut(groups, gap);
        lemma_end_of_files(files, groups.drop_last().flatten(), groups.last(), gap);
        if groups.last().len() == 1 {
            lemma_front_is_cut(groups, gap);
            lemma_cut_is_unique(files.drop_last(), gap, groups.drop_last());
            lemma_unique_with_new_group(files, gap, groups);
        } else {
            lemma_shorter_pieces(groups, files, gap);
            lemma_cut_is_unique(
                files.drop_last(),
                gap,
                groups.drop_last().push(groups.last().drop_last()),
            );
            lemma_unique_with_longer_group(files, gap, groups);
        }
    }
}

/// Whether no file was taken before the file in front of it.
pub open spec fn in_order_of_time(files: Seq<DatedFileView>) -> bool {
    forall|i: int, j: int|
        0 <= i <= j < files.len() ==> (#[trigger] files[i]).datetime <= (
        #[trigger] files[j]).datetime
}

/// Whether no group begins before the group in front of it.
pub open spec fn begin_in_order_of_time(groups: Seq<Seq<DatedFileView>>) -> bool {
    forall|k: int, m: int|
        0 <= k <= m < groups.len() ==> (#[trigger] groups[k]).first().datetime <= (
        #[trigger] groups[m]).first().datetime
}

/// Whether no file of any group was taken after `time`.
pub open spec fn none_later(groups: Seq<Seq<DatedFileView>>, time: int) -> bool {
    forall|k: int, i: int|
        0 <= k < groups.len() && 0 <= i < groups[k].len() ==> (#[trigger] groups[k][i]).datetime
            <= time
}

proof fn lemma_sessions_end_in_time(files: Seq<DatedFileView>, gap: int)
    requires
        in_order_of_time(files),
        files.len() > 0,
    ensures
        begin_in_order_of_time(split_by_gap(files, gap)),
        none_later(split_by_gap(files, gap), files.last().datetime),
    decreases files.len(),
{
    let shorter = files.drop_last();
    let earlier = split_by_gap(shorter, gap);
    let groups = split_by_gap(files, gap);
    let time = files.last().datetime;
    lemma_split_keeps_files(shorter, gap);
    assert(in_order_of_time(shorter)) by {
        assert forall|i: int, j: int| 0 <= i <= j < shorter.len() implies (
        #[trigger] shorter[i]).datetime <= (#[trigger] shorter[j]).datetime by {
            assert(shorter[i] == files[i] && shorter[j] == files[j]);
        }
    }
    if shorter.len() > 0 {
        lemma_sessions_end_in_time(shorter, gap);
        assert(shorter.last() == files[files.len() - 2]);
        assert(files[files.len() - 2].datetime <= files[files.len() - 1].datetime);
    }
    assert(none_later(earlier, time)) by {
        assert forall|k: int, i: int| 0 <= k < earlier.len() && 0 <= i
            < earlier[k].len() implies (#[trigger] earlier[k][i]).datetime <= time by {
            assert(earlier[k][i].datetime <= shorter.last().datetime);
        }
    }
    if starts_session(files, gap, files.len() - 1) {
        let alone = seq![files.last()];
        assert(groups == earlier.push(alone));
        assert forall|k: int, m: int| 0 <= k <= m < groups.len() implies (
        #[trigger] groups[k]).first().datetime <= (#[trigger] groups[m]).first().datetime by {
            if m < earlier.len() {
                assert(groups[k] == earlier[k] && groups[m] == earlier[m]);
            } else if k < earlier.len() {
                assert(groups[k] == earlier[k]);
                assert(earlier[k][0].datetime <= time);
            }
        }
        assert forall|k: int, i: int| 0 <= k < groups.len() && 0 <= i < groups[k].len() implies (
        #[trigger] groups[k][i]).datetime <= time by {
            if k < earlier.len() {
                assert(groups[k] == earlier[k]);
                assert(earlier[k][i].datetime <= time);
            }
        }
    } else {
        let last = earlier.len() - 1;
        let grown = earlier.last().push(files.last());
        assert(groups == earlier.drop_last().push(grown));
        assert(grown.first() == earlier[last].first());
        assert forall|k: int, m: int| 0 <= k <= m < groups.len() implies (
        #[trigger] groups[k]).first().datetime <= (#[trigger] groups[m]).first().datetime by {
            assert(groups[k].first() == earlier[k].first());
            assert(groups[m].first() == earlier[m].first());
        }
        assert forall|k: int, i: int| 0 <= k < groups.len() && 0 <= i < groups[k].len() implies (
        #[trigger] groups[k][i]).datetime <= time by {
            if k < last {
                assert(groups[k] == earlier[k]);
                assert(earlier[k][i].datetime <= time);
            } else if i < earlier[last].len() {
                assert(groups[k][i] == earlier[last][i]);
                assert(earlier[last][i].datetime <= time);
            }
        }
    }
}

/// Where the files stand in the order in which they were taken, the sessions
/// do too: none begins before the one in front of it.
pub proof fn lemma_sessions_follow_time(files: Seq<DatedFileView>, gap: int)
    requires
        in_order_of_time(files),
    ensures
        begin_in_order_of_time(split_by_gap(files, gap)),
{
    if files.len() > 0 {
        lemma_sessions_end_in_time(files, gap);
    }
}

/// Whether two files that far apart belong to different sessions.
fn exceeds(apart: u64, gap_seconds: i64) -> (more: bool)
    ensures
        more == (apart > gap_seconds),
{
    gap_seconds < 0 || apart > gap_seconds as u64
}

/// Cuts the files into groups wherever two neighbours were taken more than
/// `gap_seconds` apart.
pub fn split_into_groups(files: Vec<DatedFile>, gap_seconds: i64) -> (groups: Vec<Vec<DatedFile>>)
    ensures
        group_views(groups@) == split_by_gap(file_views(files@), gap_seconds as int),
        forall|k: int| 0 <= k < groups.len() ==> (#[trigger] groups[k]).len() > 0,
{
    let ghost all = file_views(files@);
    let ghost gap = gap_seconds as int;
    let mut groups: Vec<Vec<DatedFile>> = Vec::new();
    let mut current: Vec<DatedFile> = Vec::new();
    for file in it: files
        invariant
            file_views(it.seq()) == all,
            gap == gap_seconds,
            forall|k: int| 0 <= k < groups.len() ==> (#[trigger] groups[k]).len() > 0,
            it.index() == 0 ==> groups.len() == 0 && current.len() == 0,
            it.index() > 0 ==> current.len() > 0 && current@.last()@ == all[it.index() - 1]
                && group_views(groups@).push(file_views(current@)) == split_by_gap(
                all.take(it.index() as int),
                gap,
            ),
    {
        let ghost i = it.index() as int;
        let ghost seen = all.take(i + 1);
        assert(seen.drop_last() =~= all.take(i));
        assert(seen.last() == file@);
        let ghost earlier = split_by_gap(all.take(i), gap);
        let mut cut = false;
        if current.len() > 0 {
            let previous = &current[current.len() - 1];
            cut = exceeds(file.datetime.seconds_between(&previous.datetime), gap_seconds);
            assert(seen[i - 1] == all[i - 1]);
        }
        assert(i > 0 ==> cut == starts_session(seen, gap, i));
        if cut {
            let ghost full = current@;
            let ghost before = groups@;
            groups.push(current);
            current = Vec::new();
            assert(group_views(groups@) =~= group_views(before).push(file_views(full)));
        }
        let ghost open = current@;
        current.push(file);
        assert(file_views(current@) =~= file_views(open).push(file@));
        proof {
            if i == 0 {
                assert(earlier =~= Seq::empty());
                assert(group_views(groups@) =~= Seq::empty());
                assert(file_views(current@) =~= seq![file@]);
            } else if cut {
                assert(file_views(current@) =~= seq![file@]);
            } else {
                assert(earlier.drop_last() =~= group_views(groups@));
                assert(earlier.last() == file_views(open));
            }
        }
    }
    if current.len() > 0 {
        let ghost before = groups@;
        let ghost full = current@;
        groups.push(current);
        assert(group_views(groups@) =~= group_views(before).push(file_views(full)));
        assert(all.take(all.len() as int) =~= all);
    } else {
        assert(all.len() == 0);
        assert(group_views(groups@) =~= Seq::empty());
    }
    groups
}

/// How many sessions that begin on one day can be told apart: one for each
/// letter from `a` to `z`.
pub const LETTERS: usize = 26;

/// More sessions begin on one day than there are letters to tell them apart.
#[derive(Debug, PartialEq, Eq)]
pub struct TooManySessions {
    /// The day in question.
    pub date: String,
}

impl TooManySessions {
    /// The error in words.
    pub fn message(&self) -> (text: String)
        ensures
            text@ == "more sessions than letters on "@ + self.date@,
    {
        let mut text = String::from_str("more sessions than letters on ");
        text.append(self.date.as_str());
        text
    }
}

/// How many of the first `upto` dates are the given one.
pub open spec fn occurrences(dates: Seq<Seq<char>>, date: Seq<char>, upto: int) -> nat
    decreases upto,
{
    if upto <= 0 {
        0
    } else {
        occurrences(dates, date, upto - 1) + if dates[upto - 1] == date {
            1nat
        } else {
            0nat
        }
    }
}

/// The letter for the session with the given index among those of its day:
/// `a` for the first.
pub open spec fn suffix_letter(index: nat) -> char {
    ('a' as u8 + index) as u8 as char
}

/// The folder name of the session at `i`, where `dates` holds the day on
/// which each session begins: the day alone if no other session begins on it,
/// else the day, an underscore and a letter, which counts the sessions of
/// that day in the order in which they stand.
pub open spec fn folder_name(dates: Seq<Seq<char>>, i: int) -> Seq<char> {
    if occurrences(dates, dates[i], dates.len() as int) == 1 {
        dates[i]
    } else {
        dates[i] + seq!['_', suffix_letter(occurrences(dates, dates[i], i))]
    }
}

/// Whether the session at `i` has so many sessions of its day in front of it
/// that no letter is left for it.
pub open spec fn lacks_letter(dates: Seq<Seq<char>>, i: int) -> bool {
    occurrences(dates, dates[i], i) >= LETTERS
}

/// Whether every session gets a name: no day has more sessions than letters.
pub open spec fn letters_suffice(dates: Seq<Seq<char>>) -> bool {
    forall|i: int| 0 <= i < dates.len() ==> !#[trigger] lacks_letter(dates, i)
}

/// Whether the session at `i` is the first that gets no name.
pub open spec fn first_without_letter(dates: Seq<Seq<char>>, i: int) -> bool {
    &&& 0 <= i < dates.len()
    &&& lacks_letter(dates, i)
    &&& forall|k: int| 0 <= k < i ==> !#[trigger] lacks_letter(dates, k)
}

/// The folder names for sessions that begin on the given days, or the day of
/// the first session that gets none.
pub open spec fn names_of(dates: Seq<Seq<char>>) -> Result<Seq<Seq<char>>, Seq<char>> {
    if letters_suffice(dates) {
        Ok(Seq::new(dates.len(), |i: int| folder_name(dates, i)))
    } else {
        Err(dates[choose|i: int| first_without_letter(dates, i)])
    }
}

/// What the outcome of naming holds.
pub open spec fn naming_view(outcome: Result<Vec<String>, TooManySessions>) -> Result<
    Seq<Seq<char>>,
    Seq<char>,
> {
    match outcome {
        Ok(names) => Ok(texts_of(names@)),
        Err(error) => Err(error.date@),
    }
}

/// Whether every text is made of the characters of a date.
pub open spec fn all_date_shaped(dates: Seq<Seq<char>>) -> bool {
    forall|i: int| 0 <= i < dates.len() ==> is_date_shaped(#[trigger] dates[i])
}

proof fn lemma_occurrences_grow(dates: Seq<Seq<char>>, date: Seq<char>, from: int, upto: int)
    requires
        from <= upto,
    ensures
        occurrences(dates, date, from) <= occurrences(dates, date, upto),
    decreases upto - from,
{
    if from < upto {
        lemma_occurrences_grow(dates, date, from, upto - 1);
    }
}

proof fn lemma_occurrences_count(dates: Seq<Seq<char>>, i: int, upto: int)
    requires
        0 <= i < upto,
    ensures
        occurrences(dates, dates[i], i) < occurrences(dates, dates[i], upto),
{
    lemma_occurrences_grow(dates, dates[i], i + 1, upto);
}

proof fn lemma_letters_differ(a: nat, b: nat)
    requires
        a < b < LETTERS,
    ensures
        suffix_letter(a) != suffix_letter(b),
{
    assert(suffix_letter(a) as u8 == 97 + a);
    assert(suffix_letter(b) as u8 == 97 + b);
}

/// No two sessions get the same folder name, as long as every day is written
/// as a date and no day has more sessions than letters.
pub proof fn lemma_folder_names_distinct(dates: Seq<Seq<char>>, i: int, j: int)
    requires
        all_date_shaped(dates),
        letters_suffice(dates),
        0 <= i < j < dates.len(),
    ensures
        folder_name(dates, i) != folder_name(dates, j),
{
    let n = dates.len() as int;
    let first = dates[i];
    let second = dates[j];
    let a = occurrences(dates, first, i);
    let b = occurrences(dates, second, j);
    let tail_a = seq!['_', suffix_letter(a)];
    let tail_b = seq!['_', suffix_letter(b)];
    assert(!lacks_letter(dates, i));
    assert(!lacks_letter(dates, j));
    assert(is_date_shaped(first));
    assert(is_date_shaped(second));
    if first == second {
        lemma_occurrences_count(dates, i, j);
        lemma_occurrences_count(dates, j, n);
        lemma_letters_differ(a, b);
        assert((first + tail_a)[first.len() as int + 1] == suffix_letter(a));
        assert((second + tail_b)[second.len() as int + 1] == suffix_letter(b));
    } else {
        let alone_a = occurrences(dates, first, n) == 1;
        let alone_b = occurrences(dates, second, n) == 1;
        if !alone_a && !alone_b {
            if first + tail_a == second + tail_b {
                assert((first + tail_a).len() == first.len() + 2);
                assert((second + tail_b).len() == second.len() + 2);
                assert forall|k: int| 0 <= k < first.len() implies first[k] == second[k] by {
                    assert((first + tail_a)[k] == first[k]);
                    assert((second + tail_b)[k] == second[k]);
                }
                assert(first =~= second);
            }
        } else if alone_a && !alone_b {
            if first == second + tail_b {
                assert((second + tail_b)[second.len() as int] == '_');
                assert(is_date_char(first[second.len() as int]));
            }
        } else if !alone_a && alone_b {
            if first + tail_a == second {
                assert((first + tail_a)[first.len() as int] == '_');
                assert(is_date_char(second[first.len() as int]));
            }
        }
    }
}

/// Whether the map holds, for each day among the first `upto`, how often it
/// stands there, and no other day.
pub open spec fn counts_days(
    counts: Map<Seq<char>, usize>,
    days: Seq<Seq<char>>,
    upto: int,
) -> bool {
    forall|day: Seq<char>|
        #![trigger counts.contains_key(day)]
        #![trigger occurrences(days, day, upto)]
        {
            &&& counts.contains_key(day) <==> occurrences(days, day, upto) > 0
            &&& counts.contains_key(day) ==> counts[day] == occurrences(days, day, upto)
        }
}

proof fn lemma_occurrences_bound(dates: Seq<Seq<char>>, date: Seq<char>, upto: int)
    requires
        0 <= upto,
    ensures
        occurrences(dates, date, upto) <= upto,
    decreases upto,
{
    if upto > 0 {
        lemma_occurrences_bound(dates, date, upto - 1);
    }
}

/// How often the day stands among those counted so far.
fn counted(counts: &StringHashMap<usize>, day: &str) -> (count: usize)
    ensures
        count == if counts@.contains_key(day@) {
            counts@[day@]
        } else {
            0
        },
{
    match counts.get(day) {
        Some(count) => *count,
        None => 0,
    }
}

/// Counts the day at `i` in.
fn count_day(counts: &mut StringHashMap<usize>, dates: &Vec<String>, i: usize)
    requires
        i < dates.len(),
        counts_days(old(counts)@, texts_of(dates@), i as int),
    ensures
        counts_days(final(counts)@, texts_of(dates@), i + 1),
{
    let ghost days = texts_of(dates@);
    let ghost before = counts@;
    let so_far = counted(counts, dates[i].as_str());
    proof {
        lemma_occurrences_bound(days, days[i as int], i as int);
        assert(so_far == occurrences(days, days[i as int], i as int));
    }
    counts.insert(dates[i].clone(), so_far + 1);
    assert forall|day: Seq<char>|
        #![trigger counts@.contains_key(day)]
        #![trigger occurrences(days, day, i + 1)]
        {
            &&& counts@.contains_key(day) <==> occurrences(days, day, i + 1) > 0
            &&& counts@.contains_key(day) ==> counts@[day] == occurrences(days, day, i + 1)
        } by {
        assert(before.contains_key(day) <==> occurrences(days, day, i as int) > 0);
        if before.contains_key(day) {
            assert(before[day] == occurrences(days, day, i as int));
        }
    }
}

/// The folder names for sessions that begin on the given days.
pub fn folder_names(dates: &Vec<String>) -> (names: Result<Vec<String>, TooManySessions>)
    ensures
        naming_view(names) == names_of(texts_of(dates@)),
        names is Ok && all_date_shaped(texts_of(dates@)) ==> names_of(
            texts_of(dates@),
        )->Ok_0.no_duplicates(),
{
    let ghost days = texts_of(dates@);
    let n = dates.len();
    // how many sessions begin on each day
    let mut date_counts: StringHashMap<usize> = StringHashMap::new();
    let mut i: usize = 0;
    while i < n
        invariant
            i <= n == dates.len(),
            days == texts_of(dates@),
            counts_days(date_counts@, days, i as int),
        decreases n - i,
    {
        count_day(&mut date_counts, dates, i);
        i = i + 1;
    }
    // how many sessions of each day have been named so far
    let mut date_seen: StringHashMap<usize> = StringHashMap::new();
    let mut names: Vec<String> = Vec::new();
    let mut i: usize = 0;
    while i < n
        invariant
            i <= n == dates.len(),
            days == texts_of(dates@),
            counts_days(date_counts@, days, n as int),
            counts_days(date_seen@, days, i as int),
            names.len() == i,
            forall|k: int| 0 <= k < i ==> !#[trigger] lacks_letter(days, k),
            forall|k: int| 0 <= k < i ==> (#[trigger] names[k])@ == folder_name(days, k),
        decreases n - i,
    {
        let total = counted(&date_counts, dates[i].as_str());
        let before = counted(&date_seen, dates[i].as_str());
        assert(total == occurrences(days, days[i as int], n as int));
        assert(before == occurrences(days, days[i as int], i as int));
        let mut name = dates[i].clone();
        if total != 1 {
            if before >= LETTERS {
                proof {
                    assert(first_without_letter(days, i as int));
                    let chosen = choose|k: int| first_without_letter(days, k);
                    assert(first_without_letter(days, chosen));
                    assert(chosen == i) by {
                        if chosen < i {
                            assert(!lacks_letter(days, chosen));
                        }
                        if i < chosen {
                            assert(!lacks_letter(days, i as int));
                        }
                    }
                }
                return Err(TooManySessions { date: name });
            }
            name.push('_');
            name.push((97u8 + before as u8) as char);
            assert(name@ =~= days[i as int] + seq!['_', suffix_letter(before as nat)]);
        } else {
            proof {
                lemma_occurrences_count(days, i as int, n as int);
            }
        }
        names.push(name);
        count_day(&mut date_seen, dates, i);
        i = i + 1;
    }
    proof {
        assert(letters_suffice(days));
        assert(texts_of(names@) =~= Seq::new(days.len(), |k: int| folder_name(days, k)));
        if all_date_shaped(days) {
            let listed = names_of(days)->Ok_0;
            assert forall|a: int, b: int| 0 <= a < listed.len() && 0 <= b < listed.len() && a
                != b implies listed[a] != listed[b] by {
                if a < b {
                    lemma_folder_names_distinct(days, a, b);
                } else {
                    lemma_folder_names_distinct(days, b, a);
                }
            }
        }
    }
    Ok(names)
}

/// The day on which each group begins: that of its first file.
pub open spec fn session_dates(groups: Seq<Seq<DatedFileView>>) -> Seq<Seq<char>> {
    Seq::new(groups.len(), |k: int| date_label(groups[k].first().datetime))
}

/// The groups as sessions, each under its folder name, or the day of the
/// first group that gets none.
pub open spec fn sessions_named(groups: Seq<Seq<DatedFileView>>) -> Result<
    Seq<SessionView>,
    Seq<char>,
> {
    match names_of(session_dates(groups)) {
        Ok(names) => Ok(
            Seq::new(
                groups.len(),
                |k: int| SessionView { folder_name: names[k], files: groups[k] },
            ),
        ),
        Err(date) => Err(date),
    }
}

/// The sessions into which the files fall for this gap.
pub open spec fn sessions_of(files: Seq<DatedFileView>, gap: int) -> Result<
    Seq<SessionView>,
    Seq<char>,
> {
    sessions_named(split_by_gap(files, gap))
}

/// What the outcome of grouping holds.
pub open spec fn grouping_view(outcome: Result<Vec<Session>, TooManySessions>) -> Result<
    Seq<SessionView>,
    Seq<char>,
> {
    match outcome {
        Ok(sessions) => Ok(session_views(sessions@)),
        Err(error) => Err(error.date@),
    }
}

/// The folder names of the sessions, in their order.
pub open spec fn folder_names_of(sessions: Seq<SessionView>) -> Seq<Seq<char>> {
    Seq::new(sessions.len(), |k: int| sessions[k].folder_name)
}

/// Gives each group its folder name. No two groups get the same name.
pub fn name_sessions(sessions: Vec<Vec<DatedFile>>) -> (named: Result<
    Vec<Session>,
    TooManySessions,
>)
    requires
        forall|k: int| 0 <= k < sessions.len() ==> (#[trigger] sessions[k]).len() > 0,
    ensures
        grouping_view(named) == sessions_named(group_views(sessions@)),
        named matches Ok(list) ==> folder_names_of(session_views(list@)).no_duplicates(),
{
    let ghost groups = group_views(sessions@);
    let ghost days = session_dates(groups);
    let mut dates: Vec<String> = Vec::new();
    let mut k: usize = 0;
    while k < sessions.len()
        invariant
            k <= sessions.len(),
            groups == group_views(sessions@),
            days == session_dates(groups),
            dates.len() == k,
            forall|m: int| 0 <= m < sessions.len() ==> (#[trigger] sessions[m]).len() > 0,
            forall|m: int| 0 <= m < k ==> (#[trigger] dates[m])@ == days[m],
            forall|m: int| 0 <= m < k ==> is_date_shaped((#[trigger] dates[m])@),
        decreases sessions.len() - k,
    {
        let group = &sessions[k];
        assert(group.len() > 0);
        let date = group[0].datetime.date();
        assert(groups[k as int].first() == group[0]@);
        dates.push(date);
        k = k + 1;
    }
    assert(texts_of(dates@) =~= days);
    assert(all_date_shaped(days)) by {
        assert forall|m: int| 0 <= m < days.len() implies is_date_shaped(#[trigger] days[m]) by {
            assert(dates[m]@ == days[m]);
        }
    }
    match folder_names(&dates) {
        Err(error) => Err(error),
        Ok(names) => {
            let ghost labels = names_of(days)->Ok_0;
            assert(naming_view(Ok(names)) == names_of(days));
            assert(labels.len() == groups.len());
            assert(texts_of(names@) == labels);
            let mut named: Vec<Session> = Vec::new();
            for group in it: sessions
                invariant
                    group_views(it.seq()) == groups,
                    names.len() == groups.len(),
                    texts_of(names@) == labels,
                    named.len() == it.index(),
                    forall|m: int|
                        0 <= m < named.len() ==> (#[trigger] named[m])@ == (SessionView {
                            folder_name: labels[m],
                            files: groups[m],
                        }),
            {
                let folder_name = names[named.len()].clone();
                assert(folder_name@ == texts_of(names@)[named.len() as int]);
                assert(groups[it.index() as int] == file_views(group@));
                named.push(Session { folder_name, files: group });
            }
            proof {
                let listed = session_views(named@);
                assert(listed =~= Seq::new(
                    groups.len(),
                    |m: int| SessionView { folder_name: labels[m], files: groups[m] },
                ));
                assert(folder_names_of(listed) =~= labels);
            }
            Ok(named)
        },
    }
}

/// Groups the files into sessions and names each session's folder. A session
/// begins wherever a file was taken more than `gap_seconds` before or after
/// the file in front of it; the files keep their order. Fails where more
/// sessions begin on one day than there are letters to tell them apart.
pub fn group_into_sessions(files: Vec<DatedFile>, gap_seconds: i64) -> (sessions: Result<
    Vec<Session>,
    TooManySessions,
>)
    ensures
        grouping_view(sessions) == sessions_of(file_views(files@), gap_seconds as int),
        sessions matches Ok(list) ==> folder_names_of(session_views(list@)).no_duplicates(),
{
    name_sessions(split_into_groups(files, gap_seconds))
}

/// Grouping is a function of the files and the gap: whatever two calls on the
/// same files and the same gap hand back is the same.
pub proof fn lemma_grouping_is_deterministic(
    files: Seq<DatedFileView>,
    gap: int,
    first: Result<Seq<SessionView>, Seq<char>>,
    second: Result<Seq<SessionView>, Seq<char>>,
)
    requires
        first == sessions_of(files, gap),
        second == sessions_of(files, gap),
    ensures
        first == second,
{
}

} // verus!
