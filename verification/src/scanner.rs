//! Which files of a card are taken, and in which order: raw images and films,
//! by the number that the camera wrote at the end of each name.

use crate::paths::{extension, file_stem, path_extension, path_file_stem};
use crate::text::{text_of, texts_of};
use vstd::prelude::*;

verus! {

/// A file found on the card, with the number at the end of its name.
#[derive(Debug)]
pub struct ScannedFile {
    pub path: String,
    pub sequence_number: Option<u64>,
}

/// What a scanned file holds.
pub struct ScannedFileView {
    pub path: Seq<char>,
    pub sequence_number: Option<u64>,
}

impl View for ScannedFile {
    type V = ScannedFileView;

    open spec fn view(&self) -> ScannedFileView {
        ScannedFileView { path: self.path@, sequence_number: self.sequence_number }
    }
}

impl Clone for ScannedFile {
    fn clone(&self) -> (copy: Self)
        ensures
            copy@ == self@,
    {
        ScannedFile { path: self.path.clone(), sequence_number: self.sequence_number }
    }
}

/// What a list of scanned files holds.
pub open spec fn scanned_views(files: Seq<ScannedFile>) -> Seq<ScannedFileView> {
    files.map_values(|f: ScannedFile| f@)
}

/// The kinds of file that are transferred.
#[derive(Debug, Clone, Copy, PartialEq, Eq)]
pub enum MediaKind {
    /// A raw image, with the extension `cr2`.
    RawImage,
    /// A film, with the extension `mp4`.
    Film,
}

/// The kind of file that an extension stands for, whether it is written in
/// small or in capital letters.
pub open spec fn media_kind_spec(ext: Option<Seq<char>>) -> Option<MediaKind> {
    match ext {
        None => None,
        Some(e) => if e.len() != 3 {
            None
        } else if (e[0] == 'c' || e[0] == 'C') && (e[1] == 'r' || e[1] == 'R') && e[2] == '2' {
            Some(MediaKind::RawImage)
        } else if (e[0] == 'm' || e[0] == 'M') && (e[1] == 'p' || e[1] == 'P') && e[2] == '4' {
            Some(MediaKind::Film)
        } else {
            None
        },
    }
}

/// The kind of file that an extension stands for.
pub fn media_kind_of_extension(ext: Option<String>) -> (kind: Option<MediaKind>)
    ensures
        kind == media_kind_spec(text_of(ext)),
{
    match ext {
        None => None,
        Some(e) => {
            let text = e.as_str();
            if text.unicode_len() != 3 {
                return None;
            }
            let first = text.get_char(0);
            let second = text.get_char(1);
            let third = text.get_char(2);
            if (first == 'c' || first == 'C') && (second == 'r' || second == 'R') && third == '2' {
                Some(MediaKind::RawImage)
            } else if (first == 'm' || first == 'M') && (second == 'p' || second == 'P') && third
                == '4' {
                Some(MediaKind::Film)
            } else {
                None
            }
        },
    }
}

/// The kind of the file at `path`, if it is one that is transferred.
pub fn media_kind(path: &str) -> (kind: Option<MediaKind>)
    ensures
        kind == media_kind_spec(path_extension(path@)),
{
    media_kind_of_extension(extension(path))
}

/// Whether the character is one of the digits `0` to `9`.
pub open spec fn is_digit(c: char) -> bool {
    '0' <= c && c <= '9'
}

/// The value of a digit.
pub open spec fn digit_value(c: char) -> nat {
    (c as int - '0' as int) as nat
}

/// How many digits stand at the end of the text.
pub open spec fn trailing_digits(text: Seq<char>) -> nat
    decreases text.len(),
{
    if text.len() == 0 || !is_digit(text.last()) {
        0
    } else {
        1 + trailing_digits(text.drop_last())
    }
}

/// The number that the digits spell in decimal.
pub open spec fn decimal_value(digits: Seq<char>) -> nat
    decreases digits.len(),
{
    if digits.len() == 0 {
        0
    } else {
        decimal_value(digits.drop_last()) * 10 + digit_value(digits.last())
    }
}

/// The number written at the end of the text: `None` where the text does not
/// end in a digit, or where the digits spell a number beyond `u64`.
pub open spec fn trailing_number_spec(text: Seq<char>) -> Option<u64> {
    let digits = text.subrange(text.len() - trailing_digits(text), text.len() as int);
    if digits.len() == 0 || decimal_value(digits) > u64::MAX {
        None
    } else {
        Some(decimal_value(digits) as u64)
    }
}

/// The sequence number of a file with the given stem.
pub open spec fn sequence_number_spec(stem: Option<Seq<char>>) -> Option<u64> {
    match stem {
        Some(text) => trailing_number_spec(text),
        None => None,
    }
}

/// No more digits stand at the end of a text than it has characters.
pub proof fn lemma_trailing_digits_bound(text: Seq<char>)
    ensures
        trailing_digits(text) <= text.len(),
    decreases text.len(),
{
    if text.len() > 0 && is_digit(text.last()) {
        lemma_trailing_digits_bound(text.drop_last());
    }
}

proof fn lemma_decimal_value_grows(text: Seq<char>, from: int, upto: int, end: int)
    requires
        0 <= from <= upto <= end <= text.len(),
    ensures
        decimal_value(text.subrange(from, upto)) <= decimal_value(text.subrange(from, end)),
    decreases end - upto,
{
    if upto < end {
        lemma_decimal_value_grows(text, from, upto, end - 1);
        assert(text.subrange(from, end).drop_last() =~= text.subrange(from, end - 1));
    }
}

fn digit_of(c: char) -> (value: Option<u64>)
    ensures
        value.is_some() == is_digit(c),
        value matches Some(v) ==> v == digit_value(c) && v <= 9,
{
    let code = c as u32;
    if 48 <= code && code <= 57 {
        Some((code - 48) as u64)
    } else {
        None
    }
}

/// The number written at the end of the text.
pub fn trailing_number(text: &str) -> (number: Option<u64>)
    ensures
        number == trailing_number_spec(text@),
{
    let n = text.unicode_len();
    let mut start: usize = n;
    let mut scanning = true;
    assert(text@.take(n as int) =~= text@);
    while scanning && start > 0
        invariant
            start <= n == text@.len(),
            trailing_digits(text@) == (n - start) + trailing_digits(text@.take(start as int)),
            !scanning ==> trailing_digits(text@.take(start as int)) == 0,
            forall|k: int| start <= k < n ==> is_digit(#[trigger] text@[k]),
        decreases start + (if scanning { 1int } else { 0int }),
    {
        assert(text@.take(start as int).drop_last() =~= text@.take(start - 1));
        if digit_of(text.get_char(start - 1)).is_some() {
            start = start - 1;
        } else {
            scanning = false;
        }
    }
    assert(trailing_digits(text@) == n - start) by {
        if start == 0 {
            assert(text@.take(0) =~= Seq::empty());
        }
    }
    let ghost digits = text@.subrange(start as int, n as int);
    if start == n {
        return None;
    }
    let mut value: u64 = 0;
    let mut i: usize = start;
    while i < n
        invariant
            start <= i <= n == text@.len(),
            value == decimal_value(text@.subrange(start as int, i as int)),
            forall|k: int| start <= k < n ==> is_digit(#[trigger] text@[k]),
            digits == text@.subrange(start as int, n as int),
            trailing_digits(text@) == n - start,
        decreases n - i,
    {
        let c = text.get_char(i);
        assert(is_digit(text@[i as int]));
        let d = match digit_of(c) {
            Some(d) => d,
            None => 0,
        };
        assert(text@.subrange(start as int, i + 1).drop_last() =~= text@.subrange(
            start as int,
            i as int,
        ));
        assert(decimal_value(text@.subrange(start as int, i + 1)) == value * 10 + d);
        if value > (u64::MAX - d) / 10 {
            proof {
                lemma_decimal_value_grows(text@, start as int, i + 1, n as int);
                assert(value * 10 + d > u64::MAX);
                assert(decimal_value(digits) > u64::MAX);
            }
            return None;
        }
        value = value * 10 + d;
        i = i + 1;
    }
    Some(value)
}

/// The sequence number of a file, given the stem of its name.
pub fn sequence_number_of_stem(stem: Option<String>) -> (number: Option<u64>)
    ensures
        number == sequence_number_spec(text_of(stem)),
{
    match stem {
        Some(text) => trailing_number(text.as_str()),
        None => None,
    }
}

/// The sequence number of the file at `path`: the number written at the end
/// of its name, in front of the extension.
pub fn extract_sequence_number(path: &str) -> (number: Option<u64>)
    ensures
        number == sequence_number_spec(path_file_stem(path@)),
{
    sequence_number_of_stem(file_stem(path))
}

/// Where a file sorts: whether it lacks a sequence number, and the number it
/// has. No number is set aside for the files that have none.
pub open spec fn sort_key(file: ScannedFileView) -> (bool, u64) {
    match file.sequence_number {
        Some(number) => (false, number),
        None => (true, 0),
    }
}

/// Whether a file that sorts at `first` may stand in front of one that sorts
/// at `second`: every numbered file may stand in front of every file without
/// a number, and among numbered files the lower number goes first.
pub open spec fn not_after(first: (bool, u64), second: (bool, u64)) -> bool {
    if first.0 == second.0 {
        first.1 <= second.1
    } else {
        second.0
    }
}

/// The sorted files with one more, which goes behind every file that does not
/// sort behind it.
pub open spec fn insert_sorted(sorted: Seq<ScannedFileView>, file: ScannedFileView) -> Seq<
    ScannedFileView,
>
    decreases sorted.len(),
{
    if sorted.len() == 0 || not_after(sort_key(sorted.last()), sort_key(file)) {
        sorted.push(file)
    } else {
        insert_sorted(sorted.drop_last(), file).push(sorted.last())
    }
}

/// The files sorted by sequence number, those without a number last. Files
/// that sort alike keep the order in which they stand.
pub open spec fn sorted_by_number(files: Seq<ScannedFileView>) -> Seq<ScannedFileView>
    decreases files.len(),
{
    if files.len() == 0 {
        Seq::empty()
    } else {
        insert_sorted(sorted_by_number(files.drop_last()), files.last())
    }
}

/// What is known of the file at `path`.
pub open spec fn scanned_file(path: Seq<char>) -> ScannedFileView {
    ScannedFileView { path, sequence_number: sequence_number_spec(path_file_stem(path)) }
}

/// The raw images and films among the paths, in the order of the paths.
pub open spec fn media_files(paths: Seq<Seq<char>>) -> Seq<ScannedFileView>
    decreases paths.len(),
{
    if paths.len() == 0 {
        Seq::empty()
    } else if media_kind_spec(path_extension(paths.last())).is_some() {
        media_files(paths.drop_last()).push(scanned_file(paths.last()))
    } else {
        media_files(paths.drop_last())
    }
}

/// Whether the files stand in the order of their sequence numbers, those
/// without a number behind all others.
pub open spec fn in_order(files: Seq<ScannedFileView>) -> bool {
    forall|i: int, j: int|
        0 <= i <= j < files.len() ==> not_after(
            sort_key(#[trigger] files[i]),
            sort_key(#[trigger] files[j]),
        )
}

/// Those of the files that sort at `key`, in their order.
pub open spec fn with_key(files: Seq<ScannedFileView>, key: (bool, u64)) -> Seq<ScannedFileView>
    decreases files.len(),
{
    if files.len() == 0 {
        Seq::empty()
    } else if sort_key(files.last()) == key {
        with_key(files.drop_last(), key).push(files.last())
    } else {
        with_key(files.drop_last(), key)
    }
}

proof fn lemma_insert_at(sorted: Seq<ScannedFileView>, file: ScannedFileView, at: int)
    requires
        0 <= at <= sorted.len(),
        forall|k: int|
            at <= k < sorted.len() ==> !not_after(sort_key(#[trigger] sorted[k]), sort_key(file)),
        at > 0 ==> not_after(sort_key(sorted[at - 1]), sort_key(file)),
    ensures
        insert_sorted(sorted, file) == sorted.insert(at, file),
    decreases sorted.len() - at,
{
    if at == sorted.len() {
        assert(sorted.insert(at, file) =~= sorted.push(file));
    } else {
        lemma_insert_at(sorted.drop_last(), file, at);
        assert(sorted.drop_last().insert(at, file).push(sorted.last()) =~= sorted.insert(at, file));
    }
}

proof fn lemma_insert_keeps_order(sorted: Seq<ScannedFileView>, file: ScannedFileView)
    requires
        in_order(sorted),
    ensures
        in_order(insert_sorted(sorted, file)),
        insert_sorted(sorted, file).len() == sorted.len() + 1,
        forall|k: int|
            0 <= k < insert_sorted(sorted, file).len() ==> (#[trigger] insert_sorted(
                sorted,
                file,
            )[k] == file || exists|m: int|
                0 <= m < sorted.len() && sorted[m] == insert_sorted(sorted, file)[k]),
    decreases sorted.len(),
{
    let longer = insert_sorted(sorted, file);
    if sorted.len() == 0 || not_after(sort_key(sorted.last()), sort_key(file)) {
        assert forall|i: int, j: int| 0 <= i <= j < longer.len() implies not_after(
            sort_key(#[trigger] longer[i]),
            sort_key(#[trigger] longer[j]),
        ) by {
            if j < sorted.len() {
                assert(longer[i] == sorted[i] && longer[j] == sorted[j]);
            } else if i < sorted.len() {
                assert(longer[i] == sorted[i]);
                assert(not_after(sort_key(sorted[i]), sort_key(sorted[sorted.len() - 1])));
            }
        }
        assert forall|k: int| 0 <= k < longer.len() implies (#[trigger] longer[k] == file
            || exists|m: int| 0 <= m < sorted.len() && sorted[m] == longer[k]) by {
            if k < sorted.len() {
                assert(sorted[k] == longer[k]);
            }
        }
    } else {
        let shorter = sorted.drop_last();
        let inner = insert_sorted(shorter, file);
        assert(in_order(shorter)) by {
            assert forall|i: int, j: int| 0 <= i <= j < shorter.len() implies not_after(
                sort_key(#[trigger] shorter[i]),
                sort_key(#[trigger] shorter[j]),
            ) by {
                assert(shorter[i] == sorted[i] && shorter[j] == sorted[j]);
            }
        }
        lemma_insert_keeps_order(shorter, file);
        assert(longer == inner.push(sorted.last()));
        assert forall|k: int| 0 <= k < inner.len() implies not_after(
            sort_key(#[trigger] inner[k]),
            sort_key(sorted.last()),
        ) by {
            if inner[k] != file {
                let m = choose|m: int| 0 <= m < shorter.len() && shorter[m] == inner[k];
                assert(sorted[m] == inner[k]);
                assert(not_after(sort_key(sorted[m]), sort_key(sorted[sorted.len() - 1])));
            }
        }
        assert forall|i: int, j: int| 0 <= i <= j < longer.len() implies not_after(
            sort_key(#[trigger] longer[i]),
            sort_key(#[trigger] longer[j]),
        ) by {
            if j < inner.len() {
                assert(longer[i] == inner[i] && longer[j] == inner[j]);
            } else if i < inner.len() {
                assert(longer[i] == inner[i]);
            }
        }
        assert forall|k: int| 0 <= k < longer.len() implies (#[trigger] longer[k] == file
            || exists|m: int| 0 <= m < sorted.len() && sorted[m] == longer[k]) by {
            if k < inner.len() {
                assert(longer[k] == inner[k]);
                if inner[k] != file {
                    let m = choose|m: int| 0 <= m < shorter.len() && shorter[m] == inner[k];
                    assert(sorted[m] == longer[k]);
                }
            } else {
                assert(sorted[sorted.len() - 1] == longer[k]);
            }
        }
    }
}

/// The sorted files stand in the order of their sequence numbers, those
/// without a number last.
pub proof fn lemma_sorted_in_order(files: Seq<ScannedFileView>)
    ensures
        in_order(sorted_by_number(files)),
        sorted_by_number(files).len() == files.len(),
    decreases files.len(),
{
    if files.len() > 0 {
        lemma_sorted_in_order(files.drop_last());
        lemma_insert_keeps_order(sorted_by_number(files.drop_last()), files.last());
    }
}

/// Of two sorted files, the one in front has a number that is no higher than
/// that of the one behind, or the one behind has no number: every file
/// without a number stands behind every numbered file, whatever its number.
pub proof fn lemma_unnumbered_files_last(files: Seq<ScannedFileView>, i: int, j: int)
    requires
        0 <= i <= j < sorted_by_number(files).len(),
    ensures
        sorted_by_number(files)[j].sequence_number is None || (sorted_by_number(
            files,
        )[i].sequence_number is Some && sorted_by_number(files)[i].sequence_number->0
            <= sorted_by_number(files)[j].sequence_number->0),
{
    lemma_sorted_in_order(files);
    let sorted = sorted_by_number(files);
    assert(not_after(sort_key(sorted[i]), sort_key(sorted[j])));
}

proof fn lemma_insert_keeps_files(sorted: Seq<ScannedFileView>, file: ScannedFileView)
    ensures
        insert_sorted(sorted, file).to_multiset() == sorted.to_multiset().insert(file),
    decreases sorted.len(),
{
    broadcast use vstd::seq_lib::group_to_multiset_ensures;

    if sorted.len() == 0 || not_after(sort_key(sorted.last()), sort_key(file)) {
    } else {
        let shorter = sorted.drop_last();
        lemma_insert_keeps_files(shorter, file);
        assert(shorter.push(sorted.last()) =~= sorted);
        assert(insert_sorted(sorted, file).to_multiset() =~= sorted.to_multiset().insert(file));
    }
}

/// Sorting loses no file and adds none: each file is there as often as before.
pub proof fn lemma_sorted_keeps_files(files: Seq<ScannedFileView>)
    ensures
        sorted_by_number(files).to_multiset() == files.to_multiset(),
    decreases files.len(),
{
    broadcast use vstd::seq_lib::group_to_multiset_ensures;

    if files.len() > 0 {
        lemma_sorted_keeps_files(files.drop_last());
        lemma_insert_keeps_files(sorted_by_number(files.drop_last()), files.last());
        assert(files.drop_last().push(files.last()) =~= files);
    } else {
        assert(files =~= Seq::empty());
    }
}

proof fn lemma_insert_is_stable(
    sorted: Seq<ScannedFileView>,
    file: ScannedFileView,
    key: (bool, u64),
)
    requires
        in_order(sorted),
    ensures
        with_key(insert_sorted(sorted, file), key) == if sort_key(file) == key {
            with_key(sorted, key).push(file)
        } else {
            with_key(sorted, key)
        },
    decreases sorted.len(),
{
    if sorted.len() == 0 || not_after(sort_key(sorted.last()), sort_key(file)) {
        assert(sorted.push(file).drop_last() =~= sorted);
    } else {
        let shorter = sorted.drop_last();
        let inner = insert_sorted(shorter, file);
        assert(in_order(shorter)) by {
            assert forall|i: int, j: int| 0 <= i <= j < shorter.len() implies not_after(
                sort_key(#[trigger] shorter[i]),
                sort_key(#[trigger] shorter[j]),
            ) by {
                assert(shorter[i] == sorted[i] && shorter[j] == sorted[j]);
            }
        }
        lemma_insert_is_stable(shorter, file, key);
        assert(inner.push(sorted.last()).drop_last() =~= inner);
        if sort_key(file) == key {
            // every file that sorts at `key` stands in front of the last one
            assert(sort_key(sorted.last()) != key);
        }
    }
}

/// Sorting is stable: the files that sort alike stand in the order in which
/// they stood before.
pub proof fn lemma_sorted_is_stable(files: Seq<ScannedFileView>, key: (bool, u64))
    ensures
        with_key(sorted_by_number(files), key) == with_key(files, key),
    decreases files.len(),
{
    if files.len() > 0 {
        lemma_sorted_is_stable(files.drop_last(), key);
        lemma_sorted_in_order(files.drop_last());
        lemma_insert_is_stable(sorted_by_number(files.drop_last()), files.last(), key);
    }
}

fn key_of(file: &ScannedFile) -> (key: (bool, u64))
    ensures
        key == sort_key(file@),
{
    match file.sequence_number {
        Some(number) => (false, number),
        None => (true, 0),
    }
}

fn may_precede(first: (bool, u64), second: (bool, u64)) -> (may: bool)
    ensures
        may == not_after(first, second),
{
    if first.0 == second.0 {
        first.1 <= second.1
    } else {
        second.0
    }
}

/// Puts one more file among the sorted ones.
fn insert_file(sorted: &mut Vec<ScannedFile>, file: ScannedFile)
    ensures
        scanned_views(final(sorted)@) == insert_sorted(scanned_views(old(sorted)@), file@),
{
    let ghost before = scanned_views(sorted@);
    let key = key_of(&file);
    let mut at: usize = sorted.len();
    let mut searching = true;
    while searching && at > 0
        invariant
            at <= sorted.len(),
            sorted@ == old(sorted)@,
            before == scanned_views(sorted@),
            key == sort_key(file@),
            forall|k: int|
                at <= k < before.len() ==> !not_after(sort_key(#[trigger] before[k]), key),
            !searching ==> at > 0 && not_after(sort_key(before[at - 1]), key),
        decreases at + (if searching { 1int } else { 0int }),
    {
        if may_precede(key_of(&sorted[at - 1]), key) {
            searching = false;
        } else {
            at = at - 1;
        }
    }
    proof {
        lemma_insert_at(before, file@, at as int);
    }
    sorted.insert(at, file);
    assert(scanned_views(sorted@) =~= before.insert(at as int, file@));
}

/// The files to transfer among the paths found on the card: the raw images
/// and films, each with its sequence number, sorted by that number. Files
/// without a number come last, and files that sort alike stay in the order
/// in which they were found.
pub fn scan_files(paths: Vec<String>) -> (files: Vec<ScannedFile>)
    ensures
        scanned_views(files@) == sorted_by_number(media_files(texts_of(paths@))),
{
    let ghost all = texts_of(paths@);
    let mut files: Vec<ScannedFile> = Vec::new();
    assert(scanned_views(files@) =~= Seq::empty());
    for path in it: paths
        invariant
            texts_of(it.seq()) == all,
            scanned_views(files@) == sorted_by_number(media_files(all.take(it.index() as int))),
    {
        assert(all.take(it.index() + 1).drop_last() =~= all.take(it.index() as int));
        assert(all.take(it.index() + 1).last() == path@);
        if media_kind(path.as_str()).is_some() {
            let sequence_number = extract_sequence_number(path.as_str());
            assert(media_files(all.take(it.index() + 1)).drop_last() =~= media_files(
                all.take(it.index() as int),
            ));
            insert_file(&mut files, ScannedFile { path, sequence_number });
        }
    }
    assert(all.take(all.len() as int) =~= all);
    files
}

} // verus!
