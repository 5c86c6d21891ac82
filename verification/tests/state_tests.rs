use image_processor::state::{
    attempts_next, cleanup_state, file_key, load_state, needs_input_record, relative_or_whole,
    save_state, save_state_both, state_path, transfer_id_from, uuid_v4, AfterWrite, SaveResult,
    TransferState, STATE_FILENAME,
};
use image_processor::text::{decimal_text, hex_text};

#[test]
fn a_new_state_has_nothing_completed() {
    let state = TransferState::new(3, 4096);
    assert_eq!(state.total_files(), 3);
    assert_eq!(state.total_bytes(), 4096);
    assert_eq!(state.completed_count(), 0);
    assert!(state.completed_files().is_empty());
    assert!(!state.is_completed("DCIM/IMG_0001.CR2"));
    assert!(!state.all_done());
}

#[test]
fn a_new_state_is_named_after_the_clock() {
    let state = TransferState::new(1, 1);
    let id = state.transfer_id().clone();
    let parts: Vec<&str> = id.split('-').collect();
    assert_eq!(parts.len(), 2);
    let seconds = u64::from_str_radix(parts[0], 16).unwrap();
    let nanoseconds = u32::from_str_radix(parts[1], 16).unwrap();
    assert_eq!(id, format!("{:x}-{:x}", seconds, nanoseconds));
    assert!(nanoseconds < 1_000_000_000);
    // later than 2020-01-01
    assert!(seconds > 1_577_836_800);
}

#[test]
fn uuid_v4_is_two_hexadecimal_numbers() {
    let id = uuid_v4();
    let parts: Vec<&str> = id.split('-').collect();
    assert_eq!(parts.len(), 2);
    assert!(u64::from_str_radix(parts[0], 16).is_ok());
    assert!(u32::from_str_radix(parts[1], 16).is_ok());
}

#[test]
fn transfer_id_from_writes_both_numbers_in_hexadecimal() {
    assert_eq!(transfer_id_from(0x65a5_1234, 0x0abc_def0), "65a51234-abcdef0");
    assert_eq!(transfer_id_from(0, 0), "0-0");
    assert_eq!(transfer_id_from(26, 255), "1a-ff");
    assert_eq!(
        transfer_id_from(u64::MAX, u32::MAX),
        format!("{:x}-{:x}", u64::MAX, u32::MAX)
    );
}

#[test]
fn numbers_are_written_without_leading_zeros() {
    assert_eq!(hex_text(0), "0");
    assert_eq!(hex_text(15), "f");
    assert_eq!(hex_text(16), "10");
    assert_eq!(hex_text(0xdead_beef), "deadbeef");
    assert_eq!(hex_text(u64::MAX), "ffffffffffffffff");
    assert_eq!(decimal_text(0), "0");
    assert_eq!(decimal_text(9), "9");
    assert_eq!(decimal_text(10), "10");
    assert_eq!(decimal_text(4_294_967_295), "4294967295");
    assert_eq!(decimal_text(u64::MAX), "18446744073709551615");
}

#[test]
fn marking_a_file_makes_it_completed() {
    let mut state = TransferState::with_id("t".to_string(), 2, 10);
    state.mark_completed("a.CR2".to_string());
    assert!(state.is_completed("a.CR2"));
    assert!(!state.is_completed("b.CR2"));
    assert!(!state.is_completed("a.cr2"));
    assert!(!state.is_completed(""));
    assert_eq!(state.completed_count(), 1);
    assert_eq!(state.transfer_id(), "t");
    assert_eq!(state.total_files(), 2);
    assert_eq!(state.total_bytes(), 10);
}

#[test]
fn marking_a_file_twice_changes_nothing() {
    let mut state = TransferState::with_id("t".to_string(), 5, 10);
    state.mark_completed("a.CR2".to_string());
    state.mark_completed("b.CR2".to_string());
    assert_eq!(state.completed_count(), 2);
    state.mark_completed("a.CR2".to_string());
    assert_eq!(state.completed_count(), 2);
    assert_eq!(state.completed_files(), &vec!["a.CR2".to_string(), "b.CR2".to_string()]);
    state.mark_completed("b.CR2".to_string());
    state.mark_completed("b.CR2".to_string());
    assert_eq!(state.completed_count(), 2);
    assert!(state.is_completed("a.CR2"));
    assert!(state.is_completed("b.CR2"));
}

#[test]
fn all_done_counts_completed_files() {
    let mut state = TransferState::with_id("t".to_string(), 2, 10);
    assert!(!state.all_done());
    state.mark_completed("a.CR2".to_string());
    assert!(!state.all_done());
    state.mark_completed("a.CR2".to_string());
    assert!(!state.all_done());
    state.mark_completed("b.CR2".to_string());
    assert!(state.all_done());
    state.mark_completed("c.CR2".to_string());
    assert!(state.all_done());
}

#[test]
fn a_transfer_of_nothing_is_done_at_once() {
    assert!(TransferState::with_id("t".to_string(), 0, 0).all_done());
}

#[test]
fn from_parts_counts_each_key_once() {
    let listed = vec!["a".to_string(), "b".to_string(), "a".to_string(), "c".to_string(), "b".to_string()];
    let state = TransferState::from_parts("id-1".to_string(), listed, 7, 99);
    assert_eq!(state.transfer_id(), "id-1");
    assert_eq!(state.total_files(), 7);
    assert_eq!(state.total_bytes(), 99);
    assert_eq!(state.completed_count(), 3);
    assert_eq!(state.completed_files(), &vec!["a".to_string(), "b".to_string(), "c".to_string()]);
    assert!(state.is_completed("c"));
    assert!(!state.is_completed("d"));
}

#[test]
fn a_state_rebuilt_from_its_parts_is_the_same() {
    let mut state = TransferState::with_id("65a51234-abcdef0".to_string(), 40, 1 << 40);
    state.mark_completed("DCIM/100CANON/IMG_0001.CR2".to_string());
    state.mark_completed("DCIM/100CANON/MVI_0002.MP4".to_string());
    let again = TransferState::from_parts(
        state.transfer_id().clone(),
        state.completed_files().clone(),
        state.total_files(),
        state.total_bytes(),
    );
    assert_eq!(again.transfer_id(), state.transfer_id());
    assert_eq!(again.completed_files(), state.completed_files());
    assert_eq!(again.total_files(), 40);
    assert_eq!(again.total_bytes(), 1 << 40);
    assert!(again.is_completed("DCIM/100CANON/IMG_0001.CR2"));
    assert!(again.is_completed("DCIM/100CANON/MVI_0002.MP4"));
    assert!(!again.is_completed("DCIM/100CANON/IMG_0003.CR2"));
}

#[test]
fn the_key_of_a_file_is_its_path_under_the_input_directory() {
    assert_eq!(file_key("/card/DCIM/IMG_0001.CR2", "/card"), "DCIM/IMG_0001.CR2");
    assert_eq!(file_key("/card/DCIM/IMG_0001.CR2", "/card/"), "DCIM/IMG_0001.CR2");
    assert_eq!(file_key("/card/DCIM/IMG_0001.CR2", "/card/DCIM"), "IMG_0001.CR2");
    assert_eq!(file_key("card/IMG_0001.CR2", "card"), "IMG_0001.CR2");
}

#[test]
fn the_key_does_not_depend_on_where_the_card_is_mounted() {
    assert_eq!(
        file_key("/media/a/DCIM/IMG_0001.CR2", "/media/a"),
        file_key("/mnt/sd/DCIM/IMG_0001.CR2", "/mnt/sd")
    );
}

#[test]
fn a_file_outside_the_input_directory_keeps_its_whole_path() {
    assert_eq!(file_key("/other/IMG_0001.CR2", "/card"), "/other/IMG_0001.CR2");
    assert_eq!(file_key("/cardboard/IMG_0001.CR2", "/card"), "/cardboard/IMG_0001.CR2");
    assert_eq!(file_key("IMG_0001.CR2", "/card"), "IMG_0001.CR2");
}

#[test]
fn relative_or_whole_prefers_the_relative_path() {
    assert_eq!(relative_or_whole(Some("DCIM/a.CR2".to_string()), "/card/DCIM/a.CR2"), "DCIM/a.CR2");
    assert_eq!(relative_or_whole(Some(String::new()), "/card"), "");
    assert_eq!(relative_or_whole(None, "/card/DCIM/a.CR2"), "/card/DCIM/a.CR2");
}

#[test]
fn the_record_has_one_name_in_every_directory() {
    assert_eq!(STATE_FILENAME, ".image-processor-state.json");
    assert_eq!(state_path("/out"), "/out/.image-processor-state.json");
    assert_eq!(state_path("/out/"), "/out/.image-processor-state.json");
    assert_eq!(state_path("rel/dir"), "rel/dir/.image-processor-state.json");
}

fn state_with(id: &str) -> TransferState {
    TransferState::with_id(id.to_string(), 1, 1)
}

#[test]
fn load_state_prefers_the_output_directory() {
    let loaded = load_state(Some(state_with("input")), Some(state_with("output"))).unwrap();
    assert_eq!(loaded.transfer_id(), "output");
    let loaded = load_state(Some(state_with("input")), None).unwrap();
    assert_eq!(loaded.transfer_id(), "input");
    let loaded = load_state(None, Some(state_with("output"))).unwrap();
    assert_eq!(loaded.transfer_id(), "output");
    assert!(load_state(None, None).is_none());
}

#[test]
fn save_state_writes_beside_the_target_first() {
    let request = save_state("/out", false, 4242);
    assert_eq!(request.temp_path, "/out/.image-processor-state.tmp.4242");
    assert_eq!(request.target_path, "/out/.image-processor-state.json");
    assert!(!request.best_effort);
    let request = save_state("/card", true, 0);
    assert_eq!(request.temp_path, "/card/.image-processor-state.tmp.0");
    assert_eq!(request.target_path, "/card/.image-processor-state.json");
    assert!(request.best_effort);
    let request = save_state("/card", true, u32::MAX);
    assert_eq!(request.temp_path, "/card/.image-processor-state.tmp.4294967295");
}

#[test]
fn a_failed_write_is_forgiven_only_where_it_may_fail() {
    let required = save_state("/out", false, 1);
    assert_eq!(required.after_write(true), AfterWrite::Replace);
    assert_eq!(required.after_write(false), AfterWrite::Fail);
    let best_effort = save_state("/card", true, 1);
    assert_eq!(best_effort.after_write(true), AfterWrite::Replace);
    assert_eq!(best_effort.after_write(false), AfterWrite::Forgive);
}

#[test]
fn save_state_both_stores_in_the_output_directory_first() {
    let requests = save_state_both("/card", "/out", 77);
    assert_eq!(requests.len(), 2);
    assert_eq!(requests[0].target_path, "/out/.image-processor-state.json");
    assert_eq!(requests[0].temp_path, "/out/.image-processor-state.tmp.77");
    assert!(!requests[0].best_effort);
    assert_eq!(requests[1].target_path, "/card/.image-processor-state.json");
    assert_eq!(requests[1].temp_path, "/card/.image-processor-state.tmp.77");
    assert!(requests[1].best_effort);
}

#[test]
fn cleanup_state_removes_both_records() {
    assert_eq!(
        cleanup_state("/card", "/out"),
        vec!["/out/.image-processor-state.json", "/card/.image-processor-state.json"]
    );
}

fn write_record(state: &TransferState) -> String {
    let mut record = serde_json::Map::new();
    record.insert(
        "transfer_id".to_string(),
        serde_json::Value::String(state.transfer_id().clone()),
    );
    record.insert(
        "completed_files".to_string(),
        serde_json::Value::Array(
            state
                .completed_files()
                .iter()
                .map(|key| serde_json::Value::String(key.clone()))
                .collect(),
        ),
    );
    record.insert(
        "total_files".to_string(),
        serde_json::Value::Number(serde_json::Number::from(state.total_files() as u64)),
    );
    record.insert(
        "total_bytes".to_string(),
        serde_json::Value::Number(serde_json::Number::from(state.total_bytes())),
    );
    serde_json::to_string_pretty(&serde_json::Value::Object(record)).unwrap()
}

fn read_record(text: &str) -> Option<TransferState> {
    let value: serde_json::Value = serde_json::from_str(text).ok()?;
    let transfer_id = value.get("transfer_id")?.as_str()?.to_string();
    let mut completed_files = Vec::new();
    for key in value.get("completed_files")?.as_array()? {
        completed_files.push(key.as_str()?.to_string());
    }
    let total_files = value.get("total_files")?.as_u64()? as usize;
    let total_bytes = value.get("total_bytes")?.as_u64()?;
    Some(TransferState::from_parts(transfer_id, completed_files, total_files, total_bytes))
}

#[test]
fn a_record_written_as_json_reads_back_the_same() {
    let mut state = TransferState::with_id("65a51234-abcdef0".to_string(), 3, 30_000_000);
    state.mark_completed("DCIM/100CANON/IMG_0001.CR2".to_string());
    state.mark_completed("DCIM/100CANON/r\u{00e9}sum\u{00e9} \"1\".MP4".to_string());
    let text = write_record(&state);
    let loaded = read_record(&text).unwrap();
    assert_eq!(loaded.transfer_id(), state.transfer_id());
    assert_eq!(loaded.completed_files(), state.completed_files());
    assert_eq!(loaded.total_files(), 3);
    assert_eq!(loaded.total_bytes(), 30_000_000);
    assert_eq!(loaded.completed_count(), 2);
    assert!(loaded.is_completed("DCIM/100CANON/IMG_0001.CR2"));
    assert!(!loaded.all_done());
}

#[test]
fn a_record_with_more_fields_and_repeated_keys_reads_too() {
    let text = "{\"transfer_id\": \"a-b\", \"completed_files\": [\"x\", \"y\", \"x\"], \
                \"total_files\": 2, \"total_bytes\": 7, \"comment\": \"later addition\"}";
    let loaded = read_record(text).unwrap();
    assert_eq!(loaded.transfer_id(), "a-b");
    assert_eq!(loaded.completed_count(), 2);
    assert!(loaded.all_done());
    assert!(read_record("{\"transfer_id\": \"a-b\"}").is_none());
    assert!(read_record("not json").is_none());
}

#[test]
fn a_failed_rename_fails_the_save_in_either_directory() {
    let required = save_state("/out", false, 1);
    assert_eq!(required.result(true, true), SaveResult::Saved);
    assert_eq!(required.result(true, false), SaveResult::Failed);
    assert_eq!(required.result(false, true), SaveResult::Failed);
    assert_eq!(required.result(false, false), SaveResult::Failed);
    let best_effort = save_state("/card", true, 1);
    assert_eq!(best_effort.result(true, true), SaveResult::Saved);
    assert_eq!(best_effort.result(true, false), SaveResult::Failed);
    assert_eq!(best_effort.result(false, true), SaveResult::Saved);
    assert_eq!(best_effort.result(false, false), SaveResult::Saved);
}

#[test]
fn the_second_save_follows_only_a_first_that_has_not_failed() {
    assert!(attempts_next(SaveResult::Saved));
    assert!(!attempts_next(SaveResult::Failed));
    let requests = save_state_both("/card", "/out", 9);
    // the output directory cannot be written: the input directory is not tried
    assert!(!attempts_next(requests[0].result(false, false)));
    // the record was written for the output directory, but could not be put in place
    assert!(!attempts_next(requests[0].result(true, false)));
    assert!(attempts_next(requests[0].result(true, true)));
}

#[test]
fn the_input_record_is_read_only_without_an_output_record() {
    assert!(needs_input_record(&None));
    assert!(!needs_input_record(&Some(TransferState::with_id("output".to_string(), 1, 1))));
}
