use chrono::NaiveDate;
use image_processor::session::{
    folder_names, group_into_sessions, name_sessions, split_into_groups, DatedFile, Session,
    TooManySessions,
};
use image_processor::timestamp::Timestamp;

fn at(year: i32, month: u32, day: u32, hour: u32, minute: u32, second: u32) -> Timestamp {
    let naive = NaiveDate::from_ymd_opt(year, month, day)
        .unwrap()
        .and_hms_opt(hour, minute, second)
        .unwrap();
    Timestamp::from_seconds(naive.and_utc().timestamp()).unwrap()
}

fn make_file(hour: u32, seq: u64) -> DatedFile {
    DatedFile {
        path: format!("IMG_{:04}.CR2", seq),
        datetime: at(2024, 1, 15, hour, 0, 0),
        sequence_number: Some(seq),
    }
}

fn file_at(time: Timestamp, seq: u64) -> DatedFile {
    DatedFile { path: format!("IMG_{:04}.CR2", seq), datetime: time, sequence_number: Some(seq) }
}

fn gap(hours: f64) -> i64 {
    (hours * 3600.0) as i64
}

fn names(sessions: &[Session]) -> Vec<&str> {
    sessions.iter().map(|s| s.folder_name.as_str()).collect()
}

fn paths(session: &Session) -> Vec<&str> {
    session.files.iter().map(|f| f.path.as_str()).collect()
}

#[test]
fn test_single_session() {
    let files = vec![make_file(10, 1), make_file(11, 2), make_file(12, 3)];
    let sessions = group_into_sessions(files, gap(6.0)).unwrap();
    assert_eq!(sessions.len(), 1);
    assert_eq!(sessions[0].folder_name, "2024-01-15");
}

#[test]
fn test_two_sessions_same_day() {
    let files = vec![
        make_file(8, 1),
        make_file(9, 2),
        // 7 hour gap
        make_file(16, 3),
        make_file(17, 4),
    ];
    let sessions = group_into_sessions(files, gap(6.0)).unwrap();
    assert_eq!(sessions.len(), 2);
    assert_eq!(sessions[0].folder_name, "2024-01-15_a");
    assert_eq!(sessions[1].folder_name, "2024-01-15_b");
}

#[test]
fn two_sessions_hold_their_files_in_order() {
    let files = vec![make_file(8, 1), make_file(9, 2), make_file(16, 3), make_file(17, 4)];
    let sessions = group_into_sessions(files, gap(6.0)).unwrap();
    assert_eq!(paths(&sessions[0]), vec!["IMG_0001.CR2", "IMG_0002.CR2"]);
    assert_eq!(paths(&sessions[1]), vec!["IMG_0003.CR2", "IMG_0004.CR2"]);
    assert_eq!(sessions[1].files[0].sequence_number, Some(3));
    assert_eq!(sessions[1].files[0].datetime.seconds(), at(2024, 1, 15, 16, 0, 0).seconds());
}

#[test]
fn no_files_no_sessions() {
    let sessions = group_into_sessions(Vec::new(), gap(6.0)).unwrap();
    assert!(sessions.is_empty());
    assert!(split_into_groups(Vec::new(), 10).is_empty());
}

#[test]
fn one_file_one_session() {
    let sessions = group_into_sessions(vec![make_file(10, 1)], gap(6.0)).unwrap();
    assert_eq!(names(&sessions), vec!["2024-01-15"]);
    assert_eq!(paths(&sessions[0]), vec!["IMG_0001.CR2"]);
}

#[test]
fn a_gap_of_exactly_the_threshold_does_not_cut() {
    let files = vec![make_file(8, 1), make_file(14, 2)];
    let sessions = group_into_sessions(files, gap(6.0)).unwrap();
    assert_eq!(sessions.len(), 1);
    let files = vec![
        file_at(at(2024, 1, 15, 8, 0, 0), 1),
        file_at(at(2024, 1, 15, 14, 0, 1), 2),
    ];
    let sessions = group_into_sessions(files, gap(6.0)).unwrap();
    assert_eq!(names(&sessions), vec!["2024-01-15_a", "2024-01-15_b"]);
}

#[test]
fn only_neighbours_are_compared() {
    // each step is five hours, the whole run fifteen
    let files = vec![make_file(1, 1), make_file(6, 2), make_file(11, 3), make_file(16, 4)];
    let sessions = group_into_sessions(files, gap(6.0)).unwrap();
    assert_eq!(sessions.len(), 1);
    assert_eq!(sessions[0].files.len(), 4);
}

#[test]
fn the_gap_counts_in_both_directions() {
    // the second file was taken seven hours before the first
    let files = vec![make_file(17, 1), make_file(10, 2), make_file(11, 3)];
    let sessions = group_into_sessions(files, gap(6.0)).unwrap();
    assert_eq!(names(&sessions), vec!["2024-01-15_a", "2024-01-15_b"]);
    assert_eq!(paths(&sessions[0]), vec!["IMG_0001.CR2"]);
    assert_eq!(paths(&sessions[1]), vec!["IMG_0002.CR2", "IMG_0003.CR2"]);
}

#[test]
fn a_fraction_of_an_hour_is_a_gap_too() {
    let files = vec![
        file_at(at(2024, 3, 1, 9, 0, 0), 1),
        file_at(at(2024, 3, 1, 9, 30, 0), 2),
        file_at(at(2024, 3, 1, 10, 0, 1), 3),
    ];
    let sessions = group_into_sessions(files, gap(0.5)).unwrap();
    assert_eq!(gap(0.5), 1800);
    assert_eq!(names(&sessions), vec!["2024-03-01_a", "2024-03-01_b"]);
    assert_eq!(sessions[0].files.len(), 2);
}

#[test]
fn a_negative_gap_cuts_everywhere() {
    let files = vec![make_file(10, 1), make_file(10, 2), make_file(10, 3)];
    let sessions = group_into_sessions(files, -1).unwrap();
    assert_eq!(names(&sessions), vec!["2024-01-15_a", "2024-01-15_b", "2024-01-15_c"]);
    let files = vec![make_file(10, 1), make_file(10, 2)];
    let sessions = group_into_sessions(files, 0).unwrap();
    assert_eq!(names(&sessions), vec!["2024-01-15"]);
}

#[test]
fn sessions_on_different_days_need_no_letter() {
    let files = vec![
        file_at(at(2024, 1, 15, 10, 0, 0), 1),
        file_at(at(2024, 1, 16, 10, 0, 0), 2),
        file_at(at(2024, 1, 16, 20, 0, 0), 3),
        file_at(at(2024, 1, 17, 9, 0, 0), 4),
    ];
    let sessions = group_into_sessions(files, gap(6.0)).unwrap();
    assert_eq!(names(&sessions), vec!["2024-01-15", "2024-01-16_a", "2024-01-16_b", "2024-01-17"]);
}

#[test]
fn a_session_is_named_after_the_day_it_begins_on() {
    let files = vec![
        file_at(at(2024, 1, 15, 23, 0, 0), 1),
        file_at(at(2024, 1, 16, 1, 0, 0), 2),
        file_at(at(2024, 1, 16, 3, 0, 0), 3),
    ];
    let sessions = group_into_sessions(files, gap(6.0)).unwrap();
    assert_eq!(names(&sessions), vec!["2024-01-15"]);
}

#[test]
fn letters_follow_the_order_of_the_sessions_not_of_time() {
    let files = vec![
        file_at(at(2024, 5, 2, 20, 0, 0), 1),
        file_at(at(2024, 5, 1, 8, 0, 0), 2),
        file_at(at(2024, 5, 2, 6, 0, 0), 3),
    ];
    let sessions = group_into_sessions(files, gap(6.0)).unwrap();
    assert_eq!(names(&sessions), vec!["2024-05-02_a", "2024-05-01", "2024-05-02_b"]);
}

fn every_second_hour(count: u64) -> Vec<DatedFile> {
    // one file every two hours, from the first hour of 2024-06-01 on
    let start = at(2024, 6, 1, 0, 0, 0).seconds();
    (0..count)
        .map(|k| file_at(Timestamp::from_seconds(start + (k as i64) * 7200).unwrap(), k))
        .collect()
}

#[test]
fn twelve_sessions_on_one_day_get_twelve_letters() {
    let sessions = group_into_sessions(every_second_hour(12), gap(1.0)).unwrap();
    assert_eq!(
        names(&sessions),
        vec![
            "2024-06-01_a", "2024-06-01_b", "2024-06-01_c", "2024-06-01_d", "2024-06-01_e",
            "2024-06-01_f", "2024-06-01_g", "2024-06-01_h", "2024-06-01_i", "2024-06-01_j",
            "2024-06-01_k", "2024-06-01_l",
        ]
    );
}

fn minutes_of_one_day(count: u64) -> Vec<DatedFile> {
    let start = at(2024, 6, 1, 0, 0, 0).seconds();
    (0..count)
        .map(|k| file_at(Timestamp::from_seconds(start + (k as i64) * 60).unwrap(), k))
        .collect()
}

#[test]
fn twenty_six_sessions_on_one_day_use_up_the_letters() {
    let sessions = group_into_sessions(minutes_of_one_day(26), 59).unwrap();
    assert_eq!(sessions.len(), 26);
    assert_eq!(sessions[0].folder_name, "2024-06-01_a");
    assert_eq!(sessions[25].folder_name, "2024-06-01_z");
}

#[test]
fn twenty_seven_sessions_on_one_day_are_too_many() {
    let outcome = group_into_sessions(minutes_of_one_day(27), 59);
    match outcome {
        Err(error) => {
            assert_eq!(error, TooManySessions { date: "2024-06-01".to_string() });
            assert_eq!(error.message(), "more sessions than letters on 2024-06-01");
        }
        Ok(_) => panic!("27 sessions on one day were named"),
    }
}

#[test]
fn folder_names_are_pairwise_distinct() {
    let mut files = minutes_of_one_day(20);
    files.push(file_at(at(2024, 6, 2, 10, 0, 0), 100));
    files.push(file_at(at(2024, 6, 3, 10, 0, 0), 101));
    files.push(file_at(at(2024, 6, 3, 12, 0, 0), 102));
    let sessions = group_into_sessions(files, 59).unwrap();
    let all = names(&sessions);
    assert_eq!(all.len(), 23);
    for i in 0..all.len() {
        for j in 0..all.len() {
            if i != j {
                assert_ne!(all[i], all[j]);
            }
        }
    }
}

#[test]
fn grouping_the_same_files_twice_gives_the_same_sessions() {
    let input = || {
        vec![
            make_file(8, 1),
            make_file(9, 2),
            make_file(16, 3),
            make_file(17, 4),
            file_at(at(2024, 1, 17, 9, 0, 0), 5),
        ]
    };
    let first = group_into_sessions(input(), gap(6.0)).unwrap();
    let second = group_into_sessions(input(), gap(6.0)).unwrap();
    assert_eq!(names(&first), names(&second));
    assert_eq!(first.len(), second.len());
    for k in 0..first.len() {
        assert_eq!(paths(&first[k]), paths(&second[k]));
    }
}

#[test]
fn within_a_session_steps_are_short_and_between_sessions_long() {
    let hours = [1u32, 2, 9, 10, 11, 23];
    let files: Vec<DatedFile> =
        hours.iter().enumerate().map(|(k, h)| make_file(*h, k as u64)).collect();
    let limit = gap(6.0);
    let sessions = group_into_sessions(files, limit).unwrap();
    assert_eq!(sessions.len(), 3);
    for session in &sessions {
        for k in 1..session.files.len() {
            let apart = session.files[k].datetime.seconds_between(&session.files[k - 1].datetime);
            assert!(apart <= limit as u64);
        }
    }
    for k in 1..sessions.len() {
        let last = &sessions[k - 1].files[sessions[k - 1].files.len() - 1];
        let apart = sessions[k].files[0].datetime.seconds_between(&last.datetime);
        assert!(apart > limit as u64);
    }
}

#[test]
fn split_into_groups_cuts_without_naming() {
    let groups = split_into_groups(vec![make_file(8, 1), make_file(9, 2), make_file(16, 3)], gap(6.0));
    assert_eq!(groups.len(), 2);
    assert_eq!(groups[0].len(), 2);
    assert_eq!(groups[1].len(), 1);
    assert_eq!(groups[1][0].path, "IMG_0003.CR2");
}

#[test]
fn name_sessions_names_given_groups() {
    let groups = vec![
        vec![make_file(8, 1)],
        vec![file_at(at(2024, 1, 16, 8, 0, 0), 2), make_file(9, 3)],
        vec![make_file(20, 4)],
    ];
    let sessions = name_sessions(groups).unwrap();
    assert_eq!(names(&sessions), vec!["2024-01-15_a", "2024-01-16", "2024-01-15_b"]);
    assert_eq!(paths(&sessions[1]), vec!["IMG_0002.CR2", "IMG_0003.CR2"]);
}

#[test]
fn folder_names_count_each_day() {
    let days: Vec<String> =
        ["2024-01-15", "2024-01-16", "2024-01-15", "2024-01-17", "2024-01-15"]
            .iter()
            .map(|d| d.to_string())
            .collect();
    assert_eq!(
        folder_names(&days).unwrap(),
        vec!["2024-01-15_a", "2024-01-16", "2024-01-15_b", "2024-01-17", "2024-01-15_c"]
    );
    assert_eq!(folder_names(&Vec::new()).unwrap(), Vec::<String>::new());
}

#[test]
fn folder_names_report_the_first_day_that_has_too_many() {
    let mut days: Vec<String> = Vec::new();
    for _ in 0..27 {
        days.push("2024-02-02".to_string());
        days.push("2024-02-01".to_string());
    }
    assert_eq!(folder_names(&days), Err(TooManySessions { date: "2024-02-02".to_string() }));
    days.truncate(52);
    let named = folder_names(&days).unwrap();
    assert_eq!(named[50], "2024-02-02_z");
    assert_eq!(named[51], "2024-02-01_z");
}

#[test]
fn dated_file_clone_keeps_every_field() {
    let file = make_file(10, 7);
    let copy = file.clone();
    assert_eq!(copy.path, file.path);
    assert_eq!(copy.datetime.seconds(), file.datetime.seconds());
    assert_eq!(copy.sequence_number, Some(7));
}
