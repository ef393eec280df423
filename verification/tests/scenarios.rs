//! The command-level scenarios, run against an in-memory log file: each
//! `logappend` call decides against the file's bytes and writes the bytes
//! it returns; each `logread` call prints the lines it is answered.  An
//! empty buffer stands for a log file that does not exist yet.

use gallery_log::append_cli::{self, plan_append, AppendError};
use gallery_log::batch_run::run_batch;
use gallery_log::read_cli;
use gallery_log::read_plan::{plan_read, ReadError};
use gallery_log::LogError;

/// What a command ended with: success, or the message and exit code 111.
#[derive(Debug, PartialEq)]
enum Outcome {
    Done(Vec<String>),
    Invalid,
    Integrity,
}

fn strings(args: &[&str]) -> Vec<String> {
    args.iter().map(|s| s.to_string()).collect()
}

/// The file at the log's path: none while the buffer is empty.
fn file(log: &[u8]) -> Option<&[u8]> {
    if log.is_empty() {
        None
    } else {
        Some(log)
    }
}

/// `logappend` on one command line, against the log `log`.
fn logappend(log: &mut Vec<u8>, args: &[&str]) -> Outcome {
    let raw = strings(args);
    let a = match append_cli::parse_args(&raw) {
        Ok(a) => a,
        Err(_) => return Outcome::Invalid,
    };
    match plan_append(&a, file(log)) {
        Ok(bytes) => {
            *log = bytes;
            Outcome::Done(vec![])
        }
        Err(AppendError::Invalid) => Outcome::Invalid,
        Err(AppendError::Integrity) => Outcome::Integrity,
    }
}

/// `logread` on one command line, against the log `log`.
fn logread(log: &[u8], args: &[&str]) -> Outcome {
    let raw = strings(args);
    let a = match read_cli::parse_args(&raw) {
        Ok(a) => a,
        Err(_) => return Outcome::Invalid,
    };
    match plan_read(&a, file(log)) {
        Ok(lines) => Outcome::Done(lines),
        Err(ReadError::Invalid) => Outcome::Invalid,
        Err(ReadError::Integrity) => Outcome::Integrity,
    }
}

fn out(o: &Outcome) -> String {
    match o {
        Outcome::Done(lines) => lines.iter().map(|l| format!("{}\n", l)).collect(),
        _ => String::new(),
    }
}

/// `logappend -B`: each line of the batch file, as its own command, against
/// the in-memory log files (none at first); returns the files and how each
/// line ended.
fn batch(content: &str) -> (Vec<(String, Option<Vec<u8>>)>, Vec<Result<(), AppendError>>) {
    let mut files: Vec<(String, Option<Vec<u8>>)> = Vec::new();
    let outcomes = run_batch(content, &mut files, &Vec::new());
    (files, outcomes)
}

/// The bytes of the log at `path` among `files` (empty when there is none).
fn log_at(files: &[(String, Option<Vec<u8>>)], path: &str) -> Vec<u8> {
    files.iter().find(|(p, _)| p == path).and_then(|(_, b)| b.clone()).unwrap_or_default()
}

#[test]
fn test_01_employee_arrives_and_state() {
    let mut log = Vec::new();
    let o = logappend(&mut log, &["-T", "1", "-K", "secret", "-A", "-E", "Alice", "t01.log"]);
    assert!(matches!(o, Outcome::Done(_)), "append should succeed");
    let o = logread(&log, &["-K", "secret", "-S", "t01.log"]);
    assert!(matches!(o, Outcome::Done(_)));
    let s = out(&o);
    assert!(s.contains("Alice"), "Alice should appear in state:\n{}", s);
}

#[test]
fn test_02_guest_arrives_and_state() {
    let mut log = Vec::new();
    logappend(&mut log, &["-T", "1", "-K", "secret", "-A", "-G", "Bob", "t02.log"]);
    let o = logread(&log, &["-K", "secret", "-S", "t02.log"]);
    assert!(matches!(o, Outcome::Done(_)));
    let s = out(&o);
    let lines: Vec<&str> = s.lines().collect();
    assert!(lines.len() >= 2);
    assert!(lines[1].contains("Bob"), "Bob should be on guests line:\n{}", s);
}

#[test]
fn test_03_employee_enters_and_leaves_room() {
    let mut log = Vec::new();
    logappend(&mut log, &["-T", "1", "-K", "secret", "-A", "-E", "Alice", "t03.log"]);
    logappend(&mut log, &["-T", "2", "-K", "secret", "-A", "-E", "Alice", "-R", "1", "t03.log"]);
    let s = out(&logread(&log, &["-K", "secret", "-S", "t03.log"]));
    assert!(s.contains("1:"), "room 1 should appear:\n{}", s);
    assert!(s.contains("Alice"), "Alice should be in room 1:\n{}", s);
    logappend(&mut log, &["-T", "3", "-K", "secret", "-L", "-E", "Alice", "-R", "1", "t03.log"]);
    let s = out(&logread(&log, &["-K", "secret", "-S", "t03.log"]));
    assert!(!s.contains("1:"), "room 1 should be gone after Alice leaves:\n{}", s);
}

#[test]
fn test_04_employee_leaves_gallery() {
    let mut log = Vec::new();
    logappend(&mut log, &["-T", "1", "-K", "secret", "-A", "-E", "Alice", "t04.log"]);
    logappend(&mut log, &["-T", "2", "-K", "secret", "-L", "-E", "Alice", "t04.log"]);
    let s = out(&logread(&log, &["-K", "secret", "-S", "t04.log"]));
    let first_line = s.lines().next().unwrap_or("");
    assert!(first_line.trim().is_empty(), "employee line should be empty:\n{}", s);
}

#[test]
fn test_05_multiple_people_sorted() {
    let mut log = Vec::new();
    logappend(&mut log, &["-T", "1", "-K", "secret", "-A", "-E", "Charlie", "t05.log"]);
    logappend(&mut log, &["-T", "2", "-K", "secret", "-A", "-E", "Alice", "t05.log"]);
    logappend(&mut log, &["-T", "3", "-K", "secret", "-A", "-G", "Zara", "t05.log"]);
    logappend(&mut log, &["-T", "4", "-K", "secret", "-A", "-G", "Bob", "t05.log"]);
    let s = out(&logread(&log, &["-K", "secret", "-S", "t05.log"]));
    let lines: Vec<&str> = s.lines().collect();
    assert_eq!(lines[0], "Alice,Charlie", "employees should be sorted:\n{}", s);
    assert_eq!(lines[1], "Bob,Zara", "guests should be sorted:\n{}", s);
}

#[test]
fn test_06_multiple_rooms() {
    let mut log = Vec::new();
    logappend(&mut log, &["-T", "1", "-K", "secret", "-A", "-E", "Alice", "t06.log"]);
    logappend(&mut log, &["-T", "2", "-K", "secret", "-A", "-G", "Bob", "t06.log"]);
    logappend(&mut log, &["-T", "3", "-K", "secret", "-A", "-E", "Alice", "-R", "2", "t06.log"]);
    logappend(&mut log, &["-T", "4", "-K", "secret", "-A", "-G", "Bob", "-R", "5", "t06.log"]);
    let s = out(&logread(&log, &["-K", "secret", "-S", "t06.log"]));
    assert!(s.contains("2:"), "room 2 should appear:\n{}", s);
    assert!(s.contains("5:"), "room 5 should appear:\n{}", s);
}

#[test]
fn test_07_room_history_employee() {
    let mut log = Vec::new();
    logappend(&mut log, &["-T", "1", "-K", "secret", "-A", "-E", "Alice", "t07.log"]);
    logappend(&mut log, &["-T", "2", "-K", "secret", "-A", "-E", "Alice", "-R", "3", "t07.log"]);
    logappend(&mut log, &["-T", "3", "-K", "secret", "-L", "-E", "Alice", "-R", "3", "t07.log"]);
    logappend(&mut log, &["-T", "4", "-K", "secret", "-A", "-E", "Alice", "-R", "7", "t07.log"]);
    let o = logread(&log, &["-K", "secret", "-R", "-E", "Alice", "t07.log"]);
    assert!(matches!(o, Outcome::Done(_)));
    let s = out(&o).trim().to_string();
    assert_eq!(s, "3,7", "room history should be 3,7:\n{}", s);
}

#[test]
fn test_08_room_history_guest_with_revisit() {
    let mut log = Vec::new();
    logappend(&mut log, &["-T", "1", "-K", "secret", "-A", "-G", "Bob", "t08.log"]);
    logappend(&mut log, &["-T", "2", "-K", "secret", "-A", "-G", "Bob", "-R", "1", "t08.log"]);
    logappend(&mut log, &["-T", "3", "-K", "secret", "-L", "-G", "Bob", "-R", "1", "t08.log"]);
    logappend(&mut log, &["-T", "4", "-K", "secret", "-A", "-G", "Bob", "-R", "2", "t08.log"]);
    logappend(&mut log, &["-T", "5", "-K", "secret", "-L", "-G", "Bob", "-R", "2", "t08.log"]);
    logappend(&mut log, &["-T", "6", "-K", "secret", "-A", "-G", "Bob", "-R", "1", "t08.log"]);
    let s = out(&logread(&log, &["-K", "secret", "-R", "-G", "Bob", "t08.log"])).trim().to_string();
    assert_eq!(s, "1,2,1", "room history should be 1,2,1 (revisits included):\n{}", s);
}

#[test]
fn test_09_room_history_never_entered_room() {
    let mut log = Vec::new();
    logappend(&mut log, &["-T", "1", "-K", "secret", "-A", "-E", "Alice", "t09.log"]);
    let o = logread(&log, &["-K", "secret", "-R", "-E", "Alice", "t09.log"]);
    assert!(matches!(o, Outcome::Done(_)));
    let s = out(&o).trim().to_string();
    assert!(s.is_empty(), "room history should be empty for gallery-only person:\n'{}'", s);
}

#[test]
fn test_10_room_history_unknown_person() {
    let mut log = Vec::new();
    logappend(&mut log, &["-T", "1", "-K", "secret", "-A", "-E", "Alice", "t10.log"]);
    let o = logread(&log, &["-K", "secret", "-R", "-E", "Bob", "t10.log"]);
    assert_eq!(o, Outcome::Invalid, "unknown person should exit 111");
}

#[test]
fn test_11_intersection_basic() {
    let mut log = Vec::new();
    logappend(&mut log, &["-T", "1", "-K", "secret", "-A", "-E", "Alice", "t11.log"]);
    logappend(&mut log, &["-T", "2", "-K", "secret", "-A", "-G", "Bob", "t11.log"]);
    logappend(&mut log, &["-T", "3", "-K", "secret", "-A", "-G", "Carol", "t11.log"]);
    logappend(&mut log, &["-T", "4", "-K", "secret", "-A", "-E", "Alice", "-R", "1", "t11.log"]);
    logappend(&mut log, &["-T", "5", "-K", "secret", "-A", "-G", "Bob", "-R", "1", "t11.log"]);
    logappend(&mut log, &["-T", "6", "-K", "secret", "-A", "-G", "Carol", "-R", "2", "t11.log"]);
    logappend(&mut log, &["-T", "7", "-K", "secret", "-L", "-G", "Bob", "-R", "1", "t11.log"]);
    logappend(&mut log, &["-T", "8", "-K", "secret", "-L", "-E", "Alice", "-R", "1", "t11.log"]);
    let o = logread(&log, &["-K", "secret", "-I", "-E", "Alice", "-G", "Bob", "t11.log"]);
    assert!(matches!(o, Outcome::Done(_)));
    let s = out(&o).trim().to_string();
    assert_eq!(s, "1", "shared room should be room 1:\n{}", s);
}

#[test]
fn test_12_intersection_no_overlap() {
    let mut log = Vec::new();
    logappend(&mut log, &["-T", "1", "-K", "secret", "-A", "-E", "Alice", "t12.log"]);
    logappend(&mut log, &["-T", "2", "-K", "secret", "-A", "-G", "Bob", "t12.log"]);
    logappend(&mut log, &["-T", "3", "-K", "secret", "-A", "-E", "Alice", "-R", "1", "t12.log"]);
    logappend(&mut log, &["-T", "4", "-K", "secret", "-A", "-G", "Bob", "-R", "2", "t12.log"]);
    let s = out(&logread(&log, &["-K", "secret", "-I", "-E", "Alice", "-G", "Bob", "t12.log"])).trim().to_string();
    assert!(s.is_empty(), "intersection should be empty:\n'{}'", s);
}

#[test]
fn test_13_cannot_enter_gallery_twice() {
    let mut log = Vec::new();
    logappend(&mut log, &["-T", "1", "-K", "secret", "-A", "-E", "Alice", "t13.log"]);
    let o = logappend(&mut log, &["-T", "2", "-K", "secret", "-A", "-E", "Alice", "t13.log"]);
    assert_eq!(o, Outcome::Invalid);
}

#[test]
fn test_14_cannot_enter_room_without_entering_gallery() {
    let mut log = Vec::new();
    let o = logappend(&mut log, &["-T", "1", "-K", "secret", "-A", "-E", "Alice", "-R", "1", "t14.log"]);
    assert_eq!(o, Outcome::Invalid);
}

#[test]
fn test_15_cannot_be_in_two_rooms() {
    let mut log = Vec::new();
    logappend(&mut log, &["-T", "1", "-K", "secret", "-A", "-E", "Alice", "t15.log"]);
    logappend(&mut log, &["-T", "2", "-K", "secret", "-A", "-E", "Alice", "-R", "1", "t15.log"]);
    let o = logappend(&mut log, &["-T", "3", "-K", "secret", "-A", "-E", "Alice", "-R", "2", "t15.log"]);
    assert_eq!(o, Outcome::Invalid);
}

#[test]
fn test_16_cannot_leave_gallery_while_in_room() {
    let mut log = Vec::new();
    logappend(&mut log, &["-T", "1", "-K", "secret", "-A", "-E", "Alice", "t16.log"]);
    logappend(&mut log, &["-T", "2", "-K", "secret", "-A", "-E", "Alice", "-R", "1", "t16.log"]);
    let o = logappend(&mut log, &["-T", "3", "-K", "secret", "-L", "-E", "Alice", "t16.log"]);
    assert_eq!(o, Outcome::Invalid);
}

#[test]
fn test_17_cannot_leave_room_not_entered() {
    let mut log = Vec::new();
    logappend(&mut log, &["-T", "1", "-K", "secret", "-A", "-E", "Alice", "t17.log"]);
    let o = logappend(&mut log, &["-T", "2", "-K", "secret", "-L", "-E", "Alice", "-R", "5", "t17.log"]);
    assert_eq!(o, Outcome::Invalid);
}

#[test]
fn test_18_timestamp_must_increase() {
    let mut log = Vec::new();
    logappend(&mut log, &["-T", "10", "-K", "secret", "-A", "-E", "Alice", "t18.log"]);
    let o = logappend(&mut log, &["-T", "10", "-K", "secret", "-A", "-G", "Bob", "t18.log"]);
    assert_eq!(o, Outcome::Invalid);
    let o = logappend(&mut log, &["-T", "5", "-K", "secret", "-A", "-G", "Bob", "t18.log"]);
    assert_eq!(o, Outcome::Invalid);
}

#[test]
fn test_19_cannot_leave_gallery_never_entered() {
    let mut log = Vec::new();
    let o = logappend(&mut log, &["-T", "1", "-K", "secret", "-L", "-E", "Alice", "t19.log"]);
    assert_eq!(o, Outcome::Invalid);
}

#[test]
fn test_20_wrong_token_on_read() {
    let mut log = Vec::new();
    logappend(&mut log, &["-T", "1", "-K", "correct", "-A", "-E", "Alice", "t20.log"]);
    let o = logread(&log, &["-K", "wrong", "-S", "t20.log"]);
    assert_eq!(o, Outcome::Integrity);
}

#[test]
fn test_21_wrong_token_on_append() {
    let mut log = Vec::new();
    logappend(&mut log, &["-T", "1", "-K", "correct", "-A", "-E", "Alice", "t21.log"]);
    let o = logappend(&mut log, &["-T", "2", "-K", "wrong", "-A", "-G", "Bob", "t21.log"]);
    assert_eq!(o, Outcome::Integrity);
}

#[test]
fn test_22_tampered_log_detected() {
    let mut log = Vec::new();
    logappend(&mut log, &["-T", "1", "-K", "secret", "-A", "-E", "Alice", "t22.log"]);
    let mid = log.len() / 2;
    log[mid] ^= 0xFF;
    let o = logread(&log, &["-K", "secret", "-S", "t22.log"]);
    assert_eq!(o, Outcome::Integrity);
}

#[test]
fn test_23_truncated_log_detected() {
    let mut log = Vec::new();
    logappend(&mut log, &["-T", "1", "-K", "secret", "-A", "-E", "Alice", "t23.log"]);
    let half = log[..log.len() / 2].to_vec();
    let o = logread(&half, &["-K", "secret", "-S", "t23.log"]);
    assert_eq!(o, Outcome::Integrity);
}

#[test]
fn test_24_invalid_name_with_numbers() {
    let mut log = Vec::new();
    let o = logappend(&mut log, &["-T", "1", "-K", "secret", "-A", "-E", "Alice123", "t24.log"]);
    assert_eq!(o, Outcome::Invalid);
}

#[test]
fn test_25_invalid_token_with_symbols() {
    let mut log = Vec::new();
    let o = logappend(&mut log, &["-T", "1", "-K", "bad token!", "-A", "-E", "Alice", "t25.log"]);
    assert_eq!(o, Outcome::Invalid);
}

#[test]
fn test_26_timestamp_zero_rejected() {
    let mut log = Vec::new();
    let o = logappend(&mut log, &["-T", "0", "-K", "secret", "-A", "-E", "Alice", "t26.log"]);
    assert_eq!(o, Outcome::Invalid);
}

#[test]
fn test_27_missing_action_flag() {
    let mut log = Vec::new();
    let o = logappend(&mut log, &["-T", "1", "-K", "secret", "-E", "Alice", "t27.log"]);
    assert_eq!(o, Outcome::Invalid);
}

#[test]
fn test_28_conflicting_action_flags() {
    let mut log = Vec::new();
    let o = logappend(&mut log, &["-T", "1", "-K", "secret", "-A", "-L", "-E", "Alice", "t28.log"]);
    assert_eq!(o, Outcome::Invalid);
}

#[test]
fn test_29_both_employee_and_guest_flags() {
    let mut log = Vec::new();
    let o = logappend(&mut log, &["-T", "1", "-K", "secret", "-A", "-E", "Alice", "-G", "Bob", "t29.log"]);
    assert_eq!(o, Outcome::Invalid);
}

#[test]
fn test_30_batch_mode_basic() {
    let files;
    let content = "-T 1 -K secret -A -E Alice t30.log\n\
                   -T 2 -K secret -A -G Bob t30.log\n\
                   -T 3 -K secret -A -E Alice -R 1 t30.log\n";
    files = batch(content).0;
    let s = out(&logread(&log_at(&files, "t30.log"), &["-K", "secret", "-S", "t30.log"]));
    assert!(s.contains("Alice"));
    assert!(s.contains("Bob"));
    assert!(s.contains("1:"));
}

#[test]
fn test_31_batch_invalid_line_continues() {
    let files;
    let content = "-T 1 -K secret -A -E Alice t31.log\n\
                   -T 2 -K secret -A -E Alice t31.log\n\
                   -T 3 -K secret -A -G Bob t31.log\n";
    let (f, outcomes) = batch(content);
    files = f;
    assert!(outcomes.iter().any(|o| o.is_err()));
    let s = out(&logread(&log_at(&files, "t31.log"), &["-K", "secret", "-S", "t31.log"]));
    assert!(s.contains("Bob"), "Bob from valid line should appear:\n{}", s);
}

#[test]
fn test_32_log_created_if_not_exists() {
    let mut log = Vec::new();
    assert!(log.is_empty(), "log should not exist yet");
    let o = logappend(&mut log, &["-T", "1", "-K", "secret", "-A", "-E", "Alice", "t32.log"]);
    assert!(matches!(o, Outcome::Done(_)));
    assert!(!log.is_empty(), "log should now exist");
}

#[test]
fn test_33_empty_log_gives_empty_state() {
    let log: Vec<u8> = Vec::new();
    let o = logread(&log, &["-K", "secret", "-S", "t33.log"]);
    assert!(matches!(o, Outcome::Done(_)));
    assert_eq!(o, Outcome::Done(vec![String::new(), String::new()]));
}

#[test]
fn test_34_full_scenario() {
    let mut log = Vec::new();
    logappend(&mut log, &["-T", "1", "-K", "tok", "-A", "-E", "Alice", "t34.log"]);
    logappend(&mut log, &["-T", "2", "-K", "tok", "-A", "-G", "Bob", "t34.log"]);
    logappend(&mut log, &["-T", "3", "-K", "tok", "-A", "-G", "Carol", "t34.log"]);
    logappend(&mut log, &["-T", "4", "-K", "tok", "-A", "-E", "Alice", "-R", "1", "t34.log"]);
    logappend(&mut log, &["-T", "5", "-K", "tok", "-A", "-G", "Bob", "-R", "1", "t34.log"]);
    logappend(&mut log, &["-T", "6", "-K", "tok", "-A", "-G", "Carol", "-R", "2", "t34.log"]);
    logappend(&mut log, &["-T", "7", "-K", "tok", "-L", "-G", "Bob", "-R", "1", "t34.log"]);
    logappend(&mut log, &["-T", "8", "-K", "tok", "-A", "-G", "Bob", "-R", "3", "t34.log"]);
    logappend(&mut log, &["-T", "9", "-K", "tok", "-L", "-E", "Alice", "-R", "1", "t34.log"]);
    logappend(&mut log, &["-T", "10", "-K", "tok", "-L", "-E", "Alice", "t34.log"]);
    let o = logread(&log, &["-K", "tok", "-S", "t34.log"]);
    assert!(matches!(o, Outcome::Done(_)));
    let s = out(&o);
    assert!(!s.contains("Alice"), "Alice left gallery:\n{}", s);
    assert!(s.contains("Bob"), "Bob still in gallery:\n{}", s);
    assert!(s.contains("Carol"), "Carol still in gallery:\n{}", s);
    assert!(s.contains("3:"), "room 3 should have Bob:\n{}", s);
    assert!(s.contains("2:"), "room 2 should have Carol:\n{}", s);
    assert_eq!(out(&logread(&log, &["-K", "tok", "-R", "-E", "Alice", "t34.log"])).trim(), "1", "Alice visited room 1 only");
    assert_eq!(out(&logread(&log, &["-K", "tok", "-R", "-G", "Bob", "t34.log"])).trim(), "1,3", "Bob visited rooms 1 then 3");
    let s = out(&logread(&log, &["-K", "tok", "-I", "-E", "Alice", "-G", "Bob", "t34.log"])).trim().to_string();
    assert_eq!(s, "1", "Alice and Bob shared room 1:\n{}", s);
}

#[test]
fn test_35_intersection_multiple_shared_rooms() {
    let mut log = Vec::new();
    logappend(&mut log, &["-T", "1", "-K", "secret", "-A", "-E", "Alice", "t35.log"]);
    logappend(&mut log, &["-T", "2", "-K", "secret", "-A", "-G", "Bob", "t35.log"]);
    logappend(&mut log, &["-T", "3", "-K", "secret", "-A", "-E", "Alice", "-R", "1", "t35.log"]);
    logappend(&mut log, &["-T", "4", "-K", "secret", "-A", "-G", "Bob", "-R", "1", "t35.log"]);
    logappend(&mut log, &["-T", "5", "-K", "secret", "-L", "-E", "Alice", "-R", "1", "t35.log"]);
    logappend(&mut log, &["-T", "6", "-K", "secret", "-L", "-G", "Bob", "-R", "1", "t35.log"]);
    logappend(&mut log, &["-T", "7", "-K", "secret", "-A", "-E", "Alice", "-R", "3", "t35.log"]);
    logappend(&mut log, &["-T", "8", "-K", "secret", "-A", "-G", "Bob", "-R", "3", "t35.log"]);
    logappend(&mut log, &["-T", "9", "-K", "secret", "-L", "-E", "Alice", "-R", "3", "t35.log"]);
    logappend(&mut log, &["-T", "10", "-K", "secret", "-L", "-G", "Bob", "-R", "3", "t35.log"]);
    let o = logread(&log, &["-K", "secret", "-I", "-E", "Alice", "-G", "Bob", "t35.log"]);
    assert!(matches!(o, Outcome::Done(_)));
    assert_eq!(out(&o).trim(), "1,3", "shared rooms should be 1,3");
}

#[test]
fn test_36_intersection_unknown_person_ignored() {
    let mut log = Vec::new();
    logappend(&mut log, &["-T", "1", "-K", "secret", "-A", "-E", "Alice", "t36.log"]);
    logappend(&mut log, &["-T", "2", "-K", "secret", "-A", "-E", "Alice", "-R", "1", "t36.log"]);
    let o = logread(&log, &["-K", "secret", "-I", "-E", "Alice", "-E", "Bob", "t36.log"]);
    assert!(matches!(o, Outcome::Done(_)));
    assert_eq!(out(&o).trim(), "1");
}

#[test]
fn test_37_intersection_no_concurrent_overlap() {
    let mut log = Vec::new();
    logappend(&mut log, &["-T", "1", "-K", "secret", "-A", "-E", "Alice", "t37.log"]);
    logappend(&mut log, &["-T", "2", "-K", "secret", "-A", "-G", "Bob", "t37.log"]);
    logappend(&mut log, &["-T", "3", "-K", "secret", "-A", "-E", "Alice", "-R", "1", "t37.log"]);
    logappend(&mut log, &["-T", "4", "-K", "secret", "-L", "-E", "Alice", "-R", "1", "t37.log"]);
    logappend(&mut log, &["-T", "5", "-K", "secret", "-A", "-G", "Bob", "-R", "1", "t37.log"]);
    let s = out(&logread(&log, &["-K", "secret", "-I", "-E", "Alice", "-G", "Bob", "t37.log"])).trim().to_string();
    assert!(s.is_empty(), "no concurrent overlap — should be empty: '{}'", s);
}

#[test]
fn test_io_error_converts() {
    let e: LogError = std::io::Error::new(std::io::ErrorKind::NotFound, "missing").into();
    assert!(matches!(e, LogError::Io(_)));
}
