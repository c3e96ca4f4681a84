use mol_job::track::{
    find_payload, last_line_of, restore_from, resume, sync, Restart, RestoreError,
};

#[test]
fn sync_frames_time_and_state() {
    let line = sync(b"0.005", b"{\"positions\":[]}");
    assert_eq!(line, b"0.005. {\"positions\":[]}\n".to_vec());
}

#[test]
fn sync_of_empty_parts_is_the_bare_frame() {
    assert_eq!(sync(b"", b""), b". \n".to_vec());
}

#[test]
fn last_line_of_an_empty_log_is_none() {
    assert_eq!(last_line_of(b""), None);
}

#[test]
fn last_line_without_final_newline() {
    assert_eq!(last_line_of(b"first\nsecond"), Some(&b"second"[..]));
    assert_eq!(last_line_of(b"only"), Some(&b"only"[..]));
}

#[test]
fn last_line_with_final_newline() {
    assert_eq!(last_line_of(b"first\nsecond\n"), Some(&b"second"[..]));
    assert_eq!(last_line_of(b"only\n"), Some(&b"only"[..]));
}

#[test]
fn last_line_may_be_empty() {
    assert_eq!(last_line_of(b"\n"), Some(&b""[..]));
    assert_eq!(last_line_of(b"first\n\n"), Some(&b""[..]));
}

#[test]
fn last_line_drops_a_carriage_return_before_the_newline() {
    assert_eq!(last_line_of(b"first\r\nsecond\r\n"), Some(&b"second"[..]));
    assert_eq!(last_line_of(b"\r\n"), Some(&b""[..]));
}

#[test]
fn last_line_keeps_a_carriage_return_without_newline() {
    assert_eq!(last_line_of(b"first\nsecond\r"), Some(&b"second\r"[..]));
}

#[test]
fn find_payload_is_behind_the_last_separator() {
    assert_eq!(find_payload(b"0.005. {}"), 7);
    assert_eq!(find_payload(b"1. a. b"), 6);
    assert_eq!(find_payload(b". "), 2);
}

#[test]
fn find_payload_without_separator_is_the_start() {
    assert_eq!(find_payload(b"0.005{}"), 0);
    assert_eq!(find_payload(b""), 0);
    assert_eq!(find_payload(b"."), 0);
    assert_eq!(find_payload(b" ."), 0);
}

#[test]
fn restore_from_reads_the_last_record() {
    let log = b"0.005. {\"a\":1}\n0.01. {\"a\":2}\n";
    assert_eq!(restore_from(log), Ok(&b"{\"a\":2}"[..]));
}

#[test]
fn restore_from_an_empty_log_finds_no_record() {
    assert_eq!(restore_from(b""), Err(RestoreError::NoRecord));
}

#[test]
fn restore_from_a_line_without_payload_finds_no_payload() {
    assert_eq!(restore_from(b"0.005. {}\n0.01. \n"), Err(RestoreError::NoPayload));
    assert_eq!(restore_from(b"0.005. {}\n\n"), Err(RestoreError::NoPayload));
    assert_eq!(restore_from(b"\n"), Err(RestoreError::NoPayload));
}

#[test]
fn restore_from_a_line_without_separator_is_the_line() {
    assert_eq!(restore_from(b"0.005. {}\ngarbage"), Ok(&b"garbage"[..]));
}

#[test]
fn restore_from_reads_back_what_sync_wrote() {
    let state = b"{\"positions\":[[0.5,1.0,-2.25]],\"velocities\":[[0.0,0.0,0.0]],\"accelerations\":[[1e-6,2.0,3.0]]}";
    let mut log = b"0.005. {\"positions\":[]}\n".to_vec();
    log.extend_from_slice(&sync(b"0.01", state));
    assert_eq!(restore_from(&log), Ok(&state[..]));
    let mut torn = b"0.005. {\"positions\"".to_vec();
    torn.extend_from_slice(&sync(b"0.01", state));
    assert_eq!(restore_from(&torn), Ok(&state[..]));
}

#[test]
fn resume_takes_up_a_parsed_state() {
    assert_eq!(resume(Ok(Some(vec![1.5f32, 2.5])), Vec::new()), (vec![1.5f32, 2.5], Restart::Restored));
}

#[test]
fn resume_from_a_malformed_payload_is_fresh() {
    let fresh: Vec<f32> = Vec::new();
    assert_eq!(resume(Ok(None), fresh), (Vec::new(), Restart::Malformed));
}

#[test]
fn resume_without_a_payload_is_fresh() {
    assert_eq!(resume(Err(RestoreError::NoRecord), 0u8), (0u8, Restart::NoRecord));
    assert_eq!(resume(Err(RestoreError::NoPayload), 0u8), (0u8, Restart::NoPayload));
}

#[test]
fn restart_from_a_torn_last_line_is_fresh() {
    let log = b"0.005. {\"positions\":[]}\n0.01. ";
    let read = restore_from(log).map(|_| Some(1u8));
    assert_eq!(resume(read, 0u8), (0u8, Restart::NoPayload));
}
