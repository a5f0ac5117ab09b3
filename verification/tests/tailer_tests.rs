use reforger_stats::tailer::decode_line;
use reforger_stats::tailer::restart_marker_of;
use reforger_stats::Tailer;

#[test]
fn poll_yields_exactly_the_appended_lines() {
    // the file had 10 bytes when opened, then grew by two full lines
    let mut t = Tailer::open_at(10);
    let appended = b"first line\nsecond\n".to_vec();
    let file_len = 10 + appended.len() as u64;
    assert_eq!(t.read_start(file_len), 10);
    let lines = t.ingest(&appended, file_len);
    assert_eq!(lines.len(), 2);
    assert_eq!(lines[0], b"first line".to_vec());
    assert_eq!(lines[1], b"second".to_vec());
    assert_eq!(t.offset(), file_len);
}

#[test]
fn truncation_resets_to_byte_zero() {
    let mut t = Tailer::open_at(100);
    // the file was replaced by a shorter one
    let content = b"fresh\n".to_vec();
    let file_len = content.len() as u64;
    assert_eq!(t.read_start(file_len), 0);
    let lines = t.ingest(&content, file_len);
    assert_eq!(lines.len(), 1);
    assert_eq!(lines[0], b"fresh".to_vec());
    assert_eq!(t.offset(), file_len);
}

#[test]
fn partial_trailing_line_waits_for_the_next_cycle() {
    let mut t = Tailer::open_at(0);
    let chunk = b"done\nhalf".to_vec();
    let lines = t.ingest(&chunk, 9);
    assert_eq!(lines.len(), 1);
    assert_eq!(lines[0], b"done".to_vec());
    // the offset stops after "done\n", so "half" is read again next time
    assert_eq!(t.offset(), 5);
    let rest = b"half way\n".to_vec();
    assert_eq!(t.read_start(14), 5);
    let more = t.ingest(&rest, 14);
    assert_eq!(more.len(), 1);
    assert_eq!(more[0], b"half way".to_vec());
    assert_eq!(t.offset(), 14);
}

#[test]
fn carriage_returns_are_stripped() {
    let mut t = Tailer::open_at(0);
    let chunk = b"win line\r\nnext\n".to_vec();
    let lines = t.ingest(&chunk, 15);
    assert_eq!(lines.len(), 2);
    assert_eq!(lines[0], b"win line".to_vec());
    assert_eq!(lines[1], b"next".to_vec());
}

#[test]
fn empty_chunk_changes_nothing() {
    let mut t = Tailer::open_at(7);
    let lines = t.ingest(&Vec::new(), 7);
    assert_eq!(lines.len(), 0);
    assert_eq!(t.offset(), 7);
}

#[test]
fn restart_marker_is_the_leading_timestamp() {
    assert_eq!(
        restart_marker_of("12:34:56.789 Game successfully created."),
        Some("12:34:56.789".to_string())
    );
    assert_eq!(
        restart_marker_of("01:02:03 Game successfully created."),
        Some("01:02:03".to_string())
    );
    assert_eq!(restart_marker_of("12:34:56.789 something else entirely"), None);
    assert_eq!(restart_marker_of("Game successfully created."), None);
}

#[test]
fn changed_marker_resets_the_offset() {
    let mut t = Tailer::open_at(50);
    t.observe_restart_marker("12:00:00");
    assert_eq!(t.offset(), 50);
    // the same marker again is ignored
    t.observe_restart_marker("12:00:00");
    assert_eq!(t.offset(), 50);
    // a different marker means a new server instance: start over
    t.observe_restart_marker("13:30:00");
    assert_eq!(t.offset(), 0);
}

#[test]
fn ascii_bytes_decode_to_themselves() {
    let line = b"PLAYER_KILLED: killerName=A, victimName=B".to_vec();
    assert_eq!(decode_line(&line), "PLAYER_KILLED: killerName=A, victimName=B");
}

#[test]
fn chunk_without_any_newline_yields_nothing() {
    let mut t = Tailer::open_at(0);
    let chunk = b"no terminator here".to_vec();
    let lines = t.ingest(&chunk, 18);
    assert_eq!(lines.len(), 0);
    assert_eq!(t.offset(), 0);
}
