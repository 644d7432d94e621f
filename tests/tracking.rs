use lspc::edits::{Position, Range};
use lspc::events::{ContentChange, DocumentUri};
use lspc::nvim::BufferHandler;
use lspc::protocol::SyncKind;
use lspc::tracking::TrackingFile;

#[test]
fn tracking_file_full() {
    let file_path = "/a/b/c/d";

    let mut tracking_file = TrackingFile::new(
        1,
        BufferHandler(1),
        DocumentUri::from_path(file_path).unwrap(),
        SyncKind::Full,
    );
    let change_event = ContentChange { range: None, text: "".to_owned() };

    tracking_file.track_change(5, &change_event);
    let sync_request = tracking_file.fetch_pending_changes();

    assert_eq!(true, sync_request.is_some());

    let sync_request = sync_request.unwrap();
    assert_eq!(
        url::Url::from_file_path(file_path).unwrap().as_str(),
        sync_request.text_document.url
    );
    assert_eq!(5, sync_request.version);
    assert_eq!(1, sync_request.content_changes.len());
    assert_eq!("", sync_request.content_changes[0].text);

    // Two lines added
    // nvim_buf_lines_event[{buf}, {changedtick}, 0, 0, ["line1", "line2", "line3"], v:false]
    let change_event = ContentChange {
        range: Some(Range { start: Position { line: 0, character: 0 }, end: Position { line: 0, character: 0 } }),
        text: "line1\nline2\nline3".to_owned(),
    };
    tracking_file.track_change(6, &change_event);

    let sync_request = tracking_file.fetch_pending_changes().unwrap();

    assert_eq!(6, sync_request.version);
    assert_eq!(1, sync_request.content_changes.len());
    assert_eq!("line1\nline2\nline3", sync_request.content_changes[0].text);

    // Remove two lines
    // nvim_buf_lines_event[{buf}, {changedtick}, 1, 3, [], v:false]
    let change_event = ContentChange {
        range: Some(Range { start: Position { line: 1, character: 0 }, end: Position { line: 3, character: 0 } }),
        text: "".to_owned(),
    };
    tracking_file.track_change(7, &change_event);

    let sync_request = tracking_file.fetch_pending_changes().unwrap();

    assert_eq!(7, sync_request.version);
    assert_eq!(1, sync_request.content_changes.len());
    assert_eq!("line1\n", sync_request.content_changes[0].text);
}

fn line_change(first: u32, last: u32, text: &str) -> ContentChange {
    ContentChange {
        range: Some(Range::new(Position::new(first, 0), Position::new(last, 0))),
        text: text.to_owned(),
    }
}

#[test]
fn incremental_changes_on_the_same_range_are_coalesced() {
    let uri = DocumentUri::from_path("/p/f").unwrap();
    let mut f = TrackingFile::new(3, BufferHandler(7), uri, SyncKind::Incremental);
    f.track_change(1, &line_change(2, 3, "a"));
    f.track_change(2, &line_change(2, 3, "ab"));
    f.track_change(3, &line_change(5, 6, "x"));
    f.track_change(4, &ContentChange { range: None, text: "whole".to_owned() });
    let p = f.fetch_pending_changes().unwrap();
    assert_eq!(4, p.version);
    assert_eq!(2, p.content_changes.len());
    assert_eq!("ab", p.content_changes[0].text);
    assert_eq!("x", p.content_changes[1].text);
    assert!(f.fetch_pending_changes().is_none());
}

#[test]
fn sync_off_keeps_nothing() {
    let uri = DocumentUri::from_path("/p/f").unwrap();
    let mut f = TrackingFile::new(3, BufferHandler(7), uri, SyncKind::Off);
    f.track_change(9, &line_change(0, 1, "a"));
    assert_eq!(9, f.version());
    assert!(f.fetch_pending_changes().is_none());
}

#[test]
fn delay_is_kept_once_scheduled() {
    let uri = DocumentUri::from_path("/p/f").unwrap();
    let mut f = TrackingFile::new(3, BufferHandler(7), uri, SyncKind::Incremental);
    f.delay_sync_in(10, 500);
    assert_eq!(Some(510), f.scheduled_sync_at());
    f.delay_sync_in(20, 500);
    assert_eq!(Some(510), f.scheduled_sync_at());
    f.fetch_pending_changes();
    assert_eq!(None, f.scheduled_sync_at());
    f.delay_sync_in(u64::MAX - 1, 500);
    assert_eq!(Some(u64::MAX), f.scheduled_sync_at());
}

#[test]
fn full_text_change_past_the_end_replaces_to_the_end() {
    let uri = DocumentUri::from_path("/p/f").unwrap();
    let mut f = TrackingFile::new(1, BufferHandler(1), uri, SyncKind::Full);
    f.track_change(1, &ContentChange { range: None, text: "a\nb\nc".to_owned() });
    f.track_change(2, &line_change(1, u32::MAX, "z"));
    let p = f.fetch_pending_changes().unwrap();
    assert_eq!("a\nz", p.content_changes[0].text);
    assert!(p.content_changes[0].range.is_none());
}
