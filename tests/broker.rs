use lspc::broker::{LspcError, Lspc, MainLoopError};
use lspc::edits::{Position, Range, TextEdit};
use lspc::events::{ContentChange, DocumentUri, Event, LsConfig};
use lspc::nvim::BufferHandler;
use lspc::protocol::{
    DefinitionReply, EditorCall, Hover, HoverContents, Location, LspOutgoing, LspParams, LspReply,
    MarkupContent, MarkupKind, ServerCapabilities, SyncKind, TextDocumentSync,
};
use lspc::root::{find_root_path, search_dirs};

fn config() -> LsConfig {
    LsConfig {
        command: vec!["rls".to_owned()],
        root_markers: vec!["Cargo.toml".to_owned()],
        indentation: 2,
        indentation_with_space: true,
    }
}

/// A broker with one server rooted at `root`, initialized with `sync`.
fn started(root: &str, sync: SyncKind) -> Lspc {
    let mut l = Lspc::new();
    assert_eq!(1, l.start_server("rust".to_owned(), &config(), root).unwrap());
    let sent = l.take_messages(1);
    assert_eq!(1, sent.len());
    match &sent[0] {
        LspOutgoing::Request { id, params: LspParams::Initialize { root_path, root_uri } } => {
            assert_eq!(1, *id);
            assert_eq!(root, root_path);
            assert_eq!(format!("file://{}", root), *root_uri);
        }
        other => panic!("unexpected message {:?}", other),
    }
    let cb = l.take_callback(1, 1).unwrap();
    let caps = ServerCapabilities { text_document_sync: Some(TextDocumentSync::Kind(sync)) };
    l.run_callback(1, cb, LspReply::Initialize(caps)).unwrap();
    let sent = l.take_messages(1);
    assert!(matches!(sent[..], [LspOutgoing::Notification { params: LspParams::Initialized }]));
    let calls = l.take_editor_calls();
    assert_eq!(2, calls.len());
    assert!(matches!(&calls[0], EditorCall::Message(m) if m == "LangServer initialized"));
    assert!(matches!(calls[1], EditorCall::TrackAllBuffers));
    l
}

fn doc(path: &str) -> DocumentUri {
    DocumentUri::from_path(path).unwrap()
}

fn open(l: &mut Lspc, buf: i64, path: &str) {
    l.handle_editor_event(Event::DidOpen { buf_id: BufferHandler(buf), text_document: doc(path) }, 0).unwrap();
    let calls = l.take_editor_calls();
    assert!(matches!(&calls[..], [EditorCall::WatchFileEvents(d)] if d.url == doc(path).url));
}

fn change(l: &mut Lspc, buf: i64, version: i64, first: u32, last: u32, text: &str, now: u64) {
    let content_change = ContentChange {
        range: Some(Range::new(Position::new(first, 0), Position::new(last, 0))),
        text: text.to_owned(),
    };
    l.handle_editor_event(Event::DidChange { buf_id: BufferHandler(buf), version, content_change }, now).unwrap();
}

#[test]
fn hover_round_trip() {
    let mut l = started("/proj", SyncKind::Incremental);
    open(&mut l, 1, "/proj/src/a.rs");
    let event = Event::Hover {
        buf_id: BufferHandler(1),
        text_document: doc("/proj/src/a.rs"),
        position: Position::new(10, 4),
    };
    l.handle_editor_event(event, 0).unwrap();
    let sent = l.take_messages(1);
    assert_eq!(1, sent.len());
    match &sent[0] {
        LspOutgoing::Request { id, params: LspParams::Hover { text_document, position } } => {
            assert_eq!(2, *id);
            assert_eq!("file:///proj/src/a.rs", text_document.url);
            assert_eq!(Position::new(10, 4), *position);
        }
        other => panic!("unexpected message {:?}", other),
    }
    let cb = l.take_callback(1, 2).unwrap();
    let hover = Hover {
        contents: HoverContents::Markup(MarkupContent { kind: MarkupKind::PlainText, value: "fn foo".to_owned() }),
    };
    l.run_callback(1, cb, LspReply::Hover(Some(hover))).unwrap();
    let calls = l.take_editor_calls();
    assert_eq!(1, calls.len());
    match &calls[0] {
        EditorCall::ShowHover { text_document, hover } => {
            assert_eq!("file:///proj/src/a.rs", text_document.url);
            assert!(matches!(&hover.contents, HoverContents::Markup(m) if m.value == "fn foo"));
        }
        other => panic!("unexpected call {:?}", other),
    }
}

#[test]
fn debounced_changes() {
    let mut l = started("/p", SyncKind::Incremental);
    open(&mut l, 7, "/p/f");
    // The first lines event carries the whole buffer and opens the document.
    change(&mut l, 7, 0, 0, u32::MAX, "x\ny\nz", 0);
    let sent = l.take_messages(1);
    assert!(matches!(&sent[..], [LspOutgoing::Notification { params: LspParams::DidOpen { version: 0, .. } }]));
    change(&mut l, 7, 1, 0, 1, "a", 10);
    change(&mut l, 7, 2, 1, 2, "b", 20);
    change(&mut l, 7, 3, 2, 3, "c", 30);
    for now in [100u64, 200, 300, 400, 500] {
        l.handle_timer_tick(now).unwrap();
        assert!(l.take_messages(1).is_empty());
    }
    l.handle_timer_tick(510).unwrap();
    let sent = l.take_messages(1);
    assert_eq!(1, sent.len());
    match &sent[0] {
        LspOutgoing::Notification { params: LspParams::DidChange(p) } => {
            assert_eq!(3, p.version);
            // The opening change stays queued with the three that follow.
            assert_eq!(4, p.content_changes.len());
            assert_eq!("x\ny\nz", p.content_changes[0].text);
            assert_eq!("a", p.content_changes[1].text);
            assert_eq!("c", p.content_changes[3].text);
        }
        other => panic!("unexpected message {:?}", other),
    }
    l.handle_timer_tick(1100).unwrap();
    assert!(l.take_messages(1).is_empty());
}

#[test]
fn full_sync_server() {
    let mut l = started("/p", SyncKind::Full);
    open(&mut l, 7, "/p/f");
    change(&mut l, 7, 0, 0, u32::MAX, "one\ntwo\nthree", 0);
    let _ = l.take_messages(1);
    change(&mut l, 7, 1, 0, 1, "uno\n", 10);
    change(&mut l, 7, 2, 0, 2, "eins\nzwei\n", 20);
    change(&mut l, 7, 3, 1, 2, "deux\n", 30);
    l.handle_timer_tick(600).unwrap();
    let sent = l.take_messages(1);
    assert_eq!(1, sent.len());
    match &sent[0] {
        LspOutgoing::Notification { params: LspParams::DidChange(p) } => {
            assert_eq!(3, p.version);
            assert_eq!(1, p.content_changes.len());
            assert!(p.content_changes[0].range.is_none());
            assert_eq!("eins\ndeux\nthree", p.content_changes[0].text);
        }
        other => panic!("unexpected message {:?}", other),
    }
}

#[test]
fn unknown_response_id() {
    let mut l = started("/p", SyncKind::Full);
    assert!(l.take_callback(1, 999).is_none());
    assert!(l.take_messages(1).is_empty());
    assert!(l.take_editor_calls().is_empty());
    assert!(l.take_callback(42, 1).is_none());
}

#[test]
fn untracked_documents_are_ignored() {
    let mut l = started("/proj", SyncKind::Full);
    let event = Event::Hover { buf_id: BufferHandler(1), text_document: doc("/proj/b.rs"), position: Position::new(0, 0) };
    assert!(matches!(l.handle_editor_event(event, 0), Err(LspcError::MainLoop(MainLoopError::IgnoredMessage))));
    let outside = Event::DidOpen { buf_id: BufferHandler(2), text_document: doc("/elsewhere/b.rs") };
    assert!(matches!(l.handle_editor_event(outside, 0), Err(LspcError::MainLoop(MainLoopError::IgnoredMessage))));
    assert!(!l.is_tracked("file:///elsewhere/b.rs"));
    let close = Event::DidClose { buf_id: BufferHandler(2) };
    assert!(matches!(l.handle_editor_event(close, 0), Err(LspcError::MainLoop(MainLoopError::IgnoredMessage))));
}

#[test]
fn close_flushes_then_closes() {
    let mut l = started("/p", SyncKind::Incremental);
    open(&mut l, 3, "/p/f");
    change(&mut l, 3, 0, 0, u32::MAX, "x", 0);
    change(&mut l, 3, 1, 0, 1, "y", 5);
    let _ = l.take_messages(1);
    l.handle_editor_event(Event::DidClose { buf_id: BufferHandler(3) }, 10).unwrap();
    let sent = l.take_messages(1);
    assert_eq!(2, sent.len());
    assert!(matches!(&sent[0], LspOutgoing::Notification { params: LspParams::DidChange(p) } if p.version == 1));
    assert!(matches!(&sent[1], LspOutgoing::Notification { params: LspParams::DidClose { text_document } } if text_document.url == "file:///p/f"));
    assert!(!l.is_tracked("file:///p/f"));
}

#[test]
fn formatting_applies_edits() {
    let mut l = started("/p", SyncKind::Full);
    open(&mut l, 1, "/p/m.rs");
    let lines = vec!["fn   a() {".to_owned(), "  print!(\"hello\");".to_owned(), "}".to_owned()];
    let event = Event::FormatDoc { buf_id: BufferHandler(1), text_document: doc("/p/m.rs"), text_document_lines: lines };
    l.handle_editor_event(event, 0).unwrap();
    let sent = l.take_messages(1);
    assert!(matches!(&sent[..], [LspOutgoing::Request { id: 2, params: LspParams::Formatting { tab_size: 2, insert_spaces: true, .. } }]));
    let cb = l.take_callback(1, 2).unwrap();
    let edits = vec![
        TextEdit::new(Range::new(Position::new(0, 3), Position::new(0, 5)), String::new()),
        TextEdit::new(Range::new(Position::new(1, 0), Position::new(1, 0)), "  ".to_owned()),
    ];
    l.run_callback(1, cb, LspReply::Formatting(Some(edits))).unwrap();
    let calls = l.take_editor_calls();
    match &calls[..] {
        [EditorCall::ApplyEdits { lines }] => {
            assert_eq!(&vec!["fn a() {".to_owned(), "    print!(\"hello\");".to_owned(), "}".to_owned()], lines);
        }
        other => panic!("unexpected calls {:?}", other),
    }
}

#[test]
fn reply_of_another_kind_is_invalid() {
    let mut l = started("/p", SyncKind::Full);
    open(&mut l, 1, "/p/m.rs");
    let event = Event::GotoDefinition { buf_id: BufferHandler(1), text_document: doc("/p/m.rs"), position: Position::new(1, 1) };
    l.handle_editor_event(event, 0).unwrap();
    let cb = l.take_callback(1, 2).unwrap();
    assert!(matches!(l.run_callback(1, cb, LspReply::References(None)), Err(LspcError::LangServer(_))));
}

#[test]
fn goto_follows_a_single_location() {
    let mut l = started("/p", SyncKind::Full);
    open(&mut l, 1, "/p/m.rs");
    for (id, reply, expected) in [
        (2u64, Some(DefinitionReply::Array(vec![Location { uri: "file:///p/x.rs".to_owned(), range: Range::new(Position::new(3, 1), Position::new(3, 2)) }])), 1usize),
        (3, Some(DefinitionReply::Array(vec![])), 0),
        (4, None, 0),
    ] {
        let event = Event::GotoDefinition { buf_id: BufferHandler(1), text_document: doc("/p/m.rs"), position: Position::new(1, 1) };
        l.handle_editor_event(event, 0).unwrap();
        let cb = l.take_callback(1, id).unwrap();
        l.run_callback(1, cb, LspReply::Definition(reply)).unwrap();
        assert_eq!(expected, l.take_editor_calls().len());
    }
}

#[test]
fn disconnected_server_refuses_requests() {
    let mut l = started("/p", SyncKind::Full);
    open(&mut l, 1, "/p/m.rs");
    l.server_disconnected(1);
    let event = Event::References { buf_id: BufferHandler(1), text_document: doc("/p/m.rs"), position: Position::new(0, 0), include_declaration: false };
    assert!(matches!(l.handle_editor_event(event, 0), Err(LspcError::LangServer(_))));
}

#[test]
fn root_resolution() {
    let dirs = search_dirs("/a/b/c/d/main.rs", true);
    assert_eq!(vec!["/a/b/c/d", "/a/b/c", "/a/b", "/a", "/"], dirs);
    let has_marker: Vec<bool> = dirs.iter().map(|d| d == "/a/b").collect();
    assert_eq!(Some("/a/b".to_owned()), find_root_path(&dirs, &has_marker));
    assert_eq!(None, find_root_path(&dirs, &vec![false; dirs.len()]));
    assert_eq!(vec!["/a/b", "/a", "/"], search_dirs("/a/b", false));
}

#[test]
fn relative_root_is_not_found() {
    let mut l = Lspc::new();
    assert!(matches!(l.start_server("rust".to_owned(), &config(), "a/b"), Err(LspcError::Editor(_))));
}

#[test]
fn hello_says_hello() {
    let mut l = Lspc::new();
    l.handle_editor_event(Event::Hello, 0).unwrap();
    assert!(matches!(l.take_editor_calls()[..], [EditorCall::SayHello]));
}
