use lspc::edits::{apply_edits, join_lines, split_lines, Position, Range, TextEdit};
use lspc::framing::{decode_frame, encode_frame};
use lspc::handler::{LangServerHandler, LangSettings};
use lspc::nvim::{encode_handle, decode_handle, BufferHandler, MsgValue, NvimHandle, NvimMessage, RpcError};
use lspc::display::ToDisplay;
use lspc::nvim::Subscriptions;
use lspc::protocol::{
    Hover, HoverContents, LspOutgoing, LspParams, MarkedString, MarkupContent, MarkupKind, ResponseAction,
    ServerCapabilities, SyncKind, TextDocumentSync,
};

#[test]
fn frame_round_trip() {
    let body = b"{\"jsonrpc\":\"2.0\",\"id\":1}".to_vec();
    let frame = encode_frame(&body);
    assert_eq!(b"Content-Length: 24\r\n\r\n{\"jsonrpc\":\"2.0\",\"id\":1}".to_vec(), frame);
    let mut stream = frame.clone();
    stream.extend_from_slice(b"Content-Length: 0\r\n\r\n");
    let (back, used) = decode_frame(&stream).unwrap();
    assert_eq!(body, back);
    assert_eq!(frame.len(), used);
    let (empty, used2) = decode_frame(&stream[used..].to_vec()).unwrap();
    assert!(empty.is_empty());
    assert_eq!(21, used2);
}

#[test]
fn frame_errors() {
    assert!(decode_frame(&b"Content-Length: 5\r\n\r\nabc".to_vec()).is_none());
    assert!(decode_frame(&b"Content-Type: 5\r\n\r\nabcde".to_vec()).is_none());
    assert!(decode_frame(&b"Content-Length: \r\n\r\n".to_vec()).is_none());
    assert!(decode_frame(&b"Content-Length: 99999999999999999999999\r\n\r\n".to_vec()).is_none());
}

#[test]
fn message_round_trip() {
    let req = NvimMessage::RpcRequest {
        msgid: 7,
        method: "nvim_command".to_owned(),
        params: MsgValue::Array(vec![MsgValue::Str("echo 1".to_owned())]),
    };
    let v = req.to_value();
    assert!(matches!(&v, MsgValue::Array(items) if items.len() == 4));
    match NvimMessage::from_value(v).unwrap() {
        NvimMessage::RpcRequest { msgid, method, params } => {
            assert_eq!(7, msgid);
            assert_eq!("nvim_command", method);
            assert!(matches!(params, MsgValue::Array(p) if p.len() == 1));
        }
        other => panic!("unexpected message {:?}", other),
    }
    let noti = NvimMessage::RpcNotification { method: "exit".to_owned(), params: MsgValue::Nil };
    let back = NvimMessage::from_value(noti.to_value()).unwrap();
    assert!(back.is_exit());
    let resp = NvimMessage::RpcResponse { msgid: 3, error: MsgValue::Nil, result: MsgValue::UInt(5) };
    let back = NvimMessage::from_value(resp.to_value()).unwrap();
    assert_eq!(Some(3), back.response_id());
}

#[test]
fn malformed_messages() {
    let short = MsgValue::Array(vec![MsgValue::UInt(0), MsgValue::UInt(1)]);
    assert!(matches!(NvimMessage::from_value(short), Err(RpcError::Deserialize(_))));
    let bad_tag = MsgValue::Array(vec![MsgValue::UInt(5), MsgValue::Str("m".to_owned()), MsgValue::Nil]);
    assert!(matches!(NvimMessage::from_value(bad_tag), Err(RpcError::Deserialize(_))));
    assert!(matches!(NvimMessage::from_value(MsgValue::Nil), Err(RpcError::Deserialize(_))));
    assert_eq!("Request timed out", RpcError::Timeout.describe());
    assert_eq!("Read Error: eof", RpcError::Read("eof".to_owned()).describe());
}

#[test]
fn handle_round_trip() {
    for h in [NvimHandle::Buffer(BufferHandler(13)), NvimHandle::Buffer(BufferHandler(-300)), NvimHandle::Tabpage(lspc::nvim::TabpageHandler(i64::MAX))] {
        let (tag, bytes) = encode_handle(h);
        assert_eq!(8, bytes.len());
        assert_eq!(Some(h), decode_handle(tag, &bytes));
    }
}

#[test]
fn no_edits_keep_the_lines() {
    let lines = vec!["a".to_owned(), "".to_owned(), "bc".to_owned()];
    let text = apply_edits(&lines, &vec![]);
    assert_eq!("a\n\nbc", text);
    assert_eq!(lines, split_lines(&text));
    assert_eq!(vec!["".to_owned()], split_lines(&join_lines(&vec![])));
}

fn edit(l0: u32, c0: u32, l1: u32, c1: u32, text: &str) -> TextEdit {
    TextEdit::new(Range::new(Position::new(l0, c0), Position::new(l1, c1)), text.to_owned())
}

#[test]
fn disjoint_edits_in_any_order() {
    let lines = vec!["let x = 1;".to_owned(), "let y=2;".to_owned()];
    let a = vec![edit(0, 4, 0, 5, "xx"), edit(1, 5, 1, 6, " = "), edit(0, 8, 0, 9, "10")];
    let b = vec![edit(0, 8, 0, 9, "10"), edit(0, 4, 0, 5, "xx"), edit(1, 5, 1, 6, " = ")];
    let c = vec![edit(1, 5, 1, 6, " = "), edit(0, 8, 0, 9, "10"), edit(0, 4, 0, 5, "xx")];
    let ra = apply_edits(&lines, &a);
    assert_eq!("let xx = 10;\nlet y = 2;", ra);
    assert_eq!(ra, apply_edits(&lines, &b));
    assert_eq!(ra, apply_edits(&lines, &c));
}

#[test]
fn overlapping_edit_is_skipped() {
    let lines = vec!["abcdef".to_owned()];
    let edits = vec![edit(0, 1, 0, 4, "X"), edit(0, 3, 0, 5, "Y")];
    assert_eq!("abcYf", apply_edits(&lines, &edits));
}

#[test]
fn request_ids_increase_from_one() {
    let mut h = LangServerHandler::new(1, "rust".to_owned(), LangSettings { indentation: 4, indentation_with_space: false }, "/p".to_owned());
    assert_eq!(SyncKind::Full, h.sync_kind());
    let mut last = 0;
    for _ in 0..5 {
        let id = h.lsp_request(LspParams::Initialized, ResponseAction::References).unwrap();
        assert!(id > last);
        last = id;
    }
    assert_eq!(5, last);
    assert!(h.callback_for(3).is_some());
    assert!(h.callback_for(3).is_none());
    assert_eq!(5, h.take_outbox().len());
    h.mark_disconnected();
    assert!(h.lsp_notify(LspParams::Initialized).is_err());
    assert!(h.take_outbox().is_empty());
}

#[test]
fn sync_kind_from_capabilities() {
    let mut h = LangServerHandler::new(1, "rust".to_owned(), LangSettings { indentation: 4, indentation_with_space: false }, "/p".to_owned());
    h.initialize_response(ServerCapabilities { text_document_sync: Some(TextDocumentSync::Options { change: Some(SyncKind::Incremental) }) }).unwrap();
    assert_eq!(SyncKind::Incremental, h.sync_kind());
    h.initialize_response(ServerCapabilities { text_document_sync: Some(TextDocumentSync::Options { change: None }) }).unwrap();
    assert_eq!(SyncKind::Full, h.sync_kind());
    h.initialize_response(ServerCapabilities { text_document_sync: Some(TextDocumentSync::Kind(SyncKind::Off)) }).unwrap();
    assert_eq!(SyncKind::Off, h.sync_kind());
    let sent = h.take_outbox();
    assert!(sent.iter().all(|m| matches!(m, LspOutgoing::Notification { params: LspParams::Initialized })));
    assert!(h.include_file("/p/src/a.rs"));
    assert!(!h.include_file("/pq/a.rs"));
}

#[test]
fn hover_display_lines() {
    let h = Hover {
        contents: HoverContents::Array(vec![
            MarkedString::LanguageString { language: "rust".to_owned(), value: "fn foo()\n-> u8".to_owned() },
            MarkedString::Plain("docs\nmore".to_owned()),
        ]),
    };
    assert_eq!(vec!["```rust", "fn foo()", "-> u8", "```", "docs", "more"], h.to_display());
    assert_eq!(Some("markdown".to_owned()), h.vim_filetype());
    let m = Hover { contents: HoverContents::Markup(MarkupContent { kind: MarkupKind::PlainText, value: "a\r\nb\n".to_owned() }) };
    assert_eq!(vec!["a", "b"], m.to_display());
    assert_eq!(Some("text".to_owned()), m.vim_filetype());
    let s = Hover { contents: HoverContents::Scalar(MarkedString::LanguageString { language: "c".to_owned(), value: "int x;".to_owned() }) };
    assert_eq!(Some("c".to_owned()), s.vim_filetype());
}

#[test]
fn responses_reach_their_waiters() {
    let mut subs = Subscriptions::new();
    subs.subscribe(1, 10);
    subs.subscribe(2, 20);
    assert_eq!(Some(20), subs.deliver(2));
    assert_eq!(None, subs.deliver(2));
    assert_eq!(None, subs.deliver(7));
    assert_eq!(Some(10), subs.deliver(1));
}
