use lspc::edits::{apply_edits, Position, Range, TextEdit};
use lspc::events::{ls_config_from, to_event, DocumentUri, EditorError, Event};
use lspc::nvim::{decode_handle, BufferHandler, MsgValue, NvimHandle, NvimMessage};

fn s(text: &str) -> MsgValue {
    MsgValue::Str(text.to_owned())
}

fn config_value(command: Vec<&str>) -> MsgValue {
    MsgValue::Entries(vec![
        (s("root_markers"), MsgValue::Array(vec![s("Cargo.lock")])),
        (s("command"), MsgValue::Array(command.into_iter().map(s).collect())),
        (s("indentation"), MsgValue::UInt(4)),
        (s("indentation_with_space"), MsgValue::Boolean(true)),
    ])
}

#[test]
fn test_apply_edits() {
    let unformatted_content = String::from("fn   a() {\n  print!(\"hello\");\n}");
    let lines = unformatted_content.split("\n").map(String::from).collect::<Vec<String>>();
    let edits = vec![
        TextEdit::new(Range::new(Position::new(0, 3), Position::new(0, 5)), String::from("")),
        TextEdit::new(Range::new(Position::new(1, 0), Position::new(1, 0)), String::from("  ")),
    ];
    let editted_content = apply_edits(&lines, &edits);
    let expected_content = String::from("fn a() {\n    print!(\"hello\");\n}");
    assert_eq!(editted_content, expected_content);
}

#[test]
fn test_deserialize_ls_config() {
    let value = MsgValue::Entries(vec![
        (s("root_markers"), MsgValue::Array(vec![s("Cargo.lock")])),
        (s("command"), MsgValue::Array(vec![s("rustup"), s("run")])),
        (s("indentation"), MsgValue::UInt(4)),
        (s("indentation_with_space"), MsgValue::Boolean(true)),
    ]);

    let ls_config = ls_config_from(&value).unwrap();

    assert_eq!(vec!["rustup".to_owned(), "run".to_owned()], ls_config.command);
    assert_eq!(vec!["Cargo.lock".to_owned()], ls_config.root_markers);
    assert_eq!(4, ls_config.indentation);
    assert_eq!(true, ls_config.indentation_with_space);
}

#[test]
fn test_deserialize_start_lang_server_params() {
    let start_lang_server_msg = NvimMessage::RpcNotification {
        method: String::from("start_lang_server"),
        params: MsgValue::Array(vec![s("rust"), config_value(vec!["rustup"]), s("/abc")]),
    };
    match to_event(&start_lang_server_msg).unwrap() {
        Event::StartServer { lang_id, config, cur_path } => {
            assert_eq!(String::from("rust"), lang_id);
            assert_eq!(vec![String::from("rustup")], config.command);
            assert_eq!(vec![String::from("Cargo.lock")], config.root_markers);
            assert_eq!(4, config.indentation);
            assert_eq!(true, config.indentation_with_space);
            assert_eq!(String::from("/abc"), cur_path);
        }
        other => panic!("unexpected event {:?}", other),
    }
}

#[test]
fn neovim_test_deserialize_inlay_hints_params() {
    let inlay_hints_msg = NvimMessage::RpcNotification {
        method: String::from("inlay_hints"),
        params: MsgValue::Array(vec![MsgValue::UInt(1), s("/abc/d.rs")]),
    };
    let text_document = DocumentUri::from_path("/abc/d.rs").unwrap();
    match to_event(&inlay_hints_msg).unwrap() {
        Event::InlayHints { buf_id, text_document: doc } => {
            assert_eq!(BufferHandler(1), buf_id);
            assert_eq!(text_document.url, doc.url);
            assert_eq!(text_document.path, doc.path);
            assert_eq!("file:///abc/d.rs", doc.url);
        }
        other => panic!("unexpected event {:?}", other),
    }
}

#[test]
fn test_deserialize_buffer_handler() {
    let handle = decode_handle(0, &vec![13]).unwrap();

    assert_eq!(NvimHandle::Buffer(BufferHandler(13)), handle);
}

#[test]
fn ls_config_defaults() {
    let value = MsgValue::Entries(vec![
        (s("command"), MsgValue::Array(vec![s("pyls")])),
        (s("root_markers"), MsgValue::Array(vec![])),
    ]);
    let c = ls_config_from(&value).unwrap();
    assert_eq!(4, c.indentation);
    assert_eq!(false, c.indentation_with_space);
    let missing = MsgValue::Entries(vec![(s("command"), MsgValue::Array(vec![s("pyls")]))]);
    assert!(ls_config_from(&missing).is_none());
}

#[test]
fn buffer_lines_event_becomes_did_change() {
    let msg = NvimMessage::RpcNotification {
        method: String::from("nvim_buf_lines_event"),
        params: MsgValue::Array(vec![
            MsgValue::Ext(0, vec![7]),
            MsgValue::UInt(12),
            MsgValue::UInt(1),
            MsgValue::UInt(3),
            MsgValue::Array(vec![s("a"), s("b")]),
            MsgValue::Boolean(false),
        ]),
    };
    match to_event(&msg).unwrap() {
        Event::DidChange { buf_id, version, content_change } => {
            assert_eq!(BufferHandler(7), buf_id);
            assert_eq!(12, version);
            assert_eq!("a\nb", content_change.text);
            let r = content_change.range.unwrap();
            assert_eq!(Position::new(1, 0), r.start);
            assert_eq!(Position::new(3, 0), r.end);
        }
        other => panic!("unexpected event {:?}", other),
    }
}

#[test]
fn editor_message_errors() {
    let not_buffer = NvimMessage::RpcNotification {
        method: String::from("nvim_buf_detach_event"),
        params: MsgValue::Array(vec![MsgValue::Ext(1, vec![7])]),
    };
    assert!(matches!(to_event(&not_buffer), Err(EditorError::UnexpectedResponse(_))));
    let bad_args = NvimMessage::RpcNotification {
        method: String::from("hover"),
        params: MsgValue::Array(vec![MsgValue::UInt(1)]),
    };
    assert!(matches!(to_event(&bad_args), Err(EditorError::Parse(_))));
    let relative = NvimMessage::RpcNotification {
        method: String::from("did_open"),
        params: MsgValue::Array(vec![MsgValue::UInt(1), s("abc/d.rs")]),
    };
    assert!(matches!(to_event(&relative), Err(EditorError::Parse(_))));
    let unknown = NvimMessage::RpcNotification { method: String::from("frobnicate"), params: MsgValue::Nil };
    assert!(matches!(to_event(&unknown), Err(EditorError::UnexpectedMessage(_))));
    let response = NvimMessage::RpcResponse { msgid: 1, error: MsgValue::Nil, result: MsgValue::Nil };
    assert!(matches!(to_event(&response), Err(EditorError::UnexpectedMessage(_))));
    let no_tick = NvimMessage::RpcNotification {
        method: String::from("nvim_buf_lines_event"),
        params: MsgValue::Array(vec![
            MsgValue::Ext(0, vec![7]),
            MsgValue::Nil,
            MsgValue::UInt(0),
            MsgValue::UInt(1),
            MsgValue::Array(vec![]),
        ]),
    };
    assert!(matches!(to_event(&no_tick), Err(EditorError::UnexpectedResponse(_))));
}

#[test]
fn hover_and_references_events() {
    let pos = MsgValue::Entries(vec![(s("line"), MsgValue::UInt(10)), (s("character"), MsgValue::UInt(4))]);
    let hover = NvimMessage::RpcNotification {
        method: String::from("hover"),
        params: MsgValue::Array(vec![MsgValue::UInt(1), s("/proj/src/a.rs"), pos]),
    };
    match to_event(&hover).unwrap() {
        Event::Hover { buf_id, text_document, position } => {
            assert_eq!(BufferHandler(1), buf_id);
            assert_eq!("file:///proj/src/a.rs", text_document.url);
            assert_eq!(Position::new(10, 4), position);
        }
        other => panic!("unexpected event {:?}", other),
    }
    let pos = MsgValue::Entries(vec![(s("character"), MsgValue::UInt(2)), (s("line"), MsgValue::UInt(3))]);
    let refs = NvimMessage::RpcNotification {
        method: String::from("references"),
        params: MsgValue::Array(vec![MsgValue::UInt(2), s("/x.rs"), pos, MsgValue::Boolean(true)]),
    };
    match to_event(&refs).unwrap() {
        Event::References { buf_id, position, include_declaration, .. } => {
            assert_eq!(BufferHandler(2), buf_id);
            assert_eq!(Position::new(3, 2), position);
            assert!(include_declaration);
        }
        other => panic!("unexpected event {:?}", other),
    }
}

#[test]
fn handles_of_each_width() {
    assert_eq!(Some(NvimHandle::Window(lspc::nvim::WindowHandler(-1))), decode_handle(1, &vec![0xff]));
    assert_eq!(Some(NvimHandle::Buffer(BufferHandler(0x0201))), decode_handle(0, &vec![1, 2]));
    assert_eq!(
        Some(NvimHandle::Tabpage(lspc::nvim::TabpageHandler(-2))),
        decode_handle(2, &vec![0xfe, 0xff, 0xff, 0xff])
    );
    assert_eq!(Some(NvimHandle::Buffer(BufferHandler(i64::MIN))), decode_handle(0, &vec![0, 0, 0, 0, 0, 0, 0, 0x80]));
    assert_eq!(None, decode_handle(0, &vec![1, 2, 3]));
    assert_eq!(None, decode_handle(3, &vec![1]));
    let h = NvimHandle::Buffer(BufferHandler(-5));
    assert!(h.is_buf() && !h.is_win() && !h.is_tab());
    assert_eq!(BufferHandler(-5), h.unwrap_buf());
}
