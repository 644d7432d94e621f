//! The events that the editor sends to the broker, and how they are read
//! from the editor's notifications.
use vstd::prelude::*;
use crate::edits::{Position, Range, joined, lines_view, join_lines};
use crate::nvim::{
    MsgValue, NvimMessage, NvimHandle, BufferHandler, int_of, elements, handle_of, same_text,
    as_i64, decode_handle,
};

verus! {

/// The URL that `url::Url::from_file_path` makes of an absolute path, as text.
pub uninterp spec fn file_url_text(path: Seq<char>) -> Seq<char>;

/// The path part of the URL that `url::Url::from_file_path` makes of an absolute path.
pub uninterp spec fn file_url_path(path: Seq<char>) -> Seq<char>;

/// Whether a path is absolute: on Unix, whether it starts at the root.
pub open spec fn is_absolute(path: Seq<char>) -> bool {
    path.len() > 0 && path[0] == '/'
}

/// Relies on `url::Url::from_file_path`, which fails exactly on a path that
/// is not absolute, and on `Url::as_str` and `Url::path` of its result, which
/// depend on the path alone.
#[verifier::external_body]
fn file_url(path: &str) -> (r: Option<(String, String)>)
    ensures
        r is Some <==> is_absolute(path@),
        match r {
            Some((text, p)) => text@ == file_url_text(path@) && p@ == file_url_path(path@),
            None => true,
        },
{
    match url::Url::from_file_path(path) {
        Ok(u) => Some((u.as_str().to_owned(), u.path().to_owned())),
        Err(_) => None,
    }
}

/// A document, named by its file URL.
#[derive(Debug)]
pub struct DocumentUri {
    /// The whole URL.
    pub url: String,
    /// Its path part.
    pub path: String,
}

pub struct UriModel {
    pub url: Seq<char>,
    pub path: Seq<char>,
}

impl View for DocumentUri {
    type V = UriModel;

    open spec fn view(&self) -> UriModel {
        UriModel { url: self.url@, path: self.path@ }
    }
}

/// The document at an absolute path.
pub open spec fn uri_of_path(path: Seq<char>) -> UriModel {
    UriModel { url: file_url_text(path), path: file_url_path(path) }
}

impl DocumentUri {
    /// The document at `path`; `None` where the path is not absolute.
    pub fn from_path(path: &str) -> (r: Option<DocumentUri>)
        ensures
            r is Some <==> is_absolute(path@),
            r is Some ==> r->0@ == uri_of_path(path@),
    {
        match file_url(path) {
            Some((url, p)) => Some(DocumentUri { url, path: p }),
            None => None,
        }
    }

    pub fn duplicate(&self) -> (r: DocumentUri)
        ensures
            r@ == self@,
    {
        DocumentUri { url: self.url.clone(), path: self.path.clone() }
    }
}

/// How a language server is started, as the editor asks for it.
#[derive(Debug)]
pub struct LsConfig {
    pub command: Vec<String>,
    pub root_markers: Vec<String>,
    pub indentation: u64,
    pub indentation_with_space: bool,
}

pub struct LsConfigModel {
    pub command: Seq<Seq<char>>,
    pub root_markers: Seq<Seq<char>>,
    pub indentation: u64,
    pub indentation_with_space: bool,
}

impl View for LsConfig {
    type V = LsConfigModel;

    open spec fn view(&self) -> LsConfigModel {
        LsConfigModel {
            command: lines_view(self.command@),
            root_markers: lines_view(self.root_markers@),
            indentation: self.indentation,
            indentation_with_space: self.indentation_with_space,
        }
    }
}

/// The indentation where the editor gives none.
pub const DEFAULT_INDENTATION: u64 = 4;

/// A change of a document: the range replaced (none: the whole text) and the
/// text put there.
#[derive(Debug)]
pub struct ContentChange {
    pub range: Option<Range>,
    pub text: String,
}

pub struct ChangeModel {
    pub range: Option<Range>,
    pub text: Seq<char>,
}

impl View for ContentChange {
    type V = ChangeModel;

    open spec fn view(&self) -> ChangeModel {
        ChangeModel { range: self.range, text: self.text@ }
    }
}

impl ContentChange {
    pub fn duplicate(&self) -> (r: ContentChange)
        ensures
            r@ == self@,
    {
        ContentChange { range: self.range, text: self.text.clone() }
    }
}

/// What the editor asks of the broker.
#[derive(Debug)]
pub enum Event {
    Hello,
    StartServer { lang_id: String, config: LsConfig, cur_path: String },
    Hover { buf_id: BufferHandler, text_document: DocumentUri, position: Position },
    GotoDefinition { buf_id: BufferHandler, text_document: DocumentUri, position: Position },
    InlayHints { buf_id: BufferHandler, text_document: DocumentUri },
    FormatDoc { buf_id: BufferHandler, text_document: DocumentUri, text_document_lines: Vec<String> },
    References {
        buf_id: BufferHandler,
        text_document: DocumentUri,
        position: Position,
        include_declaration: bool,
    },
    DidOpen { buf_id: BufferHandler, text_document: DocumentUri },
    DidChange { buf_id: BufferHandler, version: i64, content_change: ContentChange },
    DidClose { buf_id: BufferHandler },
}

pub enum EventModel {
    Hello,
    StartServer { lang_id: Seq<char>, config: LsConfigModel, cur_path: Seq<char> },
    Hover { buf_id: BufferHandler, text_document: UriModel, position: Position },
    GotoDefinition { buf_id: BufferHandler, text_document: UriModel, position: Position },
    InlayHints { buf_id: BufferHandler, text_document: UriModel },
    FormatDoc { buf_id: BufferHandler, text_document: UriModel, text_document_lines: Seq<Seq<char>> },
    References {
        buf_id: BufferHandler,
        text_document: UriModel,
        position: Position,
        include_declaration: bool,
    },
    DidOpen { buf_id: BufferHandler, text_document: UriModel },
    DidChange { buf_id: BufferHandler, version: i64, content_change: ChangeModel },
    DidClose { buf_id: BufferHandler },
}

impl View for Event {
    type V = EventModel;

    open spec fn view(&self) -> EventModel {
        match self {
            Event::Hello => EventModel::Hello,
            Event::StartServer { lang_id, config, cur_path } => EventModel::StartServer {
                lang_id: lang_id@,
                config: config@,
                cur_path: cur_path@,
            },
            Event::Hover { buf_id, text_document, position } => EventModel::Hover {
                buf_id: *buf_id,
                text_document: text_document@,
                position: *position,
            },
            Event::GotoDefinition { buf_id, text_document, position } => EventModel::GotoDefinition {
                buf_id: *buf_id,
                text_document: text_document@,
                position: *position,
            },
            Event::InlayHints { buf_id, text_document } => EventModel::InlayHints {
                buf_id: *buf_id,
                text_document: text_document@,
            },
            Event::FormatDoc { buf_id, text_document, text_document_lines } => EventModel::FormatDoc {
                buf_id: *buf_id,
                text_document: text_document@,
                text_document_lines: lines_view(text_document_lines@),
            },
            Event::References { buf_id, text_document, position, include_declaration } =>
                EventModel::References {
                buf_id: *buf_id,
                text_document: text_document@,
                position: *position,
                include_declaration: *include_declaration,
            },
            Event::DidOpen { buf_id, text_document } => EventModel::DidOpen {
                buf_id: *buf_id,
                text_document: text_document@,
            },
            Event::DidChange { buf_id, version, content_change } => EventModel::DidChange {
                buf_id: *buf_id,
                version: *version,
                content_change: content_change@,
            },
            Event::DidClose { buf_id } => EventModel::DidClose { buf_id: *buf_id },
        }
    }
}

/// An error met while talking to the editor.
#[derive(Debug)]
pub enum EditorError {
    Timeout,
    Parse(String),
    CommandDataInvalid(String),
    UnexpectedResponse(String),
    UnexpectedMessage(String),
    Failed(String),
    RootPathNotFound,
}

/// Why an editor message gives no event.
pub enum RejectKind {
    /// The arguments do not have the shape that the method asks for.
    Parse,
    /// The arguments have the shape, but name something the broker does not take.
    UnexpectedResponse,
    /// The message is not a notification the broker knows.
    UnexpectedMessage,
}

pub open spec fn reject_kind(e: EditorError) -> Option<RejectKind> {
    match e {
        EditorError::Parse(_) => Some(RejectKind::Parse),
        EditorError::UnexpectedResponse(_) => Some(RejectKind::UnexpectedResponse),
        EditorError::UnexpectedMessage(_) => Some(RejectKind::UnexpectedMessage),
        _ => None,
    }
}

// ---------------------------------------------------------------------------
// Reading arguments.

pub open spec fn str_of(v: MsgValue) -> Option<Seq<char>> {
    match v {
        MsgValue::Str(s) => Some(s@),
        _ => None,
    }
}

pub open spec fn bool_of(v: MsgValue) -> Option<bool> {
    match v {
        MsgValue::Boolean(b) => Some(b),
        _ => None,
    }
}

pub open spec fn i64_of(v: MsgValue) -> Option<i64> {
    match int_of(v) {
        Some(n) => if i64::MIN <= n <= i64::MAX { Some(n as i64) } else { None },
        None => None,
    }
}

pub open spec fn u32_of(v: MsgValue) -> Option<u32> {
    match int_of(v) {
        Some(n) => if 0 <= n <= u32::MAX { Some(n as u32) } else { None },
        None => None,
    }
}

pub open spec fn u64_of(v: MsgValue) -> Option<u64> {
    match int_of(v) {
        Some(n) => if 0 <= n <= u64::MAX { Some(n as u64) } else { None },
        None => None,
    }
}

/// The strings of an array of strings.
pub open spec fn strs_of(v: MsgValue) -> Option<Seq<Seq<char>>> {
    match elements(v) {
        Some(e) => if forall|i: int| 0 <= i < e.len() ==> (#[trigger] e[i]) is Str {
            Some(e.map_values(|x: MsgValue| str_of(x)->0))
        } else {
            None
        },
        None => None,
    }
}

/// The value of the first entry whose key is the string `key`.
pub open spec fn lookup(entries: Seq<(MsgValue, MsgValue)>, key: Seq<char>) -> Option<MsgValue>
    decreases entries.len(),
{
    if entries.len() == 0 {
        None
    } else if str_of(entries[0].0) == Some(key) {
        Some(entries[0].1)
    } else {
        lookup(entries.drop_first(), key)
    }
}

pub open spec fn field(v: MsgValue, key: Seq<char>) -> Option<MsgValue> {
    match v {
        MsgValue::Entries(e) => lookup(e@, key),
        _ => None,
    }
}

pub open spec fn is_map(v: MsgValue) -> bool {
    v is Entries
}

/// A position written as a map with the keys `line` and `character`.
pub open spec fn position_of(v: MsgValue) -> Option<Position> {
    match (field(v, "line"@), field(v, "character"@)) {
        (Some(l), Some(c)) => match (u32_of(l), u32_of(c)) {
            (Some(line), Some(character)) => Some(Position { line, character }),
            _ => None,
        },
        _ => None,
    }
}

/// A server configuration written as a map: `command` and `root_markers`
/// arrays of strings, `indentation` a number (4 where it is missing) and
/// `indentation_with_space` a boolean (false where it is missing).
pub open spec fn ls_config_of(v: MsgValue) -> Option<LsConfigModel> {
    if !is_map(v) {
        None
    } else {
        let command = match field(v, "command"@) {
            Some(c) => strs_of(c),
            None => None,
        };
        let markers = match field(v, "root_markers"@) {
            Some(c) => strs_of(c),
            None => None,
        };
        let indentation = match field(v, "indentation"@) {
            Some(c) => u64_of(c),
            None => Some(DEFAULT_INDENTATION),
        };
        let with_space = match field(v, "indentation_with_space"@) {
            Some(c) => bool_of(c),
            None => Some(false),
        };
        match (command, markers, indentation, with_space) {
            (Some(c), Some(m), Some(i), Some(w)) => Some(
                LsConfigModel {
                    command: c,
                    root_markers: m,
                    indentation: i,
                    indentation_with_space: w,
                },
            ),
            _ => None,
        }
    }
}

/// A document written as an absolute path.
pub open spec fn document_of(v: MsgValue) -> Option<UriModel> {
    match str_of(v) {
        Some(p) => if is_absolute(p) { Some(uri_of_path(p)) } else { None },
        None => None,
    }
}

pub open spec fn handle_value(v: MsgValue) -> Option<NvimHandle> {
    match v {
        MsgValue::Ext(tag, bytes) => handle_of(tag, bytes@),
        _ => None,
    }
}

fn str_from(v: &MsgValue) -> (r: Option<String>)
    ensures
        match r {
            Some(s) => str_of(*v) == Some(s@),
            None => str_of(*v) is None,
        },
{
    match v {
        MsgValue::Str(s) => Some(s.clone()),
        _ => None,
    }
}

fn bool_from(v: &MsgValue) -> (r: Option<bool>)
    ensures
        r == bool_of(*v),
{
    match v {
        MsgValue::Boolean(b) => Some(*b),
        _ => None,
    }
}

fn u32_from(v: &MsgValue) -> (r: Option<u32>)
    ensures
        r == u32_of(*v),
{
    match v {
        MsgValue::UInt(n) => if *n <= u32::MAX as u64 {
            Some(*n as u32)
        } else {
            None
        },
        MsgValue::NegInt(n) => if 0 <= *n && *n <= u32::MAX as i64 {
            Some(*n as u32)
        } else {
            None
        },
        _ => None,
    }
}

fn u64_from(v: &MsgValue) -> (r: Option<u64>)
    ensures
        r == u64_of(*v),
{
    match v {
        MsgValue::UInt(n) => Some(*n),
        MsgValue::NegInt(n) => if *n >= 0 {
            Some(*n as u64)
        } else {
            None
        },
        _ => None,
    }
}

fn strs_from(v: &MsgValue) -> (r: Option<Vec<String>>)
    ensures
        match r {
            Some(s) => strs_of(*v) == Some(lines_view(s@)),
            None => strs_of(*v) is None,
        },
{
    let items = match v {
        MsgValue::Array(items) => items,
        _ => {
            return None;
        },
    };
    let ghost e = items@;
    let mut out: Vec<String> = Vec::new();
    let mut i: usize = 0;
    while i < items.len()
        invariant
            i <= items.len(),
            e == items@,
            elements(*v) == Some(e),
            out@.len() == i,
            forall|k: int| 0 <= k < i ==> (#[trigger] e[k]) is Str,
            forall|k: int| 0 <= k < i ==> str_of(e[k]) == Some((#[trigger] out@[k])@),
        decreases items.len() - i,
    {
        match &items[i] {
            MsgValue::Str(s) => {
                out.push(s.clone());
            },
            _ => {
                assert(!(e[i as int] is Str));
                assert(elements(*v) == Some(e));
                assert(!(forall|k: int| 0 <= k < e.len() ==> (#[trigger] e[k]) is Str));
                return None;
            },
        }
        i = i + 1;
    }
    assert(lines_view(out@) =~= e.map_values(|x: MsgValue| str_of(x)->0));
    Some(out)
}

fn lookup_in<'a>(entries: &'a Vec<(MsgValue, MsgValue)>, key: &str) -> (r: Option<&'a MsgValue>)
    ensures
        match r {
            Some(x) => lookup(entries@, key@) == Some(*x),
            None => lookup(entries@, key@) is None,
        },
{
    let mut i: usize = 0;
    assert(entries@.subrange(0, entries@.len() as int) =~= entries@);
    while i < entries.len()
        invariant
            i <= entries.len(),
            lookup(entries@, key@) == lookup(entries@.subrange(i as int, entries@.len() as int), key@),
        decreases entries.len() - i,
    {
        let ghost rest = entries@.subrange(i as int, entries@.len() as int);
        assert(rest.drop_first() =~= entries@.subrange(i as int + 1, entries@.len() as int));
        let (k, x) = &entries[i];
        match k {
            MsgValue::Str(s) => {
                if same_text(s.as_str(), key) {
                    return Some(x);
                }
            },
            _ => {},
        }
        i = i + 1;
    }
    None
}

fn field_from<'a>(v: &'a MsgValue, key: &str) -> (r: Option<&'a MsgValue>)
    ensures
        match r {
            Some(x) => field(*v, key@) == Some(*x),
            None => field(*v, key@) is None,
        },
{
    match v {
        MsgValue::Entries(e) => lookup_in(e, key),
        _ => None,
    }
}

fn position_from(v: &MsgValue) -> (r: Option<Position>)
    ensures
        r == position_of(*v),
{
    let l = field_from(v, "line");
    let c = field_from(v, "character");
    match (l, c) {
        (Some(l), Some(c)) => match (u32_from(l), u32_from(c)) {
            (Some(line), Some(character)) => Some(Position { line, character }),
            _ => None,
        },
        _ => None,
    }
}

/// The server configuration that `v` writes.
pub fn ls_config_from(v: &MsgValue) -> (r: Option<LsConfig>)
    ensures
        match r {
            Some(c) => ls_config_of(*v) == Some(c@),
            None => ls_config_of(*v) is None,
        },
{
    if !(match v {
        MsgValue::Entries(_) => true,
        _ => false,
    }) {
        return None;
    }
    let command = match field_from(v, "command") {
        Some(c) => strs_from(c),
        None => None,
    };
    let markers = match field_from(v, "root_markers") {
        Some(c) => strs_from(c),
        None => None,
    };
    let indentation = match field_from(v, "indentation") {
        Some(c) => u64_from(c),
        None => Some(DEFAULT_INDENTATION),
    };
    let with_space = match field_from(v, "indentation_with_space") {
        Some(c) => bool_from(c),
        None => Some(false),
    };
    match (command, markers, indentation, with_space) {
        (Some(c), Some(m), Some(i), Some(w)) => Some(
            LsConfig { command: c, root_markers: m, indentation: i, indentation_with_space: w },
        ),
        _ => None,
    }
}

fn document_from(v: &MsgValue) -> (r: Option<DocumentUri>)
    ensures
        match r {
            Some(d) => document_of(*v) == Some(d@),
            None => document_of(*v) is None,
        },
{
    match v {
        MsgValue::Str(p) => DocumentUri::from_path(p.as_str()),
        _ => None,
    }
}

fn handle_from(v: &MsgValue) -> (r: Option<NvimHandle>)
    ensures
        r == handle_value(*v),
{
    match v {
        MsgValue::Ext(tag, bytes) => decode_handle(*tag, bytes),
        _ => None,
    }
}


/// The elements of `params`, where it is an array of `n` of them.
pub open spec fn args(params: MsgValue, n: nat) -> Option<Seq<MsgValue>> {
    match elements(params) {
        Some(e) => if e.len() == n { Some(e) } else { None },
        None => None,
    }
}

/// A line number of a buffer-lines event: a negative one (the end of the
/// buffer) or one past what a `u32` holds counts as the last line there can be.
pub open spec fn line_of(v: MsgValue) -> Option<u32> {
    match i64_of(v) {
        Some(n) => Some(if 0 <= n <= u32::MAX { n as u32 } else { u32::MAX }),
        None => None,
    }
}

fn line_from(v: &MsgValue) -> (r: Option<u32>)
    ensures
        r == line_of(*v),
{
    match as_i64(v) {
        Some(n) => Some(if 0 <= n && n <= u32::MAX as i64 { n as u32 } else { u32::MAX }),
        None => None,
    }
}

/// The change counter of a buffer-lines event: nil or a number.
pub open spec fn tick_of(v: MsgValue) -> Option<Option<i64>> {
    match v {
        MsgValue::Nil => Some(None),
        _ => match i64_of(v) {
            Some(n) => Some(Some(n)),
            None => None,
        },
    }
}

/// A position, a buffer, a document; the shape shared by hover and goto-definition.
pub open spec fn located(a: Seq<MsgValue>) -> Option<(BufferHandler, UriModel, Position)> {
    match (i64_of(a[0]), document_of(a[1]), position_of(a[2])) {
        (Some(b), Some(d), Some(p)) => Some((BufferHandler(b), d, p)),
        _ => None,
    }
}

/// A buffer and a document; the shape of inlay-hints and did-open.
pub open spec fn in_document(a: Seq<MsgValue>) -> Option<(BufferHandler, UriModel)> {
    match (i64_of(a[0]), document_of(a[1])) {
        (Some(b), Some(d)) => Some((BufferHandler(b), d)),
        _ => None,
    }
}

/// The event that an editor message asks for, or why there is none.
pub open spec fn event_of(m: NvimMessage) -> Result<EventModel, RejectKind> {
    match m {
        NvimMessage::RpcNotification { method, params } => {
            let name = method@;
            if name == "hello"@ {
                Ok(EventModel::Hello)
            } else if name == "start_lang_server"@ {
                match args(params, 3) {
                    Some(a) => match (str_of(a[0]), ls_config_of(a[1]), str_of(a[2])) {
                        (Some(lang_id), Some(config), Some(cur_path)) => Ok(
                            EventModel::StartServer { lang_id, config, cur_path },
                        ),
                        _ => Err(RejectKind::Parse),
                    },
                    None => Err(RejectKind::Parse),
                }
            } else if name == "hover"@ || name == "goto_definition"@ {
                match args(params, 3) {
                    Some(a) => match located(a) {
                        Some((buf_id, text_document, position)) => if name == "hover"@ {
                            Ok(EventModel::Hover { buf_id, text_document, position })
                        } else {
                            Ok(EventModel::GotoDefinition { buf_id, text_document, position })
                        },
                        None => Err(RejectKind::Parse),
                    },
                    None => Err(RejectKind::Parse),
                }
            } else if name == "inlay_hints"@ || name == "did_open"@ {
                match args(params, 2) {
                    Some(a) => match in_document(a) {
                        Some((buf_id, text_document)) => if name == "inlay_hints"@ {
                            Ok(EventModel::InlayHints { buf_id, text_document })
                        } else {
                            Ok(EventModel::DidOpen { buf_id, text_document })
                        },
                        None => Err(RejectKind::Parse),
                    },
                    None => Err(RejectKind::Parse),
                }
            } else if name == "format_doc"@ {
                match args(params, 3) {
                    Some(a) => match (in_document(a), strs_of(a[2])) {
                        (Some((buf_id, text_document)), Some(lines)) => Ok(
                            EventModel::FormatDoc { buf_id, text_document, text_document_lines: lines },
                        ),
                        _ => Err(RejectKind::Parse),
                    },
                    None => Err(RejectKind::Parse),
                }
            } else if name == "references"@ {
                match args(params, 4) {
                    Some(a) => match (located(a), bool_of(a[3])) {
                        (Some((buf_id, text_document, position)), Some(include_declaration)) => Ok(
                            EventModel::References {
                                buf_id,
                                text_document,
                                position,
                                include_declaration,
                            },
                        ),
                        _ => Err(RejectKind::Parse),
                    },
                    None => Err(RejectKind::Parse),
                }
            } else if name == "nvim_buf_lines_event"@ {
                match elements(params) {
                    Some(a) => if a.len() == 5 || a.len() == 6 {
                        match (
                            handle_value(a[0]),
                            tick_of(a[1]),
                            line_of(a[2]),
                            line_of(a[3]),
                            strs_of(a[4]),
                        ) {
                            (Some(h), Some(tick), Some(first), Some(last), Some(lines)) => {
                                if !(h is Buffer) || tick is None {
                                    Err(RejectKind::UnexpectedResponse)
                                } else {
                                    Ok(
                                        EventModel::DidChange {
                                            buf_id: h->Buffer_0,
                                            version: tick->0,
                                            content_change: ChangeModel {
                                                range: Some(
                                                    Range {
                                                        start: Position { line: first, character: 0 },
                                                        end: Position { line: last, character: 0 },
                                                    },
                                                ),
                                                text: joined(lines),
                                            },
                                        },
                                    )
                                }
                            },
                            _ => Err(RejectKind::Parse),
                        }
                    } else {
                        Err(RejectKind::Parse)
                    },
                    None => Err(RejectKind::Parse),
                }
            } else if name == "nvim_buf_detach_event"@ {
                match args(params, 1) {
                    Some(a) => match handle_value(a[0]) {
                        Some(h) => if h is Buffer {
                            Ok(EventModel::DidClose { buf_id: h->Buffer_0 })
                        } else {
                            Err(RejectKind::UnexpectedResponse)
                        },
                        None => Err(RejectKind::Parse),
                    },
                    None => Err(RejectKind::Parse),
                }
            } else {
                Err(RejectKind::UnexpectedMessage)
            }
        },
        _ => Err(RejectKind::UnexpectedMessage),
    }
}

fn args_from(params: &MsgValue, n: usize) -> (r: Option<&Vec<MsgValue>>)
    ensures
        match r {
            Some(a) => args(*params, n as nat) == Some(a@),
            None => args(*params, n as nat) is None,
        },
{
    match params {
        MsgValue::Array(items) => if items.len() == n {
            Some(items)
        } else {
            None
        },
        _ => None,
    }
}

fn i64_from(v: &MsgValue) -> (r: Option<i64>)
    ensures
        r == i64_of(*v),
{
    as_i64(v)
}

fn tick_from(v: &MsgValue) -> (r: Option<Option<i64>>)
    ensures
        r == tick_of(*v),
{
    match v {
        MsgValue::Nil => Some(None),
        _ => match as_i64(v) {
            Some(n) => Some(Some(n)),
            None => None,
        },
    }
}

fn located_from(a: &Vec<MsgValue>) -> (r: Option<(BufferHandler, DocumentUri, Position)>)
    requires
        a@.len() >= 3,
    ensures
        match r {
            Some((b, d, p)) => located(a@) == Some((b, d@, p)),
            None => located(a@) is None,
        },
{
    match (i64_from(&a[0]), document_from(&a[1]), position_from(&a[2])) {
        (Some(b), Some(d), Some(p)) => Some((BufferHandler(b), d, p)),
        _ => None,
    }
}

fn in_document_from(a: &Vec<MsgValue>) -> (r: Option<(BufferHandler, DocumentUri)>)
    requires
        a@.len() >= 2,
    ensures
        match r {
            Some((b, d)) => in_document(a@) == Some((b, d@)),
            None => in_document(a@) is None,
        },
{
    match (i64_from(&a[0]), document_from(&a[1])) {
        (Some(b), Some(d)) => Some((BufferHandler(b), d)),
        _ => None,
    }
}

fn parse_error(what: &str) -> (r: EditorError)
    ensures
        reject_kind(r) == Some(RejectKind::Parse),
{
    EditorError::Parse(what.to_owned())
}

fn unexpected_response(what: &str) -> (r: EditorError)
    ensures
        reject_kind(r) == Some(RejectKind::UnexpectedResponse),
{
    EditorError::UnexpectedResponse(what.to_owned())
}

/// The event that an editor message asks for. A response or request, or a
/// notification of an unknown method, is an unexpected message; arguments of
/// the wrong shape are a parse error; a buffer-lines or detach event about
/// something other than a buffer, or a buffer-lines event without a change
/// counter, is an unexpected response.
pub fn to_event(msg: &NvimMessage) -> (r: Result<Event, EditorError>)
    ensures
        match r {
            Ok(ev) => event_of(*msg) == Ok::<EventModel, RejectKind>(ev@),
            Err(e) => event_of(*msg) is Err && reject_kind(e) == Some(event_of(*msg)->Err_0),
        },
{
    let (method, params) = match msg {
        NvimMessage::RpcNotification { method, params } => (method, params),
        _ => {
            return Err(EditorError::UnexpectedMessage("not a notification".to_owned()));
        },
    };
    let name = method.as_str();
    if same_text(name, "hello") {
        Ok(Event::Hello)
    } else if same_text(name, "start_lang_server") {
        let a = match args_from(params, 3) {
            Some(a) => a,
            None => {
                return Err(parse_error("failed to parse start lang server params"));
            },
        };
        match (str_from(&a[0]), ls_config_from(&a[1]), str_from(&a[2])) {
            (Some(lang_id), Some(config), Some(cur_path)) => Ok(
                Event::StartServer { lang_id, config, cur_path },
            ),
            _ => Err(parse_error("failed to parse start lang server params")),
        }
    } else if same_text(name, "hover") || same_text(name, "goto_definition") {
        let a = match args_from(params, 3) {
            Some(a) => a,
            None => {
                return Err(parse_error("failed to parse position params"));
            },
        };
        match located_from(a) {
            Some((buf_id, text_document, position)) => if same_text(name, "hover") {
                Ok(Event::Hover { buf_id, text_document, position })
            } else {
                Ok(Event::GotoDefinition { buf_id, text_document, position })
            },
            None => Err(parse_error("failed to parse position params")),
        }
    } else if same_text(name, "inlay_hints") || same_text(name, "did_open") {
        let a = match args_from(params, 2) {
            Some(a) => a,
            None => {
                return Err(parse_error("failed to parse document params"));
            },
        };
        match in_document_from(a) {
            Some((buf_id, text_document)) => if same_text(name, "inlay_hints") {
                Ok(Event::InlayHints { buf_id, text_document })
            } else {
                Ok(Event::DidOpen { buf_id, text_document })
            },
            None => Err(parse_error("failed to parse document params")),
        }
    } else if same_text(name, "format_doc") {
        let a = match args_from(params, 3) {
            Some(a) => a,
            None => {
                return Err(parse_error("failed to parse format params"));
            },
        };
        match (in_document_from(a), strs_from(&a[2])) {
            (Some((buf_id, text_document)), Some(lines)) => Ok(
                Event::FormatDoc { buf_id, text_document, text_document_lines: lines },
            ),
            _ => Err(parse_error("failed to parse format params")),
        }
    } else if same_text(name, "references") {
        let a = match args_from(params, 4) {
            Some(a) => a,
            None => {
                return Err(parse_error("failed to parse references params"));
            },
        };
        match (located_from(a), bool_from(&a[3])) {
            (Some((buf_id, text_document, position)), Some(include_declaration)) => Ok(
                Event::References { buf_id, text_document, position, include_declaration },
            ),
            _ => Err(parse_error("failed to parse references params")),
        }
    } else if same_text(name, "nvim_buf_lines_event") {
        let a = match params {
            MsgValue::Array(items) => items,
            _ => {
                return Err(parse_error("failed to parse nvim_buf_lines_event params"));
            },
        };
        if !(a.len() == 5 || a.len() == 6) {
            return Err(parse_error("failed to parse nvim_buf_lines_event params"));
        }
        match (handle_from(&a[0]), tick_from(&a[1]), line_from(&a[2]), line_from(&a[3]), strs_from(&a[4])) {
            (Some(h), Some(tick), Some(first), Some(last), Some(lines)) => {
                if !h.is_buf() {
                    return Err(unexpected_response("Expect buffer handler"));
                }
                let version = match tick {
                    Some(t) => t,
                    None => {
                        return Err(unexpected_response("Not support null changedtick"));
                    },
                };
                let text = join_lines(&lines);
                let content_change = ContentChange {
                    range: Some(Range { start: Position { line: first, character: 0 }, end: Position { line: last, character: 0 } }),
                    text,
                };
                Ok(Event::DidChange { buf_id: h.unwrap_buf(), version, content_change })
            },
            _ => Err(parse_error("failed to parse nvim_buf_lines_event params")),
        }
    } else if same_text(name, "nvim_buf_detach_event") {
        let a = match args_from(params, 1) {
            Some(a) => a,
            None => {
                return Err(parse_error("failed to parse nvim_buf_detach_event params"));
            },
        };
        match handle_from(&a[0]) {
            Some(h) => if h.is_buf() {
                Ok(Event::DidClose { buf_id: h.unwrap_buf() })
            } else {
                Err(unexpected_response("Expect buffer handler"))
            },
            None => Err(parse_error("failed to parse nvim_buf_detach_event params")),
        }
    } else {
        Err(EditorError::UnexpectedMessage("unexpected notification".to_owned()))
    }
}

} // verus!
