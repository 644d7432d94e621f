//! The broker: the language-server handlers, the open documents, and what
//! happens on each editor event, server reply and timer tick. The calls it
//! makes on the editor and the messages for each server are queued for the
//! application to carry out.
use vstd::prelude::*;
use crate::edits::{
    apply_edits, edits_fit, split_lines, lines_view, all_no_newline, joined, applied, edits_view,
    edits_in_bounds,
};
use crate::events::{
    ChangeModel, ContentChange, DocumentUri, EditorError, Event, LsConfig, UriModel, file_url_text,
    is_absolute,
};
use crate::handler::{
    LangServerError, LangServerHandler, LangSettings, path_has_prefix, sync_kind_of, is_pending,
};
use crate::nvim::BufferHandler;
use crate::protocol::{
    Callback, EditorCall, LspOutgoing, LspParams, LspReply, ResponseAction, DefinitionReply,
    SyncKind, reply_fits,
};
use crate::tracking::{
    TrackingFile, SYNC_DELAY_MS, SyncModel, changes_view, schedule_after, tracked_after,
};

verus! {

/// The milliseconds between two timer ticks.
pub const TIMER_TICK_MS: u64 = 100;

#[derive(Debug)]
pub enum MainLoopError {
    /// The broker dropped a message it could not route.
    IgnoredMessage,
}

#[derive(Debug)]
pub enum LspcError {
    Editor(EditorError),
    LangServer(LangServerError),
    MainLoop(MainLoopError),
    /// No server is started for the language asked for.
    NotStarted,
}

/// Whether a handler of `hs` serves `f` and has `f`'s path under its root.
pub open spec fn file_covered(hs: Seq<LangServerHandler>, f: TrackingFile) -> bool {
    exists|k: int|
        0 <= k < hs.len() && (#[trigger] hs[k]).handler_id() == f.handler() && path_has_prefix(
            f.document().path,
            hs[k].root(),
        )
}

/// How a handler changed by a request with `params`, whose callback meets `action_ok`.
pub open spec fn request_made(
    h0: LangServerHandler,
    h1: LangServerHandler,
    params: LspParams,
    action_ok: spec_fn(ResponseAction) -> bool,
    r: Result<(), LspcError>,
) -> bool {
    &&& h1.wf()
    &&& h1.same_setup(&h0)
    &&& h1.delivered_ids() == h0.delivered_ids()
    &&& (r is Ok <==> !h0.is_disconnected() && h0.next_request_id() < u64::MAX)
    &&& r is Ok ==> {
        &&& h1.next_request_id() == h0.next_request_id() + 1
        &&& h1.outbox() == h0.outbox().push(LspOutgoing::Request { id: h0.next_request_id(), params })
        &&& h1.callbacks().len() == h0.callbacks().len() + 1
        &&& h1.callbacks().drop_last() == h0.callbacks()
        &&& h1.callbacks().last().id == h0.next_request_id()
        &&& action_ok(h1.callbacks().last().action)
    }
    &&& r is Err ==> {
        &&& r->Err_0 is LangServer
        &&& h1.outbox() == h0.outbox()
        &&& h1.callbacks() == h0.callbacks()
        &&& h1.next_request_id() == h0.next_request_id()
    }
}

/// How the broker changed by a request about the document at `url`: nothing
/// changes but the serving handler, which makes the request; an unknown
/// document is a message the broker drops.
pub open spec fn requested(
    a: Lspc,
    b: Lspc,
    url: Seq<char>,
    params_of: spec_fn(LangServerHandler) -> LspParams,
    action_ok: spec_fn(ResponseAction) -> bool,
    r: Result<(), LspcError>,
) -> bool {
    &&& b.files() == a.files()
    &&& b.calls() == a.calls()
    &&& b.last_handler_id() == a.last_handler_id()
    &&& no_file_at(a.files(), url) ==> r is Err && r->Err_0 is MainLoop && b.handlers() == a.handlers()
    &&& forall|i: int, k: int|
        first_file_at(a.files(), url, i) && handler_at(a.handlers(), a.files()[i].handler(), k) ==> {
            &&& b.handlers().len() == a.handlers().len()
            &&& forall|j: int| 0 <= j < a.handlers().len() && j != k ==> b.handlers()[j] == a.handlers()[j]
            &&& request_made(a.handlers()[k], b.handlers()[k], params_of(a.handlers()[k]), action_ok, r)
        }
}

/// Whether `k` is the first handler whose root holds `path`.
pub open spec fn covering_handler(hs: Seq<LangServerHandler>, path: Seq<char>, k: int) -> bool {
    &&& 0 <= k < hs.len()
    &&& path_has_prefix(path, hs[k].root())
    &&& forall|j: int| 0 <= j < k ==> !path_has_prefix(path, (#[trigger] hs[j]).root())
}

pub open spec fn no_covering(hs: Seq<LangServerHandler>, path: Seq<char>) -> bool {
    forall|j: int| 0 <= j < hs.len() ==> !path_has_prefix(path, (#[trigger] hs[j]).root())
}

/// What a new file keeps for a server that takes changes as `kind` says.
pub open spec fn initial_sync(kind: SyncKind) -> SyncModel {
    match kind {
        SyncKind::Off => SyncModel::Off,
        SyncKind::Incremental => SyncModel::Incremental(Seq::empty()),
        SyncKind::Full => SyncModel::Full(Seq::empty()),
    }
}

/// Whether `f` is a file just opened.
pub open spec fn fresh_file(f: TrackingFile, h: LangServerHandler, buf: BufferHandler, doc: UriModel) -> bool {
    &&& f.handler() == h.handler_id()
    &&& f.buffer() == buf
    &&& !f.opened()
    &&& f.scheduled() is None
    &&& f.current_version() == 0
    &&& f.document() == doc
    &&& f.sync() == initial_sync(sync_kind_of(h.capabilities()))
}

pub open spec fn watch_call(c: EditorCall, doc: UriModel) -> bool {
    match c {
        EditorCall::WatchFileEvents(d) => d@ == doc,
        _ => false,
    }
}

/// How the broker changed when the editor opened `doc` in buffer `buf`: the
/// first server whose root holds the path takes the file (a file already
/// open at that URL is replaced), and the editor is asked to report the
/// buffer's changes; a file no server covers is dropped.
pub open spec fn opened_doc(a: Lspc, b: Lspc, buf: BufferHandler, doc: UriModel, r: Result<(), LspcError>) -> bool {
    &&& b.handlers() == a.handlers()
    &&& b.last_handler_id() == a.last_handler_id()
    &&& no_covering(a.handlers(), doc.path) ==> {
        &&& r is Err && r->Err_0 is MainLoop
        &&& b.files() == a.files()
        &&& b.calls() == a.calls()
    }
    &&& forall|k: int| #[trigger] covering_handler(a.handlers(), doc.path, k) ==> {
        &&& r is Ok
        &&& b.calls().len() == a.calls().len() + 1
        &&& b.calls().drop_last() == a.calls()
        &&& watch_call(b.calls().last(), doc)
        &&& forall|i: int| #[trigger] first_file_at(a.files(), doc.url, i) ==> {
            &&& b.files().len() == a.files().len()
            &&& forall|j: int| 0 <= j < a.files().len() && j != i ==> b.files()[j] == a.files()[j]
            &&& fresh_file(b.files()[i], a.handlers()[k], buf, doc)
        }
        &&& no_file_at(a.files(), doc.url) ==> {
            &&& b.files().len() == a.files().len() + 1
            &&& b.files().drop_last() == a.files()
            &&& fresh_file(b.files().last(), a.handlers()[k], buf, doc)
        }
    }
}

pub open spec fn did_open_sent(m: LspOutgoing, doc: UriModel, lang: Seq<char>, version: i64, text: Seq<char>) -> bool {
    match m {
        LspOutgoing::Notification { params: LspParams::DidOpen { text_document, language_id, version: v, text: t } } => {
            &&& text_document@ == doc
            &&& language_id@ == lang
            &&& v == version
            &&& t@ == text
        },
        _ => false,
    }
}

/// The text sent with the first change of a file: the whole text where it
/// is kept, else the change's text.
pub open spec fn open_text(s: SyncModel, change: ChangeModel) -> Seq<char> {
    match s {
        SyncModel::Full(t) => t,
        _ => change.text,
    }
}

/// How the broker changed when buffer `buf` changed: its file records the
/// change; the first change sends the document to the server, a later one
/// has its changes sent `SYNC_DELAY_MS` after `now` unless a send is due
/// already. A buffer of no open file is dropped.
pub open spec fn changed_doc(
    a: Lspc,
    b: Lspc,
    buf: BufferHandler,
    version: i64,
    change: ChangeModel,
    now: u64,
    r: Result<(), LspcError>,
) -> bool {
    &&& b.calls() == a.calls()
    &&& b.last_handler_id() == a.last_handler_id()
    &&& no_file_of(a.files(), buf) ==> r is Err && r->Err_0 is MainLoop && b.files() == a.files()
        && b.handlers() == a.handlers()
    &&& forall|i: int, k: int|
        #[trigger] first_file_of(a.files(), buf, i) && #[trigger] handler_at(a.handlers(), a.files()[i].handler(), k) ==> {
            let f0 = a.files()[i];
            let f1 = b.files()[i];
            let h0 = a.handlers()[k];
            let h1 = b.handlers()[k];
            &&& b.files().len() == a.files().len()
            &&& forall|j: int| 0 <= j < a.files().len() && j != i ==> b.files()[j] == a.files()[j]
            &&& f1.current_version() == version
            &&& f1.sync() == tracked_after(f0.sync(), change)
            &&& f1.handler() == f0.handler()
            &&& f1.buffer() == f0.buffer()
            &&& f1.document() == f0.document()
            &&& b.handlers().len() == a.handlers().len()
            &&& forall|j: int| 0 <= j < a.handlers().len() && j != k ==> b.handlers()[j] == a.handlers()[j]
            &&& f0.opened() ==> {
                &&& r is Ok
                &&& f1.opened()
                &&& f1.scheduled() == schedule_after(f0.scheduled(), now, SYNC_DELAY_MS)
                &&& h1 == h0
            }
            &&& !f0.opened() ==> {
                &&& f1.scheduled() == f0.scheduled()
                &&& h1.wf()
                &&& h1.same_setup(&h0)
                &&& h1.callbacks() == h0.callbacks()
                &&& h1.next_request_id() == h0.next_request_id()
                &&& h1.issued_ids() == h0.issued_ids()
                &&& h1.delivered_ids() == h0.delivered_ids()
                &&& (r is Ok <==> !h0.is_disconnected())
                &&& r is Ok ==> f1.opened() && h1.outbox().len() == h0.outbox().len() + 1
                    && h1.outbox().drop_last() == h0.outbox() && did_open_sent(
                    h1.outbox().last(),
                    f0.document(),
                    h0.language(),
                    version,
                    open_text(tracked_after(f0.sync(), change), change),
                )
                &&& r is Err ==> !f1.opened() && h1.outbox() == h0.outbox()
            }
        }
}

/// The changes a file has not sent: none where nothing is kept or nothing
/// is queued; the whole text where it is kept.
pub open spec fn pending_of(s: SyncModel) -> Option<Seq<ChangeModel>> {
    match s {
        SyncModel::Off => None,
        SyncModel::Incremental(q) => if q.len() > 0 { Some(q) } else { None },
        SyncModel::Full(t) => Some(seq![ChangeModel { range: None, text: t }]),
    }
}

pub open spec fn did_change_sent(m: LspOutgoing, doc: UriModel, version: i64, changes: Seq<ChangeModel>) -> bool {
    match m {
        LspOutgoing::Notification { params: LspParams::DidChange(p) } => {
            &&& p.text_document@ == doc
            &&& p.version == version
            &&& changes_view(p.content_changes@) == changes
        },
        _ => false,
    }
}

pub open spec fn did_close_sent(m: LspOutgoing, doc: UriModel) -> bool {
    match m {
        LspOutgoing::Notification { params: LspParams::DidClose { text_document } } => text_document@ == doc,
        _ => false,
    }
}

/// How the broker changed when buffer `buf` closed: its pending changes and
/// then the close go to its server, and the file is forgotten. Nothing
/// changes where the server is disconnected; a buffer of no open file is
/// dropped.
pub open spec fn closed_doc(a: Lspc, b: Lspc, buf: BufferHandler, r: Result<(), LspcError>) -> bool {
    &&& b.calls() == a.calls()
    &&& b.last_handler_id() == a.last_handler_id()
    &&& no_file_of(a.files(), buf) ==> r is Err && r->Err_0 is MainLoop && b.files() == a.files()
        && b.handlers() == a.handlers()
    &&& forall|i: int, k: int|
        #[trigger] first_file_of(a.files(), buf, i) && #[trigger] handler_at(a.handlers(), a.files()[i].handler(), k) ==> {
            let f0 = a.files()[i];
            let h0 = a.handlers()[k];
            let h1 = b.handlers()[k];
            let n = h0.outbox().len();
            &&& (r is Ok <==> !h0.is_disconnected())
            &&& r is Err ==> b.files() == a.files() && b.handlers() == a.handlers()
            &&& r is Ok ==> {
                &&& b.files() == a.files().remove(i)
                &&& b.handlers().len() == a.handlers().len()
                &&& forall|j: int| 0 <= j < a.handlers().len() && j != k ==> b.handlers()[j] == a.handlers()[j]
                &&& h1.wf()
                &&& h1.same_setup(&h0)
                &&& h1.callbacks() == h0.callbacks()
                &&& h1.next_request_id() == h0.next_request_id()
                &&& h1.delivered_ids() == h0.delivered_ids()
                &&& h1.outbox().subrange(0, n as int) == h0.outbox()
                &&& did_close_sent(h1.outbox().last(), f0.document())
                &&& match pending_of(f0.sync()) {
                    Some(cs) => h1.outbox().len() == n + 2 && did_change_sent(
                        h1.outbox()[n as int],
                        f0.document(),
                        f0.current_version(),
                        cs,
                    ),
                    None => h1.outbox().len() == n + 1,
                }
            }
        }
}

pub open spec fn action_on(x: ResponseAction, doc: UriModel, hover: bool) -> bool {
    match x {
        ResponseAction::Hover { text_document } => hover && text_document@ == doc,
        ResponseAction::InlayHints { text_document } => !hover && text_document@ == doc,
        _ => false,
    }
}

pub open spec fn formatting_action(x: ResponseAction, lines: Seq<Seq<char>>) -> bool {
    match x {
        ResponseAction::Formatting { lines: l } => lines_view(l@) == lines,
        _ => false,
    }
}

/// How the broker changed on an editor event (other than starting a server).
pub open spec fn event_done(a: Lspc, b: Lspc, event: Event, now: u64, r: Result<(), LspcError>) -> bool {
    match event {
        Event::Hello => {
            &&& r is Ok
            &&& b.calls() == a.calls().push(EditorCall::SayHello)
            &&& b.handlers() == a.handlers()
            &&& b.files() == a.files()
            &&& b.last_handler_id() == a.last_handler_id()
        },
        Event::StartServer { .. } => false,
        Event::Hover { buf_id, text_document, position } => requested(
            a,
            b,
            text_document@.url,
            |h: LangServerHandler| LspParams::Hover { text_document, position },
            |x: ResponseAction| action_on(x, text_document@, true),
            r,
        ),
        Event::GotoDefinition { buf_id, text_document, position } => requested(
            a,
            b,
            text_document@.url,
            |h: LangServerHandler| LspParams::Definition { text_document, position },
            |x: ResponseAction| x is GotoDefinition,
            r,
        ),
        Event::InlayHints { buf_id, text_document } => requested(
            a,
            b,
            text_document@.url,
            |h: LangServerHandler| LspParams::InlayHints { text_document },
            |x: ResponseAction| action_on(x, text_document@, false),
            r,
        ),
        Event::FormatDoc { buf_id, text_document, text_document_lines } => requested(
            a,
            b,
            text_document@.url,
            |h: LangServerHandler|
                LspParams::Formatting {
                    text_document,
                    tab_size: h.settings().indentation,
                    insert_spaces: h.settings().indentation_with_space,
                },
            |x: ResponseAction| formatting_action(x, lines_view(text_document_lines@)),
            r,
        ),
        Event::References { buf_id, text_document, position, include_declaration } => requested(
            a,
            b,
            text_document@.url,
            |h: LangServerHandler| LspParams::References { text_document, position, include_declaration },
            |x: ResponseAction| x is References,
            r,
        ),
        Event::DidOpen { buf_id, text_document } => opened_doc(a, b, buf_id, text_document@, r),
        Event::DidChange { buf_id, version, content_change } => changed_doc(
            a,
            b,
            buf_id,
            version,
            content_change@,
            now,
            r,
        ),
        Event::DidClose { buf_id } => closed_doc(a, b, buf_id, r),
    }
}

/// Whether `m` is the `initialize` request for a server rooted at `root`.
pub open spec fn initialize_sent(m: LspOutgoing, root: Seq<char>) -> bool {
    match m {
        LspOutgoing::Request { id, params: LspParams::Initialize { root_path, root_uri } } => {
            &&& id == 1
            &&& root_path@ == root
            &&& root_uri@ == file_url_text(root)
        },
        _ => false,
    }
}

/// The calls on the editor that a reply leads to.
pub open spec fn reply_calls(action: ResponseAction, reply: LspReply, calls: Seq<EditorCall>) -> bool {
    match (action, reply) {
        (ResponseAction::Initialize, LspReply::Initialize(_)) => calls.len() == 2 && (match calls[0] {
            EditorCall::Message(m) => m@ == "LangServer initialized"@,
            _ => false,
        }) && calls[1] is TrackAllBuffers,
        (ResponseAction::Hover { text_document }, LspReply::Hover(h)) => match h {
            Some(hover) => calls == seq![EditorCall::ShowHover { text_document, hover }],
            None => calls.len() == 0,
        },
        (ResponseAction::GotoDefinition, LspReply::Definition(d)) => match d {
            Some(DefinitionReply::Scalar(loc)) => calls == seq![EditorCall::Goto(loc)],
            Some(DefinitionReply::Array(locs)) => if locs@.len() == 1 {
                calls.len() == 1 && calls[0] is Goto && calls[0]->Goto_0 == locs@[0]
            } else {
                calls.len() == 0
            },
            _ => calls.len() == 0,
        },
        (ResponseAction::InlayHints { text_document }, LspReply::InlayHints(hints)) => calls == seq![
            EditorCall::InlineHints { text_document, hints },
        ],
        (ResponseAction::Formatting { lines }, LspReply::Formatting(e)) => match e {
            Some(edits) => calls.len() == 1 && match calls[0] {
                EditorCall::ApplyEdits { lines: out } => {
                    &&& lines_view(out@).len() >= 1
                    &&& all_no_newline(lines_view(out@))
                    &&& joined(lines_view(out@)) == applied(lines_view(lines@), edits_view(edits@))
                },
                _ => false,
            },
            None => calls.len() == 0,
        },
        (ResponseAction::References, LspReply::References(locs)) => match locs {
            Some(l) => calls == seq![EditorCall::ShowReferences(l)],
            None => calls.len() == 0,
        },
        _ => false,
    }
}

/// Whether a reply can be acted on: it is of the kind its request asks for,
/// and edits lie on lines of the document.
pub open spec fn reply_usable(action: ResponseAction, reply: LspReply) -> bool {
    &&& reply_fits(action, reply)
    &&& match (action, reply) {
        (ResponseAction::Formatting { lines }, LspReply::Formatting(Some(edits))) => edits_in_bounds(
            lines_view(lines@),
            edits_view(edits@),
        ),
        _ => true,
    }
}

/// Whether `f`'s changes are due at `now`.
pub open spec fn due(f: TrackingFile, now: u64) -> bool {
    f.scheduled() is Some && f.scheduled()->0 <= now
}

/// What a file keeps once its changes are fetched.
pub open spec fn after_fetch(s: SyncModel) -> SyncModel {
    match s {
        SyncModel::Incremental(_) => SyncModel::Incremental(Seq::empty()),
        _ => s,
    }
}

/// How a file changes on a timer tick: where its changes are due and its
/// server connected, they are fetched and nothing is due any more;
/// otherwise it stays as it was.
pub open spec fn ticked_file(f0: TrackingFile, f1: TrackingFile, hs: Seq<LangServerHandler>, now: u64) -> bool {
    let sent = due(f0, now) && exists|k: int| #[trigger] handler_at(hs, f0.handler(), k) && !hs[k].is_disconnected();
    &&& sent ==> {
        &&& f1.scheduled() is None
        &&& f1.sync() == after_fetch(f0.sync())
        &&& f1.handler() == f0.handler()
        &&& f1.buffer() == f0.buffer()
        &&& f1.document() == f0.document()
        &&& f1.current_version() == f0.current_version()
        &&& f1.opened() == f0.opened()
    }
    &&& !sent ==> f1 == f0
}

/// Whether a tick sends the changes of `f` to handler `hid`: `f` is its,
/// due, and has changes to send.
pub open spec fn sends_file(f: TrackingFile, hid: u64, now: u64) -> bool {
    f.handler() == hid && due(f, now) && pending_of(f.sync()) is Some
}

/// The files whose changes a tick sends to handler `hid`, in order.
pub open spec fn tick_sends(fs: Seq<TrackingFile>, hid: u64, now: u64) -> Seq<TrackingFile> {
    fs.filter(|f: TrackingFile| sends_file(f, hid, now))
}

/// Whether `out1` is `out0` followed by one change notification for each of
/// `sends`, in order.
pub open spec fn sent_changes(out0: Seq<LspOutgoing>, out1: Seq<LspOutgoing>, sends: Seq<TrackingFile>) -> bool {
    &&& out1.len() == out0.len() + sends.len()
    &&& out1.subrange(0, out0.len() as int) == out0
    &&& forall|j: int|
        0 <= j < sends.len() ==> did_change_sent(
            #[trigger] out1[out0.len() + j],
            sends[j].document(),
            sends[j].current_version(),
            pending_of(sends[j].sync())->0,
        )
}

/// How a handler changes on a timer tick over the files `fs`: a connected
/// one is sent the changes of its due files, a disconnected one nothing.
pub open spec fn ticked_handler(h0: LangServerHandler, h1: LangServerHandler, fs: Seq<TrackingFile>, now: u64) -> bool {
    &&& h1.wf()
    &&& h1.same_setup(&h0)
    &&& h1.callbacks() == h0.callbacks()
    &&& h1.next_request_id() == h0.next_request_id()
    &&& h1.issued_ids() == h0.issued_ids()
    &&& h1.delivered_ids() == h0.delivered_ids()
    &&& h0.is_disconnected() ==> h1.outbox() == h0.outbox()
    &&& !h0.is_disconnected() ==> sent_changes(h0.outbox(), h1.outbox(), tick_sends(fs, h0.handler_id(), now))
}

/// Whether `k` is the index of the handler with id `id`.
pub open spec fn handler_at(hs: Seq<LangServerHandler>, id: u64, k: int) -> bool {
    0 <= k < hs.len() && hs[k].handler_id() == id
}

/// Whether `i` is the index of the first file at `url`.
pub open spec fn first_file_at(fs: Seq<TrackingFile>, url: Seq<char>, i: int) -> bool {
    &&& 0 <= i < fs.len()
    &&& fs[i].document().url == url
    &&& forall|j: int| 0 <= j < i ==> (#[trigger] fs[j]).document().url != url
}

pub open spec fn no_file_at(fs: Seq<TrackingFile>, url: Seq<char>) -> bool {
    forall|j: int| 0 <= j < fs.len() ==> (#[trigger] fs[j]).document().url != url
}

/// Whether `i` is the index of the first file of buffer `buf`.
pub open spec fn first_file_of(fs: Seq<TrackingFile>, buf: BufferHandler, i: int) -> bool {
    &&& 0 <= i < fs.len()
    &&& fs[i].buffer() == buf
    &&& forall|j: int| 0 <= j < i ==> (#[trigger] fs[j]).buffer() != buf
}

pub open spec fn no_file_of(fs: Seq<TrackingFile>, buf: BufferHandler) -> bool {
    forall|j: int| 0 <= j < fs.len() ==> (#[trigger] fs[j]).buffer() != buf
}

pub struct Lspc {
    lsp_handlers: Vec<LangServerHandler>,
    tracking_files: Vec<TrackingFile>,
    next_handler_id: u64,
    editor_calls: Vec<EditorCall>,
}

impl Lspc {
    pub closed spec fn handlers(&self) -> Seq<LangServerHandler> {
        self.lsp_handlers@
    }

    pub closed spec fn files(&self) -> Seq<TrackingFile> {
        self.tracking_files@
    }

    pub closed spec fn last_handler_id(&self) -> u64 {
        self.next_handler_id
    }

    pub closed spec fn calls(&self) -> Seq<EditorCall> {
        self.editor_calls@
    }

    /// The broker's invariant: handlers are well formed with distinct ids
    /// handed out so far; each open document has a distinct URL and is served
    /// by a handler whose root holds its path.
    pub open spec fn wf(&self) -> bool {
        let hs = self.handlers();
        let fs = self.files();
        &&& forall|k: int|
            0 <= k < hs.len() ==> (#[trigger] hs[k]).wf() && 1 <= hs[k].handler_id()
                <= self.last_handler_id()
        &&& forall|a: int, b: int|
            0 <= a < b < hs.len() ==> (#[trigger] hs[a]).handler_id() != (#[trigger] hs[b]).handler_id()
        &&& forall|i: int| 0 <= i < fs.len() ==> file_covered(hs, #[trigger] fs[i])
        &&& forall|a: int, b: int|
            0 <= a < b < fs.len() ==> (#[trigger] fs[a]).document().url != (#[trigger] fs[b]).document().url
    }

    /// A broker with no server and no document.
    pub fn new() -> (r: Self)
        ensures
            r.wf(),
            r.handlers().len() == 0,
            r.files().len() == 0,
            r.calls().len() == 0,
            r.last_handler_id() == 0,
    {
        Lspc {
            lsp_handlers: Vec::new(),
            tracking_files: Vec::new(),
            next_handler_id: 0,
            editor_calls: Vec::new(),
        }
    }

    /// The index of the handler with id `id`.
    pub fn handler_index(&self, id: u64) -> (r: Option<usize>)
        requires
            self.wf(),
        ensures
            match r {
                Some(k) => handler_at(self.handlers(), id, k as int),
                None => forall|k: int| 0 <= k < self.handlers().len() ==> !handler_at(self.handlers(), id, k),
            },
    {
        let mut k: usize = 0;
        while k < self.lsp_handlers.len()
            invariant
                k <= self.lsp_handlers.len(),
                forall|j: int| 0 <= j < k ==> !handler_at(self.handlers(), id, j),
            decreases self.lsp_handlers.len() - k,
        {
            if self.lsp_handlers[k].id() == id {
                return Some(k);
            }
            k = k + 1;
        }
        None
    }

    /// The index of the open document at `url`.
    pub fn file_index_by_url(&self, url: &str) -> (r: Option<usize>)
        ensures
            match r {
                Some(i) => first_file_at(self.files(), url@, i as int),
                None => no_file_at(self.files(), url@),
            },
    {
        let mut i: usize = 0;
        while i < self.tracking_files.len()
            invariant
                i <= self.tracking_files.len(),
                forall|j: int| 0 <= j < i ==> (#[trigger] self.files()[j]).document().url != url@,
            decreases self.tracking_files.len() - i,
        {
            if crate::nvim::same_text(self.tracking_files[i].uri().url.as_str(), url) {
                return Some(i);
            }
            i = i + 1;
        }
        None
    }

    /// The index of the open document of buffer `buf`.
    pub fn file_index_by_buffer(&self, buf: BufferHandler) -> (r: Option<usize>)
        ensures
            match r {
                Some(i) => first_file_of(self.files(), buf, i as int),
                None => no_file_of(self.files(), buf),
            },
    {
        let mut i: usize = 0;
        while i < self.tracking_files.len()
            invariant
                i <= self.tracking_files.len(),
                forall|j: int| 0 <= j < i ==> (#[trigger] self.files()[j]).buffer() != buf,
            decreases self.tracking_files.len() - i,
        {
            if self.tracking_files[i].buf_id() == buf {
                return Some(i);
            }
            i = i + 1;
        }
        None
    }

    /// Whether a document is open, so that the server's diagnostics of it go
    /// to the editor.
    pub fn is_tracked(&self, url: &str) -> (r: bool)
        ensures
            r == !no_file_at(self.files(), url@),
    {
        self.file_index_by_url(url).is_some()
    }

    /// The calls on the editor waiting to be made, oldest first; none are left.
    pub fn take_editor_calls(&mut self) -> (r: Vec<EditorCall>)
        requires
            old(self).wf(),
        ensures
            final(self).wf(),
            r@ == old(self).calls(),
            final(self).calls().len() == 0,
            final(self).handlers() == old(self).handlers(),
            final(self).files() == old(self).files(),
            final(self).last_handler_id() == old(self).last_handler_id(),
    {
        let mut out: Vec<EditorCall> = Vec::new();
        std::mem::swap(&mut self.editor_calls, &mut out);
        proof {
            lemma_wf_frame(old(self), self);
        }
        out
    }

    /// The ids of the handlers, in the order they were started.
    pub fn handler_ids(&self) -> (r: Vec<u64>)
        ensures
            r@.len() == self.handlers().len(),
            forall|k: int| 0 <= k < r@.len() ==> r@[k] == (#[trigger] self.handlers()[k]).handler_id(),
    {
        let mut out: Vec<u64> = Vec::new();
        let mut k: usize = 0;
        while k < self.lsp_handlers.len()
            invariant
                k <= self.lsp_handlers.len(),
                out@.len() == k,
                forall|j: int| 0 <= j < k ==> out@[j] == (#[trigger] self.handlers()[j]).handler_id(),
            decreases self.lsp_handlers.len() - k,
        {
            out.push(self.lsp_handlers[k].id());
            k = k + 1;
        }
        out
    }
}


impl Lspc {
    /// Has the handler serving the document at `url` make a request.
    fn request_for(&mut self, url: &str, params: LspParams, action: ResponseAction) -> (r: Result<(), LspcError>)
        requires
            old(self).wf(),
        ensures
            final(self).wf(),
            requested(
                *old(self),
                *final(self),
                url@,
                |h: LangServerHandler| params,
                |x: ResponseAction| x == action,
                r,
            ),
    {
        let i = match self.file_index_by_url(url) {
            Some(i) => i,
            None => {
                return Err(LspcError::MainLoop(MainLoopError::IgnoredMessage));
            },
        };
        let hid = self.tracking_files[i].handler_id();
        let k = match self.handler_index(hid) {
            Some(k) => k,
            None => {
                return Err(LspcError::MainLoop(MainLoopError::IgnoredMessage));
            },
        };
        let ghost hs0 = self.lsp_handlers@;
        let mut h = self.lsp_handlers.remove(k);
        let res = h.lsp_request(params, action);
        self.lsp_handlers.insert(k, h);
        proof {
            assert(self.lsp_handlers@ =~= hs0.update(k as int, self.lsp_handlers@[k as int]));
            lemma_wf_handler_update(old(self), self, k as int);
            let h1 = self.lsp_handlers@[k as int];
            let h0 = hs0[k as int];
            if res is Ok {
                assert(h1.callbacks().drop_last() =~= h0.callbacks());
                assert(h1.callbacks().last() == Callback { id: h0.next_request_id(), action });
            }
            assert forall|i2: int, k2: int|
                first_file_at(old(self).files(), url@, i2) && handler_at(
                    old(self).handlers(),
                    old(self).files()[i2].handler(),
                    k2,
                ) implies k2 == k && i2 == i by {
                if i2 != i {
                    if i2 < i {
                        assert(old(self).files()[i2].document().url != url@);
                    } else {
                        assert(old(self).files()[i as int].document().url != url@);
                    }
                }
                if k2 != k {
                    if k2 < k {
                        assert(hs0[k2].handler_id() != hs0[k as int].handler_id());
                    } else {
                        assert(hs0[k as int].handler_id() != hs0[k2].handler_id());
                    }
                }
            }
        }
        match res {
            Ok(_) => Ok(()),
            Err(e) => Err(LspcError::LangServer(e)),
        }
    }
}

impl Lspc {
    /// The index of the first handler whose root holds `path`.
    fn covering_index(&self, path: &str) -> (r: Option<usize>)
        ensures
            match r {
                Some(k) => covering_handler(self.handlers(), path@, k as int),
                None => no_covering(self.handlers(), path@),
            },
    {
        let mut k: usize = 0;
        while k < self.lsp_handlers.len()
            invariant
                k <= self.lsp_handlers.len(),
                forall|j: int| 0 <= j < k ==> !path_has_prefix(path@, (#[trigger] self.handlers()[j]).root()),
            decreases self.lsp_handlers.len() - k,
        {
            if self.lsp_handlers[k].include_file(path) {
                return Some(k);
            }
            k = k + 1;
        }
        None
    }

    /// The editor opened `text_document` in buffer `buf_id`.
    fn did_open(&mut self, buf_id: BufferHandler, text_document: DocumentUri) -> (r: Result<(), LspcError>)
        requires
            old(self).wf(),
        ensures
            final(self).wf(),
            opened_doc(*old(self), *final(self), buf_id, text_document@, r),
    {
        let k = match self.covering_index(text_document.path.as_str()) {
            Some(k) => k,
            None => {
                return Err(LspcError::MainLoop(MainLoopError::IgnoredMessage));
            },
        };
        let hid = self.lsp_handlers[k].id();
        let kind = self.lsp_handlers[k].sync_kind();
        self.editor_calls.push(EditorCall::WatchFileEvents(text_document.duplicate()));
        let ghost doc = text_document@;
        let found = self.file_index_by_url(text_document.url.as_str());
        let f = TrackingFile::new(hid, buf_id, text_document, kind);
        let ghost fs0 = self.tracking_files@;
        match found {
            Some(i) => {
                self.tracking_files.set(i, f);
            },
            None => {
                self.tracking_files.push(f);
            },
        }
        proof {
            let hs = self.handlers();
            let fs = self.files();
            assert(fs0 == old(self).files());
            assert(hs == old(self).handlers());
            assert(self.calls().drop_last() =~= old(self).calls());
            assert(file_covered(hs, fs[if found is Some { found->0 as int } else { fs.len() - 1 }]));
            assert forall|i: int| 0 <= i < fs.len() implies file_covered(hs, #[trigger] fs[i]) by {
                if i < fs0.len() && !(found is Some && i == found->0) {
                    assert(fs[i] == fs0[i]);
                    assert(file_covered(old(self).handlers(), fs0[i]));
                }
            }
            assert forall|x: int, y: int| 0 <= x < y < fs.len() implies (#[trigger] fs[x]).document().url
                != (#[trigger] fs[y]).document().url by {
                if y < fs0.len() {
                    if found is Some {
                        let i = found->0 as int;
                        if x != i && y != i {
                            assert(fs[x] == fs0[x] && fs[y] == fs0[y]);
                        } else if x == i {
                            assert(fs[y] == fs0[y]);
                            assert(fs0[x].document().url != fs0[y].document().url);
                        } else {
                            assert(fs[x] == fs0[x]);
                            assert(fs0[x].document().url != fs0[y].document().url);
                        }
                    } else {
                        assert(fs[x] == fs0[x] && fs[y] == fs0[y]);
                    }
                } else {
                    assert(fs[x] == fs0[x]);
                    assert(fs0[x].document().url != doc.url);
                }
            }
            assert forall|k2: int| #[trigger] covering_handler(old(self).handlers(), doc.path, k2) implies k2 == k by {
                if k2 < k {
                } else if k2 > k {
                    assert(!path_has_prefix(doc.path, old(self).handlers()[k as int].root()));
                }
            }
            assert forall|i: int| #[trigger] first_file_at(old(self).files(), doc.url, i) implies found == Some(
                i as usize,
            ) by {
                if found is Some {
                    let i0 = found->0 as int;
                    if i < i0 {
                        assert(fs0[i].document().url != doc.url);
                    } else if i > i0 {
                        assert(fs0[i0].document().url != doc.url);
                    }
                }
            }
            if found is None {
                assert(fs.drop_last() =~= fs0);
            }
        }
        Ok(())
    }
}

impl Lspc {
    /// Buffer `buf_id` changed to `version` by `content_change`, at `now`.
    fn did_change(&mut self, buf_id: BufferHandler, version: i64, content_change: &ContentChange, now: u64) -> (r: Result<(), LspcError>)
        requires
            old(self).wf(),
        ensures
            final(self).wf(),
            changed_doc(*old(self), *final(self), buf_id, version, content_change@, now, r),
    {
        let i = match self.file_index_by_buffer(buf_id) {
            Some(i) => i,
            None => {
                return Err(LspcError::MainLoop(MainLoopError::IgnoredMessage));
            },
        };
        let hid = self.tracking_files[i].handler_id();
        let k = match self.handler_index(hid) {
            Some(k) => k,
            None => {
                proof {
                    assert(file_covered(self.handlers(), self.files()[i as int]));
                    let w = choose|w: int|
                        0 <= w < self.handlers().len() && (#[trigger] self.handlers()[w]).handler_id()
                            == self.files()[i as int].handler() && path_has_prefix(
                            self.files()[i as int].document().path,
                            self.handlers()[w].root(),
                        );
                    assert(handler_at(self.handlers(), hid, w));
                }
                return Err(LspcError::MainLoop(MainLoopError::IgnoredMessage));
            },
        };
        let ghost fs0 = self.tracking_files@;
        let ghost hs0 = self.lsp_handlers@;
        let mut f = self.tracking_files.remove(i);
        f.track_change(version, content_change);
        let res: Result<(), LspcError> = if !f.sent_did_open() {
            let text = match f.full_text() {
                Some(t) => t,
                None => content_change.text.clone(),
            };
            let mut h = self.lsp_handlers.remove(k);
            let lang = h.lang_id().clone();
            let sent = h.lsp_notify(
                LspParams::DidOpen { text_document: f.uri().duplicate(), language_id: lang, version, text },
            );
            self.lsp_handlers.insert(k, h);
            proof {
                assert(self.lsp_handlers@ =~= hs0.update(k as int, self.lsp_handlers@[k as int]));
                let h1 = self.lsp_handlers@[k as int];
                if sent is Ok {
                    assert(h1.outbox().drop_last() =~= hs0[k as int].outbox());
                }
            }
            match sent {
                Ok(()) => {
                    f.mark_opened();
                    Ok(())
                },
                Err(e) => Err(LspcError::LangServer(e)),
            }
        } else {
            f.delay_sync_in(now, SYNC_DELAY_MS);
            Ok(())
        };
        self.tracking_files.insert(i, f);
        proof {
            assert(fs0 == old(self).files());
            assert(hs0 == old(self).handlers());
            assert(self.tracking_files@ =~= fs0.update(i as int, self.tracking_files@[i as int]));
            let mid = Lspc {
                lsp_handlers: self.lsp_handlers,
                tracking_files: old(self).tracking_files,
                next_handler_id: self.next_handler_id,
                editor_calls: self.editor_calls,
            };
            if self.lsp_handlers@ != hs0 {
                lemma_wf_handler_update(old(self), &mid, k as int);
            } else {
                lemma_wf_frame(old(self), &mid);
            }
            lemma_wf_files_same_places(&mid, self);
            assert forall|i2: int, k2: int|
                #[trigger] first_file_of(old(self).files(), buf_id, i2) && #[trigger] handler_at(
                    old(self).handlers(),
                    old(self).files()[i2].handler(),
                    k2,
                ) implies i2 == i && k2 == k by {
                if i2 < i {
                    assert(fs0[i2].buffer() != buf_id);
                } else if i2 > i {
                    assert(fs0[i as int].buffer() != buf_id);
                }
                if k2 < k {
                    assert(hs0[k2].handler_id() != hs0[k as int].handler_id());
                } else if k2 > k {
                    assert(hs0[k as int].handler_id() != hs0[k2].handler_id());
                }
            }
        }
        res
    }

    /// Buffer `buf_id` closed.
    fn did_close(&mut self, buf_id: BufferHandler) -> (r: Result<(), LspcError>)
        requires
            old(self).wf(),
        ensures
            final(self).wf(),
            closed_doc(*old(self), *final(self), buf_id, r),
    {
        let i = match self.file_index_by_buffer(buf_id) {
            Some(i) => i,
            None => {
                return Err(LspcError::MainLoop(MainLoopError::IgnoredMessage));
            },
        };
        let hid = self.tracking_files[i].handler_id();
        let k = match self.handler_index(hid) {
            Some(k) => k,
            None => {
                proof {
                    assert(file_covered(self.handlers(), self.files()[i as int]));
                    let w = choose|w: int|
                        0 <= w < self.handlers().len() && (#[trigger] self.handlers()[w]).handler_id()
                            == self.files()[i as int].handler() && path_has_prefix(
                            self.files()[i as int].document().path,
                            self.handlers()[w].root(),
                        );
                    assert(handler_at(self.handlers(), hid, w));
                }
                return Err(LspcError::MainLoop(MainLoopError::IgnoredMessage));
            },
        };
        let ghost fs0 = self.tracking_files@;
        let ghost hs0 = self.lsp_handlers@;
        proof {
            assert forall|i2: int, k2: int|
                #[trigger] first_file_of(old(self).files(), buf_id, i2) && #[trigger] handler_at(
                    old(self).handlers(),
                    old(self).files()[i2].handler(),
                    k2,
                ) implies i2 == i && k2 == k by {
                if i2 < i {
                    assert(fs0[i2].buffer() != buf_id);
                } else if i2 > i {
                    assert(fs0[i as int].buffer() != buf_id);
                }
                if k2 < k {
                    assert(hs0[k2].handler_id() != hs0[k as int].handler_id());
                } else if k2 > k {
                    assert(hs0[k as int].handler_id() != hs0[k2].handler_id());
                }
            }
        }
        if !self.lsp_handlers[k].is_connected() {
            return Err(LspcError::LangServer(LangServerError::ServerDisconnected));
        }
        let mut f = self.tracking_files.remove(i);
        let pending = f.fetch_pending_changes();
        let mut h = self.lsp_handlers.remove(k);
        let ghost n = h.outbox().len();
        match pending {
            Some(p) => {
                let sent = h.lsp_notify(LspParams::DidChange(p));
            },
            None => {},
        }
        let ghost mid_out = h.outbox();
        let closed = h.lsp_notify(LspParams::DidClose { text_document: f.uri().duplicate() });
        self.lsp_handlers.insert(k, h);
        proof {
            assert(fs0 == old(self).files());
            assert(hs0 == old(self).handlers());
            assert(self.tracking_files@ == fs0.remove(i as int));
            assert(self.lsp_handlers@ =~= hs0.update(k as int, self.lsp_handlers@[k as int]));
            let h1 = self.lsp_handlers@[k as int];
            assert(h1.outbox().subrange(0, n as int) =~= hs0[k as int].outbox());
            if pending is Some {
                assert(h1.outbox()[n as int] == mid_out[n as int]);
            }
            let mid = Lspc {
                lsp_handlers: self.lsp_handlers,
                tracking_files: old(self).tracking_files,
                next_handler_id: self.next_handler_id,
                editor_calls: self.editor_calls,
            };
            lemma_wf_handler_update(old(self), &mid, k as int);
            lemma_wf_file_removed(&mid, self, i as int);
        }
        Ok(())
    }
}

impl Lspc {
    /// Handles what the editor asks, at `now` (in milliseconds). Starting a
    /// server goes through [`Lspc::start_server`], once the application has
    /// found the project root on disk.
    pub fn handle_editor_event(&mut self, event: Event, now: u64) -> (r: Result<(), LspcError>)
        requires
            old(self).wf(),
            !(event is StartServer),
        ensures
            final(self).wf(),
            event_done(*old(self), *final(self), event, now, r),
    {
        let ghost ev = event;
        match event {
            Event::Hello => {
                self.editor_calls.push(EditorCall::SayHello);
                proof {
                    lemma_wf_frame(old(self), self);
                }
                Ok(())
            },
            Event::StartServer { .. } => Err(LspcError::NotStarted),
            Event::Hover { buf_id, text_document, position } => {
                let url = text_document.url.clone();
                let action = ResponseAction::Hover { text_document: text_document.duplicate() };
                self.request_for(url.as_str(), LspParams::Hover { text_document, position }, action)
            },
            Event::GotoDefinition { buf_id, text_document, position } => {
                let url = text_document.url.clone();
                self.request_for(
                    url.as_str(),
                    LspParams::Definition { text_document, position },
                    ResponseAction::GotoDefinition,
                )
            },
            Event::InlayHints { buf_id, text_document } => {
                let url = text_document.url.clone();
                let action = ResponseAction::InlayHints { text_document: text_document.duplicate() };
                self.request_for(url.as_str(), LspParams::InlayHints { text_document }, action)
            },
            Event::FormatDoc { buf_id, text_document, text_document_lines } => {
                let url = text_document.url.clone();
                let i = match self.file_index_by_url(url.as_str()) {
                    Some(i) => i,
                    None => {
                        return Err(LspcError::MainLoop(MainLoopError::IgnoredMessage));
                    },
                };
                let k = match self.handler_index(self.tracking_files[i].handler_id()) {
                    Some(k) => k,
                    None => {
                        proof {
                            assert(file_covered(self.handlers(), self.files()[i as int]));
                        }
                        return Err(LspcError::MainLoop(MainLoopError::IgnoredMessage));
                    },
                };
                let settings = self.lsp_handlers[k].lang_settings();
                let ghost lines = lines_view(text_document_lines@);
                let ghost td = text_document;
                let params = LspParams::Formatting {
                    text_document,
                    tab_size: settings.indentation,
                    insert_spaces: settings.indentation_with_space,
                };
                let res = self.request_for(url.as_str(), params, ResponseAction::Formatting { lines: text_document_lines });
                proof {
                    assert forall|i2: int, k2: int|
                        first_file_at(old(self).files(), url@, i2) && handler_at(
                            old(self).handlers(),
                            old(self).files()[i2].handler(),
                            k2,
                        ) implies k2 == k by {
                        if i2 < i {
                            assert(old(self).files()[i2].document().url != url@);
                        } else if i2 > i {
                            assert(old(self).files()[i as int].document().url != url@);
                        }
                        if k2 < k {
                            assert(old(self).handlers()[k2].handler_id() != old(self).handlers()[k as int].handler_id());
                        } else if k2 > k {
                            assert(old(self).handlers()[k as int].handler_id() != old(self).handlers()[k2].handler_id());
                        }
                    }
                }
                res
            },
            Event::References { buf_id, text_document, position, include_declaration } => {
                let url = text_document.url.clone();
                self.request_for(
                    url.as_str(),
                    LspParams::References { text_document, position, include_declaration },
                    ResponseAction::References,
                )
            },
            Event::DidOpen { buf_id, text_document } => self.did_open(buf_id, text_document),
            Event::DidChange { buf_id, version, content_change } => self.did_change(
                buf_id,
                version,
                &content_change,
                now,
            ),
            Event::DidClose { buf_id } => self.did_close(buf_id),
        }
    }

    /// Starts serving `lang_id` for the project at `root`, a directory the
    /// application found by walking up from the current file: a new handler
    /// with the next id, whose first request is `initialize`. A root that is
    /// not absolute is not a root; the ids may run out.
    pub fn start_server(&mut self, lang_id: String, config: &LsConfig, root: &str) -> (r: Result<u64, LspcError>)
        requires
            old(self).wf(),
        ensures
            final(self).wf(),
            final(self).files() == old(self).files(),
            final(self).calls() == old(self).calls(),
            !is_absolute(root@) ==> r is Err && r->Err_0 is Editor && final(self).handlers() == old(self).handlers()
                && final(self).last_handler_id() == old(self).last_handler_id(),
            is_absolute(root@) ==> (r is Ok <==> old(self).last_handler_id() < u64::MAX),
            r is Err ==> final(self).handlers() == old(self).handlers() && final(self).last_handler_id()
                == old(self).last_handler_id(),
            match r {
                Ok(id) => {
                    let h = final(self).handlers().last();
                    &&& id == old(self).last_handler_id() + 1
                    &&& final(self).last_handler_id() == id
                    &&& final(self).handlers().len() == old(self).handlers().len() + 1
                    &&& final(self).handlers().drop_last() == old(self).handlers()
                    &&& h.handler_id() == id
                    &&& h.language() == lang_id@
                    &&& h.settings() == (LangSettings {
                        indentation: config.indentation,
                        indentation_with_space: config.indentation_with_space,
                    })
                    &&& h.root() == root@
                    &&& h.capabilities() is None
                    &&& !h.is_disconnected()
                    &&& h.next_request_id() == 2
                    &&& h.callbacks() == seq![Callback { id: 1, action: ResponseAction::Initialize }]
                    &&& h.outbox().len() == 1
                    &&& initialize_sent(h.outbox()[0], root@)
                },
                Err(_) => true,
            },
    {
        let root_uri = match DocumentUri::from_path(root) {
            Some(u) => u,
            None => {
                return Err(LspcError::Editor(EditorError::RootPathNotFound));
            },
        };
        if self.next_handler_id == u64::MAX {
            return Err(LspcError::LangServer(LangServerError::Process("handler ids are used up".to_owned())));
        }
        self.next_handler_id = self.next_handler_id + 1;
        let settings = LangSettings {
            indentation: config.indentation,
            indentation_with_space: config.indentation_with_space,
        };
        let mut h = LangServerHandler::new(self.next_handler_id, lang_id, settings, root.to_owned());
        let sent = h.lsp_request(
            LspParams::Initialize { root_path: root.to_owned(), root_uri: root_uri.url },
            ResponseAction::Initialize,
        );
        assert(sent is Ok);
        assert(h.callbacks() =~= seq![Callback { id: 1, action: ResponseAction::Initialize }]);
        let ghost hs0 = self.lsp_handlers@;
        self.lsp_handlers.push(h);
        proof {
            let hs = self.handlers();
            assert(hs0 == old(self).handlers());
            assert(hs.drop_last() =~= hs0);
            assert forall|k: int| 0 <= k < hs.len() implies (#[trigger] hs[k]).wf() && 1 <= hs[k].handler_id()
                <= self.next_handler_id by {
                if k < hs0.len() {
                    assert(hs[k] == hs0[k]);
                }
            }
            assert forall|x: int, y: int| 0 <= x < y < hs.len() implies (#[trigger] hs[x]).handler_id()
                != (#[trigger] hs[y]).handler_id() by {
                assert(hs[x] == hs0[x]);
                if y < hs0.len() {
                    assert(hs[y] == hs0[y]);
                }
            }
            assert forall|i: int| 0 <= i < self.files().len() implies file_covered(hs, #[trigger] self.files()[i]) by {
                assert(file_covered(hs0, old(self).files()[i]));
                let w = choose|w: int|
                    0 <= w < hs0.len() && (#[trigger] hs0[w]).handler_id() == self.files()[i].handler()
                        && path_has_prefix(self.files()[i].document().path, hs0[w].root());
                assert(hs[w] == hs0[w]);
            }
        }
        Ok(self.next_handler_id)
    }
}

impl Lspc {
    /// The callback waiting for the reply `id` from handler `handler_id`,
    /// taken out of its table.
    pub fn take_callback(&mut self, handler_id: u64, id: u64) -> (r: Option<Callback>)
        requires
            old(self).wf(),
        ensures
            final(self).wf(),
            final(self).files() == old(self).files(),
            final(self).calls() == old(self).calls(),
            final(self).last_handler_id() == old(self).last_handler_id(),
            final(self).handlers().len() == old(self).handlers().len(),
            forall|k: int| 0 <= k < old(self).handlers().len() && !handler_at(old(self).handlers(), handler_id, k)
                ==> final(self).handlers()[k] == old(self).handlers()[k],
            forall|k: int| #[trigger] handler_at(old(self).handlers(), handler_id, k) ==> {
                let h0 = old(self).handlers()[k];
                let h1 = final(self).handlers()[k];
                &&& (r is Some <==> is_pending(h0.callbacks(), id))
                &&& h1.same_setup(&h0)
                &&& h1.outbox() == h0.outbox()
                &&& match r {
                    Some(cb) => {
                        &&& cb.id == id
                        &&& exists|j: int| 0 <= j < h0.callbacks().len() && h0.callbacks()[j] == cb
                            && h1.callbacks() == h0.callbacks().remove(j)
                        &&& h1.delivered_ids() == h0.delivered_ids().insert(id)
                    },
                    None => h1 == h0,
                }
            },
            (forall|k: int| 0 <= k < old(self).handlers().len() ==> !handler_at(old(self).handlers(), handler_id, k))
                ==> r is None,
    {
        let k = match self.handler_index(handler_id) {
            Some(k) => k,
            None => {
                return None;
            },
        };
        let ghost hs0 = self.lsp_handlers@;
        let mut h = self.lsp_handlers.remove(k);
        let cb = h.callback_for(id);
        self.lsp_handlers.insert(k, h);
        proof {
            assert(hs0 == old(self).handlers());
            assert(self.lsp_handlers@ =~= hs0.update(k as int, self.lsp_handlers@[k as int]));
            lemma_wf_handler_update(old(self), self, k as int);
            if cb is None {
                assert(self.lsp_handlers@ =~= hs0);
            }
            assert forall|k2: int| 0 <= k2 < hs0.len() && k2 != k implies !handler_at(hs0, handler_id, k2) by {
                if k2 < k {
                    assert(hs0[k2].handler_id() != hs0[k as int].handler_id());
                } else {
                    assert(hs0[k as int].handler_id() != hs0[k2].handler_id());
                }
            }
        }
        cb
    }

    /// Acts on `reply`, the reply of handler `handler_id` to the request
    /// that `cb` waited for: the editor calls it leads to are queued, and the
    /// reply to `initialize` sets the server up. A reply of another kind than
    /// the request, or edits off the document, is an invalid response; an
    /// unknown handler drops it.
    pub fn run_callback(&mut self, handler_id: u64, cb: Callback, reply: LspReply) -> (r: Result<(), LspcError>)
        requires
            old(self).wf(),
        ensures
            final(self).wf(),
            final(self).files() == old(self).files(),
            final(self).last_handler_id() == old(self).last_handler_id(),
            (forall|k: int| 0 <= k < old(self).handlers().len() ==> !handler_at(old(self).handlers(), handler_id, k))
                ==> r is Err && r->Err_0 is MainLoop && final(self).handlers() == old(self).handlers()
                && final(self).calls() == old(self).calls(),
            !reply_usable(cb.action, reply) ==> r is Err && final(self).handlers() == old(self).handlers()
                && final(self).calls() == old(self).calls(),
            forall|k: int|
                #[trigger] handler_at(old(self).handlers(), handler_id, k) && reply_usable(cb.action, reply) ==> {
                    &&& final(self).handlers().len() == old(self).handlers().len()
                    &&& forall|j: int| 0 <= j < old(self).handlers().len() && j != k ==> final(self).handlers()[j]
                        == old(self).handlers()[j]
                    &&& match reply {
                        LspReply::Initialize(caps) => {
                            let h0 = old(self).handlers()[k];
                            let h1 = final(self).handlers()[k];
                            &&& h1.capabilities() == Some(caps)
                            &&& h1.callbacks() == h0.callbacks()
                            &&& (r is Ok <==> !h0.is_disconnected())
                            &&& r is Ok ==> reply_calls(cb.action, reply, final(self).calls().subrange(
                                old(self).calls().len() as int,
                                final(self).calls().len() as int,
                            )) && final(self).calls().subrange(0, old(self).calls().len() as int) == old(self).calls()
                                && h1.outbox() == h0.outbox().push(
                                LspOutgoing::Notification { params: LspParams::Initialized },
                            )
                            &&& r is Err ==> final(self).calls() == old(self).calls() && h1.outbox() == h0.outbox()
                        },
                        _ => {
                            &&& r is Ok
                            &&& final(self).handlers() == old(self).handlers()
                            &&& final(self).calls().subrange(0, old(self).calls().len() as int) == old(self).calls()
                            &&& reply_calls(cb.action, reply, final(self).calls().subrange(
                                old(self).calls().len() as int,
                                final(self).calls().len() as int,
                            ))
                        },
                    }
                },
    {
        let k = match self.handler_index(handler_id) {
            Some(k) => k,
            None => {
                return Err(LspcError::MainLoop(MainLoopError::IgnoredMessage));
            },
        };
        let ghost hs0 = self.lsp_handlers@;
        let ghost c0 = self.editor_calls@;
        let ghost action0 = cb.action;
        let ghost reply0 = reply;
        proof {
            assert(hs0 == old(self).handlers());
            assert forall|k2: int| #[trigger] handler_at(hs0, handler_id, k2) implies k2 == k by {
                if k2 < k {
                    assert(hs0[k2].handler_id() != hs0[k as int].handler_id());
                } else if k2 > k {
                    assert(hs0[k as int].handler_id() != hs0[k2].handler_id());
                }
            }
        }
        match (cb.action, reply) {
            (ResponseAction::Initialize, LspReply::Initialize(caps)) => {
                let mut h = self.lsp_handlers.remove(k);
                let res = h.initialize_response(caps);
                self.lsp_handlers.insert(k, h);
                proof {
                    assert(self.lsp_handlers@ =~= hs0.update(k as int, self.lsp_handlers@[k as int]));
                    lemma_wf_handler_update(old(self), self, k as int);
                }
                let ghost mid = *self;
                match res {
                    Ok(()) => {
                        self.editor_calls.push(EditorCall::Message("LangServer initialized".to_owned()));
                        self.editor_calls.push(EditorCall::TrackAllBuffers);
                        proof {
                            lemma_wf_frame(&mid, self);
                            reveal_strlit("LangServer initialized");
                            let added = self.editor_calls@.subrange(c0.len() as int, self.editor_calls@.len() as int);
                            assert(added.len() == 2);
                            assert(added[0] == self.editor_calls@[c0.len() as int]);
                            assert(added[1] == self.editor_calls@[c0.len() as int + 1]);
                            assert(self.editor_calls@.subrange(0, c0.len() as int) =~= c0);
                        }
                        Ok(())
                    },
                    Err(e) => Err(LspcError::LangServer(e)),
                }
            },
            (ResponseAction::Hover { text_document }, LspReply::Hover(h)) => {
                match h {
                    Some(hover) => {
                        self.editor_calls.push(EditorCall::ShowHover { text_document, hover });
                    },
                    None => {},
                }
                proof {
                    lemma_wf_frame(old(self), self);
                    assert(self.editor_calls@.subrange(0, c0.len() as int) =~= c0);
                    assert(self.editor_calls@.subrange(c0.len() as int, self.editor_calls@.len() as int)
                        =~= self.editor_calls@.skip(c0.len() as int));
                    let added = self.editor_calls@.subrange(c0.len() as int, self.editor_calls@.len() as int);
                    if self.editor_calls@.len() == c0.len() + 1 {
                        assert(added =~= seq![self.editor_calls@[c0.len() as int]]);
                    } else {
                        assert(added =~= Seq::<EditorCall>::empty());
                    }
                }
                Ok(())
            },
            (ResponseAction::GotoDefinition, LspReply::Definition(d)) => {
                match d {
                    Some(DefinitionReply::Scalar(loc)) => {
                        self.editor_calls.push(EditorCall::Goto(loc));
                    },
                    Some(DefinitionReply::Array(mut locs)) => {
                        if locs.len() == 1 {
                            let loc = locs.pop().unwrap();
                            self.editor_calls.push(EditorCall::Goto(loc));
                        }
                    },
                    _ => {},
                }
                proof {
                    lemma_wf_frame(old(self), self);
                    assert(self.editor_calls@.subrange(0, c0.len() as int) =~= c0);
                    let added = self.editor_calls@.subrange(c0.len() as int, self.editor_calls@.len() as int);
                    if self.editor_calls@.len() == c0.len() + 1 {
                        assert(added =~= seq![self.editor_calls@[c0.len() as int]]);
                    } else {
                        assert(added =~= Seq::<EditorCall>::empty());
                    }
                }
                Ok(())
            },
            (ResponseAction::InlayHints { text_document }, LspReply::InlayHints(hints)) => {
                self.editor_calls.push(EditorCall::InlineHints { text_document, hints });
                proof {
                    lemma_wf_frame(old(self), self);
                    assert(self.editor_calls@.subrange(0, c0.len() as int) =~= c0);
                    let added = self.editor_calls@.subrange(c0.len() as int, self.editor_calls@.len() as int);
                    if self.editor_calls@.len() == c0.len() + 1 {
                        assert(added =~= seq![self.editor_calls@[c0.len() as int]]);
                    } else {
                        assert(added =~= Seq::<EditorCall>::empty());
                    }
                }
                Ok(())
            },
            (ResponseAction::Formatting { lines }, LspReply::Formatting(e)) => {
                match e {
                    Some(edits) => {
                        if !edits_fit(&lines, &edits) {
                            proof {
                                lemma_wf_frame(old(self), self);
                            }
                            return Err(LspcError::LangServer(LangServerError::InvalidResponse("edit out of the document".to_owned())));
                        }
                        let text = apply_edits(&lines, &edits);
                        let out = split_lines(text.as_str());
                        self.editor_calls.push(EditorCall::ApplyEdits { lines: out });
                    },
                    None => {},
                }
                proof {
                    lemma_wf_frame(old(self), self);
                    assert(self.editor_calls@.subrange(0, c0.len() as int) =~= c0);
                    let added = self.editor_calls@.subrange(c0.len() as int, self.editor_calls@.len() as int);
                    if self.editor_calls@.len() == c0.len() + 1 {
                        assert(added =~= seq![self.editor_calls@[c0.len() as int]]);
                    } else {
                        assert(added =~= Seq::<EditorCall>::empty());
                    }
                }
                Ok(())
            },
            (ResponseAction::References, LspReply::References(locs)) => {
                match locs {
                    Some(l) => {
                        self.editor_calls.push(EditorCall::ShowReferences(l));
                    },
                    None => {},
                }
                proof {
                    lemma_wf_frame(old(self), self);
                    assert(self.editor_calls@.subrange(0, c0.len() as int) =~= c0);
                    let added = self.editor_calls@.subrange(c0.len() as int, self.editor_calls@.len() as int);
                    if self.editor_calls@.len() == c0.len() + 1 {
                        assert(added =~= seq![self.editor_calls@[c0.len() as int]]);
                    } else {
                        assert(added =~= Seq::<EditorCall>::empty());
                    }
                }
                Ok(())
            },
            _ => {
                proof {
                    lemma_wf_frame(old(self), self);
                }
                Err(LspcError::LangServer(LangServerError::InvalidResponse("reply of another kind".to_owned())))
            },
        }
    }
}

impl Lspc {
    /// On a timer tick at `now`: every file whose changes are due sends them
    /// through its server.
    pub fn handle_timer_tick(&mut self, now: u64) -> (r: Result<(), LspcError>)
        requires
            old(self).wf(),
        ensures
            final(self).wf(),
            r is Ok,
            final(self).calls() == old(self).calls(),
            final(self).last_handler_id() == old(self).last_handler_id(),
            final(self).files().len() == old(self).files().len(),
            final(self).handlers().len() == old(self).handlers().len(),
            forall|i: int|
                0 <= i < old(self).files().len() ==> ticked_file(
                    #[trigger] old(self).files()[i],
                    final(self).files()[i],
                    old(self).handlers(),
                    now,
                ),
            forall|k: int|
                0 <= k < old(self).handlers().len() ==> ticked_handler(
                    #[trigger] old(self).handlers()[k],
                    final(self).handlers()[k],
                    old(self).files(),
                    now,
                ),
    {
        let ghost fs_all = self.tracking_files@;
        let ghost hs_all = self.lsp_handlers@;
        let mut i: usize = 0;
        proof {
            assert forall|k: int| 0 <= k < hs_all.len() implies ticked_handler(
                #[trigger] hs_all[k],
                self.handlers()[k],
                fs_all.subrange(0, 0),
                now,
            ) by {
                let h = hs_all[k];
                assert(h.outbox().subrange(0, h.outbox().len() as int) =~= h.outbox());
                assert(tick_sends(fs_all.subrange(0, 0), h.handler_id(), now) =~= Seq::<TrackingFile>::empty());
            }
        }
        while i < self.tracking_files.len()
            invariant
                self.wf(),
                fs_all == old(self).files(),
                hs_all == old(self).handlers(),
                i <= self.tracking_files.len(),
                self.calls() == old(self).calls(),
                self.last_handler_id() == old(self).last_handler_id(),
                self.files().len() == fs_all.len(),
                self.handlers().len() == hs_all.len(),
                forall|j: int| 0 <= j < i ==> ticked_file(#[trigger] fs_all[j], self.files()[j], hs_all, now),
                forall|j: int| i <= j < self.files().len() ==> #[trigger] self.files()[j] == fs_all[j],
                forall|k: int|
                    0 <= k < hs_all.len() ==> ticked_handler(
                        #[trigger] hs_all[k],
                        self.handlers()[k],
                        fs_all.subrange(0, i as int),
                        now,
                    ),
            decreases self.tracking_files.len() - i,
        {
            let ghost s0 = *self;
            let ghost fi = fs_all[i as int];
            let ghost sub0 = fs_all.subrange(0, i as int);
            let ghost sub1 = fs_all.subrange(0, i as int + 1);
            proof {
                assert(sub1 =~= sub0.push(fi));
                assert(self.files()[i as int] == fi);
                assert forall|hid: u64| #[trigger] tick_sends(sub1, hid, now) == if sends_file(fi, hid, now) {
                    tick_sends(sub0, hid, now).push(fi)
                } else {
                    tick_sends(sub0, hid, now)
                } by {
                    sub0.lemma_filter_push(fi, |f: TrackingFile| sends_file(f, hid, now));
                }
            }
            let f_due = match self.tracking_files[i].scheduled_sync_at() {
                Some(t) => t <= now,
                None => false,
            };
            let hid = self.tracking_files[i].handler_id();
            let found = if f_due {
                self.handler_index(hid)
            } else {
                None
            };
            let mut sent = false;
            match found {
                Some(k) => {
                    if self.lsp_handlers[k].is_connected() {
                        let ghost fs0 = self.tracking_files@;
                        let ghost hs0 = self.lsp_handlers@;
                        let mut f = self.tracking_files.remove(i);
                        let pending = f.fetch_pending_changes();
                        self.tracking_files.insert(i, f);
                        let mut h = self.lsp_handlers.remove(k);
                        let ghost out0 = h.outbox();
                        match pending {
                            Some(p) => {
                                let r = h.lsp_notify(LspParams::DidChange(p));
                            },
                            None => {},
                        }
                        self.lsp_handlers.insert(k, h);
                        sent = true;
                        proof {
                            assert(self.tracking_files@ =~= fs0.update(i as int, self.tracking_files@[i as int]));
                            assert(self.lsp_handlers@ =~= hs0.update(k as int, self.lsp_handlers@[k as int]));
                            let mid = Lspc {
                                lsp_handlers: self.lsp_handlers,
                                tracking_files: s0.tracking_files,
                                next_handler_id: self.next_handler_id,
                                editor_calls: self.editor_calls,
                            };
                            lemma_wf_handler_update(&s0, &mid, k as int);
                            lemma_wf_files_same_places(&mid, self);
                            assert(handler_at(hs_all, fi.handler(), k as int));
                            assert forall|k2: int| 0 <= k2 < hs_all.len() implies ticked_handler(
                                #[trigger] hs_all[k2],
                                self.handlers()[k2],
                                sub1,
                                now,
                            ) by {
                                let h_old = hs_all[k2];
                                let h_mid = hs0[k2];
                                let h_new = self.handlers()[k2];
                                assert(ticked_handler(h_old, h_mid, sub0, now));
                                if k2 != k {
                                    assert(h_new == h_mid);
                                    if k2 < k {
                                        assert(hs_all[k2].handler_id() != hs_all[k as int].handler_id());
                                    } else {
                                        assert(hs_all[k as int].handler_id() != hs_all[k2].handler_id());
                                    }
                                    assert(!sends_file(fi, h_old.handler_id(), now));
                                } else {
                                    let sends0 = tick_sends(sub0, h_old.handler_id(), now);
                                    let n0 = h_old.outbox().len();
                                    if pending is Some {
                                        assert(sends_file(fi, h_old.handler_id(), now));
                                        let sends1 = sends0.push(fi);
                                        assert(h_new.outbox() == out0.push(h_new.outbox().last()));
                                        assert(h_new.outbox().subrange(0, n0 as int) =~= h_old.outbox()) by {
                                            assert(out0.subrange(0, n0 as int) == h_old.outbox());
                                        }
                                        assert forall|j: int| 0 <= j < sends1.len() implies did_change_sent(
                                            #[trigger] h_new.outbox()[n0 + j],
                                            sends1[j].document(),
                                            sends1[j].current_version(),
                                            pending_of(sends1[j].sync())->0,
                                        ) by {
                                            if j < sends0.len() {
                                                assert(h_new.outbox()[n0 + j] == out0[n0 + j]);
                                                assert(sends1[j] == sends0[j]);
                                            }
                                        }
                                    } else {
                                        assert(!sends_file(fi, h_old.handler_id(), now));
                                        assert(h_new.outbox() == out0);
                                    }
                                }
                            }
                            assert forall|j: int| 0 <= j < i + 1 implies ticked_file(
                                #[trigger] fs_all[j],
                                self.files()[j],
                                hs_all,
                                now,
                            ) by {
                                if j < i {
                                    assert(self.files()[j] == fs0[j]);
                                }
                            }
                        }
                    }
                },
                None => {},
            }
            proof {
                if !sent {
                    assert(self.files()[i as int] == fi);
                    assert forall|k: int| #[trigger] handler_at(hs_all, fi.handler(), k) implies hs_all[k].is_disconnected() || !due(fi, now) by {
                        assert(ticked_handler(hs_all[k], self.handlers()[k], sub0, now));
                        if due(fi, now) {
                            assert(handler_at(self.handlers(), fi.handler(), k));
                        }
                    }
                    assert(ticked_file(fi, self.files()[i as int], hs_all, now));
                    assert forall|k2: int| 0 <= k2 < hs_all.len() implies ticked_handler(
                        #[trigger] hs_all[k2],
                        self.handlers()[k2],
                        sub1,
                        now,
                    ) by {
                        let h_old = hs_all[k2];
                        assert(ticked_handler(h_old, self.handlers()[k2], sub0, now));
                        if !h_old.is_disconnected() && sends_file(fi, h_old.handler_id(), now) {
                            assert(handler_at(hs_all, fi.handler(), k2));
                        }
                    }
                }
            }
            i = i + 1;
        }
        proof {
            assert(fs_all.subrange(0, fs_all.len() as int) =~= fs_all);
        }
        Ok(())
    }

    /// The messages waiting to be sent to server `handler_id`, oldest first;
    /// none are left.
    pub fn take_messages(&mut self, handler_id: u64) -> (r: Vec<LspOutgoing>)
        requires
            old(self).wf(),
        ensures
            final(self).wf(),
            final(self).files() == old(self).files(),
            final(self).calls() == old(self).calls(),
            final(self).last_handler_id() == old(self).last_handler_id(),
            final(self).handlers().len() == old(self).handlers().len(),
            forall|k: int| #[trigger] handler_at(old(self).handlers(), handler_id, k) ==> {
                &&& r@ == old(self).handlers()[k].outbox()
                &&& final(self).handlers()[k].outbox().len() == 0
                &&& final(self).handlers()[k].same_setup(&old(self).handlers()[k])
                &&& final(self).handlers()[k].callbacks() == old(self).handlers()[k].callbacks()
            },
            forall|k: int| 0 <= k < old(self).handlers().len() && !handler_at(old(self).handlers(), handler_id, k)
                ==> final(self).handlers()[k] == old(self).handlers()[k],
    {
        let k = match self.handler_index(handler_id) {
            Some(k) => k,
            None => {
                return Vec::new();
            },
        };
        let ghost hs0 = self.lsp_handlers@;
        let mut h = self.lsp_handlers.remove(k);
        let out = h.take_outbox();
        self.lsp_handlers.insert(k, h);
        proof {
            assert(hs0 == old(self).handlers());
            assert(self.lsp_handlers@ =~= hs0.update(k as int, self.lsp_handlers@[k as int]));
            lemma_wf_handler_update(old(self), self, k as int);
            assert forall|k2: int| #[trigger] handler_at(hs0, handler_id, k2) implies k2 == k by {
                if k2 < k {
                    assert(hs0[k2].handler_id() != hs0[k as int].handler_id());
                } else if k2 > k {
                    assert(hs0[k as int].handler_id() != hs0[k2].handler_id());
                }
            }
        }
        out
    }

    /// Records that server `handler_id` can no longer be written to.
    pub fn server_disconnected(&mut self, handler_id: u64)
        requires
            old(self).wf(),
        ensures
            final(self).wf(),
            final(self).files() == old(self).files(),
            final(self).calls() == old(self).calls(),
            final(self).handlers().len() == old(self).handlers().len(),
            forall|k: int| #[trigger] handler_at(old(self).handlers(), handler_id, k) ==> final(self).handlers()[k].is_disconnected(),
    {
        let k = match self.handler_index(handler_id) {
            Some(k) => k,
            None => {
                return;
            },
        };
        let ghost hs0 = self.lsp_handlers@;
        let mut h = self.lsp_handlers.remove(k);
        h.mark_disconnected();
        self.lsp_handlers.insert(k, h);
        proof {
            assert(hs0 == old(self).handlers());
            assert(self.lsp_handlers@ =~= hs0.update(k as int, self.lsp_handlers@[k as int]));
            lemma_wf_handler_update(old(self), self, k as int);
            assert forall|k2: int| #[trigger] handler_at(hs0, handler_id, k2) implies k2 == k by {
                if k2 < k {
                    assert(hs0[k2].handler_id() != hs0[k as int].handler_id());
                } else if k2 > k {
                    assert(hs0[k as int].handler_id() != hs0[k2].handler_id());
                }
            }
        }
    }
}

proof fn lemma_wf_frame(a: &Lspc, b: &Lspc)
    requires
        a.wf(),
        b.handlers() == a.handlers(),
        b.files() == a.files(),
        b.last_handler_id() == a.last_handler_id(),
    ensures
        b.wf(),
{
}

/// A handler replaced by one with the same id and root keeps the invariant.
proof fn lemma_wf_handler_update(a: &Lspc, b: &Lspc, k: int)
    requires
        a.wf(),
        0 <= k < a.handlers().len(),
        b.handlers().len() == a.handlers().len(),
        forall|j: int| 0 <= j < a.handlers().len() && j != k ==> b.handlers()[j] == a.handlers()[j],
        b.handlers()[k].wf(),
        b.handlers()[k].handler_id() == a.handlers()[k].handler_id(),
        b.handlers()[k].root() == a.handlers()[k].root(),
        b.files() == a.files(),
        b.last_handler_id() == a.last_handler_id(),
    ensures
        b.wf(),
{
    let hs = a.handlers();
    let hs2 = b.handlers();
    assert forall|j: int| 0 <= j < hs2.len() implies (#[trigger] hs2[j]).wf() && 1 <= hs2[j].handler_id()
        <= b.last_handler_id() by {
        assert(hs[j].wf());
    }
    assert forall|x: int, y: int| 0 <= x < y < hs2.len() implies (#[trigger] hs2[x]).handler_id()
        != (#[trigger] hs2[y]).handler_id() by {
        assert(hs[x].handler_id() != hs[y].handler_id());
    }
    assert forall|i: int| 0 <= i < b.files().len() implies file_covered(hs2, #[trigger] b.files()[i]) by {
        let f = b.files()[i];
        assert(file_covered(hs, a.files()[i]));
        let w = choose|w: int|
            0 <= w < hs.len() && (#[trigger] hs[w]).handler_id() == f.handler() && path_has_prefix(
                f.document().path,
                hs[w].root(),
            );
        assert(hs2[w].handler_id() == f.handler());
    }
}

/// Files replaced one for one by files of the same handler and document
/// keep the invariant.
proof fn lemma_wf_files_same_places(a: &Lspc, b: &Lspc)
    requires
        a.wf(),
        b.handlers() == a.handlers(),
        b.last_handler_id() == a.last_handler_id(),
        b.files().len() == a.files().len(),
        forall|i: int|
            0 <= i < a.files().len() ==> (#[trigger] b.files()[i]).handler() == a.files()[i].handler()
                && b.files()[i].document() == a.files()[i].document(),
    ensures
        b.wf(),
{
    let fs = a.files();
    let fs2 = b.files();
    assert forall|i: int| 0 <= i < fs2.len() implies file_covered(b.handlers(), #[trigger] fs2[i]) by {
        assert(file_covered(a.handlers(), fs[i]));
    }
    assert forall|x: int, y: int| 0 <= x < y < fs2.len() implies (#[trigger] fs2[x]).document().url
        != (#[trigger] fs2[y]).document().url by {
        assert(fs[x].document().url != fs[y].document().url);
    }
}

proof fn lemma_wf_file_removed(a: &Lspc, b: &Lspc, i: int)
    requires
        a.wf(),
        0 <= i < a.files().len(),
        b.handlers() == a.handlers(),
        b.last_handler_id() == a.last_handler_id(),
        b.files() == a.files().remove(i),
    ensures
        b.wf(),
{
    let fs = a.files();
    let fs2 = b.files();
    assert forall|j: int| 0 <= j < fs2.len() implies file_covered(b.handlers(), #[trigger] fs2[j]) by {
        let j2 = if j < i { j } else { j + 1 };
        assert(fs2[j] == fs[j2]);
        assert(file_covered(a.handlers(), fs[j2]));
    }
    assert forall|x: int, y: int| 0 <= x < y < fs2.len() implies (#[trigger] fs2[x]).document().url
        != (#[trigger] fs2[y]).document().url by {
        let x2 = if x < i { x } else { x + 1 };
        let y2 = if y < i { y } else { y + 1 };
        assert(fs2[x] == fs[x2]);
        assert(fs2[y] == fs[y2]);
    }
}

/// Every open document is served by a handler whose root holds its path.
pub proof fn lemma_root_containment(l: &Lspc, i: int)
    requires
        l.wf(),
        0 <= i < l.files().len(),
    ensures
        exists|k: int|
            0 <= k < l.handlers().len() && (#[trigger] l.handlers()[k]).handler_id() == l.files()[i].handler()
                && path_has_prefix(l.files()[i].document().path, l.handlers()[k].root()),
{
    assert(file_covered(l.handlers(), l.files()[i]));
}

} // verus!
