//! What the broker says to a language server and what it reads back, held
//! as the broker's own data; the application turns it into JSON-RPC.
use vstd::prelude::*;
use crate::edits::{Position, Range, TextEdit};
use crate::events::{ContentChange, DocumentUri};

verus! {

/// How a server wants document changes: not at all, the whole text, or the
/// changed ranges.
#[derive(Debug, Clone, Copy, PartialEq, Eq, Structural)]
pub enum SyncKind {
    Off,
    Full,
    Incremental,
}

/// The document synchronisation a server advertises.
#[derive(Debug, Clone, Copy, PartialEq, Eq, Structural)]
pub enum TextDocumentSync {
    Kind(SyncKind),
    Options { change: Option<SyncKind> },
}

/// The part of a server's capabilities that the broker reads.
#[derive(Debug, Clone, Copy, PartialEq, Eq, Structural)]
pub struct ServerCapabilities {
    pub text_document_sync: Option<TextDocumentSync>,
}

/// The parameters of a request or notification to a server; each kind
/// names its method.
#[derive(Debug)]
pub enum LspParams {
    /// `initialize`; the application adds the process id and the editor's capabilities.
    Initialize { root_path: String, root_uri: String },
    /// `initialized`.
    Initialized,
    /// `textDocument/hover`.
    Hover { text_document: DocumentUri, position: Position },
    /// `textDocument/definition`.
    Definition { text_document: DocumentUri, position: Position },
    /// `textDocument/references`.
    References { text_document: DocumentUri, position: Position, include_declaration: bool },
    /// `textDocument/formatting`.
    Formatting { text_document: DocumentUri, tab_size: u64, insert_spaces: bool },
    /// `rust-analyzer/inlayHints`.
    InlayHints { text_document: DocumentUri },
    /// `textDocument/didOpen`.
    DidOpen { text_document: DocumentUri, language_id: String, version: i64, text: String },
    /// `textDocument/didChange`.
    DidChange(DidChangeParams),
    /// `textDocument/didClose`.
    DidClose { text_document: DocumentUri },
}

/// The changes of a document sent to its server.
#[derive(Debug)]
pub struct DidChangeParams {
    pub text_document: DocumentUri,
    pub version: i64,
    pub content_changes: Vec<ContentChange>,
}

/// A message to a server.
#[derive(Debug)]
pub enum LspOutgoing {
    Request { id: u64, params: LspParams },
    Notification { params: LspParams },
}

/// A place in a document.
#[derive(Debug)]
pub struct Location {
    pub uri: String,
    pub range: Range,
}

/// How the text of a hover is marked up.
#[derive(Debug, Clone, Copy, PartialEq, Eq, Structural)]
pub enum MarkupKind {
    PlainText,
    Markdown,
}

#[derive(Debug)]
pub enum MarkedString {
    Plain(String),
    LanguageString { language: String, value: String },
}

#[derive(Debug)]
pub struct MarkupContent {
    pub kind: MarkupKind,
    pub value: String,
}

#[derive(Debug)]
pub enum HoverContents {
    Scalar(MarkedString),
    Array(Vec<MarkedString>),
    Markup(MarkupContent),
}

/// What a server says of the symbol under the cursor.
#[derive(Debug)]
pub struct Hover {
    pub contents: HoverContents,
}

/// Where a symbol is defined.
#[derive(Debug)]
pub enum DefinitionReply {
    Scalar(Location),
    Array(Vec<Location>),
    /// Location links, which the broker does not follow.
    Link,
}

#[derive(Debug, Clone, Copy, PartialEq, Eq, Structural)]
pub enum InlayKind {
    TypeHint,
}

/// A hint shown inside the text, such as an inferred type.
#[derive(Debug)]
pub struct InlayHint {
    pub range: Range,
    pub kind: InlayKind,
    pub label: String,
}

/// A server's reply to a request, read as the request's kind asks.
#[derive(Debug)]
pub enum LspReply {
    Initialize(ServerCapabilities),
    Hover(Option<Hover>),
    Definition(Option<DefinitionReply>),
    InlayHints(Vec<InlayHint>),
    Formatting(Option<Vec<TextEdit>>),
    References(Option<Vec<Location>>),
}

/// What the broker does with the reply to a request.
#[derive(Debug)]
pub enum ResponseAction {
    /// Record the capabilities, tell the server it is initialized, tell the
    /// editor, and have the editor announce its open buffers.
    Initialize,
    /// Show the hover for the document.
    Hover { text_document: DocumentUri },
    /// Jump to the definition.
    GotoDefinition,
    /// Show the hints in the document.
    InlayHints { text_document: DocumentUri },
    /// Apply the edits to these lines of the document.
    Formatting { lines: Vec<String> },
    /// List the references.
    References,
}

/// A request waiting for its reply, and what to do with the reply.
#[derive(Debug)]
pub struct Callback {
    pub id: u64,
    pub action: ResponseAction,
}

/// Whether a reply is of the kind that an action reads.
pub open spec fn reply_fits(action: ResponseAction, reply: LspReply) -> bool {
    match (action, reply) {
        (ResponseAction::Initialize, LspReply::Initialize(_)) => true,
        (ResponseAction::Hover { .. }, LspReply::Hover(_)) => true,
        (ResponseAction::GotoDefinition, LspReply::Definition(_)) => true,
        (ResponseAction::InlayHints { .. }, LspReply::InlayHints(_)) => true,
        (ResponseAction::Formatting { .. }, LspReply::Formatting(_)) => true,
        (ResponseAction::References, LspReply::References(_)) => true,
        _ => false,
    }
}

/// A call the broker makes on the editor.
#[derive(Debug)]
pub enum EditorCall {
    SayHello,
    Message(String),
    ShowHover { text_document: DocumentUri, hover: Hover },
    InlineHints { text_document: DocumentUri, hints: Vec<InlayHint> },
    ShowReferences(Vec<Location>),
    Goto(Location),
    /// Replace the document's lines by the lines given.
    ApplyEdits { lines: Vec<String> },
    TrackAllBuffers,
    WatchFileEvents(DocumentUri),
}

} // verus!
