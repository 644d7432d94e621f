//! The broker's side of one running language server: the request ids it
//! hands out, the callbacks waiting for replies, the capabilities the server
//! advertised, the messages waiting to be sent, and the files it covers.
use vstd::prelude::*;
use crate::protocol::{
    Callback, LspOutgoing, LspParams, ResponseAction, ServerCapabilities, SyncKind,
    TextDocumentSync,
};

verus! {

/// Whether `path` lies under `base`, component by component, as
/// `std::path::Path::starts_with` says.
pub uninterp spec fn path_has_prefix(path: Seq<char>, base: Seq<char>) -> bool;

/// Relies on `std::path::Path::starts_with`, whose result depends on the two
/// paths alone.
#[verifier::external_body]
fn path_starts_with(path: &str, base: &str) -> (r: bool)
    ensures
        r == path_has_prefix(path@, base@),
{
    std::path::Path::new(path).starts_with(base)
}

/// How a language's code is indented.
#[derive(Debug, Clone, Copy, PartialEq, Eq, Structural)]
pub struct LangSettings {
    pub indentation: u64,
    pub indentation_with_space: bool,
}

/// An error met while talking to a language server.
#[derive(Debug)]
pub enum LangServerError {
    Process(String),
    ServerDisconnected,
    InvalidRequest(String),
    InvalidNotification(String),
    InvalidResponse(String),
}

/// The sync kind that capabilities advertise: the `change` of the options
/// where given, else the kind given alone, else the whole text.
pub open spec fn sync_kind_of(caps: Option<ServerCapabilities>) -> SyncKind {
    match caps {
        Some(c) => match c.text_document_sync {
            Some(TextDocumentSync::Kind(k)) => k,
            Some(TextDocumentSync::Options { change: Some(k) }) => k,
            _ => SyncKind::Full,
        },
        None => SyncKind::Full,
    }
}

/// Whether `id` stands in exactly one entry of `cbs`.
pub open spec fn pending_once(cbs: Seq<Callback>, id: u64) -> bool {
    exists|i: int|
        0 <= i < cbs.len() && (#[trigger] cbs[i]).id == id && forall|j: int|
            0 <= j < cbs.len() && j != i ==> (#[trigger] cbs[j]).id != id
}

pub open spec fn is_pending(cbs: Seq<Callback>, id: u64) -> bool {
    exists|i: int| 0 <= i < cbs.len() && (#[trigger] cbs[i]).id == id
}

pub struct LangServerHandler {
    id: u64,
    lang_id: String,
    lang_settings: LangSettings,
    root_path: String,
    callbacks: Vec<Callback>,
    next_id: u64,
    server_capabilities: Option<ServerCapabilities>,
    outbox: Vec<LspOutgoing>,
    disconnected: bool,
    /// Every request id handed out, in order.
    issued: Ghost<Seq<u64>>,
    /// Every request id whose callback was taken.
    delivered: Ghost<Set<u64>>,
}

impl LangServerHandler {
    pub closed spec fn handler_id(&self) -> u64 {
        self.id
    }

    pub closed spec fn language(&self) -> Seq<char> {
        self.lang_id@
    }

    pub closed spec fn settings(&self) -> LangSettings {
        self.lang_settings
    }

    pub fn id(&self) -> (r: u64)
        ensures
            r == self.handler_id(),
    {
        self.id
    }

    pub fn lang_id(&self) -> (r: &String)
        ensures
            r@ == self.language(),
    {
        &self.lang_id
    }

    pub fn lang_settings(&self) -> (r: LangSettings)
        ensures
            r == self.settings(),
    {
        self.lang_settings
    }

    pub closed spec fn root(&self) -> Seq<char> {
        self.root_path@
    }

    pub closed spec fn callbacks(&self) -> Seq<Callback> {
        self.callbacks@
    }

    pub closed spec fn next_request_id(&self) -> u64 {
        self.next_id
    }

    pub closed spec fn capabilities(&self) -> Option<ServerCapabilities> {
        self.server_capabilities
    }

    pub closed spec fn outbox(&self) -> Seq<LspOutgoing> {
        self.outbox@
    }

    pub closed spec fn is_disconnected(&self) -> bool {
        self.disconnected
    }

    pub closed spec fn issued_ids(&self) -> Seq<u64> {
        self.issued@
    }

    pub closed spec fn delivered_ids(&self) -> Set<u64> {
        self.delivered@
    }

    /// The handler's invariant: the ids handed out are 1, 2, ... up to the
    /// next one, and each of them waits in exactly one callback or has been
    /// delivered, never both.
    pub open spec fn wf(&self) -> bool {
        let issued = self.issued_ids();
        let cbs = self.callbacks();
        let next = self.next_request_id();
        &&& next >= 1
        &&& issued.len() == next - 1
        &&& forall|k: int| 0 <= k < issued.len() ==> #[trigger] issued[k] == k + 1
        &&& forall|i: int, j: int|
            0 <= i < j < cbs.len() ==> (#[trigger] cbs[i]).id != (#[trigger] cbs[j]).id
        &&& forall|i: int|
            0 <= i < cbs.len() ==> 1 <= (#[trigger] cbs[i]).id < next
                && !self.delivered_ids().contains(cbs[i].id)
        &&& forall|id: u64| #[trigger] self.delivered_ids().contains(id) ==> 1 <= id < next
        &&& forall|id: u64|
            #![trigger self.delivered_ids().contains(id)]
            #![trigger is_pending(cbs, id)]
            1 <= id < next ==> self.delivered_ids().contains(id) || is_pending(cbs, id)
    }

    /// Everything but the callbacks, the ids and the outbox is as in `other`.
    pub open spec fn same_setup(&self, other: &LangServerHandler) -> bool {
        &&& self.handler_id() == other.handler_id()
        &&& self.language() == other.language()
        &&& self.settings() == other.settings()
        &&& self.root() == other.root()
        &&& self.capabilities() == other.capabilities()
        &&& self.is_disconnected() == other.is_disconnected()
    }

    /// Everything but the link to the server is as in `other`.
    pub open spec fn same_setup_but_link(&self, other: &LangServerHandler) -> bool {
        &&& self.handler_id() == other.handler_id()
        &&& self.language() == other.language()
        &&& self.settings() == other.settings()
        &&& self.root() == other.root()
        &&& self.capabilities() == other.capabilities()
    }

    /// A handler for a server of `lang_id` rooted at `root_path`, with no
    /// request made yet.
    pub fn new(id: u64, lang_id: String, lang_settings: LangSettings, root_path: String) -> (r: Self)
        ensures
            r.wf(),
            r.handler_id() == id,
            r.language() == lang_id@,
            r.settings() == lang_settings,
            r.root() == root_path@,
            r.callbacks().len() == 0,
            r.next_request_id() == 1,
            r.capabilities() is None,
            r.outbox().len() == 0,
            !r.is_disconnected(),
            r.issued_ids().len() == 0,
            r.delivered_ids().is_empty(),
    {
        LangServerHandler {
            id,
            lang_id,
            lang_settings,
            root_path,
            callbacks: Vec::new(),
            next_id: 1,
            server_capabilities: None,
            outbox: Vec::new(),
            disconnected: false,
            issued: Ghost(Seq::empty()),
            delivered: Ghost(Set::empty()),
        }
    }

    /// Whether messages can still be sent to the server.
    pub fn is_connected(&self) -> (r: bool)
        ensures
            r == !self.is_disconnected(),
    {
        !self.disconnected
    }

    /// The directory the server was started for.
    pub fn root_path(&self) -> (r: &String)
        ensures
            r@ == self.root(),
    {
        &self.root_path
    }

    /// Whether the file at `file_path` lies under this server's root.
    pub fn include_file(&self, file_path: &str) -> (r: bool)
        ensures
            r == path_has_prefix(file_path@, self.root()),
    {
        path_starts_with(file_path, self.root_path.as_str())
    }

    /// How the server wants document changes.
    pub fn sync_kind(&self) -> (r: SyncKind)
        ensures
            r == sync_kind_of(self.capabilities()),
    {
        match self.server_capabilities {
            Some(c) => match c.text_document_sync {
                Some(TextDocumentSync::Kind(k)) => k,
                Some(TextDocumentSync::Options { change: Some(k) }) => k,
                _ => SyncKind::Full,
            },
            None => SyncKind::Full,
        }
    }

    /// The callback waiting for the reply `id`, taken out of the table.
    pub fn callback_for(&mut self, id: u64) -> (r: Option<Callback>)
        requires
            old(self).wf(),
        ensures
            final(self).wf(),
            final(self).same_setup(old(self)),
            final(self).next_request_id() == old(self).next_request_id(),
            final(self).outbox() == old(self).outbox(),
            final(self).issued_ids() == old(self).issued_ids(),
            r is Some <==> is_pending(old(self).callbacks(), id),
            match r {
                Some(cb) => {
                    &&& cb.id == id
                    &&& exists|i: int|
                        0 <= i < old(self).callbacks().len() && old(self).callbacks()[i] == cb
                            && final(self).callbacks() == old(self).callbacks().remove(i)
                    &&& final(self).delivered_ids() == old(self).delivered_ids().insert(id)
                },
                None => *final(self) == *old(self),
            },
    {
        let found = find_callback(&self.callbacks, id);
        match found {
            Some(i) => {
                let ghost before = self.callbacks@;
                let cb = self.callbacks.remove(i);
                self.delivered = Ghost(self.delivered@.insert(id));
                proof {
                    let after = self.callbacks@;
                    assert(after == before.remove(i as int));
                    assert forall|a: int, b: int| 0 <= a < b < after.len() implies (#[trigger] after[a]).id
                        != (#[trigger] after[b]).id by {
                        let a2 = if a < i { a } else { a + 1 };
                        let b2 = if b < i { b } else { b + 1 };
                        assert(after[a] == before[a2]);
                        assert(after[b] == before[b2]);
                    }
                    assert forall|k: int| 0 <= k < after.len() implies 1 <= (#[trigger] after[k]).id
                        < self.next_id && !self.delivered@.contains(after[k].id) by {
                        let k2 = if k < i { k } else { k + 1 };
                        assert(after[k] == before[k2]);
                        assert(before[k2].id != before[i as int].id);
                    }
                    assert forall|x: u64| 1 <= x < self.next_id implies #[trigger] self.delivered@.contains(x)
                        || is_pending(after, x) by {
                        if !self.delivered@.contains(x) {
                            assert(x != id);
                            assert(!old(self).delivered@.contains(x));
                            assert(is_pending(before, x));
                            let w = choose|w: int| 0 <= w < before.len() && (#[trigger] before[w]).id == x;
                            assert(w != i);
                            let w2 = if w < i { w } else { w - 1 };
                            assert(after[w2] == before[w]);
                        }
                    }
                    assert(cb == before[i as int]);
                }
                Some(cb)
            },
            None => None,
        }
    }

    /// Records the capabilities from the reply to `initialize`, then tells the
    /// server it is initialized.
    pub fn initialize_response(&mut self, capabilities: ServerCapabilities) -> (r: Result<(), LangServerError>)
        requires
            old(self).wf(),
        ensures
            final(self).wf(),
            final(self).capabilities() == Some(capabilities),
            final(self).handler_id() == old(self).handler_id(),
            final(self).language() == old(self).language(),
            final(self).settings() == old(self).settings(),
            final(self).root() == old(self).root(),
            final(self).is_disconnected() == old(self).is_disconnected(),
            final(self).callbacks() == old(self).callbacks(),
            final(self).next_request_id() == old(self).next_request_id(),
            final(self).issued_ids() == old(self).issued_ids(),
            final(self).delivered_ids() == old(self).delivered_ids(),
            r is Ok <==> !old(self).is_disconnected(),
            r is Ok ==> final(self).outbox() == old(self).outbox().push(
                LspOutgoing::Notification { params: LspParams::Initialized },
            ),
            r is Err ==> final(self).outbox() == old(self).outbox() && r->Err_0 is ServerDisconnected,
    {
        self.server_capabilities = Some(capabilities);
        proof {
            lemma_wf_frame(old(self), self);
        }
        self.initialized()
    }

    /// Tells the server it is initialized.
    pub fn initialized(&mut self) -> (r: Result<(), LangServerError>)
        requires
            old(self).wf(),
        ensures
            final(self).wf(),
            final(self).same_setup(old(self)),
            final(self).callbacks() == old(self).callbacks(),
            final(self).next_request_id() == old(self).next_request_id(),
            final(self).issued_ids() == old(self).issued_ids(),
            final(self).delivered_ids() == old(self).delivered_ids(),
            r is Ok <==> !old(self).is_disconnected(),
            r is Ok ==> final(self).outbox() == old(self).outbox().push(
                LspOutgoing::Notification { params: LspParams::Initialized },
            ),
            r is Err ==> final(self).outbox() == old(self).outbox() && r->Err_0 is ServerDisconnected,
    {
        self.lsp_notify(LspParams::Initialized)
    }

    fn send_msg(&mut self, msg: LspOutgoing) -> (r: Result<(), LangServerError>)
        requires
            old(self).wf(),
        ensures
            final(self).wf(),
            final(self).same_setup(old(self)),
            final(self).callbacks() == old(self).callbacks(),
            final(self).next_request_id() == old(self).next_request_id(),
            final(self).issued_ids() == old(self).issued_ids(),
            final(self).delivered_ids() == old(self).delivered_ids(),
            r is Ok <==> !old(self).is_disconnected(),
            r is Ok ==> final(self).outbox() == old(self).outbox().push(msg),
            r is Err ==> final(self).outbox() == old(self).outbox() && r->Err_0 is ServerDisconnected,
    {
        if self.disconnected {
            return Err(LangServerError::ServerDisconnected);
        }
        self.outbox.push(msg);
        proof {
            lemma_wf_frame(old(self), self);
        }
        Ok(())
    }

    /// Sends a request with a fresh id and keeps `action` for its reply.
    /// Fails, changing nothing, once the server is disconnected or the ids
    /// are used up.
    pub fn lsp_request(&mut self, params: LspParams, action: ResponseAction) -> (r: Result<u64, LangServerError>)
        requires
            old(self).wf(),
        ensures
            final(self).wf(),
            final(self).same_setup(old(self)),
            final(self).delivered_ids() == old(self).delivered_ids(),
            r is Ok <==> !old(self).is_disconnected() && old(self).next_request_id() < u64::MAX,
            match r {
                Ok(id) => {
                    &&& id == old(self).next_request_id()
                    &&& final(self).next_request_id() == id + 1
                    &&& final(self).issued_ids() == old(self).issued_ids().push(id)
                    &&& final(self).callbacks() == old(self).callbacks().push(Callback { id, action })
                    &&& final(self).outbox() == old(self).outbox().push(
                        LspOutgoing::Request { id, params },
                    )
                },
                Err(e) => {
                    &&& old(self).is_disconnected() ==> e is ServerDisconnected
                    &&& final(self).next_request_id() == old(self).next_request_id()
                    &&& final(self).issued_ids() == old(self).issued_ids()
                    &&& final(self).callbacks() == old(self).callbacks()
                    &&& final(self).outbox() == old(self).outbox()
                },
            },
    {
        if self.disconnected {
            return Err(LangServerError::ServerDisconnected);
        }
        if self.next_id == u64::MAX {
            return Err(LangServerError::InvalidRequest("request ids are used up".to_owned()));
        }
        let id = self.fetch_id();
        let ghost before = self.callbacks@;
        self.callbacks.push(Callback { id, action });
        proof {
            let cbs = self.callbacks@;
            assert forall|a: int, b: int| 0 <= a < b < cbs.len() implies (#[trigger] cbs[a]).id
                != (#[trigger] cbs[b]).id by {
                if b == cbs.len() - 1 {
                    assert(cbs[a] == before[a]);
                } else {
                    assert(cbs[a] == before[a]);
                    assert(cbs[b] == before[b]);
                }
            }
            assert forall|k: int| 0 <= k < cbs.len() implies 1 <= (#[trigger] cbs[k]).id < self.next_id
                && !self.delivered@.contains(cbs[k].id) by {
                if k < cbs.len() - 1 {
                    assert(cbs[k] == before[k]);
                }
            }
            assert forall|x: u64| 1 <= x < self.next_id implies #[trigger] self.delivered@.contains(x)
                || is_pending(cbs, x) by {
                if x == id {
                    assert(cbs[cbs.len() - 1].id == id);
                } else if !self.delivered@.contains(x) {
                    assert(is_pending(before, x));
                    let v = choose|v: int| 0 <= v < before.len() && (#[trigger] before[v]).id == x;
                    assert(cbs[v] == before[v]);
                }
            }
        }
        let sent = self.send_msg(LspOutgoing::Request { id, params });
        Ok(id)
    }

    fn fetch_id(&mut self) -> (r: u64)
        requires
            old(self).wf(),
            old(self).next_request_id() < u64::MAX,
        ensures
            r == old(self).next_request_id(),
            final(self).next_request_id() == r + 1,
            final(self).issued_ids() == old(self).issued_ids().push(r),
            final(self).same_setup(old(self)),
            final(self).callbacks() == old(self).callbacks(),
            final(self).outbox() == old(self).outbox(),
            final(self).delivered_ids() == old(self).delivered_ids(),
            final(self).issued_ids().len() == final(self).next_request_id() - 1,
            forall|k: int|
                0 <= k < final(self).issued_ids().len() ==> #[trigger] final(self).issued_ids()[k] == k + 1,
    {
        let id = self.next_id;
        self.next_id = self.next_id + 1;
        self.issued = Ghost(self.issued@.push(id));
        assert forall|k: int| 0 <= k < self.issued@.len() implies #[trigger] self.issued@[k] == k + 1 by {
            if k < self.issued@.len() - 1 {
                assert(self.issued@[k] == old(self).issued@[k]);
            }
        }
        id
    }

    /// Sends a notification; fails, changing nothing, once the server is disconnected.
    pub fn lsp_notify(&mut self, params: LspParams) -> (r: Result<(), LangServerError>)
        requires
            old(self).wf(),
        ensures
            final(self).wf(),
            final(self).same_setup(old(self)),
            final(self).callbacks() == old(self).callbacks(),
            final(self).next_request_id() == old(self).next_request_id(),
            final(self).issued_ids() == old(self).issued_ids(),
            final(self).delivered_ids() == old(self).delivered_ids(),
            r is Ok <==> !old(self).is_disconnected(),
            r is Ok ==> final(self).outbox() == old(self).outbox().push(
                LspOutgoing::Notification { params },
            ),
            r is Err ==> final(self).outbox() == old(self).outbox() && r->Err_0 is ServerDisconnected,
    {
        self.send_msg(LspOutgoing::Notification { params })
    }

    /// The messages waiting to be sent, oldest first; the queue is left empty.
    pub fn take_outbox(&mut self) -> (r: Vec<LspOutgoing>)
        requires
            old(self).wf(),
        ensures
            final(self).wf(),
            final(self).same_setup(old(self)),
            r@ == old(self).outbox(),
            final(self).outbox().len() == 0,
            final(self).callbacks() == old(self).callbacks(),
            final(self).next_request_id() == old(self).next_request_id(),
            final(self).issued_ids() == old(self).issued_ids(),
            final(self).delivered_ids() == old(self).delivered_ids(),
    {
        let mut out: Vec<LspOutgoing> = Vec::new();
        std::mem::swap(&mut self.outbox, &mut out);
        proof {
            lemma_wf_frame(old(self), self);
        }
        out
    }

    /// Records that the server's input has closed: nothing more can be sent.
    pub fn mark_disconnected(&mut self)
        requires
            old(self).wf(),
        ensures
            final(self).wf(),
            final(self).is_disconnected(),
            final(self).same_setup_but_link(old(self)),
            final(self).root() == old(self).root(),
            final(self).callbacks() == old(self).callbacks(),
            final(self).outbox() == old(self).outbox(),
            final(self).issued_ids() == old(self).issued_ids(),
            final(self).delivered_ids() == old(self).delivered_ids(),
    {
        self.disconnected = true;
        proof {
            lemma_wf_frame(old(self), self);
        }
    }
}

/// The ids a handler hands out are positive and strictly increasing, so no
/// two are the same.
pub proof fn lemma_request_ids_increase(h: &LangServerHandler)
    requires
        h.wf(),
    ensures
        forall|i: int, j: int|
            #![trigger h.issued_ids()[i], h.issued_ids()[j]]
            0 <= i < j < h.issued_ids().len() ==> 0 < h.issued_ids()[i] < h.issued_ids()[j],
{
}

/// Every request a handler made either waits in exactly one entry of its
/// callback table or has had its callback taken, once.
pub proof fn lemma_callbacks_conserved(h: &LangServerHandler, id: u64)
    requires
        h.wf(),
        h.issued_ids().contains(id),
    ensures
        h.delivered_ids().contains(id) <==> !is_pending(h.callbacks(), id),
        !h.delivered_ids().contains(id) ==> pending_once(h.callbacks(), id),
{
    let cbs = h.callbacks();
    let k = choose|k: int| 0 <= k < h.issued_ids().len() && h.issued_ids()[k] == id;
    assert(h.issued_ids()[k] == k + 1);
    assert(h.delivered_ids().contains(id) || is_pending(cbs, id));
    if is_pending(cbs, id) {
        let i = choose|i: int| 0 <= i < cbs.len() && (#[trigger] cbs[i]).id == id;
        assert(!h.delivered_ids().contains(cbs[i].id));
        assert forall|j: int| 0 <= j < cbs.len() && j != i implies (#[trigger] cbs[j]).id != id by {
            if j < i {
                assert(cbs[j].id != cbs[i].id);
            } else {
                assert(cbs[i].id != cbs[j].id);
            }
        }
    }
}

proof fn lemma_wf_frame(a: &LangServerHandler, b: &LangServerHandler)
    requires
        a.wf(),
        b.callbacks() == a.callbacks(),
        b.next_request_id() == a.next_request_id(),
        b.issued_ids() == a.issued_ids(),
        b.delivered_ids() == a.delivered_ids(),
    ensures
        b.wf(),
{
}

fn find_callback(cbs: &Vec<Callback>, id: u64) -> (r: Option<usize>)
    ensures
        r is Some <==> is_pending(cbs@, id),
        r is Some ==> r->0 < cbs@.len() && cbs@[r->0 as int].id == id,
{
    let mut i: usize = 0;
    while i < cbs.len()
        invariant
            i <= cbs.len(),
            forall|k: int| 0 <= k < i ==> (#[trigger] cbs@[k]).id != id,
        decreases cbs.len() - i,
    {
        if cbs[i].id == id {
            return Some(i);
        }
        i = i + 1;
    }
    None
}

} // verus!
