//! The broker's shadow of one open buffer: its version, the changes not yet
//! sent to the server (or the whole text, for servers that take the whole
//! text), and when they are due to be sent.
use vstd::prelude::*;
use crate::events::{ChangeModel, ContentChange, DocumentUri, UriModel};
use crate::nvim::BufferHandler;
use crate::protocol::{DidChangeParams, SyncKind};

verus! {

#[verifier::external_type_specification]
#[verifier::external_body]
pub struct ExRope(ropey::Rope);

/// The characters that a rope holds.
pub uninterp spec fn rope_chars(r: ropey::Rope) -> Seq<char>;

/// The number of lines that `ropey::Rope::len_lines` counts in a text.
pub uninterp spec fn line_count_of(text: Seq<char>) -> nat;

/// The index of the first character of a line, as `ropey::Rope::line_to_char` gives it.
pub uninterp spec fn line_start_of(text: Seq<char>, line: int) -> int;

/// Relies on `ropey::Rope::new`: an empty rope.
#[verifier::external_body]
fn rope_new() -> (r: ropey::Rope)
    ensures
        rope_chars(r) == Seq::<char>::empty(),
{
    ropey::Rope::new()
}

/// Relies on `ropey::Rope::from_str`: a rope of the characters of `text`.
#[verifier::external_body]
fn rope_from_str(text: &str) -> (r: ropey::Rope)
    ensures
        rope_chars(r) == text@,
{
    ropey::Rope::from_str(text)
}

/// Relies on `ropey::Rope::len_chars`: the number of characters.
#[verifier::external_body]
fn rope_len_chars(rope: &ropey::Rope) -> (r: usize)
    ensures
        r == rope_chars(*rope).len(),
{
    rope.len_chars()
}

/// Relies on `ropey::Rope::len_lines`: the number of lines.
#[verifier::external_body]
fn rope_len_lines(rope: &ropey::Rope) -> (r: usize)
    ensures
        r == line_count_of(rope_chars(*rope)),
{
    rope.len_lines()
}

/// Relies on `ropey::Rope::line_to_char`: where a line starts, at most one
/// past the last character; it panics past one-past-the-last line.
#[verifier::external_body]
fn rope_line_to_char(rope: &ropey::Rope, line: usize) -> (r: usize)
    requires
        line <= line_count_of(rope_chars(*rope)),
    ensures
        r == line_start_of(rope_chars(*rope), line as int),
        r <= rope_chars(*rope).len(),
{
    rope.line_to_char(line)
}

/// Relies on `ropey::Rope::remove`: the characters in `[start, end)` are
/// taken out; it panics on a range that is reversed or past the end.
#[verifier::external_body]
fn rope_remove(rope: &mut ropey::Rope, start: usize, end: usize)
    requires
        start <= end <= rope_chars(*old(rope)).len(),
    ensures
        rope_chars(*final(rope)) == rope_chars(*old(rope)).subrange(0, start as int)
            + rope_chars(*old(rope)).subrange(end as int, rope_chars(*old(rope)).len() as int),
{
    rope.remove(start..end)
}

/// Relies on `ropey::Rope::insert`: `text` is put in before the character
/// `at`; it panics past the end.
#[verifier::external_body]
fn rope_insert(rope: &mut ropey::Rope, at: usize, text: &str)
    requires
        at <= rope_chars(*old(rope)).len(),
    ensures
        rope_chars(*final(rope)) == rope_chars(*old(rope)).subrange(0, at as int) + text@
            + rope_chars(*old(rope)).subrange(at as int, rope_chars(*old(rope)).len() as int),
{
    rope.insert(at, text)
}

/// Relies on the `Display` of `ropey::Rope`, which writes its characters in order.
#[verifier::external_body]
fn rope_text(rope: &ropey::Rope) -> (r: String)
    ensures
        r@ == rope_chars(*rope),
{
    rope.to_string()
}

/// The milliseconds that changes wait before they are sent.
pub const SYNC_DELAY_MS: u64 = 500;

/// What is kept of a document between two sends.
pub enum SyncData {
    /// The changed ranges not sent yet.
    Incremental(Vec<ContentChange>),
    /// The whole text.
    Full(ropey::Rope),
    /// Nothing: the server takes no changes.
    Off,
}

pub enum SyncModel {
    Incremental(Seq<ChangeModel>),
    Full(Seq<char>),
    Off,
}

pub open spec fn changes_view(s: Seq<ContentChange>) -> Seq<ChangeModel> {
    s.map_values(|c: ContentChange| c@)
}

impl View for SyncData {
    type V = SyncModel;

    open spec fn view(&self) -> SyncModel {
        match self {
            SyncData::Incremental(q) => SyncModel::Incremental(changes_view(q@)),
            SyncData::Full(rope) => SyncModel::Full(rope_chars(*rope)),
            SyncData::Off => SyncModel::Off,
        }
    }
}

/// What is kept after a change: a change with a range is queued, replacing
/// the last one queued where that has the same range, and one without a
/// range is dropped; for the whole text, a change without a range replaces
/// it, and one with a range replaces its lines (a line past the end counts
/// as the end), columns aside.
pub open spec fn tracked_after(s: SyncModel, change: ChangeModel) -> SyncModel {
    match s {
        SyncModel::Off => SyncModel::Off,
        SyncModel::Incremental(q) => match change.range {
            None => s,
            Some(r) => if q.len() > 0 && q.last().range == Some(r) {
                SyncModel::Incremental(q.update(q.len() - 1, change))
            } else {
                SyncModel::Incremental(q.push(change))
            },
        },
        SyncModel::Full(t) => match change.range {
            None => SyncModel::Full(change.text),
            Some(r) => {
                let n = line_count_of(t) as int;
                let sl = if r.start.line <= n { r.start.line as int } else { n };
                let el = if r.end.line <= n { r.end.line as int } else { n };
                let s0 = line_start_of(t, sl);
                let e0 = line_start_of(t, el);
                if s0 <= e0 {
                    SyncModel::Full(t.subrange(0, s0) + change.text + t.subrange(e0, t.len() as int))
                } else {
                    s
                }
            },
        },
    }
}

/// The version a file holds after a change: the one the editor gives.
pub open spec fn version_after_change(before: i64, given: i64) -> i64 {
    given
}

/// When changes are due after a change at `now`: where a send is already
/// due, it stays; else `delay` after `now`.
pub open spec fn schedule_after(s: Option<u64>, now: u64, delay: u64) -> Option<u64> {
    match s {
        Some(t) => Some(t),
        None => Some(if now + delay <= u64::MAX { (now + delay) as u64 } else { u64::MAX }),
    }
}

/// The shadow of one open buffer.
pub struct TrackingFile {
    handler_id: u64,
    buf_id: BufferHandler,
    sent_did_open: bool,
    scheduled_sync_at: Option<u64>,
    version: i64,
    uri: DocumentUri,
    sync_data: SyncData,
}

impl TrackingFile {
    pub closed spec fn handler(&self) -> u64 {
        self.handler_id
    }

    pub closed spec fn buffer(&self) -> BufferHandler {
        self.buf_id
    }

    pub closed spec fn opened(&self) -> bool {
        self.sent_did_open
    }

    pub closed spec fn scheduled(&self) -> Option<u64> {
        self.scheduled_sync_at
    }

    pub closed spec fn current_version(&self) -> i64 {
        self.version
    }

    pub closed spec fn document(&self) -> UriModel {
        self.uri@
    }

    pub closed spec fn sync(&self) -> SyncModel {
        self.sync_data@
    }

    /// A file of buffer `buf_id` at `uri`, served by handler `handler_id`,
    /// which takes changes in the way `sync_kind` says.
    pub fn new(handler_id: u64, buf_id: BufferHandler, uri: DocumentUri, sync_kind: SyncKind) -> (r: Self)
        ensures
            r.handler() == handler_id,
            r.buffer() == buf_id,
            !r.opened(),
            r.scheduled() is None,
            r.current_version() == 0,
            r.document() == uri@,
            r.sync() == (match sync_kind {
                SyncKind::Off => SyncModel::Off,
                SyncKind::Incremental => SyncModel::Incremental(Seq::empty()),
                SyncKind::Full => SyncModel::Full(Seq::empty()),
            }),
    {
        let sync_data = match sync_kind {
            SyncKind::Off => SyncData::Off,
            SyncKind::Incremental => SyncData::Incremental(Vec::new()),
            SyncKind::Full => SyncData::Full(rope_new()),
        };
        proof {
            if sync_kind == SyncKind::Incremental {
                assert(changes_view(Seq::<ContentChange>::empty()) =~= Seq::<ChangeModel>::empty());
            }
        }
        TrackingFile {
            handler_id,
            buf_id,
            sent_did_open: false,
            scheduled_sync_at: None,
            version: 0,
            uri,
            sync_data,
        }
    }

    pub fn handler_id(&self) -> (r: u64)
        ensures
            r == self.handler(),
    {
        self.handler_id
    }

    pub fn buf_id(&self) -> (r: BufferHandler)
        ensures
            r == self.buffer(),
    {
        self.buf_id
    }

    pub fn sent_did_open(&self) -> (r: bool)
        ensures
            r == self.opened(),
    {
        self.sent_did_open
    }

    pub fn scheduled_sync_at(&self) -> (r: Option<u64>)
        ensures
            r == self.scheduled(),
    {
        self.scheduled_sync_at
    }

    pub fn version(&self) -> (r: i64)
        ensures
            r == self.current_version(),
    {
        self.version
    }

    pub fn uri(&self) -> (r: &DocumentUri)
        ensures
            r@ == self.document(),
    {
        &self.uri
    }

    /// Records that the server has been sent the document.
    pub fn mark_opened(&mut self)
        ensures
            final(self).opened(),
            final(self).handler() == old(self).handler(),
            final(self).buffer() == old(self).buffer(),
            final(self).scheduled() == old(self).scheduled(),
            final(self).current_version() == old(self).current_version(),
            final(self).document() == old(self).document(),
            final(self).sync() == old(self).sync(),
    {
        self.sent_did_open = true;
    }

    /// The whole text, where the server takes the whole text.
    pub fn full_text(&self) -> (r: Option<String>)
        ensures
            match self.sync() {
                SyncModel::Full(t) => r is Some && r->0@ == t,
                _ => r is None,
            },
    {
        match &self.sync_data {
            SyncData::Full(rope) => Some(rope_text(rope)),
            _ => None,
        }
    }

    /// Records a change of the document at `version`.
    pub fn track_change(&mut self, version: i64, content_change: &ContentChange)
        ensures
            final(self).current_version() == version_after_change(old(self).current_version(), version),
            final(self).sync() == tracked_after(old(self).sync(), content_change@),
            final(self).handler() == old(self).handler(),
            final(self).buffer() == old(self).buffer(),
            final(self).opened() == old(self).opened(),
            final(self).scheduled() == old(self).scheduled(),
            final(self).document() == old(self).document(),
    {
        self.version = version;
        match &mut self.sync_data {
            SyncData::Incremental(changes) => {
                let range = match content_change.range {
                    Some(r) => r,
                    None => {
                        return;
                    },
                };
                let n = changes.len();
                let ghost before = changes@;
                if n > 0 && changes[n - 1].range == Some(range) {
                    changes.set(n - 1, content_change.duplicate());
                    assert(changes_view(changes@) =~= changes_view(before).update(n - 1, content_change@));
                } else {
                    changes.push(content_change.duplicate());
                    assert(changes_view(changes@) =~= changes_view(before).push(content_change@));
                }
            },
            SyncData::Full(content) => {
                match content_change.range {
                    None => {
                        *content = rope_from_str(content_change.text.as_str());
                    },
                    Some(r) => {
                        let n = rope_len_lines(content);
                        let sl = if (r.start.line as usize) <= n { r.start.line as usize } else { n };
                        let el = if (r.end.line as usize) <= n { r.end.line as usize } else { n };
                        let start_char = rope_line_to_char(content, sl);
                        let end_char = rope_line_to_char(content, el);
                        if start_char <= end_char {
                            let ghost t = rope_chars(*content);
                            rope_remove(content, start_char, end_char);
                            let ghost t1 = rope_chars(*content);
                            rope_insert(content, start_char, content_change.text.as_str());
                            assert(t1.subrange(0, start_char as int) =~= t.subrange(0, start_char as int));
                            assert(t1.subrange(start_char as int, t1.len() as int) =~= t.subrange(end_char as int, t.len() as int));
                        }
                    },
                }
            },
            SyncData::Off => {},
        }
    }

    /// The changes not sent yet, as the notification that sends them, at
    /// this file's uri and version; `None` where there is nothing to send.
    /// Nothing is due any more afterwards.
    pub fn fetch_pending_changes(&mut self) -> (r: Option<DidChangeParams>)
        ensures
            final(self).scheduled() is None,
            final(self).current_version() == old(self).current_version(),
            final(self).handler() == old(self).handler(),
            final(self).buffer() == old(self).buffer(),
            final(self).opened() == old(self).opened(),
            final(self).document() == old(self).document(),
            match old(self).sync() {
                SyncModel::Off => r is None && final(self).sync() == SyncModel::Off,
                SyncModel::Incremental(q) => {
                    &&& final(self).sync() == SyncModel::Incremental(Seq::empty())
                    &&& (r is Some <==> q.len() > 0)
                },
                SyncModel::Full(t) => {
                    &&& final(self).sync() == old(self).sync()
                    &&& r is Some
                },
            },
            match r {
                Some(p) => {
                    &&& p.text_document@ == old(self).document()
                    &&& p.version == old(self).current_version()
                    &&& changes_view(p.content_changes@) == match old(self).sync() {
                        SyncModel::Full(t) => seq![ChangeModel { range: None, text: t }],
                        SyncModel::Incremental(q) => q,
                        SyncModel::Off => Seq::empty(),
                    }
                },
                None => true,
            },
    {
        self.scheduled_sync_at = None;
        match &mut self.sync_data {
            SyncData::Incremental(changes) => {
                let mut taken: Vec<ContentChange> = Vec::new();
                std::mem::swap(changes, &mut taken);
                assert(changes_view(changes@) =~= Seq::<ChangeModel>::empty());
                if taken.len() > 0 {
                    Some(DidChangeParams { text_document: self.uri.duplicate(), version: self.version, content_changes: taken })
                } else {
                    None
                }
            },
            SyncData::Full(content) => {
                let text = rope_text(content);
                let change = ContentChange { range: None, text };
                let content_changes = vec![change];
                assert(changes_view(content_changes@) =~= seq![ChangeModel { range: None, text: rope_chars(*content) }]);
                Some(DidChangeParams { text_document: self.uri.duplicate(), version: self.version, content_changes })
            },
            SyncData::Off => None,
        }
    }

    /// Has the changes sent `delay` milliseconds after `now`, unless a send
    /// is due already.
    pub fn delay_sync_in(&mut self, now: u64, delay: u64)
        ensures
            final(self).scheduled() == schedule_after(old(self).scheduled(), now, delay),
            final(self).current_version() == old(self).current_version(),
            final(self).handler() == old(self).handler(),
            final(self).buffer() == old(self).buffer(),
            final(self).opened() == old(self).opened(),
            final(self).document() == old(self).document(),
            final(self).sync() == old(self).sync(),
    {
        if self.scheduled_sync_at.is_none() {
            let at = if now <= u64::MAX - delay { now + delay } else { u64::MAX };
            self.scheduled_sync_at = Some(at);
        }
    }
}

/// A file's version does not go down as long as the editor's versions do not.
pub proof fn lemma_version_monotone(before: i64, given: i64)
    requires
        before <= given,
    ensures
        before <= version_after_change(before, given),
{
}

/// Once a send is due, further changes do not put it off; and a send that
/// was scheduled by a change at `changed` is not due before `SYNC_DELAY_MS`
/// has passed since that change (where that time can be written).
pub proof fn lemma_send_not_before_delay(s: Option<u64>, changed: u64, now: u64)
    ensures
        s is Some ==> schedule_after(s, changed, SYNC_DELAY_MS) == s,
        s is None && changed + SYNC_DELAY_MS <= u64::MAX && schedule_after(s, changed, SYNC_DELAY_MS)->0
            <= now ==> now >= changed + SYNC_DELAY_MS,
{
}

/// Sends that lie at least `SYNC_DELAY_MS` apart, within a window of `t`
/// milliseconds, number at most `t / SYNC_DELAY_MS + 1`.
pub proof fn lemma_sends_in_window(sends: Seq<int>, start: int, t: int)
    requires
        t >= 0,
        forall|i: int| 0 <= i < sends.len() ==> start <= #[trigger] sends[i] <= start + t,
        forall|i: int| 0 < i < sends.len() ==> #[trigger] sends[i] >= sends[i - 1] + SYNC_DELAY_MS,
    ensures
        sends.len() <= t / (SYNC_DELAY_MS as int) + 1,
    decreases sends.len(),
{
    if sends.len() > 1 {
        let s2 = sends.drop_last();
        lemma_sends_in_window(s2, start, t);
        lemma_spaced_span(sends);
        let n = sends.len() as int;
        let d = SYNC_DELAY_MS as int;
        assert(sends[n - 1] - sends[0] >= (n - 1) * d);
        assert(sends[n - 1] - sends[0] <= t);
        assert((n - 1) * d <= t);
        assert(n - 1 <= t / d) by (nonlinear_arith)
            requires
                (n - 1) * d <= t,
                d > 0,
        ;
    }
}

proof fn lemma_spaced_span(sends: Seq<int>)
    requires
        sends.len() >= 1,
        forall|i: int| 0 < i < sends.len() ==> #[trigger] sends[i] >= sends[i - 1] + SYNC_DELAY_MS,
    ensures
        sends[sends.len() - 1] - sends[0] >= (sends.len() - 1) * (SYNC_DELAY_MS as int),
    decreases sends.len(),
{
    if sends.len() > 1 {
        let s2 = sends.drop_last();
        assert forall|i: int| 0 < i < s2.len() implies #[trigger] s2[i] >= s2[i - 1] + SYNC_DELAY_MS by {
            assert(s2[i] == sends[i]);
            assert(s2[i - 1] == sends[i - 1]);
        }
        lemma_spaced_span(s2);
        let n = sends.len() as int;
        assert(sends[n - 1] >= sends[n - 2] + SYNC_DELAY_MS);
        assert((n - 1) * (SYNC_DELAY_MS as int) == (n - 2) * (SYNC_DELAY_MS as int) + SYNC_DELAY_MS as int) by (nonlinear_arith);
    }
}

} // verus!
