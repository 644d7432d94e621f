//! Messages to and from the editor. A message travels as one value of the
//! editor's binary encoding: `[0, id, method, params]` (request),
//! `[1, id, error, result]` (response) or `[2, method, params]`
//! (notification). The values themselves are held in [`MsgValue`]; turning
//! them into bytes is the application's part.
use vstd::prelude::*;

verus! {

/// A value of the editor's binary encoding. A float is held by its bits.
#[derive(Debug)]
pub enum MsgValue {
    Nil,
    Boolean(bool),
    /// A non-negative integer.
    UInt(u64),
    /// A negative integer.
    NegInt(i64),
    F32(u32),
    F64(u64),
    Str(String),
    Binary(Vec<u8>),
    Array(Vec<MsgValue>),
    Entries(Vec<(MsgValue, MsgValue)>),
    Ext(i8, Vec<u8>),
}

/// The integer that `v` holds, if it holds one.
pub open spec fn int_of(v: MsgValue) -> Option<int> {
    match v {
        MsgValue::UInt(n) => Some(n as int),
        MsgValue::NegInt(n) => Some(n as int),
        _ => None,
    }
}

/// Whether the characters of `a` and `b` are the same.
pub fn same_text(a: &str, b: &str) -> (r: bool)
    ensures
        r == (a@ == b@),
{
    let n = a.unicode_len();
    if n != b.unicode_len() {
        return false;
    }
    let mut i: usize = 0;
    while i < n
        invariant
            i <= n,
            n == a@.len(),
            n == b@.len(),
            a@.subrange(0, i as int) == b@.subrange(0, i as int),
        decreases n - i,
    {
        if a.get_char(i) != b.get_char(i) {
            return false;
        }
        assert(a@.subrange(0, i as int + 1) =~= a@.subrange(0, i as int).push(a@[i as int]));
        assert(b@.subrange(0, i as int + 1) =~= b@.subrange(0, i as int).push(b@[i as int]));
        i = i + 1;
    }
    assert(a@ =~= a@.subrange(0, n as int));
    assert(b@ =~= b@.subrange(0, n as int));
    true
}

/// The integer that `v` holds, where it fits in an `i64`.
pub fn as_i64(v: &MsgValue) -> (r: Option<i64>)
    ensures
        r == (match int_of(*v) {
            Some(n) => if i64::MIN <= n <= i64::MAX { Some(n as i64) } else { None },
            None => None,
        }),
{
    match v {
        MsgValue::UInt(n) => {
            if *n <= i64::MAX as u64 {
                Some(*n as i64)
            } else {
                None
            }
        },
        MsgValue::NegInt(n) => Some(*n),
        _ => None,
    }
}

/// The integer that `v` holds, where it fits in a `u64`.
pub fn as_u64(v: &MsgValue) -> (r: Option<u64>)
    ensures
        r == (match int_of(*v) {
            Some(n) => if 0 <= n <= u64::MAX { Some(n as u64) } else { None },
            None => None,
        }),
{
    match v {
        MsgValue::UInt(n) => Some(*n),
        MsgValue::NegInt(n) => {
            if *n >= 0 {
                Some(*n as u64)
            } else {
                None
            }
        },
        _ => None,
    }
}

/// An error of the editor transport.
#[derive(Debug)]
pub enum RpcError {
    Deserialize(String),
    Read(String),
    Write(String),
    Serialize(String),
    Timeout,
}

/// The line that describes an error.
pub open spec fn description(e: RpcError) -> Seq<char> {
    match e {
        RpcError::Deserialize(m) => "Deserialize Error: "@ + m@,
        RpcError::Serialize(m) => "Serialize Error: "@ + m@,
        RpcError::Write(m) => "Write Error: "@ + m@,
        RpcError::Read(m) => "Read Error: "@ + m@,
        RpcError::Timeout => "Request timed out"@,
    }
}

impl RpcError {
    /// A line that describes the error.
    pub fn describe(&self) -> (r: String)
        ensures
            r@ == description(*self),
    {
        let mut s = match self {
            RpcError::Deserialize(_) => "Deserialize Error: ".to_owned(),
            RpcError::Serialize(_) => "Serialize Error: ".to_owned(),
            RpcError::Write(_) => "Write Error: ".to_owned(),
            RpcError::Read(_) => "Read Error: ".to_owned(),
            RpcError::Timeout => "Request timed out".to_owned(),
        };
        match self {
            RpcError::Deserialize(e) | RpcError::Serialize(e) | RpcError::Write(e) | RpcError::Read(
                e,
            ) => {
                s.append(e.as_str());
            },
            RpcError::Timeout => {},
        }
        s
    }
}

#[derive(Debug, PartialEq, Eq, Clone, Copy, Hash, Structural)]
pub struct BufferHandler(pub i64);

#[derive(Debug, PartialEq, Eq, Clone, Copy, Hash, Structural)]
pub struct WindowHandler(pub i64);

#[derive(Debug, PartialEq, Eq, Clone, Copy, Hash, Structural)]
pub struct TabpageHandler(pub i64);

/// An editor's name for one of its buffers.
pub trait BufferId: Copy + Eq {}

impl BufferId for BufferHandler {}

/// A handle to an editor object.
#[derive(Debug, PartialEq, Eq, Clone, Copy, Structural)]
pub enum NvimHandle {
    Buffer(BufferHandler),
    Window(WindowHandler),
    Tabpage(TabpageHandler),
}

impl NvimHandle {
    pub fn is_buf(&self) -> (r: bool)
        ensures
            r == (*self is Buffer),
    {
        match self {
            NvimHandle::Buffer(_) => true,
            _ => false,
        }
    }

    pub fn is_win(&self) -> (r: bool)
        ensures
            r == (*self is Window),
    {
        match self {
            NvimHandle::Window(_) => true,
            _ => false,
        }
    }

    pub fn is_tab(&self) -> (r: bool)
        ensures
            r == (*self is Tabpage),
    {
        match self {
            NvimHandle::Tabpage(_) => true,
            _ => false,
        }
    }

    pub fn unwrap_buf(self) -> (r: BufferHandler)
        requires
            self is Buffer,
        ensures
            self == NvimHandle::Buffer(r),
    {
        match self {
            NvimHandle::Buffer(buf) => buf,
            _ => BufferHandler(0),
        }
    }

    pub fn unwrap_win(self) -> (r: WindowHandler)
        requires
            self is Window,
        ensures
            self == NvimHandle::Window(r),
    {
        match self {
            NvimHandle::Window(win) => win,
            _ => WindowHandler(0),
        }
    }

    pub fn unwrap_tab(self) -> (r: TabpageHandler)
        requires
            self is Tabpage,
        ensures
            self == NvimHandle::Tabpage(r),
    {
        match self {
            NvimHandle::Tabpage(tab) => tab,
            _ => TabpageHandler(0),
        }
    }
}

/// The unsigned number that bytes write, least significant first.
pub open spec fn le_unsigned(b: Seq<u8>) -> nat
    decreases b.len(),
{
    if b.len() == 0 {
        0
    } else {
        b[0] as nat + 256 * le_unsigned(b.drop_first())
    }
}

pub open spec fn pow256(n: nat) -> nat
    decreases n,
{
    if n == 0 {
        1
    } else {
        256 * pow256((n - 1) as nat)
    }
}

/// The signed number that bytes write in two's complement, least significant first.
pub open spec fn le_signed(b: Seq<u8>) -> int {
    let u = le_unsigned(b);
    if b.len() > 0 && u >= pow256(b.len()) / 2 {
        u - pow256(b.len())
    } else {
        u as int
    }
}

/// The handle that an extension value of the editor holds: the tag says the
/// kind, the 1, 2, 4 or 8 bytes the number.
pub open spec fn handle_of(tag: i8, bytes: Seq<u8>) -> Option<NvimHandle> {
    let len = bytes.len();
    if !(len == 1 || len == 2 || len == 4 || len == 8) {
        None
    } else {
        let n = le_signed(bytes) as i64;
        if tag == 0 {
            Some(NvimHandle::Buffer(BufferHandler(n)))
        } else if tag == 1 {
            Some(NvimHandle::Window(WindowHandler(n)))
        } else if tag == 2 {
            Some(NvimHandle::Tabpage(TabpageHandler(n)))
        } else {
            None
        }
    }
}

proof fn lemma_le_unsigned_bound(b: Seq<u8>)
    ensures
        le_unsigned(b) < pow256(b.len()),
    decreases b.len(),
{
    if b.len() > 0 {
        lemma_le_unsigned_bound(b.drop_first());
    }
}

proof fn lemma_pow256_values()
    ensures
        pow256(1) == 0x100,
        pow256(2) == 0x10000,
        pow256(4) == 0x1_0000_0000,
        pow256(7) == 0x100_0000_0000_0000,
        pow256(8) == 0x1_0000_0000_0000_0000,
{
    assert(pow256(0) == 1);
    assert(pow256(1) == 0x100);
    assert(pow256(2) == 0x10000);
    assert(pow256(3) == 0x100_0000);
    assert(pow256(4) == 0x1_0000_0000);
    assert(pow256(5) == 0x100_0000_0000);
    assert(pow256(6) == 0x1_0000_0000_0000);
    assert(pow256(7) == 0x100_0000_0000_0000);
    assert(pow256(8) == 0x1_0000_0000_0000_0000);
}

/// The number that at most eight bytes write, least significant first.
fn read_le(bytes: &Vec<u8>) -> (r: u64)
    requires
        bytes@.len() <= 8,
    ensures
        r == le_unsigned(bytes@),
{
    proof {
        lemma_pow256_values();
    }
    let n = bytes.len();
    let mut acc: u64 = 0;
    let mut i: usize = n;
    while i > 0
        invariant
            i <= n,
            n == bytes@.len(),
            n <= 8,
            acc == le_unsigned(bytes@.subrange(i as int, n as int)),
        decreases i,
    {
        i = i - 1;
        let ghost sub = bytes@.subrange(i as int, n as int);
        assert(sub.drop_first() =~= bytes@.subrange(i as int + 1, n as int));
        proof {
            lemma_pow256_values();
            lemma_le_unsigned_bound(sub.drop_first());
            lemma_pow256_monotone(sub.drop_first().len(), 7);
        }
        acc = bytes[i] as u64 + 256 * acc;
    }
    assert(bytes@.subrange(0, n as int) =~= bytes@);
    acc
}

proof fn lemma_pow256_monotone(a: nat, b: nat)
    requires
        a <= b,
    ensures
        pow256(a) <= pow256(b),
    decreases b,
{
    if a < b {
        lemma_pow256_monotone(a, (b - 1) as nat);
    }
}

/// The handle that an extension value holds; `None` where the tag or the
/// length of the bytes is not one of a handle.
pub fn decode_handle(tag: i8, bytes: &Vec<u8>) -> (r: Option<NvimHandle>)
    ensures
        r == handle_of(tag, bytes@),
{
    let len = bytes.len();
    if !(len == 1 || len == 2 || len == 4 || len == 8) {
        return None;
    }
    proof {
        lemma_pow256_values();
        lemma_le_unsigned_bound(bytes@);
    }
    let u = read_le(bytes);
    let n: i64 = if len == 8 {
        if u >= 0x8000_0000_0000_0000 {
            ((u - 0x8000_0000_0000_0000) as i64) - 0x7fff_ffff_ffff_ffff - 1
        } else {
            u as i64
        }
    } else {
        let full: u64 = if len == 1 {
            0x100
        } else if len == 2 {
            0x10000
        } else {
            0x1_0000_0000
        };
        if u >= full / 2 {
            (u as i64) - (full as i64)
        } else {
            u as i64
        }
    };
    assert(n == le_signed(bytes@));
    if tag == 0 {
        Some(NvimHandle::Buffer(BufferHandler(n)))
    } else if tag == 1 {
        Some(NvimHandle::Window(WindowHandler(n)))
    } else if tag == 2 {
        Some(NvimHandle::Tabpage(TabpageHandler(n)))
    } else {
        None
    }
}

/// The extension value that carries a handle: its tag and its eight bytes.
pub fn encode_handle(h: NvimHandle) -> (r: (i8, Vec<u8>))
    ensures
        r.1@.len() == 8,
        handle_of(r.0, r.1@) == Some(h),
{
    let (tag, n): (i8, i64) = match h {
        NvimHandle::Buffer(BufferHandler(n)) => (0, n),
        NvimHandle::Window(WindowHandler(n)) => (1, n),
        NvimHandle::Tabpage(TabpageHandler(n)) => (2, n),
    };
    let mut u: u64 = if n < 0 {
        (n + 0x7fff_ffff_ffff_ffff + 1) as u64 + 0x8000_0000_0000_0000
    } else {
        n as u64
    };
    let ghost u0 = u;
    let mut bytes: Vec<u8> = Vec::new();
    let mut i: usize = 0;
    proof {
        lemma_pow256_values();
    }
    while i < 8
        invariant
            i <= 8,
            bytes@.len() == i,
            u0 == le_unsigned(bytes@) + pow256(i as nat) * u,
        decreases 8 - i,
    {
        let ghost before = bytes@;
        bytes.push((u % 256) as u8);
        proof {
            lemma_le_unsigned_push(before, (u % 256) as u8);
        }
        assert(pow256(i as nat) * u == pow256(i as nat) * (u % 256) + pow256(i as nat) * 256 * (u / 256)) by (nonlinear_arith);
        assert(pow256(i as nat + 1) == pow256(i as nat) * 256) by {
            assert(pow256((i + 1) as nat) == 256 * pow256(i as nat));
        }
        u = u / 256;
        i = i + 1;
    }
    proof {
        lemma_le_unsigned_bound(bytes@);
        assert(u0 < pow256(8));
        assert(u == 0) by (nonlinear_arith)
            requires
                u0 == le_unsigned(bytes@) + pow256(8) * u,
                u0 < pow256(8),
                u >= 0,
        ;
    }
    (tag, bytes)
}

proof fn lemma_le_unsigned_push(b: Seq<u8>, x: u8)
    ensures
        le_unsigned(b.push(x)) == le_unsigned(b) + pow256(b.len()) * x,
    decreases b.len(),
{
    if b.len() == 0 {
        assert(b.push(x).drop_first() =~= Seq::<u8>::empty());
        assert(le_unsigned(b.push(x)) == x as nat + 256 * le_unsigned(Seq::<u8>::empty()));
        assert(pow256(0) == 1);
    } else {
        let t = b.drop_first();
        lemma_le_unsigned_push(t, x);
        assert(b.push(x).drop_first() =~= t.push(x));
        assert(b.push(x)[0] == b[0]);
        let p = pow256(t.len());
        let lt = le_unsigned(t);
        assert(le_unsigned(t.push(x)) == lt + p * x);
        assert(le_unsigned(b.push(x)) == b[0] as nat + 256 * (lt + p * x));
        assert(le_unsigned(b) == b[0] as nat + 256 * lt);
        assert(pow256(b.len()) == 256 * p);
        assert(256 * (lt + p * x) == 256 * lt + (256 * p) * x) by (nonlinear_arith);
    }
}

/// A message between the broker and the editor.
#[derive(Debug)]
pub enum NvimMessage {
    RpcRequest { msgid: u64, method: String, params: MsgValue },
    RpcResponse { msgid: u64, error: MsgValue, result: MsgValue },
    RpcNotification { method: String, params: MsgValue },
}

/// The elements of `v`, if it is an array.
pub open spec fn elements(v: MsgValue) -> Option<Seq<MsgValue>> {
    match v {
        MsgValue::Array(items) => Some(items@),
        _ => None,
    }
}

/// Whether `v` is the value that carries `m`.
pub open spec fn carries(v: MsgValue, m: NvimMessage) -> bool {
    match elements(v) {
        Some(e) => match m {
            NvimMessage::RpcRequest { msgid, method, params } => {
                &&& e.len() == 4
                &&& e[0] == MsgValue::UInt(0)
                &&& e[1] == MsgValue::UInt(msgid)
                &&& e[2] == MsgValue::Str(method)
                &&& e[3] == params
            },
            NvimMessage::RpcResponse { msgid, error, result } => {
                &&& e.len() == 4
                &&& e[0] == MsgValue::UInt(1)
                &&& e[1] == MsgValue::UInt(msgid)
                &&& e[2] == error
                &&& e[3] == result
            },
            NvimMessage::RpcNotification { method, params } => {
                &&& e.len() == 3
                &&& e[0] == MsgValue::UInt(2)
                &&& e[1] == MsgValue::Str(method)
                &&& e[2] == params
            },
        },
        None => false,
    }
}

/// The message that `v` carries, if it carries one: an array whose first
/// element is the kind, then the fields of that kind, and nothing more.
pub open spec fn message_of(v: MsgValue) -> Option<NvimMessage> {
    match elements(v) {
        Some(e) => if e.len() >= 1 && int_of(e[0]) == Some(0int) && e.len() == 4 {
            match (e[1], e[2]) {
                (MsgValue::UInt(msgid), MsgValue::Str(method)) => Some(
                    NvimMessage::RpcRequest { msgid, method, params: e[3] },
                ),
                _ => None,
            }
        } else if e.len() >= 1 && int_of(e[0]) == Some(1int) && e.len() == 4 {
            match e[1] {
                MsgValue::UInt(msgid) => Some(
                    NvimMessage::RpcResponse { msgid, error: e[2], result: e[3] },
                ),
                _ => None,
            }
        } else if e.len() >= 1 && int_of(e[0]) == Some(2int) && e.len() == 3 {
            match e[1] {
                MsgValue::Str(method) => Some(NvimMessage::RpcNotification { method, params: e[2] }),
                _ => None,
            }
        } else {
            None
        },
        None => None,
    }
}

/// A message is read back from the value that carries it.
pub proof fn lemma_message_round_trip(v: MsgValue, m: NvimMessage)
    requires
        carries(v, m),
    ensures
        message_of(v) == Some(m),
{
}

impl NvimMessage {
    /// The value that carries this message.
    pub fn to_value(self) -> (r: MsgValue)
        ensures
            carries(r, self),
    {
        match self {
            NvimMessage::RpcRequest { msgid, method, params } => {
                let items = vec![MsgValue::UInt(0), MsgValue::UInt(msgid), MsgValue::Str(method), params];
                MsgValue::Array(items)
            },
            NvimMessage::RpcResponse { msgid, error, result } => {
                let items = vec![MsgValue::UInt(1), MsgValue::UInt(msgid), error, result];
                MsgValue::Array(items)
            },
            NvimMessage::RpcNotification { method, params } => {
                let items = vec![MsgValue::UInt(2), MsgValue::Str(method), params];
                MsgValue::Array(items)
            },
        }
    }

    /// The message that `v` carries.
    pub fn from_value(v: MsgValue) -> (r: Result<NvimMessage, RpcError>)
        ensures
            r is Ok <==> message_of(v) is Some,
            r is Ok ==> message_of(v) == Some(r->Ok_0),
            r is Err ==> r->Err_0 is Deserialize,
    {
        let ghost v0 = v;
        let mut items = match v {
            MsgValue::Array(items) => items,
            _ => {
                return Err(RpcError::Deserialize("expected an array".to_owned()));
            },
        };
        let ghost e = items@;
        let n = items.len();
        if n == 0 {
            return Err(RpcError::Deserialize("missing message kind".to_owned()));
        }
        let tag = as_i64(&items[0]);
        if tag == Some(0i64) && n == 4 {
            let params = items.pop().unwrap();
            let method = items.pop().unwrap();
            let msgid = items.pop().unwrap();
            assert(msgid == e[1] && method == e[2] && params == e[3]);
            match (msgid, method) {
                (MsgValue::UInt(msgid), MsgValue::Str(method)) => Ok(
                    NvimMessage::RpcRequest { msgid, method, params },
                ),
                _ => Err(RpcError::Deserialize("malformed request".to_owned())),
            }
        } else if tag == Some(1i64) && n == 4 {
            let result = items.pop().unwrap();
            let error = items.pop().unwrap();
            let msgid = items.pop().unwrap();
            assert(msgid == e[1] && error == e[2] && result == e[3]);
            match msgid {
                MsgValue::UInt(msgid) => Ok(NvimMessage::RpcResponse { msgid, error, result }),
                _ => Err(RpcError::Deserialize("malformed response".to_owned())),
            }
        } else if tag == Some(2i64) && n == 3 {
            let params = items.pop().unwrap();
            let method = items.pop().unwrap();
            assert(method == e[1] && params == e[2]);
            match method {
                MsgValue::Str(method) => Ok(NvimMessage::RpcNotification { method, params }),
                _ => Err(RpcError::Deserialize("malformed notification".to_owned())),
            }
        } else {
            Err(RpcError::Deserialize("invalid message kind or length".to_owned()))
        }
    }

    /// Whether this is the notification `exit`.
    pub fn is_exit(&self) -> (r: bool)
        ensures
            r == (match self {
                NvimMessage::RpcNotification { method, .. } => method@ == "exit"@,
                _ => false,
            }),
    {
        match self {
            NvimMessage::RpcNotification { method, .. } => same_text(method.as_str(), "exit"),
            _ => false,
        }
    }

    /// The id of a response.
    pub fn response_id(&self) -> (r: Option<u64>)
        ensures
            r == (match self {
                NvimMessage::RpcResponse { msgid, .. } => Some(*msgid),
                _ => None,
            }),
    {
        match self {
            NvimMessage::RpcResponse { msgid, .. } => Some(*msgid),
            _ => None,
        }
    }
}


/// Whether `i` is the first subscription waiting for the response `id`.
pub open spec fn first_waiting(subs: Seq<(u64, u64)>, id: u64, i: int) -> bool {
    &&& 0 <= i < subs.len()
    &&& subs[i].0 == id
    &&& forall|j: int| 0 <= j < i ==> (#[trigger] subs[j]).0 != id
}

/// Requests to the editor waiting for their responses: each request id with
/// the token of whoever waits for it.
pub struct Subscriptions {
    waiting: Vec<(u64, u64)>,
}

impl Subscriptions {
    pub closed spec fn pending(&self) -> Seq<(u64, u64)> {
        self.waiting@
    }

    pub fn new() -> (r: Self)
        ensures
            r.pending().len() == 0,
    {
        Subscriptions { waiting: Vec::new() }
    }

    /// Waits for the response `id` on behalf of `token`.
    pub fn subscribe(&mut self, id: u64, token: u64)
        ensures
            final(self).pending() == old(self).pending().push((id, token)),
    {
        self.waiting.push((id, token));
    }

    /// The token waiting for the response `id`, no longer waiting; `None`
    /// where nobody waits for it, and the response is dropped.
    pub fn deliver(&mut self, id: u64) -> (r: Option<u64>)
        ensures
            match r {
                Some(token) => exists|i: int|
                    #[trigger] first_waiting(old(self).pending(), id, i) && old(self).pending()[i].1 == token
                        && final(self).pending() == old(self).pending().remove(i),
                None => {
                    &&& forall|i: int| 0 <= i < old(self).pending().len() ==> (#[trigger] old(self).pending()[i]).0 != id
                    &&& final(self).pending() == old(self).pending()
                },
            },
    {
        let mut i: usize = 0;
        while i < self.waiting.len()
            invariant
                i <= self.waiting.len(),
                self.waiting@ == old(self).waiting@,
                forall|j: int| 0 <= j < i ==> (#[trigger] self.waiting@[j]).0 != id,
            decreases self.waiting.len() - i,
        {
            if self.waiting[i].0 == id {
                let (_, token) = self.waiting.remove(i);
                assert(first_waiting(old(self).pending(), id, i as int));
                return Some(token);
            }
            i = i + 1;
        }
        None
    }
}

} // verus!
