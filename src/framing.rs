//! The framing of messages to and from a language server: each frame is
//! `Content-Length: N\r\n\r\n` followed by exactly `N` bytes of body.
use vstd::prelude::*;

verus! {

/// The bytes of `Content-Length: `.
pub open spec fn header_name() -> Seq<u8> {
    seq![67u8, 111u8, 110u8, 116u8, 101u8, 110u8, 116u8, 45u8, 76u8, 101u8, 110u8, 103u8, 116u8, 104u8, 58u8, 32u8]
}

/// The bytes of `\r\n\r\n`.
pub open spec fn header_end() -> Seq<u8> {
    seq![13u8, 10u8, 13u8, 10u8]
}

pub open spec fn is_digit(b: u8) -> bool {
    48 <= b <= 57
}

/// The decimal digits of `n` in ASCII, most significant first.
pub open spec fn decimal(n: nat) -> Seq<u8>
    decreases n,
{
    if n < 10 {
        seq![(48 + n) as u8]
    } else {
        decimal(n / 10).push((48 + n % 10) as u8)
    }
}

/// The number that a run of ASCII digits writes.
pub open spec fn digits_value(s: Seq<u8>) -> nat
    decreases s.len(),
{
    if s.len() == 0 {
        0
    } else {
        digits_value(s.drop_last()) * 10 + (s.last() - 48) as nat
    }
}

/// How many ASCII digits follow one another in `buf` from index `i`.
pub open spec fn digit_run(buf: Seq<u8>, i: int) -> nat
    decreases buf.len() - i,
{
    if 0 <= i < buf.len() && is_digit(buf[i]) {
        1 + digit_run(buf, i + 1)
    } else {
        0
    }
}

/// The frame that carries `body`.
pub open spec fn frame_of(body: Seq<u8>) -> Seq<u8> {
    header_name() + decimal(body.len()) + header_end() + body
}

/// The body of the frame at the start of `buf` and the number of bytes the
/// frame takes, where `buf` starts with a whole frame.
pub open spec fn parse_frame(buf: Seq<u8>) -> Option<(Seq<u8>, nat)> {
    let p = header_name().len() as int;
    if buf.len() >= p && buf.subrange(0, p) == header_name() {
        let k = digit_run(buf, p) as int;
        let h = p + k + 4;
        if k >= 1 && buf.len() >= h && buf.subrange(p + k, h) == header_end() {
            let n = digits_value(buf.subrange(p, p + k));
            if buf.len() >= h + n {
                Some((buf.subrange(h, h + n), (h + n) as nat))
            } else {
                None
            }
        } else {
            None
        }
    } else {
        None
    }
}

proof fn lemma_decimal_digits(n: nat)
    ensures
        decimal(n).len() >= 1,
        forall|i: int| 0 <= i < decimal(n).len() ==> is_digit(#[trigger] decimal(n)[i]),
        digits_value(decimal(n)) == n,
    decreases n,
{
    if n >= 10 {
        lemma_decimal_digits(n / 10);
        let d = decimal(n);
        assert(d.drop_last() == decimal(n / 10));
        assert(forall|i: int| 0 <= i < d.len() - 1 ==> d[i] == decimal(n / 10)[i]);
        assert(d.last() - 48 == n % 10);
        assert((n / 10) * 10 + n % 10 == n) by (nonlinear_arith);
        assert(digits_value(d) == digits_value(d.drop_last()) * 10 + (d.last() - 48) as nat);
    } else {
        let d = decimal(n);
        assert(d.drop_last() =~= Seq::<u8>::empty());
        assert(d.last() - 48 == n);
        assert(digits_value(d) == digits_value(d.drop_last()) * 10 + (d.last() - 48) as nat);
        assert(digits_value(d.drop_last()) == 0);
    }
}

proof fn lemma_digit_run(buf: Seq<u8>, i: int, k: int)
    requires
        0 <= i,
        0 <= k,
        i + k <= buf.len(),
        forall|j: int| i <= j < i + k ==> is_digit(#[trigger] buf[j]),
        i + k == buf.len() || !is_digit(buf[i + k]),
    ensures
        digit_run(buf, i) == k,
    decreases k,
{
    if k > 0 {
        lemma_digit_run(buf, i + 1, k - 1);
    }
}

/// A frame is read back as the body it carries, whatever follows it.
pub proof fn lemma_frame_round_trip(body: Seq<u8>, rest: Seq<u8>)
    ensures
        parse_frame(frame_of(body) + rest) == Some((body, frame_of(body).len())),
{
    let buf = frame_of(body) + rest;
    let p = header_name().len() as int;
    let d = decimal(body.len());
    let k = d.len() as int;
    lemma_decimal_digits(body.len());
    assert(buf.subrange(0, p) =~= header_name());
    assert forall|j: int| p <= j < p + k implies is_digit(#[trigger] buf[j]) by {
        assert(buf[j] == d[j - p]);
    }
    assert(buf[p + k] == 13u8);
    lemma_digit_run(buf, p, k);
    assert(buf.subrange(p + k, p + k + 4) =~= header_end());
    assert(buf.subrange(p, p + k) =~= d);
    let h = p + k + 4;
    assert(buf.subrange(h, h + body.len()) =~= body);
}

fn push_decimal(out: &mut Vec<u8>, n: usize)
    ensures
        final(out)@ == old(out)@ + decimal(n as nat),
    decreases n,
{
    if n >= 10 {
        push_decimal(out, n / 10);
    }
    let d = (48 + n % 10) as u8;
    out.push(d);
    assert(final(out)@ =~= old(out)@ + decimal(n as nat));
}

/// The frame that carries `body`.
pub fn encode_frame(body: &Vec<u8>) -> (r: Vec<u8>)
    ensures
        r@ == frame_of(body@),
{
    let mut out: Vec<u8> = vec![67u8, 111, 110, 116, 101, 110, 116, 45, 76, 101, 110, 103, 116, 104, 58, 32];
    assert(out@ =~= header_name());
    push_decimal(&mut out, body.len());
    out.push(13);
    out.push(10);
    out.push(13);
    out.push(10);
    let mut i: usize = 0;
    let ghost head = out@;
    while i < body.len()
        invariant
            i <= body.len(),
            out@ == head + body@.subrange(0, i as int),
        decreases body.len() - i,
    {
        out.push(body[i]);
        assert(body@.subrange(0, i as int + 1) =~= body@.subrange(0, i as int).push(body@[i as int]));
        i = i + 1;
    }
    assert(body@.subrange(0, body.len() as int) =~= body@);
    assert(head =~= header_name() + decimal(body@.len()) + header_end());
    out
}

/// The body of the frame at the start of `buf`, and the number of bytes the
/// frame takes; `None` where `buf` does not start with a whole frame, or where
/// the length it gives does not fit in a `usize`.
pub fn decode_frame(buf: &Vec<u8>) -> (r: Option<(Vec<u8>, usize)>)
    ensures
        match r {
            Some((body, used)) => parse_frame(buf@) == Some((body@, used as nat)),
            None => parse_frame(buf@) is None || parse_frame(buf@).unwrap().1 > usize::MAX,
        },
{
    let name: Vec<u8> = vec![67u8, 111, 110, 116, 101, 110, 116, 45, 76, 101, 110, 103, 116, 104, 58, 32];
    assert(name@ =~= header_name());
    let p: usize = 16;
    if buf.len() < p {
        return None;
    }
    let mut i: usize = 0;
    while i < p
        invariant
            i <= p,
            p == 16,
            p <= buf.len(),
            name@ == header_name(),
            buf@.subrange(0, i as int) == header_name().subrange(0, i as int),
        decreases p - i,
    {
        if buf[i] != name[i] {
            assert(buf@.subrange(0, p as int)[i as int] != header_name()[i as int]);
            return None;
        }
        assert(buf@.subrange(0, i as int + 1) =~= header_name().subrange(0, i as int + 1));
        i = i + 1;
    }
    assert(header_name().subrange(0, 16) =~= header_name());
    // The digits of the length.
    let mut j: usize = p;
    let mut n: usize = 0;
    let mut fits = true;
    while j < buf.len() && 48 <= buf[j] && buf[j] <= 57
        invariant
            p == 16,
            p <= j <= buf.len(),
            forall|m: int| p <= m < j ==> is_digit(#[trigger] buf@[m]),
            fits ==> n == digits_value(buf@.subrange(p as int, j as int)),
            !fits ==> digits_value(buf@.subrange(p as int, j as int)) > usize::MAX,
        decreases buf.len() - j,
    {
        let ghost sub = buf@.subrange(p as int, j as int + 1);
        assert(sub.drop_last() =~= buf@.subrange(p as int, j as int));
        assert(sub.last() == buf@[j as int]);
        let dig = (buf[j] - 48) as usize;
        if fits {
            match n.checked_mul(10) {
                Some(t) => match t.checked_add(dig) {
                    Some(u) => {
                        n = u;
                    },
                    None => {
                        fits = false;
                    },
                },
                None => {
                    fits = false;
                },
            }
        } else {
            assert(digits_value(sub) >= digits_value(sub.drop_last()));
        }
        j = j + 1;
    }
    proof {
        lemma_digit_run(buf@, p as int, j - p);
    }
    let k = j - p;
    if k == 0 || buf.len() - j < 4 {
        return None;
    }
    if !(buf[j] == 13 && buf[j + 1] == 10 && buf[j + 2] == 13 && buf[j + 3] == 10) {
        assert(buf@.subrange(j as int, j + 4) != header_end() ) by {
            if buf@.subrange(j as int, j + 4) == header_end() {
                assert(buf@.subrange(j as int, j + 4)[0] == buf@[j as int]);
                assert(buf@.subrange(j as int, j + 4)[1] == buf@[j + 1]);
                assert(buf@.subrange(j as int, j + 4)[2] == buf@[j + 2]);
                assert(buf@.subrange(j as int, j + 4)[3] == buf@[j + 3]);
            }
        }
        return None;
    }
    assert(buf@.subrange(j as int, j + 4) =~= header_end());
    if !fits {
        return None;
    }
    let h = j + 4;
    if buf.len() - h < n {
        return None;
    }
    let mut body: Vec<u8> = Vec::new();
    let mut m: usize = 0;
    while m < n
        invariant
            h + n <= buf.len(),
            m <= n,
            body@ == buf@.subrange(h as int, h + m),
        decreases n - m,
    {
        body.push(buf[h + m]);
        assert(buf@.subrange(h as int, h + m + 1) =~= buf@.subrange(h as int, h + m).push(buf@[h + m]));
        m = m + 1;
    }
    Some((body, h + n))
}

} // verus!
