//! The wire format: frames with a length in front.
//!
//! A frame is the number of payload bytes, as four bytes with the lowest first,
//! and then the payload. Frames follow one another without a gap; a stream that
//! ends between two frames ended cleanly.
use crate::base::error::EmryError;
use crate::base::text;
use vstd::prelude::*;
use vstd::string::*;

verus! {

/// The largest payload of a frame, 16 MiB.
pub const MAX_FRAME_BYTES: u32 = 16_777_216;

/// Four bytes of `n`, lowest first.
pub open spec fn le_bytes(n: int) -> Seq<u8> {
    seq![
        (n % 256) as u8,
        (n / 256 % 256) as u8,
        (n / 65_536 % 256) as u8,
        (n / 16_777_216 % 256) as u8,
    ]
}

/// The number that four bytes, lowest first, stand for.
pub open spec fn le_number(b: Seq<u8>) -> int {
    b[0] + 256 * b[1] + 65_536 * b[2] + 16_777_216 * b[3]
}

/// Four bytes stand for the number they were made from.
pub proof fn le_bytes_read_back(n: int)
    requires
        0 <= n <= u32::MAX,
    ensures
        le_bytes(n).len() == 4,
        le_number(le_bytes(n)) == n,
{
}

/// The frame of a payload.
pub open spec fn framed(payload: Seq<u8>) -> Seq<u8> {
    le_bytes(payload.len() as int) + payload
}

/// The message for a payload that is too large to send.
pub open spec fn too_large_message(len: nat) -> Seq<char> {
    "frame of "@ + text::decimal(len) + " bytes too large"@
}

/// The message for a length that is too large to accept.
pub open spec fn over_cap_message(len: nat) -> Seq<char> {
    "frame length "@ + text::decimal(len) + " exceeds cap "@ + text::decimal(MAX_FRAME_BYTES as nat)
}

/// Appends the frame of `payload` to `out`. A payload over the cap is refused,
/// and `out` stays as it is.
pub fn write_frame(out: &mut Vec<u8>, payload: &[u8]) -> (r: Result<(), EmryError>)
    ensures
        match r {
            Ok(()) => payload@.len() <= MAX_FRAME_BYTES && final(out)@ == old(out)@ + framed(
                payload@,
            ),
            Err(EmryError::Protocol(m)) => payload@.len() > MAX_FRAME_BYTES && final(out)@ == old(
                out,
            )@ && m@ == too_large_message(payload@.len()),
            Err(_) => false,
        },
{
    let n: usize = payload.len();
    if n > MAX_FRAME_BYTES as usize {
        let mut m: String = text::joined("frame of ", text::decimal_text(n as u64).as_str());
        m.append(" bytes too large");
        return Err(EmryError::Protocol(m));
    }
    let ghost start = out@;
    out.push((n % 256) as u8);
    out.push((n / 256 % 256) as u8);
    out.push((n / 65_536 % 256) as u8);
    out.push((n / 16_777_216 % 256) as u8);
    assert(out@ =~= start + le_bytes(n as int));
    let mut i: usize = 0;
    while i < n
        invariant
            i <= n == payload@.len(),
            out@ == start + le_bytes(n as int) + payload@.take(i as int),
        decreases n - i,
    {
        out.push(payload[i]);
        assert(payload@.take(i + 1) =~= payload@.take(i as int).push(payload@[i as int]));
        i = i + 1;
    }
    assert(payload@.take(n as int) =~= payload@);
    assert(out@ =~= start + framed(payload@));
    Ok(())
}

/// The payload length that a frame's four leading bytes announce. A length over
/// the cap is refused, so that nothing is allocated for it.
pub fn payload_len(header: &[u8]) -> (r: Result<u32, EmryError>)
    requires
        header@.len() == 4,
    ensures
        match r {
            Ok(n) => n == le_number(header@) && n <= MAX_FRAME_BYTES,
            Err(EmryError::Protocol(m)) => le_number(header@) > MAX_FRAME_BYTES && m@
                == over_cap_message(le_number(header@) as nat),
            Err(_) => false,
        },
{
    let n: u32 = header[0] as u32 + 256 * (header[1] as u32) + 65_536 * (header[2] as u32)
        + 16_777_216 * (header[3] as u32);
    if n > MAX_FRAME_BYTES {
        let mut m: String = text::joined("frame length ", text::decimal_text(n as u64).as_str());
        m.append(" exceeds cap ");
        m.append(text::decimal_text(MAX_FRAME_BYTES as u64).as_str());
        return Err(EmryError::Protocol(m));
    }
    Ok(n)
}

/// What stands at a position of a byte stream.
pub enum NextFrame {
    /// The end, between two frames.
    End,
    /// A frame that is cut off.
    Truncated,
    /// A frame with a length over the cap.
    OverCap(nat),
    /// A frame, and where the next one begins.
    Payload(Seq<u8>, int),
}

/// What stands at position `at` of a byte stream.
pub open spec fn next_frame(buf: Seq<u8>, at: int) -> NextFrame {
    if at >= buf.len() {
        NextFrame::End
    } else if buf.len() - at < 4 {
        NextFrame::Truncated
    } else {
        let n = le_number(buf.subrange(at, at + 4));
        if n > MAX_FRAME_BYTES {
            NextFrame::OverCap(n as nat)
        } else if buf.len() - at - 4 < n {
            NextFrame::Truncated
        } else {
            NextFrame::Payload(buf.subrange(at + 4, at + 4 + n), at + 4 + n)
        }
    }
}

/// Reads the frame at position `at` of a byte stream: its payload and where the
/// next frame begins, or nothing at the end of the stream.
pub fn read_frame(buf: &[u8], at: usize) -> (r: Result<Option<(Vec<u8>, usize)>, EmryError>)
    requires
        at <= buf@.len(),
    ensures
        match next_frame(buf@, at as int) {
            NextFrame::End => r matches Ok(None),
            NextFrame::Truncated => r matches Err(EmryError::Io(m)) && m@
                == "failed to fill whole buffer"@,
            NextFrame::OverCap(n) => r matches Err(EmryError::Protocol(m)) && m@
                == over_cap_message(n),
            NextFrame::Payload(p, next) => r matches Ok(Some((payload, end))) && payload@ == p && end
                == next,
        },
{
    let len: usize = buf.len();
    if at == len {
        return Ok(None);
    }
    if len - at < 4 {
        return Err(EmryError::Io("failed to fill whole buffer".to_owned()));
    }
    let mut header: Vec<u8> = Vec::new();
    header.push(buf[at]);
    header.push(buf[at + 1]);
    header.push(buf[at + 2]);
    header.push(buf[at + 3]);
    assert(header@ =~= buf@.subrange(at as int, at + 4));
    let n: usize = match payload_len(header.as_slice()) {
        Ok(n) => n as usize,
        Err(e) => {
            return Err(e);
        },
    };
    let from: usize = at + 4;
    if len - from < n {
        return Err(EmryError::Io("failed to fill whole buffer".to_owned()));
    }
    let mut payload: Vec<u8> = Vec::new();
    let mut i: usize = 0;
    while i < n
        invariant
            i <= n,
            from + n <= len,
            len == buf@.len(),
            payload@ == buf@.subrange(from as int, from + i),
        decreases n - i,
    {
        payload.push(buf[from + i]);
        assert(buf@.subrange(from as int, from + i + 1) =~= buf@.subrange(
            from as int,
            from + i,
        ).push(buf@[from + i]));
        i = i + 1;
    }
    Ok(Some((payload, from + n)))
}

/// A frame reads back as its payload, wherever it stands in a stream, and what
/// follows it is read next.
pub proof fn frames_read_back(before: Seq<u8>, payload: Seq<u8>, after: Seq<u8>)
    requires
        payload.len() <= MAX_FRAME_BYTES,
    ensures
        next_frame(before + framed(payload) + after, before.len() as int) == NextFrame::Payload(
            payload,
            (before + framed(payload)).len() as int,
        ),
{
    let buf = before + framed(payload) + after;
    let at = before.len() as int;
    le_bytes_read_back(payload.len() as int);
    assert(buf.subrange(at, at + 4) =~= le_bytes(payload.len() as int));
    assert(buf.subrange(at + 4, at + 4 + payload.len()) =~= payload);
}

/// The frames of several payloads, one after the other.
pub open spec fn all_framed(payloads: Seq<Seq<u8>>) -> Seq<u8>
    decreases payloads.len(),
{
    if payloads.len() == 0 {
        Seq::empty()
    } else {
        all_framed(payloads.drop_last()) + framed(payloads.last())
    }
}

/// Where frame `i` of several begins.
pub open spec fn frame_start(payloads: Seq<Seq<u8>>, i: int) -> int {
    all_framed(payloads.take(i)).len() as int
}

proof fn lemma_framed_split(payloads: Seq<Seq<u8>>, i: int)
    requires
        0 <= i < payloads.len(),
    ensures
        exists|rest: Seq<u8>|
            all_framed(payloads) == #[trigger] (all_framed(payloads.take(i)) + framed(payloads[i])
                + rest),
    decreases payloads.len(),
{
    let front = payloads.drop_last();
    if i == payloads.len() - 1 {
        assert(payloads.take(i) =~= front);
        assert(all_framed(payloads) =~= all_framed(payloads.take(i)) + framed(payloads[i])
            + Seq::<u8>::empty());
    } else {
        lemma_framed_split(front, i);
        assert(front.take(i) =~= payloads.take(i));
        let rest = choose|rest: Seq<u8>|
            all_framed(front) == #[trigger] (all_framed(front.take(i)) + framed(front[i]) + rest);
        assert(all_framed(payloads) =~= all_framed(payloads.take(i)) + framed(payloads[i]) + (rest
            + framed(payloads.last())));
    }
}

/// A stream of frames reads back as its payloads in order, and then ends
/// cleanly.
pub proof fn streams_read_back(payloads: Seq<Seq<u8>>, i: int)
    requires
        forall|k: int| 0 <= k < payloads.len() ==> (#[trigger] payloads[k]).len() <= MAX_FRAME_BYTES,
    ensures
        0 <= i < payloads.len() ==> next_frame(all_framed(payloads), frame_start(payloads, i))
            == NextFrame::Payload(payloads[i], frame_start(payloads, i + 1)),
        next_frame(all_framed(payloads), frame_start(payloads, payloads.len() as int))
            == NextFrame::End,
{
    assert(payloads.take(payloads.len() as int) =~= payloads);
    if 0 <= i < payloads.len() {
        lemma_framed_split(payloads, i);
        let before = all_framed(payloads.take(i));
        let rest = choose|rest: Seq<u8>|
            all_framed(payloads) == #[trigger] (before + framed(payloads[i]) + rest);
        frames_read_back(before, payloads[i], rest);
        assert(payloads.take(i + 1).drop_last() =~= payloads.take(i));
    }
}

/// A stream that is cut off inside its last frame is told apart from one that
/// ended cleanly: reading the cut frame fails.
pub proof fn cut_frames_are_noticed(before: Seq<u8>, payload: Seq<u8>, keep: int)
    requires
        payload.len() <= MAX_FRAME_BYTES,
        0 < keep < framed(payload).len(),
    ensures
        next_frame(before + framed(payload).take(keep), before.len() as int)
            == NextFrame::Truncated,
{
    let buf = before + framed(payload).take(keep);
    let at = before.len() as int;
    le_bytes_read_back(payload.len() as int);
    if keep >= 4 {
        assert(buf.subrange(at, at + 4) =~= le_bytes(payload.len() as int));
    }
}

/// The bytes of a length stand lowest first: each counts 256 times the one before it.
pub proof fn lengths_stand_lowest_first(n: int, b: Seq<u8>)
    requires
        0 <= n <= u32::MAX,
        b.len() == 4,
    ensures
        ({
            let s = le_bytes(n);
            s[0] + 256 * (s[1] + 256 * (s[2] + 256 * s[3])) == n
        }),
        le_number(b) == b[0] + 256 * (b[1] + 256 * (b[2] + 256 * b[3])),
        n < 256 ==> le_bytes(n)[0] == n,
{
}

/// A frame is its payload behind four bytes.
pub proof fn frames_are_payloads_behind_their_length(payload: Seq<u8>)
    requires
        payload.len() <= u32::MAX,
    ensures
        framed(payload).len() == payload.len() + 4,
        framed(payload).skip(4) == payload,
        le_number(framed(payload).take(4)) == payload.len(),
{
    le_bytes_read_back(payload.len() as int);
    assert(framed(payload).skip(4) =~= payload);
    assert(framed(payload).take(4) =~= le_bytes(payload.len() as int));
}

/// A frame that announces more than the cap is refused, whatever follows.
pub proof fn oversized_frames_are_refused(before: Seq<u8>, len: int, after: Seq<u8>)
    requires
        MAX_FRAME_BYTES < len <= u32::MAX,
    ensures
        next_frame(before + le_bytes(len) + after, before.len() as int) == NextFrame::OverCap(
            len as nat,
        ),
{
    let buf = before + le_bytes(len) + after;
    let at = before.len() as int;
    le_bytes_read_back(len);
    assert(buf.subrange(at, at + 4) =~= le_bytes(len));
}

/// A refusal tells the length, and the cap where it is the cap that refuses.
pub proof fn refusals_tell_the_length(len: nat)
    ensures
        too_large_message(len) == "frame of "@ + text::decimal(len) + " bytes too large"@,
        over_cap_message(len) == "frame length "@ + text::decimal(len) + " exceeds cap "@
            + text::decimal(16_777_216),
{
}

} // verus!
