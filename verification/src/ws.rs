//! The WebSocket frame codec (RFC 6455): server frames out, client frames
//! in, and what the server does with each received frame.

use vstd::prelude::*;
use vstd::utf8::*;
use crate::http::HttpError;
use crate::text::{concat, hex_char, hex_digit, string_from_chars, utf8_error_text, utf8_string};

verus! {

/// `n` written big-endian in exactly `k` bytes (higher bytes dropped).
pub open spec fn be_bytes(n: nat, k: nat) -> Seq<u8>
    decreases k,
{
    if k == 0 {
        Seq::empty()
    } else {
        be_bytes(n / 256, (k - 1) as nat).push((n % 256) as u8)
    }
}

/// The number that big-endian bytes `s` stand for.
pub open spec fn be_value(s: Seq<u8>) -> nat
    decreases s.len(),
{
    if s.len() == 0 {
        0
    } else {
        be_value(s.drop_last()) * 256 + s.last() as nat
    }
}

/// The length field of a server frame carrying `len` payload bytes.
pub open spec fn length_field(len: nat) -> Seq<u8> {
    if len <= 125 {
        seq![len as u8]
    } else if len <= 65535 {
        seq![126u8] + be_bytes(len, 2)
    } else {
        seq![127u8] + be_bytes(len, 8)
    }
}

/// An unmasked server frame: the first byte (FIN and opcode), the length
/// field, then the payload.
pub open spec fn frame_bytes(first: u8, payload: Seq<u8>) -> Seq<u8> {
    seq![first] + length_field(payload.len()) + payload
}

/// Appends `n` big-endian in `k` bytes.
fn push_be(out: &mut Vec<u8>, n: u64, k: usize)
    requires
        k <= 8,
    ensures
        final(out)@ == old(out)@ + be_bytes(n as nat, k as nat),
    decreases k,
{
    if k == 0 {
        assert(old(out)@ + be_bytes(n as nat, 0) =~= old(out)@);
        return;
    }
    push_be(out, n / 256, k - 1);
    out.push((n % 256) as u8);
    assert(final(out)@ =~= old(out)@ + be_bytes(n as nat, k as nat));
}

/// Builds one unmasked server frame with first byte `first`.
pub fn encode_frame(first: u8, payload: &[u8]) -> (r: Vec<u8>)
    ensures
        r@ == frame_bytes(first, payload@),
{
    let mut frame: Vec<u8> = Vec::new();
    frame.push(first);
    let len = payload.len();
    if len <= 125 {
        frame.push(len as u8);
    } else if len <= 65535 {
        frame.push(126u8);
        push_be(&mut frame, len as u64, 2);
    } else {
        frame.push(127u8);
        push_be(&mut frame, len as u64, 8);
    }
    let ghost head = frame@;
    let mut i: usize = 0;
    while i < payload.len()
        invariant
            i <= payload@.len(),
            frame@ == head + payload@.take(i as int),
        decreases payload@.len() - i,
    {
        frame.push(payload[i]);
        assert(payload@.take(i + 1) =~= payload@.take(i as int).push(payload@[i as int]));
        i = i + 1;
    }
    assert(payload@.take(payload@.len() as int) =~= payload@);
    assert(frame@ =~= frame_bytes(first, payload@));
    frame
}

/// A text frame (opcode 0x1, FIN set).
pub fn text_frame(text: &str) -> (r: Vec<u8>)
    ensures
        r@ == frame_bytes(0x81u8, encode_utf8(text@)),
{
    encode_frame(0x81u8, text.as_bytes())
}

/// A binary frame (opcode 0x2, FIN set).
pub fn binary_frame(data: &[u8]) -> (r: Vec<u8>)
    ensures
        r@ == frame_bytes(0x82u8, data@),
{
    encode_frame(0x82u8, data)
}

/// A ping frame with no payload (opcode 0x9, FIN set).
pub fn ping_frame() -> (r: Vec<u8>)
    ensures
        r@ == frame_bytes(0x89u8, Seq::empty()),
{
    let empty: Vec<u8> = Vec::new();
    encode_frame(0x89u8, empty.as_slice())
}

/// The largest payload accepted in a frame with a 64-bit length: 16 MiB.
pub const MAX_FRAME_PAYLOAD: u64 = 16777216;

/// A frame read from a client, its payload already unmasked.
pub struct WsFrame {
    pub fin: bool,
    pub opcode: u8,
    pub payload: Vec<u8>,
}

/// The result of reading one frame from the front of a buffer.
pub enum FrameParse {
    /// More bytes are needed.
    Incomplete,
    /// The frame announces a payload over 16 MiB.
    TooLarge,
    /// A whole frame, and the number of bytes it took.
    Frame(WsFrame, usize),
}

/// The 7-bit length code of the second header byte.
pub open spec fn len_code(b: Seq<u8>) -> nat {
    (b[1] % 128) as nat
}

/// The number of extended length bytes that follow the base header.
pub open spec fn ext_len(code: nat) -> nat {
    if code <= 125 {
        0
    } else if code == 126 {
        2
    } else {
        8
    }
}

/// The payload length a header announces (given the extended bytes are there).
pub open spec fn payload_len(b: Seq<u8>) -> nat {
    let code = len_code(b);
    if code <= 125 {
        code
    } else {
        be_value(b.subrange(2, 2 + ext_len(code) as int))
    }
}

/// True when the mask bit is set.
pub open spec fn is_masked(b: Seq<u8>) -> bool {
    b[1] >= 128
}

/// Where the payload starts.
pub open spec fn payload_start(b: Seq<u8>) -> nat {
    2 + ext_len(len_code(b)) + if is_masked(b) { 4nat } else { 0nat }
}

/// The payload, XORed with the masking key when there is one.
pub open spec fn unmasked(b: Seq<u8>) -> Seq<u8> {
    let start = payload_start(b);
    let len = payload_len(b);
    Seq::new(
        len,
        |i: int|
            if is_masked(b) {
                b[start + i] ^ b[start - 4 + (i % 4)]
            } else {
                b[start + i]
            },
    )
}

/// True when `b` is too short for the header and extended length.
pub open spec fn header_incomplete(b: Seq<u8>) -> bool {
    b.len() < 2 || b.len() < 2 + ext_len(len_code(b))
}

/// True when a 64-bit length exceeds the frame limit.
pub open spec fn frame_too_large(b: Seq<u8>) -> bool {
    len_code(b) == 127 && payload_len(b) > MAX_FRAME_PAYLOAD
}

/// Reads the `k` big-endian bytes of `b` from `start`.
fn read_be(b: &[u8], start: usize, k: usize) -> (r: u64)
    requires
        k <= 8,
        start + k <= b@.len(),
    ensures
        r as nat == be_value(b@.subrange(start as int, start + k)),
        (r as nat) < pow256(k as nat),
    decreases k,
{
    let blen = b.len();
    if k == 0 {
        return 0;
    }
    let hi = read_be(b, start, k - 1);
    let ghost s = b@.subrange(start as int, start + k);
    assert(s.drop_last() =~= b@.subrange(start as int, start + k - 1));
    proof {
        lemma_be_value_bound(s.drop_last());
        lemma_pow256_mono((k - 1) as nat, 7);
        assert(pow256(7) == 0x100000000000000nat) by {
            reveal_with_fuel(pow256, 8);
        }
        assert((hi as nat) * 256 + 255 < 0x10000000000000000nat) by (nonlinear_arith)
            requires
                hi < 0x100000000000000nat,
        ;
    }
    let r = hi * 256 + b[start + k - 1] as u64;
    proof {
        lemma_be_value_bound(s);
    }
    r
}

/// 256 to the power `k`.
pub open spec fn pow256(k: nat) -> nat
    decreases k,
{
    if k == 0 {
        1
    } else {
        256 * pow256((k - 1) as nat)
    }
}

proof fn lemma_pow256_mono(i: nat, j: nat)
    requires
        i <= j,
    ensures
        pow256(i) <= pow256(j),
    decreases j,
{
    if i < j {
        lemma_pow256_mono(i, (j - 1) as nat);
    }
}

proof fn lemma_be_value_bound(s: Seq<u8>)
    ensures
        be_value(s) < pow256(s.len()),
    decreases s.len(),
{
    if s.len() > 0 {
        lemma_be_value_bound(s.drop_last());
        let v = be_value(s.drop_last());
        let p = pow256(s.drop_last().len());
        assert(v * 256 + (s.last() as nat) < 256 * p) by (nonlinear_arith)
            requires
                v < p,
                s.last() < 256,
        ;
    }
}

/// Reads one client frame from the front of `b`: the base header, the
/// extended length, the masking key and the payload, which comes out
/// unmasked.
pub fn decode_frame(b: &[u8]) -> (r: FrameParse)
    ensures
        header_incomplete(b@) ==> r is Incomplete,
        !header_incomplete(b@) && frame_too_large(b@) ==> r is TooLarge,
        !header_incomplete(b@) && !frame_too_large(b@) && b@.len() < payload_start(b@)
            + payload_len(b@) ==> r is Incomplete,
        !header_incomplete(b@) && !frame_too_large(b@) && b@.len() >= payload_start(b@)
            + payload_len(b@) ==> (r matches FrameParse::Frame(f, n) && f.fin == (b@[0] >= 128)
            && f.opcode == b@[0] % 16 && f.payload@ == unmasked(b@) && n == payload_start(b@)
            + payload_len(b@)),
{
    let blen = b.len();
    if blen < 2 {
        return FrameParse::Incomplete;
    }
    let fin = b[0] >= 128;
    let opcode = b[0] % 16;
    let masked = b[1] >= 128;
    let code = b[1] % 128;
    let ext: usize = if code <= 125 {
        0
    } else if code == 126 {
        2
    } else {
        8
    };
    if b.len() < 2 + ext {
        return FrameParse::Incomplete;
    }
    let len: u64 = if code <= 125 {
        code as u64
    } else {
        read_be(b, 2, ext)
    };
    if code == 127 && len > MAX_FRAME_PAYLOAD {
        return FrameParse::TooLarge;
    }
    proof {
        assert(pow256(2) == 65536) by {
            reveal_with_fuel(pow256, 3);
        }
    }
    assert(len <= MAX_FRAME_PAYLOAD);
    let start: usize = 2 + ext + if masked { 4usize } else { 0usize };
    if b.len() < start || b.len() - start < len as usize {
        return FrameParse::Incomplete;
    }
    let n = len as usize;
    let mut payload: Vec<u8> = Vec::new();
    let mut i: usize = 0;
    while i < n
        invariant
            i <= n,
            start + n <= b@.len(),
            blen == b@.len(),
            start == payload_start(b@),
            n == payload_len(b@),
            masked == is_masked(b@),
            payload@ == unmasked(b@).take(i as int),
        decreases n - i,
    {
        let byte = if masked {
            b[start + i] ^ b[start - 4 + (i % 4)]
        } else {
            b[start + i]
        };
        payload.push(byte);
        assert(unmasked(b@).take(i + 1) =~= unmasked(b@).take(i as int).push(byte));
        i = i + 1;
    }
    assert(unmasked(b@).take(n as int) =~= unmasked(b@));
    FrameParse::Frame(WsFrame { fin, opcode, payload }, start + n)
}

/// A message received from a client.
pub enum WsMessage {
    Text(String),
    Binary(Vec<u8>),
    Ping,
    Pong,
}

/// A frame the server writes back on receiving one.
pub enum WsReply {
    /// Nothing to write.
    Nothing,
    /// Write it, ignoring a write failure.
    BestEffort(Vec<u8>),
    /// Write it; a write failure is the caller's error.
    Required(Vec<u8>),
}

/// The message for an opcode the server does not handle.
pub open spec fn unknown_opcode_message(opcode: u8) -> Seq<char> {
    "Unknown opcode: 0x"@.push(hex_digit(opcode as nat))
}

/// The close frame the server sends back.
pub open spec fn close_frame_bytes() -> Seq<u8> {
    frame_bytes(0x88u8, Seq::empty())
}

/// Decides what a received frame means: the reply to write and what the
/// caller receives (`Ok(None)` when the connection is to be closed).
pub fn frame_event(frame: WsFrame) -> (r: (WsReply, Result<Option<WsMessage>, HttpError>))
    requires
        frame.opcode < 16,
    ensures
        frame.opcode == 8 ==> (r.0 matches WsReply::BestEffort(c) && c@ == close_frame_bytes())
            && r.1 matches Ok(None),
        frame.opcode == 9 ==> (r.0 matches WsReply::Required(c) && c@ == frame_bytes(
            0x8Au8,
            frame.payload@,
        )) && r.1 matches Ok(Some(WsMessage::Ping)),
        frame.opcode == 10 ==> r.0 is Nothing && r.1 matches Ok(Some(WsMessage::Pong)),
        frame.opcode == 1 ==> r.0 is Nothing && (if valid_utf8(frame.payload@) {
            r.1 matches Ok(Some(WsMessage::Text(t))) && t@ == decode_utf8(frame.payload@)
        } else {
            r.1 matches Err(HttpError::WebSocket(e)) && e@ == utf8_error_text(frame.payload@)
        }),
        frame.opcode == 2 ==> r.0 is Nothing && (r.1 matches Ok(Some(WsMessage::Binary(d)))
            && d@ == frame.payload@),
        !(frame.opcode == 1 || frame.opcode == 2 || frame.opcode == 8 || frame.opcode == 9
            || frame.opcode == 10) ==> if frame.fin {
            r.0 is Nothing && (r.1 matches Err(HttpError::WebSocket(e)) && e@
                == unknown_opcode_message(frame.opcode))
        } else {
            (r.0 matches WsReply::BestEffort(c) && c@ == close_frame_bytes()) && r.1 matches Ok(
                None,
            )
        },
{
    let empty: Vec<u8> = Vec::new();
    if frame.opcode == 8 {
        (WsReply::BestEffort(encode_frame(0x88u8, empty.as_slice())), Ok(None))
    } else if frame.opcode == 9 {
        (WsReply::Required(encode_frame(0x8Au8, frame.payload.as_slice())), Ok(Some(WsMessage::Ping)))
    } else if frame.opcode == 10 {
        (WsReply::Nothing, Ok(Some(WsMessage::Pong)))
    } else if frame.opcode == 1 {
        match utf8_string(frame.payload) {
            Ok(t) => (WsReply::Nothing, Ok(Some(WsMessage::Text(t)))),
            Err(e) => (WsReply::Nothing, Err(HttpError::WebSocket(e))),
        }
    } else if frame.opcode == 2 {
        (WsReply::Nothing, Ok(Some(WsMessage::Binary(frame.payload))))
    } else if !frame.fin {
        (WsReply::BestEffort(encode_frame(0x88u8, empty.as_slice())), Ok(None))
    } else {
        let mut digits: Vec<char> = Vec::new();
        digits.push(hex_char(frame.opcode));
        let h = string_from_chars(digits.as_slice());
        assert(digits@ =~= seq![hex_digit(frame.opcode as nat)]);
        let msg = concat("Unknown opcode: 0x", h.as_str());
        assert(msg@ =~= unknown_opcode_message(frame.opcode));
        (WsReply::Nothing, Err(HttpError::WebSocket(msg)))
    }
}

/// The receiving side of a WebSocket connection: the bytes read so far and
/// not yet taken as frames.
pub struct WebSocket {
    pending: Vec<u8>,
}

impl WebSocket {
    /// The bytes read and not yet taken.
    pub closed spec fn buffered(&self) -> Seq<u8> {
        self.pending@
    }

    /// A connection with nothing read yet.
    pub fn new() -> (r: WebSocket)
        ensures
            r.buffered().len() == 0,
    {
        WebSocket { pending: Vec::new() }
    }

    /// Adds bytes read from the connection.
    pub fn receive(&mut self, bytes: &[u8])
        ensures
            final(self).buffered() == old(self).buffered() + bytes@,
    {
        let mut i: usize = 0;
        let ghost head = self.pending@;
        while i < bytes.len()
            invariant
                i <= bytes@.len(),
                self.pending@ == head + bytes@.take(i as int),
            decreases bytes@.len() - i,
        {
            self.pending.push(bytes[i]);
            assert(bytes@.take(i + 1) =~= bytes@.take(i as int).push(bytes@[i as int]));
            i = i + 1;
        }
        assert(bytes@.take(bytes@.len() as int) =~= bytes@);
    }

    /// Takes the next whole frame from the bytes read, if they hold one.
    pub fn next_frame(&mut self) -> (r: FrameParse)
        ensures
            match r {
                FrameParse::Frame(f, n) => n <= old(self).buffered().len() && final(self).buffered() == old(self).buffered().skip(n as int),
                _ => final(self).buffered() == old(self).buffered(),
            },
            header_incomplete(old(self).buffered()) ==> r is Incomplete,
            !header_incomplete(old(self).buffered()) && frame_too_large(old(self).buffered()) ==> r is TooLarge,
            !header_incomplete(old(self).buffered()) && !frame_too_large(old(self).buffered())
                && old(self).buffered().len() < payload_start(old(self).buffered()) + payload_len(old(self).buffered()) ==> r is Incomplete,
            !header_incomplete(old(self).buffered()) && !frame_too_large(old(self).buffered())
                && old(self).buffered().len() >= payload_start(old(self).buffered()) + payload_len(old(self).buffered())
                ==> (r matches FrameParse::Frame(f, n) && f.fin == (old(self).buffered()[0] >= 128)
                && f.opcode == old(self).buffered()[0] % 16 && f.payload@ == unmasked(old(self).buffered())
                && n == payload_start(old(self).buffered()) + payload_len(old(self).buffered())),
    {
        let r = decode_frame(self.pending.as_slice());
        match &r {
            FrameParse::Frame(_, n) => {
                let rest = crate::text::slice_range(self.pending.as_slice(), *n, self.pending.len());
                self.pending = rest;
            },
            _ => {},
        }
        r
    }
}

proof fn lemma_be_round_trip(n: nat, k: nat)
    requires
        n < pow256(k),
    ensures
        be_bytes(n, k).len() == k,
        be_value(be_bytes(n, k)) == n,
    decreases k,
{
    if k > 0 {
        assert(n / 256 < pow256((k - 1) as nat)) by (nonlinear_arith)
            requires
                n < 256 * pow256((k - 1) as nat),
        ;
        lemma_be_round_trip(n / 256, (k - 1) as nat);
        let b = be_bytes(n, k);
        assert(b.drop_last() =~= be_bytes(n / 256, (k - 1) as nat));
        assert(b.last() == (n % 256) as u8);
        assert(n == (n / 256) * 256 + n % 256) by (nonlinear_arith);
    } else {
        assert(n == 0);
    }
}

/// Decoding a frame the server encodes gives back its first byte's FIN bit
/// and opcode and its payload, and takes exactly its bytes, for any payload
/// up to the 16 MiB limit.
pub proof fn frame_round_trip(first: u8, payload: Seq<u8>, rest: Seq<u8>)
    requires
        payload.len() <= MAX_FRAME_PAYLOAD,
    ensures
        ({
            let b = frame_bytes(first, payload) + rest;
            &&& !header_incomplete(b)
            &&& !frame_too_large(b)
            &&& payload_start(b) + payload_len(b) == frame_bytes(first, payload).len()
            &&& b.len() >= payload_start(b) + payload_len(b)
            &&& unmasked(b) == payload
            &&& b[0] == first
        }),
{
    let n = payload.len();
    let b = frame_bytes(first, payload) + rest;
    let lf = length_field(n);
    assert(b[0] == first);
    if n <= 125 {
        assert(lf =~= seq![n as u8]);
        assert(b[1] == n as u8);
        assert(len_code(b) == n);
        assert(!is_masked(b));
        assert(payload_start(b) == 2);
        assert(payload_len(b) == n);
    } else if n <= 65535 {
        assert(pow256(2) == 65536) by {
            reveal_with_fuel(pow256, 3);
        }
        lemma_be_round_trip(n, 2);
        assert(b[1] == 126u8);
        assert(len_code(b) == 126);
        assert(b.subrange(2, 4) =~= be_bytes(n, 2));
        assert(payload_len(b) == n);
        assert(!is_masked(b));
        assert(payload_start(b) == 4);
    } else {
        assert(pow256(8) == 0x1_0000_0000_0000_0000nat) by {
            reveal_with_fuel(pow256, 9);
        }
        lemma_be_round_trip(n, 8);
        assert(b[1] == 127u8);
        assert(len_code(b) == 127);
        assert(b.subrange(2, 10) =~= be_bytes(n, 8));
        assert(payload_len(b) == n);
        assert(!is_masked(b));
        assert(payload_start(b) == 10);
    }
    assert(unmasked(b) =~= payload);
}

/// A client frame: the first byte (FIN and opcode), the length field with
/// the mask bit set, the 4-byte masking key, then the payload XORed with
/// the key, byte `i` with key byte `i % 4`.
pub open spec fn masked_frame_bytes(first: u8, key: Seq<u8>, payload: Seq<u8>) -> Seq<u8> {
    let lf = length_field(payload.len());
    seq![first, (lf[0] + 128) as u8] + lf.drop_first() + key + Seq::new(
        payload.len(),
        |i: int| payload[i] ^ key[i % 4],
    )
}

proof fn lemma_xor_twice(a: u8, k: u8)
    ensures
        (a ^ k) ^ k == a,
{
    assert((a ^ k) ^ k == a) by (bit_vector);
}

/// Decoding a masked client frame gives back the first byte's FIN bit and
/// opcode and the payload as it was before masking, and takes exactly the
/// frame: 2 header bytes, the extended length, the 4 key bytes and the
/// payload, for any key and any payload up to the 16 MiB limit.
pub proof fn masked_frame_round_trip(first: u8, key: Seq<u8>, payload: Seq<u8>, rest: Seq<u8>)
    requires
        key.len() == 4,
        payload.len() <= MAX_FRAME_PAYLOAD,
    ensures
        ({
            let f = masked_frame_bytes(first, key, payload);
            let b = f + rest;
            &&& !header_incomplete(b)
            &&& !frame_too_large(b)
            &&& f.len() == 2 + (length_field(payload.len()).len() - 1) + 4 + payload.len()
            &&& payload_start(b) + payload_len(b) == f.len()
            &&& b.len() >= payload_start(b) + payload_len(b)
            &&& unmasked(b) == payload
            &&& b[0] == first
        }),
{
    let n = payload.len();
    let lf = length_field(n);
    let f = masked_frame_bytes(first, key, payload);
    let b = f + rest;
    let ext = (lf.len() - 1) as nat;
    assert(b[0] == first);
    if n <= 125 {
        assert(lf =~= seq![n as u8]);
        assert(b[1] == (n + 128) as u8);
        assert(len_code(b) == n);
        assert(ext == 0);
    } else if n <= 65535 {
        assert(pow256(2) == 65536) by {
            reveal_with_fuel(pow256, 3);
        }
        lemma_be_round_trip(n, 2);
        assert(lf[0] == 126u8);
        assert(b[1] == 254u8);
        assert(len_code(b) == 126);
        assert(b.subrange(2, 4) =~= be_bytes(n, 2));
        assert(payload_len(b) == n);
        assert(ext == 2);
    } else {
        assert(pow256(8) == 0x1_0000_0000_0000_0000nat) by {
            reveal_with_fuel(pow256, 9);
        }
        lemma_be_round_trip(n, 8);
        assert(lf[0] == 127u8);
        assert(b[1] == 255u8);
        assert(len_code(b) == 127);
        assert(b.subrange(2, 10) =~= be_bytes(n, 8));
        assert(payload_len(b) == n);
        assert(ext == 8);
    }
    assert(is_masked(b));
    assert(ext_len(len_code(b)) == ext);
    assert(payload_start(b) == 2 + ext + 4);
    let start = 2 + ext + 4;
    assert forall|k: int| 0 <= k < 4 implies b[start - 4 + k] == key[k] by {}
    assert forall|i: int| 0 <= i < n implies #[trigger] unmasked(b)[i] == payload[i] by {
        assert(b[start + i] == payload[i] ^ key[i % 4]);
        assert(b[start - 4 + (i % 4)] == key[i % 4]);
        lemma_xor_twice(payload[i], key[i % 4]);
    }
    assert(unmasked(b) =~= payload);
}

/// The echo service's reply to a message: text comes back prefixed with
/// `Pulsar Echo: `, binary data as it is, control messages get none.
pub fn echo_reply(msg: &WsMessage) -> (r: Option<Vec<u8>>)
    ensures
        match msg {
            WsMessage::Text(t) => r matches Some(f) && f@ == frame_bytes(0x81u8, encode_utf8("Pulsar Echo: "@ + t@)),
            WsMessage::Binary(d) => r matches Some(f) && f@ == frame_bytes(0x82u8, d@),
            _ => r is None,
        },
{
    match msg {
        WsMessage::Text(t) => {
            let reply = concat("Pulsar Echo: ", t.as_str());
            Some(text_frame(reply.as_str()))
        },
        WsMessage::Binary(d) => Some(binary_frame(d.as_slice())),
        _ => None,
    }
}

} // verus!
