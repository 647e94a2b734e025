//! Content-Length framing of LSP messages: `Content-Length: <N>\r\n\r\n<JSON body>`.
use vstd::prelude::*;
use vstd::slice::{slice_subrange, slice_to_vec};
use vstd::utf8::{
    decode_utf8, encode_utf8, encode_utf8_decode_utf8, encode_utf8_valid_utf8, is_ascii_chars,
    is_ascii_chars_encode_utf8, valid_utf8,
};
use crate::text::{
    chars_eq_str, chars_of, ascii_lower, decimal_chars, decimal_spec, is_digit, is_white_space, lemma_decimal_digits,
    lemma_parse_decimal, lowercase_spec, parse_unsigned, parse_unsigned_spec, to_lowercase, trim,
    trim_end_spec, trim_spec, trim_start_spec,
};

verus! {

/// Whether `\r\n\r\n` starts at position `p` of `b`.
pub open spec fn blank_line_at(b: Seq<u8>, p: int) -> bool {
    &&& 0 <= p
    &&& p + 4 <= b.len()
    &&& b[p] == 13
    &&& b[p + 1] == 10
    &&& b[p + 2] == 13
    &&& b[p + 3] == 10
}

/// The first position at or after `i` where `\r\n\r\n` starts.
pub open spec fn header_end_from(b: Seq<u8>, i: int) -> Option<int>
    decreases b.len() - i,
{
    if i < 0 || i + 4 > b.len() {
        None
    } else if blank_line_at(b, i) {
        Some(i)
    } else {
        header_end_from(b, i + 1)
    }
}

/// Where the header of the first frame in `b` ends: the first `\r\n\r\n`.
pub open spec fn header_end_spec(b: Seq<u8>) -> Option<int> {
    header_end_from(b, 0)
}

pub proof fn lemma_header_end_from(b: Seq<u8>, i: int)
    ensures
        header_end_from(b, i) matches Some(h) ==> i <= h && blank_line_at(b, h) && forall|q: int|
            i <= q < h ==> !blank_line_at(b, q),
        header_end_from(b, i) is None && 0 <= i ==> forall|q: int|
            i <= q ==> !blank_line_at(b, q),
    decreases b.len() - i,
{
    if !(i < 0 || i + 4 > b.len()) && !blank_line_at(b, i) {
        lemma_header_end_from(b, i + 1);
    }
}

/// The first position at or after `i` where `\r\n` starts in the text `s`.
pub open spec fn crlf_from(s: Seq<char>, i: int) -> Option<int>
    decreases s.len() - i,
{
    if i < 0 || i + 2 > s.len() {
        None
    } else if s[i] == '\r' && s[i + 1] == '\n' {
        Some(i)
    } else {
        crlf_from(s, i + 1)
    }
}

pub proof fn lemma_crlf_from(s: Seq<char>, i: int)
    ensures
        crlf_from(s, i) matches Some(p) ==> 0 <= i <= p && p + 2 <= s.len() && s[p] == '\r'
            && s[p + 1] == '\n',
        crlf_from(s, i) is None && 0 <= i ==> forall|q: int|
            i <= q && q + 2 <= s.len() ==> !(#[trigger] s[q] == '\r' && s[q + 1] == '\n'),
    decreases s.len() - i,
{
    if !(i < 0 || i + 2 > s.len()) && !(s[i] == '\r' && s[i + 1] == '\n') {
        lemma_crlf_from(s, i + 1);
    }
}

/// Whether lower-cased header text starts with `content-length:`.
pub open spec fn names_length(lower: Seq<char>) -> bool {
    lower.len() >= 15 && lower.take(15) == "content-length:"@
}

/// Whether a header line names the length: its lower-cased text starts with
/// `content-length:`.
pub open spec fn is_length_line(line: Seq<char>) -> bool {
    names_length(lowercase_spec(line))
}

/// The value of a `Content-Length` line: the text after the name, trimmed, read as a `usize`.
pub open spec fn length_value(line: Seq<char>) -> Option<usize> {
    if line.len() >= 15 {
        match parse_unsigned_spec(trim_spec(line.skip(15)), usize::MAX as nat) {
            Some(n) => Some(n as usize),
            None => None,
        }
    } else {
        None
    }
}

/// The length that the header text `s` gives, scanning its `\r\n`-separated lines from
/// position `i`: the value of the first line that names it.
pub open spec fn length_in_lines(s: Seq<char>, i: int) -> Option<usize>
    decreases s.len() - i,
{
    if i < 0 || i > s.len() {
        None
    } else {
        let end = crlf_from(s, i);
        let line = match end {
            Some(p) => s.subrange(i, p),
            None => s.subrange(i, s.len() as int),
        };
        if is_length_line(line) {
            length_value(line)
        } else {
            match end {
                Some(p) => {
                    proof {
                        lemma_crlf_from(s, i);
                    }
                    length_in_lines(s, p + 2)
                },
                None => None,
            }
        }
    }
}

/// The body length that the header bytes `header` declare: `None` when they are not
/// UTF-8 or no line names a readable length.
pub open spec fn content_length_spec(header: Seq<u8>) -> Option<usize> {
    if valid_utf8(header) {
        length_in_lines(decode_utf8(header), 0)
    } else {
        None
    }
}

/// Calls `std::str::from_utf8` and collects the characters: `Some` exactly when the bytes
/// are well-formed UTF-8, with the characters they encode.
#[verifier::external_body]
fn decode_chars(bytes: &[u8]) -> (r: Option<Vec<char>>)
    ensures
        r is Some <==> valid_utf8(bytes@),
        r matches Some(cs) ==> cs@ == decode_utf8(bytes@),
{
    match std::str::from_utf8(bytes) {
        Ok(s) => Some(s.chars().collect()),
        Err(_) => None,
    }
}

/// Reads one header line, given the line and its lower-cased text `lower`: `None` when the
/// line does not name the length, else the length it gives, if readable.
pub fn line_length(line: &[char], lower: &[char]) -> (r: Option<Option<usize>>)
    ensures
        r == (if names_length(lower@) {
            Some(length_value(line@))
        } else {
            None::<Option<usize>>
        }),
{
    if lower.len() >= 15 && chars_eq_str(slice_subrange(lower, 0, 15), "content-length:") {
        if line.len() < 15 {
            return Some(None);
        }
        let value = trim(slice_subrange(line, 15, line.len()));
        assert(line@.subrange(15, line@.len() as int) =~= line@.skip(15));
        return Some(
            match parse_unsigned(value.as_slice(), usize::MAX as u64) {
                Some(n) => Some(n as usize),
                None => None,
            },
        );
    }
    proof {
        if lower@.len() >= 15 {
            assert(lower@.subrange(0, 15) =~= lower@.take(15));
        }
    }
    None
}

/// The length that the lines of `s` from position `i` give, if a line names it.
fn length_from_lines(s: &Vec<char>, i: usize) -> (r: Option<usize>)
    requires
        i <= s.len(),
    ensures
        r == length_in_lines(s@, i as int),
    decreases s.len() - i,
{
    let len = s.len();
    let mut q: usize = i;
    while len - q >= 2 && !(s[q] == '\r' && s[q + 1] == '\n')
        invariant
            len == s@.len(),
            i <= q <= len,
            crlf_from(s@, i as int) == crlf_from(s@, q as int),
        decreases len - q,
    {
        q = q + 1;
    }
    let found = len - q >= 2;
    let line_end = if found {
        q
    } else {
        len
    };
    proof {
        lemma_crlf_from(s@, i as int);
    }
    let line = slice_subrange(s.as_slice(), i, line_end);
    let lower = to_lowercase(line);
    if let Some(v) = line_length(line, lower.as_slice()) {
        return v;
    }
    if found {
        length_from_lines(s, q + 2)
    } else {
        None
    }
}


/// The name for whether `serde_json::from_slice` reads `bytes` as a JSON value.
pub uninterp spec fn spec_is_json(bytes: Seq<u8>) -> bool;

/// Calls `serde_json::from_slice::<serde_json::Value>` and tells whether it succeeded; the
/// answer is named `spec_is_json`, since JSON syntax is not restated here.
#[verifier::external_body]
fn is_json(bytes: &[u8]) -> (r: bool)
    ensures
        r == spec_is_json(bytes@),
{
    serde_json::from_slice::<serde_json::Value>(bytes).is_ok()
}

/// The bodies of the complete frames at the front of `b` that hold JSON, in order, and the
/// bytes left once they are consumed. A header without a readable length is skipped
/// together with its blank line; a body that is not JSON is consumed and left out; the
/// scan stops at a header that is not complete or a body that has not fully arrived.
pub open spec fn drain_frames(b: Seq<u8>) -> (Seq<Seq<u8>>, Seq<u8>)
    decreases b.len(),
{
    match header_end_spec(b) {
        None => (seq![], b),
        Some(h) => {
            proof {
                lemma_header_end_from(b, 0);
            }
            match content_length_spec(b.take(h)) {
                None => drain_frames(b.skip(h + 4)),
                Some(n) => if h + 4 + n <= b.len() {
                    let body = b.subrange(h + 4, h + 4 + n);
                    let rest = drain_frames(b.skip(h + 4 + n));
                    (
                        if spec_is_json(body) {
                            seq![body] + rest.0
                        } else {
                            rest.0
                        },
                        rest.1,
                    )
                } else {
                    (seq![], b)
                },
            }
        },
    }
}

/// The byte contents of a sequence of bodies.
pub open spec fn bodies_view(v: Seq<Vec<u8>>) -> Seq<Seq<u8>> {
    Seq::new(v.len(), |i: int| v[i]@)
}

/// Incremental reader of Content-Length framed messages.
pub struct MessageParser {
    buffer: Vec<u8>,
}

impl View for MessageParser {
    type V = Seq<u8>;

    /// The bytes received and not yet consumed.
    closed spec fn view(&self) -> Seq<u8> {
        self.buffer@
    }
}

impl MessageParser {
    pub fn new() -> (r: Self)
        ensures
            r@ == Seq::<u8>::empty(),
    {
        MessageParser { buffer: Vec::new() }
    }

    /// Where the first `\r\n\r\n` of the pending bytes starts.
    pub fn find_header_end(&self) -> (r: Option<usize>)
        ensures
            match r {
                Some(h) => header_end_spec(self@) == Some(h as int),
                None => header_end_spec(self@) is None,
            },
    {
        let len = self.buffer.len();
        let mut i: usize = 0;
        while len - i >= 4
            invariant
                len == self.buffer@.len(),
                i <= len,
                header_end_spec(self.buffer@) == header_end_from(self.buffer@, i as int),
            decreases len - i,
        {
            if self.buffer[i] == 13 && self.buffer[i + 1] == 10 && self.buffer[i + 2] == 13
                && self.buffer[i + 3] == 10 {
                return Some(i);
            }
            i = i + 1;
        }
        None
    }

    /// The body length that the header `pending[..header_end]` declares.
    pub fn parse_content_length(&self, header_end: usize) -> (r: Option<usize>)
        requires
            header_end <= self@.len(),
        ensures
            r == content_length_spec(self@.take(header_end as int)),
    {
        let header = slice_subrange(self.buffer.as_slice(), 0, header_end);
        assert(header@ =~= self.buffer@.take(header_end as int));
        match decode_chars(header) {
            Some(cs) => length_from_lines(&cs, 0),
            None => None,
        }
    }

    /// Consumes a complete frame whose body is `pending[body_start..body_end]`: the body joins
    /// `messages` when `body_is_json`, and the pending bytes up to `body_end` are dropped.
    pub fn take_frame(
        &mut self,
        body_start: usize,
        body_end: usize,
        body_is_json: bool,
        messages: &mut Vec<Vec<u8>>,
    )
        requires
            body_start <= body_end <= old(self)@.len(),
        ensures
            final(self)@ == old(self)@.skip(body_end as int),
            bodies_view(final(messages)@) == (if body_is_json {
                bodies_view(old(messages)@).push(old(self)@.subrange(body_start as int, body_end as int))
            } else {
                bodies_view(old(messages)@)
            }),
    {
        if body_is_json {
            let body = slice_to_vec(slice_subrange(self.buffer.as_slice(), body_start, body_end));
            let ghost before = bodies_view(messages@);
            messages.push(body);
            assert(bodies_view(messages@) =~= before.push(body@));
        }
        let ghost b = self.buffer@;
        self.buffer = self.buffer.split_off(body_end);
        assert(self.buffer@ =~= b.skip(body_end as int));
    }

    /// Feed raw bytes into the parser. Returns the bodies of the complete messages, in
    /// order; the bytes of an incomplete frame stay pending.
    pub fn feed(&mut self, chunk: &[u8]) -> (r: Vec<Vec<u8>>)
        ensures
            (bodies_view(r@), final(self)@) == drain_frames(old(self)@ + chunk@),
    {
        let mut k: usize = 0;
        while k < chunk.len()
            invariant
                k <= chunk@.len(),
                self.buffer@ == old(self).buffer@ + chunk@.take(k as int),
            decreases chunk@.len() - k,
        {
            self.buffer.push(chunk[k]);
            k = k + 1;
            assert(self.buffer@ =~= old(self).buffer@ + chunk@.take(k as int));
        }
        assert(chunk@.take(chunk@.len() as int) =~= chunk@);
        let ghost all = self.buffer@;
        let mut messages: Vec<Vec<u8>> = Vec::new();
        loop
            invariant
                bodies_view(messages@) + drain_frames(self.buffer@).0 == drain_frames(all).0,
                drain_frames(self.buffer@).1 == drain_frames(all).1,
            ensures
                bodies_view(messages@) == drain_frames(all).0,
                self.buffer@ == drain_frames(all).1,
            decreases self.buffer@.len(),
        {
            let ghost b = self.buffer@;
            let header_end = match self.find_header_end() {
                Some(h) => h,
                None => {
                    assert(bodies_view(messages@) =~= bodies_view(messages@) + drain_frames(b).0);
                    break;
                },
            };
            proof {
                lemma_header_end_from(b, 0);
            }
            let len = self.buffer.len();
            assert(header_end + 4 <= len);
            let body_start = header_end + 4;
            match self.parse_content_length(header_end) {
                None => {
                    self.buffer = self.buffer.split_off(body_start);
                    assert(self.buffer@ =~= b.skip(body_start as int));
                },
                Some(n) => {
                    if n > self.buffer.len() - body_start {
                        assert(bodies_view(messages@) =~= bodies_view(messages@) + drain_frames(b).0);
                        break;
                    }
                    let body_end = body_start + n;
                    let ok = is_json(slice_subrange(self.buffer.as_slice(), body_start, body_end));
                    let ghost rest = drain_frames(b.skip(body_end as int));
                    let ghost before = bodies_view(messages@);
                    let ghost body = b.subrange(body_start as int, body_end as int);
                    self.take_frame(body_start, body_end, ok, &mut messages);
                    if ok {
                        assert(bodies_view(messages@) + rest.0 =~= before + (seq![body] + rest.0));
                    }
                },
            }
        }
        messages
    }
}


impl Default for MessageParser {
    fn default() -> (r: Self)
        ensures
            r@ == Seq::<u8>::empty(),
    {
        Self::new()
    }
}

/// The bytes of ASCII text.
pub open spec fn ascii_bytes(cs: Seq<char>) -> Seq<u8> {
    Seq::new(cs.len(), |i: int| cs[i] as u8)
}

/// The header line that announces a body of `n` bytes.
pub open spec fn length_line(n: nat) -> Seq<char> {
    "Content-Length: "@ + decimal_spec(n)
}

/// The framed form of `body`: `Content-Length: <N>\r\n\r\n` then the body.
pub open spec fn frame_spec(body: Seq<u8>) -> Seq<u8> {
    ascii_bytes(length_line(body.len()) + "\r\n\r\n"@) + body
}

/// Frames `body` for the wire, as the proxy writes every message it forwards.
pub fn encode_frame(body: &[u8]) -> (r: Vec<u8>)
    ensures
        r@ == frame_spec(body@),
{
    let mut header = chars_of("Content-Length: ");
    let mut digits = decimal_chars(body.len());
    header.append(&mut digits);
    let mut blank = chars_of("\r\n\r\n");
    header.append(&mut blank);
    let mut out: Vec<u8> = Vec::new();
    let mut i: usize = 0;
    while i < header.len()
        invariant
            i <= header.len(),
            out@ == ascii_bytes(header@.take(i as int)),
        decreases header.len() - i,
    {
        let c = header[i];
        out.push(c as u8);
        i = i + 1;
        assert(out@ =~= ascii_bytes(header@.take(i as int)));
    }
    assert(header@.take(header.len() as int) =~= header@);
    let mut j: usize = 0;
    let ghost head = out@;
    while j < body.len()
        invariant
            j <= body.len(),
            out@ == head + body@.take(j as int),
        decreases body.len() - j,
    {
        out.push(body[j]);
        j = j + 1;
        assert(out@ =~= head + body@.take(j as int));
    }
    assert(body@.take(body.len() as int) =~= body@);
    out
}


proof fn lemma_header_end_is(b: Seq<u8>, i: int, h: int)
    requires
        0 <= i <= h,
        blank_line_at(b, h),
        forall|q: int| i <= q < h ==> !blank_line_at(b, q),
    ensures
        header_end_from(b, i) == Some(h),
    decreases h - i,
{
    if i < h {
        lemma_header_end_is(b, i + 1, h);
    }
}

/// A complete header at the front of `b` stays where it is when more bytes arrive.
proof fn lemma_header_end_extend(b: Seq<u8>, more: Seq<u8>)
    requires
        header_end_spec(b) is Some,
    ensures
        header_end_spec(b + more) == header_end_spec(b),
{
    lemma_header_end_from(b, 0);
    let h = header_end_spec(b)->0;
    let bm = b + more;
    assert forall|q: int| 0 <= q < h implies !blank_line_at(bm, q) by {
        assert(!blank_line_at(b, q));
        assert(bm[q] == b[q] && bm[q + 1] == b[q + 1] && bm[q + 2] == b[q + 2] && bm[q + 3]
            == b[q + 3]);
    }
    lemma_header_end_is(bm, 0, h);
}

/// Bytes that arrive in two chunks are read as if they had arrived at once: feeding `first`
/// and then `second` gives, in total, the bodies and the pending bytes that feeding
/// `first + second` gives.
pub proof fn lemma_drain_frames_chunks(first: Seq<u8>, second: Seq<u8>)
    ensures
        ({
            let (m1, r1) = drain_frames(first);
            let (m2, r2) = drain_frames(r1 + second);
            drain_frames(first + second) == (m1 + m2, r2)
        }),
    decreases first.len(),
{
    let all = first + second;
    match header_end_spec(first) {
        None => {
            assert(drain_frames(first).0 + drain_frames(all).0 =~= drain_frames(all).0);
        },
        Some(h) => {
            lemma_header_end_from(first, 0);
            lemma_header_end_extend(first, second);
            assert(all.take(h) =~= first.take(h));
            match content_length_spec(first.take(h)) {
                None => {
                    assert(all.skip(h + 4) =~= first.skip(h + 4) + second);
                    lemma_drain_frames_chunks(first.skip(h + 4), second);
                },
                Some(n) => {
                    if h + 4 + n <= first.len() {
                        let k = h + 4 + n;
                        assert(all.subrange(h + 4, k) =~= first.subrange(h + 4, k));
                        assert(all.skip(k) =~= first.skip(k) + second);
                        lemma_drain_frames_chunks(first.skip(k), second);
                        let body = first.subrange(h + 4, k);
                        let (m1, r1) = drain_frames(first.skip(k));
                        let (m2, r2) = drain_frames(r1 + second);
                        assert(seq![body] + m1 + m2 =~= seq![body] + (m1 + m2));
                    } else {
                        assert(drain_frames(first).0 + drain_frames(all).0 =~= drain_frames(all).0);
                    }
                },
            }
        },
    }
}


proof fn lemma_no_crlf(s: Seq<char>, i: int)
    requires
        0 <= i,
        forall|q: int| i <= q < s.len() ==> s[q] != '\r',
    ensures
        crlf_from(s, i) is None,
    decreases s.len() - i,
{
    if i + 2 <= s.len() {
        lemma_no_crlf(s, i + 1);
    }
}

proof fn lemma_ascii_decode(cs: Seq<char>)
    requires
        is_ascii_chars(cs),
    ensures
        valid_utf8(ascii_bytes(cs)),
        decode_utf8(ascii_bytes(cs)) == cs,
{
    is_ascii_chars_encode_utf8(cs);
    assert(encode_utf8(cs) =~= ascii_bytes(cs));
    encode_utf8_valid_utf8(cs);
    encode_utf8_decode_utf8(cs);
}

/// The header line of a frame names the length of its body.
proof fn lemma_length_line(n: nat)
    requires
        n <= usize::MAX,
    ensures
        is_ascii_chars(length_line(n)),
        forall|q: int| 0 <= q < length_line(n).len() ==> #[trigger] length_line(n)[q] != '\r',
        length_in_lines(length_line(n), 0) == Some(n as usize),
        is_length_line(length_line(n)),
        length_value(length_line(n)) == Some(n as usize),
{
    reveal_strlit("Content-Length: ");
    reveal_strlit("content-length:");
    lemma_decimal_digits(n);
    let d = decimal_spec(n);
    let p = length_line(n);
    let lit = "Content-Length: "@;
    assert(lit.len() == 16);
    assert forall|q: int| 0 <= q < p.len() implies '\0' <= #[trigger] p[q] <= '\u{7f}' && p[q]
        != '\r' by {
        if q >= 16 {
            assert(p[q] == d[q - 16]);
            assert(is_digit(d[q - 16]));
        }
    }
    lemma_no_crlf(p, 0);
    assert(p.subrange(0, p.len() as int) =~= p);
    assert(ascii_lower(p).take(15) =~= "content-length:"@);
    assert(is_length_line(p));
    let tail = p.skip(15);
    assert(tail =~= seq![' '] + d);
    assert(tail.drop_first() =~= d);
    assert(is_white_space(tail[0]));
    assert(!is_white_space(d[0])) by {
        assert(is_digit(d[0]));
    }
    assert(trim_start_spec(tail) == trim_start_spec(d));
    assert(trim_start_spec(d) == d);
    assert(!is_white_space(d.last())) by {
        assert(is_digit(d[d.len() - 1]));
    }
    assert(trim_end_spec(d) == d);
    lemma_parse_decimal(n, usize::MAX as nat);
}

/// A framed body reads back as that body: the frame is consumed whole, and the body is one
/// of the messages exactly when it is JSON; what follows the frame is read as before.
pub proof fn lemma_frame_roundtrip(body: Seq<u8>, rest: Seq<u8>)
    requires
        body.len() <= usize::MAX,
    ensures
        drain_frames(frame_spec(body) + rest) == (
            if spec_is_json(body) {
                seq![body] + drain_frames(rest).0
            } else {
                drain_frames(rest).0
            },
            drain_frames(rest).1,
        ),
{
    reveal_strlit("\r\n\r\n");
    let n = body.len();
    let p = length_line(n);
    lemma_length_line(n);
    let h = p.len() as int;
    let header = p + "\r\n\r\n"@;
    let b = frame_spec(body) + rest;
    assert(b =~= ascii_bytes(header) + body + rest);
    assert forall|q: int| 0 <= q < h implies !blank_line_at(b, q) by {
        assert(b[q] == p[q] as u8);
        assert(p[q] != '\r');
        assert('\0' <= p[q] <= '\u{7f}');
    }
    assert(header[h] == '\r' && header[h + 1] == '\n' && header[h + 2] == '\r' && header[h + 3]
        == '\n');
    assert(blank_line_at(b, h));
    lemma_header_end_is(b, 0, h);
    assert(b.take(h) =~= ascii_bytes(p));
    lemma_ascii_decode(p);
    assert(content_length_spec(b.take(h)) == Some(n as usize));
    assert(b.subrange(h + 4, h + 4 + n) =~= body);
    assert(b.skip(h + 4 + n) =~= rest);
}


/// What feeding `chunks` one after another gives, starting from the pending bytes
/// `pending`: the bodies read, in order, and the bytes left pending.
pub open spec fn feed_chunks(pending: Seq<u8>, chunks: Seq<Seq<u8>>) -> (Seq<Seq<u8>>, Seq<u8>)
    decreases chunks.len(),
{
    if chunks.len() == 0 {
        (seq![], pending)
    } else {
        let (m1, r1) = drain_frames(pending + chunks[0]);
        let (m2, r2) = feed_chunks(r1, chunks.drop_first());
        (m1 + m2, r2)
    }
}

/// What a parser leaves pending holds no frame it could still read: reading it again gives
/// no body and keeps it whole.
pub proof fn lemma_pending_is_drained(b: Seq<u8>)
    ensures
        drain_frames(drain_frames(b).1) == (Seq::<Seq<u8>>::empty(), drain_frames(b).1),
    decreases b.len(),
{
    match header_end_spec(b) {
        None => {},
        Some(h) => {
            lemma_header_end_from(b, 0);
            match content_length_spec(b.take(h)) {
                None => lemma_pending_is_drained(b.skip(h + 4)),
                Some(n) => if h + 4 + n <= b.len() {
                    lemma_pending_is_drained(b.skip(h + 4 + n));
                },
            }
        },
    }
}

/// However the bytes are split into chunks, feeding the chunks one after another gives the
/// bodies and the pending bytes that feeding all of them at once gives.
pub proof fn lemma_feed_chunks(pending: Seq<u8>, chunks: Seq<Seq<u8>>)
    requires
        drain_frames(pending) == (Seq::<Seq<u8>>::empty(), pending),
    ensures
        feed_chunks(pending, chunks) == drain_frames(pending + chunks.flatten()),
    decreases chunks.len(),
{
    if chunks.len() == 0 {
        assert(pending + chunks.flatten() =~= pending);
    } else {
        let c = chunks[0];
        let rest = chunks.drop_first();
        assert(chunks.flatten() == c + rest.flatten());
        let (m1, r1) = drain_frames(pending + c);
        lemma_pending_is_drained(pending + c);
        lemma_feed_chunks(r1, rest);
        lemma_drain_frames_chunks(pending + c, rest.flatten());
        assert(pending + c + rest.flatten() =~= pending + chunks.flatten());
    }
}


/// Header lines joined by `\r\n`.
pub open spec fn join_lines(lines: Seq<Seq<char>>) -> Seq<char>
    decreases lines.len(),
{
    if lines.len() == 0 {
        Seq::empty()
    } else if lines.len() == 1 {
        lines[0]
    } else {
        lines[0] + "\r\n"@ + join_lines(lines.drop_first())
    }
}

/// An ASCII header line without a carriage return.
pub open spec fn plain_line(line: Seq<char>) -> bool {
    &&& is_ascii_chars(line)
    &&& forall|q: int| 0 <= q < line.len() ==> #[trigger] line[q] != '\r'
}

proof fn lemma_crlf_at(s: Seq<char>, i: int, p: int)
    requires
        0 <= i <= p,
        p + 2 <= s.len(),
        s[p] == '\r',
        s[p + 1] == '\n',
        forall|q: int| i <= q < p ==> s[q] != '\r',
    ensures
        crlf_from(s, i) == Some(p),
    decreases p - i,
{
    if i < p {
        lemma_crlf_at(s, i + 1, p);
    }
}

proof fn lemma_crlf_shift(pre: Seq<char>, rest: Seq<char>, j: int)
    requires
        0 <= j <= rest.len(),
    ensures
        crlf_from(pre + rest, pre.len() + j) == match crlf_from(rest, j) {
            Some(p) => Some(p + pre.len()),
            None => None::<int>,
        },
    decreases rest.len() - j,
{
    let s = pre + rest;
    let i = pre.len() + j;
    if j + 2 <= rest.len() {
        assert(s[i] == rest[j] && s[i + 1] == rest[j + 1]);
        if !(rest[j] == '\r' && rest[j + 1] == '\n') {
            lemma_crlf_shift(pre, rest, j + 1);
        }
    }
}

proof fn lemma_lines_shift(pre: Seq<char>, rest: Seq<char>, j: int)
    requires
        0 <= j <= rest.len(),
    ensures
        length_in_lines(pre + rest, pre.len() + j) == length_in_lines(rest, j),
    decreases rest.len() - j,
{
    let s = pre + rest;
    let i = pre.len() + j;
    lemma_crlf_shift(pre, rest, j);
    lemma_crlf_from(rest, j);
    match crlf_from(rest, j) {
        Some(p) => {
            assert(s.subrange(i, p + pre.len()) =~= rest.subrange(j, p));
            lemma_lines_shift(pre, rest, p + 2);
            assert(pre.len() + (p + 2) == p + pre.len() + 2);
        },
        None => {
            assert(s.subrange(i, s.len() as int) =~= rest.subrange(j, rest.len() as int));
        },
    }
}

proof fn lemma_first_line(line: Seq<char>, rest: Seq<char>)
    requires
        plain_line(line),
    ensures
        length_in_lines(line + "\r\n"@ + rest, 0) == if is_length_line(line) {
            length_value(line)
        } else {
            length_in_lines(rest, 0)
        },
        length_in_lines(line, 0) == if is_length_line(line) {
            length_value(line)
        } else {
            None
        },
{
    reveal_strlit("\r\n");
    let sep = "\r\n"@;
    let pre = line + sep;
    let s = pre + rest;
    assert(line + sep + rest == s);
    let p = line.len() as int;
    assert(s[p] == '\r' && s[p + 1] == '\n');
    assert forall|q: int| 0 <= q < p implies s[q] != '\r' by {
        assert(s[q] == line[q]);
    }
    lemma_crlf_at(s, 0, p);
    assert(s.subrange(0, p) =~= line);
    lemma_lines_shift(pre, rest, 0);
    assert(pre.len() + 0 == p + 2);
    lemma_no_crlf(line, 0);
    assert(line.subrange(0, line.len() as int) =~= line);
}

proof fn lemma_join_ascii(lines: Seq<Seq<char>>)
    requires
        forall|i: int| 0 <= i < lines.len() ==> plain_line(#[trigger] lines[i]),
    ensures
        is_ascii_chars(join_lines(lines)),
    decreases lines.len(),
{
    reveal_strlit("\r\n");
    if lines.len() > 1 {
        let rest = lines.drop_first();
        assert forall|i: int| 0 <= i < rest.len() implies plain_line(#[trigger] rest[i]) by {
            assert(rest[i] == lines[i + 1]);
        }
        lemma_join_ascii(rest);
        assert(plain_line(lines[0]));
        let j = lines[0] + "\r\n"@ + join_lines(rest);
        assert forall|q: int| 0 <= q < j.len() implies '\0' <= #[trigger] j[q] <= '\u{7f}' by {
            if q < lines[0].len() {
                assert(j[q] == lines[0][q]);
            } else if q >= lines[0].len() + 2 {
                assert(j[q] == join_lines(rest)[q - lines[0].len() - 2]);
            }
        }
    } else if lines.len() == 1 {
        assert(plain_line(lines[0]));
    }
}

proof fn lemma_length_in_joined(
    before: Seq<Seq<char>>,
    line: Seq<char>,
    after: Seq<Seq<char>>,
)
    requires
        plain_line(line),
        is_length_line(line),
        forall|i: int| 0 <= i < before.len() ==> plain_line(#[trigger] before[i]) && !is_length_line(
            before[i],
        ),
    ensures
        length_in_lines(join_lines(before + seq![line] + after), 0) == length_value(line),
    decreases before.len(),
{
    let all = before + seq![line] + after;
    if before.len() == 0 {
        assert(all =~= seq![line] + after);
        if after.len() == 0 {
            assert(join_lines(all) == line);
            lemma_first_line(line, Seq::empty());
        } else {
            assert(all.drop_first() =~= after);
            lemma_first_line(line, join_lines(after));
        }
    } else {
        let b0 = before[0];
        let rest = before.drop_first();
        assert(all.drop_first() =~= rest + seq![line] + after);
        assert(all[0] == b0);
        assert(plain_line(b0) && !is_length_line(b0));
        assert forall|i: int| 0 <= i < rest.len() implies plain_line(#[trigger] rest[i]) && !is_length_line(
            rest[i],
        ) by {
            assert(rest[i] == before[i + 1]);
        }
        lemma_length_in_joined(rest, line, after);
        lemma_first_line(b0, join_lines(rest + seq![line] + after));
    }
}

/// The length a header declares is read from its first line that names it, whatever other
/// lines (such as `Content-Type`) come before or after that line: a header made of ASCII
/// lines, where `Content-Length: n` is the first line naming the length, declares `n`.
pub proof fn lemma_length_among_lines(before: Seq<Seq<char>>, n: nat, after: Seq<Seq<char>>)
    requires
        n <= usize::MAX,
        forall|i: int| 0 <= i < before.len() ==> plain_line(#[trigger] before[i]) && !names_length(
            ascii_lower(before[i]),
        ),
        forall|i: int| 0 <= i < after.len() ==> plain_line(#[trigger] after[i]),
    ensures
        content_length_spec(ascii_bytes(join_lines(before + seq![length_line(n)] + after)))
            == Some(n as usize),
{
    let l = length_line(n);
    lemma_length_line(n);
    assert(plain_line(l));
    let all = before + seq![l] + after;
    assert forall|i: int| 0 <= i < all.len() implies plain_line(#[trigger] all[i]) by {
        if i < before.len() {
            assert(all[i] == before[i]);
        } else if i > before.len() {
            assert(all[i] == after[i - before.len() - 1]);
        }
    }
    lemma_join_ascii(all);
    lemma_ascii_decode(join_lines(all));
    assert forall|i: int| 0 <= i < before.len() implies plain_line(#[trigger] before[i]) && !is_length_line(
        before[i],
    ) by {
        assert(plain_line(before[i]));
    }
    lemma_length_in_joined(before, l, after);
}

}
