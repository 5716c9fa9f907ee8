//! Reading a frame as a program does from a byte stream: the version byte,
//! the frame type line, header lines up to an empty line, a body of the size
//! that the `length` header gives, and the terminating byte.

use vstd::prelude::*;
use vstd::slice::slice_subrange;
use vstd::slice::slice_to_vec;
use vstd::utf8::decode_utf8;
use vstd::utf8::decode_utf8_encode_utf8;
use vstd::utf8::encode_utf8_valid_utf8;
use vstd::utf8::is_char_boundary;
use vstd::utf8::is_char_boundary_iff_not_is_continuation_byte;
use vstd::utf8::encode_utf8;
use vstd::utf8::pop_first_scalar;
use vstd::utf8::valid_utf8;
use vstd::utf8::valid_utf8_split;
use crate::decimal::parse_usize;
use crate::decimal::spec_parse_usize;
use crate::frame::headers_view;
use crate::frame::utf8_of;
use crate::frame::Header;
use crate::frame::SpecIP;
use crate::frame::IP;
use crate::wire::colon;
use crate::wire::first_index;
use crate::wire::lemma_first_index;
use crate::wire::length_key;
use crate::wire::newline;
use crate::wire::SpecHeader;

verus! {

/// Why a frame could not be read.
#[derive(Clone, Copy, PartialEq, Eq, Structural, Debug)]
pub enum ParseFrameError {
    /// A header line holds no colon.
    NoColon,
    /// A header line is not valid UTF-8.
    InvalidUtf8,
}

/// The header key `type`.
pub open spec fn type_key() -> Seq<u8> {
    seq![116u8, 121u8, 112u8, 101u8]
}

/// The header key `port`.
pub open spec fn port_key() -> Seq<u8> {
    seq![112u8, 111u8, 114u8, 116u8]
}

/// How many bytes reading one line takes: up to and including the first line
/// feed, or everything that is left.
pub open spec fn line_len(s: Seq<u8>) -> nat {
    match first_index(s, newline()) {
        Some(i) => i + 1,
        None => s.len(),
    }
}

/// A line without its line feed, and without a carriage return before that
/// line feed.
pub open spec fn strip_line_end(raw: Seq<u8>) -> Seq<u8> {
    if raw.len() > 0 && raw.last() == 10 {
        let x = raw.drop_last();
        if x.len() > 0 && x.last() == 13 {
            x.drop_last()
        } else {
            x
        }
    } else {
        raw
    }
}

/// The well-known fields and the other headers gathered so far.
pub struct HeaderState {
    pub body_type: Seq<u8>,
    pub port: Seq<u8>,
    pub headers: Seq<SpecHeader>,
    pub body_length: usize,
}

/// No field seen yet.
pub open spec fn initial_state() -> HeaderState {
    HeaderState { body_type: Seq::empty(), port: Seq::empty(), headers: Seq::empty(), body_length: 0 }
}

/// A `length` header line whose value is no number (reading panics there).
pub open spec fn spec_line_panics(line: Seq<u8>) -> bool {
    match first_index(line, colon()) {
        Some(i) => line.take(i as int) == length_key() && spec_parse_usize(line.skip(i as int + 1)) is None,
        None => false,
    }
}

/// The outcome of one header line.
pub enum LineApplied {
    Applied(HeaderState),
    Failed(ParseFrameError),
    Panics,
}

/// What a non-empty header line does: the text before its first colon is the
/// key, the rest the value; `port`, `type` and `length` set their field (the
/// last one seen wins), any other key is kept as a header.
pub open spec fn spec_apply_line(st: HeaderState, line: Seq<u8>) -> LineApplied {
    match first_index(line, colon()) {
        None => LineApplied::Failed(ParseFrameError::NoColon),
        Some(i) => {
            let key = line.take(i as int);
            let value = line.skip(i as int + 1);
            if key == port_key() {
                LineApplied::Applied(
                    HeaderState {
                        body_type: st.body_type,
                        port: value,
                        headers: st.headers,
                        body_length: st.body_length,
                    },
                )
            } else if key == type_key() {
                LineApplied::Applied(
                    HeaderState {
                        body_type: value,
                        port: st.port,
                        headers: st.headers,
                        body_length: st.body_length,
                    },
                )
            } else if key == length_key() {
                match spec_parse_usize(value) {
                    None => LineApplied::Panics,
                    Some(n) => LineApplied::Applied(
                        HeaderState {
                            body_type: st.body_type,
                            port: st.port,
                            headers: st.headers,
                            body_length: n,
                        },
                    ),
                }
            } else {
                LineApplied::Applied(
                    HeaderState {
                        body_type: st.body_type,
                        port: st.port,
                        headers: st.headers.push((key, value)),
                        body_length: st.body_length,
                    },
                )
            }
        },
    }
}

/// The outcome of reading the header lines.
pub enum HeadersRead {
    /// The fields gathered, and how many bytes the lines took.
    Done(HeaderState, nat),
    Failed(ParseFrameError),
    Panics,
}

/// Reads header lines from `r` until an empty line or the end of the stream.
#[verifier::opaque]
pub open spec fn spec_read_headers(r: Seq<u8>, st: HeaderState) -> HeadersRead
    decreases r.len(),
{
    let l = line_len(r);
    if l == 0 || l > r.len() {
        HeadersRead::Done(st, 0)
    } else {
        let raw = r.take(l as int);
        if !valid_utf8(raw) {
            HeadersRead::Failed(ParseFrameError::InvalidUtf8)
        } else {
            let line = strip_line_end(raw);
            if line.len() == 0 {
                HeadersRead::Done(st, l)
            } else {
                match spec_apply_line(st, line) {
                    LineApplied::Panics => HeadersRead::Panics,
                    LineApplied::Failed(e) => HeadersRead::Failed(e),
                    LineApplied::Applied(st2) => match spec_read_headers(r.skip(l as int), st2) {
                        HeadersRead::Done(st3, h) => HeadersRead::Done(st3, l + h),
                        HeadersRead::Failed(e) => HeadersRead::Failed(e),
                        HeadersRead::Panics => HeadersRead::Panics,
                    },
                }
            }
        }
    }
}

/// The outcome of reading a frame.
pub enum FrameRead {
    /// The frame, and how many bytes of the stream it took.
    Read(SpecIP, nat),
    Failed(ParseFrameError),
    /// Reading panics: the frame type line is missing, not UTF-8 or cut inside
    /// a character, a `length` value is no number, or the body is cut short.
    Panics,
}

/// Reads one frame from the stream `s`.
pub open spec fn spec_parse_frame(s: Seq<u8>) -> FrameRead {
    let a: nat = if s.len() > 0 {
        1
    } else {
        0
    };
    let s1 = s.skip(a as int);
    let l = line_len(s1);
    let line = s1.take(l as int);
    if l == 0 || !valid_utf8(line) || !is_char_boundary(line, l - 1) {
        FrameRead::Panics
    } else {
        let r = s1.skip(l as int);
        match spec_read_headers(r, initial_state()) {
            HeadersRead::Panics => FrameRead::Panics,
            HeadersRead::Failed(e) => FrameRead::Failed(e),
            HeadersRead::Done(st, h) => {
                let b = r.skip(h as int);
                if b.len() < st.body_length {
                    FrameRead::Panics
                } else {
                    let t = b.skip(st.body_length as int);
                    let term: nat = if t.len() > 0 {
                        1
                    } else {
                        0
                    };
                    FrameRead::Read(
                        SpecIP {
                            frame_type: line.take(l - 1),
                            body_type: st.body_type,
                            port: st.port,
                            headers: st.headers,
                            body: b.take(st.body_length as int),
                        },
                        (a + l + h + st.body_length + term) as nat,
                    )
                }
            },
        }
    }
}

/// `std::str::from_utf8`: the text that `bytes` encode when they are valid
/// UTF-8, `None` (the error dropped) when they are not.
#[verifier::external_body]
fn str_from_utf8(bytes: &[u8]) -> (res: Option<&str>)
    ensures
        res is Some <==> valid_utf8(bytes@),
        res matches Some(s) ==> s@ == decode_utf8(bytes@),
{
    std::str::from_utf8(bytes).ok()
}

/// Around an ASCII byte, valid UTF-8 splits into valid UTF-8.
proof fn lemma_valid_around_ascii(line: Seq<u8>, i: int)
    requires
        valid_utf8(line),
        0 <= i < line.len(),
        line[i] < 128,
    ensures
        valid_utf8(line.take(i)),
        valid_utf8(line.skip(i + 1)),
{
    is_char_boundary_iff_not_is_continuation_byte(line, i);
    valid_utf8_split(line, i);
    let right = line.subrange(i, line.len() as int);
    assert(line.take(i) =~= line.subrange(0, i));
    assert(pop_first_scalar(right) =~= line.skip(i + 1));
}

/// Taking the line end off valid UTF-8 leaves valid UTF-8.
proof fn lemma_strip_valid(raw: Seq<u8>)
    requires
        valid_utf8(raw),
    ensures
        valid_utf8(strip_line_end(raw)),
{
    if raw.len() > 0 && raw.last() == 10 {
        lemma_valid_around_ascii(raw, raw.len() - 1);
        let x = raw.drop_last();
        assert(raw.take(raw.len() - 1) =~= x);
        if x.len() > 0 && x.last() == 13 {
            lemma_valid_around_ascii(x, x.len() - 1);
            assert(x.take(x.len() - 1) =~= x.drop_last());
        }
    }
}

/// A string made of valid UTF-8 bytes.
fn string_of_bytes(bytes: &[u8]) -> (res: String)
    requires
        valid_utf8(bytes@),
    ensures
        utf8_of(res) == bytes@,
{
    proof {
        decode_utf8_encode_utf8(bytes@);
    }
    match str_from_utf8(bytes) {
        Some(s) => s.to_owned(),
        None => String::new(),
    }
}

/// The index of the first `b` in `s`.
fn find_byte(s: &[u8], b: u8) -> (res: Option<usize>)
    ensures
        match first_index(s@, b) {
            Some(i) => res == Some(i as usize),
            None => res is None,
        },
{
    proof {
        lemma_first_index(s@, b);
    }
    let n = s.len();
    let mut i: usize = 0;
    while i < n
        invariant
            n == s@.len(),
            i <= n,
            forall|j: int| 0 <= j < i ==> s@[j] != b,
            match first_index(s@, b) {
                Some(k) => k < n && s@[k as int] == b && forall|j: int|
                    0 <= j < k ==> s@[j] != b,
                None => forall|j: int| 0 <= j < n ==> s@[j] != b,
            },
        decreases n - i,
    {
        if s[i] == b {
            return Some(i);
        }
        i = i + 1;
    }
    None
}

/// How many bytes the next line takes.
fn line_length(s: &[u8]) -> (res: usize)
    ensures
        res == line_len(s@),
{
    let n = s.len();
    proof {
        lemma_first_index(s@, newline());
    }
    match find_byte(s, 10) {
        Some(i) => i + 1,
        None => n,
    }
}

/// Whether two byte strings are equal.
fn bytes_equal(a: &[u8], b: &[u8]) -> (res: bool)
    ensures
        res == (a@ == b@),
{
    if a.len() != b.len() {
        return false;
    }
    let n = a.len();
    let mut i: usize = 0;
    while i < n
        invariant
            n == a@.len(),
            n == b@.len(),
            i <= n,
            forall|j: int| 0 <= j < i ==> a@[j] == b@[j],
        decreases n - i,
    {
        if a[i] != b[i] {
            return false;
        }
        i = i + 1;
    }
    assert(a@ =~= b@);
    true
}

/// Reading one frame, header line by header line: the frame type is known,
/// the fields gathered so far are kept.
pub struct FrameBuilder {
    frame_type: String,
    body_type: String,
    port: String,
    headers: Vec<Header>,
    body_length: usize,
}

impl FrameBuilder {
    /// The fields gathered so far.
    pub closed spec fn state(&self) -> HeaderState {
        HeaderState {
            body_type: utf8_of(self.body_type),
            port: utf8_of(self.port),
            headers: headers_view(self.headers@),
            body_length: self.body_length,
        }
    }

    /// The frame type.
    pub closed spec fn frame_type_bytes(&self) -> Seq<u8> {
        utf8_of(self.frame_type)
    }

    /// Starts a frame of the given type, with no field seen yet.
    pub fn new(frame_type: String) -> (res: FrameBuilder)
        ensures
            res.state() == initial_state(),
            res.frame_type_bytes() == utf8_of(frame_type),
    {
        let res = FrameBuilder {
            frame_type,
            body_type: String::new(),
            port: String::new(),
            headers: Vec::new(),
            body_length: 0,
        };
        assert(utf8_of(res.body_type) =~= Seq::<u8>::empty());
        assert(utf8_of(res.port) =~= Seq::<u8>::empty());
        assert(headers_view(res.headers@) =~= Seq::<SpecHeader>::empty());
        res
    }

    /// Takes one non-empty header line.
    fn apply_line(&mut self, line: &[u8]) -> (res: Result<(), ParseFrameError>)
        requires
            valid_utf8(line@),
            line@.len() > 0,
            !spec_line_panics(line@),
        ensures
            final(self).frame_type_bytes() == old(self).frame_type_bytes(),
            match spec_apply_line(old(self).state(), line@) {
                LineApplied::Applied(st) => res is Ok && final(self).state() == st,
                LineApplied::Failed(e) => res == Err::<(), ParseFrameError>(e) && final(self).state()
                    == old(self).state(),
                LineApplied::Panics => false,
            },
    {
        let n = line.len();
        proof {
            lemma_first_index(line@, colon());
        }
        let i = match find_byte(line, 58) {
            Some(i) => i,
            None => {
                return Err(ParseFrameError::NoColon);
            },
        };
        proof {
            lemma_valid_around_ascii(line@, i as int);
        }
        let key = slice_subrange(line, 0, i);
        let value = slice_subrange(line, i + 1, n);
        assert(key@ =~= line@.take(i as int));
        assert(value@ =~= line@.skip(i as int + 1));
        let port_k = vec![112u8, 111u8, 114u8, 116u8];
        let type_k = vec![116u8, 121u8, 112u8, 101u8];
        let length_k = vec![108u8, 101u8, 110u8, 103u8, 116u8, 104u8];
        assert(port_k@ =~= port_key());
        assert(type_k@ =~= type_key());
        assert(length_k@ =~= length_key());
        if bytes_equal(key, port_k.as_slice()) {
            self.port = string_of_bytes(value);
        } else if bytes_equal(key, type_k.as_slice()) {
            self.body_type = string_of_bytes(value);
        } else if bytes_equal(key, length_k.as_slice()) {
            match parse_usize(value) {
                Some(n) => {
                    self.body_length = n;
                },
                None => {
                    return Ok(());
                },
            }
        } else {
            let ghost old_headers = headers_view(self.headers@);
            let h = Header(string_of_bytes(key), string_of_bytes(value));
            self.headers.push(h);
            assert(headers_view(self.headers@) =~= old_headers.push((key@, value@)));
        }
        Ok(())
    }

    /// Takes one line as a line iterator yields it (without its line end):
    /// `Ok(false)` for the empty line that ends the headers, `Ok(true)` for a
    /// header line taken in.
    pub fn add_line(&mut self, line: &str) -> (res: Result<bool, ParseFrameError>)
        requires
            !spec_line_panics(encode_utf8(line@)),
        ensures
            final(self).frame_type_bytes() == old(self).frame_type_bytes(),
            encode_utf8(line@).len() == 0 ==> res == Ok::<bool, ParseFrameError>(false) && final(self).state() == old(self).state(),
            encode_utf8(line@).len() > 0 ==> match spec_apply_line(
                old(self).state(),
                encode_utf8(line@),
            ) {
                LineApplied::Applied(st) => res == Ok::<bool, ParseFrameError>(true) && final(self).state() == st,
                LineApplied::Failed(e) => res == Err::<bool, ParseFrameError>(e) && final(self).state() == old(self).state(),
                LineApplied::Panics => false,
            },
    {
        let bytes = line.as_bytes();
        proof {
            encode_utf8_valid_utf8(line@);
        }
        if bytes.len() == 0 {
            return Ok(false);
        }
        match self.apply_line(bytes) {
            Ok(()) => Ok(true),
            Err(e) => Err(e),
        }
    }

    /// The body size announced so far.
    pub fn body_length(&self) -> (res: usize)
        ensures
            res == self.state().body_length,
    {
        self.body_length
    }

    /// The frame, with the body that was read.
    pub fn finish(self, body: Vec<u8>) -> (res: IP)
        ensures
            res@ == (SpecIP {
                frame_type: self.frame_type_bytes(),
                body_type: self.state().body_type,
                port: self.state().port,
                headers: self.state().headers,
                body: body@,
            }),
    {
        IP {
            frame_type: self.frame_type,
            body_type: self.body_type,
            port: self.port,
            headers: self.headers,
            body,
        }
    }
}

/// Whether reading panics on this line (a `length` value that is no number).
fn bytes_line_panics(bytes: &[u8]) -> (res: bool)
    ensures
        res == spec_line_panics(bytes@),
{
    let n = bytes.len();
    proof {
        lemma_first_index(bytes@, colon());
    }
    match find_byte(bytes, 58) {
        None => false,
        Some(i) => {
            let key = slice_subrange(bytes, 0, i);
            let value = slice_subrange(bytes, i + 1, n);
            assert(key@ =~= bytes@.take(i as int));
            assert(value@ =~= bytes@.skip(i as int + 1));
            let length_k = vec![108u8, 101u8, 110u8, 103u8, 116u8, 104u8];
            assert(length_k@ =~= length_key());
            bytes_equal(key, length_k.as_slice()) && parse_usize(value).is_none()
        },
    }
}

/// Whether reading panics on this line (a `length` value that is no number).
pub fn line_panics(line: &str) -> (res: bool)
    ensures
        res == spec_line_panics(encode_utf8(line@)),
{
    bytes_line_panics(line.as_bytes())
}

/// How long a line is without its line end.
fn stripped_len(raw: &[u8]) -> (res: usize)
    ensures
        res <= raw@.len(),
        strip_line_end(raw@) == raw@.take(res as int),
{
    let n = raw.len();
    if n > 0 && raw[n - 1] == 10 {
        if n > 1 && raw[n - 2] == 13 {
            assert(raw@.drop_last().drop_last() =~= raw@.take(n - 2));
            n - 2
        } else {
            assert(raw@.drop_last() =~= raw@.take(n - 1));
            n - 1
        }
    } else {
        assert(raw@ =~= raw@.take(n as int));
        n
    }
}

/// Reads one frame from the start of `input`, as from a stream holding these
/// bytes, and says how many bytes of it the frame took; `None` where reading
/// the stream would panic (see `FrameRead::Panics`).
pub fn try_parse_frame(input: &[u8]) -> (res: Option<Result<(IP, usize), ParseFrameError>>)
    ensures
        res is None <==> spec_parse_frame(input@) is Panics,
        res matches Some(r) ==> match spec_parse_frame(input@) {
            FrameRead::Read(ip, n) => r matches Ok((v, m)) && v@ == ip && m == n,
            FrameRead::Failed(e) => r == Err::<(IP, usize), ParseFrameError>(e),
            FrameRead::Panics => false,
        },
{
    let len = input.len();
    let a: usize = if len > 0 {
        1
    } else {
        0
    };
    let s1 = slice_subrange(input, a, len);
    assert(s1@ =~= input@.skip(a as int));
    let l = line_length(s1);
    proof {
        lemma_first_index(s1@, newline());
    }
    if l == 0 {
        return None;
    }
    let line = slice_subrange(s1, 0, l);
    assert(line@ =~= s1@.take(l as int));
    if str_from_utf8(line).is_none() {
        return None;
    }
    proof {
        is_char_boundary_iff_not_is_continuation_byte(line@, l - 1);
    }
    if 0x80 <= line[l - 1] && line[l - 1] <= 0xbf {
        return None;
    }
    proof {
        valid_utf8_split(line@, l - 1);
    }
    let frame_type_bytes = slice_subrange(line, 0, l - 1);
    assert(frame_type_bytes@ =~= line@.subrange(0, l - 1));
    let ft = string_of_bytes(frame_type_bytes);
    let mut builder = FrameBuilder::new(ft);
    let start = a + l;
    assert(s1@.skip(l as int) =~= input@.skip(start as int));
    let ghost total = spec_read_headers(input@.skip(start as int), initial_state());
    let mut pos = start;
    assert(input@.skip(pos as int) =~= input@.skip(start as int));
    loop
        invariant_except_break
            start <= pos <= len,
            len == input@.len(),
            builder.frame_type_bytes() == line@.take(l - 1),
            total == spec_read_headers(input@.skip(start as int), initial_state()),
            total matches HeadersRead::Failed(e) ==> spec_parse_frame(input@) == FrameRead::Failed(
                e,
            ),
            total is Panics ==> spec_parse_frame(input@) is Panics,
            match spec_read_headers(input@.skip(pos as int), builder.state()) {
                HeadersRead::Done(st, h) => total == HeadersRead::Done(st, ((pos - start) + h) as nat),
                HeadersRead::Failed(e) => total == HeadersRead::Failed(e),
                HeadersRead::Panics => total == HeadersRead::Panics,
            },
        ensures
            start <= pos <= len,
            builder.frame_type_bytes() == line@.take(l - 1),
            total == HeadersRead::Done(builder.state(), (pos - start) as nat),
        decreases len - pos,
    {
        let r = slice_subrange(input, pos, len);
        assert(r@ =~= input@.skip(pos as int));
        let l2 = line_length(r);
        proof {
            lemma_first_index(r@, newline());
            reveal(spec_read_headers);
        }
        if l2 == 0 {
            break;
        }
        let raw = slice_subrange(r, 0, l2);
        assert(raw@ =~= r@.take(l2 as int));
        if str_from_utf8(raw).is_none() {
            return Some(Err(ParseFrameError::InvalidUtf8));
        }
        let k = stripped_len(raw);
        assert(r@.skip(l2 as int) =~= input@.skip(pos + l2));
        pos = pos + l2;
        if k == 0 {
            break;
        }
        let stripped = slice_subrange(raw, 0, k);
        assert(stripped@ =~= strip_line_end(raw@));
        proof {
            lemma_strip_valid(raw@);
        }
        if bytes_line_panics(stripped) {
            return None;
        }
        match builder.apply_line(stripped) {
            Ok(()) => {},
            Err(e) => {
                return Some(Err(e));
            },
        }
    }
    let blen = builder.body_length();
    let b = slice_subrange(input, pos, len);
    assert(b@ =~= input@.skip(start as int).skip(pos - start));
    if b.len() < blen {
        return None;
    }
    let body = slice_to_vec(slice_subrange(b, 0, blen));
    assert(body@ =~= b@.take(blen as int));
    let mut consumed = pos + blen;
    if consumed < len {
        consumed = consumed + 1;
    }
    Some(Ok((builder.finish(body), consumed)))
}

/// Reads one frame from the start of `input`, as from a stream holding these
/// bytes, and says how many bytes of it the frame took.
pub fn parse_frame(input: &[u8]) -> (res: Result<(IP, usize), ParseFrameError>)
    requires
        !(spec_parse_frame(input@) is Panics),
    ensures
        match spec_parse_frame(input@) {
            FrameRead::Read(ip, n) => res matches Ok((v, m)) && v@ == ip && m == n,
            FrameRead::Failed(e) => res == Err::<(IP, usize), ParseFrameError>(e),
            FrameRead::Panics => false,
        },
{
    match try_parse_frame(input) {
        Some(r) => r,
        None => Err(ParseFrameError::InvalidUtf8),
    }
}

} // verus!
