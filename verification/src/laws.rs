//! What holds across the functions of the library: a marshalled frame reads
//! back as the same frame, by the stream reader and by the frame grammar.

use vstd::prelude::*;
use vstd::arithmetic::power2::lemma_pow2_adds;
use vstd::arithmetic::power2::lemma_pow2_pos;
use vstd::arithmetic::power2::pow2;
use crate::parser::doubled_from;
use crate::parser::spec_drain;
use crate::parser::Drained;
use crate::read::spec_line_panics;
use crate::read::ParseFrameError;
use crate::wire::colon;
use crate::decimal::all_digits;
use crate::decimal::digits_value;
use vstd::utf8::encode_utf8_valid_utf8;
use vstd::utf8::is_char_boundary_iff_not_is_continuation_byte;
use vstd::utf8::pop_first_scalar;
use vstd::utf8::valid_utf8;
use vstd::utf8::valid_utf8_concat;
use crate::decimal::lemma_decimal_digits;
use crate::decimal::lemma_parse_usize_of_decimal;
use crate::decimal::spec_decimal;
use crate::decimal::spec_parse_usize;
use crate::frame::body_part;
use crate::frame::header_line_bytes;
use crate::frame::header_lines_bytes;
use crate::frame::length_prefix;
use crate::frame::nl;
use crate::frame::optional_line;
use crate::frame::port_prefix;
use crate::frame::spec_marshal;
use crate::frame::type_prefix;
use crate::frame::SpecIP;
use crate::frame::IP;
use crate::read::initial_state;
use crate::read::spec_parse_frame;
use crate::read::FrameRead;
use crate::read::line_len;
use crate::read::port_key;
use crate::read::spec_apply_line;
use crate::read::spec_read_headers;
use crate::read::strip_line_end;
use crate::read::type_key;
use crate::read::HeaderState;
use crate::read::HeadersRead;
use crate::read::LineApplied;
use crate::wire::first_index;
use crate::wire::frame_full_panics;
use crate::wire::lemma_headers_len;
use crate::wire::spec_body_length;
use crate::wire::spec_frame_full;
use crate::wire::spec_header_line;
use crate::wire::spec_headers;
use crate::wire::spec_length_value;
use crate::wire::spec_alphanumeric1;
use crate::wire::first_non_alnum;
use crate::wire::lemma_first_non_alnum;
use crate::wire::lemma_first_non_alnum_after;
use crate::wire::all_alnum;
use crate::wire::FieldErrorKind;
use crate::chars::is_alnum;
use crate::wire::todo_bytes;
use crate::wire::Parsed;
use crate::wire::SpecIP2;
use crate::wire::Split;
use crate::wire::lemma_first_index_after;
use crate::wire::length_key;
use crate::wire::SpecHeader;

verus! {

/// No byte of `s` is `b`.
pub open spec fn free_of(s: Seq<u8>, b: u8) -> bool {
    forall|i: int| 0 <= i < s.len() ==> s[i] != b
}

/// Every byte of `s` is ASCII.
pub open spec fn all_ascii(s: Seq<u8>) -> bool {
    forall|i: int| 0 <= i < s.len() ==> s[i] < 128
}

/// A value that survives a line of its own: no line feed in it, and no
/// carriage return at its end.
pub open spec fn line_safe(v: Seq<u8>) -> bool {
    &&& free_of(v, 10)
    &&& (v.len() > 0 ==> v.last() != 13)
}

/// ASCII bytes are valid UTF-8.
pub proof fn lemma_ascii_valid(s: Seq<u8>)
    requires
        all_ascii(s),
    ensures
        valid_utf8(s),
    decreases s.len(),
{
    if s.len() > 0 {
        let b = s[0];
        assert(b < 128);
        assert((b & 0x7f) as u32 == b as u32) by (bit_vector)
            requires
                b < 128,
        ;
        assert(pop_first_scalar(s) =~= s.drop_first());
        lemma_ascii_valid(s.drop_first());
    }
}

/// A reading outcome with `k` more bytes taken before it.
pub open spec fn after(r: HeadersRead, k: nat) -> HeadersRead {
    match r {
        HeadersRead::Done(st, h) => HeadersRead::Done(st, k + h),
        HeadersRead::Failed(e) => HeadersRead::Failed(e),
        HeadersRead::Panics => HeadersRead::Panics,
    }
}

/// Reading a non-empty line `c` that ends with a line feed applies it and
/// reads on behind it.
proof fn lemma_read_line(c: Seq<u8>, rest: Seq<u8>, st: HeaderState)
    requires
        c.len() > 0,
        line_safe(c),
        valid_utf8(c),
    ensures
        spec_read_headers(c + nl() + rest, st) == match spec_apply_line(st, c) {
            LineApplied::Panics => HeadersRead::Panics,
            LineApplied::Failed(e) => HeadersRead::Failed(e),
            LineApplied::Applied(st2) => after(spec_read_headers(rest, st2), c.len() + 1),
        },
{
    reveal(spec_read_headers);
    let r = c + nl() + rest;
    lemma_first_index_after(c, 10, rest);
    assert(line_len(r) == c.len() + 1);
    let raw = r.take(c.len() as int + 1);
    assert(raw =~= c + nl());
    lemma_ascii_valid(nl());
    valid_utf8_concat(c, nl());
    assert(raw.drop_last() =~= c);
    assert(strip_line_end(raw) =~= c);
    assert(r.skip(c.len() as int + 1) =~= rest);
}

/// An empty line ends the header lines.
proof fn lemma_read_empty_line(rest: Seq<u8>, st: HeaderState)
    ensures
        spec_read_headers(nl() + rest, st) == HeadersRead::Done(st, 1),
{
    reveal(spec_read_headers);
    let r = nl() + rest;
    lemma_first_index_after(Seq::<u8>::empty(), 10, rest);
    assert(Seq::<u8>::empty() + seq![10u8] + rest =~= r);
    let raw = r.take(1);
    assert(raw =~= nl());
    lemma_ascii_valid(nl());
    assert(raw.drop_last() =~= Seq::<u8>::empty());
}

/// A line `k:v` splits at the end of `k` when `k` holds no colon.
proof fn lemma_key_value(k: Seq<u8>, v: Seq<u8>)
    requires
        free_of(k, 58),
    ensures
        first_index(k + seq![58u8] + v, 58) == Some(k.len()),
        (k + seq![58u8] + v).take(k.len() as int) == k,
        (k + seq![58u8] + v).skip(k.len() as int + 1) == v,
{
    lemma_first_index_after(k, 58, v);
    assert((k + seq![58u8] + v).take(k.len() as int) =~= k);
    assert((k + seq![58u8] + v).skip(k.len() as int + 1) =~= v);
}

/// The fields with the body type set.
pub open spec fn with_body_type(st: HeaderState, v: Seq<u8>) -> HeaderState {
    HeaderState { body_type: v, port: st.port, headers: st.headers, body_length: st.body_length }
}

/// The fields with the port set.
pub open spec fn with_port(st: HeaderState, v: Seq<u8>) -> HeaderState {
    HeaderState { body_type: st.body_type, port: v, headers: st.headers, body_length: st.body_length }
}

/// The fields with more headers kept.
pub open spec fn with_headers(st: HeaderState, hs: Seq<SpecHeader>) -> HeaderState {
    HeaderState {
        body_type: st.body_type,
        port: st.port,
        headers: st.headers + hs,
        body_length: st.body_length,
    }
}

/// The fields with the body size set.
pub open spec fn with_body_length(st: HeaderState, n: usize) -> HeaderState {
    HeaderState { body_type: st.body_type, port: st.port, headers: st.headers, body_length: n }
}

/// A line `key:value` made of a prefix of ASCII bytes and a value is a line
/// that reading takes whole.
proof fn lemma_prefixed_line(p: Seq<u8>, v: Seq<u8>)
    requires
        all_ascii(p),
        free_of(p, 10),
        p.len() > 0,
        p.last() == 58,
        line_safe(v),
        valid_utf8(v),
    ensures
        (p + v).len() > 0,
        line_safe(p + v),
        valid_utf8(p + v),
{
    lemma_ascii_valid(p);
    valid_utf8_concat(p, v);
    let c = p + v;
    assert forall|i: int| 0 <= i < c.len() implies c[i] != 10 by {
        if i >= p.len() {
            assert(c[i] == v[i - p.len()]);
        }
    }
    if v.len() > 0 {
        assert(c.last() == v.last());
    }
}

/// Reading the `type:` line, if there is one.
proof fn lemma_read_type_line(v: Seq<u8>, rest: Seq<u8>, st: HeaderState)
    requires
        line_safe(v),
        valid_utf8(v),
    ensures
        spec_read_headers(optional_line(type_prefix(), v) + rest, st) == after(
            spec_read_headers(rest, if v.len() > 0 { with_body_type(st, v) } else { st }),
            optional_line(type_prefix(), v).len(),
        ),
{
    if v.len() > 0 {
        let p = type_prefix();
        assert(p =~= type_key() + seq![58u8]);
        lemma_prefixed_line(p, v);
        lemma_read_line(p + v, rest, st);
        assert(optional_line(p, v) + rest =~= p + v + nl() + rest);
        lemma_key_value(type_key(), v);
        assert(type_key() + seq![58u8] + v =~= p + v);
        assert(type_key() != port_key()) by {
            assert(type_key()[0] != port_key()[0]);
        }
    } else {
        assert(optional_line(type_prefix(), v) + rest =~= rest);
        match spec_read_headers(rest, st) {
            HeadersRead::Done(st2, h) => {},
            _ => {},
        }
    }
}

/// Reading the `port:` line, if there is one.
proof fn lemma_read_port_line(v: Seq<u8>, rest: Seq<u8>, st: HeaderState)
    requires
        line_safe(v),
        valid_utf8(v),
    ensures
        spec_read_headers(optional_line(port_prefix(), v) + rest, st) == after(
            spec_read_headers(rest, if v.len() > 0 { with_port(st, v) } else { st }),
            optional_line(port_prefix(), v).len(),
        ),
{
    if v.len() > 0 {
        let p = port_prefix();
        assert(p =~= port_key() + seq![58u8]);
        lemma_prefixed_line(p, v);
        lemma_read_line(p + v, rest, st);
        assert(optional_line(p, v) + rest =~= p + v + nl() + rest);
        lemma_key_value(port_key(), v);
        assert(port_key() + seq![58u8] + v =~= p + v);
    } else {
        assert(optional_line(port_prefix(), v) + rest =~= rest);
        match spec_read_headers(rest, st) {
            HeadersRead::Done(st2, h) => {},
            _ => {},
        }
    }
}

/// A header that reads back as a header: a key without colon or line feed
/// that is none of `port`, `type` and `length`, and a value that survives a line.
pub open spec fn header_readable(h: SpecHeader) -> bool {
    &&& free_of(h.0, 58)
    &&& free_of(h.0, 10)
    &&& h.0 != port_key()
    &&& h.0 != type_key()
    &&& h.0 != length_key()
    &&& line_safe(h.1)
}

/// The header lines, seen from the front.
proof fn lemma_header_lines_front(hs: Seq<SpecHeader>)
    requires
        hs.len() > 0,
    ensures
        header_lines_bytes(hs) == header_line_bytes(hs[0]) + header_lines_bytes(hs.drop_first()),
    decreases hs.len(),
{
    if hs.len() == 1 {
        assert(hs.drop_last() =~= Seq::<SpecHeader>::empty());
        assert(hs.drop_first() =~= Seq::<SpecHeader>::empty());
        assert(header_line_bytes(hs[0]) + Seq::<u8>::empty() =~= header_line_bytes(hs[0]));
        assert(Seq::<u8>::empty() + header_line_bytes(hs[0]) =~= header_line_bytes(hs[0]));
    } else {
        lemma_header_lines_front(hs.drop_last());
        assert(hs.drop_last().drop_first() =~= hs.drop_first().drop_last());
        assert(hs.drop_last()[0] == hs[0]);
        assert(hs.drop_first().last() == hs.last());
        assert(header_lines_bytes(hs) =~= header_line_bytes(hs[0]) + header_lines_bytes(
            hs.drop_first(),
        ));
    }
}

/// Reading the header lines keeps each header, in order.
proof fn lemma_read_header_lines(hs: Seq<SpecHeader>, tail: Seq<u8>, st: HeaderState)
    requires
        forall|i: int| 0 <= i < hs.len() ==> header_readable(#[trigger] hs[i]),
        forall|i: int|
            0 <= i < hs.len() ==> valid_utf8(#[trigger] hs[i].0) && valid_utf8(hs[i].1),
    ensures
        spec_read_headers(header_lines_bytes(hs) + tail, st) == after(
            spec_read_headers(tail, with_headers(st, hs)),
            header_lines_bytes(hs).len(),
        ),
    decreases hs.len(),
{
    if hs.len() == 0 {
        assert(header_lines_bytes(hs) + tail =~= tail);
        assert(with_headers(st, hs).headers =~= st.headers);
        assert(with_headers(st, hs) == st);
        match spec_read_headers(tail, st) {
            HeadersRead::Done(st2, h) => {},
            _ => {},
        }
    } else {
        let h = hs[0];
        assert(header_readable(h));
        assert(valid_utf8(h.0) && valid_utf8(h.1));
        lemma_header_lines_front(hs);
        let c = h.0 + seq![58u8] + h.1;
        let rest_lines = header_lines_bytes(hs.drop_first());
        assert(header_lines_bytes(hs) + tail =~= c + nl() + (rest_lines + tail));
        lemma_ascii_valid(seq![58u8]);
        valid_utf8_concat(h.0, seq![58u8]);
        valid_utf8_concat(h.0 + seq![58u8], h.1);
        assert forall|i: int| 0 <= i < c.len() implies c[i] != 10 by {
            if i < h.0.len() {
                assert(c[i] == h.0[i]);
            } else if i > h.0.len() {
                assert(c[i] == h.1[i - h.0.len() - 1]);
            }
        }
        if h.1.len() > 0 {
            assert(c.last() == h.1.last());
        }
        lemma_read_line(c, rest_lines + tail, st);
        lemma_key_value(h.0, h.1);
        let st2 = with_headers(st, seq![h]);
        assert(st.headers.push((h.0, h.1)) =~= st2.headers);
        assert(spec_apply_line(st, c) == LineApplied::Applied(st2));
        lemma_read_header_lines(hs.drop_first(), tail, st2);
        assert(with_headers(st2, hs.drop_first()).headers =~= with_headers(st, hs).headers);
        match spec_read_headers(tail, with_headers(st, hs)) {
            HeadersRead::Done(st3, k) => {},
            _ => {},
        }
    }
}

/// Reading the part after the header lines sets the body size to that of
/// the body and stops at the empty line.
proof fn lemma_read_body_part(body: Seq<u8>, st: HeaderState)
    requires
        body.len() <= usize::MAX,
        st.body_length == 0,
    ensures
        body.len() > 0 ==> spec_read_headers(body_part(body), st) == HeadersRead::Done(
            with_body_length(st, body.len() as usize),
            length_prefix().len() + spec_decimal(body.len()).len() + 2,
        ),
        body.len() == 0 ==> spec_read_headers(body_part(body), st) == HeadersRead::Done(st, 1),
{
    if body.len() > 0 {
        let d = spec_decimal(body.len());
        lemma_decimal_digits(body.len());
        lemma_parse_usize_of_decimal(body.len() as usize);
        let p = length_prefix();
        assert(p =~= seq![108u8, 101u8, 110u8, 103u8, 116u8, 104u8, 58u8]);
        assert forall|i: int| 0 <= i < d.len() implies d[i] < 128 && d[i] != 10 && d[i] != 13 by {
            assert(crate::decimal::is_digit(d[i]));
        }
        assert(line_safe(d));
        lemma_ascii_valid(d);
        lemma_prefixed_line(p, d);
        let rest = nl() + (body + seq![0u8]);
        assert(body_part(body) =~= (p + d) + nl() + rest);
        lemma_read_line(p + d, rest, st);
        lemma_key_value(length_key(), d);
        assert(length_key() + seq![58u8] + d =~= p + d);
        assert(length_key() != port_key()) by {
            assert(length_key()[0] != port_key()[0]);
        }
        assert(length_key() != type_key()) by {
            assert(length_key()[0] != type_key()[0]);
        }
        assert(((body.len() as usize) as nat) == body.len());
        assert(spec_parse_usize(d) == Some(body.len() as usize));
        assert(spec_apply_line(st, p + d) == LineApplied::Applied(
            with_body_length(st, body.len() as usize),
        ));
        lemma_read_empty_line(body + seq![0u8], with_body_length(st, body.len() as usize));
    } else {
        assert(body_part(body) =~= nl() + seq![0u8]);
        lemma_read_empty_line(seq![0u8], st);
    }
}

/// A frame that the stream reader gives back unchanged from its marshalled
/// bytes: a frame type without line feed, a body type and a port that
/// survive a line, headers that read back as headers, and a body whose size
/// fits a `usize`.
pub open spec fn readable_frame(ip: SpecIP) -> bool {
    &&& ip.frame_type.len() > 0
    &&& free_of(ip.frame_type, 10)
    &&& line_safe(ip.body_type)
    &&& line_safe(ip.port)
    &&& forall|i: int| 0 <= i < ip.headers.len() ==> header_readable(#[trigger] ip.headers[i])
    &&& ip.body.len() <= usize::MAX
}

/// Every text of the frame is valid UTF-8.
pub open spec fn texts_valid(ip: SpecIP) -> bool {
    &&& valid_utf8(ip.frame_type)
    &&& valid_utf8(ip.body_type)
    &&& valid_utf8(ip.port)
    &&& forall|i: int|
        0 <= i < ip.headers.len() ==> valid_utf8(#[trigger] ip.headers[i].0) && valid_utf8(
            ip.headers[i].1,
        )
}

/// What follows the frame type line in a marshalled frame.
pub open spec fn after_frame_type(ip: SpecIP) -> Seq<u8> {
    optional_line(type_prefix(), ip.body_type) + (optional_line(port_prefix(), ip.port) + (
    header_lines_bytes(ip.headers) + body_part(ip.body)))
}

/// The fields that the reader gathers from a marshalled frame.
pub open spec fn gathered(ip: SpecIP) -> HeaderState {
    HeaderState {
        body_type: ip.body_type,
        port: ip.port,
        headers: ip.headers,
        body_length: ip.body.len() as usize,
    }
}

/// The header lines of a marshalled frame read back as its fields, and leave
/// the body and the terminating byte.
proof fn lemma_read_marshalled_headers(ip: SpecIP)
    requires
        readable_frame(ip),
        texts_valid(ip),
    ensures
        after_frame_type(ip).len() >= ip.body.len() + 1,
        spec_read_headers(after_frame_type(ip), initial_state()) == HeadersRead::Done(
            gathered(ip),
            (after_frame_type(ip).len() - ip.body.len() - 1) as nat,
        ),
        after_frame_type(ip).skip(after_frame_type(ip).len() - ip.body.len() - 1) == ip.body
            + seq![0u8],
{
    let t = optional_line(type_prefix(), ip.body_type);
    let p = optional_line(port_prefix(), ip.port);
    let hl = header_lines_bytes(ip.headers);
    let b = body_part(ip.body);
    let r = after_frame_type(ip);
    let st0 = initial_state();
    let st1 = if ip.body_type.len() > 0 {
        with_body_type(st0, ip.body_type)
    } else {
        st0
    };
    let st2 = if ip.port.len() > 0 {
        with_port(st1, ip.port)
    } else {
        st1
    };
    let st3 = with_headers(st2, ip.headers);
    lemma_read_type_line(ip.body_type, p + (hl + b), st0);
    lemma_read_port_line(ip.port, hl + b, st1);
    lemma_read_header_lines(ip.headers, b, st2);
    lemma_read_body_part(ip.body, st3);
    assert(st3.headers =~= ip.headers);
    assert(st3.body_type =~= ip.body_type);
    assert(st3.port =~= ip.port);
    if ip.body.len() > 0 {
        assert(b =~= (length_prefix() + spec_decimal(ip.body.len()) + nl() + nl()) + (ip.body
            + seq![0u8]));
        assert(with_body_length(st3, ip.body.len() as usize) == gathered(ip));
    } else {
        assert(b =~= nl() + (ip.body + seq![0u8]));
        assert(st3 == gathered(ip));
    }
    assert(r.skip(r.len() - ip.body.len() - 1) =~= ip.body + seq![0u8]);
}

/// The stream reader gives back a marshalled frame, over byte strings.
#[verifier::spinoff_prover]
#[verifier::rlimit(40)]
proof fn lemma_parse_frame_of_marshal(ip: SpecIP)
    requires
        readable_frame(ip),
        texts_valid(ip),
    ensures
        spec_parse_frame(spec_marshal(ip)) == FrameRead::Read(ip, spec_marshal(ip).len()),
{
    let f = ip.frame_type;
    let r = after_frame_type(ip);
    let m = spec_marshal(ip);
    assert(m =~= seq![50u8] + (f + nl() + r));
    let s1 = m.skip(1);
    assert(s1 =~= f + seq![10u8] + r);
    lemma_first_index_after(f, 10, r);
    assert(line_len(s1) == f.len() + 1);
    let line = s1.take(f.len() as int + 1);
    assert(line =~= f + nl());
    lemma_ascii_valid(nl());
    valid_utf8_concat(f, nl());
    is_char_boundary_iff_not_is_continuation_byte(line, f.len() as int);
    assert(line.take(f.len() as int) =~= f);
    assert(s1.skip(f.len() as int + 1) =~= r);
    lemma_read_marshalled_headers(ip);
    let rb = ip.body + seq![0u8];
    assert(rb.take(ip.body.len() as int) =~= ip.body);
    assert(rb.skip(ip.body.len() as int) =~= seq![0u8]);
}

/// Reading back what `IP::marshal` wrote gives the same frame, and takes all
/// of the bytes, for every frame whose texts survive their lines: a frame
/// type without line feed, a body type and a port without line feed or final
/// carriage return, header keys without colon or line feed other than
/// `port`, `type` and `length`, and header values without line feed or final
/// carriage return.
pub proof fn law_parse_frame_reads_marshal(ip: IP)
    requires
        readable_frame(ip@),
    ensures
        spec_parse_frame(spec_marshal(ip@)) == FrameRead::Read(ip@, spec_marshal(ip@).len()),
{
    let v = ip@;
    encode_utf8_valid_utf8(ip.frame_type@);
    encode_utf8_valid_utf8(ip.body_type@);
    encode_utf8_valid_utf8(ip.port@);
    assert forall|i: int|
        0 <= i < v.headers.len() implies valid_utf8(#[trigger] v.headers[i].0) && valid_utf8(
        v.headers[i].1,
    ) by {
        encode_utf8_valid_utf8(ip.headers@[i].0@);
        encode_utf8_valid_utf8(ip.headers@[i].1@);
    }
    lemma_parse_frame_of_marshal(v);
}

/// The header lines with more lines behind them.
proof fn lemma_header_lines_concat(a: Seq<SpecHeader>, b: Seq<SpecHeader>)
    ensures
        header_lines_bytes(a + b) == header_lines_bytes(a) + header_lines_bytes(b),
    decreases b.len(),
{
    if b.len() == 0 {
        assert(a + b =~= a);
        assert(header_lines_bytes(a) + Seq::<u8>::empty() =~= header_lines_bytes(a));
    } else {
        lemma_header_lines_concat(a, b.drop_last());
        assert((a + b).drop_last() =~= a + b.drop_last());
        assert((a + b).last() == b.last());
        assert(header_lines_bytes(a + b) =~= header_lines_bytes(a) + header_lines_bytes(b));
    }
}

/// A header line that the frame grammar reads back: a key and a value of one
/// or more alphanumeric bytes each.
pub open spec fn header_line_parsable(h: SpecHeader) -> bool {
    &&& h.0.len() > 0
    &&& all_alnum(h.0)
    &&& h.1.len() > 0
    &&& all_alnum(h.1)
}

/// A header that the frame grammar reads back as it was, without it setting
/// the body size: a line that the grammar reads back, whose key is not `length`.
pub open spec fn header_parsable(h: SpecHeader) -> bool {
    &&& header_line_parsable(h)
    &&& h.0 != length_key()
}

/// The grammar reads one header line.
proof fn lemma_grammar_header_line(h: SpecHeader, rest: Seq<u8>)
    requires
        header_line_parsable(h),
        (header_line_bytes(h) + rest).len() <= usize::MAX,
    ensures
        spec_header_line(header_line_bytes(h) + rest) == Parsed::Done(
            header_line_bytes(h).len() as usize,
            h,
        ),
{
    let s = header_line_bytes(h) + rest;
    let k = h.0;
    let v = h.1;
    lemma_first_non_alnum_after(k, 58, v + nl() + rest);
    assert(s =~= k + seq![58u8] + (v + nl() + rest));
    assert(spec_alphanumeric1(s, FieldErrorKind::AlphaNumeric) == Split::Taken(k.len() as usize));
    assert(s[k.len() as int] == 58);
    let t = s.skip(k.len() as int + 1);
    assert(t =~= v + seq![10u8] + rest);
    lemma_first_non_alnum_after(v, 10, rest);
    assert(spec_alphanumeric1(t, FieldErrorKind::Escaped) == Split::Taken(v.len() as usize));
    assert(t[v.len() as int] == 10);
    assert(s.take(k.len() as int) =~= k);
    assert(t.take(v.len() as int) =~= v);
}

/// The grammar reads header lines up to the empty line.
proof fn lemma_grammar_headers(hs: Seq<SpecHeader>, tail: Seq<u8>)
    requires
        forall|i: int| 0 <= i < hs.len() ==> header_line_parsable(#[trigger] hs[i]),
        (header_lines_bytes(hs) + nl() + tail).len() <= usize::MAX,
    ensures
        spec_headers(header_lines_bytes(hs) + nl() + tail) == Parsed::Done(
            (header_lines_bytes(hs).len() + 1) as usize,
            hs,
        ),
    decreases hs.len(),
{
    let s = header_lines_bytes(hs) + nl() + tail;
    if hs.len() == 0 {
        assert(s =~= nl() + tail);
        assert(s[0] == 10);
        assert(hs =~= Seq::<SpecHeader>::empty());
    } else {
        let h = hs[0];
        assert(header_line_parsable(h));
        assert(is_alnum(h.0[0]));
        lemma_header_lines_front(hs);
        let rest = header_lines_bytes(hs.drop_first()) + nl() + tail;
        assert(s =~= header_line_bytes(h) + rest);
        assert(s[0] == h.0[0]);
        lemma_grammar_header_line(h, rest);
        let n = header_line_bytes(h).len();
        assert(s.skip(n as int) =~= rest);
        assert forall|i: int| 0 <= i < hs.drop_first().len() implies header_line_parsable(
            #[trigger] hs.drop_first()[i],
        ) by {
            assert(hs.drop_first()[i] == hs[i + 1]);
        }
        lemma_grammar_headers(hs.drop_first(), tail);
        assert(seq![h] + hs.drop_first() =~= hs);
        assert(header_lines_bytes(hs).len() == n + header_lines_bytes(hs.drop_first()).len());
    }
}

/// Headers none of whose keys is `length` leave the body size to the headers after them.
proof fn lemma_length_value_skip(a: Seq<SpecHeader>, b: Seq<SpecHeader>)
    requires
        forall|i: int| 0 <= i < a.len() ==> (#[trigger] a[i]).0 != length_key(),
    ensures
        spec_length_value(a + b) == spec_length_value(b),
    decreases a.len(),
{
    if a.len() > 0 {
        assert((a + b)[0] == a[0]);
        assert((a + b).drop_first() =~= a.drop_first() + b);
        assert forall|i: int| 0 <= i < a.drop_first().len() implies (
        #[trigger] a.drop_first()[i]).0 != length_key() by {
            assert(a.drop_first()[i] == a[i + 1]);
        }
        lemma_length_value_skip(a.drop_first(), b);
    } else {
        assert(a + b =~= b);
    }
}

/// A one-header list when the value is not empty, none otherwise.
pub open spec fn optional_header(key: Seq<u8>, value: Seq<u8>) -> Seq<SpecHeader> {
    if value.len() > 0 {
        seq![(key, value)]
    } else {
        Seq::empty()
    }
}

/// The headers that the frame grammar reads from a marshalled frame: `type`
/// and `port` when set, the other headers, and `length` when there is a body.
pub open spec fn grammar_headers(ip: SpecIP) -> Seq<SpecHeader> {
    optional_header(type_key(), ip.body_type) + optional_header(port_key(), ip.port) + ip.headers
        + length_header(ip.body)
}

/// The `length` header of a body that is not empty.
pub open spec fn length_header(body: Seq<u8>) -> Seq<SpecHeader> {
    if body.len() > 0 {
        seq![(length_key(), spec_decimal(body.len()))]
    } else {
        Seq::empty()
    }
}

/// A frame that the frame grammar reads back from its marshalled bytes: a
/// non-empty alphanumeric frame type, an alphanumeric body type and port,
/// headers that the grammar reads back as headers, and a size that fits a `usize`.
pub open spec fn parsable_frame(ip: SpecIP) -> bool {
    &&& ip.frame_type.len() > 0
    &&& all_alnum(ip.frame_type)
    &&& all_alnum(ip.body_type)
    &&& all_alnum(ip.port)
    &&& forall|i: int| 0 <= i < ip.headers.len() ==> header_parsable(#[trigger] ip.headers[i])
    &&& spec_marshal(ip).len() <= usize::MAX
}

/// An optional line is the header line of an optional header.
proof fn lemma_optional_line_as_header(key: Seq<u8>, value: Seq<u8>)
    ensures
        optional_line(key + seq![58u8], value) == header_lines_bytes(optional_header(key, value)),
{
    if value.len() > 0 {
        let hs = optional_header(key, value);
        assert(hs.drop_last() =~= Seq::<SpecHeader>::empty());
        assert(header_lines_bytes(Seq::<SpecHeader>::empty()) == Seq::<u8>::empty());
        assert(header_lines_bytes(hs) =~= key + seq![58u8] + value + nl());
        assert(optional_line(key + seq![58u8], value) =~= key + seq![58u8] + value + nl());
    } else {
        assert(header_lines_bytes(optional_header(key, value)) =~= Seq::<u8>::empty());
    }
}

/// The marshalled bytes as the frame grammar sees them: the frame type line,
/// header lines, the empty line, the body and NUL.
#[verifier::spinoff_prover]
#[verifier::rlimit(40)]
proof fn lemma_marshal_layout(ip: SpecIP)
    ensures
        spec_marshal(ip) == seq![50u8] + ip.frame_type + nl() + header_lines_bytes(
            grammar_headers(ip),
        ) + nl() + ip.body + seq![0u8],
{
    let a = optional_header(type_key(), ip.body_type);
    let b = optional_header(port_key(), ip.port);
    let c = ip.headers;
    let d = length_header(ip.body);
    assert(type_prefix() =~= type_key() + seq![58u8]);
    assert(port_prefix() =~= port_key() + seq![58u8]);
    lemma_optional_line_as_header(type_key(), ip.body_type);
    lemma_optional_line_as_header(port_key(), ip.port);
    lemma_optional_line_as_header(length_key(), spec_decimal(ip.body.len()));
    lemma_decimal_digits(ip.body.len());
    if ip.body.len() > 0 {
        assert(d == optional_header(length_key(), spec_decimal(ip.body.len())));
    }
    lemma_header_lines_concat(a, b);
    lemma_header_lines_concat(a + b, c);
    lemma_header_lines_concat(a + b + c, d);
    let hb = header_lines_bytes(grammar_headers(ip));
    if ip.body.len() > 0 {
        assert(body_part(ip.body) =~= optional_line(length_prefix(), spec_decimal(ip.body.len()))
            + nl() + ip.body + seq![0u8]);
    } else {
        assert(header_lines_bytes(d) =~= Seq::<u8>::empty());
        assert(body_part(ip.body) =~= nl() + ip.body + seq![0u8]);
    }
    assert(spec_marshal(ip) =~= seq![50u8] + ip.frame_type + nl() + hb + nl() + ip.body + seq![
        0u8,
    ]);
}

/// The body size that the grammar reads from a marshalled frame is the body's.
proof fn lemma_grammar_body_length(ip: SpecIP)
    requires
        forall|i: int| 0 <= i < ip.headers.len() ==> header_parsable(#[trigger] ip.headers[i]),
        ip.body.len() <= usize::MAX,
    ensures
        spec_body_length(grammar_headers(ip)) == Some(ip.body.len() as usize),
{
    let a = optional_header(type_key(), ip.body_type) + optional_header(port_key(), ip.port)
        + ip.headers;
    let d = length_header(ip.body);
    assert(type_key() != length_key()) by {
        assert(type_key()[0] != length_key()[0]);
    }
    assert(port_key() != length_key()) by {
        assert(port_key()[0] != length_key()[0]);
    }
    assert forall|i: int| 0 <= i < a.len() implies (#[trigger] a[i]).0 != length_key() by {
        let n1 = optional_header(type_key(), ip.body_type).len();
        let n2 = optional_header(port_key(), ip.port).len();
        if i >= n1 + n2 {
            assert(a[i] == ip.headers[i - n1 - n2]);
            assert(header_parsable(ip.headers[i - n1 - n2]));
        }
    }
    lemma_length_value_skip(a, d);
    if ip.body.len() > 0 {
        assert(spec_length_value(d) == Some(spec_decimal(ip.body.len()))) by {
            assert(d.drop_first() =~= Seq::<SpecHeader>::empty());
        }
        lemma_parse_usize_of_decimal(ip.body.len() as usize);
        assert(((ip.body.len() as usize) as nat) == ip.body.len());
    } else {
        assert(d =~= Seq::<SpecHeader>::empty());
    }
}

/// The frame grammar reads back what `IP::marshal` wrote, as a frame with
/// the same frame type, every header line in order (`type` and `port` when
/// set, the other headers, `length` when there is a body) and the same body,
/// and takes all of the bytes; for every frame whose texts the grammar can
/// read: a non-empty alphanumeric frame type, an alphanumeric body type and
/// port, non-empty alphanumeric header keys other than `length`, non-empty
/// alphanumeric header values, and all of it no longer than a `usize` counts.
#[verifier::spinoff_prover]
#[verifier::rlimit(40)]
pub proof fn law_frame_full_reads_marshal(ip: IP)
    requires
        parsable_frame(ip@),
    ensures
        !frame_full_panics(spec_marshal(ip@)),
        spec_frame_full(spec_marshal(ip@)) == Parsed::Done(
            spec_marshal(ip@).len() as usize,
            SpecIP2 {
                frame_type: ip@.frame_type,
                body_type: todo_bytes(),
                port: todo_bytes(),
                headers: grammar_headers(ip@),
                body: ip@.body,
            },
        ),
{
    let v = ip@;
    let m = spec_marshal(v);
    let gh = grammar_headers(v);
    let hb = header_lines_bytes(gh);
    lemma_marshal_layout(v);
    lemma_grammar_body_length(v);
    assert(type_key() != length_key()) by {
        assert(type_key()[0] != length_key()[0]);
    }
    assert forall|i: int| 0 <= i < gh.len() implies header_line_parsable(#[trigger] gh[i]) by {
        let n1 = optional_header(type_key(), v.body_type).len();
        let n2 = optional_header(port_key(), v.port).len();
        let n3 = v.headers.len();
        if i < n1 {
            assert(gh[i] == (type_key(), v.body_type));
            assert forall|j: int| 0 <= j < type_key().len() implies is_alnum(
                #[trigger] type_key()[j],
            ) by {}
        } else if i < n1 + n2 {
            assert(gh[i] == (port_key(), v.port));
            assert forall|j: int| 0 <= j < port_key().len() implies is_alnum(
                #[trigger] port_key()[j],
            ) by {}
        } else if i < n1 + n2 + n3 {
            assert(gh[i] == v.headers[i - n1 - n2]);
            assert(header_parsable(v.headers[i - n1 - n2]));
        } else {
            let d = spec_decimal(v.body.len());
            lemma_decimal_digits(v.body.len());
            assert(gh[i] == (length_key(), d));
            assert forall|j: int| 0 <= j < d.len() implies is_alnum(#[trigger] d[j]) by {
                assert(crate::decimal::is_digit(d[j]));
            }
            assert forall|j: int| 0 <= j < length_key().len() implies is_alnum(
                #[trigger] length_key()[j],
            ) by {}
        }
    }
    let f = v.frame_type;
    let t = m.skip(1);
    let rest = hb + nl() + (v.body + seq![0u8]);
    assert(t =~= f + seq![10u8] + rest);
    lemma_first_non_alnum_after(f, 10, rest);
    assert(spec_alphanumeric1(t, FieldErrorKind::Escaped) == Split::Taken(f.len() as usize));
    assert(t[f.len() as int] == 10);
    let u = t.skip(f.len() as int + 1);
    assert(u =~= hb + nl() + (v.body + seq![0u8]));
    lemma_grammar_headers(gh, v.body + seq![0u8]);
    let w = u.skip(hb.len() as int + 1);
    assert(w =~= v.body + seq![0u8]);
    assert(w.take(v.body.len() as int) =~= v.body);
    assert(w.skip(v.body.len() as int) =~= seq![0u8]);
    assert(t.take(f.len() as int) =~= f);
}

/// A byte that is not alphanumeric found in `s` stays the first one when
/// more bytes follow.
proof fn lemma_first_non_alnum_prefix(s: Seq<u8>, t: Seq<u8>)
    ensures
        first_non_alnum(s) matches Some(i) ==> first_non_alnum(s + t) == Some(i),
{
    lemma_first_non_alnum(s);
    lemma_first_non_alnum(s + t);
    if let Some(i) = first_non_alnum(s) {
        assert((s + t)[i as int] == s[i as int]);
        match first_non_alnum(s + t) {
            Some(j) => {
                if j < i {
                    assert((s + t)[j as int] == s[j as int]);
                }
            },
            None => {},
        }
    }
}

/// A field that ended in `s` ends in the same place when more bytes follow.
proof fn lemma_alphanumeric1_prefix(s: Seq<u8>, t: Seq<u8>, kind: FieldErrorKind)
    ensures
        !(spec_alphanumeric1(s, kind) is Incomplete) ==> spec_alphanumeric1(s + t, kind)
            == spec_alphanumeric1(s, kind),
{
    lemma_first_non_alnum_prefix(s, t);
}

/// A header line read from `s` is read the same when more bytes follow.
proof fn lemma_header_line_prefix(s: Seq<u8>, t: Seq<u8>)
    requires
        (s + t).len() <= usize::MAX,
    ensures
        spec_header_line(s) matches Parsed::Done(n, h) ==> spec_header_line(s + t)
            == Parsed::Done(n, h),
{
    lemma_alphanumeric1_prefix(s, t, FieldErrorKind::AlphaNumeric);
    lemma_first_non_alnum(s);
    if let Split::Taken(k) = spec_alphanumeric1(s, FieldErrorKind::AlphaNumeric) {
        assert((s + t)[k as int] == s[k as int]);
        let u = s.skip(k + 1);
        assert((s + t).skip(k + 1) =~= u + t);
        lemma_alphanumeric1_prefix(u, t, FieldErrorKind::Escaped);
        lemma_first_non_alnum(u);
        if let Split::Taken(v) = spec_alphanumeric1(u, FieldErrorKind::Escaped) {
            assert((u + t)[v as int] == u[v as int]);
            assert((s + t).take(k as int) =~= s.take(k as int));
            assert((u + t).take(v as int) =~= u.take(v as int));
        }
    }
}

/// Header lines read from `s` up to the empty line are read the same when
/// more bytes follow.
proof fn lemma_headers_prefix(s: Seq<u8>, t: Seq<u8>)
    requires
        (s + t).len() <= usize::MAX,
    ensures
        spec_headers(s) matches Parsed::Done(n, hs) ==> spec_headers(s + t) == Parsed::Done(n, hs),
    decreases s.len(),
{
    if s.len() > 0 {
        assert((s + t)[0] == s[0]);
        if s[0] != 10 {
            lemma_header_line_prefix(s, t);
            if let Parsed::Done(n, h) = spec_header_line(s) {
                if 0 < n <= s.len() {
                    assert((s + t).skip(n as int) =~= s.skip(n as int) + t);
                    lemma_headers_prefix(s.skip(n as int), t);
                }
            }
        }
    }
}

/// Whatever arrives after a frame does not change it: a frame that the
/// grammar reads from the bytes received so far is read the same, from the
/// same bytes, once more bytes have arrived; and a `length` header found to
/// hold no number stays found.
pub proof fn law_frame_full_prefix_stable(s: Seq<u8>, t: Seq<u8>)
    requires
        (s + t).len() <= usize::MAX,
    ensures
        spec_frame_full(s) matches Parsed::Done(n, f) ==> spec_frame_full(s + t) == Parsed::Done(
            n,
            f,
        ),
        frame_full_panics(s) ==> frame_full_panics(s + t),
        spec_frame_full(s) is Done && !frame_full_panics(s) ==> !frame_full_panics(s + t),
{
    if s.len() > 0 {
        assert((s + t)[0] == s[0]);
        let a = s.skip(1);
        assert((s + t).skip(1) =~= a + t);
        lemma_alphanumeric1_prefix(a, t, FieldErrorKind::Escaped);
        lemma_first_non_alnum(a);
        if let Split::Taken(f) = spec_alphanumeric1(a, FieldErrorKind::Escaped) {
            assert((a + t)[f as int] == a[f as int]);
            let u = a.skip(f + 1);
            assert((a + t).skip(f + 1) =~= u + t);
            assert((a + t).take(f as int) =~= a.take(f as int));
            lemma_headers_prefix(u, t);
            if let Parsed::Done(m, hs) = spec_headers(u) {
                lemma_headers_len(u);
                let v = u.skip(m as int);
                assert((u + t).skip(m as int) =~= v + t);
                let len = spec_body_length(hs).unwrap();
                if v.len() >= len {
                    let w = v.skip(len as int);
                    assert((v + t).skip(len as int) =~= w + t);
                    assert((v + t).take(len as int) =~= v.take(len as int));
                    if w.len() > 0 {
                        assert((w + t)[0] == w[0]);
                    }
                }
            }
        }
    }
}

/// Doubled from doubled is doubled, and never smaller than the start.
proof fn lemma_doubled_from_trans(a: nat, b: nat, c: nat)
    requires
        doubled_from(a, b),
        doubled_from(b, c),
    ensures
        doubled_from(a, c),
        a <= c,
{
    let k1 = choose|k: nat| b == a * #[trigger] pow2(k);
    let k2 = choose|k: nat| c == b * #[trigger] pow2(k);
    lemma_pow2_adds(k1, k2);
    lemma_pow2_pos(k1 + k2);
    assert(a * pow2(k1) * pow2(k2) == a * (pow2(k1) * pow2(k2))) by (nonlinear_arith);
    assert(c == a * pow2(k1 + k2));
    assert(a <= a * pow2(k1 + k2)) by (nonlinear_arith)
        requires
            pow2(k1 + k2) > 0,
    ;
}

/// Over a whole run the parser's buffer never shrinks and grows only by
/// doubling: where each size in `sizes` is doubled from the one before it,
/// as each call of `Parser::fill`, `Parser::next_frame`, `Parser::grow_for`
/// and `Parser::run_step` ensures, the last size is the first one doubled some
/// number of times, and no smaller.
pub proof fn law_capacity_only_doubles(sizes: Seq<nat>)
    requires
        sizes.len() > 0,
        forall|i: int| 0 <= i < sizes.len() - 1 ==> doubled_from(#[trigger] sizes[i], sizes[i + 1]),
    ensures
        doubled_from(sizes[0], sizes.last()),
        sizes[0] <= sizes.last(),
    decreases sizes.len(),
{
    if sizes.len() == 1 {
        crate::parser::lemma_doubled_from_same(sizes[0]);
    } else {
        let rest = sizes.drop_last();
        assert forall|i: int| 0 <= i < rest.len() - 1 implies doubled_from(#[trigger] rest[i], rest[i + 1]) by {
            assert(rest[i] == sizes[i]);
            assert(rest[i + 1] == sizes[i + 1]);
        }
        law_capacity_only_doubles(rest);
        assert(doubled_from(sizes[sizes.len() - 2], sizes[sizes.len() - 1]));
        lemma_doubled_from_trans(sizes[0], rest.last(), sizes.last());
    }
}

/// The bytes of frames written one after another by `IP::marshal`.
pub open spec fn marshal_all(ips: Seq<SpecIP>) -> Seq<u8>
    decreases ips.len(),
{
    if ips.len() == 0 {
        Seq::empty()
    } else {
        spec_marshal(ips[0]) + marshal_all(ips.drop_first())
    }
}

/// A frame as the grammar reads back what `IP::marshal` wrote of it.
pub open spec fn read_back(ip: SpecIP) -> SpecIP2 {
    SpecIP2 {
        frame_type: ip.frame_type,
        body_type: todo_bytes(),
        port: todo_bytes(),
        headers: grammar_headers(ip),
        body: ip.body,
    }
}

/// The frames' values.
pub open spec fn ip_views(ips: Seq<IP>) -> Seq<SpecIP> {
    ips.map_values(|ip: IP| ip@)
}

/// Frames written back to back by `IP::marshal` are taken out one by one,
/// each as the grammar reads it, with every header line it holds, before
/// whatever follows them: parsing the frames at the front of the bytes (as
/// `Parser::run_step` does) gives those frames in order, then the frames of
/// what follows, and ends where the parsing of what follows ends.
pub proof fn law_drain_reads_marshalled_frames(ips: Seq<IP>, tail: Seq<u8>)
    requires
        forall|i: int| 0 <= i < ips.len() ==> parsable_frame(#[trigger] ips[i]@),
        (marshal_all(ip_views(ips)) + tail).len() <= usize::MAX,
    ensures
        spec_drain(marshal_all(ip_views(ips)) + tail).frames == ip_views(ips).map_values(
            |ip: SpecIP| read_back(ip),
        ) + spec_drain(tail).frames,
        spec_drain(marshal_all(ip_views(ips)) + tail).end == spec_drain(tail).end,
        spec_drain(marshal_all(ip_views(ips)) + tail).rest == spec_drain(tail).rest,
    decreases ips.len(),
{
    let vs = ip_views(ips);
    if ips.len() == 0 {
        assert(marshal_all(vs) + tail =~= tail);
        assert(vs.map_values(|ip: SpecIP| read_back(ip)) + spec_drain(tail).frames
            =~= spec_drain(tail).frames);
    } else {
        let rest_ips = ips.drop_first();
        assert(ip_views(rest_ips) =~= vs.drop_first());
        assert forall|i: int| 0 <= i < rest_ips.len() implies parsable_frame(
            #[trigger] rest_ips[i]@,
        ) by {
            assert(rest_ips[i] == ips[i + 1]);
        }
        let m = spec_marshal(vs[0]);
        let more = marshal_all(vs.drop_first()) + tail;
        assert(marshal_all(vs) + tail =~= m + more);
        assert(more.len() <= usize::MAX);
        law_drain_reads_marshalled_frames(rest_ips, tail);
        assert(vs[0] == ips[0]@);
        law_frame_full_reads_marshal(ips[0]);
        law_frame_full_prefix_stable(m, more);
        let d = m + more;
        assert(d.skip(m.len() as int) =~= more);
        assert(spec_frame_full(d) == Parsed::Done(m.len() as usize, read_back(vs[0])));
        assert(!frame_full_panics(d));
        assert(0 < m.len() <= d.len()) by {
            crate::wire::lemma_frame_full_len(m);
        }
        let fs = vs.map_values(|ip: SpecIP| read_back(ip));
        assert(fs =~= seq![read_back(vs[0])] + vs.drop_first().map_values(
            |ip: SpecIP| read_back(ip),
        ));
        assert(spec_drain(d).frames =~= fs + spec_drain(tail).frames);
    }
}

/// The decimal text of a number is its shortest one: digits that spell the
/// number, with no leading zero but for the number 0 itself, which is `0`.
pub proof fn law_decimal_is_shortest(n: nat)
    ensures
        all_digits(spec_decimal(n)),
        digits_value(spec_decimal(n)) == n,
        spec_decimal(n).len() > 0,
        n > 0 ==> spec_decimal(n)[0] != 48u8,
        n == 0 ==> spec_decimal(n) == seq![48u8],
    decreases n,
{
    lemma_decimal_digits(n);
    if n >= 10 {
        law_decimal_is_shortest(n / 10);
        assert(spec_decimal(n)[0] == spec_decimal(n / 10)[0]);
    }
}

/// A `length` line sets the body size and is never kept as a header: where
/// its value is a number (0 included) it gives that number as the body size
/// and leaves every other field as it was; reading panics there exactly when
/// the value is no number.
pub proof fn law_length_line(st: HeaderState, v: Seq<u8>)
    ensures
        spec_line_panics(length_key() + seq![58u8] + v) <==> spec_parse_usize(v) is None,
        spec_parse_usize(v) matches Some(n) ==> spec_apply_line(st, length_key() + seq![58u8] + v)
            == LineApplied::Applied(with_body_length(st, n)),
        spec_parse_usize(v) is None ==> spec_apply_line(st, length_key() + seq![58u8] + v)
            == LineApplied::Panics,
{
    let line = length_key() + seq![58u8] + v;
    lemma_first_index_after(length_key(), colon(), v);
    assert(line.take(6) =~= length_key());
    assert(line.skip(7) =~= v);
    assert(length_key() != port_key()) by {
        assert(length_key()[0] != port_key()[0]);
    }
    assert(length_key() != type_key()) by {
        assert(length_key()[0] != type_key()[0]);
    }
}

/// Any other header line `key:value`, whose key holds no colon, is kept as
/// a header, after those before it, and never panics.
pub proof fn law_other_header_line(st: HeaderState, key: Seq<u8>, v: Seq<u8>)
    requires
        forall|j: int| 0 <= j < key.len() ==> key[j] != 58u8,
        key != length_key(),
        key != port_key(),
        key != type_key(),
    ensures
        !spec_line_panics(key + seq![58u8] + v),
        spec_apply_line(st, key + seq![58u8] + v) == LineApplied::Applied(with_headers(st, seq![(key, v)])),
{
    let line = key + seq![58u8] + v;
    lemma_first_index_after(key, colon(), v);
    assert(line.take(key.len() as int) =~= key);
    assert(line.skip(key.len() as int + 1) =~= v);
    assert(st.headers.push((key, v)) =~= st.headers + seq![(key, v)]);
}

/// A line without a colon is refused as no header line.
pub proof fn law_line_without_colon(st: HeaderState, line: Seq<u8>)
    requires
        forall|j: int| 0 <= j < line.len() ==> line[j] != 58u8,
    ensures
        !spec_line_panics(line),
        spec_apply_line(st, line) == LineApplied::Failed(ParseFrameError::NoColon),
{
    crate::wire::lemma_first_index(line, colon());
}

/// The body size comes from the first `length` header, wherever it stands
/// and whatever follows it; without one the body is empty.
pub proof fn law_first_length_header(hs: Seq<SpecHeader>, i: int)
    requires
        0 <= i < hs.len(),
        hs[i].0 == length_key(),
        forall|j: int| 0 <= j < i ==> hs[j].0 != length_key(),
    ensures
        spec_length_value(hs) == Some(hs[i].1),
        spec_body_length(hs) == spec_parse_usize(hs[i].1),
    decreases i,
{
    if i > 0 {
        let t = hs.drop_first();
        assert forall|j: int| 0 <= j < i - 1 implies t[j].0 != length_key() by {
            assert(t[j] == hs[j + 1]);
        }
        assert(t[i - 1] == hs[i]);
        law_first_length_header(t, i - 1);
    }
}

/// Headers without a `length` header announce an empty body.
pub proof fn law_no_length_header(hs: Seq<SpecHeader>)
    requires
        forall|j: int| 0 <= j < hs.len() ==> hs[j].0 != length_key(),
    ensures
        spec_length_value(hs) is None,
        spec_body_length(hs) == Some(0usize),
    decreases hs.len(),
{
    if hs.len() > 0 {
        let t = hs.drop_first();
        assert forall|j: int| 0 <= j < t.len() implies t[j].0 != length_key() by {
            assert(t[j] == hs[j + 1]);
        }
        law_no_length_header(t);
    }
}

/// A zero in front of the digits does not change their value.
proof fn lemma_digits_leading_zero(s: Seq<u8>)
    ensures
        digits_value(seq![48u8] + s) == digits_value(s),
        all_digits(seq![48u8] + s) == all_digits(s),
    decreases s.len(),
{
    let z = seq![48u8] + s;
    if s.len() == 0 {
        assert(z.drop_last() =~= Seq::<u8>::empty());
        assert(digits_value(Seq::<u8>::empty()) == 0);
        assert(digits_value(z) == digits_value(z.drop_last()) * 10 + (z.last() - 48) as nat);
    } else {
        lemma_digits_leading_zero(s.drop_last());
        assert(z.drop_last() =~= seq![48u8] + s.drop_last());
        assert(z.last() == s.last());
        assert(digits_value(z) == digits_value(z.drop_last()) * 10 + (z.last() - 48) as nat);
        assert(digits_value(s) == digits_value(s.drop_last()) * 10 + (s.last() - 48) as nat);
    }
    assert(all_digits(z) ==> all_digits(s)) by {
        if all_digits(z) {
            assert forall|i: int| 0 <= i < s.len() implies #[trigger] crate::decimal::is_digit(s[i]) by {
                assert(z[i + 1] == s[i]);
            }
        }
    }
    assert(all_digits(s) ==> all_digits(z)) by {
        if all_digits(s) {
            assert forall|i: int| 0 <= i < z.len() implies #[trigger] crate::decimal::is_digit(z[i]) by {
                if i > 0 {
                    assert(z[i] == s[i - 1]);
                }
            }
        }
    }
}

/// Reading a number ignores zeros in front of its digits: `0` followed by
/// digits reads as those digits do, and so does anything else that does not
/// start with `+`.
pub proof fn law_parse_leading_zero(s: Seq<u8>)
    requires
        s.len() > 0,
        s[0] != 43u8,
    ensures
        spec_parse_usize(seq![48u8] + s) == spec_parse_usize(s),
{
    lemma_digits_leading_zero(s);
    assert((seq![48u8] + s)[0] == 48u8);
}

/// A `+` in front of a number reads as the number itself.
pub proof fn law_parse_plus_sign(s: Seq<u8>)
    requires
        s.len() == 0 || s[0] != 43u8,
    ensures
        spec_parse_usize(seq![43u8] + s) == spec_parse_usize(s),
{
    assert((seq![43u8] + s).drop_first() =~= s);
}

/// One more digit behind a number multiplies it by ten and adds the digit,
/// as long as the result fits a `usize`; past that, reading fails.
pub proof fn law_parse_appends_digit(s: Seq<u8>, c: u8)
    requires
        spec_parse_usize(s) is Some,
        48 <= c <= 57,
    ensures
        spec_parse_usize(s).unwrap() * 10 + (c - 48) <= usize::MAX ==> spec_parse_usize(s + seq![c])
            == Some((spec_parse_usize(s).unwrap() * 10 + (c - 48)) as usize),
        spec_parse_usize(s).unwrap() * 10 + (c - 48) > usize::MAX ==> spec_parse_usize(s + seq![c])
            is None,
{
    let t = s + seq![c];
    let d = if s[0] == 43 { s.drop_first() } else { s };
    let e = if t[0] == 43 { t.drop_first() } else { t };
    assert(t[0] == s[0]);
    assert(e =~= d + seq![c]);
    assert(e.drop_last() =~= d);
    assert(e.last() == c);
    assert forall|i: int| 0 <= i < e.len() implies #[trigger] crate::decimal::is_digit(e[i]) by {
        if i < d.len() {
            assert(e[i] == d[i]);
        }
    }
}

/// A byte that is no digit, other than a leading `+`, makes reading fail.
pub proof fn law_parse_rejects_non_digit(s: Seq<u8>, j: int)
    requires
        0 <= j < s.len(),
        !(48 <= s[j] <= 57),
        !(j == 0 && s[0] == 43u8),
    ensures
        spec_parse_usize(s) is None,
{
    if s[0] == 43u8 {
        assert(s.drop_first()[j - 1] == s[j]);
        assert(!crate::decimal::is_digit(s.drop_first()[j - 1]));
    } else {
        assert(!crate::decimal::is_digit(s[j]));
    }
}

/// A line read from a stream loses its line end, `\n` or `\r\n`, and
/// nothing else; a line without one stays whole.
pub proof fn law_line_end(x: Seq<u8>)
    ensures
        strip_line_end(x + seq![13u8, 10u8]) == x,
        x.len() == 0 || x.last() != 13u8 ==> strip_line_end(x + seq![10u8]) == x,
        x.len() == 0 || x.last() != 10u8 ==> strip_line_end(x) == x,
{
    assert((x + seq![13u8, 10u8]).drop_last() =~= x + seq![13u8]);
    assert((x + seq![13u8]).drop_last() =~= x);
    assert((x + seq![10u8]).drop_last() =~= x);
}

} // verus!
