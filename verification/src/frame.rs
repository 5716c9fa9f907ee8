//! Frames as a program reads them from a stream and writes them back:
//! `2` and the frame type on one line, `type:` and `port:` lines, further
//! `key:value` header lines, a `length:` line when there is a body, an empty
//! line, the body, and a NUL byte.

use vstd::prelude::*;
use vstd::utf8::encode_utf8;
use crate::decimal::format_usize;
use crate::decimal::spec_decimal;
use crate::wire::length_key;
use crate::wire::SpecHeader;

verus! {

/// A header field: name and value.
pub struct Header(pub String, pub String);

/// A frame with its well-known header fields taken out.
pub struct IP {
    pub frame_type: String,
    pub body_type: String,
    pub port: String,
    pub headers: Vec<Header>,
    pub body: Vec<u8>,
}

/// The UTF-8 bytes of a string.
pub open spec fn utf8_of(s: String) -> Seq<u8> {
    encode_utf8(s@)
}

/// A header as the pair of its UTF-8 byte strings.
pub open spec fn header_view(h: Header) -> SpecHeader {
    (utf8_of(h.0), utf8_of(h.1))
}

/// Headers as pairs of UTF-8 byte strings.
pub open spec fn headers_view(hs: Seq<Header>) -> Seq<SpecHeader> {
    hs.map_values(|h: Header| header_view(h))
}

/// A frame with every text as its UTF-8 bytes.
pub struct SpecIP {
    pub frame_type: Seq<u8>,
    pub body_type: Seq<u8>,
    pub port: Seq<u8>,
    pub headers: Seq<SpecHeader>,
    pub body: Seq<u8>,
}

impl View for IP {
    type V = SpecIP;

    open spec fn view(&self) -> SpecIP {
        SpecIP {
            frame_type: utf8_of(self.frame_type),
            body_type: utf8_of(self.body_type),
            port: utf8_of(self.port),
            headers: headers_view(self.headers@),
            body: self.body@,
        }
    }
}

/// Why a frame cannot be marshalled.
#[derive(Clone, Copy, PartialEq, Eq, Structural, Debug)]
pub enum MarshalError {
    /// The frame type is empty.
    EmptyFrameType,
}

/// A line feed.
pub open spec fn nl() -> Seq<u8> {
    seq![10u8]
}

/// `type:`
pub open spec fn type_prefix() -> Seq<u8> {
    seq![116u8, 121u8, 112u8, 101u8, 58u8]
}

/// `port:`
pub open spec fn port_prefix() -> Seq<u8> {
    seq![112u8, 111u8, 114u8, 116u8, 58u8]
}

/// `length:`
pub open spec fn length_prefix() -> Seq<u8> {
    length_key() + seq![58u8]
}

/// One header line: `key:value\n`.
pub open spec fn header_line_bytes(h: SpecHeader) -> Seq<u8> {
    h.0 + seq![58u8] + h.1 + nl()
}

/// The header lines, in order.
pub open spec fn header_lines_bytes(hs: Seq<SpecHeader>) -> Seq<u8>
    decreases hs.len(),
{
    if hs.len() == 0 {
        Seq::empty()
    } else {
        header_lines_bytes(hs.drop_last()) + header_line_bytes(hs.last())
    }
}

/// A line `prefix value\n` when the value is not empty, nothing otherwise.
pub open spec fn optional_line(prefix: Seq<u8>, value: Seq<u8>) -> Seq<u8> {
    if value.len() > 0 {
        prefix + value + nl()
    } else {
        Seq::empty()
    }
}

/// Everything after the header lines: the `length` line, the empty line
/// and the body when there is a body, the empty line alone otherwise; then NUL.
pub open spec fn body_part(body: Seq<u8>) -> Seq<u8> {
    if body.len() > 0 {
        length_prefix() + spec_decimal(body.len()) + nl() + nl() + body + seq![0u8]
    } else {
        nl() + seq![0u8]
    }
}

/// The bytes of a marshalled frame (its frame type not empty).
pub open spec fn spec_marshal(ip: SpecIP) -> Seq<u8> {
    seq![50u8] + ip.frame_type + nl() + optional_line(type_prefix(), ip.body_type) + optional_line(
        port_prefix(),
        ip.port,
    ) + header_lines_bytes(ip.headers) + body_part(ip.body)
}

/// Appends `bytes` to `out`.
fn append_bytes(out: &mut Vec<u8>, bytes: &[u8])
    ensures
        final(out)@ == old(out)@ + bytes@,
{
    let n = bytes.len();
    let mut i: usize = 0;
    while i < n
        invariant
            n == bytes@.len(),
            i <= n,
            out@ == old(out)@ + bytes@.take(i as int),
        decreases n - i,
    {
        out.push(bytes[i]);
        assert(bytes@.take(i + 1) =~= bytes@.take(i as int).push(bytes@[i as int]));
        i = i + 1;
    }
    assert(bytes@.take(n as int) =~= bytes@);
}

/// Appends the bytes of `value` behind `prefix`, and a line feed.
fn append_line(out: &mut Vec<u8>, prefix: &[u8], value: &[u8])
    ensures
        final(out)@ == old(out)@ + prefix@ + value@ + nl(),
{
    append_bytes(out, prefix);
    append_bytes(out, value);
    out.push(10);
    assert(out@ =~= old(out)@ + prefix@ + value@ + nl());
}

/// Appends the header lines of `headers`, in order.
fn append_headers(writer: &mut Vec<u8>, headers: &Vec<Header>)
    ensures
        final(writer)@ == old(writer)@ + header_lines_bytes(headers_view(headers@)),
{
    let ghost hv = headers_view(headers@);
    let n = headers.len();
    let mut i: usize = 0;
    assert(hv.take(0) =~= Seq::<SpecHeader>::empty());
    assert(old(writer)@ + header_lines_bytes(hv.take(0)) =~= old(writer)@);
    while i < n
        invariant
            n == headers@.len(),
            hv == headers_view(headers@),
            i <= n,
            writer@ == old(writer)@ + header_lines_bytes(hv.take(i as int)),
        decreases n - i,
    {
        let h = &headers[i];
        let key = h.0.as_str().as_bytes();
        let value = h.1.as_str().as_bytes();
        append_bytes(writer, key);
        writer.push(58);
        append_bytes(writer, value);
        writer.push(10);
        proof {
            assert(hv[i as int] == header_view(headers@[i as int]));
            assert(hv.take(i + 1).drop_last() =~= hv.take(i as int));
            assert(hv.take(i + 1).last() == hv[i as int]);
        }
        assert(writer@ =~= old(writer)@ + header_lines_bytes(hv.take(i as int)) + header_line_bytes(
            hv[i as int],
        ));
        i = i + 1;
    }
    assert(hv.take(n as int) =~= hv);
}

/// Appends the `length` line, the empty line and the body, or the empty line
/// alone when the body is empty; then the NUL byte.
fn append_body_part(writer: &mut Vec<u8>, body: &Vec<u8>)
    ensures
        final(writer)@ == old(writer)@ + body_part(body@),
{
    if body.len() != 0 {
        let prefix = vec![108u8, 101u8, 110u8, 103u8, 116u8, 104u8, 58u8];
        assert(prefix@ =~= length_prefix());
        let digits = format_usize(body.len());
        append_line(writer, prefix.as_slice(), digits.as_slice());
        writer.push(10);
        append_bytes(writer, body.as_slice());
    } else {
        writer.push(10);
    }
    writer.push(0);
    assert(writer@ =~= old(writer)@ + body_part(body@));
}

/// Appends `prefix`, the bytes of `value` and a line feed when `value` is not empty.
fn append_optional_line(writer: &mut Vec<u8>, prefix: &[u8], value: &String)
    ensures
        final(writer)@ == old(writer)@ + optional_line(prefix@, utf8_of(*value)),
{
    let bytes = value.as_str().as_bytes();
    if bytes.len() != 0 {
        append_line(writer, prefix, bytes);
    } else {
        assert(old(writer)@ + Seq::<u8>::empty() =~= old(writer)@);
    }
}

impl IP {
    /// Writes the frame to `writer`. The version marker `2` is written first;
    /// a frame with an empty frame type is refused after it.
    pub fn marshal(&self, writer: &mut Vec<u8>) -> (res: Result<(), MarshalError>)
        ensures
            self@.frame_type.len() == 0 ==> res == Err::<(), MarshalError>(
                MarshalError::EmptyFrameType,
            ) && final(writer)@ == old(writer)@ + seq![50u8],
            self@.frame_type.len() > 0 ==> res is Ok && final(writer)@ == old(writer)@
                + spec_marshal(self@),
    {
        writer.push(50);
        let frame_type = self.frame_type.as_str().as_bytes();
        if frame_type.len() == 0 {
            return Err(MarshalError::EmptyFrameType);
        }
        let empty: Vec<u8> = Vec::new();
        append_line(writer, empty.as_slice(), frame_type);
        let type_p = vec![116u8, 121u8, 112u8, 101u8, 58u8];
        assert(type_p@ =~= type_prefix());
        append_optional_line(writer, type_p.as_slice(), &self.body_type);
        let port_p = vec![112u8, 111u8, 114u8, 116u8, 58u8];
        assert(port_p@ =~= port_prefix());
        append_optional_line(writer, port_p.as_slice(), &self.port);
        append_headers(writer, &self.headers);
        append_body_part(writer, &self.body);
        assert(writer@ =~= old(writer)@ + spec_marshal(self@));
        Ok(())
    }
}

} // verus!
