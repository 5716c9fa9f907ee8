//! The streaming frame grammar: a frame is `2`, a frame type ended by a line
//! feed, header lines `key:value` each ended by a line feed, an empty line,
//! a body whose size the first `length` header gives, and an optional NUL byte.
//!
//! Every parser here works on whatever bytes have arrived so far: it answers
//! `Done` with the number of bytes it used, `Incomplete` with the number of
//! further bytes it needs at least, or `Error` when the bytes cannot start a frame.
//!
//! Frame types, header keys and header values are runs of ASCII letters and
//! digits (`0-9a-zA-Z`). A field with any other byte in it, such as the key
//! `conn-id` or a value with a space, makes the frame an `Error`, even though
//! a colon or a line feed follows it later.

use nom::InputTakeAtPosition;
use vstd::prelude::*;
use vstd::slice::slice_subrange;
use vstd::slice::slice_to_vec;
use crate::chars::is_alnum;
use crate::chars::is_not_alphanumeric;
use crate::decimal::parse_usize;
use crate::decimal::spec_parse_usize;

verus! {

/// The line feed byte.
pub open spec fn newline() -> u8 {
    10
}

/// The colon byte.
pub open spec fn colon() -> u8 {
    58
}

/// The byte `2` that opens every frame.
pub open spec fn version_two() -> u8 {
    50
}

/// The header key `length`.
pub open spec fn length_key() -> Seq<u8> {
    seq![108u8, 101u8, 110u8, 103u8, 116u8, 104u8]
}

/// The placeholder `TODO` that the grammar stores as body type and port.
pub open spec fn todo_bytes() -> Seq<u8> {
    seq![84u8, 79u8, 68u8, 79u8]
}

/// The kind of error that a field reports when it would be empty.
#[derive(Clone, Copy, PartialEq, Eq, Structural, Debug)]
pub enum FieldErrorKind {
    /// The key of a header line.
    AlphaNumeric,
    /// A frame type or the value of a header line.
    Escaped,
}

/// How a field of one or more alphanumeric bytes splits the input.
#[derive(Clone, Copy, PartialEq, Eq, Structural, Debug)]
pub enum Split {
    /// The field is the first `n` bytes (`n > 0`); the byte at index `n` is
    /// not alphanumeric.
    Taken(usize),
    /// The input starts with a byte that is not alphanumeric: the field would
    /// be empty; the error has the given kind.
    Empty(FieldErrorKind),
    /// Every byte in view is alphanumeric: at least one more byte is needed.
    Incomplete,
}

/// The index of the first `d` in `s`.
pub open spec fn first_index(s: Seq<u8>, d: u8) -> Option<nat>
    decreases s.len(),
{
    if s.len() == 0 {
        None
    } else if s[0] == d {
        Some(0)
    } else {
        match first_index(s.drop_first(), d) {
            Some(i) => Some(i + 1),
            None => None,
        }
    }
}

/// `first_index` finds the first occurrence, and only it.
pub proof fn lemma_first_index(s: Seq<u8>, d: u8)
    ensures
        match first_index(s, d) {
            Some(i) => i < s.len() && s[i as int] == d && forall|j: int|
                0 <= j < i ==> s[j] != d,
            None => forall|j: int| 0 <= j < s.len() ==> s[j] != d,
        },
    decreases s.len(),
{
    if s.len() > 0 && s[0] != d {
        lemma_first_index(s.drop_first(), d);
        match first_index(s.drop_first(), d) {
            Some(i) => {
                assert forall|j: int| 0 <= j < i + 1 implies s[j] != d by {
                    if j > 0 {
                        assert(s[j] == s.drop_first()[j - 1]);
                    }
                }
            },
            None => {
                assert forall|j: int| 0 <= j < s.len() implies s[j] != d by {
                    if j > 0 {
                        assert(s[j] == s.drop_first()[j - 1]);
                    }
                }
            },
        }
    }
}

/// The first occurrence of `d` in `a + [d] + b`, where `a` holds no `d`, ends `a`.
pub proof fn lemma_first_index_after(a: Seq<u8>, d: u8, b: Seq<u8>)
    requires
        forall|j: int| 0 <= j < a.len() ==> a[j] != d,
    ensures
        first_index(a + seq![d] + b, d) == Some(a.len()),
{
    let s = a + seq![d] + b;
    lemma_first_index(s, d);
    match first_index(s, d) {
        Some(i) => {
            if i < a.len() {
                assert(s[i as int] == a[i as int]);
            } else if i > a.len() {
                assert(s[a.len() as int] == d);
            }
        },
        None => {
            assert(s[a.len() as int] == d);
        },
    }
}

/// The index of the first byte of `s` that is not ASCII alphanumeric.
pub open spec fn first_non_alnum(s: Seq<u8>) -> Option<nat>
    decreases s.len(),
{
    if s.len() == 0 {
        None
    } else if !is_alnum(s[0]) {
        Some(0)
    } else {
        match first_non_alnum(s.drop_first()) {
            Some(i) => Some(i + 1),
            None => None,
        }
    }
}

/// Every byte of `s` is ASCII alphanumeric.
pub open spec fn all_alnum(s: Seq<u8>) -> bool {
    forall|i: int| 0 <= i < s.len() ==> is_alnum(#[trigger] s[i])
}

/// `first_non_alnum` finds the first byte that is not alphanumeric, and only it.
pub proof fn lemma_first_non_alnum(s: Seq<u8>)
    ensures
        match first_non_alnum(s) {
            Some(i) => i < s.len() && !is_alnum(s[i as int]) && forall|j: int|
                0 <= j < i ==> is_alnum(#[trigger] s[j]),
            None => all_alnum(s),
        },
    decreases s.len(),
{
    if s.len() > 0 && is_alnum(s[0]) {
        lemma_first_non_alnum(s.drop_first());
        assert forall|j: int| 0 < j < s.len() implies s[j] == s.drop_first()[j - 1] by {}
    }
}

/// In `a + [d] + b`, where `a` is alphanumeric and `d` is not, the field ends `a`.
pub proof fn lemma_first_non_alnum_after(a: Seq<u8>, d: u8, b: Seq<u8>)
    requires
        all_alnum(a),
        !is_alnum(d),
    ensures
        first_non_alnum(a + seq![d] + b) == Some(a.len()),
{
    let s = a + seq![d] + b;
    lemma_first_non_alnum(s);
    match first_non_alnum(s) {
        Some(i) => {
            if i < a.len() {
                assert(s[i as int] == a[i as int]);
            } else if i > a.len() {
                assert(s[a.len() as int] == d);
            }
        },
        None => {
            assert(s[a.len() as int] == d);
        },
    }
}

/// The field of one or more alphanumeric bytes at the front of `s`; an empty
/// field is an error of the given kind.
pub open spec fn spec_alphanumeric1(s: Seq<u8>, kind: FieldErrorKind) -> Split {
    match first_non_alnum(s) {
        None => Split::Incomplete,
        Some(i) => if i == 0 {
            Split::Empty(kind)
        } else {
            Split::Taken(i as usize)
        },
    }
}

/// nom's `split_at_position1` on a byte slice, splitting before the first byte
/// that is not ASCII alphanumeric (`0-9a-zA-Z`).
///
/// It returns the field before that byte when the field is not empty, an
/// error of the kind handed in when the slice starts with such a byte, and
/// `Incomplete(Needed::Size(1))` when every byte is alphanumeric. The
/// contract states these three outcomes, the field by its length and the
/// error by its kind; the input slice that nom puts into the error is dropped.
#[verifier::external_body]
fn split_alphanumeric1(input: &[u8], kind: FieldErrorKind) -> (res: Split)
    ensures
        res == spec_alphanumeric1(input@, kind),
{
    let e = match kind {
        FieldErrorKind::AlphaNumeric => nom::ErrorKind::AlphaNumeric,
        FieldErrorKind::Escaped => nom::ErrorKind::Escaped,
    };
    match input.split_at_position1(is_not_alphanumeric, e) {
        Ok((_rest, taken)) => Split::Taken(taken.len()),
        Err(nom::Err::Incomplete(_)) => Split::Incomplete,
        Err(nom::Err::Error(nom::Context::Code(_, nom::ErrorKind::Escaped))) => Split::Empty(FieldErrorKind::Escaped),
        Err(_) => Split::Empty(FieldErrorKind::AlphaNumeric),
    }
}

/// Recognizes one or more numerical and alphabetic characters (ASCII
/// `0-9a-zA-Z`): the key of a header line, which a colon follows.
pub fn alphanumeric1_noncolon(input: &[u8]) -> (res: Split)
    ensures
        res == spec_alphanumeric1(input@, FieldErrorKind::AlphaNumeric),
{
    split_alphanumeric1(input, FieldErrorKind::AlphaNumeric)
}

/// Recognizes one or more numerical and alphabetic characters (ASCII
/// `0-9a-zA-Z`): a frame type or a header value, which a line feed follows.
pub fn alphanumeric1_nonnewline(input: &[u8]) -> (res: Split)
    ensures
        res == spec_alphanumeric1(input@, FieldErrorKind::Escaped),
{
    split_alphanumeric1(input, FieldErrorKind::Escaped)
}

/// The answer of a streaming parser.
#[derive(PartialEq, Eq, Debug)]
pub enum Parsed<T> {
    /// The parser used the first `n` bytes and produced a value.
    Done(usize, T),
    /// The parser needs at least this many more bytes.
    Incomplete(usize),
    /// The bytes cannot be parsed.
    Error,
}

/// A header as a pair of byte strings.
pub type SpecHeader = (Seq<u8>, Seq<u8>);

/// `key:value\n`: a key of one or more alphanumeric bytes, a colon, a value
/// of one or more alphanumeric bytes, and a line feed.
pub open spec fn spec_header_line(s: Seq<u8>) -> Parsed<SpecHeader> {
    match spec_alphanumeric1(s, FieldErrorKind::AlphaNumeric) {
        Split::Empty(_) => Parsed::Error,
        Split::Incomplete => Parsed::Incomplete(1),
        Split::Taken(k) => if s[k as int] != colon() {
            Parsed::Error
        } else {
            let t = s.skip(k + 1);
            match spec_alphanumeric1(t, FieldErrorKind::Escaped) {
                Split::Empty(_) => Parsed::Error,
                Split::Incomplete => Parsed::Incomplete(1),
                Split::Taken(v) => if t[v as int] != newline() {
                    Parsed::Error
                } else {
                    Parsed::Done((k + v + 2) as usize, (s.take(k as int), t.take(v as int)))
                },
            }
        },
    }
}

/// Header lines up to the empty line that closes them (nom's `many_till`
/// of header lines and a line feed).
pub open spec fn spec_headers(s: Seq<u8>) -> Parsed<Seq<SpecHeader>>
    decreases s.len(),
{
    if s.len() == 0 {
        Parsed::Incomplete(1)
    } else if s[0] == newline() {
        Parsed::Done(1, seq![])
    } else {
        match spec_header_line(s) {
            Parsed::Error => Parsed::Error,
            Parsed::Incomplete(k) => Parsed::Incomplete(k),
            Parsed::Done(n, h) => if 0 < n <= s.len() {
                match spec_headers(s.skip(n as int)) {
                    Parsed::Done(m, hs) => Parsed::Done((n + m) as usize, seq![h] + hs),
                    Parsed::Incomplete(k) => Parsed::Incomplete(k),
                    Parsed::Error => Parsed::Error,
                }
            } else {
                Parsed::Error
            },
        }
    }
}

/// The value of the first header whose key is `length`.
pub open spec fn spec_length_value(hs: Seq<SpecHeader>) -> Option<Seq<u8>>
    decreases hs.len(),
{
    if hs.len() == 0 {
        None
    } else if hs[0].0 == length_key() {
        Some(hs[0].1)
    } else {
        spec_length_value(hs.drop_first())
    }
}

/// The body size that the headers announce: the first `length` header read as
/// a `usize`, 0 without one, `None` where that value is no number (a frame
/// parser cannot go on there: `frame_full` requires that this does not happen).
pub open spec fn spec_body_length(hs: Seq<SpecHeader>) -> Option<usize> {
    match spec_length_value(hs) {
        None => Some(0),
        Some(v) => spec_parse_usize(v),
    }
}

/// A frame as the grammar reads it.
pub struct SpecIP2 {
    pub frame_type: Seq<u8>,
    pub body_type: Seq<u8>,
    pub port: Seq<u8>,
    pub headers: Seq<SpecHeader>,
    pub body: Seq<u8>,
}

/// The whole frame grammar.
pub open spec fn spec_frame_full(s: Seq<u8>) -> Parsed<SpecIP2> {
    if s.len() == 0 {
        Parsed::Incomplete(1)
    } else if s[0] != version_two() {
        Parsed::Error
    } else {
        let t = s.skip(1);
        match spec_alphanumeric1(t, FieldErrorKind::Escaped) {
            Split::Empty(_) => Parsed::Error,
            Split::Incomplete => Parsed::Incomplete(1),
            Split::Taken(f) => if t[f as int] != newline() {
                Parsed::Error
            } else {
                let u = t.skip(f + 1);
                match spec_headers(u) {
                    Parsed::Error => Parsed::Error,
                    Parsed::Incomplete(k) => Parsed::Incomplete(k),
                    Parsed::Done(m, hs) => {
                        let len = spec_body_length(hs).unwrap();
                        let v = u.skip(m as int);
                        if v.len() < len {
                            Parsed::Incomplete(len)
                        } else {
                            let w = v.skip(len as int);
                            if w.len() == 0 {
                                Parsed::Incomplete(1)
                            } else {
                                let nul: int = if w[0] == 0 { 1 } else { 0 };
                                Parsed::Done(
                                    (f + m + len + 2 + nul) as usize,
                                    SpecIP2 {
                                        frame_type: t.take(f as int),
                                        body_type: todo_bytes(),
                                        port: todo_bytes(),
                                        headers: hs,
                                        body: v.take(len as int),
                                    },
                                )
                            }
                        }
                    },
                }
            },
        }
    }
}

/// Where the grammar reaches a `length` header that is no number: the body
/// size is unknown, and `frame_full` is not to be called on such input.
pub open spec fn frame_full_panics(s: Seq<u8>) -> bool {
    s.len() > 0 && s[0] == version_two() && match spec_alphanumeric1(
        s.skip(1),
        FieldErrorKind::Escaped,
    ) {
        Split::Taken(f) => s.skip(1)[f as int] == newline() && match spec_headers(
            s.skip(1).skip(f + 1),
        ) {
            Parsed::Done(_, hs) => spec_body_length(hs) is None,
            _ => false,
        },
        _ => false,
    }
}

/// A frame as the grammar hands it out: the frame type, the placeholder
/// `TODO` as body type and port, every header line in order, and the body.
#[derive(Debug)]
pub struct IP2 {
    pub frame_type: Vec<u8>,
    pub body_type: Vec<u8>,
    pub port: Vec<u8>,
    pub headers: Vec<(Vec<u8>, Vec<u8>)>,
    pub body: Vec<u8>,
}

/// Headers as pairs of byte strings.
pub open spec fn header_pairs_view(hs: Seq<(Vec<u8>, Vec<u8>)>) -> Seq<SpecHeader> {
    hs.map_values(|h: (Vec<u8>, Vec<u8>)| (h.0@, h.1@))
}

impl View for IP2 {
    type V = SpecIP2;

    open spec fn view(&self) -> SpecIP2 {
        SpecIP2 {
            frame_type: self.frame_type@,
            body_type: self.body_type@,
            port: self.port@,
            headers: header_pairs_view(self.headers@),
            body: self.body@,
        }
    }
}

/// A `Done` of the spec grammar says how much it used: something, and no more than there is.
pub proof fn lemma_header_line_len(s: Seq<u8>)
    requires
        s.len() <= usize::MAX,
    ensures
        spec_header_line(s) matches Parsed::Done(n, h) ==> {
            &&& 2 < n <= s.len()
            &&& h.0.len() > 0
            &&& h.1.len() > 0
        },
{
    lemma_first_non_alnum(s);
    if let Split::Taken(k) = spec_alphanumeric1(s, FieldErrorKind::AlphaNumeric) {
        lemma_first_non_alnum(s.skip(k + 1));
    }
}

/// `spec_headers` uses at least one byte and no more than there is.
pub proof fn lemma_headers_len(s: Seq<u8>)
    requires
        s.len() <= usize::MAX,
    ensures
        spec_headers(s) matches Parsed::Done(n, _) ==> 0 < n <= s.len(),
    decreases s.len(),
{
    if s.len() > 0 && s[0] != newline() {
        lemma_header_line_len(s);
        if let Parsed::Done(n, h) = spec_header_line(s) {
            lemma_headers_len(s.skip(n as int));
        }
    }
}

/// Parses one header line `key:value\n`.
pub fn header_line(s: &[u8]) -> (res: Parsed<(Vec<u8>, Vec<u8>)>)
    ensures
        match spec_header_line(s@) {
            Parsed::Done(n, h) => res matches Parsed::Done(m, v) && m == n && v.0@ == h.0 && v.1@
                == h.1,
            Parsed::Incomplete(k) => res == Parsed::<(Vec<u8>, Vec<u8>)>::Incomplete(k),
            Parsed::Error => res is Error,
        },
{
    let n = s.len();
    proof {
        lemma_first_non_alnum(s@);
    }
    match alphanumeric1_noncolon(s) {
        Split::Empty(_) => Parsed::Error,
        Split::Incomplete => Parsed::Incomplete(1),
        Split::Taken(k) => {
            assert(first_non_alnum(s@) == Some(k as nat));
            if s[k] != 58 {
                return Parsed::Error;
            }
            let rest = slice_subrange(s, k + 1, n);
            assert(rest@ =~= s@.skip(k + 1));
            proof {
                lemma_first_non_alnum(rest@);
            }
            match alphanumeric1_nonnewline(rest) {
                Split::Empty(_) => Parsed::Error,
                Split::Incomplete => Parsed::Incomplete(1),
                Split::Taken(v) => {
                    assert(first_non_alnum(rest@) == Some(v as nat));
                    if rest[v] != 10 {
                        return Parsed::Error;
                    }
                    let key = slice_to_vec(slice_subrange(s, 0, k));
                    let value = slice_to_vec(slice_subrange(rest, 0, v));
                    assert(key@ =~= s@.take(k as int));
                    assert(value@ =~= rest@.take(v as int));
                    Parsed::Done(k + v + 2, (key, value))
                },
            }
        },
    }
}

/// Parses header lines up to and including the empty line that closes them.
pub fn headers(s: &[u8]) -> (res: Parsed<Vec<(Vec<u8>, Vec<u8>)>>)
    ensures
        match spec_headers(s@) {
            Parsed::Done(n, hs) => res matches Parsed::Done(m, v) && m == n && header_pairs_view(v@)
                == hs,
            Parsed::Incomplete(k) => res == Parsed::<Vec<(Vec<u8>, Vec<u8>)>>::Incomplete(k),
            Parsed::Error => res is Error,
        },
{
    let mut acc: Vec<(Vec<u8>, Vec<u8>)> = Vec::new();
    let mut pos: usize = 0;
    assert(s@.skip(0) =~= s@);
    assert(header_pairs_view(acc@) =~= Seq::<SpecHeader>::empty());
    loop
        invariant
            pos <= s.len(),
            match spec_headers(s@.skip(pos as int)) {
                Parsed::Done(m, hs) => spec_headers(s@) == Parsed::Done(
                    (pos + m) as usize,
                    header_pairs_view(acc@) + hs,
                ),
                Parsed::Incomplete(k) => spec_headers(s@) == Parsed::<Seq<SpecHeader>>::Incomplete(
                    k,
                ),
                Parsed::Error => spec_headers(s@) == Parsed::<Seq<SpecHeader>>::Error,
            },
        decreases s.len() - pos,
    {
        let rest = slice_subrange(s, pos, s.len());
        assert(rest@ =~= s@.skip(pos as int));
        if rest.len() == 0 {
            return Parsed::Incomplete(1);
        }
        if rest[0] == 10 {
            assert(header_pairs_view(acc@) + seq![] =~= header_pairs_view(acc@));
            return Parsed::Done(pos + 1, acc);
        }
        proof {
            lemma_header_line_len(rest@);
        }
        match header_line(rest) {
            Parsed::Error => {
                return Parsed::Error;
            },
            Parsed::Incomplete(k) => {
                return Parsed::Incomplete(k);
            },
            Parsed::Done(n, h) => {
                let ghost old_view = header_pairs_view(acc@);
                let ghost hv: SpecHeader = (h.0@, h.1@);
                acc.push(h);
                assert(header_pairs_view(acc@) =~= old_view + seq![hv]);
                assert(rest@.skip(n as int) =~= s@.skip(pos + n));
                proof {
                    lemma_headers_len(s@.skip(pos + n));
                    if let Parsed::Done(m2, hs2) = spec_headers(s@.skip(pos + n)) {
                        assert(old_view + (seq![hv] + hs2) =~= header_pairs_view(acc@) + hs2);
                    }
                }
                pos = pos + n;
            },
        }
    }
}

/// Whether `key` is `length`.
fn is_length_key(key: &[u8]) -> (res: bool)
    ensures
        res == (key@ == length_key()),
{
    if key.len() != 6 {
        return false;
    }
    let res = key[0] == 108 && key[1] == 101 && key[2] == 110 && key[3] == 103 && key[4] == 116
        && key[5] == 104;
    assert(res ==> key@ =~= length_key());
    res
}

/// The body size that the headers announce: the first `length` header read
/// as a number, 0 without one, `None` where that header holds no number.
pub fn body_length(headers: &Vec<(Vec<u8>, Vec<u8>)>) -> (res: Option<usize>)
    ensures
        res == spec_body_length(header_pairs_view(headers@)),
{
    let ghost hv = header_pairs_view(headers@);
    let n = headers.len();
    let mut i: usize = 0;
    assert(hv.skip(0) =~= hv);
    while i < n
        invariant
            n == headers.len(),
            i <= n,
            hv == header_pairs_view(headers@),
            spec_length_value(hv) == spec_length_value(hv.skip(i as int)),
        decreases n - i,
    {
        assert(hv.skip(i as int)[0] == hv[i as int]);
        assert(hv[i as int] == (headers@[i as int].0@, headers@[i as int].1@));
        if is_length_key(headers[i].0.as_slice()) {
            assert(spec_length_value(hv.skip(i as int)) == Some(hv[i as int].1));
            return parse_usize(headers[i].1.as_slice());
        }
        assert(hv.skip(i as int).drop_first() =~= hv.skip(i + 1));
        i = i + 1;
    }
    assert(hv.skip(i as int) =~= Seq::<SpecHeader>::empty());
    Some(0)
}

/// The body size that the headers announce: the first `length` header read
/// as a number, 0 without one.
pub fn body_get_length(headers: &Vec<(Vec<u8>, Vec<u8>)>) -> (res: usize)
    requires
        spec_body_length(header_pairs_view(headers@)) is Some,
    ensures
        res == spec_body_length(header_pairs_view(headers@)).unwrap(),
{
    match body_length(headers) {
        Some(n) => n,
        None => 0,
    }
}

/// A `Done` of the grammar uses something, and no more than there is.
pub proof fn lemma_frame_full_len(s: Seq<u8>)
    requires
        s.len() <= usize::MAX,
    ensures
        spec_frame_full(s) matches Parsed::Done(n, _) ==> 0 < n <= s.len(),
{
    if s.len() > 0 && s[0] == version_two() {
        let t = s.skip(1);
        lemma_first_non_alnum(t);
        if let Split::Taken(f) = spec_alphanumeric1(t, FieldErrorKind::Escaped) {
            lemma_headers_len(t.skip(f + 1));
        }
    }
}

/// The placeholder `TODO`.
fn todo_vec() -> (res: Vec<u8>)
    ensures
        res@ == todo_bytes(),
{
    let res = vec![84u8, 79u8, 68u8, 79u8];
    assert(res@ =~= todo_bytes());
    res
}

/// Parses one frame from the bytes that have arrived so far, or answers
/// `None` where the grammar meets a `length` header that is no number.
pub fn try_frame_full(s: &[u8]) -> (res: Option<Parsed<IP2>>)
    ensures
        res is None <==> frame_full_panics(s@),
        res matches Some(r) ==> match spec_frame_full(s@) {
            Parsed::Done(n, f) => r matches Parsed::Done(m, v) && m == n && v@ == f,
            Parsed::Incomplete(k) => r == Parsed::<IP2>::Incomplete(k),
            Parsed::Error => r is Error,
        },
{
    let len = s.len();
    if len == 0 {
        return Some(Parsed::Incomplete(1));
    }
    if s[0] != 50 {
        return Some(Parsed::Error);
    }
    let t = slice_subrange(s, 1, len);
    assert(t@ =~= s@.skip(1));
    proof {
        lemma_first_non_alnum(t@);
    }
    match alphanumeric1_nonnewline(t) {
        Split::Empty(_) => Some(Parsed::Error),
        Split::Incomplete => Some(Parsed::Incomplete(1)),
        Split::Taken(f) => {
            assert(first_non_alnum(t@) == Some(f as nat));
            if t[f] != 10 {
                return Some(Parsed::Error);
            }
            let u = slice_subrange(t, f + 1, t.len());
            assert(u@ =~= t@.skip(f + 1));
            proof {
                lemma_headers_len(u@);
            }
            match headers(u) {
                Parsed::Error => Some(Parsed::Error),
                Parsed::Incomplete(k) => Some(Parsed::Incomplete(k)),
                Parsed::Done(m, hs) => {
                    let blen = match body_length(&hs) {
                        Some(n) => n,
                        None => {
                            return None;
                        },
                    };
                    let v = slice_subrange(u, m, u.len());
                    assert(v@ =~= u@.skip(m as int));
                    if v.len() < blen {
                        return Some(Parsed::Incomplete(blen));
                    }
                    let w = slice_subrange(v, blen, v.len());
                    assert(w@ =~= v@.skip(blen as int));
                    if w.len() == 0 {
                        return Some(Parsed::Incomplete(1));
                    }
                    let nul: usize = if w[0] == 0 {
                        1
                    } else {
                        0
                    };
                    let frame_type = slice_to_vec(slice_subrange(t, 0, f));
                    let body = slice_to_vec(slice_subrange(v, 0, blen));
                    assert(frame_type@ =~= t@.take(f as int));
                    assert(body@ =~= v@.take(blen as int));
                    let frame = IP2 {
                        frame_type,
                        body_type: todo_vec(),
                        port: todo_vec(),
                        headers: hs,
                        body,
                    };
                    Some(Parsed::Done(f + m + blen + 2 + nul, frame))
                },
            }
        },
    }
}

/// Parses one frame from the bytes that have arrived so far.
pub fn frame_full(s: &[u8]) -> (res: Parsed<IP2>)
    requires
        !frame_full_panics(s@),
    ensures
        match spec_frame_full(s@) {
            Parsed::Done(n, f) => res matches Parsed::Done(m, v) && m == n && v@ == f,
            Parsed::Incomplete(k) => res == Parsed::<IP2>::Incomplete(k),
            Parsed::Error => res is Error,
        },
{
    match try_frame_full(s) {
        Some(r) => r,
        None => Parsed::Error,
    }
}

} // verus!
