//! The request model and the parser that reads it from raw bytes.

use vstd::prelude::*;
use vstd::utf8::{encode_utf8, valid_utf8};
use crate::bytes::{
    bytes_eq_ignore_case, eq_ignore_case, find_bytes, is_space, is_space_byte, find_from, lemma_find_from, lower, matches_at,
    parse_decimal, parse_usize, starts_with,
};

verus! {

/// Carriage return and line feed: the line terminator.
pub open spec fn crlf() -> Seq<u8> {
    seq![13u8, 10u8]
}

/// The separator between a header's name and its value.
pub open spec fn colon_sp() -> Seq<u8> {
    seq![58u8, 32u8]
}

/// A single space: the separator inside the request line.
pub open spec fn sp() -> Seq<u8> {
    seq![32u8]
}

/// `s` without its trailing carriage returns and line feeds.
pub open spec fn trim_end_crlf(s: Seq<u8>) -> Seq<u8>
    decreases s.len(),
{
    if s.len() > 0 && (s.last() == 13u8 || s.last() == 10u8) {
        trim_end_crlf(s.drop_last())
    } else {
        s
    }
}

/// The header that a line (without its terminator) holds, given the index of
/// its first `": "`.
pub open spec fn header_of(line: Seq<u8>, k: int) -> (Seq<u8>, Seq<u8>) {
    (line.subrange(0, k), trim_end_crlf(line.subrange(k + 2, line.len() as int)))
}

/// The outcome of reading header lines.
pub enum HeaderScan {
    /// The headers and the index just past the blank line.
    Done(Seq<(Seq<u8>, Seq<u8>)>, int),
    Incomplete,
    Malformed,
}

/// Reads header lines of `s` from `pos` up to and including the first empty
/// line.
pub open spec fn scan_headers(s: Seq<u8>, pos: int) -> HeaderScan
    decreases s.len() + 1 - pos,
{
    if pos < 0 || pos > s.len() {
        HeaderScan::Incomplete
    } else {
        match find_from(s, crlf(), pos) {
            None => HeaderScan::Incomplete,
            Some(e) => if e < pos || e + 2 > s.len() {
                HeaderScan::Incomplete
            } else if e == pos {
                HeaderScan::Done(seq![], pos + 2)
            } else {
                let line = s.subrange(pos, e);
                match find_from(line, colon_sp(), 0) {
                    None => HeaderScan::Malformed,
                    Some(k) => prepend_header(header_of(line, k), scan_headers(s, e + 2)),
                }
            },
        }
    }
}

/// Puts one header in front of the headers that a scan found.
pub open spec fn prepend_header(h: (Seq<u8>, Seq<u8>), r: HeaderScan) -> HeaderScan {
    prepend_headers(seq![h], r)
}

/// Puts headers in front of the headers that a scan found.
pub open spec fn prepend_headers(hs: Seq<(Seq<u8>, Seq<u8>)>, r: HeaderScan) -> HeaderScan {
    match r {
        HeaderScan::Done(rest, end) => HeaderScan::Done(hs + rest, end),
        other => other,
    }
}

/// The index of the first header whose name equals `name` up to ASCII case,
/// at or after `i`.
pub open spec fn first_named(h: Seq<(Seq<u8>, Seq<u8>)>, name: Seq<u8>, i: int) -> Option<int>
    decreases h.len() - i,
{
    if i < 0 || i >= h.len() {
        None
    } else if eq_ignore_case(h[i].0, name) {
        Some(i)
    } else {
        first_named(h, name, i + 1)
    }
}

/// The value of the first header named `name`, up to ASCII case.
pub open spec fn lookup(h: Seq<(Seq<u8>, Seq<u8>)>, name: Seq<u8>) -> Option<Seq<u8>> {
    match first_named(h, name, 0) {
        Some(i) => Some(h[i].1),
        None => None,
    }
}

/// `content-length`
pub open spec fn content_length_name() -> Seq<u8> {
    seq![99u8, 111, 110, 116, 101, 110, 116, 45, 108, 101, 110, 103, 116, 104]
}

/// `user-agent`
pub open spec fn user_agent_name() -> Seq<u8> {
    seq![117u8, 115, 101, 114, 45, 97, 103, 101, 110, 116]
}

/// The body length that the headers declare: the first `Content-Length`
/// header's value, or 0 where it is absent or is no decimal number that fits
/// in a `usize`.
pub open spec fn declared_length(h: Seq<(Seq<u8>, Seq<u8>)>) -> nat {
    match lookup(h, content_length_name()) {
        Some(v) => match parse_usize(v) {
            Some(n) => n,
            None => 0,
        },
        None => 0,
    }
}

/// The value of the `User-Agent` header, or the empty string.
pub open spec fn user_agent_of(h: Seq<(Seq<u8>, Seq<u8>)>) -> Seq<u8> {
    match lookup(h, user_agent_name()) {
        Some(v) => v,
        None => seq![],
    }
}

/// The request line and headers of a request, and where its body starts.
pub struct Head {
    pub method: Seq<u8>,
    pub path: Seq<u8>,
    pub version: Seq<u8>,
    pub headers: Seq<(Seq<u8>, Seq<u8>)>,
    pub end: int,
}

/// The outcome of reading the request line and headers.
pub enum HeadScan {
    Head(Head),
    Incomplete,
    Malformed,
}

/// The index of the first byte at or after `i` that is not white space.
pub open spec fn skip_space(s: Seq<u8>, i: int) -> int
    decreases s.len() - i,
{
    if 0 <= i < s.len() && is_space(s[i]) {
        skip_space(s, i + 1)
    } else {
        i
    }
}

/// The index of the first white-space byte at or after `i`, or the length.
pub open spec fn word_end(s: Seq<u8>, i: int) -> int
    decreases s.len() - i,
{
    if 0 <= i < s.len() && !is_space(s[i]) {
        word_end(s, i + 1)
    } else {
        i
    }
}

/// The maximal runs of non-white-space bytes of `s` from index `i` on, in
/// order.
pub open spec fn words_from(s: Seq<u8>, i: int) -> Seq<Seq<u8>>
    decreases s.len() - i,
{
    let a = skip_space(s, i);
    let b = word_end(s, a);
    if i < 0 || a < i || a >= s.len() || b <= a || b > s.len() {
        seq![]
    } else {
        seq![s.subrange(a, b)] + words_from(s, b)
    }
}

/// A request line (without its terminator) split on white space; it must
/// hold exactly three tokens.
pub open spec fn line_tokens(line: Seq<u8>) -> Option<(Seq<u8>, Seq<u8>, Seq<u8>)> {
    let w = words_from(line, 0);
    if w.len() == 3 {
        Some((w[0], w[1], w[2]))
    } else {
        None
    }
}

/// Reads the request line and the headers at the start of `s`.
pub open spec fn scan_head(s: Seq<u8>) -> HeadScan {
    match find_from(s, crlf(), 0) {
        None => HeadScan::Incomplete,
        Some(e) => match line_tokens(s.subrange(0, e)) {
            None => HeadScan::Malformed,
            Some(t) => match scan_headers(s, e + 2) {
                HeaderScan::Done(h, end) => HeadScan::Head(
                    Head { method: t.0, path: t.1, version: t.2, headers: h, end },
                ),
                HeaderScan::Incomplete => HeadScan::Incomplete,
                HeaderScan::Malformed => HeadScan::Malformed,
            },
        },
    }
}

/// Every name and value of the headers is valid UTF-8.
pub open spec fn headers_are_utf8(h: Seq<(Seq<u8>, Seq<u8>)>) -> bool {
    forall|i: int| 0 <= i < h.len() ==> valid_utf8(#[trigger] h[i].0) && valid_utf8(h[i].1)
}

/// Every text field of a head is valid UTF-8.
pub open spec fn head_is_utf8(h: Head) -> bool {
    &&& valid_utf8(h.method)
    &&& valid_utf8(h.path)
    &&& valid_utf8(h.version)
    &&& headers_are_utf8(h.headers)
}

/// A request as bytes: each text field as its UTF-8 encoding.
pub struct RequestView {
    pub method: Seq<u8>,
    pub path: Seq<u8>,
    pub version: Seq<u8>,
    pub headers: Seq<(Seq<u8>, Seq<u8>)>,
    pub user_agent: Seq<u8>,
    pub body: Seq<u8>,
}

/// What reading a request from the bytes received so far gives.
pub enum Parsed {
    Complete(RequestView),
    Incomplete,
    Malformed,
}

/// The request that the bytes `s` hold.
///
/// The request line and headers come first; a line that is not three
/// space-separated tokens, a header line without `": "`, or a text field that
/// is not UTF-8 makes the request malformed. The body is exactly the declared
/// number of bytes after the blank line: while fewer have arrived the request
/// is incomplete, and bytes beyond it are ignored.
pub open spec fn parse_spec(s: Seq<u8>) -> Parsed {
    match scan_head(s) {
        HeadScan::Incomplete => Parsed::Incomplete,
        HeadScan::Malformed => Parsed::Malformed,
        HeadScan::Head(h) => if !head_is_utf8(h) {
            Parsed::Malformed
        } else if s.len() < h.end + declared_length(h.headers) {
            Parsed::Incomplete
        } else {
            Parsed::Complete(
                RequestView {
                    method: h.method,
                    path: h.path,
                    version: h.version,
                    headers: h.headers,
                    user_agent: user_agent_of(h.headers),
                    body: s.subrange(h.end, h.end + declared_length(h.headers)),
                },
            )
        },
    }
}

/// Headers of strings, seen as bytes.
pub open spec fn headers_view(h: Seq<(String, String)>) -> Seq<(Seq<u8>, Seq<u8>)> {
    h.map_values(|p: (String, String)| (encode_utf8(p.0@), encode_utf8(p.1@)))
}

/// Headers of byte vectors, seen as byte strings.
pub open spec fn byte_headers_view(h: Seq<(Vec<u8>, Vec<u8>)>) -> Seq<(Seq<u8>, Seq<u8>)> {
    h.map_values(|p: (Vec<u8>, Vec<u8>)| (p.0@, p.1@))
}

proof fn lemma_prepend_assoc(a: Seq<(Seq<u8>, Seq<u8>)>, b: Seq<(Seq<u8>, Seq<u8>)>, r: HeaderScan)
    ensures
        prepend_headers(a, prepend_headers(b, r)) == prepend_headers(a + b, r),
{
    match r {
        HeaderScan::Done(rest, end) => {
            assert(a + (b + rest) =~= (a + b) + rest);
        },
        _ => {},
    }
}

/// Relies on `String::from_utf8`: it accepts exactly the valid UTF-8 byte
/// strings, and the string it builds holds those bytes.
#[verifier::external_body]
fn utf8_string(b: Vec<u8>) -> (r: Option<String>)
    ensures
        match r {
            Some(s) => valid_utf8(b@) && encode_utf8(s@) == b@,
            None => !valid_utf8(b@),
        },
{
    String::from_utf8(b).ok()
}

/// A copy of `s[a..b]`.
pub fn copy_range(s: &[u8], a: usize, b: usize) -> (r: Vec<u8>)
    requires
        a <= b <= s@.len(),
    ensures
        r@ == s@.subrange(a as int, b as int),
{
    let mut r: Vec<u8> = Vec::new();
    let mut i: usize = a;
    while i < b
        invariant
            a <= i <= b <= s@.len(),
            r@ == s@.subrange(a as int, i as int),
        decreases b - i,
    {
        r.push(s[i]);
        i += 1;
        assert(r@ =~= s@.subrange(a as int, i as int));
    }
    r
}

fn crlf_vec() -> (r: Vec<u8>)
    ensures
        r@ == crlf(),
{
    let mut r: Vec<u8> = Vec::new();
    r.push(13);
    r.push(10);
    assert(r@ =~= crlf());
    r
}

fn colon_sp_vec() -> (r: Vec<u8>)
    ensures
        r@ == colon_sp(),
{
    let mut r: Vec<u8> = Vec::new();
    r.push(58);
    r.push(32);
    assert(r@ =~= colon_sp());
    r
}

fn sp_vec() -> (r: Vec<u8>)
    ensures
        r@ == sp(),
{
    let mut r: Vec<u8> = Vec::new();
    r.push(32);
    assert(r@ =~= sp());
    r
}

/// Drops the trailing carriage returns and line feeds of `s`.
fn trim_end_crlf_vec(s: Vec<u8>) -> (r: Vec<u8>)
    ensures
        r@ == trim_end_crlf(s@),
{
    let mut s = s;
    let ghost orig = s@;
    while s.len() > 0 && (s[s.len() - 1] == 13 || s[s.len() - 1] == 10)
        invariant
            trim_end_crlf(s@) == trim_end_crlf(orig),
        decreases s@.len(),
    {
        let ghost before = s@;
        s.pop();
        assert(s@ =~= before.drop_last());
    }
    s
}

proof fn lemma_skip_space(s: Seq<u8>, i: int)
    requires
        0 <= i <= s.len(),
    ensures
        i <= skip_space(s, i) <= s.len(),
        forall|k: int| i <= k < skip_space(s, i) ==> is_space(#[trigger] s[k]),
        skip_space(s, i) < s.len() ==> !is_space(s[skip_space(s, i)]),
    decreases s.len() - i,
{
    if i < s.len() && is_space(s[i]) {
        lemma_skip_space(s, i + 1);
    }
}

proof fn lemma_word_end(s: Seq<u8>, i: int)
    requires
        0 <= i <= s.len(),
    ensures
        i <= word_end(s, i) <= s.len(),
        forall|k: int| i <= k < word_end(s, i) ==> !is_space(#[trigger] s[k]),
        word_end(s, i) < s.len() ==> is_space(s[word_end(s, i)]),
    decreases s.len() - i,
{
    if i < s.len() && !is_space(s[i]) {
        lemma_word_end(s, i + 1);
    }
}

/// Splits a request line on white space into its words.
fn split_words(line: &[u8]) -> (r: Vec<Vec<u8>>)
    ensures
        r@.map_values(|w: Vec<u8>| w@) == words_from(line@, 0),
{
    let n = line.len();
    let mut out: Vec<Vec<u8>> = Vec::new();
    let mut pos: usize = 0;
    loop
        invariant
            n == line@.len(),
            pos <= n,
            words_from(line@, 0) == out@.map_values(|w: Vec<u8>| w@) + words_from(line@, pos as int),
        decreases n - pos,
    {
        let mut a: usize = pos;
        while a < n && is_space_byte(line[a])
            invariant
                n == line@.len(),
                pos <= a <= n,
                skip_space(line@, pos as int) == skip_space(line@, a as int),
            decreases n - a,
        {
            a += 1;
        }
        if a >= n {
            assert(out@.map_values(|w: Vec<u8>| w@) + seq![] =~= out@.map_values(|w: Vec<u8>| w@));
            return out;
        }
        let mut b: usize = a;
        while b < n && !is_space_byte(line[b])
            invariant
                n == line@.len(),
                a <= b <= n,
                word_end(line@, a as int) == word_end(line@, b as int),
            decreases n - b,
        {
            b += 1;
        }
        let ghost before = out@.map_values(|w: Vec<u8>| w@);
        out.push(copy_range(line, a, b));
        assert(out@.map_values(|w: Vec<u8>| w@) =~= before + seq![line@.subrange(a as int, b as int)]);
        assert(before + (seq![line@.subrange(a as int, b as int)] + words_from(line@, b as int))
            =~= (before + seq![line@.subrange(a as int, b as int)]) + words_from(line@, b as int));
        pos = b;
    }
}

/// Splits a request line into its three tokens.
fn split_line(line: &[u8]) -> (r: Option<(Vec<u8>, Vec<u8>, Vec<u8>)>)
    ensures
        match r {
            Some(t) => line_tokens(line@) == Some((t.0@, t.1@, t.2@)),
            None => line_tokens(line@) is None,
        },
{
    let mut w = split_words(line);
    if w.len() != 3 {
        return None;
    }
    let ghost wv = w@.map_values(|x: Vec<u8>| x@);
    assert(wv[0] == w@[0]@ && wv[1] == w@[1]@ && wv[2] == w@[2]@);
    let c = w.pop().unwrap();
    let b = w.pop().unwrap();
    let a = w.pop().unwrap();
    Some((a, b, c))
}

enum HeaderLines {
    Done(Vec<(Vec<u8>, Vec<u8>)>, usize),
    Incomplete,
    Malformed,
}

/// Reads header lines from `start` up to the first empty line.
fn scan_header_lines(s: &[u8], start: usize) -> (r: HeaderLines)
    requires
        start <= s@.len(),
    ensures
        match r {
            HeaderLines::Done(h, end) => scan_headers(s@, start as int) == HeaderScan::Done(
                byte_headers_view(h@),
                end as int,
            ),
            HeaderLines::Incomplete => scan_headers(s@, start as int) is Incomplete,
            HeaderLines::Malformed => scan_headers(s@, start as int) is Malformed,
        },
{
    let term = crlf_vec();
    let sep = colon_sp_vec();
    let mut acc: Vec<(Vec<u8>, Vec<u8>)> = Vec::new();
    let mut pos: usize = start;
    let n = s.len();
    loop
        invariant
            n == s@.len(),
            pos <= s@.len(),
            term@ == crlf(),
            sep@ == colon_sp(),
            scan_headers(s@, start as int) == prepend_headers(
                byte_headers_view(acc@),
                scan_headers(s@, pos as int),
            ),
        decreases s@.len() - pos,
    {
        let e = match find_bytes(s, term.as_slice(), pos) {
            Some(e) => e,
            None => return HeaderLines::Incomplete,
        };
        proof {
            crate::bytes::lemma_find_from(s@, crlf(), pos as int);
        }
        if e == pos {
            assert(byte_headers_view(acc@) + seq![] =~= byte_headers_view(acc@));
            return HeaderLines::Done(acc, pos + 2);
        }
        let line = copy_range(s, pos, e);
        let k = match find_bytes(line.as_slice(), sep.as_slice(), 0) {
            Some(k) => k,
            None => return HeaderLines::Malformed,
        };
        proof {
            crate::bytes::lemma_find_from(line@, colon_sp(), 0);
        }
        let name = copy_range(line.as_slice(), 0, k);
        let value = trim_end_crlf_vec(copy_range(line.as_slice(), k + 2, line.len()));
        let ghost h = header_of(line@, k as int);
        let ghost old_acc = byte_headers_view(acc@);
        acc.push((name, value));
        proof {
            assert(byte_headers_view(acc@) =~= old_acc + seq![h]);
            lemma_prepend_assoc(old_acc, seq![h], scan_headers(s@, e + 2));
        }
        pos = e + 2;
    }
}

/// On a complete scan the end lies past the start and within the bytes.
proof fn lemma_scan_headers_end(s: Seq<u8>, pos: int)
    ensures
        scan_headers(s, pos) matches HeaderScan::Done(_, end) ==> pos + 2 <= end <= s.len(),
    decreases s.len() + 1 - pos,
{
    if 0 <= pos <= s.len() {
        if let Some(e) = find_from(s, crlf(), pos) {
            if pos < e && e + 2 <= s.len() {
                lemma_scan_headers_end(s, e + 2);
            }
        }
    }
}

/// Turns header byte strings into strings; fails where one is not UTF-8.
fn header_strings(hb: &Vec<(Vec<u8>, Vec<u8>)>) -> (r: Option<Vec<(String, String)>>)
    ensures
        match r {
            Some(h) => headers_view(h@) == byte_headers_view(hb@) && forall|i: int|
                0 <= i < hb@.len() ==> valid_utf8(#[trigger] hb@[i].0@) && valid_utf8(
                    hb@[i].1@,
                ),
            None => !(forall|i: int|
                0 <= i < hb@.len() ==> valid_utf8(#[trigger] hb@[i].0@) && valid_utf8(
                    hb@[i].1@,
                )),
        },
{
    let mut out: Vec<(String, String)> = Vec::new();
    let mut i: usize = 0;
    while i < hb.len()
        invariant
            i <= hb@.len(),
            out@.len() == i,
            forall|j: int|
                0 <= j < i ==> valid_utf8(#[trigger] hb@[j].0@) && valid_utf8(hb@[j].1@)
                    && encode_utf8(out@[j].0@) == hb@[j].0@ && encode_utf8(out@[j].1@)
                    == hb@[j].1@,
        decreases hb@.len() - i,
    {
        let name = match utf8_string(copy_range(hb[i].0.as_slice(), 0, hb[i].0.len())) {
            Some(x) => x,
            None => {
                assert(hb@[i as int].0@.subrange(0, hb@[i as int].0@.len() as int) =~= hb@[i as int].0@);
                return None;
            },
        };
        let value = match utf8_string(copy_range(hb[i].1.as_slice(), 0, hb[i].1.len())) {
            Some(x) => x,
            None => {
                assert(hb@[i as int].1@.subrange(0, hb@[i as int].1@.len() as int) =~= hb@[i as int].1@);
                return None;
            },
        };
        assert(hb@[i as int].0@.subrange(0, hb@[i as int].0@.len() as int) =~= hb@[i as int].0@);
        assert(hb@[i as int].1@.subrange(0, hb@[i as int].1@.len() as int) =~= hb@[i as int].1@);
        out.push((name, value));
        i += 1;
    }
    assert(headers_view(out@) =~= byte_headers_view(hb@));
    Some(out)
}

/// The index of the first header named `name`, up to ASCII case.
fn find_header(h: &Vec<(String, String)>, name: &[u8]) -> (r: Option<usize>)
    ensures
        match r {
            Some(i) => i < h@.len() && first_named(headers_view(h@), name@, 0) == Some(i as int),
            None => first_named(headers_view(h@), name@, 0) is None,
        },
{
    let ghost hv = headers_view(h@);
    let mut i: usize = 0;
    while i < h.len()
        invariant
            hv == headers_view(h@),
            i <= h@.len(),
            first_named(hv, name@, 0) == first_named(hv, name@, i as int),
        decreases h@.len() - i,
    {
        if bytes_eq_ignore_case(h[i].0.as_str().as_bytes(), name) {
            return Some(i);
        }
        i += 1;
    }
    None
}

fn content_length_vec() -> (r: Vec<u8>)
    ensures
        r@ == content_length_name(),
{
    let mut r: Vec<u8> = Vec::new();
    r.push(99);
    r.push(111);
    r.push(110);
    r.push(116);
    r.push(101);
    r.push(110);
    r.push(116);
    r.push(45);
    r.push(108);
    r.push(101);
    r.push(110);
    r.push(103);
    r.push(116);
    r.push(104);
    assert(r@ =~= content_length_name());
    r
}

fn user_agent_vec() -> (r: Vec<u8>)
    ensures
        r@ == user_agent_name(),
{
    let mut r: Vec<u8> = Vec::new();
    r.push(117);
    r.push(115);
    r.push(101);
    r.push(114);
    r.push(45);
    r.push(97);
    r.push(103);
    r.push(101);
    r.push(110);
    r.push(116);
    assert(r@ =~= user_agent_name());
    r
}

/// One HTTP request: its request line, its headers in the order received,
/// the `User-Agent` value, and its body.
pub struct Request {
    method: String,
    path: String,
    user_agent: String,
    pub version: String,
    pub headers: Vec<(String, String)>,
    body: Vec<u8>,
}

impl View for Request {
    type V = RequestView;

    closed spec fn view(&self) -> RequestView {
        RequestView {
            method: encode_utf8(self.method@),
            path: encode_utf8(self.path@),
            version: encode_utf8(self.version@),
            headers: headers_view(self.headers@),
            user_agent: encode_utf8(self.user_agent@),
            body: self.body@,
        }
    }
}

/// What reading a request from the bytes received so far gives.
pub enum ParseOutcome {
    /// A whole request.
    Complete(Request),
    /// The bytes so far are the start of a request; more must come.
    Incomplete,
    /// The bytes can start no request.
    Malformed,
}

impl Request {
    /// A request of the given parts.
    pub fn new(
        method: String,
        path: String,
        user_agent: String,
        version: String,
        headers: Vec<(String, String)>,
        body: Vec<u8>,
    ) -> (r: Self)
        ensures
            r@ == (RequestView {
                method: encode_utf8(method@),
                path: encode_utf8(path@),
                version: encode_utf8(version@),
                headers: headers_view(headers@),
                user_agent: encode_utf8(user_agent@),
                body: body@,
            }),
    {
        Request { method, path, user_agent, version, headers, body }
    }

    /// Reads a request from the bytes received on a connection so far.
    pub fn parse(data: &[u8]) -> (r: ParseOutcome)
        ensures
            match r {
                ParseOutcome::Complete(req) => parse_spec(data@) == Parsed::Complete(req@),
                ParseOutcome::Incomplete => parse_spec(data@) is Incomplete,
                ParseOutcome::Malformed => parse_spec(data@) is Malformed,
            },
    {
        let term = crlf_vec();
        let e = match find_bytes(data, term.as_slice(), 0) {
            Some(e) => e,
            None => return ParseOutcome::Incomplete,
        };
        proof {
            crate::bytes::lemma_find_from(data@, crlf(), 0);
        }
        let len = data.len();
        assert(e + 2 <= len);
        let line = copy_range(data, 0, e);
        let (m, p, v) = match split_line(line.as_slice()) {
            Some(t) => t,
            None => return ParseOutcome::Malformed,
        };
        let (hb, end) = match scan_header_lines(data, e + 2) {
            HeaderLines::Done(h, end) => (h, end),
            HeaderLines::Incomplete => return ParseOutcome::Incomplete,
            HeaderLines::Malformed => return ParseOutcome::Malformed,
        };
        proof {
            lemma_scan_headers_end(data@, e + 2);
        }
        let ghost head = Head {
            method: m@,
            path: p@,
            version: v@,
            headers: byte_headers_view(hb@),
            end: end as int,
        };
        assert(scan_head(data@) == HeadScan::Head(head));
        let method = match utf8_string(m) {
            Some(x) => x,
            None => return ParseOutcome::Malformed,
        };
        let path = match utf8_string(p) {
            Some(x) => x,
            None => return ParseOutcome::Malformed,
        };
        let version = match utf8_string(v) {
            Some(x) => x,
            None => return ParseOutcome::Malformed,
        };
        let headers = match header_strings(&hb) {
            Some(h) => h,
            None => {
                proof {
                    if head_is_utf8(head) {
                        assert forall|i: int| 0 <= i < hb@.len() implies valid_utf8(
                            #[trigger] hb@[i].0@,
                        ) && valid_utf8(hb@[i].1@) by {
                            assert(head.headers.len() == hb@.len());
                            assert(head.headers[i] == (hb@[i].0@, hb@[i].1@));
                            assert(valid_utf8(head.headers[i].0) && valid_utf8(head.headers[i].1));
                        }
                    }
                }
                return ParseOutcome::Malformed;
            },
        };
        assert(head_is_utf8(head));
        let cl = content_length_vec();
        let n: usize = match find_header(&headers, cl.as_slice()) {
            Some(i) => match parse_decimal(headers[i].1.as_str().as_bytes()) {
                Some(n) => n,
                None => 0,
            },
            None => 0,
        };
        assert(n as nat == declared_length(head.headers));
        if n > data.len() - end {
            return ParseOutcome::Incomplete;
        }
        let body = copy_range(data, end, end + n);
        let ua = user_agent_vec();
        let user_agent = match find_header(&headers, ua.as_slice()) {
            Some(i) => headers[i].1.clone(),
            None => {
                let s = String::new();
                assert(encode_utf8(s@) =~= seq![]);
                s
            },
        };
        let req = Request::new(method, path, user_agent, version, headers, body);
        ParseOutcome::Complete(req)
    }

    /// The method token.
    pub fn method(&self) -> (r: &String)
        ensures
            encode_utf8(r@) == self@.method,
    {
        &self.method
    }

    /// The request target, as received.
    pub fn path(&self) -> (r: &String)
        ensures
            encode_utf8(r@) == self@.path,
    {
        &self.path
    }

    /// The `User-Agent` header's value, or the empty string.
    pub fn user_agent(&self) -> (r: &String)
        ensures
            encode_utf8(r@) == self@.user_agent,
    {
        &self.user_agent
    }

    /// The body bytes.
    pub fn body(&self) -> (r: &Vec<u8>)
        ensures
            r@ == self@.body,
    {
        &self.body
    }

    /// The value of the first header named `name`, ignoring ASCII case.
    pub fn header(&self, name: &str) -> (r: Option<String>)
        ensures
            match r {
                Some(v) => lookup(self@.headers, encode_utf8(name@)) == Some(encode_utf8(v@)),
                None => lookup(self@.headers, encode_utf8(name@)) is None,
            },
    {
        match find_header(&self.headers, name.as_bytes()) {
            Some(i) => Some(self.headers[i].1.clone()),
            None => None,
        }
    }
}

/// A non-empty token without white space.
pub open spec fn is_token(w: Seq<u8>) -> bool {
    w.len() > 0 && forall|k: int| 0 <= k < w.len() ==> !is_space(#[trigger] w[k])
}

/// A request line: method, path and version separated by single spaces,
/// without its terminator.
pub open spec fn request_line(m: Seq<u8>, p: Seq<u8>, v: Seq<u8>) -> Seq<u8> {
    m + sp() + p + sp() + v
}

proof fn lemma_word_end_at(s: Seq<u8>, i: int, j: int)
    requires
        0 <= i <= j <= s.len(),
        forall|k: int| i <= k < j ==> !is_space(#[trigger] s[k]),
        j == s.len() || is_space(s[j]),
    ensures
        word_end(s, i) == j,
    decreases j - i,
{
    if i < j {
        lemma_word_end_at(s, i + 1, j);
    }
}

/// The words of `s` from `i` on, where a token sits at `i` and is followed
/// by the end or by a single space.
proof fn lemma_words_step(s: Seq<u8>, i: int, w: Seq<u8>)
    requires
        0 <= i,
        i + w.len() <= s.len(),
        is_token(w),
        s.subrange(i, i + w.len()) == w,
        i + w.len() == s.len() || is_space(s[i + w.len()]),
    ensures
        words_from(s, i) == seq![w] + words_from(s, i + w.len()),
{
    assert(s[i] == s.subrange(i, i + w.len())[0]);
    assert forall|k: int| i <= k < i + w.len() implies !is_space(#[trigger] s[k]) by {
        assert(s[k] == s.subrange(i, i + w.len())[k - i]);
    }
    lemma_word_end_at(s, i, i + w.len());
}

/// Writing three tokens as a request line and splitting it again on white
/// space gives back the same three tokens.
pub proof fn lemma_request_line_round_trip(m: Seq<u8>, p: Seq<u8>, v: Seq<u8>)
    requires
        is_token(m),
        is_token(p),
        is_token(v),
    ensures
        line_tokens(request_line(m, p, v)) == Some((m, p, v)),
{
    let l = request_line(m, p, v);
    let i1 = m.len() as int;
    let i2 = i1 + 1 + p.len();
    let n = l.len() as int;
    assert(l.subrange(0, i1) =~= m);
    assert(l[i1] == 32u8);
    assert(l.subrange(i1 + 1, i2) =~= p);
    assert(l[i2] == 32u8);
    assert(l.subrange(i2 + 1, n) =~= v);
    lemma_words_step(l, i2 + 1, v);
    assert(skip_space(l, i2) == skip_space(l, i2 + 1));
    assert(skip_space(l, i2 + 1) == i2 + 1) by {
        assert(l[i2 + 1] == l.subrange(i2 + 1, n)[0]);
    }
    assert(words_from(l, i2) == words_from(l, i2 + 1));
    lemma_words_step(l, i1 + 1, p);
    assert(skip_space(l, i1) == skip_space(l, i1 + 1));
    assert(skip_space(l, i1 + 1) == i1 + 1) by {
        assert(l[i1 + 1] == l.subrange(i1 + 1, i2)[0]);
    }
    assert(words_from(l, i1) == words_from(l, i1 + 1));
    lemma_words_step(l, 0, m);
    assert(words_from(l, n) =~= Seq::<Seq<u8>>::empty());
    assert(words_from(l, 0) =~= seq![m, p, v]);
}

/// The tokens that a request line yields are non-empty and hold no white
/// space.
pub proof fn lemma_line_tokens_are_tokens(line: Seq<u8>)
    requires
        line_tokens(line) is Some,
    ensures
        is_token(line_tokens(line)->Some_0.0),
        is_token(line_tokens(line)->Some_0.1),
        is_token(line_tokens(line)->Some_0.2),
{
    lemma_words_are_tokens(line, 0);
}

proof fn lemma_words_are_tokens(s: Seq<u8>, i: int)
    ensures
        forall|j: int| 0 <= j < words_from(s, i).len() ==> is_token(#[trigger] words_from(s, i)[j]),
    decreases s.len() - i,
{
    let a = skip_space(s, i);
    let b = word_end(s, a);
    if !(i < 0 || a < i || a >= s.len() || b <= a || b > s.len()) {
        lemma_word_end(s, a);
        lemma_words_are_tokens(s, b);
        let w = s.subrange(a, b);
        assert forall|k: int| 0 <= k < w.len() implies !is_space(#[trigger] w[k]) by {
            assert(w[k] == s[a + k]);
        }
        let ws = words_from(s, i);
        assert forall|j: int| 0 <= j < ws.len() implies is_token(#[trigger] ws[j]) by {
            if j > 0 {
                assert(ws[j] == words_from(s, b)[j - 1]);
            }
        }
    }
}

proof fn lemma_first_named_ignores_case(
    h: Seq<(Seq<u8>, Seq<u8>)>,
    a: Seq<u8>,
    b: Seq<u8>,
    i: int,
)
    requires
        eq_ignore_case(a, b),
    ensures
        first_named(h, a, i) == first_named(h, b, i),
    decreases h.len() - i,
{
    if 0 <= i < h.len() {
        let x = h[i].0;
        if eq_ignore_case(x, a) {
            assert forall|k: int| 0 <= k < x.len() implies lower(#[trigger] x[k]) == lower(b[k]) by {
                assert(lower(x[k]) == lower(a[k]));
                assert(lower(a[k]) == lower(b[k]));
            }
        }
        if eq_ignore_case(x, b) {
            assert forall|k: int| 0 <= k < x.len() implies lower(#[trigger] x[k]) == lower(a[k]) by {
                assert(lower(x[k]) == lower(b[k]));
                assert(lower(a[k]) == lower(b[k]));
            }
        }
        lemma_first_named_ignores_case(h, a, b, i + 1);
    }
}

/// Header lookups ignore ASCII case in the name: `Content-Length` and
/// `content-length` find the same value.
pub proof fn lemma_lookup_ignores_case(h: Seq<(Seq<u8>, Seq<u8>)>, a: Seq<u8>, b: Seq<u8>)
    requires
        eq_ignore_case(a, b),
    ensures
        lookup(h, a) == lookup(h, b),
{
    lemma_first_named_ignores_case(h, a, b, 0);
}

proof fn lemma_find_in_prefix(s: Seq<u8>, k: int, pat: Seq<u8>, from: int)
    requires
        0 <= from,
        k <= s.len(),
        find_from(s, pat, from) matches Some(i) && i + pat.len() <= k,
    ensures
        find_from(s.subrange(0, k), pat, from) == find_from(s, pat, from),
    decreases s.len() + 1 - from,
{
    let t = s.subrange(0, k);
    lemma_find_from(s, pat, from);
    if from + pat.len() <= k {
        assert(t.subrange(from, from + pat.len()) =~= s.subrange(from, from + pat.len()));
        if !matches_at(s, pat, from) {
            lemma_find_in_prefix(s, k, pat, from + 1);
        }
    }
}

proof fn lemma_scan_headers_prefix(s: Seq<u8>, k: int, pos: int)
    requires
        k <= s.len(),
        scan_headers(s, pos) matches HeaderScan::Done(_, end) && end <= k,
    ensures
        scan_headers(s.subrange(0, k), pos) == scan_headers(s, pos),
    decreases s.len() + 1 - pos,
{
    let t = s.subrange(0, k);
    let e = find_from(s, crlf(), pos)->Some_0;
    lemma_scan_headers_end(s, pos);
    if e > pos {
        lemma_scan_headers_end(s, e + 2);
        lemma_scan_headers_prefix(s, k, e + 2);
    }
    lemma_find_in_prefix(s, k, crlf(), pos);
    assert(t.subrange(pos, e) =~= s.subrange(pos, e));
}

/// A request whose body has not fully arrived is never complete: every
/// prefix of a complete request that cuts into its body parses as
/// incomplete, so no request is handled with a truncated body.
pub proof fn lemma_truncated_body_incomplete(s: Seq<u8>, k: int)
    requires
        parse_spec(s) is Complete,
        scan_head(s)->Head_0.end <= k < scan_head(s)->Head_0.end + parse_spec(
            s,
        )->Complete_0.body.len(),
    ensures
        parse_spec(s.subrange(0, k)) is Incomplete,
{
    let t = s.subrange(0, k);
    let e = find_from(s, crlf(), 0)->Some_0;
    lemma_find_from(s, crlf(), 0);
    lemma_scan_headers_end(s, e + 2);
    lemma_find_in_prefix(s, k, crlf(), 0);
    assert(t.subrange(0, e) =~= s.subrange(0, e));
    lemma_scan_headers_prefix(s, k, e + 2);
}

/// A complete request's body is exactly the declared number of bytes that
/// follow the blank line.
pub proof fn lemma_body_is_declared_length(s: Seq<u8>)
    requires
        parse_spec(s) is Complete,
    ensures
        parse_spec(s)->Complete_0.body.len() == declared_length(parse_spec(s)->Complete_0.headers),
        parse_spec(s)->Complete_0.body == s.subrange(
            scan_head(s)->Head_0.end,
            scan_head(s)->Head_0.end + declared_length(parse_spec(s)->Complete_0.headers),
        ),
{
    let e = find_from(s, crlf(), 0)->Some_0;
    lemma_find_from(s, crlf(), 0);
    lemma_scan_headers_end(s, e + 2);
}

proof fn lemma_find_first_at(s: Seq<u8>, pat: Seq<u8>, from: int, e: int)
    requires
        0 <= from <= e,
        pat.len() > 0,
        matches_at(s, pat, e),
        forall|j: int| from <= j < e ==> s[j] != pat[0],
    ensures
        find_from(s, pat, from) == Some(e),
    decreases e - from,
{
    if from < e {
        assert(s.subrange(from, from + pat.len())[0] == s[from]);
        lemma_find_first_at(s, pat, from + 1, e);
    }
}

/// One header as a line: name, `": "`, value, terminator.
pub open spec fn header_line(x: (Seq<u8>, Seq<u8>)) -> Seq<u8> {
    x.0 + colon_sp() + x.1 + crlf()
}

/// Headers as lines, in order.
pub open spec fn header_lines(h: Seq<(Seq<u8>, Seq<u8>)>) -> Seq<u8>
    decreases h.len(),
{
    if h.len() == 0 {
        Seq::empty()
    } else {
        header_line(h[0]) + header_lines(h.drop_first())
    }
}

/// A request line and headers as they are written before a body.
pub open spec fn head_bytes(
    m: Seq<u8>,
    p: Seq<u8>,
    v: Seq<u8>,
    h: Seq<(Seq<u8>, Seq<u8>)>,
) -> Seq<u8> {
    request_line(m, p, v) + crlf() + header_lines(h) + crlf()
}

/// A header that reads back as written: a non-empty name without `:`,
/// carriage return or line feed, and a value without carriage return or
/// line feed.
pub open spec fn is_plain_header(x: (Seq<u8>, Seq<u8>)) -> bool {
    &&& x.0.len() > 0
    &&& forall|k: int| 0 <= k < x.0.len() ==> #[trigger] x.0[k] != 58u8 && x.0[k] != 13u8 && x.0[k] != 10u8
    &&& forall|k: int| 0 <= k < x.1.len() ==> #[trigger] x.1[k] != 13u8 && x.1[k] != 10u8
}

proof fn lemma_scan_plain_headers(s: Seq<u8>, pos: int, h: Seq<(Seq<u8>, Seq<u8>)>)
    requires
        0 <= pos,
        pos + header_lines(h).len() + 2 <= s.len(),
        s.subrange(pos, pos + header_lines(h).len() + 2) == header_lines(h) + crlf(),
        forall|i: int| 0 <= i < h.len() ==> is_plain_header(#[trigger] h[i]),
    ensures
        scan_headers(s, pos) == HeaderScan::Done(h, pos + header_lines(h).len() + 2),
    decreases h.len(),
{
    let big = header_lines(h) + crlf();
    let n = header_lines(h).len() as int;
    if h.len() == 0 {
        assert(s.subrange(pos, pos + 2) =~= crlf());
        assert(h =~= Seq::<(Seq<u8>, Seq<u8>)>::empty());
    } else {
        let x = h[0];
        let t = h.drop_first();
        assert(is_plain_header(x));
        let line = x.0 + colon_sp() + x.1;
        let e = pos + line.len();
        assert(header_lines(h) =~= line + crlf() + header_lines(t));
        assert forall|j: int| pos <= j < e implies s[j] != 13u8 by {
            assert(s[j] == big[j - pos]);
            assert(big[j - pos] == line[j - pos]);
            if j - pos < x.0.len() {
                assert(line[j - pos] == x.0[j - pos]);
            } else if j - pos >= x.0.len() + 2 {
                assert(line[j - pos] == x.1[j - pos - x.0.len() - 2]);
            }
        }
        assert(s.subrange(e, e + 2) =~= big.subrange(line.len() as int, line.len() as int + 2));
        assert(s.subrange(e, e + 2) =~= crlf());
        lemma_find_first_at(s, crlf(), pos, e);
        assert(s.subrange(pos, e) =~= line);
        assert forall|j: int| 0 <= j < x.0.len() implies line[j] != 58u8 by {
            assert(line[j] == x.0[j]);
        }
        assert(line.subrange(x.0.len() as int, x.0.len() as int + 2) =~= colon_sp());
        lemma_find_first_at(line, colon_sp(), 0, x.0.len() as int);
        assert(line.subrange(0, x.0.len() as int) =~= x.0);
        assert(line.subrange(x.0.len() as int + 2, line.len() as int) =~= x.1);
        if x.1.len() > 0 {
            assert(x.1.last() == x.1[x.1.len() - 1]);
        }
        assert(trim_end_crlf(x.1) == x.1);
        assert(header_of(line, x.0.len() as int) == x);
        let nt = header_lines(t).len() as int;
        assert(s.subrange(e + 2, e + 2 + nt + 2) =~= big.subrange(line.len() as int + 2, n + 2));
        assert(big.subrange(line.len() as int + 2, n + 2) =~= header_lines(t) + crlf());
        assert forall|i: int| 0 <= i < t.len() implies is_plain_header(#[trigger] t[i]) by {
            assert(t[i] == h[i + 1]);
        }
        lemma_scan_plain_headers(s, e + 2, t);
        assert(seq![x] + t =~= h);
    }
}

/// A request written as a request line of three tokens, plain headers, a
/// blank line and a body of the declared length parses back to exactly that
/// method, path, version, those headers and that body.
pub proof fn lemma_head_round_trip(
    m: Seq<u8>,
    p: Seq<u8>,
    v: Seq<u8>,
    h: Seq<(Seq<u8>, Seq<u8>)>,
    body: Seq<u8>,
)
    requires
        is_token(m),
        is_token(p),
        is_token(v),
        forall|i: int| 0 <= i < h.len() ==> is_plain_header(#[trigger] h[i]),
        valid_utf8(m) && valid_utf8(p) && valid_utf8(v),
        headers_are_utf8(h),
        body.len() == declared_length(h),
    ensures
        parse_spec(head_bytes(m, p, v, h) + body) == Parsed::Complete(
            RequestView {
                method: m,
                path: p,
                version: v,
                headers: h,
                user_agent: user_agent_of(h),
                body,
            },
        ),
{
    let s = head_bytes(m, p, v, h) + body;
    let rl = request_line(m, p, v);
    let e = rl.len() as int;
    let n = header_lines(h).len() as int;
    assert forall|j: int| 0 <= j < e implies s[j] != 13u8 by {
        assert(s[j] == rl[j]);
        if j < m.len() {
            assert(rl[j] == m[j]);
        } else if m.len() < j < m.len() + 1 + p.len() {
            assert(rl[j] == p[j - m.len() - 1]);
        } else if j > m.len() + 1 + p.len() {
            assert(rl[j] == v[j - m.len() - 2 - p.len()]);
        }
    }
    assert(s.subrange(e, e + 2) =~= crlf());
    lemma_find_first_at(s, crlf(), 0, e);
    assert(s.subrange(0, e) =~= rl);
    lemma_request_line_round_trip(m, p, v);
    assert(s.subrange(e + 2, e + 2 + n + 2) =~= header_lines(h) + crlf());
    lemma_scan_plain_headers(s, e + 2, h);
    let end = e + 2 + n + 2;
    assert(head_bytes(m, p, v, h).len() == end);
    let hd = Head { method: m, path: p, version: v, headers: h, end };
    assert(scan_head(s) == HeadScan::Head(hd));
    assert(head_is_utf8(hd));
    assert(s.subrange(end, end + body.len()) =~= body);
}

proof fn lemma_first_named_same_names(
    h1: Seq<(Seq<u8>, Seq<u8>)>,
    h2: Seq<(Seq<u8>, Seq<u8>)>,
    name: Seq<u8>,
    i: int,
)
    requires
        h1.len() == h2.len(),
        forall|j: int| 0 <= j < h1.len() ==> eq_ignore_case(#[trigger] h1[j].0, h2[j].0),
    ensures
        first_named(h1, name, i) == first_named(h2, name, i),
    decreases h1.len() - i,
{
    if 0 <= i < h1.len() {
        let x = h1[i].0;
        let y = h2[i].0;
        assert(eq_ignore_case(x, y));
        if eq_ignore_case(x, name) {
            assert forall|k: int| 0 <= k < y.len() implies lower(#[trigger] y[k]) == lower(name[k]) by {
                assert(lower(x[k]) == lower(y[k]));
                assert(lower(x[k]) == lower(name[k]));
            }
        }
        if eq_ignore_case(y, name) {
            assert forall|k: int| 0 <= k < x.len() implies lower(#[trigger] x[k]) == lower(name[k]) by {
                assert(lower(x[k]) == lower(y[k]));
                assert(lower(y[k]) == lower(name[k]));
            }
        }
        lemma_first_named_same_names(h1, h2, name, i + 1);
    }
}

proof fn lemma_first_named_range(h: Seq<(Seq<u8>, Seq<u8>)>, name: Seq<u8>, i: int)
    ensures
        first_named(h, name, i) matches Some(j) ==> i <= j < h.len(),
    decreases h.len() - i,
{
    if 0 <= i < h.len() {
        lemma_first_named_range(h, name, i + 1);
    }
}

proof fn lemma_lookup_same_names(
    h1: Seq<(Seq<u8>, Seq<u8>)>,
    h2: Seq<(Seq<u8>, Seq<u8>)>,
    name: Seq<u8>,
)
    requires
        h1.len() == h2.len(),
        forall|j: int|
            0 <= j < h1.len() ==> eq_ignore_case(#[trigger] h1[j].0, h2[j].0) && h1[j].1 == h2[j].1,
    ensures
        lookup(h1, name) == lookup(h2, name),
{
    lemma_first_named_same_names(h1, h2, name, 0);
    lemma_first_named_range(h1, name, 0);
    if let Some(j) = first_named(h1, name, 0) {
        assert(0 <= j < h1.len());
        assert(eq_ignore_case(h1[j].0, h2[j].0) && h1[j].1 == h2[j].1);
    }
}

/// Two requests written alike but for the letter case of header names (for
/// example `Content-Length` against `content-length`) parse to the same
/// method, path, version, `User-Agent` value and body.
pub proof fn lemma_header_name_case_does_not_matter(
    m: Seq<u8>,
    p: Seq<u8>,
    v: Seq<u8>,
    h1: Seq<(Seq<u8>, Seq<u8>)>,
    h2: Seq<(Seq<u8>, Seq<u8>)>,
    body: Seq<u8>,
)
    requires
        is_token(m),
        is_token(p),
        is_token(v),
        forall|i: int| 0 <= i < h1.len() ==> is_plain_header(#[trigger] h1[i]),
        forall|i: int| 0 <= i < h2.len() ==> is_plain_header(#[trigger] h2[i]),
        valid_utf8(m) && valid_utf8(p) && valid_utf8(v),
        headers_are_utf8(h1),
        headers_are_utf8(h2),
        h1.len() == h2.len(),
        forall|j: int|
            0 <= j < h1.len() ==> eq_ignore_case(#[trigger] h1[j].0, h2[j].0) && h1[j].1 == h2[j].1,
        body.len() == declared_length(h1),
    ensures
        parse_spec(head_bytes(m, p, v, h1) + body) is Complete,
        parse_spec(head_bytes(m, p, v, h2) + body) is Complete,
        ({
            let r1 = parse_spec(head_bytes(m, p, v, h1) + body)->Complete_0;
            let r2 = parse_spec(head_bytes(m, p, v, h2) + body)->Complete_0;
            r1.method == r2.method && r1.path == r2.path && r1.version == r2.version
                && r1.user_agent == r2.user_agent && r1.body == r2.body && r1.body == body
        }),
{
    lemma_lookup_same_names(h1, h2, content_length_name());
    lemma_lookup_same_names(h1, h2, user_agent_name());
    assert(declared_length(h1) == declared_length(h2));
    assert(user_agent_of(h1) == user_agent_of(h2));
    lemma_head_round_trip(m, p, v, h1, body);
    lemma_head_round_trip(m, p, v, h2, body);
}

} // verus!
