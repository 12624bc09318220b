//! Parsing of raw HTTP requests at the proxy's edge: the request line, the
//! headers, the body, and the compression capability check. All parsing is
//! specified at the byte level; text is decoded only once the framing is
//! settled.

use vstd::prelude::*;
use vstd::string::StringSliceAdditionalSpecFns;

verus! {

// ---------------------------------------------------------------------------
// Byte helpers.
// ---------------------------------------------------------------------------
/// Whether `needle` matches `hay` at offset `i`.
pub open spec fn sub_at(hay: Seq<u8>, needle: Seq<u8>, i: int) -> bool {
    hay.subrange(i, i + needle.len() as int) == needle
}

/// Whether `needle` occurs in `hay` as a contiguous run.
pub open spec fn contains_sub(hay: Seq<u8>, needle: Seq<u8>) -> bool {
    exists|i: int| 0 <= i <= hay.len() - needle.len() && #[trigger] sub_at(hay, needle, i)
}

/// ASCII lower-casing of one byte.
pub open spec fn lower_byte(b: u8) -> u8 {
    if 65 <= b && b <= 90 {
        (b + 32) as u8
    } else {
        b
    }
}

/// ASCII lower-casing of a byte sequence.
pub open spec fn lower_bytes(s: Seq<u8>) -> Seq<u8> {
    s.map_values(|b: u8| lower_byte(b))
}

/// Whether two byte slices hold the same bytes.
fn bytes_equal(a: &[u8], b: &[u8]) -> (r: bool)
    ensures
        r == (a@ == b@),
{
    let n = a.len();
    if n != b.len() {
        proof {
            if a@ == b@ {
                assert(a@.len() == b@.len());
            }
        }
        return false;
    }
    let mut i: usize = 0;
    while i < n
        invariant
            i <= n,
            n == a@.len(),
            n == b@.len(),
            forall|j: int| 0 <= j < i ==> a@[j] == b@[j],
        decreases n - i,
    {
        if a[i] != b[i] {
            proof {
                if a@ == b@ {
                    assert(a@[i as int] == b@[i as int]);
                }
            }
            return false;
        }
        i = i + 1;
    }
    proof {
        assert(a@ =~= b@);
    }
    true
}

/// Whether `needle` matches `hay` at offset `i`.
fn match_at(hay: &[u8], needle: &[u8], i: usize) -> (r: bool)
    requires
        i + needle@.len() <= hay@.len(),
    ensures
        r == (hay@.subrange(i as int, i as int + needle@.len() as int) == needle@),
{
    let n = needle.len();
    let h = hay.len();
    let ghost sub = hay@.subrange(i as int, i as int + n as int);
    let mut k: usize = 0;
    while k < n
        invariant
            k <= n,
            n == needle@.len(),
            h == hay@.len(),
            i + n <= h,
            sub == hay@.subrange(i as int, i as int + n as int),
            forall|m: int| 0 <= m < k ==> hay@[i + m] == needle@[m],
        decreases n - k,
    {
        if hay[i + k] != needle[k] {
            proof {
                if sub == needle@ {
                    assert(sub[k as int] == needle@[k as int]);
                    assert(sub[k as int] == hay@[i + k]);
                }
            }
            return false;
        }
        k = k + 1;
    }
    proof {
        assert(sub =~= needle@);
    }
    true
}

/// Substring search: whether `needle` occurs anywhere in `hay`.
fn find_sub(hay: &[u8], needle: &[u8]) -> (r: bool)
    ensures
        r == contains_sub(hay@, needle@),
{
    let n = needle.len();
    let h = hay.len();
    if n > h {
        return false;
    }
    if n == 0 {
        proof {
            assert(hay@.subrange(0, 0) =~= needle@);
            assert(sub_at(hay@, needle@, 0));
            assert(contains_sub(hay@, needle@));
        }
        return true;
    }
    let mut i: usize = 0;
    while h - i >= n
        invariant
            1 <= n <= h,
            i <= h,
            h == hay@.len(),
            n == needle@.len(),
            forall|j: int| 0 <= j < i ==> !#[trigger] sub_at(hay@, needle@, j),
        decreases h - i,
    {
        if match_at(hay, needle, i) {
            proof {
                assert(sub_at(hay@, needle@, i as int));
                assert(contains_sub(hay@, needle@));
            }
            return true;
        }
        i = i + 1;
    }
    false
}

/// ASCII lower-casing of a byte slice.
fn to_lower_bytes(s: &[u8]) -> (r: Vec<u8>)
    ensures
        r@ == lower_bytes(s@),
{
    let n = s.len();
    let mut out: Vec<u8> = Vec::new();
    let mut i: usize = 0;
    while i < n
        invariant
            i <= n,
            n == s@.len(),
            out@.len() == i,
            forall|j: int| 0 <= j < i ==> out@[j] == lower_byte(s@[j]),
        decreases n - i,
    {
        let b = s[i];
        if 65 <= b && b <= 90 {
            out.push(b + 32);
        } else {
            out.push(b);
        }
        i = i + 1;
    }
    proof {
        assert(out@ =~= lower_bytes(s@));
    }
    out
}

/// Decoding of owned bytes into text.
///
/// Relies on `String::from_utf8`: it succeeds exactly on valid UTF-8 and the
/// resulting string encodes back to the given bytes.
#[verifier::external_body]
fn bytes_to_string(v: Vec<u8>) -> (r: Option<String>)
    ensures
        (r matches Some(s) ==> vstd::utf8::encode_utf8(s@) == v@),
        r is Some <==> vstd::utf8::valid_utf8(v@),
{
    match String::from_utf8(v) {
        Ok(s) => Some(s),
        Err(_) => None,
    }
}

// ---------------------------------------------------------------------------
// Line and token framing.
// ---------------------------------------------------------------------------
/// First position of `x` at or after `from`, or the length where absent.
pub open spec fn find_byte_from(b: Seq<u8>, x: u8, from: int) -> int
    decreases b.len() - from,
{
    if from >= b.len() {
        b.len() as int
    } else if b[from] == x {
        from
    } else {
        find_byte_from(b, x, from + 1)
    }
}

pub proof fn lemma_find_byte_props(b: Seq<u8>, x: u8, from: int)
    requires
        0 <= from <= b.len(),
    ensures
        from <= find_byte_from(b, x, from) <= b.len(),
        forall|j: int| from <= j < find_byte_from(b, x, from) ==> b[j] != x,
        find_byte_from(b, x, from) < b.len() ==> b[find_byte_from(b, x, from)] == x,
    decreases b.len() - from,
{
    if from < b.len() && b[from] != x {
        lemma_find_byte_props(b, x, from + 1);
    }
}

proof fn lemma_find_byte_is(b: Seq<u8>, x: u8, from: int, k: int)
    requires
        0 <= from <= k <= b.len(),
        forall|j: int| from <= j < k ==> b[j] != x,
        k < b.len() ==> b[k] == x,
    ensures
        find_byte_from(b, x, from) == k,
    decreases k - from,
{
    if from < k {
        lemma_find_byte_is(b, x, from + 1, k);
    }
}

/// A line with its trailing carriage return removed.
pub open spec fn strip_cr(l: Seq<u8>) -> Seq<u8> {
    if l.len() > 0 && l[l.len() - 1] == 13 {
        l.take(l.len() - 1)
    } else {
        l
    }
}

/// The lines of a byte buffer from `from` on: split on line feeds, each line
/// stripped of a trailing carriage return; an empty buffer has no lines.
pub open spec fn spec_lines_from(b: Seq<u8>, from: int) -> Seq<Seq<u8>>
    decreases b.len() - from,
    via spec_lines_from_decreases
{
    if from < 0 || from >= b.len() {
        Seq::<Seq<u8>>::empty()
    } else {
        let e = find_byte_from(b, 10, from);
        if e < b.len() {
            seq![strip_cr(b.subrange(from, e))] + spec_lines_from(b, e + 1)
        } else {
            seq![strip_cr(b.subrange(from, b.len() as int))]
        }
    }
}

#[via_fn]
proof fn spec_lines_from_decreases(b: Seq<u8>, from: int) {
    if !(from < 0 || from >= b.len()) {
        lemma_find_byte_props(b, 10, from);
    }
}

/// The lines of a byte buffer.
pub open spec fn spec_lines(b: Seq<u8>) -> Seq<Seq<u8>> {
    spec_lines_from(b, 0)
}

/// The views of a vector of byte vectors.
pub open spec fn views_of(vs: Seq<Vec<u8>>) -> Seq<Seq<u8>> {
    vs.map_values(|v: Vec<u8>| v@)
}

/// Splits a buffer into its lines.
fn split_lines(buffer: &[u8]) -> (r: Vec<Vec<u8>>)
    ensures
        views_of(r@) == spec_lines(buffer@),
{
    let n = buffer.len();
    let mut lines: Vec<Vec<u8>> = Vec::new();
    let mut pos: usize = 0;
    proof {
        assert(views_of(lines@) + spec_lines_from(buffer@, 0) =~= spec_lines(buffer@));
    }
    while pos < n
        invariant
            n == buffer@.len(),
            pos <= n,
            views_of(lines@) + spec_lines_from(buffer@, pos as int) == spec_lines(buffer@),
        decreases n - pos,
    {
        let ghost lines0 = lines@;
        let mut e: usize = pos;
        while e < n && buffer[e] != 10
            invariant
                pos <= e <= n,
                n == buffer@.len(),
                forall|j: int| pos <= j < e ==> buffer@[j] != 10,
            decreases n - e,
        {
            e = e + 1;
        }
        proof {
            lemma_find_byte_is(buffer@, 10, pos as int, e as int);
        }
        let mut endi: usize = e;
        if endi > pos && buffer[endi - 1] == 13 {
            endi = endi - 1;
        }
        let mut seg: Vec<u8> = Vec::new();
        let mut k: usize = pos;
        while k < endi
            invariant
                pos <= k <= endi,
                endi <= n,
                n == buffer@.len(),
                seg@.len() == k - pos,
                forall|j: int| 0 <= j < seg@.len() ==> seg@[j] == buffer@[pos + j],
            decreases endi - k,
        {
            seg.push(buffer[k]);
            k = k + 1;
        }
        proof {
            assert(seg@ =~= strip_cr(buffer@.subrange(pos as int, e as int)));
        }
        lines.push(seg);
        proof {
            assert(views_of(lines@) =~= views_of(lines0).push(seg@));
            if e < n {
                assert(spec_lines_from(buffer@, pos as int) == seq![
                    strip_cr(buffer@.subrange(pos as int, e as int)),
                ] + spec_lines_from(buffer@, e as int + 1));
            } else {
                assert(spec_lines_from(buffer@, pos as int) == seq![
                    strip_cr(buffer@.subrange(pos as int, n as int)),
                ]);
                assert(spec_lines_from(buffer@, n as int) =~= Seq::<Seq<u8>>::empty());
            }
        }
        if e < n {
            proof {
                assert(views_of(lines0) + spec_lines_from(buffer@, pos as int) =~= views_of(
                    lines@,
                ) + spec_lines_from(buffer@, e as int + 1));
            }
            pos = e + 1;
        } else {
            proof {
                assert(views_of(lines0) + spec_lines_from(buffer@, pos as int) =~= views_of(
                    lines@,
                ) + spec_lines_from(buffer@, n as int));
            }
            pos = n;
        }
    }
    proof {
        assert(spec_lines_from(buffer@, pos as int) =~= Seq::<Seq<u8>>::empty());
        assert(views_of(lines@) + Seq::<Seq<u8>>::empty() =~= views_of(lines@));
    }
    lines
}

/// First position at or after `from` that is not a space, or the length.
pub open spec fn skip_spaces(l: Seq<u8>, from: int) -> int
    decreases l.len() - from,
{
    if from < 0 || from >= l.len() {
        l.len() as int
    } else if l[from] == 32 {
        skip_spaces(l, from + 1)
    } else {
        from
    }
}

proof fn lemma_skip_spaces_props(l: Seq<u8>, from: int)
    requires
        0 <= from <= l.len(),
    ensures
        from <= skip_spaces(l, from) <= l.len(),
        skip_spaces(l, from) < l.len() ==> l[skip_spaces(l, from)] != 32,
        forall|j: int| from <= j < skip_spaces(l, from) ==> l[j] == 32,
    decreases l.len() - from,
{
    if from < l.len() && l[from] == 32 {
        lemma_skip_spaces_props(l, from + 1);
    }
}

proof fn lemma_skip_spaces_is(l: Seq<u8>, from: int, k: int)
    requires
        0 <= from <= k <= l.len(),
        forall|j: int| from <= j < k ==> l[j] == 32,
        k < l.len() ==> l[k] != 32,
    ensures
        skip_spaces(l, from) == k,
    decreases k - from,
{
    if from < k {
        lemma_skip_spaces_is(l, from + 1, k);
    }
}

/// The space-separated tokens of a line from `from` on.
pub open spec fn spec_tokens_from(l: Seq<u8>, from: int) -> Seq<Seq<u8>>
    decreases l.len() - from,
    via spec_tokens_from_decreases
{
    if from < 0 || from >= l.len() {
        Seq::<Seq<u8>>::empty()
    } else {
        let s = skip_spaces(l, from);
        if s >= l.len() {
            Seq::<Seq<u8>>::empty()
        } else {
            let e = find_byte_from(l, 32, s);
            seq![l.subrange(s, e)] + spec_tokens_from(l, e)
        }
    }
}

#[via_fn]
proof fn spec_tokens_from_decreases(l: Seq<u8>, from: int) {
    if !(from < 0 || from >= l.len()) {
        lemma_skip_spaces_props(l, from);
        let s = skip_spaces(l, from);
        if s < l.len() {
            lemma_find_byte_props(l, 32, s);
            let e = find_byte_from(l, 32, s);
            if e == s {
                assert(l[s] == 32);
            }
        }
    }
}

/// The space-separated tokens of a line.
pub open spec fn spec_tokens(l: Seq<u8>) -> Seq<Seq<u8>> {
    spec_tokens_from(l, 0)
}

/// Splits a line into its space-separated tokens.
fn split_tokens(line: &[u8]) -> (r: Vec<Vec<u8>>)
    ensures
        views_of(r@) == spec_tokens(line@),
{
    let n = line.len();
    let mut toks: Vec<Vec<u8>> = Vec::new();
    let mut pos: usize = 0;
    proof {
        assert(views_of(toks@) + spec_tokens_from(line@, 0) =~= spec_tokens(line@));
    }
    while pos < n
        invariant
            n == line@.len(),
            pos <= n,
            views_of(toks@) + spec_tokens_from(line@, pos as int) == spec_tokens(line@),
        decreases n - pos,
    {
        let ghost toks0 = toks@;
        let mut s: usize = pos;
        while s < n && line[s] == 32
            invariant
                pos <= s <= n,
                n == line@.len(),
                forall|j: int| pos <= j < s ==> line@[j] == 32,
            decreases n - s,
        {
            s = s + 1;
        }
        proof {
            lemma_skip_spaces_is(line@, pos as int, s as int);
        }
        if s >= n {
            proof {
                assert(spec_tokens_from(line@, pos as int) =~= Seq::<Seq<u8>>::empty());
                assert(views_of(toks@) + Seq::<Seq<u8>>::empty() =~= views_of(toks@));
            }
            return toks;
        }
        let mut e: usize = s;
        while e < n && line[e] != 32
            invariant
                s <= e <= n,
                n == line@.len(),
                forall|j: int| s <= j < e ==> line@[j] != 32,
            decreases n - e,
        {
            e = e + 1;
        }
        proof {
            lemma_find_byte_is(line@, 32, s as int, e as int);
        }
        let mut seg: Vec<u8> = Vec::new();
        let mut k: usize = s;
        while k < e
            invariant
                s <= k <= e,
                e <= n,
                n == line@.len(),
                seg@.len() == k - s,
                forall|j: int| 0 <= j < seg@.len() ==> seg@[j] == line@[s + j],
            decreases e - k,
        {
            seg.push(line[k]);
            k = k + 1;
        }
        proof {
            assert(seg@ =~= line@.subrange(s as int, e as int));
        }
        toks.push(seg);
        proof {
            assert(views_of(toks@) =~= views_of(toks0).push(seg@));
            assert(spec_tokens_from(line@, pos as int) == seq![line@.subrange(s as int, e as int)]
                + spec_tokens_from(line@, e as int));
            assert(views_of(toks0) + spec_tokens_from(line@, pos as int) =~= views_of(toks@)
                + spec_tokens_from(line@, e as int));
        }
        pos = e;
    }
    proof {
        assert(spec_tokens_from(line@, pos as int) =~= Seq::<Seq<u8>>::empty());
        assert(views_of(toks@) + Seq::<Seq<u8>>::empty() =~= views_of(toks@));
    }
    toks
}

// ---------------------------------------------------------------------------
// Header and body framing.
// ---------------------------------------------------------------------------
/// The header lines of a message: the non-empty lines before the first empty
/// line.
pub open spec fn headers_of(ls: Seq<Seq<u8>>) -> Seq<Seq<u8>>
    decreases ls.len(),
{
    if ls.len() == 0 {
        Seq::<Seq<u8>>::empty()
    } else if ls[0].len() == 0 {
        Seq::<Seq<u8>>::empty()
    } else {
        seq![ls[0]] + headers_of(ls.drop_first())
    }
}

/// The non-empty lines of a message tail, concatenated.
pub open spec fn concat_nonempty(ls: Seq<Seq<u8>>) -> Seq<u8>
    decreases ls.len(),
{
    if ls.len() == 0 {
        Seq::<u8>::empty()
    } else if ls[0].len() == 0 {
        concat_nonempty(ls.drop_first())
    } else {
        ls[0] + concat_nonempty(ls.drop_first())
    }
}

/// The body of a message: the non-empty lines after the first empty line,
/// concatenated.
pub open spec fn body_of(ls: Seq<Seq<u8>>) -> Seq<u8>
    decreases ls.len(),
{
    if ls.len() == 0 {
        Seq::<u8>::empty()
    } else if ls[0].len() == 0 {
        concat_nonempty(ls.drop_first())
    } else {
        body_of(ls.drop_first())
    }
}

/// The bytes of each decoded header.
pub open spec fn header_views(hs: Seq<String>) -> Seq<Seq<u8>> {
    hs.map_values(|h: String| vstd::utf8::encode_utf8(h@))
}

// ---------------------------------------------------------------------------
// Methods, protocol tags and status codes.
// ---------------------------------------------------------------------------
/// The request methods the proxy distinguishes.
#[derive(Debug, Clone, Copy, PartialEq, Eq, Structural)]
pub enum HttpMethod {
    Get,
    Post,
    Put,
    Delete,
    Patch,
    Head,
    Options,
    Unsupported,
}

/// The method named by a request-line token.
pub open spec fn method_of(t: Seq<u8>) -> HttpMethod {
    if t == "GET".spec_bytes() {
        HttpMethod::Get
    } else if t == "POST".spec_bytes() {
        HttpMethod::Post
    } else if t == "PUT".spec_bytes() {
        HttpMethod::Put
    } else if t == "DELETE".spec_bytes() {
        HttpMethod::Delete
    } else if t == "PATCH".spec_bytes() {
        HttpMethod::Patch
    } else if t == "HEAD".spec_bytes() {
        HttpMethod::Head
    } else if t == "OPTIONS".spec_bytes() {
        HttpMethod::Options
    } else {
        HttpMethod::Unsupported
    }
}

impl HttpMethod {
    /// The method named by a request-line token.
    pub fn from_bytes(t: &[u8]) -> (r: HttpMethod)
        ensures
            r == method_of(t@),
    {
        if bytes_equal(t, "GET".as_bytes()) {
            HttpMethod::Get
        } else if bytes_equal(t, "POST".as_bytes()) {
            HttpMethod::Post
        } else if bytes_equal(t, "PUT".as_bytes()) {
            HttpMethod::Put
        } else if bytes_equal(t, "DELETE".as_bytes()) {
            HttpMethod::Delete
        } else if bytes_equal(t, "PATCH".as_bytes()) {
            HttpMethod::Patch
        } else if bytes_equal(t, "HEAD".as_bytes()) {
            HttpMethod::Head
        } else if bytes_equal(t, "OPTIONS".as_bytes()) {
            HttpMethod::Options
        } else {
            HttpMethod::Unsupported
        }
    }

    /// The method named by a request-line token given as text.
    pub fn new(token: &str) -> (r: HttpMethod)
        ensures
            r == method_of(token.spec_bytes()),
    {
        HttpMethod::from_bytes(token.as_bytes())
    }

    /// The request-line spelling of the method.
    pub fn text(&self) -> (r: &'static str)
        ensures
            r@ == match self {
                HttpMethod::Get => "GET"@,
                HttpMethod::Post => "POST"@,
                HttpMethod::Put => "PUT"@,
                HttpMethod::Delete => "DELETE"@,
                HttpMethod::Patch => "PATCH"@,
                HttpMethod::Head => "HEAD"@,
                HttpMethod::Options => "OPTIONS"@,
                HttpMethod::Unsupported => "UNSUPPORTED"@,
            },
    {
        match self {
            HttpMethod::Get => "GET",
            HttpMethod::Post => "POST",
            HttpMethod::Put => "PUT",
            HttpMethod::Delete => "DELETE",
            HttpMethod::Patch => "PATCH",
            HttpMethod::Head => "HEAD",
            HttpMethod::Options => "OPTIONS",
            HttpMethod::Unsupported => "UNSUPPORTED",
        }
    }
}

/// The wire protocol the proxy speaks.
#[derive(Debug, Clone, Copy, PartialEq, Eq, Structural)]
pub enum Protocol {
    Http,
}

impl Protocol {
    /// The protocol tag as written on the status line.
    pub fn text(&self) -> (r: &'static str)
        ensures
            r@ == "HTTP/1.1"@,
    {
        match self {
            Protocol::Http => "HTTP/1.1",
        }
    }
}

/// Content types the proxy can label responses with.
#[derive(Debug, Clone, Copy, PartialEq, Eq, Structural)]
pub enum ContentType {
    Text,
    Html,
    Json,
}

impl ContentType {
    /// The media-type tag as written in a Content-Type header.
    pub fn text(&self) -> (r: &'static str)
        ensures
            r@ == match self {
                ContentType::Text => "text/plain"@,
                ContentType::Html => "text/html"@,
                ContentType::Json => "application/json"@,
            },
    {
        match self {
            ContentType::Text => "text/plain",
            ContentType::Html => "text/html",
            ContentType::Json => "application/json",
        }
    }
}

/// Status codes the proxy answers with.
#[derive(Debug, Clone, Copy, PartialEq, Eq, Structural)]
pub enum HttpCode {
    Okay,
    Created,
    BadRequest,
    Unauthorized,
    NotFound,
    MethodNotAllowed,
    RequestTimeout,
    Teapot,
    InternalServerError,
}

impl HttpCode {
    /// The numeric status code.
    pub fn code(&self) -> (r: u16)
        ensures
            r == match self {
                HttpCode::Okay => 200u16,
                HttpCode::Created => 201u16,
                HttpCode::BadRequest => 400u16,
                HttpCode::Unauthorized => 401u16,
                HttpCode::NotFound => 404u16,
                HttpCode::MethodNotAllowed => 405u16,
                HttpCode::RequestTimeout => 408u16,
                HttpCode::Teapot => 418u16,
                HttpCode::InternalServerError => 500u16,
            },
    {
        match self {
            HttpCode::Okay => 200,
            HttpCode::Created => 201,
            HttpCode::BadRequest => 400,
            HttpCode::Unauthorized => 401,
            HttpCode::NotFound => 404,
            HttpCode::MethodNotAllowed => 405,
            HttpCode::RequestTimeout => 408,
            HttpCode::Teapot => 418,
            HttpCode::InternalServerError => 500,
        }
    }
}

/// One response or request header: a title and its value.
#[derive(Debug, Clone)]
pub struct Header {
    pub title: String,
    pub value: String,
}

impl Header {
    /// The header as written on the wire, title and value separated.
    pub fn text(&self) -> (r: String)
        ensures
            r@ == self.title@ + " : "@ + self.value@,
    {
        let s = self.title.clone();
        let s = s.concat(" : ");
        s.concat(self.value.as_str())
    }
}

/// A lamport clock: a monotone logical timestamp.
#[derive(Debug)]
pub struct Clock {
    lamport_timestamp: i64,
}

impl Clock {
    /// The current logical time.
    pub closed spec fn timestamp(&self) -> int {
        self.lamport_timestamp as int
    }

    /// A clock starting at zero.
    pub fn new() -> (r: Clock)
        ensures
            r.timestamp() == 0,
    {
        Clock { lamport_timestamp: 0 }
    }

    /// Returns the current time and advances the clock by one.
    pub fn increment_time(&mut self) -> (r: i64)
        requires
            old(self).timestamp() < i64::MAX,
        ensures
            r == old(self).timestamp(),
            final(self).timestamp() == old(self).timestamp() + 1,
    {
        let temp: i64 = self.lamport_timestamp;
        self.lamport_timestamp = self.lamport_timestamp + 1;
        temp
    }
}

// ---------------------------------------------------------------------------
// The parsed request.
// ---------------------------------------------------------------------------
/// The URI of a request, with the favicon probe normalized away.
pub open spec fn normalize_uri_bytes(t: Seq<u8>) -> Seq<u8> {
    if t == "/favicon.ico".spec_bytes() {
        "/".spec_bytes()
    } else {
        t
    }
}

/// A parsed HTTP request: the request identifier and client address assigned
/// by the proxy, the decoded headers and body, and the request line's method
/// and URI.
#[derive(Debug)]
pub struct HttpRequest {
    pub request_id: i64,
    pub client_ip: String,
    pub headers: Vec<String>,
    pub body: String,
    pub method: HttpMethod,
    pub uri: String,
}

impl HttpRequest {
    /// Parses a raw request buffer: the first line gives the method and the
    /// URI; the non-empty lines before the first empty line are the headers;
    /// the non-empty lines after it, concatenated, are the body. A buffer of
    /// fewer than three lines, a request line of fewer than two tokens, or a
    /// piece that is not valid UTF-8, is rejected.
    pub fn new(buffer: &[u8], client_ip: String, request_id: i64) -> (r: Result<
        HttpRequest,
        String,
    >)
        ensures
            ({
                let lines = spec_lines(buffer@);
                &&& (lines.len() < 3 ==> (r matches Err(e) && e@ == "Invalid request"@))
                &&& (lines.len() >= 3 && spec_tokens(lines[0]).len() < 2 ==> (r matches Err(e)
                    && e@ == "Invalid request"@))
                &&& (r matches Ok(req) ==> {
                    let toks = spec_tokens(lines[0]);
                    &&& lines.len() >= 3
                    &&& toks.len() >= 2
                    &&& req.request_id == request_id
                    &&& req.client_ip == client_ip
                    &&& req.method == method_of(toks[0])
                    &&& vstd::utf8::encode_utf8(req.uri@) == normalize_uri_bytes(toks[1])
                    &&& header_views(req.headers@) == headers_of(lines.skip(1))
                    &&& vstd::utf8::encode_utf8(req.body@) == body_of(lines.skip(1))
                })
                &&& (({
                    let hs = headers_of(lines.skip(1));
                    &&& lines.len() >= 3
                    &&& spec_tokens(lines[0]).len() >= 2
                    &&& vstd::utf8::valid_utf8(normalize_uri_bytes(spec_tokens(lines[0])[1]))
                    &&& (forall|i: int|
                        0 <= i < hs.len() ==> vstd::utf8::valid_utf8(#[trigger] hs[i]))
                    &&& vstd::utf8::valid_utf8(body_of(lines.skip(1)))
                }) ==> r is Ok)
            }),
    {
        let ghost ls = spec_lines(buffer@);
        let mut lines = split_lines(buffer);
        if lines.len() < 3 {
            return Err("Invalid request".to_owned());
        }
        let mut toks = split_tokens(lines[0].as_slice());
        proof {
            assert(views_of(lines@)[0] == ls[0]);
            assert(views_of(toks@).len() == toks@.len());
            assert(views_of(toks@) == spec_tokens(ls[0]));
        }
        if toks.len() < 2 {
            return Err("Invalid request".to_owned());
        }
        let ghost toks0 = toks@;
        let t0 = toks.remove(0);
        let t1 = toks.remove(0);
        proof {
            assert(t0 == toks0[0]);
            assert(t1 == toks0.remove(0)[0]);
            assert(t1 == toks0[1]);
            assert(views_of(toks0)[0] == toks0[0]@);
            assert(views_of(toks0)[1] == toks0[1]@);
            assert(t0@ == spec_tokens(ls[0])[0]);
            assert(t1@ == spec_tokens(ls[0])[1]);
        }
        let method = HttpMethod::from_bytes(t0.as_slice());
        let uri_vec: Vec<u8> = if bytes_equal(t1.as_slice(), "/favicon.ico".as_bytes()) {
            vstd::slice::slice_to_vec("/".as_bytes())
        } else {
            t1
        };
        proof {
            assert(uri_vec@ == normalize_uri_bytes(spec_tokens(ls[0])[1]));
        }
        let uri: String = match bytes_to_string(uri_vec) {
            Some(s) => s,
            None => {
                proof {
                    assert(!vstd::utf8::valid_utf8(normalize_uri_bytes(spec_tokens(ls[0])[1])));
                }
                return Err("Invalid request".to_owned());
            },
        };
        let mut headers: Vec<String> = Vec::new();
        let mut body_bytes: Vec<u8> = Vec::new();
        let mut flag = false;
        let ghost lines_before = lines@;
        let _ = lines.remove(0);
        proof {
            assert(views_of(lines@) =~= views_of(lines_before).drop_first());
            assert(views_of(lines_before).drop_first() =~= ls.skip(1));
        }
        let ghost mut k: int = 1;
        while lines.len() > 0
            invariant
                ls == spec_lines(buffer@),
                1 <= k <= ls.len(),
                views_of(lines@) == ls.skip(k),
                (!flag ==> headers_of(ls.skip(1)) == header_views(headers@) + headers_of(
                    ls.skip(k),
                ) && body_of(ls.skip(1)) == body_of(ls.skip(k)) && body_bytes@ == Seq::<
                    u8,
                >::empty()),
                (flag ==> headers_of(ls.skip(1)) == header_views(headers@) && body_of(ls.skip(1))
                    == body_bytes@ + concat_nonempty(ls.skip(k))),
            decreases lines@.len(),
        {
            let ghost lines_g = lines@;
            let ghost headers_g = headers@;
            proof {
                assert(views_of(lines_g).len() == lines_g.len());
                assert(ls.skip(k).len() == ls.len() - k);
            }
            let mut line = lines.remove(0);
            proof {
                assert(line@ == ls.skip(k)[0]);
                assert(views_of(lines@) =~= ls.skip(k).drop_first());
                assert(ls.skip(k).drop_first() =~= ls.skip(k + 1));
            }
            if line.len() == 0 {
                flag = true;
            } else if flag {
                body_bytes.append(&mut line);
                proof {
                    assert(concat_nonempty(ls.skip(k)) == ls.skip(k)[0] + concat_nonempty(
                        ls.skip(k + 1),
                    ));
                }
            } else {
                let ghost lv = line@;
                match bytes_to_string(line) {
                    Some(h) => {
                        headers.push(h);
                        proof {
                            assert(headers_of(ls.skip(k)) == seq![ls.skip(k)[0]] + headers_of(
                                ls.skip(k + 1),
                            ));
                            assert(header_views(headers@) =~= header_views(headers_g).push(
                                vstd::utf8::encode_utf8(headers@.last()@),
                            ));
                            assert(header_views(headers_g) + (seq![lv] + headers_of(
                                ls.skip(k + 1),
                            )) =~= header_views(headers@) + headers_of(ls.skip(k + 1)));
                        }
                    },
                    None => {
                        proof {
                            let hs = headers_of(ls.skip(1));
                            let m = header_views(headers_g).len();
                            assert(headers_of(ls.skip(k)) == seq![lv] + headers_of(
                                ls.skip(k + 1),
                            ));
                            assert(hs == header_views(headers_g) + (seq![lv] + headers_of(
                                ls.skip(k + 1),
                            )));
                            assert(hs[m as int] == lv);
                            assert(0 <= m < hs.len());
                            assert(!vstd::utf8::valid_utf8(hs[m as int]));
                        }
                        return Err("Invalid request".to_owned());
                    },
                }
            }
            proof {
                k = k + 1;
            }
        }
        proof {
            assert(ls.skip(k) =~= Seq::<Seq<u8>>::empty());
            assert(headers_of(ls.skip(k)) =~= Seq::<Seq<u8>>::empty());
            assert(concat_nonempty(ls.skip(k)) =~= Seq::<u8>::empty());
            assert(body_of(ls.skip(k)) =~= Seq::<u8>::empty());
            if !flag {
                assert(header_views(headers@) + Seq::<Seq<u8>>::empty() =~= header_views(
                    headers@,
                ));
            } else {
                assert(body_bytes@ + Seq::<u8>::empty() =~= body_bytes@);
            }
            assert(body_of(ls.skip(1)) == body_bytes@);
        }
        let body: String = match bytes_to_string(body_bytes) {
            Some(b) => b,
            None => {
                proof {
                    assert(!vstd::utf8::valid_utf8(body_of(ls.skip(1))));
                }
                return Err("Invalid request".to_owned());
            },
        };
        Ok(HttpRequest { request_id, client_ip, headers, body, method, uri })
    }

    /// Whether a header of the firefox agent is absent and some accept-
    /// encoding header offers gzip: the first header mentioning firefox
    /// declines compression outright; otherwise the first accept-encoding
    /// header that offers gzip accepts it.
    pub fn is_compression_supported(&self) -> (r: bool)
        ensures
            r == compression_decision(header_views(self.headers@)),
    {
        let n = self.headers.len();
        let ghost hs = header_views(self.headers@);
        let mut i: usize = 0;
        proof {
            assert(hs.skip(0) =~= hs);
        }
        while i < n
            invariant
                i <= n,
                n == self.headers@.len(),
                hs == header_views(self.headers@),
                compression_decision(hs) == compression_decision(hs.skip(i as int)),
            decreases n - i,
        {
            proof {
                assert(hs.skip(i as int)[0] == hs[i as int]);
                assert(hs.skip(i as int).drop_first() =~= hs.skip(i as int + 1));
            }
            let lo = to_lower_bytes(self.headers[i].as_str().as_bytes());
            if find_sub(lo.as_slice(), "firefox".as_bytes()) {
                return false;
            }
            if find_sub(lo.as_slice(), "accept-encoding".as_bytes()) {
                if find_sub(lo.as_slice(), ",".as_bytes()) {
                    if find_sub(lo.as_slice(), "gzip".as_bytes()) {
                        return true;
                    }
                } else {
                    let toks = split_tokens(lo.as_slice());
                    if toks.len() >= 2 {
                        if bytes_equal(toks[1].as_slice(), "gzip".as_bytes()) {
                            proof {
                                assert(views_of(toks@)[1] == spec_tokens(lower_bytes(
                                    hs[i as int],
                                ))[1]);
                            }
                            return true;
                        }
                    }
                }
            }
            i = i + 1;
        }
        proof {
            assert(hs.skip(n as int) =~= Seq::<Seq<u8>>::empty());
        }
        false
    }
}

/// Appends a run of bytes.
fn append_bytes(out: &mut Vec<u8>, piece: &[u8])
    ensures
        final(out)@ == old(out)@ + piece@,
{
    let n = piece.len();
    let mut i: usize = 0;
    while i < n
        invariant
            i <= n,
            n == piece@.len(),
            out@.len() == old(out)@.len() + i,
            forall|j: int| 0 <= j < old(out)@.len() ==> out@[j] == old(out)@[j],
            forall|j: int| 0 <= j < i ==> out@[old(out)@.len() + j] == piece@[j],
        decreases n - i,
    {
        out.push(piece[i]);
        i = i + 1;
    }
    proof {
        assert(final(out)@ =~= old(out)@ + piece@);
    }
}

/// The forwarded form of a raw request: the request line is kept, and the
/// proxy's client-address and request-identifier headers are stamped in
/// right after it, before whatever followed. A buffer without a line feed
/// gets the headers appended at its end.
pub open spec fn spec_inject_headers(
    buffer: Seq<u8>,
    client_ip: Seq<u8>,
    request_id: Seq<u8>,
) -> Seq<u8> {
    let e = find_byte_from(buffer, 10, 0);
    let cut = if e < buffer.len() {
        e + 1
    } else {
        buffer.len() as int
    };
    buffer.take(cut) + "X-Client-IP: ".spec_bytes() + client_ip + "\r\n".spec_bytes()
        + "X-Request-ID: ".spec_bytes() + request_id + "\r\n".spec_bytes() + buffer.skip(cut)
}

/// Stamps the proxy's forwarding headers into a raw request buffer: the
/// client address under `X-Client-IP` and the generated request identifier
/// under `X-Request-ID`, inserted right after the request line.
pub fn inject_forwarding_headers(buffer: &[u8], client_ip: &str, request_id: &str) -> (r: Vec<u8>)
    ensures
        r@ == spec_inject_headers(buffer@, client_ip.spec_bytes(), request_id.spec_bytes()),
{
    let n = buffer.len();
    let mut e: usize = 0;
    while e < n && buffer[e] != 10
        invariant
            e <= n,
            n == buffer@.len(),
            forall|j: int| 0 <= j < e ==> buffer@[j] != 10,
        decreases n - e,
    {
        e = e + 1;
    }
    proof {
        lemma_find_byte_is(buffer@, 10, 0, e as int);
    }
    let cut: usize = if e < n {
        e + 1
    } else {
        n
    };
    let mut out: Vec<u8> = Vec::new();
    let head = &buffer[0..cut];
    let tail = &buffer[cut..n];
    append_bytes(&mut out, head);
    append_bytes(&mut out, "X-Client-IP: ".as_bytes());
    append_bytes(&mut out, client_ip.as_bytes());
    append_bytes(&mut out, "\r\n".as_bytes());
    append_bytes(&mut out, "X-Request-ID: ".as_bytes());
    append_bytes(&mut out, request_id.as_bytes());
    append_bytes(&mut out, "\r\n".as_bytes());
    append_bytes(&mut out, tail);
    proof {
        assert(head@ =~= buffer@.take(cut as int));
        assert(tail@ =~= buffer@.skip(cut as int));
        assert(out@ =~= spec_inject_headers(
            buffer@,
            client_ip.spec_bytes(),
            request_id.spec_bytes(),
        ));
    }
    out
}

/// Whether a header mentions the firefox agent, case-insensitively.
pub open spec fn mentions_firefox(h: Seq<u8>) -> bool {
    contains_sub(lower_bytes(h), "firefox".spec_bytes())
}

/// Whether a header is an accept-encoding header, case-insensitively.
pub open spec fn mentions_accept_encoding(h: Seq<u8>) -> bool {
    contains_sub(lower_bytes(h), "accept-encoding".spec_bytes())
}

/// Whether a header offers gzip: a comma-separated list anywhere mentioning
/// gzip, or a single offer whose second token is exactly gzip.
pub open spec fn offers_gzip(h: Seq<u8>) -> bool {
    let lo = lower_bytes(h);
    if contains_sub(lo, ",".spec_bytes()) {
        contains_sub(lo, "gzip".spec_bytes())
    } else {
        spec_tokens(lo).len() >= 2 && spec_tokens(lo)[1] == "gzip".spec_bytes()
    }
}

/// The compression decision over the headers, scanned in order.
pub open spec fn compression_decision(hs: Seq<Seq<u8>>) -> bool
    decreases hs.len(),
{
    if hs.len() == 0 {
        false
    } else if mentions_firefox(hs[0]) {
        false
    } else if mentions_accept_encoding(hs[0]) && offers_gzip(hs[0]) {
        true
    } else {
        compression_decision(hs.drop_first())
    }
}

} // verus!
