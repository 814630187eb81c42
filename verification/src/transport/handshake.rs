//! HTTP request-head classification and the RFC 6455 server handshake.
//!
//! A connection's first bytes are an HTTP request head. It is a WebSocket
//! upgrade, for whatever path, or a complete request for the REST plane, or not
//! complete yet, or not acceptable.
use crate::text;
use base64::Engine as _;
use sha1::Digest as _;
use vstd::prelude::*;
use vstd::utf8::{
    decode_utf8, encode_utf8, encode_utf8_decode_utf8, encode_utf8_valid_utf8, is_ascii_chars,
    is_ascii_chars_encode_utf8, valid_utf8,
};

verus! {

/// Most header fields that a request head may carry.
pub const MAX_HEADERS: usize = 32;

/// One header field.
#[derive(Debug, PartialEq, Eq)]
pub struct Header {
    pub name: String,
    pub value: Vec<u8>,
}

/// A header field as contracts see it.
pub struct HeaderModel {
    pub name: Seq<char>,
    pub value: Seq<u8>,
}

impl View for Header {
    type V = HeaderModel;

    open spec fn view(&self) -> HeaderModel {
        HeaderModel { name: self.name@, value: self.value@ }
    }
}

/// What the HTTP parser makes of a buffer.
#[derive(Debug, PartialEq, Eq)]
pub enum HeadParse {
    /// A complete head, `consumed` bytes long.
    Complete { consumed: usize, method: String, path: String, headers: Vec<Header> },
    /// The head is not complete.
    Partial,
    /// More header fields than allowed.
    TooManyHeaders,
    /// Not an HTTP request.
    Malformed,
}

/// A parsed head as contracts see it.
pub enum HeadModel {
    Complete { consumed: usize, method: Seq<char>, path: Seq<char>, headers: Seq<HeaderModel> },
    Partial,
    TooManyHeaders,
    Malformed,
}

/// The views of a list of header fields.
pub open spec fn header_views(v: Seq<Header>) -> Seq<HeaderModel> {
    Seq::new(v.len(), |i: int| v[i]@)
}

impl View for HeadParse {
    type V = HeadModel;

    open spec fn view(&self) -> HeadModel {
        match self {
            HeadParse::Complete { consumed, method, path, headers } => HeadModel::Complete {
                consumed: *consumed,
                method: method@,
                path: path@,
                headers: header_views(headers@),
            },
            HeadParse::Partial => HeadModel::Partial,
            HeadParse::TooManyHeaders => HeadModel::TooManyHeaders,
            HeadParse::Malformed => HeadModel::Malformed,
        }
    }
}

/// What `httparse` makes of a buffer when at most `max_headers` header fields are
/// allowed.
pub uninterp spec fn http_head(buf: Seq<u8>, max_headers: nat) -> HeadModel;

/// `httparse::Request::parse` with room for `max_headers` header fields: its
/// result depends on the bytes and that number alone.
#[verifier::external_body]
fn parse_head(buf: &[u8], max_headers: usize) -> (r: HeadParse)
    ensures
        r@ == http_head(buf@, max_headers as nat),
{
    let mut headers = vec![httparse::EMPTY_HEADER; max_headers];
    let mut req = httparse::Request::new(&mut headers);
    match req.parse(buf) {
        Ok(httparse::Status::Complete(consumed)) => HeadParse::Complete {
            consumed,
            method: req.method.unwrap_or("").to_owned(),
            path: req.path.unwrap_or("").to_owned(),
            headers: req.headers.iter().map(|h| Header { name: h.name.to_owned(), value: h.value.to_vec() }).collect(),
        },
        Ok(httparse::Status::Partial) => HeadParse::Partial,
        Err(httparse::Error::TooManyHeaders) => HeadParse::TooManyHeaders,
        Err(_) => HeadParse::Malformed,
    }
}

/// The SHA-1 digest of `data`.
pub uninterp spec fn sha1_of(data: Seq<u8>) -> Seq<u8>;

/// `sha1::Sha1::digest`: the digest depends on the data alone.
#[verifier::external_body]
fn sha1_digest(data: &[u8]) -> (r: Vec<u8>)
    ensures
        r@ == sha1_of(data@),
{
    sha1::Sha1::digest(data).to_vec()
}

/// The padded base64 text of `data` in the standard alphabet.
pub uninterp spec fn base64_of(data: Seq<u8>) -> Seq<char>;

/// `base64`'s standard engine: the text depends on the data alone.
#[verifier::external_body]
fn base64_text(data: &[u8]) -> (r: String)
    ensures
        r@ == base64_of(data@),
{
    base64::engine::general_purpose::STANDARD.encode(data)
}

/// What a connection's first bytes are.
#[derive(Debug, PartialEq, Eq)]
pub enum HeadResult {
    /// A WebSocket upgrade with its key and path.
    WsUpgrade { key: String, path: String },
    /// Any other complete request, `consumed` bytes of head.
    Rest { consumed: usize },
    /// More bytes are needed.
    NeedMore,
    /// A head with more fields than can be addressed.
    TooManyHeaders,
    /// A malformed or unsupported request.
    Bad(&'static str),
}

/// A classification as contracts see it.
pub enum HeadKind {
    WsUpgrade { key: Seq<char>, path: Seq<char> },
    Rest { consumed: usize },
    NeedMore,
    TooManyHeaders,
    Bad(&'static str),
}

impl View for HeadResult {
    type V = HeadKind;

    open spec fn view(&self) -> HeadKind {
        match self {
            HeadResult::WsUpgrade { key, path } => HeadKind::WsUpgrade { key: key@, path: path@ },
            HeadResult::Rest { consumed } => HeadKind::Rest { consumed: *consumed },
            HeadResult::NeedMore => HeadKind::NeedMore,
            HeadResult::TooManyHeaders => HeadKind::TooManyHeaders,
            HeadResult::Bad(m) => HeadKind::Bad(*m),
        }
    }
}

/// A blank line starts at `i`.
pub open spec fn blank_line_at(buf: Seq<u8>, i: int) -> bool {
    buf[i] == 13 && buf[i + 1] == 10 && buf[i + 2] == 13 && buf[i + 3] == 10
}

/// The head ends within the first `max` bytes.
pub open spec fn ends_within(buf: Seq<u8>, max: nat) -> bool {
    exists|i: int| 0 <= i && i + 4 <= max && #[trigger] blank_line_at(buf, i)
}

/// The ASCII white space characters.
pub open spec fn ascii_space(b: u8) -> bool {
    b == 0x20 || b == 0x9 || b == 0xa || b == 0xc || b == 0xd
}

/// `v` without leading ASCII white space.
pub open spec fn trim_front(v: Seq<u8>) -> Seq<u8>
    decreases v.len(),
{
    if v.len() > 0 && ascii_space(v[0]) {
        trim_front(v.drop_first())
    } else {
        v
    }
}

/// `v` without trailing ASCII white space.
pub open spec fn trim_back(v: Seq<u8>) -> Seq<u8>
    decreases v.len(),
{
    if v.len() > 0 && ascii_space(v.last()) {
        trim_back(v.drop_last())
    } else {
        v
    }
}

/// An ASCII letter in lower case; any other byte unchanged.
pub open spec fn lower_byte(b: u8) -> u8 {
    if 65 <= b <= 90 {
        (b + 32) as u8
    } else {
        b
    }
}

/// Equality of bytes up to the case of ASCII letters.
pub open spec fn same_bytes_ignoring_case(a: Seq<u8>, b: Seq<u8>) -> bool {
    &&& a.len() == b.len()
    &&& forall|i: int| 0 <= i < a.len() ==> lower_byte(#[trigger] a[i]) == lower_byte(b[i])
}

/// A header value is the token `expected`, whatever its case and surrounding
/// white space.
pub open spec fn value_is(value: Seq<u8>, expected: Seq<u8>) -> bool {
    same_bytes_ignoring_case(trim_back(trim_front(value)), expected)
}

/// A comma-separated header value has the token `upgrade`.
pub open spec fn lists_upgrade(value: Seq<u8>) -> bool {
    valid_utf8(value) && {
        let parts = text::split(decode_utf8(value), ',');
        exists|i: int|
            0 <= i < parts.len() && text::same_ignoring_case(
                text::trimmed(#[trigger] parts[i]),
                "upgrade"@,
            )
    }
}

/// The usable key in a header value: valid text that is not blank.
pub open spec fn key_in(value: Seq<u8>) -> Option<Seq<char>> {
    if valid_utf8(value) && text::trimmed(decode_utf8(value)).len() > 0 {
        Some(text::trimmed(decode_utf8(value)))
    } else {
        None
    }
}

/// The field is named `name`, whatever its case.
pub open spec fn named(h: HeaderModel, name: Seq<char>) -> bool {
    text::same_ignoring_case(h.name, name)
}

/// Some field asks for an upgrade to WebSocket.
pub open spec fn asks_websocket(headers: Seq<HeaderModel>) -> bool {
    exists|i: int|
        0 <= i < headers.len() && named(#[trigger] headers[i], "upgrade"@) && value_is(
            headers[i].value,
            encode_utf8("websocket"@),
        )
}

/// Some connection field lists the upgrade token.
pub open spec fn asks_upgrade(headers: Seq<HeaderModel>) -> bool {
    exists|i: int|
        0 <= i < headers.len() && named(#[trigger] headers[i], "connection"@) && lists_upgrade(
            headers[i].value,
        )
}

/// Some field names protocol version 13.
pub open spec fn asks_version_13(headers: Seq<HeaderModel>) -> bool {
    exists|i: int|
        0 <= i < headers.len() && named(#[trigger] headers[i], "sec-websocket-version"@)
            && value_is(headers[i].value, encode_utf8("13"@))
}

/// The key of the last field that has a usable one.
pub open spec fn websocket_key(headers: Seq<HeaderModel>) -> Option<Seq<char>>
    decreases headers.len(),
{
    if headers.len() == 0 {
        None
    } else if named(headers.last(), "sec-websocket-key"@) && key_in(headers.last().value) is Some {
        key_in(headers.last().value)
    } else {
        websocket_key(headers.drop_last())
    }
}

/// What a parsed head is: a `GET` with all four upgrade fields is an upgrade for
/// any path; a `GET` for `/app/...` without them is a broken upgrade; anything
/// else complete is for the REST plane.
pub open spec fn classified(head: HeadModel) -> HeadKind {
    match head {
        HeadModel::Partial => HeadKind::NeedMore,
        HeadModel::TooManyHeaders => HeadKind::TooManyHeaders,
        HeadModel::Malformed => HeadKind::Bad("malformed http request"),
        HeadModel::Complete { consumed, method, path, headers } => if method != "GET"@ {
            HeadKind::Rest { consumed }
        } else if asks_websocket(headers) && asks_upgrade(headers) && asks_version_13(headers)
            && websocket_key(headers) is Some {
            HeadKind::WsUpgrade { key: websocket_key(headers)->0, path }
        } else if text::has_prefix(path, "/app/"@) {
            HeadKind::Bad("invalid websocket upgrade")
        } else {
            HeadKind::Rest { consumed }
        },
    }
}

/// The head is longer than the cap allows; a cap of `0` allows any length.
pub open spec fn over_cap(buf: Seq<u8>, max_head_bytes: nat) -> bool {
    max_head_bytes != 0 && buf.len() > max_head_bytes && !ends_within(buf, max_head_bytes)
}

/// Classifies the bytes received so far. The cap bounds the head, not what
/// follows it, and is applied before anything is parsed.
pub fn read_head(buf: &[u8], max_head_bytes: usize) -> (r: HeadResult)
    ensures
        r@ == (if over_cap(buf@, max_head_bytes as nat) {
            HeadKind::Bad("request head too large")
        } else {
            classified(http_head(buf@, MAX_HEADERS as nat))
        }),
{
    if max_head_bytes != 0 && buf.len() > max_head_bytes {
        if !head_ends_within(buf, max_head_bytes) {
            return HeadResult::Bad("request head too large");
        }
    }
    classify_head(parse_head(buf, MAX_HEADERS))
}

fn head_ends_within(buf: &[u8], max: usize) -> (r: bool)
    requires
        max <= buf@.len(),
    ensures
        r == ends_within(buf@, max as nat),
{
    let mut i: usize = 0;
    while max >= 4 && i <= max - 4
        invariant
            max <= buf@.len(),
            i <= max,
            forall|k: int| 0 <= k < i && k + 4 <= max ==> !#[trigger] blank_line_at(buf@, k),
        decreases max - i,
    {
        if buf[i] == 13 && buf[i + 1] == 10 && buf[i + 2] == 13 && buf[i + 3] == 10 {
            assert(blank_line_at(buf@, i as int));
            return true;
        }
        i = i + 1;
    }
    false
}

/// Classifies a parsed head.
pub fn classify_head(head: HeadParse) -> (r: HeadResult)
    ensures
        r@ == classified(head@),
{
    match head {
        HeadParse::Partial => HeadResult::NeedMore,
        HeadParse::TooManyHeaders => HeadResult::TooManyHeaders,
        HeadParse::Malformed => HeadResult::Bad("malformed http request"),
        HeadParse::Complete { consumed, method, path, headers } => {
            if !text::str_eq(method.as_str(), "GET") {
                return HeadResult::Rest { consumed };
            }
            let fields = scan_headers(&headers);
            if fields.upgrade && fields.connection && fields.version {
                if let Some(key) = fields.key {
                    return HeadResult::WsUpgrade { key, path };
                }
            }
            if text::starts_with(&text::to_chars(path.as_str()), &text::to_chars("/app/")) {
                HeadResult::Bad("invalid websocket upgrade")
            } else {
                HeadResult::Rest { consumed }
            }
        },
    }
}

/// The upgrade fields of a request.
struct UpgradeFields {
    upgrade: bool,
    connection: bool,
    version: bool,
    key: Option<String>,
}

spec fn opt_view(k: Option<String>) -> Option<Seq<char>> {
    match k {
        Some(s) => Some(s@),
        None => None,
    }
}

fn name_is(h: &Header, name: &str) -> (r: bool)
    ensures
        r == named(h@, name@),
{
    text::eq_ignore_case(&text::to_chars(h.name.as_str()), &text::to_chars(name))
}

proof fn lemma_names_differ(h: HeaderModel)
    ensures
        named(h, "upgrade"@) ==> h.name.len() == 7,
        named(h, "connection"@) ==> h.name.len() == 10,
        named(h, "sec-websocket-version"@) ==> h.name.len() == 21,
        named(h, "sec-websocket-key"@) ==> h.name.len() == 17,
{
    reveal_strlit("upgrade");
    reveal_strlit("connection");
    reveal_strlit("sec-websocket-version");
    reveal_strlit("sec-websocket-key");
}

fn scan_headers(headers: &Vec<Header>) -> (f: UpgradeFields)
    ensures
        f.upgrade == asks_websocket(header_views(headers@)),
        f.connection == asks_upgrade(header_views(headers@)),
        f.version == asks_version_13(header_views(headers@)),
        opt_view(f.key) == websocket_key(header_views(headers@)),
{
    let mut f = UpgradeFields { upgrade: false, connection: false, version: false, key: None };
    let ghost hv = header_views(headers@);
    let mut i: usize = 0;
    assert(hv.take(0) =~= Seq::<HeaderModel>::empty());
    while i < headers.len()
        invariant
            hv == header_views(headers@),
            i <= headers@.len(),
            f.upgrade == asks_websocket(hv.take(i as int)),
            f.connection == asks_upgrade(hv.take(i as int)),
            f.version == asks_version_13(hv.take(i as int)),
            opt_view(f.key) == websocket_key(hv.take(i as int)),
        decreases headers@.len() - i,
    {
        let h: &Header = &headers[i];
        let ghost before = hv.take(i as int);
        let ghost after = hv.take(i + 1);
        proof {
            assert(after.drop_last() =~= before);
            assert(after.last() == h@);
            lemma_names_differ(h@);
            assert(after[i as int] == h@);
            assert(forall|k: int| 0 <= k < i ==> #[trigger] after[k] == before[k]);
            assert(forall|k: int| 0 <= k < i ==> #[trigger] before[k] == after[k]);
        }
        if name_is(h, "upgrade") {
            if header_value_eq_ignore_ascii_case(h.value.as_slice(), "websocket".as_bytes()) {
                f.upgrade = true;
            }
        } else if name_is(h, "connection") {
            if connection_contains_upgrade(h.value.as_slice()) {
                f.connection = true;
            }
        } else if name_is(h, "sec-websocket-version") {
            if header_value_eq_ignore_ascii_case(h.value.as_slice(), "13".as_bytes()) {
                f.version = true;
            }
        } else if name_is(h, "sec-websocket-key") {
            if let Some(v) = text::utf8_text(h.value.as_slice()) {
                let chars: Vec<char> = text::to_chars(v.as_str());
                let trimmed: &[char] = text::trim(chars.as_slice());
                if trimmed.len() > 0 {
                    f.key = Some(text::from_chars(trimmed));
                }
            }
        }
        i = i + 1;
    }
    assert(hv.take(i as int) =~= hv);
    f
}

/// Compares a raw header value to a token, ignoring ASCII case and surrounding
/// white space.
pub fn header_value_eq_ignore_ascii_case(value: &[u8], expected: &[u8]) -> (r: bool)
    ensures
        r == value_is(value@, expected@),
{
    let v: &[u8] = trim_ascii(value);
    if v.len() != expected.len() {
        return false;
    }
    let mut i: usize = 0;
    while i < v.len()
        invariant
            v@ == trim_back(trim_front(value@)),
            v@.len() == expected@.len(),
            i <= v@.len(),
            forall|k: int| 0 <= k < i ==> lower_byte(#[trigger] v@[k]) == lower_byte(expected@[k]),
        decreases v@.len() - i,
    {
        let a: u8 = if 65 <= v[i] && v[i] <= 90 { v[i] + 32 } else { v[i] };
        let b: u8 = if 65 <= expected[i] && expected[i] <= 90 {
            expected[i] + 32
        } else {
            expected[i]
        };
        if a != b {
            assert(lower_byte(v@[i as int]) != lower_byte(expected@[i as int]));
            return false;
        }
        i = i + 1;
    }
    true
}

/// Whether a connection field lists the `upgrade` token.
pub fn connection_contains_upgrade(value: &[u8]) -> (r: bool)
    ensures
        r == lists_upgrade(value@),
{
    match text::utf8_text(value) {
        None => false,
        Some(s) => {
            let parts: Vec<Vec<char>> = text::split_on(&text::to_chars(s.as_str()), ',');
            let token: Vec<char> = text::to_chars("upgrade");
            let ghost want = text::split(s@, ',');
            let mut i: usize = 0;
            while i < parts.len()
                invariant
                    valid_utf8(value@),
                    s@ == decode_utf8(value@),
                    want == text::split(s@, ','),
                    text::views(parts@) == want,
                    token@ == "upgrade"@,
                    i <= parts@.len(),
                    forall|k: int|
                        0 <= k < i ==> !text::same_ignoring_case(
                            text::trimmed(#[trigger] want[k]),
                            "upgrade"@,
                        ),
                decreases parts@.len() - i,
            {
                assert(want[i as int] == parts@[i as int]@);
                if text::eq_ignore_case(text::trim(parts[i].as_slice()), token.as_slice()) {
                    return true;
                }
                i = i + 1;
            }
            false
        },
    }
}

fn is_ascii_space(b: u8) -> (r: bool)
    ensures
        r == ascii_space(b),
{
    b == 0x20 || b == 0x9 || b == 0xa || b == 0xc || b == 0xd
}

/// Removes leading and trailing ASCII white space.
pub fn trim_ascii(v: &[u8]) -> (r: &[u8])
    ensures
        r@ == trim_back(trim_front(v@)),
{
    let ghost s = v@;
    let mut a: usize = 0;
    let mut b: usize = v.len();
    assert(s.subrange(0, b as int) =~= s);
    while a < b && is_ascii_space(v[a])
        invariant
            s == v@,
            a <= b,
            b == s.len(),
            trim_front(s) == trim_front(s.subrange(a as int, b as int)),
        decreases b - a,
    {
        assert(s.subrange(a as int, b as int).drop_first() =~= s.subrange(a + 1, b as int));
        a = a + 1;
    }
    assert(trim_front(s) == s.subrange(a as int, b as int));
    while a < b && is_ascii_space(v[b - 1])
        invariant
            s == v@,
            a <= b,
            b <= s.len(),
            trim_back(trim_front(s)) == trim_back(s.subrange(a as int, b as int)),
        decreases b - a,
    {
        assert(s.subrange(a as int, b as int).drop_last() =~= s.subrange(a as int, b - 1));
        b = b - 1;
    }
    &v[a..b]
}

/// The accept value for a WebSocket key: the base64 text of the SHA-1 digest of
/// the key followed by the protocol's fixed identifier.
pub open spec fn accept_value(ws_key: Seq<char>) -> Seq<char> {
    base64_of(
        sha1_of(encode_utf8(ws_key) + encode_utf8("258EAFA5-E914-47DA-95CA-C5AB0DC85B11"@)),
    )
}

/// The 101 response with the given accept value.
pub open spec fn switching_protocols(accept: Seq<char>) -> Seq<char> {
    "HTTP/1.1 101 Switching Protocols\r\nUpgrade: websocket\r\nConnection: Upgrade\r\nSec-WebSocket-Accept: "@
        + accept + "\r\n\r\n"@
}

/// The server's handshake response to a WebSocket key.
pub fn accept_response(ws_key: &str) -> (r: Vec<u8>)
    ensures
        r@ == encode_utf8(switching_protocols(accept_value(ws_key@))),
{
    let mut data: Vec<u8> = ws_key.as_bytes_vec();
    data.extend_from_slice("258EAFA5-E914-47DA-95CA-C5AB0DC85B11".as_bytes());
    assert(data@ =~= encode_utf8(ws_key@) + encode_utf8(
        "258EAFA5-E914-47DA-95CA-C5AB0DC85B11"@,
    ));
    let accept: String = base64_text(sha1_digest(data.as_slice()).as_slice());
    switching_protocols_response(accept.as_str())
}

/// The 101 response that carries the given accept value.
pub fn switching_protocols_response(accept: &str) -> (r: Vec<u8>)
    ensures
        r@ == encode_utf8(switching_protocols(accept@)),
{
    let mut s: String =
        "HTTP/1.1 101 Switching Protocols\r\nUpgrade: websocket\r\nConnection: Upgrade\r\nSec-WebSocket-Accept: ".to_owned();
    s.append(accept);
    s.append("\r\n\r\n");
    s.as_str().as_bytes_vec()
}

/// The response to a head with too many fields.
pub open spec fn too_many_fields_text() -> Seq<char> {
    "HTTP/1.1 431 Request Header Fields Too Large\r\nContent-Type: application/json\r\nContent-Length: 43\r\nConnection: close\r\n\r\n{\"error\":\"Request header fields too large\"}"@
}

/// The response to a head with too many fields, in the JSON error shape.
pub fn header_fields_too_large_response() -> (r: Vec<u8>)
    ensures
        r@ == encode_utf8(too_many_fields_text()),
{
    "HTTP/1.1 431 Request Header Fields Too Large\r\nContent-Type: application/json\r\nContent-Length: 43\r\nConnection: close\r\n\r\n{\"error\":\"Request header fields too large\"}".as_bytes_vec()
}

/// Bytes that follow a head within the cap never make it too large.
pub proof fn cap_bounds_the_head_only(head: Seq<u8>, body: Seq<u8>, max_head_bytes: nat, i: int)
    requires
        0 <= i,
        i + 4 <= head.len(),
        i + 4 <= max_head_bytes,
        blank_line_at(head, i),
    ensures
        !over_cap(head + body, max_head_bytes),
{
    assert(blank_line_at(head + body, i));
}

/// A head that grew past the cap without ending stays refused however much more
/// arrives.
pub proof fn over_cap_is_final(buf: Seq<u8>, more: Seq<u8>, max_head_bytes: nat)
    requires
        over_cap(buf, max_head_bytes),
    ensures
        over_cap(buf + more, max_head_bytes),
{
    if ends_within(buf + more, max_head_bytes) {
        let i = choose|i: int|
            0 <= i && i + 4 <= max_head_bytes && #[trigger] blank_line_at(buf + more, i);
        assert(blank_line_at(buf, i));
    }
}

/// A head is refused as too large exactly where more than the cap has arrived and no
/// CR LF CR LF lies within the cap.
pub proof fn heads_end_at_a_blank_line(buf: Seq<u8>, max_head_bytes: nat)
    ensures
        max_head_bytes == 0 || buf.len() <= max_head_bytes ==> !over_cap(buf, max_head_bytes),
        max_head_bytes != 0 && buf.len() > max_head_bytes ==> (over_cap(buf, max_head_bytes)
            <==> !exists|i: int|
            0 <= i && i + 4 <= max_head_bytes && #[trigger] buf.subrange(i, i + 4) == seq![
                13u8,
                10u8,
                13u8,
                10u8,
            ]),
{
    if max_head_bytes != 0 && buf.len() > max_head_bytes {
        assert forall|i: int| 0 <= i && i + 4 <= max_head_bytes implies #[trigger] blank_line_at(
            buf,
            i,
        ) == (#[trigger] buf.subrange(i, i + 4) == seq![13u8, 10u8, 13u8, 10u8]) by {
            let w = buf.subrange(i, i + 4);
            assert(w[0] == buf[i] && w[1] == buf[i + 1] && w[2] == buf[i + 2] && w[3] == buf[i
                + 3]);
            if blank_line_at(buf, i) {
                assert(w =~= seq![13u8, 10u8, 13u8, 10u8]);
            }
        }
        if ends_within(buf, max_head_bytes) {
            let i = choose|i: int|
                0 <= i && i + 4 <= max_head_bytes && #[trigger] blank_line_at(buf, i);
            assert(buf.subrange(i, i + 4) == seq![13u8, 10u8, 13u8, 10u8]);
        }
        if exists|i: int|
            0 <= i && i + 4 <= max_head_bytes && #[trigger] buf.subrange(i, i + 4) == seq![
                13u8,
                10u8,
                13u8,
                10u8,
            ] {
            let i = choose|i: int|
                0 <= i && i + 4 <= max_head_bytes && #[trigger] buf.subrange(i, i + 4) == seq![
                    13u8,
                    10u8,
                    13u8,
                    10u8,
                ];
            assert(blank_line_at(buf, i));
        }
    }
}

/// The header field on a line that ends in a carriage return: its name is what
/// precedes the first colon, and its value the rest.
pub open spec fn field_on(line: Seq<char>) -> HeaderModel {
    let name = text::split(line, ':')[0];
    HeaderModel {
        name,
        value: encode_utf8(line.subrange(name.len() as int + 1, line.len() - 1)),
    }
}

/// The header fields of a response whose lines these are, the last two being the
/// blank line and the body.
pub open spec fn fields_on(lines: Seq<Seq<char>>) -> Seq<HeaderModel> {
    Seq::new((lines.len() - 3) as nat, |i: int| field_on(lines[i + 1]))
}

/// One more line, which ends in CR LF, at the end of a text that ends a line.
proof fn lemma_line(s: Seq<char>, line: Seq<char>, parts: Seq<Seq<char>>)
    requires
        text::split(s, '\n') == parts.push(Seq::empty()),
        forall|i: int| 0 <= i < line.len() ==> line[i] != '\n',
    ensures
        text::split(s + line + seq!['\r', '\n'], '\n') == parts.push(line.push('\r')).push(
            Seq::empty(),
        ),
{
    let body = line.push('\r');
    text::lemma_split_more(s, body, '\n');
    text::lemma_split_sep(s + body, '\n');
    assert(s + line + seq!['\r', '\n'] =~= s + body + seq!['\n']);
    assert(Seq::<char>::empty() + body =~= body);
    assert(parts.push(Seq::empty()).update(parts.len() as int, body) =~= parts.push(body));
}

/// A line reads as the field that it was made of.
proof fn lemma_field(name: Seq<char>, value: Seq<char>)
    requires
        forall|i: int| 0 <= i < name.len() ==> name[i] != ':',
    ensures
        field_on((name + seq![':'] + value).push('\r')) == (HeaderModel {
            name,
            value: encode_utf8(value),
        }),
{
    let line = (name + seq![':'] + value).push('\r');
    assert(line =~= name + seq![':'] + value.push('\r'));
    text::lemma_split_first(name, value.push('\r'), ':');
    assert(line.subrange(name.len() as int + 1, line.len() - 1) =~= value);
}

/// A token after one space is that token.
proof fn lemma_token(value: Seq<char>, token: Seq<char>)
    requires
        value == seq![' '] + token,
        token.len() > 0,
        is_ascii_chars(token),
        !ascii_space(token[0] as u8),
        !ascii_space(token.last() as u8),
    ensures
        value_is(encode_utf8(value), encode_utf8(token)),
{
    assert(is_ascii_chars(value));
    is_ascii_chars_encode_utf8(value);
    is_ascii_chars_encode_utf8(token);
    let v = encode_utf8(value);
    let t = encode_utf8(token);
    assert(v[0] == value[0] as u8);
    assert(v.drop_first() =~= t) by {
        assert forall|i: int| 0 <= i < t.len() implies v.drop_first()[i] == t[i] by {
            assert(v[i + 1] == value[i + 1] as u8);
            assert(t[i] == token[i] as u8);
        }
    }
    assert(t[0] == token[0] as u8);
    assert(t.last() == token.last() as u8);
    assert(trim_front(t) == t);
    assert(trim_front(v) == t);
    assert(trim_back(t) == t);
}

/// The granted upgrade, as its receiver reads it. Split at its line ends, the
/// response to a key is the status line of a 101, three header fields and a blank
/// line with nothing behind it. The fields ask for WebSocket and for an upgrade as
/// a request's must, and exactly one is the accept field, with the accept value.
pub proof fn granted_upgrades_read_back(accept: Seq<char>)
    requires
        forall|i: int| 0 <= i < accept.len() ==> accept[i] != '\n',
    ensures
        ({
            let lines = text::split(switching_protocols(accept), '\n');
            let fields = fields_on(lines);
            &&& lines.len() == 6
            &&& text::has_prefix(lines[0], "HTTP/1.1 101 "@)
            &&& lines[0].last() == '\r'
            &&& lines[4] == seq!['\r']
            &&& lines[5].len() == 0
            &&& asks_websocket(fields)
            &&& asks_upgrade(fields)
            &&& exists|k: int|
                0 <= k < fields.len() && named(#[trigger] fields[k], "sec-websocket-accept"@)
                    && fields[k].value == encode_utf8(seq![' '] + accept) && forall|j: int|
                    0 <= j < fields.len() && j != k ==> !named(
                        #[trigger] fields[j],
                        "sec-websocket-accept"@,
                    )
        }),
{
    reveal_strlit(
        "HTTP/1.1 101 Switching Protocols\r\nUpgrade: websocket\r\nConnection: Upgrade\r\nSec-WebSocket-Accept: ",
    );
    reveal_strlit("\r\n\r\n");
    reveal_strlit("HTTP/1.1 101 Switching Protocols");
    reveal_strlit("HTTP/1.1 101 ");
    reveal_strlit("Upgrade");
    reveal_strlit("upgrade");
    reveal_strlit("Connection");
    reveal_strlit("connection");
    reveal_strlit("websocket");
    reveal_strlit("Sec-WebSocket-Accept");
    reveal_strlit("sec-websocket-accept");
    let crlf = seq!['\r', '\n'];
    let status = "HTTP/1.1 101 Switching Protocols"@;
    let websocket = seq![' '] + "websocket"@;
    let upgrade = seq![' '] + "Upgrade"@;
    let l1 = "Upgrade"@ + seq![':'] + websocket;
    let l2 = "Connection"@ + seq![':'] + upgrade;
    let l3 = "Sec-WebSocket-Accept"@ + seq![':'] + (seq![' '] + accept);
    let s0 = Seq::<char>::empty();
    let s1 = s0 + status + crlf;
    let s2 = s1 + l1 + crlf;
    let s3 = s2 + l2 + crlf;
    let s4 = s3 + l3 + crlf;
    let s5 = s4 + s0 + crlf;
    let head =
        "HTTP/1.1 101 Switching Protocols\r\nUpgrade: websocket\r\nConnection: Upgrade\r\nSec-WebSocket-Accept: "@;
    assert(head =~= s3 + "Sec-WebSocket-Accept"@ + seq![':', ' ']);
    assert(switching_protocols(accept) =~= s5);
    let p0 = Seq::<Seq<char>>::empty();
    assert(text::split(s0, '\n') =~= p0.push(s0));
    let p1 = p0.push(status.push('\r'));
    lemma_line(s0, status, p0);
    let p2 = p1.push(l1.push('\r'));
    lemma_line(s1, l1, p1);
    let p3 = p2.push(l2.push('\r'));
    lemma_line(s2, l2, p2);
    let p4 = p3.push(l3.push('\r'));
    lemma_line(s3, l3, p3);
    lemma_line(s4, s0, p4);
    let lines = text::split(switching_protocols(accept), '\n');
    assert(lines == p4.push(s0.push('\r')).push(s0));
    assert(lines[0] == status.push('\r'));
    assert(lines[0].take("HTTP/1.1 101 "@.len() as int) =~= "HTTP/1.1 101 "@);
    assert(lines[4] =~= seq!['\r']);
    let fields = fields_on(lines);
    assert(lines[1] == l1.push('\r') && lines[2] == l2.push('\r') && lines[3] == l3.push('\r'));
    lemma_field("Upgrade"@, websocket);
    lemma_field("Connection"@, upgrade);
    lemma_field("Sec-WebSocket-Accept"@, seq![' '] + accept);
    assert(fields[0] == field_on(lines[1]));
    assert(fields[1] == field_on(lines[2]));
    assert(fields[2] == field_on(lines[3]));
    lemma_token(websocket, "websocket"@);
    assert(named(fields[0], "upgrade"@));
    assert(named(fields[1], "connection"@));
    encode_utf8_valid_utf8(upgrade);
    encode_utf8_decode_utf8(upgrade);
    text::lemma_split_more(Seq::empty(), upgrade, ',');
    assert(Seq::<char>::empty() + upgrade =~= upgrade);
    let parts = text::split(upgrade, ',');
    assert(parts[0] == upgrade);
    assert(upgrade.drop_first() =~= "Upgrade"@);
    assert(text::trim_start("Upgrade"@) == "Upgrade"@);
    assert(text::trim_start(upgrade) == "Upgrade"@);
    assert(text::trimmed(parts[0]) == "Upgrade"@);
    assert(text::same_ignoring_case(text::trimmed(parts[0]), "upgrade"@));
    assert(lists_upgrade(fields[1].value));
    assert(named(fields[2], "sec-websocket-accept"@));
    assert forall|j: int| 0 <= j < fields.len() && j != 2 implies !named(
        #[trigger] fields[j],
        "sec-websocket-accept"@,
    ) by {}
}

/// The accept value is made of the whole key and the fixed identifier of RFC 6455,
/// section 1.3, in a row: the base64 text of the SHA-1 digest of the two.
pub proof fn accept_values_cover_the_key(key: Seq<char>)
    ensures
        accept_value(key) == base64_of(
            sha1_of(encode_utf8(key + "258EAFA5-E914-47DA-95CA-C5AB0DC85B11"@)),
        ),
{
    text::lemma_utf8_concat(key, "258EAFA5-E914-47DA-95CA-C5AB0DC85B11"@);
}

/// A `GET` with the four fields of a handshake, wherever among its fields they
/// stand, is an upgrade for its path with the key it carries, however the names are
/// capitalised and whatever other fields there are.
pub proof fn handshakes_are_recognised(
    consumed: usize,
    path: Seq<char>,
    headers: Seq<HeaderModel>,
    key: Seq<char>,
    i: int,
    j: int,
    l: int,
    m: int,
)
    requires
        0 <= i < headers.len(),
        0 <= j < headers.len(),
        0 <= l < headers.len(),
        0 <= m < headers.len(),
        headers[i] == (HeaderModel { name: "Upgrade"@, value: encode_utf8("websocket"@) }),
        headers[j] == (HeaderModel { name: "Connection"@, value: encode_utf8("Upgrade"@) }),
        headers[l] == (HeaderModel { name: "Sec-WebSocket-Version"@, value: encode_utf8("13"@) }),
        headers[m] == (HeaderModel { name: "Sec-WebSocket-Key"@, value: encode_utf8(key) }),
        key.len() > 0,
        !text::white_space(key[0]),
        !text::white_space(key.last()),
        forall|k: int|
            m < k < headers.len() ==> !named(#[trigger] headers[k], "sec-websocket-key"@),
    ensures
        classified(HeadModel::Complete { consumed, method: "GET"@, path, headers }) == (
        HeadKind::WsUpgrade { key, path }),
    decreases headers.len(),
{
    reveal_strlit("Upgrade");
    reveal_strlit("upgrade");
    reveal_strlit("Connection");
    reveal_strlit("connection");
    reveal_strlit("websocket");
    reveal_strlit("Sec-WebSocket-Version");
    reveal_strlit("sec-websocket-version");
    reveal_strlit("Sec-WebSocket-Key");
    reveal_strlit("sec-websocket-key");
    reveal_strlit("13");
    let upgrade = "Upgrade"@;
    is_ascii_chars_encode_utf8("websocket"@);
    is_ascii_chars_encode_utf8("13"@);
    let w = encode_utf8("websocket"@);
    assert(w[0] == "websocket"@[0] as u8 && w.last() == "websocket"@.last() as u8);
    assert(trim_front(w) == w && trim_back(w) == w);
    assert(named(headers[i], "upgrade"@));
    assert(asks_websocket(headers));
    let v = encode_utf8("13"@);
    assert(v[0] == "13"@[0] as u8 && v.last() == "13"@.last() as u8);
    assert(trim_front(v) == v && trim_back(v) == v);
    assert(named(headers[l], "sec-websocket-version"@));
    assert(asks_version_13(headers));
    encode_utf8_valid_utf8(upgrade);
    encode_utf8_decode_utf8(upgrade);
    text::lemma_split_more(Seq::empty(), upgrade, ',');
    assert(Seq::<char>::empty() + upgrade =~= upgrade);
    let parts = text::split(upgrade, ',');
    assert(parts[0] == upgrade);
    assert(text::trim_start(upgrade) == upgrade);
    assert(text::trimmed(parts[0]) == upgrade);
    assert(text::same_ignoring_case(text::trimmed(parts[0]), "upgrade"@));
    assert(named(headers[j], "connection"@));
    assert(asks_upgrade(headers));
    encode_utf8_valid_utf8(key);
    encode_utf8_decode_utf8(key);
    assert(text::trim_start(key) == key);
    assert(text::trimmed(key) == key);
    assert(named(headers[m], "sec-websocket-key"@));
    lemma_last_key(headers, key, m);
}

proof fn lemma_last_key(headers: Seq<HeaderModel>, key: Seq<char>, m: int)
    requires
        0 <= m < headers.len(),
        named(headers[m], "sec-websocket-key"@),
        key_in(headers[m].value) == Some(key),
        forall|k: int|
            m < k < headers.len() ==> !named(#[trigger] headers[k], "sec-websocket-key"@),
    ensures
        websocket_key(headers) == Some(key),
    decreases headers.len(),
{
    if m < headers.len() - 1 {
        let rest = headers.drop_last();
        assert(!named(headers[headers.len() - 1], "sec-websocket-key"@));
        assert forall|k: int| m < k < rest.len() implies !named(
            #[trigger] rest[k],
            "sec-websocket-key"@,
        ) by {
            assert(rest[k] == headers[k]);
        }
        lemma_last_key(rest, key, m);
    }
}

/// A request that lacks any of the four fields, or is no `GET`, is never an
/// upgrade: a `GET` below `/app/` is then a broken one, and anything else is handed
/// to the REST plane with the length of its head.
pub proof fn other_requests_are_not_upgraded(
    consumed: usize,
    method: Seq<char>,
    path: Seq<char>,
    headers: Seq<HeaderModel>,
    lacking: Seq<char>,
)
    requires
        method == "GET"@ ==> {
            ||| lacking == "upgrade"@
            ||| lacking == "connection"@
            ||| lacking == "sec-websocket-version"@
            ||| lacking == "sec-websocket-key"@
        },
        method == "GET"@ ==> forall|k: int|
            0 <= k < headers.len() ==> !text::same_ignoring_case(
                (#[trigger] headers[k]).name,
                lacking,
            ),
    ensures
        ({
            let kind = classified(HeadModel::Complete { consumed, method, path, headers });
            if method == "GET"@ && path.len() >= 5 && path.take(5) == "/app/"@ {
                kind == HeadKind::Bad("invalid websocket upgrade")
            } else {
                kind == (HeadKind::Rest { consumed })
            }
        }),
{
    reveal_strlit("/app/");
    if method == "GET"@ {
        if lacking == "sec-websocket-key"@ {
            lemma_no_key(headers);
        }
    }
}

proof fn lemma_no_key(headers: Seq<HeaderModel>)
    requires
        forall|k: int|
            0 <= k < headers.len() ==> !text::same_ignoring_case(
                (#[trigger] headers[k]).name,
                "sec-websocket-key"@,
            ),
    ensures
        websocket_key(headers) is None,
    decreases headers.len(),
{
    if headers.len() > 0 {
        let rest = headers.drop_last();
        assert forall|k: int| 0 <= k < rest.len() implies !text::same_ignoring_case(
            (#[trigger] rest[k]).name,
            "sec-websocket-key"@,
        ) by {
            assert(rest[k] == headers[k]);
        }
        lemma_no_key(rest);
        assert(!text::same_ignoring_case(headers[headers.len() - 1].name, "sec-websocket-key"@));
    }
}

/// The response to a head with too many fields, as its receiver reads it: the status
/// line of a 431, fields that announce JSON, close the connection and give the
/// length of the body, a blank line, and the body.
pub proof fn refused_heads_read_back()
    ensures
        ({
            let lines = text::split(too_many_fields_text(), '\n');
            let fields = fields_on(lines);
            &&& lines.len() == 6
            &&& text::has_prefix(lines[0], "HTTP/1.1 431 "@)
            &&& lines[0].last() == '\r'
            &&& lines[4] == seq!['\r']
            &&& lines[5] == "{\"error\":\"Request header fields too large\"}"@
            &&& named(fields[0], "content-type"@)
            &&& value_is(fields[0].value, encode_utf8("application/json"@))
            &&& named(fields[1], "content-length"@)
            &&& value_is(fields[1].value, encode_utf8(text::decimal(encode_utf8(lines[5]).len())))
            &&& named(fields[2], "connection"@)
            &&& value_is(fields[2].value, encode_utf8("close"@))
        }),
{
    reveal_strlit(
        "HTTP/1.1 431 Request Header Fields Too Large\r\nContent-Type: application/json\r\nContent-Length: 43\r\nConnection: close\r\n\r\n{\"error\":\"Request header fields too large\"}",
    );
    reveal_strlit("HTTP/1.1 431 Request Header Fields Too Large");
    reveal_strlit("HTTP/1.1 431 ");
    reveal_strlit("Content-Type");
    reveal_strlit("content-type");
    reveal_strlit("application/json");
    reveal_strlit("Content-Length");
    reveal_strlit("content-length");
    reveal_strlit("43");
    reveal_strlit("Connection");
    reveal_strlit("connection");
    reveal_strlit("close");
    reveal_strlit("{\"error\":\"Request header fields too large\"}");
    let crlf = seq!['\r', '\n'];
    let status = "HTTP/1.1 431 Request Header Fields Too Large"@;
    let body = "{\"error\":\"Request header fields too large\"}"@;
    let l1 = "Content-Type"@ + seq![':'] + (seq![' '] + "application/json"@);
    let l2 = "Content-Length"@ + seq![':'] + (seq![' '] + "43"@);
    let l3 = "Connection"@ + seq![':'] + (seq![' '] + "close"@);
    let s0 = Seq::<char>::empty();
    let s1 = s0 + status + crlf;
    let s2 = s1 + l1 + crlf;
    let s3 = s2 + l2 + crlf;
    let s4 = s3 + l3 + crlf;
    let s5 = s4 + s0 + crlf;
    assert(too_many_fields_text() =~= s5 + body);
    let p0 = Seq::<Seq<char>>::empty();
    assert(text::split(s0, '\n') =~= p0.push(s0));
    let p1 = p0.push(status.push('\r'));
    lemma_line(s0, status, p0);
    let p2 = p1.push(l1.push('\r'));
    lemma_line(s1, l1, p1);
    let p3 = p2.push(l2.push('\r'));
    lemma_line(s2, l2, p2);
    let p4 = p3.push(l3.push('\r'));
    lemma_line(s3, l3, p3);
    lemma_line(s4, s0, p4);
    text::lemma_split_more(s5, body, '\n');
    let lines = text::split(too_many_fields_text(), '\n');
    assert(Seq::<char>::empty() + body =~= body);
    assert(lines =~= p4.push(s0.push('\r')).push(body));
    assert(lines[0].take("HTTP/1.1 431 "@.len() as int) =~= "HTTP/1.1 431 "@);
    assert(lines[4] =~= seq!['\r']);
    lemma_field("Content-Type"@, seq![' '] + "application/json"@);
    lemma_field("Content-Length"@, seq![' '] + "43"@);
    lemma_field("Connection"@, seq![' '] + "close"@);
    let fields = fields_on(lines);
    assert(lines[1] == l1.push('\r') && lines[2] == l2.push('\r') && lines[3] == l3.push('\r'));
    assert(fields[0] == field_on(lines[1]));
    assert(fields[1] == field_on(lines[2]));
    assert(fields[2] == field_on(lines[3]));
    lemma_token(seq![' '] + "application/json"@, "application/json"@);
    lemma_token(seq![' '] + "43"@, "43"@);
    lemma_token(seq![' '] + "close"@, "close"@);
    is_ascii_chars_encode_utf8(body);
    assert(encode_utf8(lines[5]).len() == 43);
    reveal_with_fuel(text::decimal, 2);
    assert(text::decimal(43) =~= "43"@);
}

proof fn lemma_trim_front(v: Seq<u8>, front: Seq<u8>, rest: Seq<u8>)
    requires
        v == front + rest,
        forall|i: int| 0 <= i < front.len() ==> ascii_space(#[trigger] front[i]),
        rest.len() > 0 ==> !ascii_space(rest[0]),
    ensures
        trim_front(v) == rest,
    decreases front.len(),
{
    if front.len() == 0 {
        assert(v =~= rest);
    } else {
        let shorter = front.drop_first();
        assert(ascii_space(front[0]));
        assert forall|i: int| 0 <= i < shorter.len() implies ascii_space(#[trigger] shorter[i]) by {
            assert(shorter[i] == front[i + 1]);
        }
        assert(v.drop_first() =~= shorter + rest);
        lemma_trim_front(v.drop_first(), shorter, rest);
    }
}

proof fn lemma_trim_back(v: Seq<u8>, rest: Seq<u8>, back: Seq<u8>)
    requires
        v == rest + back,
        forall|i: int| 0 <= i < back.len() ==> ascii_space(#[trigger] back[i]),
        rest.len() > 0 ==> !ascii_space(rest.last()),
    ensures
        trim_back(v) == rest,
    decreases back.len(),
{
    if back.len() == 0 {
        assert(v =~= rest);
    } else {
        let shorter = back.drop_last();
        assert(ascii_space(back[back.len() - 1]));
        assert forall|i: int| 0 <= i < shorter.len() implies ascii_space(#[trigger] shorter[i]) by {
            assert(shorter[i] == back[i]);
        }
        assert(v.drop_last() =~= rest + shorter);
        lemma_trim_back(v.drop_last(), rest, shorter);
    }
}

/// A field's value is a token exactly where, without the spaces, tabs and line ends
/// around it, it is that token up to the case of the letters a to z.
pub proof fn tokens_compare_without_case_or_padding(
    front: Seq<u8>,
    core: Seq<u8>,
    back: Seq<u8>,
    token: Seq<u8>,
)
    requires
        forall|i: int|
            0 <= i < front.len() ==> {
                let b = #[trigger] front[i];
                b == 9 || b == 10 || b == 12 || b == 13 || b == 32
            },
        forall|i: int|
            0 <= i < back.len() ==> {
                let b = #[trigger] back[i];
                b == 9 || b == 10 || b == 12 || b == 13 || b == 32
            },
        core.len() > 0,
        ({
            let b = core[0];
            b != 9 && b != 10 && b != 12 && b != 13 && b != 32
        }),
        ({
            let b = core.last();
            b != 9 && b != 10 && b != 12 && b != 13 && b != 32
        }),
    ensures
        trim_back(trim_front(front + core + back)) == core,
        value_is(front + core + back, token) <==> core.len() == token.len() && forall|i: int|
            0 <= i < core.len() ==> {
                let x = #[trigger] core[i];
                let y = token[i];
                ||| x == y
                ||| 65 <= x <= 90 && y == x + 32
                ||| 65 <= y <= 90 && x == y + 32
            },
{
    assert(front + core + back =~= front + (core + back));
    lemma_trim_front(front + core + back, front, core + back);
    lemma_trim_back(core + back, core, back);
    if core.len() == token.len() {
        assert forall|i: int| 0 <= i < core.len() implies (lower_byte(#[trigger] core[i])
            == lower_byte(token[i]) <==> {
            let x = core[i];
            let y = token[i];
            ||| x == y
            ||| 65 <= x <= 90 && y == x + 32
            ||| 65 <= y <= 90 && x == y + 32
        }) by {}
    }
}

/// A key is what its field holds without the white space around it; a field that holds
/// only white space, or is not UTF-8, holds no key.
pub proof fn keys_are_read_without_padding(value: Seq<u8>, key: Seq<char>)
    ensures
        key_in(value) == Some(key) ==> valid_utf8(value) && key.len() > 0 && !text::white_space(
            key[0],
        ) && !text::white_space(key.last()),
        !valid_utf8(value) ==> key_in(value) is None,
        valid_utf8(value) && (forall|i: int|
            0 <= i < decode_utf8(value).len() ==> text::white_space(
                #[trigger] decode_utf8(value)[i],
            )) ==> key_in(value) is None,
        valid_utf8(value) && (exists|i: int|
            0 <= i < decode_utf8(value).len() && !text::white_space(
                #[trigger] decode_utf8(value)[i],
            )) ==> key_in(value) is Some,
{
    if valid_utf8(value) {
        let s = decode_utf8(value);
        let t = text::trimmed(s);
        text::trimming_takes_white_space_only(s);
        let front = s.len() - text::trim_start(s).len();
        if t.len() > 0 {
            assert(s.subrange(front, front + t.len())[0] == s[front]);
        }
        if exists|i: int| 0 <= i < s.len() && !text::white_space(#[trigger] s[i]) {
            let i = choose|i: int| 0 <= i < s.len() && !text::white_space(#[trigger] s[i]);
            if t.len() == 0 {
                assert(0 <= i < front || front + t.len() <= i < s.len());
            }
        }
    }
}

} // verus!
