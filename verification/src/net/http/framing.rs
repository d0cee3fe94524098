//! Per-direction streaming HTTP/1.1 framer. Buffers and rewrites the header, then forwards the body
//! as a slice of the fed input via [`feed`](HttpFraming::feed). Built on the parent module's
//! authority parser.

pub mod laws;
pub mod messages;
pub mod stream;

use vstd::prelude::*;

use crate::ascii;
use crate::net::http;
use crate::net::http::{parse_authority, strip_prefix_ignore_ascii_case, Authority};
use crate::net::ip::SocketAddrV4;
use crate::number;

verus! {

/// Header-block byte cap: a header block larger than this is refused whether or not it has
/// terminated, so the limit does not depend on TCP segmentation and a peer cannot grow the owner's
/// buffer unbounded. The proxy's receive buffer must exceed this, or the refusal cannot fire before
/// the buffer fills.
pub const MAX_HEADER: usize = 2048;

/// The unterminated-line guard for a single chunk-size line (`1a3\r\n`, plus any chunk extensions).
pub const MAX_CHUNK_LINE: usize = 256;

/// The unterminated-line guard for a single trailer field line. Looser than a chunk-size line since
/// trailers carry header-like field values.
pub const MAX_TRAILER_LINE: usize = 1024;

/// Which side of the splice a framer parses: the start line differs (request-line or status-line),
/// and only a response can be close-delimited.
#[derive(Clone, Copy, PartialEq, Eq, Structural, Debug)]
pub enum Kind {
    Request,
    Response,
}

/// The body framing the header determined: what `feed` streams after the header. `Header` doubles
/// as "no body, the message ends at the blank line".
#[derive(Clone, Copy, PartialEq, Eq, Structural, Debug)]
pub enum Phase {
    Header,
    BodyContentLength,
    BodyChunked,
    /// After the zero-size chunk: trailer field lines until the blank line.
    BodyChunkedTrailers,
    BodyCloseDelimited,
}

/// A message the proxy cannot safely forward: malformed, over-cap, or a method whose response it
/// cannot delimit. The proxy maps any variant to drop-and-close.
#[derive(Clone, Copy, PartialEq, Eq, Structural, Debug)]
pub enum FramingError {
    /// A `HEAD` request. Its response carries no body yet may still send `Content-Length`, which
    /// cannot be told from a real body without tracking the request method.
    UnsupportedMethod,
    /// A header block of more than [`MAX_HEADER`] bytes.
    HeaderTooLong,
    /// A `Content-Length` value that is not a bare non-negative integer.
    MalformedContentLength,
    /// `Content-Length` header fields with differing values.
    ConflictingContentLength,
    /// Both a `Content-Length` and a chunked `Transfer-Encoding`.
    ContentLengthWithChunked,
    /// A chunk-size line that is not a hex integer.
    MalformedChunkSize,
    /// A chunk size so large that adding its terminating CRLF would overflow `usize`.
    ChunkSizeTooLarge,
    /// A chunk-size line that never terminated within [`MAX_CHUNK_LINE`] bytes.
    ChunkLineTooLong,
    /// A trailer field line that never terminated within [`MAX_TRAILER_LINE`] bytes.
    TrailerLineTooLong,
}

/// Which authority-bearing header a line is, carrying the endpoint it named, so the framer can
/// rewrite and report it and the owner can act on `ApplicationUrl` alone (the DIAL REST base).
#[derive(Clone, Copy, PartialEq, Eq, Structural, Debug)]
pub enum AuthorityHeader {
    Host(SocketAddrV4),
    ApplicationUrl(SocketAddrV4),
    Location(SocketAddrV4),
}

impl AuthorityHeader {
    /// The endpoint that it named.
    pub open spec fn endpoint(self) -> SocketAddrV4 {
        match self {
            AuthorityHeader::Host(endpoint) => endpoint,
            AuthorityHeader::ApplicationUrl(endpoint) => endpoint,
            AuthorityHeader::Location(endpoint) => endpoint,
        }
    }

    /// What its line starts with.
    pub open spec fn prefix(self) -> Seq<u8> {
        match self {
            AuthorityHeader::Host(_) => ascii::bytes("Host:"@),
            AuthorityHeader::ApplicationUrl(_) => ascii::bytes("Application-URL:"@),
            AuthorityHeader::Location(_) => ascii::bytes("Location:"@),
        }
    }
}

/// Where a framer rewrites each authority header to: one optional target per [`AuthorityHeader`]
/// kind, `None` leaving that kind unchanged.
#[derive(Clone, Copy, PartialEq, Eq, Debug)]
pub struct RewritePolicy {
    pub host: Option<SocketAddrV4>,
    pub application_url: Option<SocketAddrV4>,
    pub location: Option<SocketAddrV4>,
}

impl RewritePolicy {
    /// The address `header` should be rewritten to under this policy, or `None` to leave it
    /// unchanged.
    #[verifier::allow_in_spec]
    pub fn target(&self, header: AuthorityHeader) -> (r: Option<SocketAddrV4>)
        returns
            (match header {
                AuthorityHeader::Host(_) => self.host,
                AuthorityHeader::ApplicationUrl(_) => self.application_url,
                AuthorityHeader::Location(_) => self.location,
            }),
    {
        match header {
            AuthorityHeader::Host(_) => self.host,
            AuthorityHeader::ApplicationUrl(_) => self.application_url,
            AuthorityHeader::Location(_) => self.location,
        }
    }
}

/// The end of a line.
pub open spec fn crlf() -> Seq<u8> {
    seq![0x0du8, 0x0au8]
}

/// The end of the last line and the blank line behind it.
pub open spec fn header_terminator() -> Seq<u8> {
    seq![0x0du8, 0x0au8, 0x0du8, 0x0au8]
}

/// The length of the header block, blank line included.
pub open spec fn header_end(s: Seq<u8>) -> Option<int> {
    match ascii::find(s, header_terminator()) {
        Some(i) => Some(i + 4),
        None => None,
    }
}

/// The lines of `s`, each without its CRLF.
pub open spec fn lines(s: Seq<u8>) -> Seq<Seq<u8>>
    decreases s.len(),
{
    if s.len() == 0 {
        Seq::empty()
    } else {
        match ascii::find(s, crlf()) {
            Some(i) => if 0 <= i && i + 2 <= s.len() {
                seq![s.take(i)] + lines(s.skip(i + 2))
            } else {
                seq![s]
            },
            None => seq![s],
        }
    }
}

/// The size that a chunk-size line gives: hexadecimal, up to the `;` of an extension.
pub open spec fn chunk_size(line: Seq<u8>) -> Option<nat> {
    number::at_most(
        number::number(ascii::trimmed(ascii::before(line, ';' as u8)), 16),
        usize::MAX as nat,
    )
}

/// The length that a `Content-Length` value gives.
pub open spec fn content_length(value: Seq<u8>) -> Option<nat> {
    number::at_most(number::number(ascii::trimmed(value), 10), usize::MAX as nat)
}

/// The status code of a response's start line, the second of its fields; 0 where there is none.
pub open spec fn status_code(line: Seq<u8>) -> u16 {
    let f = ascii::fields(line, ' ' as u8);
    if f.len() < 2 {
        0
    } else {
        match number::at_most(number::unsigned(f[1], 10), 0xffff) {
            Some(v) => v as u16,
            None => 0,
        }
    }
}

/// Whether a coding list names `chunked`.
pub open spec fn has_chunked(value: Seq<u8>) -> bool {
    exists|i: int|
        0 <= i < ascii::fields(value, ',' as u8).len() && ascii::folded(
            ascii::trimmed(#[trigger] ascii::fields(value, ',' as u8)[i]),
        ) == ascii::folded(ascii::bytes("chunked"@))
}

/// The endpoint that the value at the end of `line` names, and the span of its text in `line`.
pub open spec fn value_authority(line: Seq<u8>, value: Seq<u8>, bare: bool) -> Option<
    (SocketAddrV4, int, int),
> {
    let text = ascii::trimmed_start(value);
    let at: int = line.len() - text.len();
    match http::authority(text, bare) {
        Some((endpoint, offset, len)) => Some((endpoint, at + offset, at + offset + len)),
        None => None,
    }
}

/// The authority header that `line` is in a message of `kind`, and the span of the authority's text
/// in it. Each header counts only on the side that defines it.
pub open spec fn authority_field(line: Seq<u8>, kind: Kind) -> Option<(AuthorityHeader, int, int)> {
    match kind {
        Kind::Request => match ascii::after_prefix(line, ascii::bytes("Host:"@)) {
            Some(value) => match value_authority(line, value, true) {
                Some((endpoint, from, to)) => Some((AuthorityHeader::Host(endpoint), from, to)),
                None => None,
            },
            None => None,
        },
        Kind::Response => match ascii::after_prefix(line, ascii::bytes("Application-URL:"@)) {
            Some(value) => match value_authority(line, value, false) {
                Some((endpoint, from, to)) => Some(
                    (AuthorityHeader::ApplicationUrl(endpoint), from, to),
                ),
                None => None,
            },
            None => match ascii::after_prefix(line, ascii::bytes("Location:"@)) {
                Some(value) => match value_authority(line, value, false) {
                    Some((endpoint, from, to)) => Some(
                        (AuthorityHeader::Location(endpoint), from, to),
                    ),
                    None => None,
                },
                None => None,
            },
        },
    }
}

/// A header line with its authority, if it has one that `policy` has a target for, replaced.
pub open spec fn rewritten(line: Seq<u8>, kind: Kind, policy: RewritePolicy) -> Seq<u8> {
    match authority_field(line, kind) {
        Some((header, from, to)) => match policy.target(header) {
            Some(target) => line.take(from) + ascii::bytes(target.text()) + line.skip(to),
            None => line,
        },
        None => line,
    }
}

/// The header block to forward: the start line as it is, every other line rewritten.
pub open spec fn rewritten_block(ls: Seq<Seq<u8>>, kind: Kind, policy: RewritePolicy) -> Seq<u8>
    decreases ls.len(),
{
    if ls.len() == 0 {
        Seq::empty()
    } else if ls.len() == 1 {
        ls[0] + crlf()
    } else {
        rewritten_block(ls.drop_last(), kind, policy) + rewritten(ls.last(), kind, policy) + crlf()
    }
}

/// What the header fields of a message say of its body, and the endpoint that its first
/// `Application-URL` names.
pub struct Scan {
    pub length: Option<usize>,
    pub chunked: bool,
    pub application_url: Option<SocketAddrV4>,
}

/// What a header line is to the framing.
pub enum Field {
    /// A `Content-Length`, with the length it gives if it gives one.
    Length(Option<usize>),
    /// A `Transfer-Encoding`, and whether it names `chunked`.
    Coding(bool),
    /// A header that names an endpoint.
    Authority(AuthorityHeader),
    Other,
}

/// What `line` is to the framing.
pub open spec fn field(line: Seq<u8>, kind: Kind) -> Field {
    match ascii::after_prefix(line, ascii::bytes("Content-Length:"@)) {
        Some(value) => match content_length(value) {
            Some(n) => Field::Length(Some(n as usize)),
            None => Field::Length(None),
        },
        None => match ascii::after_prefix(line, ascii::bytes("Transfer-Encoding:"@)) {
            Some(value) => Field::Coding(has_chunked(value)),
            None => match authority_field(line, kind) {
                Some((header, _, _)) => Field::Authority(header),
                None => Field::Other,
            },
        },
    }
}

/// What one more header field adds: lengths must agree, and the first `Application-URL` counts.
pub open spec fn scan_field(scan: Scan, field: Field) -> Result<Scan, FramingError> {
    match field {
        Field::Length(None) => Err(FramingError::MalformedContentLength),
        Field::Length(Some(n)) => if scan.length is Some && scan.length->0 != n {
            Err(FramingError::ConflictingContentLength)
        } else {
            Ok(Scan { length: Some(n), ..scan })
        },
        Field::Coding(chunked) => Ok(Scan { chunked: scan.chunked || chunked, ..scan }),
        Field::Authority(AuthorityHeader::ApplicationUrl(endpoint)) => if scan.application_url
            is None {
            Ok(Scan { application_url: Some(endpoint), ..scan })
        } else {
            Ok(scan)
        },
        _ => Ok(scan),
    }
}

/// What all lines behind the start line say.
pub open spec fn scan_lines(ls: Seq<Seq<u8>>, kind: Kind) -> Result<Scan, FramingError>
    decreases ls.len(),
{
    if ls.len() <= 1 {
        Ok(Scan { length: None, chunked: false, application_url: None })
    } else {
        match scan_lines(ls.drop_last(), kind) {
            Ok(scan) => scan_field(scan, field(ls.last(), kind)),
            Err(e) => Err(e),
        }
    }
}

/// Whether the start line asks for the method whose response cannot be delimited.
pub open spec fn is_head(ls: Seq<Seq<u8>>, kind: Kind) -> bool {
    kind is Request && ls.len() > 0 && ascii::bytes("HEAD "@).is_prefix_of(ls[0])
}

/// What a header block says of its message.
pub open spec fn scan_block(block: Seq<u8>, kind: Kind) -> Result<Scan, FramingError> {
    let ls = lines(block);
    if is_head(ls, kind) {
        Err(FramingError::UnsupportedMethod)
    } else {
        match scan_lines(ls, kind) {
            Ok(scan) => if scan.length is Some && scan.chunked {
                Err(FramingError::ContentLengthWithChunked)
            } else {
                Ok(scan)
            },
            Err(e) => Err(e),
        }
    }
}

/// What is left of a message's body.
pub enum Body {
    /// Nothing: the next message starts here.
    Ended,
    /// This many bytes.
    Length(nat),
    /// This many bytes of a chunk and its CRLF, then more chunks.
    Chunk(nat),
    /// A chunk-size line comes next.
    ChunkSize,
    /// Trailer lines up to a blank one.
    Trailers,
    /// Everything until the connection closes.
    UntilClose,
}

/// The status of a response, 0 for a request.
pub open spec fn status_of(block: Seq<u8>, kind: Kind) -> u16 {
    if kind is Response && lines(block).len() > 0 {
        status_code(lines(block)[0])
    } else {
        0
    }
}

/// Whether a response of this status has no body whatever its headers say.
pub open spec fn is_bodyless(status: u16) -> bool {
    100 <= status <= 199 || status == 204 || status == 304
}

/// The body that follows a header.
pub open spec fn body_after(kind: Kind, status: u16, length: Option<usize>, chunked: bool) -> Body {
    if kind is Response && is_bodyless(status) {
        Body::Ended
    } else if chunked {
        Body::ChunkSize
    } else if length is Some {
        if length->0 == 0 {
            Body::Ended
        } else {
            Body::Length(length->0 as nat)
        }
    } else if kind is Request {
        Body::Ended
    } else {
        Body::UntilClose
    }
}

/// How far the body takes the input: what is left of it afterwards, how many bytes it took, and the
/// error that stopped it.
pub struct Advance {
    pub body: Body,
    pub taken: int,
    pub error: Option<FramingError>,
}

/// `a` behind `n` bytes that were taken before.
pub open spec fn behind(a: Advance, n: int) -> Advance {
    Advance { taken: a.taken + n, ..a }
}

/// Take as much of `s` as belongs to the body, stopping at the end of the message, the end of the
/// input, or a line that is not complete.
pub open spec fn advance(body: Body, s: Seq<u8>) -> Advance
    decreases s.len(),
{
    let stop = Advance { body, taken: 0, error: None };
    if s.len() == 0 {
        stop
    } else {
        match body {
            Body::Ended => stop,
            Body::Length(n) => if n <= s.len() {
                Advance { body: Body::Ended, taken: n as int, error: None }
            } else {
                Advance {
                    body: Body::Length((n - s.len()) as nat),
                    taken: s.len() as int,
                    error: None,
                }
            },
            Body::UntilClose => Advance { body, taken: s.len() as int, error: None },
            Body::Chunk(n) => if n > s.len() {
                Advance {
                    body: Body::Chunk((n - s.len()) as nat),
                    taken: s.len() as int,
                    error: None,
                }
            } else if n == 0 {
                stop
            } else {
                behind(advance(Body::ChunkSize, s.skip(n as int)), n as int)
            },
            Body::ChunkSize => match ascii::find(s, crlf()) {
                None => if s.len() > MAX_CHUNK_LINE {
                    Advance { body, taken: 0, error: Some(FramingError::ChunkLineTooLong) }
                } else {
                    stop
                },
                Some(i) => if i < 0 || i + 2 > s.len() {
                    stop
                } else {
                    match chunk_size(s.take(i)) {
                        None => Advance {
                            body,
                            taken: 0,
                            error: Some(FramingError::MalformedChunkSize),
                        },
                        Some(size) => if size == 0 {
                            behind(advance(Body::Trailers, s.skip(i + 2)), i + 2)
                        } else if size + 2 > usize::MAX {
                            Advance {
                                body,
                                taken: i + 2,
                                error: Some(FramingError::ChunkSizeTooLarge),
                            }
                        } else {
                            behind(advance(Body::Chunk(size + 2), s.skip(i + 2)), i + 2)
                        },
                    }
                },
            },
            Body::Trailers => match ascii::find(s, crlf()) {
                None => if s.len() > MAX_TRAILER_LINE {
                    Advance { body, taken: 0, error: Some(FramingError::TrailerLineTooLong) }
                } else {
                    stop
                },
                Some(i) => if i < 0 || i + 2 > s.len() {
                    stop
                } else if i == 0 {
                    Advance { body: Body::Ended, taken: 2, error: None }
                } else {
                    behind(advance(Body::Trailers, s.skip(i + 2)), i + 2)
                },
            },
        }
    }
}

/// How many bytes of empty lines stand in front.
pub open spec fn blank_run(s: Seq<u8>) -> int
    decreases s.len(),
{
    if crlf().is_prefix_of(s) {
        2 + blank_run(s.skip(2))
    } else {
        0
    }
}

/// What one feed yields.
pub struct Feed {
    pub header: Seq<u8>,
    pub body: Seq<u8>,
    pub consumed: int,
    pub application_url: Option<SocketAddrV4>,
    /// What is left of the message's body behind it.
    pub rest: Body,
    pub error: Option<FramingError>,
}

/// A feed that was refused.
pub open spec fn refused(rest: Body, e: FramingError) -> Feed {
    Feed {
        header: Seq::empty(),
        body: Seq::empty(),
        consumed: 0,
        application_url: None,
        rest,
        error: Some(e),
    }
}

/// A feed whose body takes what it can of `s`, with `header` in front of it and `n` bytes consumed
/// already.
pub open spec fn feed_body(
    header: Seq<u8>,
    application_url: Option<SocketAddrV4>,
    n: int,
    body: Body,
    s: Seq<u8>,
) -> Feed {
    let a = advance(body, s);
    match a.error {
        Some(e) => refused(a.body, e),
        None => Feed {
            header,
            body: s.take(a.taken),
            consumed: n + a.taken,
            application_url,
            rest: a.body,
            error: None,
        },
    }
}

/// What feeding `input` to a framer yields, with `body` left of the message before.
pub open spec fn fed(kind: Kind, policy: RewritePolicy, body: Body, input: Seq<u8>) -> Feed {
    if body is Ended {
        let blank: int = blank_run(input);
        let rest = input.skip(blank);
        match header_end(rest) {
            None => if rest.len() > MAX_HEADER {
                refused(body, FramingError::HeaderTooLong)
            } else {
                Feed {
                    header: Seq::empty(),
                    body: Seq::empty(),
                    consumed: 0,
                    application_url: None,
                    rest: body,
                    error: None,
                }
            },
            Some(end) => if end > MAX_HEADER {
                refused(body, FramingError::HeaderTooLong)
            } else {
                let block = rest.take(end);
                match scan_block(block, kind) {
                    Err(e) => refused(body, e),
                    Ok(scan) => feed_body(
                        rewritten_block(lines(block), kind, policy),
                        scan.application_url,
                        blank + end,
                        body_after(kind, status_of(block, kind), scan.length, scan.chunked),
                        rest.skip(end),
                    ),
                }
            },
        }
    } else {
        feed_body(Seq::empty(), None, 0, body, input)
    }
}

/// One [`feed`](HttpFraming::feed) call's forwardable output: the rewritten `header` (empty while a
/// body streams across feeds), the `body` (a slice of the fed input, possibly empty), and
/// `consumed`, how many fed bytes to drop. `consumed == 0` means an incomplete message: read more
/// and feed again. `application_url` is the device REST base the message's first `Application-URL`
/// named, before the rewrite, reported on the feed that completes the header.
pub struct Framed<'a> {
    pub header: &'a [u8],
    pub body: &'a [u8],
    pub consumed: usize,
    pub application_url: Option<SocketAddrV4>,
}

/// Per-direction incremental HTTP/1.1 framing with an authority-header rewrite. Buffers only the
/// header (copied into a scratch so it can be rewritten) and forwards the body as a slice of the fed
/// input.
pub struct HttpFraming {
    pub kind: Kind,
    pub rewrite: RewritePolicy,
    pub phase: Phase,
    pub header: Vec<u8>,
    pub body_remaining: usize,
    pub chunk_remaining: usize,
}

impl HttpFraming {
    /// What is left of the message's body.
    pub open spec fn body(self) -> Body {
        match self.phase {
            Phase::Header => Body::Ended,
            Phase::BodyContentLength => Body::Length(self.body_remaining as nat),
            Phase::BodyChunked => if self.chunk_remaining > 0 {
                Body::Chunk(self.chunk_remaining as nat)
            } else {
                Body::ChunkSize
            },
            Phase::BodyChunkedTrailers => Body::Trailers,
            Phase::BodyCloseDelimited => Body::UntilClose,
        }
    }

    /// A framer for one direction, rewriting authority headers per `rewrite`.
    pub fn new(kind: Kind, rewrite: RewritePolicy) -> (r: Self)
        ensures
            r.kind == kind,
            r.rewrite == rewrite,
            r.body() is Ended,
            r.header@ == Seq::<u8>::empty(),
    {
        HttpFraming {
            kind,
            rewrite,
            phase: Phase::Header,
            header: Vec::new(),
            body_remaining: 0,
            chunk_remaining: 0,
        }
    }

    /// Append `line` and its CRLF to the scratch verbatim.
    fn copy_line(&mut self, line: &[u8])
        ensures
            final(self).header@ == old(self).header@ + line@ + crlf(),
            *final(self) == (HttpFraming { header: final(self).header, ..*old(self) }),
    {
        self.header.extend_from_slice(line);
        self.header.push(0x0d);
        self.header.push(0x0a);
        assert(self.header@ =~= old(self).header@ + line@ + crlf());
    }

    /// Append `line` and its CRLF with its bytes between `from` and `to` replaced by `repl`.
    fn splice_line(&mut self, line: &[u8], from: usize, to: usize, repl: SocketAddrV4)
        requires
            from <= to <= line@.len(),
        ensures
            final(self).header@ == old(self).header@ + (line@.take(from as int) + ascii::bytes(
                repl.text(),
            ) + line@.skip(to as int)) + crlf(),
            *final(self) == (HttpFraming { header: final(self).header, ..*old(self) }),
    {
        self.header.extend_from_slice(ascii::take(line, from));
        append_authority(&mut self.header, repl);
        self.header.extend_from_slice(ascii::skip(line, to));
        self.header.push(0x0d);
        self.header.push(0x0a);
        assert(self.header@ =~= old(self).header@ + (line@.take(from as int) + ascii::bytes(
            repl.text(),
        ) + line@.skip(to as int)) + crlf());
    }

    /// Set the body phase from what the header scan found (RFC 7230 section 3.3.3, with the status
    /// line): a `1xx`/`204`/`304` response is bodyless regardless of headers; else chunked, then a
    /// `Content-Length` run; else a request is bodyless and a response is close-delimited.
    fn set_body_phase(&mut self, status: u16, content_length: Option<usize>, chunked: bool)
        ensures
            final(self).body() == body_after(old(self).kind, status, content_length, chunked),
            final(self).body_remaining == (match final(self).body() {
                Body::Length(n) => n,
                _ => 0,
            }),
            final(self).chunk_remaining == 0,
            final(self).kind == old(self).kind,
            final(self).rewrite == old(self).rewrite,
            final(self).header == old(self).header,
    {
        self.body_remaining = 0;
        self.chunk_remaining = 0;
        let bodyless_status = match self.kind {
            Kind::Response => (100 <= status && status <= 199) || status == 204 || status == 304,
            Kind::Request => false,
        };
        self.phase = if bodyless_status {
            Phase::Header
        } else if chunked {
            Phase::BodyChunked
        } else if let Some(n) = content_length {
            if n == 0 {
                Phase::Header
            } else {
                self.body_remaining = n;
                Phase::BodyContentLength
            }
        } else {
            match self.kind {
                Kind::Request => Phase::Header,
                Kind::Response => Phase::BodyCloseDelimited,
            }
        };
    }
}

/// The length of the header block in `input` (up to and including the terminating blank line), or
/// `None` if the blank line has not arrived yet.
pub fn find_header_end(input: &[u8]) -> (r: Option<usize>)
    ensures
        match r {
            Some(end) => header_end(input@) == Some(end as int) && 4 <= end <= input@.len(),
            None => header_end(input@) is None,
        },
{
    let pat: [u8; 4] = [0x0d, 0x0a, 0x0d, 0x0a];
    assert(pat@ =~= header_terminator());
    match ascii::find_bytes(input, &pat) {
        Some(i) => Some(i + 4),
        None => None,
    }
}

/// The byte offset of the first CRLF in `s`, or `None`.
pub fn find_crlf(s: &[u8]) -> (r: Option<usize>)
    ensures
        match r {
            Some(i) => ascii::find(s@, crlf()) == Some(i as int) && i + 2 <= s@.len() <= usize::MAX,
            None => ascii::find(s@, crlf()) is None,
        },
{
    let pat: [u8; 2] = [0x0d, 0x0a];
    assert(pat@ =~= crlf());
    ascii::find_bytes(s, &pat)
}

/// Parse a chunk-size line's hex length, dropping any `;`-delimited chunk extensions.
pub fn parse_chunk_size(line: &[u8]) -> (r: Result<usize, FramingError>)
    ensures
        match chunk_size(line@) {
            Some(n) => r == Ok::<usize, FramingError>(n as usize),
            None => r == Err::<usize, FramingError>(FramingError::MalformedChunkSize),
        },
{
    let hex = ascii::trim(http::cut(line, ';' as u8));
    match number::parse_number(hex, 16, usize::MAX as u64) {
        Some(n) => Ok(n as usize),
        None => Err(FramingError::MalformedChunkSize),
    }
}

/// Parse a `Content-Length` value: surrounding white space is tolerated, but the rest must be a bare
/// integer. `12abc` is rejected, not truncated to 12.
pub fn parse_content_length(value: &[u8]) -> (r: Result<usize, FramingError>)
    ensures
        match content_length(value@) {
            Some(n) => r == Ok::<usize, FramingError>(n as usize),
            None => r == Err::<usize, FramingError>(FramingError::MalformedContentLength),
        },
{
    match number::parse_number(ascii::trim(value), 10, usize::MAX as u64) {
        Some(n) => Ok(n as usize),
        None => Err(FramingError::MalformedContentLength),
    }
}

/// The status code from a response start line (`HTTP/1.1 200 OK` gives 200), or 0 if unparseable. 0
/// is no known bodyless status, so it falls through to the header-driven framing.
pub fn parse_status_code(line: &[u8]) -> (r: u16)
    ensures
        r == status_code(line@),
{
    match ascii::find_byte(line, ' ' as u8) {
        None => 0,
        Some(i) => {
            let rest = ascii::skip(line, i + 1);
            let field = http::cut(rest, ' ' as u8);
            proof {
                let f = ascii::fields(line@, ' ' as u8);
                let g = ascii::fields(rest@, ' ' as u8);
                assert(f =~= seq![line@.take(i as int)] + g);
                lemma_first_field(rest@, ' ' as u8);
                assert(f[1] == g[0]);
            }
            match number::parse_unsigned(field, 10, 0xffff) {
                Some(v) => v as u16,
                None => 0,
            }
        },
    }
}

/// The first field ends at the first separator.
proof fn lemma_first_field(s: Seq<u8>, sep: u8)
    ensures
        ascii::fields(s, sep).len() >= 1,
        ascii::fields(s, sep)[0] == ascii::before(s, sep),
{
    ascii::lemma_run_until(s, ascii::only(sep));
    assert(s.take(s.len() as int) =~= s);
}

/// Whether a `Transfer-Encoding` value's coding list contains `chunked` (case-insensitive), e.g.
/// `gzip, chunked`.
pub fn value_has_chunked(value: &[u8]) -> (r: bool)
    ensures
        r == has_chunked(value@),
    decreases value@.len(),
{
    proof {
        reveal_strlit("chunked");
        lemma_first_field(value@, ',' as u8);
        ascii::lemma_run_until(value@, ascii::only(',' as u8));
    }
    let first = ascii::trim(http::cut(value, ',' as u8));
    let ghost f = ascii::fields(value@, ',' as u8);
    if ascii::eq_ignore_case(first, ascii::ascii_bytes("chunked")) {
        assert(ascii::folded(ascii::trimmed(f[0])) == ascii::folded(ascii::bytes("chunked"@)));
        return true;
    }
    match ascii::find_byte(value, ',' as u8) {
        None => {
            assert(f.len() == 1);
            false
        },
        Some(i) => {
            let r = value_has_chunked(ascii::skip(value, i + 1));
            proof {
                let g = ascii::fields(value@.skip(i + 1), ',' as u8);
                assert(f =~= seq![value@.take(i as int)] + g);
                if r {
                    let k = choose|k: int|
                        0 <= k < g.len() && ascii::folded(ascii::trimmed(#[trigger] g[k]))
                            == ascii::folded(ascii::bytes("chunked"@));
                    assert(f[k + 1] == g[k]);
                } else if has_chunked(value@) {
                    let k = choose|k: int|
                        0 <= k < f.len() && ascii::folded(ascii::trimmed(#[trigger] f[k]))
                            == ascii::folded(ascii::bytes("chunked"@));
                    assert(k > 0);
                    assert(g[k - 1] == f[k]);
                }
            }
            r
        },
    }
}

/// The value of a `Content-Length` line.
fn length_value(line: &[u8]) -> (r: Option<&[u8]>)
    ensures
        match r {
            Some(v) => ascii::after_prefix(line@, ascii::bytes("Content-Length:"@)) == Some(v@),
            None => ascii::after_prefix(line@, ascii::bytes("Content-Length:"@)) is None,
        },
{
    proof {
        reveal_strlit("Content-Length:");
    }
    strip_prefix_ignore_ascii_case(line, ascii::ascii_bytes("Content-Length:"))
}

/// The value of a `Transfer-Encoding` line.
fn coding_value(line: &[u8]) -> (r: Option<&[u8]>)
    ensures
        match r {
            Some(v) => ascii::after_prefix(line@, ascii::bytes("Transfer-Encoding:"@)) == Some(v@),
            None => ascii::after_prefix(line@, ascii::bytes("Transfer-Encoding:"@)) is None,
        },
{
    proof {
        reveal_strlit("Transfer-Encoding:");
    }
    strip_prefix_ignore_ascii_case(line, ascii::ascii_bytes("Transfer-Encoding:"))
}

/// If `line` is an authority header of `kind`'s message, parse its authority, returning the value's
/// offset within `line`, the [`Authority`] (the span to rewrite, whose own offset is relative to
/// that value), and the header it was (carrying the endpoint it named).
///
/// Each header is recognized only on the side that defines it: `Host` on a request,
/// `Application-URL` and `Location` on a response. A peer that sends one on the wrong side gets it
/// forwarded verbatim like any other header, never reported.
pub fn rewritable_authority(line: &[u8], kind: Kind) -> (r: Option<
    (usize, Authority, AuthorityHeader),
>)
    ensures
        match r {
            Some((value_off, found, header)) => {
                &&& authority_field(line@, kind) == Some(
                    (
                        header,
                        value_off + found.offset,
                        value_off + found.offset + found.len,
                    ),
                )
                &&& found.endpoint == header.endpoint()
                &&& ascii::after_prefix(line@, header.prefix()) matches Some(value) && value_off
                    == line@.len() - ascii::trimmed_start(value).len()
                &&& value_off + found.offset + found.len <= line@.len() <= usize::MAX
            },
            None => authority_field(line@, kind) is None,
        },
{
    proof {
        reveal_strlit("Host:");
        reveal_strlit("Application-URL:");
        reveal_strlit("Location:");
    }
    match kind {
        Kind::Request => match strip_prefix_ignore_ascii_case(line, ascii::ascii_bytes("Host:")) {
            Some(value) => match locate(line, value, true) {
                Some((at, found)) => Some((at, found, AuthorityHeader::Host(found.endpoint))),
                None => None,
            },
            None => None,
        },
        Kind::Response => match strip_prefix_ignore_ascii_case(
            line,
            ascii::ascii_bytes("Application-URL:"),
        ) {
            Some(value) => match locate(line, value, false) {
                Some((at, found)) => Some(
                    (at, found, AuthorityHeader::ApplicationUrl(found.endpoint)),
                ),
                None => None,
            },
            None => match strip_prefix_ignore_ascii_case(line, ascii::ascii_bytes("Location:")) {
                Some(value) => match locate(line, value, false) {
                    Some((at, found)) => Some(
                        (at, found, AuthorityHeader::Location(found.endpoint)),
                    ),
                    None => None,
                },
                None => None,
            },
        },
    }
}

/// The authority of the value at the end of `line`, and where that value's text starts.
fn locate(line: &[u8], value: &[u8], bare: bool) -> (r: Option<(usize, Authority)>)
    requires
        value@.len() <= line@.len(),
    ensures
        match r {
            Some((at, found)) => value_authority(line@, value@, bare) == Some(
                (found.endpoint, at + found.offset, at + found.offset + found.len),
            ) && at == line@.len() - ascii::trimmed_start(value@).len() && at + found.offset + found.len <= line@.len() <= usize::MAX,
            None => value_authority(line@, value@, bare) is None,
        },
{
    let text = ascii::trim_start(value);
    proof {
        ascii::lemma_trimmed_start(value@);
    }
    let at: usize = line.len() - text.len();
    match parse_authority(text, bare) {
        Some(found) => Some((at, found)),
        None => None,
    }
}

/// Append `addr` as `host:port` text.
pub fn append_authority(buf: &mut Vec<u8>, addr: SocketAddrV4)
    ensures
        final(buf)@ == old(buf)@ + ascii::bytes(addr.text()),
{
    let mut text: Vec<char> = Vec::new();
    addr.push_text(&mut text);
    assert(text@ =~= addr.text());
    ascii::push_ascii(buf, &text);
}

/// A framing header is no authority header.
proof fn lemma_framing_header_is_no_authority(line: Seq<u8>, kind: Kind)
    ensures
        ascii::after_prefix(line, ascii::bytes("Content-Length:"@)) is Some ==> authority_field(
            line,
            kind,
        ) is None,
        ascii::after_prefix(line, ascii::bytes("Transfer-Encoding:"@)) is Some ==> authority_field(
            line,
            kind,
        ) is None,
{
    reveal_strlit("Content-Length:");
    reveal_strlit("Transfer-Encoding:");
    reveal_strlit("Host:");
    reveal_strlit("Application-URL:");
    reveal_strlit("Location:");
    lemma_first_letter(line, ascii::bytes("Content-Length:"@));
    lemma_first_letter(line, ascii::bytes("Transfer-Encoding:"@));
    lemma_first_letter(line, ascii::bytes("Host:"@));
    lemma_first_letter(line, ascii::bytes("Application-URL:"@));
    lemma_first_letter(line, ascii::bytes("Location:"@));
}

/// What starts with a prefix starts with its first letter.
proof fn lemma_first_letter(line: Seq<u8>, prefix: Seq<u8>)
    requires
        prefix.len() > 0,
    ensures
        ascii::after_prefix(line, prefix) is Some ==> line.len() > 0 && ascii::lower(line[0])
            == ascii::lower(prefix[0]),
{
    if ascii::after_prefix(line, prefix) is Some {
        assert(ascii::folded(line.take(prefix.len() as int))[0] == ascii::folded(prefix)[0]);
    }
}

/// An error of the first lines is the error of all of them.
proof fn lemma_scan_prefix(ls: Seq<Seq<u8>>, kind: Kind, n: int)
    requires
        0 <= n <= ls.len(),
        scan_lines(ls.take(n), kind) is Err,
    ensures
        scan_lines(ls, kind) == scan_lines(ls.take(n), kind),
    decreases ls.len() - n,
{
    if n < ls.len() {
        assert(ls.take(n + 1).drop_last() =~= ls.take(n));
        lemma_scan_prefix(ls, kind, n + 1);
    } else {
        assert(ls.take(n) =~= ls);
    }
}

impl HttpFraming {
    /// Detect the framing headers (`Content-Length` / `Transfer-Encoding`), rewrite a `Host` /
    /// `Application-URL` / `Location` authority, and emit the (possibly rewritten) line to the
    /// scratch.
    fn inspect_and_emit(
        &mut self,
        line: &[u8],
        content_length: &mut Option<usize>,
        chunked: &mut bool,
    ) -> (r: Result<Option<AuthorityHeader>, FramingError>)
        ensures
            match field(line@, old(self).kind) {
                Field::Length(None) => r == Err::<Option<AuthorityHeader>, FramingError>(
                    FramingError::MalformedContentLength,
                ),
                Field::Length(Some(n)) => if *old(content_length) is Some && *old(content_length)
                    != Some(n) {
                    r == Err::<Option<AuthorityHeader>, FramingError>(
                        FramingError::ConflictingContentLength,
                    )
                } else {
                    &&& r == Ok::<Option<AuthorityHeader>, FramingError>(None)
                    &&& *final(content_length) == Some(n)
                    &&& *final(chunked) == *old(chunked)
                },
                Field::Coding(c) => {
                    &&& r == Ok::<Option<AuthorityHeader>, FramingError>(None)
                    &&& *final(content_length) == *old(content_length)
                    &&& *final(chunked) == (*old(chunked) || c)
                },
                Field::Authority(header) => {
                    &&& r == Ok::<Option<AuthorityHeader>, FramingError>(Some(header))
                    &&& *final(content_length) == *old(content_length)
                    &&& *final(chunked) == *old(chunked)
                },
                Field::Other => {
                    &&& r == Ok::<Option<AuthorityHeader>, FramingError>(None)
                    &&& *final(content_length) == *old(content_length)
                    &&& *final(chunked) == *old(chunked)
                },
            },
            r is Ok ==> final(self).header@ == old(self).header@ + rewritten(
                line@,
                old(self).kind,
                old(self).rewrite,
            ) + crlf(),
            *final(self) == (HttpFraming { header: final(self).header, ..*old(self) }),
    {
        proof {
            lemma_framing_header_is_no_authority(line@, self.kind);
        }
        if let Some(value) = length_value(line) {
            let n: usize = match parse_content_length(value) {
                Ok(n) => n,
                Err(e) => return Err(e),
            };
            // A second, differing Content-Length is refused rather than last-wins (RFC 9112 section
            // 6.3). Identical repeats agree, so they are kept.
            match *content_length {
                Some(prev) => if prev != n {
                    return Err(FramingError::ConflictingContentLength);
                },
                None => {},
            }
            *content_length = Some(n);
            self.copy_line(line);
            return Ok(None);
        }
        if let Some(value) = coding_value(line) {
            if value_has_chunked(value) {
                *chunked = true;
            }
            self.copy_line(line);
            return Ok(None);
        }
        if let Some((value_off, found, header)) = rewritable_authority(line, self.kind) {
            if let Some(repl) = self.rewrite.target(header) {
                let from: usize = value_off + found.offset;
                self.splice_line(line, from, from + found.len, repl);
            } else {
                self.copy_line(line);
            }
            return Ok(Some(header));
        }
        self.copy_line(line);
        Ok(None)
    }

    /// Rewrite the authority headers of `block` (a complete header block ending in the blank line)
    /// into the scratch, and set the body phase from its framing. Each line is inspected and written
    /// to the scratch in one pass, so there is no in-place splice to re-offset.
    pub fn scan_and_rewrite_header(&mut self, block: &[u8]) -> (r: Result<
        Option<SocketAddrV4>,
        FramingError,
    >)
        ensures
            match scan_block(block@, old(self).kind) {
                Ok(scan) => {
                    &&& r == Ok::<Option<SocketAddrV4>, FramingError>(scan.application_url)
                    &&& final(self).header@ == rewritten_block(
                        lines(block@),
                        old(self).kind,
                        old(self).rewrite,
                    )
                    &&& final(self).body() == body_after(
                        old(self).kind,
                        status_of(block@, old(self).kind),
                        scan.length,
                        scan.chunked,
                    )
                },
                Err(e) => {
                    &&& r == Err::<Option<SocketAddrV4>, FramingError>(e)
                    &&& final(self).body() == old(self).body()
                },
            },
            final(self).kind == old(self).kind,
            final(self).rewrite == old(self).rewrite,
    {
        let ghost kind = self.kind;
        let ghost policy = self.rewrite;
        let ghost all = lines(block@);
        self.header.clear();
        let mut content_length: Option<usize> = None;
        let mut chunked = false;
        let mut application_url: Option<SocketAddrV4> = None;
        let mut status: u16 = 0;
        let mut pos: usize = 0;
        let mut first = true;
        let ghost mut done: int = 0;
        assert(block@.skip(0) =~= block@);
        assert(all.skip(0) =~= all);
        assert(all.take(0) =~= Seq::<Seq<u8>>::empty());
        while pos < block.len()
            invariant
                pos <= block@.len(),
                all.skip(done) == lines(block@.skip(pos as int)),
                0 <= done <= all.len(),
                all == lines(block@),
                first == (done == 0),
                kind == self.kind,
                policy == self.rewrite,
                self.body() == old(self).body(),
                self.kind == old(self).kind,
                self.rewrite == old(self).rewrite,
                self.header@ == rewritten_block(all.take(done), kind, policy),
                scan_lines(all.take(done), kind) == Ok::<Scan, FramingError>(
                    Scan { length: content_length, chunked, application_url },
                ),
                !first ==> !is_head(all, kind) && status == status_of(block@, kind),
                first ==> status == 0,
            decreases block@.len() - pos,
        {
            let rest = ascii::skip(block, pos);
            assert(all.skip(done) == lines(rest@));
            let found = find_crlf(rest);
            let line_end: usize = match found {
                Some(i) => pos + i,
                None => block.len(),
            };
            let line = &block[pos..line_end];
            proof {
                let tail = lines(rest@);
                if found is Some {
                    assert(line@ =~= rest@.take(found->0 as int));
                } else {
                    assert(line@ =~= rest@);
                }
                assert(tail[0] == line@ && tail.len() >= 1);
                assert(all.skip(done).len() == all.len() - done);
                assert(all[done] == all.skip(done)[0]);
                assert(all.take(done + 1).drop_last() =~= all.take(done));
                assert(all.take(done + 1).last() == line@);
            }
            if first {
                match self.kind {
                    Kind::Response => {
                        status = parse_status_code(line);
                    },
                    Kind::Request => {
                        proof {
                            reveal_strlit("HEAD ");
                        }
                        // Its bodyless response cannot be told from a Content-Length body without
                        // tracking the request method.
                        if ascii::starts_with(line, ascii::ascii_bytes("HEAD ")) {
                            assert(is_head(all, kind));
                            return Err(FramingError::UnsupportedMethod);
                        }
                    },
                }
                self.copy_line(line);
                first = false;
                assert(self.header@ =~= rewritten_block(all.take(done + 1), kind, policy));
            } else {
                let ghost before = Scan { length: content_length, chunked, application_url };
                let ghost stepped = scan_field(before, field(line@, kind));
                assert(scan_lines(all.take(done + 1), kind) == stepped);
                match self.inspect_and_emit(line, &mut content_length, &mut chunked) {
                    Ok(Some(AuthorityHeader::ApplicationUrl(ep))) => {
                        // First wins: a client reads the first of a repeated field (RFC 9110
                        // section 5.3), so the proxy has to dial that same one.
                        if application_url.is_none() {
                            application_url = Some(ep);
                        }
                    },
                    Ok(_) => {},
                    Err(e) => {
                        proof {
                            lemma_scan_prefix(all, kind, done + 1);
                        }
                        return Err(e);
                    },
                }
                assert(stepped == Ok::<Scan, FramingError>(
                    Scan { length: content_length, chunked, application_url },
                ));
            }
            proof {
                let tail = lines(rest@);
                if found is Some {
                    assert(rest@.skip(found->0 + 2) =~= block@.skip(line_end + 2));
                    assert(all.skip(done + 1) =~= tail.skip(1));
                    assert(tail.skip(1) =~= lines(rest@.skip(found->0 + 2)));
                } else {
                    assert(tail.len() == 1);
                    assert(all.skip(done).len() == 1);
                }
                done = done + 1;
            }
            pos = if found.is_some() {
                line_end + 2
            } else {
                line_end
            };
            proof {
                if found is None {
                    assert(block@.skip(pos as int) =~= Seq::<u8>::empty());
                    assert(all.skip(done) =~= lines(block@.skip(pos as int)));
                }
            }
        }
        proof {
            assert(block@.skip(block@.len() as int) =~= Seq::<u8>::empty());
            assert(all.skip(done).len() == 0);
            assert(all.take(done) =~= all);
        }
        if content_length.is_some() && chunked {
            return Err(FramingError::ContentLengthWithChunked);
        }
        self.set_body_phase(status, content_length, chunked);
        Ok(application_url)
    }

    /// Take as much of `input` as belongs to the body; how many bytes that is.
    #[verifier::spinoff_prover]
    #[verifier::rlimit(60)]
    fn take_body(&mut self, input: &[u8]) -> (r: Result<usize, FramingError>)
        ensures
            ({
                let a = advance(old(self).body(), input@);
                &&& final(self).body() == a.body
                &&& match a.error {
                    Some(e) => r == Err::<usize, FramingError>(e),
                    None => r == Ok::<usize, FramingError>(a.taken as usize) && 0 <= a.taken
                        <= input@.len(),
                }
            }),
            final(self).kind == old(self).kind,
            final(self).rewrite == old(self).rewrite,
            final(self).header == old(self).header,
    {
        let mut pos: usize = 0;
        assert(input@.skip(0) =~= input@);
        let ghost whole = advance(self.body(), input@);
        while pos < input.len()
            invariant
                pos <= input@.len(),
                whole == behind(advance(self.body(), input@.skip(pos as int)), pos as int),
                whole == advance(old(self).body(), input@),
                self.kind == old(self).kind,
                self.rewrite == old(self).rewrite,
                self.header == old(self).header,
            decreases input@.len() - pos,
        {
            let rest = ascii::skip(input, pos);
            let left: usize = input.len() - pos;
            match self.phase {
                Phase::Header => {
                    // The next message starts here; one message per feed.
                    return Ok(pos);
                },
                Phase::BodyContentLength => {
                    // A Content-Length body is one contiguous run.
                    if self.body_remaining <= left {
                        let take: usize = self.body_remaining;
                        self.body_remaining = 0;
                        self.phase = Phase::Header;
                        return Ok(pos + take);
                    }
                    self.body_remaining = self.body_remaining - left;
                    return Ok(pos + left);
                },
                Phase::BodyCloseDelimited => {
                    // Forward all; the message ends with the connection.
                    return Ok(pos + left);
                },
                Phase::BodyChunked => {
                    if self.chunk_remaining > 0 {
                        // Forward the current chunk's data and CRLF opaquely.
                        if self.chunk_remaining > left {
                            self.chunk_remaining = self.chunk_remaining - left;
                            return Ok(pos + left);
                        }
                        let take: usize = self.chunk_remaining;
                        assert(rest@.skip(take as int) =~= input@.skip(pos + take));
                        self.chunk_remaining = 0;
                        pos = pos + take;
                    } else {
                        // At a chunk boundary: parse the next chunk-size line.
                        let rel: usize = match find_crlf(rest) {
                            Some(rel) => rel,
                            None => {
                                if left > MAX_CHUNK_LINE {
                                    return Err(FramingError::ChunkLineTooLong);
                                }
                                return Ok(pos);
                            },
                        };
                        let size: usize = match parse_chunk_size(ascii::take(rest, rel)) {
                            Ok(size) => size,
                            Err(e) => return Err(e),
                        };
                        assert(rest@.skip(rel + 2) =~= input@.skip(pos + rel + 2));
                        if size == 0 {
                            self.phase = Phase::BodyChunkedTrailers;
                        } else {
                            // A size whose CRLF does not fit a usize is refused, not wrapped.
                            self.chunk_remaining = match size.checked_add(2) {
                                Some(n) => n,
                                None => return Err(FramingError::ChunkSizeTooLarge),
                            };
                        }
                        pos = pos + rel + 2;
                    }
                },
                Phase::BodyChunkedTrailers => {
                    // Trailer field lines, opaquely, until the blank line ends the body.
                    let rel: usize = match find_crlf(rest) {
                        Some(rel) => rel,
                        None => {
                            if left > MAX_TRAILER_LINE {
                                return Err(FramingError::TrailerLineTooLong);
                            }
                            return Ok(pos);
                        },
                    };
                    assert(rest@.skip(rel + 2) =~= input@.skip(pos + rel + 2));
                    pos = pos + rel + 2;
                    if rel == 0 {
                        self.phase = Phase::Header;
                    }
                },
            }
        }
        Ok(pos)
    }

    /// Feed a contiguous view of the owner's buffered bytes; returns the forwardable [`Framed`].
    /// Each call yields at most one message's header plus as much of its body as arrived; the owner
    /// forwards `header` then `body`, drops `consumed` bytes, and feeds again until `consumed` is 0
    /// (an incomplete message, read more). `header` borrows the framer's scratch and `body` the
    /// input, so the owner forwards both before advancing past `consumed`.
    ///
    /// Each authority header (`Host` on requests, `Application-URL` / `Location` on responses) is
    /// rewritten per the framer's [`RewritePolicy`].
    pub fn feed<'a>(&'a mut self, input: &'a [u8]) -> (r: Result<Framed<'a>, FramingError>)
        ensures
            ({
                let f = fed(old(self).kind, old(self).rewrite, old(self).body(), input@);
                &&& final(self).body() == f.rest
                &&& match f.error {
                    Some(e) => r matches Err(err) && err == e,
                    None => r matches Ok(framed) && framed.header@ == f.header && framed.body@
                        == f.body && framed.consumed == f.consumed && framed.application_url
                        == f.application_url,
                }
            }),
            final(self).kind == old(self).kind,
            final(self).rewrite == old(self).rewrite,
    {
        let total: usize = input.len();
        let mut pos: usize = 0;
        let mut header_complete = false;
        let mut application_url: Option<SocketAddrV4> = None;
        match self.phase {
            Phase::Header => {
                // RFC 9112 section 2.2: empty lines before a start line belong to no message.
                pos = skip_blank_lines(input);
                let rest = ascii::skip(input, pos);
                let end: usize = match find_header_end(rest) {
                    Some(end) => end,
                    None => {
                        if rest.len() > MAX_HEADER {
                            return Err(FramingError::HeaderTooLong);
                        }
                        return Ok(Framed { header: &[], body: &[], consumed: 0, application_url: None });
                    },
                };
                if end > MAX_HEADER {
                    return Err(FramingError::HeaderTooLong);
                }
                match self.scan_and_rewrite_header(ascii::take(rest, end)) {
                    Ok(url) => {
                        application_url = url;
                    },
                    Err(e) => return Err(e),
                }
                assert(rest@.skip(end as int) =~= input@.skip(pos + end));
                pos = pos + end;
                header_complete = true;
            },
            _ => {
                assert(input@.skip(0) =~= input@);
            },
        }
        // As much of the body as arrived, stopping at the message boundary, the end of the input, or
        // an incomplete chunk or trailer line (left for the next feed).
        assert(pos <= total);
        let rest = ascii::skip(input, pos);
        let taken: usize = match self.take_body(rest) {
            Ok(taken) => taken,
            Err(e) => return Err(e),
        };
        Ok(
            Framed {
                header: if header_complete {
                    self.header.as_slice()
                } else {
                    &[]
                },
                body: ascii::take(rest, taken),
                consumed: pos + taken,
                application_url,
            },
        )
    }
}

/// How many bytes of empty lines stand in front of `input`.
fn skip_blank_lines(input: &[u8]) -> (r: usize)
    ensures
        r == blank_run(input@),
        r <= input@.len(),
{
    let mut pos: usize = 0;
    assert(input@.skip(0) =~= input@);
    let pat: [u8; 2] = [0x0d, 0x0a];
    assert(pat@ =~= crlf());
    while ascii::starts_with(ascii::skip(input, pos), &pat)
        invariant
            pos <= input@.len(),
            pat@ == crlf(),
            blank_run(input@) == pos + blank_run(input@.skip(pos as int)),
        decreases input@.len() - pos,
    {
        assert(input.len() == input@.len());
        assert(input@.skip(pos as int).skip(2) =~= input@.skip(pos + 2));
        pos = pos + 2;
    }
    pos
}

} // verus!
