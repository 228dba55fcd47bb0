//! The small HTTP surface around the upgrade handshake: the request
//! method, header fields, the websocket-upgrade test, and plain response
//! rendering.  The socket itself, and the handshake's key derivation, live
//! outside the library.

use vstd::prelude::*;
use vstd::string::StrSliceExecFns;
use vstd::string::StringExecFns;
use vstd::utf8::{encode_utf8, is_ascii_chars};

verus! {

/// Compares two string slices character by character.
pub fn str_eq(a: &str, b: &str) -> (r: bool)
    ensures
        r == (a@ == b@),
{
    let sa = String::from_str(a);
    let sb = String::from_str(b);
    sa.eq(&sb)
}

/// The request methods the service accepts.
#[derive(Clone, Copy, Debug, PartialEq, Eq, Structural)]
pub enum HTTPMethod {
    /// An HTTP GET request.
    GET,
    /// An HTTP PUT request.
    PUT,
    /// An HTTP POST request.
    POST,
}

/// The method named by a request line's first word, if it is one the
/// service accepts.
pub open spec fn method_from_chars(s: Seq<char>) -> Option<HTTPMethod> {
    if s == "GET"@ {
        Some(HTTPMethod::GET)
    } else if s == "PUT"@ {
        Some(HTTPMethod::PUT)
    } else if s == "POST"@ {
        Some(HTTPMethod::POST)
    } else {
        None
    }
}

impl HTTPMethod {
    /// Reads a method name.  Only the three accepted names are valid input.
    pub fn from_str(string: &str) -> (r: HTTPMethod)
        requires
            method_from_chars(string@) is Some,
        ensures
            Some(r) == method_from_chars(string@),
    {
        match HTTPMethod::try_from_str(string) {
            Some(m) => m,
            None => {
                proof {
                    assert(false);
                }
                HTTPMethod::GET
            },
        }
    }

    /// Reads a method name, or `None` for any name the service does not
    /// accept.
    pub fn try_from_str(string: &str) -> (r: Option<HTTPMethod>)
        ensures
            r == method_from_chars(string@),
    {
        if str_eq(string, "GET") {
            Some(HTTPMethod::GET)
        } else if str_eq(string, "PUT") {
            Some(HTTPMethod::PUT)
        } else if str_eq(string, "POST") {
            Some(HTTPMethod::POST)
        } else {
            None
        }
    }
}

/// Whether a character counts as header whitespace: the blanks that may
/// pad a header value.
pub open spec fn is_header_space(c: char) -> bool {
    c == ' ' || c == '\t'
}

/// The position of the first colon at or after `from`, or the length of
/// the sequence when there is none.
pub open spec fn colon_from(s: Seq<char>, from: int) -> int
    decreases s.len() - from,
{
    if 0 <= from < s.len() {
        if s[from] == ':' {
            from
        } else {
            colon_from(s, from + 1)
        }
    } else {
        s.len() as int
    }
}

/// The position of the first colon in the sequence, or its length when it
/// holds none.
pub open spec fn first_colon(s: Seq<char>) -> int {
    colon_from(s, 0)
}

/// Whether the character sequence holds a colon, so that it can be split
/// into a header name and a value.
pub open spec fn has_colon(s: Seq<char>) -> bool {
    first_colon(s) < s.len()
}

/// Where the run of header whitespace starting at `from` ends.
pub open spec fn space_run(s: Seq<char>, from: int) -> int
    decreases s.len() - from,
{
    if 0 <= from < s.len() && is_header_space(s[from]) {
        space_run(s, from + 1)
    } else {
        from
    }
}

/// One header field: its name and its value, with the padding after the
/// colon removed.
pub struct Header {
    /// The header's name: everything before the first colon.
    pub key: String,
    /// The header's value: everything after the first colon, with leading
    /// blanks removed.
    pub value: String,
}

/// Scans for the first colon in the string.
fn find_colon(s: &str) -> (r: Option<usize>)
    ensures
        r is Some <==> has_colon(s@),
        r matches Some(i) ==> i as int == first_colon(s@) && 0 <= i < s@.len() && s@[i as int]
            == ':',
{
    let n = s.unicode_len();
    let mut i: usize = 0;
    while i < n
        invariant
            i <= n,
            n == s@.len(),
            first_colon(s@) == colon_from(s@, i as int),
        decreases n - i,
    {
        if s.get_char(i) == ':' {
            return Some(i);
        }
        i += 1;
    }
    None
}

/// Scans past the header whitespace starting at `from`.
fn skip_spaces(s: &str, from: usize) -> (r: usize)
    requires
        from <= s@.len(),
    ensures
        r as int == space_run(s@, from as int),
        from <= r <= s@.len(),
{
    let n = s.unicode_len();
    let mut i: usize = from;
    while i < n
        invariant
            from <= i <= n,
            n == s@.len(),
            space_run(s@, from as int) == space_run(s@, i as int),
        decreases n - i,
    {
        let c = s.get_char(i);
        if !(c == ' ' || c == '\t') {
            return i;
        }
        i += 1;
    }
    n
}

impl Header {
    /// Splits a header line at its first colon into the name and the
    /// value, dropping the blanks that pad the value.  A line without a
    /// colon is not a header.
    pub fn from_str(string: &str) -> (h: Header)
        requires
            has_colon(string@),
        ensures
            ({
                let i = first_colon(string@);
                let rest = string@.skip(i + 1);
                &&& h.key@ == string@.take(i)
                &&& h.value@ == rest.skip(space_run(rest, 0))
            }),
    {
        let i = match find_colon(string) {
            Some(i) => i,
            None => {
                proof {
                    assert(false);
                }
                0
            },
        };
        let n = string.unicode_len();
        let key = string.substring_char(0, i).to_owned();
        let rest = string.substring_char(i + 1, n);
        proof {
            assert(rest@ =~= string@.skip(i + 1));
            assert(key@ =~= string@.take(i as int));
        }
        let v0 = skip_spaces(rest, 0);
        let value = rest.substring_char(v0, rest.unicode_len()).to_owned();
        proof {
            assert(value@ =~= rest@.skip(space_run(rest@, 0)));
        }
        Header { key, value }
    }
}

/// The headers' value for a name, first match wins; the comparison is
/// exact and case-sensitive.
pub open spec fn header_lookup(hs: Seq<Header>, name: Seq<char>) -> Option<Seq<char>>
    decreases hs.len(),
{
    if hs.len() == 0 {
        None
    } else if hs[0].key@ == name {
        Some(hs[0].value@)
    } else {
        header_lookup(hs.drop_first(), name)
    }
}

/// The decimal digits of a number, most significant first, as bytes.
pub open spec fn dec_bytes(n: nat) -> Seq<u8>
    decreases n,
{
    if n < 10 {
        seq![(n + 48) as u8]
    } else {
        dec_bytes(n / 10).push((n % 10 + 48) as u8)
    }
}

/// The decimal digits of a number, most significant first, as characters.
pub open spec fn dec_chars(n: nat) -> Seq<char> {
    dec_bytes(n).map(|i: int, b: u8| b as char)
}

/// Every decimal digit byte is an ASCII digit.
proof fn lemma_dec_bytes_ascii(n: nat)
    ensures
        forall|i: int| 0 <= i < dec_bytes(n).len() ==> 48 <= #[trigger] dec_bytes(n)[i] < 58,
    decreases n,
{
    if n >= 10 {
        lemma_dec_bytes_ascii(n / 10);
        assert forall|i: int| 0 <= i < dec_bytes(n).len() implies 48 <= #[trigger] dec_bytes(
            n,
        )[i] < 58 by {
            if i < dec_bytes(n / 10).len() {
                assert(dec_bytes(n)[i] == dec_bytes(n / 10)[i]);
            }
        }
    }
}

/// Writes a number in decimal, most significant digit first.
fn u64_to_dec_bytes(n: u64) -> (r: Vec<u8>)
    ensures
        r@ == dec_bytes(n as nat),
    decreases n,
{
    if n < 10 {
        let mut v: Vec<u8> = Vec::new();
        v.push((n as u8) + 48);
        proof {
            assert(v@ =~= dec_bytes(n as nat));
        }
        v
    } else {
        let mut v = u64_to_dec_bytes(n / 10);
        v.push(((n % 10) as u8) + 48);
        proof {
            assert(v@ =~= dec_bytes(n as nat));
        }
        v
    }
}

/// Builds a string out of ASCII bytes, one character per byte.
fn ascii_to_string(v: Vec<u8>) -> (r: String)
    requires
        forall|i: int| 0 <= i < v@.len() ==> #[trigger] v@[i] < 128,
    ensures
        r@ == v@.map(|i: int, b: u8| b as char),
{
    let ghost chars = v@.map(|i: int, b: u8| b as char);
    proof {
        assert forall|i: int| 0 <= i < chars.len() implies '\0' <= #[trigger] chars[i]
            <= '\u{7f}' by {
            assert(v@[i] < 128);
        }
        assert(is_ascii_chars(chars));
        vstd::utf8::is_ascii_chars_encode_utf8(chars);
        assert forall|i: int| 0 <= i < chars.len() implies encode_utf8(chars)[i] == v@[i] by {
            assert(chars[i] as u8 == encode_utf8(chars)[i]);
        }
        assert(encode_utf8(chars) =~= v@);
        vstd::utf8::encode_utf8_valid_utf8(chars);
        vstd::utf8::encode_utf8_decode_utf8(chars);
    }
    match crate::messages::bytes_to_string(v) {
        Some(s) => s,
        None => {
            proof {
                assert(false);
            }
            String::new()
        },
    }
}

/// Writes a number in decimal, most significant digit first.
pub fn u64_to_dec_string(n: u64) -> (r: String)
    ensures
        r@ == dec_chars(n as nat),
{
    let v = u64_to_dec_bytes(n);
    proof {
        lemma_dec_bytes_ascii(n as nat);
    }
    ascii_to_string(v)
}

/// The full text of a plain HTTP response: the status line, a close
/// header, the content length in bytes, a blank line, and the content.
pub open spec fn response_text(content: Seq<char>, status: nat) -> Seq<char> {
    "HTTP/1.1 "@ + dec_chars(status) + " OK\r\nConnection: Close\r\nContent-Length: "@
        + dec_chars(encode_utf8(content).len()) + "\r\n\r\n"@ + content
}

/// Renders a plain HTTP response around the content, announcing its byte
/// length and closing the connection.
pub fn render_response(content: &str, status: u32) -> (r: String)
    ensures
        r@ == response_text(content@, status as nat),
{
    let mut out = String::from_str("HTTP/1.1 ");
    let status_digits = u64_to_dec_string(status as u64);
    out.append(status_digits.as_str());
    out.append(" OK\r\nConnection: Close\r\nContent-Length: ");
    let len_digits = u64_to_dec_string(content.as_bytes().len() as u64);
    out.append(len_digits.as_str());
    out.append("\r\n\r\n");
    out.append(content);
    proof {
        assert(out@ =~= response_text(content@, status as nat));
    }
    out
}

/// Whether a character is request-line whitespace.
pub open spec fn is_ws_char(c: char) -> bool {
    c == ' ' || c == '\t' || c == '\r' || c == '\n'
}

/// Where the run of whitespace starting at `from` ends.
pub open spec fn ws_from(s: Seq<char>, from: int) -> int
    decreases s.len() - from,
{
    if 0 <= from < s.len() && is_ws_char(s[from]) {
        ws_from(s, from + 1)
    } else {
        from
    }
}

/// Where the run of non-whitespace starting at `from` ends.
pub open spec fn token_from(s: Seq<char>, from: int) -> int
    decreases s.len() - from,
{
    if 0 <= from < s.len() && !is_ws_char(s[from]) {
        token_from(s, from + 1)
    } else {
        from
    }
}

/// The three whitespace-separated words of a request line — method, path
/// and protocol — or `None` unless there are exactly three.
pub open spec fn request_line_parts(s: Seq<char>) -> Option<(Seq<char>, Seq<char>, Seq<char>)> {
    let a0 = ws_from(s, 0);
    let a1 = token_from(s, a0);
    let b0 = ws_from(s, a1);
    let b1 = token_from(s, b0);
    let c0 = ws_from(s, b1);
    let c1 = token_from(s, c0);
    let d0 = ws_from(s, c1);
    if a0 < a1 && b0 < b1 && c0 < c1 && d0 == s.len() {
        Some((s.subrange(a0, a1), s.subrange(b0, b1), s.subrange(c0, c1)))
    } else {
        None
    }
}

/// The request lines as character sequences.
pub open spec fn lines_of(ls: Seq<String>) -> Seq<Seq<char>> {
    ls.map(|i: int, l: String| l@)
}

/// A well-formed request: a request line of exactly three words whose
/// first names an accepted method, followed by lines that each hold a
/// colon.
pub open spec fn request_wf(lines: Seq<Seq<char>>) -> bool {
    &&& lines.len() > 0
    &&& match request_line_parts(lines[0]) {
        Some(p) => method_from_chars(p.0) is Some,
        None => false,
    }
    &&& forall|i: int| 1 <= i < lines.len() ==> has_colon(#[trigger] lines[i])
}

/// Scans past the whitespace starting at `from`.
fn skip_ws(s: &str, from: usize) -> (r: usize)
    requires
        from <= s@.len(),
    ensures
        r as int == ws_from(s@, from as int),
        from <= r <= s@.len(),
{
    let n = s.unicode_len();
    let mut i: usize = from;
    while i < n
        invariant
            from <= i <= n,
            n == s@.len(),
            ws_from(s@, from as int) == ws_from(s@, i as int),
        decreases n - i,
    {
        let c = s.get_char(i);
        if !(c == ' ' || c == '\t' || c == '\r' || c == '\n') {
            return i;
        }
        i += 1;
    }
    n
}

/// Scans to the end of the word starting at `from`.
fn scan_token(s: &str, from: usize) -> (r: usize)
    requires
        from <= s@.len(),
    ensures
        r as int == token_from(s@, from as int),
        from <= r <= s@.len(),
{
    let n = s.unicode_len();
    let mut i: usize = from;
    while i < n
        invariant
            from <= i <= n,
            n == s@.len(),
            token_from(s@, from as int) == token_from(s@, i as int),
        decreases n - i,
    {
        let c = s.get_char(i);
        if c == ' ' || c == '\t' || c == '\r' || c == '\n' {
            return i;
        }
        i += 1;
    }
    n
}

/// A parsed upgrade request: what the service reads of it.  The raw
/// connection that carried it stays outside the library.
pub struct Request {
    /// The request method.
    pub method: HTTPMethod,
    /// The request path.
    pub path: String,
    /// The protocol named on the request line.
    pub protocol: String,
    /// The header lines, in order.
    pub headers: Vec<Header>,
}

impl Request {
    /// Parses the lines of a request head: the request line's three words,
    /// then one header per line.  `None` exactly when the head is
    /// malformed: no lines, not exactly three words, an unknown method, or
    /// a header line without a colon.
    pub fn new(request_lines: &Vec<String>) -> (r: Option<Request>)
        ensures
            r is Some <==> request_wf(lines_of(request_lines@)),
            r matches Some(req) ==> ({
                let lines = lines_of(request_lines@);
                let p = request_line_parts(lines[0]).unwrap();
                &&& Some(req.method) == method_from_chars(p.0)
                &&& req.path@ == p.1
                &&& req.protocol@ == p.2
                &&& req.headers@.len() == lines.len() - 1
                &&& forall|i: int|
                    1 <= i < lines.len() ==> ({
                        let line = #[trigger] lines[i];
                        let c = first_colon(line);
                        let rest = line.skip(c + 1);
                        &&& req.headers@[i - 1].key@ == line.take(c)
                        &&& req.headers@[i - 1].value@ == rest.skip(space_run(rest, 0))
                    })
            }),
    {
        if request_lines.len() == 0 {
            return None;
        }
        let fs: &str = request_lines[0].as_str();
        let n = fs.unicode_len();
        let a0 = skip_ws(fs, 0);
        let a1 = scan_token(fs, a0);
        let b0 = skip_ws(fs, a1);
        let b1 = scan_token(fs, b0);
        let c0 = skip_ws(fs, b1);
        let c1 = scan_token(fs, c0);
        let d0 = skip_ws(fs, c1);
        if !(a0 < a1 && b0 < b1 && c0 < c1 && d0 == n) {
            return None;
        }
        let method = match HTTPMethod::try_from_str(fs.substring_char(a0, a1)) {
            Some(m) => m,
            None => {
                return None;
            },
        };
        let path = fs.substring_char(b0, b1).to_owned();
        let protocol = fs.substring_char(c0, c1).to_owned();
        let mut headers: Vec<Header> = Vec::new();
        let total = request_lines.len();
        let mut i: usize = 1;
        while i < total
            invariant
                1 <= i <= total,
                total == request_lines@.len(),
                headers@.len() == i - 1,
                forall|k: int| 1 <= k < i ==> has_colon(#[trigger] lines_of(request_lines@)[k]),
                forall|k: int|
                    1 <= k < i ==> ({
                        let line = #[trigger] lines_of(request_lines@)[k];
                        let c = first_colon(line);
                        let rest = line.skip(c + 1);
                        &&& headers@[k - 1].key@ == line.take(c)
                        &&& headers@[k - 1].value@ == rest.skip(space_run(rest, 0))
                    }),
            decreases total - i,
        {
            let line: &str = request_lines[i].as_str();
            match find_colon(line) {
                Some(_) => {
                    headers.push(Header::from_str(line));
                },
                None => {
                    proof {
                        assert(!has_colon(lines_of(request_lines@)[i as int]));
                    }
                    return None;
                },
            }
            i += 1;
        }
        Some(Request { method, path, protocol, headers })
    }

    /// Looks a header up by name: the value of the first header bearing
    /// it, compared exactly and case-sensitively.
    pub fn get_header(&self, name: &str) -> (r: Option<String>)
        ensures
            match r {
                Some(v) => header_lookup(self.headers@, name@) == Some(v@),
                None => header_lookup(self.headers@, name@) is None,
            },
    {
        let n = self.headers.len();
        proof {
            assert(self.headers@.skip(0) =~= self.headers@);
        }
        let mut i: usize = 0;
        while i < n
            invariant
                i <= n,
                n == self.headers@.len(),
                header_lookup(self.headers@, name@) == header_lookup(
                    self.headers@.skip(i as int),
                    name@,
                ),
            decreases n - i,
        {
            proof {
                assert(self.headers@.skip(i as int)[0] == self.headers@[i as int]);
                assert(self.headers@.skip(i as int).drop_first() =~= self.headers@.skip(
                    i + 1,
                ));
            }
            if str_eq(self.headers[i].key.as_str(), name) {
                return Some(self.headers[i].value.clone());
            }
            i += 1;
        }
        None
    }

    /// Whether the request asks to be upgraded to a websocket: it must
    /// carry `Connection: Upgrade` and `Upgrade: websocket`.
    pub fn is_websocket(&self) -> (r: bool)
        ensures
            r == (header_lookup(self.headers@, "Connection"@) == Some("Upgrade"@)
                && header_lookup(self.headers@, "Upgrade"@) == Some("websocket"@)),
    {
        let connection = self.get_header("Connection");
        let upgrade = self.get_header("Upgrade");
        match (connection, upgrade) {
            (Some(c), Some(u)) => {
                let r1 = str_eq(c.as_str(), "Upgrade");
                let r2 = str_eq(u.as_str(), "websocket");
                r1 && r2
            },
            _ => false,
        }
    }
}

} // verus!
