//! The test endpoint of a server: which page a request asks for, how long its
//! body is, and the head of the answer.
use crate::names;
use crate::socks;
use crate::tunnel_client;
use crate::wire;
use vstd::prelude::*;
use vstd::string::*;

verus! {

/// Longest header of a request.
pub const MAX_HEADER: usize = 8192;

/// Longest body, and longest file that is served.
pub const MAX_BODY: usize = 16_777_216;

pub const BULK_REPEATS: u16 = 64;

pub const CHUNK: usize = 16_384;

#[derive(Clone, Copy, Debug, PartialEq, Eq, Structural)]
pub enum WebError {
    HeaderTooLarge,
    UploadTooLarge,
    ContentLength,
    FileTooLarge,
}

impl WebError {
    pub open spec fn text(self) -> Seq<char> {
        match self {
            WebError::HeaderTooLarge => "HTTP header too large"@,
            WebError::UploadTooLarge => "upload too large"@,
            WebError::ContentLength => "invalid content length"@,
            WebError::FileTooLarge => "test file too large"@,
        }
    }

    pub fn message(self) -> (r: &'static str)
        ensures
            r@ == self.text(),
    {
        match self {
            WebError::HeaderTooLarge => "HTTP header too large",
            WebError::UploadTooLarge => "upload too large",
            WebError::ContentLength => "invalid content length",
            WebError::FileTooLarge => "test file too large",
        }
    }
}

/// What is still to be done for a header.
#[derive(Clone, Copy, Debug, PartialEq, Eq, Structural)]
pub enum HeaderState {
    Complete,
    ReadByte,
    TooLarge,
}

pub open spec fn header_end() -> Seq<u8> {
    seq![13u8, 10, 13, 10]
}

/// Whether a header is complete, goes on, or is too long.
pub fn header_state(header: &[u8]) -> (r: HeaderState)
    ensures
        r == if header@.len() >= 4 && header@.skip(header@.len() - 4) == header_end() {
            HeaderState::Complete
        } else if header@.len() < MAX_HEADER {
            HeaderState::ReadByte
        } else {
            HeaderState::TooLarge
        },
{
    let end: [u8; 4] = [13, 10, 13, 10];
    assert(end@ =~= header_end());
    let n: usize = header.len();
    if n >= 4 {
        assert(header@.subrange(n - 4, n as int) =~= header@.skip(n - 4));
        if wire::matches_at(header, n - 4, &end) {
            return HeaderState::Complete;
        }
    }
    if n < MAX_HEADER {
        HeaderState::ReadByte
    } else {
        HeaderState::TooLarge
    }
}

#[derive(Clone, Copy, Debug, PartialEq, Eq, Structural)]
pub enum Page {
    Health,
    Download,
    Stream,
    Bulk,
    StreamDigest,
    BulkDigest,
    FileDigest,
    Upload,
    Unknown,
}

pub open spec fn begins(text: Seq<char>, with: Seq<char>) -> bool {
    with.len() <= text.len() && text.take(with.len() as int) == with
}

fn starts_with(text: &str, with: &str) -> (r: bool)
    ensures
        r == begins(text@, with@),
{
    let n: usize = with.unicode_len();
    if text.unicode_len() < n {
        return false;
    }
    let head: &str = text.substring_char(0, n);
    assert(head@ =~= text@.take(n as int));
    head.to_string() == with.to_string()
}

/// The page that the first line of a request asks for.
pub open spec fn spec_page(request: Seq<char>) -> Page {
    if begins(request, "GET /health "@) {
        Page::Health
    } else if begins(request, "GET /download "@) {
        Page::Download
    } else if begins(request, "GET /stream "@) {
        Page::Stream
    } else if begins(request, "GET /bulk "@) {
        Page::Bulk
    } else if begins(request, "GET /stream-sha256 "@) {
        Page::StreamDigest
    } else if begins(request, "GET /bulk-sha256 "@) {
        Page::BulkDigest
    } else if begins(request, "GET /sha256 "@) {
        Page::FileDigest
    } else if begins(request, "POST /upload "@) {
        Page::Upload
    } else {
        Page::Unknown
    }
}

pub fn page(request: &str) -> (r: Page)
    ensures
        r == spec_page(request@),
{
    if starts_with(request, "GET /health ") {
        Page::Health
    } else if starts_with(request, "GET /download ") {
        Page::Download
    } else if starts_with(request, "GET /stream ") {
        Page::Stream
    } else if starts_with(request, "GET /bulk ") {
        Page::Bulk
    } else if starts_with(request, "GET /stream-sha256 ") {
        Page::StreamDigest
    } else if starts_with(request, "GET /bulk-sha256 ") {
        Page::BulkDigest
    } else if starts_with(request, "GET /sha256 ") {
        Page::FileDigest
    } else if starts_with(request, "POST /upload ") {
        Page::Upload
    } else {
        Page::Unknown
    }
}

/// How often a streamed file is repeated, and the pause after each piece. A
/// bulk request measures throughput, and so is not paced.
#[verifier::allow_in_spec]
pub fn pacing(page: Page, repeats: u16, delay_ms: u64) -> (u16, u64)
    returns
        (if page == Page::Bulk || page == Page::BulkDigest {
            (BULK_REPEATS, 0u64)
        } else {
            (repeats, delay_ms)
        }),
{
    if page == Page::Bulk || page == Page::BulkDigest {
        (BULK_REPEATS, 0)
    } else {
        (repeats, delay_ms)
    }
}

/// A text so many times over.
pub open spec fn repeated(content: Seq<u8>, n: nat) -> Seq<u8>
    decreases n,
{
    if n == 0 {
        Seq::empty()
    } else {
        repeated(content, (n - 1) as nat) + content
    }
}

/// The digest of a file so many times over, as a page.
pub fn stream_digest(content: &Vec<u8>, repeats: u16) -> (r: String)
    ensures
        r@ == tunnel_client::digest_of(repeated(content@, repeats as nat)).push('\n'),
{
    let mut all: Vec<u8> = Vec::new();
    let mut i: u16 = 0;
    while i < repeats
        invariant
            i <= repeats,
            all@ == repeated(content@, i as nat),
        decreases repeats - i,
    {
        wire::put_all(&mut all, content.as_slice());
        i = i + 1;
    }
    let mut out: String = tunnel_client::digest_text(all.as_slice());
    proof {
        reveal_strlit("\n");
        assert("\n"@ =~= seq!['\n']);
    }
    out.append("\n");
    assert(out@ =~= tunnel_client::digest_of(repeated(content@, repeats as nat)).push('\n'));
    out
}

/// Where a line that begins at `i` ends: at a line feed, or at the end.
pub open spec fn line_end(text: Seq<char>, i: int) -> int {
    names::place_of(text, '\n', i)
}

/// A line without the mark that a line feed follows.
pub open spec fn line_at(text: Seq<char>, i: int) -> Seq<char> {
    let end: int = line_end(text, i);
    if end < text.len() && end > i && text[end - 1] == '\r' {
        text.subrange(i, end - 1)
    } else {
        text.subrange(i, end)
    }
}

/// Whether two texts are the same but for the case of letters.
pub open spec fn same_word(a: Seq<char>, b: Seq<char>) -> bool {
    names::lowered(a) == names::lowered(b)
}

/// Whether one of the lines from `i` on says what a client waits for.
pub open spec fn waits_from(text: Seq<char>, i: int) -> bool
    decreases text.len() + 1 - i,
    when 0 <= i
{
    if i >= text.len() {
        false
    } else if same_word(line_at(text, i), "expect: 100-continue"@) {
        true
    } else {
        proof {
            names::lemma_place_of(text, '\n', i);
        }
        waits_from(text, line_end(text, i) + 1)
    }
}

/// The value that a line gives for the length of the body, if it does.
pub open spec fn length_value(line: Seq<char>) -> Option<Seq<char>> {
    let k: int = names::place_of(line, ':', 0);
    if k < line.len() && same_word(line.take(k), "content-length"@) {
        Some(names::without_space(line.skip(k + 1)))
    } else {
        None
    }
}

/// The value of the first line from `i` on that gives one.
pub open spec fn length_from(text: Seq<char>, i: int) -> Option<Seq<char>>
    decreases text.len() + 1 - i,
    when 0 <= i
{
    if i >= text.len() {
        None
    } else {
        match length_value(line_at(text, i)) {
            Some(value) => Some(value),
            None => {
                proof {
                    names::lemma_place_of(text, '\n', i);
                }
                length_from(text, line_end(text, i) + 1)
            },
        }
    }
}

/// A text without the plus before it.
pub open spec fn unsigned(value: Seq<char>) -> Seq<char> {
    if value.len() > 1 && value[0] == '+' {
        value.skip(1)
    } else {
        value
    }
}

pub open spec fn all_digits(text: Seq<char>) -> bool {
    text.len() > 0 && forall|i: int| 0 <= i < text.len() ==> names::is_digit(#[trigger] text[i])
}

/// The number that a text writes: digits, after a plus or not, as far as the
/// machine can hold it.
pub open spec fn number(value: Seq<char>) -> Option<nat> {
    if all_digits(unsigned(value)) && names::digits_value(unsigned(value)) <= usize::MAX {
        Some(names::digits_value(unsigned(value)))
    } else {
        None
    }
}

fn line_stop(text: &str, i: usize) -> (r: usize)
    requires
        i < text@.len(),
    ensures
        r == line_end(text@, i as int),
        i <= r <= text@.len(),
{
    let n: usize = text.unicode_len();
    let mut k: usize = i;
    while k < n && text.get_char(k) != '\n'
        invariant
            i <= k <= n,
            n == text@.len(),
            names::place_of(text@, '\n', k as int) == names::place_of(text@, '\n', i as int),
        decreases n - k,
    {
        k = k + 1;
    }
    k
}

fn line<'a>(text: &'a str, i: usize, end: usize) -> (r: &'a str)
    requires
        i < text@.len(),
        end == line_end(text@, i as int),
        i <= end <= text@.len(),
    ensures
        r@ == line_at(text@, i as int),
{
    if end < text.unicode_len() && end > i && text.get_char(end - 1) == '\r' {
        text.substring_char(i, end - 1)
    } else {
        text.substring_char(i, end)
    }
}

fn equal_words(a: &str, b: &str) -> (r: bool)
    ensures
        r == same_word(a@, b@),
{
    names::lowercase(a) == names::lowercase(b)
}

/// Whether the client waits for leave to send its body.
pub fn expects_continue(text: &str) -> (r: bool)
    ensures
        r == waits_from(text@, 0),
{
    let n: usize = text.unicode_len();
    let mut i: usize = 0;
    while i < n
        invariant
            n == text@.len(),
            i <= n,
            waits_from(text@, i as int) == waits_from(text@, 0),
        decreases n - i,
    {
        let end: usize = line_stop(text, i);
        if equal_words(line(text, i, end), "expect: 100-continue") {
            return true;
        }
        if end >= n {
            assert(!waits_from(text@, end + 1));
            return false;
        }
        i = end + 1;
    }
    false
}

proof fn lemma_digits_grow(s: Seq<char>, i: int)
    requires
        0 <= i <= s.len(),
    ensures
        names::digits_value(s.take(i)) <= names::digits_value(s),
    decreases s.len() - i,
{
    if i < s.len() {
        lemma_digits_grow(s, i + 1);
        assert(s.take(i + 1).drop_last() =~= s.take(i));
    } else {
        assert(s.take(i) =~= s);
    }
}

fn parse_number(value: &str) -> (r: Option<usize>)
    ensures
        match (r, number(value@)) {
            (Some(n), Some(want)) => n == want,
            (None, None) => true,
            _ => false,
        },
{
    let n: usize = value.unicode_len();
    let from: usize = if n > 1 && value.get_char(0) == '+' {
        1
    } else {
        0
    };
    if n == from {
        return None;
    }
    let ghost digits: Seq<char> = unsigned(value@);
    assert(digits =~= value@.skip(from as int));
    let mut total: usize = 0;
    let mut i: usize = from;
    assert(digits.take(0) =~= Seq::empty());
    while i < n
        invariant
            from <= i <= n == value@.len(),
            digits == unsigned(value@),
            digits == value@.skip(from as int),
            total == names::digits_value(digits.take(i - from)),
            forall|j: int| 0 <= j < i - from ==> names::is_digit(#[trigger] digits[j]),
        decreases n - i,
    {
        let c: char = value.get_char(i);
        assert(digits[i - from] == c);
        if !names::is_digit(c) {
            assert(!names::is_digit(digits[i - from]));
            return None;
        }
        let d: usize = (c as u32 - '0' as u32) as usize;
        proof {
            let longer: Seq<char> = digits.take(i - from + 1);
            assert(longer.drop_last() =~= digits.take(i - from));
            assert(longer.last() == c);
            lemma_digits_grow(digits, i - from + 1);
        }
        if total > (usize::MAX - d) / 10 {
            return None;
        }
        total = total * 10 + d;
        i = i + 1;
    }
    assert(digits.take(i - from) =~= digits);
    Some(total)
}

/// The length of the body that a request announces: none is nothing, and one
/// that is no number or too long is an error.
pub fn body_length(text: &str) -> (r: Result<usize, WebError>)
    ensures
        r == match length_from(text@, 0) {
            None => Ok::<usize, WebError>(0),
            Some(value) => match number(value) {
                None => Err(WebError::ContentLength),
                Some(n) => if n <= MAX_BODY {
                    Ok(n as usize)
                } else {
                    Err(WebError::UploadTooLarge)
                },
            },
        },
{
    let n: usize = text.unicode_len();
    let mut i: usize = 0;
    while i < n
        invariant
            n == text@.len(),
            i <= n,
            length_from(text@, i as int) == length_from(text@, 0),
        decreases n - i,
    {
        let end: usize = line_stop(text, i);
        let here: &str = line(text, i, end);
        let k: usize = names::find_char(here, ':', 0);
        let m: usize = here.unicode_len();
        if k < m {
            let key: &str = here.substring_char(0, k);
            assert(key@ =~= here@.take(k as int));
            if equal_words(key, "content-length") {
                let value: &str = here.substring_char(k + 1, m);
                assert(value@ =~= here@.skip(k + 1));
                return match parse_number(names::trim_space(value)) {
                    None => Err(WebError::ContentLength),
                    Some(length) => if length <= MAX_BODY {
                        Ok(length)
                    } else {
                        Err(WebError::UploadTooLarge)
                    },
                };
            }
        }
        if end >= n {
            assert(length_from(text@, end + 1) is None);
            return Ok(0);
        }
        i = end + 1;
    }
    Ok(0)
}

/// Writes a number in digits.
pub fn decimal_text(n: u64) -> (r: String)
    ensures
        r@ == socks::decimal(n as nat),
    decreases n,
{
    let mut out: String = if n < 10 {
        String::new()
    } else {
        decimal_text(n / 10)
    };
    out.append(socks::digit((n % 10) as u8));
    assert(out@ =~= socks::decimal(n as nat));
    out
}

/// The head of an answer whose body has some length. A stream says nothing of
/// its type.
pub open spec fn head_text(length: nat, typed: bool) -> Seq<char> {
    "HTTP/1.1 200 OK\r\nContent-Length: "@ + socks::decimal(length) + (if typed {
        "\r\nContent-Type: application/octet-stream\r\nConnection: close\r\n\r\n"@
    } else {
        "\r\nConnection: close\r\n\r\n"@
    })
}

pub fn head(length: u64, typed: bool) -> (r: String)
    ensures
        r@ == head_text(length as nat, typed),
{
    let mut out: String = "HTTP/1.1 200 OK\r\nContent-Length: ".to_string();
    let number: String = decimal_text(length);
    out.append(number.as_str());
    if typed {
        out.append("\r\nContent-Type: application/octet-stream\r\nConnection: close\r\n\r\n");
    } else {
        out.append("\r\nConnection: close\r\n\r\n");
    }
    out
}

/// Whether a file may be served.
pub fn check_file(content: &[u8]) -> (r: Result<(), WebError>)
    ensures
        r == if content@.len() <= MAX_BODY {
            Ok(())
        } else {
            Err(WebError::FileTooLarge)
        },
{
    if content.len() <= MAX_BODY {
        Ok(())
    } else {
        Err(WebError::FileTooLarge)
    }
}

} // verus!
