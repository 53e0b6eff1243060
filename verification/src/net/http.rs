//! HTTP/1.0 GET over TCP: URLs, host names, the request, when a response
//! is complete, and its body.
use vstd::prelude::*;
use crate::text::{trim_ws, parse_unsigned, split_on, lowercase, views};
use crate::init_parser::lines;

verus! {

/// `s` starts with `p`.
pub open spec fn has_prefix(s: Seq<char>, p: Seq<char>) -> bool {
    s.len() >= p.len() && s.subrange(0, p.len() as int) == p
}

/// Index of the first `c` in `s`, or `None`.
pub open spec fn find_char(s: Seq<char>, c: char, i: int) -> Option<int>
    decreases s.len() - i,
{
    if i < 0 || i >= s.len() {
        None
    } else if s[i] == c {
        Some(i)
    } else {
        find_char(s, c, i + 1)
    }
}

/// Host, port and path of a URL: surrounding white space and an http://
/// or https:// prefix dropped, the path from the first '/' ("/" when
/// there is none), the port after a ':' in the host part (80 when absent
/// or not a number); `None` when the host is empty.
pub open spec fn url_parts(url: Seq<char>) -> Option<(Seq<char>, u16, Seq<char>)> {
    let s = trim_ws(url);
    let rest = if has_prefix(s, "http://"@) {
        s.subrange(7, s.len() as int)
    } else if has_prefix(s, "https://"@) {
        s.subrange(8, s.len() as int)
    } else {
        s
    };
    let slash = match find_char(rest, '/', 0) {
        Some(i) => i,
        None => rest.len() as int,
    };
    let host_part = rest.subrange(0, slash);
    let path = if slash < rest.len() { rest.subrange(slash, rest.len() as int) } else { "/"@ };
    let (host, port) = match find_char(host_part, ':', 0) {
        Some(c) => (
            host_part.subrange(0, c),
            match parse_unsigned(host_part.subrange(c + 1, host_part.len() as int), u16::MAX as nat) {
                Some(p) => p as u16,
                None => 80u16,
            },
        ),
        None => (host_part, 80u16),
    };
    if host.len() == 0 {
        None
    } else {
        Some((host, port, path))
    }
}

proof fn lemma_find_char(s: Seq<char>, c: char, i: int)
    requires
        0 <= i,
    ensures
        find_char(s, c, i) matches Some(k) ==> i <= k < s.len() && s[k] == c,
    decreases s.len() - i,
{
    if i < s.len() && s[i] != c {
        lemma_find_char(s, c, i + 1);
    }
}

fn find_char_exec(cs: &[char], lo: usize, hi: usize, c: char) -> (r: usize)
    requires
        lo <= hi <= cs@.len(),
    ensures
        lo <= r <= hi,
        find_char(cs@.subrange(lo as int, hi as int), c, 0) matches Some(k) ==> 0 <= k < hi - lo,
        match find_char(cs@.subrange(lo as int, hi as int), c, 0) {
            Some(i) => r == lo + i,
            None => r == hi,
        },
{
    let ghost s = cs@.subrange(lo as int, hi as int);
    proof {
        lemma_find_char(s, c, 0);
    }
    let mut i: usize = lo;
    while i < hi && cs[i] != c
        invariant
            lo <= i <= hi <= cs@.len(),
            s == cs@.subrange(lo as int, hi as int),
            find_char(s, c, 0) == find_char(s, c, i - lo),
        decreases hi - i,
    {
        i = i + 1;
    }
    i
}

fn prefix_at(cs: &[char], lo: usize, hi: usize, p: &str) -> (r: bool)
    requires
        lo <= hi <= cs@.len(),
    ensures
        r == has_prefix(cs@.subrange(lo as int, hi as int), p@),
{
    let pc: Vec<char> = crate::text::chars_of(p);
    if hi - lo < pc.len() {
        return false;
    }
    let mut k: usize = 0;
    while k < pc.len()
        invariant
            lo + pc@.len() <= hi <= cs@.len(),
            pc@ == p@,
            k <= pc@.len(),
            forall|j: int| 0 <= j < k ==> cs@[lo + j] == pc@[j],
        decreases pc@.len() - k,
    {
        if cs[lo + k] != pc[k] {
            assert(cs@.subrange(lo as int, hi as int).subrange(0, pc@.len() as int)[k as int] != pc@[k as int]);
            return false;
        }
        k = k + 1;
    }
    assert(cs@.subrange(lo as int, hi as int).subrange(0, pc@.len() as int) =~= pc@);
    true
}

/// Where the text after an http:// or https:// prefix of `cs[lo..hi]`
/// starts.
fn after_scheme(cs: &[char], lo: usize, hi: usize) -> (r: usize)
    requires
        lo <= hi <= cs@.len(),
    ensures
        lo <= r <= hi,
        cs@.subrange(r as int, hi as int) == ({
            let s = cs@.subrange(lo as int, hi as int);
            if has_prefix(s, "http://"@) {
                s.subrange(7, s.len() as int)
            } else if has_prefix(s, "https://"@) {
                s.subrange(8, s.len() as int)
            } else {
                s
            }
        }),
{
    let ghost s = cs@.subrange(lo as int, hi as int);
    proof {
        reveal_strlit("http://");
        reveal_strlit("https://");
    }
    if prefix_at(cs, lo, hi, "http://") {
        assert(cs@.subrange(lo + 7, hi as int) =~= s.subrange(7, s.len() as int));
        lo + 7
    } else if prefix_at(cs, lo, hi, "https://") {
        assert(cs@.subrange(lo + 8, hi as int) =~= s.subrange(8, s.len() as int));
        lo + 8
    } else {
        lo
    }
}

/// Host and port of the host part `cs[start..slash]`.
fn host_and_port(cs: &[char], start: usize, slash: usize) -> (r: (String, u16))
    requires
        start <= slash <= cs@.len(),
    ensures
        ({
            let hp = cs@.subrange(start as int, slash as int);
            match find_char(hp, ':', 0) {
                Some(c) => r.0@ == hp.subrange(0, c) && r.1 == match parse_unsigned(hp.subrange(c + 1, hp.len() as int), u16::MAX as nat) {
                    Some(p) => p as u16,
                    None => 80u16,
                },
                None => r.0@ == hp && r.1 == 80,
            }
        }),
{
    let ghost hp = cs@.subrange(start as int, slash as int);
    let colon: usize = find_char_exec(cs, start, slash, ':');
    if colon < slash {
        let ghost c = colon - start;
        let ghost tail = hp.subrange(c + 1, hp.len() as int);
        assert(find_char(hp, ':', 0) == Some(c));
        assert(cs@.subrange(colon + 1, slash as int) =~= tail);
        assert(cs@.subrange(start as int, colon as int) =~= hp.subrange(0, c));
        proof {
            crate::text::lemma_parse_bound(tail, u16::MAX as nat);
        }
        let parsed: Option<u64> = crate::text::parse_unsigned_chars(cs, colon + 1, slash, u16::MAX as u64);
        let p: u16 = match parsed {
            Some(v) => {
                assert(parse_unsigned(tail, u16::MAX as nat) == Some(v as nat));
                v as u16
            },
            None => 80,
        };
        assert(p == match parse_unsigned(tail, u16::MAX as nat) {
            Some(q) => q as u16,
            None => 80u16,
        });
        (crate::text::string_from_chars(cs, start, colon), p)
    } else {
        (crate::text::string_from_chars(cs, start, slash), 80)
    }
}

/// Splits a URL into host, port and path.
pub fn parse_url(url: &str) -> (r: Option<(String, u16, String)>)
    ensures
        match url_parts(url@) {
            None => r is None,
            Some((h, p, path)) => r matches Some((h2, p2, path2)) && h2@ == h && p2 == p && path2@ == path,
        },
{
    let cs: Vec<char> = crate::text::chars_of(url);
    assert(cs@.subrange(0, cs@.len() as int) =~= cs@);
    let (lo, hi) = crate::text::trim_bounds(cs.as_slice(), 0, cs.len());
    let start: usize = after_scheme(cs.as_slice(), lo, hi);
    let ghost rest = cs@.subrange(start as int, hi as int);
    let slash: usize = find_char_exec(cs.as_slice(), start, hi, '/');
    let path: String = if slash < hi {
        crate::text::string_from_chars(cs.as_slice(), slash, hi)
    } else {
        crate::text::string_of("/")
    };
    assert(cs@.subrange(start as int, slash as int) =~= rest.subrange(0, slash - start));
    assert(slash < hi ==> cs@.subrange(slash as int, hi as int) =~= rest.subrange(slash - start, rest.len() as int));
    let (host, port) = host_and_port(cs.as_slice(), start, slash);
    let hc: Vec<char> = crate::text::chars_of(host.as_str());
    if hc.len() == 0 {
        return None;
    }
    Some((host, port, path))
}

/// The address a host name stands for: a dotted quad of four numbers up
/// to 255, else the built-in table (any other name goes to the QEMU
/// gateway 10.0.2.2); names are compared trimmed and in lower case.
pub open spec fn host_address(host: Seq<char>) -> [u8; 4] {
    let clean = lowercase(trim_ws(host));
    let parts = split_on(clean, '.');
    if parts.len() == 4 && parse_unsigned(parts[0], 255) is Some && parse_unsigned(parts[1], 255) is Some
        && parse_unsigned(parts[2], 255) is Some && parse_unsigned(parts[3], 255) is Some {
        [
            parse_unsigned(parts[0], 255)->0 as u8,
            parse_unsigned(parts[1], 255)->0 as u8,
            parse_unsigned(parts[2], 255)->0 as u8,
            parse_unsigned(parts[3], 255)->0 as u8,
        ]
    } else if clean == "google.com"@ || clean == "www.google.com"@ {
        [142, 250, 190, 46]
    } else if clean == "deix.os"@ || clean == "deix"@ || clean == "localhost"@ {
        [10, 0, 2, 15]
    } else if clean == "gateway"@ || clean == "router"@ {
        [10, 0, 2, 2]
    } else if clean == "wikipedia.org"@ || clean == "www.wikipedia.org"@ {
        [185, 15, 58, 224]
    } else if clean == "github.com"@ || clean == "www.github.com"@ {
        [140, 82, 121, 4]
    } else {
        [10, 0, 2, 2]
    }
}

fn octet(p: &String) -> (r: Option<u8>)
    ensures
        match parse_unsigned(p@, 255) {
            Some(v) => r == Some(v as u8),
            None => r is None,
        },
{
    let cs: Vec<char> = crate::text::chars_of(p.as_str());
    assert(cs@.subrange(0, cs@.len() as int) =~= cs@);
    match crate::text::parse_unsigned_chars(cs.as_slice(), 0, cs.len(), 255) {
        Some(v) => Some(v as u8),
        None => None,
    }
}

/// The IPv4 address of a host: always found, as `host_address` says.
pub fn resolve(host: &str) -> (r: Option<[u8; 4]>)
    ensures
        r == Some(host_address(host@)),
{
    let cs: Vec<char> = crate::text::chars_of(host);
    assert(cs@.subrange(0, cs@.len() as int) =~= cs@);
    let (lo, hi) = crate::text::trim_bounds(cs.as_slice(), 0, cs.len());
    let trimmed: String = crate::text::string_from_chars(cs.as_slice(), lo, hi);
    let clean: String = crate::text::to_lowercase(trimmed.as_str());
    let cc: Vec<char> = crate::text::chars_of(clean.as_str());
    assert(cc@.subrange(0, cc@.len() as int) =~= cc@);
    let parts: Vec<String> = crate::text::split_chars(cc.as_slice(), 0, cc.len(), '.');
    if parts.len() == 4 {
        assert(views(parts@)[0] == parts@[0]@ && views(parts@)[1] == parts@[1]@);
        assert(views(parts@)[2] == parts@[2]@ && views(parts@)[3] == parts@[3]@);
        match (octet(&parts[0]), octet(&parts[1]), octet(&parts[2]), octet(&parts[3])) {
            (Some(a), Some(b), Some(c), Some(d)) => {
                return Some([a, b, c, d]);
            },
            _ => {},
        }
    }
    let c: &str = clean.as_str();
    if crate::text::str_eq(c, "google.com") || crate::text::str_eq(c, "www.google.com") {
        Some([142, 250, 190, 46])
    } else if crate::text::str_eq(c, "deix.os") || crate::text::str_eq(c, "deix") || crate::text::str_eq(c, "localhost") {
        Some([10, 0, 2, 15])
    } else if crate::text::str_eq(c, "gateway") || crate::text::str_eq(c, "router") {
        Some([10, 0, 2, 2])
    } else if crate::text::str_eq(c, "wikipedia.org") || crate::text::str_eq(c, "www.wikipedia.org") {
        Some([185, 15, 58, 224])
    } else if crate::text::str_eq(c, "github.com") || crate::text::str_eq(c, "www.github.com") {
        Some([140, 82, 121, 4])
    } else {
        Some([10, 0, 2, 2])
    }
}

/// Position just past the first "\r\n\r\n" of `raw` from `i` on.
pub open spec fn header_end_from(raw: Seq<u8>, i: int) -> Option<int>
    decreases raw.len() - i,
{
    if i < 0 || i + 4 > raw.len() {
        None
    } else if raw[i] == 13 && raw[i + 1] == 10 && raw[i + 2] == 13 && raw[i + 3] == 10 {
        Some(i + 4)
    } else {
        header_end_from(raw, i + 1)
    }
}

proof fn lemma_header_end_bound(raw: Seq<u8>, i: int)
    requires
        0 <= i,
    ensures
        header_end_from(raw, i) matches Some(p) ==> i + 4 <= p <= raw.len(),
    decreases raw.len() - i,
{
    if i + 4 <= raw.len() && !(raw[i] == 13 && raw[i + 1] == 10 && raw[i + 2] == 13 && raw[i + 3] == 10) {
        lemma_header_end_bound(raw, i + 1);
    }
}

/// Where the body starts: just past the blank line ending the header.
pub fn find_header_end(raw: &[u8]) -> (r: Option<usize>)
    ensures
        match header_end_from(raw@, 0) {
            Some(p) => r == Some(p as usize),
            None => r is None,
        },
        r matches Some(p) ==> 4 <= p <= raw@.len(),
        header_end_from(raw@, 0) matches Some(p) ==> 4 <= p <= raw@.len(),
{
    proof {
        lemma_header_end_bound(raw@, 0);
    }
    let n: usize = raw.len();
    if n < 4 {
        return None;
    }
    let mut i: usize = 0;
    while i <= n - 4
        invariant
            n == raw@.len(),
            n >= 4,
            header_end_from(raw@, 0) == header_end_from(raw@, i as int),
        decreases n - i,
    {
        if raw[i] == 13 && raw[i + 1] == 10 && raw[i + 2] == 13 && raw[i + 3] == 10 {
            return Some(i + 4);
        }
        i = i + 1;
    }
    None
}

pub open spec fn ascii_lower(c: char) -> char {
    if 'A' <= c <= 'Z' {
        ((c as u32) + 32) as char
    } else {
        c
    }
}

pub open spec fn ascii_lowercase(s: Seq<char>) -> Seq<char> {
    s.map_values(|c: char| ascii_lower(c))
}

/// The value of the first "content-length:" line (any ASCII case) from
/// line `i` on, if that value is a number.
pub open spec fn content_length_of(lns: Seq<Seq<char>>, i: int) -> Option<nat>
    decreases lns.len() - i,
{
    if i < 0 || i >= lns.len() {
        None
    } else if has_prefix(ascii_lowercase(lns[i]), "content-length:"@) {
        parse_unsigned(trim_ws(ascii_lowercase(lns[i]).subrange(15, lns[i].len() as int)), usize::MAX as nat)
    } else {
        content_length_of(lns, i + 1)
    }
}

/// Lines from `i` up to `n` that are no Content-Length line are passed over.
proof fn lemma_content_length_skip(lns: Seq<Seq<char>>, i: int, n: int)
    requires
        0 <= i <= n <= lns.len(),
        forall|k: int| i <= k < n ==> !has_prefix(ascii_lowercase(#[trigger] lns[k]), "content-length:"@),
    ensures
        content_length_of(lns, i) == content_length_of(lns, n),
    decreases n - i,
{
    if i < n {
        lemma_content_length_skip(lns, i + 1, n);
    }
}

/// The declared length does not depend on where the Content-Length line
/// stands: after any lines that are not Content-Length lines, and before
/// any lines at all, it is read as if the line stood alone.
pub proof fn lemma_content_length_anywhere(before: Seq<Seq<char>>, line: Seq<char>, after: Seq<Seq<char>>)
    requires
        forall|k: int| 0 <= k < before.len() ==> !has_prefix(ascii_lowercase(#[trigger] before[k]), "content-length:"@),
        has_prefix(ascii_lowercase(line), "content-length:"@),
    ensures
        content_length_of(before + seq![line] + after, 0) == content_length_of(seq![line], 0),
{
    let all = before + seq![line] + after;
    assert forall|k: int| 0 <= k < before.len() implies !has_prefix(ascii_lowercase(#[trigger] all[k]), "content-length:"@) by {
        assert(all[k] == before[k]);
    }
    lemma_content_length_skip(all, 0, before.len() as int);
    assert(all[before.len() as int] == line);
    assert(seq![line][0] == line);
}

/// The Content-Length a header declares: `None` unless it is UTF-8 and
/// its first such line holds a number.
pub open spec fn declared_length(header: Seq<u8>) -> Option<nat> {
    if vstd::utf8::valid_utf8(header) {
        content_length_of(lines(vstd::utf8::decode_utf8(header)), 0)
    } else {
        None
    }
}

fn lower_line(l: &Vec<char>) -> (r: Vec<char>)
    ensures
        r@ == ascii_lowercase(l@),
{
    let mut out: Vec<char> = Vec::new();
    let mut i: usize = 0;
    while i < l.len()
        invariant
            i <= l@.len(),
            out@ == ascii_lowercase(l@.subrange(0, i as int)),
        decreases l@.len() - i,
    {
        let c: char = l[i];
        let d: char = if 'A' <= c && c <= 'Z' { ((c as u8) + 32) as char } else { c };
        assert(d == ascii_lower(c));
        out.push(d);
        i = i + 1;
        assert(out@ =~= ascii_lowercase(l@.subrange(0, i as int)));
    }
    assert(l@.subrange(0, i as int) =~= l@);
    out
}

/// The Content-Length of a header.
pub fn content_length(header: &[u8]) -> (r: Option<usize>)
    ensures
        match declared_length(header@) {
            Some(v) => v <= usize::MAX && r == Some(v as usize),
            None => r is None,
        },
{
    let text: String = match crate::text::utf8_to_string(header) {
        Some(t) => t,
        None => {
            return None;
        },
    };
    let cs: Vec<char> = crate::text::chars_of(text.as_str());
    let ls: Vec<Vec<char>> = crate::init_parser::split_lines(cs.as_slice());
    let ghost lv = ls@.map_values(|l: Vec<char>| l@);
    let mut i: usize = 0;
    while i < ls.len()
        invariant
            lv == ls@.map_values(|l: Vec<char>| l@),
            lv == lines(vstd::utf8::decode_utf8(header@)),
            vstd::utf8::valid_utf8(header@),
            i <= ls@.len(),
            content_length_of(lv, 0) == content_length_of(lv, i as int),
        decreases ls@.len() - i,
    {
        let low: Vec<char> = lower_line(&ls[i]);
        assert(lv[i as int] == ls@[i as int]@);
        assert(low@.subrange(0, low@.len() as int) =~= low@);
        if prefix_at(low.as_slice(), 0, low.len(), "content-length:") {
            proof {
                reveal_strlit("content-length:");
            }
            let (lo, hi) = crate::text::trim_bounds(low.as_slice(), 15, low.len());
            assert(low@.subrange(15, low@.len() as int) =~= ascii_lowercase(lv[i as int]).subrange(15, lv[i as int].len() as int));
            assert(content_length_of(lv, i as int) == parse_unsigned(low@.subrange(lo as int, hi as int), usize::MAX as nat));
            proof {
                crate::text::lemma_parse_bound(low@.subrange(lo as int, hi as int), usize::MAX as nat);
            }
            return match crate::text::parse_unsigned_chars(low.as_slice(), lo, hi, usize::MAX as u64) {
                Some(v) => Some(v as usize),
                None => None,
            };
        }
        i = i + 1;
    }
    None
}

/// Name for `String::from_utf8_lossy`: UTF-8 decoding with invalid
/// sequences replaced by U+FFFD.
pub uninterp spec fn utf8_lossy(b: Seq<u8>) -> Seq<char>;

/// `String::from_utf8_lossy(..).into_owned()`: valid UTF-8 is decoded as
/// it is; how invalid sequences are replaced is not stated here.
#[verifier::external_body]
fn lossy_text(b: &[u8]) -> (r: String)
    ensures
        r@ == utf8_lossy(b@),
        vstd::utf8::valid_utf8(b@) ==> r@ == vstd::utf8::decode_utf8(b@),
{
    String::from_utf8_lossy(b).into_owned()
}

/// The request for a page: GET of `path` with the browser's headers.
pub open spec fn text_request_text(path: Seq<char>, host: Seq<char>) -> Seq<char> {
    "GET "@ + path + " HTTP/1.0\r\nHost: "@ + host
        + "\r\nUser-Agent: DeiX-Browser/2.0 (DeiX OS x86_64)\r\nAccept: text/html,text/plain\r\nConnection: close\r\n\r\n"@
}

/// The request for binary data (an update package).
pub open spec fn binary_request_text(path: Seq<char>, host: Seq<char>) -> Seq<char> {
    "GET "@ + path + " HTTP/1.0\r\nHost: "@ + host + "\r\nUser-Agent: DeiX-OTA/1.0\r\nConnection: close\r\n\r\n"@
}

pub fn text_request(path: &str, host: &str) -> (r: String)
    ensures
        r@ == text_request_text(path@, host@),
{
    let mut s: String = crate::text::string_of("GET ");
    crate::text::push_str(&mut s, path);
    crate::text::push_str(&mut s, " HTTP/1.0\r\nHost: ");
    crate::text::push_str(&mut s, host);
    crate::text::push_str(
        &mut s,
        "\r\nUser-Agent: DeiX-Browser/2.0 (DeiX OS x86_64)\r\nAccept: text/html,text/plain\r\nConnection: close\r\n\r\n",
    );
    s
}

pub fn binary_request(path: &str, host: &str) -> (r: String)
    ensures
        r@ == binary_request_text(path@, host@),
{
    let mut s: String = crate::text::string_of("GET ");
    crate::text::push_str(&mut s, path);
    crate::text::push_str(&mut s, " HTTP/1.0\r\nHost: ");
    crate::text::push_str(&mut s, host);
    crate::text::push_str(&mut s, "\r\nUser-Agent: DeiX-OTA/1.0\r\nConnection: close\r\n\r\n");
    s
}

/// Most bytes a page download keeps reading.
pub const TEXT_LIMIT: usize = 128 * 1024;

/// A page download stops: more than 128 KiB arrived; nothing new came
/// 1.5 s into an answer; the declared length is complete; or 4 s passed.
pub open spec fn text_done(raw: Seq<u8>, got_chunk: bool, elapsed_ms: u64) -> bool {
    ||| got_chunk && raw.len() > TEXT_LIMIT
    ||| !got_chunk && raw.len() > 0 && elapsed_ms > 1500
    ||| (header_end_from(raw, 0) matches Some(he) && declared_length(raw.subrange(0, he)) matches Some(cl) && raw.len()
        >= he + cl)
    ||| elapsed_ms > 4000
}

/// Whether a page download stops, after a receive that did or did not
/// bring a chunk, `elapsed_ms` after it began.
pub fn fetch_text_done(raw: &[u8], got_chunk: bool, elapsed_ms: u64) -> (r: bool)
    ensures
        r == text_done(raw@, got_chunk, elapsed_ms),
{
    if got_chunk && raw.len() > TEXT_LIMIT {
        return true;
    }
    if !got_chunk && raw.len() > 0 && elapsed_ms > 1500 {
        return true;
    }
    match find_header_end(raw) {
        Some(he) => {
            let head: Vec<u8> = crate::bytes::copy_range(raw, 0, he);
            match content_length(head.as_slice()) {
                Some(cl) => {
                    if raw.len() - he >= cl {
                        return true;
                    }
                },
                None => {},
            }
        },
        None => {},
    }
    elapsed_ms > 4000
}

/// A binary download stops: more than `max_body` + 8 KiB arrived; the
/// declared length is complete, or without one any body byte arrived; or
/// 15 s passed.
pub open spec fn binary_done(raw: Seq<u8>, got_chunk: bool, max_body: usize, elapsed_ms: u64) -> bool {
    ||| got_chunk && raw.len() > max_body + 8192
    ||| (header_end_from(raw, 0) matches Some(he) && match declared_length(raw.subrange(0, he)) {
        Some(cl) => raw.len() >= he + cl,
        None => raw.len() > he,
    })
    ||| elapsed_ms > 15000
}

pub fn get_binary_done(raw: &[u8], got_chunk: bool, max_body: usize, elapsed_ms: u64) -> (r: bool)
    ensures
        r == binary_done(raw@, got_chunk, max_body, elapsed_ms),
{
    if got_chunk && raw.len() > max_body && raw.len() - max_body > 8192 {
        return true;
    }
    match find_header_end(raw) {
        Some(he) => {
            let head: Vec<u8> = crate::bytes::copy_range(raw, 0, he);
            match content_length(head.as_slice()) {
                Some(cl) => {
                    if raw.len() - he >= cl {
                        return true;
                    }
                },
                None => {
                    if raw.len() > he {
                        return true;
                    }
                },
            }
        },
        None => {},
    }
    elapsed_ms > 15000
}

/// A binary download with a declared length keeps reading while the body
/// is shorter than that length (before the size limit and the time limit),
/// and stops once all of it arrived.
pub proof fn lemma_binary_waits_for_declared_body(raw: Seq<u8>, got_chunk: bool, max_body: usize, elapsed_ms: u64, he: int, cl: nat)
    requires
        header_end_from(raw, 0) == Some(he),
        declared_length(raw.subrange(0, he)) == Some(cl),
    ensures
        raw.len() - he < cl && elapsed_ms <= 15000 && !(got_chunk && raw.len() > max_body + 8192) ==> !binary_done(
            raw,
            got_chunk,
            max_body,
            elapsed_ms,
        ),
        raw.len() - he >= cl ==> binary_done(raw, got_chunk, max_body, elapsed_ms),
{
}

/// A page download with a declared length likewise keeps reading while
/// its body is short (before the size and time limits, and while chunks
/// keep coming), and stops once all of it arrived.
pub proof fn lemma_text_waits_for_declared_body(raw: Seq<u8>, got_chunk: bool, elapsed_ms: u64, he: int, cl: nat)
    requires
        header_end_from(raw, 0) == Some(he),
        declared_length(raw.subrange(0, he)) == Some(cl),
    ensures
        raw.len() - he < cl && elapsed_ms <= 4000 && got_chunk && raw.len() <= TEXT_LIMIT ==> !text_done(raw, got_chunk, elapsed_ms),
        raw.len() - he >= cl ==> text_done(raw, got_chunk, elapsed_ms),
{
}

/// The page of a response: the text after the header (all of it when
/// there is no header end), invalid UTF-8 replaced.
pub fn text_body(raw: &[u8]) -> (r: Result<String, String>)
    ensures
        raw@.len() == 0 ==> (r matches Err(m) && m@ == "Сервер не прислал ответа"@),
        raw@.len() > 0 ==> (r matches Ok(t) && t@ == utf8_lossy(raw@.subrange(
            match header_end_from(raw@, 0) {
                Some(p) => p,
                None => 0,
            },
            raw@.len() as int,
        ))),
{
    if raw.len() == 0 {
        return Err(crate::text::string_of("Сервер не прислал ответа"));
    }
    let off: usize = match find_header_end(raw) {
        Some(p) => p,
        None => 0,
    };
    let body: Vec<u8> = crate::bytes::copy_range(raw, off, raw.len());
    Ok(lossy_text(body.as_slice()))
}

/// The body of a binary response: the bytes after the header.
pub fn binary_body(raw: &[u8]) -> (r: Result<Vec<u8>, String>)
    ensures
        raw@.len() == 0 ==> (r matches Err(m) && m@ == "No response"@),
        raw@.len() > 0 && header_end_from(raw@, 0) is None ==> (r matches Err(m) && m@ == "No header terminator"@),
        raw@.len() > 0 ==> (header_end_from(raw@, 0) matches Some(p) ==> (r matches Ok(b) && b@ == raw@.subrange(p, raw@.len() as int))),
{
    if raw.len() == 0 {
        return Err(crate::text::string_of("No response"));
    }
    match find_header_end(raw) {
        Some(p) => Ok(crate::bytes::copy_range(raw, p, raw.len())),
        None => Err(crate::text::string_of("No header terminator")),
    }
}

} // verus!
