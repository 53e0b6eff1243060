//! Building text: characters, decimal and hexadecimal numbers, UTF-8.
use vstd::prelude::*;
use vstd::utf8::{valid_utf8, decode_utf8};

verus! {

/// Appends one character to `s` (std `String::push`).
#[verifier::external_body]
pub(crate) fn push_char(s: &mut String, c: char)
    ensures
        final(s)@ == old(s)@.push(c),
{
    s.push(c)
}

/// Decodes `b` as UTF-8 (std `core::str::from_utf8`), which succeeds exactly
/// on valid UTF-8 and then yields the encoded characters.
#[verifier::external_body]
pub(crate) fn utf8_to_string(b: &[u8]) -> (r: Option<String>)
    ensures
        r is Some <==> valid_utf8(b@),
        r matches Some(s) ==> s@ == decode_utf8(b@),
{
    match core::str::from_utf8(b) {
        Ok(s) => Some(String::from(s)),
        Err(_) => None,
    }
}

/// The character of a decimal or hexadecimal digit value.
pub open spec fn digit_char(d: nat) -> char {
    if d < 10 {
        ((d + 48) as u8) as char
    } else {
        ((d + 87) as u8) as char
    }
}

/// Decimal text of `n`, without leading zeros.
pub open spec fn decimal(n: nat) -> Seq<char>
    decreases n,
{
    if n < 10 {
        seq![digit_char(n)]
    } else {
        decimal(n / 10).push(digit_char(n % 10))
    }
}

/// Lowercase hexadecimal text of `n`, zero-padded to at least `width` digits.
pub open spec fn hex(n: nat, width: nat) -> Seq<char>
    decreases n + width,
{
    if n < 16 && width <= 1 {
        seq![digit_char(n)]
    } else {
        hex(n / 16, if width > 0 { (width - 1) as nat } else { 0 }).push(digit_char(n % 16))
    }
}

/// Octal digits of `n` as ASCII bytes, zero-padded to at least `width`.
pub open spec fn octal(n: nat, width: nat) -> Seq<u8>
    decreases n + width,
{
    if n < 8 && width <= 1 {
        seq![(n + 48) as u8]
    } else {
        octal(n / 8, if width > 0 { (width - 1) as nat } else { 0 }).push(((n % 8) + 48) as u8)
    }
}

fn digit(d: u64) -> (c: char)
    requires
        d < 16,
    ensures
        c == digit_char(d as nat),
{
    if d < 10 {
        ((d as u8) + 48) as char
    } else {
        ((d as u8) + 87) as char
    }
}

/// Appends the decimal text of `n`.
pub fn push_decimal(s: &mut String, n: u64)
    ensures
        final(s)@ == old(s)@ + decimal(n as nat),
    decreases n,
{
    if n >= 10 {
        push_decimal(s, n / 10);
    }
    push_char(s, digit(n % 10));
    assert(s@ =~= old(s)@ + decimal(n as nat));
}

/// Appends the hexadecimal text of `n` padded to `width` digits.
pub fn push_hex(s: &mut String, n: u64, width: u64)
    ensures
        final(s)@ == old(s)@ + hex(n as nat, width as nat),
    decreases n + width,
{
    if n >= 16 || width > 1 {
        push_hex(s, n / 16, if width > 0 { width - 1 } else { 0 });
    }
    push_char(s, digit(n % 16));
    assert(s@ =~= old(s)@ + hex(n as nat, width as nat));
}

/// Appends the octal digits of `n` padded to `width` to a byte vector.
pub fn push_octal(out: &mut Vec<u8>, n: u64, width: u64)
    ensures
        final(out)@ == old(out)@ + octal(n as nat, width as nat),
    decreases n + width,
{
    if n >= 8 || width > 1 {
        push_octal(out, n / 8, if width > 0 { width - 1 } else { 0 });
    }
    out.push(((n % 8) as u8) + 48);
    assert(out@ =~= old(out)@ + octal(n as nat, width as nat));
}

/// A new string holding `t`.
pub fn string_of(t: &str) -> (r: String)
    ensures
        r@ == t@,
{
    String::from_str(t)
}

/// Appends `t` to `s`.
pub fn push_str(s: &mut String, t: &str)
    ensures
        final(s)@ == old(s)@ + t@,
{
    s.append(t)
}


/// The characters of `s`, in order.
pub fn chars_of(s: &str) -> (v: Vec<char>)
    ensures
        v@ == s@,
{
    broadcast use vstd::string::axiom_spec_iter;
    let mut v: Vec<char> = Vec::new();
    for c in it: s.chars()
        invariant
            it.seq() == s@,
            v@ == it.seq().subrange(0, it.index() as int),
    {
        v.push(c);
    }
    v
}

/// Splitting a path at '/', scanning it left to right: the components
/// found so far, and whether the last character read was part of one.
pub open spec fn split_state(s: Seq<char>) -> (Seq<Seq<char>>, bool)
    decreases s.len(),
{
    if s.len() == 0 {
        (Seq::empty(), false)
    } else {
        let (p, w) = split_state(s.drop_last());
        let c = s.last();
        if c == '/' {
            (p, false)
        } else if w {
            (p.update(p.len() - 1, p.last().push(c)), true)
        } else {
            (p.push(seq![c]), true)
        }
    }
}

/// The non-empty components of a '/'-separated path, in order.
pub open spec fn path_parts(s: Seq<char>) -> Seq<Seq<char>> {
    split_state(s).0
}

pub open spec fn views(v: Seq<String>) -> Seq<Seq<char>> {
    v.map_values(|x: String| x@)
}

/// The non-empty components of `path`, split at '/'.
pub fn split_path(path: &str) -> (r: Vec<String>)
    ensures
        views(r@) == path_parts(path@),
{
    let cs: Vec<char> = chars_of(path);
    let mut parts: Vec<String> = Vec::new();
    let mut start: usize = 0;
    let mut in_word: bool = false;
    let mut i: usize = 0;
    assert(cs@.subrange(0, 0) =~= Seq::<char>::empty());
    while i < cs.len()
        invariant
            cs@ == path@,
            start <= i <= cs@.len(),
            in_word ==> start < i,
            split_state(cs@.subrange(0, i as int)).1 == in_word,
            split_state(cs@.subrange(0, i as int)).0 == views(parts@) + (if in_word {
                seq![cs@.subrange(start as int, i as int)]
            } else {
                Seq::<Seq<char>>::empty()
            }),
        decreases cs@.len() - i,
    {
        let ghost pre = cs@.subrange(0, i as int);
        let ghost vp = views(parts@);
        assert(cs@.subrange(0, i + 1).drop_last() =~= pre);
        let c: char = cs[i];
        if c == '/' {
            if in_word {
                let w: String = string_from_chars(cs.as_slice(), start, i);
                parts.push(w);
                assert(views(parts@) =~= vp.push(w@));
            }
            in_word = false;
            assert(views(parts@) + Seq::<Seq<char>>::empty() =~= views(parts@));
        } else if in_word {
            let ghost w = cs@.subrange(start as int, i as int);
            assert(w.push(c) =~= cs@.subrange(start as int, i + 1));
            assert((vp + seq![w]).update((vp + seq![w]).len() - 1, (vp + seq![w]).last().push(c)) =~= vp + seq![w.push(c)]);
        } else {
            start = i;
            in_word = true;
            assert(seq![c] =~= cs@.subrange(i as int, i + 1));
            assert((vp + Seq::<Seq<char>>::empty()).push(seq![c]) =~= vp + seq![cs@.subrange(i as int, i + 1)]);
        }
        i = i + 1;
    }
    assert(cs@.subrange(0, cs@.len() as int) =~= cs@);
    if in_word {
        let ghost vp = views(parts@);
        let w: String = string_from_chars(cs.as_slice(), start, cs.len());
        parts.push(w);
        assert(views(parts@) =~= vp.push(w@));
    } else {
        assert(views(parts@) + Seq::<Seq<char>>::empty() =~= views(parts@));
    }
    parts
}

/// Unicode White_Space, the characters `char::is_whitespace` accepts.
pub open spec fn is_space(c: char) -> bool {
    ||| '\u{9}' <= c <= '\u{d}'
    ||| c == ' '
    ||| c == '\u{85}'
    ||| c == '\u{a0}'
    ||| c == '\u{1680}'
    ||| '\u{2000}' <= c <= '\u{200a}'
    ||| c == '\u{2028}'
    ||| c == '\u{2029}'
    ||| c == '\u{202f}'
    ||| c == '\u{205f}'
    ||| c == '\u{3000}'
}

pub fn is_space_char(c: char) -> (r: bool)
    ensures
        r == is_space(c),
{
    ('\u{9}' <= c && c <= '\u{d}') || c == ' ' || c == '\u{85}' || c == '\u{a0}' || c == '\u{1680}'
        || ('\u{2000}' <= c && c <= '\u{200a}') || c == '\u{2028}' || c == '\u{2029}' || c == '\u{202f}'
        || c == '\u{205f}' || c == '\u{3000}'
}

/// `s` without trailing white space.
pub open spec fn trim_end(s: Seq<char>) -> Seq<char>
    decreases s.len(),
{
    if s.len() > 0 && is_space(s.last()) {
        trim_end(s.drop_last())
    } else {
        s
    }
}


/// `s` without leading white space.
pub open spec fn trim_start(s: Seq<char>) -> Seq<char>
    decreases s.len(),
{
    if s.len() > 0 && is_space(s[0]) {
        trim_start(s.drop_first())
    } else {
        s
    }
}

/// `s` without white space at either end, as `str::trim` leaves it.
pub open spec fn trim_ws(s: Seq<char>) -> Seq<char> {
    trim_start(trim_end(s))
}

/// Bounds `lo..hi` of `cs[from..to]` without white space at either end.
pub fn trim_bounds(cs: &[char], from: usize, to: usize) -> (r: (usize, usize))
    requires
        from <= to <= cs@.len(),
    ensures
        from <= r.0 <= r.1 <= to,
        cs@.subrange(r.0 as int, r.1 as int) == trim_ws(cs@.subrange(from as int, to as int)),
{
    let mut hi: usize = to;
    assert(cs@.subrange(from as int, hi as int) =~= cs@.subrange(from as int, to as int));
    while hi > from && is_space_char(cs[hi - 1])
        invariant
            from <= hi <= to <= cs@.len(),
            trim_end(cs@.subrange(from as int, hi as int)) == trim_end(cs@.subrange(from as int, to as int)),
        decreases hi,
    {
        assert(cs@.subrange(from as int, hi - 1) =~= cs@.subrange(from as int, hi as int).drop_last());
        hi = hi - 1;
    }
    let mut lo: usize = from;
    assert(cs@.subrange(lo as int, hi as int) =~= cs@.subrange(from as int, hi as int));
    while lo < hi && is_space_char(cs[lo])
        invariant
            from <= lo <= hi <= to <= cs@.len(),
            trim_end(cs@.subrange(from as int, to as int)) == cs@.subrange(from as int, hi as int),
            trim_start(cs@.subrange(lo as int, hi as int)) == trim_ws(cs@.subrange(from as int, to as int)),
        decreases hi - lo,
    {
        assert(cs@.subrange(lo + 1, hi as int) =~= cs@.subrange(lo as int, hi as int).drop_first());
        lo = lo + 1;
    }
    (lo, hi)
}

/// Splitting at `sep`, left to right: the finished pieces and the piece
/// being read.
pub open spec fn split_scan(s: Seq<char>, sep: char) -> (Seq<Seq<char>>, Seq<char>)
    decreases s.len(),
{
    if s.len() == 0 {
        (Seq::empty(), Seq::empty())
    } else {
        let (done, cur) = split_scan(s.drop_last(), sep);
        if s.last() == sep {
            (done.push(cur), Seq::empty())
        } else {
            (done, cur.push(s.last()))
        }
    }
}

/// The pieces of `s` between occurrences of `sep`, as `str::split` gives
/// them (empty pieces included).
pub open spec fn split_on(s: Seq<char>, sep: char) -> Seq<Seq<char>> {
    split_scan(s, sep).0.push(split_scan(s, sep).1)
}

/// The pieces of `cs[lo..hi]` between occurrences of `sep`.
pub fn split_chars(cs: &[char], lo: usize, hi: usize, sep: char) -> (r: Vec<String>)
    requires
        lo <= hi <= cs@.len(),
    ensures
        views(r@) == split_on(cs@.subrange(lo as int, hi as int), sep),
{
    let ghost s = cs@.subrange(lo as int, hi as int);
    let mut done: Vec<String> = Vec::new();
    let mut start: usize = lo;
    let mut i: usize = lo;
    assert(s.subrange(0, 0) =~= Seq::<char>::empty());
    while i < hi
        invariant
            lo <= start <= i <= hi <= cs@.len(),
            s == cs@.subrange(lo as int, hi as int),
            split_scan(s.subrange(0, i - lo), sep) == (views(done@), cs@.subrange(start as int, i as int)),
        decreases hi - i,
    {
        let ghost pre = s.subrange(0, i - lo);
        assert(s.subrange(0, i - lo + 1).drop_last() =~= pre);
        assert(s.subrange(0, i - lo + 1).last() == cs@[i as int]);
        if cs[i] == sep {
            let piece: String = string_from_chars(cs, start, i);
            let ghost vd = views(done@);
            done.push(piece);
            assert(views(done@) =~= vd.push(piece@));
            start = i + 1;
            assert(cs@.subrange(start as int, i + 1) =~= Seq::<char>::empty());
        } else {
            assert(cs@.subrange(start as int, i + 1) =~= cs@.subrange(start as int, i as int).push(cs@[i as int]));
        }
        i = i + 1;
    }
    assert(s.subrange(0, hi - lo) =~= s);
    let last: String = string_from_chars(cs, start, hi);
    let ghost vd = views(done@);
    done.push(last);
    assert(views(done@) =~= vd.push(last@));
    done
}

pub open spec fn is_digit(c: char) -> bool {
    '0' <= c <= '9'
}

/// Value of the decimal digits `s` (all assumed digits).
pub open spec fn digits_of(s: Seq<char>) -> nat
    decreases s.len(),
{
    if s.len() == 0 {
        0
    } else {
        digits_of(s.drop_last()) * 10 + ((s.last() as u32) - 48) as nat
    }
}

/// `s` without a leading '+'.
pub open spec fn sign_stripped(s: Seq<char>) -> Seq<char> {
    if s.len() > 0 && s[0] == '+' {
        s.drop_first()
    } else {
        s
    }
}

pub open spec fn all_digits(d: Seq<char>) -> bool {
    forall|i: int| 0 <= i < d.len() ==> is_digit(#[trigger] d[i])
}

/// What `str::parse` gives for an unsigned integer type with maximum
/// `max`: an optional '+', then at least one decimal digit, the value not
/// above `max`; `None` otherwise.
pub open spec fn parse_unsigned(s: Seq<char>, max: nat) -> Option<nat> {
    let d = sign_stripped(s);
    if d.len() == 0 || !all_digits(d) || digits_of(d) > max {
        None
    } else {
        Some(digits_of(d))
    }
}

/// A parsed value is at most the type's maximum.
pub proof fn lemma_parse_bound(s: Seq<char>, max: nat)
    ensures
        parse_unsigned(s, max) matches Some(v) ==> v <= max,
{
}

proof fn lemma_digits_grow(s: Seq<char>, i: int)
    requires
        0 <= i <= s.len(),
        forall|k: int| 0 <= k < s.len() ==> is_digit(#[trigger] s[k]),
    ensures
        digits_of(s.subrange(0, i)) <= digits_of(s),
    decreases s.len() - i,
{
    if i < s.len() {
        lemma_digits_grow(s, i + 1);
        assert(s.subrange(0, i + 1).drop_last() =~= s.subrange(0, i));
        assert(digits_of(s.subrange(0, i + 1)) == digits_of(s.subrange(0, i)) * 10 + ((s[i] as u32) - 48) as nat);
    } else {
        assert(s.subrange(0, i) =~= s);
    }
}

proof fn lemma_parse_none(s: Seq<char>, max: nat, k: int)
    requires
        (0 <= k < sign_stripped(s).len() && !is_digit(sign_stripped(s)[k])) || (all_digits(sign_stripped(s))
            && digits_of(sign_stripped(s)) > max),
    ensures
        parse_unsigned(s, max) is None,
{
}

/// `str::parse` for an unsigned integer of at most `max`, on `cs[lo..hi]`.
pub fn parse_unsigned_chars(cs: &[char], lo: usize, hi: usize, max: u64) -> (r: Option<u64>)
    requires
        lo <= hi <= cs@.len(),
    ensures
        match parse_unsigned(cs@.subrange(lo as int, hi as int), max as nat) {
            Some(v) => r == Some(v as u64),
            None => r is None,
        },
{
    let ghost s = cs@.subrange(lo as int, hi as int);
    let mut start: usize = lo;
    if lo < hi && cs[lo] == '+' {
        start = lo + 1;
    }
    let ghost d = cs@.subrange(start as int, hi as int);
    assert(d =~= sign_stripped(s));
    if start == hi {
        return None;
    }
    let mut v: u64 = 0;
    let mut i: usize = start;
    assert(d.subrange(0, 0) =~= Seq::<char>::empty());
    while i < hi
        invariant
            start <= i <= hi <= cs@.len(),
            start < hi,
            d == cs@.subrange(start as int, hi as int),
            d == sign_stripped(s),
            s == cs@.subrange(lo as int, hi as int),
            forall|k: int| 0 <= k < i - start ==> is_digit(#[trigger] d[k]),
            v == digits_of(d.subrange(0, i - start)),
            v <= max,
        decreases hi - i,
    {
        let c: char = cs[i];
        if !('0' <= c && c <= '9') {
            assert(d[i - start] == c);
            proof {
                lemma_parse_none(s, max as nat, i - start);
            }
            return None;
        }
        let dig: u64 = (c as u32 - 48) as u64;
        assert(d.subrange(0, i - start + 1).drop_last() =~= d.subrange(0, i - start));
        assert(d.subrange(0, i - start + 1).last() == c);
        let nv: u128 = (v as u128) * 10 + dig as u128;
        assert(nv == digits_of(d.subrange(0, i - start + 1)));
        if nv > max as u128 {
            proof {
                if all_digits(d) {
                    lemma_digits_grow(d, i - start + 1);
                    lemma_parse_none(s, max as nat, 0);
                } else {
                    let k = choose|k: int| 0 <= k < d.len() && !is_digit(#[trigger] d[k]);
                    lemma_parse_none(s, max as nat, k);
                }
            }
            return None;
        }
        v = nv as u64;
        i = i + 1;
    }
    assert(d.subrange(0, hi - start) =~= d);
    Some(v)
}

/// Name for `str::to_lowercase`: the Unicode lower-case form of a text.
pub uninterp spec fn lowercase(s: Seq<char>) -> Seq<char>;

/// `str::to_lowercase`; the mapping is Unicode's and is not stated here.
#[verifier::external_body]
pub(crate) fn to_lowercase(s: &str) -> (r: String)
    ensures
        r@ == lowercase(s@),
{
    s.to_lowercase()
}

/// A string holding the characters `cs[lo..hi]`.
pub fn string_from_chars(cs: &[char], lo: usize, hi: usize) -> (r: String)
    requires
        lo <= hi <= cs@.len(),
    ensures
        r@ == cs@.subrange(lo as int, hi as int),
{
    let mut r: String = String::new();
    let mut i: usize = lo;
    while i < hi
        invariant
            lo <= i <= hi <= cs@.len(),
            r@ == cs@.subrange(lo as int, i as int),
        decreases hi - i,
    {
        push_char(&mut r, cs[i]);
        i = i + 1;
        assert(r@ =~= cs@.subrange(lo as int, i as int));
    }
    r
}

} // verus!

verus! {

/// Whether two strings are equal, compared by their UTF-8 bytes.
pub fn str_eq(a: &str, b: &str) -> (r: bool)
    ensures
        r == (a@ == b@),
{
    let x: &[u8] = a.as_bytes();
    let y: &[u8] = b.as_bytes();
    proof {
        vstd::utf8::encode_utf8_valid_utf8(a@);
        vstd::utf8::encode_utf8_valid_utf8(b@);
        vstd::utf8::encode_utf8_decode_utf8(a@);
        vstd::utf8::encode_utf8_decode_utf8(b@);
    }
    if x.len() != y.len() {
        return false;
    }
    let r: bool = crate::bytes::bytes_eq_at(x, 0, y);
    assert(x@.subrange(0, y@.len() as int) =~= x@);
    r
}

} // verus!
