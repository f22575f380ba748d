//! The WebDAV endpoint: addresses, path encoding, and listings.

use vstd::prelude::*;
use vstd::slice::slice_to_vec;
use vstd::string::StringSliceAdditionalSpecFns;
use vstd::utf8::{decode_utf8, encode_utf8, is_ascii_chars, valid_utf8};

use crate::note_ops::trailing_slashes_are_dropped;
use crate::paths::{
    drop_slashes, leading_slashes_are_dropped, lemma_drop_slashes_front, without_leading_slashes,
};
use crate::text::{
    decimal, find_char, find_from, find_text, from_chars, has_prefix, lemma_find_is,
    lemma_find_none, lemma_next_char, lemma_next_is, lemma_triple_at, matches_at, next_char,
    nonempty, nonempty_of_two_lists, opt_text, pieces_end_at_separators, pieces_of_two_texts,
    prefix_of, push_str, split, split_nonempty, starts_with, str_eq, str_owned, suffix_of, texts,
    to_chars, trim, trimmed,
};

verus! {

// ---------------------------------------------------------------------------
// Types
// ---------------------------------------------------------------------------

/// Credentials for a WebDAV endpoint.
#[derive(Clone)]
pub struct WebDavCredentials {
    pub username: String,
    /// Secret; [`WebDavCredentials::redacted`] leaves it out.
    pub password: String,
}

/// A text as `Debug` shows it: in quotes, with escapes.
pub uninterp spec fn debug_text(s: Seq<char>) -> Seq<char>;

/// `Debug` of `str`. What it shows is a function of the text alone; which
/// characters it escapes is left unsaid.
#[verifier::external_body]
fn to_debug_text(s: &str) -> (r: String)
    ensures
        r@ == debug_text(s@),
{
    format!("{s:?}")
}

impl WebDavCredentials {
    /// The credentials for logs: the user name, and no part of the password.
    pub fn redacted(&self) -> (r: String)
        ensures
            r@ == "WebDavCredentials { username: "@ + debug_text(self.username@)
                + ", password: \"[REDACTED]\" }"@,
    {
        let mut out = to_chars("WebDavCredentials { username: ");
        let username = to_debug_text(self.username.as_str());
        push_str(&mut out, username.as_str());
        push_str(&mut out, ", password: \"[REDACTED]\" }");
        from_chars(out.as_slice())
    }
}

/// An entry of a collection's listing.
#[derive(Clone, Debug, PartialEq, Eq)]
pub struct WebDavEntry {
    /// The path relative to the listed collection, without a leading slash;
    /// empty for the collection itself.
    pub path: String,
    pub is_dir: bool,
    /// The size in bytes, 0 when unknown.
    pub size: u64,
    /// The entity tag, if the server gave one.
    pub etag: Option<String>,
}

/// What a [`WebDavEntry`] says.
pub struct WebDavEntryView {
    pub path: Seq<char>,
    pub is_dir: bool,
    pub size: nat,
    pub etag: Option<Seq<char>>,
}

impl View for WebDavEntry {
    type V = WebDavEntryView;

    open spec fn view(&self) -> WebDavEntryView {
        WebDavEntryView {
            path: self.path@,
            is_dir: self.is_dir,
            size: self.size as nat,
            etag: opt_text(self.etag),
        }
    }
}

pub open spec fn webdav_entries(v: Seq<WebDavEntry>) -> Seq<WebDavEntryView> {
    Seq::new(v.len(), |i: int| v[i]@)
}

/// A failure of the remote, as a message.
#[derive(Debug, Clone, PartialEq, Eq)]
pub struct WebDavError(pub String);

// ---------------------------------------------------------------------------
// Encoding
// ---------------------------------------------------------------------------

/// A byte that stands for itself in a path segment.
pub open spec fn unreserved(b: u8) -> bool {
    (0x41 <= b <= 0x5a) || (0x61 <= b <= 0x7a) || (0x30 <= b <= 0x39) || b == 0x2d || b == 0x2e || b
        == 0x5f || b == 0x7e
}

/// The code of the upper case hexadecimal digit that stands for `d`.
pub open spec fn hex_code(d: u8) -> u8 {
    if d < 10 {
        (0x30 + d) as u8
    } else {
        (0x37 + d) as u8
    }
}

/// One byte of a segment, encoded.
pub open spec fn encoded_byte(b: u8) -> Seq<u8> {
    if unreserved(b) {
        seq![b]
    } else {
        seq![0x25u8, hex_code(b / 16), hex_code(b % 16)]
    }
}

/// The bytes of a segment, encoded.
pub open spec fn encoded_bytes(s: Seq<u8>) -> Seq<u8>
    decreases s.len(),
{
    if s.len() == 0 {
        seq![]
    } else {
        encoded_byte(s[0]) + encoded_bytes(s.skip(1))
    }
}

/// ASCII codes as text.
pub open spec fn ascii_text(s: Seq<u8>) -> Seq<char> {
    Seq::new(s.len(), |i: int| s[i] as char)
}

/// A path segment, percent-encoded.
pub open spec fn encoded_segment(segment: Seq<char>) -> Seq<char> {
    ascii_text(encoded_bytes(encode_utf8(segment)))
}

proof fn lemma_encoded_ascii(s: Seq<u8>)
    ensures
        forall|i: int| 0 <= i < encoded_bytes(s).len() ==> (#[trigger] encoded_bytes(s)[i]) < 0x80,
    decreases s.len(),
{
    if s.len() > 0 {
        lemma_encoded_ascii(s.skip(1));
        let head = encoded_byte(s[0]);
        let tail = encoded_bytes(s.skip(1));
        assert forall|i: int| 0 <= i < encoded_bytes(s).len() implies (#[trigger] encoded_bytes(s)[i])
            < 0x80 by {
            if i < head.len() {
                assert(encoded_bytes(s)[i] == head[i]);
            } else {
                assert(encoded_bytes(s)[i] == tail[i - head.len()]);
            }
        }
    }
}

fn hex_upper(d: u8) -> (r: char)
    requires
        d < 16,
    ensures
        r == hex_code(d) as char,
{
    let code: u8 = if d < 10 {
        0x30 + d
    } else {
        0x37 + d
    };
    code as char
}

pub fn urlencode_segment(segment: &str) -> (r: String)
    ensures
        r@ == encoded_segment(segment@),
{
    let bytes = segment.as_bytes();
    let ghost bv = encode_utf8(segment@);
    let mut out: Vec<char> = Vec::new();
    let mut i: usize = 0;
    assert(bv.skip(0) =~= bv);
    assert(out@ + ascii_text(encoded_bytes(bv)) =~= encoded_segment(segment@));
    while i < bytes.len()
        invariant
            0 <= i <= bytes@.len(),
            bv == bytes@,
            encoded_segment(segment@) == out@ + ascii_text(encoded_bytes(bv.skip(i as int))),
        decreases bytes@.len() - i,
    {
        let b: u8 = bytes[i];
        let ghost was = out@;
        if (0x41 <= b && b <= 0x5a) || (0x61 <= b && b <= 0x7a) || (0x30 <= b && b <= 0x39) || b == 0x2d
            || b == 0x2e || b == 0x5f || b == 0x7e {
            out.push(b as char);
        } else {
            out.push('%');
            out.push(hex_upper(b / 16));
            out.push(hex_upper(b % 16));
        }
        proof {
            assert(bv.skip(i as int)[0] == b);
            assert(bv.skip(i as int).skip(1) =~= bv.skip(i + 1));
            assert(out@ =~= was + ascii_text(encoded_byte(b)));
            assert(ascii_text(encoded_byte(b)) + ascii_text(encoded_bytes(bv.skip(i + 1)))
                =~= ascii_text(encoded_bytes(bv.skip(i as int))));
            assert(out@ + ascii_text(encoded_bytes(bv.skip(i + 1))) =~= was + ascii_text(
                encoded_bytes(bv.skip(i as int)),
            ));
        }
        i = i + 1;
    }
    assert(encoded_bytes(bv.skip(i as int)) =~= seq![]);
    assert(out@ =~= encoded_segment(segment@));
    from_chars(out.as_slice())
}

/// The value of a hexadecimal digit's code.
pub open spec fn hex_value(b: u8) -> Option<u8> {
    if 0x30 <= b <= 0x39 {
        Some((b - 0x30) as u8)
    } else if 0x61 <= b <= 0x66 {
        Some((b - 0x61 + 10) as u8)
    } else if 0x41 <= b <= 0x46 {
        Some((b - 0x41 + 10) as u8)
    } else {
        None
    }
}

pub fn hex_val(b: u8) -> (r: Option<u8>)
    ensures
        r == hex_value(b),
{
    if 0x30 <= b && b <= 0x39 {
        Some(b - 0x30)
    } else if 0x61 <= b && b <= 0x66 {
        Some(b - 0x61 + 10)
    } else if 0x41 <= b && b <= 0x46 {
        Some(b - 0x41 + 10)
    } else {
        None
    }
}

/// An escape stands at the start: a percent sign and two hexadecimal digits.
pub open spec fn starts_escape(s: Seq<u8>) -> bool {
    s.len() > 2 && s[0] == 0x25 && hex_value(s[1]) is Some && hex_value(s[2]) is Some
}

/// The bytes with every escape replaced by the byte it stands for.
pub open spec fn decoded_bytes(s: Seq<u8>) -> Seq<u8>
    decreases s.len(),
{
    if s.len() == 0 {
        seq![]
    } else if starts_escape(s) {
        seq![(hex_value(s[1])->0 * 16 + hex_value(s[2])->0) as u8] + decoded_bytes(s.skip(3))
    } else {
        seq![s[0]] + decoded_bytes(s.skip(1))
    }
}

/// What `String::from_utf8_lossy` makes of bytes that are not UTF-8.
pub uninterp spec fn utf8_lossy(bytes: Seq<u8>) -> Seq<char>;

/// Bytes as text.
pub open spec fn bytes_text(bytes: Seq<u8>) -> Seq<char> {
    if valid_utf8(bytes) {
        decode_utf8(bytes)
    } else {
        utf8_lossy(bytes)
    }
}

/// `String::from_utf8_lossy` of the standard library: the text that the bytes
/// encode. Where they are not UTF-8, the text depends on the bytes alone.
#[verifier::external_body]
fn from_utf8_lossy(bytes: &[u8]) -> (r: String)
    ensures
        r@ == (if valid_utf8(bytes@) {
            decode_utf8(bytes@)
        } else {
            utf8_lossy(bytes@)
        }),
{
    String::from_utf8_lossy(bytes).into_owned()
}

/// Decoding goes from left to right: an escape, a percent sign with two hexadecimal
/// digits of either case, becomes the byte it stands for, and any other byte stays,
/// a plus sign and a lone percent sign included.
pub proof fn bytes_are_decoded_one_by_one(b: u8, high: u8, low: u8, rest: Seq<u8>)
    requires
        high < 16,
        low < 16,
    ensures
        b != 0x25 ==> decoded_bytes(seq![b] + rest) == seq![b] + decoded_bytes(rest),
        decoded_bytes(seq![0x25u8, upper_hex()[high as int], upper_hex()[low as int]] + rest) == seq![
            (high * 16 + low) as u8,
        ] + decoded_bytes(rest),
        decoded_bytes(seq![0x25u8, lower_hex()[high as int], lower_hex()[low as int]] + rest) == seq![
            (high * 16 + low) as u8,
        ] + decoded_bytes(rest),
        (rest.len() < 2 || !is_hex(rest[0]) || !is_hex(rest[1])) ==> decoded_bytes(
            seq![0x25u8] + rest,
        ) == seq![0x25u8] + decoded_bytes(rest),
        decoded_bytes(seq![]) == Seq::<u8>::empty(),
{
    let s = seq![b] + rest;
    assert(s.skip(1) =~= rest);
    let u = seq![0x25u8, upper_hex()[high as int], upper_hex()[low as int]] + rest;
    assert(u.skip(3) =~= rest);
    assert(u[1] == upper_hex()[high as int] && u[2] == upper_hex()[low as int]);
    let l = seq![0x25u8, lower_hex()[high as int], lower_hex()[low as int]] + rest;
    assert(l.skip(3) =~= rest);
    assert(l[1] == lower_hex()[high as int] && l[2] == lower_hex()[low as int]);
    let p = seq![0x25u8] + rest;
    assert(p.skip(1) =~= rest);
    assert(rest.len() > 0 ==> p[1] == rest[0]);
    assert(rest.len() > 1 ==> p[2] == rest[1]);
    if rest.len() >= 2 && (!is_hex(rest[0]) || !is_hex(rest[1])) {
        lemma_hex_digits(rest[0]);
        lemma_hex_digits(rest[1]);
    }
}

/// The codes of the digits 0 to 9 and A to F.
pub open spec fn upper_hex() -> Seq<u8> {
    seq![
        0x30u8,
        0x31,
        0x32,
        0x33,
        0x34,
        0x35,
        0x36,
        0x37,
        0x38,
        0x39,
        0x41,
        0x42,
        0x43,
        0x44,
        0x45,
        0x46,
    ]
}

/// The codes of the digits 0 to 9 and a to f.
pub open spec fn lower_hex() -> Seq<u8> {
    seq![
        0x30u8,
        0x31,
        0x32,
        0x33,
        0x34,
        0x35,
        0x36,
        0x37,
        0x38,
        0x39,
        0x61,
        0x62,
        0x63,
        0x64,
        0x65,
        0x66,
    ]
}

/// The code of a hexadecimal digit.
pub open spec fn is_hex(b: u8) -> bool {
    upper_hex().contains(b) || lower_hex().contains(b)
}

proof fn lemma_hex_digits(b: u8)
    ensures
        hex_value(b) is Some ==> is_hex(b),
{
    if hex_value(b) is Some {
        if b <= 0x39 {
            assert(upper_hex()[b - 0x30] == b);
        } else if b <= 0x46 {
            assert(upper_hex()[b - 0x41 + 10] == b);
        } else {
            assert(lower_hex()[b - 0x61 + 10] == b);
        }
    }
}

/// Letters, digits and the four marks `-`, `.`, `_` and `~` stand for themselves in
/// an encoded segment; every other byte becomes a percent sign and its two upper case
/// hexadecimal digits. Bytes are encoded one by one.
pub proof fn bytes_are_encoded_one_by_one(b: u8, rest: Seq<u8>)
    ensures
        encoded_bytes(seq![b] + rest) == (if ('A' as u8 <= b <= 'Z' as u8) || ('a' as u8 <= b <= 'z'
            as u8) || ('0' as u8 <= b <= '9' as u8) || b == '-' as u8 || b == '.' as u8 || b == '_'
            as u8 || b == '~' as u8 {
            seq![b]
        } else {
            seq!['%' as u8, upper_hex()[b as int / 16], upper_hex()[b as int % 16]]
        }) + encoded_bytes(rest),
        encoded_bytes(seq![]) == Seq::<u8>::empty(),
{
    let s = seq![b] + rest;
    assert(s.skip(1) =~= rest);
    assert(b / 16 < 16 && b % 16 < 16);
    assert(hex_code(b / 16) == upper_hex()[b as int / 16]);
    assert(hex_code(b % 16) == upper_hex()[b as int % 16]);
}

/// A path with its escapes decoded.
pub open spec fn decoded_path(s: Seq<char>) -> Seq<char> {
    bytes_text(decoded_bytes(encode_utf8(s)))
}

proof fn lemma_hex_round_trip(d: u8)
    requires
        d < 16,
    ensures
        hex_value(hex_code(d)) == Some(d),
{
}

/// Decoding the encoded bytes gives the bytes.
pub proof fn decoding_undoes_encoding(s: Seq<u8>)
    ensures
        decoded_bytes(encoded_bytes(s)) == s,
    decreases s.len(),
{
    if s.len() > 0 {
        decoding_undoes_encoding(s.skip(1));
        let b = s[0];
        let e = encoded_bytes(s);
        let rest = encoded_bytes(s.skip(1));
        if unreserved(b) {
            assert(e[0] == b);
            assert(!starts_escape(e));
            assert(e.skip(1) =~= rest);
        } else {
            lemma_hex_round_trip(b / 16);
            lemma_hex_round_trip(b % 16);
            assert(e[0] == 0x25);
            assert(e[1] == hex_code(b / 16));
            assert(e[2] == hex_code(b % 16));
            assert(e.skip(3) =~= rest);
        }
        assert(seq![b] + s.skip(1) =~= s);
    }
}

/// Decoding an encoded segment gives the segment.
pub proof fn decoding_an_encoded_segment(segment: Seq<char>)
    ensures
        decoded_path(encoded_segment(segment)) == segment,
{
    let bytes = encode_utf8(segment);
    let codes = encoded_bytes(bytes);
    lemma_encoded_ascii(bytes);
    let text = ascii_text(codes);
    assert(is_ascii_chars(text)) by {
        assert forall|i: int| 0 <= i < text.len() implies '\0' <= #[trigger] text[i] <= '\u{7f}' by {
            assert(codes[i] < 0x80);
        }
    }
    vstd::utf8::is_ascii_chars_encode_utf8(text);
    assert(encode_utf8(text) =~= codes);
    decoding_undoes_encoding(bytes);
    vstd::utf8::encode_utf8_valid_utf8(segment);
    vstd::utf8::encode_utf8_decode_utf8(segment);
}

/// Decodes the escapes of a path. A plus sign stands for itself.
pub fn percent_decode(input: &str) -> (r: String)
    ensures
        r@ == decoded_path(input@),
{
    let bytes = input.as_bytes();
    let ghost bv = encode_utf8(input@);
    let mut out: Vec<u8> = Vec::new();
    let mut i: usize = 0;
    assert(bv.skip(0) =~= bv);
    assert(out@ + decoded_bytes(bv) =~= decoded_bytes(bv));
    while i < bytes.len()
        invariant
            0 <= i <= bytes@.len(),
            bv == bytes@,
            decoded_bytes(bv) == out@ + decoded_bytes(bv.skip(i as int)),
        decreases bytes@.len() - i,
    {
        let ghost was = out@;
        let ghost rest = bv.skip(i as int);
        assert(rest[0] == bytes@[i as int]);
        let mut byte: u8 = bytes[i];
        let mut step: usize = 1;
        if bytes[i] == 0x25 && bytes.len() - i > 2 {
            assert(rest[1] == bytes@[i + 1]);
            assert(rest[2] == bytes@[i + 2]);
            match (hex_val(bytes[i + 1]), hex_val(bytes[i + 2])) {
                (Some(hi), Some(lo)) => {
                    byte = hi * 16 + lo;
                    step = 3;
                },
                _ => {},
            }
        }
        out.push(byte);
        proof {
            assert(rest.skip(step as int) =~= bv.skip(i + step));
            assert(out@ + decoded_bytes(bv.skip(i + step)) =~= was + decoded_bytes(rest));
        }
        i = i + step;
    }
    assert(decoded_bytes(bv.skip(i as int)) =~= seq![]);
    assert(out@ =~= decoded_bytes(bv));
    from_utf8_lossy(out.as_slice())
}

// ---------------------------------------------------------------------------
// Addresses
// ---------------------------------------------------------------------------

/// `s` without the slashes at its end.
pub open spec fn drop_trailing_slashes(s: Seq<char>) -> Seq<char> {
    crate::note_ops::trim_trailing_slashes(s)
}

pub fn without_trailing_slashes(s: &[char]) -> (r: &[char])
    ensures
        r@ == drop_trailing_slashes(s@),
{
    let mut j: usize = s.len();
    assert(s@.take(j as int) =~= s@);
    while j > 0 && s[j - 1] == '/'
        invariant
            0 <= j <= s@.len(),
            drop_trailing_slashes(s@) == drop_trailing_slashes(s@.take(j as int)),
        decreases j,
    {
        assert(s@.take(j as int).last() == s@[j - 1]);
        assert(s@.take(j as int).drop_last() =~= s@.take(j - 1));
        j = j - 1;
    }
    proof {
        if j > 0 {
            assert(s@.take(j as int).last() == s@[j - 1]);
        }
    }
    prefix_of(s, j)
}

/// The address is a web address.
pub open spec fn web_address(base: Seq<char>) -> bool {
    starts_with(base, "http://"@) || starts_with(base, "https://"@)
}

/// An endpoint: its address and the credentials for it.
#[derive(Clone)]
pub struct WebDavClient {
    base: String,
    credentials: Option<WebDavCredentials>,
}

/// The segments, encoded, with a slash between neighbours.
pub open spec fn encoded_path(segments: Seq<Seq<char>>) -> Seq<char>
    decreases segments.len(),
{
    if segments.len() == 0 {
        seq![]
    } else if segments.len() == 1 {
        encoded_segment(segments[0])
    } else {
        encoded_path(segments.drop_last()) + seq!['/'] + encoded_segment(segments.last())
    }
}

/// `s` with a slash at its end.
pub open spec fn with_slash(s: Seq<char>) -> Seq<char> {
    if s.len() > 0 && s.last() == '/' {
        s
    } else {
        s.push('/')
    }
}

/// The address of a file below an endpoint.
pub open spec fn file_address(base: Seq<char>, relative: Seq<char>) -> Seq<char> {
    with_slash(base) + encoded_path(nonempty(split(relative, '/')))
}

impl WebDavClient {
    /// The endpoint's address, without slashes at its end.
    pub closed spec fn base(&self) -> Seq<char> {
        self.base@
    }

    pub fn new(base_url: &str, credentials: Option<WebDavCredentials>) -> (r: Result<
        Self,
        WebDavError,
    >)
        ensures
            match r {
                Ok(client) => web_address(drop_trailing_slashes(trim(base_url@))) && client.base()
                    == drop_trailing_slashes(trim(base_url@)) && client.credentials()
                    == credentials,
                Err(e) => !web_address(drop_trailing_slashes(trim(base_url@))) && e.0@
                    == "WebDAV URL must be http(s)://"@,
            },
    {
        let chars = to_chars(base_url);
        let base = without_trailing_slashes(trimmed(chars.as_slice()));
        let http = to_chars("http://");
        let https = to_chars("https://");
        if !(has_prefix(base, http.as_slice()) || has_prefix(base, https.as_slice())) {
            return Err(WebDavError(str_owned("WebDAV URL must be http(s)://")));
        }
        Ok(WebDavClient { base: from_chars(base), credentials })
    }

    pub closed spec fn credentials(&self) -> Option<WebDavCredentials> {
        self.credentials
    }

    /// The credentials to send, if there are any.
    pub fn auth(&self) -> (r: Option<&WebDavCredentials>)
        ensures
            match r {
                Some(c) => self.credentials() == Some(*c),
                None => self.credentials() is None,
            },
    {
        match &self.credentials {
            Some(c) => Some(c),
            None => None,
        }
    }

    /// The address of a file: the segments of the path, encoded, below the
    /// endpoint.
    pub fn file_url(&self, relative: &str) -> (r: String)
        ensures
            r@ == file_address(self.base(), relative@),
    {
        let mut url = to_chars(self.base.as_str());
        let n: usize = url.len();
        if n == 0 || url[n - 1] != '/' {
            url.push('/');
        }
        assert(url@ =~= with_slash(self.base()));
        let ghost head = url@;
        let chars = to_chars(relative);
        let segments = split_nonempty(chars.as_slice(), '/');
        let ghost sv = texts(segments@);
        let mut i: usize = 0;
        assert(url@ =~= head + encoded_path(sv.take(0)));
        while i < segments.len()
            invariant
                0 <= i <= segments@.len(),
                sv == texts(segments@),
                url@ == head + encoded_path(sv.take(i as int)),
            decreases segments@.len() - i,
        {
            if i > 0 {
                url.push('/');
            }
            let text = from_chars(segments[i].as_slice());
            let encoded = urlencode_segment(text.as_str());
            push_str(&mut url, encoded.as_str());
            proof {
                let t = sv.take(i + 1);
                assert(t.drop_last() =~= sv.take(i as int));
                assert(t.last() == sv[i as int]);
                assert(url@ =~= head + encoded_path(t));
            }
            i = i + 1;
        }
        assert(sv.take(i as int) =~= sv);
        from_chars(url.as_slice())
    }

    /// The address of a collection: that of a file, with a slash at its end.
    pub fn collection_url(&self, relative: &str) -> (r: String)
        ensures
            r@ == with_slash(file_address(self.base(), relative@)),
    {
        let url = self.file_url(relative);
        let mut out = to_chars(url.as_str());
        let n: usize = out.len();
        if n == 0 || out[n - 1] != '/' {
            out.push('/');
        }
        from_chars(out.as_slice())
    }
}

// ---------------------------------------------------------------------------
// Listings
// ---------------------------------------------------------------------------

/// The path of an address: what follows its scheme and authority, if it has
/// them and a path.
pub open spec fn address_path(href: Seq<char>) -> Seq<char> {
    let scheme = find_from(href, 0, seq![':', '/', '/']);
    let slash = next_char(href, scheme + 3, '/');
    if scheme != -1 && slash < href.len() {
        href.skip(slash)
    } else {
        href
    }
}

/// An address relative to the address of the collection it was listed in.
pub open spec fn relative_address(href: Seq<char>, root: Seq<char>) -> Seq<char> {
    let h = drop_slashes(address_path(href));
    let r = drop_slashes(address_path(root));
    if starts_with(h, r) {
        drop_slashes(h.skip(r.len() as int))
    } else {
        h
    }
}

fn address_path_of(href: &[char]) -> (r: &[char])
    ensures
        r@ == address_path(href@),
{
    let mut mark: Vec<char> = Vec::new();
    mark.push(':');
    mark.push('/');
    mark.push('/');
    assert(mark@ =~= seq![':', '/', '/']);
    match find_text(href, 0, mark.as_slice()) {
        None => href,
        Some(scheme) => {
            let slash: usize = find_char(href, scheme + 3, '/');
            if slash < href.len() {
                suffix_of(href, slash)
            } else {
                href
            }
        },
    }
}

pub fn href_strip_prefix(href: &[char], root: &[char]) -> (r: Vec<char>)
    ensures
        r@ == relative_address(href@, root@),
{
    let h = without_leading_slashes(address_path_of(href));
    let r = without_leading_slashes(address_path_of(root));
    if has_prefix(h, r) {
        slice_to_vec(without_leading_slashes(suffix_of(h, r.len())))
    } else {
        assert(drop_slashes(h@) == h@) by {
            lemma_drop_slashes_twice(address_path(href@));
        }
        slice_to_vec(h)
    }
}

proof fn lemma_drop_slashes_twice(s: Seq<char>)
    ensures
        drop_slashes(drop_slashes(s)) == drop_slashes(s),
    decreases s.len(),
{
    if s.len() > 0 && s[0] == '/' {
        lemma_drop_slashes_twice(s.skip(1));
    }
}

/// The address names a path: its first `://` stands at `i`, and the path starts at
/// the first slash behind that, at `j`.
pub open spec fn names_a_path(address: Seq<char>, i: int, j: int) -> bool {
    let mark = seq![':', '/', '/'];
    &&& matches_at(address, i, mark)
    &&& forall|k: int| 0 <= k < i ==> !#[trigger] matches_at(address, k, mark)
    &&& i + 3 <= j < address.len()
    &&& address[j] == '/'
    &&& forall|k: int| i + 3 <= k < j ==> address[k] != '/'
}

/// The address is a path: no `://` stands in it.
pub open spec fn is_plain_path(address: Seq<char>) -> bool {
    let mark = seq![':', '/', '/'];
    forall|k: int| !#[trigger] matches_at(address, k, mark)
}

/// Of an address the path counts: what starts at the first slash behind its scheme
/// and authority, or all of it where there are none.
pub proof fn address_is_read_from_its_path(address: Seq<char>)
    ensures
        forall|i: int, j: int| #[trigger]
            names_a_path(address, i, j) ==> address_path(address) == address.skip(j),
        is_plain_path(address) ==> address_path(address) == address,
{
    let mark = seq![':', '/', '/'];
    assert forall|i: int, j: int| #[trigger] names_a_path(address, i, j) implies address_path(address)
        == address.skip(j) by {
        lemma_find_is(address, 0, i, mark);
        lemma_next_is(address, i + 3, j, '/');
    }
    if is_plain_path(address) {
        assert forall|k: int| 0 <= k implies !#[trigger] matches_at(address, k, mark) by {}
        lemma_find_none(address, 0, mark);
    }
}

proof fn lemma_longer_address(root: Seq<char>, rest: Seq<char>, i: int, j: int)
    requires
        names_a_path(root, i, j),
    ensures
        names_a_path(root + rest, i, j),
{
    let mark = seq![':', '/', '/'];
    let s = root + rest;
    assert(root.subrange(i, i + 3) =~= s.subrange(i, i + 3));
    assert forall|k: int| 0 <= k < i implies !#[trigger] matches_at(s, k, mark) by {
        assert(root.subrange(k, k + 3) =~= s.subrange(k, k + 3));
        assert(!matches_at(root, k, mark));
    }
}

/// An address that is the address of the listed collection with more behind it is
/// relative to it what is behind it, whatever the collection's address is.
pub proof fn address_below_a_collection(root: Seq<char>, rest: Seq<char>)
    requires
        root.len() > 0,
        root.last() == '/',
        rest.len() > 0 ==> rest[0] != '/',
        is_plain_path(root + rest) || (exists|i: int, j: int| names_a_path(root, i, j)),
    ensures
        relative_address(root + rest, root) == rest,
{
    let s = root + rest;
    address_is_read_from_its_path(root);
    address_is_read_from_its_path(s);
    let r = address_path(root);
    assert(address_path(s) == r + rest) by {
        if is_plain_path(s) {
            let mark = seq![':', '/', '/'];
            assert forall|k: int| !#[trigger] matches_at(root, k, mark) by {
                if matches_at(root, k, mark) {
                    assert(root.subrange(k, k + 3) =~= s.subrange(k, k + 3));
                    assert(matches_at(s, k, mark));
                }
            }
        } else {
            let (i, j) = choose|i: int, j: int| names_a_path(root, i, j);
            lemma_longer_address(root, rest, i, j);
            assert(s.skip(j) =~= root.skip(j) + rest);
        }
    }
    lemma_drop_slashes_front(r, rest);
    let d = drop_slashes(r);
    assert((d + rest).take(d.len() as int) =~= d);
    assert((d + rest).skip(d.len() as int) =~= rest);
    leading_slashes_are_dropped(0, rest);
    assert(Seq::new(0, |_i: int| '/') + rest =~= rest);
}

/// Whether an address is written with its scheme and authority makes no difference:
/// it is read from its path.
pub proof fn origin_of_an_address_is_dropped(
    href: Seq<char>,
    root: Seq<char>,
    i: int,
    j: int,
    k: int,
    l: int,
)
    requires
        names_a_path(href, i, j),
        names_a_path(root, k, l),
        is_plain_path(href.skip(j)),
        is_plain_path(root.skip(l)),
    ensures
        relative_address(href, root) == relative_address(href.skip(j), root.skip(l)),
        relative_address(href, root) == relative_address(href.skip(j), root),
        relative_address(href, root) == relative_address(href, root.skip(l)),
{
    address_is_read_from_its_path(href);
    address_is_read_from_its_path(root);
    address_is_read_from_its_path(href.skip(j));
    address_is_read_from_its_path(root.skip(l));
}

/// One node of an XML document.
#[derive(Clone, Debug, PartialEq, Eq)]
pub struct XmlNode {
    /// How deep the node stands; the document itself is 1.
    pub depth: usize,
    pub is_element: bool,
    /// The local name of an element, else empty.
    pub name: String,
    pub namespace: Option<String>,
    /// The node's text: for an element that of its first child, if that is a
    /// text.
    pub text: Option<String>,
}

/// What an [`XmlNode`] says.
pub struct NodeView {
    pub depth: int,
    pub is_element: bool,
    pub name: Seq<char>,
    pub namespace: Option<Seq<char>>,
    pub text: Option<Seq<char>>,
}

impl View for XmlNode {
    type V = NodeView;

    open spec fn view(&self) -> NodeView {
        NodeView {
            depth: self.depth as int,
            is_element: self.is_element,
            name: self.name@,
            namespace: opt_text(self.namespace),
            text: opt_text(self.text),
        }
    }
}

pub open spec fn node_views(v: Seq<XmlNode>) -> Seq<NodeView> {
    Seq::new(v.len(), |i: int| v[i]@)
}

/// The nodes of an XML text in document order as `roxmltree` reads them, or why
/// it is malformed.
pub uninterp spec fn xml_nodes(xml: Seq<char>) -> Result<Seq<NodeView>, Seq<char>>;

/// `roxmltree::Document::parse` and the document's descendants: the nodes, or
/// the message, which depend on the text alone.
#[verifier::external_body]
fn read_xml(xml: &str) -> (r: Result<Vec<XmlNode>, String>)
    ensures
        match r {
            Ok(v) => xml_nodes(xml@) == Ok::<Seq<NodeView>, Seq<char>>(node_views(v@)),
            Err(e) => xml_nodes(xml@) == Err::<Seq<NodeView>, Seq<char>>(e@),
        },
{
    let doc = roxmltree::Document::parse(xml).map_err(|error| error.to_string())?;
    Ok(doc.descendants().map(|node| XmlNode {
        depth: node.ancestors().count(),
        is_element: node.is_element(),
        name: node.tag_name().name().to_string(),
        namespace: node.tag_name().namespace().map(str::to_string),
        text: node.text().map(str::to_string),
    }).collect())
}

/// The value of a decimal number; `None` where the text is none or it is too
/// large.
pub open spec fn parsed_number(s: Seq<char>) -> Option<nat> {
    let digits = unsigned(s);
    if digits.len() == 0 || !all_digits(digits) || digits_value(digits) > u64::MAX {
        None
    } else {
        Some(digits_value(digits))
    }
}

/// `s` without a plus sign at its start.
pub open spec fn unsigned(s: Seq<char>) -> Seq<char> {
    if s.len() > 0 && s[0] == '+' {
        s.skip(1)
    } else {
        s
    }
}

pub open spec fn all_digits(s: Seq<char>) -> bool {
    forall|i: int| 0 <= i < s.len() ==> crate::text::ascii_digit(#[trigger] s[i])
}

/// The value of decimal digits.
pub open spec fn digits_value(s: Seq<char>) -> nat
    decreases s.len(),
{
    if s.len() == 0 {
        0
    } else {
        digits_value(s.drop_last()) * 10 + ((s.last() as u32) - ('0' as u32)) as nat
    }
}

/// A number in decimal is read as itself, with a plus sign in front of it or without. A
/// text with anything but digits is no number, nor is an empty one.
pub proof fn numbers_are_read(n: nat, text: Seq<char>)
    ensures
        n <= u64::MAX ==> parsed_number(decimal(n)) == Some(n) && parsed_number(
            seq!['+'] + decimal(n),
        ) == Some(n),
        n > u64::MAX ==> parsed_number(decimal(n)) is None,
        (exists|k: int| 0 < k < text.len() && !('0' <= #[trigger] text[k] <= '9')) ==> parsed_number(
            text,
        ) is None,
        text.len() == 0 ==> parsed_number(text) is None,
{
    lemma_decimal_value(n);
    let d = decimal(n);
    assert((seq!['+'] + d).skip(1) =~= d);
    assert(crate::text::ascii_digit(d[0]));
    if exists|k: int| 0 < k < text.len() && !('0' <= #[trigger] text[k] <= '9') {
        let k = choose|k: int| 0 < k < text.len() && !('0' <= #[trigger] text[k] <= '9');
        if text[0] == '+' {
            assert(text.skip(1)[k - 1] == text[k]);
        }
    }
}

proof fn lemma_decimal_value(n: nat)
    ensures
        digits_value(decimal(n)) == n,
        all_digits(decimal(n)),
        decimal(n).len() > 0,
    decreases n,
{
    let d = decimal(n);
    if n < 10 {
        assert(d.drop_last() =~= seq![]);
        assert(digits_value(d.drop_last()) == 0);
        assert(d.last() == crate::text::digit(n));
    } else {
        lemma_decimal_value(n / 10);
        let prev = decimal(n / 10);
        assert(d.drop_last() =~= prev);
        assert(d.last() == crate::text::digit(n % 10));
        assert forall|i: int| 0 <= i < d.len() implies crate::text::ascii_digit(#[trigger] d[i]) by {
            if i < prev.len() {
                assert(d[i] == prev[i]);
            }
        }
    }
}

proof fn lemma_digits_grow(s: Seq<char>, i: int)
    requires
        0 <= i <= s.len(),
        all_digits(s),
    ensures
        digits_value(s.take(i)) <= digits_value(s),
    decreases s.len() - i,
{
    if i < s.len() {
        lemma_digits_grow(s, i + 1);
        assert(s.take(i + 1).drop_last() =~= s.take(i));
        assert(digits_value(s.take(i)) <= digits_value(s.take(i + 1)));
    } else {
        assert(s.take(i) =~= s);
    }
}

pub fn parse_number(s: &[char]) -> (r: Option<u64>)
    ensures
        match r {
            Some(n) => parsed_number(s@) == Some(n as nat),
            None => parsed_number(s@) is None,
        },
{
    let digits = if s.len() > 0 && s[0] == '+' {
        suffix_of(s, 1)
    } else {
        s
    };
    if digits.len() == 0 {
        return None;
    }
    let mut i: usize = 0;
    while i < digits.len()
        invariant
            0 <= i <= digits@.len(),
            digits@.len() > 0,
            digits@ == unsigned(s@),
            forall|k: int| 0 <= k < i ==> crate::text::ascii_digit(#[trigger] digits@[k]),
        decreases digits@.len() - i,
    {
        if !('0' <= digits[i] && digits[i] <= '9') {
            assert(!crate::text::ascii_digit(digits@[i as int]));
            return None;
        }
        i = i + 1;
    }
    let mut value: u64 = 0;
    let mut j: usize = 0;
    while j < digits.len()
        invariant
            0 <= j <= digits@.len(),
            digits@.len() > 0,
            digits@ == unsigned(s@),
            all_digits(digits@),
            value == digits_value(digits@.take(j as int)),
        decreases digits@.len() - j,
    {
        assert(crate::text::ascii_digit(digits@[j as int]));
        let d: u64 = ((digits[j] as u32) - 48) as u64;
        proof {
            let t = digits@.take(j + 1);
            assert(t.drop_last() =~= digits@.take(j as int));
            assert(t.last() == digits@[j as int]);
            lemma_digits_grow(digits@, j + 1);
        }
        match value.checked_mul(10) {
            None => {
                return None;
            },
            Some(tens) => match tens.checked_add(d) {
                None => {
                    return None;
                },
                Some(sum) => {
                    value = sum;
                },
            },
        }
        j = j + 1;
    }
    assert(digits@.take(j as int) =~= digits@);
    Some(value)
}

/// What one response of a listing says.
pub struct ResponseView {
    pub href: Option<Seq<char>>,
    pub is_dir: bool,
    pub size: nat,
    pub etag: Option<Seq<char>>,
}

/// Node `j` stands below node `i`, as far as the nodes between them show.
pub open spec fn below_node(nodes: Seq<NodeView>, i: int, j: int) -> bool {
    0 <= i < j < nodes.len() && nodes[j].depth > nodes[i].depth
}

/// Node `i`, from `j` on, has a child element with the name.
pub open spec fn has_child_from(nodes: Seq<NodeView>, i: int, j: int, name: Seq<char>) -> bool
    decreases nodes.len() - j,
{
    if !below_node(nodes, i, j) {
        false
    } else if nodes[j].depth == nodes[i].depth + 1 && nodes[j].is_element && nodes[j].name == name {
        true
    } else {
        has_child_from(nodes, i, j + 1, name)
    }
}

/// A text trimmed, unless it is blank.
pub open spec fn nonblank(text: Option<Seq<char>>) -> Option<Seq<char>> {
    match text {
        Some(t) => if trim(t).len() == 0 {
            None
        } else {
            Some(trim(t))
        },
        None => None,
    }
}

/// What a property node adds to a response.
pub open spec fn with_property(nodes: Seq<NodeView>, k: int, acc: ResponseView) -> ResponseView {
    if nodes[k].name == "resourcetype"@ {
        ResponseView { is_dir: has_child_from(nodes, k, k + 1, "collection"@), ..acc }
    } else if nodes[k].name == "getcontentlength"@ {
        ResponseView {
            size: match nodes[k].text {
                Some(t) => match parsed_number(t) {
                    Some(n) => n,
                    None => 0,
                },
                None => 0,
            },
            ..acc
        }
    } else if nodes[k].name == "getetag"@ {
        ResponseView { etag: nonblank(nodes[k].text), ..acc }
    } else {
        acc
    }
}

/// What the properties below node `p`, from `k` on, add to a response.
pub open spec fn with_properties_from(nodes: Seq<NodeView>, p: int, k: int, acc: ResponseView) -> ResponseView
    decreases nodes.len() - k,
{
    if k != p && !below_node(nodes, p, k) || k < 0 || k >= nodes.len() {
        acc
    } else {
        with_properties_from(nodes, p, k + 1, with_property(nodes, k, acc))
    }
}

/// What the children of response node `i`, from `j` on, say.
pub open spec fn response_from(nodes: Seq<NodeView>, i: int, j: int, acc: ResponseView) -> ResponseView
    decreases nodes.len() - j,
{
    if !below_node(nodes, i, j) {
        acc
    } else {
        let next = if nodes[j].depth == nodes[i].depth + 1 && nodes[j].is_element {
            if nodes[j].name == "href"@ {
                ResponseView {
                    href: match nodes[j].text {
                        Some(t) => Some(trim(t)),
                        None => None,
                    },
                    ..acc
                }
            } else if nodes[j].name == "propstat"@ {
                with_properties_from(nodes, j, j, acc)
            } else {
                acc
            }
        } else {
            acc
        };
        response_from(nodes, i, j + 1, next)
    }
}

/// What response node `i` says.
pub open spec fn response_at(nodes: Seq<NodeView>, i: int) -> ResponseView {
    response_from(
        nodes,
        i,
        i + 1,
        ResponseView { href: None, is_dir: false, size: 0, etag: None },
    )
}

/// Node `j` stands inside node `i`: it follows it, and every node from behind `i` to `j` is
/// deeper than `i`.
pub open spec fn inside(nodes: Seq<NodeView>, i: int, j: int) -> bool {
    &&& 0 <= i < j < nodes.len()
    &&& forall|k: int| i < k <= j ==> (#[trigger] nodes[k]).depth > nodes[i].depth
}

/// Node `j` is a child element of node `i` with the name.
pub open spec fn is_child(nodes: Seq<NodeView>, i: int, j: int, name: Seq<char>) -> bool {
    &&& inside(nodes, i, j)
    &&& nodes[j].depth == nodes[i].depth + 1
    &&& nodes[j].is_element
    &&& nodes[j].name == name
}

/// Node `k` is one of the properties of response `i`: it is a `propstat` child of it or
/// stands inside one.
pub open spec fn is_property(nodes: Seq<NodeView>, i: int, k: int) -> bool {
    exists|p: int| #[trigger] is_child(nodes, i, p, "propstat"@) && (k == p || inside(nodes, p, k))
}

/// A node has a child element with a name if and only if one stands there.
pub proof fn children_are_found(nodes: Seq<NodeView>, i: int, j: int, name: Seq<char>)
    requires
        0 <= i < j,
        forall|k: int| i < k < j && k < nodes.len() ==> (#[trigger] nodes[k]).depth > nodes[i].depth,
    ensures
        has_child_from(nodes, i, j, name) <==> exists|c: int|
            j <= c && #[trigger] is_child(nodes, i, c, name),
    decreases nodes.len() - j,
{
    if below_node(nodes, i, j) {
        assert(inside(nodes, i, j));
        if nodes[j].depth == nodes[i].depth + 1 && nodes[j].is_element && nodes[j].name == name {
            assert(is_child(nodes, i, j, name));
        } else {
            children_are_found(nodes, i, j + 1, name);
            assert forall|c: int| j <= c && #[trigger] is_child(nodes, i, c, name) implies j + 1 <= c by {}
        }
    } else if j < nodes.len() {
        assert forall|c: int| j <= c implies !#[trigger] is_child(nodes, i, c, name) by {
            if is_child(nodes, i, c, name) {
                assert(nodes[j].depth > nodes[i].depth);
            }
        }
    }
}

proof fn lemma_properties_step(
    nodes: Seq<NodeView>,
    p: int,
    k: int,
    to: int,
    acc: ResponseView,
) -> (later: ResponseView)
    requires
        0 <= p <= k <= to < nodes.len(),
        to == p || inside(nodes, p, to),
    ensures
        with_properties_from(nodes, p, k, acc) == with_properties_from(nodes, p, to, later),
        later.href == acc.href,
    decreases to - k,
{
    if k < to {
        assert(k == p || nodes[k].depth > nodes[p].depth);
        lemma_properties_step(nodes, p, k + 1, to, with_property(nodes, k, acc))
    } else {
        acc
    }
}

/// What a property says if it is the last that says it.
proof fn lemma_properties_keep(nodes: Seq<NodeView>, p: int, k: int, acc: ResponseView)
    requires
        0 <= p <= k,
        forall|j: int| p < j < k && j < nodes.len() ==> (#[trigger] nodes[j]).depth > nodes[p].depth,
    ensures
        with_properties_from(nodes, p, k, acc).href == acc.href,
        (forall|j: int|
            #![trigger nodes[j]]
            k <= j && (j == p || inside(nodes, p, j)) ==> nodes[j].name != "resourcetype"@)
            ==> with_properties_from(nodes, p, k, acc).is_dir == acc.is_dir,
        (forall|j: int|
            #![trigger nodes[j]]
            k <= j && (j == p || inside(nodes, p, j)) ==> nodes[j].name != "getcontentlength"@)
            ==> with_properties_from(nodes, p, k, acc).size == acc.size,
        (forall|j: int|
            #![trigger nodes[j]]
            k <= j && (j == p || inside(nodes, p, j)) ==> nodes[j].name != "getetag"@)
            ==> with_properties_from(nodes, p, k, acc).etag == acc.etag,
    decreases nodes.len() - k,
{
    if !(k != p && !below_node(nodes, p, k) || k >= nodes.len()) {
        assert(k == p || inside(nodes, p, k));
        lemma_properties_keep(nodes, p, k + 1, with_property(nodes, k, acc));
        assert(nodes[k].name == nodes[k].name);
    }
}

spec fn child_step(nodes: Seq<NodeView>, i: int, j: int, acc: ResponseView) -> ResponseView {
    if nodes[j].depth == nodes[i].depth + 1 && nodes[j].is_element {
        if nodes[j].name == "href"@ {
            ResponseView {
                href: match nodes[j].text {
                    Some(t) => Some(trim(t)),
                    None => None,
                },
                ..acc
            }
        } else if nodes[j].name == "propstat"@ {
            with_properties_from(nodes, j, j, acc)
        } else {
            acc
        }
    } else {
        acc
    }
}

proof fn lemma_response_step(
    nodes: Seq<NodeView>,
    i: int,
    j: int,
    to: int,
    acc: ResponseView,
) -> (later: ResponseView)
    requires
        0 <= i < j <= to < nodes.len(),
        inside(nodes, i, to),
    ensures
        response_from(nodes, i, j, acc) == response_from(nodes, i, to, later),
    decreases to - j,
{
    if j < to {
        assert(nodes[j].depth > nodes[i].depth);
        lemma_response_step(nodes, i, j + 1, to, child_step(nodes, i, j, acc))
    } else {
        acc
    }
}

proof fn lemma_response_keeps(nodes: Seq<NodeView>, i: int, j: int, acc: ResponseView)
    requires
        0 <= i < j,
        forall|k: int| i < k < j && k < nodes.len() ==> (#[trigger] nodes[k]).depth > nodes[i].depth,
    ensures
        (forall|k: int| j <= k ==> !#[trigger] is_child(nodes, i, k, "href"@)) ==> response_from(
            nodes,
            i,
            j,
            acc,
        ).href == acc.href,
        (forall|p: int, k: int|
            j <= p && #[trigger] is_child(nodes, i, p, "propstat"@) && (k == p || inside(nodes, p, k))
                ==> (#[trigger] nodes[k]).name != "resourcetype"@) ==> response_from(
            nodes,
            i,
            j,
            acc,
        ).is_dir == acc.is_dir,
        (forall|p: int, k: int|
            j <= p && #[trigger] is_child(nodes, i, p, "propstat"@) && (k == p || inside(nodes, p, k))
                ==> (#[trigger] nodes[k]).name != "getcontentlength"@) ==> response_from(
            nodes,
            i,
            j,
            acc,
        ).size == acc.size,
        (forall|p: int, k: int|
            j <= p && #[trigger] is_child(nodes, i, p, "propstat"@) && (k == p || inside(nodes, p, k))
                ==> (#[trigger] nodes[k]).name != "getetag"@) ==> response_from(
            nodes,
            i,
            j,
            acc,
        ).etag == acc.etag,
    decreases nodes.len() - j,
{
    if below_node(nodes, i, j) {
        assert(inside(nodes, i, j));
        lemma_response_keeps(nodes, i, j + 1, child_step(nodes, i, j, acc));
        if nodes[j].depth == nodes[i].depth + 1 && nodes[j].is_element {
            reveal_strlit("href");
            reveal_strlit("propstat");
            assert("href"@.len() != "propstat"@.len());
            if nodes[j].name == "propstat"@ {
                assert(is_child(nodes, i, j, "propstat"@));
                lemma_properties_keep(nodes, j, j, acc);
            } else if nodes[j].name == "href"@ {
                assert(is_child(nodes, i, j, "href"@));
            }
        }
    }
}

/// A response is what its children say: its address is the text of its last `href` child,
/// and of each property the last one counts that stands in one of its `propstat` children.
/// It is a collection if its resource type has a `collection` child, its size is the number
/// in its content length, and its tag is the text of its `getetag`, unless that is blank. A
/// property that is not there leaves it a file of size 0 without a tag.
pub proof fn response_says_what_its_children_say(nodes: Seq<NodeView>, i: int, k: int)
    requires
        0 <= i < nodes.len(),
    ensures
        is_child(nodes, i, k, "href"@) && (forall|j: int|
            k < j ==> !#[trigger] is_child(nodes, i, j, "href"@)) ==> response_at(nodes, i).href == (
        match nodes[k].text {
            Some(t) => Some(trim(t)),
            None => None,
        }),
        (forall|j: int| !#[trigger] is_child(nodes, i, j, "href"@)) ==> response_at(nodes, i).href is None,
        is_property(nodes, i, k) && nodes[k].name == "resourcetype"@ && (forall|j: int|
            k < j && is_property(nodes, i, j) ==> (#[trigger] nodes[j]).name != "resourcetype"@)
            ==> response_at(nodes, i).is_dir == exists|c: int| #[trigger]
            is_child(nodes, k, c, "collection"@),
        is_property(nodes, i, k) && nodes[k].name == "getcontentlength"@ && (forall|j: int|
            k < j && is_property(nodes, i, j) ==> (#[trigger] nodes[j]).name
                != "getcontentlength"@) ==> response_at(nodes, i).size == (match nodes[k].text {
            Some(t) => match parsed_number(t) {
                Some(n) => n,
                None => 0,
            },
            None => 0,
        }),
        is_property(nodes, i, k) && nodes[k].name == "getetag"@ && (forall|j: int|
            k < j && is_property(nodes, i, j) ==> (#[trigger] nodes[j]).name != "getetag"@)
            ==> response_at(nodes, i).etag == (match nodes[k].text {
            Some(t) => if trim(t).len() == 0 {
                None
            } else {
                Some(trim(t))
            },
            None => None,
        }),
        (forall|j: int| is_property(nodes, i, j) ==> (#[trigger] nodes[j]).name != "resourcetype"@)
            ==> !response_at(nodes, i).is_dir,
        (forall|j: int| is_property(nodes, i, j) ==> (#[trigger] nodes[j]).name
            != "getcontentlength"@) ==> response_at(nodes, i).size == 0,
        (forall|j: int| is_property(nodes, i, j) ==> (#[trigger] nodes[j]).name != "getetag"@)
            ==> response_at(nodes, i).etag is None,
{
    reveal_strlit("href");
    reveal_strlit("propstat");
    assert("href"@.len() != "propstat"@.len());
    let blank = ResponseView { href: None, is_dir: false, size: 0, etag: None };
    lemma_response_keeps(nodes, i, i + 1, blank);
    assert forall|p: int, j: int|
        #![trigger is_child(nodes, i, p, "propstat"@), nodes[j]]
        is_child(nodes, i, p, "propstat"@) && (j == p || inside(nodes, p, j)) implies is_property(
        nodes,
        i,
        j,
    ) by {}
    if is_child(nodes, i, k, "href"@) {
        let acc = lemma_response_step(nodes, i, i + 1, k, blank);
        lemma_response_keeps(nodes, i, k + 1, child_step(nodes, i, k, acc));
    }
    if is_property(nodes, i, k) {
        lemma_last_property(nodes, i, k);
    }
}

proof fn lemma_last_property(nodes: Seq<NodeView>, i: int, k: int)
    requires
        0 <= i < nodes.len(),
        is_property(nodes, i, k),
    ensures
        nodes[k].name == "resourcetype"@ && (forall|j: int|
            k < j && is_property(nodes, i, j) ==> (#[trigger] nodes[j]).name != "resourcetype"@)
            ==> response_at(nodes, i).is_dir == exists|c: int| #[trigger]
            is_child(nodes, k, c, "collection"@),
        nodes[k].name == "getcontentlength"@ && (forall|j: int|
            k < j && is_property(nodes, i, j) ==> (#[trigger] nodes[j]).name
                != "getcontentlength"@) ==> response_at(nodes, i).size == (match nodes[k].text {
            Some(t) => match parsed_number(t) {
                Some(n) => n,
                None => 0,
            },
            None => 0,
        }),
        nodes[k].name == "getetag"@ && (forall|j: int|
            k < j && is_property(nodes, i, j) ==> (#[trigger] nodes[j]).name != "getetag"@)
            ==> response_at(nodes, i).etag == nonblank(nodes[k].text),
{
    reveal_strlit("href");
    reveal_strlit("propstat");
    reveal_strlit("resourcetype");
    reveal_strlit("getcontentlength");
    reveal_strlit("getetag");
    assert("href"@.len() != "propstat"@.len());
    assert("resourcetype"@.len() == 12 && "getcontentlength"@.len() == 16 && "getetag"@.len() == 7);
    let blank = ResponseView { href: None, is_dir: false, size: 0, etag: None };
    let p = choose|p: int| #[trigger] is_child(nodes, i, p, "propstat"@) && (k == p || inside(nodes, p, k));
    let acc = lemma_response_step(nodes, i, i + 1, p, blank);
    let later = lemma_properties_step(nodes, p, p, k, acc);
    let at = with_property(nodes, k, later);
    assert(with_properties_from(nodes, p, k, later) == with_properties_from(nodes, p, k + 1, at));
    assert forall|j: int| p < j < k + 1 && j < nodes.len() implies (#[trigger] nodes[j]).depth
        > nodes[p].depth by {}
    lemma_properties_keep(nodes, p, k + 1, at);
    let end = child_step(nodes, i, p, acc);
    assert(end == with_properties_from(nodes, p, k + 1, at));
    lemma_response_keeps(nodes, i, p + 1, end);
    assert forall|q: int, j: int|
        p + 1 <= q && #[trigger] is_child(nodes, i, q, "propstat"@) && (j == q || inside(nodes, q, j)) implies {
        let depth = (#[trigger] nodes[j]).depth;
        k < j && is_property(nodes, i, j)
    } by {
        if q <= k {
            assert(nodes[q].depth > nodes[p].depth);
        }
    }
    assert forall|j: int|
        #![trigger nodes[j]]
        k + 1 <= j && (j == p || inside(nodes, p, j)) implies k < j && is_property(nodes, i, j) by {}
    children_are_found(nodes, k, k + 1, "collection"@);
    assert forall|c: int| #[trigger] is_child(nodes, k, c, "collection"@) implies k + 1 <= c by {}
}

/// The node is a response of a listing.
pub open spec fn is_response(node: NodeView) -> bool {
    node.is_element && node.name == "response"@ && node.namespace == Some("DAV:"@)
}

/// The entry of a response at address `href` in the collection at `root`.
pub open spec fn entry_of(response: ResponseView, href: Seq<char>, root: Seq<char>) -> WebDavEntryView {
    WebDavEntryView {
        path: drop_slashes(decoded_path(drop_trailing_slashes(relative_address(href, root)))),
        is_dir: response.is_dir,
        size: response.size,
        etag: response.etag,
    }
}

/// The entry of an address below the listed collection has the path that follows
/// the collection's address, decoded and without slashes at its end.
pub proof fn entry_is_named_by_what_follows_the_collection(
    response: ResponseView,
    root: Seq<char>,
    name: Seq<char>,
    slashes: nat,
)
    requires
        root.len() > 0,
        root.last() == '/',
        name.len() > 0 ==> name[0] != '/' && name.last() != '/',
        name.len() == 0 ==> slashes == 0,
        is_plain_path(root + name + Seq::new(slashes, |_i: int| '/')) || (exists|i: int, j: int|
            names_a_path(root, i, j)),
        decoded_path(name).len() > 0 ==> decoded_path(name)[0] != '/',
    ensures
        entry_of(response, root + name + Seq::new(slashes, |_i: int| '/'), root).path
            == decoded_path(name),
{
    let end = Seq::new(slashes, |_i: int| '/');
    let rest = name + end;
    assert(root + name + end =~= root + rest);
    assert(name.len() > 0 ==> rest[0] == name[0]);
    address_below_a_collection(root, rest);
    trailing_slashes_are_dropped(name, slashes);
    let path = decoded_path(name);
    leading_slashes_are_dropped(0, path);
    assert(Seq::new(0, |_i: int| '/') + path =~= path);
}

proof fn lemma_encoded_has_no_slash(s: Seq<u8>)
    ensures
        forall|i: int| 0 <= i < encoded_bytes(s).len() ==> (#[trigger] encoded_bytes(s)[i]) != 0x2f,
    decreases s.len(),
{
    if s.len() > 0 {
        lemma_encoded_has_no_slash(s.skip(1));
        let head = encoded_byte(s[0]);
        let tail = encoded_bytes(s.skip(1));
        assert forall|i: int| 0 <= i < encoded_bytes(s).len() implies (#[trigger] encoded_bytes(s)[i])
            != 0x2f by {
            if i < head.len() {
                assert(encoded_bytes(s)[i] == head[i]);
            } else {
                assert(encoded_bytes(s)[i] == tail[i - head.len()]);
            }
        }
    }
}

proof fn lemma_segment_has_no_slash(segment: Seq<char>)
    ensures
        !encoded_segment(segment).contains('/'),
        segment.len() > 0 ==> encoded_segment(segment).len() > 0,
{
    let codes = encoded_bytes(encode_utf8(segment));
    let text = encoded_segment(segment);
    lemma_encoded_has_no_slash(encode_utf8(segment));
    lemma_encoded_ascii(encode_utf8(segment));
    if text.contains('/') {
        let i = choose|i: int| 0 <= i < text.len() && text[i] == '/';
        assert(codes[i] < 0x80 && codes[i] != 0x2f);
        assert(text[i] as u32 == codes[i] as u32);
    }
    if text.len() == 0 {
        let none = Seq::<char>::empty();
        decoding_an_encoded_segment(segment);
        decoding_an_encoded_segment(none);
        assert(encoded_segment(none) =~= none);
        assert(text =~= none);
    }
}

/// What a client makes of a file in a folder, listed in the collection that it makes
/// of the folder, reads back as the file's name.
pub proof fn listed_file_reads_back(
    response: ResponseView,
    base: Seq<char>,
    folder: Seq<char>,
    name: Seq<char>,
)
    requires
        name.len() > 0,
        !name.contains('/'),
        web_address(base),
        base.last() != '/',
    ensures
        entry_of(
            response,
            file_address(base, folder.push('/') + name),
            with_slash(file_address(base, folder)),
        ).path == name,
{
    let segments = nonempty(split(folder, '/'));
    let encoded = encoded_segment(name);
    pieces_of_two_texts(folder, name, '/');
    pieces_end_at_separators(name, seq![], '/');
    nonempty_of_two_lists(split(folder, '/'), seq![name]);
    assert(nonempty(split(folder.push('/') + name, '/')) =~= segments.push(name));
    assert(segments.push(name).drop_last() =~= segments);
    let head = with_slash(base);
    let root = with_slash(file_address(base, folder));
    lemma_segment_has_no_slash(name);
    assert(root + encoded =~= file_address(base, folder.push('/') + name)) by {
        if segments.len() == 0 {
            assert(encoded_path(segments) =~= seq![]);
            assert(file_address(base, folder) =~= head);
        } else {
            let last = segments.last();
            lemma_nonempty_pieces(split(folder, '/'));
            lemma_segment_has_no_slash(last);
            let path = encoded_path(segments);
            let code = encoded_segment(last);
            assert(path.last() == code.last());
            assert(code.contains(code.last()));
            assert(file_address(base, folder).last() == code.last());
        }
    }
    lemma_web_address_names_a_path(base);
    let (i, j) = choose|i: int, j: int| names_a_path(head, i, j);
    assert(root =~= head + root.skip(head.len() as int));
    lemma_longer_address(head, root.skip(head.len() as int), i, j);
    assert(names_a_path(root, i, j));
    assert(encoded.len() > 0 ==> encoded.contains(encoded[0]) && encoded.contains(encoded.last()));
    decoding_an_encoded_segment(name);
    assert(name.contains(name[0]));
    entry_is_named_by_what_follows_the_collection(response, root, encoded, 0);
    assert(root + encoded + Seq::new(0, |_i: int| '/') =~= root + encoded);
}

proof fn lemma_nonempty_pieces(parts: Seq<Seq<char>>)
    ensures
        forall|i: int| 0 <= i < nonempty(parts).len() ==> (#[trigger] nonempty(parts)[i]).len() > 0,
    decreases parts.len(),
{
    if parts.len() > 0 {
        lemma_nonempty_pieces(parts.drop_last());
        let prev = nonempty(parts.drop_last());
        let all = nonempty(parts);
        assert forall|i: int| 0 <= i < all.len() implies (#[trigger] all[i]).len() > 0 by {
            if i < prev.len() {
                assert(all[i] == prev[i]);
            }
        }
    }
}

proof fn lemma_web_address_names_a_path(base: Seq<char>)
    requires
        web_address(base),
        base.last() != '/',
    ensures
        exists|i: int, j: int| names_a_path(with_slash(base), i, j),
{
    reveal_strlit("http://");
    reveal_strlit("https://");
    let mark = seq![':', '/', '/'];
    let s = with_slash(base);
    let i: int = if starts_with(base, "http://"@) {
        4
    } else {
        5
    };
    let n = i + 3;
    let start = if i == 4 {
        "http://"@
    } else {
        "https://"@
    };
    assert(base.take(n) == start);
    assert(forall|k: int| 0 <= k < n ==> base[k] == base.take(n)[k]);
    assert(forall|k: int| 0 <= k < base.len() ==> s[k] == base[k]);
    lemma_triple_at(s, i, ':', '/', '/');
    assert forall|k: int| 0 <= k < i implies !#[trigger] matches_at(s, k, mark) by {
        lemma_triple_at(s, k, ':', '/', '/');
        assert(s[k] == start[k]);
    }
    assert(s.last() == '/');
    lemma_next_char(s, n, '/');
    let j = next_char(s, n, '/');
    assert(base.len() > n) by {
        assert(base[n - 1] == start[n - 1]);
    }
    assert(s[s.len() - 1] == '/');
    assert(j < s.len());
    assert(names_a_path(s, i, j));
}

/// A file without a name, which no listing holds.
pub open spec fn nameless_file(entry: WebDavEntryView) -> bool {
    !entry.is_dir && entry.path.len() == 0
}

/// The entries of the responses from node `i` on. The first address is that of
/// the collection itself; a file without a name is passed over.
pub open spec fn entries_from_node(nodes: Seq<NodeView>, i: int, root: Option<Seq<char>>) -> Seq<
    WebDavEntryView,
>
    decreases nodes.len() - i,
{
    if i < 0 || i >= nodes.len() {
        seq![]
    } else if !is_response(nodes[i]) {
        entries_from_node(nodes, i + 1, root)
    } else {
        let response = response_at(nodes, i);
        match response.href {
            None => entries_from_node(nodes, i + 1, root),
            Some(href) => match root {
                None => seq![
                    WebDavEntryView {
                        path: seq![],
                        is_dir: true,
                        size: response.size,
                        etag: response.etag,
                    },
                ] + entries_from_node(nodes, i + 1, Some(href)),
                Some(r) => {
                    let entry = entry_of(response, href, r);
                    if nameless_file(entry) {
                        entries_from_node(nodes, i + 1, root)
                    } else {
                        seq![entry] + entries_from_node(nodes, i + 1, root)
                    }
                },
            },
        }
    }
}

struct Response {
    href: Option<String>,
    is_dir: bool,
    size: u64,
    etag: Option<String>,
}

impl View for Response {
    type V = ResponseView;

    closed spec fn view(&self) -> ResponseView {
        ResponseView {
            href: opt_text(self.href),
            is_dir: self.is_dir,
            size: self.size as nat,
            etag: opt_text(self.etag),
        }
    }
}

fn find_child(nodes: &Vec<XmlNode>, i: usize, name: &str) -> (r: bool)
    requires
        i < nodes@.len(),
    ensures
        r == has_child_from(node_views(nodes@), i as int, i + 1, name@),
{
    let ghost nv = node_views(nodes@);
    let len: usize = nodes.len();
    let mut j: usize = i + 1;
    while j < nodes.len() && nodes[j].depth > nodes[i].depth
        invariant
            i < j <= nodes@.len(),
            nv == node_views(nodes@),
            has_child_from(nv, i as int, i + 1, name@) == has_child_from(nv, i as int, j as int, name@),
        decreases nodes@.len() - j,
    {
        if nodes[j].depth - nodes[i].depth == 1 && nodes[j].is_element && str_eq(
            nodes[j].name.as_str(),
            name,
        ) {
            return true;
        }
        j = j + 1;
    }
    false
}

fn trim_text(text: &Option<String>) -> (r: Option<String>)
    ensures
        opt_text(r) == (match *text {
            Some(t) => Some(trim(t@)),
            None => None,
        }),
{
    match text {
        Some(t) => {
            let chars = to_chars(t.as_str());
            Some(from_chars(trimmed(chars.as_slice())))
        },
        None => None,
    }
}

fn add_property(nodes: &Vec<XmlNode>, k: usize, acc: Response) -> (r: Response)
    requires
        k < nodes@.len(),
    ensures
        r@ == with_property(node_views(nodes@), k as int, acc@),
{
    let node = &nodes[k];
    assert(node_views(nodes@)[k as int] == node@);
    if str_eq(node.name.as_str(), "resourcetype") {
        Response { href: acc.href, is_dir: find_child(nodes, k, "collection"), size: acc.size, etag: acc.etag }
    } else if str_eq(node.name.as_str(), "getcontentlength") {
        let size: u64 = match &node.text {
            Some(t) => {
                let chars = to_chars(t.as_str());
                match parse_number(chars.as_slice()) {
                    Some(n) => n,
                    None => 0,
                }
            },
            None => 0,
        };
        Response { href: acc.href, is_dir: acc.is_dir, size, etag: acc.etag }
    } else if str_eq(node.name.as_str(), "getetag") {
        let etag = match trim_text(&node.text) {
            Some(t) => if t.as_str().is_empty() {
                None
            } else {
                Some(t)
            },
            None => None,
        };
        Response { href: acc.href, is_dir: acc.is_dir, size: acc.size, etag }
    } else {
        acc
    }
}

fn read_response(nodes: &Vec<XmlNode>, i: usize) -> (r: Response)
    requires
        i < nodes@.len(),
    ensures
        r@ == response_at(node_views(nodes@), i as int),
{
    let ghost nv = node_views(nodes@);
    let mut acc = Response { href: None, is_dir: false, size: 0, etag: None };
    let len: usize = nodes.len();
    let mut j: usize = i + 1;
    while j < nodes.len() && nodes[j].depth > nodes[i].depth
        invariant
            i < j <= nodes@.len(),
            nv == node_views(nodes@),
            response_at(nv, i as int) == response_from(nv, i as int, j as int, acc@),
        decreases nodes@.len() - j,
    {
        let node = &nodes[j];
        assert(nv[j as int] == node@);
        if node.depth - nodes[i].depth == 1 && node.is_element {
            if str_eq(node.name.as_str(), "href") {
                acc = Response {
                    href: trim_text(&node.text),
                    is_dir: acc.is_dir,
                    size: acc.size,
                    etag: acc.etag,
                };
            } else if str_eq(node.name.as_str(), "propstat") {
                let ghost start = acc@;
                let mut k: usize = j;
                while k < nodes.len() && (k == j || nodes[k].depth > nodes[j].depth)
                    invariant
                        j <= k <= nodes@.len(),
                        j < nodes@.len(),
                        nv == node_views(nodes@),
                        with_properties_from(nv, j as int, j as int, start)
                            == with_properties_from(nv, j as int, k as int, acc@),
                    decreases nodes@.len() - k,
                {
                    acc = add_property(nodes, k, acc);
                    k = k + 1;
                }
            }
        }
        j = j + 1;
    }
    acc
}

/// The entries of a listing, from the nodes of its document.
pub fn entries_of_nodes(nodes: &Vec<XmlNode>) -> (r: Vec<WebDavEntry>)
    ensures
        webdav_entries(r@) == entries_from_node(node_views(nodes@), 0, None),
{
    let ghost nv = node_views(nodes@);
    let mut out: Vec<WebDavEntry> = Vec::new();
    let mut root: Option<String> = None;
    let mut i: usize = 0;
    assert(webdav_entries(out@) + entries_from_node(nv, 0, None) =~= entries_from_node(nv, 0, None));
    while i < nodes.len()
        invariant
            0 <= i <= nodes@.len(),
            nv == node_views(nodes@),
            entries_from_node(nv, 0, None) == webdav_entries(out@) + entries_from_node(
                nv,
                i as int,
                opt_text(root),
            ),
        decreases nodes@.len() - i,
    {
        let node = &nodes[i];
        assert(nv[i as int] == node@);
        let dav = match &node.namespace {
            Some(ns) => str_eq(ns.as_str(), "DAV:"),
            None => false,
        };
        if node.is_element && str_eq(node.name.as_str(), "response") && dav {
            let response = read_response(nodes, i);
            match response.href {
                None => {},
                Some(href) => {
                    let ghost was = out@;
                    let ghost before = opt_text(root);
                    match &root {
                        None => {
                            let entry = WebDavEntry {
                                path: String::new(),
                                is_dir: true,
                                size: response.size,
                                etag: response.etag,
                            };
                            assert(entry@.path =~= seq![]);
                            out.push(entry);
                            root = Some(href);
                            assert(webdav_entries(out@) =~= webdav_entries(was).push(entry@));
                        },
                        Some(r) => {
                            let h = to_chars(href.as_str());
                            let rc = to_chars(r.as_str());
                            let relative = href_strip_prefix(h.as_slice(), rc.as_slice());
                            let path = from_chars(without_trailing_slashes(relative.as_slice()));
                            let decoded = percent_decode(path.as_str());
                            let decoded_chars = to_chars(decoded.as_str());
                            let name = without_leading_slashes(decoded_chars.as_slice());
                            let entry = WebDavEntry {
                                path: from_chars(name),
                                is_dir: response.is_dir,
                                size: response.size,
                                etag: response.etag,
                            };
                            assert(entry@ == entry_of(response_at(nv, i as int), href@, before->0));
                            if entry.is_dir || name.len() > 0 {
                                out.push(entry);
                                assert(webdav_entries(out@) =~= webdav_entries(was).push(entry@));
                            }
                        },
                    }
                    assert(webdav_entries(out@) + entries_from_node(nv, i + 1, opt_text(root))
                        =~= webdav_entries(was) + entries_from_node(nv, i as int, before));
                },
            }
        }
        i = i + 1;
    }
    assert(webdav_entries(out@) =~= entries_from_node(nv, 0, None));
    out
}

proof fn lemma_no_leading_slash(s: Seq<char>)
    ensures
        !starts_with(drop_slashes(s), seq!['/']),
    decreases s.len(),
{
    if s.len() > 0 && s[0] == '/' {
        lemma_no_leading_slash(s.skip(1));
    } else if starts_with(s, seq!['/']) {
        assert(s.take(1)[0] == '/');
    }
}

/// Every file of a listing has a name, as only collections have an empty path,
/// and no path starts with a slash.
pub proof fn listed_paths_are_relative(nodes: Seq<NodeView>, i: int, root: Option<Seq<char>>)
    ensures
        forall|k: int|
            0 <= k < entries_from_node(nodes, i, root).len() ==> {
                let entry = #[trigger] entries_from_node(nodes, i, root)[k];
                !nameless_file(entry) && !starts_with(entry.path, seq!['/'])
            },
    decreases nodes.len() - i,
{
    if 0 <= i < nodes.len() {
        let response = response_at(nodes, i);
        let later = match (is_response(nodes[i]), response.href, root) {
            (true, Some(href), None) => Some(href),
            _ => root,
        };
        listed_paths_are_relative(nodes, i + 1, later);
        let all = entries_from_node(nodes, i, root);
        let rest = entries_from_node(nodes, i + 1, later);
        assert(all == rest || all == seq![all[0]] + rest);
        assert forall|k: int| 0 <= k < all.len() implies !nameless_file(#[trigger] all[k])
            && !starts_with(all[k].path, seq!['/']) by {
            if all != rest && k > 0 {
                assert(all[k] == rest[k - 1]);
            } else if all != rest {
                if let (Some(href), Some(r)) = (response.href, root) {
                    lemma_no_leading_slash(
                        decoded_path(drop_trailing_slashes(relative_address(href, r))),
                    );
                }
            }
        }
    }
}

/// Which nodes the entries from node `i` on come from, in order.
proof fn lemma_entries(nodes: Seq<NodeView>, i: int, root: Seq<char>) -> (at: Seq<int>)
    requires
        0 <= i <= nodes.len(),
    ensures
        at.len() == entries_from_node(nodes, i, Some(root)).len(),
        forall|k: int|
            0 <= k < at.len() ==> {
                let response = response_at(nodes, #[trigger] at[k]);
                &&& i <= at[k] < nodes.len()
                &&& is_response(nodes[at[k]])
                &&& response.href is Some
                &&& entries_from_node(nodes, i, Some(root))[k] == entry_of(
                    response,
                    response.href->0,
                    root,
                )
            },
        forall|k: int, l: int| 0 <= k < l < at.len() ==> at[k] < at[l],
        forall|j: int|
            i <= j < nodes.len() && is_response(#[trigger] nodes[j]) && response_at(nodes, j).href is Some
                && !nameless_file(
                entry_of(response_at(nodes, j), response_at(nodes, j).href->0, root),
            ) ==> at.contains(j),
    decreases nodes.len() - i,
{
    if i == nodes.len() {
        Seq::empty()
    } else {
        let rest = lemma_entries(nodes, i + 1, root);
        let response = response_at(nodes, i);
        let here = is_response(nodes[i]) && response.href is Some && !nameless_file(
            entry_of(response, response.href->0, root),
        );
        let at = if here {
            seq![i] + rest
        } else {
            rest
        };
        let all = entries_from_node(nodes, i, Some(root));
        let more = entries_from_node(nodes, i + 1, Some(root));
        assert(here ==> all == seq![entry_of(response, response.href->0, root)] + more);
        assert(!here ==> all == more);
        assert forall|k: int| 0 <= k < at.len() implies {
            let response = response_at(nodes, #[trigger] at[k]);
            &&& i <= at[k] < nodes.len()
            &&& is_response(nodes[at[k]])
            &&& response.href is Some
            &&& all[k] == entry_of(response, response.href->0, root)
        } by {
            if here && k > 0 {
                assert(at[k] == rest[k - 1]);
                assert(all[k] == more[k - 1]);
            } else if !here {
                assert(at[k] == rest[k]);
            }
        }
        assert forall|j: int|
            i <= j < nodes.len() && is_response(#[trigger] nodes[j]) && response_at(
                nodes,
                j,
            ).href is Some && !nameless_file(
                entry_of(response_at(nodes, j), response_at(nodes, j).href->0, root),
            ) implies at.contains(j) by {
            if j == i {
                assert(at[0] == i);
            } else {
                assert(rest.contains(j));
                let k = choose|k: int| 0 <= k < rest.len() && rest[k] == j;
                if here {
                    assert(at[k + 1] == j);
                } else {
                    assert(at[k] == j);
                }
            }
        }
        at
    }
}

proof fn lemma_entries_start(nodes: Seq<NodeView>, i: int, first: int)
    requires
        0 <= i <= first <= nodes.len(),
        forall|j: int|
            i <= j < first ==> !(is_response(#[trigger] nodes[j]) && response_at(nodes, j).href is Some),
    ensures
        entries_from_node(nodes, i, None) == entries_from_node(nodes, first, None),
    decreases first - i,
{
    if i < first {
        assert(!(is_response(nodes[i]) && response_at(nodes, i).href is Some));
        lemma_entries_start(nodes, i + 1, first);
    }
}

/// A listing has an entry for every response with an address, in the order of the answer.
/// The first is the collection itself and has no path; every other is read below it, and
/// only a file that has no name there is left out. `at` gives the node of each entry.
pub proof fn every_response_is_listed(nodes: Seq<NodeView>, first: int) -> (at: Seq<int>)
    requires
        0 <= first < nodes.len(),
        is_response(nodes[first]),
        response_at(nodes, first).href is Some,
        forall|j: int|
            0 <= j < first ==> !(is_response(#[trigger] nodes[j]) && response_at(nodes, j).href is Some),
    ensures
        ({
            let all = entries_from_node(nodes, 0, None);
            let root = response_at(nodes, first).href->0;
            &&& at.len() == all.len()
            &&& at.len() > 0
            &&& at[0] == first
            &&& all[0] == WebDavEntryView {
                path: seq![],
                is_dir: true,
                size: response_at(nodes, first).size,
                etag: response_at(nodes, first).etag,
            }
            &&& forall|k: int|
                0 < k < at.len() ==> {
                    let response = response_at(nodes, #[trigger] at[k]);
                    &&& first < at[k] < nodes.len()
                    &&& is_response(nodes[at[k]])
                    &&& response.href is Some
                    &&& all[k] == entry_of(response, response.href->0, root)
                }
            &&& forall|k: int, l: int| 0 <= k < l < at.len() ==> at[k] < at[l]
            &&& forall|j: int|
                first < j < nodes.len() && is_response(#[trigger] nodes[j]) && response_at(
                    nodes,
                    j,
                ).href is Some ==> at.contains(j) || nameless_file(
                    entry_of(response_at(nodes, j), response_at(nodes, j).href->0, root),
                )
        }),
{
    let root = response_at(nodes, first).href->0;
    lemma_entries_start(nodes, 0, first);
    let rest = lemma_entries(nodes, first + 1, root);
    let at = seq![first] + rest;
    let all = entries_from_node(nodes, 0, None);
    let more = entries_from_node(nodes, first + 1, Some(root));
    assert forall|k: int| 0 < k < at.len() implies {
        let response = response_at(nodes, #[trigger] at[k]);
        &&& first < at[k] < nodes.len()
        &&& is_response(nodes[at[k]])
        &&& response.href is Some
        &&& all[k] == entry_of(response, response.href->0, root)
    } by {
        assert(at[k] == rest[k - 1]);
        assert(all[k] == more[k - 1]);
    }
    assert forall|j: int|
        first < j < nodes.len() && is_response(#[trigger] nodes[j]) && response_at(
            nodes,
            j,
        ).href is Some implies at.contains(j) || nameless_file(
        entry_of(response_at(nodes, j), response_at(nodes, j).href->0, root),
    ) by {
        if rest.contains(j) {
            let k = choose|k: int| 0 <= k < rest.len() && rest[k] == j;
            assert(at[k + 1] == j);
        }
    }
    at
}

/// The entries of a PROPFIND answer.
pub fn parse_multistatus(xml: &str) -> (r: Result<Vec<WebDavEntry>, WebDavError>)
    ensures
        match (xml_nodes(xml@), r) {
            (Ok(nodes), Ok(v)) => webdav_entries(v@) == entries_from_node(nodes, 0, None),
            (Err(why), Err(e)) => e.0@ == "webdav PROPFIND parse: "@ + why,
            _ => false,
        },
{
    match read_xml(xml) {
        Ok(nodes) => Ok(entries_of_nodes(&nodes)),
        Err(why) => {
            let mut out = to_chars("webdav PROPFIND parse: ");
            push_str(&mut out, why.as_str());
            Err(WebDavError(from_chars(out.as_slice())))
        },
    }
}

} // verus!
