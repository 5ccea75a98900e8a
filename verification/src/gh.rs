//! What the library knows of GitHub: percent-encoding of one path segment, and how the
//! output of one `gh api` process is read as a reply.

use vstd::prelude::*;

use crate::text::{
    chars_of, find_from, lemma_occurs_iff_first, lossy_text, occurs_in, push_char, string_of,
    texts, trim_range, trimmed, utf8_lossy,
};
use serde_json::Value;
use vstd::string::StringSliceAdditionalSpecFns;

verus! {

/// RFC 3986 unreserved characters: ASCII letters and digits, `-`, `.`, `_`, `~`.
pub open spec fn unreserved(b: u8) -> bool {
    ||| (48 <= b <= 57)
    ||| (65 <= b <= 90)
    ||| (97 <= b <= 122)
    ||| b == 45
    ||| b == 46
    ||| b == 95
    ||| b == 126
}

/// The upper-case hexadecimal digit of `n < 16`.
pub open spec fn hex_digit(n: nat) -> char {
    if n < 10 {
        ((n + 48) as u32) as char
    } else {
        ((n + 55) as u32) as char
    }
}

/// One byte of a segment: itself when unreserved, else `%` and two upper-case hex digits.
pub open spec fn encode_byte(b: u8) -> Seq<char> {
    if unreserved(b) {
        seq![(b as u32) as char]
    } else {
        seq!['%', hex_digit((b / 16) as nat), hex_digit((b % 16) as nat)]
    }
}

/// A byte string percent-encoded as one path segment, byte by byte.
pub open spec fn percent_encode(bytes: Seq<u8>) -> Seq<char>
    decreases bytes.len(),
{
    if bytes.len() == 0 {
        seq![]
    } else {
        percent_encode(bytes.drop_last()) + encode_byte(bytes.last())
    }
}

/// The value of a hexadecimal digit (either case).
pub open spec fn hex_value(c: char) -> nat {
    if '0' <= c && c <= '9' {
        ((c as u32) - 48) as nat
    } else if 'A' <= c && c <= 'F' {
        ((c as u32) - 55) as nat
    } else {
        ((c as u32) - 87) as nat
    }
}

/// Percent-decoding: `%XY` is the byte `0xXY`, any other character is its own code.
pub open spec fn percent_decode(s: Seq<char>) -> Seq<u8>
    decreases s.len(),
{
    if s.len() == 0 {
        seq![]
    } else if s[0] == '%' && s.len() >= 3 {
        seq![(hex_value(s[1]) * 16 + hex_value(s[2])) as u8] + percent_decode(s.skip(3))
    } else {
        seq![(s[0] as u32) as u8] + percent_decode(s.skip(1))
    }
}

/// Percent-encode one path segment (RFC 3986 unreserved characters pass through).
pub fn segment(raw: &str) -> (r: String)
    ensures
        r@ == percent_encode(raw.spec_bytes()),
{
    let bytes = raw.as_bytes();
    let mut out = String::new();
    let mut i: usize = 0;
    while i < bytes.len()
        invariant
            bytes@ == raw.spec_bytes(),
            i <= bytes@.len(),
            out@ == percent_encode(bytes@.take(i as int)),
        decreases bytes@.len() - i,
    {
        let b = bytes[i];
        assert(bytes@.take(i + 1).drop_last() =~= bytes@.take(i as int));
        if (48 <= b && b <= 57) || (65 <= b && b <= 90) || (97 <= b && b <= 122) || b == 45 || b
            == 46 || b == 95 || b == 126 {
            push_char(&mut out, b as char);
        } else {
            push_char(&mut out, '%');
            push_char(&mut out, hex_char(b / 16));
            push_char(&mut out, hex_char(b % 16));
        }
        assert(out@ =~= percent_encode(bytes@.take(i + 1)));
        i = i + 1;
    }
    assert(bytes@.take(i as int) =~= bytes@);
    out
}

fn hex_char(n: u8) -> (c: char)
    requires
        n < 16,
    ensures
        c == hex_digit(n as nat),
{
    if n < 10 {
        (n + 48) as char
    } else {
        (n + 55) as char
    }
}

proof fn lemma_encode_concat(a: Seq<u8>, b: Seq<u8>)
    ensures
        percent_encode(a + b) == percent_encode(a) + percent_encode(b),
    decreases b.len(),
{
    if b.len() == 0 {
        assert(a + b =~= a);
        assert(percent_encode(a) + percent_encode(b) =~= percent_encode(a));
    } else {
        lemma_encode_concat(a, b.drop_last());
        assert((a + b).drop_last() =~= a + b.drop_last());
        assert((a + b).last() == b.last());
        assert(percent_encode(a + b) =~= percent_encode(a) + percent_encode(b));
    }
}

proof fn lemma_decode_byte(x: u8, rest: Seq<char>)
    ensures
        percent_decode(encode_byte(x) + rest) == seq![x] + percent_decode(rest),
{
    let e = encode_byte(x) + rest;
    if unreserved(x) {
        assert(e[0] == (x as u32) as char);
        assert(e.skip(1) =~= rest);
        assert(((x as u32) as char as u32) as u8 == x);
    } else {
        assert(e.skip(3) =~= rest);
        let hi = (x / 16) as nat;
        let lo = (x % 16) as nat;
        assert(hex_value(hex_digit(hi)) == hi);
        assert(hex_value(hex_digit(lo)) == lo);
    }
}

/// Percent-decoding a segment gives back the bytes it was made from, so two different
/// names never share a path segment.
pub proof fn segment_decodes_to_its_bytes(bytes: Seq<u8>)
    ensures
        percent_decode(percent_encode(bytes)) == bytes,
    decreases bytes.len(),
{
    if bytes.len() > 0 {
        let rest = bytes.skip(1);
        assert(bytes =~= seq![bytes[0]] + rest);
        lemma_encode_concat(seq![bytes[0]], rest);
        let one = seq![bytes[0]];
        assert(one.drop_last() =~= Seq::<u8>::empty());
        assert(one.last() == bytes[0]);
        assert(percent_encode(one.drop_last()) =~= Seq::<char>::empty());
        assert(percent_encode(one) == percent_encode(one.drop_last()) + encode_byte(bytes[0]));
        assert(percent_encode(one) =~= encode_byte(bytes[0]));
        lemma_decode_byte(bytes[0], percent_encode(rest));
        segment_decodes_to_its_bytes(rest);
        assert(seq![bytes[0]] + rest =~= bytes);
    }
}


/// A character a percent-encoded segment may hold: an unreserved character or `%`.
pub open spec fn segment_char(c: char) -> bool {
    ||| ('0' <= c && c <= '9')
    ||| ('A' <= c && c <= 'Z')
    ||| ('a' <= c && c <= 'z')
    ||| c == '-'
    ||| c == '.'
    ||| c == '_'
    ||| c == '~'
    ||| c == '%'
}

/// A percent-encoded segment holds only ASCII letters, digits, `-`, `.`, `_`, `~` and `%`,
/// so it never carries a `/` or a space into a path.
pub proof fn segments_hold_only_unreserved_characters_and_percent(bytes: Seq<u8>)
    ensures
        forall|i: int|
            0 <= i < percent_encode(bytes).len() ==> segment_char(
                #[trigger] percent_encode(bytes)[i],
            ),
    decreases bytes.len(),
{
    if bytes.len() > 0 {
        let init = bytes.drop_last();
        segments_hold_only_unreserved_characters_and_percent(init);
        let b = bytes.last();
        let e = encode_byte(b);
        let hi = (b / 16) as nat;
        let lo = (b % 16) as nat;
        assert(segment_char(hex_digit(hi)) && segment_char(hex_digit(lo)));
        assert forall|k: int| 0 <= k < e.len() implies segment_char(#[trigger] e[k]) by {
            if !unreserved(b) {
                assert(k == 0 || k == 1 || k == 2);
            }
        }
        let p = percent_encode(init);
        assert(percent_encode(bytes) == p + e);
        assert forall|i: int| 0 <= i < (p + e).len() implies segment_char(#[trigger] (p + e)[i]) by {
            if i < p.len() {
                assert((p + e)[i] == p[i]);
            } else {
                assert((p + e)[i] == e[i - p.len()]);
            }
        }
    }
}

/// A JSON value read one level deep: scalars as themselves, the items of an array and the
/// members of an object as their own JSON text.
pub enum Json {
    Null,
    Bool(bool),
    /// A number, as JSON writes it.
    Number(String),
    Text(String),
    /// The items, each as JSON text.
    Array(Vec<String>),
    /// The members, each key with its value as JSON text.
    Object(Vec<(String, String)>),
}

/// The plain view of a [`Json`].
pub enum JsonView {
    Null,
    Bool(bool),
    Number(Seq<char>),
    Text(Seq<char>),
    Array(Seq<Seq<char>>),
    Object(Seq<(Seq<char>, Seq<char>)>),
}

impl View for Json {
    type V = JsonView;

    open spec fn view(&self) -> JsonView {
        match self {
            Json::Null => JsonView::Null,
            Json::Bool(b) => JsonView::Bool(*b),
            Json::Number(n) => JsonView::Number(n@),
            Json::Text(t) => JsonView::Text(t@),
            Json::Array(items) => JsonView::Array(texts(items@)),
            Json::Object(members) => JsonView::Object(
                members@.map_values(|m: (String, String)| (m.0@, m.1@)),
            ),
        }
    }
}

/// What `serde_json` makes of a text parsed as a `serde_json::Value`: the value one level deep,
/// its items and members written back as JSON text, or the parse error's message.
pub uninterp spec fn json_of(text: Seq<char>) -> Result<JsonView, Seq<char>>;

/// `serde_json::from_str::<Value>`, with the value's items and members written back with
/// `to_string` and the error with its `Display`. The contract names the outcome: what a
/// JSON text holds, and which texts are JSON, is `serde_json`'s, and not restated here.
#[verifier::external_body]
pub(crate) fn parse_json(text: &str) -> (r: Result<Json, String>)
    ensures
        match r {
            Ok(v) => json_of(text@) == Ok::<JsonView, Seq<char>>(v@),
            Err(e) => json_of(text@) == Err::<JsonView, Seq<char>>(e@),
        },
{
    Ok(match serde_json::from_str::<Value>(text).map_err(|e| e.to_string())? {
        Value::Null => Json::Null,
        Value::Bool(b) => Json::Bool(b),
        Value::Number(n) => Json::Number(n.to_string()),
        Value::String(t) => Json::Text(t),
        Value::Array(a) => Json::Array(a.iter().map(|x| x.to_string()).collect()),
        Value::Object(m) => Json::Object(m.iter().map(|(k, x)| (k.clone(), x.to_string())).collect()),
    })
}

/// An optional text by its view.
pub open spec fn text_view(t: Option<String>) -> Option<Seq<char>> {
    match t {
        Some(s) => Some(s@),
        None => None,
    }
}

/// The JSON text of the first member named `key`.
pub open spec fn member_of(members: Seq<(Seq<char>, Seq<char>)>, key: Seq<char>) -> Option<
    Seq<char>,
>
    decreases members.len(),
{
    if members.len() == 0 {
        None
    } else if members[0].0 == key {
        Some(members[0].1)
    } else {
        member_of(members.skip(1), key)
    }
}

/// The member `key` of the JSON object `text`, as JSON text; nothing when `text` is no object
/// or has no such member (where `value["key"]` gives `null`).
pub open spec fn json_member(text: Seq<char>, key: Seq<char>) -> Option<Seq<char>> {
    match json_of(text) {
        Ok(JsonView::Object(members)) => member_of(members, key),
        _ => None,
    }
}

/// The string that the JSON text `text` is, if it is one (`as_str`).
pub open spec fn json_text(text: Seq<char>) -> Option<Seq<char>> {
    match json_of(text) {
        Ok(JsonView::Text(s)) => Some(s),
        _ => None,
    }
}

/// The items of the JSON array `text`, as JSON texts; none when it is no array.
pub open spec fn json_items(text: Seq<char>) -> Seq<Seq<char>> {
    match json_of(text) {
        Ok(JsonView::Array(items)) => items,
        _ => seq![],
    }
}

/// The strings among JSON texts, in order.
pub open spec fn json_strings(items: Seq<Seq<char>>) -> Seq<Seq<char>>
    decreases items.len(),
{
    if items.len() == 0 {
        seq![]
    } else {
        let rest = json_strings(items.drop_last());
        match json_text(items.last()) {
            Some(s) => rest.push(s),
            None => rest,
        }
    }
}

/// The member `key` of the JSON object `text`, as JSON text.
pub fn member(text: &str, key: &str) -> (r: Option<String>)
    ensures
        text_view(r) == json_member(text@, key@),
{
    match parse_json(text) {
        Ok(Json::Object(members)) => {
            let ghost v = members@.map_values(|m: (String, String)| (m.0@, m.1@));
            let wanted = String::from_str(key);
            let mut i: usize = 0;
            assert(v.skip(0) =~= v);
            while i < members.len()
                invariant
                    i <= members@.len(),
                    wanted@ == key@,
                    v == members@.map_values(|m: (String, String)| (m.0@, m.1@)),
                    json_member(text@, key@) == member_of(v, key@),
                    member_of(v, key@) == member_of(v.skip(i as int), key@),
                decreases members@.len() - i,
            {
                assert(v.skip(i as int)[0] == v[i as int]);
                if members[i].0 == wanted {
                    return Some(members[i].1.clone());
                }
                assert(v.skip(i as int).skip(1) =~= v.skip(i + 1));
                i = i + 1;
            }
            None
        },
        _ => None,
    }
}

/// The string that the JSON text `text` is, if it is one.
pub fn text_value(text: &str) -> (r: Option<String>)
    ensures
        text_view(r) == json_text(text@),
{
    match parse_json(text) {
        Ok(Json::Text(s)) => Some(s),
        _ => None,
    }
}

/// The items of the JSON array `text`; none when it is no array.
pub fn array_items(text: &str) -> (r: Vec<String>)
    ensures
        texts(r@) == json_items(text@),
{
    match parse_json(text) {
        Ok(Json::Array(items)) => items,
        _ => Vec::new(),
    }
}

/// The strings among the JSON texts `items`, in order.
pub fn string_items(items: &Vec<String>) -> (r: Vec<String>)
    ensures
        texts(r@) == json_strings(texts(items@)),
{
    let mut out: Vec<String> = Vec::new();
    let mut k: usize = 0;
    while k < items.len()
        invariant
            k <= items@.len(),
            texts(out@) == json_strings(texts(items@).take(k as int)),
        decreases items@.len() - k,
    {
        let ghost before = texts(out@);
        let ghost pre = texts(items@).take(k + 1);
        assert(pre.drop_last() =~= texts(items@).take(k as int));
        assert(pre.last() == items@[k as int]@);
        match text_value(items[k].as_str()) {
            Some(t) => {
                out.push(t);
                assert(texts(out@) =~= before.push(t@));
            },
            None => {},
        }
        k = k + 1;
    }
    assert(texts(items@).take(k as int) =~= texts(items@));
    out
}

/// What one `gh api` call yielded.
pub enum Reply {
    /// A 2xx answer: its JSON text, or nothing when the body was empty.
    Body(Option<String>),
    /// A 404.
    NotFound,
}

/// How an error of one call starts: `gh api <method> <path>: `.
pub open spec fn call_prefix(method: Seq<char>, path: Seq<char>) -> Seq<char> {
    "gh api "@ + method + " "@ + path + ": "@
}

/// The answer to a `gh api <method> <path>` process, read from whether it succeeded and what it
/// wrote: on success the body, empty or JSON; on failure a 404, or an error carrying what it
/// wrote on stderr.
pub open spec fn reply_of(
    method: Seq<char>,
    path: Seq<char>,
    success: bool,
    stdout: Seq<u8>,
    stderr: Seq<u8>,
) -> Result<Option<Option<Seq<char>>>, Seq<char>> {
    if success {
        let text = utf8_lossy(stdout);
        if trimmed(text).len() == 0 {
            Ok(Some(None))
        } else {
            match json_of(text) {
                Ok(_) => Ok(Some(Some(text))),
                Err(e) => Err(call_prefix(method, path) + "bad JSON: "@ + e),
            }
        }
    } else if occurs_in(utf8_lossy(stderr), "HTTP 404"@) {
        Ok(None)
    } else {
        Err(call_prefix(method, path) + trimmed(utf8_lossy(stderr)))
    }
}

/// The plain view of a reply: `Some(body)` for a 2xx answer, `None` for a 404.
pub open spec fn reply_view(r: Result<Reply, String>) -> Result<Option<Option<Seq<char>>>, Seq<char>> {
    match r {
        Ok(Reply::Body(Some(t))) => Ok(Some(Some(t@))),
        Ok(Reply::Body(None)) => Ok(Some(None)),
        Ok(Reply::NotFound) => Ok(None),
        Err(e) => Err(e@),
    }
}

/// Read the outcome of `gh api -X <method> <path>`: whether the process succeeded, and the
/// bytes it wrote to stdout and stderr.
pub fn reply(method: &str, path: &str, success: bool, stdout: &[u8], stderr: &[u8]) -> (r: Result<Reply, String>)
    ensures
        reply_view(r) == reply_of(method@, path@, success, stdout@, stderr@),
{
    let mut prefix = String::from_str("gh api ");
    prefix.append(method);
    prefix.append(" ");
    prefix.append(path);
    prefix.append(": ");
    proof {
        reveal_strlit("gh api ");
        reveal_strlit(" ");
        reveal_strlit(": ");
        assert(prefix@ =~= call_prefix(method@, path@));
    }
    if success {
        let text = lossy_text(stdout);
        let cs = chars_of(text.as_str());
        let (a, b) = trim_range(cs.as_slice());
        if a == b {
            return Ok(Reply::Body(None));
        }
        match parse_json(text.as_str()) {
            Ok(_) => Ok(Reply::Body(Some(text))),
            Err(e) => {
                prefix.append("bad JSON: ");
                prefix.append(e.as_str());
                proof {
                    reveal_strlit("bad JSON: ");
                }
                Err(prefix)
            },
        }
    } else {
        let err = lossy_text(stderr);
        let cs = chars_of(err.as_str());
        let pat = chars_of("HTTP 404");
        proof {
            reveal_strlit("HTTP 404");
            assert(cs@.skip(0) =~= cs@);
            lemma_occurs_iff_first(cs@, pat@);
        }
        if find_from(cs.as_slice(), 0, pat.as_slice()).is_some() {
            return Ok(Reply::NotFound);
        }
        let (a, b) = trim_range(cs.as_slice());
        let rest = string_of(&cs.as_slice()[a..b]);
        prefix.append(rest.as_str());
        Err(prefix)
    }
}

} // verus!
