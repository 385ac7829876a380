//! Recovering the last input text from a rollout line that the bounded tail
//! read cut in half.
use vstd::prelude::*;
use crate::chars::{
    find, first_at, from_chars, last_at, lemma_found_bounds, lemma_last_at_facts, opt_string,
    push_all, rfind, slice, to_chars,
};

verus! {

/// What `String::from_utf8_lossy` gives for `bytes`.
pub uninterp spec fn lossy_utf8(bytes: Seq<u8>) -> Seq<char>;

/// `String::from_utf8_lossy`: the text of `bytes`, with each invalid UTF-8
/// sequence replaced by U+FFFD.
#[verifier::external_body]
fn utf8_lossy(bytes: &[u8]) -> (r: String)
    ensures
        r@ == lossy_utf8(bytes@),
{
    String::from_utf8_lossy(bytes).into_owned()
}

/// What `serde_json::from_str::<String>` gives for `literal`: the decoded
/// string when `literal` is one JSON string, `None` otherwise.
pub uninterp spec fn json_string(literal: Seq<char>) -> Option<Seq<char>>;

/// `serde_json::from_str::<String>`: decodes one JSON string literal.
#[verifier::external_body]
fn decode_json_string(literal: &str) -> (r: Option<String>)
    ensures
        opt_string(r) == json_string(literal@),
{
    serde_json::from_str::<String>(literal).ok()
}

/// The characters of a JSON string body up to its first unescaped quote,
/// read from the start; `escaped` says whether a backslash is pending.
pub open spec fn string_body(s: Seq<char>, escaped: bool) -> Seq<char>
    decreases s.len(),
{
    if s.len() == 0 || (!escaped && s[0] == '"') {
        seq![]
    } else {
        seq![s[0]] + string_body(s.drop_first(), !escaped && s[0] == '\\')
    }
}

/// The input text that a rollout line fragment ends with: the body of the
/// `"text":"` field after the last `"type":"input_text"`, decoded as a JSON
/// string, or nothing when that is missing or does not decode.
pub open spec fn partial_text(text: Seq<char>) -> Seq<char> {
    match last_at(text, "\"type\":\"input_text\""@) {
        None => seq![],
        Some(start) => match first_at(text.skip(start), "\"text\":\""@) {
            None => seq![],
            Some(at) => {
                let fragment = text.skip(start + at + "\"text\":\""@.len());
                match json_string(seq!['"'] + string_body(fragment, false) + seq!['"']) {
                    Some(v) => v,
                    None => seq![],
                }
            },
        },
    }
}

fn body_chars(s: &Vec<char>) -> (r: Vec<char>)
    ensures
        r@ == string_body(s@, false),
{
    let mut out: Vec<char> = Vec::new();
    let mut escaped = false;
    let mut i: usize = 0;
    assert(out@ + string_body(s@.skip(0), false) =~= string_body(s@, false)) by {
        assert(s@.skip(0) =~= s@);
    }
    while i < s.len()
        invariant
            i <= s.len(),
            out@ + string_body(s@.skip(i as int), escaped) == string_body(s@, false),
        decreases s.len() - i,
    {
        let c = s[i];
        assert(s@.skip(i as int)[0] == c);
        assert(s@.skip(i as int).drop_first() =~= s@.skip(i + 1));
        if !escaped && c == '"' {
            assert(string_body(s@.skip(i as int), escaped) == Seq::<char>::empty());
            assert(out@ =~= string_body(s@, false));
            return out;
        }
        out.push(c);
        escaped = !escaped && c == '\\';
        assert(out@ + string_body(s@.skip(i + 1), escaped) =~= string_body(s@, false));
        i += 1;
    }
    assert(s@.skip(i as int).len() == 0);
    assert(out@ =~= string_body(s@, false));
    out
}

/// The input text that a rollout line cut by the bounded tail read ends
/// with, decoded, or nothing when the fragment holds none.
pub fn recover_partial_text(line: &[u8]) -> (r: String)
    ensures
        r@ == partial_text(lossy_utf8(line@)),
{
    let decoded = utf8_lossy(line);
    let text = to_chars(decoded.as_str());
    let marker = to_chars("\"type\":\"input_text\"");
    let start = match rfind(&text, &marker) {
        None => {
            return String::new();
        },
        Some(s) => s,
    };
    proof {
        lemma_last_at_facts(text@, marker@);
    }
    let from_marker = slice(&text, start, text.len());
    assert(from_marker@ =~= text@.skip(start as int));
    let field = to_chars("\"text\":\"");
    let at = match find(&from_marker, &field) {
        None => {
            return String::new();
        },
        Some(a) => a,
    };
    proof {
        lemma_found_bounds(from_marker@, field@, at as int);
    }
    let n = text.len();
    assert(start + at + field@.len() <= n);
    let fragment = slice(&text, start + at + field.len(), n);
    assert(fragment@ =~= text@.skip(start + at + field@.len()));
    let body = body_chars(&fragment);
    let mut quoted: Vec<char> = Vec::new();
    quoted.push('"');
    push_all(&mut quoted, &body);
    quoted.push('"');
    assert(quoted@ =~= seq!['"'] + body@ + seq!['"']);
    let literal = from_chars(&quoted);
    match decode_json_string(literal.as_str()) {
        Some(v) => v,
        None => String::new(),
    }
}

} // verus!
