//! The text rules: whitespace squashing, label normalisation, synthetic
//! prompt detection, image stripping, handoff capsules and activity labels.
use vstd::prelude::*;
use crate::chars::{
    begins, begins_with_text, find, first_at, from_chars, has_text, holds_item, infix, is_text,
    is_white, is_white_char, is_word, join, join_words, lemma_first_at_facts, lemma_found_bounds,
    lemma_words_are_words, lemma_words_of_join, lemma_words_subrange, opt_chars, opt_string, prefix,
    push_all, slice, split_words, squash, to_chars, views, words,
};

verus! {

/// What `char::is_alphanumeric` returns for `c`.
pub uninterp spec fn alphanumeric(c: char) -> bool;

/// `char::is_alphanumeric`: whether `c` is alphabetic or numeric in Unicode.
#[verifier::external_body]
fn is_alphanumeric(c: char) -> (r: bool)
    ensures
        r == alphanumeric(c),
{
    c.is_alphanumeric()
}

/// A class of characters that a trim removes from both ends.
#[derive(Clone, Copy)]
pub enum Trim {
    /// `"`, `'` and backtick.
    Quotes,
    /// Unicode whitespace.
    White,
    /// Everything but letters, digits, `#`, `/`, `-` and `_`.
    NonWord,
    /// The letter `s`.
    LetterS,
}

/// Whether the class `t` holds `c`.
pub open spec fn trims(t: Trim, c: char) -> bool {
    match t {
        Trim::Quotes => c == '"' || c == '\'' || c == '`',
        Trim::White => is_white(c),
        Trim::NonWord => !(alphanumeric(c) || c == '#' || c == '/' || c == '-' || c == '_'),
        Trim::LetterS => c == 's',
    }
}

fn trims_char(t: Trim, c: char) -> (r: bool)
    ensures
        r == trims(t, c),
{
    match t {
        Trim::Quotes => c == '"' || c == '\'' || c == '`',
        Trim::White => is_white_char(c),
        Trim::NonWord => !(is_alphanumeric(c) || c == '#' || c == '/' || c == '-' || c == '_'),
        Trim::LetterS => c == 's',
    }
}

/// `s` without the characters of class `t` at its start.
pub open spec fn drop_lead(s: Seq<char>, t: Trim) -> Seq<char>
    decreases s.len(),
{
    if s.len() > 0 && trims(t, s[0]) {
        drop_lead(s.drop_first(), t)
    } else {
        s
    }
}

/// `s` without the characters of class `t` at its end.
pub open spec fn drop_trail(s: Seq<char>, t: Trim) -> Seq<char>
    decreases s.len(),
{
    if s.len() > 0 && trims(t, s.last()) {
        drop_trail(s.drop_last(), t)
    } else {
        s
    }
}

/// `s` without the characters of class `t` at either end (`trim_matches`).
pub open spec fn trim_by(s: Seq<char>, t: Trim) -> Seq<char> {
    drop_trail(drop_lead(s, t), t)
}

proof fn lemma_drop_lead(s: Seq<char>, t: Trim, a: int)
    requires
        0 <= a <= s.len(),
        forall|j: int| 0 <= j < a ==> trims(t, s[j]),
        a == s.len() || !trims(t, s[a]),
    ensures
        drop_lead(s, t) == s.skip(a),
    decreases a,
{
    if a == 0 {
        assert(s.skip(0) =~= s);
    } else {
        assert(trims(t, s[0]));
        let r = s.drop_first();
        assert forall|j: int| 0 <= j < a - 1 implies trims(t, r[j]) by {
            assert(r[j] == s[j + 1]);
        }
        if a < s.len() {
            assert(r[a - 1] == s[a]);
        }
        lemma_drop_lead(r, t, a - 1);
        assert(r.skip(a - 1) =~= s.skip(a));
    }
}

proof fn lemma_drop_trail(s: Seq<char>, t: Trim, b: int)
    requires
        0 <= b <= s.len(),
        forall|j: int| b <= j < s.len() ==> trims(t, s[j]),
        b == 0 || !trims(t, s[b - 1]),
    ensures
        drop_trail(s, t) == s.take(b),
    decreases s.len() - b,
{
    if b == s.len() {
        assert(s.take(b) =~= s);
    } else {
        assert(trims(t, s.last()));
        let r = s.drop_last();
        assert forall|j: int| b <= j < r.len() implies trims(t, r[j]) by {
            assert(r[j] == s[j]);
        }
        if b > 0 {
            assert(r[b - 1] == s[b - 1]);
        }
        lemma_drop_trail(r, t, b);
        assert(r.take(b) =~= s.take(b));
    }
}

/// `s` without the characters of class `t` at either end.
pub fn trim(s: &Vec<char>, t: Trim) -> (r: Vec<char>)
    ensures
        r@ == trim_by(s@, t),
{
    let mut a: usize = 0;
    while a < s.len() && trims_char(t, s[a])
        invariant
            a <= s.len(),
            forall|j: int| 0 <= j < a ==> trims(t, s@[j]),
        decreases s.len() - a,
    {
        a += 1;
    }
    proof {
        lemma_drop_lead(s@, t, a as int);
    }
    let mut b: usize = s.len();
    while b > a && trims_char(t, s[b - 1])
        invariant
            a <= b <= s.len(),
            forall|j: int| b <= j < s.len() ==> trims(t, s@[j]),
        decreases b,
    {
        b -= 1;
    }
    let ghost rest = s@.skip(a as int);
    proof {
        assert forall|j: int| b - a <= j < rest.len() implies trims(t, rest[j]) by {
            assert(rest[j] == s@[j + a]);
        }
        if b > a {
            assert(rest[b - a - 1] == s@[b - 1]);
        }
        lemma_drop_trail(rest, t, b - a);
        assert(rest.take(b - a) =~= s@.subrange(a as int, b as int));
    }
    slice(s, a, b)
}

/// `s` without the characters of class `t` at its end.
pub fn trim_end(s: &Vec<char>, t: Trim) -> (r: Vec<char>)
    ensures
        r@ == drop_trail(s@, t),
{
    let mut b: usize = s.len();
    while b > 0 && trims_char(t, s[b - 1])
        invariant
            b <= s.len(),
            forall|j: int| b <= j < s.len() ==> trims(t, s@[j]),
        decreases b,
    {
        b -= 1;
    }
    proof {
        lemma_drop_trail(s@, t, b as int);
    }
    slice(s, 0, b)
}

/// The words of `text` joined by single spaces, cut to `max_chars`
/// characters.
pub open spec fn compact(text: Seq<char>, max_chars: int) -> Seq<char> {
    prefix(squash(text), max_chars)
}

/// The words of `text` joined by single spaces, cut to `max_chars`.
pub fn compact_chars(text: &Vec<char>, max_chars: usize) -> (r: Vec<char>)
    ensures
        r@ == compact(text@, max_chars as int),
{
    let ws = split_words(text);
    let mut out = join_words(&ws, ' ');
    out.truncate(max_chars);
    out
}

/// Collapses every run of whitespace in `text` to one space, drops it at
/// both ends, and keeps at most `max_chars` characters.
pub fn compact_text(text: &str, max_chars: usize) -> (r: String)
    ensures
        r@ == compact(text@, max_chars as int),
{
    let v = to_chars(text);
    let c = compact_chars(&v, max_chars);
    from_chars(&c)
}

/// The normalised form of a model label: its first twelve words, joined by
/// single spaces, with quotes and backticks trimmed from both ends.
pub open spec fn normalized(label: Seq<char>) -> Seq<char> {
    trim_by(join(prefix(words(label), 12), seq![' ']), Trim::Quotes)
}

/// Keeps the first twelve words of a model label on one line and trims
/// quotes and backticks around it.
pub fn normalize_label(label: &str) -> (r: String)
    ensures
        r@ == normalized(label@),
{
    let v = to_chars(label);
    let mut ws = split_words(&v);
    ws.truncate(12);
    assert(views(ws@) =~= prefix(words(v@), 12));
    let joined = join_words(&ws, ' ');
    let t = trim(&joined, Trim::Quotes);
    from_chars(&t)
}

} // verus!

verus! {

/// Text that tooling, not a person, put in the conversation: injected
/// instructions, environment blocks, handoff capsules and map-reading requests.
pub open spec fn synthetic(text: Seq<char>) -> bool {
    ||| begins(text, "# AGENTS.md instructions"@)
    ||| begins(text, "<environment_context>"@)
    ||| infix(text, "<skills_instructions>"@)
    ||| infix(text, "<permissions instructions>"@)
    ||| infix(text, "<collaboration_mode>"@)
    ||| infix(text, "--- capsule ---"@)
    ||| (begins(text, "Read "@) && infix(text, "/project-maps/"@) && infix(
        text,
        "Use its Objective, Cursor, and Next action."@,
    ))
}

/// Whether the characters `text` were injected by tooling.
pub fn synthetic_chars(text: &Vec<char>) -> (r: bool)
    ensures
        r == synthetic(text@),
{
    begins_with_text(text, "# AGENTS.md instructions") || begins_with_text(
        text,
        "<environment_context>",
    ) || has_text(text, "<skills_instructions>") || has_text(text, "<permissions instructions>")
        || has_text(text, "<collaboration_mode>") || has_text(text, "--- capsule ---") || (
    begins_with_text(text, "Read ") && has_text(text, "/project-maps/") && has_text(
        text,
        "Use its Objective, Cursor, and Next action.",
    ))
}

/// Whether `text` was injected by tooling rather than typed by a person.
pub fn synthetic_prompt(text: &str) -> (r: bool)
    ensures
        r == synthetic(text@),
{
    let v = to_chars(text);
    synthetic_chars(&v)
}

/// The start of an image tag.
pub open spec fn image_open() -> Seq<char> {
    seq!['<', 'i', 'm', 'a', 'g', 'e']
}

/// The end of an image span.
pub open spec fn image_close() -> Seq<char> {
    seq!['<', '/', 'i', 'm', 'a', 'g', 'e', '>']
}

/// The start of an image reference.
pub open spec fn image_ref() -> Seq<char> {
    seq!['[', 'I', 'm', 'a', 'g', 'e', ' ', '#']
}

/// `s` with every `<image` ... `</image>` span removed, the first opening
/// each time, up to the first closing after it; an opening without a
/// closing after it stops the removal.
#[verifier::opaque]
pub open spec fn drop_image_tags(s: Seq<char>) -> Seq<char>
    decreases s.len(),
{
    match first_at(s, image_open()) {
        None => s,
        Some(i) => match first_at(s.skip(i), image_close()) {
            None => s,
            Some(j) => {
                proof {
                    lemma_first_at_facts(s, image_open());
                    lemma_first_at_facts(s.skip(i), image_close());
                }
                drop_image_tags(s.take(i) + s.skip(i + j + 8))
            },
        },
    }
}

/// `s` with every `[Image #` ... `]` reference removed. When a reference
/// has no closing bracket, the text before it is followed by the whole
/// remaining text, reference included.
#[verifier::opaque]
pub open spec fn drop_image_refs(s: Seq<char>) -> Seq<char>
    decreases s.len(),
{
    match first_at(s, image_ref()) {
        None => s,
        Some(i) => match first_at(s.skip(i), seq![']']) {
            None => s.take(i) + s,
            Some(j) => {
                proof {
                    lemma_first_at_facts(s, image_ref());
                    lemma_first_at_facts(s.skip(i), seq![']']);
                }
                s.take(i) + drop_image_refs(s.skip(i + j + 1))
            },
        },
    }
}

/// A prompt without image markup, trimmed of whitespace.
pub open spec fn stripped(prompt: Seq<char>) -> Seq<char> {
    trim_by(drop_image_refs(drop_image_tags(prompt)), Trim::White)
}

proof fn lemma_tags_step(s: Seq<char>, i: int, j: int)
    requires
        first_at(s, image_open()) == Some(i),
        first_at(s.skip(i), image_close()) == Some(j),
    ensures
        drop_image_tags(s) == drop_image_tags(s.take(i) + s.skip(i + j + 8)),
{
    reveal(drop_image_tags);
}

proof fn lemma_tags_done(s: Seq<char>)
    requires
        first_at(s, image_open()) is None || (first_at(s, image_open()) matches Some(i) && first_at(
            s.skip(i),
            image_close(),
        ) is None),
    ensures
        drop_image_tags(s) == s,
{
    reveal(drop_image_tags);
}

proof fn lemma_refs_none(s: Seq<char>)
    requires
        first_at(s, image_ref()) is None,
    ensures
        drop_image_refs(s) == s,
{
    reveal(drop_image_refs);
}

proof fn lemma_refs_open(s: Seq<char>, i: int)
    requires
        first_at(s, image_ref()) == Some(i),
        first_at(s.skip(i), seq![']']) is None,
    ensures
        drop_image_refs(s) == s.take(i) + s,
{
    reveal(drop_image_refs);
}

proof fn lemma_refs_step(s: Seq<char>, i: int, j: int)
    requires
        first_at(s, image_ref()) == Some(i),
        first_at(s.skip(i), seq![']']) == Some(j),
    ensures
        drop_image_refs(s) == s.take(i) + drop_image_refs(s.skip(i + j + 1)),
{
    reveal(drop_image_refs);
}

fn drop_image_tags_chars(s: Vec<char>) -> (r: Vec<char>)
    ensures
        r@ == drop_image_tags(s@),
{
    let open: Vec<char> = vec!['<', 'i', 'm', 'a', 'g', 'e'];
    let close: Vec<char> = vec!['<', '/', 'i', 'm', 'a', 'g', 'e', '>'];
    assert(open@ =~= image_open());
    assert(close@ =~= image_close());
    let mut out = s;
    loop
        invariant
            drop_image_tags(out@) == drop_image_tags(s@),
            open@ == image_open(),
            close@ == image_close(),
        ensures
            out@ == drop_image_tags(s@),
        decreases out@.len(),
    {
        match find(&out, &open) {
            None => {
                proof {
                    lemma_tags_done(out@);
                }
                break;
            },
            Some(start) => {
                proof {
                    lemma_found_bounds(out@, open@, start as int);
                }
                let rest = slice(&out, start, out.len());
                assert(rest@ =~= out@.skip(start as int));
                match find(&rest, &close) {
                    None => {
                        proof {
                            lemma_tags_done(out@);
                        }
                        break;
                    },
                    Some(end) => {
                        proof {
                            lemma_found_bounds(rest@, close@, end as int);
                            lemma_tags_step(out@, start as int, end as int);
                        }
                        let mut next = slice(&out, 0, start);
                        let after = slice(&out, start + end + 8, out.len());
                        push_all(&mut next, &after);
                        assert(next@ =~= out@.take(start as int) + out@.skip(start + end + 8));
                        out = next;
                    },
                }
            },
        }
    }
    out
}

fn drop_image_refs_chars(s: Vec<char>) -> (r: Vec<char>)
    ensures
        r@ == drop_image_refs(s@),
{
    let open: Vec<char> = vec!['[', 'I', 'm', 'a', 'g', 'e', ' ', '#'];
    let close: Vec<char> = vec![']'];
    assert(open@ =~= image_ref());
    assert(close@ =~= seq![']']);
    let mut clean: Vec<char> = Vec::new();
    let mut rest = s;
    loop
        invariant_except_break
            clean@ + drop_image_refs(rest@) == drop_image_refs(s@),
        invariant
            open@ == image_ref(),
            close@ == seq![']'],
        ensures
            clean@ == drop_image_refs(s@),
        decreases rest@.len(),
    {
        match find(&rest, &open) {
            None => {
                proof {
                    lemma_refs_none(rest@);
                }
                push_all(&mut clean, &rest);
                break;
            },
            Some(start) => {
                proof {
                    lemma_found_bounds(rest@, open@, start as int);
                }
                let before = slice(&rest, 0, start);
                let after_open = slice(&rest, start, rest.len());
                assert(after_open@ =~= rest@.skip(start as int));
                push_all(&mut clean, &before);
                match find(&after_open, &close) {
                    None => {
                        proof {
                            lemma_refs_open(rest@, start as int);
                        }
                        push_all(&mut clean, &rest);
                        assert(before@ =~= rest@.take(start as int));
                        break;
                    },
                    Some(end) => {
                        proof {
                            lemma_found_bounds(after_open@, close@, end as int);
                            lemma_refs_step(rest@, start as int, end as int);
                        }
                        let next = slice(&rest, start + end + 1, rest.len());
                        assert(next@ =~= rest@.skip(start + end + 1));
                        assert(before@ =~= rest@.take(start as int));
                        assert(clean@ + drop_image_refs(next@) =~= drop_image_refs(s@));
                        rest = next;
                    },
                }
            },
        }
    }
    clean
}

/// The characters of a prompt without image markup, trimmed.
pub fn strip_image_chars(prompt: &Vec<char>) -> (r: Vec<char>)
    ensures
        r@ == stripped(prompt@),
{
    let mut copy: Vec<char> = Vec::new();
    push_all(&mut copy, prompt);
    assert(copy@ =~= prompt@);
    let tags = drop_image_tags_chars(copy);
    let refs = drop_image_refs_chars(tags);
    trim(&refs, Trim::White)
}

/// Removes `<image ...>...</image>` spans and `[Image #n]` references from a
/// prompt and trims the whitespace around what is left.
pub fn strip_images(prompt: &str) -> (r: String)
    ensures
        r@ == stripped(prompt@),
{
    let v = to_chars(prompt);
    let s = strip_image_chars(&v);
    from_chars(&s)
}

} // verus!

verus! {

/// The text between the first `head` in `body` and the first `end` after it.
pub open spec fn section(body: Seq<char>, head: Seq<char>, end: Seq<char>) -> Option<Seq<char>> {
    match first_at(body, head) {
        None => None,
        Some(i) => {
            let after = body.skip(i + head.len());
            match first_at(after, end) {
                None => None,
                Some(j) => Some(after.take(j)),
            }
        },
    }
}

/// The summary of a CompactVeteran handoff found in `text`: its objective,
/// cursor and next action, each squashed and cut short.
pub open spec fn handoff(text: Seq<char>) -> Option<Seq<char>> {
    if !infix(text, "# CompactVeteran handoff"@) {
        None
    } else {
        match first_at(text, "--- capsule ---"@) {
            None => None,
            Some(start) => {
                let body = text.skip(start);
                match (
                    section(body, "## Objective\n\n"@, "\n\n## Cursor"@),
                    section(body, "## Cursor\n\n"@, "\n\n## Next action"@),
                    section(body, "## Next action\n\n"@, "\n\n## Recent commits"@),
                ) {
                    (Some(o), Some(c), Some(n)) => Some(
                        "objective: "@ + compact(o, 160) + "\ncursor: "@ + compact(c, 120)
                            + "\nnext: "@ + compact(n, 100),
                    ),
                    _ => None,
                }
            },
        }
    }
}

fn section_chars(body: &Vec<char>, head: &str, end: &str) -> (r: Option<Vec<char>>)
    ensures
        opt_chars(r) == section(body@, head@, end@),
{
    let h = to_chars(head);
    let e = to_chars(end);
    match find(body, &h) {
        None => None,
        Some(i) => {
            proof {
                lemma_found_bounds(body@, h@, i as int);
            }
            let n = body.len();
            assert(i + h@.len() <= n);
            let after = slice(body, i + h.len(), body.len());
            assert(after@ =~= body@.skip(i + h@.len()));
            match find(&after, &e) {
                None => None,
                Some(j) => {
                    proof {
                        lemma_found_bounds(after@, e@, j as int);
                    }
                    let part = slice(&after, 0, j);
                    assert(part@ =~= after@.take(j as int));
                    Some(part)
                },
            }
        },
    }
}

/// Pushes the characters of the text `lit` onto `out`.
pub fn push_text(out: &mut Vec<char>, lit: &str)
    ensures
        final(out)@ == old(out)@ + lit@,
{
    let v = to_chars(lit);
    push_all(out, &v);
}

/// The handoff summary found in the characters `text`, if any.
pub fn embedded_chars(text: &Vec<char>) -> (r: Option<Vec<char>>)
    ensures
        opt_chars(r) == handoff(text@),
{
    if !has_text(text, "# CompactVeteran handoff") {
        return None;
    }
    let marker = to_chars("--- capsule ---");
    let start = match find(text, &marker) {
        None => {
            return None;
        },
        Some(s) => s,
    };
    proof {
        lemma_found_bounds(text@, marker@, start as int);
    }
    let body = slice(text, start, text.len());
    assert(body@ =~= text@.skip(start as int));
    let objective = match section_chars(&body, "## Objective\n\n", "\n\n## Cursor") {
        None => {
            return None;
        },
        Some(o) => o,
    };
    let cursor = match section_chars(&body, "## Cursor\n\n", "\n\n## Next action") {
        None => {
            return None;
        },
        Some(c) => c,
    };
    let next = match section_chars(&body, "## Next action\n\n", "\n\n## Recent commits") {
        None => {
            return None;
        },
        Some(n) => n,
    };
    let mut out: Vec<char> = Vec::new();
    push_text(&mut out, "objective: ");
    push_all(&mut out, &compact_chars(&objective, 160));
    push_text(&mut out, "\ncursor: ");
    push_all(&mut out, &compact_chars(&cursor, 120));
    push_text(&mut out, "\nnext: ");
    push_all(&mut out, &compact_chars(&next, 100));
    Some(out)
}

/// The objective, cursor and next action of a CompactVeteran handoff
/// embedded in `text`, or `None` when `text` holds no complete handoff.
pub fn embedded_capsule(text: &str) -> (r: Option<String>)
    ensures
        opt_string(r) == handoff(text@),
{
    let v = to_chars(text);
    match embedded_chars(&v) {
        None => None,
        Some(c) => Some(from_chars(&c)),
    }
}

} // verus!

verus! {

/// What `str::to_lowercase` returns for `s`.
pub uninterp spec fn lowercase(s: Seq<char>) -> Seq<char>;

/// `str::to_lowercase`: the lowercase equivalent of `s` under Unicode rules.
#[verifier::external_body]
fn to_lowercase(s: &str) -> (r: String)
    ensures
        r@ == lowercase(s@),
{
    s.to_lowercase()
}

fn lower_chars(v: &Vec<char>) -> (r: Vec<char>)
    ensures
        r@ == lowercase(v@),
{
    let s = from_chars(v);
    let l = to_lowercase(s.as_str());
    to_chars(l.as_str())
}

/// A reply that carries no new intent.
pub open spec fn is_trivial(t: Seq<char>) -> bool {
    ||| t == "ok"@
    ||| t == "okay"@
    ||| t == "thanks"@
    ||| t == "thank you"@
    ||| t == "continue"@
    ||| t == "yes"@
    ||| t == "no"@
    ||| t == "sure"@
}

fn is_trivial_chars(t: &Vec<char>) -> (r: bool)
    ensures
        r == is_trivial(t@),
{
    is_text(t, "ok") || is_text(t, "okay") || is_text(t, "thanks") || is_text(t, "thank you") || is_text(t, "continue") || is_text(t, "yes") || is_text(t, "no") || is_text(t, "sure")
}

/// A word that names no work in an activity label.
pub open spec fn is_filler(w: Seq<char>) -> bool {
    ||| w == "please"@
    ||| w == "can"@
    ||| w == "you"@
    ||| w == "could"@
    ||| w == "would"@
    ||| w == "just"@
    ||| w == "help"@
    ||| w == "me"@
    ||| w == "i"@
    ||| w == "need"@
    ||| w == "want"@
    ||| w == "to"@
    ||| w == "the"@
    ||| w == "a"@
    ||| w == "an"@
    ||| w == "and"@
    ||| w == "also"@
    ||| w == "now"@
    ||| w == "make"@
    ||| w == "it"@
    ||| w == "this"@
    ||| w == "that"@
    ||| w == "is"@
    ||| w == "are"@
    ||| w == "have"@
    ||| w == "has"@
    ||| w == "we"@
    ||| w == "our"@
    ||| w == "my"@
    ||| w == "so"@
    ||| w == "on"@
    ||| w == "for"@
    ||| w == "example"@
    ||| w == "conversation"@
    ||| w == "still"@
    ||| w == "gotta"@
    ||| w == "able"@
    ||| w == "be"@
    ||| w == "do"@
    ||| w == "its"@
    ||| w == "it's"@
    ||| w == "most"@
}

fn is_filler_chars(w: &Vec<char>) -> (r: bool)
    ensures
        r == is_filler(w@),
{
    is_text(w, "please") || is_text(w, "can") || is_text(w, "you") || is_text(w, "could") || is_text(w, "would") || is_text(w, "just") || is_text(w, "help") || is_text(w, "me") || is_text(w, "i") || is_text(w, "need") || is_text(w, "want") || is_text(w, "to") || is_text(w, "the") || is_text(w, "a") || is_text(w, "an") || is_text(w, "and") || is_text(w, "also") || is_text(w, "now") || is_text(w, "make") || is_text(w, "it") || is_text(w, "this") || is_text(w, "that") || is_text(w, "is") || is_text(w, "are") || is_text(w, "have") || is_text(w, "has") || is_text(w, "we") || is_text(w, "our") || is_text(w, "my") || is_text(w, "so") || is_text(w, "on") || is_text(w, "for") || is_text(w, "example") || is_text(w, "conversation") || is_text(w, "still") || is_text(w, "gotta") || is_text(w, "able") || is_text(w, "be") || is_text(w, "do") || is_text(w, "its") || is_text(w, "it's") || is_text(w, "most")
}

/// A raw word without the punctuation around it.
pub open spec fn label_word(raw: Seq<char>) -> Seq<char> {
    trim_by(raw, Trim::NonWord)
}

/// The stem under which a word counts as already used: lowercase, without
/// trailing `s`.
pub open spec fn stem(word: Seq<char>) -> Seq<char> {
    drop_trail(lowercase(word), Trim::LetterS)
}

/// The words kept for an activity label from the raw words `ws`, read in
/// order, with the stems they used: an empty word, a filler word and a word
/// whose stem is already used are skipped, and reading stops at twelve.
pub open spec fn picked(ws: Seq<Seq<char>>) -> (Seq<Seq<char>>, Seq<Seq<char>>)
    decreases ws.len(),
{
    if ws.len() == 0 {
        (seq![], seq![])
    } else {
        let (kept, stems) = picked(ws.drop_last());
        let word = label_word(ws.last());
        if kept.len() >= 12 || word.len() == 0 || is_filler(lowercase(word)) || stems.contains(
            stem(word),
        ) {
            (kept, stems)
        } else {
            (kept.push(word), stems.push(stem(word)))
        }
    }
}

/// `s` with its first character turned to uppercase when it is an ASCII
/// lowercase letter.
pub open spec fn capitalized(s: Seq<char>) -> Seq<char> {
    if s.len() > 0 && 'a' <= s[0] <= 'z' {
        s.update(0, ((s[0] as u32 - 32) as u8) as char)
    } else {
        s
    }
}

/// The provisional label of a prompt: empty for synthetic and trivial
/// prompts, else up to twelve distinct content words of the prompt without
/// its images, the first one capitalised.
pub open spec fn activity_label(prompt: Seq<char>) -> Seq<char> {
    let p = stripped(prompt);
    if synthetic(p) || is_trivial(trim_by(lowercase(p), Trim::White)) {
        seq![]
    } else {
        capitalized(join(picked(words(p)).0, seq![' ']))
    }
}

proof fn lemma_picked_full(ws: Seq<Seq<char>>, k: int)
    requires
        0 <= k <= ws.len(),
        picked(ws.take(k)).0.len() >= 12,
    ensures
        picked(ws) == picked(ws.take(k)),
    decreases ws.len() - k,
{
    if k == ws.len() {
        assert(ws.take(k) =~= ws);
    } else {
        let shorter = ws.drop_last();
        assert(shorter.take(k) =~= ws.take(k));
        lemma_picked_full(shorter, k);
        lemma_picked_len(shorter);
    }
}

proof fn lemma_picked_len(ws: Seq<Seq<char>>)
    ensures
        picked(ws).0.len() <= 12,
        picked(ws).0.len() == picked(ws).1.len(),
    decreases ws.len(),
{
    if ws.len() > 0 {
        lemma_picked_len(ws.drop_last());
    }
}

fn capitalize(s: &mut Vec<char>)
    ensures
        final(s)@ == capitalized(old(s)@),
{
    if s.len() > 0 && 'a' <= s[0] && s[0] <= 'z' {
        let u = s[0] as u32 - 32;
        let c = (u as u8) as char;
        s.set(0, c);
    }
}

/// A short label for the activity a prompt starts: up to twelve distinct
/// content words, or nothing for trivial and tool-injected prompts.
pub fn provisional_label(prompt: &str) -> (r: String)
    ensures
        r@ == activity_label(prompt@),
{
    let raw = to_chars(prompt);
    let p = strip_image_chars(&raw);
    let lower = lower_chars(&p);
    let lower_trimmed = trim(&lower, Trim::White);
    if synthetic_chars(&p) || is_trivial_chars(&lower_trimmed) {
        return String::new();
    }
    let ws = split_words(&p);
    let ghost all = views(ws@);
    let mut kept: Vec<Vec<char>> = Vec::new();
    let mut stems: Vec<Vec<char>> = Vec::new();
    let mut k: usize = 0;
    while k < ws.len() && kept.len() < 12
        invariant
            k <= ws.len(),
            all == views(ws@),
            (views(kept@), views(stems@)) == picked(all.take(k as int)),
        decreases ws.len() - k,
    {
        let ghost before = all.take(k as int);
        assert(all.take(k + 1).drop_last() =~= before);
        let word = trim(&ws[k], Trim::NonWord);
        let lower_word = lower_chars(&word);
        let st = trim_end(&lower_word, Trim::LetterS);
        assert(all[k as int] == ws@[k as int]@);
        assert(all.take(k + 1).last() == all[k as int]);
        if word.len() == 0 || is_filler_chars(&lower_word) || holds_item(&stems, &st) {
        } else {
            kept.push(word);
            stems.push(st);
            assert(views(kept@) =~= picked(before).0.push(word@));
            assert(views(stems@) =~= picked(before).1.push(st@));
        }
        k += 1;
    }
    proof {
        if k < ws.len() {
            lemma_picked_full(all, k as int);
        } else {
            assert(all.take(k as int) =~= all);
        }
    }
    let mut label = join_words(&kept, ' ');
    capitalize(&mut label);
    from_chars(&label)
}

} // verus!

verus! {

proof fn lemma_drop_lead_suffix(s: Seq<char>, t: Trim)
    ensures
        exists|a: int| 0 <= a <= s.len() && drop_lead(s, t) == s.subrange(a, s.len() as int),
    decreases s.len(),
{
    if s.len() > 0 && trims(t, s[0]) {
        lemma_drop_lead_suffix(s.drop_first(), t);
        let a = choose|a: int|
            0 <= a <= s.drop_first().len() && drop_lead(s.drop_first(), t) == s.drop_first().subrange(
                a,
                s.drop_first().len() as int,
            );
        assert(s.drop_first().subrange(a, s.drop_first().len() as int) =~= s.subrange(
            a + 1,
            s.len() as int,
        ));
    } else {
        assert(s.subrange(0, s.len() as int) =~= s);
    }
}

proof fn lemma_drop_trail_prefix(s: Seq<char>, t: Trim)
    ensures
        exists|b: int| 0 <= b <= s.len() && drop_trail(s, t) == s.subrange(0, b),
    decreases s.len(),
{
    if s.len() > 0 && trims(t, s.last()) {
        lemma_drop_trail_prefix(s.drop_last(), t);
        let b = choose|b: int|
            0 <= b <= s.drop_last().len() && drop_trail(s.drop_last(), t) == s.drop_last().subrange(
                0,
                b,
            );
        assert(s.drop_last().subrange(0, b) =~= s.subrange(0, b));
    } else {
        assert(s.subrange(0, s.len() as int) =~= s);
    }
}

/// What is trimmed from both ends of `s` is a part of `s`.
pub proof fn lemma_trim_by_part(s: Seq<char>, t: Trim)
    ensures
        exists|a: int, b: int| 0 <= a <= b <= s.len() && trim_by(s, t) == s.subrange(a, b),
{
    lemma_drop_lead_suffix(s, t);
    let a = choose|a: int| 0 <= a <= s.len() && drop_lead(s, t) == s.subrange(a, s.len() as int);
    let u = s.subrange(a, s.len() as int);
    lemma_drop_trail_prefix(u, t);
    let b = choose|b: int| 0 <= b <= u.len() && drop_trail(u, t) == u.subrange(0, b);
    assert(u.subrange(0, b) =~= s.subrange(a, a + b));
}

/// Single spaces are the only whitespace that joining words with spaces
/// puts in.
proof fn lemma_join_spaces(ws: Seq<Seq<char>>)
    requires
        forall|i: int| 0 <= i < ws.len() ==> is_word(#[trigger] ws[i]),
    ensures
        forall|i: int|
            0 <= i < join(ws, seq![' ']).len() ==> (is_white(#[trigger] join(ws, seq![' '])[i])
                ==> join(ws, seq![' '])[i] == ' '),
    decreases ws.len(),
{
    if ws.len() == 1 {
        assert(is_word(ws[0]));
    } else if ws.len() > 1 {
        let d = ws.drop_last();
        assert forall|i: int| 0 <= i < d.len() implies is_word(#[trigger] d[i]) by {
            assert(d[i] == ws[i]);
        }
        lemma_join_spaces(d);
        let j = join(ws, seq![' ']);
        let jd = join(d, seq![' ']);
        let w = ws.last();
        assert(is_word(ws[ws.len() - 1]));
        assert forall|i: int| 0 <= i < j.len() && is_white(#[trigger] j[i]) implies j[i] == ' ' by {
            if i < jd.len() {
                assert(j[i] == jd[i]);
            } else if i == jd.len() {
                assert(j[i] == ' ');
            } else {
                assert(j[i] == w[i - jd.len() - 1]);
            }
        }
    }
}

/// Words joined by single spaces never hold two spaces in a row, and end
/// in a word's last character.
proof fn lemma_join_single_spaces(ws: Seq<Seq<char>>)
    requires
        forall|i: int| 0 <= i < ws.len() ==> is_word(#[trigger] ws[i]),
    ensures
        forall|i: int|
            0 <= i < join(ws, seq![' ']).len() - 1 ==> !(#[trigger] join(ws, seq![' '])[i] == ' '
                && join(ws, seq![' '])[i + 1] == ' '),
        ws.len() > 0 ==> join(ws, seq![' ']).len() > 0 && !is_white(join(ws, seq![' ']).last()),
    decreases ws.len(),
{
    let j = join(ws, seq![' ']);
    assert(is_white(' '));
    if ws.len() == 1 {
        assert(is_word(ws[0]));
        assert forall|i: int| 0 <= i < j.len() - 1 implies !(#[trigger] j[i] == ' ' && j[i + 1]
            == ' ') by {
            assert(!is_white(ws[0][i]));
        }
        assert(!is_white(ws[0][ws[0].len() - 1]));
    } else if ws.len() > 1 {
        let d = ws.drop_last();
        assert forall|i: int| 0 <= i < d.len() implies is_word(#[trigger] d[i]) by {
            assert(d[i] == ws[i]);
        }
        lemma_join_single_spaces(d);
        let jd = join(d, seq![' ']);
        let w = ws.last();
        assert(is_word(ws[ws.len() - 1]));
        assert(!is_white(w[0]));
        assert(!is_white(w[w.len() - 1]));
        assert forall|i: int| 0 <= i < j.len() - 1 implies !(#[trigger] j[i] == ' ' && j[i + 1]
            == ' ') by {
            if i < jd.len() - 1 {
                assert(j[i] == jd[i] && j[i + 1] == jd[i + 1]);
            } else if i == jd.len() - 1 {
                assert(j[i] == jd.last());
            } else if i == jd.len() {
                assert(j[i + 1] == w[0]);
            } else {
                assert(j[i] == w[i - jd.len() - 1]);
                assert(!is_white(w[i - jd.len() - 1]));
            }
        }
        assert(j.last() == w.last());
    }
}

proof fn lemma_drop_lead_first(s: Seq<char>, t: Trim)
    ensures
        drop_lead(s, t).len() > 0 ==> !trims(t, drop_lead(s, t)[0]),
    decreases s.len(),
{
    if s.len() > 0 && trims(t, s[0]) {
        lemma_drop_lead_first(s.drop_first(), t);
    }
}

proof fn lemma_drop_trail_last(s: Seq<char>, t: Trim)
    ensures
        drop_trail(s, t).len() > 0 ==> !trims(t, drop_trail(s, t).last()),
    decreases s.len(),
{
    if s.len() > 0 && trims(t, s.last()) {
        lemma_drop_trail_last(s.drop_last(), t);
    }
}

/// What is trimmed at both ends neither begins nor ends with a character of
/// the class trimmed.
pub proof fn lemma_trim_by_ends(s: Seq<char>, t: Trim)
    ensures
        trim_by(s, t).len() > 0 ==> !trims(t, trim_by(s, t)[0]) && !trims(t, trim_by(s, t).last()),
{
    let u = drop_lead(s, t);
    lemma_drop_lead_first(s, t);
    lemma_drop_trail_last(u, t);
    lemma_drop_trail_prefix(u, t);
    if trim_by(s, t).len() > 0 {
        let b = choose|b: int| 0 <= b <= u.len() && drop_trail(u, t) == u.subrange(0, b);
        assert(trim_by(s, t)[0] == u[0]);
    }
}

/// A squashed text holds no line break.
proof fn lemma_compact_one_line(x: Seq<char>, m: int)
    requires
        m >= 0,
    ensures
        forall|k: int| 0 <= k < compact(x, m).len() ==> #[trigger] compact(x, m)[k] != '\n',
{
    lemma_words_are_words(x);
    lemma_join_spaces(words(x));
    assert(is_white('\n'));
    assert forall|k: int| 0 <= k < compact(x, m).len() implies #[trigger] compact(x, m)[k] != '\n' by {
        assert(compact(x, m)[k] == squash(x)[k]);
    }
}

/// A CompactVeteran capsule is three lines, objective, cursor and next
/// action: it holds exactly two line breaks and at most 407 characters.
pub proof fn lemma_handoff_lines(text: Seq<char>)
    ensures
        handoff(text) matches Some(c) ==> {
            &&& c.len() <= 407
            &&& exists|i: int, j: int|
                0 <= i < j < c.len() && #[trigger] c[i] == '\n' && #[trigger] c[j] == '\n' && forall|
                    k: int,
                | 0 <= k < c.len() && #[trigger] c[k] == '\n' ==> k == i || k == j
        },
{
    reveal_strlit("objective: ");
    reveal_strlit("\ncursor: ");
    reveal_strlit("\nnext: ");
    if handoff(text) is Some {
        let c = handoff(text)->0;
        let body = text.skip(first_at(text, "--- capsule ---"@)->0);
        let o = compact(section(body, "## Objective\n\n"@, "\n\n## Cursor"@)->0, 160);
        let cu = compact(section(body, "## Cursor\n\n"@, "\n\n## Next action"@)->0, 120);
        let nx = compact(section(body, "## Next action\n\n"@, "\n\n## Recent commits"@)->0, 100);
        let p1 = "objective: "@;
        let p2 = "\ncursor: "@;
        let p3 = "\nnext: "@;
        assert(c == p1 + o + p2 + cu + p3 + nx);
        lemma_compact_one_line(section(body, "## Objective\n\n"@, "\n\n## Cursor"@)->0, 160);
        lemma_compact_one_line(section(body, "## Cursor\n\n"@, "\n\n## Next action"@)->0, 120);
        lemma_compact_one_line(
            section(body, "## Next action\n\n"@, "\n\n## Recent commits"@)->0,
            100,
        );
        let i: int = p1.len() + o.len() as int;
        let j: int = i + p2.len() + cu.len();
        assert(c[i] == '\n');
        assert(c[j] == '\n');
        assert forall|k: int| 0 <= k < c.len() && #[trigger] c[k] == '\n' implies k == i || k == j by {
            if k < p1.len() {
                assert(c[k] == p1[k]);
            } else if k < i {
                assert(c[k] == o[k - p1.len()]);
            } else if i < k < i + p2.len() {
                assert(c[k] == p2[k - i]);
            } else if i + p2.len() <= k < j {
                assert(c[k] == cu[k - i - p2.len()]);
            } else if j < k < j + p3.len() {
                assert(c[k] == p3[k - j]);
            } else if k >= j + p3.len() {
                assert(c[k] == nx[k - j - p3.len()]);
            }
        }
    }
}

/// The three parts of a CompactVeteran handoff are the whole text between
/// their headings: after the first `--- capsule ---`, the objective is
/// everything from the first `## Objective` heading to the first
/// `\n\n## Cursor` after it, blank lines inside included, and likewise the
/// cursor up to `\n\n## Next action` and the next action up to
/// `\n\n## Recent commits`; each is squashed and cut short on its line.
pub proof fn lemma_handoff_sections(
    text: Seq<char>,
    start: int,
    oi: int,
    oj: int,
    ci: int,
    cj: int,
    ni: int,
    nj: int,
)
    requires
        infix(text, "# CompactVeteran handoff"@),
        first_at(text, "--- capsule ---"@) == Some(start),
        first_at(text.skip(start), "## Objective\n\n"@) == Some(oi),
        first_at(text.skip(start).skip(oi + "## Objective\n\n"@.len()), "\n\n## Cursor"@) == Some(
            oj,
        ),
        first_at(text.skip(start), "## Cursor\n\n"@) == Some(ci),
        first_at(text.skip(start).skip(ci + "## Cursor\n\n"@.len()), "\n\n## Next action"@)
            == Some(cj),
        first_at(text.skip(start), "## Next action\n\n"@) == Some(ni),
        first_at(
            text.skip(start).skip(ni + "## Next action\n\n"@.len()),
            "\n\n## Recent commits"@,
        ) == Some(nj),
    ensures
        handoff(text) == Some(
            "objective: "@ + compact(
                text.skip(start).skip(oi + "## Objective\n\n"@.len()).take(oj),
                160,
            ) + "\ncursor: "@ + compact(
                text.skip(start).skip(ci + "## Cursor\n\n"@.len()).take(cj),
                120,
            ) + "\nnext: "@ + compact(
                text.skip(start).skip(ni + "## Next action\n\n"@.len()).take(nj),
                100,
            ),
        ),
{
}

/// There is no handoff without the handoff heading, without a capsule
/// marker, or without an objective heading after that marker.
pub proof fn lemma_handoff_needs_marks(text: Seq<char>)
    ensures
        !infix(text, "# CompactVeteran handoff"@) ==> handoff(text) is None,
        first_at(text, "--- capsule ---"@) is None ==> handoff(text) is None,
        (first_at(text, "--- capsule ---"@) matches Some(start) && first_at(
            text.skip(start),
            "## Objective\n\n"@,
        ) is None) ==> handoff(text) is None,
{
}

/// Every model label is normalised to one short line: at most twelve words,
/// with no whitespace but single spaces, never two of them in a row, and no
/// quote or backtick at either end.
pub proof fn lemma_normalized_short_line(label: Seq<char>)
    ensures
        words(normalized(label)).len() <= 12,
        forall|i: int|
            0 <= i < normalized(label).len() ==> (is_white(#[trigger] normalized(label)[i])
                ==> normalized(label)[i] == ' '),
        forall|i: int|
            0 <= i < normalized(label).len() - 1 ==> !(#[trigger] normalized(label)[i] == ' '
                && normalized(label)[i + 1] == ' '),
        normalized(label).len() > 0 ==> !trims(Trim::Quotes, normalized(label)[0]) && !trims(
            Trim::Quotes,
            normalized(label).last(),
        ),
{
    let ws = prefix(words(label), 12);
    lemma_words_are_words(label);
    assert forall|i: int| 0 <= i < ws.len() implies is_word(#[trigger] ws[i]) by {
        assert(ws[i] == words(label)[i]);
    }
    let j = join(ws, seq![' ']);
    lemma_words_of_join(ws);
    lemma_join_spaces(ws);
    lemma_join_single_spaces(ws);
    lemma_trim_by_ends(j, Trim::Quotes);
    lemma_trim_by_part(j, Trim::Quotes);
    let (a, b) = choose|a: int, b: int|
        0 <= a <= b <= j.len() && trim_by(j, Trim::Quotes) == j.subrange(a, b);
    lemma_words_subrange(j, a, b);
    let n = normalized(label);
    assert forall|i: int| 0 <= i < n.len() && is_white(#[trigger] n[i]) implies n[i] == ' ' by {
        assert(n[i] == j[a + i]);
    }
    assert forall|i: int| 0 <= i < n.len() - 1 implies !(#[trigger] n[i] == ' ' && n[i + 1]
        == ' ') by {
        assert(n[i] == j[a + i] && n[i + 1] == j[a + i + 1]);
    }
}

} // verus!

verus! {

/// `kept` are the label words of the entries of `ws` at the positions
/// `at`, which increase: the words come in the order the prompt has them.
pub open spec fn taken_in_order(kept: Seq<Seq<char>>, ws: Seq<Seq<char>>, at: Seq<int>) -> bool {
    &&& at.len() == kept.len()
    &&& forall|i: int|
        0 <= i < at.len() ==> 0 <= #[trigger] at[i] < ws.len() && kept[i] == label_word(ws[at[i]])
    &&& forall|i: int, j: int| 0 <= i < j < at.len() ==> #[trigger] at[i] < #[trigger] at[j]
}

/// The words an activity label keeps are words of the prompt without their
/// punctuation, in the prompt's order: at most twelve, none empty, none a
/// filler word, and no two with the same stem.
pub proof fn lemma_picked_words(ws: Seq<Seq<char>>)
    ensures
        picked(ws).0.len() <= 12,
        exists|at: Seq<int>| taken_in_order(picked(ws).0, ws, at),
        picked(ws).0.len() == picked(ws).1.len(),
        forall|i: int|
            0 <= i < picked(ws).0.len() ==> #[trigger] picked(ws).0[i].len() > 0 && !is_filler(
                lowercase(picked(ws).0[i]),
            ) && picked(ws).1[i] == stem(picked(ws).0[i]),
        forall|i: int, j: int|
            0 <= i < j < picked(ws).1.len() ==> #[trigger] picked(ws).1[i] != #[trigger] picked(
                ws,
            ).1[j],
    decreases ws.len(),
{
    if ws.len() == 0 {
        assert(taken_in_order(picked(ws).0, ws, seq![]));
    } else {
        let d = ws.drop_last();
        lemma_picked_words(d);
        let (kept, stems) = picked(d);
        let at = choose|at: Seq<int>| taken_in_order(kept, d, at);
        let word = label_word(ws.last());
        if !(kept.len() >= 12 || word.len() == 0 || is_filler(lowercase(word)) || stems.contains(
            stem(word),
        )) {
            let k2 = kept.push(word);
            let s2 = stems.push(stem(word));
            assert(picked(ws) == (k2, s2));
            assert forall|i: int| 0 <= i < k2.len() implies #[trigger] k2[i].len() > 0 && !is_filler(
                lowercase(k2[i]),
            ) && s2[i] == stem(k2[i]) by {
                if i < kept.len() {
                    assert(k2[i] == kept[i] && s2[i] == stems[i]);
                }
            }
            let at2 = at.push(ws.len() - 1);
            assert forall|i: int| 0 <= i < at2.len() implies 0 <= #[trigger] at2[i] < ws.len()
                && k2[i] == label_word(ws[at2[i]]) by {
                if i < at.len() {
                    assert(at2[i] == at[i] && k2[i] == kept[i]);
                    assert(d[at[i]] == ws[at[i]]);
                }
            }
            assert forall|i: int, j: int| 0 <= i < j < at2.len() implies #[trigger] at2[i]
                < #[trigger] at2[j] by {
                assert(at2[i] == at[i]);
                if j < at.len() {
                    assert(at2[j] == at[j]);
                }
            }
            assert(taken_in_order(k2, ws, at2));
            assert forall|i: int, j: int| 0 <= i < j < s2.len() implies #[trigger] s2[i]
                != #[trigger] s2[j] by {
                if j == s2.len() - 1 {
                    assert(s2[i] == stems[i]);
                    assert(!stems.contains(stem(word)));
                } else {
                    assert(s2[i] == stems[i] && s2[j] == stems[j]);
                }
            }
        } else {
            assert forall|i: int| 0 <= i < at.len() implies 0 <= #[trigger] at[i] < ws.len()
                && kept[i] == label_word(ws[at[i]]) by {
                assert(d[at[i]] == ws[at[i]]);
            }
            assert(taken_in_order(kept, ws, at));
        }
    }
}

proof fn lemma_join_first(ws: Seq<Seq<char>>, sep: Seq<char>)
    requires
        ws.len() > 0,
        ws[0].len() > 0,
    ensures
        join(ws, sep).len() >= ws[0].len(),
        join(ws, sep)[0] == ws[0][0],
    decreases ws.len(),
{
    if ws.len() > 1 {
        lemma_join_first(ws.drop_last(), sep);
    }
}

proof fn lemma_capitalized_join(ws: Seq<Seq<char>>, sep: Seq<char>)
    requires
        ws.len() > 0,
        ws[0].len() > 0,
    ensures
        capitalized(join(ws, sep)) == join(ws.update(0, capitalized(ws[0])), sep),
    decreases ws.len(),
{
    let u = ws.update(0, capitalized(ws[0]));
    if ws.len() > 1 {
        let d = ws.drop_last();
        lemma_capitalized_join(d, sep);
        lemma_join_first(d, sep);
        assert(u.drop_last() =~= d.update(0, capitalized(d[0])));
        assert(u.last() == ws.last());
        let x = join(d, sep);
        assert((x + sep + ws.last())[0] == x[0]);
        assert(capitalized(x + sep + ws.last()) =~= capitalized(x) + sep + ws.last());
    }
}

/// A provisional label is the words kept from the prompt joined by single
/// spaces, the first with its first letter capitalised, and nothing when no
/// word is kept.
pub proof fn lemma_label_is_kept_words(prompt: Seq<char>)
    requires
        !(synthetic(stripped(prompt)) || is_trivial(
            trim_by(lowercase(stripped(prompt)), Trim::White),
        )),
    ensures
        ({
            let kept = picked(words(stripped(prompt))).0;
            &&& kept.len() == 0 ==> activity_label(prompt).len() == 0
            &&& kept.len() > 0 ==> activity_label(prompt) == join(
                kept.update(0, capitalized(kept[0])),
                seq![' '],
            )
        }),
{
    let kept = picked(words(stripped(prompt))).0;
    lemma_picked_words(words(stripped(prompt)));
    if kept.len() > 0 {
        assert(kept[0].len() > 0);
        lemma_capitalized_join(kept, seq![' ']);
    }
}

/// A raw word that a label can keep: not empty and not a filler word once
/// its punctuation is trimmed.
pub open spec fn content_word(raw: Seq<char>) -> bool {
    label_word(raw).len() > 0 && !is_filler(lowercase(label_word(raw)))
}

proof fn lemma_picked_none(ws: Seq<Seq<char>>)
    requires
        forall|k: int| 0 <= k < ws.len() ==> !content_word(#[trigger] ws[k]),
    ensures
        picked(ws).0.len() == 0,
        picked(ws).1.len() == 0,
    decreases ws.len(),
{
    if ws.len() > 0 {
        let d = ws.drop_last();
        assert forall|k: int| 0 <= k < d.len() implies !content_word(#[trigger] d[k]) by {
            assert(d[k] == ws[k]);
        }
        lemma_picked_none(d);
        assert(!content_word(ws[ws.len() - 1]));
    }
}

proof fn lemma_picked_first(ws: Seq<Seq<char>>, i: int)
    requires
        0 <= i < ws.len(),
        content_word(ws[i]),
        forall|k: int| 0 <= k < i ==> !content_word(#[trigger] ws[k]),
    ensures
        picked(ws).0.len() > 0,
        picked(ws).0[0] == label_word(ws[i]),
    decreases ws.len(),
{
    let d = ws.drop_last();
    if i == ws.len() - 1 {
        assert forall|k: int| 0 <= k < d.len() implies !content_word(#[trigger] d[k]) by {
            assert(d[k] == ws[k]);
        }
        lemma_picked_none(d);
        let stems = picked(d).1;
        assert(!stems.contains(stem(label_word(ws.last()))));
        assert(picked(ws).0 == picked(d).0.push(label_word(ws.last())));
    } else {
        assert forall|k: int| 0 <= k < i implies !content_word(#[trigger] d[k]) by {
            assert(d[k] == ws[k]);
        }
        assert(d[i] == ws[i]);
        lemma_picked_first(d, i);
        let (kept, stems) = picked(d);
        let word = label_word(ws.last());
        if !(kept.len() >= 12 || word.len() == 0 || is_filler(lowercase(word)) || stems.contains(
            stem(word),
        )) {
            assert(picked(ws).0 == kept.push(word));
            assert(kept.push(word)[0] == kept[0]);
        }
    }
}

proof fn lemma_join_begins(ws: Seq<Seq<char>>, sep: Seq<char>)
    requires
        ws.len() > 0,
    ensures
        begins(join(ws, sep), ws[0]),
    decreases ws.len(),
{
    if ws.len() > 1 {
        let d = ws.drop_last();
        lemma_join_begins(d, sep);
        assert(d[0] == ws[0]);
        assert(join(ws, sep).subrange(0, ws[0].len() as int) =~= join(d, sep).subrange(
            0,
            ws[0].len() as int,
        ));
    } else {
        assert(join(ws, sep).subrange(0, ws[0].len() as int) =~= ws[0]);
    }
}

/// Only the listed short replies are trivial: a prompt that is not tool
/// output, whose lowercase text is none of `ok`, `okay`, `thanks`,
/// `thank you`, `continue`, `yes`, `no` and `sure`, and that has a content
/// word gets a label, which begins with its first content word
/// capitalised.
pub proof fn lemma_content_prompts_labelled(prompt: Seq<char>, i: int)
    requires
        !synthetic(stripped(prompt)),
        ({
            let t = trim_by(lowercase(stripped(prompt)), Trim::White);
            &&& t != "ok"@
            &&& t != "okay"@
            &&& t != "thanks"@
            &&& t != "thank you"@
            &&& t != "continue"@
            &&& t != "yes"@
            &&& t != "no"@
            &&& t != "sure"@
        }),
        0 <= i < words(stripped(prompt)).len(),
        content_word(words(stripped(prompt))[i]),
        forall|k: int| 0 <= k < i ==> !content_word(#[trigger] words(stripped(prompt))[k]),
    ensures
        activity_label(prompt).len() > 0,
        begins(activity_label(prompt), capitalized(label_word(words(stripped(prompt))[i]))),
{
    let ws = words(stripped(prompt));
    lemma_picked_first(ws, i);
    let kept = picked(ws).0;
    lemma_capitalized_join(kept, seq![' ']);
    let u = kept.update(0, capitalized(kept[0]));
    lemma_join_begins(u, seq![' ']);
    lemma_join_first(kept, seq![' ']);
    assert(u[0] == capitalized(label_word(ws[i])));
}

/// A tool-injected or trivial prompt never becomes an activity label.
pub proof fn lemma_trivial_prompts_unlabelled(prompt: Seq<char>)
    requires
        synthetic(stripped(prompt)) || is_trivial(
            trim_by(lowercase(stripped(prompt)), Trim::White),
        ),
    ensures
        activity_label(prompt).len() == 0,
{
}

/// The listed short replies are never labelled: a prompt whose text,
/// lowercased and trimmed, is exactly `ok`, `okay`, `thanks`, `thank you`,
/// `continue`, `yes`, `no` or `sure` gets no label.
pub proof fn lemma_short_replies_unlabelled(prompt: Seq<char>)
    requires
        ({
            let t = trim_by(lowercase(stripped(prompt)), Trim::White);
            ||| t == "ok"@
            ||| t == "okay"@
            ||| t == "thanks"@
            ||| t == "thank you"@
            ||| t == "continue"@
            ||| t == "yes"@
            ||| t == "no"@
            ||| t == "sure"@
        }),
    ensures
        activity_label(prompt).len() == 0,
{
}

/// A label never keeps a filler word: no kept word lowercases to any of
/// please, can, you, could, would, just, help, me, i, need, want, to, the,
/// a, an, and, also, now, make, it, this, that, is, are, have, has, we,
/// our, my, so, on, for, example, conversation, still, gotta, able, be, do,
/// its, it's or most.
pub proof fn lemma_no_filler_kept(ws: Seq<Seq<char>>)
    ensures
        forall|i: int|
            0 <= i < picked(ws).0.len() ==> {
                let l = lowercase(#[trigger] picked(ws).0[i]);
                l != "please"@ && l != "can"@ && l != "you"@ && l != "could"@ && l != "would"@ && l != "just"@ && l != "help"@ && l != "me"@ && l != "i"@ && l != "need"@ && l != "want"@ && l != "to"@ && l != "the"@ && l != "a"@ && l != "an"@ && l != "and"@ && l != "also"@ && l != "now"@ && l != "make"@ && l != "it"@ && l != "this"@ && l != "that"@ && l != "is"@ && l != "are"@ && l != "have"@ && l != "has"@ && l != "we"@ && l != "our"@ && l != "my"@ && l != "so"@ && l != "on"@ && l != "for"@ && l != "example"@ && l != "conversation"@ && l != "still"@ && l != "gotta"@ && l != "able"@ && l != "be"@ && l != "do"@ && l != "its"@ && l != "it's"@ && l != "most"@
            },
{
    lemma_picked_words(ws);
    assert forall|i: int| 0 <= i < picked(ws).0.len() implies {
        let l = lowercase(#[trigger] picked(ws).0[i]);
        l != "please"@ && l != "can"@ && l != "you"@ && l != "could"@ && l != "would"@ && l != "just"@ && l != "help"@ && l != "me"@ && l != "i"@ && l != "need"@ && l != "want"@ && l != "to"@ && l != "the"@ && l != "a"@ && l != "an"@ && l != "and"@ && l != "also"@ && l != "now"@ && l != "make"@ && l != "it"@ && l != "this"@ && l != "that"@ && l != "is"@ && l != "are"@ && l != "have"@ && l != "has"@ && l != "we"@ && l != "our"@ && l != "my"@ && l != "so"@ && l != "on"@ && l != "for"@ && l != "example"@ && l != "conversation"@ && l != "still"@ && l != "gotta"@ && l != "able"@ && l != "be"@ && l != "do"@ && l != "its"@ && l != "it's"@ && l != "most"@
    } by {
        assert(picked(ws).0[i].len() > 0);
        assert(!is_filler(lowercase(picked(ws).0[i])));
    }
}

/// A squashed text never exceeds the number of characters it is cut to.
pub proof fn lemma_compact_bounded(text: Seq<char>, max_chars: int)
    requires
        max_chars >= 0,
    ensures
        compact(text, max_chars).len() <= max_chars,
{
}

} // verus!
