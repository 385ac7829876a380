//! The optional GraphFather context placed before a capsule.
use vstd::prelude::*;
use crate::chars::{from_chars, opt_string, opt_text, prefix, push_all, to_chars};
use crate::text::push_text;

verus! {

/// The most characters an augmented capsule keeps.
pub const AUGMENTED_CHARS: usize = 1500;

/// An optional text, empty when missing.
pub open spec fn or_empty(o: Option<Seq<char>>) -> Seq<char> {
    match o {
        Some(s) => s,
        None => seq![],
    }
}

/// The context line of a GraphFather session document with the given
/// objective, next action and phase, each cut short; nothing when all three
/// are missing or empty.
pub open spec fn graph_line(
    objective: Option<Seq<char>>,
    next: Option<Seq<char>>,
    phase: Option<Seq<char>>,
) -> Option<Seq<char>> {
    let o = or_empty(objective);
    let n = or_empty(next);
    let p = or_empty(phase);
    if o.len() == 0 && n.len() == 0 && p.len() == 0 {
        None
    } else {
        Some(
            "graph objective: "@ + prefix(o, 240) + "; next: "@ + prefix(n, 120) + "; phase: "@
                + prefix(p, 32),
        )
    }
}

fn first_chars(s: Option<&str>, n: usize) -> (r: Vec<char>)
    ensures
        r@ == prefix(or_empty(opt_text(s)), n as int),
{
    let mut v = match s {
        Some(t) => to_chars(t),
        None => Vec::new(),
    };
    v.truncate(n);
    v
}

/// What a GraphFather session document holds for its context line: the
/// strings found at `/blueprint/objective`, `/cursor/next` and `/phase`,
/// each missing where the document has no string there.
pub struct GraphDocument {
    pub objective: Option<String>,
    pub next: Option<String>,
    pub phase: Option<String>,
}

fn as_text(o: &Option<String>) -> (r: Option<&str>)
    ensures
        opt_text(r) == opt_string(*o),
{
    match o {
        Some(s) => Some(s.as_str()),
        None => None,
    }
}

/// The context line of a session document: its objective, next action and
/// phase, each cut short, or `None` when all three are missing or empty.
pub fn graph_summary(doc: &GraphDocument) -> (r: Option<String>)
    ensures
        opt_string(r) == graph_line(
            opt_string(doc.objective),
            opt_string(doc.next),
            opt_string(doc.phase),
        ),
{
    summary_line(as_text(&doc.objective), as_text(&doc.next), as_text(&doc.phase))
}

fn summary_line(objective: Option<&str>, next: Option<&str>, phase: Option<&str>) -> (r: Option<
    String,
>)
    ensures
        opt_string(r) == graph_line(opt_text(objective), opt_text(next), opt_text(phase)),
{
    let o = first_chars(objective, 240);
    let n = first_chars(next, 120);
    let p = first_chars(phase, 32);
    let empty = |s: Option<&str>| -> (b: bool)
        ensures
            b == (or_empty(opt_text(s)).len() == 0),
        {
            match s {
                Some(t) => t.is_empty(),
                None => true,
            }
        };
    if empty(objective) && empty(next) && empty(phase) {
        return None;
    }
    let mut out: Vec<char> = Vec::new();
    push_text(&mut out, "graph objective: ");
    push_all(&mut out, &o);
    push_text(&mut out, "; next: ");
    push_all(&mut out, &n);
    push_text(&mut out, "; phase: ");
    push_all(&mut out, &p);
    Some(from_chars(&out))
}

/// The session a thread's document is stored under: its canonical session
/// when the alias table exists and names one, else the thread itself.
pub fn session_for(id: &str, has_aliases: bool, canonical: Option<String>) -> (r: String)
    ensures
        r@ == if has_aliases && canonical is Some {
            canonical->0@
        } else {
            id@
        },
{
    if has_aliases {
        match canonical {
            Some(c) => c,
            None => String::from_str(id),
        }
    } else {
        String::from_str(id)
    }
}

/// A capsule with the graph context before it: the context, a line break
/// and the first 1100 characters of the capsule, cut to 1500 characters;
/// without context, the capsule cut to 1500 characters.
pub open spec fn augmented(context: Option<Seq<char>>, capsule: Seq<char>) -> Seq<char> {
    match context {
        None => prefix(capsule, 1500),
        Some(c) => prefix(c + seq!['\n'] + prefix(capsule, 1100), 1500),
    }
}

/// Puts the graph context, when there is one, before the capsule, keeping
/// at most 1500 characters.
pub fn augment(context: Option<&str>, capsule: &str) -> (r: String)
    ensures
        r@ == augmented(opt_text(context), capsule@),
{
    let mut cap = to_chars(capsule);
    match context {
        None => {
            cap.truncate(AUGMENTED_CHARS);
            from_chars(&cap)
        },
        Some(c) => {
            cap.truncate(1100);
            let mut out = to_chars(c);
            out.push('\n');
            push_all(&mut out, &cap);
            out.truncate(AUGMENTED_CHARS);
            from_chars(&out)
        },
    }
}

/// An augmented capsule never exceeds 1500 characters.
pub proof fn lemma_augmented_bounded(context: Option<Seq<char>>, capsule: Seq<char>)
    ensures
        augmented(context, capsule).len() <= 1500,
{
}

} // verus!
