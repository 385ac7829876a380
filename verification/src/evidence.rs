//! The evidence ladder: from a conversation's rollout tail and metadata to
//! the capsule the model labels and the activity it records.
use vstd::prelude::*;
use crate::chars::{
    begins, from_chars, infix, is_text, is_white, is_word, join, join_words, lemma_has_word,
    lemma_join_concat, lemma_join_holds, lemma_squash_twice, lemma_words_are_words,
    lemma_words_concat, lemma_words_of_all_at, lemma_words_of_join, lemma_words_of_lines,
    lemma_words_of_word, opt_chars, opt_string, opt_text, push_all, slice, squash, to_chars, views,
    words, words_of_all,
};
use crate::partial::{lossy_utf8, partial_text, recover_partial_text};
use crate::text::{
    compact, compact_chars, embedded_chars, handoff, lemma_handoff_lines, push_text, synthetic,
    synthetic_chars,
};

verus! {

/// The most characters a capsule or an activity keeps.
pub const CAPSULE_CHARS: usize = 1500;

/// The most semantic turns a young conversation's capsule lists.
pub const TAIL_TURNS: usize = 6;

/// The fields of one rollout JSON line that the ladder reads, each present
/// only when it is a JSON string.
pub struct RolloutRecord {
    /// `type`.
    pub kind: Option<String>,
    /// `payload.type`.
    pub payload_kind: Option<String>,
    /// `payload.message`.
    pub message: Option<String>,
    /// `payload.role`.
    pub role: Option<String>,
    /// The string `text` fields of the parts of `payload.content`, in order.
    pub texts: Vec<String>,
}

/// One line of the rollout tail: its text, and its fields when it parsed
/// as JSON.
pub struct RolloutLine {
    pub raw: String,
    pub record: Option<RolloutRecord>,
}

/// What a conversation is labelled from.
pub struct Evidence {
    /// The text the model reads.
    pub capsule: String,
    /// The current activity, recorded beside the label.
    pub activity: String,
}

/// What one rollout line contributes.
pub ghost enum LineEvent {
    /// Nothing.
    Skip,
    /// A compaction summary (squashed), or its absence.
    Summary(Option<Seq<char>>),
    /// A CompactVeteran handoff sent as a user message.
    Handoff(Seq<char>),
    /// A semantic turn, `role: text`.
    Entry(Seq<char>),
}

/// The views of a sequence of strings.
pub open spec fn strings(v: Seq<String>) -> Seq<Seq<char>> {
    v.map_values(|s: String| s@)
}

/// A line worth parsing: a compaction, or a message response item.
pub open spec fn candidate(raw: Seq<char>) -> bool {
    crate::chars::infix(raw, "\"type\":\"compacted\""@) || (crate::chars::infix(
        raw,
        "\"type\":\"response_item\""@,
    ) && crate::chars::infix(raw, "\"type\":\"message\""@))
}

/// What a user or assistant message with text `text` contributes.
pub open spec fn message_event(role: Seq<char>, text: Seq<char>) -> LineEvent {
    if role == "user"@ && handoff(text) is Some {
        LineEvent::Handoff(handoff(text)->0)
    } else if role == "user"@ && synthetic(text) {
        LineEvent::Skip
    } else if compact(text, 180).len() == 0 {
        LineEvent::Skip
    } else {
        LineEvent::Entry(role + ": "@ + compact(text, 180))
    }
}

/// What a parsed rollout line contributes.
pub open spec fn record_event(rec: RolloutRecord) -> LineEvent {
    if opt_string(rec.kind) == Some("compacted"@) {
        LineEvent::Summary(
            match opt_string(rec.message) {
                Some(m) => Some(compact(m, 360)),
                None => None,
            },
        )
    } else if opt_string(rec.kind) != Some("response_item"@)
        || opt_string(rec.payload_kind) != Some("message"@) {
        LineEvent::Skip
    } else {
        match opt_string(rec.role) {
            Some(role) => if role == "user"@ || role == "assistant"@ {
                message_event(role, join(strings(rec.texts@), seq![' ']))
            } else {
                LineEvent::Skip
            },
            None => LineEvent::Skip,
        }
    }
}

/// What a rollout line contributes.
pub open spec fn line_event(line: RolloutLine) -> LineEvent {
    if !candidate(line.raw@) {
        LineEvent::Skip
    } else {
        match line.record {
            Some(rec) => record_event(rec),
            None => LineEvent::Skip,
        }
    }
}

/// What each rollout line contributes, in order.
pub open spec fn events(lines: Seq<RolloutLine>) -> Seq<LineEvent> {
    lines.map_values(|l: RolloutLine| line_event(l))
}

/// The semantic turns, in order.
pub open spec fn entries(ev: Seq<LineEvent>) -> Seq<Seq<char>>
    decreases ev.len(),
{
    if ev.len() == 0 {
        seq![]
    } else {
        let before = entries(ev.drop_last());
        match ev.last() {
            LineEvent::Entry(t) => before.push(t),
            _ => before,
        }
    }
}

/// The last compaction summary, as the last compaction left it.
pub open spec fn summary(ev: Seq<LineEvent>) -> Option<Seq<char>>
    decreases ev.len(),
{
    if ev.len() == 0 {
        None
    } else {
        match ev.last() {
            LineEvent::Summary(s) => s,
            _ => summary(ev.drop_last()),
        }
    }
}

/// The last handoff sent in the rollout, else `fallback`.
pub open spec fn last_handoff(ev: Seq<LineEvent>, fallback: Option<Seq<char>>) -> Option<Seq<char>>
    decreases ev.len(),
{
    if ev.len() == 0 {
        fallback
    } else {
        match ev.last() {
            LineEvent::Handoff(b) => Some(b),
            _ => last_handoff(ev.drop_last(), fallback),
        }
    }
}

/// The last `TAIL_TURNS` items of `s`.
pub open spec fn last_turns(s: Seq<Seq<char>>) -> Seq<Seq<char>> {
    if s.len() > TAIL_TURNS {
        s.skip(s.len() - TAIL_TURNS)
    } else {
        s
    }
}

/// The last turn in `tail` that a user sent.
pub open spec fn latest_user(tail: Seq<Seq<char>>) -> Option<Seq<char>>
    decreases tail.len(),
{
    if tail.len() == 0 {
        None
    } else if begins(tail.last(), "user: "@) {
        Some(tail.last())
    } else {
        latest_user(tail.drop_last())
    }
}

/// `current activity: ...` and a newline, or nothing when `current` is empty.
pub open spec fn lead(current: Seq<char>) -> Seq<char> {
    if current.len() == 0 {
        seq![]
    } else {
        "current activity: "@ + current + seq!['\n']
    }
}

/// The goal line of a young conversation's capsule.
pub open spec fn goal_line(first_user: Seq<char>) -> Seq<char> {
    let first = compact(first_user, 180);
    if first.len() != 0 && !synthetic(first) {
        "goal: "@ + first + seq!['\n']
    } else {
        seq![]
    }
}

/// The previous-index line of a young conversation's capsule.
pub open spec fn preview_line(first_user: Seq<char>, preview: Seq<char>) -> Seq<char> {
    let p = compact(preview, 120);
    if p.len() != 0 && p != compact(first_user, 180) {
        "previous index: "@ + p + seq!['\n']
    } else {
        seq![]
    }
}

/// The current activity: the pending prompt when there is a non-empty one,
/// else the latest user turn of `tail` without its role, squashed to 180
/// characters, else `recovered`.
pub open spec fn current_of(
    pending: Option<Seq<char>>,
    recovered: Seq<char>,
    tail: Seq<Seq<char>>,
) -> Seq<char> {
    let latest = match latest_user(tail) {
        Some(m) => compact(m.skip("user: "@.len() as int), 180),
        None => seq![],
    };
    let fallback = if latest.len() == 0 {
        recovered
    } else {
        latest
    };
    match pending {
        Some(p) => if p.len() != 0 {
            p
        } else {
            fallback
        },
        None => fallback,
    }
}

/// The evidence assembled from the last turns `tail`, the background
/// (compaction summary or handoff) if any, the pending prompt and the
/// recovered activity.
pub open spec fn assembled(
    first_user: Seq<char>,
    preview: Seq<char>,
    pending: Option<Seq<char>>,
    recovered: Seq<char>,
    tail: Seq<Seq<char>>,
    background: Option<Seq<char>>,
) -> Option<(Seq<char>, Seq<char>)> {
    let current = current_of(pending, recovered, tail);
    let recent = match latest_user(tail) {
        Some(m) => compact(m, 110),
        None => seq![],
    };
    match background {
        Some(b) => Some(
            (
                compact(
                    lead(current) + "background: "@ + b + "\nrecent: "@ + recent,
                    CAPSULE_CHARS as int,
                ),
                compact(current, CAPSULE_CHARS as int),
            ),
        ),
        None => {
            let body = compact(
                lead(current) + goal_line(first_user) + preview_line(first_user, preview) + join(
                    tail,
                    seq!['\n'],
                ),
                CAPSULE_CHARS as int,
            );
            if body.len() == 0 {
                None
            } else {
                Some((compact(body, CAPSULE_CHARS as int), compact(current, CAPSULE_CHARS as int)))
            }
        },
    }
}

/// The background of the capsule: a non-empty compaction summary, else the
/// last handoff, else the handoff in the first user message.
pub open spec fn background(ev: Seq<LineEvent>, first_user: Seq<char>) -> Option<Seq<char>> {
    match summary(ev) {
        Some(s) => if s.len() != 0 {
            Some(s)
        } else {
            last_handoff(ev, handoff(first_user))
        },
        None => last_handoff(ev, handoff(first_user)),
    }
}

/// The evidence from a rollout tail, as (capsule, activity): a compaction
/// summary first, then a CompactVeteran handoff, then the young ladder of
/// goal, previous index and the latest turns. The activity is the
/// pending prompt, else the latest user turn, else `recovered`.
pub open spec fn ladder(
    first_user: Seq<char>,
    preview: Seq<char>,
    pending: Option<Seq<char>>,
    recovered: Seq<char>,
    lines: Seq<RolloutLine>,
) -> Option<(Seq<char>, Seq<char>)> {
    let ev = events(lines);
    assembled(
        first_user,
        preview,
        pending,
        recovered,
        last_turns(entries(ev)),
        background(ev, first_user),
    )
}

/// The view of optional evidence, as (capsule, activity).
pub open spec fn evidence_view(e: Option<Evidence>) -> Option<(Seq<char>, Seq<char>)> {
    match e {
        Some(e) => Some((e.capsule@, e.activity@)),
        None => None,
    }
}


} // verus!

verus! {

/// The view of optional bytes.
pub open spec fn opt_bytes(o: Option<&[u8]>) -> Option<Seq<u8>> {
    match o {
        Some(b) => Some(b@),
        None => None,
    }
}

/// The index of the first `x` in `b`.
pub open spec fn byte_index(b: Seq<u8>, x: u8) -> Option<int>
    decreases b.len(),
{
    if b.len() == 0 {
        None
    } else {
        match byte_index(b.drop_last(), x) {
            Some(i) => Some(i),
            None => if b.last() == x {
                Some(b.len() - 1)
            } else {
                None
            },
        }
    }
}

/// The activity recovered from the head of a truncated tail: the input text
/// that the line cut by the read ends with.
pub open spec fn recovered(head: Option<Seq<u8>>) -> Seq<char> {
    match head {
        None => seq![],
        Some(b) => match byte_index(b, 10u8) {
            None => seq![],
            Some(nl) => partial_text(lossy_utf8(b.take(nl))),
        },
    }
}

/// The evidence of a conversation whose rollout file cannot be opened: the
/// handoff in its first user message, with the pending prompt as activity.
pub open spec fn fallback_evidence(first_user: Seq<char>, pending: Option<Seq<char>>) -> Option<
    (Seq<char>, Seq<char>),
> {
    match handoff(first_user) {
        Some(c) => Some(
            (
                c,
                match pending {
                    Some(p) => p,
                    None => seq![],
                },
            ),
        ),
        None => None,
    }
}

enum Event {
    Skip,
    Summary(Option<Vec<char>>),
    Handoff(Vec<char>),
    Entry(Vec<char>),
}

spec fn event_view(e: Event) -> LineEvent {
    match e {
        Event::Skip => LineEvent::Skip,
        Event::Summary(s) => LineEvent::Summary(opt_chars(s)),
        Event::Handoff(b) => LineEvent::Handoff(b@),
        Event::Entry(t) => LineEvent::Entry(t@),
    }
}

fn opt_is(o: &Option<String>, lit: &str) -> (r: bool)
    ensures
        r == (opt_string(*o) == Some(lit@)),
{
    match o {
        Some(s) => {
            let v = to_chars(s.as_str());
            is_text(&v, lit)
        },
        None => false,
    }
}

fn texts_chars(texts: &Vec<String>) -> (r: Vec<Vec<char>>)
    ensures
        views(r@) == strings(texts@),
{
    let mut r: Vec<Vec<char>> = Vec::new();
    let mut i: usize = 0;
    while i < texts.len()
        invariant
            i <= texts.len(),
            r.len() == i,
            views(r@) == strings(texts@).take(i as int),
        decreases texts.len() - i,
    {
        let t = &texts[i];
        let v = to_chars(t.as_str());
        assert(v@ == texts@[i as int]@);
        assert(strings(texts@)[i as int] == texts@[i as int]@);
        r.push(v);
        assert(views(r@)[i as int] == v@);
        assert(views(r@) =~= strings(texts@).take(i + 1));
        i += 1;
    }
    assert(strings(texts@).take(i as int) =~= strings(texts@));
    r
}

fn classify(line: &RolloutLine) -> (e: Event)
    ensures
        event_view(e) == line_event(*line),
{
    let raw = to_chars(line.raw.as_str());
    if !(crate::chars::has_text(&raw, "\"type\":\"compacted\"") || (crate::chars::has_text(
        &raw,
        "\"type\":\"response_item\"",
    ) && crate::chars::has_text(&raw, "\"type\":\"message\""))) {
        return Event::Skip;
    }
    let rec = match &line.record {
        None => {
            return Event::Skip;
        },
        Some(r) => r,
    };
    if opt_is(&rec.kind, "compacted") {
        return Event::Summary(
            match &rec.message {
                Some(m) => Some(compact_chars(&to_chars(m.as_str()), 360)),
                None => None,
            },
        );
    }
    if !opt_is(&rec.kind, "response_item") || !opt_is(&rec.payload_kind, "message") {
        return Event::Skip;
    }
    let role = match &rec.role {
        None => {
            return Event::Skip;
        },
        Some(r) => to_chars(r.as_str()),
    };
    let is_user = is_text(&role, "user");
    if !is_user && !is_text(&role, "assistant") {
        return Event::Skip;
    }
    let texts = texts_chars(&rec.texts);
    let text = join_words(&texts, ' ');
    if is_user {
        match embedded_chars(&text) {
            Some(b) => {
                return Event::Handoff(b);
            },
            None => {},
        }
        if synthetic_chars(&text) {
            return Event::Skip;
        }
    }
    let t = compact_chars(&text, 180);
    if t.len() == 0 {
        return Event::Skip;
    }
    let mut entry = role;
    push_text(&mut entry, ": ");
    push_all(&mut entry, &t);
    Event::Entry(entry)
}

proof fn lemma_last_turns_push(s: Seq<Seq<char>>, x: Seq<char>)
    ensures
        last_turns(s.push(x)) == if last_turns(s).len() == TAIL_TURNS {
            last_turns(s).push(x).drop_first()
        } else {
            last_turns(s).push(x)
        },
        last_turns(s).len() <= TAIL_TURNS,
{
    if s.len() >= TAIL_TURNS {
        assert(last_turns(s.push(x)) =~= last_turns(s).push(x).drop_first());
    } else {
        assert(last_turns(s.push(x)) =~= last_turns(s).push(x));
    }
}

fn latest_user_index(tail: &Vec<Vec<char>>) -> (r: Option<usize>)
    ensures
        match r {
            Some(k) => k < tail.len() && latest_user(views(tail@)) == Some(tail@[k as int]@),
            None => latest_user(views(tail@)) is None,
        },
{
    let u = to_chars("user: ");
    let mut k: usize = tail.len();
    assert(views(tail@).take(k as int) =~= views(tail@));
    while k > 0
        invariant
            k <= tail.len(),
            u@ == "user: "@,
            latest_user(views(tail@)) == latest_user(views(tail@).take(k as int)),
        decreases k,
    {
        let ghost part = views(tail@).take(k as int);
        assert(part.last() == tail@[k - 1]@);
        if crate::chars::occurs(&tail[k - 1], &u, 0) {
            return Some(k - 1);
        }
        assert(part.drop_last() =~= views(tail@).take(k - 1));
        k -= 1;
    }
    None
}

fn first_newline(b: &[u8]) -> (r: Option<usize>)
    ensures
        as_int_opt(r) == byte_index(b@, 10u8),
        r matches Some(i) ==> i < b@.len(),
{
    let mut i: usize = 0;
    while i < b.len()
        invariant
            i <= b.len(),
            byte_index(b@.take(i as int), 10u8) is None,
        decreases b.len() - i,
    {
        assert(b@.take(i + 1).drop_last() =~= b@.take(i as int));
        if b[i] == 10u8 {
            proof {
                lemma_byte_index_prefix(b@, 10u8, i as int);
            }
            return Some(i);
        }
        i += 1;
    }
    assert(b@.take(i as int) =~= b@);
    None
}

/// An optional index as an integer.
pub open spec fn as_int_opt(o: Option<usize>) -> Option<int> {
    match o {
        Some(i) => Some(i as int),
        None => None,
    }
}

proof fn lemma_byte_index_prefix(b: Seq<u8>, x: u8, i: int)
    requires
        0 <= i < b.len(),
        b[i] == x,
        byte_index(b.take(i), x) is None,
    ensures
        byte_index(b, x) == Some(i),
    decreases b.len(),
{
    if b.len() - 1 == i {
        assert(b.drop_last() =~= b.take(i));
    } else {
        assert(b.drop_last().take(i) =~= b.take(i));
        lemma_byte_index_prefix(b.drop_last(), x, i);
    }
}

fn recovered_from(head: Option<&[u8]>) -> (r: String)
    ensures
        r@ == recovered(opt_bytes(head)),
{
    match head {
        None => String::new(),
        Some(b) => match first_newline(b) {
            None => String::new(),
            Some(nl) => {
                let part = vstd::slice::slice_subrange(b, 0, nl);
                assert(part@ =~= b@.take(nl as int));
                recover_partial_text(part)
            },
        },
    }
}

} // verus!

verus! {

fn push_lead(out: &mut Vec<char>, current: &Vec<char>)
    ensures
        final(out)@ == old(out)@ + lead(current@),
{
    if current.len() != 0 {
        push_text(out, "current activity: ");
        push_all(out, current);
        out.push('\n');
        assert(final(out)@ =~= old(out)@ + lead(current@));
    } else {
        assert(old(out)@ + lead(current@) =~= old(out)@);
    }
}

fn opt_text_chars(o: Option<&str>) -> (r: Option<Vec<char>>)
    ensures
        opt_chars(r) == opt_text(o),
{
    match o {
        Some(s) => Some(to_chars(s)),
        None => None,
    }
}

/// The evidence of a conversation whose rollout file could not be opened:
/// the CompactVeteran handoff in its first user message, with the pending
/// prompt as activity; `None` when there is no handoff.
pub fn evidence_without_rollout(first_user: &str, pending: Option<&str>) -> (r: Option<Evidence>)
    ensures
        evidence_view(r) == fallback_evidence(first_user@, opt_text(pending)),
{
    let fu = to_chars(first_user);
    match embedded_chars(&fu) {
        None => None,
        Some(c) => {
            let activity = match pending {
                Some(p) => String::from_str(p),
                None => String::new(),
            };
            Some(Evidence { capsule: from_chars(&c), activity })
        },
    }
}

proof fn lemma_latest_user_begins(tail: Seq<Seq<char>>)
    ensures
        latest_user(tail) matches Some(m) ==> begins(m, "user: "@),
    decreases tail.len(),
{
    if tail.len() > 0 {
        lemma_latest_user_begins(tail.drop_last());
    }
}

struct Scan {
    tail: Vec<Vec<char>>,
    summary: Option<Vec<char>>,
    handoff: Option<Vec<char>>,
}

fn scan(fu: &Vec<char>, lines: &Vec<RolloutLine>) -> (r: Scan)
    ensures
        views(r.tail@) == last_turns(entries(events(lines@))),
        opt_chars(r.summary) == summary(events(lines@)),
        opt_chars(r.handoff) == last_handoff(events(lines@), handoff(fu@)),
{
    let mut embedded = embedded_chars(fu);
    let mut tail: Vec<Vec<char>> = Vec::new();
    let mut summ: Option<Vec<char>> = None;
    let mut i: usize = 0;
    assert(events(lines@.take(0)) =~= Seq::<LineEvent>::empty());
    while i < lines.len()
        invariant
            i <= lines.len(),
            views(tail@) == last_turns(entries(events(lines@.take(i as int)))),
            opt_chars(summ) == summary(events(lines@.take(i as int))),
            opt_chars(embedded) == last_handoff(events(lines@.take(i as int)), handoff(fu@)),
        decreases lines.len() - i,
    {
        let ghost before = events(lines@.take(i as int));
        let ghost after = events(lines@.take(i + 1));
        assert(after =~= before.push(line_event(lines@[i as int])));
        assert(after.drop_last() =~= before);
        match classify(&lines[i]) {
            Event::Skip => {},
            Event::Summary(s) => {
                summ = s;
            },
            Event::Handoff(b) => {
                embedded = Some(b);
            },
            Event::Entry(t) => {
                proof {
                    lemma_last_turns_push(entries(before), t@);
                }
                tail.push(t);
                if tail.len() > TAIL_TURNS {
                    tail.remove(0);
                }
                assert(views(tail@) =~= last_turns(entries(after)));
            },
        }
        i += 1;
    }
    assert(lines@.take(i as int) =~= lines@);
    Scan { tail, summary: summ, handoff: embedded }
}

fn assemble(
    fu: &Vec<char>,
    preview: &str,
    pending: Option<&str>,
    partial: &Vec<char>,
    tail: &Vec<Vec<char>>,
    background: Option<Vec<char>>,
) -> (r: Option<Evidence>)
    ensures
        evidence_view(r) == assembled(
            fu@,
            preview@,
            opt_text(pending),
            partial@,
            views(tail@),
            opt_chars(background),
        ),
{
    let ghost vtail = views(tail@);
    let user = to_chars("user: ");
    let last_user = latest_user_index(tail);
    proof {
        lemma_latest_user_begins(vtail);
    }
    let latest = match last_user {
        Some(k) => {
            let m = &tail[k];
            assert(m@ == vtail[k as int]);
            let rest = slice(m, user.len(), m.len());
            assert(rest@ =~= m@.skip("user: "@.len() as int));
            compact_chars(&rest, 180)
        },
        None => Vec::new(),
    };
    let fallback = if latest.len() == 0 {
        let mut copy: Vec<char> = Vec::new();
        push_all(&mut copy, partial);
        copy
    } else {
        latest
    };
    let current = match opt_text_chars(pending) {
        Some(p) => if p.len() != 0 {
            p
        } else {
            fallback
        },
        None => fallback,
    };
    let recent = match last_user {
        Some(k) => compact_chars(&tail[k], 110),
        None => Vec::new(),
    };
    match background {
        Some(b) => {
            let mut cap: Vec<char> = Vec::new();
            push_lead(&mut cap, &current);
            push_text(&mut cap, "background: ");
            push_all(&mut cap, &b);
            push_text(&mut cap, "\nrecent: ");
            push_all(&mut cap, &recent);
            let capsule = compact_chars(&cap, CAPSULE_CHARS);
            let activity = compact_chars(&current, CAPSULE_CHARS);
            Some(Evidence { capsule: from_chars(&capsule), activity: from_chars(&activity) })
        },
        None => {
            let mut cap: Vec<char> = Vec::new();
            push_lead(&mut cap, &current);
            let first = compact_chars(fu, 180);
            if first.len() != 0 && !synthetic_chars(&first) {
                push_text(&mut cap, "goal: ");
                push_all(&mut cap, &first);
                cap.push('\n');
            }
            let pv = to_chars(preview);
            let prev = compact_chars(&pv, 120);
            if prev.len() != 0 && !crate::chars::same_chars(&prev, &first) {
                push_text(&mut cap, "previous index: ");
                push_all(&mut cap, &prev);
                cap.push('\n');
            }
            let turns = join_words(tail, '\n');
            push_all(&mut cap, &turns);
            assert(cap@ =~= lead(current@) + goal_line(fu@) + preview_line(fu@, preview@) + join(
                vtail,
                seq!['\n'],
            ));
            let body = compact_chars(&cap, CAPSULE_CHARS);
            if body.len() == 0 {
                None
            } else {
                let capsule = compact_chars(&body, CAPSULE_CHARS);
                let activity = compact_chars(&current, CAPSULE_CHARS);
                Some(Evidence { capsule: from_chars(&capsule), activity: from_chars(&activity) })
            }
        },
    }
}

/// The evidence of a conversation from the lines of its rollout tail.
/// `truncated_head` holds the bytes the tail read started with when it did
/// not start at the beginning of the file.
pub fn evidence_from_rollout(
    first_user: &str,
    preview: &str,
    pending: Option<&str>,
    truncated_head: Option<&[u8]>,
    lines: &Vec<RolloutLine>,
) -> (r: Option<Evidence>)
    ensures
        evidence_view(r) == ladder(
            first_user@,
            preview@,
            opt_text(pending),
            recovered(opt_bytes(truncated_head)),
            lines@,
        ),
{
    let fu = to_chars(first_user);
    let partial = recovered_from(truncated_head);
    let partial_chars = to_chars(partial.as_str());
    let found = scan(&fu, lines);
    let background = match found.summary {
        Some(s) => if s.len() != 0 {
            Some(s)
        } else {
            found.handoff
        },
        None => found.handoff,
    };
    assemble(&fu, preview, pending, &partial_chars, &found.tail, background)
}

} // verus!

verus! {

/// The bounded tail of a rollout file as read: the bytes it started with
/// when the read did not start at the beginning of the file, and the lines
/// after the first line break (all lines when nothing was cut).
pub struct RolloutTail {
    pub truncated_head: Option<Vec<u8>>,
    pub lines: Vec<RolloutLine>,
}

/// The view of a tail's truncated head.
pub open spec fn head_of(t: RolloutTail) -> Option<Seq<u8>> {
    match t.truncated_head {
        Some(b) => Some(b@),
        None => None,
    }
}

/// The evidence of a conversation: from its rollout tail when the rollout
/// file could be opened (`rollout` is `Some`), else from the handoff in its
/// first user message.
pub open spec fn evidence_of(
    first_user: Seq<char>,
    preview: Seq<char>,
    pending: Option<Seq<char>>,
    rollout: Option<RolloutTail>,
) -> Option<(Seq<char>, Seq<char>)> {
    match rollout {
        None => fallback_evidence(first_user, pending),
        Some(t) => ladder(first_user, preview, pending, recovered(head_of(t)), t.lines@),
    }
}

/// The capsule and activity a conversation is labelled from.
pub fn conversation_evidence(
    first_user: &str,
    preview: &str,
    pending: Option<&str>,
    rollout: Option<&RolloutTail>,
) -> (r: Option<Evidence>)
    ensures
        evidence_view(r) == evidence_of(
            first_user@,
            preview@,
            opt_text(pending),
            match rollout {
                Some(t) => Some(*t),
                None => None,
            },
        ),
{
    match rollout {
        None => evidence_without_rollout(first_user, pending),
        Some(t) => {
            let head: Option<&[u8]> = match &t.truncated_head {
                Some(b) => Some(b.as_slice()),
                None => None,
            };
            assert(opt_bytes(head) == head_of(*t));
            evidence_from_rollout(first_user, preview, pending, head, &t.lines)
        },
    }
}

/// The capsule a conversation is labelled from when no prompt is pending.
pub fn conversation_capsule(first_user: &str, preview: &str, rollout: Option<&RolloutTail>) -> (r:
    Option<String>)
    ensures
        opt_string(r) == match evidence_of(
            first_user@,
            preview@,
            None,
            match rollout {
                Some(t) => Some(*t),
                None => None,
            },
        ) {
            Some(e) => Some(e.0),
            None => None,
        },
{
    match conversation_evidence(first_user, preview, None, rollout) {
        Some(e) => Some(e.capsule),
        None => None,
    }
}

} // verus!

verus! {

/// Every capsule holds at most `CAPSULE_CHARS` characters, whichever rung
/// of the ladder it comes from.
pub proof fn lemma_capsule_bounded(
    first_user: Seq<char>,
    preview: Seq<char>,
    pending: Option<Seq<char>>,
    rollout: Option<RolloutTail>,
)
    ensures
        evidence_of(first_user, preview, pending, rollout) matches Some(e) ==> e.0.len()
            <= CAPSULE_CHARS,
{
    lemma_handoff_lines(first_user);
}

/// The activity read from a rollout holds at most `CAPSULE_CHARS`
/// characters, and a pending prompt, when there is one, is that activity.
pub proof fn lemma_activity_from_pending(
    first_user: Seq<char>,
    preview: Seq<char>,
    pending: Option<Seq<char>>,
    tail: RolloutTail,
)
    ensures
        evidence_of(first_user, preview, pending, Some(tail)) matches Some(e) ==> {
            &&& e.1.len() <= CAPSULE_CHARS
            &&& (pending is Some && pending->0.len() != 0) ==> e.1 == compact(
                pending->0,
                CAPSULE_CHARS as int,
            )
        },
{
}


/// A semantic turn: a user or assistant message written `role: text`, its
/// text squashed to 180 characters and not empty.
pub open spec fn is_turn(t: Seq<char>) -> bool {
    exists|role: Seq<char>, text: Seq<char>|
        (role == "user"@ || role == "assistant"@) && compact(text, 180).len() > 0 && t == role
            + ": "@ + compact(text, 180)
}

proof fn lemma_entry_is_turn(line: RolloutLine)
    ensures
        line_event(line) matches LineEvent::Entry(t) ==> is_turn(t),
{
    if line_event(line) is Entry {
        let rec = line.record->0;
        let role = opt_string(rec.role)->0;
        let text = join(strings(rec.texts@), seq![' ']);
        assert(line_event(line) == message_event(role, text));
        assert(line_event(line)->Entry_0 == role + ": "@ + compact(text, 180));
    }
}

proof fn lemma_entries_are_turns(lines: Seq<RolloutLine>)
    ensures
        forall|i: int|
            0 <= i < entries(events(lines)).len() ==> is_turn(#[trigger] entries(events(lines))[i]),
    decreases lines.len(),
{
    if lines.len() > 0 {
        let d = lines.drop_last();
        lemma_entries_are_turns(d);
        assert(events(lines).drop_last() =~= events(d));
        assert(events(lines).last() == line_event(lines.last()));
        lemma_entry_is_turn(lines.last());
        let all = entries(events(lines));
        let before = entries(events(d));
        assert forall|i: int| 0 <= i < all.len() implies is_turn(#[trigger] all[i]) by {
            if i < before.len() {
                assert(all[i] == before[i]);
            }
        }
    }
}

proof fn lemma_turn_has_word(t: Seq<char>)
    requires
        is_turn(t),
    ensures
        words(t).len() > 0,
{
    reveal_strlit("user");
    reveal_strlit("assistant");
    let (role, text) = choose|role: Seq<char>, text: Seq<char>|
        (role == "user"@ || role == "assistant"@) && compact(text, 180).len() > 0 && t == role
            + ": "@ + compact(text, 180);
    assert(t[0] == role[0]);
    lemma_has_word(t, 0);
}

proof fn lemma_lines_hold_turns(before: Seq<Seq<char>>, turns: Seq<Seq<char>>)
    requires
        forall|i: int| 0 <= i < turns.len() ==> is_turn(#[trigger] turns[i]),
    ensures
        forall|i: int|
            0 <= i < turns.len() ==> infix(
                join(before + words_of_all(turns), seq![' ']),
                squash(#[trigger] turns[i]),
            ),
{
    assert forall|i: int| 0 <= i < turns.len() implies infix(
        join(before + words_of_all(turns), seq![' ']),
        squash(#[trigger] turns[i]),
    ) by {
        lemma_words_of_all_at(turns, i);
        lemma_turn_has_word(turns[i]);
        let x = before + words_of_all(turns.take(i));
        let y = words(turns[i]);
        let z = words_of_all(turns.skip(i + 1));
        assert(before + words_of_all(turns) =~= x + y + z);
        lemma_join_holds(x, y, z, seq![' ']);
    }
}

/// A turn whose text squashes to at most 180 characters is already
/// squashed: `role: text` with single spaces, as the capsule writes it.
pub proof fn lemma_short_turn_squashed(role: Seq<char>, text: Seq<char>)
    requires
        role == "user"@ || role == "assistant"@,
        0 < squash(text).len() <= 180,
    ensures
        squash(role + ": "@ + compact(text, 180)) == role + ": "@ + compact(text, 180),
{
    reveal_strlit("user");
    reveal_strlit("assistant");
    reveal_strlit(": ");
    let r = role + seq![':'];
    assert(is_word(r)) by {
        assert(is_white(' ') && !is_white(':'));
    }
    let t = role + ": "@ + compact(text, 180);
    assert(compact(text, 180) == squash(text));
    assert(t =~= r + seq![' '] + squash(text));
    lemma_words_concat(r + seq![' '], squash(text));
    let rs = r + seq![' '];
    assert(rs.drop_last() =~= r);
    assert(words(rs) == words(r));
    lemma_words_of_word(r);
    lemma_words_are_words(text);
    lemma_words_of_join(words(text));
    assert(words(text).len() > 0);
    assert(words(t) == seq![r] + words(text));
    lemma_join_concat(seq![r], words(text), seq![' ']);
    assert(join(seq![r], seq![' ']) == r);
}

/// A young conversation, one with neither a compaction summary nor a
/// handoff, is labelled from its current activity, goal and previous-index
/// lines followed by its last semantic turns, one per line: the last
/// `TAIL_TURNS` of them, or all when there are fewer, in the rollout's
/// order, each a user or assistant message written `role: text`. When those
/// lines fit in `CAPSULE_CHARS` characters once squashed, the capsule loses
/// none of their words: it is all of them, in order, joined by single
/// spaces, and it holds each of those turns, squashed (which a turn whose
/// text squashes to at most 180 characters already is).
pub proof fn lemma_young_capsule(
    first_user: Seq<char>,
    preview: Seq<char>,
    pending: Option<Seq<char>>,
    tail: RolloutTail,
)
    requires
        background(events(tail.lines@), first_user) is None,
    ensures
        ({
            let turns = entries(events(tail.lines@));
            let kept = last_turns(turns);
            let body = lead(current_of(pending, recovered(head_of(tail)), kept)) + goal_line(
                first_user,
            ) + preview_line(first_user, preview) + join(kept, seq!['\n']);
            &&& kept.len() == if turns.len() < TAIL_TURNS {
                turns.len() as int
            } else {
                TAIL_TURNS as int
            }
            &&& forall|i: int|
                0 <= i < kept.len() ==> #[trigger] kept[i] == turns[turns.len() - kept.len() + i]
            &&& forall|i: int| 0 <= i < kept.len() ==> is_turn(#[trigger] kept[i])
            &&& evidence_of(first_user, preview, pending, Some(tail)) is Some <==> compact(
                body,
                CAPSULE_CHARS as int,
            ).len() > 0
            &&& evidence_of(first_user, preview, pending, Some(tail)) matches Some(e) ==> e.0
                == compact(compact(body, CAPSULE_CHARS as int), CAPSULE_CHARS as int)
            &&& squash(body).len() <= CAPSULE_CHARS ==> (evidence_of(
                first_user,
                preview,
                pending,
                Some(tail),
            ) matches Some(e) ==> e.0 == join(
                words(lead(current_of(pending, recovered(head_of(tail)), kept))) + words(
                    goal_line(first_user),
                ) + words(preview_line(first_user, preview)) + words_of_all(kept),
                seq![' '],
            ))
            &&& squash(body).len() <= CAPSULE_CHARS ==> (evidence_of(
                first_user,
                preview,
                pending,
                Some(tail),
            ) matches Some(e) ==> forall|i: int|
                0 <= i < kept.len() ==> infix(e.0, squash(#[trigger] kept[i])))
        }),
{
    let turns = entries(events(tail.lines@));
    let kept = last_turns(turns);
    lemma_entries_are_turns(tail.lines@);
    let l = lead(current_of(pending, recovered(head_of(tail)), kept));
    let g = goal_line(first_user);
    let p = preview_line(first_user, preview);
    let j = join(kept, seq!['\n']);
    let body = l + g + p + j;
    assert(is_white('\n'));
    assert(l.len() == 0 || l.last() == '\n');
    assert(g.len() == 0 || g.last() == '\n');
    assert(p.len() == 0 || p.last() == '\n');
    lemma_words_concat(l, g);
    assert((l + g).len() == 0 || is_white((l + g).last())) by {
        if g.len() > 0 {
            assert((l + g).last() == g.last());
        } else {
            assert(l + g =~= l);
        }
    }
    lemma_words_concat(l + g, p);
    assert((l + g + p).len() == 0 || is_white((l + g + p).last())) by {
        if p.len() > 0 {
            assert((l + g + p).last() == p.last());
        } else {
            assert(l + g + p =~= l + g);
        }
    }
    lemma_words_concat(l + g + p, j);
    lemma_words_of_lines(kept);
    assert(words(body) =~= words(l) + words(g) + words(p) + words_of_all(kept));
    lemma_squash_twice(body);
    lemma_lines_hold_turns(words(l) + words(g) + words(p), kept);
    assert forall|i: int| 0 <= i < kept.len() implies #[trigger] kept[i] == turns[turns.len()
        - kept.len() + i] && is_turn(kept[i]) by {
        assert(kept[i] == turns[turns.len() - kept.len() + i]);
    }
}


proof fn lemma_summary_at(ev: Seq<LineEvent>, k: int, s: Option<Seq<char>>)
    requires
        0 <= k < ev.len(),
        ev[k] == LineEvent::Summary(s),
        forall|j: int| k < j < ev.len() ==> !(#[trigger] ev[j] is Summary),
    ensures
        summary(ev) == s,
    decreases ev.len(),
{
    if k < ev.len() - 1 {
        let d = ev.drop_last();
        assert forall|j: int| k < j < d.len() implies !(#[trigger] d[j] is Summary) by {
            assert(d[j] == ev[j]);
        }
        assert(!(ev[ev.len() - 1] is Summary));
        lemma_summary_at(d, k, s);
    }
}

/// A compaction summary outranks every handoff: when the last compaction
/// line of the rollout carries a message that squashes to non-empty text
/// `s`, the capsule is the current activity, then `s` as background, then
/// the latest user turn as recent, squashed to `CAPSULE_CHARS`, whatever
/// handoff the first user message or the rollout holds.
pub proof fn lemma_summary_outranks_handoff(
    first_user: Seq<char>,
    preview: Seq<char>,
    pending: Option<Seq<char>>,
    tail: RolloutTail,
    k: int,
    message: Seq<char>,
)
    requires
        0 <= k < tail.lines@.len(),
        candidate(tail.lines@[k].raw@),
        tail.lines@[k].record matches Some(rec) && opt_string(rec.kind) == Some("compacted"@)
            && opt_string(rec.message) == Some(message),
        squash(message).len() > 0,
        forall|j: int|
            k < j < tail.lines@.len() ==> !(line_event(#[trigger] tail.lines@[j]) is Summary),
    ensures
        ({
            let kept = last_turns(entries(events(tail.lines@)));
            let current = current_of(pending, recovered(head_of(tail)), kept);
            let recent = match latest_user(kept) {
                Some(m) => compact(m, 110),
                None => seq![],
            };
            let s = compact(message, 360);
            evidence_of(first_user, preview, pending, Some(tail)) == Some(
                (
                    compact(
                        lead(current) + "background: "@ + s + "\nrecent: "@ + recent,
                        CAPSULE_CHARS as int,
                    ),
                    compact(current, CAPSULE_CHARS as int),
                ),
            )
        }),
{
    let ev = events(tail.lines@);
    let s = compact(message, 360);
    assert(ev[k] == line_event(tail.lines@[k]));
    assert(ev[k] == LineEvent::Summary(Some(s)));
    assert forall|j: int| k < j < ev.len() implies !(#[trigger] ev[j] is Summary) by {
        assert(ev[j] == line_event(tail.lines@[j]));
    }
    lemma_summary_at(ev, k, Some(s));
    assert(s.len() > 0);
    assert(background(ev, first_user) == Some(s));
}


proof fn lemma_no_summary(ev: Seq<LineEvent>)
    requires
        forall|j: int| 0 <= j < ev.len() ==> !(#[trigger] ev[j] is Summary),
    ensures
        summary(ev) is None,
    decreases ev.len(),
{
    if ev.len() > 0 {
        let d = ev.drop_last();
        assert forall|j: int| 0 <= j < d.len() implies !(#[trigger] d[j] is Summary) by {
            assert(d[j] == ev[j]);
        }
        assert(!(ev[ev.len() - 1] is Summary));
        lemma_no_summary(d);
    }
}

proof fn lemma_handoff_at(ev: Seq<LineEvent>, k: int, h: Seq<char>, fallback: Option<Seq<char>>)
    requires
        -1 <= k < ev.len(),
        k >= 0 ==> ev[k] == LineEvent::Handoff(h),
        k == -1 ==> fallback == Some(h),
        forall|j: int| k < j < ev.len() ==> !(#[trigger] ev[j] is Handoff),
    ensures
        last_handoff(ev, fallback) == Some(h),
    decreases ev.len(),
{
    if ev.len() > 0 && k < ev.len() - 1 {
        let d = ev.drop_last();
        assert forall|j: int| k < j < d.len() implies !(#[trigger] d[j] is Handoff) by {
            assert(d[j] == ev[j]);
        }
        assert(!(ev[ev.len() - 1] is Handoff));
        lemma_handoff_at(d, k, h, fallback);
    }
}

/// Without a compaction line, the background is the last handoff sent in
/// the rollout (line `k`), or the handoff in the first user message when
/// the rollout sends none (`k` is -1).
pub proof fn lemma_handoff_background(
    first_user: Seq<char>,
    preview: Seq<char>,
    pending: Option<Seq<char>>,
    tail: RolloutTail,
    k: int,
    h: Seq<char>,
)
    requires
        forall|j: int|
            0 <= j < tail.lines@.len() ==> !(line_event(#[trigger] tail.lines@[j]) is Summary),
        -1 <= k < tail.lines@.len(),
        k >= 0 ==> line_event(tail.lines@[k]) == LineEvent::Handoff(h),
        k == -1 ==> handoff(first_user) == Some(h),
        forall|j: int|
            k < j < tail.lines@.len() ==> !(line_event(#[trigger] tail.lines@[j]) is Handoff),
    ensures
        ({
            let kept = last_turns(entries(events(tail.lines@)));
            let current = current_of(pending, recovered(head_of(tail)), kept);
            let recent = match latest_user(kept) {
                Some(m) => compact(m, 110),
                None => seq![],
            };
            evidence_of(first_user, preview, pending, Some(tail)) == Some(
                (
                    compact(
                        lead(current) + "background: "@ + h + "\nrecent: "@ + recent,
                        CAPSULE_CHARS as int,
                    ),
                    compact(current, CAPSULE_CHARS as int),
                ),
            )
        }),
{
    let ev = events(tail.lines@);
    assert forall|j: int| 0 <= j < ev.len() implies !(#[trigger] ev[j] is Summary) by {
        assert(ev[j] == line_event(tail.lines@[j]));
    }
    assert forall|j: int| k < j < ev.len() implies !(#[trigger] ev[j] is Handoff) by {
        assert(ev[j] == line_event(tail.lines@[j]));
    }
    if k >= 0 {
        assert(ev[k] == line_event(tail.lines@[k]));
    }
    lemma_no_summary(ev);
    lemma_handoff_at(ev, k, h, handoff(first_user));
    assert(background(ev, first_user) == Some(h));
}

proof fn lemma_latest_user_at(tail: Seq<Seq<char>>, u: int)
    requires
        0 <= u < tail.len(),
        begins(tail[u], "user: "@),
        forall|v: int| u < v < tail.len() ==> !begins(#[trigger] tail[v], "user: "@),
    ensures
        latest_user(tail) == Some(tail[u]),
    decreases tail.len(),
{
    if u < tail.len() - 1 {
        let d = tail.drop_last();
        assert forall|v: int| u < v < d.len() implies !begins(#[trigger] d[v], "user: "@) by {
            assert(d[v] == tail[v]);
        }
        assert(!begins(tail[tail.len() - 1], "user: "@));
        assert(d[u] == tail[u]);
        lemma_latest_user_at(d, u);
    }
}

/// With no prompt pending, the activity read from a rollout is its latest
/// user turn among the last turns, without its role, squashed to 180
/// characters, when that is not empty.
pub proof fn lemma_activity_is_latest_user(
    first_user: Seq<char>,
    preview: Seq<char>,
    tail: RolloutTail,
    u: int,
)
    requires
        ({
            let kept = last_turns(entries(events(tail.lines@)));
            &&& 0 <= u < kept.len()
            &&& begins(kept[u], "user: "@)
            &&& forall|v: int| u < v < kept.len() ==> !begins(#[trigger] kept[v], "user: "@)
            &&& compact(kept[u].skip("user: "@.len() as int), 180).len() > 0
        }),
    ensures
        ({
            let kept = last_turns(entries(events(tail.lines@)));
            evidence_of(first_user, preview, None, Some(tail)) matches Some(e) ==> e.1 == compact(
                compact(kept[u].skip("user: "@.len() as int), 180),
                CAPSULE_CHARS as int,
            )
        }),
{
    let kept = last_turns(entries(events(tail.lines@)));
    lemma_latest_user_at(kept, u);
}

} // verus!
