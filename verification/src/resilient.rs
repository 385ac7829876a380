//! Splitting a failed model call in halves until every job is labelled or
//! a single job fails: the decisions, one model answer at a time.
use vstd::prelude::*;
use crate::jobs::{job_ids, pairs_map, Job};

verus! {

/// One model call: the jobs `lo..hi` of the batch, under run number `run`.
#[derive(Clone, Copy, Debug, PartialEq, Eq, Structural)]
pub struct Attempt {
    pub lo: usize,
    pub hi: usize,
    pub run: usize,
}

/// A run over one batch: the calls still to make, the next one last, the
/// labels gathered, and the history of the calls that the run's laws speak
/// of.
pub struct ResilientRun {
    /// How many jobs the batch holds.
    pub total: usize,
    /// The calls still to make; the last one is made next.
    pub stack: Vec<Attempt>,
    /// The labels the calls made so far returned, in order.
    pub labels: Vec<(String, String)>,
    /// Every call handed out so far, the first one first.
    pub issued: Ghost<Seq<Attempt>>,
    /// The calls that were answered with labels, in the order of the answers.
    pub answered: Ghost<Seq<Attempt>>,
    /// What each of those calls answered.
    pub answers: Ghost<Seq<Seq<(String, String)>>>,
}

/// What to do after a model answer.
pub enum Step {
    /// Make this call next.
    Attempt(Attempt),
    /// The batch is done: all its labels, or the error of a single job.
    Done(Result<Vec<(String, String)>, String>),
}

/// The largest run number that splitting `len` jobs from run `run` can reach.
pub open spec fn deepest_run(run: int, len: int) -> int
    decreases len,
{
    if len <= 1 {
        run
    } else {
        deepest_run(2 * run + 2, len - len / 2)
    }
}

/// The calls cover the jobs from the next call's start to the end of the
/// batch, each starting where the one made after it ends, and no split of
/// them can overflow a run number.
pub open spec fn tiles(stack: Seq<Attempt>, total: int) -> bool {
    &&& stack.len() > 0 ==> stack[0].hi == total
    &&& forall|i: int| 0 <= i < stack.len() - 1 ==> #[trigger] stack[i].lo == stack[i + 1].hi
    &&& forall|i: int|
        0 <= i < stack.len() ==> #[trigger] stack[i].lo <= stack[i].hi && deepest_run(
            stack[i].run as int,
            stack[i].hi - stack[i].lo,
        ) <= usize::MAX
}

/// The most calls an attempt can still lead to: `2n - 1` for `n` jobs, one
/// for none.
pub open spec fn weight(a: Attempt) -> int {
    if a.hi - a.lo <= 1 {
        1
    } else {
        2 * (a.hi - a.lo) - 1
    }
}

/// The most calls the attempts still to make can lead to.
pub open spec fn work(stack: Seq<Attempt>) -> int
    decreases stack.len(),
{
    if stack.len() == 0 {
        0
    } else {
        work(stack.drop_last()) + weight(stack.last())
    }
}

/// Whether run number `x` is `r` or comes from splitting `r` again and
/// again: a failed run `r` hands its halves the runs `2r + 1` and `2r + 2`.
pub open spec fn descends(x: int, r: int) -> bool
    decreases x,
{
    if x <= r || x <= 0 {
        x == r
    } else {
        descends((x - 1) / 2, r)
    }
}

/// No two of the calls share a run number.
pub open spec fn distinct_runs(calls: Seq<Attempt>) -> bool {
    forall|i: int, j: int| 0 <= i < j < calls.len() ==> #[trigger] calls[i].run != #[trigger] calls[j].run
}

/// The calls still to make stand apart in the tree of splits: no call handed
/// out so far comes from a call still waiting, none but the current one
/// comes from the current one, and no waiting call comes from another call
/// on the stack.
pub open spec fn apart(stack: Seq<Attempt>, issued: Seq<Attempt>) -> bool {
    &&& forall|i: int, h: int|
        0 <= i < stack.len() - 1 && 0 <= h < issued.len() ==> !descends(
            #[trigger] issued[h].run as int,
            #[trigger] stack[i].run as int,
        )
    &&& forall|h: int|
        0 <= h < issued.len() && stack.len() > 0 && #[trigger] issued[h].run != stack.last().run
            ==> !descends(issued[h].run as int, stack.last().run as int)
    &&& forall|i: int, j: int|
        0 <= i < stack.len() - 1 && 0 <= j < stack.len() && i != j ==> !descends(
            #[trigger] stack[i].run as int,
            #[trigger] stack[j].run as int,
        )
}

/// The calls follow each other over the batch from its start: each begins
/// where the one before it ended, and the last ends at `end`.
pub open spec fn in_sequence(calls: Seq<Attempt>, end: int) -> bool {
    &&& calls.len() == 0 ==> end == 0
    &&& calls.len() > 0 ==> calls[0].lo == 0 && calls.last().hi == end
    &&& forall|i: int| 0 <= i < calls.len() - 1 ==> #[trigger] calls[i].hi == calls[i + 1].lo
    &&& forall|i: int| 0 <= i < calls.len() ==> #[trigger] calls[i].lo <= calls[i].hi
}

/// The answers one after the other.
pub open spec fn flatten(answers: Seq<Seq<(String, String)>>) -> Seq<(String, String)>
    decreases answers.len(),
{
    if answers.len() == 0 {
        seq![]
    } else {
        flatten(answers.drop_last()) + answers.last()
    }
}

/// What holds of a run at every step: the calls still to make tile the rest
/// of the batch; every call handed out covers a part of it, no two share a
/// run number, and there are at most as many as the first call's weight;
/// the current call is the last one handed out; the answered calls follow
/// each other up to where the calls still to make begin, and the labels
/// gathered are their answers.
pub open spec fn run_inv(
    total: int,
    stack: Seq<Attempt>,
    labels: Seq<(String, String)>,
    issued: Seq<Attempt>,
    answered: Seq<Attempt>,
    answers: Seq<Seq<(String, String)>>,
) -> bool {
    &&& tiles(stack, total)
    &&& forall|i: int| 0 <= i < stack.len() ==> #[trigger] stack[i].hi <= total
    &&& issued.len() >= 1
    &&& issued[0].lo == 0 && issued[0].hi == total
    &&& forall|h: int| 0 <= h < issued.len() ==> #[trigger] issued[h].lo <= issued[h].hi <= total
    &&& distinct_runs(issued)
    &&& issued.len() + work(stack) <= weight(issued[0]) + 1
    &&& issued.len() <= weight(issued[0])
    &&& stack.len() > 0 ==> issued.last() == stack.last()
    &&& apart(stack, issued)
    &&& answered.len() == answers.len()
    &&& stack.len() > 0 ==> labels == flatten(answers)
    &&& in_sequence(answered, if stack.len() == 0 { total } else { stack.last().lo as int })
}

/// A model answer to one call: its labels, or an error.
pub open spec fn answer_view(o: Result<Vec<(String, String)>, String>) -> Result<
    Seq<(String, String)>,
    String,
> {
    match o {
        Ok(v) => Ok(v@),
        Err(e) => Err(e),
    }
}

/// The first half of the jobs of `a`, under run `2 * run + 1`.
pub open spec fn left_half(a: Attempt) -> Attempt {
    Attempt { lo: a.lo, hi: (a.lo + (a.hi - a.lo) / 2) as usize, run: (2 * a.run + 1) as usize }
}

/// The second half of the jobs of `a`, under run `2 * run + 2`.
pub open spec fn right_half(a: Attempt) -> Attempt {
    Attempt { lo: (a.lo + (a.hi - a.lo) / 2) as usize, hi: a.hi, run: (2 * a.run + 2) as usize }
}

/// The labels of `x` then those of `y`, or the first error.
pub open spec fn then(
    x: Result<Seq<(String, String)>, String>,
    y: Result<Seq<(String, String)>, String>,
) -> Result<Seq<(String, String)>, String> {
    match x {
        Err(e) => Err(e),
        Ok(a) => match y {
            Err(e) => Err(e),
            Ok(b) => Ok(a + b),
        },
    }
}

/// What labelling the jobs of call `a` gives when each call `c` is answered
/// `answer(c)`: the call's labels when it succeeds; when it fails over more
/// than one job, the labels of its first half then those of its second, or
/// the first error met; else its error.
pub open spec fn resilient(
    answer: spec_fn(Attempt) -> Result<Seq<(String, String)>, String>,
    a: Attempt,
) -> Result<Seq<(String, String)>, String>
    decreases a.hi - a.lo,
{
    match answer(a) {
        Ok(ls) => Ok(ls),
        Err(e) => if a.hi - a.lo > 1 {
            then(resilient(answer, left_half(a)), resilient(answer, right_half(a)))
        } else {
            Err(e)
        },
    }
}

/// What the calls still to make give, the last one first.
pub open spec fn remaining(
    answer: spec_fn(Attempt) -> Result<Seq<(String, String)>, String>,
    stack: Seq<Attempt>,
) -> Result<Seq<(String, String)>, String>
    decreases stack.len(),
{
    if stack.len() == 0 {
        Ok(seq![])
    } else {
        then(resilient(answer, stack.last()), remaining(answer, stack.drop_last()))
    }
}

/// What a run ends with, from the labels gathered and the calls still to
/// make, when each call `c` is answered `answer(c)`.
pub open spec fn run_outcome(
    answer: spec_fn(Attempt) -> Result<Seq<(String, String)>, String>,
    labels: Seq<(String, String)>,
    stack: Seq<Attempt>,
) -> Result<Seq<(String, String)>, String> {
    then(Ok(labels), remaining(answer, stack))
}

impl ResilientRun {
    /// What holds of the run at every step (see `run_inv`).
    pub open spec fn wf(&self) -> bool {
        run_inv(
            self.total as int,
            self.stack@,
            self.labels@,
            self.issued@,
            self.answered@,
            self.answers@,
        )
    }

    /// A run over `total` jobs whose first call covers them all under run
    /// number `run`.
    pub fn start(total: usize, run: usize) -> (r: (ResilientRun, Attempt))
        requires
            deepest_run(run as int, total as int) <= usize::MAX,
        ensures
            r.0.wf(),
            r.0.total == total,
            r.0.labels@.len() == 0,
            r.0.stack@ == seq![r.1],
            r.1 == (Attempt { lo: 0, hi: total, run }),
            work(r.0.stack@) == weight(r.1),
            r.0.issued@ == seq![r.1],
            r.0.answered@.len() == 0,
            r.0.answers@.len() == 0,
            forall|answer: spec_fn(Attempt) -> Result<Seq<(String, String)>, String>|
                #[trigger] run_outcome(answer, r.0.labels@, r.0.stack@) == resilient(answer, r.1),
    {
        let first = Attempt { lo: 0, hi: total, run };
        let mut stack: Vec<Attempt> = Vec::new();
        stack.push(first);
        assert(stack@.drop_last() =~= Seq::<Attempt>::empty());
        assert(work(Seq::<Attempt>::empty()) == 0);
        assert(work(stack@) == work(stack@.drop_last()) + weight(first));
        let issued: Ghost<Seq<Attempt>> = Ghost(Seq::empty().push(first));
        let answered: Ghost<Seq<Attempt>> = Ghost(Seq::empty());
        let answers: Ghost<Seq<Seq<(String, String)>>> = Ghost(Seq::empty());
        let state = ResilientRun { total, stack, labels: Vec::new(), issued, answered, answers };
        assert(flatten(Seq::<Seq<(String, String)>>::empty()) =~= seq![]);
        assert forall|answer: spec_fn(Attempt) -> Result<Seq<(String, String)>, String>|
            #[trigger] run_outcome(answer, state.labels@, state.stack@) == resilient(
                answer,
                first,
            ) by {
            lemma_outcome_one(answer, state.stack@);
        }
        (state, first)
    }
}

proof fn lemma_work_nonneg(stack: Seq<Attempt>)
    ensures
        work(stack) >= 0,
    decreases stack.len(),
{
    if stack.len() > 0 {
        lemma_work_nonneg(stack.drop_last());
    }
}

proof fn lemma_deepest_at_least(run: int, len: int)
    requires
        run >= 0,
    ensures
        deepest_run(run, len) >= run,
    decreases len,
{
    if len > 1 {
        lemma_deepest_at_least(2 * run + 2, len - len / 2);
    }
}

proof fn lemma_deepest_monotone(r1: int, r2: int, l1: int, l2: int)
    requires
        0 <= r1 <= r2,
        l1 <= l2,
    ensures
        deepest_run(r1, l1) <= deepest_run(r2, l2),
    decreases l2,
{
    if l1 <= 1 {
        lemma_deepest_at_least(r2, l2);
    } else {
        lemma_deepest_monotone(2 * r1 + 2, 2 * r2 + 2, l1 - l1 / 2, l2 - l2 / 2);
    }
}

proof fn lemma_descends_ge(x: int, r: int)
    requires
        descends(x, r),
    ensures
        x >= r,
    decreases x,
{
    if !(x <= r || x <= 0) {
        lemma_descends_ge((x - 1) / 2, r);
    }
}

proof fn lemma_descends_trans(x: int, y: int, z: int)
    requires
        descends(x, y),
        descends(y, z),
        z >= 0,
    ensures
        descends(x, z),
    decreases x,
{
    lemma_descends_ge(y, z);
    if x != y {
        lemma_descends_ge(x, y);
        lemma_descends_trans((x - 1) / 2, y, z);
    }
}

proof fn lemma_descends_chain(x: int, a: int, b: int)
    requires
        descends(x, a),
        descends(x, b),
        a >= 0,
        b >= 0,
    ensures
        descends(a, b) || descends(b, a),
    decreases x,
{
    if x != a && x != b {
        lemma_descends_chain((x - 1) / 2, a, b);
    }
}

proof fn lemma_children(r: int)
    requires
        r >= 0,
    ensures
        descends(2 * r + 1, r),
        descends(2 * r + 2, r),
        !descends(2 * r + 1, 2 * r + 2),
        !descends(2 * r + 2, 2 * r + 1),
{
    assert((2 * r + 1 - 1) / 2 == r);
    assert((2 * r + 2 - 1) / 2 == r);
    assert(descends(r, r));
    assert(!descends(r, 2 * r + 1));
}

proof fn lemma_split_apart(stack: Seq<Attempt>, issued: Seq<Attempt>, left: Attempt, right: Attempt)
    requires
        stack.len() > 0,
        issued.len() > 0,
        issued.last() == stack.last(),
        apart(stack, issued),
        left.run == 2 * stack.last().run + 1,
        right.run == 2 * stack.last().run + 2,
    ensures
        apart(stack.drop_last().push(right).push(left), issued.push(left)),
        forall|h: int| 0 <= h < issued.len() ==> #[trigger] issued[h].run != left.run,
{
    let t = stack.last();
    let n = stack.len() as int;
    let ns = stack.drop_last().push(right).push(left);
    let ni = issued.push(left);
    let ti = issued.len() - 1;
    lemma_children(t.run as int);
    assert(issued[ti] == t);
    assert forall|h: int| 0 <= h < issued.len() implies #[trigger] issued[h].run != left.run by {
        if issued[h].run == left.run {
            assert(issued[h].run != stack.last().run);
        }
    }
    assert forall|i: int, h: int| 0 <= i < ns.len() - 1 && 0 <= h < ni.len() implies !descends(
        #[trigger] ni[h].run as int,
        #[trigger] ns[i].run as int,
    ) by {
        if i < n - 1 {
            assert(ns[i] == stack[i]);
            if h < issued.len() {
                assert(ni[h] == issued[h]);
            } else {
                assert(ni[h] == left);
                if descends(left.run as int, stack[i].run as int) {
                    lemma_descends_chain(left.run as int, t.run as int, stack[i].run as int);
                    if descends(t.run as int, stack[i].run as int) {
                        assert(!descends(issued[ti].run as int, stack[i].run as int));
                    } else {
                        assert(!descends(stack[i].run as int, stack[n - 1].run as int));
                    }
                }
            }
        } else {
            assert(ns[i] == right);
            if h < issued.len() {
                assert(ni[h] == issued[h]);
                if descends(issued[h].run as int, right.run as int) {
                    lemma_descends_trans(issued[h].run as int, right.run as int, t.run as int);
                    lemma_descends_ge(issued[h].run as int, right.run as int);
                    assert(issued[h].run != stack.last().run);
                }
            } else {
                assert(ni[h] == left);
            }
        }
    }
    assert forall|h: int|
        0 <= h < ni.len() && ns.len() > 0 && #[trigger] ni[h].run != ns.last().run implies !descends(
        ni[h].run as int,
        ns.last().run as int,
    ) by {
        assert(ns.last() == left);
        assert(h < issued.len());
        assert(ni[h] == issued[h]);
        if descends(issued[h].run as int, left.run as int) {
            lemma_descends_trans(issued[h].run as int, left.run as int, t.run as int);
            lemma_descends_ge(issued[h].run as int, left.run as int);
            assert(issued[h].run != stack.last().run);
        }
    }
    assert forall|i: int, j: int|
        0 <= i < ns.len() - 1 && 0 <= j < ns.len() && i != j implies !descends(
        #[trigger] ns[i].run as int,
        #[trigger] ns[j].run as int,
    ) by {
        if i < n - 1 {
            assert(ns[i] == stack[i]);
            if j < n - 1 {
                assert(ns[j] == stack[j]);
            } else {
                if descends(stack[i].run as int, ns[j].run as int) {
                    lemma_descends_trans(stack[i].run as int, ns[j].run as int, t.run as int);
                    assert(!descends(stack[i].run as int, stack[n - 1].run as int));
                }
            }
        } else {
            assert(ns[i] == right);
            if j < n - 1 {
                assert(ns[j] == stack[j]);
                if descends(right.run as int, stack[j].run as int) {
                    lemma_descends_chain(right.run as int, t.run as int, stack[j].run as int);
                    if descends(t.run as int, stack[j].run as int) {
                        assert(!descends(issued[ti].run as int, stack[j].run as int));
                    } else {
                        assert(!descends(stack[j].run as int, stack[n - 1].run as int));
                    }
                }
            } else {
                assert(ns[j] == left);
            }
        }
    }
}

proof fn lemma_pop_apart(stack: Seq<Attempt>, issued: Seq<Attempt>)
    requires
        stack.len() > 1,
        apart(stack, issued),
    ensures
        apart(stack.drop_last(), issued.push(stack.drop_last().last())),
        forall|h: int|
            0 <= h < issued.len() ==> #[trigger] issued[h].run != stack.drop_last().last().run,
{
    let ns = stack.drop_last();
    let k = ns.len() - 1;
    let s = ns.last();
    let ni = issued.push(s);
    assert(ns[k] == stack[k]);
    assert forall|h: int| 0 <= h < issued.len() implies #[trigger] issued[h].run != s.run by {
        assert(!descends(issued[h].run as int, stack[k].run as int));
    }
    assert forall|i: int, h: int| 0 <= i < ns.len() - 1 && 0 <= h < ni.len() implies !descends(
        #[trigger] ni[h].run as int,
        #[trigger] ns[i].run as int,
    ) by {
        assert(ns[i] == stack[i]);
        if h < issued.len() {
            assert(ni[h] == issued[h]);
        } else {
            assert(ni[h] == stack[k]);
            assert(!descends(stack[k].run as int, stack[i].run as int));
        }
    }
    assert forall|h: int|
        0 <= h < ni.len() && ns.len() > 0 && #[trigger] ni[h].run != ns.last().run implies !descends(
        ni[h].run as int,
        ns.last().run as int,
    ) by {
        if h < issued.len() {
            assert(ni[h] == issued[h]);
            assert(!descends(issued[h].run as int, stack[k].run as int));
        }
    }
    assert forall|i: int, j: int|
        0 <= i < ns.len() - 1 && 0 <= j < ns.len() && i != j implies !descends(
        #[trigger] ns[i].run as int,
        #[trigger] ns[j].run as int,
    ) by {
        assert(ns[i] == stack[i] && ns[j] == stack[j]);
    }
}

/// The calls of an accepted run cover the batch: every job lies in one of
/// the answered calls.
pub proof fn lemma_answered_cover(calls: Seq<Attempt>, total: int, job: int)
    requires
        in_sequence(calls, total),
        0 <= job < total,
    ensures
        exists|i: int| 0 <= i < calls.len() && #[trigger] calls[i].lo <= job < calls[i].hi,
    decreases calls.len(),
{
    let last = calls.last();
    if job >= last.lo {
        assert(calls[calls.len() - 1].lo <= job < calls[calls.len() - 1].hi);
    } else {
        let d = calls.drop_last();
        assert forall|i: int| 0 <= i < d.len() - 1 implies #[trigger] d[i].hi == d[i + 1].lo by {
            assert(d[i] == calls[i] && d[i + 1] == calls[i + 1]);
        }
        assert forall|i: int| 0 <= i < d.len() implies #[trigger] d[i].lo <= d[i].hi by {
            assert(d[i] == calls[i]);
        }
        if d.len() > 0 {
            assert(d.last().hi == calls[calls.len() - 2].hi);
        }
        lemma_answered_cover(d, last.lo as int, job);
        let i = choose|i: int| 0 <= i < d.len() && #[trigger] d[i].lo <= job < d[i].hi;
        assert(calls[i] == d[i]);
    }
}

proof fn lemma_pairs_concat(a: Seq<(String, String)>, b: Seq<(String, String)>)
    ensures
        pairs_map(a + b).dom() == pairs_map(a).dom().union(pairs_map(b).dom()),
    decreases b.len(),
{
    if b.len() == 0 {
        assert(a + b =~= a);
        assert(pairs_map(a).dom().union(pairs_map(b).dom()) =~= pairs_map(a).dom());
    } else {
        lemma_pairs_concat(a, b.drop_last());
        assert((a + b).drop_last() =~= a + b.drop_last());
        assert((a + b).last() == b.last());
        assert(pairs_map(a + b).dom() =~= pairs_map(a).dom().union(pairs_map(b).dom()));
    }
}

proof fn lemma_ids_split(jobs: Seq<Job>, a: int, b: int)
    requires
        0 <= a <= b <= jobs.len(),
    ensures
        job_ids(jobs.subrange(0, a)).union(job_ids(jobs.subrange(a, b))) == job_ids(
            jobs.subrange(0, b),
        ),
{
    let l = jobs.subrange(0, a);
    let r = jobs.subrange(a, b);
    let w = jobs.subrange(0, b);
    let ln = l.map_values(|j: Job| j.id@);
    let rn = r.map_values(|j: Job| j.id@);
    let wn = w.map_values(|j: Job| j.id@);
    assert forall|k: Seq<char>|
        job_ids(l).union(job_ids(r)).contains(k) == job_ids(w).contains(k) by {
        if ln.contains(k) {
            let i = choose|i: int| 0 <= i < ln.len() && ln[i] == k;
            assert(wn[i] == k);
        }
        if rn.contains(k) {
            let i = choose|i: int| 0 <= i < rn.len() && rn[i] == k;
            assert(wn[a + i] == k);
        }
        if wn.contains(k) {
            let i = choose|i: int| 0 <= i < wn.len() && wn[i] == k;
            if i < a {
                assert(ln[i] == k);
            } else {
                assert(rn[i - a] == k);
            }
        }
    }
    assert(job_ids(l).union(job_ids(r)) =~= job_ids(w));
}

/// An accepted run labels exactly the jobs of its batch: when the answered
/// calls follow each other over the jobs up to `end`, and each call's answer
/// labels exactly the IDs of the jobs it covered, the answers together
/// label exactly the IDs of those jobs.
pub proof fn lemma_run_labels_batch(
    jobs: Seq<Job>,
    calls: Seq<Attempt>,
    answers: Seq<Seq<(String, String)>>,
    end: int,
)
    requires
        in_sequence(calls, end),
        end <= jobs.len(),
        calls.len() == answers.len(),
        forall|i: int|
            0 <= i < calls.len() ==> pairs_map(#[trigger] answers[i]).dom() == job_ids(
                jobs.subrange(calls[i].lo as int, calls[i].hi as int),
            ),
    ensures
        pairs_map(flatten(answers)).dom() == job_ids(jobs.subrange(0, end)),
    decreases calls.len(),
{
    if calls.len() == 0 {
        assert(jobs.subrange(0, end).map_values(|j: Job| j.id@).to_set() =~= Set::empty());
        assert(pairs_map(flatten(answers)).dom() =~= Set::empty());
    } else {
        let c = calls.last();
        let d = calls.drop_last();
        let da = answers.drop_last();
        assert forall|i: int| 0 <= i < d.len() - 1 implies #[trigger] d[i].hi == d[i + 1].lo by {
            assert(d[i] == calls[i] && d[i + 1] == calls[i + 1]);
        }
        assert forall|i: int| 0 <= i < d.len() implies #[trigger] d[i].lo <= d[i].hi by {
            assert(d[i] == calls[i]);
        }
        if d.len() > 0 {
            assert(d.last().hi == calls[calls.len() - 2].hi);
            assert(d[0] == calls[0]);
        }
        assert forall|i: int| 0 <= i < d.len() implies pairs_map(#[trigger] da[i]).dom() == job_ids(
            jobs.subrange(d[i].lo as int, d[i].hi as int),
        ) by {
            assert(da[i] == answers[i] && d[i] == calls[i]);
        }
        lemma_run_labels_batch(jobs, d, da, c.lo as int);
        lemma_pairs_concat(flatten(da), answers.last());
        assert(answers.last() == answers[answers.len() - 1]);
        lemma_ids_split(jobs, c.lo as int, end);
    }
}

/// At every step of a run, every call handed out covers a contiguous part
/// of the batch, the first covers all of it, no two share a run number, and
/// there have been at most `2n - 1` of them for `n` jobs (one for fewer than
/// two jobs).
pub proof fn lemma_run_calls(state: &ResilientRun)
    requires
        state.wf(),
    ensures
        state.issued@.len() >= 1,
        state.issued@[0].lo == 0 && state.issued@[0].hi == state.total,
        state.issued@.len() <= if state.total <= 1 {
            1
        } else {
            2 * state.total - 1
        },
        distinct_runs(state.issued@),
        forall|h: int|
            0 <= h < state.issued@.len() ==> #[trigger] state.issued@[h].lo <= state.issued@[h].hi
                <= state.total,
{
}

proof fn lemma_then_assoc(
    x: Result<Seq<(String, String)>, String>,
    y: Result<Seq<(String, String)>, String>,
    z: Result<Seq<(String, String)>, String>,
)
    ensures
        then(then(x, y), z) == then(x, then(y, z)),
{
    if x is Ok && y is Ok && z is Ok {
        assert(x->Ok_0 + y->Ok_0 + z->Ok_0 =~= x->Ok_0 + (y->Ok_0 + z->Ok_0));
    }
}

proof fn lemma_outcome_one(
    answer: spec_fn(Attempt) -> Result<Seq<(String, String)>, String>,
    stack: Seq<Attempt>,
)
    requires
        stack.len() == 1,
    ensures
        run_outcome(answer, seq![], stack) == resilient(answer, stack[0]),
{
    let none = Seq::<(String, String)>::empty();
    assert(stack.drop_last().len() == 0);
    assert(remaining(answer, stack.drop_last()) == Ok::<Seq<(String, String)>, String>(none));
    assert(stack.last() == stack[0]);
    let x = resilient(answer, stack[0]);
    assert(remaining(answer, stack) == then(x, Ok(none)));
    if x is Ok {
        assert(none + (x->Ok_0 + none) =~= x->Ok_0);
    }
}

/// After a call is answered with labels `ls`, the run ends as it would have.
proof fn lemma_outcome_after_labels(
    answer: spec_fn(Attempt) -> Result<Seq<(String, String)>, String>,
    labels: Seq<(String, String)>,
    stack: Seq<Attempt>,
    ls: Seq<(String, String)>,
)
    requires
        stack.len() > 0,
        answer(stack.last()) == Ok::<Seq<(String, String)>, String>(ls),
    ensures
        run_outcome(answer, labels + ls, stack.drop_last()) == run_outcome(answer, labels, stack),
        stack.len() == 1 ==> run_outcome(answer, labels, stack) == Ok::<
            Seq<(String, String)>,
            String,
        >(labels + ls),
{
    let rest = remaining(answer, stack.drop_last());
    if rest is Ok {
        assert(labels + ls + rest->Ok_0 =~= labels + (ls + rest->Ok_0));
    }
    if stack.len() == 1 {
        assert(stack.drop_last().len() == 0);
        assert(labels + (ls + seq![]) =~= labels + ls);
    }
}

/// Splitting a failed call into its halves does not change how the run
/// ends.
proof fn lemma_outcome_after_split(
    answer: spec_fn(Attempt) -> Result<Seq<(String, String)>, String>,
    labels: Seq<(String, String)>,
    stack: Seq<Attempt>,
)
    requires
        stack.len() > 0,
        answer(stack.last()) is Err,
        stack.last().hi - stack.last().lo > 1,
    ensures
        run_outcome(
            answer,
            labels,
            stack.drop_last().push(right_half(stack.last())).push(left_half(stack.last())),
        ) == run_outcome(answer, labels, stack),
{
    let a = stack.last();
    let d = stack.drop_last();
    let s1 = d.push(right_half(a));
    let s2 = s1.push(left_half(a));
    assert(s2.drop_last() =~= s1);
    assert(s1.drop_last() =~= d);
    let l = resilient(answer, left_half(a));
    let r = resilient(answer, right_half(a));
    let rest = remaining(answer, d);
    assert(resilient(answer, a) == then(l, r));
    assert(s2.last() == left_half(a));
    assert(s1.last() == right_half(a));
    assert(remaining(answer, s1) == then(r, rest));
    assert(remaining(answer, s2) == then(l, remaining(answer, s1)));
    assert(remaining(answer, stack) == then(then(l, r), rest));
    lemma_then_assoc(l, r, rest);
}

/// A failed call over at most one job ends the run with its error.
proof fn lemma_outcome_after_failure(
    answer: spec_fn(Attempt) -> Result<Seq<(String, String)>, String>,
    labels: Seq<(String, String)>,
    stack: Seq<Attempt>,
    e: String,
)
    requires
        stack.len() > 0,
        answer(stack.last()) == Err::<Seq<(String, String)>, String>(e),
        stack.last().hi - stack.last().lo <= 1,
    ensures
        run_outcome(answer, labels, stack) == Err::<Seq<(String, String)>, String>(e),
{
}

/// Whether splitting `len` jobs from run `run` keeps every run number
/// within `usize`.
pub fn run_numbers_fit(run: usize, len: usize) -> (r: bool)
    ensures
        r == (deepest_run(run as int, len as int) <= usize::MAX),
{
    let mut r: usize = run;
    let mut l: usize = len;
    while l > 1
        invariant
            deepest_run(run as int, len as int) == deepest_run(r as int, l as int),
        decreases l,
    {
        if r > (usize::MAX - 2) / 2 {
            proof {
                lemma_deepest_at_least(2 * r + 2, l - l / 2);
            }
            return false;
        }
        r = 2 * r + 2;
        l = l - l / 2;
    }
    true
}

/// The next step after the model answered the last call of `state`: on
/// success its labels are kept and the next call is made, or the batch is
/// done; on failure a call over several jobs is split into its halves, the
/// first half next, while the failure of a call over at most one job ends
/// the batch with that error.
pub fn run_model_resilient(
    state: &mut ResilientRun,
    outcome: Result<Vec<(String, String)>, String>,
) -> (r: Step)
    requires
        old(state).wf(),
        old(state).stack@.len() > 0,
    ensures
        final(state).wf(),
        final(state).total == old(state).total,
        r matches Step::Attempt(_) ==> 0 <= work(final(state).stack@),
        r matches Step::Attempt(_) ==> work(final(state).stack@) < work(old(state).stack@),
        ({
            let a = old(state).stack@.last();
            match outcome {
                Ok(ls) => {
                    &&& final(state).stack@ == old(state).stack@.drop_last()
                    &&& final(state).answered@ == old(state).answered@.push(a)
                    &&& final(state).answers@ == old(state).answers@.push(ls@)
                    &&& if final(state).stack@.len() == 0 {
                        r matches Step::Done(Ok(v)) && v@ == old(state).labels@ + ls@
                    } else {
                        &&& final(state).labels@ == old(state).labels@ + ls@
                        &&& r == Step::Attempt(final(state).stack@.last())
                    }
                },
                Err(e) => {
                    &&& final(state).answered@ == old(state).answered@
                    &&& final(state).answers@ == old(state).answers@
                    &&& final(state).labels@ == old(state).labels@
                    &&& if a.hi - a.lo > 1 {
                        let mid = (a.lo + (a.hi - a.lo) / 2) as usize;
                        let left = Attempt { lo: a.lo, hi: mid, run: (2 * a.run + 1) as usize };
                        let right = Attempt { lo: mid, hi: a.hi, run: (2 * a.run + 2) as usize };
                        &&& final(state).stack@ == old(state).stack@.drop_last().push(
                            right,
                        ).push(left)
                        &&& r == Step::Attempt(left)
                    } else {
                        &&& final(state).stack@ == old(state).stack@
                        &&& r matches Step::Done(Err(msg)) && msg == e
                    }
                },
            }
        }),
        r matches Step::Attempt(n) ==> final(state).issued@ == old(state).issued@.push(n),
        r matches Step::Done(_) ==> final(state).issued@ == old(state).issued@,
        forall|answer: spec_fn(Attempt) -> Result<Seq<(String, String)>, String>|
            #[trigger] answer(old(state).stack@.last()) == answer_view(outcome) ==> match r {
                Step::Attempt(_) => run_outcome(answer, final(state).labels@, final(state).stack@)
                    == run_outcome(answer, old(state).labels@, old(state).stack@),
                Step::Done(res) => answer_view(res) == run_outcome(
                    answer,
                    old(state).labels@,
                    old(state).stack@,
                ),
            },
        r matches Step::Done(Ok(v)) ==> v@ == flatten(final(state).answers@) && in_sequence(
            final(state).answered@,
            final(state).total as int,
        ),
{
    let a = state.stack[state.stack.len() - 1];
    let ghost old_stack = state.stack@;
    let ghost old_issued = state.issued@;
    let ghost old_answered = state.answered@;
    let ghost old_answers = state.answers@;
    let ghost total = state.total as int;
    let ghost old_labels = state.labels@;
    let ghost ov = answer_view(outcome);
    let ghost n = old_stack.len() as int;
    proof {
        lemma_work_nonneg(old_stack.drop_last());
        assert(work(old_stack) == work(old_stack.drop_last()) + weight(old_stack.last()));
        assert(old_stack[n - 1] == a);
    }
    match outcome {
        Ok(ls) => {
            let ghost got = ls@;
            let mut ls = ls;
            state.labels.append(&mut ls);
            state.stack.pop();
            state.answered = Ghost(old_answered.push(a));
            state.answers = Ghost(old_answers.push(got));
            assert(state.stack@ =~= old_stack.drop_last());
            proof {
                assert(old_answers.push(got).drop_last() =~= old_answers);
                assert(flatten(old_answers.push(got)) == flatten(old_answers) + got);
                let na = old_answered.push(a);
                let end = if state.stack@.len() == 0 {
                    total
                } else {
                    state.stack@.last().lo as int
                };
                if state.stack@.len() > 0 {
                    assert(old_stack[n - 2].lo == old_stack[n - 1].hi);
                    assert(state.stack@.last() == old_stack[n - 2]);
                }
                assert forall|i: int| 0 <= i < na.len() - 1 implies #[trigger] na[i].hi == na[i
                    + 1].lo by {
                    assert(na[i] == old_answered[i]);
                    if i + 1 < old_answered.len() {
                        assert(na[i + 1] == old_answered[i + 1]);
                    }
                }
                assert forall|i: int| 0 <= i < na.len() implies #[trigger] na[i].lo <= na[i].hi by {
                    if i < old_answered.len() {
                        assert(na[i] == old_answered[i]);
                    }
                }
                assert(in_sequence(na, end));
                assert forall|i: int| 0 <= i < state.stack@.len() implies #[trigger] state.stack@[i].hi
                    <= total by {
                    assert(state.stack@[i] == old_stack[i]);
                }
            }
            proof {
                assert forall|answer: spec_fn(Attempt) -> Result<Seq<(String, String)>, String>|
                    #[trigger] answer(old_stack.last()) == ov implies run_outcome(
                    answer,
                    old_labels + got,
                    old_stack.drop_last(),
                ) == run_outcome(answer, old_labels, old_stack) && (old_stack.len() == 1
                    ==> run_outcome(answer, old_labels, old_stack) == Ok::<
                    Seq<(String, String)>,
                    String,
                >(old_labels + got)) by {
                    lemma_outcome_after_labels(answer, old_labels, old_stack, got);
                }
            }
            if state.stack.len() == 0 {
                let mut done: Vec<(String, String)> = Vec::new();
                done.append(&mut state.labels);
                Step::Done(Ok(done))
            } else {
                let next = state.stack[state.stack.len() - 1];
                proof {
                    lemma_pop_apart(old_stack, old_issued);
                    lemma_work_nonneg(state.stack@.drop_last());
                    assert(work(state.stack@) == work(state.stack@.drop_last()) + weight(next));
                    let ni = old_issued.push(next);
                    assert(ni[0] == old_issued[0]);
                    assert forall|i: int, j: int| 0 <= i < j < ni.len() implies #[trigger] ni[i].run
                        != #[trigger] ni[j].run by {
                        assert(ni[i] == old_issued[i]);
                        if j < old_issued.len() {
                            assert(ni[j] == old_issued[j]);
                        }
                    }
                    assert forall|h: int| 0 <= h < ni.len() implies #[trigger] ni[h].lo <= ni[h].hi
                        <= total by {
                        if h < old_issued.len() {
                            assert(ni[h] == old_issued[h]);
                        } else {
                            assert(ni[h] == old_stack[n - 2]);
                        }
                    }
                }
                state.issued = Ghost(old_issued.push(next));
                Step::Attempt(next)
            }
        },
        Err(e) => {
            if a.hi - a.lo > 1 {
                proof {
                    lemma_deepest_at_least(2 * a.run + 2, (a.hi - a.lo) - (a.hi - a.lo) / 2);
                    lemma_deepest_monotone(
                        2 * a.run + 1,
                        2 * a.run + 2,
                        (a.hi - a.lo) / 2,
                        (a.hi - a.lo) - (a.hi - a.lo) / 2,
                    );
                }
                let mid = a.lo + (a.hi - a.lo) / 2;
                let left = Attempt { lo: a.lo, hi: mid, run: 2 * a.run + 1 };
                let right = Attempt { lo: mid, hi: a.hi, run: 2 * a.run + 2 };
                state.stack.pop();
                state.stack.push(right);
                state.stack.push(left);
                assert(state.stack@ =~= old_stack.drop_last().push(right).push(left));
                proof {
                    assert(state.stack@.drop_last() =~= old_stack.drop_last().push(right));
                    assert(state.stack@.drop_last().drop_last() =~= old_stack.drop_last());
                    let st = state.stack@;
                    assert(work(st) == work(st.drop_last()) + weight(left));
                    assert(work(st.drop_last()) == work(old_stack.drop_last()) + weight(right));
                    lemma_split_apart(old_stack, old_issued, left, right);
                    let ni = old_issued.push(left);
                    assert(ni[0] == old_issued[0]);
                    assert forall|i: int, j: int| 0 <= i < j < ni.len() implies #[trigger] ni[i].run
                        != #[trigger] ni[j].run by {
                        assert(ni[i] == old_issued[i]);
                        if j < old_issued.len() {
                            assert(ni[j] == old_issued[j]);
                        }
                    }
                    assert forall|h: int| 0 <= h < ni.len() implies #[trigger] ni[h].lo <= ni[h].hi
                        <= total by {
                        if h < old_issued.len() {
                            assert(ni[h] == old_issued[h]);
                        }
                    }
                    assert forall|i: int| 0 <= i < st.len() implies #[trigger] st[i].hi <= total by {
                        if i < n - 1 {
                            assert(st[i] == old_stack[i]);
                        }
                    }
                }
                state.issued = Ghost(old_issued.push(left));
                proof {
                    assert(left == left_half(a) && right == right_half(a));
                    assert forall|answer: spec_fn(Attempt) -> Result<Seq<(String, String)>, String>|
                        #[trigger] answer(old_stack.last()) == ov implies run_outcome(
                        answer,
                        old_labels,
                        state.stack@,
                    ) == run_outcome(answer, old_labels, old_stack) by {
                        lemma_outcome_after_split(answer, old_labels, old_stack);
                    }
                }
                Step::Attempt(left)
            } else {
                proof {
                    assert forall|answer: spec_fn(Attempt) -> Result<Seq<(String, String)>, String>|
                        #[trigger] answer(old_stack.last()) == ov implies run_outcome(
                        answer,
                        old_labels,
                        old_stack,
                    ) == Err::<Seq<(String, String)>, String>(e) by {
                        lemma_outcome_after_failure(answer, old_labels, old_stack, e);
                    }
                }
                Step::Done(Err(e))
            }
        },
    }
}

} // verus!
