//! Labelling jobs: how they are grouped into model batches.
use vstd::prelude::*;
use crate::chars::{infix, is_text, occurs_at, same_chars, to_chars};
use crate::text::{normalize_label, normalized};

verus! {

/// The model that labels the archive on the first pass.
pub const INITIAL_MODEL: &'static str = "gpt-5.6-sol";

/// The model that relabels changed conversations.
pub const UPDATE_MODEL: &'static str = "gpt-5.3-codex-spark";

/// One conversation to label.
#[derive(Clone)]
pub struct Job {
    pub id: String,
    /// The rollout file, as displayed.
    pub path: String,
    pub dev: i64,
    pub inode: i64,
    pub length: i64,
    pub capsule: String,
    pub activity: String,
    /// The label it had before, if any.
    pub prior: Option<String>,
}

/// The characters a job adds to a batch: its capsule and its prior label.
pub open spec fn job_size(j: Job) -> int {
    let prior: int = match j.prior {
        Some(p) => p@.len() as int,
        None => 0,
    };
    j.capsule@.len() + prior
}

/// The characters all jobs of a batch add.
pub open spec fn total_size(b: Seq<Job>) -> int
    decreases b.len(),
{
    if b.len() == 0 {
        0
    } else {
        total_size(b.drop_last()) + job_size(b.last())
    }
}

/// The most jobs and characters one batch of `model` takes.
pub open spec fn limits(model: Seq<char>) -> (int, int) {
    if model == INITIAL_MODEL@ {
        (100, 60_000)
    } else {
        (6, 9_000)
    }
}

/// The jobs of all batches, in order.
pub open spec fn flatten(bs: Seq<Seq<Job>>) -> Seq<Job>
    decreases bs.len(),
{
    if bs.len() == 0 {
        seq![]
    } else {
        flatten(bs.drop_last()) + bs.last()
    }
}

/// The views of a sequence of batches.
pub open spec fn batch_views(bs: Seq<Vec<Job>>) -> Seq<Seq<Job>> {
    bs.map_values(|b: Vec<Job>| b@)
}

/// One batch within the limits: not empty, at most `max_threads` jobs, and
/// at most `max_chars` characters unless it is a single job.
pub open spec fn fits(b: Seq<Job>, max_threads: int, max_chars: int) -> bool {
    &&& b.len() > 0
    &&& b.len() <= max_threads
    &&& (b.len() == 1 || total_size(b) <= max_chars)
}

/// Each batch is full: it holds `max_threads` jobs, or the first job of the
/// next batch would take it over `max_chars`.
pub open spec fn full(a: Seq<Job>, next: Seq<Job>, max_threads: int, max_chars: int) -> bool {
    a.len() == max_threads || total_size(a) + job_size(next[0]) > max_chars
}

/// `bs` cuts the jobs, in order, into batches that fit the limits, each as
/// full as the next job allows.
pub open spec fn greedy(bs: Seq<Seq<Job>>, max_threads: int, max_chars: int) -> bool {
    &&& forall|i: int| 0 <= i < bs.len() ==> fits(#[trigger] bs[i], max_threads, max_chars)
    &&& forall|i: int|
        0 <= i < bs.len() - 1 ==> full(#[trigger] bs[i], bs[i + 1], max_threads, max_chars)
}

fn job_chars(job: &Job) -> (r: usize)
    requires
        job_size(*job) <= usize::MAX,
    ensures
        r == job_size(*job),
{
    let c = to_chars(job.capsule.as_str());
    let p = match &job.prior {
        Some(p) => to_chars(p.as_str()).len(),
        None => 0,
    };
    c.len() + p
}

proof fn lemma_flatten_push(bs: Seq<Seq<Job>>, b: Seq<Job>)
    ensures
        flatten(bs.push(b)) == flatten(bs) + b,
{
    assert(bs.push(b).drop_last() =~= bs);
}

proof fn lemma_total_push(b: Seq<Job>, j: Job)
    ensures
        total_size(b.push(j)) == total_size(b) + job_size(j),
{
    assert(b.push(j).drop_last() =~= b);
}

proof fn lemma_total_nonneg(b: Seq<Job>)
    ensures
        total_size(b) >= 0,
    decreases b.len(),
{
    if b.len() > 0 {
        lemma_total_nonneg(b.drop_last());
    }
}

proof fn lemma_total_concat(u: Seq<Job>, v: Seq<Job>)
    ensures
        total_size(u + v) == total_size(u) + total_size(v),
    decreases v.len(),
{
    if v.len() == 0 {
        assert(u + v =~= u);
    } else {
        lemma_total_concat(u, v.drop_last());
        assert((u + v).drop_last() =~= u + v.drop_last());
        assert((u + v).last() == v.last());
    }
}

proof fn lemma_total_window(s: Seq<Job>, x0: int, x: int, y: int, y0: int)
    requires
        0 <= x0 <= x <= y <= y0 <= s.len(),
    ensures
        total_size(s.subrange(x, y)) <= total_size(s.subrange(x0, y0)),
{
    let l = s.subrange(x0, x);
    let m = s.subrange(x, y);
    let r = s.subrange(y, y0);
    assert(s.subrange(x0, y0) =~= l + m + r);
    lemma_total_concat(l + m, r);
    lemma_total_concat(l, m);
    lemma_total_nonneg(l);
    lemma_total_nonneg(r);
}

proof fn lemma_flatten_front(bs: Seq<Seq<Job>>)
    requires
        bs.len() > 0,
    ensures
        flatten(bs) == bs[0] + flatten(bs.drop_first()),
    decreases bs.len(),
{
    if bs.len() == 1 {
        assert(bs.drop_first().len() == 0);
        assert(bs.drop_last().len() == 0);
        assert(bs[0] + seq![] =~= bs[0]);
        assert(flatten(bs.drop_last()) =~= Seq::<Job>::empty());
        assert(Seq::<Job>::empty() + bs.last() =~= bs[0]);
    } else {
        let d = bs.drop_last();
        lemma_flatten_front(d);
        assert(d.drop_first() =~= bs.drop_first().drop_last());
        assert(bs.drop_first().last() == bs.last());
        assert(d[0] == bs[0]);
        assert(flatten(bs) =~= bs[0] + flatten(bs.drop_first()));
    }
}

proof fn lemma_greedy_ahead(
    jobs: Seq<Job>,
    bs: Seq<Seq<Job>>,
    cs: Seq<Seq<Job>>,
    g: int,
    a: int,
    max_threads: int,
    max_chars: int,
)
    requires
        0 <= a <= g <= jobs.len(),
        greedy(bs, max_threads, max_chars),
        flatten(bs) == jobs.subrange(g, jobs.len() as int),
        forall|i: int| 0 <= i < cs.len() ==> fits(#[trigger] cs[i], max_threads, max_chars),
        flatten(cs) == jobs.subrange(a, jobs.len() as int),
    ensures
        bs.len() <= cs.len(),
    decreases cs.len(),
{
    let n = jobs.len() as int;
    if bs.len() > 0 {
        lemma_flatten_front(bs);
        assert(fits(bs[0], max_threads, max_chars));
        if cs.len() == 0 {
            assert(flatten(cs).len() == 0);
            assert(flatten(bs).len() >= bs[0].len());
        } else if bs.len() > 1 {
            lemma_flatten_front(cs);
            let b0 = bs[0];
            let c0 = cs[0];
            assert(fits(c0, max_threads, max_chars));
            let g2 = g + b0.len();
            let a2 = a + c0.len();
            let fb = flatten(bs);
            let fc = flatten(cs);
            assert(fb.len() == n - g && fb.len() == b0.len() + flatten(bs.drop_first()).len());
            assert(fc.len() == n - a && fc.len() == c0.len() + flatten(cs.drop_first()).len());
            assert forall|k: int| 0 <= k < b0.len() implies b0[k] == jobs.subrange(g, g2)[k] by {
                assert(fb[k] == b0[k]);
                assert(fb[k] == jobs[g + k]);
            }
            assert forall|k: int| 0 <= k < c0.len() implies c0[k] == jobs.subrange(a, a2)[k] by {
                assert(fc[k] == c0[k]);
                assert(fc[k] == jobs[a + k]);
            }
            assert(b0 =~= jobs.subrange(g, g2));
            assert(c0 =~= jobs.subrange(a, a2));
            let rb = bs.drop_first();
            let rc = cs.drop_first();
            assert forall|k: int| 0 <= k < flatten(rb).len() implies flatten(rb)[k] == jobs.subrange(
                g2,
                n,
            )[k] by {
                assert(fb[b0.len() + k] == flatten(rb)[k]);
                assert(fb[b0.len() + k] == jobs[g2 + k]);
            }
            assert forall|k: int| 0 <= k < flatten(rc).len() implies flatten(rc)[k] == jobs.subrange(
                a2,
                n,
            )[k] by {
                assert(fc[c0.len() + k] == flatten(rc)[k]);
                assert(fc[c0.len() + k] == jobs[a2 + k]);
            }
            assert(flatten(rb) =~= jobs.subrange(g2, n));
            assert(flatten(rc) =~= jobs.subrange(a2, n));
            if g2 < a2 {
                assert(full(bs[0], bs[1], max_threads, max_chars));
                assert(rb[0] == bs[1]);
                assert(fits(rb[0], max_threads, max_chars));
                lemma_flatten_front(rb);
                assert(rb[0].len() > 0);
                assert(flatten(rb)[0] == rb[0][0]);
                assert(flatten(rb)[0] == jobs.subrange(g2, n)[0]);
                assert(bs[1][0] == jobs[g2]);
                let w = jobs.subrange(g, g2 + 1);
                assert(w =~= b0.push(jobs[g2]));
                lemma_total_push(b0, jobs[g2]);
                lemma_total_window(jobs, a, g, g2 + 1, a2);
                assert(false);
            }
            assert forall|i: int| 0 <= i < rc.len() implies fits(
                #[trigger] rc[i],
                max_threads,
                max_chars,
            ) by {
                assert(rc[i] == cs[i + 1]);
            }
            assert forall|i: int| 0 <= i < rb.len() implies fits(
                #[trigger] rb[i],
                max_threads,
                max_chars,
            ) by {
                assert(rb[i] == bs[i + 1]);
            }
            assert forall|i: int| 0 <= i < rb.len() - 1 implies full(
                #[trigger] rb[i],
                rb[i + 1],
                max_threads,
                max_chars,
            ) by {
                assert(rb[i] == bs[i + 1] && rb[i + 1] == bs[i + 2]);
                assert(full(bs[i + 1], bs[i + 2], max_threads, max_chars));
            }
            lemma_greedy_ahead(jobs, rb, rc, g2, a2, max_threads, max_chars);
        }
    }
}

/// Greedy batching makes the fewest batches: no cut of the same jobs, in
/// order, into batches within the limits has fewer.
pub proof fn lemma_greedy_fewest(
    bs: Seq<Seq<Job>>,
    cs: Seq<Seq<Job>>,
    max_threads: int,
    max_chars: int,
)
    requires
        greedy(bs, max_threads, max_chars),
        forall|i: int| 0 <= i < cs.len() ==> fits(#[trigger] cs[i], max_threads, max_chars),
        flatten(cs) == flatten(bs),
    ensures
        bs.len() <= cs.len(),
{
    let jobs = flatten(bs);
    assert(jobs.subrange(0, jobs.len() as int) =~= jobs);
    lemma_greedy_ahead(jobs, bs, cs, 0, 0, max_threads, max_chars);
}

proof fn lemma_one_batch(jobs: Seq<Job>, bs: Seq<Seq<Job>>, max_threads: int, max_chars: int)
    requires
        greedy(bs, max_threads, max_chars),
        flatten(bs) == jobs,
        0 < jobs.len() <= max_threads,
        total_size(jobs) <= max_chars,
    ensures
        bs.len() == 1,
{
    if bs.len() == 0 {
        assert(flatten(bs).len() == 0);
    } else if bs.len() > 1 {
        lemma_flatten_front(bs);
        let rb = bs.drop_first();
        lemma_flatten_front(rb);
        let b0 = bs[0];
        assert(rb[0] == bs[1]);
        assert(fits(bs[1], max_threads, max_chars));
        assert(full(bs[0], bs[1], max_threads, max_chars));
        let n = b0.len() as int;
        assert(jobs.len() == n + flatten(rb).len());
        assert(flatten(rb).len() == bs[1].len() + flatten(rb.drop_first()).len());
        assert forall|x: int| 0 <= x < n implies jobs[x] == b0[x] by {}
        assert(jobs[n] == flatten(rb)[0]);
        assert(flatten(rb)[0] == bs[1][0]);
        let w = jobs.subrange(0, n + 1);
        assert(w =~= b0.push(bs[1][0]));
        lemma_total_push(b0, bs[1][0]);
        lemma_total_window(jobs, 0, 0, n + 1, jobs.len() as int);
        assert(jobs.subrange(0, jobs.len() as int) =~= jobs);
    }
}

/// The first pass takes up to 100 jobs and 60,000 characters in one batch,
/// later passes up to 6 jobs and 9,000 characters: jobs within those limits
/// are sent in exactly one batch.
pub proof fn lemma_small_sets_are_one_batch(model: Seq<char>, jobs: Seq<Job>, bs: Seq<Seq<Job>>)
    requires
        greedy(bs, limits(model).0, limits(model).1),
        flatten(bs) == jobs,
        jobs.len() > 0,
        model == INITIAL_MODEL@ ==> jobs.len() <= 100 && total_size(jobs) <= 60_000,
        model != INITIAL_MODEL@ ==> jobs.len() <= 6 && total_size(jobs) <= 9_000,
    ensures
        bs.len() == 1,
{
    lemma_one_batch(jobs, bs, limits(model).0, limits(model).1);
}

/// Every batch keeps within its model's limits: for the first-pass model at
/// most 100 jobs and, unless it is a single job, at most 60,000 characters;
/// for any other model at most 6 jobs and 9,000 characters.
pub proof fn lemma_batch_limits(model: Seq<char>, bs: Seq<Seq<Job>>)
    requires
        greedy(bs, limits(model).0, limits(model).1),
    ensures
        forall|i: int|
            0 <= i < bs.len() ==> #[trigger] bs[i].len() > 0 && (model == INITIAL_MODEL@ ==> bs[i].len()
                <= 100 && (bs[i].len() == 1 || total_size(bs[i]) <= 60_000)) && (model
                != INITIAL_MODEL@ ==> bs[i].len() <= 6 && (bs[i].len() == 1 || total_size(bs[i])
                <= 9_000)),
{
    assert forall|i: int| 0 <= i < bs.len() implies #[trigger] bs[i].len() > 0 && (model
        == INITIAL_MODEL@ ==> bs[i].len() <= 100 && (bs[i].len() == 1 || total_size(bs[i])
        <= 60_000)) && (model != INITIAL_MODEL@ ==> bs[i].len() <= 6 && (bs[i].len() == 1
        || total_size(bs[i]) <= 9_000)) by {
        assert(fits(bs[i], limits(model).0, limits(model).1));
    }
}

/// Cuts `jobs`, in order, into the batches sent to `model`: each batch as
/// large as the model's job and character limits allow.
pub fn batches(model: &str, jobs: Vec<Job>) -> (r: Vec<Vec<Job>>)
    requires
        forall|i: int| 0 <= i < jobs.len() ==> job_size(#[trigger] jobs@[i]) <= usize::MAX / 2,
    ensures
        flatten(batch_views(r@)) == jobs@,
        greedy(batch_views(r@), limits(model@).0, limits(model@).1),
{
    let m = to_chars(model);
    let initial = is_text(&m, INITIAL_MODEL);
    let max_threads: usize = if initial {
        100
    } else {
        6
    };
    let max_chars: usize = if initial {
        60_000
    } else {
        9_000
    };
    assert(max_threads == limits(model@).0 && max_chars == limits(model@).1);
    let ghost all = jobs@;
    let total = jobs.len();
    let mut out: Vec<Vec<Job>> = Vec::new();
    let mut batch: Vec<Job> = Vec::new();
    let mut chars: usize = 0;
    let mut source = jobs;
    let mut rest: Vec<Job> = Vec::new();
    while source.len() > 0
        invariant
            source.len() + rest.len() == all.len(),
            source@ == all.take(source.len() as int),
            forall|i: int| 0 <= i < rest.len() ==> #[trigger] rest@[i] == all[all.len() - 1 - i],
        decreases source.len(),
    {
        let ghost before = source@;
        let j = source.pop().unwrap();
        assert(source@ =~= all.take(source.len() as int));
        rest.push(j);
    }
    let mut k: usize = 0;
    assert(flatten(batch_views(out@)) =~= Seq::<Job>::empty());
    while rest.len() > 0
        invariant
            k + rest.len() == all.len(),
            all.len() == total,
            forall|i: int| 0 <= i < rest.len() ==> #[trigger] rest@[i] == all[all.len() - 1 - i],
            forall|i: int| 0 <= i < all.len() ==> job_size(#[trigger] all[i]) <= usize::MAX / 2,
            max_threads == limits(model@).0,
            max_chars == limits(model@).1,
            max_threads <= 100,
            max_chars <= 60_000,
            flatten(batch_views(out@)) + batch@ == all.take(k as int),
            greedy(batch_views(out@), max_threads as int, max_chars as int),
            chars == total_size(batch@),
            batch.len() <= max_threads,
            batch.len() <= 1 || total_size(batch@) <= max_chars,
            out.len() > 0 ==> batch.len() > 0,
            out.len() > 0 ==> full(out@.last()@, batch@, max_threads as int, max_chars as int),
            chars <= usize::MAX / 2,
        decreases rest.len(),
    {
        let job = rest.pop().unwrap();
        assert(job == all[k as int]);
        let size = job_chars(&job);
        proof {
            lemma_total_nonneg(batch@);
        }
        if batch.len() > 0 && (batch.len() == max_threads || chars + size > max_chars) {
            let ghost closed = batch@;
            let ghost before = batch_views(out@);
            proof {
                lemma_flatten_push(before, closed);
            }
            let mut full_batch: Vec<Job> = Vec::new();
            std::mem::swap(&mut full_batch, &mut batch);
            out.push(full_batch);
            assert(batch_views(out@) =~= before.push(closed));
            chars = 0;
        }
        proof {
            lemma_total_push(batch@, job);
        }
        chars = chars + size;
        let ghost prev = batch@;
        batch.push(job);
        assert(all.take(k + 1) =~= all.take(k as int).push(job));
        assert(batch@ =~= prev.push(job));
        if out.len() > 0 {
            assert(batch@[0] == prev.push(job)[0]);
        }
        k += 1;
    }
    assert(all.take(k as int) =~= all);
    if batch.len() > 0 {
        let ghost before = batch_views(out@);
        proof {
            lemma_flatten_push(before, batch@);
        }
        out.push(batch);
        assert(batch_views(out@) =~= before.push(out@.last()@));
    } else {
        assert(batch@ =~= Seq::<Job>::empty());
        assert(flatten(batch_views(out@)) + Seq::<Job>::empty() =~= flatten(batch_views(out@)));
    }
    out
}

} // verus!

verus! {

/// The instructions that open every labelling prompt.
pub open spec fn prompt_header() -> Seq<char> {
    "Label each Codex conversation for a /resume index. Return exactly one item per ID. Each label is one concrete sentence fragment, at most 12 words, naming the work and current point. CURRENT ACTIVITY overrides PRIOR and BACKGROUND when they disagree. No generic phrases such as 'discussion about', no IDs inside labels, no markdown.\n"@
}

/// The part of the prompt that presents one job.
pub open spec fn job_block(j: Job) -> Seq<char> {
    "\nID "@ + j.id@ + match j.prior {
        Some(p) => "\nPRIOR "@ + p@,
        None => seq![],
    } + "\nCONVERSATION\n"@ + j.capsule@ + seq!['\n']
}

/// The blocks presenting each job, in order.
pub open spec fn job_blocks(jobs: Seq<Job>) -> Seq<char>
    decreases jobs.len(),
{
    if jobs.len() == 0 {
        seq![]
    } else {
        job_blocks(jobs.drop_last()) + job_block(jobs.last())
    }
}

/// The prompt that asks the model to label `jobs`.
pub open spec fn prompt_of(jobs: Seq<Job>) -> Seq<char> {
    prompt_header() + job_blocks(jobs)
}

fn append(s: &mut String, t: &str)
    ensures
        final(s)@ == old(s)@ + t@,
{
    s.append(t);
}

/// The prompt sent to the model for one batch: the labelling instructions,
/// then each job's ID, prior label and capsule.
pub fn label_prompt(jobs: &Vec<Job>) -> (r: String)
    ensures
        r@ == prompt_of(jobs@),
{
    let mut prompt = String::from_str(
        "Label each Codex conversation for a /resume index. Return exactly one item per ID. Each label is one concrete sentence fragment, at most 12 words, naming the work and current point. CURRENT ACTIVITY overrides PRIOR and BACKGROUND when they disagree. No generic phrases such as 'discussion about', no IDs inside labels, no markdown.\n",
    );
    let mut i: usize = 0;
    while i < jobs.len()
        invariant
            i <= jobs.len(),
            prompt@ == prompt_header() + job_blocks(jobs@.take(i as int)),
        decreases jobs.len() - i,
    {
        let job = &jobs[i];
        let ghost start = prompt@;
        append(&mut prompt, "\nID ");
        append(&mut prompt, job.id.as_str());
        match &job.prior {
            Some(p) => {
                append(&mut prompt, "\nPRIOR ");
                append(&mut prompt, p.as_str());
            },
            None => {},
        }
        append(&mut prompt, "\nCONVERSATION\n");
        append(&mut prompt, job.capsule.as_str());
        append(&mut prompt, "\n");
        proof {
            reveal_strlit("\n");
        }
        assert(jobs@.take(i + 1).drop_last() =~= jobs@.take(i as int));
        assert(prompt@ =~= start + job_block(jobs@[i as int]));
        i += 1;
    }
    assert(jobs@.take(jobs.len() as int) =~= jobs@);
    prompt
}

} // verus!

verus! {

/// One label the model returned.
pub struct ModelLabel {
    pub id: String,
    pub label: String,
}

/// Why a model's answer was refused.
#[derive(Debug, PartialEq, Eq, Structural)]
pub enum LabelSetError {
    /// Some job got no usable label.
    Incomplete,
}

impl LabelSetError {
    /// The message the error is reported with.
    pub fn message(&self) -> (r: &'static str)
        ensures
            r@ == "model returned an incomplete label set"@,
    {
        "model returned an incomplete label set"
    }
}

/// Whether some job has the ID `id`.
pub open spec fn has_job(jobs: Seq<Job>, id: Seq<char>) -> bool {
    exists|i: int| 0 <= i < jobs.len() && #[trigger] jobs[i].id@ == id
}

/// The labels the model's items give, by job ID: an item counts when its ID
/// is a job's and its normalised label is not empty; a later item for the
/// same ID replaces an earlier one.
pub open spec fn label_map(items: Seq<ModelLabel>, jobs: Seq<Job>) -> Map<Seq<char>, Seq<char>>
    decreases items.len(),
{
    if items.len() == 0 {
        Map::empty()
    } else {
        let before = label_map(items.drop_last(), jobs);
        let it = items.last();
        if has_job(jobs, it.id@) && normalized(it.label@).len() > 0 {
            before.insert(it.id@, normalized(it.label@))
        } else {
            before
        }
    }
}

/// The map that (ID, label) pairs spell out.
pub open spec fn pairs_map(v: Seq<(String, String)>) -> Map<Seq<char>, Seq<char>>
    decreases v.len(),
{
    if v.len() == 0 {
        Map::empty()
    } else {
        pairs_map(v.drop_last()).insert(v.last().0@, v.last().1@)
    }
}

/// No ID occurs twice among the pairs.
pub open spec fn unique_ids(v: Seq<(String, String)>) -> bool {
    forall|i: int, j: int| 0 <= i < j < v.len() ==> v[i].0@ != v[j].0@
}

proof fn lemma_pairs_update(v: Seq<(String, String)>, p: int, x: (String, String))
    requires
        unique_ids(v),
        0 <= p < v.len(),
        v[p].0@ == x.0@,
    ensures
        pairs_map(v.update(p, x)) == pairs_map(v).insert(x.0@, x.1@),
        unique_ids(v.update(p, x)),
    decreases v.len(),
{
    let w = v.update(p, x);
    if p == v.len() - 1 {
        assert(w.drop_last() =~= v.drop_last());
        assert(pairs_map(w) =~= pairs_map(v).insert(x.0@, x.1@));
    } else {
        assert(w.drop_last() =~= v.drop_last().update(p, x));
        lemma_pairs_update(v.drop_last(), p, x);
        assert(v.last().0@ != x.0@);
        assert(pairs_map(w) =~= pairs_map(v).insert(x.0@, x.1@));
    }
    assert forall|i: int, j: int| 0 <= i < j < w.len() implies w[i].0@ != w[j].0@ by {
        assert(v[i].0@ != v[j].0@);
    }
}

proof fn lemma_pairs_facts(v: Seq<(String, String)>)
    requires
        unique_ids(v),
    ensures
        pairs_map(v).dom().finite(),
        pairs_map(v).dom().len() == v.len(),
        forall|i: int| 0 <= i < v.len() ==> pairs_map(v).dom().contains(#[trigger] v[i].0@),
        forall|k: Seq<char>|
            pairs_map(v).dom().contains(k) ==> exists|i: int| 0 <= i < v.len() && v[i].0@ == k,
    decreases v.len(),
{
    if v.len() > 0 {
        let d = v.drop_last();
        assert forall|i: int, j: int| 0 <= i < j < d.len() implies d[i].0@ != d[j].0@ by {
            assert(v[i].0@ != v[j].0@);
        }
        lemma_pairs_facts(d);
        assert(!pairs_map(d).dom().contains(v.last().0@)) by {
            if pairs_map(d).dom().contains(v.last().0@) {
                let i = choose|i: int| 0 <= i < d.len() && d[i].0@ == v.last().0@;
                assert(v[i].0@ != v[v.len() - 1].0@);
            }
        }
        assert forall|i: int| 0 <= i < v.len() implies pairs_map(v).dom().contains(
            #[trigger] v[i].0@,
        ) by {
            if i < d.len() {
                assert(d[i] == v[i]);
            }
        }
        assert forall|k: Seq<char>| pairs_map(v).dom().contains(k) implies exists|i: int|
            0 <= i < v.len() && v[i].0@ == k by {
            if k != v.last().0@ {
                let i = choose|i: int| 0 <= i < d.len() && d[i].0@ == k;
                assert(v[i] == d[i]);
            } else {
                assert(v[v.len() - 1].0@ == k);
            }
        }
    }
}

fn job_index(jobs: &Vec<Job>, id: &Vec<char>) -> (r: bool)
    ensures
        r == has_job(jobs@, id@),
{
    let mut i: usize = 0;
    while i < jobs.len()
        invariant
            i <= jobs.len(),
            forall|j: int| 0 <= j < i ==> jobs@[j].id@ != id@,
        decreases jobs.len() - i,
    {
        let candidate = to_chars(jobs[i].id.as_str());
        if same_chars(&candidate, id) {
            return true;
        }
        i += 1;
    }
    false
}

fn pair_index(v: &Vec<(String, String)>, id: &Vec<char>) -> (r: Option<usize>)
    ensures
        match r {
            Some(p) => p < v.len() && v@[p as int].0@ == id@,
            None => forall|j: int| 0 <= j < v.len() ==> v@[j].0@ != id@,
        },
{
    let mut i: usize = 0;
    while i < v.len()
        invariant
            i <= v.len(),
            forall|j: int| 0 <= j < i ==> v@[j].0@ != id@,
        decreases v.len() - i,
    {
        let candidate = to_chars(v[i].0.as_str());
        if same_chars(&candidate, id) {
            return Some(i);
        }
        i += 1;
    }
    None
}

/// The labels of a model answer for `jobs`, as (ID, label) pairs with no ID
/// twice: each item whose ID is a job's and whose normalised label is not
/// empty, later items replacing earlier ones. Refused unless every job got
/// a label.
pub fn collect_labels(jobs: &Vec<Job>, items: Vec<ModelLabel>) -> (r: Result<
    Vec<(String, String)>,
    LabelSetError,
>)
    ensures
        match r {
            Ok(v) => unique_ids(v@) && pairs_map(v@) == label_map(items@, jobs@)
                && label_map(items@, jobs@).dom().len() == jobs.len() && pairs_map(v@).dom()
                == job_ids(jobs@),
            Err(e) => e == LabelSetError::Incomplete && label_map(items@, jobs@).dom().len()
                != jobs.len(),
        },
        distinct_jobs(jobs@) ==> (r is Err <==> exists|i: int|
            0 <= i < jobs.len() && !label_map(items@, jobs@).dom().contains(
                #[trigger] jobs@[i].id@,
            )),
{
    let ghost all = items@;
    let mut labels: Vec<(String, String)> = Vec::new();
    let mut rest: Vec<ModelLabel> = Vec::new();
    let mut source = items;
    while source.len() > 0
        invariant
            source.len() + rest.len() == all.len(),
            source@ == all.take(source.len() as int),
            forall|i: int| 0 <= i < rest.len() ==> #[trigger] rest@[i] == all[all.len() - 1 - i],
        decreases source.len(),
    {
        let it = source.pop().unwrap();
        assert(source@ =~= all.take(source.len() as int));
        rest.push(it);
    }
    let total = rest.len();
    let mut k: usize = 0;
    assert(pairs_map(labels@) =~= label_map(all.take(0), jobs@));
    while rest.len() > 0
        invariant
            k + rest.len() == all.len(),
            all.len() == total,
            forall|i: int| 0 <= i < rest.len() ==> #[trigger] rest@[i] == all[all.len() - 1 - i],
            unique_ids(labels@),
            pairs_map(labels@) == label_map(all.take(k as int), jobs@),
        decreases rest.len(),
    {
        let it = rest.pop().unwrap();
        assert(it == all[k as int]);
        assert(all.take(k + 1).drop_last() =~= all.take(k as int));
        let id = to_chars(it.id.as_str());
        let label = normalize_label(it.label.as_str());
        if job_index(jobs, &id) && !label.as_str().is_empty() {
            match pair_index(&labels, &id) {
                Some(p) => {
                    proof {
                        lemma_pairs_update(labels@, p as int, (it.id, label));
                    }
                    labels.set(p, (it.id, label));
                },
                None => {
                    let ghost before = labels@;
                    labels.push((it.id, label));
                    assert(labels@.drop_last() =~= before);
                    assert forall|i: int, j: int| 0 <= i < j < labels@.len() implies labels@[i].0@
                        != labels@[j].0@ by {
                        if j == labels@.len() - 1 {
                            assert(before[i].0@ != id@);
                        } else {
                            assert(before[i].0@ != before[j].0@);
                        }
                    }
                },
            }
        } else {
            assert(!(has_job(jobs@, it.id@) && normalized(it.label@).len() > 0)) by {
                if has_job(jobs@, it.id@) && normalized(it.label@).len() > 0 {
                    assert(label@.len() > 0);
                }
            }
        }
        k += 1;
    }
    assert(all.take(k as int) =~= all);
    proof {
        lemma_pairs_facts(labels@);
    }
    if labels.len() != jobs.len() {
        proof {
            if distinct_jobs(jobs@) {
                lemma_refused_misses_a_job(all, jobs@);
            }
        }
        return Err(LabelSetError::Incomplete);
    }
    proof {
        lemma_accepted_ids(all, jobs@);
        lemma_accepted_labels_complete(all, jobs@);
    }
    Ok(labels)
}

} // verus!

verus! {

/// The IDs of `jobs`.
pub open spec fn job_ids(jobs: Seq<Job>) -> Set<Seq<char>> {
    jobs.map_values(|j: Job| j.id@).to_set()
}

proof fn lemma_label_map_dom(items: Seq<ModelLabel>, jobs: Seq<Job>)
    ensures
        label_map(items, jobs).dom().finite(),
        forall|k: Seq<char>| label_map(items, jobs).dom().contains(k) ==> has_job(jobs, k),
    decreases items.len(),
{
    if items.len() > 0 {
        lemma_label_map_dom(items.drop_last(), jobs);
    }
}

/// A label set that is accepted labels every job: when the answer has as
/// many labelled IDs as there are jobs, each job's ID is labelled.
pub proof fn lemma_accepted_labels_complete(items: Seq<ModelLabel>, jobs: Seq<Job>)
    requires
        label_map(items, jobs).dom().len() == jobs.len(),
    ensures
        forall|i: int|
            0 <= i < jobs.len() ==> label_map(items, jobs).dom().contains(#[trigger] jobs[i].id@),
{
    broadcast use vstd::seq_lib::seq_to_set_is_finite;

    let dom = label_map(items, jobs).dom();
    let ids = job_ids(jobs);
    let names = jobs.map_values(|j: Job| j.id@);
    lemma_label_map_dom(items, jobs);
    assert forall|k: Seq<char>| dom.contains(k) implies ids.contains(k) by {
        assert(has_job(jobs, k));
        let i = choose|i: int| 0 <= i < jobs.len() && #[trigger] jobs[i].id@ == k;
        assert(names[i] == k);
        assert(names.contains(k));
    }
    names.lemma_cardinality_of_set();
    vstd::set_lib::lemma_len_subset(dom, ids);
    vstd::set_lib::lemma_subset_equality(dom, ids);
    assert forall|i: int| 0 <= i < jobs.len() implies dom.contains(#[trigger] jobs[i].id@) by {
        assert(names[i] == jobs[i].id@);
        assert(names.contains(jobs[i].id@));
    }
}


proof fn lemma_blocks_hold(jobs: Seq<Job>, i: int)
    requires
        0 <= i < jobs.len(),
    ensures
        infix(job_blocks(jobs), job_block(jobs[i])),
    decreases jobs.len(),
{
    let d = jobs.drop_last();
    let b = job_block(jobs[i]);
    if i == jobs.len() - 1 {
        let k = job_blocks(d).len() as int;
        assert(job_blocks(jobs).subrange(k, k + b.len()) =~= b);
        assert(occurs_at(job_blocks(jobs), b, k));
    } else {
        lemma_blocks_hold(d, i);
        assert(d[i] == jobs[i]);
        let k = choose|k: int| occurs_at(job_blocks(d), b, k);
        assert(job_blocks(jobs).subrange(k, k + b.len()) =~= job_blocks(d).subrange(k, k + b.len()));
        assert(occurs_at(job_blocks(jobs), b, k));
    }
}

/// The prompt presents every job: its ID, its prior label when it has one,
/// and its capsule, in one block.
pub proof fn lemma_prompt_holds_jobs(jobs: Seq<Job>)
    ensures
        forall|i: int| 0 <= i < jobs.len() ==> infix(prompt_of(jobs), job_block(#[trigger] jobs[i])),
{
    assert forall|i: int| 0 <= i < jobs.len() implies infix(
        prompt_of(jobs),
        job_block(#[trigger] jobs[i]),
    ) by {
        lemma_blocks_hold(jobs, i);
        let b = job_block(jobs[i]);
        let k = choose|k: int| occurs_at(job_blocks(jobs), b, k);
        let h = prompt_header().len() as int;
        assert(prompt_of(jobs).subrange(h + k, h + k + b.len()) =~= job_blocks(jobs).subrange(
            k,
            k + b.len(),
        ));
        assert(occurs_at(prompt_of(jobs), b, h + k));
    }
}

/// No two jobs share an ID.
pub open spec fn distinct_jobs(jobs: Seq<Job>) -> bool {
    forall|i: int, j: int| 0 <= i < j < jobs.len() ==> #[trigger] jobs[i].id@ != #[trigger] jobs[j].id@
}

/// When no two jobs share an ID, an answer is refused only when it leaves
/// some job without a label.
pub proof fn lemma_refused_misses_a_job(items: Seq<ModelLabel>, jobs: Seq<Job>)
    requires
        distinct_jobs(jobs),
        label_map(items, jobs).dom().len() != jobs.len(),
    ensures
        exists|i: int| 0 <= i < jobs.len() && !label_map(items, jobs).dom().contains(
            #[trigger] jobs[i].id@,
        ),
{
    broadcast use vstd::seq_lib::seq_to_set_is_finite;

    let dom = label_map(items, jobs).dom();
    let names = jobs.map_values(|j: Job| j.id@);
    lemma_label_map_dom(items, jobs);
    assert(names.no_duplicates()) by {
        assert forall|i: int, j: int| 0 <= i < names.len() && 0 <= j < names.len() && i != j implies names[i]
            != names[j] by {
            if i < j {
                assert(jobs[i].id@ != jobs[j].id@);
            } else {
                assert(jobs[j].id@ != jobs[i].id@);
            }
        }
    }
    names.unique_seq_to_set();
    if forall|i: int| 0 <= i < jobs.len() ==> dom.contains(#[trigger] jobs[i].id@) {
        assert forall|k: Seq<char>| dom.contains(k) == job_ids(jobs).contains(k) by {
            if dom.contains(k) {
                assert(has_job(jobs, k));
                let i = choose|i: int| 0 <= i < jobs.len() && #[trigger] jobs[i].id@ == k;
                assert(names[i] == k);
            }
            if job_ids(jobs).contains(k) {
                let i = choose|i: int| 0 <= i < names.len() && names[i] == k;
                assert(jobs[i].id@ == k);
            }
        }
        assert(dom =~= job_ids(jobs));
        assert(false);
    }
}

/// An accepted answer labels exactly the IDs of its jobs.
proof fn lemma_accepted_ids(items: Seq<ModelLabel>, jobs: Seq<Job>)
    requires
        label_map(items, jobs).dom().len() == jobs.len(),
    ensures
        label_map(items, jobs).dom() == job_ids(jobs),
{
    let dom = label_map(items, jobs).dom();
    let names = jobs.map_values(|j: Job| j.id@);
    lemma_accepted_labels_complete(items, jobs);
    lemma_label_map_dom(items, jobs);
    assert forall|k: Seq<char>| dom.contains(k) == job_ids(jobs).contains(k) by {
        if dom.contains(k) {
            assert(has_job(jobs, k));
            let i = choose|i: int| 0 <= i < jobs.len() && #[trigger] jobs[i].id@ == k;
            assert(names[i] == k);
        }
        if job_ids(jobs).contains(k) {
            let i = choose|i: int| 0 <= i < names.len() && names[i] == k;
            assert(jobs[i].id@ == k);
        }
    }
    assert(dom =~= job_ids(jobs));
}

} // verus!

verus! {

/// Whether a job's size leaves room to add another in `usize`.
pub fn job_size_fits(job: &Job) -> (r: bool)
    ensures
        r == (job_size(*job) <= usize::MAX / 2),
{
    let c = to_chars(job.capsule.as_str()).len();
    let p = match &job.prior {
        Some(p) => to_chars(p.as_str()).len(),
        None => 0,
    };
    c <= usize::MAX / 2 && p <= usize::MAX / 2 - c
}

} // verus!
