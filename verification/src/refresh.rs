//! Whether a cached label is kept, seeded from fresh evidence, or sent to
//! the model again.
use vstd::prelude::*;
use crate::chars::{opt_text, same_chars, to_chars};
use crate::evidence::Evidence;
use crate::jobs::Job;

verus! {

/// What to do with a conversation whose label is already cached.
#[derive(Debug, PartialEq, Eq, Structural)]
pub enum RefreshDecision {
    /// Keep the cached label; only the bookkeeping is refreshed.
    Reuse,
    /// Keep the cached label and record the extracted activity.
    Seed,
    /// Ask the model for a new label.
    Relabel,
}

/// The decision for a cached activity `cached`, whether the rollout file
/// is unchanged, whether a prompt is pending, and the activity `extracted`
/// from the rollout now.
pub open spec fn decide(cached: Seq<char>, same_fingerprint: bool, pending: bool, extracted: Seq<
    char,
>) -> RefreshDecision {
    if cached.len() != 0 && (extracted.len() == 0 || extracted == cached) {
        RefreshDecision::Reuse
    } else if !pending && same_fingerprint && cached.len() == 0 {
        RefreshDecision::Seed
    } else {
        RefreshDecision::Relabel
    }
}

/// Decides whether a cached label survives: it is reused while the
/// activity is unchanged or unknown, seeded when nothing changed but no
/// activity was recorded yet, and relabelled otherwise.
pub fn refresh_decision(cached: &str, same_fingerprint: bool, pending: bool, extracted: &str) -> (r:
    RefreshDecision)
    ensures
        r == decide(cached@, same_fingerprint, pending, extracted@),
{
    let c = to_chars(cached);
    let e = to_chars(extracted);
    if c.len() != 0 && (e.len() == 0 || same_chars(&e, &c)) {
        RefreshDecision::Reuse
    } else if !pending && same_fingerprint && c.len() == 0 {
        RefreshDecision::Seed
    } else {
        RefreshDecision::Relabel
    }
}

/// A cached label is kept only while the activity is unknown or unchanged:
/// a new, different activity is always relabelled, whatever the rollout's
/// fingerprint and whether a prompt is pending; and a label is only seeded
/// when nothing changed, nothing is pending and no activity was recorded.
pub proof fn lemma_new_activity_relabels(
    cached: Seq<char>,
    same_fingerprint: bool,
    pending: bool,
    extracted: Seq<char>,
)
    ensures
        cached.len() != 0 && extracted.len() != 0 && extracted != cached ==> decide(
            cached,
            same_fingerprint,
            pending,
            extracted,
        ) == RefreshDecision::Relabel,
        decide(cached, same_fingerprint, pending, extracted) == RefreshDecision::Reuse ==> cached.len()
            != 0 && (extracted.len() == 0 || extracted == cached),
        decide(cached, same_fingerprint, pending, extracted) == RefreshDecision::Seed ==> !pending
            && same_fingerprint && cached.len() == 0,
        cached.len() != 0 && (extracted.len() == 0 || extracted == cached) ==> decide(
            cached,
            same_fingerprint,
            pending,
            extracted,
        ) == RefreshDecision::Reuse,
        !pending && same_fingerprint && cached.len() == 0 ==> decide(
            cached,
            same_fingerprint,
            pending,
            extracted,
        ) == RefreshDecision::Seed,
{
}

} // verus!

verus! {

/// Which file a rollout is, and how long it was.
#[derive(Clone, Copy, Debug, PartialEq, Eq, Structural)]
pub struct Fingerprint {
    pub dev: i64,
    pub inode: i64,
    pub length: i64,
}

/// A conversation's cached label, with the rollout it was made from.
pub struct CachedSummary {
    pub fingerprint: Fingerprint,
    pub label: String,
    pub activity: String,
}

/// Whether a prompt is pending: one was queued and it is not empty.
pub open spec fn is_pending(pending: Option<Seq<char>>) -> bool {
    match pending {
        Some(p) => p.len() != 0,
        None => false,
    }
}

fn pending_now(pending: Option<&str>) -> (r: bool)
    ensures
        r == is_pending(opt_text(pending)),
{
    match pending {
        Some(p) => !p.is_empty(),
        None => false,
    }
}

/// The cached label to show again without reading the rollout: there is one,
/// nothing is pending, the rollout is unchanged and an activity is recorded.
pub fn cached_projection(
    cached: Option<&CachedSummary>,
    fingerprint: Fingerprint,
    pending: Option<&str>,
) -> (r: Option<String>)
    ensures
        match cached {
            Some(c) => if !is_pending(opt_text(pending)) && c.fingerprint == fingerprint
                && c.activity@.len() != 0 {
                r matches Some(l) && l@ == c.label@
            } else {
                r is None
            },
            None => r is None,
        },
{
    match cached {
        Some(c) => {
            let quiet = !pending_now(pending) && c.fingerprint == fingerprint;
            if quiet && !c.activity.as_str().is_empty() {
                Some(c.label.clone())
            } else {
                None
            }
        },
        None => None,
    }
}

/// What happens to a conversation once its evidence is read.
pub enum RowPlan {
    /// Keep the cached label; record the fingerprint and this activity.
    Keep { label: String, activity: String },
    /// Label it in the first pass over the archive.
    Initial(Job),
    /// Label it as a changed conversation.
    Changed(Job),
}

/// The activity recorded when a cached label is kept: the extracted one,
/// else the cached one.
pub open spec fn effective(extracted: Seq<char>, cached: Seq<char>) -> Seq<char> {
    if extracted.len() == 0 {
        cached
    } else {
        extracted
    }
}

/// The plan for a conversation with evidence `evidence`: a cached label is
/// kept unless the refresh decision is to relabel; otherwise a job is made,
/// for the first pass when nothing was cached during the first pass, and
/// for the changed pass otherwise.
pub fn row_plan(
    id: String,
    path: String,
    fingerprint: Fingerprint,
    cached: Option<CachedSummary>,
    pending: Option<&str>,
    evidence: Evidence,
    bootstrap: bool,
) -> (r: RowPlan)
    ensures
        match cached {
            Some(c) => {
                let eff = effective(evidence.activity@, c.activity@);
                if decide(
                    c.activity@,
                    c.fingerprint == fingerprint,
                    is_pending(opt_text(pending)),
                    eff,
                ) != RefreshDecision::Relabel {
                    r matches RowPlan::Keep { label, activity } && label@ == c.label@
                        && activity@ == eff
                } else {
                    r matches RowPlan::Changed(job) && job.id == id && job.path == path && job.dev
                        == fingerprint.dev && job.inode == fingerprint.inode && job.length
                        == fingerprint.length && job.capsule == evidence.capsule && job.activity
                        == evidence.activity && job.prior == Some(c.label)
                }
            },
            None => {
                let job = Job {
                    id,
                    path,
                    dev: fingerprint.dev,
                    inode: fingerprint.inode,
                    length: fingerprint.length,
                    capsule: evidence.capsule,
                    activity: evidence.activity,
                    prior: None,
                };
                if bootstrap {
                    r == RowPlan::Initial(job)
                } else {
                    r == RowPlan::Changed(job)
                }
            },
        },
{
    let prior = match cached {
        Some(c) => {
            let cached_activity = c.activity;
            let eff = if evidence.activity.as_str().is_empty() {
                cached_activity.clone()
            } else {
                evidence.activity.clone()
            };
            let decision = refresh_decision(
                cached_activity.as_str(),
                c.fingerprint == fingerprint,
                pending_now(pending),
                eff.as_str(),
            );
            if decision != RefreshDecision::Relabel {
                return RowPlan::Keep { label: c.label, activity: eff };
            }
            Some(c.label)
        },
        None => None,
    };
    let has_prior = prior.is_some();
    let job = Job {
        id,
        path,
        dev: fingerprint.dev,
        inode: fingerprint.inode,
        length: fingerprint.length,
        capsule: evidence.capsule,
        activity: evidence.activity,
        prior,
    };
    if has_prior || !bootstrap {
        RowPlan::Changed(job)
    } else {
        RowPlan::Initial(job)
    }
}

} // verus!

verus! {

/// A recorded activity that is confirmed or unknown keeps its label: the
/// decision is to reuse whatever the fingerprint and pending state.
pub proof fn lemma_known_activity_is_reused(
    cached: Seq<char>,
    same_fingerprint: bool,
    pending: bool,
    extracted: Seq<char>,
)
    requires
        cached.len() != 0,
        extracted.len() == 0 || extracted == cached,
    ensures
        decide(cached, same_fingerprint, pending, extracted) == RefreshDecision::Reuse,
{
}

/// A label is only seeded from an unchanged rollout with nothing pending.
pub proof fn lemma_seed_only_when_quiet(
    cached: Seq<char>,
    same_fingerprint: bool,
    pending: bool,
    extracted: Seq<char>,
)
    requires
        decide(cached, same_fingerprint, pending, extracted) == RefreshDecision::Seed,
    ensures
        same_fingerprint && !pending && cached.len() == 0,
{
}

} // verus!
