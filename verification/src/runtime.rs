//! The small decisions of the labelling runtime: where its state lives,
//! which Codex binary it runs, locks, cache generations, pending activity,
//! label lookup and the size estimate.
use vstd::prelude::*;
use crate::chars::{is_text, opt_text, same_chars, to_chars};
use crate::evidence::CAPSULE_CHARS;
use crate::jobs::pairs_map;
use crate::text::{activity_label, compact, compact_text, provisional_label, strip_images, stripped};

verus! {

/// The most bytes read from the end of a rollout file.
pub const TAIL_BYTES: u64 = 65_536;

/// How long a refresh lock holds before another run may take it, in seconds.
pub const LOCK_TTL_SECONDS: i64 = 21_600;

/// The cache generation this runtime writes.
pub const CAPSULE_GENERATION: &'static str = "source-ladder-v2";

/// Where the Codex home comes from.
#[derive(Debug, PartialEq, Eq, Structural)]
pub enum HomeSource {
    /// The `CODEX_HOME` variable.
    CodexHome,
    /// `.codex` in the `HOME` variable.
    HomeDotCodex,
}

/// Where the Codex home and the plugin data come from.
#[derive(Debug, PartialEq, Eq, Structural)]
pub struct PathsPlan {
    pub home: HomeSource,
    /// The `PLUGIN_DATA` variable, rather than the plugin's directory under
    /// the Codex home.
    pub plugin_data_from_env: bool,
}

/// Why the runtime's paths could not be found.
#[derive(Debug, PartialEq, Eq, Structural)]
pub enum PathsError {
    /// Neither `CODEX_HOME` nor `HOME` is set.
    NoHome,
}

impl PathsError {
    /// The message the error is reported with.
    pub fn message(&self) -> (r: &'static str)
        ensures
            r@ == "cannot locate CODEX_HOME"@,
    {
        "cannot locate CODEX_HOME"
    }
}

/// Where the state lives, given which of `CODEX_HOME`, `HOME` and
/// `PLUGIN_DATA` are set: `CODEX_HOME` before `HOME/.codex`, and
/// `PLUGIN_DATA` before the plugin's directory in the Codex home.
pub fn paths_plan(codex_home_set: bool, home_set: bool, plugin_data_set: bool) -> (r: Result<
    PathsPlan,
    PathsError,
>)
    ensures
        match r {
            Ok(p) => (codex_home_set || home_set) && p.home == (if codex_home_set {
                HomeSource::CodexHome
            } else {
                HomeSource::HomeDotCodex
            }) && p.plugin_data_from_env == plugin_data_set,
            Err(e) => e == PathsError::NoHome && !codex_home_set && !home_set,
        },
{
    let home = if codex_home_set {
        HomeSource::CodexHome
    } else if home_set {
        HomeSource::HomeDotCodex
    } else {
        return Err(PathsError::NoHome);
    };
    Ok(PathsPlan { home, plugin_data_from_env: plugin_data_set })
}

/// The first candidate path that is a file, else `codex` from the search
/// path.
pub open spec fn codex_choice(candidates: Seq<(String, bool)>) -> Seq<char>
    decreases candidates.len(),
{
    if candidates.len() == 0 {
        "codex"@
    } else if candidates[0].1 {
        candidates[0].0@
    } else {
        codex_choice(candidates.drop_first())
    }
}

/// The stock Codex binary to run: the first of the candidate paths (with
/// whether each is a file) that is a file, else `codex`.
pub fn choose_codex(candidates: &Vec<(String, bool)>) -> (r: String)
    ensures
        r@ == codex_choice(candidates@),
{
    let mut i: usize = 0;
    assert(candidates@.skip(0) =~= candidates@);
    while i < candidates.len()
        invariant
            i <= candidates.len(),
            codex_choice(candidates@) == codex_choice(candidates@.skip(i as int)),
        decreases candidates.len() - i,
    {
        assert(candidates@.skip(i as int)[0] == candidates@[i as int]);
        if candidates[i].1 {
            return candidates[i].0.clone();
        }
        assert(candidates@.skip(i as int).drop_first() =~= candidates@.skip(i + 1));
        i += 1;
    }
    String::from_str("codex")
}

#[verifier::external_type_specification]
#[verifier::external_body]
pub struct ExSystemTime(std::time::SystemTime);

/// `SystemTime::now`: the system clock's time now; nothing is promised of it.
pub assume_specification[ std::time::SystemTime::now ]() -> std::time::SystemTime;

/// `Duration::as_secs`: the whole seconds of a duration; nothing is promised
/// of them.
pub assume_specification[ core::time::Duration::as_secs ](d: &core::time::Duration) -> u64;

/// `SystemTime::duration_since(UNIX_EPOCH)`: how long after the epoch `t`
/// is, `None` when it is earlier; nothing more is promised of it.
#[verifier::external_body]
fn since_epoch(t: &std::time::SystemTime) -> (r: Option<core::time::Duration>) {
    t.duration_since(std::time::UNIX_EPOCH).ok()
}

/// The Unix time for the whole seconds a clock reading lies after the
/// epoch (`None` when it lies before): those seconds as an `i64`, or zero.
pub fn unix_seconds(seconds: Option<u64>) -> (r: i64)
    ensures
        r == match seconds {
            Some(s) => s as i64,
            None => 0i64,
        },
{
    match seconds {
        Some(s) => s as i64,
        None => 0,
    }
}

/// The current Unix time in whole seconds, zero when the clock is set
/// before the epoch.
pub fn unix_time() -> (r: i64) {
    let now = std::time::SystemTime::now();
    let seconds = match since_epoch(&now) {
        Some(d) => Some(d.as_secs()),
        None => None,
    };
    unix_seconds(seconds)
}

/// The acquisition time before which a refresh lock is stale at time `now`.
pub fn stale_lock_cutoff(now: i64) -> (r: i64)
    requires
        now >= i64::MIN + LOCK_TTL_SECONDS,
    ensures
        r == now - LOCK_TTL_SECONDS,
{
    now - LOCK_TTL_SECONDS
}

/// Whether the cache was written by another capsule generation and its
/// summaries must be dropped.
pub fn cache_needs_reset(generation: Option<&str>) -> (r: bool)
    ensures
        r == (opt_text(generation) != Some(CAPSULE_GENERATION@)),
{
    match generation {
        Some(g) => !is_text(&to_chars(g), CAPSULE_GENERATION),
        None => true,
    }
}

/// What a submitted prompt records: the prompt without images, squashed to
/// `CAPSULE_CHARS` characters, and the provisional label shown meanwhile.
pub struct ActivityUpdate {
    /// The activity queued until the next refresh.
    pub queued: String,
    /// The provisional label.
    pub label: String,
}

/// A prompt submitted in a session, as the prompt hook receives it.
pub struct ActivityEvent {
    pub session_id: String,
    pub prompt: String,
}

/// The pending activity a submitted prompt queues: nothing when its
/// provisional label is empty (trivial or tool-injected prompts).
pub fn activity_update(event: &ActivityEvent) -> (r: Option<ActivityUpdate>)
    ensures
        ({
            let queued = compact(stripped(event.prompt@), CAPSULE_CHARS as int);
            let label = activity_label(queued);
            if label.len() == 0 {
                r is None
            } else {
                r matches Some(u) && u.queued@ == queued && u.label@ == label
            }
        }),
{
    let stripped = strip_images(event.prompt.as_str());
    let queued = compact_text(stripped.as_str(), CAPSULE_CHARS);
    let label = provisional_label(queued.as_str());
    if label.as_str().is_empty() {
        None
    } else {
        Some(ActivityUpdate { queued, label })
    }
}

proof fn lemma_pairs_lookup(v: Seq<(String, String)>, k: int, id: Seq<char>)
    requires
        0 <= k <= v.len(),
        forall|j: int| k <= j < v.len() ==> v[j].0@ != id,
    ensures
        pairs_map(v).dom().contains(id) == pairs_map(v.take(k)).dom().contains(id),
        pairs_map(v).dom().contains(id) ==> pairs_map(v)[id] == pairs_map(v.take(k))[id],
    decreases v.len() - k,
{
    if k == v.len() {
        assert(v.take(k) =~= v);
    } else {
        assert(v.drop_last().take(k) =~= v.take(k));
        lemma_pairs_lookup(v.drop_last(), k, id);
    }
}

/// The label a model answer gave the job `id`; a later pair for the same ID
/// replaces an earlier one.
pub fn label_for(labels: &Vec<(String, String)>, id: &str) -> (r: Option<String>)
    ensures
        match r {
            Some(l) => pairs_map(labels@).dom().contains(id@) && pairs_map(labels@)[id@] == l@,
            None => !pairs_map(labels@).dom().contains(id@),
        },
{
    let wanted = to_chars(id);
    let mut k: usize = labels.len();
    while k > 0
        invariant
            k <= labels.len(),
            wanted@ == id@,
            forall|j: int| k <= j < labels.len() ==> labels@[j].0@ != id@,
        decreases k,
    {
        let pair = &labels[k - 1];
        assert(*pair == labels@[k - 1]);
        let key = to_chars(pair.0.as_str());
        assert(key@ == labels@[k - 1].0@);
        assert(wanted@ == id@);
        if same_chars(&key, &wanted) {
            proof {
                lemma_pairs_lookup(labels@, k as int, id@);
                let t = labels@.take(k as int);
                assert(t.drop_last() =~= labels@.take(k - 1));
                assert(t.last() == labels@[k - 1]);
            }
            let label = pair.1.clone();
            assert(pairs_map(labels@.take(k as int)) == pairs_map(labels@.take(k - 1)).insert(
                id@,
                label@,
            ));
            return Some(label);
        }
        assert(labels@[k - 1].0@ != id@);
        k -= 1;
    }
    proof {
        lemma_pairs_lookup(labels@, 0, id@);
    }
    None
}

/// What the size estimate has counted so far.
pub struct Estimate {
    /// Conversations that yield a capsule.
    pub count: usize,
    /// Bytes of their rollout tails, each at most `TAIL_BYTES`.
    pub bytes: u64,
}

impl Estimate {
    pub fn new() -> (r: Estimate)
        ensures
            r.count == 0 && r.bytes == 0,
    {
        Estimate { count: 0, bytes: 0 }
    }

    /// Counts one conversation: when it yields a capsule it is counted, and
    /// so is its rollout's length, up to `TAIL_BYTES`, when the file's
    /// length is known.
    pub fn add(&mut self, labelable: bool, file_len: Option<u64>)
        requires
            labelable ==> old(self).count < usize::MAX,
            labelable ==> old(self).bytes <= u64::MAX - TAIL_BYTES,
        ensures
            final(self).count == old(self).count + if labelable {
                1int
            } else {
                0int
            },
            final(self).bytes == old(self).bytes + if labelable && file_len is Some {
                if file_len->0 < TAIL_BYTES {
                    file_len->0 as int
                } else {
                    TAIL_BYTES as int
                }
            } else {
                0int
            },
    {
        if labelable {
            self.count = self.count + 1;
            match file_len {
                Some(n) => {
                    let part = if n < TAIL_BYTES {
                        n
                    } else {
                        TAIL_BYTES
                    };
                    self.bytes = self.bytes + part;
                },
                None => {},
            }
        }
    }

    /// The most capsule characters the counted conversations can send.
    pub fn capsule_chars(&self) -> (r: usize)
        requires
            self.count * CAPSULE_CHARS <= usize::MAX,
        ensures
            r == self.count * CAPSULE_CHARS,
    {
        self.count * CAPSULE_CHARS
    }
}

} // verus!
