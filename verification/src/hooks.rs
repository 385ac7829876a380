//! Trusting the installed hooks through the app server: which listed hooks
//! are ours, and which JSON-RPC response answers a request.
use vstd::prelude::*;
use crate::chars::{is_text, opt_string, to_chars};

verus! {

/// The plugin ID our hooks are listed under.
pub const PLUGIN_ID: &'static str = "recentlydivorced@recentlydivorced";

/// The fields of one listed hook, each present only when it is a string.
pub struct HookEntry {
    /// `pluginId`.
    pub plugin_id: Option<String>,
    /// `key`.
    pub key: Option<String>,
    /// `currentHash`.
    pub current_hash: Option<String>,
}

/// Why trusting the hooks failed.
#[derive(Debug, PartialEq, Eq, Structural)]
pub enum HookError {
    /// The app server listed none of our hooks.
    NotDiscovered,
}

impl HookError {
    /// The message the error is reported with.
    pub fn message(&self) -> (r: &'static str)
        ensures
            r@ == "RecentlyDivorced hooks were not discovered by stock Codex"@,
    {
        "RecentlyDivorced hooks were not discovered by stock Codex"
    }
}

/// The (key, hash) pair of a listed hook when it is ours and has both.
pub open spec fn hook_pair(h: HookEntry) -> Option<(Seq<char>, Seq<char>)> {
    if opt_string(h.plugin_id) == Some(PLUGIN_ID@) && h.key is Some && h.current_hash is Some {
        Some((h.key->0@, h.current_hash->0@))
    } else {
        None
    }
}

/// The (key, hash) pairs of our hooks among `hooks`, in order.
pub open spec fn hook_pairs(hooks: Seq<HookEntry>) -> Seq<(Seq<char>, Seq<char>)>
    decreases hooks.len(),
{
    if hooks.len() == 0 {
        seq![]
    } else {
        let before = hook_pairs(hooks.drop_last());
        match hook_pair(hooks.last()) {
            Some(p) => before.push(p),
            None => before,
        }
    }
}

/// The views of (key, hash) pairs.
pub open spec fn pair_views(v: Seq<(String, String)>) -> Seq<(Seq<char>, Seq<char>)> {
    v.map_values(|p: (String, String)| (p.0@, p.1@))
}

/// The (key, current hash) pairs of our hooks among the listed ones, in
/// order; refused when there is none.
pub fn trusted_hooks(hooks: &Vec<HookEntry>) -> (r: Result<Vec<(String, String)>, HookError>)
    ensures
        match r {
            Ok(v) => pair_views(v@) == hook_pairs(hooks@) && v@.len() > 0,
            Err(e) => e == HookError::NotDiscovered && hook_pairs(hooks@).len() == 0,
        },
{
    let mut out: Vec<(String, String)> = Vec::new();
    let mut i: usize = 0;
    while i < hooks.len()
        invariant
            i <= hooks.len(),
            pair_views(out@) == hook_pairs(hooks@.take(i as int)),
        decreases hooks.len() - i,
    {
        let h = &hooks[i];
        assert(hooks@.take(i + 1).drop_last() =~= hooks@.take(i as int));
        assert(hooks@.take(i + 1).last() == *h);
        let ours = match &h.plugin_id {
            Some(p) => is_text(&to_chars(p.as_str()), PLUGIN_ID),
            None => false,
        };
        if ours {
            match (&h.key, &h.current_hash) {
                (Some(k), Some(c)) => {
                    out.push((k.clone(), c.clone()));
                    assert(pair_views(out@) =~= hook_pairs(hooks@.take(i + 1)));
                },
                _ => {},
            }
        }
        i += 1;
    }
    assert(hooks@.take(i as int) =~= hooks@);
    if out.len() == 0 {
        return Err(HookError::NotDiscovered);
    }
    Ok(out)
}

/// What a JSON-RPC message read while waiting for a response means.
#[derive(Debug, PartialEq, Eq, Structural)]
pub enum ResponseCheck {
    /// Another message: keep reading.
    Skip,
    /// The response, without an error.
    Accept,
    /// The response, carrying an error.
    Fail,
}

/// What a JSON-RPC message read from the app server says about the request
/// it may answer: its ID, when that is an unsigned number, and whether it
/// has an `error` member.
pub struct RpcReply {
    pub id: Option<u64>,
    pub has_error: bool,
}

/// Whether a message answers request `wanted`, and how.
pub fn response_check(reply: &RpcReply, wanted: u64) -> (r: ResponseCheck)
    ensures
        r == if reply.id != Some(wanted) {
            ResponseCheck::Skip
        } else if reply.has_error {
            ResponseCheck::Fail
        } else {
            ResponseCheck::Accept
        },
{
    match reply.id {
        Some(id) => if id == wanted {
            if reply.has_error {
                ResponseCheck::Fail
            } else {
                ResponseCheck::Accept
            }
        } else {
            ResponseCheck::Skip
        },
        None => ResponseCheck::Skip,
    }
}

} // verus!
