//! The memo store: action key to result.
//!
//! One rule, and it is load bearing: only passing results are written. The output of a model node
//! is one sample from a distribution, and a memo write makes that one sample permanent for every
//! future run with the same inputs, on every machine sharing the cache.

use crate::engine::report::copy_digests;
use crate::identity::ActionKey;
use crate::identity::Attribution;
use crate::identity::Digest;
use crate::identity::NodeKey;
use crate::identity::Verdict;
use vstd::prelude::*;

verus! {

/// A remembered result.
pub struct MemoEntry {
    pub action: ActionKey,
    /// The logical node that produced this, kept for provenance and debugging.
    pub node_key: NodeKey,
    pub outputs: Vec<Digest>,
    /// Content hash of the subgraph this node computed, when it delegated to one. Cached with
    /// the node so that a hit on a planner rebuilds the plan without calling the planner.
    pub expansion: Option<Digest>,
    pub attribution: Attribution,
    /// Wall time of the original computation. A hit reports this as "time saved".
    pub duration_ms: u64,
    pub recorded_at_unix_ms: u64,
}

/// What a node produced, as it goes to the memo.
pub struct Produced<'a> {
    pub node_key: &'a NodeKey,
    pub verdict: Verdict,
    pub outputs: &'a Vec<Digest>,
    pub attribution: Attribution,
    pub duration_ms: u64,
    pub expansion: Option<Digest>,
}

/// The counters of a memo store. They wrap round at 64 bits.
pub struct MemoStore {
    pub hits: u64,
    pub misses: u64,
}

impl MemoStore {
    pub fn new() -> (r: Self)
        ensures
            r.hits == 0,
            r.misses == 0,
    {
        MemoStore { hits: 0, misses: 0 }
    }

    /// What to write for a result: nothing, if its verdict did not pass.
    pub fn put(&self, action: ActionKey, p: &Produced<'_>, now_ms: u64) -> (r: Option<MemoEntry>)
        ensures
            r is Some <==> p.verdict is Pass,
            r matches Some(e) ==> {
                &&& e.action == action
                &&& e.node_key@ == p.node_key@
                &&& e.outputs@ == p.outputs@
                &&& e.expansion == p.expansion
                &&& e.attribution == p.attribution
                &&& e.duration_ms == p.duration_ms
                &&& e.recorded_at_unix_ms == now_ms
            },
    {
        if !p.verdict.passed() {
            return None;
        }
        Some(
            MemoEntry {
                action,
                node_key: p.node_key.clone(),
                outputs: copy_digests(p.outputs),
                expansion: p.expansion,
                attribution: p.attribution,
                duration_ms: p.duration_ms,
                recorded_at_unix_ms: now_ms,
            },
        )
    }

    /// Counts a look-up by whether it found something. A probe by the eta walk is not cache traffic
    /// and is not counted.
    pub fn get(&mut self, found: bool)
        ensures
            final(self).hits == if found {
                if old(self).hits == u64::MAX {
                    0
                } else {
                    (old(self).hits + 1) as u64
                }
            } else {
                old(self).hits
            },
            final(self).misses == if found {
                old(self).misses
            } else {
                if old(self).misses == u64::MAX {
                    0
                } else {
                    (old(self).misses + 1) as u64
                }
            },
    {
        if found {
            self.hits = self.hits.wrapping_add(1);
        } else {
            self.misses = self.misses.wrapping_add(1);
        }
    }

    /// Hits and misses.
    pub fn counters(&self) -> (r: (u64, u64))
        ensures
            r == (self.hits, self.misses),
    {
        (self.hits, self.misses)
    }
}

} // verus!
