//! Duration history: the last wall times per logical node key.
//!
//! A node run against changed inputs has a brand new action key every time, but its cost is a
//! property of the step, not of the bytes it happened to consume. Failures are recorded too: they
//! cost real time, and an eta that ignores the retry path lies.

use crate::figures::order;
use crate::figures::ordered;
use crate::figures::percentile;
use crate::figures::percentile_of;
use crate::identity::NodeKey;
use crate::maps::NameMap;
use vstd::prelude::*;

verus! {

/// How many samples to keep per node.
pub const RING: usize = 20;

/// What the samples of a node say.
#[derive(Clone, Copy, Debug, PartialEq, Eq, Structural)]
pub struct Stats {
    pub p50_ms: u64,
    pub p90_ms: u64,
    pub samples: usize,
}

/// The samples with one more: the last ones, oldest first.
pub open spec fn with_sample(s: Seq<u64>, ms: u64) -> Seq<u64> {
    let all = s.push(ms);
    if all.len() > RING {
        all.skip(all.len() - RING)
    } else {
        all
    }
}

/// What samples say; nothing where there are none. Nothing is reported as unknown rather than
/// guessed: a made up eta trains the user to ignore the number.
pub open spec fn stats_of(s: Seq<u64>) -> Option<Stats> {
    if s.len() == 0 {
        None
    } else {
        Some(
            Stats {
                p50_ms: percentile_of(ordered(s), 50),
                p90_ms: percentile_of(ordered(s), 90),
                samples: s.len() as usize,
            },
        )
    }
}

/// What samples say.
pub fn summarise(samples: &Vec<u64>) -> (r: Option<Stats>)
    ensures
        r == stats_of(samples@),
{
    if samples.len() == 0 {
        return None;
    }
    let sorted = order(samples);
    Some(
        Stats {
            p50_ms: percentile(&sorted, 50),
            p90_ms: percentile(&sorted, 90),
            samples: samples.len(),
        },
    )
}

/// Drops all but the last samples.
fn keep_last(v: &mut Vec<u64>)
    ensures
        final(v)@ == if old(v)@.len() > RING {
            old(v)@.skip(old(v)@.len() - RING)
        } else {
            old(v)@
        },
{
    let ghost all = v@;
    let ghost mut gone: int = 0;
    assert(all.skip(0) =~= all);
    while v.len() > RING
        invariant
            0 <= gone,
            gone == 0 || all.len() - gone >= RING,
            gone <= all.len(),
            v@ == all.skip(gone),
        decreases v@.len(),
    {
        v.remove(0);
        proof {
            assert(v@ =~= all.skip(gone + 1));
            gone = gone + 1;
        }
    }
}

/// The wall times in memory. The durable copy is a file for each node.
pub struct History {
    pub cache: NameMap<Vec<u64>>,
}

/// What the cache holds.
pub open spec fn samples(m: Map<Seq<char>, Vec<u64>>) -> Map<Seq<char>, Seq<u64>> {
    m.map_values(|v: Vec<u64>| v@)
}

/// The samples of a node: those in memory, or else those of its file.
pub open spec fn current(m: Map<Seq<char>, Seq<u64>>, key: Seq<char>, stored: Seq<u64>) -> Seq<u64> {
    if m.contains_key(key) {
        m[key]
    } else {
        stored
    }
}

impl History {
    pub open spec fn wf(&self) -> bool {
        self.cache.wf()
    }

    pub fn new() -> (r: Self)
        ensures
            r.wf(),
            samples(r.cache@) == Map::<Seq<char>, Seq<u64>>::empty(),
    {
        let h = History { cache: NameMap::empty() };
        assert(samples(h.cache@) =~= Map::<Seq<char>, Seq<u64>>::empty());
        h
    }

    /// Is a node's history in memory?
    pub fn knows(&self, key: &NodeKey) -> (r: bool)
        requires
            self.wf(),
        ensures
            r == samples(self.cache@).contains_key(key@),
    {
        self.cache.contains_key(key.as_str())
    }

    /// The samples of a node: those in memory, or else those of its file.
    fn current(&self, key: &NodeKey, stored: &Vec<u64>) -> (r: Vec<u64>)
        requires
            self.wf(),
        ensures
            r@ == current(samples(self.cache@), key@, stored@),
    {
        match self.cache.get(key.as_str()) {
            Some(v) => vstd::slice::slice_to_vec(v.as_slice()),
            None => vstd::slice::slice_to_vec(stored.as_slice()),
        }
    }

    /// The samples of a node with one wall time more, to be written to its file. `stored` is what
    /// the file holds; it counts where nothing is in memory.
    pub fn extended(&self, key: &NodeKey, duration_ms: u64, stored: &Vec<u64>) -> (r: Vec<u64>)
        requires
            self.wf(),
        ensures
            r@ == with_sample(current(samples(self.cache@), key@, stored@), duration_ms),
    {
        let mut v = self.current(key, stored);
        v.push(duration_ms);
        keep_last(&mut v);
        v
    }

    /// Appends one wall time, once the node's file holds it too. What comes back is what the file
    /// holds then.
    pub fn record(&mut self, key: &NodeKey, duration_ms: u64, stored: &Vec<u64>) -> (r: Vec<u64>)
        requires
            old(self).wf(),
        ensures
            final(self).wf(),
            r@ == with_sample(current(samples(old(self).cache@), key@, stored@), duration_ms),
            samples(final(self).cache@) == samples(old(self).cache@).insert(key@, r@),
    {
        let v = self.extended(key, duration_ms, stored);
        let ghost was = self.cache@;
        let copy = vstd::slice::slice_to_vec(v.as_slice());
        self.cache.insert(key.as_str().to_owned(), copy);
        assert(samples(self.cache@) =~= samples(was).insert(key@, v@));
        v
    }

    /// What a node's samples say, or nothing when there is no history.
    pub fn stats(&mut self, key: &NodeKey, stored: &Vec<u64>) -> (r: Option<Stats>)
        requires
            old(self).wf(),
        ensures
            final(self).wf(),
            r == stats_of(current(samples(old(self).cache@), key@, stored@)),
            samples(final(self).cache@) == samples(old(self).cache@).insert(
                key@,
                current(samples(old(self).cache@), key@, stored@),
            ),
    {
        let v = self.current(key, stored);
        let r = summarise(&v);
        let ghost was = self.cache@;
        let ghost vv = v@;
        self.cache.insert(key.as_str().to_owned(), v);
        assert(samples(self.cache@) =~= samples(was).insert(key@, vv));
        r
    }
}

/// The samples after a run of them.
pub open spec fn with_samples(s: Seq<u64>, more: Seq<u64>) -> Seq<u64>
    decreases more.len(),
{
    if more.len() == 0 {
        s
    } else {
        with_sample(with_samples(s, more.drop_last()), more.last())
    }
}

/// The ring keeps the last samples and no other: after any run of samples, exactly the last
/// twenty of them, or all where there are fewer.
pub proof fn law_the_ring_keeps_the_last_samples(more: Seq<u64>)
    ensures
        with_samples(Seq::empty(), more) == if more.len() > RING {
            more.skip(more.len() - RING)
        } else {
            more
        },
    decreases more.len(),
{
    if more.len() > 0 {
        let d = more.drop_last();
        law_the_ring_keeps_the_last_samples(d);
        let s = with_samples(Seq::empty(), d);
        let all = s.push(more.last());
        if more.len() > RING {
            if d.len() > RING {
                assert(all =~= more.skip(d.len() - RING));
                assert(all.skip(1) =~= more.skip(more.len() - RING));
            } else {
                assert(all =~= more);
            }
        } else {
            assert(all =~= more);
        }
    } else {
        assert(more =~= Seq::<u64>::empty());
    }
}

} // verus!
