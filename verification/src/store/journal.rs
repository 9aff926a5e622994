//! Per-task append-only journal: which nodes are done, so that a crash resumes at the graph
//! frontier and not from zero.

use crate::identity::ActionKey;
use crate::identity::Attribution;
use crate::identity::Digest;
use crate::identity::NodeKey;
use crate::maps::NameMap;
use crate::text::from_chars;
use crate::text::lines;
use crate::text::lines_of;
use crate::text::texts;
use crate::text::to_chars;
use crate::text::trim;
use crate::text::trim_of;
use crate::wording::alnum;
use crate::wording::is_alnum;
use vstd::prelude::*;

verus! {

/// One completed node.
pub struct JournalEntry {
    pub node_key: NodeKey,
    pub action: ActionKey,
    pub outputs: Vec<Digest>,
    /// True when this node was served from the memo store with zero work.
    pub hit: bool,
    pub duration_ms: u64,
    pub attribution: Attribution,
    pub at_unix_ms: u64,
}

/// A character that a file name may hold, in the place of any other.
pub open spec fn safe_char(c: char) -> char {
    if is_alnum(c) || c == '-' || c == '_' {
        c
    } else {
        '_'
    }
}

/// A task's id as a file name.
pub open spec fn file_of(task: Seq<char>) -> Seq<char> {
    task.map_values(|c: char| safe_char(c)) + ".jsonl"@
}

/// A task's id with underscores for what a file name should not hold.
pub fn sanitize(s: &str) -> (r: String)
    ensures
        r@ == s@.map_values(|c: char| safe_char(c)),
{
    let v = to_chars(s);
    let ghost all = s@.map_values(|c: char| safe_char(c));
    let mut out: Vec<char> = Vec::new();
    let mut i: usize = 0;
    assert(out@ =~= all.take(0));
    while i < v.len()
        invariant
            i <= v@.len(),
            v@ == s@,
            all == s@.map_values(|c: char| safe_char(c)),
            out@ == all.take(i as int),
        decreases v@.len() - i,
    {
        let c = v[i];
        let k = if alnum(c) || c == '-' || c == '_' { c } else { '_' };
        out.push(k);
        assert(all.take(i + 1) =~= all.take(i as int).push(all[i as int]));
        i += 1;
    }
    assert(all.take(i as int) =~= all);
    from_chars(out.as_slice())
}

/// One task's journal, by the name of its file.
pub struct Journal {
    pub file: String,
}

impl Journal {
    /// The journal of a task.
    pub fn open(task_id: &str) -> (r: Self)
        ensures
            r.file@ == file_of(task_id@),
    {
        let mut file = sanitize(task_id);
        file.push_str(".jsonl");
        Journal { file }
    }
}

/// The lines of a journal that say something.
pub open spec fn told(v: Seq<Seq<char>>) -> Seq<Seq<char>>
    decreases v.len(),
{
    if v.len() == 0 {
        Seq::empty()
    } else {
        let rest = told(v.drop_last());
        if trim_of(v.last()).len() > 0 {
            rest.push(v.last())
        } else {
            rest
        }
    }
}

/// The lines of a journal that say something, in order.
pub fn journal_lines(text: &str) -> (r: Vec<String>)
    ensures
        texts(r@) == told(lines_of(text@)),
{
    let v = lines(text);
    let ghost all = texts(v@);
    let mut out: Vec<String> = Vec::new();
    let mut i: usize = 0;
    assert(texts(out@) =~= told(all.take(0)));
    while i < v.len()
        invariant
            i <= v@.len(),
            all == texts(v@),
            texts(out@) == told(all.take(i as int)),
        decreases v@.len() - i,
    {
        let ghost was = texts(out@);
        proof {
            let nn = all.take(i + 1);
            assert(nn.drop_last() =~= all.take(i as int));
            assert(nn.last() == v@[i as int]@);
        }
        let t = trim(v[i].as_str());
        if to_chars(t.as_str()).len() > 0 {
            out.push(v[i].clone());
            assert(texts(out@) =~= was.push(all[i as int]));
        }
        i += 1;
    }
    assert(all.take(i as int) =~= all);
    out
}

/// How many lines, from the front, could be read.
pub open spec fn intact(v: Seq<Option<JournalEntry>>) -> int
    decreases v.len(),
{
    if v.len() == 0 || v[0] is None {
        0
    } else {
        1 + intact(v.skip(1))
    }
}

impl Journal {
    /// What a journal replays, given what its lines say: everything up to the first line that could not
    /// be read. A torn last line after a crash is expected, and does not fail the run.
    pub fn replay(v: Vec<Option<JournalEntry>>) -> (r: Vec<JournalEntry>)
        ensures
            r@.len() == intact(v@),
            forall|i: int| 0 <= i < r@.len() ==> v@[i] == Some(#[trigger] r@[i]),
    {
        let ghost all = v@;
        let mut v = v;
        let mut out: Vec<JournalEntry> = Vec::new();
        let mut open = true;
        assert(all.skip(0) =~= all);
        while open && v.len() > 0
            invariant
                out@.len() <= all.len(),
                open ==> v@ == all.skip(out@.len() as int),
                open ==> intact(all) == out@.len() + intact(v@),
                !open ==> intact(all) == out@.len(),
                forall|i: int| 0 <= i < out@.len() ==> all[i] == Some(#[trigger] out@[i]),
            decreases v@.len(),
        {
            let ghost now = v@;
            let ghost n = out@.len();
            let first = v.remove(0);
            assert(v@ =~= now.skip(1));
            match first {
                Some(e) => {
                    assert(all[n as int] == now[0]);
                    out.push(e);
                    assert(v@ =~= all.skip(n as int + 1));
                },
                None => {
                    open = false;
                },
            }
        }
        out
    }
}

/// What a journal replays is a prefix of what was appended: everything before the first line that
/// could not be read, and all of it where each line could.
pub proof fn law_a_replay_stops_at_the_first_torn_line(v: Seq<Option<JournalEntry>>)
    ensures
        0 <= intact(v) <= v.len(),
        forall|i: int| 0 <= i < intact(v) ==> (#[trigger] v[i]) is Some,
        intact(v) < v.len() ==> v[intact(v)] is None,
    decreases v.len(),
{
    if v.len() > 0 && v[0] is Some {
        law_a_replay_stops_at_the_first_torn_line(v.skip(1));
        assert forall|i: int| 0 <= i < intact(v) implies (#[trigger] v[i]) is Some by {
            if i > 0 {
                assert(v.skip(1)[i - 1] == v[i]);
            }
        }
        if intact(v) < v.len() {
            assert(v.skip(1)[intact(v) - 1] == v[intact(v)]);
        }
    }
}

/// Where a run of completed nodes got to: for each node, the last time it completed.
pub open spec fn got_to(v: Seq<JournalEntry>) -> Map<Seq<char>, JournalEntry>
    decreases v.len(),
{
    if v.len() == 0 {
        Map::empty()
    } else {
        got_to(v.drop_last()).insert(v.last().node_key@, v.last())
    }
}

/// Where an interrupted task got to.
pub struct Frontier {
    pub entries: NameMap<JournalEntry>,
}

impl Frontier {
    pub open spec fn wf(&self) -> bool {
        self.entries.wf()
    }

    /// Where the task whose journal replays these entries got to.
    pub fn of(v: Vec<JournalEntry>) -> (r: Self)
        ensures
            r.wf(),
            r.entries@ == got_to(v@),
    {
        let ghost all = v@;
        let mut v = v;
        let mut m: NameMap<JournalEntry> = NameMap::empty();
        let ghost mut n: int = 0;
        assert(all.skip(0) =~= all);
        assert(all.take(0) =~= Seq::<JournalEntry>::empty());
        while v.len() > 0
            invariant
                0 <= n <= all.len(),
                v@ == all.skip(n),
                m.wf(),
                m@ == got_to(all.take(n)),
            decreases v@.len(),
        {
            let ghost now = v@;
            let e = v.remove(0);
            proof {
                assert(v@ =~= now.skip(1));
                assert(v@ =~= all.skip(n + 1));
                let nn = all.take(n + 1);
                assert(nn.drop_last() =~= all.take(n));
                assert(nn.last() == e);
                n = n + 1;
            }
            let name = e.node_key.as_str().to_owned();
            m.insert(name, e);
        }
        assert(all.take(n) =~= all);
        Frontier { entries: m }
    }

    /// What a node put out when the task completed it with this very action, where it did.
    pub fn done(&self, key: &NodeKey, action: &ActionKey) -> (r: Option<&JournalEntry>)
        requires
            self.wf(),
        ensures
            match r {
                Some(e) => {
                    &&& self.entries@.contains_key(key@)
                    &&& self.entries@[key@] == *e
                    &&& e.action.0@ == action.0@
                },
                None => !self.entries@.contains_key(key@) || self.entries@[key@].action.0@
                    != action.0@,
            },
    {
        match self.entries.get(key.as_str()) {
            Some(e) => if e.action.0 == action.0 {
                Some(e)
            } else {
                None
            },
            None => None,
        }
    }
}

/// An interrupted task resumes where it got to: a node that was completed is found as it was
/// completed last.
pub proof fn law_a_crash_resumes_at_the_frontier(v: Seq<JournalEntry>, i: int)
    requires
        0 <= i < v.len(),
        forall|k: int| i < k < v.len() ==> (#[trigger] v[k]).node_key@ != v[i].node_key@,
    ensures
        got_to(v).contains_key(v[i].node_key@),
        got_to(v)[v[i].node_key@] == v[i],
    decreases v.len(),
{
    if i < v.len() - 1 {
        let w = v.drop_last();
        assert(w[i] == v[i]);
        assert(v.last() == v[v.len() - 1]);
        assert forall|k: int| i < k < w.len() implies (#[trigger] w[k]).node_key@
            != w[i].node_key@ by {
            assert(w[k] == v[k]);
        }
        law_a_crash_resumes_at_the_frontier(w, i);
    }
}

} // verus!
