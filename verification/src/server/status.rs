//! What a task looks like to a client that comes back later.

use crate::adapter::copy_opt;
use crate::adapter::opt_text;
use crate::adapter::MAX_DIAGNOSTICS;
use crate::engine::report::did_its_work;
use crate::engine::report::has_status;
use crate::engine::report::tally;
use crate::engine::report::NodeReport;
use crate::engine::report::NodeStatus;
use crate::engine::report::RunReport;
use crate::identity::hex_of;
use crate::json::bool_value;
use crate::json::fields;
use crate::json::held;
use crate::json::list_of;
use crate::json::list_value;
use crate::json::null_value;
use crate::json::object_of;
use crate::json::object_value;
use crate::json::text_value;
use crate::json::whole_value;
use crate::json::Json;
use crate::maps::NameMap;
use crate::names::ascending;
use crate::names::before;
use crate::names::lemma_before_asymmetric;
use crate::names::lemma_listed;
use crate::names::listed;
use crate::orchestrator::latest_result;
use crate::orchestrator::result_for;
use crate::sheets::formula::name_texts;
use crate::sheets::workbook::copy_names;
use crate::text::copy_strings;
use crate::text::decimal;
use crate::text::from_chars;
use crate::text::show;
use crate::text::texts;
use crate::text::to_chars;
use vstd::prelude::*;

verus! {

/// How far a task is.
#[derive(Clone, Copy, Debug, PartialEq, Eq, Structural)]
pub enum TaskState {
    Running,
    Done,
    Failed,
}

/// A state in a word.
pub open spec fn state_word(s: TaskState) -> Seq<char> {
    match s {
        TaskState::Running => "running"@,
        TaskState::Done => "done"@,
        TaskState::Failed => "failed"@,
    }
}

impl TaskState {
    /// The state in a word.
    pub fn as_str(&self) -> (r: &'static str)
        ensures
            r@ == state_word(*self),
    {
        match self {
            TaskState::Running => "running",
            TaskState::Done => "done",
            TaskState::Failed => "failed",
        }
    }
}

/// What a finished task did.
pub struct TaskSummary {
    pub wall_ms: u64,
    pub nodes: usize,
    pub computed: usize,
    pub hits: usize,
    pub saved_ms: u64,
    pub first_change_ms: Option<u64>,
    pub green: bool,
    pub diagnostics: Vec<String>,
    /// Path to content hash of the result, for a client that wants to fetch or commit it.
    pub outputs: NameMap<String>,
}

/// A summary as plain values.
#[verifier::ext_equal]
pub struct SummaryView {
    pub wall_ms: u64,
    pub nodes: usize,
    pub computed: usize,
    pub hits: usize,
    pub saved_ms: u64,
    pub first_change_ms: Option<u64>,
    pub green: bool,
    pub diagnostics: Seq<Seq<char>>,
    pub outputs: Map<Seq<char>, Seq<char>>,
}

impl View for TaskSummary {
    type V = SummaryView;

    open spec fn view(&self) -> SummaryView {
        SummaryView {
            wall_ms: self.wall_ms,
            nodes: self.nodes,
            computed: self.computed,
            hits: self.hits,
            saved_ms: self.saved_ms,
            first_change_ms: self.first_change_ms,
            green: self.green,
            diagnostics: texts(self.diagnostics@),
            outputs: name_texts(self.outputs),
        }
    }
}

/// A task, and how far it is.
pub struct TaskStatus {
    pub id: String,
    pub state: TaskState,
    pub instruction: String,
    /// Present once the task has finished.
    pub summary: Option<TaskSummary>,
    pub error: Option<String>,
}

/// A status as plain values.
#[verifier::ext_equal]
pub struct StatusView {
    pub id: Seq<char>,
    pub state: TaskState,
    pub instruction: Seq<char>,
    pub summary: Option<SummaryView>,
    pub error: Option<Seq<char>>,
}

impl View for TaskStatus {
    type V = StatusView;

    open spec fn view(&self) -> StatusView {
        StatusView {
            id: self.id@,
            state: self.state,
            instruction: self.instruction@,
            summary: match self.summary {
                Some(s) => Some(s@),
                None => None,
            },
            error: opt_text(self.error),
        }
    }
}

/// The diagnostics of some nodes, node by node.
pub open spec fn all_diagnostics(nodes: Seq<NodeReport>) -> Seq<Seq<char>>
    decreases nodes.len(),
{
    if nodes.len() == 0 {
        Seq::empty()
    } else {
        all_diagnostics(nodes.drop_last()) + texts(nodes.last().diagnostics@)
    }
}

/// The first of some diagnostics, as many as are kept.
pub open spec fn capped(d: Seq<Seq<char>>) -> Seq<Seq<char>> {
    if d.len() > MAX_DIAGNOSTICS {
        d.take(MAX_DIAGNOSTICS as int)
    } else {
        d
    }
}

/// The results of a run for some files: the hash of each file that it has a result for.
pub open spec fn results(report: RunReport, paths: Seq<Seq<char>>) -> Map<Seq<char>, Seq<char>> {
    Map::new(
        |p: Seq<char>|
            paths.contains(p) && latest_result(report.nodes@, p) < report.nodes@.len(),
        |p: Seq<char>| hex_of(report.nodes@[latest_result(report.nodes@, p)].outputs@[0]@),
    )
}

/// Did a run end well: nothing failed, and nothing was skipped?
pub open spec fn ended_well(report: RunReport) -> bool {
    forall|i: int|
        0 <= i < report.nodes@.len() ==> !((#[trigger] report.nodes@[i]).status is Failed) && !(
        report.nodes@[i].status is Skipped)
}

/// The summary of a run.
pub open spec fn summary_of(report: RunReport, paths: Seq<Seq<char>>) -> SummaryView {
    SummaryView {
        wall_ms: report.wall_ms,
        nodes: report.nodes@.len() as usize,
        computed: tally(report.nodes@, did_its_work()) as usize,
        hits: (tally(report.nodes@, has_status(NodeStatus::Hit)) + tally(
            report.nodes@,
            has_status(NodeStatus::Resumed),
        )) as usize,
        saved_ms: report.saved_ms,
        first_change_ms: report.first_change_ms,
        green: ended_well(report),
        diagnostics: capped(all_diagnostics(report.nodes@)),
        outputs: results(report, paths),
    }
}

/// The first diagnostics of a run, as many as are kept.
fn first_diagnostics(report: &RunReport) -> (r: Vec<String>)
    ensures
        texts(r@) == capped(all_diagnostics(report.nodes@)),
{
    let ghost all = report.nodes@;
    let mut out: Vec<String> = Vec::new();
    let mut i: usize = 0;
    assert(texts(out@) =~= capped(all_diagnostics(all.take(0))));
    while i < report.nodes.len()
        invariant
            i <= report.nodes@.len(),
            all == report.nodes@,
            texts(out@) == capped(all_diagnostics(all.take(i as int))),
        decreases report.nodes@.len() - i,
    {
        let ghost nn = all.take(i + 1);
        assert(nn.drop_last() =~= all.take(i as int));
        assert(nn.last() == report.nodes@[i as int]);
        let d = &report.nodes[i].diagnostics;
        let ghost dv = texts(d@);
        let ghost base = all_diagnostics(all.take(i as int));
        let mut k: usize = 0;
        assert(base + dv.take(0) =~= base);
        while k < d.len()
            invariant
                k <= d@.len(),
                dv == texts(d@),
                texts(out@) == capped(base + dv.take(k as int)),
            decreases d@.len() - k,
        {
            let ghost was = texts(out@);
            let ghost so_far = base + dv.take(k as int);
            assert(base + dv.take(k + 1) =~= so_far.push(dv[k as int]));
            assert(out@.len() == was.len());
            if out.len() < MAX_DIAGNOSTICS {
                out.push(d[k].clone());
                assert(texts(out@) =~= was.push(dv[k as int]));
                assert(texts(out@) =~= capped(base + dv.take(k + 1)));
            } else {
                assert(so_far.push(dv[k as int]).take(MAX_DIAGNOSTICS as int) =~= so_far.take(
                    MAX_DIAGNOSTICS as int,
                ));
                assert(was =~= so_far.take(MAX_DIAGNOSTICS as int));
            }
            k += 1;
        }
        assert(dv.take(k as int) =~= dv);
        i += 1;
    }
    assert(all.take(i as int) =~= all);
    out
}

/// The results of a run for some files.
fn result_hashes(report: &RunReport, paths: &Vec<String>) -> (r: NameMap<String>)
    ensures
        r.wf(),
        name_texts(r) == results(*report, texts(paths@)),
{
    let ghost all = texts(paths@);
    let mut m: NameMap<String> = NameMap::empty();
    let mut i: usize = 0;
    assert(all.take(0) =~= Seq::<Seq<char>>::empty());
    assert(name_texts(m) =~= results(*report, all.take(0)));
    while i < paths.len()
        invariant
            i <= paths@.len(),
            all == texts(paths@),
            m.wf(),
            name_texts(m) == results(*report, all.take(i as int)),
        decreases paths@.len() - i,
    {
        let ghost was = name_texts(m);
        let ghost p = paths@[i as int]@;
        let ghost pre = all.take(i as int);
        let ghost nn = all.take(i + 1);
        proof {
            assert(nn =~= pre.push(p));
            assert forall|x: Seq<char>| #[trigger] nn.contains(x) <==> pre.contains(x) || x == p by {
                if pre.contains(x) {
                    let k = choose|k: int| 0 <= k < pre.len() && pre[k] == x;
                    assert(nn[k] == x);
                }
                assert(nn[i as int] == p);
            }
        }
        match result_for(report, paths[i].as_str()) {
            Some(d) => {
                let h = d.hex();
                let ghost hv = h@;
                m.insert(paths[i].clone(), h);
                assert(name_texts(m) =~= was.insert(p, hv));
                assert(was.insert(p, hv) =~= results(*report, nn));
            },
            None => {
                assert(was =~= results(*report, nn));
            },
        }
        i += 1;
    }
    assert(all.take(i as int) =~= all);
    m
}

impl TaskSummary {
    pub open spec fn wf(&self) -> bool {
        self.outputs.wf()
    }

    /// The summary of a run, with the results for some files.
    pub fn from_report(report: &RunReport, paths: &Vec<String>) -> (r: TaskSummary)
        ensures
            r.wf(),
            r@ == summary_of(*report, texts(paths@)),
    {
        let r = TaskSummary {
            wall_ms: report.wall_ms,
            nodes: report.nodes.len(),
            computed: report.computed(),
            hits: report.hits(),
            saved_ms: report.saved_ms,
            first_change_ms: report.first_change_ms,
            green: report.ok(),
            diagnostics: first_diagnostics(report),
            outputs: result_hashes(report, paths),
        };
        assert(r@ =~= summary_of(*report, texts(paths@)));
        r
    }

    pub fn copy(&self) -> (r: Self)
        requires
            self.wf(),
        ensures
            r.wf(),
            r@ == self@,
    {
        TaskSummary {
            wall_ms: self.wall_ms,
            nodes: self.nodes,
            computed: self.computed,
            hits: self.hits,
            saved_ms: self.saved_ms,
            first_change_ms: self.first_change_ms,
            green: self.green,
            diagnostics: copy_strings(&self.diagnostics),
            outputs: copy_names(&self.outputs),
        }
    }
}

impl TaskStatus {
    pub open spec fn wf(&self) -> bool {
        self.summary matches Some(s) ==> s.wf()
    }

    pub fn copy(&self) -> (r: Self)
        requires
            self.wf(),
        ensures
            r.wf(),
            r@ == self@,
    {
        TaskStatus {
            id: self.id.clone(),
            state: self.state,
            instruction: self.instruction.clone(),
            summary: match &self.summary {
                Some(s) => Some(s.copy()),
                None => None,
            },
            error: copy_opt(&self.error),
        }
    }
}

/// The first characters of a hash, enough to read.
pub open spec fn short_hash(h: Seq<char>) -> Seq<char> {
    if h.len() > 12 {
        h.take(12)
    } else {
        h
    }
}

/// The results, one to a line.
pub open spec fn output_lines(names: Seq<Seq<char>>, m: Map<Seq<char>, Seq<char>>) -> Seq<char>
    decreases names.len(),
{
    if names.len() == 0 {
        Seq::empty()
    } else {
        output_lines(names.drop_last(), m) + "\n  "@ + names.last() + " -> "@ + short_hash(
            m[names.last()],
        )
    }
}

/// The diagnostics, one to a line.
pub open spec fn diagnostic_lines(d: Seq<Seq<char>>) -> Seq<char>
    decreases d.len(),
{
    if d.len() == 0 {
        Seq::empty()
    } else {
        diagnostic_lines(d.drop_last()) + "\n  ! "@ + d.last()
    }
}

/// A status as text.
pub open spec fn status_text(s: StatusView) -> Seq<char> {
    match s.summary {
        None => s.id + " ["@ + state_word(s.state) + "]"@ + (match s.error {
            Some(e) => ": "@ + e,
            None => Seq::empty(),
        }),
        Some(sum) => s.id + " ["@ + (if sum.green {
            "green"@
        } else {
            "red"@
        }) + "] "@ + decimal(sum.wall_ms as nat) + " ms, "@ + decimal(sum.computed as nat)
            + " computed, "@ + decimal(sum.hits as nat) + " hit, "@ + decimal(sum.saved_ms as nat)
            + " ms saved"@ + output_lines(listed(sum.outputs.dom()), sum.outputs)
            + diagnostic_lines(sum.diagnostics),
    }
}

fn short(h: &str) -> (r: String)
    ensures
        r@ == short_hash(h@),
{
    let v = to_chars(h);
    if v.len() > 12 {
        let s = vstd::slice::slice_subrange(v.as_slice(), 0, 12);
        assert(s@ =~= h@.take(12));
        from_chars(s)
    } else {
        h.to_owned()
    }
}

proof fn lemma_map_names(m: NameMap<String>)
    requires
        m.wf(),
    ensures
        listed(name_texts(m).dom()) == m.names(),
{
    assert forall|x: Seq<char>| #[trigger] m.names().contains(x) <==> name_texts(
        m,
    ).dom().contains(x) by {}
    lemma_listed(m.names(), name_texts(m).dom());
}

fn write_outputs(m: &NameMap<String>) -> (r: String)
    requires
        m.wf(),
    ensures
        r@ == output_lines(listed(name_texts(*m).dom()), name_texts(*m)),
{
    let ghost ks = m.names();
    let ghost mv = name_texts(*m);
    let mut s = String::new();
    let mut i: usize = 0;
    assert(s@ =~= output_lines(ks.take(0), mv));
    while i < m.entries.len()
        invariant
            i <= m.entries@.len(),
            m.wf(),
            ks == m.names(),
            mv == name_texts(*m),
            s@ == output_lines(ks.take(i as int), mv),
        decreases m.entries@.len() - i,
    {
        let e = &m.entries[i];
        proof {
            m.lemma_at(i as int);
            let nn = ks.take(i + 1);
            assert(nn.drop_last() =~= ks.take(i as int));
            assert(nn.last() == e.0@);
            assert(mv[e.0@] == e.1@);
        }
        s.push_str("\n  ");
        s.push_str(e.0.as_str());
        s.push_str(" -> ");
        s.push_str(short(e.1.as_str()).as_str());
        i += 1;
    }
    proof {
        assert(ks.take(i as int) =~= ks);
        lemma_map_names(*m);
    }
    s
}

fn write_diagnostics(d: &Vec<String>) -> (r: String)
    ensures
        r@ == diagnostic_lines(texts(d@)),
{
    let ghost all = texts(d@);
    let mut s = String::new();
    let mut i: usize = 0;
    assert(s@ =~= diagnostic_lines(all.take(0)));
    while i < d.len()
        invariant
            i <= d@.len(),
            all == texts(d@),
            s@ == diagnostic_lines(all.take(i as int)),
        decreases d@.len() - i,
    {
        let ghost nn = all.take(i + 1);
        assert(nn.drop_last() =~= all.take(i as int));
        assert(nn.last() == d@[i as int]@);
        s.push_str("\n  ! ");
        s.push_str(d[i].as_str());
        i += 1;
    }
    assert(all.take(i as int) =~= all);
    s
}

/// A status as text.
pub fn render_status(s: &TaskStatus) -> (r: String)
    requires
        s.wf(),
    ensures
        r@ == status_text(s@),
{
    match &s.summary {
        None => {
            let mut t = s.id.clone();
            t.push_str(" [");
            t.push_str(s.state.as_str());
            t.push_str("]");
            match &s.error {
                Some(e) => {
                    let ghost was = t@;
                    t.push_str(": ");
                    t.push_str(e.as_str());
                    assert(t@ =~= was + (": "@ + e@));
                },
                None => {
                    assert(t@ =~= t@ + Seq::<char>::empty());
                },
            }
            t
        },
        Some(sum) => {
            let mut t = s.id.clone();
            t.push_str(" [");
            t.push_str(if sum.green { "green" } else { "red" });
            t.push_str("] ");
            t.push_str(show(sum.wall_ms).as_str());
            t.push_str(" ms, ");
            t.push_str(show(sum.computed as u64).as_str());
            t.push_str(" computed, ");
            t.push_str(show(sum.hits as u64).as_str());
            t.push_str(" hit, ");
            t.push_str(show(sum.saved_ms).as_str());
            t.push_str(" ms saved");
            t.push_str(write_outputs(&sum.outputs).as_str());
            t.push_str(write_diagnostics(&sum.diagnostics).as_str());
            t
        },
    }
}

/// An object with these fields.
pub open spec fn object(f: Seq<(Seq<char>, Json)>) -> Json {
    Json::Object(object_of(f))
}

/// A text, or null.
pub open spec fn text_or_null(t: Option<Seq<char>>) -> Json {
    match t {
        Some(s) => Json::Text(s),
        None => Json::Null,
    }
}

/// A number without a sign.
pub open spec fn number(n: nat) -> Json {
    crate::json::number(n as int)
}

/// The fields of a summary, as json.
pub open spec fn summary_fields(s: SummaryView) -> Seq<(Seq<char>, Json)> {
    seq![
        ("wall_ms"@, number(s.wall_ms as nat)),
        ("nodes"@, number(s.nodes as nat)),
        ("computed"@, number(s.computed as nat)),
        ("hits"@, number(s.hits as nat)),
        ("saved_ms"@, number(s.saved_ms as nat)),
        (
            "first_change_ms"@,
            match s.first_change_ms {
                Some(t) => number(t as nat),
                None => Json::Null,
            },
        ),
        ("green"@, Json::Bool(s.green)),
        ("diagnostics"@, list_of(s.diagnostics)),
        ("outputs"@, Json::Object(s.outputs.map_values(|t: Seq<char>| Json::Text(t)))),
    ]
}

/// A summary as json.
pub open spec fn summary_json(s: SummaryView) -> Json {
    object(summary_fields(s))
}

/// The fields of a status, as json.
pub open spec fn status_fields(s: StatusView) -> Seq<(Seq<char>, Json)> {
    seq![
        ("id"@, Json::Text(s.id)),
        ("state"@, Json::Text(state_word(s.state))),
        ("instruction"@, Json::Text(s.instruction)),
        (
            "summary"@,
            match s.summary {
                Some(x) => summary_json(x),
                None => Json::Null,
            },
        ),
        ("error"@, text_or_null(s.error)),
    ]
}

/// A status as json.
pub open spec fn status_json(s: StatusView) -> Json {
    object(status_fields(s))
}

/// Adds a field to a run of them.
pub(crate) fn put(v: &mut Vec<(String, serde_json::Value)>, name: &str, value: serde_json::Value)
    ensures
        fields(final(v)@) == fields(old(v)@).push((name@, held(value))),
{
    let ghost was = fields(v@);
    v.push((name.to_owned(), value));
    assert(fields(v@) =~= was.push((name@, held(value))));
}

/// Fields that are the entries of a map, in the order of its names, make that map.
proof fn lemma_object_of_map(
    f: Seq<(Seq<char>, Json)>,
    names: Seq<Seq<char>>,
    m: Map<Seq<char>, Json>,
)
    requires
        ascending(names),
        f.len() == names.len(),
        forall|i: int| 0 <= i < f.len() ==> #[trigger] f[i] == (names[i], m[names[i]]),
        forall|x: Seq<char>| #[trigger] m.contains_key(x) ==> names.contains(x),
        forall|i: int| 0 <= i < names.len() ==> m.contains_key(#[trigger] names[i]),
    ensures
        object_of(f) == m,
    decreases f.len(),
{
    if f.len() == 0 {
        assert forall|x: Seq<char>| !m.contains_key(x) by {
            if m.contains_key(x) {
                assert(names.contains(x));
            }
        }
        assert(object_of(f) =~= m);
    } else {
        let n = names.drop_last();
        let last = names.last();
        let rest = m.remove(last);
        assert forall|x: Seq<char>| #[trigger] rest.contains_key(x) implies n.contains(x) by {
            assert(m.contains_key(x));
            let k = choose|k: int| 0 <= k < names.len() && names[k] == x;
            assert(n[k] == x);
        }
        assert forall|i: int| 0 <= i < n.len() implies rest.contains_key(#[trigger] n[i]) by {
            assert(names[i] == n[i]);
            assert(before(names[i], names[names.len() - 1]));
            lemma_before_asymmetric(names[i], last);
        }
        assert forall|i: int| 0 <= i < f.drop_last().len() implies #[trigger] f.drop_last()[i] == (
            n[i],
            rest[n[i]],
        ) by {
            assert(f[i] == f.drop_last()[i]);
            assert(rest.contains_key(n[i]));
        }
        lemma_object_of_map(f.drop_last(), n, rest);
        assert(f.last() == f[f.len() - 1]);
        assert(m.contains_key(names[names.len() - 1]));
        assert(rest.insert(last, m[last]) =~= m);
    }
}

fn outputs_value(m: &NameMap<String>) -> (r: serde_json::Value)
    requires
        m.wf(),
    ensures
        held(r) == Json::Object(name_texts(*m).map_values(|t: Seq<char>| Json::Text(t))),
{
    let ghost ks = m.names();
    let ghost mv = name_texts(*m).map_values(|t: Seq<char>| Json::Text(t));
    let mut v: Vec<(String, serde_json::Value)> = Vec::new();
    let mut i: usize = 0;
    while i < m.entries.len()
        invariant
            i <= m.entries@.len(),
            m.wf(),
            ks == m.names(),
            mv == name_texts(*m).map_values(|t: Seq<char>| Json::Text(t)),
            fields(v@).len() == i,
            forall|k: int| 0 <= k < i ==> #[trigger] fields(v@)[k] == (ks[k], mv[ks[k]]),
        decreases m.entries@.len() - i,
    {
        let e = &m.entries[i];
        let ghost was = fields(v@);
        proof {
            m.lemma_at(i as int);
            assert(ks[i as int] == e.0@);
            assert(mv[e.0@] == Json::Text(e.1@));
        }
        put(&mut v, e.0.as_str(), text_value(e.1.as_str()));
        assert forall|k: int| 0 <= k < i + 1 implies #[trigger] fields(v@)[k] == (
            ks[k],
            mv[ks[k]],
        ) by {
            if k < i {
                assert(was[k] == (ks[k], mv[ks[k]]));
            }
        }
        i += 1;
    }
    proof {
        assert forall|k: int| 0 <= k < ks.len() implies mv.contains_key(#[trigger] ks[k]) by {
            m.lemma_at(k);
        }
        lemma_object_of_map(fields(v@), ks, mv);
    }
    object_value(v)
}

fn summary_value(s: &TaskSummary) -> (r: serde_json::Value)
    requires
        s.wf(),
    ensures
        held(r) == summary_json(s@),
{
    let mut v: Vec<(String, serde_json::Value)> = Vec::new();
    put(&mut v, "wall_ms", whole_value(s.wall_ms));
    put(&mut v, "nodes", whole_value(s.nodes as u64));
    put(&mut v, "computed", whole_value(s.computed as u64));
    put(&mut v, "hits", whole_value(s.hits as u64));
    put(&mut v, "saved_ms", whole_value(s.saved_ms));
    put(
        &mut v,
        "first_change_ms",
        match s.first_change_ms {
            Some(t) => whole_value(t),
            None => null_value(),
        },
    );
    put(&mut v, "green", bool_value(s.green));
    put(&mut v, "diagnostics", list_value(&s.diagnostics));
    put(&mut v, "outputs", outputs_value(&s.outputs));
    assert(fields(v@) =~= summary_fields(s@));
    object_value(v)
}

/// A status as json.
pub(crate) fn status_value(s: &TaskStatus) -> (r: serde_json::Value)
    requires
        s.wf(),
    ensures
        held(r) == status_json(s@),
{
    let mut v: Vec<(String, serde_json::Value)> = Vec::new();
    put(&mut v, "id", text_value(s.id.as_str()));
    put(&mut v, "state", text_value(s.state.as_str()));
    put(&mut v, "instruction", text_value(s.instruction.as_str()));
    put(
        &mut v,
        "summary",
        match &s.summary {
            Some(x) => summary_value(x),
            None => null_value(),
        },
    );
    put(
        &mut v,
        "error",
        match &s.error {
            Some(e) => text_value(e.as_str()),
            None => null_value(),
        },
    );
    assert(fields(v@) =~= status_fields(s@));
    object_value(v)
}

} // verus!
