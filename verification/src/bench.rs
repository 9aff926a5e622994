//! Where the wall clock goes, measured over frozen tasks.
//!
//! Model calls are replayed from fixtures, so these runs do not measure model decode time. They
//! measure everything the runtime is responsible for: scheduling, hashing, packing, applying,
//! verifying, and above all what gets skipped.

use crate::adapter::opt_text;
use crate::figures::median;
use crate::figures::median_of;
use crate::figures::p90;
use crate::figures::p90_of;
use crate::figures::total;
use crate::figures::total_of;
use crate::orchestrator::model::rule_views;
use crate::orchestrator::model::ScriptedModel;
use crate::text::decimal;
use crate::text::same;
use crate::text::show;
use crate::text::show_wide;
use crate::text::texts;
use vstd::prelude::*;

verus! {

/// Which levers are switched on.
#[derive(Clone, Copy, Debug, PartialEq, Eq, Structural)]
pub enum Ablation {
    /// Entity ops, nothing else: no ladder, no impact analysis, no cache between runs.
    OpsOnly,
    /// Ops plus the verify ladder.
    OpsLadder,
    /// Ops plus ladder plus impact analysis.
    OpsLadderImpact,
    /// Everything, including the incremental graph and its memo store.
    Full,
}

/// How much of the work was there before.
#[derive(Clone, Copy, Debug, PartialEq, Eq, Structural)]
pub enum Regime {
    Cold,
    Warm,
    Hot,
}

/// The configurations, each with one lever more than the one before.
pub open spec fn ablation_at(i: int) -> Ablation {
    if i == 0 {
        Ablation::OpsOnly
    } else if i == 1 {
        Ablation::OpsLadder
    } else if i == 2 {
        Ablation::OpsLadderImpact
    } else {
        Ablation::Full
    }
}

/// The regimes, in the order in which they are run.
pub open spec fn regime_at(i: int) -> Regime {
    if i == 0 {
        Regime::Cold
    } else if i == 1 {
        Regime::Warm
    } else {
        Regime::Hot
    }
}

/// What a configuration is called.
pub open spec fn ablation_label(a: Ablation) -> Seq<char> {
    match a {
        Ablation::OpsOnly => "ops only"@,
        Ablation::OpsLadder => "ops + ladder"@,
        Ablation::OpsLadderImpact => "ops + ladder + impact"@,
        Ablation::Full => "+ incremental"@,
    }
}

/// What a regime is called.
pub open spec fn regime_label(r: Regime) -> Seq<char> {
    match r {
        Regime::Cold => "cold"@,
        Regime::Warm => "warm"@,
        Regime::Hot => "hot"@,
    }
}

impl Ablation {
    /// The configuration at a place; the last one from there on.
    pub fn at(i: usize) -> (r: Self)
        ensures
            r == ablation_at(i as int),
    {
        if i == 0 {
            Ablation::OpsOnly
        } else if i == 1 {
            Ablation::OpsLadder
        } else if i == 2 {
            Ablation::OpsLadderImpact
        } else {
            Ablation::Full
        }
    }

    pub fn label(&self) -> (r: &'static str)
        ensures
            r@ == ablation_label(*self),
    {
        match self {
            Ablation::OpsOnly => "ops only",
            Ablation::OpsLadder => "ops + ladder",
            Ablation::OpsLadderImpact => "ops + ladder + impact",
            Ablation::Full => "+ incremental",
        }
    }

    /// The rungs that run at once.
    pub fn levels(&self) -> (r: Vec<u8>)
        ensures
            r@ == if *self is OpsOnly {
                seq![0u8]
            } else {
                seq![0u8, 1u8]
            },
    {
        let mut v: Vec<u8> = Vec::new();
        v.push(0);
        match self {
            Ablation::OpsOnly => {},
            _ => {
                v.push(1);
            },
        }
        v
    }

    /// Only the full configuration keeps a store across runs; the others start cold every time,
    /// which is what "no incremental" means in practice.
    pub fn keeps_cache(&self) -> (r: bool)
        ensures
            r == (*self is Full),
    {
        matches!(self, Ablation::Full)
    }

    /// Where the store of a run stands, in the workspace.
    pub fn store_dir(&self, run: usize) -> (r: String)
        ensures
            r@ == if *self is Full {
                ".flash"@
            } else {
                ".flash-"@ + decimal(run as nat)
            },
    {
        if self.keeps_cache() {
            ".flash".to_owned()
        } else {
            let mut s = ".flash-".to_owned();
            s.push_str(show(run as u64).as_str());
            s
        }
    }
}

impl Regime {
    /// The regime at a place; the last one from there on.
    pub fn at(i: usize) -> (r: Self)
        ensures
            r == regime_at(i as int),
    {
        if i == 0 {
            Regime::Cold
        } else if i == 1 {
            Regime::Warm
        } else {
            Regime::Hot
        }
    }

    pub fn label(&self) -> (r: &'static str)
        ensures
            r@ == regime_label(*self),
    {
        match self {
            Regime::Cold => "cold",
            Regime::Warm => "warm",
            Regime::Hot => "hot",
        }
    }
}

/// Which adapter reads the files of a task.
#[derive(Clone, Copy, Debug, PartialEq, Eq, Structural)]
pub enum BenchAdapter {
    Code,
    Doc,
    Sheets,
}

/// One frozen task, without its files: they are laid down before it runs. Everything needed to
/// reproduce it is in it, the answers of the models too.
pub struct BenchTask {
    pub id: String,
    /// code, doc or sheets.
    pub kind: String,
    pub instruction: String,
    /// Which files the task may touch.
    pub targets: Vec<String>,
    /// The planner's answer, as json.
    pub plan: String,
    /// The executor's answers, as json, each behind a marker that must appear in its prompt. An
    /// empty marker is the fallback rule.
    pub executor: Vec<(String, String)>,
    /// The warm variant: one input changed after a first run.
    pub warm_change: Option<(String, String)>,
}

/// The answers that have a marker, in order.
pub open spec fn marked(v: Seq<(Seq<char>, Seq<char>)>) -> Seq<(Seq<char>, Seq<char>)>
    decreases v.len(),
{
    if v.len() == 0 {
        Seq::empty()
    } else if v.last().0.len() == 0 {
        marked(v.drop_last())
    } else {
        marked(v.drop_last()).push(v.last())
    }
}

/// The last answer without a marker.
pub open spec fn unmarked(v: Seq<(Seq<char>, Seq<char>)>) -> Option<Seq<char>>
    decreases v.len(),
{
    if v.len() == 0 {
        None
    } else if v.last().0.len() == 0 {
        Some(v.last().1)
    } else {
        unmarked(v.drop_last())
    }
}

impl BenchTask {
    /// The executor: the answers behind their markers, and the fallback.
    pub fn scripted_executor(&self) -> (r: ScriptedModel)
        ensures
            rule_views(r.rules@) == marked(rule_views(self.executor@)),
            opt_text(r.default) == unmarked(rule_views(self.executor@)),
            r.seen@.len() == 0,
    {
        let ghost all = rule_views(self.executor@);
        let mut m = ScriptedModel::new();
        let mut i: usize = 0;
        assert(all.take(0) =~= Seq::<(Seq<char>, Seq<char>)>::empty());
        assert(rule_views(m.rules@) =~= marked(all.take(0)));
        while i < self.executor.len()
            invariant
                i <= self.executor@.len(),
                all == rule_views(self.executor@),
                rule_views(m.rules@) == marked(all.take(i as int)),
                opt_text(m.default) == unmarked(all.take(i as int)),
                m.seen@.len() == 0,
            decreases self.executor@.len() - i,
        {
            let ghost nn = all.take(i + 1);
            assert(nn.drop_last() =~= all.take(i as int));
            assert(nn.last() == (self.executor@[i as int].0@, self.executor@[i as int].1@));
            let e = &self.executor[i];
            proof {
                reveal_strlit("");
                if e.0@.len() == 0 {
                    assert(e.0@ =~= ""@);
                }
            }
            if same(e.0.as_str(), "") {
                m = m.otherwise(e.1.as_str());
            } else {
                m = m.on(e.0.as_str(), e.1.as_str());
            }
            i += 1;
        }
        assert(all.take(i as int) =~= all);
        m
    }

    /// Which adapter reads the files: the one for code, unless the kind says otherwise.
    pub fn adapter(&self) -> (r: BenchAdapter)
        ensures
            r == if self.kind@ == "doc"@ {
                BenchAdapter::Doc
            } else if self.kind@ == "sheets"@ {
                BenchAdapter::Sheets
            } else {
                BenchAdapter::Code
            },
    {
        if same(self.kind.as_str(), "doc") {
            BenchAdapter::Doc
        } else if same(self.kind.as_str(), "sheets") {
            BenchAdapter::Sheets
        } else {
            BenchAdapter::Code
        }
    }

    /// How many runs a task takes: cold; and warm and hot too, where it has a change to make.
    pub fn runs(&self) -> (r: usize)
        ensures
            r == if self.warm_change is Some {
                3int
            } else {
                1
            },
    {
        match self.warm_change {
            Some(_) => 3,
            None => 1,
        }
    }
}

/// One measured run.
pub struct Measurement {
    pub task: String,
    pub ablation: String,
    pub regime: String,
    pub wall_ms: u64,
    pub first_change_ms: Option<u64>,
    pub nodes: usize,
    pub computed: usize,
    pub hits: usize,
    pub saved_ms: u64,
    /// Per step attribution.
    pub decode_ms: u64,
    pub apply_ms: u64,
    pub verify_ms: u64,
    pub render_ms: u64,
    pub wait_ms: u64,
    /// The share of ops that resolved, in percent, as it is shown.
    pub op_resolve_pct: String,
    /// The share of edits that fell back, in percent, as it is shown.
    pub fallback_pct: String,
    pub green: bool,
}

/// Is this a run of a configuration in a regime?
pub open spec fn is_row(m: Measurement, a: Ablation, r: Regime) -> bool {
    m.ablation@ == ablation_label(a) && m.regime@ == regime_label(r)
}

/// The runs of a configuration in a regime, in order.
pub open spec fn rows_of(v: Seq<Measurement>, a: Ablation, r: Regime) -> Seq<Measurement>
    decreases v.len(),
{
    if v.len() == 0 {
        Seq::empty()
    } else if is_row(v.last(), a, r) {
        rows_of(v.drop_last(), a, r).push(v.last())
    } else {
        rows_of(v.drop_last(), a, r)
    }
}

/// A figure of a run.
#[derive(Clone, Copy, Debug, PartialEq, Eq, Structural)]
enum Figure {
    Wall,
    Computed,
    Hits,
    Decode,
    Apply,
    Verify,
    Render,
    Wait,
}

spec fn figure_of(m: Measurement, f: Figure) -> u64 {
    match f {
        Figure::Wall => m.wall_ms,
        Figure::Computed => m.computed as u64,
        Figure::Hits => m.hits as u64,
        Figure::Decode => m.decode_ms,
        Figure::Apply => m.apply_ms,
        Figure::Verify => m.verify_ms,
        Figure::Render => m.render_ms,
        Figure::Wait => m.wait_ms,
    }
}

/// The wall times of some runs.
pub open spec fn walls(v: Seq<Measurement>) -> Seq<u64> {
    v.map_values(|m: Measurement| m.wall_ms)
}

/// The times to the first visible change, of the runs that made one.
pub open spec fn firsts(v: Seq<Measurement>) -> Seq<u64>
    decreases v.len(),
{
    if v.len() == 0 {
        Seq::empty()
    } else {
        match v.last().first_change_ms {
            Some(t) => firsts(v.drop_last()).push(t),
            None => firsts(v.drop_last()),
        }
    }
}

/// Did every run end well?
pub open spec fn all_green(v: Seq<Measurement>) -> bool {
    forall|i: int| 0 <= i < v.len() ==> (#[trigger] v[i]).green
}

/// The row of a configuration and a regime in the first table.
pub open spec fn wall_row(v: Seq<Measurement>, a: Ablation, r: Regime) -> Seq<char> {
    let rows = rows_of(v, a, r);
    if rows.len() == 0 {
        Seq::empty()
    } else {
        "| "@ + ablation_label(a) + " | "@ + regime_label(r) + " | "@ + decimal(
            median_of(walls(rows)) as nat,
        ) + " ms | "@ + decimal(p90_of(walls(rows)) as nat) + " ms | "@ + decimal(
            total_of(rows.map_values(|m: Measurement| m.computed as u64)),
        ) + " | "@ + decimal(total_of(rows.map_values(|m: Measurement| m.hits as u64))) + " | "@
            + decimal(median_of(firsts(rows)) as nat) + " ms | "@ + (if all_green(rows) {
            "yes"@
        } else {
            "no"@
        }) + " |\n"@
    }
}

/// The row of a configuration and a regime in the second table.
pub open spec fn time_row(v: Seq<Measurement>, a: Ablation, r: Regime) -> Seq<char> {
    let rows = rows_of(v, a, r);
    if rows.len() == 0 {
        Seq::empty()
    } else {
        "| "@ + ablation_label(a) + " | "@ + regime_label(r) + " | "@ + decimal(
            total_of(rows.map_values(|m: Measurement| m.decode_ms)),
        ) + " ms | "@ + decimal(total_of(rows.map_values(|m: Measurement| m.apply_ms)))
            + " ms | "@ + decimal(total_of(rows.map_values(|m: Measurement| m.verify_ms)))
            + " ms | "@ + decimal(total_of(rows.map_values(|m: Measurement| m.render_ms)))
            + " ms | "@ + decimal(total_of(rows.map_values(|m: Measurement| m.wait_ms)))
            + " ms |\n"@
    }
}

/// The first rows of the first table: configuration by configuration, regime by regime.
pub open spec fn wall_rows(v: Seq<Measurement>, n: nat) -> Seq<char>
    decreases n,
{
    if n == 0 {
        Seq::empty()
    } else {
        wall_rows(v, (n - 1) as nat) + wall_row(
            v,
            ablation_at((n - 1) / 3),
            regime_at((n - 1) % 3),
        )
    }
}

/// The first rows of the second table.
pub open spec fn time_rows(v: Seq<Measurement>, n: nat) -> Seq<char>
    decreases n,
{
    if n == 0 {
        Seq::empty()
    } else {
        time_rows(v, (n - 1) as nat) + time_row(
            v,
            ablation_at((n - 1) / 3),
            regime_at((n - 1) % 3),
        )
    }
}

/// The row of a run in the table of tasks.
pub open spec fn task_row(m: Measurement) -> Seq<char> {
    "| "@ + m.task@ + " | "@ + m.regime@ + " | "@ + decimal(m.wall_ms as nat) + " ms | "@ + decimal(
        m.computed as nat,
    ) + " / "@ + decimal(m.nodes as nat) + " | "@ + decimal(m.saved_ms as nat) + " ms | "@
        + m.op_resolve_pct@ + "% | "@ + m.fallback_pct@ + "% |\n"@
}

/// The table of tasks: the runs of the full configuration.
pub open spec fn task_rows(v: Seq<Measurement>) -> Seq<char>
    decreases v.len(),
{
    if v.len() == 0 {
        Seq::empty()
    } else if v.last().ablation@ == ablation_label(Ablation::Full) {
        task_rows(v.drop_last()) + task_row(v.last())
    } else {
        task_rows(v.drop_last())
    }
}

/// The typical wall time of a configuration in a regime, where it was run.
pub open spec fn typical(v: Seq<Measurement>, a: Ablation, r: Regime) -> Option<u64> {
    let rows = rows_of(v, a, r);
    if rows.len() == 0 {
        None
    } else {
        Some(median_of(walls(rows)))
    }
}

/// Is a configuration slower, in a regime, than the one with a lever less?
pub open spec fn is_loss(v: Seq<Measurement>, r: Regime, step: int) -> bool {
    match (typical(v, ablation_at(step), r), typical(v, ablation_at(step + 1), r)) {
        (Some(a), Some(b)) => b > a,
        _ => false,
    }
}

/// What the report says of a loss.
pub open spec fn loss_text(v: Seq<Measurement>, r: Regime, step: int) -> Seq<char> {
    let a = typical(v, ablation_at(step), r)->0;
    let b = typical(v, ablation_at(step + 1), r)->0;
    regime_label(r) + ": "@ + ablation_label(ablation_at(step + 1)) + " is "@ + decimal(
        (b - a) as nat,
    ) + " ms slower than "@ + ablation_label(ablation_at(step)) + " ("@ + decimal(b as nat)
        + " ms vs "@ + decimal(a as nat)
        + " ms). The extra work is real; it buys correctness rather than speed in this regime."@
}

/// The losses among the first places: regime by regime, lever by lever.
pub open spec fn losses_of(v: Seq<Measurement>, n: nat) -> Seq<Seq<char>>
    decreases n,
{
    if n == 0 {
        Seq::empty()
    } else {
        let r = regime_at((n - 1) / 3);
        let step = (n - 1) % 3;
        let rest = losses_of(v, (n - 1) as nat);
        if is_loss(v, r, step) {
            rest.push(loss_text(v, r, step))
        } else {
            rest
        }
    }
}

/// Losses, one to a line.
pub open spec fn loss_lines(v: Seq<Seq<char>>) -> Seq<char>
    decreases v.len(),
{
    if v.len() == 0 {
        Seq::empty()
    } else {
        loss_lines(v.drop_last()) + "- "@ + v.last() + "\n"@
    }
}

/// What the report says of its losses.
pub open spec fn loss_part(v: Seq<Seq<char>>) -> Seq<char> {
    if v.len() == 0 {
        "No configuration was slower than a simpler one on any task in this set.\n"@
    } else {
        "Where a lever made things worse, and by how much:\n\n"@ + loss_lines(v)
    }
}

/// The report: markdown tables, made from the measurements alone.
pub open spec fn report_of(v: Seq<Measurement>) -> Seq<char> {
    "# agent-latency-anatomy\n\n"@
        + "Model calls are replayed from fixtures, so **decode time is not in these numbers**. "@
        + "What is in them is everything the runtime controls: scheduling, packing, applying, "@
        + "verifying, and what it manages not to do at all.\n\n"@ + "## Cold, warm, hot\n\n"@
        + "| ablation | regime | p50 wall | p90 wall | computed | hit | first change | green |\n"@
        + "| --- | --- | ---: | ---: | ---: | ---: | ---: | :-: |\n"@ + wall_rows(v, 12)
        + "\n## Where the time goes\n\n"@
        + "| ablation | regime | decode | apply | verify | render | queued |\n"@
        + "| --- | --- | ---: | ---: | ---: | ---: | ---: |\n"@ + time_rows(v, 12)
        + "\n## Per task\n\n"@
        + "| task | regime | wall | computed / nodes | saved | op resolve | fallback |\n"@
        + "| --- | --- | ---: | ---: | ---: | ---: | ---: |\n"@ + task_rows(v)
        + "\n## Losses\n\n"@ + loss_part(losses_of(v, 9))
}

/// The runs of a configuration in a regime, by their places.
fn rows(v: &Vec<Measurement>, a: Ablation, r: Regime) -> (out: Vec<usize>)
    ensures
        out@.len() == rows_of(v@, a, r).len(),
        forall|i: int| 0 <= i < out@.len() ==> (#[trigger] out@[i]) < v@.len(),
        forall|i: int|
            0 <= i < out@.len() ==> v@[(#[trigger] out@[i]) as int] == rows_of(v@, a, r)[i],
{
    let mut out: Vec<usize> = Vec::new();
    let mut i: usize = 0;
    assert(v@.take(0) =~= Seq::<Measurement>::empty());
    while i < v.len()
        invariant
            i <= v@.len(),
            out@.len() == rows_of(v@.take(i as int), a, r).len(),
            forall|k: int| 0 <= k < out@.len() ==> (#[trigger] out@[k]) < v@.len(),
            forall|k: int|
                0 <= k < out@.len() ==> v@[(#[trigger] out@[k]) as int] == rows_of(
                    v@.take(i as int),
                    a,
                    r,
                )[k],
        decreases v@.len() - i,
    {
        let ghost nn = v@.take(i + 1);
        assert(nn.drop_last() =~= v@.take(i as int));
        assert(nn.last() == v@[i as int]);
        if same(v[i].ablation.as_str(), a.label()) && same(v[i].regime.as_str(), r.label()) {
            out.push(i);
        }
        i += 1;
    }
    assert(v@.take(i as int) =~= v@);
    out
}

/// A figure of each of some runs.
fn figures(v: &Vec<Measurement>, at: &Vec<usize>, f: Figure, Ghost(rs): Ghost<Seq<Measurement>>) -> (r:
    Vec<u64>)
    requires
        at@.len() == rs.len(),
        forall|i: int| 0 <= i < at@.len() ==> (#[trigger] at@[i]) < v@.len(),
        forall|i: int| 0 <= i < at@.len() ==> v@[(#[trigger] at@[i]) as int] == rs[i],
    ensures
        r@ == rs.map_values(|m: Measurement| figure_of(m, f)),
{
    let mut out: Vec<u64> = Vec::new();
    let mut i: usize = 0;
    while i < at.len()
        invariant
            i <= at@.len(),
            at@.len() == rs.len(),
            forall|i: int| 0 <= i < at@.len() ==> (#[trigger] at@[i]) < v@.len(),
            forall|i: int| 0 <= i < at@.len() ==> v@[(#[trigger] at@[i]) as int] == rs[i],
            out@.len() == i,
            forall|k: int| 0 <= k < i ==> #[trigger] out@[k] == figure_of(rs[k], f),
        decreases at@.len() - i,
    {
        let m = &v[at[i]];
        let n: u64 = match f {
            Figure::Wall => m.wall_ms,
            Figure::Computed => m.computed as u64,
            Figure::Hits => m.hits as u64,
            Figure::Decode => m.decode_ms,
            Figure::Apply => m.apply_ms,
            Figure::Verify => m.verify_ms,
            Figure::Render => m.render_ms,
            Figure::Wait => m.wait_ms,
        };
        out.push(n);
        i += 1;
    }
    assert(out@ =~= rs.map_values(|m: Measurement| figure_of(m, f)));
    out
}

/// The times to the first visible change, of the runs that made one.
fn first_changes(v: &Vec<Measurement>, at: &Vec<usize>, Ghost(rs): Ghost<Seq<Measurement>>) -> (r:
    Vec<u64>)
    requires
        at@.len() == rs.len(),
        forall|i: int| 0 <= i < at@.len() ==> (#[trigger] at@[i]) < v@.len(),
        forall|i: int| 0 <= i < at@.len() ==> v@[(#[trigger] at@[i]) as int] == rs[i],
    ensures
        r@ == firsts(rs),
{
    let mut out: Vec<u64> = Vec::new();
    let mut i: usize = 0;
    assert(rs.take(0) =~= Seq::<Measurement>::empty());
    while i < at.len()
        invariant
            i <= at@.len(),
            at@.len() == rs.len(),
            forall|i: int| 0 <= i < at@.len() ==> (#[trigger] at@[i]) < v@.len(),
            forall|i: int| 0 <= i < at@.len() ==> v@[(#[trigger] at@[i]) as int] == rs[i],
            out@ == firsts(rs.take(i as int)),
        decreases at@.len() - i,
    {
        let ghost nn = rs.take(i + 1);
        assert(nn.drop_last() =~= rs.take(i as int));
        assert(nn.last() == v@[at@[i as int] as int]);
        match v[at[i]].first_change_ms {
            Some(t) => {
                out.push(t);
            },
            None => {},
        }
        i += 1;
    }
    assert(rs.take(i as int) =~= rs);
    out
}

/// Did every one of some runs end well?
fn green(v: &Vec<Measurement>, at: &Vec<usize>, Ghost(rs): Ghost<Seq<Measurement>>) -> (r: bool)
    requires
        at@.len() == rs.len(),
        forall|i: int| 0 <= i < at@.len() ==> (#[trigger] at@[i]) < v@.len(),
        forall|i: int| 0 <= i < at@.len() ==> v@[(#[trigger] at@[i]) as int] == rs[i],
    ensures
        r == all_green(rs),
{
    let mut i: usize = 0;
    while i < at.len()
        invariant
            i <= at@.len(),
            at@.len() == rs.len(),
            forall|i: int| 0 <= i < at@.len() ==> (#[trigger] at@[i]) < v@.len(),
            forall|i: int| 0 <= i < at@.len() ==> v@[(#[trigger] at@[i]) as int] == rs[i],
            forall|k: int| 0 <= k < i ==> (#[trigger] rs[k]).green,
        decreases at@.len() - i,
    {
        assert(rs[i as int] == v@[at@[i as int] as int]);
        if !v[at[i]].green {
            assert(!rs[i as int].green);
            return false;
        }
        i += 1;
    }
    true
}

/// Begins a row with its configuration and regime.
fn row_head(a: Ablation, r: Regime) -> (s: String)
    ensures
        s@ == "| "@ + ablation_label(a) + " | "@ + regime_label(r) + " | "@,
{
    let mut s = "| ".to_owned();
    s.push_str(a.label());
    s.push_str(" | ");
    s.push_str(r.label());
    s.push_str(" | ");
    s
}

fn wall_line(v: &Vec<Measurement>, a: Ablation, r: Regime) -> (s: String)
    ensures
        s@ == wall_row(v@, a, r),
{
    let at = rows(v, a, r);
    let ghost rs = rows_of(v@, a, r);
    if at.len() == 0 {
        let e = String::new();
        assert(e@ =~= wall_row(v@, a, r));
        return e;
    }
    let ws = figures(v, &at, Figure::Wall, Ghost(rs));
    let ws2 = figures(v, &at, Figure::Wall, Ghost(rs));
    let computed = figures(v, &at, Figure::Computed, Ghost(rs));
    let hits = figures(v, &at, Figure::Hits, Ghost(rs));
    let fs = first_changes(v, &at, Ghost(rs));
    let ok = green(v, &at, Ghost(rs));
    proof {
        assert(ws@ =~= walls(rs));
        assert(ws2@ =~= walls(rs));
        assert(computed@ =~= rs.map_values(|m: Measurement| m.computed as u64));
        assert(hits@ =~= rs.map_values(|m: Measurement| m.hits as u64));
    }
    let mut s = row_head(a, r);
    s.push_str(show(median(ws)).as_str());
    s.push_str(" ms | ");
    s.push_str(show(p90(ws2)).as_str());
    s.push_str(" ms | ");
    s.push_str(show_wide(total(&computed)).as_str());
    s.push_str(" | ");
    s.push_str(show_wide(total(&hits)).as_str());
    s.push_str(" | ");
    s.push_str(show(median(fs)).as_str());
    s.push_str(" ms | ");
    s.push_str(if ok { "yes" } else { "no" });
    s.push_str(" |\n");
    s
}

fn time_line(v: &Vec<Measurement>, a: Ablation, r: Regime) -> (s: String)
    ensures
        s@ == time_row(v@, a, r),
{
    let at = rows(v, a, r);
    let ghost rs = rows_of(v@, a, r);
    if at.len() == 0 {
        let e = String::new();
        assert(e@ =~= time_row(v@, a, r));
        return e;
    }
    let decode = figures(v, &at, Figure::Decode, Ghost(rs));
    let apply = figures(v, &at, Figure::Apply, Ghost(rs));
    let verify = figures(v, &at, Figure::Verify, Ghost(rs));
    let render = figures(v, &at, Figure::Render, Ghost(rs));
    let wait = figures(v, &at, Figure::Wait, Ghost(rs));
    proof {
        assert(decode@ =~= rs.map_values(|m: Measurement| m.decode_ms));
        assert(apply@ =~= rs.map_values(|m: Measurement| m.apply_ms));
        assert(verify@ =~= rs.map_values(|m: Measurement| m.verify_ms));
        assert(render@ =~= rs.map_values(|m: Measurement| m.render_ms));
        assert(wait@ =~= rs.map_values(|m: Measurement| m.wait_ms));
    }
    let mut s = row_head(a, r);
    s.push_str(show_wide(total(&decode)).as_str());
    s.push_str(" ms | ");
    s.push_str(show_wide(total(&apply)).as_str());
    s.push_str(" ms | ");
    s.push_str(show_wide(total(&verify)).as_str());
    s.push_str(" ms | ");
    s.push_str(show_wide(total(&render)).as_str());
    s.push_str(" ms | ");
    s.push_str(show_wide(total(&wait)).as_str());
    s.push_str(" ms |\n");
    s
}

fn wall_table(v: &Vec<Measurement>) -> (s: String)
    ensures
        s@ == wall_rows(v@, 12),
{
    let mut s = String::new();
    let mut n: usize = 0;
    assert(s@ =~= wall_rows(v@, 0));
    while n < 12
        invariant
            n <= 12,
            s@ == wall_rows(v@, n as nat),
        decreases 12 - n,
    {
        let line = wall_line(v, Ablation::at(n / 3), Regime::at(n % 3));
        s.push_str(line.as_str());
        n += 1;
    }
    s
}

fn time_table(v: &Vec<Measurement>) -> (s: String)
    ensures
        s@ == time_rows(v@, 12),
{
    let mut s = String::new();
    let mut n: usize = 0;
    assert(s@ =~= time_rows(v@, 0));
    while n < 12
        invariant
            n <= 12,
            s@ == time_rows(v@, n as nat),
        decreases 12 - n,
    {
        let line = time_line(v, Ablation::at(n / 3), Regime::at(n % 3));
        s.push_str(line.as_str());
        n += 1;
    }
    s
}

fn task_line(m: &Measurement) -> (s: String)
    ensures
        s@ == task_row(*m),
{
    let mut s = "| ".to_owned();
    s.push_str(m.task.as_str());
    s.push_str(" | ");
    s.push_str(m.regime.as_str());
    s.push_str(" | ");
    s.push_str(show(m.wall_ms).as_str());
    s.push_str(" ms | ");
    s.push_str(show(m.computed as u64).as_str());
    s.push_str(" / ");
    s.push_str(show(m.nodes as u64).as_str());
    s.push_str(" | ");
    s.push_str(show(m.saved_ms).as_str());
    s.push_str(" ms | ");
    s.push_str(m.op_resolve_pct.as_str());
    s.push_str("% | ");
    s.push_str(m.fallback_pct.as_str());
    s.push_str("% |\n");
    s
}

fn task_table(v: &Vec<Measurement>) -> (s: String)
    ensures
        s@ == task_rows(v@),
{
    let mut s = String::new();
    let mut i: usize = 0;
    assert(v@.take(0) =~= Seq::<Measurement>::empty());
    assert(s@ =~= task_rows(v@.take(0)));
    while i < v.len()
        invariant
            i <= v@.len(),
            s@ == task_rows(v@.take(i as int)),
        decreases v@.len() - i,
    {
        let ghost nn = v@.take(i + 1);
        assert(nn.drop_last() =~= v@.take(i as int));
        assert(nn.last() == v@[i as int]);
        if same(v[i].ablation.as_str(), Ablation::Full.label()) {
            let line = task_line(&v[i]);
            s.push_str(line.as_str());
        }
        i += 1;
    }
    assert(v@.take(i as int) =~= v@);
    s
}

fn typical_ms(v: &Vec<Measurement>, a: Ablation, r: Regime) -> (t: Option<u64>)
    ensures
        t == typical(v@, a, r),
{
    let at = rows(v, a, r);
    let ghost rs = rows_of(v@, a, r);
    if at.len() == 0 {
        return None;
    }
    let ws = figures(v, &at, Figure::Wall, Ghost(rs));
    assert(ws@ =~= walls(rs));
    Some(median(ws))
}

/// The losses: where a configuration is slower than the one with a lever less. The report finds
/// them itself rather than waiting for someone to notice.
pub fn find_losses(measurements: &Vec<Measurement>) -> (r: Vec<String>)
    ensures
        texts(r@) == losses_of(measurements@, 9),
{
    let ghost v = measurements@;
    let mut out: Vec<String> = Vec::new();
    let mut n: usize = 0;
    assert(texts(out@) =~= losses_of(v, 0));
    while n < 9
        invariant
            n <= 9,
            v == measurements@,
            texts(out@) == losses_of(v, n as nat),
        decreases 9 - n,
    {
        let regime = Regime::at(n / 3);
        let simple = Ablation::at(n % 3);
        let more = Ablation::at(n % 3 + 1);
        let before = typical_ms(measurements, simple, regime);
        let after = typical_ms(measurements, more, regime);
        match (before, after) {
            (Some(b), Some(a)) => {
                if a > b {
                    let mut s = regime.label().to_owned();
                    s.push_str(": ");
                    s.push_str(more.label());
                    s.push_str(" is ");
                    s.push_str(show(a - b).as_str());
                    s.push_str(" ms slower than ");
                    s.push_str(simple.label());
                    s.push_str(" (");
                    s.push_str(show(a).as_str());
                    s.push_str(" ms vs ");
                    s.push_str(show(b).as_str());
                    s.push_str(
                        " ms). The extra work is real; it buys correctness rather than speed in this regime.",
                    );
                    let ghost was = texts(out@);
                    let ghost t = s@;
                    out.push(s);
                    assert(texts(out@) =~= was.push(t));
                }
            },
            _ => {},
        }
        n += 1;
    }
    out
}

fn loss_text_part(losses: &Vec<String>) -> (s: String)
    ensures
        s@ == loss_part(texts(losses@)),
{
    if losses.len() == 0 {
        return "No configuration was slower than a simpler one on any task in this set.\n".to_owned();
    }
    let ghost all = texts(losses@);
    let mut s = String::new();
    let mut i: usize = 0;
    assert(s@ =~= loss_lines(all.take(0)));
    while i < losses.len()
        invariant
            i <= losses@.len(),
            all == texts(losses@),
            s@ == loss_lines(all.take(i as int)),
        decreases losses@.len() - i,
    {
        let ghost nn = all.take(i + 1);
        assert(nn.drop_last() =~= all.take(i as int));
        assert(nn.last() == losses@[i as int]@);
        s.push_str("- ");
        s.push_str(losses[i].as_str());
        s.push_str("\n");
        i += 1;
    }
    assert(all.take(i as int) =~= all);
    let mut r = "Where a lever made things worse, and by how much:\n\n".to_owned();
    r.push_str(s.as_str());
    r
}

/// Markdown tables, made from the measurements alone.
pub fn report(measurements: &Vec<Measurement>) -> (r: String)
    ensures
        r@ == report_of(measurements@),
{
    let mut s = "# agent-latency-anatomy\n\n".to_owned();
    s.push_str(
        "Model calls are replayed from fixtures, so **decode time is not in these numbers**. ",
    );
    s.push_str(
        "What is in them is everything the runtime controls: scheduling, packing, applying, ",
    );
    s.push_str("verifying, and what it manages not to do at all.\n\n");
    s.push_str("## Cold, warm, hot\n\n");
    s.push_str(
        "| ablation | regime | p50 wall | p90 wall | computed | hit | first change | green |\n",
    );
    s.push_str("| --- | --- | ---: | ---: | ---: | ---: | ---: | :-: |\n");
    s.push_str(wall_table(measurements).as_str());
    s.push_str("\n## Where the time goes\n\n");
    s.push_str("| ablation | regime | decode | apply | verify | render | queued |\n");
    s.push_str("| --- | --- | ---: | ---: | ---: | ---: | ---: |\n");
    s.push_str(time_table(measurements).as_str());
    s.push_str("\n## Per task\n\n");
    s.push_str("| task | regime | wall | computed / nodes | saved | op resolve | fallback |\n");
    s.push_str("| --- | --- | ---: | ---: | ---: | ---: | ---: |\n");
    s.push_str(task_table(measurements).as_str());
    s.push_str("\n## Losses\n\n");
    let losses = find_losses(measurements);
    s.push_str(loss_text_part(&losses).as_str());
    s
}

proof fn lemma_losses(v: Seq<Measurement>, n: nat, k: int)
    requires
        0 <= k < n <= 9,
        is_loss(v, regime_at(k / 3), k % 3),
    ensures
        losses_of(v, n).contains(loss_text(v, regime_at(k / 3), k % 3)),
    decreases n,
{
    let rest = losses_of(v, (n - 1) as nat);
    let all = losses_of(v, n);
    let t = loss_text(v, regime_at(k / 3), k % 3);
    if k == n - 1 {
        assert(all.last() == t);
        assert(all[all.len() - 1] == t);
    } else {
        lemma_losses(v, (n - 1) as nat, k);
        let i = choose|i: int| 0 <= i < rest.len() && rest[i] == t;
        assert(all[i] == t);
    }
}

/// No loss is hidden: a configuration that is slower in some regime than the one with a lever less
/// is among the losses.
pub proof fn law_every_loss_is_reported(v: Seq<Measurement>, regime: int, step: int)
    requires
        0 <= regime < 3,
        0 <= step < 3,
        is_loss(v, regime_at(regime), step),
    ensures
        losses_of(v, 9).contains(loss_text(v, regime_at(regime), step)),
{
    lemma_losses(v, 9, 3 * regime + step);
}

proof fn lemma_no_losses(v: Seq<Measurement>, n: nat)
    requires
        forall|k: int| 0 <= k < n ==> !#[trigger] is_loss_place(v, k),
    ensures
        losses_of(v, n).len() == 0,
    decreases n,
{
    if n > 0 {
        assert(!is_loss_place(v, n - 1));
        lemma_no_losses(v, (n - 1) as nat);
    }
}

/// Is there a loss at a place of the list of regimes and levers?
pub open spec fn is_loss_place(v: Seq<Measurement>, k: int) -> bool {
    is_loss(v, regime_at(k / 3), k % 3)
}

/// Nothing is called a loss that is none: where no configuration is slower than the one with a
/// lever less, the list is empty.
pub proof fn law_no_loss_is_made_up(v: Seq<Measurement>)
    requires
        forall|regime: int, step: int|
            0 <= regime < 3 && 0 <= step < 3 ==> !#[trigger] is_loss(v, regime_at(regime), step),
    ensures
        losses_of(v, 9).len() == 0,
{
    assert forall|k: int| 0 <= k < 9 implies !#[trigger] is_loss_place(v, k) by {
        assert(!is_loss(v, regime_at(k / 3), k % 3));
    }
    lemma_no_losses(v, 9);
}

} // verus!
