//! When a task is planned again: when what its files hold has changed, and not when only how they
//! hold it has.

use crate::adapter::EntityView;
use crate::engine::graph::plans;
use crate::engine::graph::Plan;
use crate::engine::graph::Steps;
use crate::engine::scheduler::RunModel;
use crate::engine::trace::alike;
use crate::engine::trace::alone;
use crate::engine::trace::finished;
use crate::engine::trace::gets_to;
use crate::engine::trace::law_a_rerun_runs_exactly_what_moved;
use crate::engine::trace::lemma_start_is_kept;
use crate::engine::trace::moved;
use crate::engine::trace::outset;
use crate::engine::trace::status_of_run;
use crate::engine::trace::Course;
use crate::engine::trace::Results;
use crate::identity::blake3_of;
use crate::identity::lemma_digest_is_its_bytes;
use crate::orchestrator::exec::labels;
use crate::orchestrator::exec::law_a_body_edit_keeps_the_summary;
use crate::orchestrator::exec::outline_text;
use crate::orchestrator::is_task_graph;
use crate::orchestrator::key::outline_key;
use crate::orchestrator::key::source_key;
use crate::orchestrator::paths_of;
use vstd::prelude::*;
use vstd::utf8::encode_utf8;

verus! {

/// The hash of the structural summary of a file with these entities.
pub open spec fn summary_hash(path: Seq<char>, es: Seq<EntityView>) -> Seq<u8> {
    blake3_of(encode_utf8(outline_text(path, es)))
}

/// Did the outline node of a file put out the summary of a file with these entities?
pub open spec fn summarised(m: RunModel, path: Seq<char>, es: Seq<EntityView>) -> bool {
    let put_out = m.outputs[outline_key(path)];
    put_out.len() == 1 && put_out[0]@ == summary_hash(path, es)
}

/// Are these the same entities but for their bodies and the order they stand in?
pub open spec fn same_but_bodies(a: Seq<EntityView>, b: Seq<EntityView>) -> bool {
    labels(a).to_multiset() == labels(b).to_multiset()
}

/// Every step of a task's graph goes by its key.
proof fn lemma_task_keys(g: Steps, instruction: Seq<char>, f: Seq<(Seq<char>, Seq<u8>)>)
    requires
        is_task_graph(g, instruction, f),
    ensures
        forall|k: Seq<char>| #[trigger] g.contains_key(k) ==> g[k].key@ == k,
{
    assert forall|k: Seq<char>| #[trigger] g.contains_key(k) implies g[k].key@ == k by {
        if k != "plan"@ {
            let x = g.remove("plan"@);
            assert(x.contains_key(k));
            let i = choose|i: int|
                0 <= i < f.len() && (k == source_key((#[trigger] f[i]).0) || k == outline_key(
                    f[i].0,
                ));
            assert(x[k] == g[k]);
        }
    }
}

/// The planner of a task is the same step whatever its files hold, and reads their outlines.
proof fn lemma_planner(
    a: Steps,
    b: Steps,
    instruction: Seq<char>,
    before: Seq<(Seq<char>, Seq<u8>)>,
    after: Seq<(Seq<char>, Seq<u8>)>,
)
    requires
        is_task_graph(a, instruction, before),
        is_task_graph(b, instruction, after),
        paths_of(before) == paths_of(after),
    ensures
        a.contains_key("plan"@),
        b.contains_key("plan"@),
        alike(a["plan"@], b["plan"@]),
        b["plan"@].dep_names().len() == before.len(),
        forall|i: int|
            0 <= i < before.len() ==> #[trigger] b["plan"@].dep_names()[i] == outline_key(
                before[i].0,
            ),
{
    let ds = b["plan"@].dep_names();
    assert forall|i: int| 0 <= i < before.len() implies #[trigger] ds[i] == outline_key(
        before[i].0,
    ) by {
        assert(paths_of(before)[i] == before[i].0);
    }
}

/// Files with the same entities have the same summary.
proof fn lemma_same_summary(
    w: RunModel,
    m: RunModel,
    path: Seq<char>,
    held: Seq<EntityView>,
    holds: Seq<EntityView>,
)
    requires
        summarised(w, path, held),
        summarised(m, path, holds),
        same_but_bodies(held, holds),
    ensures
        w.outputs[outline_key(path)] == m.outputs[outline_key(path)],
{
    let d = outline_key(path);
    law_a_body_edit_keeps_the_summary(path, held, holds);
    lemma_digest_is_its_bytes(w.outputs[d][0], m.outputs[d][0]);
    assert(w.outputs[d] =~= m.outputs[d]);
}

/// A body edit does not plan again: where the files of a task have the entities that they had when
/// it was last finished, however much of their bodies has changed, the plan is served from the memo
/// store, and the planner does not run.
pub proof fn law_a_body_edit_does_not_plan_again(
    p: Plan,
    a: Steps,
    max_depth: nat,
    had: Set<Seq<u8>>,
    f: Results,
    first: Course,
    n: nat,
    again: Plan,
    b: Steps,
    limit: nat,
    c: Course,
    j: nat,
    instruction: Seq<char>,
    before: Seq<(Seq<char>, Seq<u8>)>,
    after: Seq<(Seq<char>, Seq<u8>)>,
    held: Seq<Seq<EntityView>>,
    holds: Seq<Seq<EntityView>>,
)
    requires
        plans(p, a),
        plans(again, b),
        is_task_graph(a, instruction, before),
        is_task_graph(b, instruction, after),
        paths_of(before) == paths_of(after),
        gets_to(outset(p, a, max_depth, had), f, first, n),
        finished(first.m),
        gets_to(outset(again, b, limit, first.memo), f, c, j),
        c.m.settled.contains("plan"@),
        held.len() == before.len(),
        holds.len() == before.len(),
        forall|i: int|
            #![trigger before[i]]
            0 <= i < before.len() ==> summarised(first.m, before[i].0, held[i]) && summarised(
                c.m,
                before[i].0,
                holds[i],
            ) && same_but_bodies(held[i], holds[i]),
    ensures
        c.m.reports["plan"@].status is Hit,
{
    let k = "plan"@;
    let (w, m) = (first.m, c.m);
    lemma_task_keys(a, instruction, before);
    lemma_task_keys(b, instruction, after);
    lemma_start_is_kept(p, a, max_depth, had, f, first, n);
    lemma_start_is_kept(again, b, limit, first.memo, f, c, j);
    lemma_planner(a, b, instruction, before, after);
    let ds = m.steps[k].dep_names();
    assert forall|d: Seq<char>| #[trigger] ds.contains(d) implies w.outputs[d] == m.outputs[d] by {
        let i = choose|i: int| 0 <= i < ds.len() && ds[i] == d;
        assert(d == outline_key(before[i].0));
        lemma_same_summary(w, m, before[i].0, held[i], holds[i]);
    }
    assert(!moved(w, m, k));
    law_a_rerun_runs_exactly_what_moved(
        p,
        a,
        max_depth,
        had,
        f,
        first,
        n,
        again,
        b,
        limit,
        c,
        j,
        k,
    );
}

/// A new entity plans again: where the summary of a file of a task is not what it was when the task
/// was last finished, the planner runs, unless it has seen these very summaries before. A planner
/// that emits a plan is reported as expanded.
pub proof fn law_a_new_entity_plans_again(
    p: Plan,
    a: Steps,
    max_depth: nat,
    had: Set<Seq<u8>>,
    f: Results,
    first: Course,
    n: nat,
    again: Plan,
    b: Steps,
    limit: nat,
    c: Course,
    j: nat,
    instruction: Seq<char>,
    before: Seq<(Seq<char>, Seq<u8>)>,
    after: Seq<(Seq<char>, Seq<u8>)>,
    i: int,
    held: Seq<EntityView>,
    holds: Seq<EntityView>,
)
    requires
        plans(p, a),
        plans(again, b),
        is_task_graph(a, instruction, before),
        is_task_graph(b, instruction, after),
        paths_of(before) == paths_of(after),
        gets_to(outset(p, a, max_depth, had), f, first, n),
        finished(first.m),
        gets_to(outset(again, b, limit, first.memo), f, c, j),
        c.m.settled.contains("plan"@),
        0 <= i < before.len(),
        summarised(first.m, before[i].0, held),
        summarised(c.m, before[i].0, holds),
        summary_hash(before[i].0, held) != summary_hash(before[i].0, holds),
        !first.memo.contains(c.m.action_of("plan"@)),
        alone(c.m, "plan"@),
    ensures
        c.m.reports["plan"@].status == status_of_run(f(c.m.action_of("plan"@))),
{
    let k = "plan"@;
    let (w, m) = (first.m, c.m);
    lemma_task_keys(a, instruction, before);
    lemma_task_keys(b, instruction, after);
    lemma_start_is_kept(again, b, limit, first.memo, f, c, j);
    lemma_planner(a, b, instruction, before, after);
    let d = outline_key(before[i].0);
    let ds = m.steps[k].dep_names();
    assert(ds[i] == d);
    assert(ds.contains(d));
    assert(w.outputs[d][0]@ != m.outputs[d][0]@);
    assert(moved(w, m, k));
    law_a_rerun_runs_exactly_what_moved(
        p,
        a,
        max_depth,
        had,
        f,
        first,
        n,
        again,
        b,
        limit,
        c,
        j,
        k,
    );
}

} // verus!
