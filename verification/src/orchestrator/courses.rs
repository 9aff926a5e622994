//! What a node does from its beginning on, over all that it is told.

use crate::adapter::opt_text;
use crate::adapter::text_of;
use crate::adapter::MAX_DIAGNOSTICS;
use crate::identity::Digest;
use crate::identity::NodeKind;
use crate::json::Json;
use crate::orchestrator::chain::is_link;
use crate::orchestrator::chain::Asked;
use crate::orchestrator::chain::Link;
use crate::orchestrator::exec::MetricsSnapshot;
use crate::orchestrator::model::ModelResponse;
use crate::orchestrator::nodes::EditMode;
use crate::orchestrator::nodes::NodeOp;
use crate::orchestrator::nodes::OpModel;
use crate::orchestrator::ops::are_ops;
use crate::orchestrator::ops::reply_items;
use crate::orchestrator::prompts::bullet_list;
use crate::orchestrator::prompts::file_list;
use crate::orchestrator::prompts::outline_views;
use crate::orchestrator::work::begins;
use crate::orchestrator::work::moves;
use crate::orchestrator::work::Act;
use crate::orchestrator::work::Node;
use crate::orchestrator::work::Stage;
use crate::orchestrator::work::Told;
use crate::text::lines_of;
use crate::text::texts;
use crate::text::trim_of;
use crate::utf8::joined;
use vstd::prelude::*;

verus! {

/// A node from its beginning on: where it stood, what it asked for there and what it had counted,
/// each time, with what it was told in between.
pub ghost struct Doings<'a> {
    pub stages: Seq<Stage>,
    pub acts: Seq<Act>,
    pub counts: Seq<MetricsSnapshot>,
    pub told: Seq<Told>,
    pub node: Node<'a>,
}

/// Is this what a node does?
pub open spec fn are_doings(d: Doings) -> bool {
    &&& d.stages.len() == d.told.len() + 1
    &&& d.acts.len() == d.told.len() + 1
    &&& d.counts.len() == d.told.len() + 1
    &&& begins(d.node, d.stages[0], d.acts[0])
    &&& forall|i: int|
        #![trigger d.told[i]]
        0 <= i < d.told.len() ==> moves(
            d.node,
            d.stages[i],
            d.told[i],
            d.counts[i],
            d.stages[i + 1],
            d.acts[i + 1],
            d.counts[i + 1],
        )
}

/// The places at which there is something, in order.
pub open spec fn are_places_of(which: Seq<int>, held: Seq<Option<Vec<u8>>>) -> bool {
    &&& forall|j: int|
        0 <= j < which.len() ==> 0 <= #[trigger] which[j] < held.len() && held[which[j]] is Some
    &&& forall|j: int, k: int| 0 <= j < k < which.len() ==> #[trigger] which[j] < #[trigger] which[k]
    &&& forall|i: int|
        0 <= i < held.len() && (#[trigger] held[i]) is Some ==> which.contains(i)
}

/// The lines of a text after its first.
pub open spec fn later_lines(b: Seq<u8>) -> Seq<Seq<char>> {
    let l = lines_of(text_of(b));
    if l.len() == 0 {
        l
    } else {
        l.subrange(1, l.len() as int)
    }
}

/// A file as the planner is shown it: its path, and a line for each thing in it.
pub open spec fn part_of(path: Seq<char>, b: Seq<u8>) -> Seq<char> {
    "## "@ + path + "\n"@ + joined(later_lines(b).map_values(|id: Seq<char>| "- "@ + id + "\n"@))
        + "\n"@
}

/// The parts of a message at these places.
pub open spec fn parts_at(
    paths: Seq<Seq<char>>,
    held: Seq<Option<Vec<u8>>>,
    which: Seq<int>,
) -> Seq<Seq<char>> {
    which.map_values(|i: int| part_of(paths[i], held[i]->0@))
}

proof fn lemma_bullets(v: Seq<Seq<char>>)
    ensures
        bullet_list(v) == joined(v.map_values(|id: Seq<char>| "- "@ + id + "\n"@)),
    decreases v.len(),
{
    let f = |id: Seq<char>| "- "@ + id + "\n"@;
    if v.len() > 0 {
        lemma_bullets(v.drop_last());
        assert(v.map_values(f).drop_last() =~= v.drop_last().map_values(f));
        assert(bullet_list(v) =~= bullet_list(v.drop_last()) + f(v.last()));
    } else {
        assert(v.map_values(f) =~= Seq::<Seq<char>>::empty());
    }
}

proof fn lemma_files(
    shown: Seq<(Seq<char>, Seq<Seq<char>>)>,
    paths: Seq<Seq<char>>,
    held: Seq<Option<Vec<u8>>>,
    which: Seq<int>,
)
    requires
        are_shown(shown, paths, held, which),
    ensures
        file_list(shown) == joined(parts_at(paths, held, which)),
    decreases shown.len(),
{
    let parts = parts_at(paths, held, which);
    if shown.len() > 0 {
        let (s, w) = (shown.drop_last(), which.drop_last());
        assert forall|j: int| 0 <= j < s.len() implies (#[trigger] s[j]) == (
            paths[w[j]],
            later_lines(held[w[j]]->0@),
        ) by {
            assert(s[j] == shown[j]);
            assert(w[j] == which[j]);
        }
        lemma_files(s, paths, held, w);
        let i = which.last();
        assert(parts.drop_last() =~= parts_at(paths, held, w));
        assert(shown[shown.len() - 1] == (paths[i], later_lines(held[i]->0@)));
        lemma_bullets(shown.last().1);
        assert(parts.last() == part_of(paths[i], held[i]->0@));
        assert(file_list(shown) =~= file_list(s) + parts.last());
    } else {
        assert(parts =~= Seq::<Seq<char>>::empty());
    }
}

/// Are these the outlines of the files at these places?
spec fn are_shown(
    shown: Seq<(Seq<char>, Seq<Seq<char>>)>,
    paths: Seq<Seq<char>>,
    held: Seq<Option<Vec<u8>>>,
    which: Seq<int>,
) -> bool {
    &&& shown.len() == which.len()
    &&& forall|j: int|
        0 <= j < shown.len() ==> (#[trigger] shown[j]) == (
            paths[which[j]],
            later_lines(held[which[j]]->0@),
        )
}

/// What a gathering plan node holds, after so many outlines: those that could be read.
proof fn lemma_gathered(
    d: Doings,
    instruction: Seq<char>,
    paths: Seq<Seq<char>>,
    held: Seq<Option<Vec<u8>>>,
    n: int,
) -> (which: Seq<int>)
    requires
        are_doings(d),
        *d.node.op matches NodeOp::Plan { instruction: i, paths: p } && i@ == instruction
            && texts(p@) == paths,
        held.len() == d.told.len(),
        forall|i: int|
            0 <= i < held.len() ==> #[trigger] d.told[i] == Told::Content(held[i]),
        0 <= n <= d.told.len(),
        n < paths.len(),
        n < d.node.inputs@.len(),
    ensures
        d.stages[n] matches Stage::Gathering { at, seen } && at == n && are_shown(
            outline_views(seen@),
            paths,
            held.take(n),
            which,
        ),
        are_places_of(which, held.take(n)),
        d.acts[n] == Act::Read(d.node.inputs@[n]),
    decreases n,
{
    if n == 0 {
        let which = Seq::<int>::empty();
        which
    } else {
        let before = lemma_gathered(d, instruction, paths, held, n - 1);
        assert(d.told[n - 1] == Told::Content(held[n - 1]));
        let (h, l) = (held.take(n), held.take(n - 1));
        let was = outline_views(d.stages[n - 1]->Gathering_seen@);
        let now = outline_views(d.stages[n]->Gathering_seen@);
        let which = lemma_one_more(was, now, paths, held, before, n - 1);
        which
    }
}

proof fn lemma_one_more(
    was: Seq<(Seq<char>, Seq<Seq<char>>)>,
    now: Seq<(Seq<char>, Seq<Seq<char>>)>,
    paths: Seq<Seq<char>>,
    held: Seq<Option<Vec<u8>>>,
    before: Seq<int>,
    i: int,
) -> (which: Seq<int>)
    requires
        0 <= i < held.len(),
        are_shown(was, paths, held.take(i), before),
        are_places_of(before, held.take(i)),
        now == match held[i] {
            Some(b) => was.push((paths[i], later_lines(b@))),
            None => was,
        },
    ensures
        are_shown(now, paths, held.take(i + 1), which),
        are_places_of(which, held.take(i + 1)),
{
    let (l, h) = (held.take(i), held.take(i + 1));
    let which = match held[i] {
        Some(_) => before.push(i),
        None => before,
    };
    assert forall|j: int| 0 <= j < now.len() implies (#[trigger] now[j]) == (
        paths[which[j]],
        later_lines(h[which[j]]->0@),
    ) by {
        if j < was.len() {
            assert(now[j] == was[j]);
            assert(0 <= before[j] < l.len());
            assert(l[before[j]] == h[before[j]]);
        }
    }
    assert forall|j: int| 0 <= j < which.len() implies 0 <= #[trigger] which[j] < h.len()
        && h[which[j]] is Some by {
        if j < before.len() {
            assert(0 <= before[j] < l.len());
            assert(l[before[j]] == h[before[j]]);
        }
    }
    assert forall|j: int, k: int| 0 <= j < k < which.len() implies #[trigger] which[j]
        < #[trigger] which[k] by {
        assert(0 <= before[j] < l.len());
        if k < before.len() {
            assert(before[j] < before[k]);
        }
    }
    assert forall|x: int| 0 <= x < h.len() && (#[trigger] h[x]) is Some implies which.contains(
        x,
    ) by {
        if x < i {
            assert(l[x] is Some);
            let j = choose|j: int| 0 <= j < before.len() && before[j] == x;
            assert(which[j] == x);
        } else {
            assert(which[which.len() - 1] == i);
        }
    }
    which
}

/// The planner is shown every file that can be read. A plan node reads the outlines of its files
/// one after the other, in the order of the task. Once it has been told them all it asks the
/// planner, and the message holds the request and then, for each file whose outline was there, in
/// that order and with nothing else in between, the file's path and a line for each thing in it.
pub proof fn law_the_planner_is_shown_every_outline(
    d: Doings,
    instruction: Seq<char>,
    paths: Seq<Seq<char>>,
    held: Seq<Option<Vec<u8>>>,
)
    requires
        are_doings(d),
        *d.node.op matches NodeOp::Plan { instruction: i, paths: p } && i@ == instruction
            && texts(p@) == paths,
        held.len() == d.told.len(),
        forall|i: int|
            0 <= i < held.len() ==> #[trigger] d.told[i] == Told::Content(held[i]),
        held.len() <= paths.len(),
        held.len() <= d.node.inputs@.len(),
        held.len() == paths.len() || held.len() == d.node.inputs@.len(),
    ensures
        forall|i: int|
            0 <= i < held.len() ==> #[trigger] d.acts[i] == Act::Read(d.node.inputs@[i]),
        d.acts.last() matches Act::Ask { planner, request } && planner && request.model_id@
            == d.node.cfg.planner_model_id@ && exists|which: Seq<int>| #[trigger]
            are_places_of(which, held) && request.user@ == "# request\n"@ + trim_of(instruction)
                + "\n\n# files\n"@ + joined(parts_at(paths, held, which)),
{
    let k = held.len() as int;
    assert forall|i: int| 0 <= i < k implies #[trigger] d.acts[i] == Act::Read(
        d.node.inputs@[i],
    ) by {
        let which = lemma_gathered(d, instruction, paths, held, i);
    }
    if k == 0 {
        let which = Seq::<int>::empty();
        let none = Seq::<(Seq<char>, Seq<Seq<char>>)>::empty();
        assert(are_places_of(which, held));
        lemma_files(none, paths, held, which);
    } else {
        let before = lemma_gathered(d, instruction, paths, held, k - 1);
        assert(d.told[k - 1] == Told::Content(held[k - 1]));
        let was = outline_views(d.stages[k - 1]->Gathering_seen@);
        let now = match held[k - 1] {
            Some(b) => was.push((paths[k - 1], later_lines(b@))),
            None => was,
        };
        let which = lemma_one_more(was, now, paths, held, before, k - 1);
        assert(held.take(k) =~= held);
        lemma_files(now, paths, held, which);
        assert(are_places_of(which, held));
    }
}

/// Some texts as a list, or nothing where there are none.
pub open spec fn told_again(d: Seq<Seq<char>>) -> Seq<char> {
    if d.len() == 0 {
        Seq::empty()
    } else {
        "# diagnostics from the last attempt\n"@ + joined(
            d.map_values(|x: Seq<char>| "- "@ + x + "\n"@),
        ) + "\n"@
    }
}

/// An edit node takes its file, reads its context, asks the executor, has the ops of the reply
/// applied and stores what they made. The executor is shown the instruction, what went wrong the
/// last time, as far as a message carries it, and the whole context, and is held to the ops that
/// the adapter takes. What the node puts out is what was stored.
pub proof fn law_an_edit_stores_what_its_ops_made(
    d: Doings,
    t: Asked,
    mode: EditMode,
    attempt: nat,
    diagnostics: Seq<Seq<char>>,
    context: Vec<u8>,
    schema: String,
    reply: ModelResponse,
    items: Seq<Json>,
    bytes: Vec<u8>,
    out: Digest,
)
    requires
        are_doings(d),
        d.node.op@ == (OpModel::Edit {
            path: t.path,
            target: t.target,
            instruction: t.instruction,
            mode,
            attempt,
            diagnostics,
        }),
        d.node.inputs@.len() > 1,
        d.told.len() == 6,
        d.told[0] == Told::Loaded(Ok(())),
        d.told[1] == Told::Content(Some(context)),
        d.told[2] == Told::Schema(schema),
        d.told[3] matches Told::Replied { reply: r, .. } && r == Ok::<
            ModelResponse,
            crate::orchestrator::model::ModelError,
        >(reply),
        reply_items(reply@.json) == Some(items),
        d.told[4] matches Told::Applied { applied: r, .. } && r == Ok::<
            Vec<u8>,
            crate::adapter::AdapterError,
        >(bytes),
        d.told[5] matches Told::Stored { stored: r, .. } && r == Ok::<Digest, String>(out),
    ensures
        d.acts[0] == Act::Load(d.node.inputs@[0]),
        d.acts[1] == Act::Read(d.node.inputs@[1]),
        d.acts[2] is Schema,
        d.acts[3] matches Act::Ask { planner, request } && {
            &&& !planner
            &&& request.model_id@ == d.node.cfg.executor_model_id@
            &&& opt_text(request.schema) == Some(schema@)
            &&& request.user@ == "# instruction\n"@ + trim_of(t.instruction) + "\n\n"@ + told_again(
                if diagnostics.len() > MAX_DIAGNOSTICS {
                    diagnostics.take(MAX_DIAGNOSTICS as int)
                } else {
                    diagnostics
                },
            ) + "# context\n"@ + text_of(context@)
        },
        d.acts[4] matches Act::Apply(ops) && are_ops(ops@, items),
        d.acts[5] == Act::Store(bytes),
        d.acts[6] matches Act::Done(r) && r.output.verdict is Pass && r.output.outputs@ == seq![out]
            && r.expansion is None,
{
    let given = if diagnostics.len() > MAX_DIAGNOSTICS {
        diagnostics.take(MAX_DIAGNOSTICS as int)
    } else {
        diagnostics
    };
    lemma_bullets(given);
    let head = "# instruction\n"@ + trim_of(t.instruction) + "\n\n"@;
    assert(head + told_again(given) =~= if diagnostics.len() == 0 {
        head
    } else {
        head + "# diagnostics from the last attempt\n"@ + bullet_list(given) + "\n"@
    });
    assert(d.told[0] is Loaded && d.told[1] is Content && d.told[2] is Schema);
    assert(d.told[3] is Replied && d.told[4] is Applied && d.told[5] is Stored);
}

/// An edit whose ops were refused, and that may be tried again, hands over to one step: the same
/// edit of the same file from the same inputs, one attempt later, which is told why.
pub proof fn law_a_refused_edit_is_tried_again_and_told_why(
    n: Node,
    s: Stage,
    told: Told,
    m: MetricsSnapshot,
    s2: Stage,
    a: Act,
    m2: MetricsSnapshot,
    t: Asked,
    mode: EditMode,
    attempt: nat,
    diagnostics: Seq<Seq<char>>,
    why: crate::adapter::AdapterError,
)
    requires
        moves(n, s, told, m, s2, a, m2),
        n.op@ == (OpModel::Edit {
            path: t.path,
            target: t.target,
            instruction: t.instruction,
            mode,
            attempt,
            diagnostics,
        }),
        s is Applying,
        told matches Told::Applied { applied, .. } && applied == Err::<
            Vec<u8>,
            crate::adapter::AdapterError,
        >(why),
        attempt + 1 < n.cfg.max_attempts,
    ensures
        a matches Act::Done(r) && r.expansion is Some && {
            let x = r.expansion->0;
            &&& x.nodes@.len() == 1
            &&& x.substitute@ == "retry"@
            &&& is_link(
                x.nodes@[0],
                Link {
                    key: "retry"@,
                    kind: NodeKind::Op,
                    op: OpModel::Edit {
                        path: t.path,
                        target: t.target,
                        instruction: t.instruction,
                        mode: if attempt == 0 {
                            EditMode::Ops
                        } else {
                            EditMode::Diff
                        },
                        attempt: attempt + 1,
                        diagnostics: seq!["the ops were rejected: "@ + why@.sentence()],
                    },
                    deps: n.spec.dep_names(),
                },
                n.spec.env,
            )
        },
{
}

} // verus!
