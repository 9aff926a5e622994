//! The layer that turns a request into a graph.
//!
//! The engine knows about nodes and hashes. The adapters know about functions and blocks. Here is
//! the only place that knows both, plus the two models: the planner, big, and the executor, small.

pub mod chain;
pub mod courses;
pub mod exec;
pub mod key;
pub mod model;
pub mod nodes;
pub mod ops;
pub mod prompts;
pub mod replan;
pub mod work;

use crate::engine::graph::NodeSpec;
use crate::engine::graph::Steps;
use crate::engine::graph::TaskGraph;
use crate::engine::report::NodeReport;
use crate::engine::report::RunReport;
use crate::identity::blake3_of;
use crate::identity::hex_of;
use crate::identity::Digest;
use crate::identity::Env;
use crate::identity::NodeKind;
use crate::text::contains;
use crate::text::has_text;
use crate::text::texts;
use crate::wording::replace_all;
use crate::wording::replaced;
use key::outline_key;
use key::source_key;
use nodes::encoded;
use nodes::NodeOp;
use nodes::OpModel;
use prompts::version_of;
use vstd::prelude::*;
use vstd::utf8::encode_utf8;

verus! {

/// Why a task does not run.
pub enum TaskError {
    /// A file could not be read.
    Read { path: String, why: String },
    NoFiles,
}

/// What an error says.
#[verifier::ext_equal]
pub ghost enum TaskFault {
    Read { path: Seq<char>, why: Seq<char> },
    NoFiles,
}

impl View for TaskError {
    type V = TaskFault;

    open spec fn view(&self) -> TaskFault {
        match *self {
            TaskError::Read { path, why } => TaskFault::Read { path: path@, why: why@ },
            TaskError::NoFiles => TaskFault::NoFiles,
        }
    }
}

impl TaskFault {
    /// The sentence that reports it.
    pub open spec fn sentence(self) -> Seq<char> {
        match self {
            TaskFault::Read { path, why } => "could not read "@ + path + ": "@ + why,
            TaskFault::NoFiles => "a task needs at least one file"@,
        }
    }
}

impl TaskError {
    /// The sentence that reports this error.
    pub fn message(&self) -> (r: String)
        ensures
            r@ == self@.sentence(),
    {
        match self {
            TaskError::Read { path, why } => {
                let mut m = "could not read ".to_owned();
                m.push_str(path.as_str());
                m.push_str(": ");
                m.push_str(why.as_str());
                m
            },
            TaskError::NoFiles => "a task needs at least one file".to_owned(),
        }
    }
}

/// A path with forward slashes.
pub fn normal_path(path: &str) -> (r: String)
    ensures
        r@ == replaced(path@, "\\"@, "/"@),
{
    proof {
        reveal_strlit("\\");
    }
    replace_all(path, "\\", "/")
}

/// The id of a task that was given none.
pub open spec fn default_task_id(instruction: Seq<char>) -> Seq<char> {
    "task-"@ + hex_of(blake3_of(encode_utf8(instruction))).take(12)
}

/// The id of a task: the one it was given, so that an interrupted run resumes at its frontier, or
/// one that comes from its instruction.
pub fn task_id(given: Option<&str>, instruction: &str) -> (r: String)
    ensures
        r@ == match given {
            Some(id) => id@,
            None => default_task_id(instruction@),
        },
{
    match given {
        Some(id) => id.to_owned(),
        None => {
            let mut t = "task-".to_owned();
            let d = Digest::of(instruction.as_bytes()).short();
            t.push_str(d.as_str());
            t
        },
    }
}

/// A file of a task: its path and the hash of its content.
pub open spec fn file_views(v: Seq<(String, Digest)>) -> Seq<(Seq<char>, Seq<u8>)> {
    v.map_values(|f: (String, Digest)| (f.0@, f.1@))
}

/// The paths of files.
pub open spec fn paths_of(f: Seq<(Seq<char>, Seq<u8>)>) -> Seq<Seq<char>> {
    f.map_values(|x: (Seq<char>, Seq<u8>)| x.0)
}

/// Is this the environment of work that no model does?
pub open spec fn plain_env(e: Env) -> bool {
    e.model_id@ == "-"@ && e.prompt_version@ == "-"@ && e.adapter_version@ == "v0"@
}

/// Is this the source node of a file?
pub open spec fn is_source(n: NodeSpec, f: (Seq<char>, Seq<u8>)) -> bool {
    &&& n.key@ == source_key(f.0)
    &&& n.kind is Data
    &&& n.op@ == encoded(OpModel::Source { path: f.0, content: f.1 })
    &&& n.dep_names() == Seq::<Seq<char>>::empty()
    &&& plain_env(n.env)
    &&& n.lane@ == "cpu"@
}

/// Is this the outline node of a file?
pub open spec fn is_outline(n: NodeSpec, path: Seq<char>) -> bool {
    &&& n.key@ == outline_key(path)
    &&& n.kind is Context
    &&& n.op@ == encoded(OpModel::Outline { path })
    &&& n.dep_names() == seq![source_key(path)]
    &&& plain_env(n.env)
    &&& n.lane@ == "cpu"@
}

/// Is this the planner's node? It reads outlines, not contents: an edit that changes a function
/// body but no signature leaves every outline as it was, so the plan is a cache hit.
pub open spec fn is_plan(n: NodeSpec, instruction: Seq<char>, paths: Seq<Seq<char>>) -> bool {
    &&& n.key@ == "plan"@
    &&& n.kind is Plan
    &&& n.op@ == encoded(OpModel::Plan { instruction, paths })
    &&& n.dep_names() == paths.map_values(|p: Seq<char>| outline_key(p))
    &&& n.env.model_id@ == "planner"@
    &&& n.env.prompt_version@ == version_of(prompts::PLAN_SYSTEM@)
    &&& n.env.adapter_version@ == "orchestrator-v1"@
    &&& n.lane@ == "model"@
}

/// Does a graph hold the nodes of these files and no others?
pub open spec fn holds_files(g: Steps, f: Seq<(Seq<char>, Seq<u8>)>) -> bool {
    &&& forall|i: int|
        0 <= i < f.len() ==> {
            &&& g.contains_key(source_key((#[trigger] f[i]).0))
            &&& is_source(g[source_key(f[i].0)], f[i])
            &&& g.contains_key(outline_key(f[i].0))
            &&& is_outline(g[outline_key(f[i].0)], f[i].0)
        }
    &&& forall|k: Seq<char>| #[trigger]
        g.contains_key(k) ==> exists|i: int|
            0 <= i < f.len() && (k == source_key((#[trigger] f[i]).0) || k == outline_key(f[i].0))
}

/// Is this the graph of a task: a source and an outline for each file, and the planner?
pub open spec fn is_task_graph(
    g: Steps,
    instruction: Seq<char>,
    f: Seq<(Seq<char>, Seq<u8>)>,
) -> bool {
    &&& g.contains_key("plan"@)
    &&& is_plan(g["plan"@], instruction, paths_of(f))
    &&& holds_files(g.remove("plan"@), f)
}

proof fn lemma_keys_differ(a: Seq<char>, b: Seq<char>)
    ensures
        source_key(a) != outline_key(b),
        source_key(a) != "plan"@,
        outline_key(a) != "plan"@,
        source_key(a) == source_key(b) ==> a == b,
        outline_key(a) == outline_key(b) ==> a == b,
{
    reveal_strlit("src:");
    reveal_strlit("outline:");
    reveal_strlit("plan");
    assert(source_key(a)[0] == 's');
    assert(outline_key(b)[0] == 'o');
    assert(outline_key(a)[0] == 'o');
    assert("plan"@[0] == 'p');
    assert(source_key(a).skip(4) =~= a);
    assert(source_key(b).skip(4) =~= b);
    assert(outline_key(a).skip(8) =~= a);
    assert(outline_key(b).skip(8) =~= b);
}

/// Adds the nodes of one file.
fn add_file(g: &mut TaskGraph, path: &str, content: Digest, Ghost(f): Ghost<
    Seq<(Seq<char>, Seq<u8>)>,
>)
    requires
        old(g).wf(),
        holds_files(old(g)@, f),
        !paths_of(f).contains(path@),
    ensures
        final(g).wf(),
        holds_files(final(g)@, f.push((path@, content@))),
{
    let ghost g0 = g@;
    let ghost n = f.push((path@, content@));
    let sk = key::source(path);
    let ok = key::outline(path);
    proof {
        assert forall|i: int| 0 <= i < f.len() implies (#[trigger] f[i]).0 != path@ by {
            assert(paths_of(f)[i] == f[i].0);
        }
        lemma_keys_differ(path@, path@);
        assert(!g0.contains_key(sk@)) by {
            if g0.contains_key(sk@) {
                let i = choose|i: int|
                    0 <= i < f.len() && (sk@ == source_key((#[trigger] f[i]).0) || sk@
                        == outline_key(f[i].0));
                lemma_keys_differ(path@, f[i].0);
            }
        }
        assert(!g0.contains_key(ok@)) by {
            if g0.contains_key(ok@) {
                let i = choose|i: int|
                    0 <= i < f.len() && (ok@ == source_key((#[trigger] f[i]).0) || ok@
                        == outline_key(f[i].0));
                lemma_keys_differ(f[i].0, path@);
                lemma_keys_differ(path@, f[i].0);
            }
        }
    }
    let op = NodeOp::Source { path: path.to_owned(), content };
    let bytes = op.encode();
    let source = NodeSpec::new(sk.as_str(), NodeKind::Data).op(bytes);
    assert(source.dep_names() =~= Seq::<Seq<char>>::empty());
    let _ = g.add(source);
    let op = NodeOp::Outline { path: path.to_owned() };
    let bytes = op.encode();
    let base = NodeSpec::new(ok.as_str(), NodeKind::Context).op(bytes);
    assert(base.dep_names() =~= Seq::<Seq<char>>::empty());
    let out = base.dep(sk.as_str());
    assert(out.dep_names() =~= seq![source_key(path@)]);
    proof {
        assert(!out.dep_names().contains(ok@)) by {
            if out.dep_names().contains(ok@) {
                assert(out.dep_names()[0] == ok@);
            }
        }
    }
    let _ = g.add(out);
    proof {
        assert(g@ == g0.insert(sk@, source).insert(ok@, out));
        assert forall|i: int| 0 <= i < n.len() implies {
            &&& g@.contains_key(source_key((#[trigger] n[i]).0))
            &&& is_source(g@[source_key(n[i].0)], n[i])
            &&& g@.contains_key(outline_key(n[i].0))
            &&& is_outline(g@[outline_key(n[i].0)], n[i].0)
        } by {
            lemma_keys_differ(n[i].0, path@);
            lemma_keys_differ(path@, n[i].0);
            if i < f.len() {
                assert(n[i] == f[i]);
            }
        }
        assert forall|k: Seq<char>| #[trigger] g@.contains_key(k) implies exists|i: int|
            0 <= i < n.len() && (k == source_key((#[trigger] n[i]).0) || k == outline_key(
                n[i].0,
            )) by {
            if k == sk@ || k == ok@ {
                assert(n[f.len() as int].0 == path@);
            } else {
                assert(g0.contains_key(k));
                let i = choose|i: int|
                    0 <= i < f.len() && (k == source_key((#[trigger] f[i]).0) || k == outline_key(
                        f[i].0,
                    ));
                assert(n[i] == f[i]);
            }
        }
    }
}

/// Builds the graph of a task: one source node and one outline node per file, plus a planner that
/// expands into the work. The planner is a node like any other, which is what makes the plan itself
/// cacheable.
pub fn task_graph(instruction: &str, files: &Vec<(String, Digest)>) -> (r: Result<
    TaskGraph,
    TaskError,
>)
    requires
        paths_of(file_views(files@)).no_duplicates(),
    ensures
        match r {
            Ok(g) => files@.len() > 0 && g.wf() && is_task_graph(
                g@,
                instruction@,
                file_views(files@),
            ),
            Err(e) => files@.len() == 0 && e@ == TaskFault::NoFiles,
        },
{
    if files.len() == 0 {
        return Err(TaskError::NoFiles);
    }
    let mut g = TaskGraph::new();
    let ghost f = file_views(files@);
    let ghost ps = paths_of(f);
    let mut paths: Vec<String> = Vec::new();
    let mut deps: Vec<String> = Vec::new();
    let ghost outs = ps.map_values(|p: Seq<char>| outline_key(p));
    let mut i: usize = 0;
    proof {
        assert(texts(paths@) =~= ps.take(0));
        assert(texts(deps@) =~= outs.take(0));
        assert(f.take(0) =~= Seq::<(Seq<char>, Seq<u8>)>::empty());
    }
    while i < files.len()
        invariant
            i <= files@.len(),
            f == file_views(files@),
            ps == paths_of(f),
            ps.no_duplicates(),
            outs == ps.map_values(|p: Seq<char>| outline_key(p)),
            g.wf(),
            holds_files(g@, f.take(i as int)),
            texts(paths@) == ps.take(i as int),
            texts(deps@) == outs.take(i as int),
        decreases files@.len() - i,
    {
        let p = &files[i].0;
        proof {
            assert(f[i as int] == (p@, files@[i as int].1@));
            assert(ps[i as int] == p@);
            assert(f.take(i + 1) =~= f.take(i as int).push(f[i as int]));
            let old_paths = paths_of(f.take(i as int));
            assert(!old_paths.contains(p@)) by {
                if old_paths.contains(p@) {
                    let k = choose|k: int| 0 <= k < old_paths.len() && old_paths[k] == p@;
                    assert(ps[k] == p@);
                }
            }
        }
        add_file(&mut g, p.as_str(), files[i].1, Ghost(f.take(i as int)));
        let ghost (pw, dw) = (texts(paths@), texts(deps@));
        paths.push(p.clone());
        deps.push(key::outline(p.as_str()));
        proof {
            assert(texts(paths@) =~= pw.push(p@));
            assert(ps.take(i + 1) =~= pw.push(p@));
            assert(texts(deps@) =~= dw.push(outline_key(p@)));
            assert(outs.take(i + 1) =~= dw.push(outline_key(p@)));
        }
        i += 1;
    }
    proof {
        assert(f.take(i as int) =~= f);
        assert(ps.take(i as int) =~= ps);
        assert(outs.take(i as int) =~= outs);
    }
    let op = NodeOp::Plan { instruction: instruction.to_owned(), paths };
    let bytes = op.encode();
    let v = prompts::version(prompts::PLAN_SYSTEM);
    let pk = key::plan();
    let base = NodeSpec::new(pk.as_str(), NodeKind::Plan).op(bytes).env(
        Env::new("planner", v.as_str(), "orchestrator-v1"),
    );
    assert(base.dep_names() =~= Seq::<Seq<char>>::empty());
    let plan = base.deps(&deps);
    let ghost g0 = g@;
    proof {
        assert(plan.dep_names() =~= outs);
        assert(!outs.contains("plan"@)) by {
            if outs.contains("plan"@) {
                let k = choose|k: int| 0 <= k < outs.len() && outs[k] == "plan"@;
                lemma_keys_differ(ps[k], ps[k]);
            }
        }
        assert(!g0.contains_key("plan"@)) by {
            if g0.contains_key("plan"@) {
                let k = choose|k: int|
                    0 <= k < f.len() && ("plan"@ == source_key((#[trigger] f[k]).0) || "plan"@
                        == outline_key(f[k].0));
                lemma_keys_differ(f[k].0, f[k].0);
            }
        }
    }
    let _ = g.add(plan);
    proof {
        assert(g@.remove("plan"@) =~= g0);
    }
    Ok(g)
}

/// A change to a file's content moves its source node and no other: the planner names paths, not
/// contents, so whether it runs again is up to what the outlines say.
pub proof fn law_a_changed_file_moves_only_its_source(
    a: Steps,
    b: Steps,
    instruction: Seq<char>,
    f: Seq<(Seq<char>, Seq<u8>)>,
    i: int,
    content: Seq<u8>,
    k: Seq<char>,
)
    requires
        0 <= i < f.len(),
        is_task_graph(a, instruction, f),
        is_task_graph(b, instruction, f.update(i, (f[i].0, content))),
        k != source_key(f[i].0),
    ensures
        a.contains_key(k) <==> b.contains_key(k),
        a.contains_key(k) ==> a[k].op@ == b[k].op@ && a[k].dep_names() == b[k].dep_names(),
{
    let f2 = f.update(i, (f[i].0, content));
    assert(paths_of(f2) =~= paths_of(f));
    if k != "plan"@ {
        let x = a.remove("plan"@);
        let y = b.remove("plan"@);
        if a.contains_key(k) {
            assert(x.contains_key(k));
            let j = choose|j: int|
                0 <= j < f.len() && (k == source_key((#[trigger] f[j]).0) || k == outline_key(
                    f[j].0,
                ));
            assert(f2[j].0 == f[j].0);
            assert(y.contains_key(k));
            lemma_keys_differ(f[j].0, f[i].0);
            lemma_keys_differ(f[i].0, f[j].0);
            if k == source_key(f[j].0) {
                assert(j != i);
                assert(f2[j] == f[j]);
            }
        }
        if b.contains_key(k) {
            assert(y.contains_key(k));
            let j = choose|j: int|
                0 <= j < f2.len() && (k == source_key((#[trigger] f2[j]).0) || k == outline_key(
                    f2[j].0,
                ));
            assert(f2[j].0 == f[j].0);
            assert(x.contains_key(k));
        }
    }
}

/// Is a node an edit of a file or one of its rungs, or a retry or a fix of one?
pub open spec fn about(k: Seq<char>, path: Seq<char>) -> bool {
    has_text(k, "edit:"@ + path + "#"@) || has_text(k, "verify:"@ + path + "@"@)
}

/// Does a node hold a result for a file?
pub open spec fn has_result(n: NodeReport, path: Seq<char>) -> bool {
    about(n.key@, path) && n.outputs@.len() > 0
}

/// The place of the node that finished last of those with a result for a file; of those that
/// finished together, the last. The number of nodes where there is none.
pub open spec fn latest_result(nodes: Seq<NodeReport>, path: Seq<char>) -> int
    decreases nodes.len(),
{
    if nodes.len() == 0 {
        0
    } else {
        let r = latest_result(nodes.drop_last(), path);
        let found = r < nodes.len() - 1;
        if has_result(nodes.last(), path) && (!found || nodes.last().finished_at_ms
            >= nodes[r].finished_at_ms) {
            nodes.len() - 1
        } else if found {
            r
        } else {
            nodes.len() as int
        }
    }
}

proof fn lemma_latest(nodes: Seq<NodeReport>, path: Seq<char>)
    ensures
        0 <= latest_result(nodes, path) <= nodes.len(),
        latest_result(nodes, path) < nodes.len() ==> has_result(
            nodes[latest_result(nodes, path)],
            path,
        ),
    decreases nodes.len(),
{
    if nodes.len() > 0 {
        lemma_latest(nodes.drop_last(), path);
    }
}

/// The content that a run produced for one file, where it did. Nothing is written to disk by the
/// runtime itself: a task produces content, and committing that content to the working tree is a
/// separate, explicit step.
pub fn result_for<'a>(report: &'a RunReport, path: &str) -> (r: Option<&'a Digest>)
    ensures
        ({
            let i = latest_result(report.nodes@, path@);
            match r {
                Some(d) => i < report.nodes@.len() && *d == report.nodes@[i].outputs@[0],
                None => i == report.nodes@.len(),
            }
        }),
{
    let mut at = "verify:".to_owned();
    at.push_str(path);
    at.push_str("@");
    let mut hash = "edit:".to_owned();
    hash.push_str(path);
    hash.push_str("#");
    let ghost all = report.nodes@;
    let n = report.nodes.len();
    let mut best: usize = 0;
    let mut found = false;
    let mut i: usize = 0;
    assert(all.take(0) =~= Seq::<NodeReport>::empty());
    while i < n
        invariant
            i <= n,
            n == report.nodes@.len(),
            all == report.nodes@,
            at@ == "verify:"@ + path@ + "@"@,
            hash@ == "edit:"@ + path@ + "#"@,
            found ==> best < i && best == latest_result(all.take(i as int), path@),
            !found ==> latest_result(all.take(i as int), path@) == i,
        decreases n - i,
    {
        let ghost nn = all.take(i + 1);
        assert(nn.drop_last() =~= all.take(i as int));
        assert(nn.last() == all[i as int]);
        let x = &report.nodes[i];
        let k = x.key.as_str();
        if (contains(k, at.as_str()) || contains(k, hash.as_str())) && x.outputs.len() > 0 {
            if !found || x.finished_at_ms >= report.nodes[best].finished_at_ms {
                best = i;
                found = true;
            }
        }
        i += 1;
    }
    proof {
        assert(all.take(i as int) =~= all);
        lemma_latest(all, path@);
    }
    if found {
        Some(&report.nodes[best].outputs[0])
    } else {
        None
    }
}

} // verus!
