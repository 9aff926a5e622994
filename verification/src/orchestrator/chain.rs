//! The chain of steps that a list of edits turns into.

use crate::engine::graph::NodeSpec;
use crate::identity::Env;
use crate::identity::NodeKind;
use crate::orchestrator::key;
use crate::orchestrator::key::edit_key;
use crate::orchestrator::key::pack_key;
use crate::orchestrator::key::source_key;
use crate::orchestrator::key::verify_key;
use crate::orchestrator::nodes::encoded;
use crate::orchestrator::nodes::EditMode;
use crate::orchestrator::nodes::NodeOp;
use crate::orchestrator::nodes::OpModel;
use crate::text::decimal;
use crate::text::same;
use crate::text::show;
use crate::text::texts;
use crate::wording::lemma_decimal;
use vstd::prelude::*;

verus! {

/// One edit the planner asked for.
pub struct EditRequest {
    pub path: String,
    /// Entity id, e.g. `fn:Parser::parse`.
    pub target: String,
    pub instruction: String,
}

/// What an edit asks for.
#[verifier::ext_equal]
pub ghost struct Asked {
    pub path: Seq<char>,
    pub target: Seq<char>,
    pub instruction: Seq<char>,
}

impl View for EditRequest {
    type V = Asked;

    open spec fn view(&self) -> Asked {
        Asked { path: self.path@, target: self.target@, instruction: self.instruction@ }
    }
}

/// What a list of edits asks for.
pub open spec fn asked(v: Seq<EditRequest>) -> Seq<Asked> {
    v.map_values(|e: EditRequest| e@)
}

/// The steps for a set of edits in dependency order, along with the key of the final step, which is
/// what a planner hands to the engine as its substitute.
pub struct Chain {
    pub nodes: Vec<NodeSpec>,
    pub tail: String,
}

pub struct ChainConfig {
    pub env: Env,
    /// Which rungs to run per edit. The task level rung is not in here.
    pub levels: Vec<u8>,
    pub budget_chars: usize,
}

/// One step of a chain: its key, what it does and what it reads.
#[verifier::ext_equal]
pub ghost struct Link {
    pub key: Seq<char>,
    pub kind: NodeKind,
    pub op: OpModel,
    pub deps: Seq<Seq<char>>,
}

/// Is a step this link, in this environment?
pub open spec fn is_link(n: NodeSpec, l: Link, env: Env) -> bool {
    &&& n.key@ == l.key
    &&& n.kind == l.kind
    &&& n.op@ == encoded(l.op)
    &&& n.env == env
    &&& n.dep_names() == l.deps
    &&& n.lane@ == if l.kind is Plan || l.kind is Op {
        "model"@
    } else {
        "cpu"@
    }
}

/// Are the steps these links, one by one?
pub open spec fn are_links(v: Seq<NodeSpec>, l: Seq<Link>, env: Env) -> bool {
    &&& v.len() == l.len()
    &&& forall|i: int| 0 <= i < v.len() ==> is_link(#[trigger] v[i], l[i], env)
}

/// A key with a number behind it, which tells it from the others of its chain.
pub open spec fn numbered(key: Seq<char>, n: nat) -> Seq<char> {
    key + "$"@ + decimal(n)
}

/// A chain so far: its links, and for each file that was edited the key of its last step.
#[verifier::ext_equal]
pub ghost struct Draft {
    pub links: Seq<Link>,
    pub tails: Seq<(Seq<char>, Seq<char>)>,
}

/// Where a file is among the files that were edited, or how many there are.
pub open spec fn tail_at(tails: Seq<(Seq<char>, Seq<char>)>, path: Seq<char>) -> int
    decreases tails.len(),
{
    if tails.len() == 0 || tails[0].0 == path {
        0
    } else {
        1 + tail_at(tails.skip(1), path)
    }
}

/// The step whose output the next edit of a file reads: the last step for the file, or its source.
pub open spec fn upstream(d: Draft, path: Seq<char>) -> Seq<char> {
    let i = tail_at(d.tails, path);
    if i < d.tails.len() {
        d.tails[i].1
    } else {
        source_key(path)
    }
}

/// The tails once a file's last step is another.
pub open spec fn with_tail(
    tails: Seq<(Seq<char>, Seq<char>)>,
    path: Seq<char>,
    key: Seq<char>,
) -> Seq<(Seq<char>, Seq<char>)> {
    let i = tail_at(tails, path);
    if i < tails.len() {
        tails.update(i, (path, key))
    } else {
        tails.push((path, key))
    }
}

/// The pack of an edit: it reads what the edit will read.
pub open spec fn pack_link(d: Draft, e: Asked, budget: nat) -> Link {
    Link {
        key: numbered(pack_key(e.path, e.target), d.links.len()),
        kind: NodeKind::Context,
        op: OpModel::Pack { path: e.path, target: e.target, budget },
        deps: seq![upstream(d, e.path)],
    }
}

/// The edit itself: it reads the artifact first and the pack second.
pub open spec fn edit_link(d: Draft, e: Asked, budget: nat) -> Link {
    Link {
        key: numbered(edit_key(e.path, e.target), d.links.len() + 1),
        kind: NodeKind::Op,
        op: OpModel::Edit {
            path: e.path,
            target: e.target,
            instruction: e.instruction,
            mode: EditMode::Ops,
            attempt: 0,
            diagnostics: Seq::empty(),
        },
        deps: seq![upstream(d, e.path), pack_link(d, e, budget).key],
    }
}

/// The links with the rungs of an edit behind them. Each rung reads the artifact that came through
/// the step before it, and the artifact from before the edit: a rung that does not know what
/// changed is most of a rung.
pub open spec fn with_rungs(
    links: Seq<Link>,
    e: Asked,
    before: Seq<char>,
    levels: Seq<u8>,
) -> Seq<Link>
    decreases levels.len(),
{
    if levels.len() == 0 {
        links
    } else {
        let rest = with_rungs(links, e, before, levels.drop_last());
        rest.push(
            Link {
                key: numbered(verify_key(e.path, levels.last() as nat), rest.len()),
                kind: NodeKind::Verify,
                op: OpModel::Verify {
                    path: e.path,
                    level: levels.last() as nat,
                    attempt: 0,
                    target: e.target,
                    instruction: e.instruction,
                },
                deps: seq![rest.last().key, before],
            },
        )
    }
}

/// A chain with one more edit.
pub open spec fn with_edit(d: Draft, e: Asked, levels: Seq<u8>, budget: nat) -> Draft {
    let made = d.links.push(pack_link(d, e, budget)).push(edit_link(d, e, budget));
    let links = with_rungs(made, e, upstream(d, e.path), levels);
    Draft { links, tails: with_tail(d.tails, e.path, links.last().key) }
}

/// The chain of a list of edits, before it is closed.
pub open spec fn drafted(edits: Seq<Asked>, levels: Seq<u8>, budget: nat) -> Draft
    decreases edits.len(),
{
    if edits.len() == 0 {
        Draft { links: Seq::empty(), tails: Seq::empty() }
    } else {
        with_edit(drafted(edits.drop_last(), levels, budget), edits.last(), levels, budget)
    }
}

/// The step that waits for every file.
pub open spec fn join_link(tails: Seq<(Seq<char>, Seq<char>)>) -> Link {
    Link {
        key: "join"@,
        kind: NodeKind::Data,
        op: OpModel::Pack { path: "<join>"@, target: "<all>"@, budget: 0 },
        deps: tails.map_values(|t: (Seq<char>, Seq<char>)| t.1),
    }
}

/// The links of the chain of a list of edits. Where the edits are not all to one file, a last step
/// joins them, so that there is one step to wait for.
pub open spec fn chain_links(edits: Seq<Asked>, levels: Seq<u8>, budget: nat) -> Seq<Link> {
    let d = drafted(edits, levels, budget);
    if d.tails.len() == 1 {
        d.links
    } else {
        d.links.push(join_link(d.tails))
    }
}

/// The key of the final step.
pub open spec fn chain_tail(edits: Seq<Asked>, levels: Seq<u8>, budget: nat) -> Seq<char> {
    let d = drafted(edits, levels, budget);
    if d.tails.len() == 1 {
        d.tails[0].1
    } else {
        "join"@
    }
}

/// What a run of tails says.
pub open spec fn tail_views(v: Seq<(String, String)>) -> Seq<(Seq<char>, Seq<char>)> {
    v.map_values(|t: (String, String)| (t.0@, t.1@))
}

proof fn lemma_tail_at(tails: Seq<(Seq<char>, Seq<char>)>, path: Seq<char>, n: int)
    requires
        0 <= n <= tails.len(),
        n < tails.len() ==> tails[n].0 == path,
        forall|k: int| 0 <= k < n ==> (#[trigger] tails[k]).0 != path,
    ensures
        tail_at(tails, path) == n,
    decreases n,
{
    if n > 0 {
        assert forall|k: int| 0 <= k < n - 1 implies (#[trigger] tails.skip(1)[k]).0 != path by {
            assert(tails.skip(1)[k] == tails[k + 1]);
        }
        lemma_tail_at(tails.skip(1), path, n - 1);
    }
}

proof fn lemma_tail_found(tails: Seq<(Seq<char>, Seq<char>)>, path: Seq<char>)
    ensures
        0 <= tail_at(tails, path) <= tails.len(),
        tail_at(tails, path) < tails.len() ==> tails[tail_at(tails, path)].0 == path,
        forall|k: int| 0 <= k < tail_at(tails, path) ==> (#[trigger] tails[k]).0 != path,
    decreases tails.len(),
{
    if tails.len() > 0 && tails[0].0 != path {
        lemma_tail_found(tails.skip(1), path);
        let i = tail_at(tails.skip(1), path);
        assert forall|k: int| 0 <= k < i + 1 implies (#[trigger] tails[k]).0 != path by {
            if k > 0 {
                assert(tails.skip(1)[k - 1] == tails[k]);
            }
        }
    }
}

fn find_tail(v: &Vec<(String, String)>, path: &str) -> (r: usize)
    ensures
        r == tail_at(tail_views(v@), path@),
        r <= v@.len(),
{
    let ghost all = tail_views(v@);
    let mut i: usize = 0;
    while i < v.len() && !same(v[i].0.as_str(), path)
        invariant
            i <= v@.len(),
            all == tail_views(v@),
            forall|k: int| 0 <= k < i ==> (#[trigger] all[k]).0 != path@,
        decreases v@.len() - i,
    {
        assert(all[i as int] == (v@[i as int].0@, v@[i as int].1@));
        i += 1;
    }
    proof {
        if i < v@.len() {
            assert(all[i as int] == (v@[i as int].0@, v@[i as int].1@));
        }
        lemma_tail_at(all, path@, i as int);
    }
    i
}

fn number(key: String, n: usize) -> (r: String)
    ensures
        r@ == numbered(key@, n as nat),
{
    let mut k = key;
    k.push_str("$");
    let d = show(n as u64);
    k.push_str(d.as_str());
    k
}

/// One step of a chain.
pub(crate) fn step(key: &str, kind: NodeKind, op: NodeOp, env: &Env, deps: &Vec<String>) -> (r: NodeSpec)
    ensures
        is_link(r, (Link { key: key@, kind, op: op@, deps: texts(deps@) }), *env),
{
    let bytes = op.encode();
    let n = NodeSpec::new(key, kind).op(bytes).env(env.clone());
    assert(n.dep_names() =~= Seq::<Seq<char>>::empty());
    let r = n.deps(deps);
    assert(r.dep_names() =~= texts(deps@));
    r
}

fn add_step(v: &mut Vec<NodeSpec>, n: NodeSpec, Ghost(links): Ghost<Seq<Link>>, Ghost(l): Ghost<Link>, Ghost(
    env,
): Ghost<Env>)
    requires
        are_links(old(v)@, links, env),
        is_link(n, l, env),
    ensures
        are_links(final(v)@, links.push(l), env),
{
    v.push(n);
}

fn two(a: &str, b: &str) -> (r: Vec<String>)
    ensures
        texts(r@) == seq![a@, b@],
{
    let mut v: Vec<String> = Vec::new();
    v.push(a.to_owned());
    v.push(b.to_owned());
    assert(texts(v@) =~= seq![a@, b@]);
    v
}

/// Adds the rungs of one edit, behind the step `last`. The key of the last step comes back.
fn add_rungs(
    nodes: &mut Vec<NodeSpec>,
    e: &EditRequest,
    before: &str,
    last: String,
    cfg: &ChainConfig,
    Ghost(links): Ghost<Seq<Link>>,
) -> (r: String)
    requires
        are_links(old(nodes)@, links, cfg.env),
        links.len() > 0,
        links.last().key == last@,
    ensures
        are_links(final(nodes)@, with_rungs(links, e@, before@, cfg.levels@), cfg.env),
        r@ == with_rungs(links, e@, before@, cfg.levels@).last().key,
        with_rungs(links, e@, before@, cfg.levels@).len() > 0,
{
    let mut last = last;
    let ghost lv = cfg.levels@;
    let mut i: usize = 0;
    assert(lv.take(0) =~= Seq::<u8>::empty());
    while i < cfg.levels.len()
        invariant
            i <= cfg.levels@.len(),
            lv == cfg.levels@,
            are_links(nodes@, with_rungs(links, e@, before@, lv.take(i as int)), cfg.env),
            with_rungs(links, e@, before@, lv.take(i as int)).len() > 0,
            last@ == with_rungs(links, e@, before@, lv.take(i as int)).last().key,
        decreases cfg.levels@.len() - i,
    {
        let ghost nn = lv.take(i + 1);
        let ghost sofar = with_rungs(links, e@, before@, lv.take(i as int));
        proof {
            assert(nn.drop_last() =~= lv.take(i as int));
            assert(nn.last() == lv[i as int]);
        }
        let level = cfg.levels[i];
        let k = number(key::verify(e.path.as_str(), level), nodes.len());
        let op = NodeOp::Verify {
            path: e.path.clone(),
            level,
            attempt: 0,
            target: e.target.clone(),
            instruction: e.instruction.clone(),
        };
        let ghost opv = op@;
        let deps = two(last.as_str(), before);
        let n = step(k.as_str(), NodeKind::Verify, op, &cfg.env, &deps);
        let ghost l = Link { key: k@, kind: NodeKind::Verify, op: opv, deps: texts(deps@) };
        assert(with_rungs(links, e@, before@, nn) == sofar.push(l));
        add_step(nodes, n, Ghost(sofar), Ghost(l), Ghost(cfg.env));
        last = k;
        i += 1;
    }
    assert(lv.take(i as int) =~= lv);
    last
}

/// Adds the steps of one edit: its pack, the edit, and its rungs.
fn add_edit(
    nodes: &mut Vec<NodeSpec>,
    tails: &mut Vec<(String, String)>,
    e: &EditRequest,
    cfg: &ChainConfig,
    Ghost(d): Ghost<Draft>,
)
    requires
        are_links(old(nodes)@, d.links, cfg.env),
        tail_views(old(tails)@) == d.tails,
    ensures
        are_links(
            final(nodes)@,
            with_edit(d, e@, cfg.levels@, cfg.budget_chars as nat).links,
            cfg.env,
        ),
        tail_views(final(tails)@) == with_edit(d, e@, cfg.levels@, cfg.budget_chars as nat).tails,
{
    let ghost budget = cfg.budget_chars as nat;
    let at = find_tail(tails, e.path.as_str());
    let up = if at < tails.len() {
        assert(d.tails[at as int] == (tails@[at as int].0@, tails@[at as int].1@));
        tails[at].1.clone()
    } else {
        key::source(e.path.as_str())
    };
    assert(up@ == upstream(d, e@.path));
    let n0 = nodes.len();
    let pk = number(key::pack(e.path.as_str(), e.target.as_str()), n0);
    let op = NodeOp::Pack {
        path: e.path.clone(),
        target: e.target.clone(),
        budget_chars: cfg.budget_chars,
    };
    let mut one: Vec<String> = Vec::new();
    one.push(up.clone());
    assert(texts(one@) =~= seq![up@]);
    let n = step(pk.as_str(), NodeKind::Context, op, &cfg.env, &one);
    add_step(nodes, n, Ghost(d.links), Ghost(pack_link(d, e@, budget)), Ghost(cfg.env));
    let ghost first = d.links.push(pack_link(d, e@, budget));
    let n1 = nodes.len();
    let ek = number(key::edit(e.path.as_str(), e.target.as_str()), n1);
    let none: Vec<String> = Vec::new();
    assert(texts(none@) =~= Seq::<Seq<char>>::empty());
    let op = NodeOp::Edit {
        path: e.path.clone(),
        target: e.target.clone(),
        instruction: e.instruction.clone(),
        mode: EditMode::Ops,
        attempt: 0,
        diagnostics: none,
    };
    let deps = two(up.as_str(), pk.as_str());
    let n = step(ek.as_str(), NodeKind::Op, op, &cfg.env, &deps);
    add_step(nodes, n, Ghost(first), Ghost(edit_link(d, e@, budget)), Ghost(cfg.env));
    let ghost made = first.push(edit_link(d, e@, budget));
    assert(made.last() == edit_link(d, e@, budget));
    let last = add_rungs(nodes, e, up.as_str(), ek, cfg, Ghost(made));
    let ghost was = tail_views(tails@);
    let ghost lv = last@;
    if at < tails.len() {
        tails.set(at, (e.path.clone(), last));
        assert(tail_views(tails@) =~= was.update(at as int, (e.path@, lv)));
    } else {
        tails.push((e.path.clone(), last));
        assert(tail_views(tails@) =~= was.push((e.path@, lv)));
    }
}

/// Builds the pack / edit / verify chain for a set of edits.
///
/// Edits against one file are chained: each sees the artifact the previous one produced. Edits
/// against different files are independent and run concurrently.
pub fn build_chain(edits: &Vec<EditRequest>, cfg: &ChainConfig) -> (r: Chain)
    ensures
        are_links(
            r.nodes@,
            chain_links(asked(edits@), cfg.levels@, cfg.budget_chars as nat),
            cfg.env,
        ),
        r.tail@ == chain_tail(asked(edits@), cfg.levels@, cfg.budget_chars as nat),
{
    let mut nodes: Vec<NodeSpec> = Vec::new();
    let mut tails: Vec<(String, String)> = Vec::new();
    let ghost all = asked(edits@);
    let ghost lv = cfg.levels@;
    let ghost budget = cfg.budget_chars as nat;
    let mut i: usize = 0;
    assert(all.take(0) =~= Seq::<Asked>::empty());
    assert(tail_views(tails@) =~= Seq::<(Seq<char>, Seq<char>)>::empty());
    while i < edits.len()
        invariant
            i <= edits@.len(),
            all == asked(edits@),
            lv == cfg.levels@,
            budget == cfg.budget_chars as nat,
            are_links(nodes@, drafted(all.take(i as int), lv, budget).links, cfg.env),
            tail_views(tails@) == drafted(all.take(i as int), lv, budget).tails,
        decreases edits@.len() - i,
    {
        proof {
            let nn = all.take(i + 1);
            assert(nn.drop_last() =~= all.take(i as int));
            assert(nn.last() == edits@[i as int]@);
        }
        add_edit(
            &mut nodes,
            &mut tails,
            &edits[i],
            cfg,
            Ghost(drafted(all.take(i as int), lv, budget)),
        );
        i += 1;
    }
    assert(all.take(i as int) =~= all);
    let ghost d = drafted(all, lv, budget);
    if tails.len() == 1 {
        assert(d.tails[0] == (tails@[0].0@, tails@[0].1@));
        let tail = tails[0].1.clone();
        return Chain { nodes, tail };
    }
    let mut deps: Vec<String> = Vec::new();
    let ghost ends = d.tails.map_values(|t: (Seq<char>, Seq<char>)| t.1);
    let mut j: usize = 0;
    assert(texts(deps@) =~= ends.take(0));
    while j < tails.len()
        invariant
            j <= tails@.len(),
            tail_views(tails@) == d.tails,
            ends == d.tails.map_values(|t: (Seq<char>, Seq<char>)| t.1),
            texts(deps@) == ends.take(j as int),
        decreases tails@.len() - j,
    {
        let ghost was = texts(deps@);
        assert(d.tails[j as int] == (tails@[j as int].0@, tails@[j as int].1@));
        deps.push(tails[j].1.clone());
        assert(texts(deps@) =~= was.push(ends[j as int]));
        assert(ends.take(j + 1) =~= was.push(ends[j as int]));
        j += 1;
    }
    assert(ends.take(j as int) =~= ends);
    let op = NodeOp::Pack {
        path: "<join>".to_owned(),
        target: "<all>".to_owned(),
        budget_chars: 0,
    };
    let n = step("join", NodeKind::Data, op, &cfg.env, &deps);
    add_step(&mut nodes, n, Ghost(d.links), Ghost(join_link(d.tails)), Ghost(cfg.env));
    Chain { nodes, tail: "join".to_owned() }
}

/// An edit to a file that no earlier edit of the list touches reads the file's source: a second
/// file does not wait on the first.
pub proof fn law_a_first_edit_reads_the_source(
    edits: Seq<Asked>,
    levels: Seq<u8>,
    budget: nat,
    e: Asked,
)
    requires
        forall|i: int| 0 <= i < edits.len() ==> (#[trigger] edits[i]).path != e.path,
    ensures
        ({
            let d = drafted(edits, levels, budget);
            &&& pack_link(d, e, budget).deps == seq![source_key(e.path)]
            &&& edit_link(d, e, budget).deps[0] == source_key(e.path)
        }),
{
    lemma_tails_are_edited(edits, levels, budget);
    let d = drafted(edits, levels, budget);
    lemma_tail_found(d.tails, e.path);
    let i = tail_at(d.tails, e.path);
    if i < d.tails.len() {
        let k = choose|k: int| 0 <= k < edits.len() && (#[trigger] edits[k]).path == d.tails[i].0;
        assert(edits[k].path != e.path);
    }
}

/// Every file with a last step was edited.
proof fn lemma_tails_are_edited(edits: Seq<Asked>, levels: Seq<u8>, budget: nat)
    ensures
        forall|i: int|
            0 <= i < drafted(edits, levels, budget).tails.len() ==> exists|k: int|
                0 <= k < edits.len() && (#[trigger] edits[k]).path == (#[trigger] drafted(
                    edits,
                    levels,
                    budget,
                ).tails[i]).0,
    decreases edits.len(),
{
    if edits.len() > 0 {
        let front = edits.drop_last();
        let d = drafted(front, levels, budget);
        let n = drafted(edits, levels, budget);
        let path = edits.last().path;
        lemma_tails_are_edited(front, levels, budget);
        lemma_tail_found(d.tails, path);
        assert forall|i: int| 0 <= i < n.tails.len() implies exists|k: int|
            0 <= k < edits.len() && (#[trigger] edits[k]).path == (#[trigger] n.tails[i]).0 by {
            if i < d.tails.len() && i != tail_at(d.tails, path) {
                assert(n.tails[i] == d.tails[i]);
                let k = choose|k: int|
                    0 <= k < front.len() && (#[trigger] front[k]).path == d.tails[i].0;
                assert(edits[k].path == n.tails[i].0);
            } else {
                assert(edits[edits.len() - 1].path == n.tails[i].0);
            }
        }
    }
}

/// Two edits to one file are sequenced, not raced: the later one reads the last step of the earlier
/// one, where no edit between them is to the same file.
pub proof fn law_edits_to_one_file_are_sequenced(
    edits: Seq<Asked>,
    levels: Seq<u8>,
    budget: nat,
    i: int,
    e: Asked,
)
    requires
        0 <= i < edits.len(),
        edits[i].path == e.path,
        forall|k: int| i < k < edits.len() ==> (#[trigger] edits[k]).path != e.path,
    ensures
        ({
            let then = drafted(edits.take(i + 1), levels, budget);
            let d = drafted(edits, levels, budget);
            &&& pack_link(d, e, budget).deps == seq![then.links.last().key]
            &&& edit_link(d, e, budget).deps[0] == then.links.last().key
        }),
    decreases edits.len(),
{
    let front = edits.drop_last();
    let d0 = drafted(front, levels, budget);
    let d = drafted(edits, levels, budget);
    let last = edits.last();
    lemma_tail_found(d0.tails, last.path);
    lemma_tail_found(d0.tails, e.path);
    if i == edits.len() - 1 {
        assert(edits.take(i + 1) =~= edits);
        let k = tail_at(d0.tails, e.path);
        assert forall|x: int| 0 <= x < k implies (#[trigger] d.tails[x]).0 != e.path by {
            assert(d.tails[x] == d0.tails[x]);
        }
        lemma_tail_at(d.tails, e.path, k);
    } else {
        assert(front.take(i + 1) =~= edits.take(i + 1));
        assert forall|k: int| i < k < front.len() implies (#[trigger] front[k]).path != e.path by {
            assert(front[k] == edits[k]);
        }
        law_edits_to_one_file_are_sequenced(front, levels, budget, i, e);
        assert(edits[edits.len() - 1].path != e.path);
        let k = tail_at(d0.tails, e.path);
        let j = tail_at(d0.tails, last.path);
        lemma_edited_has_tail(front, levels, budget, i);
        assert(k != j);
        assert(d.tails[k] == d0.tails[k]);
        assert forall|x: int| 0 <= x < k implies (#[trigger] d.tails[x]).0 != e.path by {
            if x != j {
                assert(d.tails[x] == d0.tails[x]);
            }
        }
        lemma_tail_at(d.tails, e.path, k);
        assert(upstream(d, e.path) == upstream(d0, e.path));
        assert(pack_link(d, e, budget).deps =~= pack_link(d0, e, budget).deps);
    }
}

/// A file that was edited has a last step.
proof fn lemma_edited_has_tail(edits: Seq<Asked>, levels: Seq<u8>, budget: nat, i: int)
    requires
        0 <= i < edits.len(),
    ensures
        ({
            let d = drafted(edits, levels, budget);
            tail_at(d.tails, edits[i].path) < d.tails.len()
        }),
    decreases edits.len(),
{
    let front = edits.drop_last();
    let d0 = drafted(front, levels, budget);
    let d = drafted(edits, levels, budget);
    let last = edits.last();
    let path = edits[i].path;
    lemma_tail_found(d0.tails, last.path);
    lemma_tail_found(d.tails, path);
    let j = tail_at(d0.tails, last.path);
    if i == edits.len() - 1 {
        assert(d.tails[j].0 == path);
        if tail_at(d.tails, path) >= d.tails.len() {
            assert(d.tails[j].0 != path);
        }
    } else {
        lemma_edited_has_tail(front, levels, budget, i);
        lemma_tail_found(d0.tails, path);
        let k = tail_at(d0.tails, path);
        assert(d.tails[k].0 == path);
        if tail_at(d.tails, path) >= d.tails.len() {
            assert(d.tails[k].0 != path);
        }
    }
}

/// Is a step's input the source of an edited file, or a step that comes before it?
pub open spec fn comes_before(links: Seq<Link>, edits: Seq<Asked>, i: int, d: Seq<char>) -> bool {
    ||| exists|k: int| 0 <= k < edits.len() && d == source_key((#[trigger] edits[k]).path)
    ||| exists|k: int| 0 <= k < i && (#[trigger] links[k]).key == d
}

/// Is every input of every step before it?
pub open spec fn sorted_links(links: Seq<Link>, edits: Seq<Asked>) -> bool {
    forall|i: int, k: int|
        0 <= i < links.len() && 0 <= k < links[i].deps.len() ==> comes_before(
            links,
            edits,
            i,
            #[trigger] links[i].deps[k],
        )
}

/// Is every last step a step?
spec fn tails_are_links(d: Draft) -> bool {
    forall|i: int|
        0 <= i < d.tails.len() ==> exists|k: int|
            0 <= k < d.links.len() && (#[trigger] d.links[k]).key == (#[trigger] d.tails[i]).1
}

proof fn lemma_sorted_push(links: Seq<Link>, edits: Seq<Asked>, l: Link)
    requires
        sorted_links(links, edits),
        forall|k: int|
            0 <= k < l.deps.len() ==> comes_before(
                links,
                edits,
                links.len() as int,
                #[trigger] l.deps[k],
            ),
    ensures
        sorted_links(links.push(l), edits),
{
    let n = links.push(l);
    assert forall|i: int, k: int| 0 <= i < n.len() && 0 <= k < n[i].deps.len() implies comes_before(
        n,
        edits,
        i,
        #[trigger] n[i].deps[k],
    ) by {
        let d = n[i].deps[k];
        if i < links.len() {
            assert(n[i] == links[i]);
            assert(comes_before(links, edits, i, links[i].deps[k]));
        } else {
            assert(comes_before(links, edits, i, l.deps[k]));
        }
        if !(exists|x: int| 0 <= x < edits.len() && d == source_key((#[trigger] edits[x]).path)) {
            let x = choose|x: int| 0 <= x < i && (#[trigger] links[x]).key == d;
            assert(n[x].key == d);
        }
    }
}

proof fn lemma_rungs_sorted(
    links: Seq<Link>,
    edits: Seq<Asked>,
    e: Asked,
    before: Seq<char>,
    levels: Seq<u8>,
)
    requires
        sorted_links(links, edits),
        links.len() > 0,
        comes_before(links, edits, links.len() as int, before),
    ensures
        sorted_links(with_rungs(links, e, before, levels), edits),
        with_rungs(links, e, before, levels).len() >= links.len(),
        links == with_rungs(links, e, before, levels).take(links.len() as int),
    decreases levels.len(),
{
    let r = with_rungs(links, e, before, levels);
    if levels.len() > 0 {
        let rest = with_rungs(links, e, before, levels.drop_last());
        lemma_rungs_sorted(links, edits, e, before, levels.drop_last());
        let l = r.last();
        assert forall|k: int| 0 <= k < l.deps.len() implies comes_before(
            rest,
            edits,
            rest.len() as int,
            #[trigger] l.deps[k],
        ) by {
            if k == 0 {
                assert(rest[rest.len() - 1].key == l.deps[0]);
            } else {
                lemma_before_stays(links, rest, edits, before);
            }
        }
        lemma_sorted_push(rest, edits, l);
        assert(r.take(links.len() as int) =~= rest.take(links.len() as int));
    } else {
        assert(links.take(links.len() as int) =~= links);
    }
}

proof fn lemma_before_stays(a: Seq<Link>, b: Seq<Link>, edits: Seq<Asked>, d: Seq<char>)
    requires
        a.len() <= b.len(),
        a == b.take(a.len() as int),
        comes_before(a, edits, a.len() as int, d),
    ensures
        comes_before(b, edits, b.len() as int, d),
{
    if !(exists|x: int| 0 <= x < edits.len() && d == source_key((#[trigger] edits[x]).path)) {
        let x = choose|x: int| 0 <= x < a.len() && (#[trigger] a[x]).key == d;
        assert(b[x] == a[x]);
        assert(b[x].key == d);
    }
}

proof fn lemma_draft_sorted(edits: Seq<Asked>, levels: Seq<u8>, budget: nat)
    ensures
        sorted_links(drafted(edits, levels, budget).links, edits),
        tails_are_links(drafted(edits, levels, budget)),
    decreases edits.len(),
{
    if edits.len() > 0 {
        let front = edits.drop_last();
        let e = edits.last();
        let d = drafted(front, levels, budget);
        let n = drafted(edits, levels, budget);
        lemma_draft_sorted(front, levels, budget);
        assert(sorted_links(d.links, edits)) by {
            assert forall|i: int, k: int|
                0 <= i < d.links.len() && 0 <= k < d.links[i].deps.len() implies comes_before(
                d.links,
                edits,
                i,
                #[trigger] d.links[i].deps[k],
            ) by {
                let x = d.links[i].deps[k];
                assert(comes_before(d.links, front, i, x));
                if exists|y: int| 0 <= y < front.len() && x == source_key((#[trigger] front[y]).path) {
                    let y = choose|y: int|
                        0 <= y < front.len() && x == source_key((#[trigger] front[y]).path);
                    assert(edits[y] == front[y]);
                }
            }
        }
        let up = upstream(d, e.path);
        lemma_tail_found(d.tails, e.path);
        assert(comes_before(d.links, edits, d.links.len() as int, up)) by {
            let i = tail_at(d.tails, e.path);
            if i < d.tails.len() {
                let k = choose|k: int|
                    0 <= k < d.links.len() && (#[trigger] d.links[k]).key == d.tails[i].1;
                assert(d.links[k].key == up);
            } else {
                assert(edits[edits.len() - 1].path == e.path);
            }
        }
        let p = pack_link(d, e, budget);
        lemma_sorted_push(d.links, edits, p);
        let l1 = d.links.push(p);
        let x = edit_link(d, e, budget);
        assert(l1.take(d.links.len() as int) =~= d.links);
        lemma_before_stays(d.links, l1, edits, up);
        assert forall|k: int| 0 <= k < x.deps.len() implies comes_before(
            l1,
            edits,
            l1.len() as int,
            #[trigger] x.deps[k],
        ) by {
            if k == 1 {
                assert(l1[d.links.len() as int].key == x.deps[1]);
            }
        }
        lemma_sorted_push(l1, edits, x);
        let l2 = l1.push(x);
        assert(l2.take(l1.len() as int) =~= l1);
        lemma_before_stays(l1, l2, edits, up);
        lemma_rungs_sorted(l2, edits, e, up, levels);
        assert(n.links == with_rungs(l2, e, up, levels));
        assert(tails_are_links(n)) by {
            assert forall|i: int| 0 <= i < n.tails.len() implies exists|k: int|
                0 <= k < n.links.len() && (#[trigger] n.links[k]).key == (#[trigger] n.tails[i]).1 by {
                if i < d.tails.len() && i != tail_at(d.tails, e.path) {
                    assert(n.tails[i] == d.tails[i]);
                    let k = choose|k: int|
                        0 <= k < d.links.len() && (#[trigger] d.links[k]).key == d.tails[i].1;
                    assert(l2[k] == d.links[k]);
                    assert(n.links.take(l2.len() as int)[k] == l2[k]);
                    assert(n.links[k].key == n.tails[i].1);
                } else {
                    assert(n.links[n.links.len() - 1].key == n.tails[i].1);
                }
            }
        }
    }
}

/// A chain comes in dependency order: every input of a step is the source of an edited file, or a
/// step before it. Its tail is one of its steps.
pub proof fn law_a_chain_is_in_dependency_order(edits: Seq<Asked>, levels: Seq<u8>, budget: nat)
    ensures
        sorted_links(chain_links(edits, levels, budget), edits),
        exists|k: int|
            0 <= k < chain_links(edits, levels, budget).len() && (#[trigger] chain_links(
                edits,
                levels,
                budget,
            )[k]).key == chain_tail(edits, levels, budget),
{
    let d = drafted(edits, levels, budget);
    lemma_draft_sorted(edits, levels, budget);
    if d.tails.len() == 1 {
        let k = choose|k: int|
            0 <= k < d.links.len() && (#[trigger] d.links[k]).key == d.tails[0].1;
        assert(chain_links(edits, levels, budget)[k].key == chain_tail(edits, levels, budget));
    } else {
        let j = join_link(d.tails);
        assert forall|k: int| 0 <= k < j.deps.len() implies comes_before(
            d.links,
            edits,
            d.links.len() as int,
            #[trigger] j.deps[k],
        ) by {
            let x = choose|x: int|
                0 <= x < d.links.len() && (#[trigger] d.links[x]).key == d.tails[k].1;
            assert(d.links[x].key == j.deps[k]);
        }
        lemma_sorted_push(d.links, edits, j);
        assert(chain_links(edits, levels, budget)[d.links.len() as int].key == chain_tail(
            edits,
            levels,
            budget,
        ));
    }
}

/// Does a key end in a number?
spec fn has_number(key: Seq<char>, n: nat) -> bool {
    exists|k: Seq<char>| key == #[trigger] numbered(k, n)
}

/// Is every step numbered by its place?
spec fn numbered_links(links: Seq<Link>) -> bool {
    forall|i: int| 0 <= i < links.len() ==> has_number((#[trigger] links[i]).key, i as nat)
}

proof fn lemma_numbered_push(links: Seq<Link>, l: Link, k: Seq<char>)
    requires
        numbered_links(links),
        l.key == numbered(k, links.len()),
    ensures
        numbered_links(links.push(l)),
{
    let n = links.push(l);
    assert forall|i: int| 0 <= i < n.len() implies has_number((#[trigger] n[i]).key, i as nat) by {
        if i < links.len() {
            assert(n[i] == links[i]);
        }
    }
}

proof fn lemma_rungs_numbered(links: Seq<Link>, e: Asked, before: Seq<char>, levels: Seq<u8>)
    requires
        numbered_links(links),
    ensures
        numbered_links(with_rungs(links, e, before, levels)),
    decreases levels.len(),
{
    if levels.len() > 0 {
        let rest = with_rungs(links, e, before, levels.drop_last());
        lemma_rungs_numbered(links, e, before, levels.drop_last());
        lemma_numbered_push(
            rest,
            with_rungs(links, e, before, levels).last(),
            verify_key(e.path, levels.last() as nat),
        );
    }
}

proof fn lemma_draft_numbered(edits: Seq<Asked>, levels: Seq<u8>, budget: nat)
    ensures
        numbered_links(drafted(edits, levels, budget).links),
    decreases edits.len(),
{
    if edits.len() > 0 {
        let e = edits.last();
        let d = drafted(edits.drop_last(), levels, budget);
        lemma_draft_numbered(edits.drop_last(), levels, budget);
        let p = pack_link(d, e, budget);
        let x = edit_link(d, e, budget);
        lemma_numbered_push(d.links, p, pack_key(e.path, e.target));
        lemma_numbered_push(d.links.push(p), x, edit_key(e.path, e.target));
        lemma_rungs_numbered(d.links.push(p).push(x), e, upstream(d, e.path), levels);
    }
}

/// Keys with different numbers differ.
proof fn lemma_numbers_differ(a: Seq<char>, m: nat, b: Seq<char>, n: nat)
    requires
        numbered(a, m) == numbered(b, n),
    ensures
        m == n,
{
    reveal_strlit("$");
    lemma_decimal(m);
    lemma_decimal(n);
    let x = numbered(a, m);
    let y = numbered(b, n);
    assert("$"@.len() == 1 && "$"@[0] == '$');
    assert(x.len() == a.len() + 1 + decimal(m).len());
    assert(y.len() == b.len() + 1 + decimal(n).len());
    assert(x[a.len() as int] == '$');
    assert(y[b.len() as int] == '$');
    if a.len() < b.len() {
        let k = b.len() - a.len() - 1;
        assert(x[b.len() as int] == decimal(m)[k]);
        assert(crate::wording::is_digit(decimal(m)[k]));
    } else if b.len() < a.len() {
        let k = a.len() - b.len() - 1;
        assert(y[a.len() as int] == decimal(n)[k]);
        assert(crate::wording::is_digit(decimal(n)[k]));
    }
    assert(x.skip(a.len() as int + 1) =~= decimal(m));
    assert(y.skip(b.len() as int + 1) =~= decimal(n));
}

/// No two steps of a chain have the same key.
pub proof fn law_the_keys_of_a_chain_differ(
    edits: Seq<Asked>,
    levels: Seq<u8>,
    budget: nat,
    i: int,
    j: int,
)
    requires
        0 <= i < j < chain_links(edits, levels, budget).len(),
    ensures
        chain_links(edits, levels, budget)[i].key != chain_links(edits, levels, budget)[j].key,
{
    let d = drafted(edits, levels, budget);
    let l = chain_links(edits, levels, budget);
    lemma_draft_numbered(edits, levels, budget);
    assert(l[i] == d.links[i]);
    assert(has_number(d.links[i].key, i as nat));
    let a = choose|k: Seq<char>| d.links[i].key == #[trigger] numbered(k, i as nat);
    if j < d.links.len() {
        assert(l[j] == d.links[j]);
        assert(has_number(d.links[j].key, j as nat));
        let b = choose|k: Seq<char>| d.links[j].key == #[trigger] numbered(k, j as nat);
        if l[i].key == l[j].key {
            lemma_numbers_differ(a, i as nat, b, j as nat);
        }
    } else {
        reveal_strlit("join");
        reveal_strlit("$");
        if l[i].key == "join"@ {
            lemma_decimal(i as nat);
            assert("$"@.len() == 1 && "$"@[0] == '$');
            assert(numbered(a, i as nat)[a.len() as int] == '$');
            assert("join"@.len() == a.len() + 1 + decimal(i as nat).len());
            assert("join"@[a.len() as int] == '$');
        }
    }
}

} // verus!
