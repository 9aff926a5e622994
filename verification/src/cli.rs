//! The command line: its arguments, and the demo.
//!
//! The demo is a task in miniature: a thirty page quarterly report from three csvs. Its steps cost
//! what they would cost, scaled down.

use crate::adapter::opt_text;
use crate::engine::graph::NodeSpec;
use crate::engine::graph::Steps;
use crate::engine::graph::TaskGraph;
use crate::engine::report::NodeReport;
use crate::engine::report::NodeStatus;
use crate::engine::report::RunReport;
use crate::identity::blake3_of;
use crate::identity::digest_bytes;
use crate::identity::frames;
use crate::identity::lemma_frames_push;
use crate::identity::Attribution;
use crate::identity::Digest;
use crate::identity::Hasher;
use crate::identity::NodeKind;
use crate::text::begins;
use crate::text::decimal;
use crate::text::from_chars;
use crate::text::is_space;
use crate::text::same;
use crate::text::show;
use crate::text::space;
use crate::text::starts_with;
use crate::text::texts;
use crate::text::to_chars;
use vstd::prelude::*;
use vstd::utf8::encode_utf8;

verus! {

/// What the command line asks for.
pub struct Args {
    pub cmd: String,
    pub rest: Vec<String>,
    pub store: String,
    pub root: String,
    pub live: bool,
    pub json: bool,
    /// The scales that were asked for, in order. The last one that is a number counts.
    pub scales: Vec<String>,
    pub planner_cmd: Option<String>,
    pub executor_cmd: Option<String>,
}

/// What the command line asks for, as plain values.
#[verifier::ext_equal]
pub struct ArgsView {
    pub cmd: Seq<char>,
    pub rest: Seq<Seq<char>>,
    pub store: Seq<char>,
    pub root: Seq<char>,
    pub live: bool,
    pub json: bool,
    pub scales: Seq<Seq<char>>,
    pub planner_cmd: Option<Seq<char>>,
    pub executor_cmd: Option<Seq<char>>,
}

impl View for Args {
    type V = ArgsView;

    open spec fn view(&self) -> ArgsView {
        ArgsView {
            cmd: self.cmd@,
            rest: texts(self.rest@),
            store: self.store@,
            root: self.root@,
            live: self.live,
            json: self.json,
            scales: texts(self.scales@),
            planner_cmd: opt_text(self.planner_cmd),
            executor_cmd: opt_text(self.executor_cmd),
        }
    }
}

/// What an empty command line asks for, before its command is settled.
pub open spec fn no_args() -> ArgsView {
    ArgsView {
        cmd: Seq::empty(),
        rest: Seq::empty(),
        store: ".flash"@,
        root: "."@,
        live: false,
        json: false,
        scales: Seq::empty(),
        planner_cmd: None,
        executor_cmd: None,
    }
}

/// Does a word take the one behind it?
pub open spec fn takes_value(a: Seq<char>) -> bool {
    a == "--store"@ || a == "--root"@ || a == "--scale"@ || a == "--planner-cmd"@ || a
        == "--executor-cmd"@
}

/// What one word, with the one behind it where it takes one, makes of what was asked for.
pub open spec fn with_word(st: ArgsView, a: Seq<char>, next: Option<Seq<char>>) -> ArgsView {
    if a == "--live"@ {
        ArgsView { live: true, ..st }
    } else if a == "--json"@ {
        ArgsView { json: true, ..st }
    } else if a == "--store"@ {
        match next {
            Some(v) => ArgsView { store: v, ..st },
            None => st,
        }
    } else if a == "--root"@ {
        match next {
            Some(v) => ArgsView { root: v, ..st },
            None => st,
        }
    } else if a == "--scale"@ {
        match next {
            Some(v) => ArgsView { scales: st.scales.push(v), ..st },
            None => st,
        }
    } else if a == "--planner-cmd"@ {
        ArgsView { planner_cmd: next, ..st }
    } else if a == "--executor-cmd"@ {
        ArgsView { executor_cmd: next, ..st }
    } else if a == "-h"@ || a == "--help"@ {
        ArgsView { cmd: "help"@, ..st }
    } else if st.cmd.len() == 0 && !begins(a, "-"@) {
        ArgsView { cmd: a, ..st }
    } else {
        ArgsView { rest: st.rest.push(a), ..st }
    }
}

/// What a run of words makes of what was asked for.
pub open spec fn with_words(st: ArgsView, v: Seq<Seq<char>>) -> ArgsView
    decreases v.len(),
{
    if v.len() == 0 {
        st
    } else if takes_value(v[0]) && v.len() > 1 {
        with_words(with_word(st, v[0], Some(v[1])), v.skip(2))
    } else {
        with_words(with_word(st, v[0], None), v.skip(1))
    }
}

/// What a command line asks for: help, where it names no command.
pub open spec fn asked_for(v: Seq<Seq<char>>) -> ArgsView {
    let st = with_words(no_args(), v);
    if st.cmd.len() == 0 {
        ArgsView { cmd: "help"@, ..st }
    } else {
        st
    }
}

fn is_empty(s: &str) -> (r: bool)
    ensures
        r == (s@.len() == 0),
{
    proof {
        reveal_strlit("");
        if s@.len() == 0 {
            assert(s@ =~= ""@);
        }
    }
    same(s, "")
}

fn value_taken(a: &str) -> (r: bool)
    ensures
        r == takes_value(a@),
{
    same(a, "--store") || same(a, "--root") || same(a, "--scale") || same(a, "--planner-cmd")
        || same(a, "--executor-cmd")
}

impl Args {
    /// Takes one word in.
    fn word(&mut self, a: &str, next: Option<String>)
        ensures
            final(self)@ == with_word(old(self)@, a@, opt_text(next)),
    {
        let ghost was = self@;
        if same(a, "--live") {
            self.live = true;
        } else if same(a, "--json") {
            self.json = true;
        } else if same(a, "--store") {
            if let Some(v) = next {
                self.store = v;
            }
        } else if same(a, "--root") {
            if let Some(v) = next {
                self.root = v;
            }
        } else if same(a, "--scale") {
            if let Some(v) = next {
                let ghost vv = v@;
                self.scales.push(v);
                assert(texts(self.scales@) =~= was.scales.push(vv));
            }
        } else if same(a, "--planner-cmd") {
            self.planner_cmd = next;
        } else if same(a, "--executor-cmd") {
            self.executor_cmd = next;
        } else if same(a, "-h") || same(a, "--help") {
            self.cmd = "help".to_owned();
        } else if is_empty(self.cmd.as_str()) && !starts_with(a, "-") {
            self.cmd = a.to_owned();
        } else {
            self.rest.push(a.to_owned());
            assert(texts(self.rest@) =~= was.rest.push(a@));
        }
        assert(self@ =~= with_word(was, a@, opt_text(next)));
    }
}

/// Reads the words of a command line.
pub fn parse_args(words: &Vec<String>) -> (r: Args)
    ensures
        r@ == asked_for(texts(words@)),
{
    let ghost all = texts(words@);
    let mut args = Args {
        cmd: String::new(),
        rest: Vec::new(),
        store: ".flash".to_owned(),
        root: ".".to_owned(),
        live: false,
        json: false,
        scales: Vec::new(),
        planner_cmd: None,
        executor_cmd: None,
    };
    assert(args@ =~= no_args());
    assert(all.skip(0) =~= all);
    let n = words.len();
    let mut i: usize = 0;
    while i < n
        invariant
            i <= n,
            n == words@.len(),
            all == texts(words@),
            with_words(no_args(), all) == with_words(args@, all.skip(i as int)),
        decreases n - i,
    {
        let ghost now = all.skip(i as int);
        assert(now[0] == words@[i as int]@);
        if value_taken(words[i].as_str()) && n - i > 1 {
            assert(now[1] == words@[i + 1]@);
            assert(now.skip(2) =~= all.skip(i + 2));
            args.word(words[i].as_str(), Some(words[i + 1].clone()));
            i += 2;
        } else {
            assert(now.skip(1) =~= all.skip(i + 1));
            args.word(words[i].as_str(), None);
            i += 1;
        }
    }
    assert(all.skip(i as int) =~= Seq::<Seq<char>>::empty());
    if is_empty(args.cmd.as_str()) {
        let ghost was = args@;
        args.cmd = "help".to_owned();
        assert(args@ =~= ArgsView { cmd: "help"@, ..was });
    }
    args
}

/// Where the word that begins at a place ends.
pub open spec fn token_end(s: Seq<char>, i: int) -> int
    decreases s.len() - i,
{
    if i >= s.len() || is_space(s[i]) {
        i
    } else {
        token_end(s, i + 1)
    }
}

/// The runs of characters that are not white space, from a place on.
pub open spec fn tokens_from(s: Seq<char>, i: int) -> Seq<Seq<char>>
    decreases s.len() - i,
    via tokens_from_ends
{
    if i < 0 || i >= s.len() {
        Seq::empty()
    } else if is_space(s[i]) {
        tokens_from(s, i + 1)
    } else {
        seq![s.subrange(i, token_end(s, i))] + tokens_from(s, token_end(s, i))
    }
}

#[via_fn]
proof fn tokens_from_ends(s: Seq<char>, i: int) {
    if 0 <= i < s.len() && !is_space(s[i]) {
        lemma_token_end(s, i + 1);
    }
}

proof fn lemma_token_end(s: Seq<char>, i: int)
    requires
        0 <= i <= s.len(),
    ensures
        i <= token_end(s, i) <= s.len(),
    decreases s.len() - i,
{
    if i < s.len() && !is_space(s[i]) {
        lemma_token_end(s, i + 1);
    }
}

/// The words of a command, as they are set apart by white space.
pub fn split_cmd(s: &str) -> (r: Vec<String>)
    ensures
        texts(r@) == tokens_from(s@, 0),
{
    let v = to_chars(s);
    let mut out: Vec<String> = Vec::new();
    let mut i: usize = 0;
    assert(texts(out@) + tokens_from(s@, 0) =~= tokens_from(s@, 0));
    while i < v.len()
        invariant
            i <= v@.len(),
            v@ == s@,
            texts(out@) + tokens_from(s@, i as int) == tokens_from(s@, 0),
        decreases v@.len() - i,
    {
        if space(v[i]) {
            i += 1;
        } else {
            let ghost from = i as int;
            let start = i;
            proof {
                lemma_token_end(s@, i + 1);
            }
            while i < v.len() && !space(v[i])
                invariant
                    start <= i <= v@.len(),
                    v@ == s@,
                    token_end(s@, start as int) == token_end(s@, i as int),
                decreases v@.len() - i,
            {
                i += 1;
            }
            let ghost was = texts(out@);
            let w = vstd::slice::slice_subrange(v.as_slice(), start, i);
            out.push(from_chars(w));
            proof {
                assert(w@ =~= s@.subrange(from, i as int));
                assert(texts(out@) =~= was.push(w@));
                assert(was.push(w@) + tokens_from(s@, i as int) =~= was + (seq![w@]
                    + tokens_from(s@, i as int)));
            }
        }
    }
    assert(texts(out@) =~= tokens_from(s@, 0));
    out
}

/// The sections of the report.
pub open spec fn section_name(i: int) -> Seq<char> {
    if i == 0 {
        "summary"@
    } else if i == 1 {
        "methodology"@
    } else if i == 2 {
        "definitions"@
    } else if i == 3 {
        "revenue"@
    } else if i == 4 {
        "costs"@
    } else if i == 5 {
        "margins"@
    } else if i == 6 {
        "headcount"@
    } else if i == 7 {
        "pipeline"@
    } else if i == 8 {
        "risks"@
    } else if i == 9 {
        "outlook"@
    } else if i == 10 {
        "appendix"@
    } else {
        "glossary"@
    }
}

fn section(i: usize) -> (r: &'static str)
    ensures
        r@ == section_name(i as int),
{
    match i {
        0 => "summary",
        1 => "methodology",
        2 => "definitions",
        3 => "revenue",
        4 => "costs",
        5 => "margins",
        6 => "headcount",
        7 => "pipeline",
        8 => "risks",
        9 => "outlook",
        10 => "appendix",
        _ => "glossary",
    }
}

/// A step of the demo: what it is called, what it does, and what it reads.
#[verifier::ext_equal]
pub struct DemoStep {
    pub key: Seq<char>,
    pub kind: NodeKind,
    pub op: Seq<u8>,
    pub deps: Seq<Seq<char>>,
}

/// The keys of all sections, of the first `n`.
pub open spec fn section_keys(n: nat) -> Seq<Seq<char>> {
    Seq::new(n, |i: int| "section:"@ + section_name(i))
}

/// The steps of the demo, in order: three csvs, a summary of each, twelve sections that each read
/// one summary, one rendering of all of them, and one check of that.
pub open spec fn demo_step(rows: Seq<Seq<char>>, i: int) -> DemoStep {
    if i < 3 {
        DemoStep {
            key: "csv:"@ + decimal(i as nat),
            kind: NodeKind::Data,
            op: blake3_of(encode_utf8(rows[i])),
            deps: Seq::empty(),
        }
    } else if i < 6 {
        DemoStep {
            key: "data:"@ + decimal((i - 3) as nat),
            kind: NodeKind::Data,
            op: encode_utf8("summarize csv "@ + decimal((i - 3) as nat)),
            deps: seq!["csv:"@ + decimal((i - 3) as nat)],
        }
    } else if i < 18 {
        DemoStep {
            key: "section:"@ + section_name(i - 6),
            kind: NodeKind::Op,
            op: encode_utf8(section_name(i - 6)),
            deps: seq!["data:"@ + decimal(((i - 6) % 3) as nat)],
        }
    } else if i == 18 {
        DemoStep {
            key: "render:pdf"@,
            kind: NodeKind::Render,
            op: encode_utf8("render 30 pages"@),
            deps: section_keys(12),
        }
    } else {
        DemoStep {
            key: "verify:pages"@,
            kind: NodeKind::Verify,
            op: encode_utf8("visual check"@),
            deps: seq!["render:pdf"@],
        }
    }
}

/// Is this step of a graph that step of the demo?
pub open spec fn is_demo_step(s: NodeSpec, d: DemoStep) -> bool {
    s.key@ == d.key && s.kind == d.kind && s.op@ == d.op && s.dep_names() == d.deps
}

/// Is this the graph of the first `n` steps?
pub open spec fn is_demo(g: Steps, rows: Seq<Seq<char>>, n: int) -> bool {
    &&& forall|k: Seq<char>| #[trigger]
        g.contains_key(k) <==> exists|i: int| 0 <= i < n && (#[trigger] demo_step(rows, i)).key == k
    &&& forall|i: int|
        0 <= i < n ==> is_demo_step(g[(#[trigger] demo_step(rows, i)).key], demo_step(rows, i))
}

/// A name with a number behind it.
fn numbered(name: &str, n: usize) -> (r: String)
    ensures
        r@ == name@ + decimal(n as nat),
{
    let mut s = name.to_owned();
    s.push_str(show(n as u64).as_str());
    s
}

fn bytes_of(s: &str) -> (r: Vec<u8>)
    ensures
        r@ == encode_utf8(s@),
{
    vstd::slice::slice_to_vec(s.as_bytes())
}

fn sections() -> (r: Vec<String>)
    ensures
        texts(r@) == section_keys(12),
{
    let mut v: Vec<String> = Vec::new();
    let mut i: usize = 0;
    while i < 12
        invariant
            i <= 12,
            texts(v@) =~= section_keys(i as nat),
        decreases 12 - i,
    {
        let mut k = "section:".to_owned();
        k.push_str(section(i));
        let ghost was = texts(v@);
        let ghost kv = k@;
        v.push(k);
        assert(texts(v@) =~= was.push(kv));
        assert(was.push(kv) =~= section_keys((i + 1) as nat));
        i += 1;
    }
    v
}

/// A step of the demo.
fn step(rows: &Vec<String>, i: usize) -> (r: NodeSpec)
    requires
        rows@.len() == 3,
    ensures
        is_demo_step(r, demo_step(texts(rows@), i as int)),
{
    let ghost want = demo_step(texts(rows@), i as int);
    let r = if i < 3 {
        NodeSpec::source(numbered("csv:", i).as_str(), Digest::of(rows[i].as_str().as_bytes()))
    } else if i < 6 {
        let n: usize = i - 3;
        NodeSpec::new(numbered("data:", n).as_str(), NodeKind::Data).op(
            bytes_of(numbered("summarize csv ", n).as_str()),
        ).dep(numbered("csv:", n).as_str())
    } else if i < 18 {
        let n: usize = i - 6;
        let mut key = "section:".to_owned();
        key.push_str(section(n));
        NodeSpec::new(key.as_str(), NodeKind::Op).op(bytes_of(section(n))).dep(
            numbered("data:", n % 3).as_str(),
        )
    } else if i == 18 {
        NodeSpec::new("render:pdf", NodeKind::Render).op(bytes_of("render 30 pages")).deps(
            &sections(),
        )
    } else {
        NodeSpec::new("verify:pages", NodeKind::Verify).op(bytes_of("visual check")).dep(
            "render:pdf",
        )
    };
    assert(r.dep_names() =~= want.deps);
    r
}

/// The graph of the demo, for the rows of three csvs.
pub fn quarterly_report(rows: &Vec<String>) -> (r: TaskGraph)
    requires
        rows@.len() == 3,
    ensures
        r.wf(),
        is_demo(r@, texts(rows@), 20),
{
    let ghost rv = texts(rows@);
    let mut g = TaskGraph::new();
    let mut i: usize = 0;
    while i < 20
        invariant
            i <= 20,
            rows@.len() == 3,
            rv == texts(rows@),
            g.wf(),
            is_demo(g@, rv, i as int),
        decreases 20 - i,
    {
        let s = step(rows, i);
        let ghost was = g@;
        let ghost k = s.key@;
        let ghost sv = s;
        g.replace(s);
        proof {
            assert(demo_step(rv, i as int).key == k);
            assert forall|x: Seq<char>| #[trigger]
                g@.contains_key(x) <==> exists|j: int|
                    0 <= j < i + 1 && (#[trigger] demo_step(rv, j)).key == x by {
                assert(g@.contains_key(x) <==> was.contains_key(x) || x == k);
                if was.contains_key(x) {
                    let j = choose|j: int| 0 <= j < i && (#[trigger] demo_step(rv, j)).key == x;
                    assert(demo_step(rv, j).key == x);
                }
            }
            assert forall|j: int| 0 <= j < i + 1 implies is_demo_step(
                g@[(#[trigger] demo_step(rv, j)).key],
                demo_step(rv, j),
            ) by {
                if j < i {
                    lemma_demo_keys_differ(rv, j, i as int);
                }
            }
        }
        i += 1;
    }
    g
}

proof fn lemma_first_chars(a: Seq<char>, b: Seq<char>)
    requires
        a.len() > 0,
        b.len() > 0,
        a[0] != b[0],
    ensures
        a != b,
{
}

proof fn lemma_same_prefix(p: Seq<char>, a: Seq<char>, b: Seq<char>)
    requires
        p + a == p + b,
    ensures
        a == b,
{
    assert((p + a).skip(p.len() as int) =~= a);
    assert((p + b).skip(p.len() as int) =~= b);
}

proof fn lemma_section_names_differ(i: int, j: int)
    requires
        0 <= i < j < 12,
    ensures
        section_name(i) != section_name(j),
{
    reveal_strlit("summary");
    reveal_strlit("methodology");
    reveal_strlit("definitions");
    reveal_strlit("revenue");
    reveal_strlit("costs");
    reveal_strlit("margins");
    reveal_strlit("headcount");
    reveal_strlit("pipeline");
    reveal_strlit("risks");
    reveal_strlit("outlook");
    reveal_strlit("appendix");
    reveal_strlit("glossary");
    let a = section_name(i);
    let b = section_name(j);
    if a.len() == b.len() && a[0] == b[0] {
        assert(a[1] != b[1]);
    }
}

proof fn lemma_demo_keys_differ(rows: Seq<Seq<char>>, i: int, j: int)
    requires
        0 <= i < j < 20,
    ensures
        demo_step(rows, i).key != demo_step(rows, j).key,
{
    reveal_strlit("csv:");
    reveal_strlit("data:");
    reveal_strlit("section:");
    reveal_strlit("render:pdf");
    reveal_strlit("verify:pages");
    let a = demo_step(rows, i).key;
    let b = demo_step(rows, j).key;
    if a == b {
        if a[0] != b[0] {
            lemma_first_chars(a, b);
        }
        if j < 3 {
            lemma_same_prefix("csv:"@, decimal(i as nat), decimal(j as nat));
            crate::wording::lemma_decimal(i as nat);
            crate::wording::lemma_decimal(j as nat);
        } else if 3 <= i && j < 6 {
            lemma_same_prefix("data:"@, decimal((i - 3) as nat), decimal((j - 3) as nat));
            crate::wording::lemma_decimal((i - 3) as nat);
            crate::wording::lemma_decimal((j - 3) as nat);
        } else if 6 <= i && j < 18 {
            lemma_same_prefix("section:"@, section_name(i - 6), section_name(j - 6));
            lemma_section_names_differ(i - 6, j - 6);
        }
    }
}

/// How a step of the demo behaves.
#[derive(Clone, Copy, Debug, PartialEq, Eq, Structural)]
pub struct Stub {
    pub cost_ms: u64,
    /// Does its result stay the same whatever it reads?
    pub constant: bool,
}

/// How a step of the demo behaves. Two of the three summaries round to the same numbers even when
/// the raw rows move, which is what keeps most sections hot next quarter.
pub open spec fn stub_of(key: Seq<char>, kind: NodeKind) -> Stub {
    Stub {
        cost_ms: match kind {
            NodeKind::Data => if begins(key, "data:"@) {
                1_800
            } else {
                0
            },
            NodeKind::Op => 9_000,
            NodeKind::Render => 38_000,
            NodeKind::Verify => 6_000,
            _ => 0,
        },
        constant: key == "data:1"@ || key == "data:2"@,
    }
}

/// How a step of the demo behaves.
pub fn stub(key: &str, kind: NodeKind) -> (r: Stub)
    ensures
        r == stub_of(key@, kind),
{
    let cost_ms: u64 = match kind {
        NodeKind::Data => if starts_with(key, "data:") {
            1_800
        } else {
            0
        },
        NodeKind::Op => 9_000,
        NodeKind::Render => 38_000,
        NodeKind::Verify => 6_000,
        _ => 0,
    };
    Stub { cost_ms, constant: same(key, "data:1") || same(key, "data:2") }
}

/// Everything that decides what a demo step puts out, field by field: its key, its op and, unless
/// it is constant, its inputs in declared order.
pub open spec fn made_fields(s: NodeSpec, inputs: Seq<Digest>) -> Seq<Seq<u8>> {
    seq![encode_utf8("flash.demo.v1"@), encode_utf8(s.key@), s.op@] + if stub_of(
        s.key@,
        s.kind,
    ).constant {
        Seq::empty()
    } else {
        digest_bytes(inputs)
    }
}

/// What a demo step puts out: the same for the same step and, unless it is constant, the same
/// inputs.
pub fn made(spec: &NodeSpec, inputs: &Vec<Digest>) -> (r: Digest)
    ensures
        r@ == blake3_of(frames(made_fields(*spec, inputs@))),
{
    let ghost fields = made_fields(*spec, inputs@);
    let constant = stub(spec.key.as_str(), spec.kind).constant;
    let mut h = Hasher::new("flash.demo.v1");
    proof {
        assert(frames(fields.take(0)) =~= Seq::empty());
        lemma_frames_push(fields.take(0), fields[0]);
        assert(fields.take(0).push(fields[0]) =~= fields.take(1));
        assert(h@ =~= frames(fields.take(1)));
        lemma_frames_push(fields.take(1), fields[1]);
        assert(fields.take(1).push(fields[1]) =~= fields.take(2));
        lemma_frames_push(fields.take(2), fields[2]);
        assert(fields.take(2).push(fields[2]) =~= fields.take(3));
    }
    h.str(spec.key.as_str());
    h.bytes(spec.op.as_slice());
    if constant {
        assert(fields.take(3) =~= fields);
        return h.finish();
    }
    let mut i: usize = 0;
    while i < inputs.len()
        invariant
            i <= inputs@.len(),
            fields == made_fields(*spec, inputs@),
            !stub_of(spec.key@, spec.kind).constant,
            h@ == frames(fields.take(3 + i)),
        decreases inputs@.len() - i,
    {
        h.digest(&inputs[i]);
        proof {
            assert(fields[3 + i] == inputs@[i as int]@);
            lemma_frames_push(fields.take(3 + i), fields[3 + i]);
            assert(fields.take(3 + i).push(fields[3 + i]) =~= fields.take(3 + i + 1));
        }
        i += 1;
    }
    assert(fields.take(3 + i) =~= fields);
    h.finish()
}

/// Where the time of a demo step goes: to applying, rendering, verifying or decoding, by the
/// step's kind.
pub open spec fn spent_on(kind: NodeKind, ms: u64) -> Attribution {
    match kind {
        NodeKind::Data => Attribution { apply_ms: ms, ..Attribution::nothing() },
        NodeKind::Render | NodeKind::Build => Attribution {
            render_ms: ms,
            ..Attribution::nothing()
        },
        NodeKind::Verify => Attribution { verify_ms: ms, ..Attribution::nothing() },
        NodeKind::Plan | NodeKind::Context | NodeKind::Op => Attribution {
            decode_ms: ms,
            ..Attribution::nothing()
        },
    }
}

/// The time of a demo step, under what it went to.
pub fn spent(kind: NodeKind, ms: u64) -> (r: Attribution)
    ensures
        r == spent_on(kind, ms),
{
    let mut a = Attribution::default();
    match kind {
        NodeKind::Data => {
            a.apply_ms = ms;
        },
        NodeKind::Render | NodeKind::Build => {
            a.render_ms = ms;
        },
        NodeKind::Verify => {
            a.verify_ms = ms;
        },
        NodeKind::Plan | NodeKind::Context | NodeKind::Op => {
            a.decode_ms = ms;
        },
    }
    a
}

/// The sections that cost nothing, in order.
pub open spec fn free_sections(v: Seq<NodeReport>) -> Seq<Seq<char>>
    decreases v.len(),
{
    if v.len() == 0 {
        Seq::empty()
    } else if v.last().status is Hit && begins(v.last().key@, "section:"@) {
        free_sections(v.drop_last()).push(v.last().key@)
    } else {
        free_sections(v.drop_last())
    }
}

/// The sections that cost nothing in a run.
pub fn still_hot(report: &RunReport) -> (r: Vec<String>)
    ensures
        texts(r@) == free_sections(report.nodes@),
{
    let ghost all = report.nodes@;
    let mut out: Vec<String> = Vec::new();
    let mut i: usize = 0;
    assert(texts(out@) =~= free_sections(all.take(0)));
    while i < report.nodes.len()
        invariant
            i <= report.nodes@.len(),
            all == report.nodes@,
            texts(out@) == free_sections(all.take(i as int)),
        decreases report.nodes@.len() - i,
    {
        let ghost nn = all.take(i + 1);
        assert(nn.drop_last() =~= all.take(i as int));
        assert(nn.last() == report.nodes@[i as int]);
        let n = &report.nodes[i];
        if matches!(n.status, NodeStatus::Hit) && starts_with(n.key.as_str(), "section:") {
            let ghost was = texts(out@);
            out.push(n.key.as_str().to_owned());
            assert(texts(out@) =~= was.push(n.key@));
        }
        i += 1;
    }
    assert(all.take(i as int) =~= all);
    out
}

} // verus!
