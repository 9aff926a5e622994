//! The code verify ladder: reparse, lint, typecheck, impacted tests, full suite.
//!
//! A rung that cannot run is not a pass. If the toolchain is not there, a rung reports that it is
//! unavailable, which is to be taken as unverified rather than fine.
//!
//! The first two rungs look at the file alone. The others run tools: such a rung says, from what
//! the tools have answered so far, what to run next or how it came out.

use crate::adapter::capped;
use crate::adapter::entity_views;
use crate::adapter::finding;
use crate::adapter::finding_at;
use crate::adapter::findings;
use crate::adapter::report;
use crate::adapter::text_of;
use crate::adapter::Diagnostic;
use crate::adapter::Entity;
use crate::adapter::EntityView;
use crate::adapter::Finding;
use crate::adapter::Outcome;
use crate::adapter::RungOutcome;
use crate::adapter::VerifyCtx;
use crate::adapter::VerifyRung;
use crate::code::lang::LangSpec;
use crate::code::symbols::read_clamped;
use crate::code::symbols::read_within;
use crate::code::symbols::simple_name;
use crate::code::symbols::simple_of;
use crate::code::syntax::flaw_views;
use crate::code::syntax::flaws;
use crate::code::syntax::no_tree;
use crate::code::syntax::parse;
use crate::code::syntax::syns;
use crate::code::syntax::syntax_errors;
use crate::code::syntax::tree_of;
use crate::code::syntax::FlawView;
use crate::code::syntax::SyntaxNode;
use crate::json::as_items;
use crate::json::as_whole;
use crate::json::at_key;
use crate::json::get;
use crate::json::held;
use crate::json::json_of;
use crate::json::text_at;
use crate::json::text_of_key;
use crate::json::Json;
use crate::text::at;
use crate::text::begins;
use crate::text::contains;
use crate::text::copy_strings;
use crate::text::decimal;
use crate::text::ends;
use crate::text::ends_with;
use crate::text::has_text;
use crate::text::lines;
use crate::text::lines_of;
use crate::text::occurs_at;
use crate::text::same;
use crate::text::show;
use crate::text::starts_with;
use crate::text::texts;
use crate::text::to_chars;
use crate::text::trim;
use crate::text::trim_of;
use crate::wording::is_word;
use crate::wording::word;
use vstd::prelude::*;
use vstd::utf8::encode_utf8;

verus! {

/// Does the word at position `i` stand clear of other identifier characters?
pub open spec fn stands_clear(s: Seq<char>, w: Seq<char>, i: int) -> bool {
    (i == 0 || !is_word(s[i - 1])) && (i + w.len() >= s.len() || !is_word(s[i + w.len()]))
}

/// Is a word spelled in a text from position `i` on, as a whole identifier?
pub open spec fn spelled_from(s: Seq<char>, w: Seq<char>, i: int) -> bool
    decreases s.len() - i,
{
    if i < 0 || i + w.len() > s.len() || i >= s.len() {
        false
    } else if occurs_at(s, w, i) {
        stands_clear(s, w, i) || spelled_from(
            s,
            w,
            i + if w.len() > 0 {
                w.len() as int
            } else {
                1
            },
        )
    } else {
        spelled_from(s, w, i + 1)
    }
}

/// Is a word spelled in a text as a whole identifier?
pub open spec fn spelled(s: Seq<char>, w: Seq<char>) -> bool {
    spelled_from(s, w, 0)
}

proof fn lemma_spelled(s: Seq<char>, w: Seq<char>, i: int, k: int)
    requires
        w.len() > 0,
        forall|j: int| 0 <= j < w.len() ==> is_word(#[trigger] w[j]),
        0 <= i <= k,
        k + w.len() <= s.len(),
        occurs_at(s, w, k),
        stands_clear(s, w, k),
    ensures
        spelled_from(s, w, i),
    decreases k - i,
{
    if i < k {
        if occurs_at(s, w, i) {
            if !stands_clear(s, w, i) {
                if k < i + w.len() {
                    let j = k - 1 - i;
                    assert(s.subrange(i, i + w.len())[j] == w[j]);
                    assert(is_word(w[j]));
                    assert(s[k - 1] == w[j]);
                }
                lemma_spelled(s, w, i + w.len(), k);
            }
        } else {
            lemma_spelled(s, w, i + 1, k);
        }
    }
}

proof fn lemma_spelled_somewhere(s: Seq<char>, w: Seq<char>, i: int)
    requires
        0 <= i,
        spelled_from(s, w, i),
    ensures
        exists|k: int|
            i <= k && k + w.len() <= s.len() && #[trigger] occurs_at(s, w, k) && stands_clear(
                s,
                w,
                k,
            ),
    decreases s.len() - i,
{
    if occurs_at(s, w, i) {
        if !stands_clear(s, w, i) {
            lemma_spelled_somewhere(
                s,
                w,
                i + if w.len() > 0 {
                    w.len() as int
                } else {
                    1
                },
            );
        }
    } else {
        lemma_spelled_somewhere(s, w, i + 1);
    }
}

/// An identifier is spelled in a text exactly where it stands there with no identifier character
/// on either side: `parse` is not spelled in `parser`.
pub proof fn law_spelling_is_by_whole_identifiers(s: Seq<char>, w: Seq<char>)
    requires
        w.len() > 0,
        forall|j: int| 0 <= j < w.len() ==> is_word(#[trigger] w[j]),
    ensures
        spelled(s, w) <==> exists|k: int|
            0 <= k && k + w.len() <= s.len() && #[trigger] occurs_at(s, w, k) && stands_clear(
                s,
                w,
                k,
            ),
{
    if spelled(s, w) {
        lemma_spelled_somewhere(s, w, 0);
    }
    if exists|k: int|
        0 <= k && k + w.len() <= s.len() && #[trigger] occurs_at(s, w, k) && stands_clear(s, w, k) {
        let k = choose|k: int|
            0 <= k && k + w.len() <= s.len() && #[trigger] occurs_at(s, w, k) && stands_clear(
                s,
                w,
                k,
            );
        lemma_spelled(s, w, 0, k);
    }
}

/// Does `haystack` use `needle` as a whole identifier?
pub fn mentions_word(haystack: &str, needle: &str) -> (b: bool)
    ensures
        b == spelled(haystack@, needle@),
{
    let v = to_chars(haystack);
    let w = to_chars(needle);
    let mut i: usize = 0;
    while i < v.len() && w.len() <= v.len() - i
        invariant
            v@ == haystack@,
            w@ == needle@,
            i <= v@.len(),
            spelled(v@, w@) == spelled_from(v@, w@, i as int),
        decreases v@.len() - i,
    {
        if at(v.as_slice(), w.as_slice(), i) {
            let after: usize = i + w.len();
            if (i == 0 || !word(v[i - 1])) && (after >= v.len() || !word(v[after])) {
                return true;
            }
            i = if w.len() > 0 { i + w.len() } else { i + 1 };
        } else {
            i += 1;
        }
    }
    false
}

/// The line that a byte offset is on, counted from one.
pub open spec fn line_at(src: Seq<u8>, p: int) -> u32
    decreases p,
{
    if p <= 0 {
        1
    } else if p > src.len() {
        line_at(src, src.len() as int)
    } else if src[p - 1] == 10u8 {
        line_at(src, p - 1).wrapping_add(1)
    } else {
        line_at(src, p - 1)
    }
}

fn line_of(src: &[u8], byte: usize) -> (r: u32)
    ensures
        r == line_at(src@, byte as int),
{
    let p: usize = if byte < src.len() { byte } else { src.len() };
    assert(line_at(src@, byte as int) == line_at(src@, p as int));
    let mut line: u32 = 1;
    let mut i: usize = 0;
    while i < p
        invariant
            i <= p <= src@.len(),
            line == line_at(src@, i as int),
        decreases p - i,
    {
        if src[i] == 10u8 {
            line = line.wrapping_add(1);
        }
        i += 1;
    }
    line
}

/// Does it still parse?
pub struct Reparse {
    pub spec: LangSpec,
}

/// One finding for each syntax error, at its line.
pub open spec fn syntax_findings(f: Seq<FlawView>, src: Seq<u8>) -> Seq<Finding> {
    f.map_values(
        |x: FlawView|
            Finding {
                code: "syntax"@,
                message: x.2,
                entity: None,
                line: Some(line_at(src, x.0)),
            },
    )
}

/// How a syntax tree is judged.
pub fn judge_tree(tree: &Vec<SyntaxNode>, text: &str) -> (r: RungOutcome)
    ensures
        r@ == Outcome::judged(syntax_findings(flaws(syns(tree@)), encode_utf8(text@))),
{
    let errors = syntax_errors(tree);
    let src = text.as_bytes();
    let ghost all = syntax_findings(flaws(syns(tree@)), src@);
    let mut diags: Vec<Diagnostic> = Vec::new();
    let mut i: usize = 0;
    assert(findings(diags@) =~= all.take(0));
    while i < errors.len()
        invariant
            i <= errors@.len(),
            flaw_views(errors@) == flaws(syns(tree@)),
            all == syntax_findings(flaws(syns(tree@)), src@),
            findings(diags@) == all.take(i as int),
        decreases errors@.len() - i,
    {
        assert(flaw_views(errors@)[i as int] == (
            errors@[i as int].0 as int,
            errors@[i as int].1 as int,
            errors@[i as int].2@,
        ));
        let d = Diagnostic::new("syntax", errors[i].2.as_str()).at_line(line_of(src, errors[i].0));
        report(&mut diags, d);
        assert(all.take(i + 1) =~= all.take(i as int).push(all[i as int]));
        i += 1;
    }
    assert(flaw_views(errors@).len() == errors@.len());
    assert(all.take(i as int) =~= all);
    RungOutcome::judge(diags)
}

impl VerifyRung for Reparse {
    fn name(&self) -> (r: &str)
        ensures
            r@ == "reparse"@,
    {
        "reparse"
    }

    fn level(&self) -> (r: u8)
        ensures
            r == 0,
    {
        0
    }

    fn expected_ms(&self) -> (r: u64)
        ensures
            r == 1,
    {
        1
    }

    fn once_per_task(&self) -> (r: bool)
        ensures
            !r,
    {
        false
    }

    fn check(&self, ctx: &VerifyCtx<'_>) -> (r: RungOutcome)
        ensures
            match tree_of(self.spec.lang, ctx.artifact.bytes@) {
                Some(t) => r@ == Outcome::judged(
                    syntax_findings(flaws(t), encode_utf8(text_of(ctx.artifact.bytes@))),
                ),
                None => exists|e: crate::adapter::Fault| #[trigger]
                    no_tree(self.spec.name@, e) && r@ == Outcome::fail(
                        seq![finding("parse-failed"@, e.sentence())],
                    ),
            },
    {
        match parse(&self.spec, ctx.artifact) {
            Ok(tree) => {
                let text = ctx.artifact.text();
                judge_tree(&tree, text.as_str())
            },
            Err(e) => {
                let m = e.message();
                RungOutcome::fail_with(Diagnostic::new("parse-failed", m.as_str()))
            },
        }
    }
}

/// Structural lint. Local facts only, no inference.
pub struct Lint {
    pub spec: LangSpec,
}

/// How many entities other than imports have this id.
pub open spec fn times_defined(es: Seq<EntityView>, id: Seq<char>) -> nat
    decreases es.len(),
{
    if es.len() == 0 {
        0
    } else {
        times_defined(es.drop_last(), id) + (if es.last().kind != "import"@ && es.last().id == id {
            1nat
        } else {
            0nat
        })
    }
}

/// One finding for each id that several of the first `n` entities define, in the order in which
/// the ids come up. The count is that of all the entities.
pub open spec fn redefined(es: Seq<EntityView>, n: int) -> Seq<Finding>
    decreases n,
{
    if n <= 0 {
        Seq::empty()
    } else {
        let rest = redefined(es, n - 1);
        let e = es[n - 1];
        let times = times_defined(es, e.id);
        if e.kind != "import"@ && times_defined(es.take(n - 1), e.id) == 0 && times > 1 {
            rest.push(
                finding_at(
                    "duplicate-definition"@,
                    e.id + " is defined "@ + decimal(times) + " times"@,
                    e.id,
                ),
            )
        } else {
            rest
        }
    }
}

/// The text of an entity's body within a source text.
pub open spec fn body_in(src: Seq<u8>, e: EntityView) -> Seq<char> {
    match e.body {
        Some((a, b)) => read_within(src, a, b),
        None => read_within(src, e.start, e.end),
    }
}

/// One finding for each entity that still spells the name of a removed one.
pub open spec fn dangling_to(
    es: Seq<EntityView>,
    removed: Seq<char>,
    simple: Seq<char>,
    src: Seq<u8>,
) -> Seq<Finding>
    decreases es.len(),
{
    if es.len() == 0 {
        Seq::empty()
    } else {
        let rest = dangling_to(es.drop_last(), removed, simple, src);
        let e = es.last();
        if e.kind != "import"@ && spelled(body_in(src, e), simple) {
            rest.push(
                Finding {
                    code: "dangling-reference"@,
                    message: e.id + " still refers to "@ + removed
                        + ", which this edit removed"@,
                    entity: Some(e.id),
                    line: Some(line_at(src, e.start)),
                },
            )
        } else {
            rest
        }
    }
}

/// The findings for all that was removed.
pub open spec fn dangling(
    es: Seq<EntityView>,
    removed: Seq<Seq<char>>,
    sep: Seq<char>,
    src: Seq<u8>,
) -> Seq<Finding>
    decreases removed.len(),
{
    if removed.len() == 0 {
        Seq::empty()
    } else {
        let rest = dangling(es, removed.drop_last(), sep, src);
        let simple = simple_of(removed.last(), sep);
        if simple.len() == 0 {
            rest
        } else {
            rest + dangling_to(es, removed.last(), simple, src)
        }
    }
}

/// What the linter finds: an id defined twice, and a reference to something that was removed. The
/// latter is by the text, since nothing in the outline after an edit points at what is gone.
pub open spec fn lint(
    es: Seq<EntityView>,
    removed: Seq<Seq<char>>,
    sep: Seq<char>,
    src: Seq<u8>,
) -> Seq<Finding> {
    redefined(es, es.len() as int) + dangling(es, removed, sep, src)
}

fn count_defined(es: &Vec<Entity>, n: usize, id: &str) -> (r: usize)
    requires
        n <= es@.len(),
    ensures
        r == times_defined(entity_views(es@).take(n as int), id@),
        r <= n,
{
    let ghost all = entity_views(es@);
    let mut r: usize = 0;
    let mut i: usize = 0;
    assert(all.take(0) =~= Seq::<EntityView>::empty());
    while i < n
        invariant
            i <= n <= es@.len(),
            r <= i,
            all == entity_views(es@),
            r == times_defined(all.take(i as int), id@),
        decreases n - i,
    {
        let ghost nn = all.take(i + 1);
        assert(nn.drop_last() =~= all.take(i as int));
        assert(nn.last() == es@[i as int]@);
        if !same(es[i].kind.as_str(), "import") && same(es[i].id.as_str(), id) {
            r += 1;
        }
        i += 1;
    }
    r
}

fn report_redefined(es: &Vec<Entity>, diags: &mut Vec<Diagnostic>)
    ensures
        findings(final(diags)@) == findings(old(diags)@) + redefined(
            entity_views(es@),
            es@.len() as int,
        ),
{
    let ghost all = entity_views(es@);
    let ghost start = findings(diags@);
    let mut i: usize = 0;
    assert(start + redefined(all, 0) =~= start);
    while i < es.len()
        invariant
            i <= es@.len(),
            all == entity_views(es@),
            findings(diags@) == start + redefined(all, i as int),
        decreases es@.len() - i,
    {
        let e = &es[i];
        assert(all[i as int] == e@);
        assert(all.take(es@.len() as int) =~= all);
        if !same(e.kind.as_str(), "import") && count_defined(es, i, e.id.as_str()) == 0 {
            let n: usize = count_defined(es, es.len(), e.id.as_str());
            if n > 1 {
                let mut m = e.id.clone();
                m.push_str(" is defined ");
                let c = show(n as u64);
                m.push_str(c.as_str());
                m.push_str(" times");
                let d = Diagnostic::new("duplicate-definition", m.as_str()).at_entity(
                    e.id.as_str(),
                );
                report(diags, d);
            }
        }
        assert(findings(diags@) =~= start + redefined(all, i + 1));
        i += 1;
    }
}

fn report_dangling_to(
    es: &Vec<Entity>,
    removed: &str,
    simple: &str,
    src: &[u8],
    diags: &mut Vec<Diagnostic>,
)
    ensures
        findings(final(diags)@) == findings(old(diags)@) + dangling_to(
            entity_views(es@),
            removed@,
            simple@,
            src@,
        ),
{
    let ghost all = entity_views(es@);
    let ghost start = findings(diags@);
    let mut i: usize = 0;
    assert(start + dangling_to(all.take(0), removed@, simple@, src@) =~= start);
    while i < es.len()
        invariant
            i <= es@.len(),
            all == entity_views(es@),
            findings(diags@) == start + dangling_to(all.take(i as int), removed@, simple@, src@),
        decreases es@.len() - i,
    {
        let ghost nn = all.take(i + 1);
        assert(nn.drop_last() =~= all.take(i as int));
        assert(nn.last() == es@[i as int]@);
        let e = &es[i];
        if !same(e.kind.as_str(), "import") {
            let body = match e.body {
                Some((a, b)) => read_clamped(src, a, b),
                None => read_clamped(src, e.start, e.end),
            };
            if mentions_word(body.as_str(), simple) {
                let mut m = e.id.clone();
                m.push_str(" still refers to ");
                m.push_str(removed);
                m.push_str(", which this edit removed");
                let d = Diagnostic::new("dangling-reference", m.as_str()).at_entity(
                    e.id.as_str(),
                ).at_line(line_of(src, e.start));
                report(diags, d);
            }
        }
        assert(findings(diags@) =~= start + dangling_to(nn, removed@, simple@, src@));
        i += 1;
    }
    assert(all.take(i as int) =~= all);
}

fn report_dangling(
    es: &Vec<Entity>,
    removed: &Vec<String>,
    sep: &str,
    src: &[u8],
    diags: &mut Vec<Diagnostic>,
)
    ensures
        findings(final(diags)@) == findings(old(diags)@) + dangling(
            entity_views(es@),
            texts(removed@),
            sep@,
            src@,
        ),
{
    let ghost all = entity_views(es@);
    let ghost gone = texts(removed@);
    let ghost start = findings(diags@);
    let mut i: usize = 0;
    assert(start + dangling(all, gone.take(0), sep@, src@) =~= start);
    while i < removed.len()
        invariant
            i <= removed@.len(),
            all == entity_views(es@),
            gone == texts(removed@),
            findings(diags@) == start + dangling(all, gone.take(i as int), sep@, src@),
        decreases removed@.len() - i,
    {
        let ghost nn = gone.take(i + 1);
        assert(nn.drop_last() =~= gone.take(i as int));
        assert(nn.last() == removed@[i as int]@);
        let simple = simple_name(removed[i].as_str(), sep);
        let ghost sofar = findings(diags@);
        if !simple.as_str().is_empty() {
            report_dangling_to(es, removed[i].as_str(), simple.as_str(), src, diags);
        }
        assert(findings(diags@) =~= start + dangling(all, nn, sep@, src@));
        i += 1;
    }
    assert(gone.take(i as int) =~= gone);
}

impl VerifyRung for Lint {
    fn name(&self) -> (r: &str)
        ensures
            r@ == "lint"@,
    {
        "lint"
    }

    fn level(&self) -> (r: u8)
        ensures
            r == 1,
    {
        1
    }

    fn expected_ms(&self) -> (r: u64)
        ensures
            r == 50,
    {
        50
    }

    fn once_per_task(&self) -> (r: bool)
        ensures
            !r,
    {
        false
    }

    fn check(&self, ctx: &VerifyCtx<'_>) -> (r: RungOutcome)
        ensures
            r@ == Outcome::judged(
                lint(
                    ctx.outline@.entities,
                    ctx.delta@.removed,
                    self.spec.sep@,
                    encode_utf8(text_of(ctx.artifact.bytes@)),
                ),
            ),
    {
        let text = ctx.artifact.text();
        let src = text.as_str().as_bytes();
        let es = &ctx.outline.entities;
        let mut diags: Vec<Diagnostic> = Vec::new();
        assert(findings(diags@) =~= Seq::<Finding>::empty());
        report_redefined(es, &mut diags);
        report_dangling(es, &ctx.delta.removed, self.spec.sep, src, &mut diags);
        assert(findings(diags@) =~= lint(
            ctx.outline@.entities,
            ctx.delta@.removed,
            self.spec.sep@,
            src@,
        ));
        RungOutcome::judge(diags)
    }
}

/// How an external tool is invoked. Kept as data so a repo can override the command.
#[derive(Debug)]
pub struct ToolSpec {
    pub program: String,
    pub args: Vec<String>,
    /// Parse the output as cargo's json diagnostics.
    pub cargo_json: bool,
}

fn owned(v: &[&str]) -> (r: Vec<String>)
    ensures
        texts(r@) == v@.map_values(|s: &str| s@),
{
    let ghost all = v@.map_values(|s: &str| s@);
    let mut out: Vec<String> = Vec::new();
    let mut i: usize = 0;
    assert(texts(out@) =~= all.take(0));
    while i < v.len()
        invariant
            i <= v@.len(),
            all == v@.map_values(|s: &str| s@),
            texts(out@) == all.take(i as int),
        decreases v@.len() - i,
    {
        let ghost sofar = texts(out@);
        out.push(v[i].to_owned());
        assert(texts(out@) =~= sofar.push(all[i as int]));
        assert(all.take(i + 1) =~= all.take(i as int).push(all[i as int]));
        i += 1;
    }
    assert(all.take(i as int) =~= all);
    out
}

impl ToolSpec {
    pub fn new(program: &str, args: &[&str]) -> (r: Self)
        ensures
            r.program@ == program@,
            texts(r.args@) == args@.map_values(|s: &str| s@),
            !r.cargo_json,
    {
        ToolSpec { program: program.to_owned(), args: owned(args), cargo_json: false }
    }

    pub fn cargo_json(self) -> (r: Self)
        ensures
            r == (ToolSpec { cargo_json: true, ..self }),
    {
        ToolSpec { program: self.program, args: self.args, cargo_json: true }
    }

    pub fn rust_typecheck() -> (r: Self)
        ensures
            r.program@ == "cargo"@,
            texts(r.args@) == seq!["check"@, "--message-format=json"@, "--quiet"@],
            r.cargo_json,
    {
        let r = ToolSpec::new("cargo", &["check", "--message-format=json", "--quiet"]).cargo_json();
        assert(texts(r.args@) =~= seq!["check"@, "--message-format=json"@, "--quiet"@]);
        r
    }

    pub fn rust_test() -> (r: Self)
        ensures
            r.program@ == "cargo"@,
            texts(r.args@) == seq!["test"@, "--quiet"@],
            !r.cargo_json,
    {
        let r = ToolSpec::new("cargo", &["test", "--quiet"]);
        assert(texts(r.args@) =~= seq!["test"@, "--quiet"@]);
        r
    }

    /// The same invocation.
    pub fn copy(&self) -> (r: Self)
        ensures
            r.program@ == self.program@,
            texts(r.args@) == texts(self.args@),
            r.cargo_json == self.cargo_json,
    {
        ToolSpec {
            program: self.program.clone(),
            args: copy_strings(&self.args),
            cargo_json: self.cargo_json,
        }
    }
}

/// What a tool answered.
#[derive(Debug)]
pub enum ToolRun {
    /// It could not be started.
    Broken(String),
    /// It ran to its end.
    Ended { success: bool, stdout: String, stderr: String },
}

/// The finding that one line of cargo's output is, where it is an error message.
pub open spec fn cargo_finding(line: Seq<char>) -> Option<Finding> {
    let v = json_of(line);
    let msg = at_key(v, "message"@);
    if v is None || text_at(v, "reason"@) != Some("compiler-message"@) || msg is None || text_at(
        msg,
        "level"@,
    ) != Some("error"@) {
        None
    } else {
        let code = match text_at(at_key(msg, "code"@), "code"@) {
            Some(c) => c,
            None => "error"@,
        };
        let text = match text_at(msg, "message"@) {
            Some(t) => t,
            None => Seq::empty(),
        };
        Some(Finding { code, message: text, entity: None, line: first_line_of(msg) })
    }
}

/// The line of the first span of a message, where it has one.
pub open spec fn first_line_of(msg: Option<Json>) -> Option<u32> {
    match at_key(msg, "spans"@) {
        None => None,
        Some(s) => match s.items() {
            None => None,
            Some(items) => if items.len() == 0 {
                None
            } else {
                match items[0].at("line_start"@) {
                    None => None,
                    Some(l) => match l.whole() {
                        None => None,
                        Some(n) => Some(n as u32),
                    },
                }
            },
        },
    }
}

/// The errors in cargo's json output, line by line.
pub open spec fn cargo_findings(l: Seq<Seq<char>>) -> Seq<Finding>
    decreases l.len(),
{
    if l.len() == 0 {
        Seq::empty()
    } else {
        let rest = cargo_findings(l.drop_last());
        match cargo_finding(l.last()) {
            Some(f) => rest.push(f),
            None => rest,
        }
    }
}

fn line_of_message(msg: &serde_json::Value) -> (r: Option<u32>)
    ensures
        r == first_line_of(Some(held(*msg))),
{
    match get(msg, "spans") {
        None => None,
        Some(s) => match as_items(s) {
            None => None,
            Some(items) => if items.len() == 0 {
                assert(items@.map_values(|x: serde_json::Value| held(x)).len() == 0);
                None
            } else {
                assert(items@.map_values(|x: serde_json::Value| held(x))[0] == held(items@[0]));
                match get(&items[0], "line_start") {
                    None => None,
                    Some(l) => match as_whole(l) {
                        None => None,
                        Some(n) => Some(n as u32),
                    },
                }
            },
        },
    }
}

fn cargo_message(line: &str) -> (r: Option<Diagnostic>)
    ensures
        r is Some <==> cargo_finding(line@) is Some,
        r matches Some(d) ==> cargo_finding(line@) == Some(d@),
{
    let v = match crate::json::parse(line) {
        Some(v) => v,
        None => {
            return None;
        },
    };
    match text_of_key(&v, "reason") {
        Some(reason) => {
            if !same(reason, "compiler-message") {
                return None;
            }
        },
        None => {
            return None;
        },
    }
    let msg = match get(&v, "message") {
        Some(m) => m,
        None => {
            return None;
        },
    };
    match text_of_key(msg, "level") {
        Some(level) => {
            if !same(level, "error") {
                return None;
            }
        },
        None => {
            return None;
        },
    }
    let code = match get(msg, "code") {
        Some(c) => match text_of_key(c, "code") {
            Some(s) => s.to_owned(),
            None => "error".to_owned(),
        },
        None => "error".to_owned(),
    };
    let message = match text_of_key(msg, "message") {
        Some(s) => s.to_owned(),
        None => {
            let none = String::new();
            assert(none@ =~= Seq::<char>::empty());
            none
        },
    };
    Some(Diagnostic { code, message, entity: None, line: line_of_message(msg) })
}

/// Turn cargo's json output into structured diagnostics. Never raw output.
pub fn parse_cargo_json(stdout: &str) -> (r: Vec<Diagnostic>)
    ensures
        findings(r@) == cargo_findings(lines_of(stdout@)),
{
    let all = lines(stdout);
    let ghost l = texts(all@);
    let mut out: Vec<Diagnostic> = Vec::new();
    let mut i: usize = 0;
    assert(l.take(0) =~= Seq::<Seq<char>>::empty());
    assert(findings(out@) =~= Seq::<Finding>::empty());
    while i < all.len()
        invariant
            i <= all@.len(),
            l == texts(all@),
            findings(out@) == cargo_findings(l.take(i as int)),
        decreases all@.len() - i,
    {
        let ghost nn = l.take(i + 1);
        assert(nn.drop_last() =~= l.take(i as int));
        assert(nn.last() == all@[i as int]@);
        match cargo_message(all[i].as_str()) {
            Some(d) => {
                report(&mut out, d);
            },
            None => {},
        }
        i += 1;
    }
    assert(l.take(i as int) =~= l);
    out
}

/// The first of some lines that holds a word, trimmed.
pub open spec fn first_naming(l: Seq<Seq<char>>, w: Seq<char>) -> Option<Seq<char>>
    decreases l.len(),
{
    if l.len() == 0 {
        None
    } else {
        match first_naming(l.drop_last(), w) {
            Some(t) => Some(t),
            None => if has_text(l.last(), w) {
                Some(trim_of(l.last()))
            } else {
                None
            },
        }
    }
}

fn find_naming(text: &str, w: &str) -> (r: Option<String>)
    ensures
        r is Some <==> first_naming(lines_of(text@), w@) is Some,
        r matches Some(s) ==> first_naming(lines_of(text@), w@) == Some(s@),
{
    let all = lines(text);
    let ghost l = texts(all@);
    let mut found: Option<String> = None;
    let mut i: usize = 0;
    assert(l.take(0) =~= Seq::<Seq<char>>::empty());
    while i < all.len()
        invariant
            i <= all@.len(),
            l == texts(all@),
            found is Some <==> first_naming(l.take(i as int), w@) is Some,
            found matches Some(s) ==> first_naming(l.take(i as int), w@) == Some(s@),
        decreases all@.len() - i,
    {
        let ghost nn = l.take(i + 1);
        assert(nn.drop_last() =~= l.take(i as int));
        assert(nn.last() == all@[i as int]@);
        if found.is_none() && contains(all[i].as_str(), w) {
            found = Some(trim(all[i].as_str()));
        }
        i += 1;
    }
    assert(l.take(i as int) =~= l);
    found
}

/// The findings of a typecheck that failed. Where the output says nothing structured, the first
/// line that names an error stands for all of it.
pub open spec fn typecheck_findings(cargo: bool, stdout: Seq<char>, stderr: Seq<char>) -> Seq<
    Finding,
> {
    let listed = if cargo {
        cargo_findings(lines_of(stdout))
    } else {
        Seq::empty()
    };
    if listed.len() == 0 {
        let first = match first_naming(lines_of(stderr), "error"@) {
            Some(l) => l,
            None => "typecheck failed"@,
        };
        seq![finding("typecheck"@, first)]
    } else {
        listed
    }
}

/// Does a line of a test run's output say what failed?
pub open spec fn tells_failure(t: Seq<char>) -> bool {
    begins(t, "assertion"@) || has_text(t, "panicked at"@) || (begins(t, "test "@) && ends(
        t,
        "FAILED"@,
    ))
}

/// One finding for each line that says what failed.
pub open spec fn failure_lines(l: Seq<Seq<char>>) -> Seq<Finding>
    decreases l.len(),
{
    if l.len() == 0 {
        Seq::empty()
    } else {
        let rest = failure_lines(l.drop_last());
        let t = trim_of(l.last());
        if tells_failure(t) {
            rest.push(finding("test-failed"@, t))
        } else {
            rest
        }
    }
}

/// The findings of a test run that failed.
pub open spec fn test_findings(stdout: Seq<char>, stderr: Seq<char>, what: Seq<char>) -> Seq<
    Finding,
> {
    let listed = failure_lines(lines_of(stdout) + lines_of(stderr));
    if listed.len() == 0 {
        seq![finding("test-failed"@, what + " failed without a parseable assertion"@)]
    } else {
        listed
    }
}

/// The findings of a test run that failed.
pub fn summarise_test_failure(stdout: &str, stderr: &str, what: &str) -> (r: Vec<Diagnostic>)
    ensures
        findings(r@) == capped(test_findings(stdout@, stderr@, what@)),
{
    let mut all = lines(stdout);
    let more = lines(stderr);
    crate::adapter::extend_strings(&mut all, &more);
    let ghost l = texts(all@);
    let mut diags: Vec<Diagnostic> = Vec::new();
    let mut i: usize = 0;
    assert(l.take(0) =~= Seq::<Seq<char>>::empty());
    assert(findings(diags@) =~= Seq::<Finding>::empty());
    while i < all.len()
        invariant
            i <= all@.len(),
            l == texts(all@),
            findings(diags@) == failure_lines(l.take(i as int)),
        decreases all@.len() - i,
    {
        let ghost nn = l.take(i + 1);
        assert(nn.drop_last() =~= l.take(i as int));
        assert(nn.last() == all@[i as int]@);
        let line = trim(all[i].as_str());
        let t = line.as_str();
        if starts_with(t, "assertion") || contains(t, "panicked at") || (starts_with(t, "test ")
            && ends_with(t, "FAILED")) {
            report(&mut diags, Diagnostic::new("test-failed", t));
        }
        i += 1;
    }
    assert(l.take(i as int) =~= l);
    assert(findings(diags@).len() == diags@.len());
    if diags.len() == 0 {
        let mut m = what.to_owned();
        m.push_str(" failed without a parseable assertion");
        let ghost none = findings(diags@);
        report(&mut diags, Diagnostic::new("test-failed", m.as_str()));
        assert(findings(diags@) =~= seq![
            finding("test-failed"@, what@ + " failed without a parseable assertion"@),
        ]);
    }
    crate::adapter::cap_diagnostics(diags)
}

/// What a rung that runs tools wants next.
pub enum Step {
    /// Run the tool with these further arguments.
    Run(Vec<String>),
    /// The rung is over.
    Done(RungOutcome),
}

/// What a rung that runs tools wants next, as the values it holds.
pub ghost enum Next {
    Run(Seq<Seq<char>>),
    Done(Outcome),
}

impl View for Step {
    type V = Next;

    open spec fn view(&self) -> Next {
        match self {
            Step::Run(args) => Next::Run(texts(args@)),
            Step::Done(o) => Next::Done(o@),
        }
    }
}

/// The outcome of a tool that could not be started.
pub open spec fn could_not_run(program: Seq<char>, why: Seq<char>) -> Outcome {
    Outcome::unavailable(program + " could not run: "@ + why)
}

fn broken(program: &str, why: &str) -> (r: RungOutcome)
    ensures
        r@ == could_not_run(program@, why@),
{
    let mut m = program.to_owned();
    m.push_str(" could not run: ");
    m.push_str(why);
    RungOutcome::unavailable(m.as_str())
}

/// The outcome of a test run.
pub open spec fn tested(program: Seq<char>, run: ToolRun, what: Seq<char>) -> Outcome {
    match run {
        ToolRun::Broken(why) => could_not_run(program, why@),
        ToolRun::Ended { success, stdout, stderr } => if success {
            Outcome::pass()
        } else {
            Outcome::fail(test_findings(stdout@, stderr@, what))
        },
    }
}

fn judge_tests(program: &str, run: &ToolRun, what: &str) -> (r: RungOutcome)
    ensures
        r@ == tested(program@, *run, what@),
{
    match run {
        ToolRun::Broken(why) => broken(program, why.as_str()),
        ToolRun::Ended { success, stdout, stderr } => {
            if *success {
                RungOutcome::pass()
            } else {
                let d = summarise_test_failure(stdout.as_str(), stderr.as_str(), what);
                RungOutcome::fail(d)
            }
        },
    }
}

fn nothing() -> (r: Vec<String>)
    ensures
        texts(r@) == Seq::<Seq<char>>::empty(),
{
    let r: Vec<String> = Vec::new();
    assert(texts(r@) =~= Seq::<Seq<char>>::empty());
    r
}

/// Hand the file to the real toolchain.
pub struct Typecheck {
    pub tool: ToolSpec,
    pub expected_ms: u64,
}

impl Typecheck {
    /// The outcome of the tool's run.
    pub open spec fn judged(&self, run: ToolRun) -> Outcome {
        match run {
            ToolRun::Broken(why) => could_not_run(self.tool.program@, why@),
            ToolRun::Ended { success, stdout, stderr } => if success {
                Outcome::pass()
            } else {
                Outcome::fail(typecheck_findings(self.tool.cargo_json, stdout@, stderr@))
            },
        }
    }

    /// What comes next, given the runs so far.
    pub open spec fn next(&self, has_workspace: bool, runs: Seq<ToolRun>) -> Next {
        if !has_workspace {
            Next::Done(Outcome::unavailable("no workspace directory for the typecheck rung"@))
        } else if runs.len() == 0 {
            Next::Run(Seq::empty())
        } else {
            Next::Done(self.judged(runs[0]))
        }
    }

    pub fn judge(&self, run: &ToolRun) -> (r: RungOutcome)
        ensures
            r@ == self.judged(*run),
    {
        match run {
            ToolRun::Broken(why) => broken(self.tool.program.as_str(), why.as_str()),
            ToolRun::Ended { success, stdout, stderr } => {
                if *success {
                    return RungOutcome::pass();
                }
                let mut diags: Vec<Diagnostic> = Vec::new();
                assert(findings(diags@) =~= Seq::<Finding>::empty());
                if self.tool.cargo_json {
                    diags = parse_cargo_json(stdout.as_str());
                }
                assert(findings(diags@).len() == diags@.len());
                if diags.len() == 0 {
                    let first = match find_naming(stderr.as_str(), "error") {
                        Some(l) => l,
                        None => "typecheck failed".to_owned(),
                    };
                    report(&mut diags, Diagnostic::new("typecheck", first.as_str()));
                    assert(findings(diags@) =~= seq![finding("typecheck"@, first@)]);
                }
                RungOutcome::fail(diags)
            },
        }
    }

    /// What to do, given what the tool has answered so far.
    pub fn step(&self, ctx: &VerifyCtx<'_>, runs: &Vec<ToolRun>) -> (r: Step)
        ensures
            r@ == self.next(ctx.workspace is Some, runs@),
    {
        if ctx.workspace.is_none() {
            return Step::Done(
                RungOutcome::unavailable("no workspace directory for the typecheck rung"),
            );
        }
        if runs.len() == 0 {
            Step::Run(nothing())
        } else {
            Step::Done(self.judge(&runs[0]))
        }
    }
}

/// Only the tests the change can reach.
pub struct ImpactedTests {
    pub tool: ToolSpec,
    pub expected_ms: u64,
    /// Above this many impacted tests, running them one by one costs more than the suite does.
    pub fallback_to_all_above: usize,
}

impl ImpactedTests {
    /// Is the whole suite run? Where something changed and selection found no test for it, the
    /// selection is not believed: passing on an empty selection would be a false green.
    pub open spec fn runs_everything(&self, tests: Seq<Seq<char>>) -> bool {
        tests.len() == 0 || tests.len() > self.fallback_to_all_above
    }

    /// The outcome once some of the selected tests have been run: the first that did not pass
    /// decides, and where all that were run passed there is none yet.
    pub open spec fn settled(&self, tests: Seq<Seq<char>>, runs: Seq<ToolRun>) -> Option<Outcome>
        decreases runs.len(),
    {
        if runs.len() == 0 {
            None
        } else {
            match self.settled(tests, runs.drop_last()) {
                Some(o) => Some(o),
                None => {
                    let o = tested(self.tool.program@, runs.last(), tests[runs.len() - 1]);
                    if o.passed {
                        None
                    } else {
                        Some(o)
                    }
                },
            }
        }
    }

    /// What comes next, given the runs so far.
    pub open spec fn next(
        &self,
        has_workspace: bool,
        unchanged: bool,
        tests: Seq<Seq<char>>,
        runs: Seq<ToolRun>,
    ) -> Next {
        if !has_workspace {
            Next::Done(Outcome::unavailable("no workspace directory for the test rung"@))
        } else if tests.len() == 0 && unchanged {
            Next::Done(Outcome::pass())
        } else if self.runs_everything(tests) {
            if runs.len() == 0 {
                Next::Run(Seq::empty())
            } else {
                Next::Done(tested(self.tool.program@, runs[0], "the suite"@))
            }
        } else {
            let seen = if runs.len() <= tests.len() {
                runs
            } else {
                runs.take(tests.len() as int)
            };
            match self.settled(tests, seen) {
                Some(o) => Next::Done(o),
                None => if seen.len() < tests.len() {
                    Next::Run(seq![tests[seen.len() as int]])
                } else {
                    Next::Done(Outcome::pass())
                },
            }
        }
    }

    /// What to do, given what the tool has answered so far.
    pub fn step(&self, ctx: &VerifyCtx<'_>, runs: &Vec<ToolRun>) -> (r: Step)
        ensures
            r@ == self.next(
                ctx.workspace is Some,
                ctx.delta@.touched().len() == 0,
                ctx.impact@.tests,
                runs@,
            ),
    {
        let tests = &ctx.impact.tests;
        let ghost t = ctx.impact@.tests;
        assert(t.len() == tests@.len());
        if ctx.workspace.is_none() {
            return Step::Done(RungOutcome::unavailable("no workspace directory for the test rung"));
        }
        if tests.len() == 0 && ctx.delta.is_empty() {
            return Step::Done(RungOutcome::pass());
        }
        if tests.len() == 0 || tests.len() > self.fallback_to_all_above {
            return if runs.len() == 0 {
                Step::Run(nothing())
            } else {
                Step::Done(judge_tests(self.tool.program.as_str(), &runs[0], "the suite"))
            };
        }
        let n: usize = if runs.len() <= tests.len() { runs.len() } else { tests.len() };
        let ghost seen = runs@.take(n as int);
        assert(runs@.len() <= t.len() ==> seen =~= runs@);
        let mut i: usize = 0;
        assert(runs@.take(0) =~= Seq::<ToolRun>::empty());
        while i < n
            invariant
                i <= n <= runs@.len(),
                n <= tests@.len(),
                t == texts(tests@),
                t == ctx.impact@.tests,
                seen == runs@.take(n as int),
                runs@.len() <= t.len() ==> seen == runs@,
                runs@.len() > t.len() ==> n == t.len(),
                ctx.workspace is Some,
                !(t.len() == 0),
                !(t.len() > self.fallback_to_all_above),
                self.settled(t, runs@.take(i as int)) is None,
            decreases n - i,
        {
            let ghost nn = runs@.take(i + 1);
            assert(nn.drop_last() =~= runs@.take(i as int));
            assert(nn.last() == runs@[i as int]);
            assert(t[i as int] == tests@[i as int]@);
            let o = judge_tests(self.tool.program.as_str(), &runs[i], tests[i].as_str());
            if !o.passed {
                proof {
                    assert(self.settled(t, nn) == Some(o@));
                    assert(seen.take(i + 1) =~= nn);
                    self.lemma_settled_stays(t, seen, i + 1);
                }
                return Step::Done(o);
            }
            i += 1;
        }
        if n < tests.len() {
            let mut args: Vec<String> = Vec::new();
            args.push(tests[n].clone());
            assert(texts(args@) =~= seq![t[n as int]]);
            Step::Run(args)
        } else {
            Step::Done(RungOutcome::pass())
        }
    }

    proof fn lemma_settled_stays(&self, tests: Seq<Seq<char>>, runs: Seq<ToolRun>, n: int)
        requires
            0 <= n <= runs.len(),
            self.settled(tests, runs.take(n)) is Some,
        ensures
            self.settled(tests, runs) == self.settled(tests, runs.take(n)),
        decreases runs.len(),
    {
        if n == runs.len() {
            assert(runs.take(n) =~= runs);
        } else {
            assert(runs.drop_last().take(n) =~= runs.take(n));
            self.lemma_settled_stays(tests, runs.drop_last(), n);
        }
    }
}

/// The whole suite, once, at the end of the task.
pub struct FullSuite {
    pub tool: ToolSpec,
    pub expected_ms: u64,
}

impl FullSuite {
    /// What comes next, given the runs so far.
    pub open spec fn next(&self, has_workspace: bool, runs: Seq<ToolRun>) -> Next {
        if !has_workspace {
            Next::Done(Outcome::unavailable("no workspace directory for the full suite"@))
        } else if runs.len() == 0 {
            Next::Run(Seq::empty())
        } else {
            Next::Done(tested(self.tool.program@, runs[0], "the suite"@))
        }
    }

    /// What to do, given what the tool has answered so far.
    pub fn step(&self, ctx: &VerifyCtx<'_>, runs: &Vec<ToolRun>) -> (r: Step)
        ensures
            r@ == self.next(ctx.workspace is Some, runs@),
    {
        if ctx.workspace.is_none() {
            return Step::Done(
                RungOutcome::unavailable("no workspace directory for the full suite"),
            );
        }
        if runs.len() == 0 {
            Step::Run(nothing())
        } else {
            Step::Done(judge_tests(self.tool.program.as_str(), &runs[0], "the suite"))
        }
    }
}

/// A rung that has nowhere to run its tool is unavailable, and not a pass.
pub proof fn law_no_workspace_is_never_a_pass(
    typecheck: Typecheck,
    impacted: ImpactedTests,
    full: FullSuite,
    unchanged: bool,
    tests: Seq<Seq<char>>,
    runs: Seq<ToolRun>,
)
    ensures
        typecheck.next(false, runs) matches Next::Done(o) && o.unavailable && !o.passed,
        impacted.next(false, unchanged, tests, runs) matches Next::Done(o) && o.unavailable
            && !o.passed,
        full.next(false, runs) matches Next::Done(o) && o.unavailable && !o.passed,
{
}

/// A change for which no test was selected does not pass without a test run that passed.
pub proof fn law_an_empty_selection_is_not_believed(
    rung: ImpactedTests,
    has_workspace: bool,
    runs: Seq<ToolRun>,
)
    ensures
        rung.next(has_workspace, false, Seq::empty(), runs) matches Next::Done(o) && o.passed
            ==> runs.len() > 0 && tested(rung.tool.program@, runs[0], "the suite"@).passed,
{
}

/// One check of the code ladder.
pub enum CodeRung {
    Reparse(Reparse),
    Lint(Lint),
    Typecheck(Typecheck),
    ImpactedTests(ImpactedTests),
    FullSuite(FullSuite),
}

impl CodeRung {
    pub fn name(&self) -> (r: &'static str)
        ensures
            r@ == match self {
                CodeRung::Reparse(_) => "reparse"@,
                CodeRung::Lint(_) => "lint"@,
                CodeRung::Typecheck(_) => "typecheck"@,
                CodeRung::ImpactedTests(_) => "impacted-tests"@,
                CodeRung::FullSuite(_) => "full-suite"@,
            },
    {
        match self {
            CodeRung::Reparse(_) => "reparse",
            CodeRung::Lint(_) => "lint",
            CodeRung::Typecheck(_) => "typecheck",
            CodeRung::ImpactedTests(_) => "impacted-tests",
            CodeRung::FullSuite(_) => "full-suite",
        }
    }

    pub fn level(&self) -> (r: u8)
        ensures
            r == match self {
                CodeRung::Reparse(_) => 0u8,
                CodeRung::Lint(_) => 1u8,
                CodeRung::Typecheck(_) => 2u8,
                CodeRung::ImpactedTests(_) => 3u8,
                CodeRung::FullSuite(_) => 4u8,
            },
    {
        match self {
            CodeRung::Reparse(_) => 0,
            CodeRung::Lint(_) => 1,
            CodeRung::Typecheck(_) => 2,
            CodeRung::ImpactedTests(_) => 3,
            CodeRung::FullSuite(_) => 4,
        }
    }

    pub fn expected_ms(&self) -> (r: u64)
        ensures
            r == match self {
                CodeRung::Reparse(_) => 1u64,
                CodeRung::Lint(_) => 50u64,
                CodeRung::Typecheck(t) => t.expected_ms,
                CodeRung::ImpactedTests(t) => t.expected_ms,
                CodeRung::FullSuite(t) => t.expected_ms,
            },
    {
        match self {
            CodeRung::Reparse(_) => 1,
            CodeRung::Lint(_) => 50,
            CodeRung::Typecheck(t) => t.expected_ms,
            CodeRung::ImpactedTests(t) => t.expected_ms,
            CodeRung::FullSuite(t) => t.expected_ms,
        }
    }

    pub fn once_per_task(&self) -> (r: bool)
        ensures
            r == (self is FullSuite),
    {
        match self {
            CodeRung::FullSuite(_) => true,
            _ => false,
        }
    }

    /// What to do, given what the tool has answered so far. A rung that runs no tool is over at
    /// once.
    pub fn step(&self, ctx: &VerifyCtx<'_>, runs: &Vec<ToolRun>) -> (r: Step)
        ensures
            match self {
                CodeRung::Reparse(x) => match tree_of(x.spec.lang, ctx.artifact.bytes@) {
                    Some(t) => r@ == Next::Done(
                        Outcome::judged(
                            syntax_findings(flaws(t), encode_utf8(text_of(ctx.artifact.bytes@))),
                        ),
                    ),
                    None => exists|e: crate::adapter::Fault| #[trigger]
                        no_tree(x.spec.name@, e) && r@ == Next::Done(
                            Outcome::fail(seq![finding("parse-failed"@, e.sentence())]),
                        ),
                },
                CodeRung::Lint(x) => r@ == Next::Done(
                    Outcome::judged(
                        lint(
                            ctx.outline@.entities,
                            ctx.delta@.removed,
                            x.spec.sep@,
                            encode_utf8(text_of(ctx.artifact.bytes@)),
                        ),
                    ),
                ),
                CodeRung::Typecheck(x) => r@ == x.next(ctx.workspace is Some, runs@),
                CodeRung::ImpactedTests(x) => r@ == x.next(
                    ctx.workspace is Some,
                    ctx.delta@.touched().len() == 0,
                    ctx.impact@.tests,
                    runs@,
                ),
                CodeRung::FullSuite(x) => r@ == x.next(ctx.workspace is Some, runs@),
            },
    {
        match self {
            CodeRung::Reparse(x) => Step::Done(x.check(ctx)),
            CodeRung::Lint(x) => Step::Done(x.check(ctx)),
            CodeRung::Typecheck(x) => x.step(ctx, runs),
            CodeRung::ImpactedTests(x) => x.step(ctx, runs),
            CodeRung::FullSuite(x) => x.step(ctx, runs),
        }
    }
}

} // verus!
