//! Source code as named entities in a reference graph.
//!
//! * model: a symbol graph over syntax trees, for rust, python and typescript
//! * ops: named entity ops, one entity per op, with a line cap and a unified-diff fallback
//! * ladder: reparse, lint, typecheck, impacted tests, full suite
//! * impact: static test selection over the reference graph
//! * packs: deterministic, minimal, signature-not-body for everything but the target

pub mod changes;
pub mod diff;
pub mod hunks;
pub mod impact;
pub mod index;
pub mod ladder;
pub mod lang;
pub mod linking;
pub mod ops;
pub mod pack;
pub mod symbols;
pub mod syntax;

use crate::adapter::delta_from;
use crate::adapter::delta_since;
use crate::adapter::Adapter;
use crate::adapter::AdapterError;
use crate::adapter::Applied;
use crate::adapter::Artifact;
use crate::adapter::Delta;
use crate::adapter::Fault;
use crate::adapter::ImpactSet;
use crate::adapter::Op;
use crate::adapter::Outline;
use crate::adapter::OutlineView;
use crate::adapter::Pack;
use crate::adapter::PackRequest;
use crate::text::texts;
use impact::analysed;
use ladder::CodeRung;
use ladder::FullSuite;
use ladder::ImpactedTests;
use ladder::Lint;
use ladder::Reparse;
use ladder::ToolSpec;
use ladder::Typecheck;
use lang::lang_name;
use lang::lang_of;
use lang::lang_sep;
use lang::Lang;
use lang::LangSpec;
use ops::comes_to;
use pack::budget_of;
use pack::pack_parts;
use pack::within_budget;
use symbols::outline_of;
use syntax::no_tree;
use syntax::tree_of;
use vstd::prelude::*;

verus! {

/// How the external rungs are invoked. Data rather than hardcoded commands, so a repo with a
/// different build system is a config change.
pub struct ToolConfig {
    pub typecheck: ToolSpec,
    pub test: ToolSpec,
    /// Above this many impacted tests, run the suite instead of picking them off one by one.
    pub select_tests_up_to: usize,
    /// Seed estimates for job classification, replaced by real history after the first run.
    pub typecheck_ms: u64,
    pub test_ms: u64,
    pub suite_ms: u64,
}

/// Are these the tools of a Rust workspace?
pub open spec fn are_usual(t: ToolConfig) -> bool {
    &&& t.typecheck.program@ == "cargo"@
    &&& texts(t.typecheck.args@) == seq!["check"@, "--message-format=json"@, "--quiet"@]
    &&& t.typecheck.cargo_json
    &&& t.test.program@ == "cargo"@
    &&& texts(t.test.args@) == seq!["test"@, "--quiet"@]
    &&& !t.test.cargo_json
    &&& t.select_tests_up_to == 12
    &&& t.typecheck_ms == 4_000
    &&& t.test_ms == 3_000
    &&& t.suite_ms == 20_000
}

impl Default for ToolConfig {
    fn default() -> (r: Self)
        ensures
            are_usual(r),
    {
        ToolConfig {
            typecheck: ToolSpec::rust_typecheck(),
            test: ToolSpec::rust_test(),
            select_tests_up_to: 12,
            typecheck_ms: 4_000,
            test_ms: 3_000,
            suite_ms: 20_000,
        }
    }
}

/// Are two invocations the same?
pub open spec fn same_tool(a: ToolSpec, b: ToolSpec) -> bool {
    a.program@ == b.program@ && texts(a.args@) == texts(b.args@) && a.cargo_json == b.cargo_json
}

/// Is this the ladder for a language with these tools, cheapest check first?
pub open spec fn is_ladder(r: Seq<CodeRung>, lang: Lang, tools: ToolConfig) -> bool {
    &&& r.len() == 5
    &&& (r[0] matches CodeRung::Reparse(x) && x.spec.lang == lang && x.spec.sep@ == lang_sep(lang)
        && x.spec.name@ == lang_name(lang))
    &&& (r[1] matches CodeRung::Lint(x) && x.spec.lang == lang && x.spec.sep@ == lang_sep(lang))
    &&& (r[2] matches CodeRung::Typecheck(x) && same_tool(x.tool, tools.typecheck) && x.expected_ms
        == tools.typecheck_ms)
    &&& (r[3] matches CodeRung::ImpactedTests(x) && same_tool(x.tool, tools.test) && x.expected_ms
        == tools.test_ms && x.fallback_to_all_above == tools.select_tests_up_to)
    &&& (r[4] matches CodeRung::FullSuite(x) && same_tool(x.tool, tools.test) && x.expected_ms
        == tools.suite_ms)
}

fn climb(spec: LangSpec, tools: &ToolConfig) -> (r: Vec<CodeRung>)
    requires
        spec.sep@ == lang_sep(spec.lang),
        spec.name@ == lang_name(spec.lang),
    ensures
        is_ladder(r@, spec.lang, *tools),
{
    let mut r: Vec<CodeRung> = Vec::new();
    r.push(CodeRung::Reparse(Reparse { spec }));
    r.push(CodeRung::Lint(Lint { spec }));
    r.push(
        CodeRung::Typecheck(
            Typecheck { tool: tools.typecheck.copy(), expected_ms: tools.typecheck_ms },
        ),
    );
    r.push(
        CodeRung::ImpactedTests(
            ImpactedTests {
                tool: tools.test.copy(),
                expected_ms: tools.test_ms,
                fallback_to_all_above: tools.select_tests_up_to,
            },
        ),
    );
    r.push(
        CodeRung::FullSuite(FullSuite { tool: tools.test.copy(), expected_ms: tools.suite_ms }),
    );
    r
}

/// A ladder for one file, with the rungs whose grammar matches that file.
pub fn ladder_for(path: &str, tools: &ToolConfig) -> (r: Vec<CodeRung>)
    ensures
        match lang_of(path@) {
            Some(lang) => is_ladder(r@, lang, *tools),
            None => r@.len() == 0,
        },
{
    match LangSpec::for_path(path) {
        Some(spec) => climb(spec, tools),
        None => Vec::new(),
    }
}

pub struct CodeAdapter {
    pub tools: ToolConfig,
}

impl Default for CodeAdapter {
    fn default() -> (r: Self)
        ensures
            are_usual(r.tools),
    {
        CodeAdapter::new()
    }
}

/// The fault of a path that no grammar handles.
pub open spec fn no_grammar(path: Seq<char>) -> Fault {
    Fault::Parse("no grammar handles "@ + path)
}

/// A file with its outline, where a grammar handles it and it parses.
pub open spec fn outlined(path: Seq<char>, bytes: Seq<u8>) -> Option<(OutlineView, Seq<u8>)> {
    match lang_of(path) {
        Some(lang) => match outline_of(lang, lang_sep(lang), path, bytes) {
            Some(o) => Some((o, bytes)),
            None => None,
        },
        None => None,
    }
}

impl CodeAdapter {
    pub fn new() -> (r: Self)
        ensures
            are_usual(r.tools),
    {
        CodeAdapter { tools: ToolConfig::default() }
    }

    pub fn with_tools(tools: ToolConfig) -> (r: Self)
        ensures
            r.tools == tools,
    {
        CodeAdapter { tools }
    }

    fn spec(&self, path: &str) -> (r: Result<LangSpec, AdapterError>)
        ensures
            match r {
                Ok(s) => {
                    &&& lang_of(path@) == Some(s.lang)
                    &&& s.name@ == lang_name(s.lang)
                    &&& s.sep@ == lang_sep(s.lang)
                    &&& s.braced == (s.lang != Lang::Python)
                },
                Err(e) => lang_of(path@) is None && e@ == no_grammar(path@),
            },
    {
        match LangSpec::for_path(path) {
            Some(s) => Ok(s),
            None => {
                let mut m = "no grammar handles ".to_owned();
                m.push_str(path);
                Err(AdapterError::Parse(m))
            },
        }
    }

    pub fn outline(&self, artifact: &Artifact) -> (r: Result<Outline, AdapterError>)
        ensures
            match lang_of(artifact.path@) {
                None => r matches Err(e) && e@ == no_grammar(artifact.path@),
                Some(lang) => match outline_of(
                    lang,
                    lang_sep(lang),
                    artifact.path@,
                    artifact.bytes@,
                ) {
                    Some(o) => r matches Ok(x) && x@ == o,
                    None => r matches Err(e) && no_tree(lang_name(lang), e@),
                },
            },
    {
        match self.spec(artifact.path.as_str()) {
            Ok(spec) => symbols::outline(&spec, artifact),
            Err(e) => Err(e),
        }
    }

    /// Deterministically apply ops. All or nothing: a rejected op leaves the artifact untouched.
    pub fn apply(&self, artifact: &Artifact, op_list: &Vec<Op>) -> (r: Result<
        Applied,
        AdapterError,
    >)
        ensures
            match lang_of(artifact.path@) {
                None => r matches Err(e) && e@ == no_grammar(artifact.path@),
                Some(lang) => if op_list@.len() == 0 {
                    r matches Err(e) && e@ == Fault::BadOp("empty op batch"@)
                } else {
                    match tree_of(lang, artifact.bytes@) {
                        None => r matches Err(e) && no_tree(lang_name(lang), e@),
                        Some(t) => exists|spec: LangSpec|
                            spec.lang == lang && spec.sep@ == lang_sep(lang) && spec.name@
                                == lang_name(lang) && spec.braced == (lang != Lang::Python)
                                && #[trigger] comes_to(
                                &spec,
                                artifact.path@,
                                artifact.bytes@,
                                t,
                                op_list@,
                                r,
                            ),
                    }
                },
            },
    {
        match self.spec(artifact.path.as_str()) {
            Ok(spec) => {
                let r = ops::apply(&spec, artifact, op_list);
                r
            },
            Err(e) => Err(e),
        }
    }

    /// The checks for code, cheapest first. Rust is the language of the local checks here: the
    /// external ones are a property of the workspace, not of the file.
    pub fn ladder(&self) -> (r: Vec<CodeRung>)
        ensures
            is_ladder(r@, Lang::Rust, self.tools),
    {
        climb(LangSpec::of(Lang::Rust), &self.tools)
    }

    /// The check at a level of the ladder, where there is one.
    pub fn rung_at(&self, level: u8) -> (r: Option<CodeRung>)
        ensures
            r is Some <==> level < 5,
            r matches Some(x) ==> exists|all: Seq<CodeRung>| #[trigger]
                is_ladder(all, Lang::Rust, self.tools) && x == all[level as int],
    {
        let mut all = self.ladder();
        assert(is_ladder(all@, Lang::Rust, self.tools));
        if (level as usize) < all.len() {
            Some(all.remove(level as usize))
        } else {
            None
        }
    }

    /// What a file changed since it was as it was before, and what that reaches: what a verify
    /// node holds its file to.
    pub fn since(&self, before: Option<&Artifact>, artifact: &Artifact, outline: &Outline) -> (r: (
        Delta,
        ImpactSet,
    ))
        ensures
            r.0@ == delta_from(
                match before {
                    Some(b) => outlined(b.path@, b.bytes@),
                    None => None,
                },
                outline@,
                artifact.bytes@,
            ),
            r.1@ == analysed(outline@, r.0@),
    {
        let delta = match before {
            Some(b) => match self.outline(b) {
                Ok(o) => delta_since(Some((&o, b)), outline, artifact),
                Err(_) => delta_since(None, outline, artifact),
            },
            None => delta_since(None, outline, artifact),
        };
        let reached = self.impact(outline, &delta);
        (delta, reached)
    }

    pub fn impact(&self, outline: &Outline, delta: &Delta) -> (r: ImpactSet)
        ensures
            r@ == analysed(outline@, delta@),
    {
        impact::analyse(outline, delta)
    }

    pub fn pack(&self, req: &PackRequest<'_>) -> (r: Result<Pack, AdapterError>)
        ensures
            match req.outline@.entity(req.target@) {
                Some(t) => r matches Ok(p) && p@ == within_budget(
                    pack_parts(req.outline@, t, req.artifact.bytes@),
                    budget_of(req.budget_chars as nat),
                ),
                None => r matches Err(e) && e@ == Fault::UnknownEntity(req.target@),
            },
    {
        pack::build(req)
    }
}

impl Adapter for CodeAdapter {
    open spec fn covers(&self, path: Seq<char>) -> bool {
        lang_of(path) is Some
    }

    fn name(&self) -> (r: &'static str)
        ensures
            r@ == "code"@,
    {
        "code"
    }

    fn version(&self) -> (r: &'static str)
        ensures
            r@ == "code-v1"@,
    {
        "code-v1"
    }

    fn handles(&self, path: &str) -> (r: bool) {
        LangSpec::for_path(path).is_some()
    }

    fn op_schema(&self) -> (r: &'static str)
        ensures
            r@ == ops::OP_SCHEMA@,
    {
        ops::schema()
    }
}

} // verus!
