//! A repository-wide symbol index, so impact analysis can cross file boundaries.
//!
//! Per-file impact answers which tests in this file can reach the change. In a real project the
//! changed function lives in one file, its caller in another, and the test in a third, so a
//! single-file analysis reports no impacted tests.
//!
//! Resolution is by simple name. It discriminates well on entities with distinctive names in few
//! files; a name that is short, or defined in many places, carries no information about who calls
//! whom and is left out rather than linked to all of its definitions.

use crate::adapter::text_of;
use crate::adapter::Artifact;
use crate::adapter::Delta;
use crate::adapter::DeltaView;
use crate::adapter::EntityView;
use crate::adapter::ImpactSet;
use crate::adapter::ImpactView;
use crate::adapter::Outline;
use crate::code::impact::lemma_push_contains;
use crate::code::pack::find_last_word;
use crate::code::pack::last_word;
use crate::code::symbols::read_clamped;
use crate::code::symbols::read_within;
use crate::identity::blake3_of;
use crate::identity::digest_in;
use crate::identity::frame;
use crate::identity::hex_of;
use crate::identity::lemma_digest_back;
use crate::identity::Digest;
use crate::identity::Hasher;
use crate::impact::add_edge;
use crate::json::array_value;
use crate::json::as_fields;
use crate::json::as_items;
use crate::json::as_text;
use crate::json::field_names;
use crate::json::fields;
use crate::json::get;
use crate::json::held;
use crate::json::is_null;
use crate::json::json_of;
use crate::json::lemma_object_of;
use crate::json::list_value;
use crate::json::nests;
use crate::json::null_value;
use crate::json::object_of;
use crate::json::object_value;
use crate::json::parse;
use crate::json::print;
use crate::json::text_value;
use crate::json::Json;
use crate::maps::NameMap;
use crate::names::ascending;
use crate::names::before;
use crate::names::insert;
use crate::names::is_before;
use crate::names::lemma_before_asymmetric;
use crate::names::lemma_before_total;
use crate::names::lemma_before_transitive;
use crate::names::lemma_listed;
use crate::names::listed;
use crate::names::mentions;
use crate::reach::along;
use crate::reach::closure;
use crate::reach::edge;
use crate::reach::lemma_ascending_distinct;
use crate::reach::reachable;
use crate::text::same;
use crate::text::texts;
use crate::utf8::byte_len;
use crate::utf8::from_utf8;
use crate::utf8::len_in_bytes;
use crate::wording::after_first;
use crate::wording::identifiers;
use crate::wording::tail_after_first;
use crate::wording::words_of;
use vstd::prelude::*;
use vstd::utf8::decode_utf8;
use vstd::utf8::encode_utf8;
use vstd::utf8::valid_utf8;

verus! {

/// A name with more definitions than this is not linked.
pub const MAX_DEFINITIONS: usize = 3;

/// A name with fewer bytes than this is not linked.
pub const MIN_NAME_LEN: usize = 4;

/// Where an entity lives.
#[derive(Debug)]
pub struct EntityRef {
    pub path: String,
    pub kind: String,
    /// Test runner selector, for entities that are tests.
    pub selector: Option<String>,
}

/// Where an entity lives, as the values it holds.
#[verifier::ext_equal]
pub ghost struct RefView {
    pub path: Seq<char>,
    pub kind: Seq<char>,
    pub selector: Option<Seq<char>>,
}

impl View for EntityRef {
    type V = RefView;

    open spec fn view(&self) -> RefView {
        RefView {
            path: self.path@,
            kind: self.kind@,
            selector: crate::adapter::opt_text(self.selector),
        }
    }
}

/// One definition somewhere in the repository.
#[verifier::ext_equal]
pub ghost struct DefView {
    pub id: Seq<char>,
    pub kind: Seq<char>,
    pub path: Seq<char>,
    /// The text in which its references stand.
    pub body: Seq<char>,
}

struct Def {
    id: String,
    kind: String,
    path: String,
    body: String,
}

impl View for Def {
    type V = DefView;

    closed spec fn view(&self) -> DefView {
        DefView { id: self.id@, kind: self.kind@, path: self.path@, body: self.body@ }
    }
}

spec fn def_views(v: Seq<Def>) -> Seq<DefView> {
    v.map_values(|d: Def| d@)
}

/// The definition that an entity of a file is.
pub open spec fn def_of(path: Seq<char>, bytes: Seq<u8>, e: EntityView) -> DefView {
    let src = encode_utf8(text_of(bytes));
    DefView {
        id: e.id,
        kind: e.kind,
        path,
        body: match e.body {
            Some((a, b)) => read_within(src, a, b),
            None => read_within(src, e.start, e.end),
        },
    }
}

/// The definitions of a file. An import is none.
pub open spec fn defs_in(path: Seq<char>, bytes: Seq<u8>, es: Seq<EntityView>) -> Seq<DefView>
    decreases es.len(),
{
    if es.len() == 0 {
        Seq::empty()
    } else {
        let rest = defs_in(path, bytes, es.drop_last());
        if es.last().kind == "import"@ {
            rest
        } else {
            rest.push(def_of(path, bytes, es.last()))
        }
    }
}

/// The definitions of some files, file after file.
pub open spec fn defs_of(files: Seq<(Artifact, Outline)>) -> Seq<DefView>
    decreases files.len(),
{
    if files.len() == 0 {
        Seq::empty()
    } else {
        let f = files.last();
        defs_of(files.drop_last()) + defs_in(f.0.path@, f.0.bytes@, f.1@.entities)
    }
}

/// Where a definition lives.
pub open spec fn ref_of(d: DefView) -> RefView {
    RefView {
        path: d.path,
        kind: d.kind,
        selector: if d.kind == "test"@ {
            Some(after_first(d.id, ':'))
        } else {
            None
        },
    }
}

/// Where each id lives: where it was defined last.
pub open spec fn homes(d: Seq<DefView>) -> Map<Seq<char>, RefView>
    decreases d.len(),
{
    if d.len() == 0 {
        Map::empty()
    } else {
        homes(d.drop_last()).insert(d.last().id, ref_of(d.last()))
    }
}

/// How many definitions have this as the last word of their id.
pub open spec fn definitions(d: Seq<DefView>, name: Seq<char>) -> nat
    decreases d.len(),
{
    if d.len() == 0 {
        0
    } else {
        definitions(d.drop_last(), name) + (if last_word(d.last().id) == name {
            1nat
        } else {
            0nat
        })
    }
}

/// Does a name say too little to be linked?
pub open spec fn is_vague(d: Seq<DefView>, name: Seq<char>) -> bool {
    definitions(d, name) > MAX_DEFINITIONS || byte_len(name) < MIN_NAME_LEN
}

/// Does definition `i` spell the name of definition `j`, and is the name one that links?
pub open spec fn cites_at(d: Seq<DefView>, i: int, j: int) -> bool {
    d[i].id != d[j].id && words_of(d[i].body).contains(last_word(d[j].id)) && !is_vague(
        d,
        last_word(d[j].id),
    )
}

/// Is there a definition of `y` that cites a definition of `x`?
pub open spec fn cites(d: Seq<DefView>, x: Seq<char>, y: Seq<char>) -> bool {
    exists|i: int, j: int|
        0 <= i < d.len() && 0 <= j < d.len() && d[i].id == y && d[j].id == x && #[trigger] cites_at(
            d,
            i,
            j,
        )
}

/// From what is cited to what cites it.
pub open spec fn citing(d: Seq<DefView>) -> spec_fn(Seq<char>, Seq<char>) -> bool {
    |x: Seq<char>, y: Seq<char>| cites(d, x, y)
}

/// A file and the digest of its content.
pub type Input = (Seq<char>, Seq<u8>);

/// Byte strings in dictionary order.
pub open spec fn bytes_before(a: Seq<u8>, b: Seq<u8>) -> bool
    decreases a.len(),
{
    if b.len() == 0 {
        false
    } else if a.len() == 0 {
        true
    } else if a[0] == b[0] {
        bytes_before(a.skip(1), b.skip(1))
    } else {
        a[0] < b[0]
    }
}

/// Does one input come strictly before another, by path and then by digest?
pub open spec fn input_before(a: Input, b: Input) -> bool {
    before(a.0, b.0) || (a.0 == b.0 && bytes_before(a.1, b.1))
}

/// A list of inputs with one more, placed before the first that comes after it.
pub open spec fn input_placed(s: Seq<Input>, x: Input) -> Seq<Input>
    decreases s.len(),
{
    if s.len() == 0 || input_before(x, s[0]) {
        seq![x] + s
    } else {
        seq![s[0]] + input_placed(s.skip(1), x)
    }
}

/// Inputs in order.
pub open spec fn inputs_sorted(s: Seq<Input>) -> Seq<Input>
    decreases s.len(),
{
    if s.len() == 0 {
        Seq::empty()
    } else {
        input_placed(inputs_sorted(s.drop_last()), s.last())
    }
}

/// The inputs that some files are.
pub open spec fn inputs_of(files: Seq<(Artifact, Outline)>) -> Seq<Input> {
    files.map_values(
        |f: (Artifact, Outline)|
            (f.0.path@, crate::adapter::artifact_digest(f.0.path@, f.0.bytes@)),
    )
}

pub struct RepoIndex {
    /// Fully qualified entity id to where it lives.
    entities: NameMap<EntityRef>,
    /// Who refers to whom, resolved across files.
    referrers: NameMap<Vec<String>>,
    /// The content that produced this index, so a stale index is detectable rather than trusted.
    inputs: Vec<(String, Digest)>,
}

spec fn input_views(v: Seq<(String, Digest)>) -> Seq<Input> {
    v.map_values(|x: (String, Digest)| (x.0@, x.1@))
}

impl RepoIndex {
    pub closed spec fn wf(&self) -> bool {
        self.entities.wf() && self.referrers.wf()
    }

    /// Where each id lives.
    pub closed spec fn homes(&self) -> Map<Seq<char>, RefView> {
        self.entities@.map_values(|r: EntityRef| r@)
    }

    /// Who cites whom.
    pub closed spec fn links(&self) -> spec_fn(Seq<char>, Seq<char>) -> bool {
        along(self.referrers@)
    }

    /// The files that went in, in order.
    pub closed spec fn ingredients(&self) -> Seq<Input> {
        input_views(self.inputs@)
    }

    /// Is `x` a seed, or does it cite one, directly or through others?
    pub open spec fn reaches(&self, seeds: Seq<Seq<char>>, x: Seq<char>) -> bool {
        reachable(self.links(), seeds, x)
    }

    /// The selectors of the tests that are reached.
    pub open spec fn tests_reached(&self, seeds: Seq<Seq<char>>) -> Set<Seq<char>> {
        Set::new(
            |t: Seq<char>|
                exists|x: Seq<char>| #[trigger]
                    self.homes().contains_key(x) && self.reaches(seeds, x)
                        && self.homes()[x].selector == Some(t),
        )
    }

    /// The files that hold anything that is reached.
    pub open spec fn files_reached(&self, seeds: Seq<Seq<char>>) -> Set<Seq<char>> {
        Set::new(
            |p: Seq<char>|
                exists|x: Seq<char>| #[trigger]
                    self.homes().contains_key(x) && self.reaches(seeds, x) && self.homes()[x].path
                        == p,
        )
    }

    /// What has to be re-checked. A removed entity no longer exists to be checked.
    pub open spec fn entities_reached(&self, d: DeltaView) -> Set<Seq<char>> {
        Set::new(
            |x: Seq<char>|
                self.reaches(d.touched(), x) && (self.homes().contains_key(x)
                    || !d.removed.contains(x)),
        )
    }

    /// The impact of a change across files.
    pub open spec fn impact_of(&self, d: DeltaView) -> ImpactView {
        if d.touched().len() == 0 {
            ImpactView { entities: Seq::empty(), tests: Seq::empty(), units: Seq::empty() }
        } else {
            ImpactView {
                entities: listed(self.entities_reached(d)),
                tests: listed(self.tests_reached(d.touched())),
                units: listed(self.files_reached(d.touched())).map_values(
                    |p: Seq<char>| "file:"@ + p,
                ),
            }
        }
    }
}

fn gather(files: &Vec<(Artifact, Outline)>) -> (r: Vec<Def>)
    ensures
        def_views(r@) == defs_of(files@),
{
    let mut out: Vec<Def> = Vec::new();
    let mut i: usize = 0;
    assert(def_views(out@) =~= Seq::<DefView>::empty());
    while i < files.len()
        invariant
            i <= files@.len(),
            def_views(out@) == defs_of(files@.take(i as int)),
        decreases files@.len() - i,
    {
        let ghost nn = files@.take(i + 1);
        assert(nn.drop_last() =~= files@.take(i as int));
        assert(nn.last() == files@[i as int]);
        let artifact = &files[i].0;
        let outline = &files[i].1;
        let text = artifact.text();
        let src = text.as_str().as_bytes();
        let ghost start = def_views(out@);
        let ghost es = outline@.entities;
        let mut j: usize = 0;
        assert(start + defs_in(artifact.path@, artifact.bytes@, es.take(0)) =~= start);
        while j < outline.entities.len()
            invariant
                j <= outline.entities@.len(),
                es == outline@.entities,
                text@ == text_of(artifact.bytes@),
                src@ == encode_utf8(text@),
                def_views(out@) == start + defs_in(
                    artifact.path@,
                    artifact.bytes@,
                    es.take(j as int),
                ),
            decreases outline.entities@.len() - j,
        {
            let ghost mm = es.take(j + 1);
            assert(mm.drop_last() =~= es.take(j as int));
            assert(mm.last() == outline.entities@[j as int]@);
            let e = &outline.entities[j];
            let ghost sofar = def_views(out@);
            if !same(e.kind.as_str(), "import") {
                let body = match e.body {
                    Some((a, b)) => read_clamped(src, a, b),
                    None => read_clamped(src, e.start, e.end),
                };
                let d = Def {
                    id: e.id.clone(),
                    kind: e.kind.clone(),
                    path: artifact.path.clone(),
                    body,
                };
                assert(d@ =~= def_of(artifact.path@, artifact.bytes@, e@));
                out.push(d);
                assert(def_views(out@) =~= sofar.push(d@));
            }
            assert(def_views(out@) =~= start + defs_in(artifact.path@, artifact.bytes@, mm));
            j += 1;
        }
        assert(es.take(j as int) =~= es);
        i += 1;
    }
    assert(files@.take(i as int) =~= files@);
    out
}

fn place_homes(defs: &Vec<Def>) -> (r: NameMap<EntityRef>)
    ensures
        r.wf(),
        r@.map_values(|x: EntityRef| x@) == homes(def_views(defs@)),
{
    let ghost all = def_views(defs@);
    let mut m: NameMap<EntityRef> = NameMap::empty();
    let mut i: usize = 0;
    assert(all.take(0) =~= Seq::<DefView>::empty());
    assert(m@.map_values(|x: EntityRef| x@) =~= Map::<Seq<char>, RefView>::empty());
    while i < defs.len()
        invariant
            i <= defs@.len(),
            all == def_views(defs@),
            m.wf(),
            m@.map_values(|x: EntityRef| x@) == homes(all.take(i as int)),
        decreases defs@.len() - i,
    {
        let ghost nn = all.take(i + 1);
        assert(nn.drop_last() =~= all.take(i as int));
        assert(nn.last() == defs@[i as int]@);
        let d = &defs[i];
        let r = EntityRef {
            path: d.path.clone(),
            kind: d.kind.clone(),
            selector: if same(d.kind.as_str(), "test") {
                Some(tail_after_first(d.id.as_str(), ':'))
            } else {
                None
            },
        };
        assert(r@ =~= ref_of(d@));
        let ghost was = m@;
        m.insert(d.id.clone(), r);
        assert(m@.map_values(|x: EntityRef| x@) =~= was.map_values(|x: EntityRef| x@).insert(
            d.id@,
            r@,
        ));
        i += 1;
    }
    assert(all.take(i as int) =~= all);
    m
}

fn count_definitions(words: &Vec<String>, name: &str, Ghost(d): Ghost<Seq<DefView>>) -> (n: usize)
    requires
        words@.len() == d.len(),
        forall|k: int| 0 <= k < d.len() ==> (#[trigger] words@[k])@ == last_word(d[k].id),
    ensures
        n == definitions(d, name@),
{
    let mut n: usize = 0;
    let mut i: usize = 0;
    assert(d.take(0) =~= Seq::<DefView>::empty());
    while i < words.len()
        invariant
            i <= words@.len(),
            n <= i,
            words@.len() == d.len(),
            forall|k: int| 0 <= k < d.len() ==> (#[trigger] words@[k])@ == last_word(d[k].id),
            n == definitions(d.take(i as int), name@),
        decreases words@.len() - i,
    {
        let ghost nn = d.take(i + 1);
        assert(nn.drop_last() =~= d.take(i as int));
        assert(nn.last() == d[i as int]);
        assert(words@[i as int]@ == last_word(d[i as int].id));
        if same(words[i].as_str(), name) {
            n += 1;
        }
        i += 1;
    }
    assert(d.take(i as int) =~= d);
    n
}

/// Who cites whom.
fn link(defs: &Vec<Def>) -> (r: NameMap<Vec<String>>)
    ensures
        r.wf(),
        along(r@) == citing(def_views(defs@)),
{
    let ghost all = def_views(defs@);
    let mut words: Vec<String> = Vec::new();
    let mut i: usize = 0;
    while i < defs.len()
        invariant
            i <= defs@.len(),
            all == def_views(defs@),
            words@.len() == i,
            forall|k: int| 0 <= k < i ==> (#[trigger] words@[k])@ == last_word(all[k].id),
        decreases defs@.len() - i,
    {
        words.push(find_last_word(defs[i].id.as_str()));
        i += 1;
    }
    let mut vague: Vec<bool> = Vec::new();
    let mut i: usize = 0;
    while i < defs.len()
        invariant
            i <= defs@.len(),
            all == def_views(defs@),
            words@.len() == all.len(),
            all.len() == defs@.len(),
            forall|k: int| 0 <= k < all.len() ==> (#[trigger] words@[k])@ == last_word(all[k].id),
            vague@.len() == i,
            forall|k: int|
                0 <= k < i ==> #[trigger] vague@[k] == is_vague(all, last_word(all[k].id)),
        decreases defs@.len() - i,
    {
        assert(words@[i as int]@ == last_word(all[i as int].id));
        let n: usize = count_definitions(&words, words[i].as_str(), Ghost(all));
        let b = n > MAX_DEFINITIONS || len_in_bytes(words[i].as_str()) < MIN_NAME_LEN;
        vague.push(b);
        i += 1;
    }
    let mut edges: NameMap<Vec<String>> = NameMap::empty();
    let mut i: usize = 0;
    while i < defs.len()
        invariant
            i <= defs@.len(),
            all == def_views(defs@),
            all.len() == defs@.len(),
            words@.len() == all.len(),
            forall|k: int| 0 <= k < all.len() ==> (#[trigger] words@[k])@ == last_word(all[k].id),
            vague@.len() == all.len(),
            forall|k: int|
                0 <= k < all.len() ==> #[trigger] vague@[k] == is_vague(all, last_word(all[k].id)),
            edges.wf(),
            forall|x: Seq<char>, y: Seq<char>| #[trigger]
                edge(edges@, x, y) <==> cites_upto(all, i as int, 0, x, y),
        decreases defs@.len() - i,
    {
        let found = identifiers(defs[i].body.as_str());
        assert(all[i as int] == defs@[i as int]@);
        let mut j: usize = 0;
        while j < defs.len()
            invariant
                j <= defs@.len(),
                i < defs@.len(),
                all == def_views(defs@),
                all.len() == defs@.len(),
                all[i as int] == defs@[i as int]@,
                texts(found@) == words_of(all[i as int].body),
                words@.len() == all.len(),
                forall|k: int|
                    0 <= k < all.len() ==> (#[trigger] words@[k])@ == last_word(all[k].id),
                vague@.len() == all.len(),
                forall|k: int|
                    0 <= k < all.len() ==> #[trigger] vague@[k] == is_vague(
                        all,
                        last_word(all[k].id),
                    ),
                edges.wf(),
                forall|x: Seq<char>, y: Seq<char>| #[trigger]
                    edge(edges@, x, y) <==> cites_upto(all, i as int, j as int, x, y),
            decreases defs@.len() - j,
        {
            assert(all[j as int] == defs@[j as int]@);
            assert(words@[j as int]@ == last_word(all[j as int].id));
            assert(vague@[j as int] == is_vague(all, last_word(all[j as int].id)));
            let ghost was = edges@;
            if !same(defs[i].id.as_str(), defs[j].id.as_str()) && !vague[j] && mentions(
                &found,
                words[j].as_str(),
            ) {
                assert(cites_at(all, i as int, j as int));
                add_edge(&mut edges, defs[j].id.as_str(), defs[i].id.as_str());
            } else {
                assert(!cites_at(all, i as int, j as int));
            }
            proof {
                assert forall|x: Seq<char>, y: Seq<char>| #[trigger]
                    edge(edges@, x, y) <==> cites_upto(all, i as int, j + 1, x, y) by {
                    lemma_cites_step(all, i as int, j as int, x, y);
                    assert(edge(was, x, y) <==> cites_upto(all, i as int, j as int, x, y));
                }
            }
            j += 1;
        }
        proof {
            assert forall|x: Seq<char>, y: Seq<char>| #[trigger]
                edge(edges@, x, y) <==> cites_upto(all, i + 1, 0, x, y) by {
                lemma_cites_row(all, i as int, x, y);
            }
        }
        i += 1;
    }
    proof {
        let f = along(edges@);
        let g = citing(all);
        assert forall|x: Seq<char>, y: Seq<char>| #[trigger] f(x, y) == g(x, y) by {
            assert(edge(edges@, x, y) <==> cites_upto(all, i as int, 0, x, y));
            lemma_cites_all(all, x, y);
        }
        assert(f =~= g);
    }
    edges
}

/// Is there a citation among the definitions before `i`, or by definition `i` of one before `j`?
spec fn cites_upto(d: Seq<DefView>, i: int, j: int, x: Seq<char>, y: Seq<char>) -> bool {
    exists|a: int, b: int|
        0 <= a < d.len() && 0 <= b < d.len() && (a < i || (a == i && b < j)) && d[a].id == y
            && d[b].id == x && #[trigger] cites_at(d, a, b)
}

proof fn lemma_cites_step(d: Seq<DefView>, i: int, j: int, x: Seq<char>, y: Seq<char>)
    requires
        0 <= i < d.len(),
        0 <= j < d.len(),
    ensures
        cites_upto(d, i, j + 1, x, y) <==> cites_upto(d, i, j, x, y) || (cites_at(d, i, j)
            && d[i].id == y && d[j].id == x),
{
    if cites_upto(d, i, j + 1, x, y) {
        let (a, b) = choose|a: int, b: int|
            0 <= a < d.len() && 0 <= b < d.len() && (a < i || (a == i && b < j + 1)) && d[a].id
                == y && d[b].id == x && #[trigger] cites_at(d, a, b);
        if !(a == i && b == j) {
            assert(cites_at(d, a, b) && (a < i || (a == i && b < j)));
        }
    }
    if cites_upto(d, i, j, x, y) {
        let (a, b) = choose|a: int, b: int|
            0 <= a < d.len() && 0 <= b < d.len() && (a < i || (a == i && b < j)) && d[a].id == y
                && d[b].id == x && #[trigger] cites_at(d, a, b);
        assert(cites_at(d, a, b) && (a < i || (a == i && b < j + 1)));
    }
}

proof fn lemma_cites_row(d: Seq<DefView>, i: int, x: Seq<char>, y: Seq<char>)
    requires
        0 <= i < d.len(),
    ensures
        cites_upto(d, i + 1, 0, x, y) <==> cites_upto(d, i, d.len() as int, x, y),
{
    if cites_upto(d, i + 1, 0, x, y) {
        let (a, b) = choose|a: int, b: int|
            0 <= a < d.len() && 0 <= b < d.len() && (a < i + 1 || (a == i + 1 && b < 0)) && d[a].id
                == y && d[b].id == x && #[trigger] cites_at(d, a, b);
        assert(cites_at(d, a, b) && (a < i || (a == i && b < d.len())));
    }
    if cites_upto(d, i, d.len() as int, x, y) {
        let (a, b) = choose|a: int, b: int|
            0 <= a < d.len() && 0 <= b < d.len() && (a < i || (a == i && b < d.len())) && d[a].id
                == y && d[b].id == x && #[trigger] cites_at(d, a, b);
        assert(cites_at(d, a, b) && a < i + 1);
    }
}

proof fn lemma_cites_all(d: Seq<DefView>, x: Seq<char>, y: Seq<char>)
    ensures
        cites(d, x, y) <==> cites_upto(d, d.len() as int, 0, x, y),
{
    if cites(d, x, y) {
        let (a, b) = choose|a: int, b: int|
            0 <= a < d.len() && 0 <= b < d.len() && d[a].id == y && d[b].id == x && #[trigger]
                cites_at(d, a, b);
        assert(cites_at(d, a, b) && a < d.len());
    }
    if cites_upto(d, d.len() as int, 0, x, y) {
        let (a, b) = choose|a: int, b: int|
            0 <= a < d.len() && 0 <= b < d.len() && (a < d.len() || (a == d.len() && b < 0))
                && d[a].id == y && d[b].id == x && #[trigger] cites_at(d, a, b);
        assert(cites_at(d, a, b));
    }
}

fn are_bytes_before(a: &[u8; 32], b: &[u8; 32]) -> (r: bool)
    ensures
        r == bytes_before(a@, b@),
{
    let mut i: usize = 0;
    assert(a@.skip(0) =~= a@);
    assert(b@.skip(0) =~= b@);
    while i < 32
        invariant
            i <= 32,
            bytes_before(a@, b@) == bytes_before(a@.skip(i as int), b@.skip(i as int)),
        decreases 32 - i,
    {
        assert(a@.skip(i as int).skip(1) =~= a@.skip(i + 1));
        assert(b@.skip(i as int).skip(1) =~= b@.skip(i + 1));
        if a[i] != b[i] {
            return a[i] < b[i];
        }
        i += 1;
    }
    false
}

fn is_input_before(a: &(String, Digest), b: &(String, Digest)) -> (r: bool)
    ensures
        r == input_before((a.0@, a.1@), (b.0@, b.1@)),
{
    is_before(a.0.as_str(), b.0.as_str()) || (same(a.0.as_str(), b.0.as_str())
        && are_bytes_before(a.1.as_bytes(), b.1.as_bytes()))
}

proof fn lemma_input_placed(s: Seq<Input>, x: Input, i: int)
    requires
        0 <= i <= s.len(),
        forall|k: int| 0 <= k < i ==> !input_before(x, #[trigger] s[k]),
        i < s.len() ==> input_before(x, s[i]),
    ensures
        input_placed(s, x) == s.insert(i, x),
    decreases s.len(),
{
    if i == 0 {
        assert(s.insert(0, x) =~= seq![x] + s);
    } else {
        assert(!input_before(x, s[0]));
        let t = s.skip(1);
        assert forall|k: int| 0 <= k < i - 1 implies !input_before(x, #[trigger] t[k]) by {
            assert(t[k] == s[k + 1]);
        }
        lemma_input_placed(t, x, i - 1);
        assert(s.insert(i, x) =~= seq![s[0]] + t.insert(i - 1, x));
    }
}

fn place_input(v: &mut Vec<(String, Digest)>, x: (String, Digest))
    ensures
        input_views(final(v)@) == input_placed(input_views(old(v)@), (x.0@, x.1@)),
{
    let ghost s = input_views(v@);
    let mut i: usize = 0;
    while i < v.len() && !is_input_before(&x, &v[i])
        invariant
            i <= v@.len(),
            s == input_views(v@),
            forall|k: int| 0 <= k < i ==> !input_before((x.0@, x.1@), #[trigger] s[k]),
        decreases v@.len() - i,
    {
        i += 1;
    }
    let ghost added = (x.0@, x.1@);
    proof {
        lemma_input_placed(s, added, i as int);
    }
    v.insert(i, x);
    assert(input_views(v@) =~= s.insert(i as int, added));
}

/// The digest of an index is that of the files that went in, in order.
pub open spec fn index_frames(s: Seq<Input>) -> Seq<u8>
    decreases s.len(),
{
    if s.len() == 0 {
        frame(encode_utf8("flash.repo-index.v1"@))
    } else {
        index_frames(s.drop_last()) + frame(encode_utf8(s.last().0)) + frame(s.last().1)
    }
}

impl RepoIndex {
    /// Build from parsed files. `files` is (artifact, outline) for everything in scope.
    pub fn build(files: &Vec<(Artifact, Outline)>) -> (r: RepoIndex)
        ensures
            r.wf(),
            r.homes() == homes(defs_of(files@)),
            r.links() == citing(defs_of(files@)),
            r.ingredients() == inputs_sorted(inputs_of(files@)),
    {
        let defs = gather(files);
        let entities = place_homes(&defs);
        let referrers = link(&defs);
        let ghost all = inputs_of(files@);
        let mut inputs: Vec<(String, Digest)> = Vec::new();
        let mut i: usize = 0;
        assert(all.take(0) =~= Seq::<Input>::empty());
        assert(input_views(inputs@) =~= Seq::<Input>::empty());
        while i < files.len()
            invariant
                i <= files@.len(),
                all == inputs_of(files@),
                input_views(inputs@) == inputs_sorted(all.take(i as int)),
            decreases files@.len() - i,
        {
            let ghost nn = all.take(i + 1);
            assert(nn.drop_last() =~= all.take(i as int));
            assert(nn.last() == all[i as int]);
            place_input(&mut inputs, (files[i].0.path.clone(), files[i].0.digest()));
            i += 1;
        }
        assert(all.take(i as int) =~= all);
        RepoIndex { entities, referrers, inputs }
    }

    pub fn len(&self) -> (n: usize)
        requires
            self.wf(),
        ensures
            n == self.homes().len(),
    {
        proof {
            lemma_map_len(&self.entities);
            assert(self.homes().dom() =~= self.entities@.dom());
        }
        self.entities.entries.len()
    }

    pub fn is_empty(&self) -> (b: bool)
        requires
            self.wf(),
        ensures
            b == (self.homes().len() == 0),
    {
        self.len() == 0
    }

    pub fn files(&self) -> (n: usize)
        ensures
            n == self.ingredients().len(),
    {
        self.inputs.len()
    }

    pub fn get(&self, id: &str) -> (r: Option<&EntityRef>)
        requires
            self.wf(),
        ensures
            r is Some <==> self.homes().contains_key(id@),
            r matches Some(e) ==> self.homes()[id@] == e@,
    {
        self.entities.get(id)
    }

    /// Identity of the inputs. Two indexes with the same digest describe the same repository
    /// state.
    pub fn digest(&self) -> (r: Digest)
        ensures
            r@ == blake3_of(index_frames(self.ingredients())),
    {
        let ghost all = self.ingredients();
        let mut h = Hasher::new("flash.repo-index.v1");
        let mut i: usize = 0;
        assert(all.take(0) =~= Seq::<Input>::empty());
        while i < self.inputs.len()
            invariant
                i <= self.inputs@.len(),
                all == input_views(self.inputs@),
                h@ == index_frames(all.take(i as int)),
            decreases self.inputs@.len() - i,
        {
            let ghost nn = all.take(i + 1);
            assert(nn.drop_last() =~= all.take(i as int));
            assert(nn.last() == (self.inputs@[i as int].0@, self.inputs@[i as int].1@));
            h.str(self.inputs[i].0.as_str());
            h.digest(&self.inputs[i].1);
            i += 1;
        }
        assert(all.take(i as int) =~= all);
        h.finish()
    }

    /// Is this index still describing the files on disk?
    pub fn is_current(&self, files: &Vec<(String, Digest)>) -> (b: bool)
        ensures
            b == (inputs_sorted(files@.map_values(|x: (String, Digest)| (x.0@, x.1@)))
                == self.ingredients()),
    {
        let ghost all = input_views(files@);
        let mut sorted: Vec<(String, Digest)> = Vec::new();
        let mut i: usize = 0;
        assert(all.take(0) =~= Seq::<Input>::empty());
        assert(input_views(sorted@) =~= Seq::<Input>::empty());
        while i < files.len()
            invariant
                i <= files@.len(),
                all == input_views(files@),
                input_views(sorted@) == inputs_sorted(all.take(i as int)),
            decreases files@.len() - i,
        {
            let ghost nn = all.take(i + 1);
            assert(nn.drop_last() =~= all.take(i as int));
            assert(nn.last() == all[i as int]);
            place_input(&mut sorted, (files[i].0.clone(), files[i].1));
            i += 1;
        }
        assert(all.take(i as int) =~= all);
        let ghost a = input_views(sorted@);
        let ghost b = self.ingredients();
        assert(a.len() == sorted@.len() && b.len() == self.inputs@.len());
        if sorted.len() != self.inputs.len() {
            return false;
        }
        let mut i: usize = 0;
        while i < sorted.len()
            invariant
                i <= sorted@.len(),
                sorted@.len() == self.inputs@.len(),
                a == input_views(sorted@),
                b == input_views(self.inputs@),
                a == inputs_sorted(files@.map_values(|x: (String, Digest)| (x.0@, x.1@))),
                b == self.ingredients(),
                forall|k: int| 0 <= k < i ==> #[trigger] a[k] == b[k],
            decreases sorted@.len() - i,
        {
            assert(a[i as int] == (sorted@[i as int].0@, sorted@[i as int].1@));
            assert(b[i as int] == (self.inputs@[i as int].0@, self.inputs@[i as int].1@));
            if !same(sorted[i].0.as_str(), self.inputs[i].0.as_str()) || sorted[i].1
                != self.inputs[i].1 {
                return false;
            }
            i += 1;
        }
        assert(a =~= b);
        true
    }

    /// Everything that transitively refers to `seeds`, across files.
    pub fn reachable(&self, seeds: &Vec<String>) -> (r: Vec<String>)
        requires
            self.wf(),
        ensures
            ascending(texts(r@)),
            forall|x: Seq<char>| #[trigger]
                texts(r@).contains(x) <==> self.reaches(texts(seeds@), x),
    {
        closure(&self.referrers, seeds)
    }

    /// Test selectors for every test that can reach the change, wherever it lives.
    pub fn reachable_tests(&self, seeds: &Vec<String>) -> (r: Vec<String>)
        requires
            self.wf(),
        ensures
            texts(r@) == listed(self.tests_reached(texts(seeds@))),
            ascending(texts(r@)),
            forall|t: Seq<char>| #[trigger]
                texts(r@).contains(t) <==> self.tests_reached(texts(seeds@)).contains(t),
    {
        let ids = self.reachable(seeds);
        let ghost all = texts(ids@);
        let mut out: Vec<String> = Vec::new();
        let mut i: usize = 0;
        assert(texts(out@) =~= Seq::<Seq<char>>::empty());
        while i < ids.len()
            invariant
                i <= ids@.len(),
                self.wf(),
                all == texts(ids@),
                ascending(texts(out@)),
                forall|t: Seq<char>| #[trigger]
                    texts(out@).contains(t) <==> exists|k: int|
                        0 <= k < i && self.homes().contains_key(#[trigger] all[k])
                            && self.homes()[all[k]].selector == Some(t),
            decreases ids@.len() - i,
        {
            let ghost sofar = texts(out@);
            assert(all[i as int] == ids@[i as int]@);
            let ghost mut added: Option<Seq<char>> = None;
            match self.get(ids[i].as_str()) {
                Some(e) => {
                    match &e.selector {
                        Some(s) => {
                            insert(&mut out, s.clone());
                            proof {
                                added = Some(s@);
                            }
                        },
                        None => {},
                    }
                },
                None => {},
            }
            proof {
                assert forall|t: Seq<char>| #[trigger]
                    texts(out@).contains(t) <==> exists|k: int|
                    0 <= k < i + 1 && self.homes().contains_key(#[trigger] all[k])
                        && self.homes()[all[k]].selector == Some(t) by {
                    assert(texts(out@).contains(t) <==> sofar.contains(t) || added == Some(t));
                    if added == Some(t) {
                        assert(self.homes().contains_key(all[i as int]));
                    }
                    if exists|k: int|
                        0 <= k < i + 1 && self.homes().contains_key(#[trigger] all[k])
                            && self.homes()[all[k]].selector == Some(t) {
                        let k = choose|k: int|
                            0 <= k < i + 1 && self.homes().contains_key(#[trigger] all[k])
                                && self.homes()[all[k]].selector == Some(t);
                        if k < i {
                            assert(sofar.contains(t));
                        }
                    }
                }
            }
            i += 1;
        }
        proof {
            let s = self.tests_reached(texts(seeds@));
            assert forall|t: Seq<char>| #[trigger] texts(out@).contains(t) <==> s.contains(t) by {
                if texts(out@).contains(t) {
                    let k = choose|k: int|
                        0 <= k < i && self.homes().contains_key(#[trigger] all[k])
                            && self.homes()[all[k]].selector == Some(t);
                    assert(all.contains(all[k]));
                }
                if s.contains(t) {
                    let x = choose|x: Seq<char>| #[trigger]
                        self.homes().contains_key(x) && self.reaches(texts(seeds@), x)
                            && self.homes()[x].selector == Some(t);
                    assert(all.contains(x));
                    let k = choose|k: int| 0 <= k < all.len() && all[k] == x;
                    assert(self.homes().contains_key(all[k]));
                }
            }
            lemma_listed(texts(out@), s);
        }
        out
    }

    /// Which files hold anything the change can reach.
    pub fn reachable_files(&self, seeds: &Vec<String>) -> (r: Vec<String>)
        requires
            self.wf(),
        ensures
            texts(r@) == listed(self.files_reached(texts(seeds@))),
            ascending(texts(r@)),
            forall|t: Seq<char>| #[trigger]
                texts(r@).contains(t) <==> self.files_reached(texts(seeds@)).contains(t),
    {
        let ids = self.reachable(seeds);
        let ghost all = texts(ids@);
        let mut out: Vec<String> = Vec::new();
        let mut i: usize = 0;
        assert(texts(out@) =~= Seq::<Seq<char>>::empty());
        while i < ids.len()
            invariant
                i <= ids@.len(),
                self.wf(),
                all == texts(ids@),
                ascending(texts(out@)),
                forall|t: Seq<char>| #[trigger]
                    texts(out@).contains(t) <==> exists|k: int|
                        0 <= k < i && self.homes().contains_key(#[trigger] all[k])
                            && self.homes()[all[k]].path == t,
            decreases ids@.len() - i,
        {
            let ghost sofar = texts(out@);
            assert(all[i as int] == ids@[i as int]@);
            let ghost mut added: Option<Seq<char>> = None;
            match self.get(ids[i].as_str()) {
                Some(e) => {
                    insert(&mut out, e.path.clone());
                    proof {
                        added = Some(e.path@);
                    }
                },
                None => {},
            }
            proof {
                assert forall|t: Seq<char>| #[trigger]
                    texts(out@).contains(t) <==> exists|k: int|
                    0 <= k < i + 1 && self.homes().contains_key(#[trigger] all[k])
                        && self.homes()[all[k]].path == t by {
                    assert(texts(out@).contains(t) <==> sofar.contains(t) || added == Some(t));
                    if added == Some(t) {
                        assert(self.homes().contains_key(all[i as int]));
                    }
                    if exists|k: int|
                        0 <= k < i + 1 && self.homes().contains_key(#[trigger] all[k])
                            && self.homes()[all[k]].path == t {
                        let k = choose|k: int|
                            0 <= k < i + 1 && self.homes().contains_key(#[trigger] all[k])
                                && self.homes()[all[k]].path == t;
                        if k < i {
                            assert(sofar.contains(t));
                        }
                    }
                }
            }
            i += 1;
        }
        proof {
            let s = self.files_reached(texts(seeds@));
            assert forall|t: Seq<char>| #[trigger] texts(out@).contains(t) <==> s.contains(t) by {
                if texts(out@).contains(t) {
                    let k = choose|k: int|
                        0 <= k < i && self.homes().contains_key(#[trigger] all[k])
                            && self.homes()[all[k]].path == t;
                    assert(all.contains(all[k]));
                }
                if s.contains(t) {
                    let x = choose|x: Seq<char>| #[trigger]
                        self.homes().contains_key(x) && self.reaches(texts(seeds@), x)
                            && self.homes()[x].path == t;
                    assert(all.contains(x));
                    let k = choose|k: int| 0 <= k < all.len() && all[k] == x;
                    assert(self.homes().contains_key(all[k]));
                }
            }
            lemma_listed(texts(out@), s);
        }
        out
    }

    pub fn impact(&self, delta: &Delta) -> (r: ImpactSet)
        requires
            self.wf(),
        ensures
            r@ == self.impact_of(delta@),
            ascending(r@.entities),
            ascending(r@.tests),
            delta@.touched().len() > 0 ==> {
                &&& forall|x: Seq<char>| #[trigger]
                    r@.entities.contains(x) <==> self.entities_reached(delta@).contains(x)
                &&& forall|x: Seq<char>| #[trigger]
                    r@.tests.contains(x) <==> self.tests_reached(delta@.touched()).contains(x)
                &&& forall|x: Seq<char>| #[trigger]
                    r@.units.contains(x) <==> exists|p: Seq<char>| #[trigger]
                        self.files_reached(delta@.touched()).contains(p) && x == "file:"@ + p
            },
    {
        if delta.is_empty() {
            let r = ImpactSet::default();
            assert(r@ =~= self.impact_of(delta@));
            return r;
        }
        let seeds = delta.touched();
        let ids = self.reachable(&seeds);
        let ghost all = texts(ids@);
        let mut kept: Vec<String> = Vec::new();
        let mut i: usize = 0;
        assert(texts(kept@) =~= Seq::<Seq<char>>::empty());
        while i < ids.len()
            invariant
                i <= ids@.len(),
                self.wf(),
                all == texts(ids@),
                ascending(texts(kept@)),
                forall|x: Seq<char>| #[trigger]
                    texts(kept@).contains(x) <==> all.take(i as int).contains(x) && (
                    self.homes().contains_key(x) || !delta@.removed.contains(x)),
            decreases ids@.len() - i,
        {
            let ghost sofar = texts(kept@);
            let id = ids[i].as_str();
            let keep = self.get(id).is_some() || !mentions(&delta.removed, id);
            if keep {
                insert(&mut kept, ids[i].clone());
            }
            proof {
                let a = all.take(i as int);
                let b = all.take(i + 1);
                assert(b =~= a.push(all[i as int]));
                assert(all[i as int] == ids@[i as int]@);
                assert forall|x: Seq<char>| #[trigger]
                    texts(kept@).contains(x) <==> b.contains(x) && (self.homes().contains_key(x)
                    || !delta@.removed.contains(x)) by {
                    lemma_push_contains(a, all[i as int], x);
                    assert(sofar.contains(x) <==> a.contains(x) && (self.homes().contains_key(x)
                        || !delta@.removed.contains(x)));
                }
            }
            i += 1;
        }
        proof {
            assert(all.take(i as int) =~= all);
            let s = self.entities_reached(delta@);
            assert forall|x: Seq<char>| #[trigger] texts(kept@).contains(x) <==> s.contains(x) by {}
            lemma_listed(texts(kept@), s);
        }
        let tests = self.reachable_tests(&seeds);
        let files = self.reachable_files(&seeds);
        let ghost named = texts(files@).map_values(|p: Seq<char>| "file:"@ + p);
        let mut units: Vec<String> = Vec::new();
        let mut i: usize = 0;
        assert(texts(units@) =~= named.take(0));
        while i < files.len()
            invariant
                i <= files@.len(),
                named == texts(files@).map_values(|p: Seq<char>| "file:"@ + p),
                texts(units@) == named.take(i as int),
            decreases files@.len() - i,
        {
            let ghost sofar = texts(units@);
            let mut u = "file:".to_owned();
            u.push_str(files[i].as_str());
            assert(texts(files@)[i as int] == files@[i as int]@);
            units.push(u);
            assert(texts(units@) =~= sofar.push(u@));
            assert(named.take(i + 1) =~= named.take(i as int).push(named[i as int]));
            i += 1;
        }
        assert(named.take(i as int) =~= named);
        proof {
            let fs = texts(files@);
            let s = self.files_reached(delta@.touched());
            assert forall|x: Seq<char>| #[trigger] named.contains(x) <==> exists|p: Seq<char>|
             #[trigger] s.contains(p) && x == "file:"@ + p by {
                if named.contains(x) {
                    let k = choose|k: int| 0 <= k < named.len() && named[k] == x;
                    assert(fs.contains(fs[k]));
                    assert(s.contains(fs[k]));
                }
                if exists|p: Seq<char>| #[trigger] s.contains(p) && x == "file:"@ + p {
                    let p = choose|p: Seq<char>| #[trigger] s.contains(p) && x == "file:"@ + p;
                    assert(fs.contains(p));
                    let k = choose|k: int| 0 <= k < fs.len() && fs[k] == p;
                    assert(named[k] == x);
                }
            }
        }
        let r = ImpactSet { entities: kept, tests, units };
        assert(r@ =~= self.impact_of(delta@));
        r
    }
}

proof fn lemma_map_len<V>(m: &NameMap<V>)
    requires
        m.wf(),
    ensures
        m@.len() == m.entries@.len(),
{
    let names = m.names();
    crate::reach::lemma_ascending_distinct(names);
    names.unique_seq_to_set();
    assert forall|x: Seq<char>| m@.dom().contains(x) <==> names.to_set().contains(x) by {
        if names.contains(x) {
            let i = choose|i: int| 0 <= i < names.len() && names[i] == x;
            m.lemma_at(i);
        }
    }
    assert(m@.dom() =~= names.to_set());
}

/// What an index holds.
pub ghost struct IndexView {
    pub homes: Map<Seq<char>, RefView>,
    pub links: spec_fn(Seq<char>, Seq<char>) -> bool,
    pub inputs: Seq<Input>,
}

/// Three values under these keys, or in order. The last may be missing under its key where null
/// stands for it.
pub open spec fn three_in(
    j: Json,
    a: Seq<char>,
    b: Seq<char>,
    c: Seq<char>,
    nullable: bool,
) -> Option<(Json, Json, Json)> {
    match j {
        Json::Array(v) => if v.len() == 3 {
            Some((v[0], v[1], v[2]))
        } else {
            None
        },
        _ => match (j.at(a), j.at(b), j.at(c)) {
            (Some(x), Some(y), Some(z)) => Some((x, y, z)),
            (Some(x), Some(y), None) => if nullable {
                Some((x, y, Json::Null))
            } else {
                None
            },
            _ => None,
        },
    }
}

/// A text that may be missing, where it is one.
pub open spec fn text_or_null(j: Json) -> Option<Option<Seq<char>>> {
    match j {
        Json::Null => Some(None),
        Json::Text(s) => Some(Some(s)),
        _ => None,
    }
}

/// Where an entity lives, as json says it.
pub open spec fn home_in(j: Json) -> Option<RefView> {
    match three_in(j, "path"@, "kind"@, "selector"@, true) {
        Some((p, k, s)) => match (p.text(), k.text(), text_or_null(s)) {
            (Some(path), Some(kind), Some(selector)) => Some(RefView { path, kind, selector }),
            _ => None,
        },
        None => None,
    }
}

/// Where each id lives, as json says it.
pub open spec fn homes_in(j: Json) -> Option<Map<Seq<char>, RefView>> {
    match j {
        Json::Object(m) => if forall|k: Seq<char>|
            m.contains_key(k) ==> home_in(#[trigger] m[k]) is Some {
            Some(m.map_values(|x: Json| home_in(x)->0))
        } else {
            None
        },
        _ => None,
    }
}

/// Is this a run of texts?
pub open spec fn is_texts(j: Json) -> bool {
    j matches Json::Array(v) && forall|i: int| 0 <= i < v.len() ==> (#[trigger] v[i]) is Text
}

/// Does a run of texts hold one?
pub open spec fn holds(j: Json, s: Seq<char>) -> bool {
    j matches Json::Array(v) && v.contains(Json::Text(s))
}

/// Who cites whom, as json says it.
pub open spec fn links_in(j: Json) -> Option<spec_fn(Seq<char>, Seq<char>) -> bool> {
    match j {
        Json::Object(m) => if forall|k: Seq<char>|
            m.contains_key(k) ==> is_texts(#[trigger] m[k]) {
            Some(|x: Seq<char>, y: Seq<char>| m.contains_key(x) && holds(m[x], y))
        } else {
            None
        },
        _ => None,
    }
}

/// A file and its digest, as json says them.
pub open spec fn input_in(j: Json) -> Option<Input> {
    match j {
        Json::Array(v) => if v.len() == 2 {
            match (v[0].text(), v[1].text()) {
                (Some(path), Some(hex)) => match digest_in(hex) {
                    Some(d) => Some((path, d)),
                    None => None,
                },
                _ => None,
            }
        } else {
            None
        },
        _ => None,
    }
}

/// The files that went in, as json says them.
pub open spec fn inputs_in(j: Json) -> Option<Seq<Input>> {
    match j {
        Json::Array(v) => if forall|i: int| 0 <= i < v.len() ==> input_in(#[trigger] v[i]) is Some {
            Some(v.map_values(|x: Json| input_in(x)->0))
        } else {
            None
        },
        _ => None,
    }
}

/// The index that json says.
pub open spec fn index_in(j: Json) -> Option<IndexView> {
    match three_in(j, "entities"@, "referrers"@, "inputs"@, false) {
        Some((e, r, i)) => match (homes_in(e), links_in(r), inputs_in(i)) {
            (Some(homes), Some(links), Some(inputs)) => Some(IndexView { homes, links, inputs }),
            _ => None,
        },
        None => None,
    }
}

/// The index that bytes say.
pub open spec fn index_of(bytes: Seq<u8>) -> Option<IndexView> {
    if valid_utf8(bytes) {
        match json_of(decode_utf8(bytes)) {
            Some(j) => index_in(j),
            None => None,
        }
    } else {
        None
    }
}

impl RepoIndex {
    /// What this index holds.
    pub open spec fn model(&self) -> IndexView {
        IndexView { homes: self.homes(), links: self.links(), inputs: self.ingredients() }
    }
}

fn home_value(r: &EntityRef) -> (v: serde_json::Value)
    ensures
        home_in(held(v)) == Some(r@),
        nests(held(v), 2),
{
    let mut f: Vec<(String, serde_json::Value)> = Vec::new();
    f.push(("path".to_owned(), text_value(r.path.as_str())));
    f.push(("kind".to_owned(), text_value(r.kind.as_str())));
    let selector = match &r.selector {
        Some(s) => text_value(s.as_str()),
        None => null_value(),
    };
    f.push(("selector".to_owned(), selector));
    proof {
        let a = fields(f@);
        let n = field_names(a);
        reveal_strlit("path");
        reveal_strlit("kind");
        reveal_strlit("selector");
        assert(n[0] == "path"@ && n[1] == "kind"@ && n[2] == "selector"@);
        assert("path"@[0] == 'p' && "kind"@[0] == 'k' && "selector"@.len() == 8);
        assert(a[0] == ("path"@, Json::Text(r.path@)));
        assert(a[1] == ("kind"@, Json::Text(r.kind@)));
        assert(a[2] == ("selector"@, held(selector)));
        lemma_object_of(a);
        let m = object_of(a);
        assert(m.contains_key(a[0].0) && m.contains_key(a[1].0) && m.contains_key(a[2].0));
        let j = Json::Object(m);
        assert(home_in(j) == Some(r@));
        assert forall|k: Seq<char>| m.contains_key(k) implies nests(#[trigger] m[k], 1) by {
            let i = choose|i: int| 0 <= i < a.len() && (#[trigger] a[i]).0 == k;
            assert(m[a[i].0] == a[i].1);
        }
    }
    object_value(f)
}

fn homes_value(m: &NameMap<EntityRef>) -> (v: serde_json::Value)
    requires
        m.wf(),
    ensures
        homes_in(held(v)) == Some(m@.map_values(|r: EntityRef| r@)),
        nests(held(v), 3),
{
    let mut f: Vec<(String, serde_json::Value)> = Vec::new();
    let mut i: usize = 0;
    while i < m.entries.len()
        invariant
            i <= m.entries@.len(),
            f@.len() == i,
            forall|k: int|
                0 <= k < i ==> (#[trigger] f@[k]).0@ == m.entries@[k].0@ && home_in(held(f@[k].1))
                    == Some(m.entries@[k].1@) && nests(held(f@[k].1), 2),
        decreases m.entries@.len() - i,
    {
        let v = home_value(&m.entries[i].1);
        f.push((m.entries[i].0.clone(), v));
        i += 1;
    }
    proof {
        let a = fields(f@);
        let names = m.names();
        lemma_ascending_distinct(names);
        assert forall|k: int| 0 <= k < a.len() implies #[trigger] field_names(a)[k]
            == names[k] by {
            assert(a[k] == (f@[k].0@, held(f@[k].1)));
            assert(f@[k].0@ == m.entries@[k].0@);
        }
        assert(field_names(a) =~= names);
        lemma_object_of(a);
        let o = object_of(a);
        let want = m@.map_values(|r: EntityRef| r@);
        assert forall|x: Seq<char>| o.contains_key(x) implies home_in(#[trigger] o[x]) is Some
            && nests(o[x], 2) && want.contains_key(x) && want[x] == home_in(o[x])->0 by {
            let k = choose|k: int| 0 <= k < a.len() && (#[trigger] a[k]).0 == x;
            assert(o[a[k].0] == a[k].1);
            assert(a[k] == (f@[k].0@, held(f@[k].1)));
            m.lemma_at(k);
        }
        assert forall|x: Seq<char>| want.contains_key(x) implies #[trigger] o.contains_key(x) by {
            assert(names.contains(x));
            let k = choose|k: int| 0 <= k < names.len() && names[k] == x;
            assert(a[k].0 == names[k]) by {
                assert(field_names(a)[k] == names[k]);
            }
            assert(o.contains_key(a[k].0));
        }
        assert(o.map_values(|x: Json| home_in(x)->0) =~= want);
    }
    object_value(f)
}

fn sorted_list(v: &Vec<String>) -> (r: Vec<String>)
    ensures
        ascending(texts(r@)),
        forall|x: Seq<char>| #[trigger] texts(r@).contains(x) <==> texts(v@).contains(x),
{
    let ghost all = texts(v@);
    let mut out: Vec<String> = Vec::new();
    let mut i: usize = 0;
    while i < v.len()
        invariant
            i <= v@.len(),
            all == texts(v@),
            ascending(texts(out@)),
            forall|x: Seq<char>| #[trigger]
                texts(out@).contains(x) <==> all.take(i as int).contains(x),
        decreases v@.len() - i,
    {
        let ghost was = texts(out@);
        insert(&mut out, v[i].clone());
        proof {
            let a = all.take(i as int);
            let b = all.take(i + 1);
            assert(b =~= a.push(all[i as int]));
            assert(all[i as int] == v@[i as int]@);
            assert forall|x: Seq<char>| #[trigger] texts(out@).contains(x) <==> b.contains(x) by {
                lemma_push_contains(a, all[i as int], x);
                assert(was.contains(x) <==> a.contains(x));
            }
        }
        i += 1;
    }
    assert(all.take(i as int) =~= all);
    out
}

fn links_value(m: &NameMap<Vec<String>>) -> (v: serde_json::Value)
    requires
        m.wf(),
    ensures
        links_in(held(v)) == Some(along(m@)),
        nests(held(v), 3),
{
    let mut f: Vec<(String, serde_json::Value)> = Vec::new();
    let mut i: usize = 0;
    while i < m.entries.len()
        invariant
            i <= m.entries@.len(),
            f@.len() == i,
            forall|k: int|
                0 <= k < i ==> (#[trigger] f@[k]).0@ == m.entries@[k].0@ && is_texts(held(f@[k].1))
                    && nests(held(f@[k].1), 2),
            forall|k: int, y: Seq<char>|
                0 <= k < i ==> (#[trigger] holds(held(f@[k].1), y) <==> texts(
                    m.entries@[k].1@,
                ).contains(y)),
        decreases m.entries@.len() - i,
    {
        let list = sorted_list(&m.entries[i].1);
        let v = list_value(&list);
        proof {
            let t = texts(list@);
            let a = t.map_values(|s: Seq<char>| Json::Text(s));
            assert(held(v) == Json::Array(a));
            assert forall|k: int| 0 <= k < a.len() implies (#[trigger] a[k]) is Text && nests(
                a[k],
                1,
            ) by {
                assert(a[k] == Json::Text(t[k]));
            }
            assert(is_texts(held(v)) && nests(held(v), 2));
            assert forall|y: Seq<char>| #[trigger]
                holds(held(v), y) <==> texts(m.entries@[i as int].1@).contains(y) by {
                if a.contains(Json::Text(y)) {
                    let k = choose|k: int| 0 <= k < a.len() && a[k] == Json::Text(y);
                    assert(t[k] == y);
                }
                if t.contains(y) {
                    let k = choose|k: int| 0 <= k < t.len() && t[k] == y;
                    assert(a[k] == Json::Text(y));
                }
                assert(t.contains(y) <==> texts(m.entries@[i as int].1@).contains(y));
            }
        }
        let ghost was = f@;
        f.push((m.entries[i].0.clone(), v));
        assert forall|k: int, y: Seq<char>| 0 <= k < i + 1 implies (#[trigger] holds(
            held(f@[k].1),
            y,
        ) <==> texts(m.entries@[k].1@).contains(y)) by {
            if k < i {
                assert(f@[k] == was[k]);
            }
        }
        i += 1;
    }
    proof {
        let a = fields(f@);
        let names = m.names();
        lemma_ascending_distinct(names);
        assert forall|k: int| 0 <= k < a.len() implies #[trigger] field_names(a)[k]
            == names[k] by {
            assert(a[k] == (f@[k].0@, held(f@[k].1)));
            assert(f@[k].0@ == m.entries@[k].0@);
        }
        assert(field_names(a) =~= names);
        lemma_object_of(a);
        let o = object_of(a);
        assert forall|x: Seq<char>| o.contains_key(x) implies is_texts(#[trigger] o[x]) && nests(
            o[x],
            2,
        ) by {
            let k = choose|k: int| 0 <= k < a.len() && (#[trigger] a[k]).0 == x;
            assert(o[a[k].0] == a[k].1);
            assert(a[k] == (f@[k].0@, held(f@[k].1)));
        }
        let g = links_in(Json::Object(o))->0;
        let h = along(m@);
        assert forall|x: Seq<char>, y: Seq<char>| #[trigger] g(x, y) == h(x, y) by {
            assert(h(x, y) == edge(m@, x, y));
            if o.contains_key(x) {
                let k = choose|k: int| 0 <= k < a.len() && (#[trigger] a[k]).0 == x;
                assert(o[a[k].0] == a[k].1);
                assert(a[k] == (f@[k].0@, held(f@[k].1)));
                m.lemma_at(k);
                assert(holds(held(f@[k].1), y) <==> texts(m.entries@[k].1@).contains(y));
            }
            if m@.contains_key(x) {
                assert(names.contains(x));
                let k = choose|k: int| 0 <= k < names.len() && names[k] == x;
                assert(a[k].0 == names[k]) by {
                    assert(field_names(a)[k] == names[k]);
                }
                assert(o.contains_key(a[k].0));
            }
        }
        assert(g =~= h);
    }
    object_value(f)
}

fn inputs_value(v: &Vec<(String, Digest)>) -> (r: serde_json::Value)
    ensures
        inputs_in(held(r)) == Some(input_views(v@)),
        nests(held(r), 3),
{
    let mut out: Vec<serde_json::Value> = Vec::new();
    let mut i: usize = 0;
    while i < v.len()
        invariant
            i <= v@.len(),
            out@.len() == i,
            forall|k: int|
                0 <= k < i ==> input_in(held(#[trigger] out@[k])) == Some((v@[k].0@, v@[k].1@))
                    && nests(held(out@[k]), 2),
        decreases v@.len() - i,
    {
        let mut pair: Vec<String> = Vec::new();
        pair.push(v[i].0.clone());
        pair.push(v[i].1.hex());
        let x = list_value(&pair);
        proof {
            let t = texts(pair@);
            let a = t.map_values(|s: Seq<char>| Json::Text(s));
            assert(held(x) == Json::Array(a));
            assert(a.len() == 2 && a[0] == Json::Text(v@[i as int].0@) && a[1] == Json::Text(
                hex_of(v@[i as int].1@),
            ));
            crate::identity::lemma_digest_len(v@[i as int].1);
            lemma_digest_back(v@[i as int].1@);
            assert forall|k: int| 0 <= k < a.len() implies nests(#[trigger] a[k], 1) by {
                assert(a[k] == Json::Text(t[k]));
            }
            assert(input_in(held(x)) == Some((v@[i as int].0@, v@[i as int].1@)));
        }
        out.push(x);
        i += 1;
    }
    proof {
        let a = out@.map_values(|x: serde_json::Value| held(x));
        assert forall|k: int| 0 <= k < a.len() implies input_in(#[trigger] a[k]) == Some(
            (v@[k].0@, v@[k].1@),
        ) && nests(a[k], 2) by {
            assert(a[k] == held(out@[k]));
        }
        assert(a.map_values(|x: Json| input_in(x)->0) =~= input_views(v@));
    }
    array_value(out)
}

proof fn lemma_deep_enough(j: Json, a: nat, b: nat)
    requires
        nests(j, a),
        a <= b,
    ensures
        nests(j, b),
    decreases a,
{
    match j {
        Json::Array(v) => {
            assert forall|i: int| 0 <= i < v.len() implies nests(
                #[trigger] v[i],
                (b - 1) as nat,
            ) by {
                lemma_deep_enough(v[i], (a - 1) as nat, (b - 1) as nat);
            }
        },
        Json::Object(m) => {
            assert forall|k: Seq<char>| m.contains_key(k) implies nests(
                #[trigger] m[k],
                (b - 1) as nat,
            ) by {
                lemma_deep_enough(m[k], (a - 1) as nat, (b - 1) as nat);
            }
        },
        _ => {},
    }
}

impl RepoIndex {
    /// The bytes that this index is cached as. They say the index.
    pub fn encode(&self) -> (r: Vec<u8>)
        requires
            self.wf(),
        ensures
            index_of(r@) == Some(self.model()),
    {
        let entities = homes_value(&self.entities);
        let referrers = links_value(&self.referrers);
        let inputs = inputs_value(&self.inputs);
        let mut f: Vec<(String, serde_json::Value)> = Vec::new();
        f.push(("entities".to_owned(), entities));
        f.push(("referrers".to_owned(), referrers));
        f.push(("inputs".to_owned(), inputs));
        let ghost a = fields(f@);
        proof {
            let n = field_names(a);
            reveal_strlit("entities");
            reveal_strlit("referrers");
            reveal_strlit("inputs");
            assert(n[0] == "entities"@ && n[1] == "referrers"@ && n[2] == "inputs"@);
            assert(n[0].len() == 8 && n[1].len() == 9 && n[2].len() == 6);
            assert(a[0] == ("entities"@, held(entities)));
            assert(a[1] == ("referrers"@, held(referrers)));
            assert(a[2] == ("inputs"@, held(inputs)));
            lemma_object_of(a);
            let m = object_of(a);
            assert(m.contains_key(a[0].0) && m.contains_key(a[1].0) && m.contains_key(a[2].0));
            assert forall|k: Seq<char>| m.contains_key(k) implies nests(#[trigger] m[k], 3) by {
                let i = choose|i: int| 0 <= i < a.len() && (#[trigger] a[i]).0 == k;
                assert(m[a[i].0] == a[i].1);
            }
            assert(nests(Json::Object(m), 4));
            lemma_deep_enough(Json::Object(m), 4, 100);
            assert(index_in(Json::Object(m)) == Some(self.model()));
        }
        let top = object_value(f);
        let text = print(&top);
        proof {
            vstd::utf8::encode_utf8_valid_utf8(text@);
            vstd::utf8::encode_utf8_decode_utf8(text@);
        }
        vstd::slice::slice_to_vec(text.as_str().as_bytes())
    }
}

fn read_three<'a>(v: &'a serde_json::Value, a: &str, b: &str, c: &str) -> (r: Option<
    (&'a serde_json::Value, &'a serde_json::Value, Option<&'a serde_json::Value>),
>)
    ensures
        match r {
            Some((x, y, Some(z))) => forall|nullable: bool| #[trigger]
                three_in(held(*v), a@, b@, c@, nullable) == Some((held(*x), held(*y), held(*z))),
            Some((x, y, None)) => {
                &&& three_in(held(*v), a@, b@, c@, true) == Some((held(*x), held(*y), Json::Null))
                &&& three_in(held(*v), a@, b@, c@, false) is None
            },
            None => forall|nullable: bool| #[trigger]
                three_in(held(*v), a@, b@, c@, nullable) is None,
        },
{
    if let Some(items) = as_items(v) {
        let ghost all = items@.map_values(|x: serde_json::Value| held(x));
        assert(held(*v) == Json::Array(all));
        if items.len() != 3 {
            return None;
        }
        assert(all[0] == held(items@[0]) && all[1] == held(items@[1]) && all[2] == held(items@[2]));
        return Some((&items[0], &items[1], Some(&items[2])));
    }
    let x = get(v, a)?;
    let y = get(v, b)?;
    Some((x, y, get(v, c)))
}

fn read_home(v: &serde_json::Value) -> (r: Option<EntityRef>)
    ensures
        match r {
            Some(e) => home_in(held(*v)) == Some(e@),
            None => home_in(held(*v)) is None,
        },
{
    let (p, k, s) = read_three(v, "path", "kind", "selector")?;
    let path = as_text(p)?;
    let kind = as_text(k)?;
    let selector = match s {
        None => None,
        Some(x) => match as_text(x) {
            Some(t) => Some(t.to_owned()),
            None => {
                if !is_null(x) {
                    return None;
                }
                None
            },
        },
    };
    Some(EntityRef { path: path.to_owned(), kind: kind.to_owned(), selector })
}

fn read_homes(v: &serde_json::Value) -> (r: Option<NameMap<EntityRef>>)
    ensures
        match r {
            Some(m) => m.wf() && homes_in(held(*v)) == Some(m@.map_values(|x: EntityRef| x@)),
            None => homes_in(held(*v)) is None,
        },
{
    let f = as_fields(v)?;
    let ghost all = fields(f@);
    let ghost o = object_of(all);
    proof {
        lemma_object_of(all);
    }
    let mut m: NameMap<EntityRef> = NameMap::empty();
    let mut i: usize = 0;
    while i < f.len()
        invariant
            i <= f@.len(),
            all == fields(f@),
            o == object_of(all),
            held(*v) == Json::Object(o),
            field_names(all).no_duplicates(),
            forall|k: int|
                0 <= k < all.len() ==> o.contains_key((#[trigger] all[k]).0) && o[all[k].0]
                    == all[k].1,
            m.wf(),
            forall|k: int|
                0 <= k < i ==> m@.contains_key((#[trigger] all[k]).0) && home_in(all[k].1) == Some(
                    m@[all[k].0]@,
                ),
            forall|x: Seq<char>| #[trigger]
                m@.contains_key(x) ==> exists|k: int| 0 <= k < i && (#[trigger] all[k]).0 == x,
        decreases f@.len() - i,
    {
        assert(all[i as int] == (f@[i as int].0@, held(f@[i as int].1)));
        let e = match read_home(&f[i].1) {
            Some(e) => e,
            None => {
                assert(o.contains_key(all[i as int].0) && home_in(o[all[i as int].0]) is None);
                return None;
            },
        };
        let ghost was = m@;
        m.insert(f[i].0.clone(), e);
        proof {
            assert forall|k: int| 0 <= k < i + 1 implies m@.contains_key((#[trigger] all[k]).0)
                && home_in(all[k].1) == Some(m@[all[k].0]@) by {
                if k < i {
                    assert(field_names(all)[k] != field_names(all)[i as int]);
                }
            }
            assert forall|x: Seq<char>| #[trigger] m@.contains_key(x) implies exists|k: int|
                0 <= k < i + 1 && (#[trigger] all[k]).0 == x by {
                if x == all[i as int].0 {
                    assert(all[i as int].0 == x);
                } else {
                    assert(was.contains_key(x));
                }
            }
        }
        i += 1;
    }
    proof {
        assert forall|x: Seq<char>| o.contains_key(x) implies home_in(#[trigger] o[x]) is Some by {
            let k = choose|k: int| 0 <= k < all.len() && (#[trigger] all[k]).0 == x;
            assert(o[all[k].0] == all[k].1);
        }
        let want = o.map_values(|x: Json| home_in(x)->0);
        let got = m@.map_values(|x: EntityRef| x@);
        assert forall|x: Seq<char>| #[trigger] want.contains_key(x) implies got.contains_key(x)
            && got[x] == want[x] by {
            let k = choose|k: int| 0 <= k < all.len() && (#[trigger] all[k]).0 == x;
            assert(o[all[k].0] == all[k].1);
            assert(m@.contains_key(all[k].0));
        }
        assert forall|x: Seq<char>| #[trigger] got.contains_key(x) implies want.contains_key(x) by {
            assert(m@.contains_key(x));
            let k = choose|k: int| 0 <= k < all.len() && (#[trigger] all[k]).0 == x;
            assert(o.contains_key(all[k].0));
        }
        assert(want =~= got);
    }
    Some(m)
}

fn read_names(v: &serde_json::Value) -> (r: Option<Vec<String>>)
    ensures
        match r {
            Some(t) => is_texts(held(*v)) && forall|y: Seq<char>| #[trigger]
                holds(held(*v), y) <==> texts(t@).contains(y),
            None => !is_texts(held(*v)),
        },
{
    let items = as_items(v)?;
    let ghost all = items@.map_values(|x: serde_json::Value| held(x));
    assert(held(*v) == Json::Array(all));
    let mut out: Vec<String> = Vec::new();
    let mut i: usize = 0;
    while i < items.len()
        invariant
            i <= items@.len(),
            all == items@.map_values(|x: serde_json::Value| held(x)),
            held(*v) == Json::Array(all),
            out@.len() == i,
            forall|k: int| 0 <= k < i ==> all[k] == Json::Text((#[trigger] out@[k])@),
        decreases items@.len() - i,
    {
        assert(all[i as int] == held(items@[i as int]));
        match as_text(&items[i]) {
            Some(s) => {
                out.push(s.to_owned());
            },
            None => {
                assert(!(all[i as int] is Text));
                return None;
            },
        }
        i += 1;
    }
    proof {
        let t = texts(out@);
        assert forall|k: int| 0 <= k < all.len() implies (#[trigger] all[k]) is Text by {
            assert(all[k] == Json::Text(out@[k]@));
        }
        assert forall|y: Seq<char>| #[trigger] holds(held(*v), y) <==> t.contains(y) by {
            if all.contains(Json::Text(y)) {
                let k = choose|k: int| 0 <= k < all.len() && all[k] == Json::Text(y);
                assert(all[k] == Json::Text(out@[k]@));
                assert(t[k] == y);
            }
            if t.contains(y) {
                let k = choose|k: int| 0 <= k < t.len() && t[k] == y;
                assert(all[k] == Json::Text(out@[k]@));
            }
        }
    }
    Some(out)
}

fn read_links(v: &serde_json::Value) -> (r: Option<NameMap<Vec<String>>>)
    ensures
        match r {
            Some(m) => m.wf() && links_in(held(*v)) == Some(along(m@)),
            None => links_in(held(*v)) is None,
        },
{
    let f = as_fields(v)?;
    let ghost all = fields(f@);
    let ghost o = object_of(all);
    proof {
        lemma_object_of(all);
    }
    let mut m: NameMap<Vec<String>> = NameMap::empty();
    let mut i: usize = 0;
    while i < f.len()
        invariant
            i <= f@.len(),
            all == fields(f@),
            o == object_of(all),
            held(*v) == Json::Object(o),
            field_names(all).no_duplicates(),
            forall|k: int|
                0 <= k < all.len() ==> o.contains_key((#[trigger] all[k]).0) && o[all[k].0]
                    == all[k].1,
            m.wf(),
            forall|k: int|
                0 <= k < i ==> m@.contains_key((#[trigger] all[k]).0) && is_texts(all[k].1),
            forall|k: int, y: Seq<char>|
                0 <= k < i ==> (#[trigger] holds(all[k].1, y) <==> texts(
                    m@[all[k].0]@,
                ).contains(y)),
            forall|x: Seq<char>| #[trigger]
                m@.contains_key(x) ==> exists|k: int| 0 <= k < i && (#[trigger] all[k]).0 == x,
        decreases f@.len() - i,
    {
        assert(all[i as int] == (f@[i as int].0@, held(f@[i as int].1)));
        let list = match read_names(&f[i].1) {
            Some(t) => t,
            None => {
                assert(o.contains_key(all[i as int].0) && !is_texts(o[all[i as int].0]));
                return None;
            },
        };
        let ghost was = m@;
        let ghost now = list@;
        m.insert(f[i].0.clone(), list);
        proof {
            assert forall|k: int| 0 <= k < i + 1 implies m@.contains_key((#[trigger] all[k]).0)
                && is_texts(all[k].1) by {
                if k < i {
                    assert(was.contains_key(all[k].0));
                }
            }
            assert forall|k: int, y: Seq<char>| 0 <= k < i + 1 implies (#[trigger] holds(
                all[k].1,
                y,
            ) <==> texts(m@[all[k].0]@).contains(y)) by {
                if k < i {
                    assert(field_names(all)[k] != field_names(all)[i as int]);
                    assert(field_names(all)[k] == all[k].0);
                    assert(m@[all[k].0] == was[all[k].0]);
                } else {
                    assert(m@[all[k].0]@ == now);
                }
            }
            assert forall|x: Seq<char>| #[trigger] m@.contains_key(x) implies exists|k: int|
                0 <= k < i + 1 && (#[trigger] all[k]).0 == x by {
                if x == all[i as int].0 {
                    assert(all[i as int].0 == x);
                } else {
                    assert(was.contains_key(x));
                }
            }
        }
        i += 1;
    }
    proof {
        assert forall|x: Seq<char>| o.contains_key(x) implies is_texts(#[trigger] o[x]) by {
            let k = choose|k: int| 0 <= k < all.len() && (#[trigger] all[k]).0 == x;
            assert(o[all[k].0] == all[k].1);
        }
        let g = links_in(held(*v))->0;
        let h = along(m@);
        assert forall|x: Seq<char>, y: Seq<char>| #[trigger] g(x, y) == h(x, y) by {
            assert(h(x, y) == edge(m@, x, y));
            if o.contains_key(x) {
                let k = choose|k: int| 0 <= k < all.len() && (#[trigger] all[k]).0 == x;
                assert(o[all[k].0] == all[k].1);
                assert(holds(all[k].1, y) <==> texts(m@[all[k].0]@).contains(y));
            }
            if m@.contains_key(x) {
                let k = choose|k: int| 0 <= k < all.len() && (#[trigger] all[k]).0 == x;
                assert(o.contains_key(all[k].0));
            }
        }
        assert(g =~= h);
    }
    Some(m)
}

fn read_input(v: &serde_json::Value) -> (r: Option<(String, Digest)>)
    ensures
        match r {
            Some(x) => input_in(held(*v)) == Some((x.0@, x.1@)),
            None => input_in(held(*v)) is None,
        },
{
    let items = as_items(v)?;
    let ghost all = items@.map_values(|x: serde_json::Value| held(x));
    assert(held(*v) == Json::Array(all));
    if items.len() != 2 {
        return None;
    }
    assert(all[0] == held(items@[0]) && all[1] == held(items@[1]));
    let path = as_text(&items[0])?;
    let hex = as_text(&items[1])?;
    let d = Digest::from_hex(hex)?;
    Some((path.to_owned(), d))
}

fn read_inputs(v: &serde_json::Value) -> (r: Option<Vec<(String, Digest)>>)
    ensures
        match r {
            Some(t) => inputs_in(held(*v)) == Some(input_views(t@)),
            None => inputs_in(held(*v)) is None,
        },
{
    let items = as_items(v)?;
    let ghost all = items@.map_values(|x: serde_json::Value| held(x));
    assert(held(*v) == Json::Array(all));
    let mut out: Vec<(String, Digest)> = Vec::new();
    let mut i: usize = 0;
    while i < items.len()
        invariant
            i <= items@.len(),
            all == items@.map_values(|x: serde_json::Value| held(x)),
            held(*v) == Json::Array(all),
            out@.len() == i,
            forall|k: int|
                0 <= k < i ==> input_in(#[trigger] all[k]) == Some((out@[k].0@, out@[k].1@)),
        decreases items@.len() - i,
    {
        assert(all[i as int] == held(items@[i as int]));
        match read_input(&items[i]) {
            Some(x) => {
                out.push(x);
            },
            None => {
                assert(input_in(all[i as int]) is None);
                return None;
            },
        }
        i += 1;
    }
    assert(all.map_values(|x: Json| input_in(x)->0) =~= input_views(out@));
    Some(out)
}

impl RepoIndex {
    /// The index that bytes say, where they say one.
    pub fn decode(bytes: &[u8]) -> (r: Option<RepoIndex>)
        ensures
            match r {
                Some(x) => x.wf() && index_of(bytes@) == Some(x.model()),
                None => index_of(bytes@) is None,
            },
    {
        let text = from_utf8(bytes)?;
        let v = parse(text.as_str())?;
        let (e, r, i) = read_three(&v, "entities", "referrers", "inputs")?;
        let i = i?;
        let entities = read_homes(e)?;
        let referrers = read_links(r)?;
        let inputs = read_inputs(i)?;
        Some(RepoIndex { entities, referrers, inputs })
    }
}

/// An index round-trips, so that it can be cached: what bytes say is one index, and the bytes that
/// an index is encoded as say that index.
pub proof fn law_an_index_round_trips(a: RepoIndex, b: RepoIndex, bytes: Seq<u8>)
    requires
        index_of(bytes) == Some(a.model()),
        index_of(bytes) == Some(b.model()),
    ensures
        a.homes() == b.homes(),
        a.links() == b.links(),
        a.ingredients() == b.ingredients(),
        forall|seeds: Seq<Seq<char>>|
            #![trigger a.tests_reached(seeds)]
            #![trigger b.tests_reached(seeds)]
            a.tests_reached(seeds) == b.tests_reached(seeds),
{
    assert forall|seeds: Seq<Seq<char>>|
        #![trigger a.tests_reached(seeds)]
        #![trigger b.tests_reached(seeds)]
        a.tests_reached(seeds) == b.tests_reached(seeds) by {
        assert(a.tests_reached(seeds) =~= b.tests_reached(seeds));
    }
}

proof fn lemma_bytes_before(a: Seq<u8>, b: Seq<u8>, c: Seq<u8>)
    ensures
        bytes_before(a, b) ==> !bytes_before(b, a),
        a == b || bytes_before(a, b) || bytes_before(b, a),
        bytes_before(a, b) && bytes_before(b, c) ==> bytes_before(a, c),
    decreases a.len() + b.len() + c.len(),
{
    if a.len() == 0 && b.len() == 0 {
        assert(a =~= b);
    } else if a.len() > 0 && b.len() > 0 {
        let z = if c.len() > 0 {
            c.skip(1)
        } else {
            c
        };
        lemma_bytes_before(a.skip(1), b.skip(1), z);
        if a[0] == b[0] && a.skip(1) == b.skip(1) {
            assert(a =~= seq![a[0]] + a.skip(1));
            assert(b =~= seq![b[0]] + b.skip(1));
        }
    }
}

proof fn lemma_input_order(a: Input, b: Input, c: Input)
    ensures
        input_before(a, b) ==> !input_before(b, a),
        a == b || input_before(a, b) || input_before(b, a),
        input_before(a, b) && input_before(b, c) ==> input_before(a, c),
{
    lemma_before_asymmetric(a.0, b.0);
    lemma_before_asymmetric(b.0, a.0);
    lemma_before_total(a.0, b.0);
    lemma_bytes_before(a.1, b.1, c.1);
    if before(a.0, b.0) && before(b.0, c.0) {
        lemma_before_transitive(a.0, b.0, c.0);
    }
}

proof fn lemma_placing_commutes(s: Seq<Input>, x: Input, y: Input)
    ensures
        input_placed(input_placed(s, x), y) == input_placed(input_placed(s, y), x),
    decreases s.len(),
{
    lemma_input_order(x, y, y);
    lemma_input_order(y, x, x);
    if s.len() == 0 {
        assert(input_placed(s, x) =~= seq![x]);
        assert(input_placed(s, y) =~= seq![y]);
        assert((seq![x] + s).skip(1) =~= s);
        assert((seq![y] + s).skip(1) =~= s);
        assert(seq![x].skip(1) =~= s);
        assert(seq![y].skip(1) =~= s);
        assert(seq![x] + seq![y] =~= seq![x, y]);
        assert(seq![y] + seq![x] =~= seq![y, x]);
    } else {
        let h = s[0];
        let t = s.skip(1);
        lemma_input_order(x, h, h);
        lemma_input_order(y, h, h);
        lemma_input_order(x, y, h);
        lemma_input_order(y, x, h);
        lemma_placing_commutes(t, x, y);
        assert((seq![x] + s).skip(1) =~= s);
        assert((seq![y] + s).skip(1) =~= s);
        assert((seq![x] + s)[0] == x);
        assert((seq![y] + s)[0] == y);
        assert((seq![h] + input_placed(t, x)).skip(1) =~= input_placed(t, x));
        assert((seq![h] + input_placed(t, y)).skip(1) =~= input_placed(t, y));
        assert((seq![h] + input_placed(t, x))[0] == h);
        assert((seq![h] + input_placed(t, y))[0] == h);
        assert(seq![x] + (seq![y] + s) =~= seq![x, y] + s);
        assert(seq![y] + (seq![x] + s) =~= seq![y, x] + s);
    }
}

/// A file of the scope as an input of the index.
spec fn input_of(f: (Artifact, Outline)) -> Input {
    (f.0.path@, crate::adapter::artifact_digest(f.0.path@, f.0.bytes@))
}

spec fn placing() -> spec_fn(Seq<Input>, (Artifact, Outline)) -> Seq<Input> {
    |acc: Seq<Input>, f: (Artifact, Outline)| input_placed(acc, input_of(f))
}

proof fn lemma_sorting_folds(files: Seq<(Artifact, Outline)>)
    ensures
        inputs_sorted(inputs_of(files)) == files.fold_left(Seq::empty(), placing()),
    decreases files.len(),
{
    reveal(Seq::fold_left);
    if files.len() > 0 {
        let w = files.drop_last();
        lemma_sorting_folds(w);
        assert(inputs_of(files).drop_last() =~= inputs_of(w));
        assert(inputs_of(files).last() == input_of(files.last()));
    }
}

spec fn counting(name: Seq<char>) -> spec_fn(nat, (Artifact, Outline)) -> nat {
    |n: nat, f: (Artifact, Outline)|
        n + definitions(defs_in(f.0.path@, f.0.bytes@, f.1@.entities), name)
}

proof fn lemma_definitions_add(a: Seq<DefView>, b: Seq<DefView>, name: Seq<char>)
    ensures
        definitions(a + b, name) == definitions(a, name) + definitions(b, name),
    decreases b.len(),
{
    if b.len() == 0 {
        assert(a + b =~= a);
    } else {
        lemma_definitions_add(a, b.drop_last(), name);
        assert((a + b).drop_last() =~= a + b.drop_last());
        assert((a + b).last() == b.last());
    }
}

proof fn lemma_counting_folds(files: Seq<(Artifact, Outline)>, name: Seq<char>)
    ensures
        definitions(defs_of(files), name) == files.fold_left(0nat, counting(name)),
    decreases files.len(),
{
    reveal(Seq::fold_left);
    if files.len() > 0 {
        let w = files.drop_last();
        let f = files.last();
        lemma_counting_folds(w, name);
        lemma_definitions_add(defs_of(w), defs_in(f.0.path@, f.0.bytes@, f.1@.entities), name);
    }
}

proof fn lemma_defined_in_a_file(files: Seq<(Artifact, Outline)>, d: DefView)
    ensures
        defs_of(files).contains(d) <==> exists|i: int|
            0 <= i < files.len() && defs_in(
                (#[trigger] files[i]).0.path@,
                files[i].0.bytes@,
                files[i].1@.entities,
            ).contains(d),
    decreases files.len(),
{
    if files.len() > 0 {
        let w = files.drop_last();
        let f = files.last();
        let more = defs_in(f.0.path@, f.0.bytes@, f.1@.entities);
        lemma_defined_in_a_file(w, d);
        let all = defs_of(files);
        if all.contains(d) {
            let k = choose|k: int| 0 <= k < all.len() && all[k] == d;
            if k < defs_of(w).len() {
                assert(defs_of(w)[k] == d);
                assert(defs_of(w).contains(d));
                let i = choose|i: int|
                    0 <= i < w.len() && defs_in(
                        (#[trigger] w[i]).0.path@,
                        w[i].0.bytes@,
                        w[i].1@.entities,
                    ).contains(d);
                assert(files[i] == w[i]);
            } else {
                assert(more[k - defs_of(w).len()] == d);
                assert(more.contains(d));
                assert(files[files.len() - 1] == f);
            }
        }
        if exists|i: int|
            0 <= i < files.len() && defs_in(
                (#[trigger] files[i]).0.path@,
                files[i].0.bytes@,
                files[i].1@.entities,
            ).contains(d) {
            let i = choose|i: int|
                0 <= i < files.len() && defs_in(
                    (#[trigger] files[i]).0.path@,
                    files[i].0.bytes@,
                    files[i].1@.entities,
                ).contains(d);
            if i < w.len() {
                assert(w[i] == files[i]);
                assert(defs_of(w).contains(d));
                let k = choose|k: int| 0 <= k < defs_of(w).len() && defs_of(w)[k] == d;
                assert(all[k] == d);
            } else {
                let k = choose|k: int| 0 <= k < more.len() && more[k] == d;
                assert(all[defs_of(w).len() + k] == d);
            }
        }
    }
}

proof fn lemma_same_definitions(
    a: Seq<(Artifact, Outline)>,
    b: Seq<(Artifact, Outline)>,
    d: DefView,
)
    requires
        a.to_multiset() == b.to_multiset(),
    ensures
        defs_of(a).contains(d) ==> defs_of(b).contains(d),
{
    broadcast use vstd::seq_lib::group_to_multiset_ensures;

    lemma_defined_in_a_file(a, d);
    lemma_defined_in_a_file(b, d);
    if defs_of(a).contains(d) {
        let i = choose|i: int|
            0 <= i < a.len() && defs_in(
                (#[trigger] a[i]).0.path@,
                a[i].0.bytes@,
                a[i].1@.entities,
            ).contains(d);
        assert(a.contains(a[i]));
        assert(a.to_multiset().count(a[i]) > 0);
        assert(b.contains(a[i]));
        let j = choose|j: int| 0 <= j < b.len() && b[j] == a[i];
        assert(b[j] == a[i]);
    }
}

proof fn lemma_same_cites(
    a: Seq<(Artifact, Outline)>,
    b: Seq<(Artifact, Outline)>,
    x: Seq<char>,
    y: Seq<char>,
)
    requires
        a.to_multiset() == b.to_multiset(),
        cites(defs_of(a), x, y),
    ensures
        cites(defs_of(b), x, y),
{
    let (c, d) = (defs_of(a), defs_of(b));
    let (i, j) = choose|i: int, j: int|
        0 <= i < c.len() && 0 <= j < c.len() && c[i].id == y && c[j].id == x && #[trigger] cites_at(
            c,
            i,
            j,
        );
    assert(c.contains(c[i]) && c.contains(c[j]));
    lemma_same_definitions(a, b, c[i]);
    lemma_same_definitions(a, b, c[j]);
    let k = choose|k: int| 0 <= k < d.len() && d[k] == c[i];
    let l = choose|l: int| 0 <= l < d.len() && d[l] == c[j];
    let name = last_word(x);
    lemma_counting_folds(a, name);
    lemma_counting_folds(b, name);
    vstd::seq_lib::lemma_fold_left_permutation(a, b, counting(name), 0nat);
    assert(cites_at(d, k, l));
}

proof fn lemma_home_is_defined(d: Seq<DefView>, x: Seq<char>)
    ensures
        homes(d).contains_key(x) <==> exists|k: int| 0 <= k < d.len() && (#[trigger] d[k]).id == x,
        homes(d).contains_key(x) ==> exists|k: int|
            0 <= k < d.len() && (#[trigger] d[k]).id == x && homes(d)[x] == ref_of(d[k]),
    decreases d.len(),
{
    if d.len() > 0 {
        let w = d.drop_last();
        lemma_home_is_defined(w, x);
        assert(d[d.len() - 1] == d.last());
        if exists|k: int| 0 <= k < w.len() && (#[trigger] w[k]).id == x {
            let k = choose|k: int| 0 <= k < w.len() && (#[trigger] w[k]).id == x;
            assert(d[k] == w[k]);
        }
        if homes(w).contains_key(x) {
            let k = choose|k: int|
                0 <= k < w.len() && (#[trigger] w[k]).id == x && homes(w)[x] == ref_of(w[k]);
            assert(d[k] == w[k]);
        }
        if exists|k: int| 0 <= k < d.len() && (#[trigger] d[k]).id == x {
            let k = choose|k: int| 0 <= k < d.len() && (#[trigger] d[k]).id == x;
            if k < w.len() {
                assert(w[k] == d[k]);
            }
        }
    }
}

/// Is every id defined once?
pub open spec fn defined_once(d: Seq<DefView>) -> bool {
    forall|i: int, j: int|
        0 <= i < d.len() && 0 <= j < d.len() && i != j ==> (#[trigger] d[i]).id != (
        #[trigger] d[j]).id
}

/// The order in which files are read does not matter: it changes neither the digest of an index nor
/// who cites whom, and so neither what a change reaches. Nor does it change where an id lives,
/// unless the id is defined twice.
pub proof fn law_the_order_of_files_does_not_matter(
    a: Seq<(Artifact, Outline)>,
    b: Seq<(Artifact, Outline)>,
)
    requires
        a.to_multiset() == b.to_multiset(),
    ensures
        inputs_sorted(inputs_of(a)) == inputs_sorted(inputs_of(b)),
        citing(defs_of(a)) == citing(defs_of(b)),
        defined_once(defs_of(a)) ==> homes(defs_of(a)) == homes(defs_of(b)),
{
    let f = placing();
    assert forall|x: (Artifact, Outline), y: (Artifact, Outline), v: Seq<Input>| #[trigger]
        f(f(v, x), y) == f(f(v, y), x) by {
        lemma_placing_commutes(v, input_of(x), input_of(y));
    }
    lemma_sorting_folds(a);
    lemma_sorting_folds(b);
    vstd::seq_lib::lemma_fold_left_permutation(a, b, f, Seq::empty());
    let (c, d) = (defs_of(a), defs_of(b));
    assert forall|x: Seq<char>, y: Seq<char>| #[trigger] citing(c)(x, y) == citing(d)(x, y) by {
        if cites(c, x, y) {
            lemma_same_cites(a, b, x, y);
        }
        if cites(d, x, y) {
            lemma_same_cites(b, a, x, y);
        }
    }
    assert(citing(c) =~= citing(d));
    if defined_once(c) {
        assert forall|x: Seq<char>| #[trigger] homes(c).contains_key(x) <==> homes(d).contains_key(
            x,
        ) by {
            lemma_home_is_defined(c, x);
            lemma_home_is_defined(d, x);
            if homes(c).contains_key(x) {
                let k = choose|k: int| 0 <= k < c.len() && (#[trigger] c[k]).id == x;
                assert(c.contains(c[k]));
                lemma_same_definitions(a, b, c[k]);
                let l = choose|l: int| 0 <= l < d.len() && d[l] == c[k];
                assert(d[l].id == x);
            }
            if homes(d).contains_key(x) {
                let k = choose|k: int| 0 <= k < d.len() && (#[trigger] d[k]).id == x;
                assert(d.contains(d[k]));
                lemma_same_definitions(b, a, d[k]);
                let l = choose|l: int| 0 <= l < c.len() && c[l] == d[k];
                assert(c[l].id == x);
            }
        }
        assert forall|x: Seq<char>| #[trigger] homes(c).contains_key(x) implies homes(c)[x]
            == homes(d)[x] by {
            lemma_home_is_defined(c, x);
            lemma_home_is_defined(d, x);
            let k = choose|k: int|
                0 <= k < c.len() && (#[trigger] c[k]).id == x && homes(c)[x] == ref_of(c[k]);
            let l = choose|l: int|
                0 <= l < d.len() && (#[trigger] d[l]).id == x && homes(d)[x] == ref_of(d[l]);
            assert(d.contains(d[l]));
            lemma_same_definitions(b, a, d[l]);
            let m = choose|m: int| 0 <= m < c.len() && c[m] == d[l];
            assert(c[m].id == c[k].id);
        }
        assert(homes(c) =~= homes(d));
    }
}

} // verus!
