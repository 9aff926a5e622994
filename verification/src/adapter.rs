//! What every kind of artifact has to supply.
//!
//! An adapter supplies a document model (how bytes parse into named entities with stable ids), an
//! op schema (what may be emitted), a materializer (how ops become new bytes), a verify ladder
//! (cheapest check first) and impact analysis (given what changed, what has to be re-checked).
//!
//! Adapters transform content, not a shared mutable model: bytes and ops in, new bytes out. That is
//! what lets every step be a content-addressed node without the engine knowing what a function or
//! a slide is.
//!
//! Entity ids are the contract. Packs, impact, diagnostics and caching all hang off stable ids, so
//! adapters derive ids from names and structure, never from byte offsets.

use crate::identity::blake3_of;
use crate::identity::frames;
use crate::identity::Digest;
use crate::identity::Hasher;
use crate::text::copy_strings;
use crate::text::same;
use crate::text::texts;
use crate::text::trim;
use crate::text::trim_end;
use crate::text::trim_end_of;
use crate::text::trim_of;
use crate::utf8::byte_len;
use crate::utf8::from_utf8_lossy;
use crate::utf8::len_in_bytes;
use crate::utf8::lossy;
use vstd::prelude::*;
use vstd::utf8::decode_utf8;
use vstd::utf8::encode_utf8;
use vstd::utf8::valid_utf8;

verus! {

/// Why an adapter refused.
#[derive(Debug)]
pub enum AdapterError {
    Parse(String),
    BadOp(String),
    UnknownEntity(String),
    Io(String),
}

/// Why an adapter refused, with the text of the reason.
pub ghost enum Fault {
    Parse(Seq<char>),
    BadOp(Seq<char>),
    UnknownEntity(Seq<char>),
    Io(Seq<char>),
}

impl View for AdapterError {
    type V = Fault;

    open spec fn view(&self) -> Fault {
        match self {
            AdapterError::Parse(s) => Fault::Parse(s@),
            AdapterError::BadOp(s) => Fault::BadOp(s@),
            AdapterError::UnknownEntity(s) => Fault::UnknownEntity(s@),
            AdapterError::Io(s) => Fault::Io(s@),
        }
    }
}

impl Fault {
    /// The sentence that reports this fault.
    pub open spec fn sentence(self) -> Seq<char> {
        match self {
            Fault::Parse(s) => s,
            Fault::BadOp(s) => "op rejected: "@ + s,
            Fault::UnknownEntity(s) => "no entity called "@ + s,
            Fault::Io(s) => s,
        }
    }
}

impl AdapterError {
    /// The sentence that reports this error.
    pub fn message(&self) -> (r: String)
        ensures
            r@ == self@.sentence(),
    {
        match self {
            AdapterError::Parse(s) => s.clone(),
            AdapterError::BadOp(s) => {
                let mut m = "op rejected: ".to_owned();
                m.push_str(s.as_str());
                m
            },
            AdapterError::UnknownEntity(s) => {
                let mut m = "no entity called ".to_owned();
                m.push_str(s.as_str());
                m
            },
            AdapterError::Io(s) => s.clone(),
        }
    }
}

/// A rejected op, with the reason.
pub fn bad_op(why: &str) -> (e: AdapterError)
    ensures
        e@ == Fault::BadOp(why@),
{
    AdapterError::BadOp(why.to_owned())
}

/// An entity that is not there.
pub fn unknown(id: &str) -> (e: AdapterError)
    ensures
        e@ == Fault::UnknownEntity(id@),
{
    AdapterError::UnknownEntity(id.to_owned())
}

/// One file's worth of content.
#[derive(Debug)]
pub struct Artifact {
    /// Workspace-relative path. Part of an entity's identity, so it must be stable.
    pub path: String,
    pub bytes: Vec<u8>,
}

/// The text that some content reads as: what it encodes, or the nearest text where it encodes
/// none.
pub open spec fn text_of(bytes: Seq<u8>) -> Seq<char> {
    if valid_utf8(bytes) {
        decode_utf8(bytes)
    } else {
        lossy(bytes)
    }
}

/// The identity of some content at a path.
pub open spec fn artifact_digest(path: Seq<char>, bytes: Seq<u8>) -> Seq<u8> {
    blake3_of(frames(seq![encode_utf8("flash.artifact.v1"@), encode_utf8(path), bytes]))
}

pub(crate) proof fn lemma_three_frames(a: Seq<u8>, b: Seq<u8>, c: Seq<u8>)
    ensures
        frames(seq![a, b, c]) == crate::identity::frame(a) + crate::identity::frame(b)
            + crate::identity::frame(c),
{
    let all = seq![a, b, c];
    assert(all.drop_last() =~= seq![a, b]);
    assert(seq![a, b].drop_last() =~= seq![a]);
    assert(seq![a].drop_last() =~= Seq::<Seq<u8>>::empty());
    assert(frames(Seq::<Seq<u8>>::empty()) =~= Seq::<u8>::empty());
    assert(frames(seq![a]) =~= crate::identity::frame(a));
    assert(frames(seq![a, b]) == crate::identity::frame(a) + crate::identity::frame(b));
}

impl Artifact {
    pub fn new(path: &str, bytes: Vec<u8>) -> (r: Self)
        ensures
            r.path@ == path@,
            r.bytes == bytes,
    {
        Artifact { path: path.to_owned(), bytes }
    }

    pub fn text(&self) -> (r: String)
        ensures
            r@ == text_of(self.bytes@),
    {
        from_utf8_lossy(self.bytes.as_slice())
    }

    pub fn digest(&self) -> (r: Digest)
        ensures
            r@ == artifact_digest(self.path@, self.bytes@),
    {
        let mut h = Hasher::new("flash.artifact.v1");
        h.str(self.path.as_str());
        h.bytes(self.bytes.as_slice());
        proof {
            lemma_three_frames(
                encode_utf8("flash.artifact.v1"@),
                encode_utf8(self.path@),
                self.bytes@,
            );
        }
        h.finish()
    }

    /// The same content at the same path.
    pub fn copy(&self) -> (r: Self)
        ensures
            r.path@ == self.path@,
            r.bytes@ == self.bytes@,
    {
        let bytes = vstd::slice::slice_to_vec(self.bytes.as_slice());
        Artifact { path: self.path.clone(), bytes }
    }
}

/// A named thing inside an artifact: a function, a block, a slide, a range.
#[derive(Debug)]
pub struct Entity {
    /// Stable id, derived from names and structure. Never from byte offsets.
    pub id: String,
    /// Adapter-specific kind: "fn", "struct", "test", "heading", "slide", "range".
    pub kind: String,
    /// Byte range in the artifact.
    pub start: usize,
    pub end: usize,
    /// Byte range of the part that can be replaced independently (a function body, a block's
    /// text). None when the entity has no separable interior.
    pub body: Option<(usize, usize)>,
    /// One-line summary: a signature, a heading, a formula.
    pub signature: Option<String>,
    /// Ids this entity refers to. The edges impact analysis walks.
    pub refs: Vec<String>,
    /// Enclosing entity, if any.
    pub parent: Option<String>,
}

/// An entity, as the values it holds.
#[verifier::ext_equal]
pub ghost struct EntityView {
    pub id: Seq<char>,
    pub kind: Seq<char>,
    pub start: int,
    pub end: int,
    pub body: Option<(int, int)>,
    pub signature: Option<Seq<char>>,
    pub refs: Seq<Seq<char>>,
    pub parent: Option<Seq<char>>,
}

/// The text of an optional string.
pub open spec fn opt_text(s: Option<String>) -> Option<Seq<char>> {
    match s {
        Some(t) => Some(t@),
        None => None,
    }
}

/// A copy of an optional string.
pub fn copy_opt(s: &Option<String>) -> (r: Option<String>)
    ensures
        r == *s,
{
    match s {
        Some(t) => Some(t.clone()),
        None => None,
    }
}

impl View for Entity {
    type V = EntityView;

    open spec fn view(&self) -> EntityView {
        EntityView {
            id: self.id@,
            kind: self.kind@,
            start: self.start as int,
            end: self.end as int,
            body: match self.body {
                Some((a, b)) => Some((a as int, b as int)),
                None => None,
            },
            signature: opt_text(self.signature),
            refs: texts(self.refs@),
            parent: opt_text(self.parent),
        }
    }
}

/// A run of entities, as the values they hold.
pub open spec fn entity_views(v: Seq<Entity>) -> Seq<EntityView> {
    v.map_values(|e: Entity| e@)
}

pub open spec fn least(a: int, b: int) -> int {
    if a <= b {
        a
    } else {
        b
    }
}

impl EntityView {
    /// The bytes of this entity, as far as the content reaches.
    pub open spec fn bytes_in(self, bytes: Seq<u8>) -> Seq<u8> {
        bytes.subrange(least(self.start, bytes.len() as int), least(self.end, bytes.len() as int))
    }

    /// Does this entity refer to `id`?
    pub open spec fn refers_to(self, id: Seq<char>) -> bool {
        self.refs.contains(id)
    }
}

impl Entity {
    pub fn slice<'a>(&self, artifact: &'a Artifact) -> (r: &'a [u8])
        requires
            self.start <= self.end || artifact.bytes@.len() <= self.end,
        ensures
            r@ == self@.bytes_in(artifact.bytes@),
    {
        let n: usize = artifact.bytes.len();
        let start: usize = if self.start < n { self.start } else { n };
        let end: usize = if self.end < n { self.end } else { n };
        vstd::slice::slice_subrange(artifact.bytes.as_slice(), start, end)
    }

    /// The same entity.
    pub fn copy(&self) -> (r: Self)
        ensures
            r@ == self@,
    {
        Entity {
            id: self.id.clone(),
            kind: self.kind.clone(),
            start: self.start,
            end: self.end,
            body: self.body,
            signature: copy_opt(&self.signature),
            refs: copy_strings(&self.refs),
            parent: copy_opt(&self.parent),
        }
    }
}

/// The structural view of one artifact.
#[derive(Debug)]
pub struct Outline {
    pub path: String,
    pub entities: Vec<Entity>,
}

/// An outline, as the values it holds.
#[verifier::ext_equal]
pub ghost struct OutlineView {
    pub path: Seq<char>,
    pub entities: Seq<EntityView>,
}

impl View for Outline {
    type V = OutlineView;

    open spec fn view(&self) -> OutlineView {
        OutlineView { path: self.path@, entities: entity_views(self.entities@) }
    }
}

/// The position of the first entity called `id`, or the number of entities.
pub open spec fn find_id(es: Seq<EntityView>, id: Seq<char>) -> int
    decreases es.len(),
{
    if es.len() == 0 {
        0
    } else {
        let r = find_id(es.drop_last(), id);
        if r < es.len() - 1 {
            r
        } else if es.last().id == id {
            es.len() - 1
        } else {
            es.len() as int
        }
    }
}

/// The first entity called `id` is the first.
pub proof fn lemma_find_id(es: Seq<EntityView>, id: Seq<char>)
    ensures
        0 <= find_id(es, id) <= es.len(),
        find_id(es, id) < es.len() ==> es[find_id(es, id)].id == id,
        forall|k: int| 0 <= k < find_id(es, id) ==> (#[trigger] es[k]).id != id,
    decreases es.len(),
{
    if es.len() > 0 {
        lemma_find_id(es.drop_last(), id);
        let d = es.drop_last();
        assert forall|k: int| 0 <= k < find_id(es, id) implies (#[trigger] es[k]).id != id by {
            if k < d.len() {
                assert(d[k] == es[k]);
            }
        }
    }
}

/// A first position found in a prefix stays the first.
pub proof fn lemma_find_id_prefix(es: Seq<EntityView>, id: Seq<char>, n: int)
    requires
        0 <= n <= es.len(),
    ensures
        find_id(es.take(n), id) < n ==> find_id(es, id) == find_id(es.take(n), id),
    decreases es.len(),
{
    if n == es.len() {
        assert(es.take(n) =~= es);
    } else {
        lemma_find_id_prefix(es.drop_last(), id, n);
        assert(es.drop_last().take(n) =~= es.take(n));
    }
}

impl OutlineView {
    /// The first entity called `id`.
    pub open spec fn entity(self, id: Seq<char>) -> Option<EntityView> {
        let i = find_id(self.entities, id);
        if i < self.entities.len() {
            Some(self.entities[i])
        } else {
            None
        }
    }

    pub open spec fn has(self, id: Seq<char>) -> bool {
        find_id(self.entities, id) < self.entities.len()
    }

    pub open spec fn ids(self) -> Seq<Seq<char>> {
        self.entities.map_values(|e: EntityView| e.id)
    }

    pub open spec fn of_kind(self, kind: Seq<char>) -> Seq<EntityView> {
        self.entities.filter(|e: EntityView| e.kind == kind)
    }

    pub open spec fn referrers(self, id: Seq<char>) -> Seq<EntityView> {
        self.entities.filter(|e: EntityView| e.refers_to(id))
    }
}

/// The views behind a run of references.
pub open spec fn seen(v: Seq<&Entity>) -> Seq<EntityView> {
    v.map_values(|e: &Entity| e@)
}

pub(crate) proof fn lemma_filter_step<T>(s: Seq<T>, i: int, p: spec_fn(T) -> bool)
    requires
        0 <= i < s.len(),
    ensures
        s.take(i + 1).filter(p) == if p(s[i]) {
            s.take(i).filter(p).push(s[i])
        } else {
            s.take(i).filter(p)
        },
{
    reveal(Seq::filter);
    let n = s.take(i + 1);
    assert(n.drop_last() =~= s.take(i));
    assert(n.last() == s[i]);
}

impl Outline {
    /// The position of the first entity called `id`, or the number of entities.
    pub fn position(&self, id: &str) -> (i: usize)
        ensures
            i == find_id(self@.entities, id@),
            i <= self.entities@.len(),
    {
        let mut i: usize = 0;
        assert(self@.entities.take(0) =~= Seq::<EntityView>::empty());
        while i < self.entities.len()
            invariant
                i <= self.entities@.len(),
                find_id(self@.entities.take(i as int), id@) == i,
            decreases self.entities@.len() - i,
        {
            let ghost nn = self@.entities.take(i + 1);
            assert(nn.drop_last() =~= self@.entities.take(i as int));
            assert(nn.last() == self.entities@[i as int]@);
            if same(self.entities[i].id.as_str(), id) {
                proof {
                    lemma_find_id_prefix(self@.entities, id@, i + 1);
                }
                return i;
            }
            i += 1;
        }
        assert(self@.entities.take(i as int) =~= self@.entities);
        i
    }

    pub fn get(&self, id: &str) -> (r: Option<&Entity>)
        ensures
            r is Some <==> self@.has(id@),
            r matches Some(e) ==> self@.entity(id@) == Some(e@),
    {
        let i: usize = self.position(id);
        if i < self.entities.len() {
            Some(&self.entities[i])
        } else {
            None
        }
    }

    pub fn ids(&self) -> (r: Vec<String>)
        ensures
            texts(r@) == self@.ids(),
    {
        let mut out: Vec<String> = Vec::new();
        let mut i: usize = 0;
        while i < self.entities.len()
            invariant
                i <= self.entities@.len(),
                texts(out@) == self@.ids().take(i as int),
            decreases self.entities@.len() - i,
        {
            let ghost before = texts(out@);
            out.push(self.entities[i].id.clone());
            assert(texts(out@) =~= before.push(self.entities@[i as int].id@));
            assert(self@.ids().take(i + 1) =~= self@.ids().take(i as int).push(
                self.entities@[i as int].id@,
            ));
            i += 1;
        }
        assert(self@.ids().take(i as int) =~= self@.ids());
        out
    }

    pub fn of_kind(&self, kind: &str) -> (r: Vec<&Entity>)
        ensures
            seen(r@) == self@.of_kind(kind@),
    {
        let mut out: Vec<&Entity> = Vec::new();
        let mut i: usize = 0;
        let ghost p = |e: EntityView| e.kind == kind@;
        assert(self@.entities.take(0).filter(p) =~= Seq::<EntityView>::empty()) by {
            reveal(Seq::filter);
        }
        while i < self.entities.len()
            invariant
                i <= self.entities@.len(),
                p == (|e: EntityView| e.kind == kind@),
                seen(out@) == self@.entities.take(i as int).filter(p),
            decreases self.entities@.len() - i,
        {
            proof {
                lemma_filter_step(self@.entities, i as int, p);
            }
            let ghost before = seen(out@);
            if same(self.entities[i].kind.as_str(), kind) {
                out.push(&self.entities[i]);
                assert(seen(out@) =~= before.push(self.entities@[i as int]@));
            }
            i += 1;
        }
        assert(self@.entities.take(i as int) =~= self@.entities);
        out
    }

    /// Everything that refers to `id`, directly.
    pub fn referrers(&self, id: &str) -> (r: Vec<&Entity>)
        ensures
            seen(r@) == self@.referrers(id@),
    {
        let mut out: Vec<&Entity> = Vec::new();
        let mut i: usize = 0;
        let ghost p = |e: EntityView| e.refers_to(id@);
        assert(self@.entities.take(0).filter(p) =~= Seq::<EntityView>::empty()) by {
            reveal(Seq::filter);
        }
        while i < self.entities.len()
            invariant
                i <= self.entities@.len(),
                p == (|e: EntityView| e.refers_to(id@)),
                seen(out@) == self@.entities.take(i as int).filter(p),
            decreases self.entities@.len() - i,
        {
            proof {
                lemma_filter_step(self@.entities, i as int, p);
            }
            let ghost before = seen(out@);
            if crate::names::mentions(&self.entities[i].refs, id) {
                out.push(&self.entities[i]);
                assert(seen(out@) =~= before.push(self.entities@[i as int]@));
            }
            i += 1;
        }
        assert(self@.entities.take(i as int) =~= self@.entities);
        out
    }
}

/// One field of an op.
#[derive(Debug)]
pub enum Field {
    Text(String),
    Whole(u64),
    /// An object, each of its values as the text that is stored for it.
    Table(Vec<(String, String)>),
    /// Anything else.
    Other,
}

/// One structured edit. The payload is validated against the adapter's schema before it is
/// applied, and never interpreted as free text.
#[derive(Debug)]
pub struct Op {
    pub fields: Vec<(String, Field)>,
}

/// The position of the first field called `name`, or the number of fields.
pub open spec fn field_at(fields: Seq<(String, Field)>, name: Seq<char>) -> int
    decreases fields.len(),
{
    if fields.len() == 0 || fields[0].0@ == name {
        0
    } else {
        1 + field_at(fields.skip(1), name)
    }
}

impl Op {
    /// The value of the field called `name`.
    pub open spec fn field(&self, name: Seq<char>) -> Option<Field> {
        let i = field_at(self.fields@, name);
        if i < self.fields@.len() {
            Some(self.fields@[i].1)
        } else {
            None
        }
    }

    /// The text of the field called `name`, where it is text.
    pub open spec fn text(&self, name: Seq<char>) -> Option<Seq<char>> {
        match self.field(name) {
            Some(Field::Text(s)) => Some(s@),
            _ => None,
        }
    }

    /// The number in the field called `name`, where it is one.
    pub open spec fn whole(&self, name: Seq<char>) -> Option<u64> {
        match self.field(name) {
            Some(Field::Whole(n)) => Some(n),
            _ => None,
        }
    }

    /// The text of the field called `name`, or the fault that it is missing.
    pub open spec fn demand(&self, name: Seq<char>) -> Result<Seq<char>, Fault> {
        match self.text(name) {
            Some(s) => Ok(s),
            None => Err(Fault::BadOp("missing string field `"@ + name + "`"@)),
        }
    }

    pub fn new(fields: Vec<(String, Field)>) -> (r: Self)
        ensures
            r.fields == fields,
    {
        Op { fields }
    }

    pub fn get(&self, name: &str) -> (r: Option<&Field>)
        ensures
            r is Some <==> self.field(name@) is Some,
            r matches Some(f) ==> self.field(name@) == Some(*f),
    {
        let mut i: usize = 0;
        assert(self.fields@.skip(0) =~= self.fields@);
        while i < self.fields.len()
            invariant
                i <= self.fields@.len(),
                field_at(self.fields@, name@) == i + field_at(self.fields@.skip(i as int), name@),
            decreases self.fields@.len() - i,
        {
            assert(self.fields@.skip(i as int).skip(1) =~= self.fields@.skip(i + 1));
            if same(self.fields[i].0.as_str(), name) {
                return Some(&self.fields[i].1);
            }
            i += 1;
        }
        None
    }

    /// The discriminator every op schema shares.
    pub fn kind(&self) -> (r: Option<&str>)
        ensures
            r is Some <==> self.text("op"@) is Some,
            r matches Some(s) ==> self.text("op"@) == Some(s@),
    {
        self.opt_str("op")
    }

    pub fn str_field(&self, name: &str) -> (r: Result<&str, AdapterError>)
        ensures
            r matches Ok(s) ==> self.demand(name@) == Ok::<Seq<char>, Fault>(s@),
            r matches Err(e) ==> self.demand(name@) == Err::<Seq<char>, Fault>(e@),
    {
        match self.opt_str(name) {
            Some(s) => Ok(s),
            None => {
                let mut m = "missing string field `".to_owned();
                m.push_str(name);
                m.push_str("`");
                Err(AdapterError::BadOp(m))
            },
        }
    }

    pub fn opt_str(&self, name: &str) -> (r: Option<&str>)
        ensures
            r is Some <==> self.text(name@) is Some,
            r matches Some(s) ==> self.text(name@) == Some(s@),
    {
        match self.get(name) {
            Some(Field::Text(s)) => Some(s.as_str()),
            _ => None,
        }
    }

    /// The number in the field called `name`, where it is one.
    pub fn opt_whole(&self, name: &str) -> (r: Option<u64>)
        ensures
            r == self.whole(name@),
    {
        match self.get(name) {
            Some(Field::Whole(n)) => Some(*n),
            _ => None,
        }
    }
}

/// What changed, in entity terms rather than byte terms.
#[derive(Debug)]
pub struct Delta {
    pub changed: Vec<String>,
    pub added: Vec<String>,
    pub removed: Vec<String>,
}

/// A delta, as the ids it holds.
#[verifier::ext_equal]
pub ghost struct DeltaView {
    pub changed: Seq<Seq<char>>,
    pub added: Seq<Seq<char>>,
    pub removed: Seq<Seq<char>>,
}

impl View for Delta {
    type V = DeltaView;

    open spec fn view(&self) -> DeltaView {
        DeltaView {
            changed: texts(self.changed@),
            added: texts(self.added@),
            removed: texts(self.removed@),
        }
    }
}

/// `dst`, and then each of `src` that is not there yet.
pub open spec fn appended(dst: Seq<Seq<char>>, src: Seq<Seq<char>>) -> Seq<Seq<char>>
    decreases src.len(),
{
    if src.len() == 0 {
        dst
    } else {
        let d = appended(dst, src.drop_last());
        if d.contains(src.last()) {
            d
        } else {
            d.push(src.last())
        }
    }
}

impl DeltaView {
    pub open spec fn nothing() -> DeltaView {
        DeltaView { changed: Seq::empty(), added: Seq::empty(), removed: Seq::empty() }
    }

    /// Everything in the delta: what changed, what is new, what is gone.
    pub open spec fn touched(self) -> Seq<Seq<char>> {
        self.changed + self.added + self.removed
    }

    pub open spec fn merged(self, other: DeltaView) -> DeltaView {
        DeltaView {
            changed: appended(self.changed, other.changed),
            added: appended(self.added, other.added),
            removed: appended(self.removed, other.removed),
        }
    }
}

/// Add to `dst` each of `src` that is not there yet.
pub fn append_new(dst: &mut Vec<String>, src: &Vec<String>)
    ensures
        texts(final(dst)@) == appended(texts(old(dst)@), texts(src@)),
{
    let ghost start = texts(dst@);
    let mut i: usize = 0;
    assert(texts(src@).take(0) =~= Seq::<Seq<char>>::empty());
    while i < src.len()
        invariant
            i <= src@.len(),
            texts(dst@) == appended(start, texts(src@).take(i as int)),
        decreases src@.len() - i,
    {
        let ghost nn = texts(src@).take(i + 1);
        assert(nn.drop_last() =~= texts(src@).take(i as int));
        assert(nn.last() == src@[i as int]@);
        let ghost before = texts(dst@);
        if !crate::names::mentions(dst, src[i].as_str()) {
            dst.push(src[i].clone());
            assert(texts(dst@) =~= before.push(src@[i as int]@));
        }
        i += 1;
    }
    assert(texts(src@).take(i as int) =~= texts(src@));
}

impl Default for Delta {
    fn default() -> (r: Self)
        ensures
            r@ == DeltaView::nothing(),
    {
        let r = Delta { changed: Vec::new(), added: Vec::new(), removed: Vec::new() };
        assert(r@ =~= DeltaView::nothing());
        r
    }
}

/// Append a copy of a run of strings.
pub fn extend_strings(dst: &mut Vec<String>, src: &Vec<String>)
    ensures
        texts(final(dst)@) == texts(old(dst)@) + texts(src@),
{
    let ghost start = texts(dst@);
    let mut i: usize = 0;
    assert(start + texts(src@).take(0) =~= start);
    while i < src.len()
        invariant
            i <= src@.len(),
            texts(dst@) == start + texts(src@).take(i as int),
        decreases src@.len() - i,
    {
        let ghost before = texts(dst@);
        dst.push(src[i].clone());
        assert(texts(dst@) =~= before.push(src@[i as int]@));
        assert(texts(dst@) =~= start + texts(src@).take(i + 1));
        i += 1;
    }
    assert(texts(src@).take(i as int) =~= texts(src@));
}

impl Delta {
    pub fn touched(&self) -> (r: Vec<String>)
        ensures
            texts(r@) == self@.touched(),
    {
        let mut out: Vec<String> = Vec::new();
        extend_strings(&mut out, &self.changed);
        extend_strings(&mut out, &self.added);
        extend_strings(&mut out, &self.removed);
        assert(texts(out@) =~= self@.touched());
        out
    }

    pub fn is_empty(&self) -> (b: bool)
        ensures
            b == (self@.touched().len() == 0),
    {
        self.changed.len() == 0 && self.added.len() == 0 && self.removed.len() == 0
    }

    pub fn merge(&mut self, other: &Delta)
        ensures
            final(self)@ == old(self)@.merged(other@),
    {
        append_new(&mut self.changed, &other.changed);
        append_new(&mut self.added, &other.added);
        append_new(&mut self.removed, &other.removed);
    }
}

proof fn lemma_appended_contains(dst: Seq<Seq<char>>, src: Seq<Seq<char>>, x: Seq<char>)
    ensures
        appended(dst, src).contains(x) <==> dst.contains(x) || src.contains(x),
    decreases src.len(),
{
    if src.len() > 0 {
        let s = src.drop_last();
        lemma_appended_contains(dst, s, x);
        let d = appended(dst, s);
        assert(s.push(src.last()) =~= src);
        if src.contains(x) && !s.contains(x) {
            let k = choose|k: int| 0 <= k < src.len() && src[k] == x;
            if k < s.len() {
                assert(s[k] == x);
            }
            assert(x == src.last());
        }
        if s.contains(x) {
            let k = choose|k: int| 0 <= k < s.len() && s[k] == x;
            assert(src[k] == x);
        }
        assert(src[src.len() - 1] == src.last());
        if !d.contains(src.last()) {
            let e = d.push(src.last());
            assert(e[d.len() as int] == src.last());
            if d.contains(x) {
                let k = choose|k: int| 0 <= k < d.len() && d[k] == x;
                assert(e[k] == x);
            }
            if e.contains(x) && !d.contains(x) {
                let k = choose|k: int| 0 <= k < e.len() && e[k] == x;
                if k < d.len() {
                    assert(d[k] == x);
                }
            }
        }
    }
}

proof fn lemma_appended_absorbs(dst: Seq<Seq<char>>, src: Seq<Seq<char>>)
    requires
        forall|i: int| 0 <= i < src.len() ==> dst.contains(#[trigger] src[i]),
    ensures
        appended(dst, src) == dst,
    decreases src.len(),
{
    if src.len() > 0 {
        let s = src.drop_last();
        assert forall|i: int| 0 <= i < s.len() implies dst.contains(#[trigger] s[i]) by {
            assert(s[i] == src[i]);
        }
        lemma_appended_absorbs(dst, s);
        assert(dst.contains(src[src.len() - 1]));
    }
}

/// Merging a delta a second time changes nothing.
pub proof fn law_merge_is_idempotent(a: DeltaView, b: DeltaView)
    ensures
        a.merged(b).merged(b) == a.merged(b),
{
    assert forall|i: int| 0 <= i < b.changed.len() implies appended(a.changed, b.changed).contains(
        #[trigger] b.changed[i],
    ) by {
        lemma_appended_contains(a.changed, b.changed, b.changed[i]);
    }
    lemma_appended_absorbs(appended(a.changed, b.changed), b.changed);
    assert forall|i: int| 0 <= i < b.added.len() implies appended(a.added, b.added).contains(
        #[trigger] b.added[i],
    ) by {
        lemma_appended_contains(a.added, b.added, b.added[i]);
    }
    lemma_appended_absorbs(appended(a.added, b.added), b.added);
    assert forall|i: int| 0 <= i < b.removed.len() implies appended(a.removed, b.removed).contains(
        #[trigger] b.removed[i],
    ) by {
        lemma_appended_contains(a.removed, b.removed, b.removed[i]);
    }
    lemma_appended_absorbs(appended(a.removed, b.removed), b.removed);
    assert(a.merged(b).merged(b) =~= a.merged(b));
}

/// A merged delta names exactly what either side names.
pub proof fn law_merge_keeps_both_sides(a: DeltaView, b: DeltaView, x: Seq<char>)
    ensures
        a.merged(b).changed.contains(x) <==> a.changed.contains(x) || b.changed.contains(x),
        a.merged(b).added.contains(x) <==> a.added.contains(x) || b.added.contains(x),
        a.merged(b).removed.contains(x) <==> a.removed.contains(x) || b.removed.contains(x),
{
    lemma_appended_contains(a.changed, b.changed, x);
    lemma_appended_contains(a.added, b.added, x);
    lemma_appended_contains(a.removed, b.removed, x);
}

/// The result of materializing ops.
#[derive(Debug)]
pub struct Applied {
    pub artifact: Artifact,
    pub delta: Delta,
}

/// What has to be re-checked after a delta. This is what makes warm runs cheap.
#[derive(Debug)]
pub struct ImpactSet {
    /// Entities whose correctness may have changed.
    pub entities: Vec<String>,
    /// Tests worth running, by adapter-specific selector.
    pub tests: Vec<String>,
    /// Render units (pdf pages, slide thumbnails, sheet ranges) that must be redone.
    pub units: Vec<String>,
}

/// An impact set, as the names it holds.
#[verifier::ext_equal]
pub ghost struct ImpactView {
    pub entities: Seq<Seq<char>>,
    pub tests: Seq<Seq<char>>,
    pub units: Seq<Seq<char>>,
}

impl View for ImpactSet {
    type V = ImpactView;

    open spec fn view(&self) -> ImpactView {
        ImpactView {
            entities: texts(self.entities@),
            tests: texts(self.tests@),
            units: texts(self.units@),
        }
    }
}

impl Default for ImpactSet {
    fn default() -> (r: Self)
        ensures
            r@.entities.len() == 0,
            r@.tests.len() == 0,
            r@.units.len() == 0,
    {
        ImpactSet { entities: Vec::new(), tests: Vec::new(), units: Vec::new() }
    }
}

impl ImpactSet {
    pub fn is_empty(&self) -> (b: bool)
        ensures
            b == (self@.entities.len() == 0 && self@.tests.len() == 0 && self@.units.len() == 0),
    {
        self.entities.len() == 0 && self.tests.len() == 0 && self.units.len() == 0
    }
}

/// A structured finding. Diagnostics go back to the model as items, never as raw tool output,
/// and are capped.
#[derive(Debug)]
pub struct Diagnostic {
    /// Machine code where the tool gives one: "E0308", "heading-order", "overflow".
    pub code: String,
    pub message: String,
    /// Which entity it lands on, when that is knowable.
    pub entity: Option<String>,
    pub line: Option<u32>,
}

/// A finding, as the values it holds.
#[verifier::ext_equal]
pub ghost struct Finding {
    pub code: Seq<char>,
    pub message: Seq<char>,
    pub entity: Option<Seq<char>>,
    pub line: Option<u32>,
}

impl View for Diagnostic {
    type V = Finding;

    open spec fn view(&self) -> Finding {
        Finding {
            code: self.code@,
            message: self.message@,
            entity: opt_text(self.entity),
            line: self.line,
        }
    }
}

/// A finding that lands nowhere in particular.
pub open spec fn finding(code: Seq<char>, message: Seq<char>) -> Finding {
    Finding { code, message, entity: None, line: None }
}

/// A finding that lands on an entity.
pub open spec fn finding_at(code: Seq<char>, message: Seq<char>, entity: Seq<char>) -> Finding {
    Finding { code, message, entity: Some(entity), line: None }
}

/// A run of diagnostics, as the values they hold.
pub open spec fn findings(v: Seq<Diagnostic>) -> Seq<Finding> {
    v.map_values(|d: Diagnostic| d@)
}

impl Diagnostic {
    pub fn new(code: &str, message: &str) -> (r: Self)
        ensures
            r@ == finding(code@, message@),
    {
        Diagnostic { code: code.to_owned(), message: message.to_owned(), entity: None, line: None }
    }

    pub fn at_entity(self, e: &str) -> (r: Self)
        ensures
            r@ == (Finding { entity: Some(e@), ..self@ }),
    {
        Diagnostic { code: self.code, message: self.message, entity: Some(e.to_owned()), line: self.line }
    }

    pub fn at_line(self, l: u32) -> (r: Self)
        ensures
            r@ == (Finding { line: Some(l), ..self@ }),
    {
        Diagnostic { code: self.code, message: self.message, entity: self.entity, line: Some(l) }
    }
}

/// Report one more finding.
pub fn report(diags: &mut Vec<Diagnostic>, d: Diagnostic)
    ensures
        findings(final(diags)@) == findings(old(diags)@).push(d@),
{
    let ghost before = findings(diags@);
    diags.push(d);
    assert(findings(diags@) =~= before.push(d@));
}

/// How many diagnostics an outcome carries at most.
pub const MAX_DIAGNOSTICS: usize = 20;

/// The findings that fit under the cap.
pub open spec fn capped(d: Seq<Finding>) -> Seq<Finding> {
    if d.len() <= MAX_DIAGNOSTICS {
        d
    } else {
        d.take(MAX_DIAGNOSTICS as int)
    }
}

/// The cap, applied in one place so no adapter forgets it.
pub fn cap_diagnostics(d: Vec<Diagnostic>) -> (r: Vec<Diagnostic>)
    ensures
        findings(r@) == capped(findings(d@)),
{
    let mut d = d;
    let ghost all = d@;
    if d.len() > MAX_DIAGNOSTICS {
        d.truncate(MAX_DIAGNOSTICS);
        assert(findings(d@) =~= findings(all).take(MAX_DIAGNOSTICS as int));
    }
    d
}

/// What a rung found.
#[derive(Debug)]
pub struct RungOutcome {
    pub passed: bool,
    pub diagnostics: Vec<Diagnostic>,
    /// True when the rung could not run at all (toolchain missing). Distinct from failing:
    /// a rung that cannot run must not be reported as a pass, and must not be cached.
    pub unavailable: bool,
}

/// What a rung found, as the values it holds.
#[verifier::ext_equal]
pub ghost struct Outcome {
    pub passed: bool,
    pub diagnostics: Seq<Finding>,
    pub unavailable: bool,
}

impl View for RungOutcome {
    type V = Outcome;

    open spec fn view(&self) -> Outcome {
        Outcome {
            passed: self.passed,
            diagnostics: findings(self.diagnostics@),
            unavailable: self.unavailable,
        }
    }
}

impl Outcome {
    pub open spec fn pass() -> Outcome {
        Outcome { passed: true, diagnostics: Seq::empty(), unavailable: false }
    }

    pub open spec fn fail(d: Seq<Finding>) -> Outcome {
        Outcome { passed: false, diagnostics: capped(d), unavailable: false }
    }

    pub open spec fn unavailable(why: Seq<char>) -> Outcome {
        Outcome {
            passed: false,
            diagnostics: seq![finding("rung-unavailable"@, why)],
            unavailable: true,
        }
    }

    /// A pass where there is nothing to report, else a failure with what there is.
    pub open spec fn judged(d: Seq<Finding>) -> Outcome {
        if d.len() == 0 {
            Outcome::pass()
        } else {
            Outcome::fail(d)
        }
    }

    /// A pass reports nothing and did run; a report stays under the cap.
    pub open spec fn sound(self) -> bool {
        &&& self.passed ==> !self.unavailable && self.diagnostics.len() == 0
        &&& self.diagnostics.len() <= MAX_DIAGNOSTICS
    }
}

/// However a rung comes out, one that could not run is not a pass, a pass reports nothing, and a
/// report stays under the cap.
pub proof fn law_outcomes_are_sound(d: Seq<Finding>, why: Seq<char>)
    ensures
        Outcome::pass().sound(),
        Outcome::fail(d).sound(),
        Outcome::judged(d).sound(),
        Outcome::unavailable(why).sound(),
        !Outcome::unavailable(why).passed,
        !Outcome::fail(d).passed,
{
}

impl RungOutcome {
    pub fn pass() -> (r: Self)
        ensures
            r@ == Outcome::pass(),
    {
        let r = RungOutcome { passed: true, diagnostics: Vec::new(), unavailable: false };
        assert(r@ =~= Outcome::pass());
        r
    }

    pub fn fail(diagnostics: Vec<Diagnostic>) -> (r: Self)
        ensures
            r@ == Outcome::fail(findings(diagnostics@)),
    {
        RungOutcome { passed: false, diagnostics: cap_diagnostics(diagnostics), unavailable: false }
    }

    pub fn unavailable(why: &str) -> (r: Self)
        ensures
            r@ == Outcome::unavailable(why@),
    {
        let mut d: Vec<Diagnostic> = Vec::new();
        d.push(Diagnostic::new("rung-unavailable", why));
        let r = RungOutcome { passed: false, diagnostics: d, unavailable: true };
        assert(r@ =~= Outcome::unavailable(why@));
        r
    }

    /// A pass where there is nothing to report, else a failure with what there is.
    pub fn judge(diagnostics: Vec<Diagnostic>) -> (r: Self)
        ensures
            r@ == Outcome::judged(findings(diagnostics@)),
    {
        if diagnostics.len() == 0 {
            RungOutcome::pass()
        } else {
            RungOutcome::fail(diagnostics)
        }
    }

    /// A failure with a single finding.
    pub fn fail_with(d: Diagnostic) -> (r: Self)
        ensures
            r@ == Outcome::fail(seq![d@]),
    {
        let mut v: Vec<Diagnostic> = Vec::new();
        v.push(d);
        assert(findings(v@) =~= seq![d@]);
        RungOutcome::fail(v)
    }
}

/// What a rung gets to look at.
pub struct VerifyCtx<'a> {
    pub artifact: &'a Artifact,
    pub outline: &'a Outline,
    pub delta: &'a Delta,
    pub impact: &'a ImpactSet,
    /// Directory the artifact lives in, for rungs that shell out to a toolchain.
    pub workspace: Option<&'a str>,
}

/// One rung of a verify ladder.
///
/// Rungs are ordered by `level` and run cheapest first, stopping at the first failure.
/// `expected_ms` is what the engine uses to decide whether the rung is a job.
pub trait VerifyRung {
    fn name(&self) -> &str;

    fn level(&self) -> u8;

    fn expected_ms(&self) -> u64;

    /// Run once per task rather than per edit.
    fn once_per_task(&self) -> bool;

    fn check(&self, ctx: &VerifyCtx<'_>) -> RungOutcome;
}

/// What a context pack should contain.
pub struct PackRequest<'a> {
    pub artifact: &'a Artifact,
    pub outline: &'a Outline,
    /// The entity being worked on.
    pub target: &'a str,
    /// Rough character budget. Packs are deterministic, so this is a hard trim, not a ranking.
    pub budget_chars: usize,
}

/// A deterministic context pack. Same inputs, same pack, so it caches like anything else.
#[derive(Debug)]
pub struct Pack {
    /// Named sections, in a fixed order. Named so the prompt can lay them out consistently and
    /// so a diff of two packs is readable.
    pub parts: Vec<(String, String)>,
}

/// A named section of a pack.
pub type Part = (Seq<char>, Seq<char>);

impl View for Pack {
    type V = Seq<Part>;

    open spec fn view(&self) -> Seq<Part> {
        self.parts@.map_values(|p: (String, String)| (p.0@, p.1@))
    }
}

/// A pack with one more section, unless the section is blank.
pub open spec fn with_part(p: Seq<Part>, name: Seq<char>, body: Seq<char>) -> Seq<Part> {
    if trim_of(body).len() == 0 {
        p
    } else {
        p.push((name, body))
    }
}

/// The sections of a pack, each under its name.
pub open spec fn rendered(p: Seq<Part>) -> Seq<char>
    decreases p.len(),
{
    if p.len() == 0 {
        Seq::empty()
    } else {
        rendered(p.drop_last()) + "## "@ + p.last().0 + "\n"@ + trim_end_of(p.last().1) + "\n\n"@
    }
}

/// How many bytes the names and sections of a pack take.
pub open spec fn pack_size(p: Seq<Part>) -> nat
    decreases p.len(),
{
    if p.len() == 0 {
        0
    } else {
        pack_size(p.drop_last()) + byte_len(p.last().0) + byte_len(p.last().1)
    }
}

proof fn lemma_size_take(p: Seq<Part>, i: int)
    requires
        0 <= i <= p.len(),
    ensures
        pack_size(p.take(i)) <= pack_size(p),
    decreases p.len() - i,
{
    if i < p.len() {
        lemma_size_take(p, i + 1);
        assert(p.take(i + 1).drop_last() =~= p.take(i));
    } else {
        assert(p.take(i) =~= p);
    }
}

/// A pack without the sections that go over the limit, dropped from the back. The first `keep`
/// sections stay.
pub open spec fn fitted(p: Seq<Part>, limit: nat, keep: nat) -> Seq<Part>
    decreases p.len(),
{
    if p.len() > keep && pack_size(p) > limit {
        fitted(p.drop_last(), limit, keep)
    } else {
        p
    }
}

impl Default for Pack {
    fn default() -> (r: Self)
        ensures
            r@ == Seq::<Part>::empty(),
    {
        let r = Pack { parts: Vec::new() };
        assert(r@ =~= Seq::<Part>::empty());
        r
    }
}

impl Pack {
    pub fn push(&mut self, name: &str, body: &str)
        ensures
            final(self)@ == with_part(old(self)@, name@, body@),
    {
        let ghost before = self@;
        let t = trim(body);
        if !t.as_str().is_empty() {
            self.parts.push((name.to_owned(), body.to_owned()));
            assert(self@ =~= before.push((name@, body@)));
        }
    }

    pub fn render(&self) -> (r: String)
        ensures
            r@ == rendered(self@),
    {
        let mut s = String::new();
        let mut i: usize = 0;
        while i < self.parts.len()
            invariant
                i <= self.parts@.len(),
                s@ == rendered(self@.take(i as int)),
            decreases self.parts@.len() - i,
        {
            let ghost nn = self@.take(i + 1);
            assert(nn.drop_last() =~= self@.take(i as int));
            assert(nn.last() == (self.parts@[i as int].0@, self.parts@[i as int].1@));
            s.push_str("## ");
            s.push_str(self.parts[i].0.as_str());
            s.push_str("\n");
            let body = trim_end(self.parts[i].1.as_str());
            s.push_str(body.as_str());
            s.push_str("\n\n");
            i += 1;
        }
        assert(self@.take(i as int) =~= self@);
        s
    }

    pub fn chars(&self) -> (n: usize)
        requires
            pack_size(self@) <= usize::MAX,
        ensures
            n == pack_size(self@),
    {
        let mut n: usize = 0;
        let mut i: usize = 0;
        assert(self@.take(0) =~= Seq::<Part>::empty());
        while i < self.parts.len()
            invariant
                i <= self.parts@.len(),
                n == pack_size(self@.take(i as int)),
                pack_size(self@) <= usize::MAX,
            decreases self.parts@.len() - i,
        {
            let ghost nn = self@.take(i + 1);
            assert(nn.drop_last() =~= self@.take(i as int));
            assert(nn.last() == (self.parts@[i as int].0@, self.parts@[i as int].1@));
            proof {
                lemma_pack_size_grows(self@, i + 1);
            }
            n = n + len_in_bytes(self.parts[i].0.as_str()) + len_in_bytes(self.parts[i].1.as_str());
            i += 1;
        }
        assert(self@.take(i as int) =~= self@);
        n
    }

    /// Does this pack take more than `limit` bytes?
    pub fn exceeds(&self, limit: usize) -> (b: bool)
        ensures
            b == (pack_size(self@) > limit),
    {
        let mut left: usize = limit;
        let mut i: usize = 0;
        assert(self@.take(0) =~= Seq::<Part>::empty());
        while i < self.parts.len()
            invariant
                i <= self.parts@.len(),
                pack_size(self@.take(i as int)) + left == limit,
            decreases self.parts@.len() - i,
        {
            let ghost nn = self@.take(i + 1);
            assert(nn.drop_last() =~= self@.take(i as int));
            assert(nn.last() == (self.parts@[i as int].0@, self.parts@[i as int].1@));
            proof {
                lemma_pack_size_grows(self@, i + 1);
            }
            let a: usize = len_in_bytes(self.parts[i].0.as_str());
            let b: usize = len_in_bytes(self.parts[i].1.as_str());
            if a > left || b > left - a {
                return true;
            }
            left = left - a - b;
            i += 1;
        }
        assert(self@.take(i as int) =~= self@);
        false
    }

    /// Drop sections from the back until the pack fits, but never the first `keep`.
    /// How many bytes the names and sections take, where that is within a limit.
    pub fn size_within(&self, limit: usize) -> (n: usize)
        requires
            pack_size(self@) <= limit,
        ensures
            n == pack_size(self@),
    {
        let mut n: usize = 0;
        let mut i: usize = 0;
        assert(self@.take(0) =~= Seq::<Part>::empty());
        while i < self.parts.len()
            invariant
                i <= self.parts@.len(),
                n == pack_size(self@.take(i as int)),
                pack_size(self@) <= limit,
            decreases self.parts@.len() - i,
        {
            let ghost nn = self@.take(i + 1);
            proof {
                assert(nn.drop_last() =~= self@.take(i as int));
                assert(nn.last() == (self.parts@[i as int].0@, self.parts@[i as int].1@));
                lemma_size_take(self@, i + 1);
            }
            n = n + len_in_bytes(self.parts[i].0.as_str()) + len_in_bytes(
                self.parts[i].1.as_str(),
            );
            i += 1;
        }
        assert(self@.take(i as int) =~= self@);
        n
    }

    pub fn fit(&mut self, limit: usize, keep: usize)
        ensures
            final(self)@ == fitted(old(self)@, limit as nat, keep as nat),
    {
        let ghost all = self@;
        while self.parts.len() > keep && self.exceeds(limit)
            invariant
                fitted(all, limit as nat, keep as nat) == fitted(self@, limit as nat, keep as nat),
            decreases self.parts@.len(),
        {
            let ghost before = self@;
            self.parts.pop();
            assert(self@ =~= before.drop_last());
        }
    }
}

proof fn lemma_pack_size_grows(p: Seq<Part>, n: int)
    requires
        0 <= n <= p.len(),
    ensures
        pack_size(p.take(n)) <= pack_size(p),
    decreases p.len(),
{
    if n == p.len() {
        assert(p.take(n) =~= p);
    } else {
        lemma_pack_size_grows(p.drop_last(), n);
        assert(p.drop_last().take(n) =~= p.take(n));
    }
}

/// A fitted pack is a prefix of the pack that keeps at least the sections that must stay, and it
/// either fits or is down to those.
pub proof fn law_fitted_pack(p: Seq<Part>, limit: nat, keep: nat)
    ensures
        fitted(p, limit, keep).len() <= p.len(),
        fitted(p, limit, keep) == p.take(fitted(p, limit, keep).len() as int),
        p.len() >= keep ==> fitted(p, limit, keep).len() >= keep,
        fitted(p, limit, keep).len() > keep ==> pack_size(fitted(p, limit, keep)) <= limit,
    decreases p.len(),
{
    if p.len() > keep && pack_size(p) > limit {
        law_fitted_pack(p.drop_last(), limit, keep);
        let f = fitted(p, limit, keep);
        assert(p.drop_last().take(f.len() as int) =~= p.take(f.len() as int));
    } else {
        assert(p.take(p.len() as int) =~= p);
    }
}

/// What tells one kind of artifact from another.
pub trait Adapter {
    /// Does this adapter handle this path?
    spec fn covers(&self, path: Seq<char>) -> bool;

    fn name(&self) -> &'static str;

    /// Bumped whenever parsing, ops or materialization change meaning. It is hashed into every
    /// action key, so bumping it invalidates exactly this adapter's nodes and nothing else.
    fn version(&self) -> &'static str;

    /// Does this adapter handle this path?
    fn handles(&self, path: &str) -> (r: bool)
        ensures
            r == self.covers(path@),
    ;

    /// What the executor model may emit, as a json schema.
    fn op_schema(&self) -> &'static str;
}

/// Pick the adapter that handles a path: the first that does.
pub fn route<'a, A: Adapter>(adapters: &'a Vec<A>, path: &str) -> (r: Option<&'a A>)
    ensures
        r is None <==> forall|i: int|
            0 <= i < adapters@.len() ==> !(#[trigger] adapters@[i]).covers(path@),
        r matches Some(a) ==> exists|i: int|
            {
                &&& 0 <= i < adapters@.len()
                &&& *a == #[trigger] adapters@[i]
                &&& adapters@[i].covers(path@)
                &&& forall|k: int| 0 <= k < i ==> !(#[trigger] adapters@[k]).covers(path@)
            },
{
    let mut i: usize = 0;
    while i < adapters.len()
        invariant
            i <= adapters@.len(),
            forall|k: int| 0 <= k < i ==> !(#[trigger] adapters@[k]).covers(path@),
        decreases adapters@.len() - i,
    {
        if adapters[i].handles(path) {
            return Some(&adapters[i]);
        }
        i += 1;
    }
    None
}

/// Has an entity changed from one version of an artifact to the next? Its bytes decide, and where
/// either side has no range, its one-line signature does.
pub open spec fn moved(
    old_e: EntityView,
    new_e: EntityView,
    before: Seq<u8>,
    after: Seq<u8>,
) -> bool {
    if old_e.end > old_e.start && new_e.end > new_e.start {
        old_e.bytes_in(before) != new_e.bytes_in(after)
    } else {
        old_e.signature != new_e.signature
    }
}

/// The entities of `after` that `before` has too, but otherwise.
pub open spec fn changed_ids(
    before: OutlineView,
    after: Seq<EntityView>,
    old_bytes: Seq<u8>,
    new_bytes: Seq<u8>,
) -> Seq<Seq<char>>
    decreases after.len(),
{
    if after.len() == 0 {
        Seq::empty()
    } else {
        let rest = changed_ids(before, after.drop_last(), old_bytes, new_bytes);
        let e = after.last();
        match before.entity(e.id) {
            Some(o) => if moved(o, e, old_bytes, new_bytes) {
                rest.push(e.id)
            } else {
                rest
            },
            None => rest,
        }
    }
}

/// The entities of a run that an outline does not have.
pub open spec fn fresh_ids(run: Seq<EntityView>, other: OutlineView) -> Seq<Seq<char>>
    decreases run.len(),
{
    if run.len() == 0 {
        Seq::empty()
    } else {
        let rest = fresh_ids(run.drop_last(), other);
        if other.has(run.last().id) {
            rest
        } else {
            rest.push(run.last().id)
        }
    }
}

/// What changed between two versions of one artifact: an entity is changed when it exists on both
/// sides and differs, added when it is new, removed when it is gone.
pub open spec fn delta_of(
    before: OutlineView,
    after: OutlineView,
    old_bytes: Seq<u8>,
    new_bytes: Seq<u8>,
) -> DeltaView {
    DeltaView {
        changed: changed_ids(before, after.entities, old_bytes, new_bytes),
        added: fresh_ids(after.entities, before),
        removed: fresh_ids(before.entities, after),
    }
}

fn same_bytes(a: &[u8], b: &[u8]) -> (r: bool)
    ensures
        r == (a@ == b@),
{
    if a.len() != b.len() {
        return false;
    }
    let mut i: usize = 0;
    while i < a.len()
        invariant
            i <= a@.len(),
            a@.len() == b@.len(),
            forall|k: int| 0 <= k < i ==> a@[k] == b@[k],
        decreases a@.len() - i,
    {
        if a[i] != b[i] {
            assert(a@[i as int] != b@[i as int]);
            return false;
        }
        i += 1;
    }
    assert(a@ =~= b@);
    true
}

/// Do two optional strings hold the same text?
pub fn same_opt(a: &Option<String>, b: &Option<String>) -> (r: bool)
    ensures
        r == (opt_text(*a) == opt_text(*b)),
{
    match (a, b) {
        (Some(x), Some(y)) => same(x.as_str(), y.as_str()),
        (None, None) => true,
        _ => false,
    }
}

fn has_moved(old_e: &Entity, new_e: &Entity, before: &Artifact, after: &Artifact) -> (r: bool)
    ensures
        r == moved(old_e@, new_e@, before.bytes@, after.bytes@),
{
    if old_e.end > old_e.start && new_e.end > new_e.start {
        !same_bytes(old_e.slice(before), new_e.slice(after))
    } else {
        !same_opt(&old_e.signature, &new_e.signature)
    }
}

pub(crate) fn list_fresh(run: &Vec<Entity>, other: &Outline) -> (r: Vec<String>)
    ensures
        texts(r@) == fresh_ids(entity_views(run@), other@),
{
    let mut out: Vec<String> = Vec::new();
    let ghost es = entity_views(run@);
    let mut i: usize = 0;
    assert(texts(out@) =~= Seq::<Seq<char>>::empty());
    while i < run.len()
        invariant
            i <= run@.len(),
            es == entity_views(run@),
            texts(out@) == fresh_ids(es.take(i as int), other@),
        decreases run@.len() - i,
    {
        let ghost nn = es.take(i + 1);
        assert(nn.drop_last() =~= es.take(i as int));
        assert(nn.last() == run@[i as int]@);
        let ghost before = texts(out@);
        if other.get(run[i].id.as_str()).is_none() {
            out.push(run[i].id.clone());
            assert(texts(out@) =~= before.push(run@[i as int].id@));
        }
        i += 1;
    }
    assert(es.take(i as int) =~= es);
    out
}

/// What changed between two versions of one artifact, in entity terms.
pub fn delta_between(
    before: &Outline,
    after: &Outline,
    before_art: &Artifact,
    after_art: &Artifact,
) -> (r: Delta)
    ensures
        r@ == delta_of(before@, after@, before_art.bytes@, after_art.bytes@),
{
    let mut changed: Vec<String> = Vec::new();
    let ghost es = after@.entities;
    let mut i: usize = 0;
    assert(texts(changed@) =~= Seq::<Seq<char>>::empty());
    while i < after.entities.len()
        invariant
            i <= after.entities@.len(),
            es == after@.entities,
            texts(changed@) == changed_ids(
                before@,
                es.take(i as int),
                before_art.bytes@,
                after_art.bytes@,
            ),
        decreases after.entities@.len() - i,
    {
        let ghost nn = es.take(i + 1);
        assert(nn.drop_last() =~= es.take(i as int));
        assert(nn.last() == after.entities@[i as int]@);
        let ghost sofar = texts(changed@);
        let e = &after.entities[i];
        match before.get(e.id.as_str()) {
            Some(o) => {
                if has_moved(o, e, before_art, after_art) {
                    changed.push(e.id.clone());
                    assert(texts(changed@) =~= sofar.push(e.id@));
                }
            },
            None => {},
        }
        i += 1;
    }
    assert(es.take(i as int) =~= es);
    Delta {
        changed,
        added: list_fresh(&after.entities, before),
        removed: list_fresh(&before.entities, after),
    }
}

/// What changed in an artifact since it was as it was before. Where there is nothing to hold it
/// against, nothing is known to have changed.
pub open spec fn delta_from(
    before: Option<(OutlineView, Seq<u8>)>,
    after: OutlineView,
    bytes: Seq<u8>,
) -> DeltaView {
    match before {
        Some(b) => delta_of(b.0, after, b.1, bytes),
        None => DeltaView::nothing(),
    }
}

/// What changed in an artifact since it was as it was before, where that could be outlined.
pub fn delta_since(
    before: Option<(&Outline, &Artifact)>,
    after: &Outline,
    after_art: &Artifact,
) -> (r: Delta)
    ensures
        r@ == delta_from(
            match before {
                Some(b) => Some((b.0@, b.1.bytes@)),
                None => None,
            },
            after@,
            after_art.bytes@,
        ),
{
    match before {
        Some(b) => delta_between(b.0, after, b.1, after_art),
        None => Delta::default(),
    }
}

} // verus!
