//! Identities, hashing, and the vocabulary every other module speaks.
//!
//! Two identities matter and they are not the same thing:
//!
//! * [`NodeKey`] is the *logical* identity of a step in a task graph ("section:methodology"). It
//!   is stable across runs and is what duration history is keyed on.
//! * [`ActionKey`] is the *content-addressed* identity of one concrete execution: the op, the
//!   environment it runs in, and the content hashes of the outputs its inputs actually produced.
//!   It is the memo key.
//!
//! An action key can only be computed once a node's inputs have been resolved to content, which
//! is what gives early cutoff: a node that reruns and produces byte-identical output leaves every
//! downstream action key unchanged.

use vstd::bytes::lemma_auto_spec_u64_to_from_le_bytes;
use vstd::bytes::spec_u64_from_le_bytes;
use vstd::bytes::spec_u64_to_le_bytes;
use vstd::prelude::*;
use vstd::utf8::encode_utf8;
use vstd::utf8::encode_utf8_decode_utf8;

verus! {

/// The 32 bytes that blake3 gives for these bytes.
pub uninterp spec fn blake3_of(bytes: Seq<u8>) -> Seq<u8>;

/// `blake3::hash`: the digest is a function of the bytes alone.
#[verifier::external_body]
fn blake3_hash(bytes: &[u8]) -> (r: [u8; 32])
    ensures
        r@ == blake3_of(bytes@),
{
    *blake3::hash(bytes).as_bytes()
}

/// A 32-byte blake3 digest of some content.
#[derive(Clone, Copy, Eq, Hash, PartialOrd, Ord, Debug)]
pub struct Digest([u8; 32]);

impl PartialEq for Digest {
    fn eq(&self, other: &Self) -> (r: bool) {
        let mut i: usize = 0;
        while i < 32
            invariant
                i <= 32,
                forall|k: int| 0 <= k < i ==> self.0@[k] == #[trigger] other.0@[k],
            decreases 32 - i,
        {
            if self.0[i] != other.0[i] {
                assert(self@[i as int] != other@[i as int]);
                return false;
            }
            i += 1;
        }
        assert(self.0@ =~= other.0@);
        true
    }
}

impl vstd::std_specs::cmp::PartialEqSpecImpl for Digest {
    open spec fn obeys_eq_spec() -> bool {
        true
    }

    open spec fn eq_spec(&self, other: &Self) -> bool {
        self@ == other@
    }
}

impl View for Digest {
    type V = Seq<u8>;

    closed spec fn view(&self) -> Seq<u8> {
        self.0@
    }
}

/// The digest that a text writes in hex.
pub open spec fn digest_in(text: Seq<char>) -> Option<Seq<u8>> {
    if encode_utf8(text).len() == 64 {
        hex_value(encode_utf8(text))
    } else {
        None
    }
}

/// A digest is 32 bytes.
pub proof fn lemma_digest_len(d: Digest)
    ensures
        d@.len() == 32,
{
}

/// A digest is its bytes.
pub broadcast proof fn lemma_digest_is_its_bytes(a: Digest, b: Digest)
    requires
        #[trigger] a@ == #[trigger] b@,
    ensures
        a == b,
{
    assert(a.0 =~= b.0) by {
        assert forall|i: int| 0 <= i < 32 implies a.0[i] == b.0[i] by {
            assert(a@[i] == b@[i]);
        }
    }
}

impl Digest {
    /// The digest of some bytes.
    pub fn of(bytes: &[u8]) -> (r: Self)
        ensures
            r@ == blake3_of(bytes@),
    {
        Digest(blake3_hash(bytes))
    }

    pub fn from_bytes(b: [u8; 32]) -> (r: Self)
        ensures
            r@ == b@,
    {
        Digest(b)
    }

    pub fn as_bytes(&self) -> (r: &[u8; 32])
        ensures
            r@ == self@,
    {
        &self.0
    }

    /// The digest in lowercase hex.
    pub fn hex(&self) -> (r: String)
        ensures
            r@ == hex_of(self@),
    {
        hex_encode(self.as_bytes())
    }

    /// First 12 hex chars. Enough to read in a log line, never used as an identity.
    pub fn short(&self) -> (r: String)
        ensures
            r@ == hex_of(self@).take(12),
    {
        let h = self.hex();
        let v = crate::text::to_chars(h.as_str());
        proof {
            lemma_hex_len(self@);
        }
        crate::text::from_chars(vstd::slice::slice_subrange(v.as_slice(), 0, 12))
    }

    /// Reads a digest back from 64 hex digits, in either case.
    pub fn from_hex(s: &str) -> (r: Option<Self>)
        ensures
            match r {
                Some(d) => encode_utf8(s@).len() == 64 && hex_value(encode_utf8(s@)) == Some(d@),
                None => encode_utf8(s@).len() != 64 || hex_value(encode_utf8(s@)) is None,
            },
    {
        if s.as_bytes().len() != 64 {
            return None;
        }
        match hex_decode(s) {
            None => None,
            Some(v) => {
                let mut b: [u8; 32] = [0u8; 32];
                let mut i: usize = 0;
                while i < 32
                    invariant
                        i <= 32,
                        v@.len() == 32,
                        forall|k: int| 0 <= k < i ==> b@[k] == #[trigger] v@[k],
                    decreases 32 - i,
                {
                    b[i] = v[i];
                    i += 1;
                }
                assert(b@ =~= v@);
                Some(Digest(b))
            },
        }
    }
}

/// The lowercase hex digit for a value under sixteen.
pub open spec fn hex_digit(n: nat) -> char {
    if n < 10 {
        (('0' as nat) + n) as char
    } else {
        (('a' as nat) + n - 10) as char
    }
}

/// Two hex digits per byte, high half first.
pub open spec fn hex_of(b: Seq<u8>) -> Seq<char>
    decreases b.len(),
{
    if b.len() == 0 {
        Seq::empty()
    } else {
        hex_of(b.drop_last()) + seq![
            hex_digit(b.last() as nat / 16),
            hex_digit(b.last() as nat % 16),
        ]
    }
}

/// The value of one hex digit, in either case.
pub open spec fn digit_value(c: u8) -> Option<nat> {
    if 48 <= c <= 57 {
        Some((c - 48) as nat)
    } else if 97 <= c <= 102 {
        Some((c - 97 + 10) as nat)
    } else if 65 <= c <= 70 {
        Some((c - 65 + 10) as nat)
    } else {
        None
    }
}

/// The bytes that a run of hex digits writes; nothing if the run has odd length or holds
/// something that is not a hex digit.
pub open spec fn hex_value(s: Seq<u8>) -> Option<Seq<u8>> {
    if s.len() % 2 == 0 && forall|i: int| 0 <= i < s.len() ==> digit_value(#[trigger] s[i]) is Some {
        Some(
            Seq::new(
                s.len() / 2,
                |i: int| (16 * digit_value(s[2 * i])->0 + digit_value(s[2 * i + 1])->0) as u8,
            ),
        )
    } else {
        None
    }
}

/// Hex has two digits for each byte.
pub proof fn lemma_hex_len(b: Seq<u8>)
    ensures
        hex_of(b).len() == 2 * b.len(),
    decreases b.len(),
{
    if b.len() > 0 {
        lemma_hex_len(b.drop_last());
    }
}

/// The digits of one byte.
pub proof fn lemma_hex_chars(b: Seq<u8>, i: int)
    requires
        0 <= i < b.len(),
    ensures
        hex_of(b).len() == 2 * b.len(),
        hex_of(b)[2 * i] == hex_digit(b[i] as nat / 16),
        hex_of(b)[2 * i + 1] == hex_digit(b[i] as nat % 16),
    decreases b.len(),
{
    lemma_hex_len(b);
    lemma_hex_len(b.drop_last());
    if i < b.len() - 1 {
        lemma_hex_chars(b.drop_last(), i);
    }
}

/// What is written in hex reads back as it was.
pub proof fn law_hex_round_trip(b: Seq<u8>)
    ensures
        hex_value(encode_utf8(hex_of(b))) == Some(b),
{
    let h = hex_of(b);
    lemma_hex_len(b);
    assert forall|i: int| 0 <= i < h.len() implies '\0' <= #[trigger] h[i] <= '\u{7f}' by {
        lemma_hex_chars(b, i / 2);
    }
    assert(vstd::utf8::is_ascii_chars(h));
    vstd::utf8::is_ascii_chars_encode_utf8(h);
    let e = encode_utf8(h);
    assert(e =~= Seq::new(h.len(), |i: int| h[i] as u8));
    assert forall|i: int| 0 <= i < e.len() implies digit_value(#[trigger] e[i]) is Some by {
        lemma_hex_chars(b, i / 2);
    }
    let v = hex_value(e)->0;
    assert forall|i: int| 0 <= i < b.len() implies v[i] == b[i] by {
        lemma_hex_chars(b, i);
        assert(e[2 * i] == h[2 * i] as u8);
        assert(e[2 * i + 1] == h[2 * i + 1] as u8);
    }
    assert(v =~= b);
}

fn hex_char(n: u8) -> (c: char)
    requires
        n < 16,
    ensures
        c == hex_digit(n as nat),
{
    if n < 10 {
        (48u8 + n) as char
    } else {
        (87u8 + n) as char
    }
}

/// Lowercase hex. Used to carry opaque op payloads through json without ballooning them into
/// arrays of integers.
pub fn hex_encode(bytes: &[u8]) -> (r: String)
    ensures
        r@ == hex_of(bytes@),
{
    let mut out = String::new();
    let mut i: usize = 0;
    while i < bytes.len()
        invariant
            i <= bytes@.len(),
            out@ == hex_of(bytes@.take(i as int)),
        decreases bytes@.len() - i,
    {
        let b: u8 = bytes[i];
        assert(bytes@.take(i + 1).drop_last() =~= bytes@.take(i as int));
        let ghost start = out@;
        out.push(hex_char(b / 16));
        out.push(hex_char(b % 16));
        assert(out@ =~= start + seq![hex_digit(b as nat / 16), hex_digit(b as nat % 16)]);
        i += 1;
    }
    assert(bytes@.take(bytes@.len() as int) =~= bytes@);
    out
}

fn nibble(c: u8) -> (r: Option<u8>)
    ensures
        match r {
            Some(n) => n < 16 && digit_value(c) == Some(n as nat),
            None => digit_value(c) is None,
        },
{
    if 48 <= c && c <= 57 {
        Some(c - 48)
    } else if 97 <= c && c <= 102 {
        Some(c - 87)
    } else if 65 <= c && c <= 70 {
        Some(c - 55)
    } else {
        None
    }
}

/// The bytes that a hex string writes, or nothing if it is not one.
pub fn hex_decode(s: &str) -> (r: Option<Vec<u8>>)
    ensures
        match r {
            Some(v) => hex_value(encode_utf8(s@)) == Some(v@),
            None => hex_value(encode_utf8(s@)) is None,
        },
{
    let b = s.as_bytes();
    if b.len() % 2 != 0 {
        return None;
    }
    let mut out: Vec<u8> = Vec::new();
    let mut i: usize = 0;
    while i < b.len()
        invariant
            b@ == encode_utf8(s@),
            b@.len() % 2 == 0,
            i % 2 == 0,
            i <= b.len(),
            out@.len() == i / 2,
            forall|k: int| 0 <= k < i ==> digit_value(#[trigger] b@[k]) is Some,
            forall|k: int|
                0 <= k < i / 2 ==> #[trigger] out@[k] == (16 * digit_value(b@[2 * k])->0 + digit_value(
                    b@[2 * k + 1],
                )->0) as u8,
        decreases b@.len() - i,
    {
        let hi: u8 = match nibble(b[i]) {
            Some(n) => n,
            None => {
                return None;
            },
        };
        let lo: u8 = match nibble(b[i + 1]) {
            Some(n) => n,
            None => {
                return None;
            },
        };
        out.push(hi * 16 + lo);
        i += 2;
    }
    assert(out@ =~= hex_value(b@)->0);
    Some(out)
}

/// A length in the eight bytes that frame a field.
pub open spec fn frame(b: Seq<u8>) -> Seq<u8> {
    spec_u64_to_le_bytes(b.len() as u64) + b
}

/// A run of fields, each framed with its length.
pub open spec fn frames(fields: Seq<Seq<u8>>) -> Seq<u8>
    decreases fields.len(),
{
    if fields.len() == 0 {
        Seq::empty()
    } else {
        frames(fields.drop_last()) + frame(fields.last())
    }
}

/// Domain-separated, length-prefixed hasher.
///
/// Every field is framed with its length so that `("ab", "c")` and `("a", "bc")` cannot collide.
/// A collision here is cache poisoning, so the framing is not optional.
pub struct Hasher {
    fed: Vec<u8>,
}

impl View for Hasher {
    type V = Seq<u8>;

    /// Everything that has been fed in, framed.
    closed spec fn view(&self) -> Seq<u8> {
        self.fed@
    }
}

fn extend(v: &mut Vec<u8>, b: &[u8])
    ensures
        final(v)@ == old(v)@ + b@,
{
    let ghost start = v@;
    v.extend_from_slice(b);
    assert(v@ =~= start + b@);
}

impl Hasher {
    pub fn new(domain: &str) -> (r: Self)
        ensures
            r@ == frame(encode_utf8(domain@)),
    {
        let mut h = Hasher { fed: Vec::new() };
        h.bytes(domain.as_bytes());
        assert(h@ =~= frame(encode_utf8(domain@)));
        h
    }

    pub fn bytes(&mut self, b: &[u8]) -> (r: &mut Self)
        ensures
            r@ == old(self)@ + frame(b@),
            *final(self) == *final(r),
    {
        let ghost start = self.fed@;
        let len = vstd::bytes::u64_to_le_bytes(b.len() as u64);
        extend(&mut self.fed, len.as_slice());
        extend(&mut self.fed, b);
        assert(self.fed@ =~= start + frame(b@));
        self
    }

    pub fn str(&mut self, s: &str) -> (r: &mut Self)
        ensures
            r@ == old(self)@ + frame(encode_utf8(s@)),
            *final(self) == *final(r),
    {
        self.bytes(s.as_bytes())
    }

    pub fn digest(&mut self, d: &Digest) -> (r: &mut Self)
        ensures
            r@ == old(self)@ + frame(d@),
            *final(self) == *final(r),
    {
        self.bytes(d.as_bytes())
    }

    pub fn u64(&mut self, v: u64) -> (r: &mut Self)
        ensures
            r@ == old(self)@ + frame(spec_u64_to_le_bytes(v)),
            *final(self) == *final(r),
    {
        let b = vstd::bytes::u64_to_le_bytes(v);
        self.bytes(b.as_slice())
    }

    pub fn finish(&self) -> (r: Digest)
        ensures
            r@ == blake3_of(self@),
    {
        Digest::of(self.fed.as_slice())
    }
}

proof fn lemma_frames_front(fields: Seq<Seq<u8>>)
    requires
        fields.len() > 0,
    ensures
        frames(fields) == frame(fields[0]) + frames(fields.skip(1)),
    decreases fields.len(),
{
    if fields.len() == 1 {
        assert(fields.drop_last() =~= Seq::empty());
        assert(fields.skip(1) =~= Seq::empty());
        assert(frames(fields) =~= frame(fields[0]) + frames(fields.skip(1)));
    } else {
        lemma_frames_front(fields.drop_last());
        assert(fields.drop_last().skip(1) =~= fields.skip(1).drop_last());
        assert(frames(fields) =~= frame(fields[0]) + frames(fields.skip(1)));
    }
}

/// Framed fields cannot collide: what is fed to the hash determines the fields, one by one.
pub proof fn law_framing_is_injective(a: Seq<Seq<u8>>, b: Seq<Seq<u8>>)
    requires
        frames(a) == frames(b),
        forall|i: int| 0 <= i < a.len() ==> #[trigger] a[i].len() <= u64::MAX,
        forall|i: int| 0 <= i < b.len() ==> #[trigger] b[i].len() <= u64::MAX,
    ensures
        a == b,
    decreases a.len(),
{
    lemma_auto_spec_u64_to_from_le_bytes();
    if a.len() == 0 || b.len() == 0 {
        if a.len() > 0 {
            lemma_frames_front(a);
            assert(frames(a).len() >= 8);
        }
        if b.len() > 0 {
            lemma_frames_front(b);
            assert(frames(b).len() >= 8);
        }
        assert(a =~= b);
    } else {
        lemma_frames_front(a);
        lemma_frames_front(b);
        let x = a[0];
        let y = b[0];
        let lx = spec_u64_to_le_bytes(x.len() as u64);
        let ly = spec_u64_to_le_bytes(y.len() as u64);
        let fa = frames(a);
        let fb = frames(b);
        assert(fa.take(8) =~= lx);
        assert(fb.take(8) =~= ly);
        assert(x.len() as u64 == spec_u64_from_le_bytes(lx));
        assert(x.len() == y.len());
        assert(fa.subrange(8, 8 + x.len() as int) =~= x);
        assert(fb.subrange(8, 8 + y.len() as int) =~= y);
        assert(fa.skip(8 + x.len() as int) =~= frames(a.skip(1)));
        assert(fb.skip(8 + y.len() as int) =~= frames(b.skip(1)));
        assert forall|i: int| 0 <= i < a.skip(1).len() implies #[trigger] a.skip(1)[i].len()
            <= u64::MAX by {
            assert(a.skip(1)[i] == a[i + 1]);
        }
        assert forall|i: int| 0 <= i < b.skip(1).len() implies #[trigger] b.skip(1)[i].len()
            <= u64::MAX by {
            assert(b.skip(1)[i] == b[i + 1]);
        }
        law_framing_is_injective(a.skip(1), b.skip(1));
        assert(a =~= seq![x] + a.skip(1));
        assert(b =~= seq![y] + b.skip(1));
    }
}

/// Stable logical identity of a node within a task graph.
#[derive(PartialEq, Eq, Hash, PartialOrd, Ord, Debug)]
pub struct NodeKey(pub String);

impl View for NodeKey {
    type V = Seq<char>;

    open spec fn view(&self) -> Seq<char> {
        self.0@
    }
}

impl Clone for NodeKey {
    fn clone(&self) -> (r: Self)
        ensures
            r == *self,
    {
        NodeKey(self.0.clone())
    }
}

impl NodeKey {
    pub fn new(s: &str) -> (r: Self)
        ensures
            r@ == s@,
    {
        NodeKey(s.to_owned())
    }

    pub fn as_str(&self) -> (r: &str)
        ensures
            r@ == self@,
    {
        self.0.as_str()
    }

    /// Digest of the logical key, used to shard duration history on disk.
    pub fn digest(&self) -> (r: Digest)
        ensures
            r@ == blake3_of(encode_utf8(self@)),
    {
        Digest::of(self.0.as_str().as_bytes())
    }
}

/// Content-addressed identity of one execution. The memo key.
#[derive(Clone, Copy, Eq, Hash, PartialOrd, Ord, Debug)]
pub struct ActionKey(pub Digest);

impl PartialEq for ActionKey {
    fn eq(&self, other: &Self) -> (r: bool) {
        self.0 == other.0
    }
}

impl vstd::std_specs::cmp::PartialEqSpecImpl for ActionKey {
    open spec fn obeys_eq_spec() -> bool {
        true
    }

    open spec fn eq_spec(&self, other: &Self) -> bool {
        self.0@ == other.0@
    }
}

/// What kind of work a node does. Drives the job threshold and the concurrency lane.
#[derive(Clone, Copy, PartialEq, Eq, Hash, Debug, Structural)]
pub enum NodeKind {
    /// Planner call: reads a pack, emits a subgraph.
    Plan,
    /// Deterministic context pack assembly.
    Context,
    /// Deterministic data transform (parse a csv, summarize a table).
    Data,
    /// Executor call: emits ops, which a materializer applies.
    Op,
    /// A verify rung.
    Verify,
    /// A render or export (docx to pdf, pptx, xlsx).
    Render,
    /// A build or other long external process.
    Build,
}

/// The word for a kind of work.
pub open spec fn kind_word(k: NodeKind) -> Seq<char> {
    match k {
        NodeKind::Plan => "plan"@,
        NodeKind::Context => "context"@,
        NodeKind::Data => "data"@,
        NodeKind::Op => "op"@,
        NodeKind::Verify => "verify"@,
        NodeKind::Render => "render"@,
        NodeKind::Build => "build"@,
    }
}

impl NodeKind {
    /// Kinds that are jobs regardless of what history says.
    pub fn is_inherently_slow(&self) -> (r: bool)
        ensures
            r == (*self is Render || *self is Build),
    {
        matches!(self, NodeKind::Render | NodeKind::Build)
    }

    pub fn as_str(&self) -> (r: &'static str)
        ensures
            r@ == kind_word(*self),
    {
        match self {
            NodeKind::Plan => "plan",
            NodeKind::Context => "context",
            NodeKind::Data => "data",
            NodeKind::Op => "op",
            NodeKind::Verify => "verify",
            NodeKind::Render => "render",
            NodeKind::Build => "build",
        }
    }
}

/// No two kinds share a word.
pub proof fn lemma_kind_words_differ(a: NodeKind, b: NodeKind)
    requires
        kind_word(a) == kind_word(b),
    ensures
        a == b,
{
    reveal_strlit("plan");
    reveal_strlit("context");
    reveal_strlit("data");
    reveal_strlit("op");
    reveal_strlit("verify");
    reveal_strlit("render");
    reveal_strlit("build");
    assert("plan"@[0] == 'p');
    assert("context"@[0] == 'c');
    assert("data"@[0] == 'd');
    assert("op"@[0] == 'o');
    assert("verify"@[0] == 'v');
    assert("render"@[0] == 'r');
    assert("build"@[0] == 'b');
}

/// A resource class. Concurrency is capped per lane so cpu-heavy work cannot starve the box.
#[derive(PartialEq, Eq, Hash, Debug)]
pub struct Lane(pub String);

impl View for Lane {
    type V = Seq<char>;

    open spec fn view(&self) -> Seq<char> {
        self.0@
    }
}

impl Clone for Lane {
    fn clone(&self) -> (r: Self)
        ensures
            r == *self,
    {
        Lane(self.0.clone())
    }
}

impl Lane {
    pub fn new(s: &str) -> (r: Self)
        ensures
            r@ == s@,
    {
        Lane(s.to_owned())
    }

    /// Network-bound model calls. Cheap to run many at once.
    pub fn model() -> (r: Self)
        ensures
            r@ == "model"@,
    {
        Lane::new("model")
    }

    /// Cpu-bound local work. Capped near core count.
    pub fn cpu() -> (r: Self)
        ensures
            r@ == "cpu"@,
    {
        Lane::new("cpu")
    }

    pub fn as_str(&self) -> (r: &str)
        ensures
            r@ == self@,
    {
        self.0.as_str()
    }
}

/// Everything outside the op itself that can change an answer.
///
/// `prompt_version` is a hash of the prompt template, so bumping one prompt invalidates exactly
/// the nodes that used it and nothing else.
#[derive(PartialEq, Eq, Hash, Debug)]
pub struct Env {
    pub model_id: String,
    pub prompt_version: String,
    pub adapter_version: String,
}

impl Clone for Env {
    fn clone(&self) -> (r: Self)
        ensures
            r == *self,
    {
        Env {
            model_id: self.model_id.clone(),
            prompt_version: self.prompt_version.clone(),
            adapter_version: self.adapter_version.clone(),
        }
    }
}

impl Env {
    pub fn new(model_id: &str, prompt_version: &str, adapter_version: &str) -> (r: Self)
        ensures
            r.model_id@ == model_id@,
            r.prompt_version@ == prompt_version@,
            r.adapter_version@ == adapter_version@,
    {
        Env {
            model_id: model_id.to_owned(),
            prompt_version: prompt_version.to_owned(),
            adapter_version: adapter_version.to_owned(),
        }
    }

    /// Environment for nodes that never call a model: deterministic local work.
    pub fn deterministic(adapter_version: &str) -> (r: Self)
        ensures
            r.model_id@ == "-"@,
            r.prompt_version@ == "-"@,
            r.adapter_version@ == adapter_version@,
    {
        Env::new("-", "-", adapter_version)
    }
}

/// The bytes of each of a run of digests.
pub open spec fn digest_bytes(inputs: Seq<Digest>) -> Seq<Seq<u8>> {
    inputs.map_values(|d: Digest| d@)
}

/// Everything that identifies one execution, field by field: the kind, the op, the environment,
/// how many inputs there are, and the inputs in declared order.
pub open spec fn action_fields(
    kind: NodeKind,
    op: Seq<u8>,
    env: Env,
    inputs: Seq<Digest>,
) -> Seq<Seq<u8>> {
    seq![
        encode_utf8("flash.action.v1"@),
        encode_utf8(kind_word(kind)),
        op,
        encode_utf8(env.model_id@),
        encode_utf8(env.prompt_version@),
        encode_utf8(env.adapter_version@),
        spec_u64_to_le_bytes(inputs.len() as u64),
    ] + digest_bytes(inputs)
}

pub(crate) proof fn lemma_frames_push(fields: Seq<Seq<u8>>, f: Seq<u8>)
    ensures
        frames(fields.push(f)) == frames(fields) + frame(f),
{
    assert(fields.push(f).drop_last() =~= fields);
}

/// Compute the action key for one execution.
///
/// `inputs` are the content hashes the node's dependencies actually produced, in declared
/// dependency order. Order is semantic: swapping two inputs is a different action.
pub fn action_key(kind: NodeKind, op: &[u8], env: &Env, inputs: &[Digest]) -> (r: ActionKey)
    ensures
        r.0@ == blake3_of(frames(action_fields(kind, op@, *env, inputs@))),
{
    let ghost fields = action_fields(kind, op@, *env, inputs@);
    let mut h = Hasher::new("flash.action.v1");
    proof {
        assert(frames(fields.take(0)) =~= Seq::empty());
        lemma_frames_push(fields.take(0), fields[0]);
        assert(fields.take(0).push(fields[0]) =~= fields.take(1));
        assert(h@ =~= frames(fields.take(1)));
        lemma_frames_push(fields.take(1), fields[1]);
        assert(fields.take(1).push(fields[1]) =~= fields.take(2));
        lemma_frames_push(fields.take(2), fields[2]);
        assert(fields.take(2).push(fields[2]) =~= fields.take(3));
        lemma_frames_push(fields.take(3), fields[3]);
        assert(fields.take(3).push(fields[3]) =~= fields.take(4));
        lemma_frames_push(fields.take(4), fields[4]);
        assert(fields.take(4).push(fields[4]) =~= fields.take(5));
        lemma_frames_push(fields.take(5), fields[5]);
        assert(fields.take(5).push(fields[5]) =~= fields.take(6));
        lemma_frames_push(fields.take(6), fields[6]);
        assert(fields.take(6).push(fields[6]) =~= fields.take(7));
    }
    h.str(kind.as_str());
    h.bytes(op);
    h.str(env.model_id.as_str());
    h.str(env.prompt_version.as_str());
    h.str(env.adapter_version.as_str());
    h.u64(inputs.len() as u64);
    let mut i: usize = 0;
    while i < inputs.len()
        invariant
            i <= inputs@.len(),
            fields == action_fields(kind, op@, *env, inputs@),
            h@ == frames(fields.take(7 + i)),
        decreases inputs@.len() - i,
    {
        h.digest(&inputs[i]);
        proof {
            assert(fields[7 + i] == inputs@[i as int]@);
            lemma_frames_push(fields.take(7 + i), fields[7 + i]);
            assert(fields.take(7 + i).push(fields[7 + i]) =~= fields.take(7 + i + 1));
        }
        i += 1;
    }
    assert(fields.take(7 + i) =~= fields);
    ActionKey(h.finish())
}

pub proof fn lemma_encode_injective(a: Seq<char>, b: Seq<char>)
    requires
        encode_utf8(a) == encode_utf8(b),
    ensures
        a == b,
{
    encode_utf8_decode_utf8(a);
    encode_utf8_decode_utf8(b);
}

/// Two executions that feed the same bytes to the hash are the same execution: same kind of work,
/// same op, same model, prompt and adapter version, and the same inputs in the same order. So a
/// bumped prompt version or two swapped inputs always hash something else.
pub proof fn law_action_covers_everything(
    kind1: NodeKind,
    op1: Seq<u8>,
    env1: Env,
    inputs1: Seq<Digest>,
    kind2: NodeKind,
    op2: Seq<u8>,
    env2: Env,
    inputs2: Seq<Digest>,
)
    requires
        frames(action_fields(kind1, op1, env1, inputs1)) == frames(
            action_fields(kind2, op2, env2, inputs2),
        ),
        forall|i: int|
            0 <= i < action_fields(kind1, op1, env1, inputs1).len() ==> #[trigger] action_fields(
                kind1,
                op1,
                env1,
                inputs1,
            )[i].len() <= u64::MAX,
        forall|i: int|
            0 <= i < action_fields(kind2, op2, env2, inputs2).len() ==> #[trigger] action_fields(
                kind2,
                op2,
                env2,
                inputs2,
            )[i].len() <= u64::MAX,
    ensures
        kind1 == kind2,
        op1 == op2,
        env1.model_id@ == env2.model_id@,
        env1.prompt_version@ == env2.prompt_version@,
        env1.adapter_version@ == env2.adapter_version@,
        inputs1 == inputs2,
{
    let a = action_fields(kind1, op1, env1, inputs1);
    let b = action_fields(kind2, op2, env2, inputs2);
    law_framing_is_injective(a, b);
    assert(a[1] == b[1] && a[2] == b[2] && a[3] == b[3] && a[4] == b[4] && a[5] == b[5]);
    lemma_encode_injective(kind_word(kind1), kind_word(kind2));
    lemma_kind_words_differ(kind1, kind2);
    lemma_encode_injective(env1.model_id@, env2.model_id@);
    lemma_encode_injective(env1.prompt_version@, env2.prompt_version@);
    lemma_encode_injective(env1.adapter_version@, env2.adapter_version@);
    assert(inputs1.len() == inputs2.len());
    assert forall|i: int| 0 <= i < inputs1.len() implies inputs1[i] == inputs2[i] by {
        assert(a[7 + i] == inputs1[i]@);
        assert(b[7 + i] == inputs2[i]@);
        lemma_digest_is_its_bytes(inputs1[i], inputs2[i]);
    }
    assert(inputs1 =~= inputs2);
}

/// Did a node's ladder pass?
///
/// This gates memoization. A failed node is never written to the memo store: caching a wrong
/// answer would freeze one bad sample forever, and under a shared team cache it would spread.
#[derive(Clone, Copy, PartialEq, Eq, Debug, Structural)]
pub enum Verdict {
    Pass,
    Fail,
}

impl Verdict {
    pub fn passed(&self) -> (r: bool)
        ensures
            r == (*self is Pass),
    {
        matches!(self, Verdict::Pass)
    }
}

/// Where the wall clock went inside one node. This is the unit the benchmark aggregates.
#[derive(Clone, Copy, PartialEq, Eq, Debug, Structural)]
pub struct Attribution {
    pub decode_ms: u64,
    pub verify_ms: u64,
    pub apply_ms: u64,
    pub render_ms: u64,
    pub wait_ms: u64,
}

impl Default for Attribution {
    fn default() -> (r: Self)
        ensures
            r == Attribution::nothing(),
    {
        Attribution { decode_ms: 0, verify_ms: 0, apply_ms: 0, render_ms: 0, wait_ms: 0 }
    }
}

impl Attribution {
    /// No time at all.
    pub open spec fn nothing() -> Attribution {
        Attribution { decode_ms: 0, verify_ms: 0, apply_ms: 0, render_ms: 0, wait_ms: 0 }
    }

    /// Every kind of time added up.
    pub open spec fn total(self) -> int {
        self.decode_ms + self.verify_ms + self.apply_ms + self.render_ms + self.wait_ms
    }

    /// Can the two be added, kind by kind, within 64 bits?
    pub open spec fn fits(self, other: Attribution) -> bool {
        &&& self.decode_ms + other.decode_ms <= u64::MAX
        &&& self.verify_ms + other.verify_ms <= u64::MAX
        &&& self.apply_ms + other.apply_ms <= u64::MAX
        &&& self.render_ms + other.render_ms <= u64::MAX
        &&& self.wait_ms + other.wait_ms <= u64::MAX
    }

    /// The two added, kind by kind.
    pub open spec fn plus(self, other: Attribution) -> Attribution {
        Attribution {
            decode_ms: (self.decode_ms + other.decode_ms) as u64,
            verify_ms: (self.verify_ms + other.verify_ms) as u64,
            apply_ms: (self.apply_ms + other.apply_ms) as u64,
            render_ms: (self.render_ms + other.render_ms) as u64,
            wait_ms: (self.wait_ms + other.wait_ms) as u64,
        }
    }

    pub fn total_ms(&self) -> (r: u64)
        requires
            self.total() <= u64::MAX,
        ensures
            r == self.total(),
    {
        self.decode_ms + self.verify_ms + self.apply_ms + self.render_ms + self.wait_ms
    }

    /// Can `other` be merged without running past 64 bits?
    pub fn can_merge(&self, other: &Attribution) -> (r: bool)
        ensures
            r == self.fits(*other),
    {
        self.decode_ms <= u64::MAX - other.decode_ms && self.verify_ms <= u64::MAX - other.verify_ms
            && self.apply_ms <= u64::MAX - other.apply_ms && self.render_ms <= u64::MAX
            - other.render_ms && self.wait_ms <= u64::MAX - other.wait_ms
    }

    pub fn merge(&mut self, other: &Attribution)
        requires
            old(self).fits(*other),
        ensures
            *final(self) == old(self).plus(*other),
    {
        self.decode_ms = self.decode_ms + other.decode_ms;
        self.verify_ms = self.verify_ms + other.verify_ms;
        self.apply_ms = self.apply_ms + other.apply_ms;
        self.render_ms = self.render_ms + other.render_ms;
        self.wait_ms = self.wait_ms + other.wait_ms;
    }
}

/// What a node produced.
#[derive(Clone, Debug)]
pub struct NodeOutput {
    /// Content hashes of the artifacts this node produced, in a stable order.
    pub outputs: Vec<Digest>,
    pub verdict: Verdict,
    pub attribution: Attribution,
    /// Structured diagnostics, capped at 20 by convention. Never raw tool output.
    pub diagnostics: Vec<String>,
}

impl NodeOutput {
    pub fn pass(outputs: Vec<Digest>) -> (r: Self)
        ensures
            r.outputs == outputs,
            r.verdict is Pass,
            r.attribution == Attribution::nothing(),
            r.diagnostics@.len() == 0,
    {
        NodeOutput {
            outputs,
            verdict: Verdict::Pass,
            attribution: Attribution::default(),
            diagnostics: Vec::new(),
        }
    }

    pub fn fail(diagnostics: Vec<String>) -> (r: Self)
        ensures
            r.outputs@.len() == 0,
            r.verdict is Fail,
            r.attribution == Attribution::nothing(),
            r.diagnostics == diagnostics,
    {
        NodeOutput {
            outputs: Vec::new(),
            verdict: Verdict::Fail,
            attribution: Attribution::default(),
            diagnostics,
        }
    }

    pub fn with_attribution(self, a: Attribution) -> (r: Self)
        ensures
            r == (NodeOutput { attribution: a, ..self }),
    {
        NodeOutput {
            outputs: self.outputs,
            verdict: self.verdict,
            attribution: a,
            diagnostics: self.diagnostics,
        }
    }
}

/// A digest comes back from its hex.
pub proof fn lemma_digest_back(content: Seq<u8>)
    requires
        content.len() == 32,
    ensures
        digest_in(hex_of(content)) == Some(content),
{
    law_hex_round_trip(content);
}

} // verus!
