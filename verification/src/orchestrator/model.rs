//! Models: what a call is, what a reply is, and two models that need no network.
//!
//! A client's whole contract is "here is a prompt and a json schema, give me json back".

use crate::identity::blake3_of;
use crate::identity::frames;
use crate::identity::law_framing_is_injective;
use crate::identity::lemma_encode_injective;
use crate::identity::Digest;
use crate::identity::Hasher;
use crate::json::as_whole;
use crate::json::compact;
use crate::json::compacted;
use crate::json::get;
use crate::json::held;
use crate::json::json_of;
use crate::json::parse;
use crate::json::text_of_key;
use crate::json::Json;
use crate::maps::NameMap;
use crate::text::contains;
use crate::text::from_chars;
use crate::text::has_text;
use crate::text::lines;
use crate::text::lines_of;
use crate::text::texts;
use crate::text::to_chars;
use crate::text::trim;
use crate::text::trim_of;
use crate::utf8::byte_len;
use vstd::bytes::spec_u64_to_le_bytes;
use vstd::prelude::*;
use vstd::utf8::encode_utf8;

verus! {

/// Why a model gave no answer.
pub enum ModelError {
    Call(String),
    NotJson(String),
    NoRecording,
}

/// What an error says.
#[verifier::ext_equal]
pub ghost enum ModelFault {
    Call(Seq<char>),
    NotJson(Seq<char>),
    NoRecording,
}

impl View for ModelError {
    type V = ModelFault;

    open spec fn view(&self) -> ModelFault {
        match *self {
            ModelError::Call(s) => ModelFault::Call(s@),
            ModelError::NotJson(s) => ModelFault::NotJson(s@),
            ModelError::NoRecording => ModelFault::NoRecording,
        }
    }
}

impl ModelFault {
    /// The sentence that reports it.
    pub open spec fn sentence(self) -> Seq<char> {
        match self {
            ModelFault::Call(s) => "model call failed: "@ + s,
            ModelFault::NotJson(s) => "model returned something that is not valid json: "@ + s,
            ModelFault::NoRecording =>
                "no recorded response for this request; run with recording enabled first"@,
        }
    }
}

impl ModelError {
    /// The sentence that reports this error.
    pub fn message(&self) -> (r: String)
        ensures
            r@ == self@.sentence(),
    {
        match self {
            ModelError::Call(s) => {
                let mut m = "model call failed: ".to_owned();
                m.push_str(s.as_str());
                m
            },
            ModelError::NotJson(s) => {
                let mut m = "model returned something that is not valid json: ".to_owned();
                m.push_str(s.as_str());
                m
            },
            ModelError::NoRecording =>
                "no recorded response for this request; run with recording enabled first".to_owned(),
        }
    }
}

/// One call. Everything in here is hashed into its identity, so two calls that differ in any field
/// are different calls, and two that match are one cached answer.
pub struct ModelRequest {
    /// Exact version string: a new model version is a new table, never a silent change.
    pub model_id: String,
    /// Hash of the prompt template, so bumping one prompt invalidates only its nodes.
    pub prompt_version: String,
    pub system: String,
    pub user: String,
    /// The schema the response must satisfy, as json text. None for free text.
    pub schema: Option<String>,
    pub max_output_tokens: u32,
}

/// The schema as it is hashed: its compact form, or `null` where there is none.
pub open spec fn schema_text(schema: Option<String>) -> Seq<char> {
    match schema {
        None => "null"@,
        Some(t) => match compacted(t@) {
            Some(c) => c,
            None => Seq::empty(),
        },
    }
}

/// What identifies a call, field by field.
pub open spec fn request_fields(r: ModelRequest) -> Seq<Seq<u8>> {
    seq![
        encode_utf8("flash.model.request.v1"@),
        encode_utf8(r.model_id@),
        encode_utf8(r.prompt_version@),
        encode_utf8(r.system@),
        encode_utf8(r.user@),
        encode_utf8(schema_text(r.schema)),
        spec_u64_to_le_bytes(r.max_output_tokens as u64),
    ]
}

/// Two calls that feed the same bytes to the hash are the same call: same model, prompt version,
/// messages, schema and limit.
pub proof fn law_request_identity_covers_every_field(a: ModelRequest, b: ModelRequest)
    requires
        frames(request_fields(a)) == frames(request_fields(b)),
        forall|i: int| 0 <= i < 7 ==> #[trigger] request_fields(a)[i].len() <= u64::MAX,
        forall|i: int| 0 <= i < 7 ==> #[trigger] request_fields(b)[i].len() <= u64::MAX,
    ensures
        a.model_id@ == b.model_id@,
        a.prompt_version@ == b.prompt_version@,
        a.system@ == b.system@,
        a.user@ == b.user@,
        schema_text(a.schema) == schema_text(b.schema),
        a.max_output_tokens == b.max_output_tokens,
{
    let x = request_fields(a);
    let y = request_fields(b);
    law_framing_is_injective(x, y);
    assert(x[1] == y[1] && x[2] == y[2] && x[3] == y[3] && x[4] == y[4] && x[5] == y[5] && x[6]
        == y[6]);
    lemma_encode_injective(a.model_id@, b.model_id@);
    lemma_encode_injective(a.prompt_version@, b.prompt_version@);
    lemma_encode_injective(a.system@, b.system@);
    lemma_encode_injective(a.user@, b.user@);
    lemma_encode_injective(schema_text(a.schema), schema_text(b.schema));
    vstd::bytes::lemma_auto_spec_u64_to_from_le_bytes();
}

proof fn lemma_seven_frames(f: Seq<Seq<u8>>)
    requires
        f.len() == 7,
    ensures
        frames(f) == crate::identity::frame(f[0]) + crate::identity::frame(f[1])
            + crate::identity::frame(f[2]) + crate::identity::frame(f[3])
            + crate::identity::frame(f[4]) + crate::identity::frame(f[5])
            + crate::identity::frame(f[6]),
{
    let f6 = f.drop_last();
    let f5 = f6.drop_last();
    let f4 = f5.drop_last();
    let f3 = f4.drop_last();
    let f2 = f3.drop_last();
    let f1 = f2.drop_last();
    let f0 = f1.drop_last();
    assert(frames(f0) =~= Seq::<u8>::empty());
    assert(frames(f1) =~= crate::identity::frame(f[0]));
    assert(frames(f2) == frames(f1) + crate::identity::frame(f[1]));
    assert(frames(f3) == frames(f2) + crate::identity::frame(f[2]));
    assert(frames(f4) == frames(f3) + crate::identity::frame(f[3]));
    assert(frames(f5) == frames(f4) + crate::identity::frame(f[4]));
    assert(frames(f6) == frames(f5) + crate::identity::frame(f[5]));
}

impl ModelRequest {
    /// Content identity of a call. The replay cassette is keyed on this.
    pub fn digest(&self) -> (r: Digest)
        ensures
            r@ == blake3_of(frames(request_fields(*self))),
    {
        let schema = match &self.schema {
            None => "null".to_owned(),
            Some(t) => match compact(t.as_str()) {
                Some(c) => c,
                None => String::new(),
            },
        };
        assert(schema@ =~= schema_text(self.schema));
        let mut h = Hasher::new("flash.model.request.v1");
        h.str(self.model_id.as_str());
        h.str(self.prompt_version.as_str());
        h.str(self.system.as_str());
        h.str(self.user.as_str());
        h.str(schema.as_str());
        h.u64(self.max_output_tokens as u64);
        proof {
            lemma_seven_frames(request_fields(*self));
        }
        h.finish()
    }
}

/// An answer.
pub struct ModelResponse {
    /// The answer as json text, where it is json.
    pub json: Option<String>,
    pub text: String,
    pub input_tokens: u32,
    pub output_tokens: u32,
}

/// What an answer says.
#[verifier::ext_equal]
pub ghost struct Reply {
    pub json: Option<Seq<char>>,
    pub text: Seq<char>,
    pub input_tokens: nat,
    pub output_tokens: nat,
}

impl View for ModelResponse {
    type V = Reply;

    open spec fn view(&self) -> Reply {
        Reply {
            json: crate::adapter::opt_text(self.json),
            text: self.text@,
            input_tokens: self.input_tokens as nat,
            output_tokens: self.output_tokens as nat,
        }
    }
}

/// A number kept to 32 bits.
pub open spec fn low_bits(n: nat) -> nat {
    n % 0x1_0000_0000
}

/// The answer that some json text is. Its tokens are counted at four bytes each.
pub open spec fn reply_of(text: Seq<char>) -> Reply {
    Reply {
        json: Some(text),
        text,
        input_tokens: 0,
        output_tokens: low_bits(byte_len(text) / 4),
    }
}

fn narrow(n: u64) -> (r: u32)
    ensures
        r == low_bits(n as nat),
{
    (n % 0x1_0000_0000u64) as u32
}

impl ModelResponse {
    /// The answer that some json text is.
    pub fn from_json(text: &str) -> (r: ModelResponse)
        ensures
            r@ == reply_of(text@),
    {
        let n = text.as_bytes().len();
        let r = ModelResponse {
            json: Some(text.to_owned()),
            text: text.to_owned(),
            input_tokens: 0,
            output_tokens: narrow((n / 4) as u64),
        };
        assert(r@ =~= reply_of(text@));
        r
    }

    /// A copy.
    pub fn copy(&self) -> (r: ModelResponse)
        ensures
            r@ == self@,
    {
        ModelResponse {
            json: crate::adapter::copy_opt(&self.json),
            text: self.text.clone(),
            input_tokens: self.input_tokens,
            output_tokens: self.output_tokens,
        }
    }
}

/// Counters that the benchmark publishes. They wrap round at 64 bits.
#[derive(Clone, Copy)]
pub struct ModelMetrics {
    pub calls: u64,
    pub input_tokens: u64,
    pub output_tokens: u64,
}

/// A sum kept to 64 bits.
pub open spec fn wrapped(a: u64, b: nat) -> u64 {
    ((a + b) % 0x1_0000_0000_0000_0000) as u64
}

impl Default for ModelMetrics {
    fn default() -> (r: Self)
        ensures
            r == (ModelMetrics { calls: 0, input_tokens: 0, output_tokens: 0 }),
    {
        ModelMetrics { calls: 0, input_tokens: 0, output_tokens: 0 }
    }
}

impl ModelMetrics {
    /// The counters with one more answer.
    pub open spec fn with(self, r: Reply) -> ModelMetrics {
        ModelMetrics {
            calls: wrapped(self.calls, 1),
            input_tokens: wrapped(self.input_tokens, r.input_tokens),
            output_tokens: wrapped(self.output_tokens, r.output_tokens),
        }
    }

    /// Counts an answer.
    pub fn observe(&mut self, r: &ModelResponse)
        ensures
            *final(self) == old(self).with(r@),
    {
        self.calls = self.calls.wrapping_add(1);
        self.input_tokens = self.input_tokens.wrapping_add(r.input_tokens as u64);
        self.output_tokens = self.output_tokens.wrapping_add(r.output_tokens as u64);
    }

    /// Calls, input tokens and output tokens.
    pub fn snapshot(&self) -> (r: (u64, u64, u64))
        ensures
            r == (self.calls, self.input_tokens, self.output_tokens),
    {
        (self.calls, self.input_tokens, self.output_tokens)
    }
}

/// Fixtures, keyed by a substring of the prompt. Deterministic and offline.
pub struct ScriptedModel {
    /// (marker that must appear in a prompt, response as json text)
    pub rules: Vec<(String, String)>,
    pub default: Option<String>,
    pub metrics: ModelMetrics,
    /// The user messages it was asked, in order.
    pub seen: Vec<String>,
}

/// What a run of rules says.
pub open spec fn rule_views(v: Seq<(String, String)>) -> Seq<(Seq<char>, Seq<char>)> {
    v.map_values(|e: (String, String)| (e.0@, e.1@))
}

/// Does a rule match a prompt, in either message?
pub open spec fn matches_rule(marker: Seq<char>, user: Seq<char>, system: Seq<char>) -> bool {
    has_text(user, marker) || has_text(system, marker)
}

/// The response of the first rule that matches.
pub open spec fn first_match(
    rules: Seq<(Seq<char>, Seq<char>)>,
    user: Seq<char>,
    system: Seq<char>,
) -> Option<Seq<char>>
    decreases rules.len(),
{
    if rules.len() == 0 {
        None
    } else if matches_rule(rules[0].0, user, system) {
        Some(rules[0].1)
    } else {
        first_match(rules.skip(1), user, system)
    }
}

/// The first characters of a text.
pub open spec fn opening(s: Seq<char>, n: int) -> Seq<char> {
    if s.len() > n {
        s.take(n)
    } else {
        s
    }
}

fn open_with(s: &str, n: usize) -> (r: String)
    ensures
        r@ == opening(s@, n as int),
{
    let v = to_chars(s);
    if v.len() > n {
        let r = from_chars(vstd::slice::slice_subrange(v.as_slice(), 0, n));
        assert(v@.subrange(0, n as int) =~= s@.take(n as int));
        r
    } else {
        s.to_owned()
    }
}

/// The scripted answer to a prompt.
pub open spec fn scripted(
    rules: Seq<(Seq<char>, Seq<char>)>,
    default: Option<Seq<char>>,
    user: Seq<char>,
    system: Seq<char>,
) -> Result<Reply, ModelFault> {
    let found = match first_match(rules, user, system) {
        Some(t) => Some(t),
        None => default,
    };
    match found {
        Some(t) => Ok(reply_of(t)),
        None => Err(
            ModelFault::Call("no scripted rule matches this prompt:\n"@ + opening(user, 400)),
        ),
    }
}

impl ScriptedModel {
    pub fn new() -> (r: Self)
        ensures
            r.rules@.len() == 0,
            r.default is None,
            r.metrics == (ModelMetrics { calls: 0, input_tokens: 0, output_tokens: 0 }),
            r.seen@.len() == 0,
    {
        ScriptedModel {
            rules: Vec::new(),
            default: None,
            metrics: ModelMetrics::default(),
            seen: Vec::new(),
        }
    }

    /// Respond with `response` to any prompt containing `marker`, in either the system or the
    /// user message. First match wins, so more specific rules go first.
    pub fn on(self, marker: &str, response: &str) -> (r: Self)
        ensures
            rule_views(r.rules@) == rule_views(self.rules@).push((marker@, response@)),
            r == (ScriptedModel { rules: r.rules, ..self }),
    {
        let mut rules = self.rules;
        let ghost was = rule_views(rules@);
        rules.push((marker.to_owned(), response.to_owned()));
        assert(rule_views(rules@) =~= was.push((marker@, response@)));
        ScriptedModel { rules, default: self.default, metrics: self.metrics, seen: self.seen }
    }

    /// Respond with `response` where no rule matches.
    pub fn otherwise(self, response: &str) -> (r: Self)
        ensures
            crate::adapter::opt_text(r.default) == Some(response@),
            r == (ScriptedModel { default: r.default, ..self }),
    {
        ScriptedModel {
            rules: self.rules,
            default: Some(response.to_owned()),
            metrics: self.metrics,
            seen: self.seen,
        }
    }

    /// Prompts this model was asked, in order.
    pub fn prompts(&self) -> (r: Vec<String>)
        ensures
            texts(r@) == texts(self.seen@),
    {
        crate::text::copy_strings(&self.seen)
    }

    fn find(&self, req: &ModelRequest) -> (r: Option<String>)
        ensures
            match r {
                Some(t) => first_match(rule_views(self.rules@), req.user@, req.system@) == Some(t@),
                None => first_match(rule_views(self.rules@), req.user@, req.system@) is None,
            },
    {
        let ghost all = rule_views(self.rules@);
        let mut i: usize = 0;
        assert(all.skip(0) =~= all);
        while i < self.rules.len()
            invariant
                i <= self.rules@.len(),
                all == rule_views(self.rules@),
                first_match(all, req.user@, req.system@) == first_match(
                    all.skip(i as int),
                    req.user@,
                    req.system@,
                ),
            decreases self.rules@.len() - i,
        {
            let e = &self.rules[i];
            assert(all.skip(i as int)[0] == (e.0@, e.1@));
            assert(all.skip(i as int).skip(1) =~= all.skip(i + 1));
            if contains(req.user.as_str(), e.0.as_str()) || contains(
                req.system.as_str(),
                e.0.as_str(),
            ) {
                return Some(e.1.clone());
            }
            i += 1;
        }
        None
    }

    /// Answers a call. The prompt is noted in any case, and an answer is counted.
    pub fn answer(&mut self, req: &ModelRequest) -> (r: Result<ModelResponse, ModelError>)
        ensures
            ({
                let said = scripted(
                    rule_views(old(self).rules@),
                    crate::adapter::opt_text(old(self).default),
                    req.user@,
                    req.system@,
                );
                match r {
                    Ok(x) => said == Ok::<Reply, ModelFault>(x@) && final(self).metrics == old(
                        self,
                    ).metrics.with(x@),
                    Err(e) => said == Err::<Reply, ModelFault>(e@) && final(self).metrics == old(
                        self,
                    ).metrics,
                }
            }),
            texts(final(self).seen@) == texts(old(self).seen@).push(req.user@),
            final(self).rules == old(self).rules,
            final(self).default == old(self).default,
    {
        let ghost was = texts(self.seen@);
        self.seen.push(req.user.clone());
        assert(texts(self.seen@) =~= was.push(req.user@));
        let found = match self.find(req) {
            Some(t) => Some(t),
            None => crate::adapter::copy_opt(&self.default),
        };
        match found {
            Some(t) => {
                let r = ModelResponse::from_json(t.as_str());
                self.metrics.observe(&r);
                Ok(r)
            },
            None => {
                let mut m = "no scripted rule matches this prompt:\n".to_owned();
                let o = open_with(req.user.as_str(), 400);
                m.push_str(o.as_str());
                Err(ModelError::Call(m))
            },
        }
    }

    /// Tokens per second, for classification before there is any history.
    pub fn tps_hint(&self) -> (r: u32)
        ensures
            r == 10_000,
    {
        10_000
    }
}

impl Default for ScriptedModel {
    fn default() -> (r: Self)
        ensures
            r.rules@.len() == 0,
            r.default is None,
    {
        ScriptedModel::new()
    }
}

/// What to do about a call to a replaying model.
pub enum Replay {
    /// It was recorded; this is the answer.
    Hit(ModelResponse),
    /// It was not, and this model asks nobody.
    Refused(ModelError),
    /// It was not: ask the model behind, and record what it says.
    Ask,
}

/// Record once, replay forever. The point is reproducibility: a published benchmark whose numbers
/// move because a provider retuned a model is not a benchmark.
pub struct ReplayModel {
    /// Is there a model behind, to ask what is not recorded?
    pub records: bool,
    /// Answers by the hex of the call's identity.
    pub memory: NameMap<ModelResponse>,
    pub metrics: ModelMetrics,
}

/// Where a call is recorded.
pub open spec fn recording_key(r: ModelRequest) -> Seq<char> {
    crate::identity::hex_of(blake3_of(frames(request_fields(r))))
}

/// What the recordings say.
pub open spec fn recorded(m: Map<Seq<char>, ModelResponse>) -> Map<Seq<char>, Reply> {
    m.map_values(|x: ModelResponse| x@)
}

impl ReplayModel {
    pub open spec fn wf(&self) -> bool {
        self.memory.wf()
    }

    /// Replay only. A request with no recording is an error rather than a live call.
    pub fn replay_only(memory: NameMap<ModelResponse>) -> (r: Self)
        requires
            memory.wf(),
        ensures
            r.wf(),
            !r.records,
            r.memory == memory,
            r.metrics == (ModelMetrics { calls: 0, input_tokens: 0, output_tokens: 0 }),
    {
        ReplayModel { records: false, memory, metrics: ModelMetrics::default() }
    }

    /// Replay what is recorded, ask for anything new, and record it.
    pub fn recording(memory: NameMap<ModelResponse>) -> (r: Self)
        requires
            memory.wf(),
        ensures
            r.wf(),
            r.records,
            r.memory == memory,
            r.metrics == (ModelMetrics { calls: 0, input_tokens: 0, output_tokens: 0 }),
    {
        ReplayModel { records: true, memory, metrics: ModelMetrics::default() }
    }

    /// How many calls are recorded.
    pub fn len(&self) -> (r: usize)
        ensures
            r == self.memory.names().len(),
    {
        self.memory.entries.len()
    }

    pub fn is_empty(&self) -> (r: bool)
        ensures
            r == (self.memory.names().len() == 0),
    {
        self.memory.entries.len() == 0
    }

    /// Looks a call up. A recorded answer is counted; a call that is not recorded is refused
    /// rather than invented, unless there is a model to ask.
    pub fn look_up(&mut self, req: &ModelRequest) -> (r: Replay)
        requires
            old(self).wf(),
        ensures
            final(self).wf(),
            final(self).memory == old(self).memory,
            final(self).records == old(self).records,
            match r {
                Replay::Hit(x) => {
                    &&& recorded(old(self).memory@).contains_key(recording_key(*req))
                    &&& recorded(old(self).memory@)[recording_key(*req)] == x@
                    &&& final(self).metrics == old(self).metrics.with(x@)
                },
                Replay::Refused(e) => {
                    &&& !old(self).memory@.contains_key(recording_key(*req))
                    &&& !old(self).records
                    &&& e@ == ModelFault::NoRecording
                    &&& final(self).metrics == old(self).metrics
                },
                Replay::Ask => {
                    &&& !old(self).memory@.contains_key(recording_key(*req))
                    &&& old(self).records
                    &&& final(self).metrics == old(self).metrics
                },
            },
    {
        let key = req.digest().hex();
        let hit = match self.memory.get(key.as_str()) {
            Some(x) => Some(x.copy()),
            None => None,
        };
        match hit {
            Some(x) => {
                self.metrics.observe(&x);
                Replay::Hit(x)
            },
            None => if self.records {
                Replay::Ask
            } else {
                Replay::Refused(ModelError::NoRecording)
            },
        }
    }

    /// Records the answer to a call. It counts once the recordings are written out.
    pub fn record(&mut self, req: &ModelRequest, reply: &ModelResponse)
        requires
            old(self).wf(),
        ensures
            final(self).wf(),
            final(self).records == old(self).records,
            recorded(final(self).memory@) == recorded(old(self).memory@).insert(
                recording_key(*req),
                reply@,
            ),
            final(self).metrics == old(self).metrics,
    {
        let key = req.digest().hex();
        let ghost was = self.memory@;
        self.memory.insert(key, reply.copy());
        assert(recorded(self.memory@) =~= recorded(was).insert(recording_key(*req), reply@));
    }

    /// Answers with a reply that was just recorded, given how writing the recordings out went. A
    /// reply that is on disk is counted; one that could not be written is reported and is not.
    pub fn written(&mut self, reply: &ModelResponse, outcome: Result<(), String>) -> (r: Result<
        ModelResponse,
        ModelError,
    >)
        requires
            old(self).wf(),
        ensures
            final(self).wf(),
            final(self).memory == old(self).memory,
            final(self).records == old(self).records,
            match outcome {
                Ok(_) => {
                    &&& r is Ok
                    &&& r->Ok_0@ == reply@
                    &&& final(self).metrics == old(self).metrics.with(reply@)
                },
                Err(why) => {
                    &&& r is Err
                    &&& r->Err_0@ == ModelFault::Call("could not write cassette: "@ + why@)
                    &&& final(self).metrics == old(self).metrics
                },
            },
    {
        match outcome {
            Ok(_) => {
                self.metrics.observe(reply);
                Ok(reply.copy())
            },
            Err(why) => {
                let mut said = "could not write cassette: ".to_owned();
                said.push_str(why.as_str());
                Err(ModelError::Call(said))
            },
        }
    }
}

/// The number under a key, or another where there is none, kept to 32 bits.
pub open spec fn tokens_in(j: Json, key: Seq<char>, otherwise: nat) -> nat {
    match j.at(key) {
        Some(x) => match x.whole() {
            Some(n) => low_bits(n as nat),
            None => low_bits(otherwise),
        },
        None => low_bits(otherwise),
    }
}

/// The answer that a command printed: an object with a `text` field wraps the answer, which may
/// still be json; any other json is the answer itself.
pub open spec fn printed_reply(stdout: Seq<char>) -> Result<Reply, ModelFault> {
    let body = trim_of(stdout);
    match json_of(body) {
        None => Err(ModelFault::NotJson(opening(stdout, 200))),
        Some(j) => match crate::json::text_at(Some(j), "text"@) {
            Some(t) => Ok(
                Reply {
                    json: if json_of(t) is Some {
                        Some(t)
                    } else {
                        None
                    },
                    text: t,
                    input_tokens: tokens_in(j, "input_tokens"@, 0),
                    output_tokens: tokens_in(j, "output_tokens"@, byte_len(t) / 4),
                },
            ),
            None => Ok(reply_of(compacted(body)->0)),
        },
    }
}

fn read_tokens(v: &serde_json::Value, key: &str, otherwise: u64) -> (r: u32)
    ensures
        r == tokens_in(held(*v), key@, otherwise as nat),
{
    match get(v, key) {
        Some(x) => match as_whole(x) {
            Some(n) => narrow(n),
            None => narrow(otherwise),
        },
        None => narrow(otherwise),
    }
}

/// Reads what a command printed.
pub fn read_reply(stdout: &str) -> (r: Result<ModelResponse, ModelError>)
    ensures
        match r {
            Ok(x) => printed_reply(stdout@) == Ok::<Reply, ModelFault>(x@),
            Err(e) => printed_reply(stdout@) == Err::<Reply, ModelFault>(e@),
        },
{
    let body = trim(stdout);
    let v = match parse(body.as_str()) {
        Some(v) => v,
        None => {
            return Err(ModelError::NotJson(open_with(stdout, 200)));
        },
    };
    match text_of_key(&v, "text") {
        Some(t) => {
            let json = match parse(t) {
                Some(_) => Some(t.to_owned()),
                None => None,
            };
            let n = t.as_bytes().len();
            let input_tokens = read_tokens(&v, "input_tokens", 0);
            let output_tokens = read_tokens(&v, "output_tokens", (n / 4) as u64);
            Ok(ModelResponse { json, text: t.to_owned(), input_tokens, output_tokens })
        },
        None => match compact(body.as_str()) {
            Some(c) => Ok(ModelResponse::from_json(c.as_str())),
            None => Err(ModelError::NotJson(open_with(stdout, 200))),
        },
    }
}

/// The fault of a command that ended badly: its status and the first line of what it complained.
pub open spec fn exit_fault(program: Seq<char>, status: Seq<char>, stderr: Seq<char>) -> ModelFault {
    let l = lines_of(stderr);
    ModelFault::Call(
        program + " exited with "@ + status + ": "@ + if l.len() > 0 {
            l[0]
        } else {
            Seq::empty()
        },
    )
}

/// The error of a command that ended badly.
pub fn exit_error(program: &str, status: &str, stderr: &str) -> (r: ModelError)
    ensures
        r@ == exit_fault(program@, status@, stderr@),
{
    let mut m = program.to_owned();
    m.push_str(" exited with ");
    m.push_str(status);
    m.push_str(": ");
    let l = lines(stderr);
    assert(texts(l@).len() == l@.len());
    if l.len() > 0 {
        assert(texts(l@)[0] == l@[0]@);
        m.push_str(l[0].as_str());
    }
    let e = ModelError::Call(m);
    assert(e@ =~= exit_fault(program@, status@, stderr@));
    e
}

/// A recorded call is answered from the recording: what was recorded for a call is what a look-up
/// finds, and every other recording stays.
pub proof fn law_a_recording_is_replayed(
    m: Map<Seq<char>, Reply>,
    call: ModelRequest,
    reply: Reply,
    other: Seq<char>,
)
    ensures
        m.insert(recording_key(call), reply)[recording_key(call)] == reply,
        other != recording_key(call) ==> (m.insert(recording_key(call), reply).contains_key(other)
            <==> m.contains_key(other)),
        other != recording_key(call) && m.contains_key(other) ==> m.insert(
            recording_key(call),
            reply,
        )[other] == m[other],
{
}

} // verus!
