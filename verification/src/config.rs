//! The bot's settings.
use vstd::prelude::*;

use crate::ai::AiClient;
use crate::attachment::text_opt;
use crate::json::{json_value, jsons, parse_json, Json, JsonV};
use crate::memory::{delete_tool, list_tool, read_tool, save_tool};
use crate::text::{
    copy, is_blank, lower_text, lowered, parse_signed, parse_unsigned, same_text, signed, trim,
    trimmed, unsigned,
};
use crate::tools::{attachment_tool, avatar_tool, kind, kind_of, Kind};

verus! {

pub struct Config {
    pub trigger: String,
    pub processing_msg: String,
    pub reasoning_msg: String,
    pub generating_msg: String,
    pub tool_msg: String,
    pub context_messages: usize,
    pub vision: bool,
    pub audio: bool,
    pub documents: bool,
    /// memories are kept, and the tools for them are on offer
    pub memory: bool,
    /// how old a message may get before it is pruned from the store, in
    /// milliseconds; `None` keeps history forever
    pub retention: Option<u64>,
    pub ai: AiClient,
}

impl Config {
    /// The model can be given an attachment of this content type.
    pub open spec fn loads(self, mime: Seq<char>) -> bool {
        match kind(mime) {
            Some(Kind::Image) => self.vision,
            Some(Kind::Audio) => self.audio,
            Some(Kind::Text) => true,
            Some(Kind::Document) => self.documents,
            None => false,
        }
    }

    /// An attachment of this content type is attached to its turn.
    pub open spec fn inlines(self, mime: Seq<char>) -> bool {
        self.loads(mime) && kind(mime) != Some(Kind::Text)
    }

    /// Is this kind attached to its turn directly, rather than only listed?
    pub fn sent_inline(&self, mime: &str) -> (r: bool)
        ensures
            r == self.inlines(mime@),
    {
        self.can_load(mime) && match kind_of(mime) {
            Some(Kind::Text) => false,
            _ => true,
        }
    }

    /// Can the model be given this attachment, either inline or on request?
    pub fn can_load(&self, mime: &str) -> (r: bool)
        ensures
            r == self.loads(mime@),
    {
        match kind_of(mime) {
            Some(Kind::Image) => self.vision,
            Some(Kind::Audio) => self.audio,
            Some(Kind::Text) => true,
            Some(Kind::Document) => self.documents,
            None => false,
        }
    }
}

/// A flag is on where it says so, in one of a few ways.
pub open spec fn flag_on(value: Option<Seq<char>>) -> bool {
    match value {
        Some(s) => {
            let t = lowered(trimmed(s));
            t == "1"@ || t == "true"@ || t == "yes"@ || t == "on"@
        },
        None => false,
    }
}

/// Is a flag on?
pub fn env_flag(value: &Option<String>) -> (r: bool)
    ensures
        r == flag_on(text_opt(*value)),
{
    match value {
        Some(s) => {
            let t = lower_text(&trim(s));
            same_text(&t, "1") || same_text(&t, "true") || same_text(&t, "yes") || same_text(
                &t,
                "on",
            )
        },
        None => false,
    }
}

/// The environment variables that the settings are read from, each where it is set.
pub struct Env {
    pub api_base: Option<String>,
    pub api_key: Option<String>,
    pub model: Option<String>,
    pub system_prompt: Option<String>,
    pub trigger: Option<String>,
    pub processing_message: Option<String>,
    pub reasoning_message: Option<String>,
    pub generating_message: Option<String>,
    pub tool_message: Option<String>,
    pub context_messages: Option<String>,
    pub message_retention_days: Option<String>,
    pub reasoning_budget: Option<String>,
    pub vision: Option<String>,
    pub audio: Option<String>,
    pub documents: Option<String>,
    pub extra_tools: Option<String>,
}

/// Why there are no settings.
#[derive(Clone, Copy, PartialEq, Eq, Structural)]
pub enum ConfigError {
    NoApiBase,
    NoModel,
    ExtraTools,
}

impl ConfigError {
    /// What is said of it.
    pub fn text(&self) -> (r: String)
        ensures
            r@ == (match self {
                ConfigError::NoApiBase => "API_BASE is required"@,
                ConfigError::NoModel => "MODEL is required"@,
                ConfigError::ExtraTools => "EXTRA_TOOLS must be a json array of tools"@,
            }),
    {
        match self {
            ConfigError::NoApiBase => copy("API_BASE is required"),
            ConfigError::NoModel => copy("MODEL is required"),
            ConfigError::ExtraTools => copy("EXTRA_TOOLS must be a json array of tools"),
        }
    }
}

/// The value of a variable, or what it is where it is not set.
pub open spec fn or_else(value: Option<String>, otherwise: Seq<char>) -> Seq<char> {
    match value {
        Some(s) => s@,
        None => otherwise,
    }
}

fn take_or(value: Option<String>, otherwise: &str) -> (r: String)
    ensures
        r@ == or_else(value, otherwise@),
{
    match value {
        Some(s) => s,
        None => copy(otherwise),
    }
}

/// The number that a variable gives, or `otherwise` where it is not set or gives none.
pub open spec fn number_or(value: Option<String>, max: nat, otherwise: nat) -> nat {
    match value {
        Some(s) => match unsigned(s@, max) {
            Some(n) => n,
            None => otherwise,
        },
        None => otherwise,
    }
}

fn unsigned_or(value: &Option<String>, max: u64, otherwise: u64) -> (r: u64)
    requires
        otherwise <= max,
    ensures
        r == number_or(*value, max as nat, otherwise as nat),
        r <= max,
{
    match value {
        Some(s) => match parse_unsigned(s, max) {
            Some(n) => n,
            None => otherwise,
        },
        None => otherwise,
    }
}

/// How many days messages are kept.
pub open spec fn retention_days(env: Env) -> nat {
    number_or(env.message_retention_days, u64::MAX as nat, 7)
}

/// The milliseconds of a day.
pub const DAY_MS: u64 = 86_400_000;

/// As many days can be counted in milliseconds.
pub open spec fn retention_fits(env: Env) -> bool {
    retention_days(env) * DAY_MS <= u64::MAX
}

/// Can the days that messages are kept be counted in milliseconds?
pub fn retention_in_range(env: &Env) -> (r: bool)
    ensures
        r == retention_fits(*env),
{
    let days = unsigned_or(&env.message_retention_days, u64::MAX, 7);
    days <= u64::MAX / DAY_MS
}

/// The tools that the provider runs itself, where they are given as they should be.
pub open spec fn provider_tools(env: Env) -> Option<Seq<JsonV>> {
    match env.extra_tools {
        Some(s) => if trimmed(s@).len() == 0 {
            Some(Seq::empty())
        } else {
            match json_value(s@) {
                Some(JsonV::Arr(items)) => Some(items),
                _ => None,
            }
        },
        None => Some(Seq::empty()),
    }
}

/// The settings are those that the environment gives, with the defaults where it gives
/// none.
pub open spec fn configured(c: Config, env: Env) -> bool {
    &&& c.trigger@ == or_else(env.trigger, "@ai"@)
    &&& c.processing_msg@ == or_else(env.processing_message, "ai is processing..."@)
    &&& c.reasoning_msg@ == or_else(env.reasoning_message, "ai is thinking..."@)
    &&& c.generating_msg@ == or_else(env.generating_message, "ai is writing..."@)
    &&& c.tool_msg@ == or_else(env.tool_message, "ai is looking things up..."@)
    &&& c.context_messages == number_or(env.context_messages, usize::MAX as nat, 5)
    &&& c.vision == flag_on(text_opt(env.vision))
    &&& c.audio == flag_on(text_opt(env.audio))
    &&& c.documents == flag_on(text_opt(env.documents))
    &&& !c.memory
    &&& c.retention == (if retention_days(env) == 0 {
        None::<u64>
    } else {
        Some((retention_days(env) * DAY_MS) as u64)
    })
    &&& env.api_base is Some && c.ai.base@ == env.api_base->0@
    &&& c.ai.key@ == or_else(env.api_key, Seq::empty())
    &&& env.model is Some && c.ai.model@ == env.model->0@
    &&& text_opt(c.ai.system) == (match env.system_prompt {
        Some(s) => if s@.len() > 0 {
            Some(s@)
        } else {
            None
        },
        None => None,
    })
    &&& c.ai.reasoning_budget == (match env.reasoning_budget {
        Some(s) => match signed(s@) {
            Some(n) => n,
            None => 0,
        },
        None => 0,
    })
    &&& provider_tools(env) is Some && jsons(c.ai.tools@) == seq![avatar_tool(), attachment_tool()]
        + provider_tools(env)->0
}

fn read_extra_tools(value: &Option<String>) -> (r: Option<Vec<Json>>)
    ensures
        match value {
            Some(s) => if trimmed(s@).len() == 0 {
                r is Some && jsons(r->0@) == Seq::<JsonV>::empty()
            } else {
                match json_value(s@) {
                    Some(JsonV::Arr(items)) => r is Some && jsons(r->0@) == items,
                    _ => r is None,
                }
            },
            None => r is Some && jsons(r->0@) == Seq::<JsonV>::empty(),
        },
{
    let none: Vec<Json> = Vec::new();
    assert(jsons(none@) =~= Seq::<JsonV>::empty());
    let s = match value {
        Some(s) => s,
        None => {
            return Some(none);
        },
    };
    if is_blank(s) {
        return Some(none);
    }
    match parse_json(s) {
        Some(Json::Arr(items)) => {
            let ghost v = Json::Arr(items);
            assert(v@->Arr_0 =~= jsons(items@));
            Some(items)
        },
        _ => None,
    }
}

/// The tools on offer: our own, then those that the provider runs itself.
fn tool_definitions(extra: Vec<Json>) -> (r: Vec<Json>)
    ensures
        jsons(r@) == seq![avatar_tool(), attachment_tool()] + jsons(extra@),
{
    let mut out = crate::tools::definitions();
    let ghost before = out@;
    let mut more = extra;
    out.append(&mut more);
    assert(jsons(out@) =~= jsons(before) + jsons(extra@));
    out
}

/// The name shown among the linked devices.
pub open spec fn device_called(value: Option<Seq<char>>) -> Seq<char> {
    match value {
        Some(s) => if s.len() > 0 {
            s
        } else {
            "signal-ai-bot"@
        },
        None => "signal-ai-bot"@,
    }
}

/// The name shown among the linked devices: what the environment gives, where that is
/// not empty.
pub fn device_name(value: Option<String>) -> (r: String)
    ensures
        r@ == device_called(text_opt(value)),
{
    match value {
        Some(s) => if s.as_str().is_empty() {
            copy("signal-ai-bot")
        } else {
            s
        },
        None => copy("signal-ai-bot"),
    }
}

impl Config {
    /// The settings that the environment gives. Retention is given in days, `0` for
    /// ever, and kept in milliseconds. Tools that the provider runs itself are passed
    /// through verbatim so that any provider's server-tool syntax works.
    pub fn from_env(env: Env) -> (r: Result<Config, ConfigError>)
        requires
            retention_fits(env),
        ensures
            match r {
                Ok(c) => configured(c, env),
                Err(ConfigError::NoApiBase) => env.api_base is None,
                Err(ConfigError::NoModel) => env.api_base is Some && env.model is None,
                Err(ConfigError::ExtraTools) => env.api_base is Some && env.model is Some
                    && provider_tools(env) is None,
            },
    {
        let base = match env.api_base {
            Some(s) => s,
            None => {
                return Err(ConfigError::NoApiBase);
            },
        };
        let key = take_or(env.api_key, "");
        let model = match env.model {
            Some(s) => s,
            None => {
                return Err(ConfigError::NoModel);
            },
        };
        let system = match env.system_prompt {
            Some(s) => if s.as_str().is_empty() {
                None
            } else {
                Some(s)
            },
            None => None,
        };
        let trigger = take_or(env.trigger, "@ai");
        let processing_msg = take_or(env.processing_message, "ai is processing...");
        let reasoning_msg = take_or(env.reasoning_message, "ai is thinking...");
        let generating_msg = take_or(env.generating_message, "ai is writing...");
        let tool_msg = take_or(env.tool_message, "ai is looking things up...");
        let context_messages = unsigned_or(&env.context_messages, usize::MAX as u64, 5) as usize;
        let days = unsigned_or(&env.message_retention_days, u64::MAX, 7);
        let retention = if days == 0 {
            None
        } else {
            Some(days * DAY_MS)
        };
        let reasoning_budget: i64 = match &env.reasoning_budget {
            Some(s) => match parse_signed(s) {
                Some(n) => n,
                None => 0,
            },
            None => 0,
        };
        let vision = env_flag(&env.vision);
        let audio = env_flag(&env.audio);
        let documents = env_flag(&env.documents);
        let extra = match read_extra_tools(&env.extra_tools) {
            Some(tools) => tools,
            None => {
                return Err(ConfigError::ExtraTools);
            },
        };
        let tools = tool_definitions(extra);
        proof {
            reveal_strlit("");
            assert(""@ =~= Seq::<char>::empty());
        }
        Ok(
            Config {
                trigger,
                processing_msg,
                reasoning_msg,
                generating_msg,
                tool_msg,
                context_messages,
                vision,
                audio,
                documents,
                memory: false,
                retention,
                ai: AiClient::new(base, key, model, system, reasoning_budget, tools),
            },
        )
    }

    /// The same settings with memories kept: the tools for them are offered behind the
    /// others.
    pub fn with_memory(self) -> (r: Config)
        ensures
            r.memory,
            jsons(r.ai.tools@) == jsons(self.ai.tools@) + seq![
                list_tool(),
                read_tool(),
                save_tool(),
                delete_tool(),
            ],
            r == (Config { memory: true, ai: (AiClient { tools: r.ai.tools, ..self.ai }), ..self }),
    {
        let mut cfg = self;
        let mut more = crate::memory::definitions();
        let ghost before = cfg.ai.tools@;
        let ghost added = more@;
        cfg.memory = true;
        cfg.ai.tools.append(&mut more);
        assert(jsons(cfg.ai.tools@) =~= jsons(before) + jsons(added));
        cfg
    }
}

/// What can be loaded goes by the modalities that are enabled; text always can, and is the
/// one kind that is not attached to its turn.
pub proof fn law_what_can_be_loaded(cfg: Config, mime: Seq<char>)
    ensures
        kind(mime) == Some(Kind::Image) ==> (cfg.loads(mime) <==> cfg.vision),
        kind(mime) == Some(Kind::Audio) ==> (cfg.loads(mime) <==> cfg.audio),
        kind(mime) == Some(Kind::Document) ==> (cfg.loads(mime) <==> cfg.documents),
        kind(mime) == Some(Kind::Text) ==> cfg.loads(mime) && !cfg.inlines(mime),
        kind(mime) is None ==> !cfg.loads(mime) && !cfg.inlines(mime),
        kind(mime) != Some(Kind::Text) ==> (cfg.inlines(mime) <==> cfg.loads(mime)),
{
}

/// A flag is on where it says 1, true, yes or on, in whatever case and with whatever
/// whitespace around it, and off otherwise.
pub proof fn law_when_a_flag_is_on(s: Seq<char>, t: Seq<char>)
    ensures
        flag_on(Some(s)) <==> (lowered(trimmed(s)) == "1"@ || lowered(trimmed(s)) == "true"@
            || lowered(trimmed(s)) == "yes"@ || lowered(trimmed(s)) == "on"@),
        !flag_on(None),
        lowered(trimmed(s)) == lowered(trimmed(t)) ==> flag_on(Some(s)) == flag_on(Some(t)),
{
}

/// A number is what the variable gives; where it gives none, the default.
pub proof fn law_numbers_have_defaults(s: String, max: nat, otherwise: nat, n: nat)
    ensures
        unsigned(s@, max) == Some(n) ==> number_or(Some(s), max, otherwise) == n,
        unsigned(s@, max) is None ==> number_or(Some(s), max, otherwise) == otherwise,
        number_or(None, max, otherwise) == otherwise,
{
}

/// The settings are what the environment says, variable by variable.
pub proof fn law_the_environment_is_heeded(c: Config, env: Env)
    requires
        configured(c, env),
    ensures
        env.api_base is Some && c.ai.base@ == env.api_base->0@,
        env.model is Some && c.ai.model@ == env.model->0@,
        env.api_key is Some ==> c.ai.key@ == env.api_key->0@,
        env.api_key is None ==> c.ai.key@.len() == 0,
        env.trigger is Some ==> c.trigger@ == env.trigger->0@,
        env.processing_message is Some ==> c.processing_msg@ == env.processing_message->0@,
        env.reasoning_message is Some ==> c.reasoning_msg@ == env.reasoning_message->0@,
        env.generating_message is Some ==> c.generating_msg@ == env.generating_message->0@,
        env.tool_message is Some ==> c.tool_msg@ == env.tool_message->0@,
        env.system_prompt is Some && env.system_prompt->0@.len() > 0 ==> c.ai.system is Some
            && c.ai.system->0@ == env.system_prompt->0@,
        env.system_prompt is None || env.system_prompt->0@.len() == 0 ==> c.ai.system is None,
        c.vision <==> flag_on(text_opt(env.vision)),
        c.audio <==> flag_on(text_opt(env.audio)),
        c.documents <==> flag_on(text_opt(env.documents)),
        !c.memory,
        env.context_messages is Some && unsigned(env.context_messages->0@, usize::MAX as nat) is Some
            ==> c.context_messages == unsigned(env.context_messages->0@, usize::MAX as nat)->0,
        env.reasoning_budget is Some && signed(env.reasoning_budget->0@) is Some
            ==> c.ai.reasoning_budget == signed(env.reasoning_budget->0@)->0,
{
}

/// What the environment leaves open has a default.
pub proof fn law_the_defaults(c: Config, env: Env)
    requires
        configured(c, env),
    ensures
        env.trigger is None ==> c.trigger@ == "@ai"@,
        env.processing_message is None ==> c.processing_msg@ == "ai is processing..."@,
        env.reasoning_message is None ==> c.reasoning_msg@ == "ai is thinking..."@,
        env.generating_message is None ==> c.generating_msg@ == "ai is writing..."@,
        env.tool_message is None ==> c.tool_msg@ == "ai is looking things up..."@,
        env.context_messages is None || unsigned(env.context_messages->0@, usize::MAX as nat) is None
            ==> c.context_messages == 5,
        env.reasoning_budget is None || signed(env.reasoning_budget->0@) is None
            ==> c.ai.reasoning_budget == 0,
        env.vision is None ==> !c.vision,
        env.audio is None ==> !c.audio,
        env.documents is None ==> !c.documents,
{
}

/// Messages are kept for as many days as the environment says, a week by default, counted in
/// milliseconds; none at all means for ever.
pub proof fn law_days_are_kept_in_milliseconds(c: Config, env: Env, days: u64)
    requires
        configured(c, env),
        retention_fits(env),
        (env.message_retention_days is Some && unsigned(
            env.message_retention_days->0@,
            u64::MAX as nat,
        ) == Some(days as nat)) || (days == 7 && (env.message_retention_days is None || unsigned(
            env.message_retention_days->0@,
            u64::MAX as nat,
        ) is None)),
    ensures
        days == 0 ==> c.retention is None,
        days > 0 ==> c.retention is Some && c.retention->0 == days * (24 * 60 * 60 * 1000),
{
}

/// Our own tools are offered first, then those that the environment names, as it names
/// them; a blank names none.
pub proof fn law_the_tools_on_offer(c: Config, env: Env, items: Seq<JsonV>)
    requires
        configured(c, env),
    ensures
        jsons(c.ai.tools@).len() >= 2,
        jsons(c.ai.tools@)[0] == avatar_tool(),
        jsons(c.ai.tools@)[1] == attachment_tool(),
        env.extra_tools is None || trimmed(env.extra_tools->0@).len() == 0 ==> jsons(
            c.ai.tools@,
        ).len() == 2,
        env.extra_tools is Some && trimmed(env.extra_tools->0@).len() > 0 && json_value(
            env.extra_tools->0@,
        ) == Some(JsonV::Arr(items)) ==> jsons(c.ai.tools@).skip(2) == items,
{
    let all = jsons(c.ai.tools@);
    let own = seq![avatar_tool(), attachment_tool()];
    assert(all == own + provider_tools(env)->0);
    assert(all.skip(2) =~= provider_tools(env)->0);
}

/// The device goes by the name it is given, unless that is empty.
pub proof fn law_the_device_has_a_name(s: Seq<char>)
    ensures
        s.len() > 0 ==> device_called(Some(s)) == s,
        s.len() == 0 ==> device_called(Some(s)) == "signal-ai-bot"@,
        device_called(None) == "signal-ai-bot"@,
{
}

} // verus!
