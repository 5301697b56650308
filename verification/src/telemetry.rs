//! The names a plane reports under: spans, attributes, and the events an
//! operator has to see.

use vstd::prelude::*;

verus! {

/// The revision of the attribute names below.
pub const SEMCONV_VERSION: &'static str = "genai-2026-07-28/development";

/// The span of a run.
pub const RUN_SPAN: &'static str = "agentplane.run";

/// The span of a step.
pub const STEP_SPAN: &'static str = "agentplane.step";

/// The span of an effect.
pub const EFFECT_SPAN: &'static str = "agentplane.effect";

pub const GEN_AI_OPERATION: &'static str = "gen_ai.operation.name";

pub const GEN_AI_INVOKE_AGENT: &'static str = "invoke_agent";

pub const GEN_AI_EXECUTE_TOOL: &'static str = "execute_tool";

pub const GEN_AI_CHAT: &'static str = "chat";

pub const GEN_AI_PROVIDER: &'static str = "gen_ai.provider.name";

pub const GEN_AI_REQUEST_MODEL: &'static str = "gen_ai.request.model";

pub const GEN_AI_RESPONSE_MODEL: &'static str = "gen_ai.response.model";

pub const GEN_AI_FINISH_REASON: &'static str = "gen_ai.response.finish_reasons";

pub const GEN_AI_INPUT_TOKENS: &'static str = "gen_ai.usage.input_tokens";

pub const GEN_AI_OUTPUT_TOKENS: &'static str = "gen_ai.usage.output_tokens";

pub const GEN_AI_CACHE_READ_TOKENS: &'static str = "gen_ai.usage.cache_read.input_tokens";

pub const GEN_AI_CACHE_WRITE_TOKENS: &'static str = "gen_ai.usage.cache_write.input_tokens";

pub const GEN_AI_TOOL_NAME: &'static str = "gen_ai.tool.name";

pub const GEN_AI_AGENT_NAME: &'static str = "gen_ai.agent.name";

pub const GEN_AI_CONVERSATION_ID: &'static str = "gen_ai.conversation.id";

pub const ERROR_TYPE: &'static str = "error.type";

pub const RUN_ID: &'static str = "agentplane.run.id";

pub const TENANT: &'static str = "agentplane.tenant";

pub const SEMCONV: &'static str = "agentplane.semconv";

pub const MODE: &'static str = "agentplane.mode";

pub const STEP: &'static str = "agentplane.step.id";

pub const CAPABILITY: &'static str = "agentplane.step.capability";

pub const PHASE: &'static str = "agentplane.phase";

pub const EFFECT_KIND: &'static str = "agentplane.effect.kind";

pub const EFFECT_KEY: &'static str = "agentplane.effect.key";

pub const EFFECT_ATTEMPT: &'static str = "agentplane.effect.attempt";

pub const EFFECT_MUTATES: &'static str = "agentplane.effect.mutates";

pub const EFFECT_REPLAYED: &'static str = "agentplane.effect.replayed";

pub const OUTCOME: &'static str = "agentplane.outcome";

pub const NONDETERMINISM: &'static str = "agentplane.run.nondeterminism_detected";

pub const QUARANTINED: &'static str = "agentplane.run.quarantined";

pub const ABANDONED: &'static str = "agentplane.run.abandoned";

pub const RUN_FAILED: &'static str = "agentplane.run.failed";

pub const UNDECIDABLE: &'static str = "agentplane.effect.undecidable";

pub const UNREPRODUCIBLE: &'static str = "agentplane.run.unreproducible";

pub const RECONCILED: &'static str = "agentplane.effect.reconciled";

pub const BUDGET_REFUSED: &'static str = "agentplane.budget.refused";

pub const COMPENSATED: &'static str = "agentplane.saga.compensated";

pub const COMPENSATION_FAILED: &'static str = "agentplane.saga.compensation_failed";

pub const DEAD_LETTERED: &'static str = "agentplane.event.dead_lettered";

pub const DEADLINE_BREACHED: &'static str = "agentplane.deadline.breached";

pub const TIMER_FIRED: &'static str = "agentplane.timer.fired";

pub const RUN_RECOVERED: &'static str = "agentplane.run.recovered";

pub const POLICY_DENIED: &'static str = "agentplane.policy.denied";

pub const REPLANNED: &'static str = "agentplane.run.replanned";

pub const WITNESS_INTEGRITY: &'static str = "agentplane.witness.integrity";

/// Whether spans carry the tenant's name. Off unless asked: a tenant is often a
/// customer, and a trace backend is often somebody else's.
#[derive(Debug, Clone, Copy, PartialEq, Eq, Structural)]
pub enum TenantLabel {
    Omitted,
    Name,
}

impl Default for TenantLabel {
    fn default() -> (label: TenantLabel)
        ensures
            label == TenantLabel::Omitted,
    {
        TenantLabel::Omitted
    }
}

/// What a span says of its tenant.
pub open spec fn tenant_shown(label: TenantLabel, tenant: Seq<char>) -> Seq<char> {
    match label {
        TenantLabel::Omitted => Seq::<char>::empty(),
        TenantLabel::Name => tenant,
    }
}

impl TenantLabel {
    /// What a span says of its tenant: nothing, or the tenant's name.
    pub fn render(self, tenant: &str) -> (text: String)
        ensures
            text@ == tenant_shown(self, tenant@),
    {
        match self {
            TenantLabel::Omitted => String::new(),
            TenantLabel::Name => tenant.to_owned(),
        }
    }
}

/// How a run is being executed.
#[derive(Debug, Clone, Copy, PartialEq, Eq, Structural)]
pub enum Mode {
    Live,
    Resume,
    Strict,
}

/// The word of a mode.
pub open spec fn mode_word(mode: Mode) -> Seq<char> {
    match mode {
        Mode::Live => "live"@,
        Mode::Resume => "resume"@,
        Mode::Strict => "strict"@,
    }
}

/// The word a mode is reported as.
pub fn mode_str(mode: Mode) -> (text: &'static str)
    ensures
        text@ == mode_word(mode),
{
    match mode {
        Mode::Live => "live",
        Mode::Resume => "resume",
        Mode::Strict => "strict",
    }
}

/// The events that must never be filtered away.
pub open spec fn loud_names() -> Seq<Seq<char>> {
    seq![
        NONDETERMINISM@,
        QUARANTINED@,
        ABANDONED@,
        RUN_FAILED@,
        UNDECIDABLE@,
        UNREPRODUCIBLE@,
        RECONCILED@,
        BUDGET_REFUSED@,
        COMPENSATED@,
        COMPENSATION_FAILED@,
        DEAD_LETTERED@,
        DEADLINE_BREACHED@,
        TIMER_FIRED@,
        RUN_RECOVERED@,
        REPLANNED@,
        POLICY_DENIED@,
        WITNESS_INTEGRITY@,
    ]
}

/// The events that must never be filtered away.
pub fn loud_events() -> (names: Vec<&'static str>)
    ensures
        names@.len() == loud_names().len(),
        forall|i: int| 0 <= i < names@.len() ==> (#[trigger] names@[i])@ == loud_names()[i],
{
    let mut names: Vec<&'static str> = Vec::new();
    names.push(NONDETERMINISM);
    names.push(QUARANTINED);
    names.push(ABANDONED);
    names.push(RUN_FAILED);
    names.push(UNDECIDABLE);
    names.push(UNREPRODUCIBLE);
    names.push(RECONCILED);
    names.push(BUDGET_REFUSED);
    names.push(COMPENSATED);
    names.push(COMPENSATION_FAILED);
    names.push(DEAD_LETTERED);
    names.push(DEADLINE_BREACHED);
    names.push(TIMER_FIRED);
    names.push(RUN_RECOVERED);
    names.push(REPLANNED);
    names.push(POLICY_DENIED);
    names.push(WITNESS_INTEGRITY);
    names
}

/// A label that is omitted tells no two tenants apart, and one that names them tells
/// every two.
pub proof fn law_label_tells_tenants_apart(a: Seq<char>, b: Seq<char>)
    ensures
        tenant_shown(TenantLabel::Omitted, a) == tenant_shown(TenantLabel::Omitted, b),
        tenant_shown(TenantLabel::Omitted, a).len() == 0,
        tenant_shown(TenantLabel::Name, a) == a,
{
}

/// Two modes are reported as two words.
pub proof fn law_mode_words_differ(a: Mode, b: Mode)
    ensures
        mode_word(a) == mode_word(b) <==> a == b,
{
    reveal_strlit("live");
    reveal_strlit("resume");
    reveal_strlit("strict");
    assert("live"@.len() == 4 && "resume"@.len() == 6 && "strict"@.len() == 6);
    assert("resume"@[0] == 'r' && "strict"@[0] == 's');
}

} // verus!
