//! What the security service decides once a prompt-injection detector has
//! judged an input: whether to let it through, whether to hand on a sanitized
//! form, and the running count of verdicts.
//!
//! Confidences are IEEE single-precision numbers, held here by their bit
//! patterns and compared as IEEE does (see `f32_ge`).

use vstd::prelude::*;

verus! {

// ---------------------------------------------------------------------------
// Single-precision order on bit patterns
// ---------------------------------------------------------------------------

/// The bit pattern is a NaN.
pub open spec fn f32_is_nan(bits: u32) -> bool {
    (bits & 0x7F80_0000u32) == 0x7F80_0000u32 && (bits & 0x007F_FFFFu32) != 0
}

/// A rank that orders the non-NaN patterns as their values are ordered (both
/// zeros rank 0; negative values rank below zero by magnitude).
pub open spec fn f32_rank(bits: u32) -> int {
    if bits >= 0x8000_0000u32 {
        -((bits - 0x8000_0000u32) as int)
    } else {
        bits as int
    }
}

/// `a >= b` for the numbers with these patterns (false if either is NaN).
pub open spec fn f32_ge(a: u32, b: u32) -> bool {
    !f32_is_nan(a) && !f32_is_nan(b) && f32_rank(a) >= f32_rank(b)
}

/// `a > b` for the numbers with these patterns (false if either is NaN).
pub open spec fn f32_gt(a: u32, b: u32) -> bool {
    !f32_is_nan(a) && !f32_is_nan(b) && f32_rank(a) > f32_rank(b)
}

fn is_nan(bits: u32) -> (b: bool)
    ensures
        b == f32_is_nan(bits),
{
    (bits & 0x7F80_0000u32) == 0x7F80_0000u32 && (bits & 0x007F_FFFFu32) != 0
}

fn rank(bits: u32) -> (r: i64)
    ensures
        r == f32_rank(bits),
{
    if bits >= 0x8000_0000u32 {
        0i64 - ((bits - 0x8000_0000u32) as i64)
    } else {
        bits as i64
    }
}

/// `f32_ge`, computed.
pub fn float_ge(a: u32, b: u32) -> (r: bool)
    ensures
        r == f32_ge(a, b),
{
    !is_nan(a) && !is_nan(b) && rank(a) >= rank(b)
}

/// `f32_gt`, computed.
pub fn float_gt(a: u32, b: u32) -> (r: bool)
    ensures
        r == f32_gt(a, b),
{
    !is_nan(a) && !is_nan(b) && rank(a) > rank(b)
}

/// The pattern of 0.3, the paranoid-mode bar.
pub open spec fn paranoid_bar() -> u32 {
    0x3E99_999Au32
}

// ---------------------------------------------------------------------------
// Detections and configuration
// ---------------------------------------------------------------------------

/// The kind of attack a detector saw.
#[derive(Debug, Clone, Copy, PartialEq, Eq, Structural)]
pub enum AttackType {
    DirectPromptInjection,
    IndirectPromptInjection,
    PromptLeaking,
    NoAttack,
}

/// A detector's verdict on one input.
#[derive(Debug, Clone, Copy, PartialEq, Eq, Structural)]
pub struct DetectionResult {
    pub is_injection: bool,
    /// The confidence, as the bit pattern of an `f32`.
    pub confidence_bits: u32,
    pub attack_type: AttackType,
}

/// How the service behaves.
pub struct SecurityConfig {
    pub enabled: bool,
    pub encryption_algorithm: String,
    pub enable_direct_detection: bool,
    pub enable_indirect_detection: bool,
    pub enable_leaking_detection: bool,
    /// The least confidence (bit pattern of an `f32`) at which an injection
    /// is reported.
    pub min_confidence_threshold_bits: u32,
    pub auto_sanitize: bool,
    pub filter_output: bool,
    /// Block on any confidence above 0.3.
    pub paranoid_mode: bool,
}

/// Two configurations say the same.
pub open spec fn same_config(a: SecurityConfig, b: SecurityConfig) -> bool {
    &&& a.enabled == b.enabled
    &&& a.encryption_algorithm@ == b.encryption_algorithm@
    &&& a.enable_direct_detection == b.enable_direct_detection
    &&& a.enable_indirect_detection == b.enable_indirect_detection
    &&& a.enable_leaking_detection == b.enable_leaking_detection
    &&& a.min_confidence_threshold_bits == b.min_confidence_threshold_bits
    &&& a.auto_sanitize == b.auto_sanitize
    &&& a.filter_output == b.filter_output
    &&& a.paranoid_mode == b.paranoid_mode
}

/// The default configuration: everything on but paranoid mode, threshold
/// 0.5, algorithm `AES-256-GCM`.
pub open spec fn is_default_config(c: SecurityConfig) -> bool {
    &&& c.enabled
    &&& c.encryption_algorithm@ == seq!['A', 'E', 'S', '-', '2', '5', '6', '-', 'G', 'C', 'M']
    &&& c.enable_direct_detection
    &&& c.enable_indirect_detection
    &&& c.enable_leaking_detection
    &&& c.min_confidence_threshold_bits == 0x3F00_0000u32
    &&& c.auto_sanitize
    &&& c.filter_output
    &&& !c.paranoid_mode
}

impl SecurityConfig {
    /// The default configuration (see `is_default_config`).
    pub fn default() -> (c: SecurityConfig)
        ensures
            is_default_config(c),
    {
        let algorithm = "AES-256-GCM";
        proof {
            reveal_strlit("AES-256-GCM");
        }
        assert(algorithm@ =~= seq!['A', 'E', 'S', '-', '2', '5', '6', '-', 'G', 'C', 'M']);
        SecurityConfig {
            enabled: true,
            encryption_algorithm: algorithm.to_owned(),
            enable_direct_detection: true,
            enable_indirect_detection: true,
            enable_leaking_detection: true,
            min_confidence_threshold_bits: 0x3F00_0000u32,
            auto_sanitize: true,
            filter_output: true,
            paranoid_mode: false,
        }
    }

    /// The default configuration.
    pub fn new() -> (c: SecurityConfig)
        ensures
            is_default_config(c),
    {
        SecurityConfig::default()
    }

    /// A copy.
    pub fn duplicate(&self) -> (c: SecurityConfig)
        ensures
            same_config(c, *self),
    {
        SecurityConfig {
            enabled: self.enabled,
            encryption_algorithm: self.encryption_algorithm.clone(),
            enable_direct_detection: self.enable_direct_detection,
            enable_indirect_detection: self.enable_indirect_detection,
            enable_leaking_detection: self.enable_leaking_detection,
            min_confidence_threshold_bits: self.min_confidence_threshold_bits,
            auto_sanitize: self.auto_sanitize,
            filter_output: self.filter_output,
            paranoid_mode: self.paranoid_mode,
        }
    }
}

// ---------------------------------------------------------------------------
// Counts of verdicts
// ---------------------------------------------------------------------------

/// How many inputs were judged, by kind of verdict.
pub struct DetectionStats {
    pub direct_injection: u32,
    pub indirect_injection: u32,
    pub prompt_leaking: u32,
    pub safe: u32,
    pub total_processed: u32,
}

impl DetectionStats {
    /// The total is the sum of the kinds.
    pub open spec fn wf(&self) -> bool {
        self.total_processed == self.direct_injection + self.indirect_injection
            + self.prompt_leaking + self.safe
    }

    /// The counts after one more verdict of kind `kind`.
    pub open spec fn bumped(self, kind: AttackType) -> DetectionStats {
        DetectionStats {
            direct_injection: if kind == AttackType::DirectPromptInjection {
                (self.direct_injection + 1) as u32
            } else {
                self.direct_injection
            },
            indirect_injection: if kind == AttackType::IndirectPromptInjection {
                (self.indirect_injection + 1) as u32
            } else {
                self.indirect_injection
            },
            prompt_leaking: if kind == AttackType::PromptLeaking {
                (self.prompt_leaking + 1) as u32
            } else {
                self.prompt_leaking
            },
            safe: if kind == AttackType::NoAttack {
                (self.safe + 1) as u32
            } else {
                self.safe
            },
            total_processed: (self.total_processed + 1) as u32,
        }
    }

    /// No verdict yet.
    pub fn empty() -> (s: DetectionStats)
        ensures
            s.wf(),
            s.total_processed == 0,
            s.direct_injection == 0 && s.indirect_injection == 0,
            s.prompt_leaking == 0 && s.safe == 0,
    {
        DetectionStats {
            direct_injection: 0,
            indirect_injection: 0,
            prompt_leaking: 0,
            safe: 0,
            total_processed: 0,
        }
    }

    /// Counts one more verdict of kind `kind`.
    pub fn record(&mut self, kind: AttackType)
        requires
            old(self).wf(),
            old(self).total_processed < u32::MAX,
        ensures
            final(self).wf(),
            *final(self) == old(self).bumped(kind),
        no_unwind
    {
        match kind {
            AttackType::DirectPromptInjection => self.direct_injection = self.direct_injection + 1,
            AttackType::IndirectPromptInjection => self.indirect_injection = self.indirect_injection
                + 1,
            AttackType::PromptLeaking => self.prompt_leaking = self.prompt_leaking + 1,
            AttackType::NoAttack => self.safe = self.safe + 1,
        }
        self.total_processed = self.total_processed + 1;
    }
}

/// The entries that the counts show, keyed by name: each kind that was seen,
/// then `total_processed` once anything was.
pub open spec fn stats_entries(s: DetectionStats) -> Seq<(Seq<char>, u32)> {
    let d = if s.direct_injection > 0 {
        seq![(direct_key(), s.direct_injection)]
    } else {
        Seq::empty()
    };
    let i = if s.indirect_injection > 0 {
        seq![(indirect_key(), s.indirect_injection)]
    } else {
        Seq::empty()
    };
    let l = if s.prompt_leaking > 0 {
        seq![(leaking_key(), s.prompt_leaking)]
    } else {
        Seq::empty()
    };
    let f = if s.safe > 0 {
        seq![(safe_key(), s.safe)]
    } else {
        Seq::empty()
    };
    let t = if s.total_processed > 0 {
        seq![(total_key(), s.total_processed)]
    } else {
        Seq::empty()
    };
    d + i + l + f + t
}

pub open spec fn direct_key() -> Seq<char> {
    seq!['d', 'i', 'r', 'e', 'c', 't', '_', 'i', 'n', 'j', 'e', 'c', 't', 'i', 'o', 'n']
}

pub open spec fn indirect_key() -> Seq<char> {
    seq!['i', 'n', 'd', 'i', 'r', 'e', 'c', 't', '_', 'i', 'n', 'j', 'e', 'c', 't', 'i', 'o', 'n']
}

pub open spec fn leaking_key() -> Seq<char> {
    seq!['p', 'r', 'o', 'm', 'p', 't', '_', 'l', 'e', 'a', 'k', 'i', 'n', 'g']
}

pub open spec fn safe_key() -> Seq<char> {
    seq!['s', 'a', 'f', 'e']
}

pub open spec fn total_key() -> Seq<char> {
    seq!['t', 'o', 't', 'a', 'l', '_', 'p', 'r', 'o', 'c', 'e', 's', 's', 'e', 'd']
}

/// The entries as owned strings and counts.
pub open spec fn entry_views(v: Seq<(String, u32)>) -> Seq<(Seq<char>, u32)> {
    v.map_values(|e: (String, u32)| (e.0@, e.1))
}

fn push_entry(v: &mut Vec<(String, u32)>, key: &str, n: u32)
    ensures
        entry_views(final(v)@) == entry_views(old(v)@).push((key@, n)),
{
    let ghost prev = v@;
    v.push((key.to_owned(), n));
    assert(entry_views(v@) =~= entry_views(prev).push((key@, n)));
}

// ---------------------------------------------------------------------------
// Decisions
// ---------------------------------------------------------------------------

/// The service blocks an input: in paranoid mode on any confidence above
/// 0.3; otherwise on an injection whose confidence reaches the threshold.
pub open spec fn blocks(config: SecurityConfig, d: DetectionResult) -> bool {
    if config.paranoid_mode {
        f32_gt(d.confidence_bits, paranoid_bar())
    } else {
        d.is_injection && f32_ge(d.confidence_bits, config.min_confidence_threshold_bits)
    }
}

/// The service hands on a sanitized form: when sanitizing is on and the
/// input is blocked or is an injection.
pub open spec fn sanitizes(config: SecurityConfig, d: DetectionResult) -> bool {
    config.auto_sanitize && (blocks(config, d) || d.is_injection)
}

/// What became of one input.
pub struct ProcessResult {
    pub allowed: bool,
    pub detection: DetectionResult,
    pub sanitized_input: Option<String>,
    pub original_input: String,
}

impl ProcessResult {
    /// The sanitized input where there is one, else the original.
    pub fn effective_input(&self) -> (s: &str)
        ensures
            s@ == match self.sanitized_input {
                Some(t) => t@,
                None => self.original_input@,
            },
    {
        match &self.sanitized_input {
            Some(t) => t.as_str(),
            None => self.original_input.as_str(),
        }
    }
}

/// The security service: its configuration and its counts of verdicts.
pub struct SecurityService {
    config: SecurityConfig,
    stats: DetectionStats,
}

impl SecurityService {
    pub closed spec fn config_spec(&self) -> SecurityConfig {
        self.config
    }

    pub closed spec fn stats_spec(&self) -> DetectionStats {
        self.stats
    }

    /// The counts add up.
    #[verifier::type_invariant]
    closed spec fn wf(&self) -> bool {
        self.stats.wf()
    }

    /// How many inputs were judged.
    pub fn total_processed(&self) -> (n: u32)
        ensures
            n == self.stats_spec().total_processed,
    {
        self.stats.total_processed
    }

    /// A service with the default configuration and no verdicts.
    pub fn new() -> (s: SecurityService)
        ensures
            is_default_config(s.config_spec()),
            s.stats_spec().total_processed == 0,
            stats_entries(s.stats_spec()).len() == 0,
    {
        SecurityService { config: SecurityConfig::default(), stats: DetectionStats::empty() }
    }

    /// A service with the given configuration and no verdicts.
    pub fn with_config(config: SecurityConfig) -> (s: SecurityService)
        ensures
            s.config_spec() == config,
            s.stats_spec().total_processed == 0,
            stats_entries(s.stats_spec()).len() == 0,
    {
        SecurityService { config, stats: DetectionStats::empty() }
    }

    /// Whether the service blocks an input with this verdict.
    pub fn should_block(&self, detection: &DetectionResult) -> (b: bool)
        ensures
            b == blocks(self.config_spec(), *detection),
    {
        if self.config.paranoid_mode {
            float_gt(detection.confidence_bits, 0x3E99_999Au32)
        } else {
            detection.is_injection && float_ge(
                detection.confidence_bits,
                self.config.min_confidence_threshold_bits,
            )
        }
    }

    /// Whether the service hands on a sanitized form of an input with this
    /// verdict.
    pub fn should_sanitize(&self, detection: &DetectionResult) -> (b: bool)
        ensures
            b == sanitizes(self.config_spec(), *detection),
    {
        self.config.auto_sanitize && (self.should_block(detection) || detection.is_injection)
    }

    /// Takes the detector's verdict on `input` (and its sanitized form of
    /// `input`): counts the verdict, and says whether the input is allowed
    /// and what sanitized form goes on with it.
    pub fn process_detected(
        &mut self,
        input: &str,
        detection: DetectionResult,
        sanitized: String,
    ) -> (r: ProcessResult)
        requires
            old(self).stats_spec().total_processed < u32::MAX,
        ensures
            final(self).config_spec() == old(self).config_spec(),
            final(self).stats_spec() == old(self).stats_spec().bumped(detection.attack_type),
            r.allowed == !blocks(old(self).config_spec(), detection),
            r.detection == detection,
            r.original_input@ == input@,
            r.sanitized_input == (if sanitizes(old(self).config_spec(), detection) {
                Some(sanitized)
            } else {
                None
            }),
    {
        proof {
            use_type_invariant(&*self);
        }
        self.stats.record(detection.attack_type);
        let block = self.should_block(&detection);
        let sanitized_input = if self.should_sanitize(&detection) {
            Some(sanitized)
        } else {
            None
        };
        ProcessResult {
            allowed: !block,
            detection,
            sanitized_input,
            original_input: input.to_owned(),
        }
    }

    /// The output to hand on: the detector's filtered form of it when output
    /// filtering is on, else the output unchanged.
    pub fn process_output(&self, output: &str, filtered: String) -> (r: String)
        ensures
            r@ == (if self.config_spec().filter_output {
                filtered@
            } else {
                output@
            }),
    {
        if self.config.filter_output {
            filtered
        } else {
            output.to_owned()
        }
    }

    /// The counts by name (see `stats_entries`).
    pub fn get_stats(&self) -> (r: Vec<(String, u32)>)
        ensures
            entry_views(r@) == stats_entries(self.stats_spec()),
    {
        proof {
            reveal_strlit("direct_injection");
            reveal_strlit("indirect_injection");
            reveal_strlit("prompt_leaking");
            reveal_strlit("safe");
            reveal_strlit("total_processed");
            assert("direct_injection"@ =~= direct_key());
            assert("indirect_injection"@ =~= indirect_key());
            assert("prompt_leaking"@ =~= leaking_key());
            assert("safe"@ =~= safe_key());
            assert("total_processed"@ =~= total_key());
        }
        let mut r: Vec<(String, u32)> = Vec::new();
        assert(entry_views(r@) =~= Seq::empty());
        if self.stats.direct_injection > 0 {
            push_entry(&mut r, "direct_injection", self.stats.direct_injection);
        }
        if self.stats.indirect_injection > 0 {
            push_entry(&mut r, "indirect_injection", self.stats.indirect_injection);
        }
        if self.stats.prompt_leaking > 0 {
            push_entry(&mut r, "prompt_leaking", self.stats.prompt_leaking);
        }
        if self.stats.safe > 0 {
            push_entry(&mut r, "safe", self.stats.safe);
        }
        if self.stats.total_processed > 0 {
            push_entry(&mut r, "total_processed", self.stats.total_processed);
        }
        assert(entry_views(r@) =~= stats_entries(self.stats_spec()));
        r
    }

    /// Forgets all verdicts.
    pub fn reset_stats(&mut self)
        ensures
            final(self).config_spec() == old(self).config_spec(),
            final(self).stats_spec().total_processed == 0,
            stats_entries(final(self).stats_spec()).len() == 0,
    {
        self.stats = DetectionStats::empty();
    }

    /// Replaces the configuration.
    pub fn update_config(&mut self, config: SecurityConfig)
        ensures
            final(self).config_spec() == config,
            final(self).stats_spec() == old(self).stats_spec(),
    {
        proof {
            use_type_invariant(&*self);
        }
        self.config = config;
    }

    /// A copy of the configuration.
    pub fn get_config(&self) -> (c: SecurityConfig)
        ensures
            same_config(c, self.config_spec()),
    {
        self.config.duplicate()
    }
}

} // verus!
