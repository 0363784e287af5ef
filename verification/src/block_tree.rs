//! Source-bounded block discovery.
//!
//! This module converts a single outside-in boundary traversal into untyped
//! source bounds. Its context, transition, and prefix rules are canonical
//! data; sealing binds them to one token profile. The resulting tree and its
//! source bounds remain runtime-only.

use vstd::prelude::*;

use crate::boundary::{
    bound_from, bound_of, char_position, char_position_of, configuration_error, configured_scan,
    lemma_scan_level_nesting, level_stop, node_within, nodes_within, TraversalModel,
    context_index_from, lemma_bound_eq, lemma_bound_from, lemma_source_bound_of, level_result_is,
    longest_match_at, source_bound_of, lemma_context_index_from, offset_after, BoundaryNode,
    BoundaryReader, DiscoveredDelimitedBoundary, ScanGoal, BoundaryDiscoveryConfiguration, BoundaryDiscoveryContext,
    BoundaryDiscoveryContextIdentifier, BoundaryDiscoveryError,
    SealedBoundaryDiscoveryConfiguration, SourceBound,
};
use crate::order::{
    find_smallest_duplicate_key, is_strictly_sorted_by_key, smallest_duplicate_key, sort_by_key,
    sorted_by_key, strictly_sorted_by_key, SortKey,
};
use crate::profile::{
    class_is_canonical, class_matches, prefixes_overlap, same_class, same_data, trigger_of,
    CharacterClass, SealedTokenProfile, SealedTriggerSet, TokenProfileData, TokenProfileError,
    Trigger, TriggerDefinition, TriggerIdentifier,
};
use crate::text::{
    byte_offset, chars_occur_at, chars_of, is_char_offset, is_unicode_whitespace, occurs_at,
    seq_starts_with,
    str_equal, text_bytes, unicode_whitespace,
};

verus! {

/// One inclusive spelling recorded as a block cue.
///
/// The cue bound is the opening spelling in the source. Its evidence is the
/// typed sealed rule identity that matched that spelling.
#[derive(Clone, Copy, Debug, PartialEq, Eq)]
pub struct BlockCue<Evidence = TriggerIdentifier> {
    bound: SourceBound,
    evidence: Evidence,
}

impl<Evidence: Copy> BlockCue<Evidence> {
    pub closed spec fn spec_bound(self) -> SourceBound {
        self.bound
    }

    pub closed spec fn spec_evidence(self) -> Evidence {
        self.evidence
    }

    /// The cue with the given bound and evidence.
    pub closed spec fn of(bound: SourceBound, evidence: Evidence) -> Self {
        BlockCue { bound, evidence }
    }

    pub proof fn lemma_of(bound: SourceBound, evidence: Evidence)
        ensures
            Self::of(bound, evidence).spec_bound() == bound,
            Self::of(bound, evidence).spec_evidence() == evidence,
    {
    }

    /// The source bound of the opening boundary spelling.
    pub fn bound(self) -> (r: SourceBound)
        ensures
            r == self.spec_bound(),
    {
        self.bound
    }

    /// The sealed boundary or cue rule that supplied this cue.
    pub fn evidence(self) -> (r: Evidence)
        ensures
            r == self.spec_evidence(),
    {
        self.evidence
    }
}

/// Canonical identity of one cue-to-termination rule.
#[derive(Clone, Copy, Debug, PartialEq, Eq, Structural, Hash, Ord)]
pub struct CueTerminationRuleIdentifier(u16);

impl View for CueTerminationRuleIdentifier {
    type V = u16;

    closed spec fn view(&self) -> u16 {
        self.0
    }
}

impl CueTerminationRuleIdentifier {
    pub fn new(value: u16) -> (r: Self)
        ensures
            r@ == value,
    {
        Self(value)
    }

    pub fn value(self) -> (v: u16)
        ensures
            v == self@,
    {
        self.0
    }

    pub proof fn lemma_view_injective(a: Self, b: Self)
        ensures
            (a@ == b@) <==> (a == b),
    {
    }
}

/// How a cue-terminated block ends.
#[derive(Debug, PartialEq, Eq)]
pub enum CueTermination {
    /// End at an exact spelling observed at the cue's source level.
    ExactSpelling(String),
    /// End after one complete balanced boundary observed at the cue's source
    /// level. The boundary remains a discovered child of the cue block.
    ClosingBoundary(TriggerIdentifier),
}

/// Two terminations with the same variant and spelling or boundary.
pub open spec fn same_termination(a: CueTermination, b: CueTermination) -> bool {
    match (a, b) {
        (CueTermination::ExactSpelling(x), CueTermination::ExactSpelling(y)) => x@ == y@,
        (CueTermination::ClosingBoundary(x), CueTermination::ClosingBoundary(y)) => x == y,
        _ => false,
    }
}

impl Clone for CueTermination {
    fn clone(&self) -> (r: Self)
        ensures
            same_termination(r, *self),
    {
        match self {
            CueTermination::ExactSpelling(s) => CueTermination::ExactSpelling(s.clone()),
            CueTermination::ClosingBoundary(b) => CueTermination::ClosingBoundary(*b),
        }
    }
}

/// A word cue and its typed termination.
///
/// `word_characters` is used only to prove that the cue is a complete word,
/// rather than a prefix within another word. The rule does not describe the
/// block's grammar.
#[derive(Debug, PartialEq, Eq)]
pub struct CueTerminationRule {
    identifier: CueTerminationRuleIdentifier,
    cue: String,
    termination: CueTermination,
    word_characters: CharacterClass,
}

/// Two rules with the same identifier, cue, termination, and word alphabet.
pub open spec fn same_rule(a: CueTerminationRule, b: CueTerminationRule) -> bool {
    &&& a.spec_identifier() == b.spec_identifier()
    &&& a.spec_cue() == b.spec_cue()
    &&& same_termination(a.spec_termination(), b.spec_termination())
    &&& same_class(a.spec_word_characters(), b.spec_word_characters())
}

impl Clone for CueTerminationRule {
    fn clone(&self) -> (r: Self)
        ensures
            same_rule(r, *self),
    {
        CueTerminationRule {
            identifier: self.identifier,
            cue: self.cue.clone(),
            termination: self.termination.clone(),
            word_characters: self.word_characters.clone(),
        }
    }
}

impl CueTerminationRule {
    pub closed spec fn spec_identifier(self) -> CueTerminationRuleIdentifier {
        self.identifier
    }

    pub closed spec fn spec_cue(self) -> Seq<char> {
        self.cue@
    }

    pub closed spec fn spec_termination(self) -> CueTermination {
        self.termination
    }

    pub closed spec fn spec_word_characters(self) -> CharacterClass {
        self.word_characters
    }

    /// A rule that ends at an exact `termination` spelling.
    pub fn new(
        identifier: CueTerminationRuleIdentifier,
        cue: &str,
        termination: &str,
        word_characters: CharacterClass,
    ) -> (r: Self)
        ensures
            r.spec_identifier() == identifier,
            r.spec_cue() == cue@,
            r.spec_termination() matches CueTermination::ExactSpelling(t) && t@ == termination@,
            r.spec_word_characters() == word_characters,
    {
        CueTerminationRule {
            identifier,
            cue: cue.to_owned(),
            termination: CueTermination::ExactSpelling(termination.to_owned()),
            word_characters,
        }
    }

    /// A rule that ends after one complete `boundary`.
    pub fn through_boundary(
        identifier: CueTerminationRuleIdentifier,
        cue: &str,
        boundary: TriggerIdentifier,
        word_characters: CharacterClass,
    ) -> (r: Self)
        ensures
            r.spec_identifier() == identifier,
            r.spec_cue() == cue@,
            r.spec_termination() == CueTermination::ClosingBoundary(boundary),
            r.spec_word_characters() == word_characters,
    {
        CueTerminationRule {
            identifier,
            cue: cue.to_owned(),
            termination: CueTermination::ClosingBoundary(boundary),
            word_characters,
        }
    }

    pub fn identifier(&self) -> (r: CueTerminationRuleIdentifier)
        ensures
            r == self.spec_identifier(),
    {
        self.identifier
    }

    pub fn cue(&self) -> (r: &str)
        ensures
            r@ == self.spec_cue(),
    {
        self.cue.as_str()
    }

    pub fn termination(&self) -> (r: &CueTermination)
        ensures
            *r == self.spec_termination(),
    {
        &self.termination
    }

    pub fn word_characters(&self) -> (r: &CharacterClass)
        ensures
            *r == self.spec_word_characters(),
    {
        &self.word_characters
    }
}

impl SortKey for CueTerminationRule {
    open spec fn spec_key(&self) -> u64 {
        self.spec_identifier()@ as u64
    }

    fn sort_key(&self) -> (k: u64) {
        self.identifier.0 as u64
    }
}

/// Canonical rule data for one prefix spelling.
#[derive(Debug, PartialEq, Eq)]
pub struct BlockPrefixRule {
    separator: String,
    word_characters: CharacterClass,
}

/// Two prefix rules with the same separator and word alphabet.
pub open spec fn same_prefix_rule(a: BlockPrefixRule, b: BlockPrefixRule) -> bool {
    a.spec_separator() == b.spec_separator() && same_class(
        a.spec_word_characters(),
        b.spec_word_characters(),
    )
}

impl Clone for BlockPrefixRule {
    fn clone(&self) -> (r: Self)
        ensures
            same_prefix_rule(r, *self),
    {
        BlockPrefixRule {
            separator: self.separator.clone(),
            word_characters: self.word_characters.clone(),
        }
    }
}

impl BlockPrefixRule {
    pub closed spec fn spec_separator(self) -> Seq<char> {
        self.separator@
    }

    pub closed spec fn spec_word_characters(self) -> CharacterClass {
        self.word_characters
    }

    pub fn new(separator: &str, word_characters: CharacterClass) -> (r: Self)
        ensures
            r.spec_separator() == separator@,
            r.spec_word_characters() == word_characters,
    {
        BlockPrefixRule { separator: separator.to_owned(), word_characters }
    }

    pub fn separator(&self) -> (r: &str)
        ensures
            r@ == self.spec_separator(),
    {
        self.separator.as_str()
    }

    pub fn word_characters(&self) -> (r: &CharacterClass)
        ensures
            *r == self.spec_word_characters(),
    {
        &self.word_characters
    }
}

/// One prefix rule attached to an opening boundary declaration.
#[derive(Debug, PartialEq, Eq)]
pub struct BlockPrefixAttachment {
    boundary: TriggerIdentifier,
    rule: BlockPrefixRule,
}

/// Two attachments of the same rule to the same boundary.
pub open spec fn same_attachment(a: BlockPrefixAttachment, b: BlockPrefixAttachment) -> bool {
    a.spec_boundary() == b.spec_boundary() && same_prefix_rule(a.spec_rule(), b.spec_rule())
}

impl Clone for BlockPrefixAttachment {
    fn clone(&self) -> (r: Self)
        ensures
            same_attachment(r, *self),
    {
        BlockPrefixAttachment { boundary: self.boundary, rule: self.rule.clone() }
    }
}

impl BlockPrefixAttachment {
    pub closed spec fn spec_boundary(self) -> TriggerIdentifier {
        self.boundary
    }

    pub closed spec fn spec_rule(self) -> BlockPrefixRule {
        self.rule
    }

    pub fn new(boundary: TriggerIdentifier, rule: BlockPrefixRule) -> (r: Self)
        ensures
            r.spec_boundary() == boundary,
            r.spec_rule() == rule,
    {
        BlockPrefixAttachment { boundary, rule }
    }

    pub fn boundary(&self) -> (r: TriggerIdentifier)
        ensures
            r == self.spec_boundary(),
    {
        self.boundary
    }

    pub fn rule(&self) -> (r: &BlockPrefixRule)
        ensures
            *r == self.spec_rule(),
    {
        &self.rule
    }
}

impl SortKey for BlockPrefixAttachment {
    open spec fn spec_key(&self) -> u64 {
        self.spec_boundary()@ as u64
    }

    fn sort_key(&self) -> (k: u64) {
        self.boundary.value() as u64
    }
}

/// The prefix source evidence attached to one discovered block.
#[derive(Clone, Copy, Debug, PartialEq, Eq, Structural)]
pub struct BlockPrefix {
    word: SourceBound,
    separator: SourceBound,
}

impl BlockPrefix {
    pub closed spec fn spec_word(self) -> SourceBound {
        self.word
    }

    pub closed spec fn spec_separator(self) -> SourceBound {
        self.separator
    }

    /// The prefix with the given word and separator bounds.
    pub closed spec fn of(word: SourceBound, separator: SourceBound) -> Self {
        BlockPrefix { word, separator }
    }

    pub proof fn lemma_of(word: SourceBound, separator: SourceBound)
        ensures
            Self::of(word, separator).spec_word() == word,
            Self::of(word, separator).spec_separator() == separator,
    {
    }

    /// The source bound of the prefix word.
    pub fn word(self) -> (r: SourceBound)
        ensures
            r == self.spec_word(),
    {
        self.word
    }

    /// The source bound of the configured separator before the opening.
    pub fn separator(self) -> (r: SourceBound)
        ensures
            r == self.spec_separator(),
    {
        self.separator
    }
}

/// Structural failures while finding configured block boundaries.
#[derive(Clone, Copy, Debug, PartialEq, Eq, Structural)]
pub enum BlockDiscoveryError {
    Boundary(BoundaryDiscoveryError),
    Profile(TokenProfileError),
    EmptyPrefixSeparator { boundary: TriggerIdentifier },
    DuplicatePrefixRule { boundary: TriggerIdentifier },
    NoncanonicalPrefixOrder,
    NoncanonicalPrefixAlphabet { boundary: TriggerIdentifier },
    PrefixRequiresBoundary { trigger: TriggerIdentifier },
    UnconfiguredPrefixBoundary { boundary: TriggerIdentifier },
    DuplicateCueRule { rule: CueTerminationRuleIdentifier },
    NoncanonicalCueRuleOrder,
    DuplicateCueSpelling { first: CueTerminationRuleIdentifier, second: CueTerminationRuleIdentifier },
    EmptyCue { rule: CueTerminationRuleIdentifier },
    EmptyTermination { rule: CueTerminationRuleIdentifier },
    NoncanonicalCueAlphabet { rule: CueTerminationRuleIdentifier },
    CueOutsideWordAlphabet { rule: CueTerminationRuleIdentifier },
    CueRuleTriggerOverlap { rule: CueTerminationRuleIdentifier, trigger: TriggerIdentifier },
    UnclosedCueTerminatedBlock { rule: CueTerminationRuleIdentifier, cue: SourceBound },
}

/// Whether some context of `contexts` activates `boundary`.
pub open spec fn contexts_activate(
    contexts: Seq<BoundaryDiscoveryContext>,
    boundary: TriggerIdentifier,
) -> bool {
    exists|i: int| 0 <= i < contexts.len() && (#[trigger] contexts[i]).spec_triggers().contains(boundary)
}

/// The boundary identifier whose key is `k`.
pub open spec fn trigger_with_key(k: u64) -> TriggerIdentifier {
    choose|b: TriggerIdentifier| b@ as u64 == k
}

/// The first prefix attachment from `i` that cannot be sealed.
pub open spec fn prefix_error_from(
    data: TokenProfileData,
    contexts: Seq<BoundaryDiscoveryContext>,
    prefixes: Seq<BlockPrefixAttachment>,
    i: int,
) -> Option<BlockDiscoveryError>
    decreases prefixes.len() - i,
{
    if i < 0 || i >= prefixes.len() {
        None
    } else {
        let b = prefixes[i].spec_boundary();
        let rule = prefixes[i].spec_rule();
        if rule.spec_separator().len() == 0 {
            Some(BlockDiscoveryError::EmptyPrefixSeparator { boundary: b })
        } else if !class_is_canonical(rule.spec_word_characters()) {
            Some(BlockDiscoveryError::NoncanonicalPrefixAlphabet { boundary: b })
        } else {
            match trigger_of(data.spec_definitions(), b) {
                None => Some(
                    BlockDiscoveryError::Profile(TokenProfileError::UnknownTriggerIdentifier(b)),
                ),
                Some(t) => if !(t is Boundary) {
                    Some(BlockDiscoveryError::PrefixRequiresBoundary { trigger: b })
                } else if !contexts_activate(contexts, b) {
                    Some(BlockDiscoveryError::UnconfiguredPrefixBoundary { boundary: b })
                } else {
                    prefix_error_from(data, contexts, prefixes, i + 1)
                },
            }
        }
    }
}

/// Why a block-tree configuration cannot be sealed against `data`.
pub open spec fn block_configuration_error(
    configuration: BlockTreeDiscoveryConfiguration,
    data: TokenProfileData,
) -> Option<BlockDiscoveryError> {
    let prefixes = configuration.spec_prefixes();
    match configuration_error(configuration.spec_boundaries(), data) {
        Some(e) => Some(BlockDiscoveryError::Boundary(e)),
        None => match smallest_duplicate_key(prefixes) {
            Some(k) => Some(BlockDiscoveryError::DuplicatePrefixRule { boundary: trigger_with_key(k) }),
            None => if !strictly_sorted_by_key(prefixes) {
                Some(BlockDiscoveryError::NoncanonicalPrefixOrder)
            } else {
                prefix_error_from(data, configuration.spec_boundaries().spec_contexts(), prefixes, 0)
            },
        },
    }
}

/// Whether `sealed` is `configuration` bound to profile data `data`.
pub open spec fn block_configuration_sealed(
    sealed: SealedBlockTreeDiscoveryConfiguration,
    configuration: BlockTreeDiscoveryConfiguration,
    data: TokenProfileData,
) -> bool {
    let boundaries = configuration.spec_boundaries();
    &&& sealed.spec_boundaries().spec_root() == boundaries.spec_root()
    &&& sealed.spec_boundaries().spec_transitions() == boundaries.spec_transitions()
    &&& same_data(sealed.spec_boundaries().identity_data(), data)
    &&& sealed.spec_boundaries().context_identifiers() == boundaries.spec_contexts().map_values(
        |c: BoundaryDiscoveryContext| c.spec_identifier(),
    )
    &&& sealed.spec_boundaries().context_triggers() == boundaries.spec_contexts().map_values(
        |c: BoundaryDiscoveryContext| c.spec_triggers(),
    )
    &&& sealed.spec_prefixes().len() == configuration.spec_prefixes().len()
    &&& forall|i: int|
        0 <= i < configuration.spec_prefixes().len() ==> same_attachment(
            #[trigger] sealed.spec_prefixes()[i],
            configuration.spec_prefixes()[i],
        )
}

fn copy_attachments(v: &Vec<BlockPrefixAttachment>) -> (r: Vec<BlockPrefixAttachment>)
    ensures
        r@.len() == v@.len(),
        forall|i: int| 0 <= i < v@.len() ==> same_attachment(#[trigger] r@[i], v@[i]),
{
    let mut r: Vec<BlockPrefixAttachment> = Vec::new();
    let mut i: usize = 0;
    while i < v.len()
        invariant
            i <= v.len(),
            r@.len() == i,
            forall|j: int| 0 <= j < i ==> same_attachment(#[trigger] r@[j], v@[j]),
        decreases v.len() - i,
    {
        r.push(v[i].clone());
        i = i + 1;
    }
    r
}

/// Canonical rule data for a source-bounded block tree.
///
/// The configuration itself carries no source bounds. Sealing validates it
/// against one exact token profile before it can drive discovery.
/// Whether `r` is the rule data built from `boundaries` and `prefixes`: the
/// same boundary data, and the same prefix attachments put in boundary order.
pub open spec fn block_configuration_built(
    r: BlockTreeDiscoveryConfiguration,
    boundaries: BoundaryDiscoveryConfiguration,
    prefixes: Seq<BlockPrefixAttachment>,
) -> bool {
    &&& r.spec_boundaries() == boundaries
    &&& r.spec_prefixes().to_multiset() == prefixes.to_multiset()
    &&& sorted_by_key(r.spec_prefixes())
}

#[derive(Clone, Debug, PartialEq, Eq)]
pub struct BlockTreeDiscoveryConfiguration {
    boundaries: BoundaryDiscoveryConfiguration,
    prefixes: Vec<BlockPrefixAttachment>,
}

impl BlockTreeDiscoveryConfiguration {
    pub closed spec fn spec_boundaries(self) -> BoundaryDiscoveryConfiguration {
        self.boundaries
    }

    pub closed spec fn spec_prefixes(self) -> Seq<BlockPrefixAttachment> {
        self.prefixes@
    }

    /// The rule data, with the prefix attachments put in boundary order.
    pub fn new(boundaries: BoundaryDiscoveryConfiguration, prefixes: Vec<BlockPrefixAttachment>) -> (r:
        Self)
        ensures
            block_configuration_built(r, boundaries, prefixes@),
    {
        BlockTreeDiscoveryConfiguration { boundaries, prefixes: sort_by_key(prefixes) }
    }

    pub fn boundaries(&self) -> (r: &BoundaryDiscoveryConfiguration)
        ensures
            *r == self.spec_boundaries(),
    {
        &self.boundaries
    }

    pub fn prefixes(&self) -> (r: &[BlockPrefixAttachment])
        ensures
            r@ == self.spec_prefixes(),
    {
        self.prefixes.as_slice()
    }

    /// Check every prefix attachment against the profile and the sealed
    /// boundaries.
    fn check_prefixes(
        &self,
        profile: &SealedTokenProfile,
        boundaries: &SealedBoundaryDiscoveryConfiguration,
    ) -> (r: Result<(), BlockDiscoveryError>)
        requires
            boundaries.context_triggers() == self.boundaries.spec_contexts().map_values(
                |c: BoundaryDiscoveryContext| c.spec_triggers(),
            ),
        ensures
            match r {
                Ok(()) => prefix_error_from(profile.data(), self.boundaries.spec_contexts(), self.prefixes@, 0) is None,
                Err(e) => prefix_error_from(profile.data(), self.boundaries.spec_contexts(), self.prefixes@, 0) == Some(e),
            },
    {
        let ghost data = profile.data();
        let ghost contexts = self.boundaries.spec_contexts();
        let mut i: usize = 0;
        while i < self.prefixes.len()
            invariant
                i <= self.prefixes@.len(),
                contexts == self.boundaries.spec_contexts(),
                data == profile.data(),
                boundaries.context_triggers() == contexts.map_values(
                    |c: BoundaryDiscoveryContext| c.spec_triggers(),
                ),
                prefix_error_from(data, contexts, self.prefixes@, 0) == prefix_error_from(
                    data,
                    contexts,
                    self.prefixes@,
                    i as int,
                ),
            decreases self.prefixes.len() - i,
        {
            let prefix = &self.prefixes[i];
            let b = prefix.boundary;
            if prefix.rule.separator.as_str().is_empty() {
                return Err(BlockDiscoveryError::EmptyPrefixSeparator { boundary: b });
            }
            if !prefix.rule.word_characters.is_canonical() {
                return Err(BlockDiscoveryError::NoncanonicalPrefixAlphabet { boundary: b });
            }
            match profile.definition(b) {
                Err(e) => {
                    return Err(BlockDiscoveryError::Profile(e));
                },
                Ok(definition) => match definition.trigger {
                    Trigger::Boundary { .. } => {},
                    _ => {
                        return Err(BlockDiscoveryError::PrefixRequiresBoundary { trigger: b });
                    },
                },
            }
            let configured = boundaries.configures_boundary(b);
            proof {
                if configured {
                    let j = choose|j: int|
                        0 <= j < boundaries.context_triggers().len() && (#[trigger] boundaries.context_triggers()[j]).contains(b);
                    assert(contexts[j].spec_triggers() == boundaries.context_triggers()[j]);
                } else {
                    assert forall|j: int| 0 <= j < contexts.len() implies !(#[trigger] contexts[j]).spec_triggers().contains(b) by {
                        assert(contexts[j].spec_triggers() == boundaries.context_triggers()[j]);
                    }
                }
            }
            if !configured {
                return Err(BlockDiscoveryError::UnconfiguredPrefixBoundary { boundary: b });
            }
            i = i + 1;
        }
        Ok(())
    }

    /// Bind this rule data to `profile` after validating every reference and
    /// every prefix restriction.
    #[verifier::spinoff_prover]
    #[verifier::rlimit(40)]
    pub fn seal(&self, profile: &SealedTokenProfile) -> (r: Result<
        SealedBlockTreeDiscoveryConfiguration,
        BlockDiscoveryError,
    >)
        ensures
            match r {
                Ok(sealed) => block_configuration_error(*self, profile.data()) is None
                    && block_configuration_sealed(sealed, *self, profile.data()),
                Err(e) => block_configuration_error(*self, profile.data()) == Some(e),
            },
    {
        let ghost data = profile.data();
        let ghost contexts = self.boundaries.spec_contexts();
        let boundaries = match self.boundaries.seal(profile) {
            Ok(b) => b,
            Err(e) => {
                return Err(BlockDiscoveryError::Boundary(e));
            },
        };
        if let Some(i) = find_smallest_duplicate_key(&self.prefixes) {
            let boundary = self.prefixes[i].boundary;
            proof {
                let k = boundary@ as u64;
                let c = trigger_with_key(k);
                assert(c@ as u64 == k);
                TriggerIdentifier::lemma_view_injective(c, boundary);
            }
            return Err(BlockDiscoveryError::DuplicatePrefixRule { boundary });
        }
        if !is_strictly_sorted_by_key(&self.prefixes) {
            return Err(BlockDiscoveryError::NoncanonicalPrefixOrder);
        }
        match self.check_prefixes(profile, &boundaries) {
            Ok(()) => {},
            Err(e) => {
                return Err(e);
            },
        }
        Ok(
            SealedBlockTreeDiscoveryConfiguration {
                boundaries,
                prefixes: copy_attachments(&self.prefixes),
            },
        )
    }
}

/// Runtime rule data proven against one exact token profile.
#[derive(Clone, Debug)]
pub struct SealedBlockTreeDiscoveryConfiguration {
    boundaries: SealedBoundaryDiscoveryConfiguration,
    prefixes: Vec<BlockPrefixAttachment>,
}

/// The index of the first attachment to `boundary`, searching from `i`.
pub open spec fn prefix_index_from(
    prefixes: Seq<BlockPrefixAttachment>,
    boundary: TriggerIdentifier,
    i: int,
) -> Option<int>
    decreases prefixes.len() - i,
{
    if i < 0 || i >= prefixes.len() {
        None
    } else if prefixes[i].spec_boundary() == boundary {
        Some(i)
    } else {
        prefix_index_from(prefixes, boundary, i + 1)
    }
}

impl SealedBlockTreeDiscoveryConfiguration {
    pub closed spec fn spec_boundaries(self) -> SealedBoundaryDiscoveryConfiguration {
        self.boundaries
    }

    pub closed spec fn spec_prefixes(self) -> Seq<BlockPrefixAttachment> {
        self.prefixes@
    }

    fn matches_profile(&self, profile: &SealedTokenProfile) -> (r: bool)
        ensures
            r == same_data(self.spec_boundaries().identity_data(), profile.data()),
    {
        self.boundaries.matches_profile(profile)
    }

    /// The prefix rule attached to `boundary`, when one is.
    fn prefix_rule(&self, boundary: TriggerIdentifier) -> (r: Option<&BlockPrefixRule>)
        ensures
            match (r, prefix_index_from(self.spec_prefixes(), boundary, 0)) {
                (Some(rule), Some(k)) => *rule == self.spec_prefixes()[k].spec_rule(),
                (None, None) => true,
                _ => false,
            },
    {
        let mut i: usize = 0;
        while i < self.prefixes.len()
            invariant
                i <= self.prefixes@.len(),
                prefix_index_from(self.prefixes@, boundary, 0) == prefix_index_from(
                    self.prefixes@,
                    boundary,
                    i as int,
                ),
            decreases self.prefixes.len() - i,
        {
            if self.prefixes[i].boundary == boundary {
                return Some(&self.prefixes[i].rule);
            }
            i = i + 1;
        }
        None
    }

    /// The configured root context for source at the outermost level.
    pub fn root_context(&self) -> (r: BoundaryDiscoveryContextIdentifier)
        ensures
            r == self.spec_boundaries().spec_root(),
    {
        self.boundaries.root()
    }

    /// The exact, profile-sealed discovery triggers admitted at one context.
    pub fn active_triggers(&self, context: BoundaryDiscoveryContextIdentifier) -> (r: Result<
        &SealedTriggerSet,
        BoundaryDiscoveryError,
    >)
        ensures
            match r {
                Ok(set) => self.spec_boundaries().context_set(context) matches Some(c) && *set
                    == c.spec_active(),
                Err(e) => self.spec_boundaries().context_set(context) is None
                    && e == BoundaryDiscoveryError::UnknownContext { context },
            },
    {
        self.boundaries.active_triggers(context)
    }

    /// The context governing the interior of `boundary` opened at `context`.
    pub fn child_context(
        &self,
        context: BoundaryDiscoveryContextIdentifier,
        boundary: TriggerIdentifier,
    ) -> (r: Result<BoundaryDiscoveryContextIdentifier, BoundaryDiscoveryError>)
        ensures
            match r {
                Ok(c) => self.spec_boundaries().spec_child(context, boundary) == Some(c),
                Err(e) => self.spec_boundaries().spec_child(context, boundary) is None
                    && e == BoundaryDiscoveryError::MissingChildContext { context, boundary },
            },
    {
        self.boundaries.child_context(context, boundary)
    }
}


// ---------------------------------------------------------------------------
// Cue-to-termination rules.
// ---------------------------------------------------------------------------

/// Whether `spelling` could be confused at one cursor with trigger `t`.
pub open spec fn spelling_overlaps(t: Trigger, spelling: Seq<char>) -> bool {
    match t {
        Trigger::Boundary { opening, closing } => prefixes_overlap(spelling, opening@)
            || prefixes_overlap(spelling, closing@),
        Trigger::Carrier { opening, .. } => prefixes_overlap(spelling, opening@),
        Trigger::LineComment { opening } => prefixes_overlap(spelling, opening@),
        Trigger::Whitespace { .. } => spelling.len() > 0 && is_unicode_whitespace(spelling[0]),
        _ => false,
    }
}

/// The triggers active at the context declared at position `i`: those of
/// the first declaration of its identifier.
pub open spec fn level_triggers(contexts: Seq<BoundaryDiscoveryContext>, i: int) -> Seq<
    TriggerIdentifier,
> {
    match context_index_from(contexts, contexts[i].spec_identifier(), 0) {
        Some(k) => contexts[k].spec_triggers(),
        None => Seq::empty(),
    }
}

/// The first trigger, from trigger `k` of context `i` on, that `spelling`
/// overlaps.
pub open spec fn overlap_from(
    data: TokenProfileData,
    contexts: Seq<BoundaryDiscoveryContext>,
    rule: CueTerminationRuleIdentifier,
    spelling: Seq<char>,
    i: int,
    k: int,
) -> Option<BlockDiscoveryError>
    decreases contexts.len() - i, level_triggers(contexts, i).len() + 1 - k,
{
    if i < 0 || i >= contexts.len() || k < 0 {
        None
    } else if k >= level_triggers(contexts, i).len() {
        overlap_from(data, contexts, rule, spelling, i + 1, 0)
    } else {
        let id = level_triggers(contexts, i)[k];
        match trigger_of(data.spec_definitions(), id) {
            None => Some(BlockDiscoveryError::Profile(TokenProfileError::UnknownTriggerIdentifier(id))),
            Some(t) => if spelling_overlaps(t, spelling) {
                Some(BlockDiscoveryError::CueRuleTriggerOverlap { rule, trigger: id })
            } else {
                overlap_from(data, contexts, rule, spelling, i, k + 1)
            },
        }
    }
}

/// Why the termination of `rule` is inadmissible.
pub open spec fn termination_error(
    data: TokenProfileData,
    boundaries: BoundaryDiscoveryConfiguration,
    rule: CueTerminationRule,
) -> Option<BlockDiscoveryError> {
    let contexts = boundaries.spec_contexts();
    match rule.spec_termination() {
        CueTermination::ExactSpelling(t) => if t@.len() == 0 {
            Some(BlockDiscoveryError::EmptyTermination { rule: rule.spec_identifier() })
        } else {
            None
        },
        CueTermination::ClosingBoundary(b) => match context_index_from(
            contexts,
            boundaries.spec_root(),
            0,
        ) {
            None => Some(
                BlockDiscoveryError::Boundary(
                    BoundaryDiscoveryError::UnknownContext { context: boundaries.spec_root() },
                ),
            ),
            Some(r) => if !contexts[r].spec_triggers().contains(b) {
                Some(BlockDiscoveryError::Profile(TokenProfileError::InactiveBoundary { identifier: b }))
            } else {
                match trigger_of(data.spec_definitions(), b) {
                    None => Some(
                        BlockDiscoveryError::Profile(TokenProfileError::UnknownTriggerIdentifier(b)),
                    ),
                    Some(t) => if !(t is Boundary) {
                        Some(
                            BlockDiscoveryError::Profile(
                                TokenProfileError::UnsupportedBoundaryDiscoveryTrigger(b),
                            ),
                        )
                    } else {
                        None
                    },
                }
            },
        },
    }
}

/// Why one cue rule cannot be sealed.
pub open spec fn rule_error(
    data: TokenProfileData,
    boundaries: BoundaryDiscoveryConfiguration,
    rule: CueTerminationRule,
) -> Option<BlockDiscoveryError> {
    let id = rule.spec_identifier();
    let cue = rule.spec_cue();
    let word = rule.spec_word_characters();
    let contexts = boundaries.spec_contexts();
    if cue.len() == 0 {
        Some(BlockDiscoveryError::EmptyCue { rule: id })
    } else if termination_error(data, boundaries, rule) is Some {
        termination_error(data, boundaries, rule)
    } else if !class_is_canonical(word) {
        Some(BlockDiscoveryError::NoncanonicalCueAlphabet { rule: id })
    } else if !(forall|i: int| 0 <= i < cue.len() ==> class_matches(word, #[trigger] cue[i])) {
        Some(BlockDiscoveryError::CueOutsideWordAlphabet { rule: id })
    } else if overlap_from(data, contexts, id, cue, 0, 0) is Some {
        overlap_from(data, contexts, id, cue, 0, 0)
    } else {
        match rule.spec_termination() {
            CueTermination::ExactSpelling(t) => overlap_from(data, contexts, id, t@, 0, 0),
            _ => None,
        }
    }
}

/// The first rule from `i` that cannot be sealed.
pub open spec fn rules_error_from(
    data: TokenProfileData,
    boundaries: BoundaryDiscoveryConfiguration,
    rules: Seq<CueTerminationRule>,
    i: int,
) -> Option<BlockDiscoveryError>
    decreases rules.len() - i,
{
    if i < 0 || i >= rules.len() {
        None
    } else if rule_error(data, boundaries, rules[i]) is Some {
        rule_error(data, boundaries, rules[i])
    } else {
        rules_error_from(data, boundaries, rules, i + 1)
    }
}

proof fn lemma_rules_nonempty(
    data: TokenProfileData,
    boundaries: BoundaryDiscoveryConfiguration,
    rules: Seq<CueTerminationRule>,
    i: int,
)
    requires
        0 <= i,
        rules_error_from(data, boundaries, rules, i) is None,
    ensures
        forall|k: int| i <= k < rules.len() ==> (#[trigger] rules[k]).spec_cue().len() > 0,
    decreases rules.len() - i,
{
    if i < rules.len() {
        lemma_rules_nonempty(data, boundaries, rules, i + 1);
    }
}

/// The first rule from `j` whose cue is `cue`.
pub open spec fn same_cue_from(rules: Seq<CueTerminationRule>, cue: Seq<char>, j: int) -> Option<int>
    decreases rules.len() - j,
{
    if j < 0 || j >= rules.len() {
        None
    } else if rules[j].spec_cue() == cue {
        Some(j)
    } else {
        same_cue_from(rules, cue, j + 1)
    }
}

/// The first rule from `i` whose cue a later rule repeats, with the first
/// such later rule.
pub open spec fn repeated_cue_from(rules: Seq<CueTerminationRule>, i: int) -> Option<(int, int)>
    decreases rules.len() - i,
{
    if i < 0 || i >= rules.len() {
        None
    } else {
        match same_cue_from(rules, rules[i].spec_cue(), i + 1) {
            Some(j) => Some((i, j)),
            None => repeated_cue_from(rules, i + 1),
        }
    }
}

/// The rule identifier whose key is `k`.
pub open spec fn rule_with_key(k: u64) -> CueTerminationRuleIdentifier {
    choose|r: CueTerminationRuleIdentifier| r@ as u64 == k
}

/// Why a cue-terminated configuration cannot be sealed against `data`.
pub open spec fn cue_configuration_error(
    configuration: CueTerminatedBlockDiscoveryConfiguration,
    data: TokenProfileData,
) -> Option<BlockDiscoveryError> {
    let rules = configuration.spec_rules();
    let boundaries = configuration.spec_boundaries();
    match configuration_error(boundaries, data) {
        Some(e) => Some(BlockDiscoveryError::Boundary(e)),
        None => match smallest_duplicate_key(rules) {
            Some(k) => Some(BlockDiscoveryError::DuplicateCueRule { rule: rule_with_key(k) }),
            None => if !strictly_sorted_by_key(rules) {
                Some(BlockDiscoveryError::NoncanonicalCueRuleOrder)
            } else if rules_error_from(data, boundaries, rules, 0) is Some {
                rules_error_from(data, boundaries, rules, 0)
            } else {
                match repeated_cue_from(rules, 0) {
                    Some((i, j)) => Some(
                        BlockDiscoveryError::DuplicateCueSpelling {
                            first: rules[i].spec_identifier(),
                            second: rules[j].spec_identifier(),
                        },
                    ),
                    None => None,
                }
            },
        },
    }
}

/// Whether `spelling` could be confused at one cursor with the trigger that
/// `definition` declares.
fn trigger_spelling_overlaps(definition: &TriggerDefinition, spelling: &Vec<char>) -> (r: bool)
    ensures
        r == spelling_overlaps(definition.trigger, spelling@),
{
    match &definition.trigger {
        Trigger::Boundary { opening, closing } => {
            let o = chars_of(opening.as_str());
            let c = chars_of(closing.as_str());
            seq_starts_with(spelling, &o) || seq_starts_with(&o, spelling) || seq_starts_with(
                spelling,
                &c,
            ) || seq_starts_with(&c, spelling)
        },
        Trigger::Carrier { opening, .. } => {
            let o = chars_of(opening.as_str());
            seq_starts_with(spelling, &o) || seq_starts_with(&o, spelling)
        },
        Trigger::LineComment { opening } => {
            let o = chars_of(opening.as_str());
            seq_starts_with(spelling, &o) || seq_starts_with(&o, spelling)
        },
        Trigger::Whitespace { .. } => spelling.len() > 0 && unicode_whitespace(spelling[0]),
        _ => false,
    }
}

/// Refuse a rule spelling that overlaps a trigger active in any context.
fn ensure_rule_spelling_is_disjoint(
    profile: &SealedTokenProfile,
    boundaries: &SealedBoundaryDiscoveryConfiguration,
    rule: CueTerminationRuleIdentifier,
    spelling: &Vec<char>,
    Ghost(contexts): Ghost<Seq<BoundaryDiscoveryContext>>,
) -> (r: Result<(), BlockDiscoveryError>)
    requires
        boundaries.context_identifiers() == contexts.map_values(
            |c: BoundaryDiscoveryContext| c.spec_identifier(),
        ),
        boundaries.context_triggers() == contexts.map_values(
            |c: BoundaryDiscoveryContext| c.spec_triggers(),
        ),
    ensures
        match r {
            Ok(()) => overlap_from(profile.data(), contexts, rule, spelling@, 0, 0) is None,
            Err(e) => overlap_from(profile.data(), contexts, rule, spelling@, 0, 0) == Some(e),
        },
{
    let ghost data = profile.data();
    let ids = boundaries.contexts();
    let mut i: usize = 0;
    while i < ids.len()
        invariant
            i <= ids@.len(),
            ids@ == boundaries.context_identifiers(),
            ids@.len() == contexts.len(),
            boundaries.context_identifiers() == contexts.map_values(
                |c: BoundaryDiscoveryContext| c.spec_identifier(),
            ),
            boundaries.context_triggers() == contexts.map_values(
                |c: BoundaryDiscoveryContext| c.spec_triggers(),
            ),
            data == profile.data(),
            overlap_from(data, contexts, rule, spelling@, 0, 0) == overlap_from(
                data,
                contexts,
                rule,
                spelling@,
                i as int,
                0,
            ),
        decreases ids.len() - i,
    {
        proof {
            let c = ids@[i as int];
            assert(contexts[i as int].spec_identifier() == c);
            lemma_context_index_from(contexts, c, 0);
            boundaries.lemma_context_set(c);
            let k = context_index_from(contexts, c, 0)->0;
            assert(boundaries.context_identifiers()[k] == c);
            assert forall|j: int| 0 <= j < k implies boundaries.context_identifiers()[j] != c by {
                assert(boundaries.context_identifiers()[j] == contexts[j].spec_identifier());
            }
            let active = boundaries.context_set(c)->0;
            active.lemma_spec_active();
            assert(boundaries.context_set(c) matches Some(x) && x.spec_triggers() == boundaries.context_triggers()[k]);
            assert(boundaries.context_triggers()[k] == contexts[k].spec_triggers());
        }
        let set = match boundaries.active_triggers(ids[i]) {
            Ok(set) => set,
            Err(e) => {
                return Err(BlockDiscoveryError::Boundary(e));
            },
        };
        proof {
            boundaries.context_set(ids@[i as int])->0.lemma_spec_active();
        }
        let triggers = set.triggers();
        let mut k: usize = 0;
        while k < triggers.len()
            invariant
                i < ids@.len(),
                ids@.len() == contexts.len(),
                k <= triggers@.len(),
                triggers@ == level_triggers(contexts, i as int),
                data == profile.data(),
                overlap_from(data, contexts, rule, spelling@, 0, 0) == overlap_from(
                    data,
                    contexts,
                    rule,
                    spelling@,
                    i as int,
                    k as int,
                ),
            decreases triggers.len() - k,
        {
            let id = triggers[k];
            let definition = match profile.definition(id) {
                Ok(d) => d,
                Err(e) => {
                    return Err(BlockDiscoveryError::Profile(e));
                },
            };
            if trigger_spelling_overlaps(definition, spelling) {
                return Err(BlockDiscoveryError::CueRuleTriggerOverlap { rule, trigger: id });
            }
            k = k + 1;
        }
        i = i + 1;
    }
    Ok(())
}

fn copy_rules(v: &Vec<CueTerminationRule>) -> (r: Vec<CueTerminationRule>)
    ensures
        r@.len() == v@.len(),
        forall|i: int| 0 <= i < v@.len() ==> same_rule(#[trigger] r@[i], v@[i]),
{
    let mut r: Vec<CueTerminationRule> = Vec::new();
    let mut i: usize = 0;
    while i < v.len()
        invariant
            i <= v.len(),
            r@.len() == i,
            forall|j: int| 0 <= j < i ==> same_rule(#[trigger] r@[j], v@[j]),
        decreases v.len() - i,
    {
        r.push(v[i].clone());
        i = i + 1;
    }
    r
}

/// Canonical rules for cue-to-termination discovery.
///
/// Delimiter, carrier, comment, and trivia behavior is supplied by the same
/// boundary configuration used by block trees. Cue rules add only
/// complete-word beginnings and exact termination spellings.
#[derive(Clone, Debug, PartialEq, Eq)]
pub struct CueTerminatedBlockDiscoveryConfiguration {
    boundaries: BoundaryDiscoveryConfiguration,
    rules: Vec<CueTerminationRule>,
}

impl CueTerminatedBlockDiscoveryConfiguration {
    pub closed spec fn spec_boundaries(self) -> BoundaryDiscoveryConfiguration {
        self.boundaries
    }

    pub closed spec fn spec_rules(self) -> Seq<CueTerminationRule> {
        self.rules@
    }

    /// The rule data, with the rules put in identifier order.
    pub fn new(boundaries: BoundaryDiscoveryConfiguration, rules: Vec<CueTerminationRule>) -> (r:
        Self)
        ensures
            r.spec_boundaries() == boundaries,
            r.spec_rules().to_multiset() == rules@.to_multiset(),
            sorted_by_key(r.spec_rules()),
    {
        CueTerminatedBlockDiscoveryConfiguration { boundaries, rules: sort_by_key(rules) }
    }

    pub fn boundaries(&self) -> (r: &BoundaryDiscoveryConfiguration)
        ensures
            *r == self.spec_boundaries(),
    {
        &self.boundaries
    }

    pub fn rules(&self) -> (r: &[CueTerminationRule])
        ensures
            r@ == self.spec_rules(),
    {
        self.rules.as_slice()
    }

    /// Check the termination of one rule.
    fn check_termination(
        &self,
        profile: &SealedTokenProfile,
        boundaries: &SealedBoundaryDiscoveryConfiguration,
        rule: &CueTerminationRule,
    ) -> (r: Result<(), BlockDiscoveryError>)
        requires
            boundaries.spec_root() == self.boundaries.spec_root(),
            boundaries.context_identifiers() == self.boundaries.spec_contexts().map_values(
                |c: BoundaryDiscoveryContext| c.spec_identifier(),
            ),
            boundaries.context_triggers() == self.boundaries.spec_contexts().map_values(
                |c: BoundaryDiscoveryContext| c.spec_triggers(),
            ),
        ensures
            match r {
                Ok(()) => termination_error(profile.data(), self.boundaries, *rule) is None,
                Err(e) => termination_error(profile.data(), self.boundaries, *rule) == Some(e),
            },
    {
        let ghost contexts = self.boundaries.spec_contexts();
        match &rule.termination {
            CueTermination::ExactSpelling(spelling) => {
                if spelling.as_str().is_empty() {
                    return Err(BlockDiscoveryError::EmptyTermination { rule: rule.identifier });
                }
                Ok(())
            },
            CueTermination::ClosingBoundary(boundary) => {
                let root = boundaries.root();
                proof {
                    let c = root;
                    lemma_context_index_from(contexts, c, 0);
                    boundaries.lemma_context_set(c);
                    if let Some(k) = context_index_from(contexts, c, 0) {
                        assert(boundaries.context_identifiers()[k] == c);
                        assert forall|j: int| 0 <= j < k implies boundaries.context_identifiers()[j] != c by {
                            assert(boundaries.context_identifiers()[j] == contexts[j].spec_identifier());
                        }
                        boundaries.context_set(c)->0.lemma_spec_active();
                        assert(boundaries.context_set(c) matches Some(x) && x.spec_triggers() == boundaries.context_triggers()[k]);
                        assert(boundaries.context_triggers()[k] == contexts[k].spec_triggers());
                    } else {
                        assert forall|j: int| 0 <= j < boundaries.context_identifiers().len() implies boundaries.context_identifiers()[j] != c by {
                            assert(boundaries.context_identifiers()[j] == contexts[j].spec_identifier());
                        }
                    }
                }
                let set = match boundaries.active_triggers(root) {
                    Ok(set) => set,
                    Err(e) => {
                        return Err(BlockDiscoveryError::Boundary(e));
                    },
                };
                proof {
                    let k = context_index_from(contexts, root, 0)->0;
                    assert(context_index_from(contexts, root, 0) is Some);
                    assert(set.spec_triggers() == contexts[k].spec_triggers());
                }
                if !crate::profile::identifiers_contain(set.triggers(), *boundary) {
                    return Err(
                        BlockDiscoveryError::Profile(
                            TokenProfileError::InactiveBoundary { identifier: *boundary },
                        ),
                    );
                }
                match profile.definition(*boundary) {
                    Err(e) => Err(BlockDiscoveryError::Profile(e)),
                    Ok(definition) => match definition.trigger {
                        Trigger::Boundary { .. } => Ok(()),
                        _ => Err(
                            BlockDiscoveryError::Profile(
                                TokenProfileError::UnsupportedBoundaryDiscoveryTrigger(*boundary),
                            ),
                        ),
                    },
                }
            },
        }
    }

    /// Check one rule against the profile and the sealed boundaries.
    #[verifier::loop_isolation(false)]
    fn check_rule(
        &self,
        profile: &SealedTokenProfile,
        boundaries: &SealedBoundaryDiscoveryConfiguration,
        rule: &CueTerminationRule,
    ) -> (r: Result<(), BlockDiscoveryError>)
        requires
            boundaries.spec_root() == self.boundaries.spec_root(),
            boundaries.context_identifiers() == self.boundaries.spec_contexts().map_values(
                |c: BoundaryDiscoveryContext| c.spec_identifier(),
            ),
            boundaries.context_triggers() == self.boundaries.spec_contexts().map_values(
                |c: BoundaryDiscoveryContext| c.spec_triggers(),
            ),
        ensures
            match r {
                Ok(()) => rule_error(profile.data(), self.boundaries, *rule) is None,
                Err(e) => rule_error(profile.data(), self.boundaries, *rule) == Some(e),
            },
    {
        let ghost contexts = self.boundaries.spec_contexts();
        if rule.cue.as_str().is_empty() {
            return Err(BlockDiscoveryError::EmptyCue { rule: rule.identifier });
        }
        match self.check_termination(profile, boundaries, rule) {
            Ok(()) => {},
            Err(e) => {
                return Err(e);
            },
        }
        if !rule.word_characters.is_canonical() {
            return Err(BlockDiscoveryError::NoncanonicalCueAlphabet { rule: rule.identifier });
        }
        let cue = chars_of(rule.cue.as_str());
        let mut i: usize = 0;
        while i < cue.len()
            invariant
                i <= cue@.len(),
                cue@ == rule.spec_cue(),
                forall|j: int| 0 <= j < i ==> class_matches(rule.spec_word_characters(), #[trigger] cue@[j]),
            decreases cue.len() - i,
        {
            if !rule.word_characters.matches(cue[i]) {
                assert(!class_matches(rule.spec_word_characters(), rule.spec_cue()[i as int]));
                return Err(BlockDiscoveryError::CueOutsideWordAlphabet { rule: rule.identifier });
            }
            i = i + 1;
        }
        match ensure_rule_spelling_is_disjoint(profile, boundaries, rule.identifier, &cue, Ghost(contexts)) {
            Ok(()) => {},
            Err(e) => {
                return Err(e);
            },
        }
        match &rule.termination {
            CueTermination::ExactSpelling(termination) => {
                let t = chars_of(termination.as_str());
                ensure_rule_spelling_is_disjoint(profile, boundaries, rule.identifier, &t, Ghost(contexts))
            },
            CueTermination::ClosingBoundary(_) => Ok(()),
        }
    }

    /// The first two rules that share a cue spelling.
    fn find_repeated_cue(&self) -> (r: Option<(usize, usize)>)
        ensures
            r matches Some((a, b)) ==> a < b < self.rules@.len(),
            match (r, repeated_cue_from(self.rules@, 0)) {
                (Some((a, b)), Some((x, y))) => a == x && b == y,
                (None, None) => true,
                _ => false,
            },
    {
        let mut i: usize = 0;
        while i < self.rules.len()
            invariant
                i <= self.rules@.len(),
                repeated_cue_from(self.rules@, 0) == repeated_cue_from(self.rules@, i as int),
            decreases self.rules.len() - i,
        {
            let mut j: usize = i + 1;
            while j < self.rules.len()
                invariant
                    i < self.rules@.len(),
                    i + 1 <= j <= self.rules@.len(),
                    same_cue_from(self.rules@, self.rules@[i as int].spec_cue(), i + 1) == same_cue_from(
                        self.rules@,
                        self.rules@[i as int].spec_cue(),
                        j as int,
                    ),
                    repeated_cue_from(self.rules@, 0) == repeated_cue_from(self.rules@, i as int),
                decreases self.rules.len() - j,
            {
                if str_equal(self.rules[j].cue.as_str(), self.rules[i].cue.as_str()) {
                    return Some((i, j));
                }
                j = j + 1;
            }
            i = i + 1;
        }
        None
    }

    /// Bind these rules to `profile` after validating every rule.
    #[verifier::loop_isolation(false)]
    #[verifier::spinoff_prover]
    #[verifier::rlimit(40)]
    pub fn seal(&self, profile: &SealedTokenProfile) -> (r: Result<
        SealedCueTerminatedBlockDiscoveryConfiguration,
        BlockDiscoveryError,
    >)
        ensures
            match r {
                Ok(sealed) => cue_configuration_error(*self, profile.data()) is None
                    && sealed.spec_boundaries().spec_root() == self.spec_boundaries().spec_root()
                    && sealed.spec_boundaries().spec_transitions()
                    == self.spec_boundaries().spec_transitions() && same_data(
                    sealed.spec_boundaries().identity_data(),
                    profile.data(),
                ) && sealed.spec_boundaries().context_identifiers()
                    == self.spec_boundaries().spec_contexts().map_values(
                    |c: BoundaryDiscoveryContext| c.spec_identifier(),
                ) && sealed.spec_boundaries().context_triggers()
                    == self.spec_boundaries().spec_contexts().map_values(
                    |c: BoundaryDiscoveryContext| c.spec_triggers(),
                ) && sealed.spec_rules().len() == self.spec_rules().len() && (forall|i: int|
                    0 <= i < self.spec_rules().len() ==> same_rule(
                        #[trigger] sealed.spec_rules()[i],
                        self.spec_rules()[i],
                    )),
                Err(e) => cue_configuration_error(*self, profile.data()) == Some(e),
            },
    {
        let boundaries = match self.boundaries.seal(profile) {
            Ok(b) => b,
            Err(e) => {
                return Err(BlockDiscoveryError::Boundary(e));
            },
        };
        if let Some(i) = find_smallest_duplicate_key(&self.rules) {
            let rule = self.rules[i].identifier;
            proof {
                let k = rule@ as u64;
                let c = rule_with_key(k);
                assert(c@ as u64 == k);
                CueTerminationRuleIdentifier::lemma_view_injective(c, rule);
            }
            return Err(BlockDiscoveryError::DuplicateCueRule { rule });
        }
        if !is_strictly_sorted_by_key(&self.rules) {
            return Err(BlockDiscoveryError::NoncanonicalCueRuleOrder);
        }
        let mut i: usize = 0;
        while i < self.rules.len()
            invariant
                i <= self.rules@.len(),
                boundaries.spec_root() == self.boundaries.spec_root(),
                boundaries.context_identifiers() == self.boundaries.spec_contexts().map_values(
                    |c: BoundaryDiscoveryContext| c.spec_identifier(),
                ),
                boundaries.context_triggers() == self.boundaries.spec_contexts().map_values(
                    |c: BoundaryDiscoveryContext| c.spec_triggers(),
                ),
                rules_error_from(profile.data(), self.boundaries, self.rules@, 0) == rules_error_from(
                    profile.data(),
                    self.boundaries,
                    self.rules@,
                    i as int,
                ),
            decreases self.rules.len() - i,
        {
            match self.check_rule(profile, &boundaries, &self.rules[i]) {
                Ok(()) => {},
                Err(e) => {
                    return Err(e);
                },
            }
            i = i + 1;
        }
        if let Some((first, second)) = self.find_repeated_cue() {
            return Err(
                BlockDiscoveryError::DuplicateCueSpelling {
                    first: self.rules[first].identifier,
                    second: self.rules[second].identifier,
                },
            );
        }
        let rules = copy_rules(&self.rules);
        proof {
            lemma_rules_nonempty(profile.data(), self.boundaries, self.rules@, 0);
            assert forall|k: int| 0 <= k < rules@.len() implies (#[trigger] rules@[k]).spec_cue().len() > 0 by {
                assert(same_rule(rules@[k], self.rules@[k]));
            }
        }
        Ok(SealedCueTerminatedBlockDiscoveryConfiguration { boundaries, rules })
    }
}

/// Runtime cue rules proven against one exact token profile.
#[derive(Debug)]
pub struct SealedCueTerminatedBlockDiscoveryConfiguration {
    boundaries: SealedBoundaryDiscoveryConfiguration,
    rules: Vec<CueTerminationRule>,
}

impl Clone for SealedCueTerminatedBlockDiscoveryConfiguration {
    fn clone(&self) -> (r: Self) {
        proof {
            use_type_invariant(self);
        }
        SealedCueTerminatedBlockDiscoveryConfiguration {
            boundaries: self.boundaries.clone(),
            rules: copy_rules(&self.rules),
        }
    }
}

impl SealedCueTerminatedBlockDiscoveryConfiguration {
    /// Every sealed cue is non-empty.
    #[verifier::type_invariant]
    closed spec fn cues_are_nonempty(self) -> bool {
        forall|i: int| 0 <= i < self.rules@.len() ==> (#[trigger] self.rules@[i]).spec_cue().len() > 0
    }

    pub closed spec fn spec_boundaries(self) -> SealedBoundaryDiscoveryConfiguration {
        self.boundaries
    }

    pub closed spec fn spec_rules(self) -> Seq<CueTerminationRule> {
        self.rules@
    }

    fn matches_profile(&self, profile: &SealedTokenProfile) -> (r: bool)
        ensures
            r == same_data(self.spec_boundaries().identity_data(), profile.data()),
    {
        self.boundaries.matches_profile(profile)
    }

    pub fn rules(&self) -> (r: &[CueTerminationRule])
        ensures
            r@ == self.spec_rules(),
    {
        self.rules.as_slice()
    }
}


// ---------------------------------------------------------------------------
// Configured delimiter blocks.
// ---------------------------------------------------------------------------

/// The universal, untyped block-tree projections.
///
/// Implementors expose runtime source mechanics only. The content bound is
/// the text within the opening and closing spellings; child order follows the
/// source order in that bound.
pub trait BlockTree {
    /// The typed rule-identity carried by this language's cue.
    type CueEvidence: Copy;

    /// The complete source range of this block, including an attached prefix,
    /// opening, content, and closing spelling.
    fn source_bound(&self) -> SourceBound;

    /// The opening boundary and the profile declaration that matched it.
    fn cue(&self) -> BlockCue<Self::CueEvidence>;

    /// The configured prefix evidence, when the source matched its rule.
    fn prefix(&self) -> Option<BlockPrefix>;

    /// The source range inside the opening and closing spellings.
    fn content_bound(&self) -> SourceBound;

    /// The closing spelling when this boundary model has one.
    fn closing_bound(&self) -> Option<SourceBound>;

    /// Recursively discovered delimiter children in source order.
    fn children(&self) -> &[Self] where Self: Sized;
}

/// A discovered delimiter block as the model sees it.
pub struct BlockNode {
    pub source: SourceBound,
    pub cue: BlockCue,
    pub prefix: Option<BlockPrefix>,
    pub content: SourceBound,
    pub closing: SourceBound,
    pub children: Seq<BlockNode>,
}

/// One runtime-only node in a boundary-discovered block tree.
#[derive(Debug, PartialEq, Eq)]
pub struct DiscoveredBlock {
    source: SourceBound,
    cue: BlockCue,
    prefix: Option<BlockPrefix>,
    content: SourceBound,
    closing: SourceBound,
    children: Vec<DiscoveredBlock>,
}

impl Clone for DiscoveredBlock {
    /// A deep copy of the node and everything inside it.
    fn clone(&self) -> (r: Self)
        decreases self,
    {
        let mut children: Vec<DiscoveredBlock> = Vec::new();
        let mut i: usize = 0;
        while i < self.children.len()
            invariant
                i <= self.children@.len(),
            decreases self.children.len() - i,
        {
            proof {
                assert(decreases_to!(*self => self.children));
                assert(decreases_to!(self.children => self.children@));
                assert(decreases_to!(self.children@ => self.children@[i as int]));
            }
            children.push(self.children[i].clone());
            i = i + 1;
        }
        DiscoveredBlock { source: self.source, cue: self.cue, prefix: self.prefix, content: self.content, closing: self.closing, children }
    }
}

/// The model of one discovered block.
pub closed spec fn block_node(b: DiscoveredBlock) -> BlockNode
    decreases b,
{
    BlockNode {
        source: b.source,
        cue: b.cue,
        prefix: b.prefix,
        content: b.content,
        closing: b.closing,
        children: block_nodes(b.children@),
    }
}

/// The models of a sequence of discovered blocks.
pub closed spec fn block_nodes(s: Seq<DiscoveredBlock>) -> Seq<BlockNode>
    decreases s,
{
    if s.len() == 0 {
        Seq::empty()
    } else {
        block_nodes(s.subrange(0, s.len() - 1)).push(block_node(s[s.len() - 1]))
    }
}

/// The models of discovered blocks, one for one.
pub proof fn lemma_block_nodes(s: Seq<DiscoveredBlock>)
    ensures
        block_nodes(s).len() == s.len(),
        forall|i: int| 0 <= i < s.len() ==> #[trigger] block_nodes(s)[i] == block_node(s[i]),
    decreases s.len(),
{
    if s.len() > 0 {
        let front = s.subrange(0, s.len() - 1);
        lemma_block_nodes(front);
        assert forall|i: int| 0 <= i < s.len() implies #[trigger] block_nodes(s)[i] == block_node(s[i]) by {
            if i < s.len() - 1 {
                assert(front[i] == s[i]);
            }
        }
    }
}

impl View for DiscoveredBlock {
    type V = BlockNode;

    open spec fn view(&self) -> BlockNode {
        block_node(*self)
    }
}

impl BlockTree for DiscoveredBlock {
    type CueEvidence = TriggerIdentifier;

    fn source_bound(&self) -> (r: SourceBound)
        ensures
            r == self@.source,
    {
        self.source
    }

    fn cue(&self) -> (r: BlockCue)
        ensures
            r == self@.cue,
    {
        self.cue
    }

    fn prefix(&self) -> (r: Option<BlockPrefix>)
        ensures
            r == self@.prefix,
    {
        self.prefix
    }

    fn content_bound(&self) -> (r: SourceBound)
        ensures
            r == self@.content,
    {
        self.content
    }

    fn closing_bound(&self) -> (r: Option<SourceBound>)
        ensures
            r == Some(self@.closing),
    {
        Some(self.closing)
    }

    fn children(&self) -> (r: &[DiscoveredBlock])
        ensures
            r@.len() == self@.children.len(),
            forall|i: int| 0 <= i < r@.len() ==> #[trigger] r@[i]@ == self@.children[i],
    {
        proof {
            lemma_block_nodes(self.children@);
        }
        self.children.as_slice()
    }
}

/// The first position at or before `i`, and after `c0`, from which every
/// character up to `i` is a word character.
pub open spec fn prefix_word_start(s: Seq<char>, c0: int, word: CharacterClass, i: int) -> int
    decreases i,
{
    if i > c0 && i >= 1 && i <= s.len() && class_matches(word, s[i - 1]) {
        prefix_word_start(s, c0, word, i - 1)
    } else {
        i
    }
}

/// The prefix that `rule` finds before an opening at character position `o`,
/// never reaching before the containing position `c0`.
pub open spec fn prefix_at(s: Seq<char>, c0: int, o: int, rule: BlockPrefixRule) -> Option<
    BlockPrefix,
> {
    let sep = rule.spec_separator();
    let k = o - sep.len();
    if k < 0 || k < c0 || !occurs_at(s, k, o, sep) {
        None
    } else {
        let w = prefix_word_start(s, c0, rule.spec_word_characters(), k);
        if w == k {
            None
        } else {
            Some(
                BlockPrefix::of(
                    bound_from(byte_offset(s, w) as usize, byte_offset(s, k) as usize),
                    bound_from(byte_offset(s, k) as usize, byte_offset(s, o) as usize),
                ),
            )
        }
    }
}

/// The block that a discovered boundary becomes inside a containing bound
/// starting at character position `c0`.
pub open spec fn block_of(
    s: Seq<char>,
    c0: int,
    node: BoundaryNode,
    prefixes: Seq<BlockPrefixAttachment>,
) -> BlockNode
    decreases node,
{
    let b = node.boundary;
    let prefix = match prefix_index_from(prefixes, b.spec_identifier(), 0) {
        Some(k) => match char_position(s, b.spec_opening()@.0 as int) {
            Some(o) => prefix_at(s, c0, o, prefixes[k].spec_rule()),
            None => None,
        },
        None => None,
    };
    let start = match prefix {
        Some(p) => p.spec_word()@.0,
        None => b.spec_opening()@.0,
    };
    let inner = match char_position(s, b.spec_interior()@.0 as int) {
        Some(k) => k,
        None => 0,
    };
    BlockNode {
        source: bound_from(start, b.spec_closing()@.1),
        cue: BlockCue::of(b.spec_opening(), b.spec_identifier()),
        prefix,
        content: b.spec_interior(),
        closing: b.spec_closing(),
        children: blocks_of(s, inner, node.children, prefixes),
    }
}

/// The blocks that a sequence of discovered boundaries becomes.
pub open spec fn blocks_of(
    s: Seq<char>,
    c0: int,
    nodes: Seq<BoundaryNode>,
    prefixes: Seq<BlockPrefixAttachment>,
) -> Seq<BlockNode>
    decreases nodes,
{
    if nodes.len() == 0 {
        Seq::empty()
    } else {
        blocks_of(s, c0, nodes.subrange(0, nodes.len() - 1), prefixes).push(
            block_of(s, c0, nodes[nodes.len() - 1], prefixes),
        )
    }
}

/// The prefix evidence before an opening at character position `o`.
fn block_prefix(chars: &Vec<char>, c0: usize, o: usize, rule: &BlockPrefixRule) -> (r: Option<
    BlockPrefix,
>)
    requires
        text_bytes(chars@) <= usize::MAX,
        o <= chars@.len(),
    ensures
        r == prefix_at(chars@, c0 as int, o as int, *rule),
{
    let sep = chars_of(rule.separator());
    if o < sep.len() {
        return None;
    }
    let k = o - sep.len();
    if k < c0 || !chars_occur_at(chars, k, o, &sep) {
        return None;
    }
    let mut w = k;
    while w > c0 && rule.word_characters().matches(chars[w - 1])
        invariant
            c0 <= w <= k <= o <= chars@.len(),
            prefix_word_start(chars@, c0 as int, rule.spec_word_characters(), k as int)
                == prefix_word_start(chars@, c0 as int, rule.spec_word_characters(), w as int),
        decreases w,
    {
        w = w - 1;
    }
    if w == k {
        return None;
    }
    proof {
        assert(chars@.take(0) =~= Seq::<char>::empty());
    }
    let w_byte = offset_after(chars, 0, 0, w);
    let k_byte = offset_after(chars, w, w_byte, k);
    let o_byte = offset_after(chars, k, k_byte, o);
    let word = SourceBound::between(w_byte, k_byte);
    let separator = SourceBound::between(k_byte, o_byte);
    proof {
        lemma_bound_from(w_byte, k_byte);
        lemma_bound_from(k_byte, o_byte);
        crate::boundary::lemma_bound_eq(word, bound_from(w_byte, k_byte));
        crate::boundary::lemma_bound_eq(separator, bound_from(k_byte, o_byte));
    }
    Some(BlockPrefix { word, separator })
}

impl DiscoveredBlock {
    /// The block that `discovered` becomes inside a containing bound starting
    /// at character position `c0`.
    fn from_boundary(
        chars: &Vec<char>,
        c0: usize,
        discovered: &DiscoveredDelimitedBoundary,
        configuration: &SealedBlockTreeDiscoveryConfiguration,
    ) -> (r: DiscoveredBlock)
        requires
            text_bytes(chars@) <= usize::MAX,
        ensures
            r@ == block_of(chars@, c0 as int, discovered@, configuration.spec_prefixes()),
        decreases discovered@,
    {
        let boundary = discovered.boundary();
        let opening = boundary.opening();
        let prefix = match configuration.prefix_rule(boundary.identifier()) {
            Some(rule) => match char_position_of(chars, opening.start()) {
                Some(o) => block_prefix(chars, c0, o, rule),
                None => None,
            },
            None => None,
        };
        let start = match prefix {
            Some(p) => p.word().start(),
            None => opening.start(),
        };
        let inner = match char_position_of(chars, boundary.interior().start()) {
            Some(k) => k,
            None => 0,
        };
        let kids = discovered.children();
        let mut children: Vec<DiscoveredBlock> = Vec::new();
        let mut i: usize = 0;
        while i < kids.len()
            invariant
                text_bytes(chars@) <= usize::MAX,
                i <= kids@.len(),
                kids@.len() == discovered@.children.len(),
                forall|j: int| 0 <= j < kids@.len() ==> #[trigger] kids@[j]@ == discovered@.children[j],
                block_nodes(children@) == blocks_of(
                    chars@,
                    inner as int,
                    discovered@.children.take(i as int),
                    configuration.spec_prefixes(),
                ),
            decreases kids.len() - i,
        {
            let child = DiscoveredBlock::from_boundary(chars, inner, &kids[i], configuration);
            let ghost before = children@;
            children.push(child);
            proof {
                assert(children@.subrange(0, children@.len() - 1) =~= before);
                assert(discovered@.children.take(i + 1).subrange(0, i as int) =~= discovered@.children.take(i as int));
            }
            i = i + 1;
        }
        proof {
            assert(discovered@.children.take(i as int) =~= discovered@.children);
        }
        let end = boundary.closing().end();
        let source = SourceBound::between(start, end);
        let cue = BlockCue { bound: opening, evidence: boundary.identifier() };
        proof {
            lemma_bound_from(start, end);
            crate::boundary::lemma_bound_eq(source, bound_from(start, end));
        }
        DiscoveredBlock {
            source,
            cue,
            prefix,
            content: boundary.interior(),
            closing: boundary.closing(),
            children,
        }
    }
}

/// The top-level blocks that configured discovery finds in `s`.
pub open spec fn block_tree_outcome(
    s: Seq<char>,
    data: TokenProfileData,
    configuration: SealedBlockTreeDiscoveryConfiguration,
) -> Result<Seq<BlockNode>, BlockDiscoveryError> {
    if !same_data(configuration.spec_boundaries().identity_data(), data) {
        Err(BlockDiscoveryError::Profile(TokenProfileError::TriggerSetProfileMismatch))
    } else {
        match configured_scan(
            data,
            configuration.spec_boundaries(),
            ScanGoal::Top,
            s,
            s.len() as int,
            0,
        ) {
            Ok((nodes, _, _)) => Ok(blocks_of(s, 0, nodes, configuration.spec_prefixes())),
            Err(e) => Err(BlockDiscoveryError::Boundary(e)),
        }
    }
}

/// The root sequence of a runtime-only block tree.
#[derive(Clone, Debug, PartialEq, Eq)]
pub struct DiscoveredBlockTree {
    root_blocks: Vec<DiscoveredBlock>,
}

impl DiscoveredBlockTree {
    pub closed spec fn spec_root_blocks(self) -> Seq<BlockNode> {
        block_nodes(self.root_blocks@)
    }

    /// Seal `configuration` against `profile`, then discover its delimiter
    /// blocks in one outside-in traversal.
    pub fn discover(
        source: &str,
        profile: &SealedTokenProfile,
        configuration: &BlockTreeDiscoveryConfiguration,
    ) -> (r: Result<Self, BlockDiscoveryError>)
        ensures
            match block_configuration_error(*configuration, profile.data()) {
                Some(e) => r == Err::<Self, BlockDiscoveryError>(e),
                None => exists|sealed: SealedBlockTreeDiscoveryConfiguration|
                    block_configuration_sealed(sealed, *configuration, profile.data()) && match (
                        r,
                        block_tree_outcome(source@, profile.data(), sealed),
                    ) {
                        (Ok(tree), Ok(blocks)) => tree.spec_root_blocks() == blocks
                            && prefixes_attached(source@, sealed.spec_prefixes(), 0, blocks),
                        (Err(a), Err(b)) => a == b,
                        _ => false,
                    },
            },
            r matches Ok(tree) ==> blocks_within(
                tree.spec_root_blocks(),
                0,
                text_bytes(source@) as int,
            ),
    {
        let sealed = match configuration.seal(profile) {
            Ok(sealed) => sealed,
            Err(e) => {
                return Err(e);
            },
        };
        crate::text::str_byte_length_fits(source);
        let r = Self::discover_sealed(source, profile, &sealed);
        proof {
            lemma_block_tree_nesting(source@, profile.data(), sealed);
            lemma_block_tree_prefixes(source@, profile.data(), sealed);
        }
        r
    }

    /// Discover the delimiter blocks of a sealed configuration in one
    /// outside-in traversal.
    fn discover_sealed(
        source: &str,
        profile: &SealedTokenProfile,
        configuration: &SealedBlockTreeDiscoveryConfiguration,
    ) -> (r: Result<Self, BlockDiscoveryError>)
        ensures
            match (r, block_tree_outcome(source@, profile.data(), *configuration)) {
                (Ok(tree), Ok(blocks)) => tree.spec_root_blocks() == blocks,
                (Err(a), Err(b)) => a == b,
                _ => false,
            },
    {
        if !configuration.matches_profile(profile) {
            return Err(BlockDiscoveryError::Profile(TokenProfileError::TriggerSetProfileMismatch));
        }
        let mut reader = BoundaryReader::new(source, profile);
        let discovered = match reader.discover_boundary_children(&configuration.boundaries) {
            Ok(d) => d,
            Err(e) => {
                return Err(BlockDiscoveryError::Boundary(e));
            },
        };
        let chars = chars_of(source);
        proof {
            crate::boundary::lemma_nodes_of(discovered@);
        }
        let mut root_blocks: Vec<DiscoveredBlock> = Vec::new();
        let mut i: usize = 0;
        while i < discovered.len()
            invariant
                chars@ == source@,
                text_bytes(chars@) <= usize::MAX,
                i <= discovered@.len(),
                block_nodes(root_blocks@) == blocks_of(
                    source@,
                    0,
                    crate::boundary::nodes_of(discovered@).take(i as int),
                    configuration.spec_prefixes(),
                ),
                crate::boundary::nodes_of(discovered@).len() == discovered@.len(),
                forall|j: int| 0 <= j < discovered@.len() ==> #[trigger] crate::boundary::nodes_of(discovered@)[j] == discovered@[j]@,
            decreases discovered.len() - i,
        {
            let block = DiscoveredBlock::from_boundary(&chars, 0, &discovered[i], configuration);
            let ghost before = root_blocks@;
            root_blocks.push(block);
            proof {
                assert(root_blocks@.subrange(0, root_blocks@.len() - 1) =~= before);
                assert(crate::boundary::nodes_of(discovered@).take(i + 1).subrange(0, i as int) =~= crate::boundary::nodes_of(discovered@).take(i as int));
            }
            i = i + 1;
        }
        proof {
            assert(crate::boundary::nodes_of(discovered@).take(i as int) =~= crate::boundary::nodes_of(discovered@));
        }
        Ok(DiscoveredBlockTree { root_blocks })
    }

    /// Top-level blocks in source order.
    pub fn root_blocks(&self) -> (r: &[DiscoveredBlock])
        ensures
            r@.len() == self.spec_root_blocks().len(),
            forall|i: int| 0 <= i < r@.len() ==> #[trigger] r@[i]@ == self.spec_root_blocks()[i],
    {
        proof {
            lemma_block_nodes(self.root_blocks@);
        }
        self.root_blocks.as_slice()
    }
}


// ---------------------------------------------------------------------------
// Cue-terminated blocks.
// ---------------------------------------------------------------------------

/// Evidence for either a cue-terminated block or one of its delimited children.
#[derive(Clone, Copy, Debug, PartialEq, Eq, Structural)]
pub enum CueTerminatedBlockCueEvidence {
    CueTermination(CueTerminationRuleIdentifier),
    Boundary(TriggerIdentifier),
}

/// A cue-terminated block, or one of its delimited children, as the model
/// sees it.
pub struct CueBlockNode {
    pub source: SourceBound,
    pub cue: BlockCue<CueTerminatedBlockCueEvidence>,
    pub content: SourceBound,
    pub closing: SourceBound,
    pub children: Seq<CueBlockNode>,
}

/// One runtime-only cue-terminated block and its recursively delimited children.
#[derive(Debug, PartialEq, Eq)]
pub struct DiscoveredCueTerminatedBlock {
    source: SourceBound,
    cue: BlockCue<CueTerminatedBlockCueEvidence>,
    content: SourceBound,
    closing: SourceBound,
    children: Vec<DiscoveredCueTerminatedBlock>,
}

impl Clone for DiscoveredCueTerminatedBlock {
    /// A deep copy of the node and everything inside it.
    fn clone(&self) -> (r: Self)
        decreases self,
    {
        let mut children: Vec<DiscoveredCueTerminatedBlock> = Vec::new();
        let mut i: usize = 0;
        while i < self.children.len()
            invariant
                i <= self.children@.len(),
            decreases self.children.len() - i,
        {
            proof {
                assert(decreases_to!(*self => self.children));
                assert(decreases_to!(self.children => self.children@));
                assert(decreases_to!(self.children@ => self.children@[i as int]));
            }
            children.push(self.children[i].clone());
            i = i + 1;
        }
        DiscoveredCueTerminatedBlock { source: self.source, cue: self.cue, content: self.content, closing: self.closing, children }
    }
}

/// The model of one cue-terminated block.
pub closed spec fn cue_block_node(b: DiscoveredCueTerminatedBlock) -> CueBlockNode
    decreases b,
{
    CueBlockNode {
        source: b.source,
        cue: b.cue,
        content: b.content,
        closing: b.closing,
        children: cue_block_nodes(b.children@),
    }
}

/// The models of a sequence of cue-terminated blocks.
pub closed spec fn cue_block_nodes(s: Seq<DiscoveredCueTerminatedBlock>) -> Seq<CueBlockNode>
    decreases s,
{
    if s.len() == 0 {
        Seq::empty()
    } else {
        cue_block_nodes(s.subrange(0, s.len() - 1)).push(cue_block_node(s[s.len() - 1]))
    }
}

/// The models of cue-terminated blocks, one for one.
pub proof fn lemma_cue_block_nodes(s: Seq<DiscoveredCueTerminatedBlock>)
    ensures
        cue_block_nodes(s).len() == s.len(),
        forall|i: int| 0 <= i < s.len() ==> #[trigger] cue_block_nodes(s)[i] == cue_block_node(s[i]),
    decreases s.len(),
{
    if s.len() > 0 {
        let front = s.subrange(0, s.len() - 1);
        lemma_cue_block_nodes(front);
        assert forall|i: int| 0 <= i < s.len() implies #[trigger] cue_block_nodes(s)[i]
            == cue_block_node(s[i]) by {
            if i < s.len() - 1 {
                assert(front[i] == s[i]);
            }
        }
    }
}

impl View for DiscoveredCueTerminatedBlock {
    type V = CueBlockNode;

    open spec fn view(&self) -> CueBlockNode {
        cue_block_node(*self)
    }
}

impl BlockTree for DiscoveredCueTerminatedBlock {
    type CueEvidence = CueTerminatedBlockCueEvidence;

    fn source_bound(&self) -> (r: SourceBound)
        ensures
            r == self@.source,
    {
        self.source
    }

    fn cue(&self) -> (r: BlockCue<CueTerminatedBlockCueEvidence>)
        ensures
            r == self@.cue,
    {
        self.cue
    }

    fn prefix(&self) -> (r: Option<BlockPrefix>)
        ensures
            r is None,
    {
        None
    }

    fn content_bound(&self) -> (r: SourceBound)
        ensures
            r == self@.content,
    {
        self.content
    }

    fn closing_bound(&self) -> (r: Option<SourceBound>)
        ensures
            r == Some(self@.closing),
    {
        Some(self.closing)
    }

    fn children(&self) -> (r: &[DiscoveredCueTerminatedBlock])
        ensures
            r@.len() == self@.children.len(),
            forall|i: int| 0 <= i < r@.len() ==> #[trigger] r@[i]@ == self@.children[i],
    {
        proof {
            lemma_cue_block_nodes(self.children@);
        }
        self.children.as_slice()
    }
}

/// The cue-block model of a delimited child.
pub open spec fn cue_child_of(node: BoundaryNode) -> CueBlockNode
    decreases node,
{
    let b = node.boundary;
    CueBlockNode {
        source: bound_from(b.spec_opening()@.0, b.spec_closing()@.1),
        cue: BlockCue::of(b.spec_opening(), CueTerminatedBlockCueEvidence::Boundary(b.spec_identifier())),
        content: b.spec_interior(),
        closing: b.spec_closing(),
        children: cue_children_of(node.children),
    }
}

/// The cue-block models of a sequence of delimited children.
pub open spec fn cue_children_of(nodes: Seq<BoundaryNode>) -> Seq<CueBlockNode>
    decreases nodes,
{
    if nodes.len() == 0 {
        Seq::empty()
    } else {
        cue_children_of(nodes.subrange(0, nodes.len() - 1)).push(cue_child_of(nodes[nodes.len() - 1]))
    }
}

impl DiscoveredCueTerminatedBlock {
    /// The cue-block form of a delimited child.
    fn from_boundary(discovered: &DiscoveredDelimitedBoundary) -> (r: Self)
        ensures
            r@ == cue_child_of(discovered@),
        decreases discovered@,
    {
        let boundary = discovered.boundary();
        let kids = discovered.children();
        let mut children: Vec<DiscoveredCueTerminatedBlock> = Vec::new();
        let mut i: usize = 0;
        while i < kids.len()
            invariant
                i <= kids@.len(),
                kids@.len() == discovered@.children.len(),
                forall|j: int| 0 <= j < kids@.len() ==> #[trigger] kids@[j]@ == discovered@.children[j],
                cue_block_nodes(children@) == cue_children_of(discovered@.children.take(i as int)),
            decreases kids.len() - i,
        {
            let child = DiscoveredCueTerminatedBlock::from_boundary(&kids[i]);
            let ghost before = children@;
            children.push(child);
            proof {
                assert(children@.subrange(0, children@.len() - 1) =~= before);
                assert(discovered@.children.take(i + 1).subrange(0, i as int) =~= discovered@.children.take(i as int));
            }
            i = i + 1;
        }
        proof {
            assert(discovered@.children.take(i as int) =~= discovered@.children);
        }
        let start = boundary.opening().start();
        let end = boundary.closing().end();
        let source = SourceBound::between(start, end);
        proof {
            lemma_bound_from(start, end);
            lemma_bound_eq(source, bound_from(start, end));
        }
        DiscoveredCueTerminatedBlock {
            source,
            cue: BlockCue {
                bound: boundary.opening(),
                evidence: CueTerminatedBlockCueEvidence::Boundary(boundary.identifier()),
            },
            content: boundary.interior(),
            closing: boundary.closing(),
            children,
        }
    }
}

/// Whether `rule`'s cue is spelled at `p` as a complete word.
pub open spec fn cue_matches_at(s: Seq<char>, p: int, rule: CueTerminationRule) -> bool {
    let cue = rule.spec_cue();
    let word = rule.spec_word_characters();
    &&& occurs_at(s, p, s.len() as int, cue)
    &&& !(p >= 1 && class_matches(word, s[p - 1]))
    &&& !(p + cue.len() < s.len() && class_matches(word, s[p + cue.len()]))
}

/// The rule selected at `p` among `rules[i..]`, given the best earlier one:
/// the last matching rule with the longest cue.
pub open spec fn matching_rule_from(
    s: Seq<char>,
    p: int,
    rules: Seq<CueTerminationRule>,
    i: int,
    best: Option<int>,
) -> Option<int>
    decreases rules.len() - i,
{
    if i < 0 || i >= rules.len() {
        best
    } else if cue_matches_at(s, p, rules[i]) && (match best {
        Some(b) => rules[i].spec_cue().len() >= rules[b].spec_cue().len(),
        None => true,
    }) {
        matching_rule_from(s, p, rules, i + 1, Some(i))
    } else {
        matching_rule_from(s, p, rules, i + 1, best)
    }
}

proof fn lemma_matching_rule_from(
    s: Seq<char>,
    p: int,
    rules: Seq<CueTerminationRule>,
    i: int,
    best: Option<int>,
)
    requires
        0 <= i,
        best matches Some(b) ==> 0 <= b < rules.len() && cue_matches_at(s, p, rules[b]),
    ensures
        matching_rule_from(s, p, rules, i, best) matches Some(k) ==> 0 <= k < rules.len()
            && cue_matches_at(s, p, rules[k]),
    decreases rules.len() - i,
{
    if i < rules.len() {
        if cue_matches_at(s, p, rules[i]) && (match best {
            Some(b) => rules[i].spec_cue().len() >= rules[b].spec_cue().len(),
            None => true,
        }) {
            lemma_matching_rule_from(s, p, rules, i + 1, Some(i));
        } else {
            lemma_matching_rule_from(s, p, rules, i + 1, best);
        }
    }
}

/// Whether `rule`'s cue is spelled at `p` as a complete word.
fn cue_matches(chars: &Vec<char>, p: usize, rule: &CueTerminationRule) -> (r: bool)
    requires
        p <= chars@.len(),
    ensures
        r == cue_matches_at(chars@, p as int, *rule),
{
    let cue = chars_of(rule.cue());
    if !chars_occur_at(chars, p, chars.len(), &cue) {
        return false;
    }
    let before_is_word = p >= 1 && rule.word_characters().matches(chars[p - 1]);
    let after = p + cue.len();
    let after_is_word = after < chars.len() && rule.word_characters().matches(chars[after]);
    !before_is_word && !after_is_word
}

/// The index of the rule whose cue begins a block at `p`, if any.
fn matching_cue_rule(chars: &Vec<char>, p: usize, rules: &Vec<CueTerminationRule>) -> (r: Option<
    usize,
>)
    requires
        p <= chars@.len(),
    ensures
        match (r, matching_rule_from(chars@, p as int, rules@, 0, None)) {
            (Some(a), Some(b)) => a == b && a < rules@.len(),
            (None, None) => true,
            _ => false,
        },
{
    let mut best: Option<usize> = None;
    let mut best_length: usize = 0;
    let mut i: usize = 0;
    while i < rules.len()
        invariant
            p <= chars@.len(),
            i <= rules@.len(),
            best matches Some(b) ==> b < i && best_length == rules@[b as int].spec_cue().len(),
            matching_rule_from(chars@, p as int, rules@, 0, None) == matching_rule_from(
                chars@,
                p as int,
                rules@,
                i as int,
                match best {
                    Some(b) => Some(b as int),
                    None => None,
                },
            ),
        decreases rules.len() - i,
    {
        if cue_matches(chars, p, &rules[i]) {
            let length = chars_of(rules[i].cue()).len();
            let better = match best {
                Some(_) => length >= best_length,
                None => true,
            };
            if better {
                best = Some(i);
                best_length = length;
            }
        }
        i = i + 1;
    }
    best
}

/// The cue blocks found from `p` on, at the root level of the configuration.
pub open spec fn cue_scan(
    data: TokenProfileData,
    s: Seq<char>,
    configuration: SealedCueTerminatedBlockDiscoveryConfiguration,
    active: SealedTriggerSet,
    p: int,
) -> Result<Seq<CueBlockNode>, BlockDiscoveryError>
    decreases s.len() - p,
{
    let e = s.len() as int;
    let rules = configuration.spec_rules();
    if p < 0 || p >= e {
        Ok(Seq::empty())
    } else {
        match matching_rule_from(s, p, rules, 0, None) {
            Some(k) => {
                let rule = rules[k];
                let q = p + rule.spec_cue().len();
                let cue = source_bound_of(s, p, q);
                let scan = match rule.spec_termination() {
                    CueTermination::ExactSpelling(t) => configured_scan(
                        data,
                        configuration.spec_boundaries(),
                        ScanGoal::Spelling(t@),
                        s,
                        e,
                        q,
                    ),
                    CueTermination::ClosingBoundary(b) => configured_scan(
                        data,
                        configuration.spec_boundaries(),
                        ScanGoal::Through(b),
                        s,
                        e,
                        q,
                    ),
                };
                match scan {
                    Err(x) => Err(BlockDiscoveryError::Boundary(x)),
                    Ok((nodes, closing, fin)) => match closing {
                        None => Err(
                            BlockDiscoveryError::UnclosedCueTerminatedBlock {
                                rule: rule.spec_identifier(),
                                cue,
                            },
                        ),
                        Some((cs, ce)) => if fin <= p || fin > e || q <= p {
                            Err(
                                BlockDiscoveryError::UnclosedCueTerminatedBlock {
                                    rule: rule.spec_identifier(),
                                    cue,
                                },
                            )
                        } else {
                            match cue_scan(data, s, configuration, active, fin) {
                                Err(x) => Err(x),
                                Ok(rest) => Ok(
                                    seq![
                                        CueBlockNode {
                                            source: source_bound_of(s, p, ce),
                                            cue: BlockCue::of(
                                                cue,
                                                CueTerminatedBlockCueEvidence::CueTermination(
                                                    rule.spec_identifier(),
                                                ),
                                            ),
                                            content: source_bound_of(s, q, cs),
                                            closing: source_bound_of(s, cs, ce),
                                            children: cue_children_of(nodes),
                                        },
                                    ] + rest,
                                ),
                            }
                        },
                    },
                }
            },
            None => match longest_match_at(
                data,
                active.identity_data(),
                active.spec_triggers(),
                s,
                p,
                e,
            ) {
                Err(x) => Err(BlockDiscoveryError::Profile(x)),
                Ok(Some(m)) => if m.2 <= p || m.2 > e {
                    Err(BlockDiscoveryError::Profile(TokenProfileError::TriggerSetProfileMismatch))
                } else {
                    cue_scan(data, s, configuration, active, m.2)
                },
                Ok(None) => cue_scan(data, s, configuration, active, p + 1),
            },
        }
    }
}

/// The cue blocks that cue-to-termination discovery finds in `s`.
pub open spec fn cue_tree_outcome(
    s: Seq<char>,
    data: TokenProfileData,
    configuration: SealedCueTerminatedBlockDiscoveryConfiguration,
) -> Result<Seq<CueBlockNode>, BlockDiscoveryError> {
    let boundaries = configuration.spec_boundaries();
    if !same_data(boundaries.identity_data(), data) {
        Err(BlockDiscoveryError::Profile(TokenProfileError::TriggerSetProfileMismatch))
    } else {
        match boundaries.context_set(boundaries.spec_root()) {
            None => Err(
                BlockDiscoveryError::Boundary(
                    BoundaryDiscoveryError::UnknownContext { context: boundaries.spec_root() },
                ),
            ),
            Some(set) => cue_scan(data, s, configuration, set.spec_active(), 0),
        }
    }
}

/// The blocks of `prefix` placed before the blocks of a scan outcome.
pub open spec fn cue_prepend(
    prefix: Seq<CueBlockNode>,
    r: Result<Seq<CueBlockNode>, BlockDiscoveryError>,
) -> Result<Seq<CueBlockNode>, BlockDiscoveryError> {
    match r {
        Ok(rest) => Ok(prefix + rest),
        Err(x) => Err(x),
    }
}

/// The source-ordered roots found by cue-to-termination discovery.
#[derive(Clone, Debug, PartialEq, Eq)]
pub struct DiscoveredCueTerminatedBlockTree {
    root_blocks: Vec<DiscoveredCueTerminatedBlock>,
}

impl DiscoveredCueTerminatedBlockTree {
    pub closed spec fn spec_root_blocks(self) -> Seq<CueBlockNode> {
        cue_block_nodes(self.root_blocks@)
    }

    /// Find each complete-word cue at the root level and the block it opens,
    /// through its termination.
    pub fn discover(
        source: &str,
        profile: &SealedTokenProfile,
        configuration: &SealedCueTerminatedBlockDiscoveryConfiguration,
    ) -> (r: Result<Self, BlockDiscoveryError>)
        ensures
            match (r, cue_tree_outcome(source@, profile.data(), *configuration)) {
                (Ok(tree), Ok(blocks)) => tree.spec_root_blocks() == blocks,
                (Err(a), Err(b)) => a == b,
                _ => false,
            },
            r matches Ok(tree) ==> cue_roots_within(
                tree.spec_root_blocks(),
                0,
                text_bytes(source@) as int,
            ),
            r matches Ok(tree) ==> forall|i: int|
                0 <= i < tree.spec_root_blocks().len() ==> cue_block_terminated(
                    source@,
                    configuration.spec_rules(),
                    #[trigger] tree.spec_root_blocks()[i],
                ),
    {
        crate::text::str_byte_length_fits(source);
        let r = Self::discover_roots(source, profile, configuration);
        proof {
            lemma_cue_tree_nesting(source@, profile.data(), *configuration);
            lemma_cue_tree_terminations(source@, profile.data(), *configuration);
        }
        r
    }

    /// The roots of the cue-terminated tree of `source`.
    #[verifier::spinoff_prover]
    #[verifier::rlimit(40)]
    fn discover_roots(
        source: &str,
        profile: &SealedTokenProfile,
        configuration: &SealedCueTerminatedBlockDiscoveryConfiguration,
    ) -> (r: Result<Self, BlockDiscoveryError>)
        ensures
            match (r, cue_tree_outcome(source@, profile.data(), *configuration)) {
                (Ok(tree), Ok(blocks)) => tree.spec_root_blocks() == blocks,
                (Err(a), Err(b)) => a == b,
                _ => false,
            },
    {
        if !configuration.matches_profile(profile) {
            return Err(BlockDiscoveryError::Profile(TokenProfileError::TriggerSetProfileMismatch));
        }
        proof {
            use_type_invariant(profile);
            use_type_invariant(configuration);
        }
        let mut reader = BoundaryReader::new(source, profile);
        let root = configuration.boundaries.root();
        let active = match configuration.boundaries.active_triggers(root) {
            Ok(a) => a,
            Err(e) => {
                return Err(BlockDiscoveryError::Boundary(e));
            },
        };
        let chars = chars_of(source);
        let ghost data = profile.data();
        let ghost s = source@;
        let mut root_blocks: Vec<DiscoveredCueTerminatedBlock> = Vec::new();
        proof {
            if let Ok(rest) = cue_scan(data, s, *configuration, *active, 0) {
                assert(Seq::<CueBlockNode>::empty() + rest =~= rest);
            }
            assert(cue_block_nodes(root_blocks@) =~= Seq::<CueBlockNode>::empty());
        }
        loop
            invariant
                reader.wf(),
                reader.text() == s,
                reader.data() == data,
                reader.spec_bound_end() == s.len(),
                reader.spec_bound_start() == 0,
                chars@ == s,
                s == source@,
                data == profile.data(),
                crate::profile::seal_error(data) is None,
                forall|i: int| 0 <= i < configuration.spec_rules().len() ==> (#[trigger] configuration.spec_rules()[i]).spec_cue().len() > 0,
                same_data(configuration.spec_boundaries().identity_data(), data),
                configuration.spec_boundaries().context_set(configuration.spec_boundaries().spec_root()) matches Some(c)
                    && *active == c.spec_active(),
                cue_scan(data, s, *configuration, *active, 0) == cue_prepend(
                    cue_block_nodes(root_blocks@),
                    cue_scan(data, s, *configuration, *active, reader.spec_position()),
                ),
            decreases s.len() - reader.spec_position(),
        {
            let p = reader.character_position();
            proof {
                reader.lemma_wf();
                lemma_matching_rule_from(s, p as int, configuration.spec_rules(), 0, None);
            }
            if reader.is_end() {
                proof {
                    assert(cue_block_nodes(root_blocks@) + Seq::<CueBlockNode>::empty() =~= cue_block_nodes(root_blocks@));
                }
                return Ok(DiscoveredCueTerminatedBlockTree { root_blocks });
            }
            match matching_cue_rule(&chars, p, &configuration.rules) {
                Some(k) => {
                    let rule = &configuration.rules[k];
                    let cue = match reader.consume_exact_spelling(rule.cue()) {
                        Some(bound) => bound,
                        None => {
                            proof {
                                assert(false);
                            }
                            return Err(BlockDiscoveryError::Profile(TokenProfileError::TriggerSetProfileMismatch));
                        },
                    };
                    let q = reader.character_position();
                    let scanned = match rule.termination() {
                        CueTermination::ExactSpelling(termination) => reader.discover_children_until(
                            termination.as_str(),
                            &configuration.boundaries,
                        ),
                        CueTermination::ClosingBoundary(boundary) => reader.discover_children_through_boundary(
                            *boundary,
                            &configuration.boundaries,
                        ),
                    };
                    let (children, closing) = match scanned {
                        Ok(found) => found,
                        Err(e) => {
                            return Err(BlockDiscoveryError::Boundary(e));
                        },
                    };
                    let closing = match closing {
                        Some(c) => c,
                        None => {
                            proof {
                                lemma_source_bound_of(s, p as int, q as int);
                                lemma_bound_eq(cue, source_bound_of(s, p as int, q as int));
                            }
                            return Err(
                                BlockDiscoveryError::UnclosedCueTerminatedBlock {
                                    rule: rule.identifier(),
                                    cue,
                                },
                            );
                        },
                    };
                    proof {
                        crate::boundary::lemma_nodes_of(children@);
                    }
                    let mut blocks: Vec<DiscoveredCueTerminatedBlock> = Vec::new();
                    let mut i: usize = 0;
                    while i < children.len()
                        invariant
                            i <= children@.len(),
                            crate::boundary::nodes_of(children@).len() == children@.len(),
                            forall|j: int| 0 <= j < children@.len() ==> #[trigger] crate::boundary::nodes_of(children@)[j] == children@[j]@,
                            cue_block_nodes(blocks@) == cue_children_of(
                                crate::boundary::nodes_of(children@).take(i as int),
                            ),
                        decreases children.len() - i,
                    {
                        let block = DiscoveredCueTerminatedBlock::from_boundary(&children[i]);
                        let ghost before = blocks@;
                        blocks.push(block);
                        proof {
                            assert(blocks@.subrange(0, blocks@.len() - 1) =~= before);
                            assert(crate::boundary::nodes_of(children@).take(i + 1).subrange(0, i as int) =~= crate::boundary::nodes_of(children@).take(i as int));
                        }
                        i = i + 1;
                    }
                    proof {
                        assert(crate::boundary::nodes_of(children@).take(i as int) =~= crate::boundary::nodes_of(children@));
                    }
                    let start = cue.start();
                    let end = closing.end();
                    let content_start = cue.end();
                    let content_end = closing.start();
                    let block = DiscoveredCueTerminatedBlock {
                        source: SourceBound::between(start, end),
                        cue: BlockCue {
                            bound: cue,
                            evidence: CueTerminatedBlockCueEvidence::CueTermination(rule.identifier()),
                        },
                        content: SourceBound::between(content_start, content_end),
                        closing,
                        children: blocks,
                    };
                    let ghost before = root_blocks@;
                    root_blocks.push(block);
                    proof {
                        let fin = reader.spec_position();
                        let (nodes, model_closing, f) = match rule.spec_termination() {
                            CueTermination::ExactSpelling(t) => configured_scan(
                                data,
                                configuration.spec_boundaries(),
                                ScanGoal::Spelling(t@),
                                s,
                                s.len() as int,
                                q as int,
                            ),
                            CueTermination::ClosingBoundary(b) => configured_scan(
                                data,
                                configuration.spec_boundaries(),
                                ScanGoal::Through(b),
                                s,
                                s.len() as int,
                                q as int,
                            ),
                        }->Ok_0;
                        let (cs, ce) = model_closing->0;
                        lemma_source_bound_of(s, p as int, q as int);
                        lemma_source_bound_of(s, p as int, ce);
                        lemma_source_bound_of(s, q as int, cs);
                        lemma_source_bound_of(s, cs, ce);
                        lemma_bound_eq(cue, source_bound_of(s, p as int, q as int));
                        lemma_bound_eq(closing, source_bound_of(s, cs, ce));
                        lemma_bound_eq(block.source, source_bound_of(s, p as int, ce));
                        lemma_bound_eq(block.content, source_bound_of(s, q as int, cs));
                        BlockCue::<CueTerminatedBlockCueEvidence>::lemma_of(
                            cue,
                            CueTerminatedBlockCueEvidence::CueTermination(rule.spec_identifier()),
                        );
                        assert(root_blocks@.subrange(0, root_blocks@.len() - 1) =~= before);
                        assert(cue_block_node(block) == (CueBlockNode {
                            source: source_bound_of(s, p as int, ce),
                            cue: BlockCue::of(
                                cue,
                                CueTerminatedBlockCueEvidence::CueTermination(rule.spec_identifier()),
                            ),
                            content: source_bound_of(s, q as int, cs),
                            closing: source_bound_of(s, cs, ce),
                            children: cue_children_of(nodes),
                        }));
                        if let Ok(rest) = cue_scan(data, s, *configuration, *active, fin) {
                            assert(cue_block_nodes(before) + (seq![cue_block_node(block)] + rest) =~= cue_block_nodes(root_blocks@) + rest);
                        }
                    }
                    proof {
                        reader.lemma_wf();
                    }
                    assert(reader.spec_position() > p);
                },
                None => {
                    proof {
                        crate::boundary::lemma_longest_match_advances(
                            data,
                            s,
                            p as int,
                            s.len() as int,
                            active.spec_triggers(),
                        );
                    }
                    match reader.consume(active) {
                        Err(x) => {
                            return Err(BlockDiscoveryError::Profile(x));
                        },
                        Ok(Some(_)) => {},
                        Ok(None) => {
                            reader.advance_uninterpreted_character();
                        },
                    }
                    proof {
                        reader.lemma_wf();
                    }
                    assert(reader.spec_position() > p);
                },
            }
        }
    }

    pub fn root_blocks(&self) -> (r: &[DiscoveredCueTerminatedBlock])
        ensures
            r@.len() == self.spec_root_blocks().len(),
            forall|i: int| 0 <= i < r@.len() ==> #[trigger] r@[i]@ == self.spec_root_blocks()[i],
    {
        proof {
            lemma_cue_block_nodes(self.root_blocks@);
        }
        self.root_blocks.as_slice()
    }
}


/// Whether a discovered block lies in the byte range `[lo, hi]`: its source
/// starts at or before its cue and ends with its closing, its content lies
/// between its cue and its closing, and its children lie inside its content.
pub open spec fn block_within(b: BlockNode, lo: int, hi: int) -> bool
    decreases b,
{
    &&& lo <= b.source@.0 <= b.cue.spec_bound()@.0
    &&& b.cue.spec_bound()@.1 == b.content@.0
    &&& b.content@.0 <= b.content@.1
    &&& b.content@.1 == b.closing@.0
    &&& b.closing@.0 < b.closing@.1
    &&& b.source@.1 == b.closing@.1
    &&& b.closing@.1 <= hi
    &&& blocks_within(b.children, b.content@.0 as int, b.content@.1 as int)
}

/// Whether every block of a sequence lies in the byte range `[lo, hi]`, in
/// source order: each block's closing ends at or before the next block's cue
/// starts.
pub open spec fn blocks_within(blocks: Seq<BlockNode>, lo: int, hi: int) -> bool
    decreases blocks,
{
    if blocks.len() == 0 {
        true
    } else {
        &&& blocks_within(
            blocks.subrange(0, blocks.len() - 1),
            lo,
            blocks[blocks.len() - 1].cue.spec_bound()@.0 as int,
        )
        &&& block_within(blocks[blocks.len() - 1], lo, hi)
    }
}

proof fn lemma_prefix_word_start(s: Seq<char>, c0: int, word: CharacterClass, i: int)
    requires
        c0 <= i,
    ensures
        c0 <= prefix_word_start(s, c0, word, i) <= i,
    decreases i,
{
    if i > c0 && i >= 1 && i <= s.len() && class_matches(word, s[i - 1]) {
        lemma_prefix_word_start(s, c0, word, i - 1);
    }
}

proof fn lemma_char_position(s: Seq<char>, b: int)
    requires
        is_char_offset(s, b),
    ensures
        char_position(s, b) matches Some(k) && 0 <= k <= s.len() && byte_offset(s, k) == b,
{
}

proof fn lemma_nodes_within_hi(s: Seq<char>, nodes: Seq<BoundaryNode>, lo: int, hi1: int, hi2: int)
    requires
        hi1 <= hi2,
        nodes_within(s, nodes, lo, hi1),
    ensures
        nodes_within(s, nodes, lo, hi2),
    decreases nodes.len(),
{
    reveal_with_fuel(nodes_within, 2);
    reveal_with_fuel(node_within, 2);
}

/// The block nesting law for one boundary: the block a boundary becomes lies
/// wherever the boundary lies, with its attached prefix inside the containing
/// bound, and so do its children, inside its content.
pub proof fn lemma_block_of_within(
    s: Seq<char>,
    c0: int,
    node: BoundaryNode,
    prefixes: Seq<BlockPrefixAttachment>,
    hi: int,
)
    requires
        0 <= c0 <= s.len(),
        text_bytes(s) <= usize::MAX,
        node_within(s, node, byte_offset(s, c0) as int, hi),
    ensures
        block_within(block_of(s, c0, node, prefixes), byte_offset(s, c0) as int, hi),
    decreases node,
{
    let b = node.boundary;
    let lo = byte_offset(s, c0) as int;
    let blk = block_of(s, c0, node, prefixes);
    lemma_char_position(s, b.spec_opening()@.0 as int);
    lemma_char_position(s, b.spec_interior()@.0 as int);
    let o = char_position(s, b.spec_opening()@.0 as int)->0;
    let inner = char_position(s, b.spec_interior()@.0 as int)->0;
    crate::text::lemma_byte_offset_strictly_increasing(s, 0, c0);
    if o < c0 {
        crate::text::lemma_byte_offset_strictly_increasing(s, o + 1, c0);
        crate::text::lemma_byte_offset_step(s, o);
    }
    if let Some(k) = prefix_index_from(prefixes, b.spec_identifier(), 0) {
        let rule = prefixes[k].spec_rule();
        let sep = rule.spec_separator();
        let kk = o - sep.len();
        if !(kk < 0 || kk < c0 || !occurs_at(s, kk, o, sep)) {
            let w = prefix_word_start(s, c0, rule.spec_word_characters(), kk);
            lemma_prefix_word_start(s, c0, rule.spec_word_characters(), kk);
            crate::text::lemma_byte_offset_strictly_increasing(s, c0, w);
            crate::text::lemma_byte_offset_strictly_increasing(s, w, kk);
            crate::text::lemma_byte_offset_strictly_increasing(s, kk, o);
            crate::text::lemma_byte_offset_strictly_increasing(s, o, s.len() as int);
            assert(s.take(s.len() as int) =~= s);
            if w != kk {
                lemma_bound_from(byte_offset(s, w) as usize, byte_offset(s, kk) as usize);
                lemma_bound_from(byte_offset(s, kk) as usize, byte_offset(s, o) as usize);
                BlockPrefix::lemma_of(
                    bound_from(byte_offset(s, w) as usize, byte_offset(s, kk) as usize),
                    bound_from(byte_offset(s, kk) as usize, byte_offset(s, o) as usize),
                );
            }
        }
    }
    let start = match blk.prefix {
        Some(pre) => pre.spec_word()@.0,
        None => b.spec_opening()@.0,
    };
    lemma_bound_from(start, b.spec_closing()@.1);
    BlockCue::<TriggerIdentifier>::lemma_of(b.spec_opening(), b.spec_identifier());
    lemma_blocks_of_within(
        s,
        inner,
        node.children,
        prefixes,
        b.spec_interior()@.1 as int,
    );
}

/// The block nesting law for a sequence of boundaries: each block lies where
/// the boundaries lie.
pub proof fn lemma_blocks_of_within(
    s: Seq<char>,
    c0: int,
    nodes: Seq<BoundaryNode>,
    prefixes: Seq<BlockPrefixAttachment>,
    hi: int,
)
    requires
        0 <= c0 <= s.len(),
        text_bytes(s) <= usize::MAX,
        nodes_within(s, nodes, byte_offset(s, c0) as int, hi),
    ensures
        blocks_within(blocks_of(s, c0, nodes, prefixes), byte_offset(s, c0) as int, hi),
    decreases nodes,
{
    reveal_with_fuel(nodes_within, 2);
    reveal_with_fuel(node_within, 2);
    if nodes.len() > 0 {
        let front = nodes.subrange(0, nodes.len() - 1);
        let last = nodes[nodes.len() - 1];
        let lo = byte_offset(s, c0) as int;
        lemma_blocks_of_within(s, c0, front, prefixes, last.boundary.spec_opening()@.0 as int);
        lemma_block_of_within(s, c0, last, prefixes, hi);
        BlockCue::<TriggerIdentifier>::lemma_of(last.boundary.spec_opening(), last.boundary.spec_identifier());
        let all = blocks_of(s, c0, nodes, prefixes);
        assert(all.subrange(0, all.len() - 1) =~= blocks_of(s, c0, front, prefixes));
    }
}


/// The nesting law of a discovered block tree: every top-level block lies in
/// the source, every child inside its parent's content bound, with its
/// attached prefix inside that bound too.
pub proof fn lemma_block_tree_nesting(
    s: Seq<char>,
    data: TokenProfileData,
    configuration: SealedBlockTreeDiscoveryConfiguration,
)
    requires
        text_bytes(s) <= usize::MAX,
    ensures
        block_tree_outcome(s, data, configuration) matches Ok(blocks) ==> blocks_within(
            blocks,
            0,
            text_bytes(s) as int,
        ),
{
    let boundaries = configuration.spec_boundaries();
    let tr = TraversalModel::Configured(boundaries, boundaries.spec_root());
    let e = s.len() as int;
    lemma_scan_level_nesting(data, s, e, tr, ScanGoal::Top, 0);
    assert(s.take(0) =~= Seq::<char>::empty());
    assert(s.take(e) =~= s);
    if let Ok((nodes, closing, fin)) = configured_scan(data, boundaries, ScanGoal::Top, s, e, 0) {
        let stop = level_stop(ScanGoal::Top, closing, fin);
        crate::text::lemma_byte_offset_strictly_increasing(s, stop, e);
        lemma_nodes_within_hi(s, nodes, 0, byte_offset(s, stop) as int, text_bytes(s) as int);
        lemma_blocks_of_within(s, 0, nodes, configuration.spec_prefixes(), text_bytes(s) as int);
    }
}


/// Whether a delimited child of a cue-terminated block lies in the byte range
/// `[lo, hi]`: its source runs from its opening through its closing, its
/// content lies between the two, and its own children lie inside its content.
pub open spec fn cue_child_within(b: CueBlockNode, lo: int, hi: int) -> bool
    decreases b,
{
    &&& lo <= b.source@.0
    &&& b.source@.0 == b.cue.spec_bound()@.0
    &&& b.cue.spec_bound()@.0 < b.cue.spec_bound()@.1
    &&& b.cue.spec_bound()@.1 == b.content@.0
    &&& b.content@.0 <= b.content@.1
    &&& b.content@.1 == b.closing@.0
    &&& b.closing@.0 < b.closing@.1
    &&& b.source@.1 == b.closing@.1
    &&& b.closing@.1 <= hi
    &&& cue_children_within(b.children, b.content@.0 as int, b.content@.1 as int)
}

/// Whether a sequence of delimited children lies, in source order and without
/// overlap, in the byte range `[lo, hi]`.
pub open spec fn cue_children_within(blocks: Seq<CueBlockNode>, lo: int, hi: int) -> bool
    decreases blocks,
{
    if blocks.len() == 0 {
        true
    } else {
        let last = blocks[blocks.len() - 1];
        &&& cue_children_within(
            blocks.subrange(0, blocks.len() - 1),
            lo,
            last.source@.0 as int,
        )
        &&& cue_child_within(last, lo, hi)
    }
}

/// Whether a root cue-terminated block lies in the byte range `[lo, hi]`: its
/// source runs from its cue through its closing, its content lies between the
/// two, and its children lie between the end of its cue and the end of its
/// closing.
pub open spec fn cue_root_within(b: CueBlockNode, lo: int, hi: int) -> bool {
    &&& lo <= b.source@.0
    &&& b.source@.0 == b.cue.spec_bound()@.0
    &&& b.cue.spec_bound()@.0 < b.cue.spec_bound()@.1
    &&& b.cue.spec_bound()@.1 == b.content@.0
    &&& b.content@.0 <= b.content@.1
    &&& b.content@.1 == b.closing@.0
    &&& b.closing@.0 <= b.closing@.1
    &&& b.source@.1 == b.closing@.1
    &&& b.closing@.1 <= hi
    &&& cue_children_within(b.children, b.content@.0 as int, b.closing@.1 as int)
}

/// Whether root cue-terminated blocks lie, in source order and without
/// overlap, in the byte range `[lo, hi]`.
pub open spec fn cue_roots_within(blocks: Seq<CueBlockNode>, lo: int, hi: int) -> bool
    decreases blocks.len(),
{
    if blocks.len() == 0 {
        true
    } else {
        &&& cue_root_within(blocks[0], lo, hi)
        &&& cue_roots_within(blocks.subrange(1, blocks.len() as int), blocks[0].source@.1 as int, hi)
    }
}

/// The cue-block form of a boundary lies wherever the boundary lies.
pub proof fn lemma_cue_child_of_within(s: Seq<char>, node: BoundaryNode, lo: int, hi: int)
    requires
        node_within(s, node, lo, hi),
    ensures
        cue_child_within(cue_child_of(node), lo, hi),
    decreases node,
{
    let b = node.boundary;
    lemma_bound_from(b.spec_opening()@.0, b.spec_closing()@.1);
    BlockCue::<CueTerminatedBlockCueEvidence>::lemma_of(
        b.spec_opening(),
        CueTerminatedBlockCueEvidence::Boundary(b.spec_identifier()),
    );
    lemma_cue_children_of_within(
        s,
        node.children,
        b.spec_interior()@.0 as int,
        b.spec_interior()@.1 as int,
    );
}

/// The cue-block forms of boundaries lie wherever the boundaries lie.
pub proof fn lemma_cue_children_of_within(s: Seq<char>, nodes: Seq<BoundaryNode>, lo: int, hi: int)
    requires
        nodes_within(s, nodes, lo, hi),
    ensures
        cue_children_within(cue_children_of(nodes), lo, hi),
    decreases nodes,
{
    reveal_with_fuel(nodes_within, 2);
    if nodes.len() > 0 {
        let front = nodes.subrange(0, nodes.len() - 1);
        let last = nodes[nodes.len() - 1];
        lemma_bound_from(last.boundary.spec_opening()@.0, last.boundary.spec_closing()@.1);
        lemma_cue_children_of_within(s, front, lo, last.boundary.spec_opening()@.0 as int);
        lemma_cue_child_of_within(s, last, lo, hi);
        let all = cue_children_of(nodes);
        assert(all.subrange(0, all.len() - 1) =~= cue_children_of(front));
    }
}

proof fn lemma_cue_roots_lower(blocks: Seq<CueBlockNode>, lo1: int, lo2: int, hi: int)
    requires
        lo1 <= lo2,
        cue_roots_within(blocks, lo2, hi),
    ensures
        cue_roots_within(blocks, lo1, hi),
{
}

/// The root blocks found from `p` lie, in order, between `p` and the end of
/// the source.
proof fn lemma_cue_scan_within(
    data: TokenProfileData,
    s: Seq<char>,
    configuration: SealedCueTerminatedBlockDiscoveryConfiguration,
    active: SealedTriggerSet,
    p: int,
)
    requires
        0 <= p <= s.len(),
        text_bytes(s) <= usize::MAX,
    ensures
        cue_scan(data, s, configuration, active, p) matches Ok(blocks) ==> cue_roots_within(
            blocks,
            byte_offset(s, p) as int,
            text_bytes(s) as int,
        ),
    decreases s.len() - p,
{
    let e = s.len() as int;
    let hi = text_bytes(s) as int;
    let rules = configuration.spec_rules();
    assert(s.take(e) =~= s);
    if p < e {
        match matching_rule_from(s, p, rules, 0, None) {
            Some(k) => {
                lemma_matching_rule_from(s, p, rules, 0, None);
                let rule = rules[k];
                let q = p + rule.spec_cue().len();
                let goal = match rule.spec_termination() {
                    CueTermination::ExactSpelling(t) => ScanGoal::Spelling(t@),
                    CueTermination::ClosingBoundary(b) => ScanGoal::Through(b),
                };
                let boundaries = configuration.spec_boundaries();
                lemma_scan_level_nesting(
                    data,
                    s,
                    e,
                    TraversalModel::Configured(boundaries, boundaries.spec_root()),
                    goal,
                    q,
                );
                if let Ok((nodes, closing, fin)) = configured_scan(data, boundaries, goal, s, e, q) {
                    if let Some((cs, ce)) = closing {
                        if !(fin <= p || fin > e || q <= p) {
                            lemma_cue_scan_within(data, s, configuration, active, fin);
                            let stop = level_stop(goal, closing, fin);
                            crate::boundary::lemma_byte_offset_monotone(s, p, q);
                            crate::boundary::lemma_byte_offset_monotone(s, q, cs);
                            crate::boundary::lemma_byte_offset_monotone(s, cs, ce);
                            crate::boundary::lemma_byte_offset_monotone(s, ce, e);
                            crate::boundary::lemma_byte_offset_monotone(s, q, stop);
                            crate::boundary::lemma_byte_offset_monotone(s, stop, fin);
                            lemma_source_bound_of(s, p, q);
                            lemma_source_bound_of(s, q, cs);
                            lemma_source_bound_of(s, cs, ce);
                            lemma_source_bound_of(s, p, ce);
                            let cue = source_bound_of(s, p, q);
                            BlockCue::<CueTerminatedBlockCueEvidence>::lemma_of(
                                cue,
                                CueTerminatedBlockCueEvidence::CueTermination(rule.spec_identifier()),
                            );
                            lemma_nodes_within_hi(
                                s,
                                nodes,
                                byte_offset(s, q) as int,
                                byte_offset(s, stop) as int,
                                byte_offset(s, fin) as int,
                            );
                            lemma_cue_children_of_within(
                                s,
                                nodes,
                                byte_offset(s, q) as int,
                                byte_offset(s, fin) as int,
                            );
                            if let Ok(rest) = cue_scan(data, s, configuration, active, fin) {
                                let node = CueBlockNode {
                                    source: source_bound_of(s, p, ce),
                                    cue: BlockCue::of(
                                        cue,
                                        CueTerminatedBlockCueEvidence::CueTermination(
                                            rule.spec_identifier(),
                                        ),
                                    ),
                                    content: source_bound_of(s, q, cs),
                                    closing: source_bound_of(s, cs, ce),
                                    children: cue_children_of(nodes),
                                };
                                let all = seq![node] + rest;
                                assert(all.subrange(1, all.len() as int) =~= rest);
                                assert(all[0] == node);
                                assert(cue_root_within(node, byte_offset(s, p) as int, hi));
                            }
                        }
                    }
                }
            },
            None => match longest_match_at(
                data,
                active.identity_data(),
                active.spec_triggers(),
                s,
                p,
                e,
            ) {
                Err(_) => {},
                Ok(Some(m)) => if !(m.2 <= p || m.2 > e) {
                    lemma_cue_scan_within(data, s, configuration, active, m.2);
                    crate::boundary::lemma_byte_offset_monotone(s, p, m.2);
                    if let Ok(blocks) = cue_scan(data, s, configuration, active, m.2) {
                        lemma_cue_roots_lower(blocks, byte_offset(s, p) as int, byte_offset(s, m.2) as int, hi);
                    }
                },
                Ok(None) => {
                    lemma_cue_scan_within(data, s, configuration, active, p + 1);
                    crate::boundary::lemma_byte_offset_monotone(s, p, p + 1);
                    if let Ok(blocks) = cue_scan(data, s, configuration, active, p + 1) {
                        lemma_cue_roots_lower(blocks, byte_offset(s, p) as int, byte_offset(s, p + 1) as int, hi);
                    }
                },
            },
        }
    }
}

/// The nesting law of a cue-terminated block tree: its root blocks lie in the
/// source in order and without overlap, each one's content between its cue
/// and its closing and its children between the end of its cue and the end of
/// its closing; every deeper child lies inside its parent's content bound.
pub proof fn lemma_cue_tree_nesting(
    s: Seq<char>,
    data: TokenProfileData,
    configuration: SealedCueTerminatedBlockDiscoveryConfiguration,
)
    requires
        text_bytes(s) <= usize::MAX,
    ensures
        cue_tree_outcome(s, data, configuration) matches Ok(blocks) ==> cue_roots_within(
            blocks,
            0,
            text_bytes(s) as int,
        ),
{
    let boundaries = configuration.spec_boundaries();
    if same_data(boundaries.identity_data(), data) {
        if let Some(set) = boundaries.context_set(boundaries.spec_root()) {
            lemma_cue_scan_within(data, s, configuration, set.spec_active(), 0);
            assert(s.take(0) =~= Seq::<char>::empty());
        }
    }
}

/// Elements of a rearrangement of `ps`, where no two attachments share a
/// boundary, have pairwise different keys.
proof fn lemma_rearranged_keys_differ(ps: Seq<BlockPrefixAttachment>, r: Seq<BlockPrefixAttachment>)
    requires
        r.to_multiset() == ps.to_multiset(),
        forall|a: int, b: int|
            0 <= a < b < ps.len() ==> ps[a].spec_boundary() != ps[b].spec_boundary(),
    ensures
        forall|i: int, j: int| 0 <= i < j < r.len() ==> r[i].spec_key() != r[j].spec_key(),
{
    r.to_multiset_ensures();
    ps.to_multiset_ensures();
    assert forall|i: int, j: int| 0 <= i < j < r.len() implies r[i].spec_key() != r[j].spec_key() by {
        if r[i].spec_key() == r[j].spec_key() {
            TriggerIdentifier::lemma_view_injective(r[i].spec_boundary(), r[j].spec_boundary());
            let x = r[i];
            let y = r[j];
            assert(r.contains(x));
            assert(r.to_multiset().count(x) > 0);
            assert(ps.to_multiset().count(x) > 0);
            assert(ps.contains(x));
            let a = choose|a: int| 0 <= a < ps.len() && ps[a] == x;
            if x != y {
                assert(r.contains(y));
                assert(r.to_multiset().count(y) > 0);
                assert(ps.to_multiset().count(y) > 0);
                assert(ps.contains(y));
                let b = choose|b: int| 0 <= b < ps.len() && ps[b] == y;
                assert(a != b);
                if a < b {
                    assert(ps[a].spec_boundary() != ps[b].spec_boundary());
                } else {
                    assert(ps[b].spec_boundary() != ps[a].spec_boundary());
                }
            } else {
                let ri = r.remove(i);
                ri.to_multiset_ensures();
                assert(ri[j - 1] == y);
                assert(ri.contains(x));
                assert(ri.to_multiset().count(x) > 0);
                assert(r.to_multiset().count(x) >= 2);
                let pa = ps.remove(a);
                pa.to_multiset_ensures();
                assert(pa.to_multiset().count(x) > 0);
                assert(pa.contains(x));
                let c = choose|c: int| 0 <= c < pa.len() && pa[c] == x;
                let b = if c < a { c } else { c + 1 };
                assert(ps[b] == x);
                if a < b {
                    assert(ps[a].spec_boundary() != ps[b].spec_boundary());
                } else {
                    assert(ps[b].spec_boundary() != ps[a].spec_boundary());
                }
            }
        }
    }
}

/// The order in which prefix attachments are given does not matter: two
/// configurations built from the same boundary data and from attachments that
/// rearrange each other, no two of them sharing a boundary, are the same rule
/// data.
pub proof fn lemma_prefix_order_is_irrelevant(
    boundaries: BoundaryDiscoveryConfiguration,
    ps: Seq<BlockPrefixAttachment>,
    qs: Seq<BlockPrefixAttachment>,
    r1: BlockTreeDiscoveryConfiguration,
    r2: BlockTreeDiscoveryConfiguration,
)
    requires
        ps.to_multiset() == qs.to_multiset(),
        forall|a: int, b: int|
            0 <= a < b < ps.len() ==> ps[a].spec_boundary() != ps[b].spec_boundary(),
        block_configuration_built(r1, boundaries, ps),
        block_configuration_built(r2, boundaries, qs),
    ensures
        r1.spec_boundaries() == r2.spec_boundaries(),
        r1.spec_prefixes() == r2.spec_prefixes(),
{
    lemma_rearranged_keys_differ(ps, r1.spec_prefixes());
    crate::order::lemma_sorted_permutations_equal(r1.spec_prefixes(), r2.spec_prefixes());
}

/// Whether the root cue block `b` ends as one of `rules` says: its cue names
/// the rule, and the block closes with the rule's termination spelling, or
/// with the closing of its last child, a boundary of the rule's kind.
pub open spec fn cue_block_terminated(
    s: Seq<char>,
    rules: Seq<CueTerminationRule>,
    b: CueBlockNode,
) -> bool {
    exists|k: int|
        0 <= k < rules.len() && b.cue.spec_evidence()
            == CueTerminatedBlockCueEvidence::CueTermination((#[trigger] rules[k]).spec_identifier())
            && match rules[k].spec_termination() {
            CueTermination::ClosingBoundary(id) => {
                &&& b.children.len() > 0
                &&& b.children.last().cue.spec_evidence() == CueTerminatedBlockCueEvidence::Boundary(
                    id,
                )
                &&& b.children.last().closing == b.closing
            },
            CueTermination::ExactSpelling(t) => exists|cs: int, ce: int|
                #![trigger source_bound_of(s, cs, ce)]
                ce == cs + t@.len() && occurs_at(s, cs, s.len() as int, t@) && b.closing
                    == source_bound_of(s, cs, ce),
        }
}

proof fn lemma_cue_children_of_last(nodes: Seq<BoundaryNode>)
    requires
        nodes.len() > 0,
    ensures
        cue_children_of(nodes).len() > 0,
        cue_children_of(nodes).last() == cue_child_of(nodes.last()),
{
}

proof fn lemma_cue_scan_terminations(
    data: TokenProfileData,
    s: Seq<char>,
    configuration: SealedCueTerminatedBlockDiscoveryConfiguration,
    active: SealedTriggerSet,
    p: int,
)
    requires
        0 <= p <= s.len(),
    ensures
        cue_scan(data, s, configuration, active, p) matches Ok(blocks) ==> forall|i: int|
            0 <= i < blocks.len() ==> cue_block_terminated(
                s,
                configuration.spec_rules(),
                #[trigger] blocks[i],
            ),
    decreases s.len() - p,
{
    let e = s.len() as int;
    let rules = configuration.spec_rules();
    if p < e {
        match matching_rule_from(s, p, rules, 0, None) {
            Some(k) => {
                lemma_matching_rule_from(s, p, rules, 0, None);
                let rule = rules[k];
                let q = p + rule.spec_cue().len();
                let goal = match rule.spec_termination() {
                    CueTermination::ExactSpelling(t) => ScanGoal::Spelling(t@),
                    CueTermination::ClosingBoundary(b) => ScanGoal::Through(b),
                };
                let boundaries = configuration.spec_boundaries();
                crate::boundary::lemma_goal_scan_closing(
                    data,
                    s,
                    e,
                    TraversalModel::Configured(boundaries, boundaries.spec_root()),
                    goal,
                    q,
                );
                if let Ok((nodes, closing, fin)) = configured_scan(data, boundaries, goal, s, e, q) {
                    if let Some((cs, ce)) = closing {
                        if !(fin <= p || fin > e || q <= p) {
                            lemma_cue_scan_terminations(data, s, configuration, active, fin);
                            if let Ok(rest) = cue_scan(data, s, configuration, active, fin) {
                                let cue = source_bound_of(s, p, q);
                                BlockCue::<CueTerminatedBlockCueEvidence>::lemma_of(
                                    cue,
                                    CueTerminatedBlockCueEvidence::CueTermination(
                                        rule.spec_identifier(),
                                    ),
                                );
                                let node = CueBlockNode {
                                    source: source_bound_of(s, p, ce),
                                    cue: BlockCue::of(
                                        cue,
                                        CueTerminatedBlockCueEvidence::CueTermination(
                                            rule.spec_identifier(),
                                        ),
                                    ),
                                    content: source_bound_of(s, q, cs),
                                    closing: source_bound_of(s, cs, ce),
                                    children: cue_children_of(nodes),
                                };
                                match rule.spec_termination() {
                                    CueTermination::ClosingBoundary(b) => {
                                        lemma_cue_children_of_last(nodes);
                                        let last = nodes.last();
                                        BlockCue::<CueTerminatedBlockCueEvidence>::lemma_of(
                                            last.boundary.spec_opening(),
                                            CueTerminatedBlockCueEvidence::Boundary(
                                                last.boundary.spec_identifier(),
                                            ),
                                        );
                                    },
                                    CueTermination::ExactSpelling(t) => {
                                        assert(s.len() as int == e);
                                        assert(source_bound_of(s, cs, ce) == node.closing);
                                    },
                                }
                                assert(cue_block_terminated(s, rules, node));
                                let all = seq![node] + rest;
                                assert forall|i: int| 0 <= i < all.len() implies cue_block_terminated(
                                    s,
                                    rules,
                                    #[trigger] all[i],
                                ) by {
                                    if i > 0 {
                                        assert(all[i] == rest[i - 1]);
                                    }
                                }
                            }
                        }
                    }
                }
            },
            None => match longest_match_at(
                data,
                active.identity_data(),
                active.spec_triggers(),
                s,
                p,
                e,
            ) {
                Err(_) => {},
                Ok(Some(m)) => if !(m.2 <= p || m.2 > e) {
                    lemma_cue_scan_terminations(data, s, configuration, active, m.2);
                },
                Ok(None) => {
                    lemma_cue_scan_terminations(data, s, configuration, active, p + 1);
                },
            },
        }
    }
}

/// Every root block of a cue-terminated tree ends as its rule says: a rule
/// that terminates with a spelling closes its block with that spelling, and
/// a rule that terminates through a boundary closes its block with the
/// closing of its last child, which is a boundary of exactly that kind.
pub proof fn lemma_cue_tree_terminations(
    s: Seq<char>,
    data: TokenProfileData,
    configuration: SealedCueTerminatedBlockDiscoveryConfiguration,
)
    ensures
        cue_tree_outcome(s, data, configuration) matches Ok(blocks) ==> forall|i: int|
            0 <= i < blocks.len() ==> cue_block_terminated(
                s,
                configuration.spec_rules(),
                #[trigger] blocks[i],
            ),
{
    let boundaries = configuration.spec_boundaries();
    if same_data(boundaries.identity_data(), data) {
        if let Some(set) = boundaries.context_set(boundaries.spec_root()) {
            lemma_cue_scan_terminations(data, s, configuration, set.spec_active(), 0);
        }
    }
}

/// Whether `pre` is a prefix that `rule` spells before the cue `cue`, inside
/// a containing bound that starts at character position `c0`: the separator
/// spells the rule's separator and ends where the cue starts, and the word
/// before it is the longest non-empty run of the rule's word characters that
/// starts no earlier than `c0`.
pub open spec fn prefix_spelled(
    s: Seq<char>,
    c0: int,
    rule: BlockPrefixRule,
    pre: BlockPrefix,
    cue: SourceBound,
) -> bool {
    exists|w: int, k: int, o: int|
        #![trigger bound_of(s, w, k), bound_of(s, k, o)]
        0 <= c0 <= w < k <= o <= s.len() && s.subrange(k, o) == rule.spec_separator() && (forall|j: int|
            w <= j < k ==> class_matches(rule.spec_word_characters(), #[trigger] s[j])) && (w == c0
            || !class_matches(rule.spec_word_characters(), s[w - 1]))
            && pre.spec_word()@ == bound_of(s, w, k) && pre.spec_separator()@ == bound_of(s, k, o)
            && cue@.0 == byte_offset(s, o)
}

/// Whether the prefix of `b`, inside a containing bound that starts at
/// character position `c0`, and the prefix of every block below it, was found
/// with an attachment for that block's own boundary, and spelled by that
/// attachment's rule.
pub open spec fn prefix_attached(
    s: Seq<char>,
    prefixes: Seq<BlockPrefixAttachment>,
    c0: int,
    b: BlockNode,
) -> bool
    decreases b,
{
    &&& b.prefix matches Some(pre) ==> exists|k: int|
        0 <= k < prefixes.len() && (#[trigger] prefixes[k]).spec_boundary() == b.cue.spec_evidence()
            && prefix_spelled(s, c0, prefixes[k].spec_rule(), pre, b.cue.spec_bound())
    &&& prefixes_attached(s, prefixes, content_position(s, b), b.children)
}

/// The character position where a block's content starts.
pub open spec fn content_position(s: Seq<char>, b: BlockNode) -> int {
    match char_position(s, b.content@.0 as int) {
        Some(k) => k,
        None => 0,
    }
}

/// Whether every block of a sequence has only prefixes of its own boundary.
pub open spec fn prefixes_attached(
    s: Seq<char>,
    prefixes: Seq<BlockPrefixAttachment>,
    c0: int,
    blocks: Seq<BlockNode>,
) -> bool
    decreases blocks,
{
    if blocks.len() == 0 {
        true
    } else {
        &&& prefixes_attached(s, prefixes, c0, blocks.subrange(0, blocks.len() - 1))
        &&& prefix_attached(s, prefixes, c0, blocks[blocks.len() - 1])
    }
}

proof fn lemma_prefix_index_from(prefixes: Seq<BlockPrefixAttachment>, boundary: TriggerIdentifier, i: int)
    requires
        0 <= i,
    ensures
        prefix_index_from(prefixes, boundary, i) matches Some(k) ==> i <= k < prefixes.len()
            && prefixes[k].spec_boundary() == boundary,
    decreases prefixes.len() - i,
{
    if i < prefixes.len() && prefixes[i].spec_boundary() != boundary {
        lemma_prefix_index_from(prefixes, boundary, i + 1);
    }
}

proof fn lemma_prefix_word_run(s: Seq<char>, c0: int, word: CharacterClass, i: int)
    requires
        c0 <= i,
    ensures
        forall|j: int| prefix_word_start(s, c0, word, i) <= j < i ==> class_matches(word, #[trigger] s[j]),
        prefix_word_start(s, c0, word, i) == c0 || prefix_word_start(s, c0, word, i) < 1
            || prefix_word_start(s, c0, word, i) > s.len() || !class_matches(
            word,
            s[prefix_word_start(s, c0, word, i) - 1],
        ),
    decreases i,
{
    if i > c0 && i >= 1 && i <= s.len() && class_matches(word, s[i - 1]) {
        lemma_prefix_word_run(s, c0, word, i - 1);
    }
}

/// The prefix of a block comes from an attachment for its own boundary.
pub proof fn lemma_block_of_prefix_attached(
    s: Seq<char>,
    c0: int,
    node: BoundaryNode,
    prefixes: Seq<BlockPrefixAttachment>,
)
    requires
        0 <= c0,
    ensures
        prefix_attached(s, prefixes, c0, block_of(s, c0, node, prefixes)),
    decreases node,
{
    let b = node.boundary;
    let blk = block_of(s, c0, node, prefixes);
    BlockCue::<TriggerIdentifier>::lemma_of(b.spec_opening(), b.spec_identifier());
    lemma_prefix_index_from(prefixes, b.spec_identifier(), 0);
    if let Some(k) = prefix_index_from(prefixes, b.spec_identifier(), 0) {
        if let Some(o) = char_position(s, b.spec_opening()@.0 as int) {
            let rule = prefixes[k].spec_rule();
            let sep = rule.spec_separator();
            let kk = o - sep.len();
            if !(kk < 0 || kk < c0 || !occurs_at(s, kk, o, sep)) {
                let w = prefix_word_start(s, c0, rule.spec_word_characters(), kk);
                lemma_prefix_word_start(s, c0, rule.spec_word_characters(), kk);
                lemma_prefix_word_run(s, c0, rule.spec_word_characters(), kk);
                if w != kk {
                    lemma_bound_from(byte_offset(s, w) as usize, byte_offset(s, kk) as usize);
                    lemma_bound_from(byte_offset(s, kk) as usize, byte_offset(s, o) as usize);
                    BlockPrefix::lemma_of(
                        bound_from(byte_offset(s, w) as usize, byte_offset(s, kk) as usize),
                        bound_from(byte_offset(s, kk) as usize, byte_offset(s, o) as usize),
                    );
                    let pre = blk.prefix->0;
                    assert(bound_of(s, w, kk) == pre.spec_word()@);
                    assert(bound_of(s, kk, o) == pre.spec_separator()@);
                    assert(prefix_spelled(s, c0, rule, pre, blk.cue.spec_bound()));
                }
            }
        }
    }
    let inner = match char_position(s, b.spec_interior()@.0 as int) {
        Some(k) => k,
        None => 0,
    };
    lemma_blocks_of_prefixes_attached(s, inner, node.children, prefixes);
}

/// The prefixes of blocks come from attachments for their own boundaries.
pub proof fn lemma_blocks_of_prefixes_attached(
    s: Seq<char>,
    c0: int,
    nodes: Seq<BoundaryNode>,
    prefixes: Seq<BlockPrefixAttachment>,
)
    requires
        0 <= c0,
    ensures
        prefixes_attached(s, prefixes, c0, blocks_of(s, c0, nodes, prefixes)),
    decreases nodes,
{
    if nodes.len() > 0 {
        let front = nodes.subrange(0, nodes.len() - 1);
        lemma_blocks_of_prefixes_attached(s, c0, front, prefixes);
        lemma_block_of_prefix_attached(s, c0, nodes[nodes.len() - 1], prefixes);
        let all = blocks_of(s, c0, nodes, prefixes);
        assert(all.subrange(0, all.len() - 1) =~= blocks_of(s, c0, front, prefixes));
    }
}

/// Every block of a discovered block tree, at every depth, carries a prefix
/// only when the configuration attaches a rule to that block's own boundary,
/// and then the prefix is spelled by that rule: its separator right before
/// the cue, its word a non-empty run of the rule's word characters.
pub proof fn lemma_block_tree_prefixes(
    s: Seq<char>,
    data: TokenProfileData,
    configuration: SealedBlockTreeDiscoveryConfiguration,
)
    ensures
        block_tree_outcome(s, data, configuration) matches Ok(blocks) ==> prefixes_attached(
            s,
            configuration.spec_prefixes(),
            0,
            blocks,
        ),
{
    let boundaries = configuration.spec_boundaries();
    let e = s.len() as int;
    if let Ok((nodes, closing, fin)) = configured_scan(data, boundaries, ScanGoal::Top, s, e, 0) {
        lemma_blocks_of_prefixes_attached(s, 0, nodes, configuration.spec_prefixes());
    }
}

} // verus!
