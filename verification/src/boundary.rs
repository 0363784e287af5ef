//! Cursor-local boundary matching under one sealed active trigger set.
//!
//! This reader never produces a preliminary token stream. A caller supplies the
//! trigger set for its current expected structural position, consumes one
//! boundary event, and recursively supplies the next position's set.

use vstd::prelude::*;

use crate::order::{is_strictly_sorted_by_key, sort_by_key, strictly_sorted_by_key, SortKey};
use crate::profile::{
    definition_index, discovery_set_error, identifiers_contain, identifiers_strictly_increasing,
    is_discovery_trigger, lemma_definition_index, lemma_same_data_symmetric,
    lemma_same_data_transitive, same_data, trigger_of, ProfileIdentity,
    SealedBoundaryDiscoverySet, SealedTokenProfile, SealedTriggerSet, TokenProfileData,
    TokenProfileError, Trigger, TriggerIdentifier, TriggerSet,
};
use crate::text::{
    byte_offset, chars_occur_at, chars_of, is_char_offset, lemma_byte_offset_step,
    lemma_byte_offset_subrange, occurs_at, string_from_chars, text_bytes,
};
use crate::profile::{
    class_matches, lemma_sealed_triggers_valid, seal_error, trigger_is_valid, CharacterClass,
};
use vstd::string::*;

verus! {

/// Whether `[start, end)` is a well-formed byte range of `s` on character
/// boundaries.
pub open spec fn valid_bound(s: Seq<char>, start: int, end: int) -> bool {
    &&& start <= end
    &&& end <= text_bytes(s)
    &&& is_char_offset(s, start)
    &&& is_char_offset(s, end)
}

/// The character position whose byte offset is `b`, if any.
pub open spec fn char_position(s: Seq<char>, b: int) -> Option<int> {
    if is_char_offset(s, b) {
        Some(choose|k: int| 0 <= k <= s.len() && byte_offset(s, k) == b)
    } else {
        None
    }
}

/// The character position whose byte offset is `b`, if any.
pub fn char_position_of(chars: &Vec<char>, b: usize) -> (r: Option<usize>)
    requires
        text_bytes(chars@) <= usize::MAX,
    ensures
        match r {
            Some(k) => k <= chars@.len() && byte_offset(chars@, k as int) == b && char_position(
                chars@,
                b as int,
            ) == Some(k as int),
            None => !is_char_offset(chars@, b as int) && char_position(chars@, b as int) is None,
        },
{
    let mut k: usize = 0;
    let mut offset: usize = 0;
    while k < chars.len() && offset < b
        invariant
            k <= chars@.len(),
            offset == byte_offset(chars@, k as int),
            text_bytes(chars@) <= usize::MAX,
            forall|j: int| 0 <= j < k ==> byte_offset(chars@, j) < b,
        decreases chars.len() - k,
    {
        proof {
            lemma_byte_offset_step(chars@, k as int);
            crate::text::lemma_byte_offset_subrange(chars@, k as int + 1, chars@.len() as int);
            assert(chars@.take(chars@.len() as int) =~= chars@);
        }
        offset = offset + crate::text::len_utf8(chars[k]);
        k = k + 1;
    }
    if offset == b {
        proof {
            assert(is_char_offset(chars@, b as int));
            let c = choose|c: int| 0 <= c <= chars@.len() && byte_offset(chars@, c) == b;
            crate::text::lemma_byte_offset_injective(chars@, c, k as int);
        }
        return Some(k);
    }
    proof {
        assert forall|j: int| 0 <= j <= chars@.len() implies byte_offset(chars@, j) != b by {
            if j > k {
                crate::text::lemma_byte_offset_strictly_increasing(chars@, k as int, j);
            }
        }
    }
    None
}

/// One validated half-open byte range within a source text.
///
/// Bounds are runtime cursor state, not archiveable structure or durable
/// identity. A delimited discovery creates the interior bound; recursive
/// readers consume only that bound.
#[derive(Clone, Copy, Debug, PartialEq, Eq, Structural)]
pub struct SourceBound {
    start: usize,
    end: usize,
}

impl View for SourceBound {
    type V = (usize, usize);

    closed spec fn view(&self) -> (usize, usize) {
        (self.start, self.end)
    }
}

/// The bound of character positions `[i, j)` of `s`, in bytes.
pub open spec fn bound_of(s: Seq<char>, i: int, j: int) -> (usize, usize) {
    (byte_offset(s, i) as usize, byte_offset(s, j) as usize)
}

impl SourceBound {
    pub fn whole(source: &str) -> (r: Self)
        ensures
            r@ == (0usize, text_bytes(source@) as usize),
            text_bytes(source@) <= usize::MAX,
    {
        let chars = chars_of(source);
        let end = crate::text::text_byte_len(&chars);
        SourceBound { start: 0, end }
    }

    pub fn checked(source: &str, start: usize, end: usize) -> (r: Result<Self, TokenProfileError>)
        ensures
            match r {
                Ok(bound) => valid_bound(source@, start as int, end as int) && bound@ == (start, end),
                Err(e) => !valid_bound(source@, start as int, end as int)
                    && e == TokenProfileError::InvalidSourceBound {
                    start,
                    end,
                    source_length: text_bytes(source@) as usize,
                },
            },
    {
        let chars = chars_of(source);
        let length = crate::text::text_byte_len(&chars);
        if start > end || end > length || char_position_of(&chars, start).is_none()
            || char_position_of(&chars, end).is_none() {
            return Err(TokenProfileError::InvalidSourceBound { start, end, source_length: length });
        }
        Ok(SourceBound { start, end })
    }

    pub fn start(self) -> (r: usize)
        ensures
            r == self@.0,
    {
        self.start
    }

    pub fn end(self) -> (r: usize)
        ensures
            r == self@.1,
    {
        self.end
    }

    pub fn is_empty(self) -> (r: bool)
        ensures
            r == (self@.0 == self@.1),
    {
        self.start == self.end
    }

    pub(crate) fn between(start: usize, end: usize) -> (r: Self)
        ensures
            r@ == (start, end),
    {
        SourceBound { start, end }
    }
}

/// The outside boundary and explicitly bounded interior discovered before any
/// child form is interpreted.
#[derive(Clone, Copy, Debug, PartialEq, Eq, Structural)]
pub struct DelimitedBoundary {
    identifier: TriggerIdentifier,
    opening: SourceBound,
    interior: SourceBound,
    closing: SourceBound,
}

impl DelimitedBoundary {
    pub closed spec fn spec_identifier(self) -> TriggerIdentifier {
        self.identifier
    }

    pub closed spec fn spec_opening(self) -> SourceBound {
        self.opening
    }

    pub closed spec fn spec_interior(self) -> SourceBound {
        self.interior
    }

    pub closed spec fn spec_closing(self) -> SourceBound {
        self.closing
    }

    pub open spec fn spec_end(self) -> usize {
        self.spec_closing()@.1
    }

    pub fn identifier(self) -> (r: TriggerIdentifier)
        ensures
            r == self.spec_identifier(),
    {
        self.identifier
    }

    pub fn opening(self) -> (r: SourceBound)
        ensures
            r == self.spec_opening(),
    {
        self.opening
    }

    pub fn interior(self) -> (r: SourceBound)
        ensures
            r == self.spec_interior(),
    {
        self.interior
    }

    pub fn closing(self) -> (r: SourceBound)
        ensures
            r == self.spec_closing(),
    {
        self.closing
    }

    pub fn end(self) -> (r: usize)
        ensures
            r == self.spec_end(),
    {
        self.closing.end
    }
}

/// Canonical identity of one boundary-discovery context.
///
/// A context selects the boundary, carrier, and trivia rules active at one
/// source level. Sealing binds it to one exact token profile before discovery
/// can use it.
#[derive(Clone, Copy, Debug, PartialEq, Eq, Structural, Hash, Ord)]
pub struct BoundaryDiscoveryContextIdentifier(u16);

impl View for BoundaryDiscoveryContextIdentifier {
    type V = u16;

    closed spec fn view(&self) -> u16 {
        self.0
    }
}

impl BoundaryDiscoveryContextIdentifier {
    pub fn new(value: u16) -> (r: Self)
        ensures
            r@ == value,
    {
        Self(value)
    }

    pub fn value(self) -> (v: u16)
        ensures
            v == self@,
    {
        self.0
    }

    pub proof fn lemma_view_injective(a: Self, b: Self)
        ensures
            (a@ == b@) <==> (a == b),
    {
    }
}

/// One context's declared outside-in discovery triggers.
#[derive(Debug, PartialEq, Eq)]
pub struct BoundaryDiscoveryContext {
    identifier: BoundaryDiscoveryContextIdentifier,
    triggers: TriggerSet,
}

impl Clone for BoundaryDiscoveryContext {
    fn clone(&self) -> (r: Self)
        ensures
            r.spec_identifier() == self.spec_identifier(),
            r.spec_triggers() == self.spec_triggers(),
    {
        BoundaryDiscoveryContext { identifier: self.identifier, triggers: self.triggers.clone() }
    }
}

impl BoundaryDiscoveryContext {
    pub closed spec fn spec_identifier(self) -> BoundaryDiscoveryContextIdentifier {
        self.identifier
    }

    pub closed spec fn spec_triggers(self) -> Seq<TriggerIdentifier> {
        self.triggers@
    }

    pub fn new(identifier: BoundaryDiscoveryContextIdentifier, triggers: TriggerSet) -> (r: Self)
        ensures
            r.spec_identifier() == identifier,
            r.spec_triggers() == triggers@,
    {
        Self { identifier, triggers }
    }

    pub fn identifier(&self) -> (r: BoundaryDiscoveryContextIdentifier)
        ensures
            r == self.spec_identifier(),
    {
        self.identifier
    }

    pub fn triggers(&self) -> (r: &TriggerSet)
        ensures
            r@ == self.spec_triggers(),
    {
        &self.triggers
    }
}

impl SortKey for BoundaryDiscoveryContext {
    open spec fn spec_key(&self) -> u64 {
        self.spec_identifier()@ as u64
    }

    fn sort_key(&self) -> (k: u64) {
        self.identifier.0 as u64
    }
}

/// A boundary-specific transition to the context governing its interior.
#[derive(Clone, Copy, Debug, PartialEq, Eq, Structural)]
pub struct BoundaryDiscoveryTransition {
    context: BoundaryDiscoveryContextIdentifier,
    boundary: TriggerIdentifier,
    child_context: BoundaryDiscoveryContextIdentifier,
}

impl BoundaryDiscoveryTransition {
    pub closed spec fn spec_context(self) -> BoundaryDiscoveryContextIdentifier {
        self.context
    }

    pub closed spec fn spec_boundary(self) -> TriggerIdentifier {
        self.boundary
    }

    pub closed spec fn spec_child_context(self) -> BoundaryDiscoveryContextIdentifier {
        self.child_context
    }

    pub fn new(
        context: BoundaryDiscoveryContextIdentifier,
        boundary: TriggerIdentifier,
        child_context: BoundaryDiscoveryContextIdentifier,
    ) -> (r: Self)
        ensures
            r.spec_context() == context,
            r.spec_boundary() == boundary,
            r.spec_child_context() == child_context,
    {
        Self { context, boundary, child_context }
    }

    pub fn context(self) -> (r: BoundaryDiscoveryContextIdentifier)
        ensures
            r == self.spec_context(),
    {
        self.context
    }

    pub fn boundary(self) -> (r: TriggerIdentifier)
        ensures
            r == self.spec_boundary(),
    {
        self.boundary
    }

    pub fn child_context(self) -> (r: BoundaryDiscoveryContextIdentifier)
        ensures
            r == self.spec_child_context(),
    {
        self.child_context
    }
}

/// The key ordering transitions by context, then boundary, then child context.
pub open spec fn transition_key(t: BoundaryDiscoveryTransition) -> u64 {
    ((t.spec_context()@ as int) * 0x1_0000_0000 + (t.spec_boundary()@ as int) * 0x1_0000 + (
    t.spec_child_context()@ as int)) as u64
}

/// The key of a transition's `(context, boundary)` pair.
pub open spec fn transition_pair_key(t: BoundaryDiscoveryTransition) -> u64 {
    ((t.spec_context()@ as int) * 0x1_0000 + (t.spec_boundary()@ as int)) as u64
}

impl SortKey for BoundaryDiscoveryTransition {
    open spec fn spec_key(&self) -> u64 {
        transition_key(*self)
    }

    fn sort_key(&self) -> (k: u64) {
        (self.context.0 as u64) * 0x1_0000_0000 + (self.boundary.value() as u64) * 0x1_0000 + (
        self.child_context.0 as u64)
    }
}


/// Canonical rule data for context-specific outside-in boundary discovery.
///
/// The root context governs top-level source. Each active boundary has an
/// explicit transition to the context used to find and record its children.
/// Construction normalizes context and transition order. Sealing rejects a
/// value with noncanonical nested trigger, context, or transition ordering.
#[derive(Debug, PartialEq, Eq)]
pub struct BoundaryDiscoveryConfiguration {
    root: BoundaryDiscoveryContextIdentifier,
    contexts: Vec<BoundaryDiscoveryContext>,
    transitions: Vec<BoundaryDiscoveryTransition>,
}

fn copy_contexts(v: &Vec<BoundaryDiscoveryContext>) -> (r: Vec<BoundaryDiscoveryContext>)
    ensures
        r@.len() == v@.len(),
        forall|i: int|
            0 <= i < v@.len() ==> (#[trigger] r@[i]).spec_identifier() == v@[i].spec_identifier()
                && r@[i].spec_triggers() == v@[i].spec_triggers(),
{
    let mut r: Vec<BoundaryDiscoveryContext> = Vec::new();
    let mut i: usize = 0;
    while i < v.len()
        invariant
            i <= v.len(),
            r@.len() == i,
            forall|j: int|
                0 <= j < i ==> (#[trigger] r@[j]).spec_identifier() == v@[j].spec_identifier()
                    && r@[j].spec_triggers() == v@[j].spec_triggers(),
        decreases v.len() - i,
    {
        r.push(v[i].clone());
        i = i + 1;
    }
    r
}

fn copy_transitions(v: &Vec<BoundaryDiscoveryTransition>) -> (r: Vec<BoundaryDiscoveryTransition>)
    ensures
        r@ == v@,
{
    let mut r: Vec<BoundaryDiscoveryTransition> = Vec::new();
    let mut i: usize = 0;
    while i < v.len()
        invariant
            i <= v.len(),
            r@ == v@.take(i as int),
        decreases v.len() - i,
    {
        r.push(v[i]);
        i = i + 1;
        assert(r@ =~= v@.take(i as int));
    }
    assert(v@.take(i as int) =~= v@);
    r
}

impl Clone for BoundaryDiscoveryConfiguration {
    fn clone(&self) -> (r: Self)
        ensures
            r.spec_root() == self.spec_root(),
            r.spec_contexts().len() == self.spec_contexts().len(),
            forall|i: int|
                0 <= i < self.spec_contexts().len() ==> (#[trigger] r.spec_contexts()[i]).spec_identifier()
                    == self.spec_contexts()[i].spec_identifier() && r.spec_contexts()[i].spec_triggers()
                    == self.spec_contexts()[i].spec_triggers(),
            r.spec_transitions() == self.spec_transitions(),
    {
        BoundaryDiscoveryConfiguration {
            root: self.root,
            contexts: copy_contexts(&self.contexts),
            transitions: copy_transitions(&self.transitions),
        }
    }
}

/// The index of the first context named `c`.
pub open spec fn context_index_from(
    contexts: Seq<BoundaryDiscoveryContext>,
    c: BoundaryDiscoveryContextIdentifier,
    i: int,
) -> Option<int>
    decreases contexts.len() - i,
{
    if i < 0 || i >= contexts.len() {
        None
    } else if contexts[i].spec_identifier() == c {
        Some(i)
    } else {
        context_index_from(contexts, c, i + 1)
    }
}

pub proof fn lemma_context_index_from(
    contexts: Seq<BoundaryDiscoveryContext>,
    c: BoundaryDiscoveryContextIdentifier,
    i: int,
)
    requires
        0 <= i,
    ensures
        context_index_from(contexts, c, i) matches Some(k) ==> i <= k < contexts.len()
            && contexts[k].spec_identifier() == c && forall|j: int|
            i <= j < k ==> (#[trigger] contexts[j]).spec_identifier() != c,
        context_index_from(contexts, c, i) is None ==> forall|j: int|
            i <= j < contexts.len() ==> (#[trigger] contexts[j]).spec_identifier() != c,
    decreases contexts.len() - i,
{
    if i < contexts.len() && contexts[i].spec_identifier() != c {
        lemma_context_index_from(contexts, c, i + 1);
    }
}

/// Whether context `c` is declared more than once.
pub open spec fn context_duplicated(
    contexts: Seq<BoundaryDiscoveryContext>,
    c: BoundaryDiscoveryContextIdentifier,
) -> bool {
    exists|i: int, j: int|
        0 <= i < j < contexts.len() && (#[trigger] contexts[i]).spec_identifier() == c
            && (#[trigger] contexts[j]).spec_identifier() == c
}

/// The smallest context declared more than once.
pub open spec fn smallest_duplicate_context(contexts: Seq<BoundaryDiscoveryContext>) -> Option<
    BoundaryDiscoveryContextIdentifier,
> {
    if exists|c: BoundaryDiscoveryContextIdentifier| context_duplicated(contexts, c) {
        Some(
            choose|c: BoundaryDiscoveryContextIdentifier|
                context_duplicated(contexts, c) && forall|d: BoundaryDiscoveryContextIdentifier|
                    context_duplicated(contexts, d) ==> c@ <= d@,
        )
    } else {
        None
    }
}

/// Whether two transitions share their `(context, boundary)` pair.
pub open spec fn transition_pair_duplicated(transitions: Seq<BoundaryDiscoveryTransition>, key: u64) -> bool {
    exists|i: int, j: int|
        0 <= i < j < transitions.len() && transition_pair_key(#[trigger] transitions[i]) == key
            && transition_pair_key(#[trigger] transitions[j]) == key
}

/// The smallest `(context, boundary)` pair that two transitions share.
pub open spec fn smallest_duplicate_transition(transitions: Seq<BoundaryDiscoveryTransition>) -> Option<
    (BoundaryDiscoveryContextIdentifier, TriggerIdentifier),
> {
    if exists|k: u64| transition_pair_duplicated(transitions, k) {
        let t = choose|t: BoundaryDiscoveryTransition|
            transitions.contains(t) && transition_pair_duplicated(transitions, transition_pair_key(t))
                && forall|m: u64|
                transition_pair_duplicated(transitions, m) ==> transition_pair_key(t) <= m;
        Some((t.spec_context(), t.spec_boundary()))
    } else {
        None
    }
}

/// The first context from `i` whose trigger set is not canonical.
pub open spec fn noncanonical_context_from(contexts: Seq<BoundaryDiscoveryContext>, i: int) -> Option<
    BoundaryDiscoveryContextIdentifier,
>
    decreases contexts.len() - i,
{
    if i < 0 || i >= contexts.len() {
        None
    } else if !identifiers_strictly_increasing(contexts[i].spec_triggers()) {
        Some(contexts[i].spec_identifier())
    } else {
        noncanonical_context_from(contexts, i + 1)
    }
}

/// The first context from `i` whose trigger set cannot seal as a
/// boundary-discovery set of the profile.
pub open spec fn unsealable_context_from(
    contexts: Seq<BoundaryDiscoveryContext>,
    data: TokenProfileData,
    i: int,
) -> Option<TokenProfileError>
    decreases contexts.len() - i,
{
    if i < 0 || i >= contexts.len() {
        None
    } else {
        match discovery_set_error(data.spec_definitions(), contexts[i].spec_triggers()) {
            Some(e) => Some(e),
            None => unsealable_context_from(contexts, data, i + 1),
        }
    }
}

/// Why one transition is not admissible.
pub open spec fn transition_error(
    contexts: Seq<BoundaryDiscoveryContext>,
    data: TokenProfileData,
    t: BoundaryDiscoveryTransition,
) -> Option<BoundaryDiscoveryError> {
    match context_index_from(contexts, t.spec_context(), 0) {
        None => Some(BoundaryDiscoveryError::UnknownContext { context: t.spec_context() }),
        Some(parent) => if context_index_from(contexts, t.spec_child_context(), 0) is None {
            Some(BoundaryDiscoveryError::UnknownContext { context: t.spec_child_context() })
        } else if !contexts[parent].spec_triggers().contains(t.spec_boundary()) {
            Some(
                BoundaryDiscoveryError::InactiveTransitionBoundary {
                    context: t.spec_context(),
                    boundary: t.spec_boundary(),
                },
            )
        } else {
            match trigger_of(data.spec_definitions(), t.spec_boundary()) {
                None => Some(
                    BoundaryDiscoveryError::Profile(
                        TokenProfileError::UnknownTriggerIdentifier(t.spec_boundary()),
                    ),
                ),
                Some(trigger) => if trigger is Boundary {
                    None
                } else {
                    Some(
                        BoundaryDiscoveryError::TransitionRequiresBoundary {
                            context: t.spec_context(),
                            trigger: t.spec_boundary(),
                        },
                    )
                },
            }
        },
    }
}

/// The first inadmissible transition from `i`.
pub open spec fn transition_error_from(
    contexts: Seq<BoundaryDiscoveryContext>,
    data: TokenProfileData,
    transitions: Seq<BoundaryDiscoveryTransition>,
    i: int,
) -> Option<BoundaryDiscoveryError>
    decreases transitions.len() - i,
{
    if i < 0 || i >= transitions.len() {
        None
    } else {
        match transition_error(contexts, data, transitions[i]) {
            Some(e) => Some(e),
            None => transition_error_from(contexts, data, transitions, i + 1),
        }
    }
}

/// Whether some transition leaves `context` through `boundary`.
pub open spec fn has_transition(
    transitions: Seq<BoundaryDiscoveryTransition>,
    context: BoundaryDiscoveryContextIdentifier,
    boundary: TriggerIdentifier,
) -> bool {
    exists|k: int|
        0 <= k < transitions.len() && (#[trigger] transitions[k]).spec_context() == context
            && transitions[k].spec_boundary() == boundary
}

/// The first active boundary, from trigger `k` of context `i` on, that has no
/// child context.
pub open spec fn missing_child_from(
    contexts: Seq<BoundaryDiscoveryContext>,
    data: TokenProfileData,
    transitions: Seq<BoundaryDiscoveryTransition>,
    i: int,
    k: int,
) -> Option<(BoundaryDiscoveryContextIdentifier, TriggerIdentifier)>
    decreases contexts.len() - i, contexts[i].spec_triggers().len() + 1 - k,
{
    if i < 0 || i >= contexts.len() || k < 0 {
        None
    } else if k >= contexts[i].spec_triggers().len() {
        missing_child_from(contexts, data, transitions, i + 1, 0)
    } else {
        let id = contexts[i].spec_triggers()[k];
        if trigger_of(data.spec_definitions(), id) matches Some(t) && t is Boundary
            && !has_transition(transitions, contexts[i].spec_identifier(), id) {
            Some((contexts[i].spec_identifier(), id))
        } else {
            missing_child_from(contexts, data, transitions, i, k + 1)
        }
    }
}

/// Why a configuration cannot be sealed against `data`.
pub open spec fn configuration_error(
    configuration: BoundaryDiscoveryConfiguration,
    data: TokenProfileData,
) -> Option<BoundaryDiscoveryError> {
    let contexts = configuration.spec_contexts();
    let transitions = configuration.spec_transitions();
    if let Some(context) = smallest_duplicate_context(contexts) {
        Some(BoundaryDiscoveryError::DuplicateContext { context })
    } else if !strictly_sorted_by_key(contexts) {
        Some(BoundaryDiscoveryError::NoncanonicalContextOrder)
    } else if let Some(context) = noncanonical_context_from(contexts, 0) {
        Some(BoundaryDiscoveryError::NoncanonicalContextTriggerSet { context })
    } else if let Some((context, boundary)) = smallest_duplicate_transition(transitions) {
        Some(BoundaryDiscoveryError::DuplicateTransition { context, boundary })
    } else if !strictly_sorted_by_key(transitions) {
        Some(BoundaryDiscoveryError::NoncanonicalTransitionOrder)
    } else if let Some(e) = unsealable_context_from(contexts, data, 0) {
        Some(BoundaryDiscoveryError::Profile(e))
    } else if context_index_from(contexts, configuration.spec_root(), 0) is None {
        Some(BoundaryDiscoveryError::UnknownContext { context: configuration.spec_root() })
    } else if let Some(e) = transition_error_from(contexts, data, transitions, 0) {
        Some(e)
    } else if let Some((context, boundary)) = missing_child_from(
        contexts,
        data,
        transitions,
        0,
        0,
    ) {
        Some(BoundaryDiscoveryError::MissingChildContext { context, boundary })
    } else {
        None
    }
}

/// Failures while applying runtime boundary-discovery context data.
#[derive(Clone, Copy, Debug, PartialEq, Eq, Structural)]
pub enum BoundaryDiscoveryError {
    Profile(TokenProfileError),
    DuplicateContext { context: BoundaryDiscoveryContextIdentifier },
    NoncanonicalContextOrder,
    NoncanonicalContextTriggerSet { context: BoundaryDiscoveryContextIdentifier },
    UnknownContext { context: BoundaryDiscoveryContextIdentifier },
    DuplicateTransition { context: BoundaryDiscoveryContextIdentifier, boundary: TriggerIdentifier },
    NoncanonicalTransitionOrder,
    InactiveTransitionBoundary { context: BoundaryDiscoveryContextIdentifier, boundary: TriggerIdentifier },
    TransitionRequiresBoundary { context: BoundaryDiscoveryContextIdentifier, trigger: TriggerIdentifier },
    MissingChildContext { context: BoundaryDiscoveryContextIdentifier, boundary: TriggerIdentifier },
    UnexpectedClose { identifier: TriggerIdentifier, bound: SourceBound },
}

impl BoundaryDiscoveryConfiguration {
    pub closed spec fn spec_root(self) -> BoundaryDiscoveryContextIdentifier {
        self.root
    }

    pub closed spec fn spec_contexts(self) -> Seq<BoundaryDiscoveryContext> {
        self.contexts@
    }

    pub closed spec fn spec_transitions(self) -> Seq<BoundaryDiscoveryTransition> {
        self.transitions@
    }

    pub fn new(
        root: BoundaryDiscoveryContextIdentifier,
        contexts: Vec<BoundaryDiscoveryContext>,
        transitions: Vec<BoundaryDiscoveryTransition>,
    ) -> (r: Self)
        ensures
            r.spec_root() == root,
            r.spec_contexts().to_multiset() == contexts@.to_multiset(),
            crate::order::sorted_by_key(r.spec_contexts()),
            r.spec_transitions().to_multiset() == transitions@.to_multiset(),
            crate::order::sorted_by_key(r.spec_transitions()),
    {
        let contexts = sort_by_key(contexts);
        let transitions = sort_by_key(transitions);
        Self { root, contexts, transitions }
    }

    pub fn root(&self) -> (r: BoundaryDiscoveryContextIdentifier)
        ensures
            r == self.spec_root(),
    {
        self.root
    }

    pub fn contexts(&self) -> (r: &[BoundaryDiscoveryContext])
        ensures
            r@ == self.spec_contexts(),
    {
        self.contexts.as_slice()
    }

    pub fn transitions(&self) -> (r: &[BoundaryDiscoveryTransition])
        ensures
            r@ == self.spec_transitions(),
    {
        self.transitions.as_slice()
    }
}


/// Whether the `(context, boundary)` keys of two transitions coincide exactly
/// when both parts coincide.
proof fn lemma_pair_key_injective(a: BoundaryDiscoveryTransition, b: BoundaryDiscoveryTransition)
    requires
        transition_pair_key(a) == transition_pair_key(b),
    ensures
        a.spec_context() == b.spec_context(),
        a.spec_boundary() == b.spec_boundary(),
{
    let x = a.spec_context()@ as int;
    let y = a.spec_boundary()@ as int;
    let u = b.spec_context()@ as int;
    let v = b.spec_boundary()@ as int;
    assert(x * 0x1_0000 + y == u * 0x1_0000 + v);
    assert(x == u && y == v) by (nonlinear_arith)
        requires
            x * 0x1_0000 + y == u * 0x1_0000 + v,
            0 <= y < 0x1_0000,
            0 <= v < 0x1_0000,
            0 <= x,
            0 <= u,
    ;
    BoundaryDiscoveryContextIdentifier::lemma_view_injective(a.spec_context(), b.spec_context());
    TriggerIdentifier::lemma_view_injective(a.spec_boundary(), b.spec_boundary());
}

fn pair_key(t: BoundaryDiscoveryTransition) -> (k: u64)
    ensures
        k == transition_pair_key(t),
{
    (t.context.0 as u64) * 0x1_0000 + (t.boundary.value() as u64)
}

/// The smallest context identifier that `contexts` declares more than once.
fn find_duplicate_context(contexts: &Vec<BoundaryDiscoveryContext>) -> (r: Option<
    BoundaryDiscoveryContextIdentifier,
>)
    ensures
        r == smallest_duplicate_context(contexts@),
{
    let mut best: Option<BoundaryDiscoveryContextIdentifier> = None;
    let mut i: usize = 0;
    while i < contexts.len()
        invariant
            i <= contexts@.len(),
            best matches Some(b) ==> context_duplicated(contexts@, b),
            forall|p: int, q: int|
                #![trigger contexts@[p], contexts@[q]]
                0 <= p < q < contexts@.len() && p < i && contexts@[p].spec_identifier()
                    == contexts@[q].spec_identifier() ==> (best matches Some(b) && b@
                    <= contexts@[p].spec_identifier()@),
        decreases contexts.len() - i,
    {
        let a = contexts[i].identifier;
        let mut j: usize = i + 1;
        while j < contexts.len()
            invariant
                i < contexts@.len(),
                i + 1 <= j <= contexts@.len(),
                a == contexts@[i as int].spec_identifier(),
                best matches Some(b) ==> context_duplicated(contexts@, b),
                forall|p: int, q: int|
                    #![trigger contexts@[p], contexts@[q]]
                    0 <= p < q < contexts@.len() && p < i && contexts@[p].spec_identifier()
                        == contexts@[q].spec_identifier() ==> (best matches Some(b) && b@
                        <= contexts@[p].spec_identifier()@),
                forall|q: int|
                    i < q < j && a == (#[trigger] contexts@[q]).spec_identifier() ==> (best matches Some(
                        b,
                    ) && b@ <= a@),
            decreases contexts.len() - j,
        {
            if a == contexts[j].identifier {
                proof {
                    assert(context_duplicated(contexts@, a)) by {
                        assert(contexts@[i as int].spec_identifier() == a);
                        assert(contexts@[j as int].spec_identifier() == a);
                    }
                }
                let better = match best {
                    None => true,
                    Some(b) => a.0 < b.0,
                };
                if better {
                    best = Some(a);
                }
            }
            j = j + 1;
        }
        i = i + 1;
    }
    proof {
        match best {
            Some(b) => {
                assert forall|d: BoundaryDiscoveryContextIdentifier|
                    context_duplicated(contexts@, d) implies b@ <= d@ by {
                    let (p, q) = choose|p: int, q: int|
                        0 <= p < q < contexts@.len() && (#[trigger] contexts@[p]).spec_identifier()
                            == d && (#[trigger] contexts@[q]).spec_identifier() == d;
                    assert(contexts@[p].spec_identifier() == contexts@[q].spec_identifier());
                }
                let c = choose|c: BoundaryDiscoveryContextIdentifier|
                    context_duplicated(contexts@, c) && forall|d: BoundaryDiscoveryContextIdentifier|
                        context_duplicated(contexts@, d) ==> c@ <= d@;
                assert(context_duplicated(contexts@, c) && forall|d: BoundaryDiscoveryContextIdentifier|
                    context_duplicated(contexts@, d) ==> c@ <= d@);
                BoundaryDiscoveryContextIdentifier::lemma_view_injective(b, c);
            },
            None => {
                assert forall|d: BoundaryDiscoveryContextIdentifier|
                    !context_duplicated(contexts@, d) by {
                    if context_duplicated(contexts@, d) {
                        let (p, q) = choose|p: int, q: int|
                            0 <= p < q < contexts@.len() && (#[trigger] contexts@[p]).spec_identifier()
                                == d && (#[trigger] contexts@[q]).spec_identifier() == d;
                        assert(contexts@[p].spec_identifier() == contexts@[q].spec_identifier());
                    }
                }
            },
        }
    }
    best
}

/// The smallest `(context, boundary)` pair that two transitions share.
fn find_duplicate_transition(transitions: &Vec<BoundaryDiscoveryTransition>) -> (r: Option<
    (BoundaryDiscoveryContextIdentifier, TriggerIdentifier),
>)
    ensures
        r == smallest_duplicate_transition(transitions@),
{
    let mut best: Option<BoundaryDiscoveryTransition> = None;
    let mut i: usize = 0;
    while i < transitions.len()
        invariant
            i <= transitions@.len(),
            best matches Some(b) ==> transitions@.contains(b) && transition_pair_duplicated(
                transitions@,
                transition_pair_key(b),
            ),
            forall|p: int, q: int|
                #![trigger transitions@[p], transitions@[q]]
                0 <= p < q < transitions@.len() && p < i && transition_pair_key(transitions@[p])
                    == transition_pair_key(transitions@[q]) ==> (best matches Some(b)
                    && transition_pair_key(b) <= transition_pair_key(transitions@[p])),
        decreases transitions.len() - i,
    {
        let a = transitions[i];
        let ka = pair_key(a);
        let mut j: usize = i + 1;
        while j < transitions.len()
            invariant
                i < transitions@.len(),
                i + 1 <= j <= transitions@.len(),
                a == transitions@[i as int],
                ka == transition_pair_key(a),
                best matches Some(b) ==> transitions@.contains(b) && transition_pair_duplicated(
                    transitions@,
                    transition_pair_key(b),
                ),
                forall|p: int, q: int|
                    #![trigger transitions@[p], transitions@[q]]
                    0 <= p < q < transitions@.len() && p < i && transition_pair_key(transitions@[p])
                        == transition_pair_key(transitions@[q]) ==> (best matches Some(b)
                        && transition_pair_key(b) <= transition_pair_key(transitions@[p])),
                forall|q: int|
                    i < q < j && ka == transition_pair_key(#[trigger] transitions@[q]) ==> (best matches Some(
                        b,
                    ) && transition_pair_key(b) <= ka),
            decreases transitions.len() - j,
        {
            if ka == pair_key(transitions[j]) {
                proof {
                    assert(transition_pair_duplicated(transitions@, ka)) by {
                        assert(transition_pair_key(transitions@[i as int]) == ka);
                        assert(transition_pair_key(transitions@[j as int]) == ka);
                    }
                    assert(transitions@[i as int] == a);
                    assert(transitions@.contains(a));
                }
                let better = match best {
                    None => true,
                    Some(b) => ka < pair_key(b),
                };
                if better {
                    best = Some(a);
                }
            }
            j = j + 1;
        }
        i = i + 1;
    }
    proof {
        if best is None {
            assert forall|m: u64| !transition_pair_duplicated(transitions@, m) by {
                if transition_pair_duplicated(transitions@, m) {
                    let (p, q) = choose|p: int, q: int|
                        0 <= p < q < transitions@.len() && transition_pair_key(
                            #[trigger] transitions@[p],
                        ) == m && transition_pair_key(#[trigger] transitions@[q]) == m;
                    assert(transition_pair_key(transitions@[p]) == transition_pair_key(
                        transitions@[q],
                    ));
                }
            }
        }
    }
    match best {
        Some(b) => {
            proof {
                assert forall|m: u64| transition_pair_duplicated(transitions@, m) implies transition_pair_key(b) <= m by {
                    let (p, q) = choose|p: int, q: int|
                        0 <= p < q < transitions@.len() && transition_pair_key(
                            #[trigger] transitions@[p],
                        ) == m && transition_pair_key(#[trigger] transitions@[q]) == m;
                    assert(transition_pair_key(transitions@[p]) == transition_pair_key(
                        transitions@[q],
                    ));
                }
                let t = choose|t: BoundaryDiscoveryTransition|
                    transitions@.contains(t) && transition_pair_duplicated(
                        transitions@,
                        transition_pair_key(t),
                    ) && forall|m: u64|
                        transition_pair_duplicated(transitions@, m) ==> transition_pair_key(t) <= m;
                assert(transitions@.contains(t) && transition_pair_duplicated(
                    transitions@,
                    transition_pair_key(t),
                ) && forall|m: u64|
                    transition_pair_duplicated(transitions@, m) ==> transition_pair_key(t) <= m);
                assert(transition_pair_key(t) <= transition_pair_key(b));
                assert(transition_pair_key(b) <= transition_pair_key(t));
                lemma_pair_key_injective(b, t);
            }
            Some((b.context, b.boundary))
        },
        None => None,
    }
}

/// The index of the first context named `c`.
fn find_context(contexts: &Vec<BoundaryDiscoveryContext>, c: BoundaryDiscoveryContextIdentifier) -> (r: Option<usize>)
    ensures
        match r {
            Some(k) => context_index_from(contexts@, c, 0) == Some(k as int) && k < contexts@.len(),
            None => context_index_from(contexts@, c, 0) is None,
        },
{
    let mut i: usize = 0;
    while i < contexts.len()
        invariant
            i <= contexts@.len(),
            context_index_from(contexts@, c, 0) == context_index_from(contexts@, c, i as int),
        decreases contexts.len() - i,
    {
        if contexts[i].identifier == c {
            return Some(i);
        }
        i = i + 1;
    }
    None
}

/// Whether some transition leaves `context` through `boundary`.
fn transition_exists(
    transitions: &Vec<BoundaryDiscoveryTransition>,
    context: BoundaryDiscoveryContextIdentifier,
    boundary: TriggerIdentifier,
) -> (r: bool)
    ensures
        r == has_transition(transitions@, context, boundary),
{
    let mut i: usize = 0;
    while i < transitions.len()
        invariant
            i <= transitions@.len(),
            forall|k: int|
                0 <= k < i ==> !((#[trigger] transitions@[k]).spec_context() == context
                    && transitions@[k].spec_boundary() == boundary),
        decreases transitions.len() - i,
    {
        if transitions[i].context == context && transitions[i].boundary == boundary {
            return true;
        }
        i = i + 1;
    }
    false
}

#[derive(Clone, Debug)]
struct SealedBoundaryDiscoveryContext {
    identifier: BoundaryDiscoveryContextIdentifier,
    active: SealedBoundaryDiscoverySet,
}

/// A sealed runtime discovery configuration bound to one token profile.
#[derive(Debug)]
pub struct SealedBoundaryDiscoveryConfiguration {
    root: BoundaryDiscoveryContextIdentifier,
    contexts: Vec<SealedBoundaryDiscoveryContext>,
    transitions: Vec<BoundaryDiscoveryTransition>,
    profile_identity: ProfileIdentity,
}

impl Clone for SealedBoundaryDiscoveryConfiguration {
    fn clone(&self) -> (r: Self)
        ensures
            same_data(r.identity_data(), self.identity_data()),
            r.spec_root() == self.spec_root(),
    {
        proof {
            use_type_invariant(self);
        }
        let profile_identity = self.profile_identity.clone();
        let mut contexts: Vec<SealedBoundaryDiscoveryContext> = Vec::new();
        let mut i: usize = 0;
        while i < self.contexts.len()
            invariant
                i <= self.contexts@.len(),
                contexts@.len() == i,
                same_data(profile_identity.data(), self.profile_identity.data()),
                forall|j: int|
                    0 <= j < self.contexts@.len() ==> same_data(
                        (#[trigger] self.contexts@[j]).active.identity_data(),
                        self.profile_identity.data(),
                    ),
                forall|j: int|
                    0 <= j < i ==> same_data(
                        (#[trigger] contexts@[j]).active.identity_data(),
                        profile_identity.data(),
                    ),
            decreases self.contexts.len() - i,
        {
            let context = &self.contexts[i];
            let active = context.active.clone();
            proof {
                lemma_same_data_transitive(
                    active.identity_data(),
                    context.active.identity_data(),
                    self.profile_identity.data(),
                );
                lemma_same_data_symmetric(profile_identity.data(), self.profile_identity.data());
                lemma_same_data_transitive(
                    active.identity_data(),
                    self.profile_identity.data(),
                    profile_identity.data(),
                );
            }
            contexts.push(SealedBoundaryDiscoveryContext { identifier: context.identifier, active });
            i = i + 1;
        }
        SealedBoundaryDiscoveryConfiguration {
            root: self.root,
            contexts,
            transitions: copy_transitions(&self.transitions),
            profile_identity,
        }
    }
}

/// The index of the first sealed context named `c`.
spec fn sealed_context_index_from(
    contexts: Seq<SealedBoundaryDiscoveryContext>,
    c: BoundaryDiscoveryContextIdentifier,
    i: int,
) -> Option<int>
    decreases contexts.len() - i,
{
    if i < 0 || i >= contexts.len() {
        None
    } else if contexts[i].identifier == c {
        Some(i)
    } else {
        sealed_context_index_from(contexts, c, i + 1)
    }
}

/// The child context of the first transition leaving `context` through
/// `boundary`, searching from `i`.
pub open spec fn child_from(
    transitions: Seq<BoundaryDiscoveryTransition>,
    context: BoundaryDiscoveryContextIdentifier,
    boundary: TriggerIdentifier,
    i: int,
) -> Option<BoundaryDiscoveryContextIdentifier>
    decreases transitions.len() - i,
{
    if i < 0 || i >= transitions.len() {
        None
    } else if transitions[i].spec_context() == context && transitions[i].spec_boundary()
        == boundary {
        Some(transitions[i].spec_child_context())
    } else {
        child_from(transitions, context, boundary, i + 1)
    }
}

impl SealedBoundaryDiscoveryConfiguration {
    #[verifier::type_invariant]
    closed spec fn contexts_share_identity(self) -> bool {
        forall|i: int|
            0 <= i < self.contexts@.len() ==> same_data(
                (#[trigger] self.contexts@[i]).active.identity_data(),
                self.profile_identity.data(),
            )
    }

    pub closed spec fn spec_root(self) -> BoundaryDiscoveryContextIdentifier {
        self.root
    }

    pub closed spec fn identity_data(self) -> TokenProfileData {
        self.profile_identity.data()
    }

    pub closed spec fn spec_transitions(self) -> Seq<BoundaryDiscoveryTransition> {
        self.transitions@
    }

    /// The sealed active set of context `c`, when declared.
    pub closed spec fn context_set(self, c: BoundaryDiscoveryContextIdentifier) -> Option<
        SealedBoundaryDiscoverySet,
    > {
        match sealed_context_index_from(self.contexts@, c, 0) {
            Some(i) => Some(self.contexts@[i].active),
            None => None,
        }
    }

    /// The active trigger identifiers of each declared context, in order.
    pub closed spec fn context_triggers(self) -> Seq<Seq<TriggerIdentifier>> {
        self.contexts@.map_values(|c: SealedBoundaryDiscoveryContext| c.active.spec_triggers())
    }

    /// The declared context identifiers in order.
    pub closed spec fn context_identifiers(self) -> Seq<BoundaryDiscoveryContextIdentifier> {
        self.contexts@.map_values(|c: SealedBoundaryDiscoveryContext| c.identifier)
    }

    /// The context governing the interior of `boundary` opened at `context`.
    pub open spec fn spec_child(
        self,
        context: BoundaryDiscoveryContextIdentifier,
        boundary: TriggerIdentifier,
    ) -> Option<BoundaryDiscoveryContextIdentifier> {
        child_from(self.spec_transitions(), context, boundary, 0)
    }

    /// The set of a declared context is the one of its first declaration.
    pub proof fn lemma_context_set(self, c: BoundaryDiscoveryContextIdentifier)
        ensures
            self.context_identifiers().len() == self.context_triggers().len(),
            self.context_set(c) is None <==> forall|k: int|
                0 <= k < self.context_identifiers().len() ==> (#[trigger] self.context_identifiers()[k]) != c,
            forall|k: int|
                0 <= k < self.context_identifiers().len() && (#[trigger] self.context_identifiers()[k]) == c
                    && (forall|j: int| 0 <= j < k ==> self.context_identifiers()[j] != c) ==> (self.context_set(
                    c,
                ) matches Some(set) && set.spec_triggers() == self.context_triggers()[k]),
    {
        lemma_sealed_context_index_from_full(self.contexts@, c, 0);
        if let Some(m) = sealed_context_index_from(self.contexts@, c, 0) {
            assert(self.context_identifiers()[m] == c);
        }
        assert forall|k: int|
            0 <= k < self.context_identifiers().len() && (#[trigger] self.context_identifiers()[k]) == c
                && (forall|j: int| 0 <= j < k ==> self.context_identifiers()[j] != c) implies (self.context_set(
            c,
        ) matches Some(set) && set.spec_triggers() == self.context_triggers()[k]) by {
            match sealed_context_index_from(self.contexts@, c, 0) {
                Some(m) => {
                    if m < k {
                        assert(self.context_identifiers()[m] == c);
                    } else if m > k {
                        assert(self.contexts@[k].identifier == c);
                    }
                },
                None => {
                    assert(self.contexts@[k].identifier == c);
                },
            }
        }
    }

    pub fn root(&self) -> (r: BoundaryDiscoveryContextIdentifier)
        ensures
            r == self.spec_root(),
    {
        self.root
    }

    fn context(&self, identifier: BoundaryDiscoveryContextIdentifier) -> (r: Result<
        &SealedBoundaryDiscoveryContext,
        BoundaryDiscoveryError,
    >)
        ensures
            match r {
                Ok(c) => self.context_set(identifier) == Some(c.active),
                Err(e) => self.context_set(identifier) is None
                    && e == BoundaryDiscoveryError::UnknownContext { context: identifier },
            },
    {
        let mut i: usize = 0;
        while i < self.contexts.len()
            invariant
                i <= self.contexts@.len(),
                sealed_context_index_from(self.contexts@, identifier, 0)
                    == sealed_context_index_from(self.contexts@, identifier, i as int),
            decreases self.contexts.len() - i,
        {
            if self.contexts[i].identifier == identifier {
                return Ok(&self.contexts[i]);
            }
            i = i + 1;
        }
        Err(BoundaryDiscoveryError::UnknownContext { context: identifier })
    }

    /// The context governing the interior of `boundary` opened at `context`.
    pub fn child_context(
        &self,
        context: BoundaryDiscoveryContextIdentifier,
        boundary: TriggerIdentifier,
    ) -> (r: Result<BoundaryDiscoveryContextIdentifier, BoundaryDiscoveryError>)
        ensures
            match r {
                Ok(c) => self.spec_child(context, boundary) == Some(c),
                Err(e) => self.spec_child(context, boundary) is None
                    && e == BoundaryDiscoveryError::MissingChildContext { context, boundary },
            },
    {
        let mut i: usize = 0;
        while i < self.transitions.len()
            invariant
                i <= self.transitions@.len(),
                self.spec_child(context, boundary) == child_from(
                    self.transitions@,
                    context,
                    boundary,
                    i as int,
                ),
            decreases self.transitions.len() - i,
        {
            let t = self.transitions[i];
            if t.context == context && t.boundary == boundary {
                return Ok(t.child_context);
            }
            i = i + 1;
        }
        Err(BoundaryDiscoveryError::MissingChildContext { context, boundary })
    }

    /// The sealed discovery set active at `context`.
    pub fn discovery_set(&self, context: BoundaryDiscoveryContextIdentifier) -> (r: Result<
        &SealedBoundaryDiscoverySet,
        BoundaryDiscoveryError,
    >)
        ensures
            match r {
                Ok(set) => self.context_set(context) == Some(*set),
                Err(e) => self.context_set(context) is None
                    && e == BoundaryDiscoveryError::UnknownContext { context },
            },
    {
        match self.context(context) {
            Ok(c) => Ok(&c.active),
            Err(e) => Err(e),
        }
    }

    /// The exact, profile-sealed trigger set active at `context`.
    pub fn active_triggers(&self, context: BoundaryDiscoveryContextIdentifier) -> (r: Result<
        &SealedTriggerSet,
        BoundaryDiscoveryError,
    >)
        ensures
            match r {
                Ok(set) => self.context_set(context) matches Some(c) && *set == c.spec_active(),
                Err(e) => self.context_set(context) is None
                    && e == BoundaryDiscoveryError::UnknownContext { context },
            },
    {
        match self.context(context) {
            Ok(c) => Ok(c.active.active_triggers()),
            Err(e) => Err(e),
        }
    }

    /// The declared context identifiers in order.
    pub fn contexts(&self) -> (r: Vec<BoundaryDiscoveryContextIdentifier>)
        ensures
            r@ == self.context_identifiers(),
    {
        let mut r: Vec<BoundaryDiscoveryContextIdentifier> = Vec::new();
        let mut i: usize = 0;
        while i < self.contexts.len()
            invariant
                i <= self.contexts@.len(),
                r@ == self.context_identifiers().take(i as int),
            decreases self.contexts.len() - i,
        {
            r.push(self.contexts[i].identifier);
            i = i + 1;
            assert(r@ =~= self.context_identifiers().take(i as int));
        }
        assert(self.context_identifiers().take(i as int) =~= self.context_identifiers());
        r
    }

    /// Whether some context admits `boundary`.
    pub fn configures_boundary(&self, boundary: TriggerIdentifier) -> (r: bool)
        ensures
            r == exists|i: int|
                0 <= i < self.context_triggers().len() && (#[trigger] self.context_triggers()[i]).contains(
                    boundary,
                ),
    {
        let mut i: usize = 0;
        while i < self.contexts.len()
            invariant
                i <= self.contexts@.len(),
                forall|j: int|
                    0 <= j < i ==> !(#[trigger] self.contexts@[j]).active.spec_triggers().contains(
                        boundary,
                    ),
            decreases self.contexts.len() - i,
        {
            if identifiers_contain(self.contexts[i].active.triggers(), boundary) {
                assert(self.context_triggers()[i as int] == self.contexts@[i as int].active.spec_triggers());
                return true;
            }
            i = i + 1;
        }
        proof {
            assert forall|j: int| 0 <= j < self.context_triggers().len() implies !(#[trigger] self.context_triggers()[j]).contains(boundary) by {
                assert(self.context_triggers()[j] == self.contexts@[j].active.spec_triggers());
            }
        }
        false
    }

    pub fn matches_profile(&self, profile: &SealedTokenProfile) -> (r: bool)
        ensures
            r == same_data(self.identity_data(), profile.data()),
    {
        let identity = profile.identity();
        let r = self.profile_identity.matches(&identity);
        proof {
            if r {
                lemma_same_data_transitive(self.identity_data(), identity.data(), profile.data());
            } else if same_data(self.identity_data(), profile.data()) {
                lemma_same_data_symmetric(identity.data(), profile.data());
                lemma_same_data_transitive(self.identity_data(), profile.data(), identity.data());
            }
        }
        r
    }
}

impl BoundaryDiscoveryConfiguration {
    /// Bind this rule data to one sealed token profile.
    ///
    /// Sealing refuses, in order: a repeated context, contexts out of
    /// identifier order, a noncanonical context trigger set, a repeated
    /// `(context, boundary)` transition, transitions out of order, a context
    /// set that is not a boundary-discovery set of the profile, an undeclared
    /// root, an inadmissible transition, and an active boundary without a
    /// child context.
    #[verifier::loop_isolation(false)]
    #[verifier::spinoff_prover]
    pub fn seal(&self, profile: &SealedTokenProfile) -> (r: Result<
        SealedBoundaryDiscoveryConfiguration,
        BoundaryDiscoveryError,
    >)
        ensures
            match r {
                Ok(sealed) => configuration_error(*self, profile.data()) is None
                    && sealed.spec_root() == self.spec_root() && sealed.spec_transitions()
                    == self.spec_transitions() && same_data(sealed.identity_data(), profile.data())
                    && sealed.context_identifiers() == self.spec_contexts().map_values(
                    |c: BoundaryDiscoveryContext| c.spec_identifier(),
                ) && sealed.context_triggers() == self.spec_contexts().map_values(
                    |c: BoundaryDiscoveryContext| c.spec_triggers(),
                ),
                Err(e) => configuration_error(*self, profile.data()) == Some(e),
            },
    {
        let ghost data = profile.data();
        let ghost contexts = self.contexts@;
        let ghost transitions = self.transitions@;
        if let Some(context) = find_duplicate_context(&self.contexts) {
            return Err(BoundaryDiscoveryError::DuplicateContext { context });
        }
        if !is_strictly_sorted_by_key(&self.contexts) {
            return Err(BoundaryDiscoveryError::NoncanonicalContextOrder);
        }
        let mut i: usize = 0;
        while i < self.contexts.len()
            invariant
                i <= contexts.len(),
                noncanonical_context_from(contexts, 0) == noncanonical_context_from(contexts, i as int),
            decreases self.contexts.len() - i,
        {
            if !self.contexts[i].triggers.is_canonical() {
                return Err(
                    BoundaryDiscoveryError::NoncanonicalContextTriggerSet {
                        context: self.contexts[i].identifier,
                    },
                );
            }
            i = i + 1;
        }
        if let Some((context, boundary)) = find_duplicate_transition(&self.transitions) {
            return Err(BoundaryDiscoveryError::DuplicateTransition { context, boundary });
        }
        if !is_strictly_sorted_by_key(&self.transitions) {
            return Err(BoundaryDiscoveryError::NoncanonicalTransitionOrder);
        }

        let mut sealed_contexts: Vec<SealedBoundaryDiscoveryContext> = Vec::new();
        let mut i: usize = 0;
        while i < self.contexts.len()
            invariant
                i <= contexts.len(),
                sealed_contexts@.len() == i,
                unsealable_context_from(contexts, data, 0) == unsealable_context_from(
                    contexts,
                    data,
                    i as int,
                ),
                forall|k: int|
                    0 <= k < i ==> (#[trigger] sealed_contexts@[k]).identifier
                        == contexts[k].spec_identifier()
                        && sealed_contexts@[k].active.spec_triggers() == contexts[k].spec_triggers()
                        && same_data(sealed_contexts@[k].active.identity_data(), data),
            decreases self.contexts.len() - i,
        {
            let active = match profile.seal_boundary_discovery_set(self.contexts[i].triggers.clone()) {
                Ok(active) => active,
                Err(e) => {
                    return Err(BoundaryDiscoveryError::Profile(e));
                },
            };
            sealed_contexts.push(
                SealedBoundaryDiscoveryContext { identifier: self.contexts[i].identifier, active },
            );
            i = i + 1;
        }
        if find_context(&self.contexts, self.root).is_none() {
            return Err(BoundaryDiscoveryError::UnknownContext { context: self.root });
        }

        let mut i: usize = 0;
        while i < self.transitions.len()
            invariant
                i <= transitions.len(),
                transition_error_from(contexts, data, transitions, 0) == transition_error_from(
                    contexts,
                    data,
                    transitions,
                    i as int,
                ),
            decreases self.transitions.len() - i,
        {
            let t = self.transitions[i];
            let parent = match find_context(&self.contexts, t.context) {
                Some(p) => p,
                None => {
                    return Err(BoundaryDiscoveryError::UnknownContext { context: t.context });
                },
            };
            if find_context(&self.contexts, t.child_context).is_none() {
                return Err(BoundaryDiscoveryError::UnknownContext { context: t.child_context });
            }
            if !identifiers_contain(self.contexts[parent].triggers.triggers(), t.boundary) {
                return Err(
                    BoundaryDiscoveryError::InactiveTransitionBoundary {
                        context: t.context,
                        boundary: t.boundary,
                    },
                );
            }
            match profile.definition(t.boundary) {
                Err(e) => {
                    return Err(BoundaryDiscoveryError::Profile(e));
                },
                Ok(definition) => match definition.trigger {
                    Trigger::Boundary { .. } => {},
                    _ => {
                        return Err(
                            BoundaryDiscoveryError::TransitionRequiresBoundary {
                                context: t.context,
                                trigger: t.boundary,
                            },
                        );
                    },
                },
            }
            i = i + 1;
        }

        let mut i: usize = 0;
        while i < self.contexts.len()
            invariant
                i <= contexts.len(),
                missing_child_from(contexts, data, transitions, 0, 0) == missing_child_from(
                    contexts,
                    data,
                    transitions,
                    i as int,
                    0,
                ),
            decreases self.contexts.len() - i,
        {
            let ids = self.contexts[i].triggers.triggers();
            let mut k: usize = 0;
            while k < ids.len()
                invariant
                    i < contexts.len(),
                    k <= ids@.len(),
                    ids@ == contexts[i as int].spec_triggers(),
                    missing_child_from(contexts, data, transitions, 0, 0) == missing_child_from(
                        contexts,
                        data,
                        transitions,
                        i as int,
                        k as int,
                    ),
                decreases ids.len() - k,
            {
                let id = ids[k];
                let is_boundary = match profile.definition(id) {
                    Ok(definition) => match definition.trigger {
                        Trigger::Boundary { .. } => true,
                        _ => false,
                    },
                    Err(_) => false,
                };
                if is_boundary && !transition_exists(&self.transitions, self.contexts[i].identifier, id) {
                    return Err(
                        BoundaryDiscoveryError::MissingChildContext {
                            context: self.contexts[i].identifier,
                            boundary: id,
                        },
                    );
                }
                k = k + 1;
            }
            i = i + 1;
        }

        let identity = profile.identity();
        proof {
            assert forall|k: int| 0 <= k < sealed_contexts@.len() implies same_data(
                (#[trigger] sealed_contexts@[k]).active.identity_data(),
                identity.data(),
            ) by {
                lemma_same_data_symmetric(identity.data(), data);
                lemma_same_data_transitive(
                    sealed_contexts@[k].active.identity_data(),
                    data,
                    identity.data(),
                );
            }
        }
        let sealed = SealedBoundaryDiscoveryConfiguration {
            root: self.root,
            contexts: sealed_contexts,
            transitions: copy_transitions(&self.transitions),
            profile_identity: identity,
        };
        proof {
            assert(sealed.context_identifiers() =~= contexts.map_values(
                |c: BoundaryDiscoveryContext| c.spec_identifier(),
            ));
            assert(sealed.context_triggers() =~= contexts.map_values(
                |c: BoundaryDiscoveryContext| c.spec_triggers(),
            ));
        }
        Ok(sealed)
    }
}

proof fn lemma_sealed_context_index_from_full(
    contexts: Seq<SealedBoundaryDiscoveryContext>,
    c: BoundaryDiscoveryContextIdentifier,
    i: int,
)
    requires
        0 <= i,
    ensures
        sealed_context_index_from(contexts, c, i) matches Some(k) ==> i <= k < contexts.len()
            && contexts[k].identifier == c && forall|j: int|
            i <= j < k ==> (#[trigger] contexts[j]).identifier != c,
        sealed_context_index_from(contexts, c, i) is None ==> forall|j: int|
            i <= j < contexts.len() ==> (#[trigger] contexts[j]).identifier != c,
    decreases contexts.len() - i,
{
    if i < contexts.len() && contexts[i].identifier != c {
        lemma_sealed_context_index_from_full(contexts, c, i + 1);
    }
}

proof fn lemma_sealed_context_index_from(
    contexts: Seq<SealedBoundaryDiscoveryContext>,
    c: BoundaryDiscoveryContextIdentifier,
    i: int,
)
    requires
        0 <= i,
    ensures
        sealed_context_index_from(contexts, c, i) matches Some(k) ==> i <= k < contexts.len()
            && contexts[k].identifier == c,
    decreases contexts.len() - i,
{
    if i < contexts.len() && contexts[i].identifier != c {
        lemma_sealed_context_index_from(contexts, c, i + 1);
    }
}



// ---------------------------------------------------------------------------
// Cursor-local trigger matching.
// ---------------------------------------------------------------------------

/// The side of a configured boundary matched at the cursor.
#[derive(Clone, Copy, Debug, PartialEq, Eq, Structural)]
pub enum BoundarySide {
    Opening,
    Closing,
}

/// The kind of one cursor-local complete match.
#[derive(Clone, Copy, Debug, PartialEq, Eq, Structural)]
pub enum TriggerMatchKind {
    Boundary(BoundarySide),
    Application,
    Punctuation,
    Carrier,
    Trivia,
    LeadingCharacterClass,
}

/// A complete match as the model sees it: the trigger, the kind, the character
/// position just past the match, and the captured body.
pub type MatchModel = (TriggerIdentifier, TriggerMatchKind, int, Option<Seq<char>>);

/// An exact spelling `g` matched at position `p`, never reading past `e`.
pub open spec fn exact_at(
    s: Seq<char>,
    p: int,
    e: int,
    id: TriggerIdentifier,
    kind: TriggerMatchKind,
    g: Seq<char>,
) -> Option<MatchModel> {
    if occurs_at(s, p, e, g) {
        Some((id, kind, p + g.len(), None))
    } else {
        None
    }
}

/// The longer of two matches at one position; the left one wins a tie.
pub open spec fn longer_of(a: Option<MatchModel>, b: Option<MatchModel>) -> Option<MatchModel> {
    match (a, b) {
        (Some(x), Some(y)) => if y.2 > x.2 {
            Some(y)
        } else {
            Some(x)
        },
        (Some(x), None) => Some(x),
        (None, y) => y,
    }
}

/// The first position from `i` that is `e` or holds a character outside
/// `class`.
pub open spec fn class_run_end(s: Seq<char>, e: int, i: int, class: CharacterClass) -> int
    decreases e - i,
{
    if 0 <= i < e && class_matches(class, s[i]) {
        class_run_end(s, e, i + 1, class)
    } else {
        i
    }
}

/// A class-driven run: one leading character, then continuation characters.
pub open spec fn class_at(
    s: Seq<char>,
    p: int,
    e: int,
    id: TriggerIdentifier,
    kind: TriggerMatchKind,
    leading: CharacterClass,
    continuation: CharacterClass,
) -> Option<MatchModel> {
    if 0 <= p < e && class_matches(leading, s[p]) {
        let end = class_run_end(s, e, p + 1, continuation);
        Some(
            (
                id,
                kind,
                end,
                if kind == TriggerMatchKind::LeadingCharacterClass {
                    Some(s.subrange(p, end))
                } else {
                    None
                },
            ),
        )
    } else {
        None
    }
}

/// The position just past the first newline from `i`, or `e` when none occurs.
pub open spec fn newline_end(s: Seq<char>, e: int, i: int) -> int
    decreases e - i,
{
    if i < 0 || i >= e {
        e
    } else if s[i] == '\n' {
        i + 1
    } else {
        newline_end(s, e, i + 1)
    }
}

/// The rest of a carrier from `cursor`: the position past its closing and the
/// captured body, or `None` when the bound ends first.
pub open spec fn carrier_scan(
    s: Seq<char>,
    e: int,
    cursor: int,
    closing: Seq<char>,
    escape: Option<Seq<char>>,
    body: Seq<char>,
) -> Option<(int, Seq<char>)>
    decreases e - cursor,
{
    if cursor < 0 || cursor >= e {
        None
    } else if occurs_at(s, cursor, e, closing) {
        Some((cursor + closing.len(), body))
    } else {
        match escape {
            Some(esc) => if occurs_at(s, cursor, e, esc) {
                let after = cursor + esc.len();
                if after >= e {
                    None
                } else {
                    carrier_scan(s, e, after + 1, closing, escape, body.push(s[after]))
                }
            } else {
                carrier_scan(s, e, cursor + 1, closing, escape, body.push(s[cursor]))
            },
            None => carrier_scan(s, e, cursor + 1, closing, escape, body.push(s[cursor])),
        }
    }
}

/// The spellings of an optional escape.
pub open spec fn escape_view(escape: Option<String>) -> Option<Seq<char>> {
    match escape {
        Some(x) => Some(x@),
        None => None,
    }
}

/// The complete match of trigger `t`, named `id`, at position `p` of `s`
/// within the bound end `e`.
pub open spec fn trigger_match(
    s: Seq<char>,
    p: int,
    e: int,
    id: TriggerIdentifier,
    t: Trigger,
) -> Result<Option<MatchModel>, TokenProfileError> {
    match t {
        Trigger::Boundary { opening, closing } => Ok(
            longer_of(
                exact_at(s, p, e, id, TriggerMatchKind::Boundary(BoundarySide::Opening), opening@),
                exact_at(s, p, e, id, TriggerMatchKind::Boundary(BoundarySide::Closing), closing@),
            ),
        ),
        Trigger::Application { glyph } => Ok(
            exact_at(s, p, e, id, TriggerMatchKind::Application, glyph@),
        ),
        Trigger::Punctuation { glyph } => Ok(
            exact_at(s, p, e, id, TriggerMatchKind::Punctuation, glyph@),
        ),
        Trigger::Carrier { opening, closing, escape } => if !occurs_at(s, p, e, opening@) {
            Ok(None)
        } else {
            match carrier_scan(s, e, p + opening@.len(), closing@, escape_view(escape), Seq::empty()) {
                Some((end, body)) => Ok(Some((id, TriggerMatchKind::Carrier, end, Some(body)))),
                None => Err(
                    TokenProfileError::UnclosedCarrier {
                        identifier: id,
                        byte_offset: byte_offset(s, p) as usize,
                    },
                ),
            }
        },
        Trigger::Whitespace { .. } => Ok(
            class_at(
                s,
                p,
                e,
                id,
                TriggerMatchKind::Trivia,
                CharacterClass::Whitespace,
                CharacterClass::Whitespace,
            ),
        ),
        Trigger::LineComment { opening } => Ok(
            if occurs_at(s, p, e, opening@) {
                Some((id, TriggerMatchKind::Trivia, newline_end(s, e, p), None))
            } else {
                None
            },
        ),
        Trigger::LeadingCharacterClass { leading, continuation } => Ok(
            class_at(s, p, e, id, TriggerMatchKind::LeadingCharacterClass, leading, continuation),
        ),
    }
}

/// The longest complete match among `ids[i..]`, given the best match
/// `winner` among the earlier ones. Equal lengths from distinct triggers are
/// refused.
pub open spec fn longest_from(
    defs: Seq<crate::profile::TriggerDefinition>,
    s: Seq<char>,
    p: int,
    e: int,
    ids: Seq<TriggerIdentifier>,
    i: int,
    winner: Option<MatchModel>,
) -> Result<Option<MatchModel>, TokenProfileError>
    decreases ids.len() - i,
{
    if i < 0 || i >= ids.len() {
        Ok(winner)
    } else {
        match trigger_of(defs, ids[i]) {
            None => Err(TokenProfileError::UnknownTriggerIdentifier(ids[i])),
            Some(t) => match trigger_match(s, p, e, ids[i], t) {
                Err(x) => Err(x),
                Ok(None) => longest_from(defs, s, p, e, ids, i + 1, winner),
                Ok(Some(c)) => match winner {
                    None => longest_from(defs, s, p, e, ids, i + 1, Some(c)),
                    Some(prev) => if c.2 > prev.2 {
                        longest_from(defs, s, p, e, ids, i + 1, Some(c))
                    } else if c.2 == prev.2 && c.0 != prev.0 {
                        Err(TokenProfileError::AmbiguousTriggerSet { first: prev.0, second: c.0 })
                    } else {
                        longest_from(defs, s, p, e, ids, i + 1, winner)
                    },
                },
            },
        }
    }
}

/// The longest complete match of an active set sealed against `set_data`, for
/// a reader over profile `data`.
pub open spec fn longest_match_at(
    data: TokenProfileData,
    set_data: TokenProfileData,
    ids: Seq<TriggerIdentifier>,
    s: Seq<char>,
    p: int,
    e: int,
) -> Result<Option<MatchModel>, TokenProfileError> {
    if !same_data(set_data, data) {
        Err(TokenProfileError::TriggerSetProfileMismatch)
    } else {
        longest_from(data.spec_definitions(), s, p, e, ids, 0, None)
    }
}

/// One complete trigger match at the current cursor.
#[derive(Clone, Debug, PartialEq, Eq)]
pub struct TriggerMatch {
    identifier: TriggerIdentifier,
    kind: TriggerMatchKind,
    start: usize,
    end: usize,
    start_position: usize,
    end_position: usize,
    body: Option<String>,
}

impl TriggerMatch {
    pub closed spec fn spec_identifier(self) -> TriggerIdentifier {
        self.identifier
    }

    pub closed spec fn spec_kind(self) -> TriggerMatchKind {
        self.kind
    }

    /// The byte offset where the match begins.
    pub closed spec fn spec_start(self) -> usize {
        self.start
    }

    /// The byte offset just past the match.
    pub closed spec fn spec_end(self) -> usize {
        self.end
    }

    /// The character position where the match begins.
    pub closed spec fn spec_start_position(self) -> int {
        self.start_position as int
    }

    /// The character position just past the match.
    pub closed spec fn spec_end_position(self) -> int {
        self.end_position as int
    }

    pub closed spec fn spec_body(self) -> Option<Seq<char>> {
        escape_view(self.body)
    }

    /// The match as the model sees it.
    pub open spec fn model(self) -> MatchModel {
        (self.spec_identifier(), self.spec_kind(), self.spec_end_position(), self.spec_body())
    }

    /// Whether this is a match made at position `p` of `s`, ending no later
    /// than `e`.
    pub open spec fn made_at(self, s: Seq<char>, p: int, e: int) -> bool {
        &&& self.spec_start_position() == p
        &&& p <= self.spec_end_position() <= e <= s.len()
        &&& self.spec_start() == byte_offset(s, p)
        &&& self.spec_end() == byte_offset(s, self.spec_end_position())
    }

    pub fn identifier(&self) -> (r: TriggerIdentifier)
        ensures
            r == self.spec_identifier(),
    {
        self.identifier
    }

    pub fn kind(&self) -> (r: TriggerMatchKind)
        ensures
            r == self.spec_kind(),
    {
        self.kind
    }

    pub fn start(&self) -> (r: usize)
        ensures
            r == self.spec_start(),
    {
        self.start
    }

    pub fn end(&self) -> (r: usize)
        ensures
            r == self.spec_end(),
    {
        self.end
    }

    /// Carrier content or leading-class spelling captured by this match.
    pub fn body(&self) -> (r: Option<&str>)
        ensures
            match r {
                Some(b) => self.spec_body() == Some(b@),
                None => self.spec_body() is None,
            },
    {
        match &self.body {
            Some(b) => Some(b.as_str()),
            None => None,
        }
    }

    pub fn is_trivia(&self) -> (r: bool)
        ensures
            r == (self.spec_kind() == TriggerMatchKind::Trivia),
    {
        match self.kind {
            TriggerMatchKind::Trivia => true,
            _ => false,
        }
    }
}

/// Whether an executed match result is the modelled one at position `p`,
/// within the bound end `e`.
pub open spec fn match_result_is(
    r: Result<Option<TriggerMatch>, TokenProfileError>,
    model: Result<Option<MatchModel>, TokenProfileError>,
    s: Seq<char>,
    p: int,
    e: int,
) -> bool {
    match (r, model) {
        (Ok(None), Ok(None)) => true,
        (Ok(Some(m)), Ok(Some(x))) => m.made_at(s, p, e) && m.model() == x,
        (Err(a), Err(b)) => a == b,
        _ => false,
    }
}

/// The byte offset of position `to`, counted on from position `from`.
pub(crate) fn offset_after(chars: &Vec<char>, from: usize, from_byte: usize, to: usize) -> (b: usize)
    requires
        text_bytes(chars@) <= usize::MAX,
        from <= to <= chars@.len(),
        from_byte == byte_offset(chars@, from as int),
    ensures
        b == byte_offset(chars@, to as int),
{
    let mut k = from;
    let mut b = from_byte;
    while k < to
        invariant
            from <= k <= to <= chars@.len(),
            b == byte_offset(chars@, k as int),
            text_bytes(chars@) <= usize::MAX,
        decreases to - k,
    {
        proof {
            lemma_byte_offset_step(chars@, k as int);
            lemma_byte_offset_subrange(chars@, k as int + 1, chars@.len() as int);
            assert(chars@.take(chars@.len() as int) =~= chars@);
        }
        b = b + crate::text::len_utf8(chars[k]);
        k = k + 1;
    }
    b
}

/// A data-bearing cursor into one source text under one sealed profile.
pub struct BoundaryReader<'source, 'profile> {
    source: &'source str,
    chars: Vec<char>,
    profile: &'profile SealedTokenProfile,
    position: usize,
    byte_offset: usize,
    start: usize,
    end: usize,
    bound: SourceBound,
}

impl<'source, 'profile> BoundaryReader<'source, 'profile> {
    /// The reader's fields agree with one another.
    pub closed spec fn wf(self) -> bool {
        &&& self.chars@ == self.source@
        &&& text_bytes(self.chars@) <= usize::MAX
        &&& self.start <= self.position <= self.end <= self.chars@.len()
        &&& self.byte_offset == byte_offset(self.chars@, self.position as int)
        &&& self.bound@ == bound_of(self.chars@, self.start as int, self.end as int)
    }

    /// The source text, as characters.
    pub closed spec fn text(self) -> Seq<char> {
        self.source@
    }

    /// The cursor, as a character position.
    pub closed spec fn spec_position(self) -> int {
        self.position as int
    }

    /// The first character position of the reader's bound.
    pub closed spec fn spec_bound_start(self) -> int {
        self.start as int
    }

    /// The character position just past the reader's bound.
    pub closed spec fn spec_bound_end(self) -> int {
        self.end as int
    }

    /// The profile data the reader matches against.
    pub closed spec fn data(self) -> TokenProfileData {
        self.profile.data()
    }

    /// The profile the reader matches against.
    pub closed spec fn spec_profile(self) -> &'profile SealedTokenProfile {
        self.profile
    }

    /// The same source, bound, and profile; only the cursor may differ.
    pub open spec fn same_frame(self, other: Self) -> bool {
        &&& self.text() == other.text()
        &&& self.spec_bound_start() == other.spec_bound_start()
        &&& self.spec_bound_end() == other.spec_bound_end()
        &&& self.data() == other.data()
        &&& self.spec_profile() == other.spec_profile()
    }

    pub fn new(source: &'source str, profile: &'profile SealedTokenProfile) -> (r: Self)
        ensures
            r.wf(),
            r.text() == source@,
            r.spec_position() == 0,
            r.spec_bound_start() == 0,
            r.spec_bound_end() == source@.len(),
            r.data() == profile.data(),
            r.spec_profile() == profile,
    {
        let chars = chars_of(source);
        let end = chars.len();
        let end_byte = crate::text::text_byte_len(&chars);
        proof {
            assert(chars@.take(0) =~= Seq::<char>::empty());
            assert(chars@.take(end as int) =~= chars@);
        }
        BoundaryReader {
            source,
            chars,
            profile,
            position: 0,
            byte_offset: 0,
            start: 0,
            end,
            bound: SourceBound::between(0, end_byte),
        }
    }

    /// Start a cursor at the beginning of one bound of this source previously
    /// obtained from boundary discovery.
    pub fn within(
        source: &'source str,
        profile: &'profile SealedTokenProfile,
        bound: SourceBound,
    ) -> (r: Self)
        requires
            valid_bound(source@, bound@.0 as int, bound@.1 as int),
        ensures
            r.wf(),
            r.text() == source@,
            byte_offset(source@, r.spec_bound_start()) == bound@.0,
            byte_offset(source@, r.spec_bound_end()) == bound@.1,
            r.spec_position() == r.spec_bound_start(),
            r.data() == profile.data(),
            r.spec_profile() == profile,
    {
        let chars = chars_of(source);
        let start = char_position_of(&chars, bound.start()).unwrap();
        let end = char_position_of(&chars, bound.end()).unwrap();
        proof {
            if start > end {
                crate::text::lemma_byte_offset_strictly_increasing(chars@, end as int, start as int);
            }
        }
        BoundaryReader {
            source,
            chars,
            profile,
            position: start,
            byte_offset: bound.start(),
            start,
            end,
            bound,
        }
    }

    pub fn bound(&self) -> (r: SourceBound)
        requires
            self.wf(),
        ensures
            r@ == bound_of(self.text(), self.spec_bound_start(), self.spec_bound_end()),
    {
        self.bound
    }

    pub fn byte_offset(&self) -> (r: usize)
        requires
            self.wf(),
        ensures
            r == byte_offset(self.text(), self.spec_position()),
    {
        self.byte_offset
    }

    pub fn is_end(&self) -> (r: bool)
        requires
            self.wf(),
        ensures
            r == (self.spec_position() == self.spec_bound_end()),
    {
        self.position == self.end
    }

    /// The unread text of the bound.
    pub fn remaining(&self) -> (r: &'source str)
        requires
            self.wf(),
        ensures
            r@ == self.text().subrange(self.spec_position(), self.spec_bound_end()),
    {
        self.source.substring_char(self.position, self.end)
    }

    /// The text between two byte offsets inside the reader's bound.
    pub fn source_between(&self, start: usize, end: usize) -> (r: &'source str)
        requires
            self.wf(),
            byte_offset(self.text(), self.spec_bound_start()) <= start <= end <= byte_offset(
                self.text(),
                self.spec_bound_end(),
            ),
            is_char_offset(self.text(), start as int),
            is_char_offset(self.text(), end as int),
        ensures
            exists|i: int, j: int|
                0 <= i <= j <= self.text().len() && byte_offset(self.text(), i) == start
                    && byte_offset(self.text(), j) == end && r@ == self.text().subrange(i, j),
    {
        let i = char_position_of(&self.chars, start).unwrap();
        let j = char_position_of(&self.chars, end).unwrap();
        proof {
            if i > j {
                crate::text::lemma_byte_offset_strictly_increasing(self.chars@, j as int, i as int);
            }
        }
        self.source.substring_char(i, j)
    }

    /// Move the cursor forward to a later character boundary of the bound.
    pub fn advance_to(&mut self, byte_offset: usize)
        requires
            old(self).wf(),
            crate::text::byte_offset(old(self).text(), old(self).spec_position()) <= byte_offset
                <= crate::text::byte_offset(old(self).text(), old(self).spec_bound_end()),
            is_char_offset(old(self).text(), byte_offset as int),
        ensures
            final(self).wf(),
            final(self).same_frame(*old(self)),
            old(self).spec_position() <= final(self).spec_position(),
            crate::text::byte_offset(final(self).text(), final(self).spec_position()) == byte_offset,
    {
        let k = char_position_of(&self.chars, byte_offset).unwrap();
        proof {
            if k < self.position {
                crate::text::lemma_byte_offset_strictly_increasing(self.chars@, k as int + 1, self.position as int);
                lemma_byte_offset_step(self.chars@, k as int);
            }
            if k > self.end {
                crate::text::lemma_byte_offset_strictly_increasing(self.chars@, self.end as int + 1, k as int);
                lemma_byte_offset_step(self.chars@, self.end as int);
            }
        }
        self.position = k;
        self.byte_offset = byte_offset;
    }

    /// A well-formed reader's cursor lies inside its bound, which lies
    /// inside the source.
    pub proof fn lemma_wf(self)
        requires
            self.wf(),
        ensures
            0 <= self.spec_bound_start() <= self.spec_position() <= self.spec_bound_end()
                <= self.text().len(),
            crate::text::text_bytes(self.text()) <= usize::MAX,
    {
    }

    /// The cursor, as a character position.
    pub(crate) fn character_position(&self) -> (r: usize)
        ensures
            r == self.spec_position(),
    {
        self.position
    }

    /// Move the cursor to character position `k` of the bound.
    fn move_to(&mut self, k: usize)
        requires
            old(self).wf(),
            old(self).spec_position() <= k <= old(self).spec_bound_end(),
        ensures
            final(self).wf(),
            final(self).same_frame(*old(self)),
            final(self).spec_position() == k,
    {
        let b = offset_after(&self.chars, self.position, self.byte_offset, k);
        self.position = k;
        self.byte_offset = b;
    }

    /// Read one character, if the bound has one left.
    pub fn advance_character(&mut self) -> (r: Option<char>)
        requires
            old(self).wf(),
        ensures
            final(self).wf(),
            final(self).same_frame(*old(self)),
            old(self).spec_position() < old(self).spec_bound_end() ==> r == Some(
                old(self).text()[old(self).spec_position()],
            ) && final(self).spec_position() == old(self).spec_position() + 1,
            old(self).spec_position() == old(self).spec_bound_end() ==> r is None
                && final(self).spec_position() == old(self).spec_position(),
    {
        if self.position == self.end {
            return None;
        }
        let c = self.chars[self.position];
        let k = self.position + 1;
        self.move_to(k);
        Some(c)
    }

    /// Build the match of `id` from the cursor to position `end_position`.
    fn make_match(
        &self,
        id: TriggerIdentifier,
        kind: TriggerMatchKind,
        end_position: usize,
        body: Option<String>,
    ) -> (m: TriggerMatch)
        requires
            self.wf(),
            self.spec_position() <= end_position <= self.spec_bound_end(),
        ensures
            m.made_at(self.text(), self.spec_position(), self.spec_bound_end()),
            m.model() == (id, kind, end_position as int, escape_view(body)),
    {
        let end = offset_after(&self.chars, self.position, self.byte_offset, end_position);
        TriggerMatch {
            identifier: id,
            kind,
            start: self.byte_offset,
            end,
            start_position: self.position,
            end_position,
            body,
        }
    }

    /// The exact spelling `glyph` at the cursor.
    fn exact_match(&self, id: TriggerIdentifier, kind: TriggerMatchKind, glyph: &String) -> (r:
        Option<TriggerMatch>)
        requires
            self.wf(),
        ensures
            match_result_is(
                Ok(r),
                Ok(exact_at(self.text(), self.spec_position(), self.spec_bound_end(), id, kind, glyph@)),
                self.text(),
                self.spec_position(),
                self.spec_bound_end(),
            ),
    {
        let g = chars_of(glyph.as_str());
        if chars_occur_at(&self.chars, self.position, self.end, &g) {
            Some(self.make_match(id, kind, self.position + g.len(), None))
        } else {
            None
        }
    }

    /// A class-driven run at the cursor.
    fn class_match(
        &self,
        id: TriggerIdentifier,
        kind: TriggerMatchKind,
        leading: &CharacterClass,
        continuation: &CharacterClass,
    ) -> (r: Option<TriggerMatch>)
        requires
            self.wf(),
        ensures
            match_result_is(
                Ok(r),
                Ok(
                    class_at(
                        self.text(),
                        self.spec_position(),
                        self.spec_bound_end(),
                        id,
                        kind,
                        *leading,
                        *continuation,
                    ),
                ),
                self.text(),
                self.spec_position(),
                self.spec_bound_end(),
            ),
    {
        if self.position == self.end || !leading.matches(self.chars[self.position]) {
            return None;
        }
        let mut k = self.position + 1;
        while k < self.end && continuation.matches(self.chars[k])
            invariant
                self.wf(),
                self.spec_position() < k <= self.end,
                class_run_end(self.text(), self.spec_bound_end(), self.spec_position() + 1, *continuation)
                    == class_run_end(self.text(), self.spec_bound_end(), k as int, *continuation),
            decreases self.end - k,
        {
            k = k + 1;
        }
        let body = match kind {
            TriggerMatchKind::LeadingCharacterClass => Some(self.source.substring_char(self.position, k).to_owned()),
            _ => None,
        };
        Some(self.make_match(id, kind, k, body))
    }
}


impl<'source, 'profile> BoundaryReader<'source, 'profile> {
    /// A carrier at the cursor: its opening, then everything up to its
    /// closing, where an escape takes the next character literally.
    fn match_carrier(
        &self,
        id: TriggerIdentifier,
        opening: &String,
        closing: &String,
        escape: &Option<String>,
    ) -> (r: Result<Option<TriggerMatch>, TokenProfileError>)
        requires
            self.wf(),
        ensures
            match_result_is(
                r,
                trigger_match(
                    self.text(),
                    self.spec_position(),
                    self.spec_bound_end(),
                    id,
                    Trigger::Carrier { opening: *opening, closing: *closing, escape: *escape },
                ),
                self.text(),
                self.spec_position(),
                self.spec_bound_end(),
            ),
    {
        let ghost s = self.text();
        let ghost p = self.spec_position();
        let ghost e = self.spec_bound_end();
        let ghost esc_view = escape_view(*escape);
        let o = chars_of(opening.as_str());
        let c = chars_of(closing.as_str());
        let esc: Option<Vec<char>> = match escape {
            Some(x) => Some(chars_of(x.as_str())),
            None => None,
        };
        if !chars_occur_at(&self.chars, self.position, self.end, &o) {
            return Ok(None);
        }
        let mut cursor = self.position + o.len();
        let mut body: Vec<char> = Vec::new();
        while cursor < self.end
            invariant
                self.wf(),
                s == self.chars@,
                p == self.position,
                e == self.end,
                c@ == closing@,
                o@ == opening@,
                occurs_at(s, p, e, o@),
                esc_view == escape_view(*escape),
                esc matches Some(x) ==> esc_view == Some(x@),
                esc is None ==> esc_view is None,
                self.position < cursor || o@.len() == 0,
                self.position <= cursor <= self.end,
                carrier_scan(s, e, p + o@.len(), c@, esc_view, Seq::empty()) == carrier_scan(
                    s,
                    e,
                    cursor as int,
                    c@,
                    esc_view,
                    body@,
                ),
            decreases self.end - cursor,
        {
            if chars_occur_at(&self.chars, cursor, self.end, &c) {
                let text = string_from_chars(body.as_slice());
                return Ok(Some(self.make_match(id, TriggerMatchKind::Carrier, cursor + c.len(), Some(text))));
            }
            let escaped = match &esc {
                Some(x) => chars_occur_at(&self.chars, cursor, self.end, x),
                None => false,
            };
            if escaped {
                let x_len = match &esc {
                    Some(x) => x.len(),
                    None => 0,
                };
                let after = cursor + x_len;
                if after >= self.end {
                    return Err(
                        TokenProfileError::UnclosedCarrier { identifier: id, byte_offset: self.byte_offset },
                    );
                }
                body.push(self.chars[after]);
                cursor = after + 1;
            } else {
                body.push(self.chars[cursor]);
                cursor = cursor + 1;
            }
        }
        Err(TokenProfileError::UnclosedCarrier { identifier: id, byte_offset: self.byte_offset })
    }

    /// The complete match of one trigger at the cursor.
    fn match_trigger(&self, id: TriggerIdentifier, trigger: &Trigger) -> (r: Result<
        Option<TriggerMatch>,
        TokenProfileError,
    >)
        requires
            self.wf(),
        ensures
            match_result_is(
                r,
                trigger_match(self.text(), self.spec_position(), self.spec_bound_end(), id, *trigger),
                self.text(),
                self.spec_position(),
                self.spec_bound_end(),
            ),
    {
        match trigger {
            Trigger::Boundary { opening, closing } => {
                let opening_match = self.exact_match(
                    id,
                    TriggerMatchKind::Boundary(BoundarySide::Opening),
                    opening,
                );
                let closing_match = self.exact_match(
                    id,
                    TriggerMatchKind::Boundary(BoundarySide::Closing),
                    closing,
                );
                match (opening_match, closing_match) {
                    (Some(left), Some(right)) => if right.end_position > left.end_position {
                        Ok(Some(right))
                    } else {
                        Ok(Some(left))
                    },
                    (Some(left), None) => Ok(Some(left)),
                    (None, right) => Ok(right),
                }
            },
            Trigger::Application { glyph } => Ok(
                self.exact_match(id, TriggerMatchKind::Application, glyph),
            ),
            Trigger::Punctuation { glyph } => Ok(
                self.exact_match(id, TriggerMatchKind::Punctuation, glyph),
            ),
            Trigger::Carrier { opening, closing, escape } => self.match_carrier(
                id,
                opening,
                closing,
                escape,
            ),
            Trigger::Whitespace { .. } => Ok(
                self.class_match(
                    id,
                    TriggerMatchKind::Trivia,
                    &CharacterClass::Whitespace,
                    &CharacterClass::Whitespace,
                ),
            ),
            Trigger::LineComment { opening } => {
                let o = chars_of(opening.as_str());
                if !chars_occur_at(&self.chars, self.position, self.end, &o) {
                    return Ok(None);
                }
                let mut k = self.position;
                while k < self.end && self.chars[k] != '\n'
                    invariant
                        self.wf(),
                        self.spec_position() <= k <= self.end,
                        newline_end(self.text(), self.spec_bound_end(), self.spec_position())
                            == newline_end(self.text(), self.spec_bound_end(), k as int),
                    decreases self.end - k,
                {
                    k = k + 1;
                }
                let end = if k < self.end {
                    k + 1
                } else {
                    self.end
                };
                Ok(Some(self.make_match(id, TriggerMatchKind::Trivia, end, None)))
            },
            Trigger::LeadingCharacterClass { leading, continuation } => Ok(
                self.class_match(id, TriggerMatchKind::LeadingCharacterClass, leading, continuation),
            ),
        }
    }

    /// Whether an active set sealed with `set_identity` belongs to this
    /// reader's profile.
    fn belongs_to_profile(&self, set_identity: &ProfileIdentity, Ghost(set_data): Ghost<
        TokenProfileData,
    >) -> (r: bool)
        requires
            self.wf(),
            same_data(set_identity.data(), set_data),
        ensures
            r == same_data(set_data, self.data()),
    {
        let identity = self.profile.identity();
        let r = set_identity.matches(&identity);
        proof {
            lemma_same_data_symmetric(set_identity.data(), set_data);
            if r {
                lemma_same_data_transitive(set_data, set_identity.data(), identity.data());
                lemma_same_data_transitive(set_data, identity.data(), self.data());
            } else if same_data(set_data, self.data()) {
                lemma_same_data_symmetric(identity.data(), self.data());
                lemma_same_data_transitive(set_identity.data(), set_data, self.data());
                lemma_same_data_transitive(set_identity.data(), self.data(), identity.data());
            }
        }
        r
    }

    /// Match the longest complete trigger of the active set at the cursor.
    /// Equal complete lengths from distinct triggers are refused.
    pub fn longest_match(&self, active: &SealedTriggerSet) -> (r: Result<
        Option<TriggerMatch>,
        TokenProfileError,
    >)
        requires
            self.wf(),
        ensures
            match_result_is(
                r,
                longest_match_at(
                    self.data(),
                    active.identity_data(),
                    active.spec_triggers(),
                    self.text(),
                    self.spec_position(),
                    self.spec_bound_end(),
                ),
                self.text(),
                self.spec_position(),
                self.spec_bound_end(),
            ),
            r matches Ok(Some(m)) ==> (active.spec_triggers().contains(m.spec_identifier())
                && m.spec_start() < m.spec_end() && m.spec_end() <= byte_offset(
                self.text(),
                self.spec_bound_end(),
            ) && (m.spec_body() is Some <==> kind_captures_body(m.spec_kind())) && (m.spec_kind()
                == TriggerMatchKind::LeadingCharacterClass ==> m.spec_body() == Some(
                self.text().subrange(self.spec_position(), m.spec_end_position()),
            ))),
    {
        proof {
            use_type_invariant(self.profile);
            self.lemma_wf();
            lemma_longest_match_shape(
                self.data(),
                active.identity_data(),
                active.spec_triggers(),
                self.text(),
                self.spec_position(),
                self.spec_bound_end(),
            );
            if let Ok(Some(m)) = longest_match_at(
                self.data(),
                active.identity_data(),
                active.spec_triggers(),
                self.text(),
                self.spec_position(),
                self.spec_bound_end(),
            ) {
                crate::text::lemma_byte_offset_strictly_increasing(self.text(), self.spec_position(), m.2);
                crate::text::lemma_byte_offset_strictly_increasing(self.text(), m.2, self.spec_bound_end());
            }
        }
        let set_identity = active.profile_identity();
        if !self.belongs_to_profile(&set_identity, Ghost(active.identity_data())) {
            return Err(TokenProfileError::TriggerSetProfileMismatch);
        }
        let ghost defs = self.data().spec_definitions();
        let ghost s = self.text();
        let ghost p = self.spec_position();
        let ghost e = self.spec_bound_end();
        let ids = active.triggers();
        let mut winner: Option<TriggerMatch> = None;
        let mut i: usize = 0;
        while i < ids.len()
            invariant
                self.wf(),
                s == self.text(),
                p == self.spec_position(),
                e == self.spec_bound_end(),
                defs == self.data().spec_definitions(),
                i <= ids@.len(),
                winner matches Some(w) ==> w.made_at(s, p, e),
                same_data(active.identity_data(), self.data()),
                ids@ == active.spec_triggers(),
                longest_from(defs, s, p, e, ids@, 0, None) == longest_from(
                    defs,
                    s,
                    p,
                    e,
                    ids@,
                    i as int,
                    match winner {
                        Some(w) => Some(w.model()),
                        None => None,
                    },
                ),
            decreases ids.len() - i,
        {
            let id = ids[i];
            let definition = match self.profile.definition(id) {
                Ok(d) => d,
                Err(x) => {
                    return Err(x);
                },
            };
            let candidate = match self.match_trigger(id, &definition.trigger) {
                Ok(Some(c)) => c,
                Ok(None) => {
                    i = i + 1;
                    continue;
                },
                Err(x) => {
                    return Err(x);
                },
            };
            let replace = match &winner {
                None => true,
                Some(previous) => {
                    if candidate.end_position > previous.end_position {
                        true
                    } else if candidate.end_position == previous.end_position
                        && candidate.identifier != previous.identifier {
                        return Err(
                            TokenProfileError::AmbiguousTriggerSet {
                                first: previous.identifier,
                                second: candidate.identifier,
                            },
                        );
                    } else {
                        false
                    }
                },
            };
            if replace {
                winner = Some(candidate);
            }
            i = i + 1;
        }
        Ok(winner)
    }

    /// Consume the longest complete match at the cursor, if any.
    pub fn consume(&mut self, active: &SealedTriggerSet) -> (r: Result<
        Option<TriggerMatch>,
        TokenProfileError,
    >)
        requires
            old(self).wf(),
        ensures
            final(self).wf(),
            final(self).same_frame(*old(self)),
            match_result_is(
                r,
                longest_match_at(
                    old(self).data(),
                    active.identity_data(),
                    active.spec_triggers(),
                    old(self).text(),
                    old(self).spec_position(),
                    old(self).spec_bound_end(),
                ),
                old(self).text(),
                old(self).spec_position(),
                old(self).spec_bound_end(),
            ),
            final(self).spec_position() == match r {
                Ok(Some(m)) => m.spec_end_position(),
                _ => old(self).spec_position(),
            },
    {
        let matched = self.longest_match(active);
        if let Ok(Some(m)) = &matched {
            self.move_to(m.end_position);
        }
        matched
    }
}


pub(crate) proof fn lemma_class_run_end_bounds(s: Seq<char>, e: int, i: int, class: CharacterClass)
    requires
        0 <= i <= e,
    ensures
        i <= class_run_end(s, e, i, class) <= e,
    decreases e - i,
{
    if i < e && class_matches(class, s[i]) {
        lemma_class_run_end_bounds(s, e, i + 1, class);
    }
}

pub(crate) proof fn lemma_newline_end_bounds(s: Seq<char>, e: int, i: int)
    requires
        0 <= i < e,
    ensures
        i < newline_end(s, e, i) <= e,
    decreases e - i,
{
    if s[i] != '\n' {
        if i + 1 < e {
            lemma_newline_end_bounds(s, e, i + 1);
        } else {
            assert(newline_end(s, e, i + 1) == e);
        }
    }
}

proof fn lemma_carrier_scan_bounds(
    s: Seq<char>,
    e: int,
    cursor: int,
    closing: Seq<char>,
    escape: Option<Seq<char>>,
    body: Seq<char>,
)
    requires
        closing.len() > 0,
    ensures
        carrier_scan(s, e, cursor, closing, escape, body) matches Some((end, _)) ==> cursor < end <= e,
    decreases e - cursor,
{
    if 0 <= cursor < e && !occurs_at(s, cursor, e, closing) {
        match escape {
            Some(esc) => if occurs_at(s, cursor, e, esc) {
                let after = cursor + esc.len();
                if after < e {
                    lemma_carrier_scan_bounds(s, e, after + 1, closing, escape, body.push(s[after]));
                }
            } else {
                lemma_carrier_scan_bounds(s, e, cursor + 1, closing, escape, body.push(s[cursor]));
            },
            None => {
                lemma_carrier_scan_bounds(s, e, cursor + 1, closing, escape, body.push(s[cursor]));
            },
        }
    }
}

/// A complete match of a valid trigger consumes at least one character and
/// stays inside the bound.
proof fn lemma_trigger_match_progress(s: Seq<char>, p: int, e: int, id: TriggerIdentifier, t: Trigger)
    requires
        trigger_is_valid(t),
        0 <= p <= e <= s.len(),
    ensures
        trigger_match(s, p, e, id, t) matches Ok(Some(m)) ==> p < m.2 <= e,
{
    match t {
        Trigger::Carrier { opening, closing, escape } => {
            lemma_carrier_scan_bounds(s, e, p + opening@.len(), closing@, escape_view(escape), Seq::empty());
        },
        Trigger::Whitespace { .. } => {
            if p < e {
                lemma_class_run_end_bounds(s, e, p + 1, CharacterClass::Whitespace);
            }
        },
        Trigger::LineComment { opening } => {
            if occurs_at(s, p, e, opening@) {
                lemma_newline_end_bounds(s, e, p);
            }
        },
        Trigger::LeadingCharacterClass { leading, continuation } => {
            if p < e {
                lemma_class_run_end_bounds(s, e, p + 1, continuation);
            }
        },
        _ => {},
    }
}

/// Under sealed profile data, the longest match consumes at least one
/// character and stays inside the bound.
proof fn lemma_longest_progress(
    data: TokenProfileData,
    s: Seq<char>,
    p: int,
    e: int,
    ids: Seq<TriggerIdentifier>,
    i: int,
    winner: Option<MatchModel>,
)
    requires
        seal_error(data) is None,
        0 <= p <= e <= s.len(),
        0 <= i,
        winner matches Some(w) ==> p < w.2 <= e,
    ensures
        longest_from(data.spec_definitions(), s, p, e, ids, i, winner) matches Ok(Some(m)) ==> p < m.2
            <= e,
    decreases ids.len() - i,
{
    if i < ids.len() {
        lemma_sealed_triggers_valid(data, ids[i]);
        if let Some(t) = trigger_of(data.spec_definitions(), ids[i]) {
            lemma_trigger_match_progress(s, p, e, ids[i], t);
            match trigger_match(s, p, e, ids[i], t) {
                Ok(None) => lemma_longest_progress(data, s, p, e, ids, i + 1, winner),
                Ok(Some(c)) => {
                    lemma_longest_progress(data, s, p, e, ids, i + 1, Some(c));
                    lemma_longest_progress(data, s, p, e, ids, i + 1, winner);
                },
                Err(_) => {},
            }
        }
    }
}

/// Under sealed profile data, a longest match from position `p` consumes at
/// least one character and stays inside the bound.
pub proof fn lemma_longest_match_advances(
    data: TokenProfileData,
    s: Seq<char>,
    p: int,
    e: int,
    ids: Seq<TriggerIdentifier>,
)
    requires
        seal_error(data) is None,
        0 <= p <= e <= s.len(),
    ensures
        longest_from(data.spec_definitions(), s, p, e, ids, 0, None) matches Ok(Some(m)) ==> p < m.2
            <= e,
{
    lemma_longest_progress(data, s, p, e, ids, 0, None);
}

/// Where skipping trivia from `p` stops, and the error that stopped it.
pub open spec fn trivia_skip(
    data: TokenProfileData,
    set_data: TokenProfileData,
    ids: Seq<TriggerIdentifier>,
    s: Seq<char>,
    e: int,
    p: int,
) -> (int, Option<TokenProfileError>)
    decreases e - p,
{
    match longest_match_at(data, set_data, ids, s, p, e) {
        Err(x) => (p, Some(x)),
        Ok(None) => (p, None),
        Ok(Some(m)) => if m.1 != TriggerMatchKind::Trivia || m.2 <= p || m.2 > e {
            (p, None)
        } else {
            trivia_skip(data, set_data, ids, s, e, m.2)
        },
    }
}

/// Skipping trivia stops only where no trivia matches: on success the cursor
/// stands where the longest match is absent or not trivia, on failure where
/// matching failed with that very error; it never moves backwards or past the
/// bound.
pub proof fn lemma_trivia_skip_stops(
    data: TokenProfileData,
    set_data: TokenProfileData,
    ids: Seq<TriggerIdentifier>,
    s: Seq<char>,
    e: int,
    p: int,
)
    requires
        seal_error(data) is None,
        0 <= p <= e <= s.len(),
    ensures
        ({
            let (q, err) = trivia_skip(data, set_data, ids, s, e, p);
            &&& p <= q <= e
            &&& match err {
                None => longest_match_at(data, set_data, ids, s, q, e) matches Ok(None) || (
                longest_match_at(data, set_data, ids, s, q, e) matches Ok(Some(m)) && m.1
                    != TriggerMatchKind::Trivia),
                Some(x) => longest_match_at(data, set_data, ids, s, q, e) == Err::<
                    Option<MatchModel>,
                    TokenProfileError,
                >(x),
            }
        }),
    decreases e - p,
{
    if same_data(set_data, data) {
        lemma_longest_match_advances(data, s, p, e, ids);
    }
    if let Ok(Some(m)) = longest_match_at(data, set_data, ids, s, p, e) {
        if m.1 == TriggerMatchKind::Trivia && p < m.2 <= e {
            lemma_trivia_skip_stops(data, set_data, ids, s, e, m.2);
        }
    }
}

/// Where a bare run that began before `p` ends, and the error that ended it.
pub open spec fn bare_scan(
    data: TokenProfileData,
    set_data: TokenProfileData,
    ids: Seq<TriggerIdentifier>,
    s: Seq<char>,
    e: int,
    p: int,
) -> (int, Option<TokenProfileError>)
    decreases e - p,
{
    if p < 0 || p >= e {
        (p, None)
    } else {
        match longest_match_at(data, set_data, ids, s, p, e) {
            Err(x) => (p, Some(x)),
            Ok(Some(_)) => (p, None),
            Ok(None) => if data.spec_forbidden().contains(s[p]) {
                (
                    p + 1,
                    Some(
                        TokenProfileError::ForbiddenBareCharacter {
                            character: s[p],
                            byte_offset: byte_offset(s, p) as usize,
                        },
                    ),
                )
            } else {
                bare_scan(data, set_data, ids, s, e, p + 1)
            },
        }
    }
}

/// The outcome of reading one bare atom at `p`, and where the cursor stops.
pub open spec fn bare_read(
    data: TokenProfileData,
    set_data: TokenProfileData,
    ids: Seq<TriggerIdentifier>,
    s: Seq<char>,
    e: int,
    p: int,
) -> (Result<Option<Seq<char>>, TokenProfileError>, int) {
    match longest_match_at(data, set_data, ids, s, p, e) {
        Err(x) => (Err(x), p),
        Ok(Some(_)) => (Ok(None), p),
        Ok(None) => if p >= e {
            (Ok(None), p)
        } else {
            let (q, err) = bare_scan(data, set_data, ids, s, e, p);
            match err {
                Some(x) => (Err(x), q),
                None => (Ok(Some(s.subrange(p, q))), q),
            }
        },
    }
}

impl<'source, 'profile> BoundaryReader<'source, 'profile> {
    /// Consume every trivia match active at this position.
    pub fn skip_trivia(&mut self, active: &SealedTriggerSet) -> (r: Result<(), TokenProfileError>)
        requires
            old(self).wf(),
        ensures
            final(self).wf(),
            final(self).same_frame(*old(self)),
            ({
                let (q, err) = trivia_skip(
                    old(self).data(),
                    active.identity_data(),
                    active.spec_triggers(),
                    old(self).text(),
                    old(self).spec_bound_end(),
                    old(self).spec_position(),
                );
                &&& final(self).spec_position() == q
                &&& match err {
                    Some(x) => r == Err::<(), TokenProfileError>(x),
                    None => r is Ok,
                }
            }),
            r is Ok ==> ({
                let after = longest_match_at(
                    old(self).data(),
                    active.identity_data(),
                    active.spec_triggers(),
                    old(self).text(),
                    final(self).spec_position(),
                    old(self).spec_bound_end(),
                );
                after matches Ok(None) || (after matches Ok(Some(m)) && m.1
                    != TriggerMatchKind::Trivia)
            }),
    {
        let ghost start = *self;
        proof {
            use_type_invariant(self.profile);
            self.lemma_wf();
            lemma_trivia_skip_stops(
                self.data(),
                active.identity_data(),
                active.spec_triggers(),
                self.text(),
                self.spec_bound_end(),
                self.spec_position(),
            );
        }
        loop
            invariant
                self.wf(),
                self.same_frame(start),
                start == *old(self),
                seal_error(self.data()) is None,
                trivia_skip(
                    start.data(),
                    active.identity_data(),
                    active.spec_triggers(),
                    start.text(),
                    start.spec_bound_end(),
                    start.spec_position(),
                ) == trivia_skip(
                    self.data(),
                    active.identity_data(),
                    active.spec_triggers(),
                    self.text(),
                    self.spec_bound_end(),
                    self.spec_position(),
                ),
            decreases self.end - self.position,
        {
            let matched = match self.longest_match(active) {
                Ok(Some(m)) => m,
                Ok(None) => {
                    return Ok(());
                },
                Err(x) => {
                    return Err(x);
                },
            };
            if !matched.is_trivia() {
                return Ok(());
            }
            proof {
                lemma_longest_progress(
                    self.data(),
                    self.text(),
                    self.spec_position(),
                    self.spec_bound_end(),
                    active.spec_triggers(),
                    0,
                    None,
                );
            }
            self.move_to(matched.end_position);
        }
    }

    /// Read the negative space between active triggers as one bare atom.
    pub fn read_bare(&mut self, active: &SealedTriggerSet) -> (r: Result<
        Option<String>,
        TokenProfileError,
    >)
        requires
            old(self).wf(),
        ensures
            final(self).wf(),
            final(self).same_frame(*old(self)),
            ({
                let (outcome, q) = bare_read(
                    old(self).data(),
                    active.identity_data(),
                    active.spec_triggers(),
                    old(self).text(),
                    old(self).spec_bound_end(),
                    old(self).spec_position(),
                );
                &&& final(self).spec_position() == q
                &&& match (r, outcome) {
                    (Ok(None), Ok(None)) => true,
                    (Ok(Some(t)), Ok(Some(u))) => t@ == u,
                    (Err(a), Err(b)) => a == b,
                    _ => false,
                }
            }),
    {
        match self.longest_match(active) {
            Ok(Some(_)) => {
                return Ok(None);
            },
            Ok(None) => {},
            Err(x) => {
                return Err(x);
            },
        }
        if self.is_end() {
            return Ok(None);
        }
        let ghost first = *self;
        let begin = self.position;
        loop
            invariant
                self.wf(),
                self.same_frame(first),
                first == *old(self),
                first.wf(),
                begin == first.spec_position() < first.spec_bound_end(),
                begin <= self.position,
                longest_match_at(
                    first.data(),
                    active.identity_data(),
                    active.spec_triggers(),
                    first.text(),
                    begin as int,
                    first.spec_bound_end(),
                ) == Ok::<Option<MatchModel>, TokenProfileError>(None),
                bare_scan(
                    first.data(),
                    active.identity_data(),
                    active.spec_triggers(),
                    first.text(),
                    first.spec_bound_end(),
                    begin as int,
                ) == bare_scan(
                    self.data(),
                    active.identity_data(),
                    active.spec_triggers(),
                    self.text(),
                    self.spec_bound_end(),
                    self.spec_position(),
                ),
            decreases self.end - self.position,
        {
            if self.is_end() {
                return Ok(Some(self.source.substring_char(begin, self.position).to_owned()));
            }
            match self.longest_match(active) {
                Ok(Some(_)) => {
                    return Ok(Some(self.source.substring_char(begin, self.position).to_owned()));
                },
                Ok(None) => {},
                Err(x) => {
                    return Err(x);
                },
            }
            let at = self.byte_offset;
            let c = self.chars[self.position];
            let k = self.position + 1;
            self.move_to(k);
            if self.profile.bare_character_is_forbidden(c) {
                return Err(TokenProfileError::ForbiddenBareCharacter { character: c, byte_offset: at });
            }
        }
    }
}


// ---------------------------------------------------------------------------
// Outside-in boundary discovery.
// ---------------------------------------------------------------------------

/// A discovered boundary and its recursively discovered children.
pub struct BoundaryNode {
    pub boundary: DelimitedBoundary,
    pub children: Seq<BoundaryNode>,
}

/// The rules governing one source level while boundaries are discovered: one
/// static discovery set for every level, or the context of a sealed
/// configuration.
pub enum TraversalModel {
    Static(SealedBoundaryDiscoverySet),
    Configured(SealedBoundaryDiscoveryConfiguration, BoundaryDiscoveryContextIdentifier),
}

/// Where a scan of one source level stops.
pub enum ScanGoal {
    /// At the end of the bound.
    Top,
    /// At the closing of the boundary opened at the given character position.
    Close(TriggerIdentifier, int),
    /// Just past an exact spelling seen at this level.
    Spelling(Seq<char>),
    /// Just past the first complete child of the given boundary.
    Through(TriggerIdentifier),
}

/// A source-bounded tree of generic delimited boundaries.
#[derive(Debug, PartialEq, Eq)]
pub struct DiscoveredDelimitedBoundary {
    boundary: DelimitedBoundary,
    children: Vec<DiscoveredDelimitedBoundary>,
}

impl Clone for DiscoveredDelimitedBoundary {
    /// A deep copy of the node and everything inside it.
    fn clone(&self) -> (r: Self)
        decreases self,
    {
        let mut children: Vec<DiscoveredDelimitedBoundary> = Vec::new();
        let mut i: usize = 0;
        while i < self.children.len()
            invariant
                i <= self.children@.len(),
            decreases self.children.len() - i,
        {
            proof {
                assert(decreases_to!(*self => self.children));
                assert(decreases_to!(self.children => self.children@));
                assert(decreases_to!(self.children@ => self.children@[i as int]));
            }
            children.push(self.children[i].clone());
            i = i + 1;
        }
        DiscoveredDelimitedBoundary { boundary: self.boundary, children }
    }
}

/// The model of one discovered boundary.
pub closed spec fn node_of(d: DiscoveredDelimitedBoundary) -> BoundaryNode
    decreases d,
{
    BoundaryNode { boundary: d.boundary, children: nodes_of(d.children@) }
}

/// The models of a sequence of discovered boundaries.
pub closed spec fn nodes_of(s: Seq<DiscoveredDelimitedBoundary>) -> Seq<BoundaryNode>
    decreases s,
{
    if s.len() == 0 {
        Seq::empty()
    } else {
        seq![node_of(s[0])] + nodes_of(s.subrange(1, s.len() as int))
    }
}

/// The models of discovered boundaries, one for one.
pub proof fn lemma_nodes_of(s: Seq<DiscoveredDelimitedBoundary>)
    ensures
        nodes_of(s).len() == s.len(),
        forall|i: int| 0 <= i < s.len() ==> #[trigger] nodes_of(s)[i] == node_of(s[i]),
    decreases s.len(),
{
    if s.len() > 0 {
        let rest = s.subrange(1, s.len() as int);
        lemma_nodes_of(rest);
        assert forall|i: int| 0 <= i < s.len() implies #[trigger] nodes_of(s)[i] == node_of(s[i]) by {
            if i > 0 {
                assert(rest[i - 1] == s[i]);
            }
        }
    }
}

proof fn lemma_nodes_of_push(s: Seq<DiscoveredDelimitedBoundary>, x: DiscoveredDelimitedBoundary)
    ensures
        nodes_of(s.push(x)) == nodes_of(s).push(node_of(x)),
{
    lemma_nodes_of(s);
    lemma_nodes_of(s.push(x));
    assert(nodes_of(s.push(x)) =~= nodes_of(s).push(node_of(x)));
}

impl View for DiscoveredDelimitedBoundary {
    type V = BoundaryNode;

    open spec fn view(&self) -> BoundaryNode {
        node_of(*self)
    }
}

impl DiscoveredDelimitedBoundary {
    pub fn boundary(&self) -> (r: DelimitedBoundary)
        ensures
            r == self@.boundary,
    {
        self.boundary
    }

    pub fn children(&self) -> (r: &[DiscoveredDelimitedBoundary])
        ensures
            r@.len() == self@.children.len(),
            forall|i: int| 0 <= i < r@.len() ==> #[trigger] r@[i]@ == self@.children[i],
    {
        proof {
            lemma_nodes_of(self.children@);
        }
        self.children.as_slice()
    }
}

/// The bound of character positions `[i, j)` of `s`.
pub closed spec fn source_bound_of(s: Seq<char>, i: int, j: int) -> SourceBound {
    SourceBound { start: byte_offset(s, i) as usize, end: byte_offset(s, j) as usize }
}

/// The bound of bytes `[start, end)`.
pub closed spec fn bound_from(start: usize, end: usize) -> SourceBound {
    SourceBound { start, end }
}

pub proof fn lemma_bound_from(start: usize, end: usize)
    ensures
        bound_from(start, end)@ == (start, end),
{
}

/// Bounds with the same start and end are equal.
pub proof fn lemma_bound_eq(a: SourceBound, b: SourceBound)
    requires
        a@ == b@,
    ensures
        a == b,
{
}

pub proof fn lemma_source_bound_of(s: Seq<char>, i: int, j: int)
    ensures
        source_bound_of(s, i, j)@ == bound_of(s, i, j),
{
}

/// The boundary `id` with the given opening, interior, and closing bounds.
pub closed spec fn delimited_of(
    id: TriggerIdentifier,
    opening: SourceBound,
    interior: SourceBound,
    closing: SourceBound,
) -> DelimitedBoundary {
    DelimitedBoundary { identifier: id, opening, interior, closing }
}

pub proof fn lemma_delimited_of(
    id: TriggerIdentifier,
    opening: SourceBound,
    interior: SourceBound,
    closing: SourceBound,
)
    ensures
        delimited_of(id, opening, interior, closing).spec_identifier() == id,
        delimited_of(id, opening, interior, closing).spec_opening() == opening,
        delimited_of(id, opening, interior, closing).spec_interior() == interior,
        delimited_of(id, opening, interior, closing).spec_closing() == closing,
{
}

/// The active discovery set of one level.
pub open spec fn level_active(tr: TraversalModel) -> Result<
    SealedBoundaryDiscoverySet,
    BoundaryDiscoveryError,
> {
    match tr {
        TraversalModel::Static(a) => Ok(a),
        TraversalModel::Configured(c, context) => match c.context_set(context) {
            Some(set) => Ok(set),
            None => Err(BoundaryDiscoveryError::UnknownContext { context }),
        },
    }
}

/// The level governing the interior of `boundary` opened at level `tr`.
pub open spec fn level_child(tr: TraversalModel, boundary: TriggerIdentifier) -> Result<
    TraversalModel,
    BoundaryDiscoveryError,
> {
    match tr {
        TraversalModel::Static(a) => Ok(TraversalModel::Static(a)),
        TraversalModel::Configured(c, context) => match c.spec_child(context, boundary) {
            Some(child) => Ok(TraversalModel::Configured(c, child)),
            None => Err(BoundaryDiscoveryError::MissingChildContext { context, boundary }),
        },
    }
}

/// The match that decides the next discovery step at `p`: the longest match
/// of the level's set, or the expected closing when that is longer.
pub open spec fn discovery_match(
    data: TokenProfileData,
    active: SealedBoundaryDiscoverySet,
    goal: ScanGoal,
    s: Seq<char>,
    p: int,
    e: int,
) -> Result<Option<MatchModel>, BoundaryDiscoveryError> {
    match longest_match_at(data, active.identity_data(), active.spec_triggers(), s, p, e) {
        Err(x) => Err(BoundaryDiscoveryError::Profile(x)),
        Ok(configured) => match goal {
            ScanGoal::Close(id, _) => match trigger_of(data.spec_definitions(), id) {
                None => Err(
                    BoundaryDiscoveryError::Profile(TokenProfileError::UnknownTriggerIdentifier(id)),
                ),
                Some(t) => match t {
                    Trigger::Boundary { opening: _, closing } => {
                        let expected = exact_at(
                            s,
                            p,
                            e,
                            id,
                            TriggerMatchKind::Boundary(BoundarySide::Closing),
                            closing@,
                        );
                        match (configured, expected) {
                            (Some(c), Some(x)) => if c.2 == x.2 && c.0 != x.0 {
                                Err(
                                    BoundaryDiscoveryError::Profile(
                                        TokenProfileError::AmbiguousTriggerSet {
                                            first: c.0,
                                            second: x.0,
                                        },
                                    ),
                                )
                            } else if x.2 > c.2 {
                                Ok(Some(x))
                            } else {
                                Ok(Some(c))
                            },
                            (Some(c), None) => Ok(Some(c)),
                            (None, x) => Ok(x),
                        }
                    },
                    _ => Err(
                        BoundaryDiscoveryError::Profile(
                            TokenProfileError::UnsupportedBoundaryDiscoveryTrigger(id),
                        ),
                    ),
                },
            },
            _ => Ok(configured),
        },
    }
}

/// The exact spelling that ends a scan at `p`, when the goal is a spelling
/// seen there.
pub open spec fn goal_spelling_at(goal: ScanGoal, s: Seq<char>, p: int, e: int) -> Option<
    Seq<char>,
> {
    match goal {
        ScanGoal::Spelling(t) => if occurs_at(s, p, e, t) {
            Some(t)
        } else {
            None
        },
        _ => None,
    }
}

/// Whether the goal ends the scan after a child of `boundary`.
pub open spec fn goal_is_through(goal: ScanGoal, boundary: TriggerIdentifier) -> bool {
    match goal {
        ScanGoal::Through(b) => b == boundary,
        _ => false,
    }
}

/// The outcome of discovering the children of one level from `p`: the
/// children, the character range of the spelling or closing that ended the
/// level, and the position just past it.
pub open spec fn scan_level(
    data: TokenProfileData,
    s: Seq<char>,
    e: int,
    tr: TraversalModel,
    goal: ScanGoal,
    p: int,
) -> Result<(Seq<BoundaryNode>, Option<(int, int)>, int), BoundaryDiscoveryError>
    decreases e - p, 1int,
{
    if p < 0 || p >= e {
        match goal {
            ScanGoal::Close(id, open) => Err(
                BoundaryDiscoveryError::Profile(
                    TokenProfileError::UnclosedBoundary {
                        identifier: id,
                        byte_offset: byte_offset(s, open) as usize,
                    },
                ),
            ),
            _ => Ok((Seq::empty(), None, p)),
        }
    } else {
        match goal_spelling_at(goal, s, p, e) {
            Some(t) => Ok((Seq::empty(), Some((p, p + t.len())), p + t.len())),
            None => match level_active(tr) {
                Err(x) => Err(x),
                Ok(active) => if !same_data(active.identity_data(), data) {
                    Err(BoundaryDiscoveryError::Profile(TokenProfileError::TriggerSetProfileMismatch))
                } else {
                    match discovery_match(data, active, goal, s, p, e) {
                        Err(x) => Err(x),
                        Ok(None) => scan_level(data, s, e, tr, goal, p + 1),
                        Ok(Some(m)) => if m.2 <= p || m.2 > e {
                            Err(
                                BoundaryDiscoveryError::Profile(
                                    TokenProfileError::UnsupportedBoundaryDiscoveryTrigger(m.0),
                                ),
                            )
                        } else {
                            match m.1 {
                                TriggerMatchKind::Boundary(BoundarySide::Opening) => match level_child(
                                    tr,
                                    m.0,
                                ) {
                                    Err(x) => Err(x),
                                    Ok(child) => match delimited_at(data, s, e, child, m.0, p) {
                                        Err(x) => Err(x),
                                        Ok((node, cs, q)) => if q <= p || q > e {
                                            Err(
                                                BoundaryDiscoveryError::Profile(
                                                    TokenProfileError::UnclosedBoundary {
                                                        identifier: m.0,
                                                        byte_offset: byte_offset(s, p) as usize,
                                                    },
                                                ),
                                            )
                                        } else if goal_is_through(goal, m.0) {
                                            Ok((seq![node], Some((cs, q)), q))
                                        } else {
                                            match scan_level(data, s, e, tr, goal, q) {
                                                Err(x) => Err(x),
                                                Ok((rest, closing, fin)) => Ok(
                                                    (seq![node] + rest, closing, fin),
                                                ),
                                            }
                                        },
                                    },
                                },
                                TriggerMatchKind::Boundary(BoundarySide::Closing) => match goal {
                                    ScanGoal::Close(id, _) => if id == m.0 {
                                        Ok((Seq::empty(), Some((p, m.2)), m.2))
                                    } else {
                                        Err(
                                            BoundaryDiscoveryError::Profile(
                                                TokenProfileError::MismatchedBoundary {
                                                    expected: id,
                                                    found: m.0,
                                                    byte_offset: byte_offset(s, p) as usize,
                                                },
                                            ),
                                        )
                                    },
                                    _ => Err(
                                        BoundaryDiscoveryError::UnexpectedClose {
                                            identifier: m.0,
                                            bound: source_bound_of(s, p, m.2),
                                        },
                                    ),
                                },
                                TriggerMatchKind::Carrier => scan_level(data, s, e, tr, goal, m.2),
                                TriggerMatchKind::Trivia => scan_level(data, s, e, tr, goal, m.2),
                                _ => Err(
                                    BoundaryDiscoveryError::Profile(
                                        TokenProfileError::UnsupportedBoundaryDiscoveryTrigger(m.0),
                                    ),
                                ),
                            }
                        },
                    }
                },
            },
        }
    }
}

/// The outcome of discovering the boundary `id` opened at `p`: its node, the
/// start of its closing, and the position just past the closing.
pub open spec fn delimited_at(
    data: TokenProfileData,
    s: Seq<char>,
    e: int,
    tr: TraversalModel,
    id: TriggerIdentifier,
    p: int,
) -> Result<(BoundaryNode, int, int), BoundaryDiscoveryError>
    decreases e - p, 0int,
{
    match trigger_of(data.spec_definitions(), id) {
        None => Err(BoundaryDiscoveryError::Profile(TokenProfileError::UnknownTriggerIdentifier(id))),
        Some(t) => match t {
            Trigger::Boundary { opening, closing: _ } => if !occurs_at(s, p, e, opening@) || opening@.len()
                == 0 || p < 0 {
                Err(
                    BoundaryDiscoveryError::Profile(
                        TokenProfileError::ExpectedBoundaryOpening {
                            identifier: id,
                            byte_offset: byte_offset(s, p) as usize,
                        },
                    ),
                )
            } else {
                let q = p + opening@.len();
                match scan_level(data, s, e, tr, ScanGoal::Close(id, p), q) {
                    Err(x) => Err(x),
                    Ok((children, closing, fin)) => match closing {
                        None => Err(
                            BoundaryDiscoveryError::Profile(
                                TokenProfileError::UnclosedBoundary {
                                    identifier: id,
                                    byte_offset: byte_offset(s, p) as usize,
                                },
                            ),
                        ),
                        Some((cs, ce)) => Ok(
                            (
                                BoundaryNode {
                                    boundary: delimited_of(
                                        id,
                                        source_bound_of(s, p, q),
                                        source_bound_of(s, q, cs),
                                        source_bound_of(s, cs, ce),
                                    ),
                                    children,
                                },
                                cs,
                                fin,
                            ),
                        ),
                    },
                }
            },
            _ => Err(
                BoundaryDiscoveryError::Profile(
                    TokenProfileError::UnsupportedBoundaryDiscoveryTrigger(id),
                ),
            ),
        },
    }
}

/// The nodes of `prefix` placed before the children of a scan outcome.
pub open spec fn prepend(
    prefix: Seq<BoundaryNode>,
    r: Result<(Seq<BoundaryNode>, Option<(int, int)>, int), BoundaryDiscoveryError>,
) -> Result<(Seq<BoundaryNode>, Option<(int, int)>, int), BoundaryDiscoveryError> {
    match r {
        Ok((rest, closing, fin)) => Ok((prefix + rest, closing, fin)),
        Err(x) => Err(x),
    }
}


/// The rules governing one source level while boundaries are discovered.
#[derive(Clone, Copy)]
enum BoundaryTraversal<'a> {
    Static(&'a SealedBoundaryDiscoverySet),
    Configured {
        configuration: &'a SealedBoundaryDiscoveryConfiguration,
        context: BoundaryDiscoveryContextIdentifier,
    },
}

impl<'a> BoundaryTraversal<'a> {
    spec fn model(self) -> TraversalModel {
        match self {
            BoundaryTraversal::Static(a) => TraversalModel::Static(*a),
            BoundaryTraversal::Configured { configuration, context } => TraversalModel::Configured(
                *configuration,
                context,
            ),
        }
    }

    fn active(self) -> (r: Result<&'a SealedBoundaryDiscoverySet, BoundaryDiscoveryError>)
        ensures
            match (r, level_active(self.model())) {
                (Ok(a), Ok(b)) => *a == b,
                (Err(x), Err(y)) => x == y,
                _ => false,
            },
    {
        match self {
            BoundaryTraversal::Static(active) => Ok(active),
            BoundaryTraversal::Configured { configuration, context } => configuration.discovery_set(
                context,
            ),
        }
    }

    fn child_for(self, boundary: TriggerIdentifier) -> (r: Result<
        BoundaryTraversal<'a>,
        BoundaryDiscoveryError,
    >)
        ensures
            match (r, level_child(self.model(), boundary)) {
                (Ok(a), Ok(b)) => a.model() == b,
                (Err(x), Err(y)) => x == y,
                _ => false,
            },
    {
        match self {
            BoundaryTraversal::Static(active) => Ok(BoundaryTraversal::Static(active)),
            BoundaryTraversal::Configured { configuration, context } => match configuration.child_context(
                context,
                boundary,
            ) {
                Ok(child) => Ok(BoundaryTraversal::Configured { configuration, context: child }),
                Err(x) => Err(x),
            },
        }
    }
}

/// Where an executed scan of one level stops.
enum Goal {
    Top,
    Close(TriggerIdentifier, usize, usize),
    Spelling(Vec<char>),
    Through(TriggerIdentifier),
}

impl Goal {
    spec fn model(&self) -> ScanGoal {
        match self {
            Goal::Top => ScanGoal::Top,
            Goal::Close(id, open, _) => ScanGoal::Close(*id, *open as int),
            Goal::Spelling(t) => ScanGoal::Spelling(t@),
            Goal::Through(b) => ScanGoal::Through(*b),
        }
    }

    /// A closing goal records the byte offset of its opening.
    spec fn wf(&self, s: Seq<char>) -> bool {
        match self {
            Goal::Close(_, open, open_byte) => *open <= s.len() && *open_byte == byte_offset(
                s,
                *open as int,
            ),
            _ => true,
        }
    }
}

/// An executed discovery match result is the modelled one at position `p`.
pub open spec fn discovery_result_is(
    r: Result<Option<TriggerMatch>, BoundaryDiscoveryError>,
    model: Result<Option<MatchModel>, BoundaryDiscoveryError>,
    s: Seq<char>,
    p: int,
    e: int,
) -> bool {
    match (r, model) {
        (Ok(None), Ok(None)) => true,
        (Ok(Some(m)), Ok(Some(x))) => m.made_at(s, p, e) && m.model() == x,
        (Err(a), Err(b)) => a == b,
        _ => false,
    }
}

/// Under sealed profile data, the match deciding a discovery step consumes at
/// least one character and stays inside the bound.
proof fn lemma_discovery_progress(
    data: TokenProfileData,
    active: SealedBoundaryDiscoverySet,
    goal: ScanGoal,
    s: Seq<char>,
    p: int,
    e: int,
)
    requires
        seal_error(data) is None,
        0 <= p <= e <= s.len(),
    ensures
        discovery_match(data, active, goal, s, p, e) matches Ok(Some(m)) ==> p < m.2 <= e,
{
    lemma_longest_progress(data, s, p, e, active.spec_triggers(), 0, None);
    if let ScanGoal::Close(id, _) = goal {
        lemma_sealed_triggers_valid(data, id);
    }
}

impl<'source, 'profile> BoundaryReader<'source, 'profile> {
    /// The match deciding the next discovery step: the level's longest match,
    /// or the expected closing when that is longer.
    fn longest_discovery_match(&self, active: &SealedBoundaryDiscoverySet, goal: &Goal) -> (r:
        Result<Option<TriggerMatch>, BoundaryDiscoveryError>)
        requires
            self.wf(),
            same_data(active.identity_data(), self.data()),
        ensures
            discovery_result_is(
                r,
                discovery_match(
                    self.data(),
                    *active,
                    goal.model(),
                    self.text(),
                    self.spec_position(),
                    self.spec_bound_end(),
                ),
                self.text(),
                self.spec_position(),
                self.spec_bound_end(),
            ),
    {
        let configured = match self.longest_match(active.active_triggers()) {
            Ok(c) => c,
            Err(x) => {
                return Err(BoundaryDiscoveryError::Profile(x));
            },
        };
        let id = match goal {
            Goal::Close(id, _, _) => *id,
            _ => {
                return Ok(configured);
            },
        };
        let definition = match self.profile.definition(id) {
            Ok(d) => d,
            Err(x) => {
                return Err(BoundaryDiscoveryError::Profile(x));
            },
        };
        let expected = match &definition.trigger {
            Trigger::Boundary { closing, .. } => self.exact_match(
                id,
                TriggerMatchKind::Boundary(BoundarySide::Closing),
                closing,
            ),
            _ => {
                return Err(
                    BoundaryDiscoveryError::Profile(
                        TokenProfileError::UnsupportedBoundaryDiscoveryTrigger(id),
                    ),
                );
            },
        };
        match (configured, expected) {
            (Some(c), Some(x)) => {
                if c.end_position == x.end_position && c.identifier != x.identifier {
                    Err(
                        BoundaryDiscoveryError::Profile(
                            TokenProfileError::AmbiguousTriggerSet {
                                first: c.identifier,
                                second: x.identifier,
                            },
                        ),
                    )
                } else if x.end_position > c.end_position {
                    Ok(Some(x))
                } else {
                    Ok(Some(c))
                }
            },
            (Some(c), None) => Ok(Some(c)),
            (None, x) => Ok(x),
        }
    }

    /// Discover the children of one level from the cursor until its goal.
    fn discover_children_with(&mut self, goal: &Goal, traversal: BoundaryTraversal<'_>) -> (r:
        Result<(Vec<DiscoveredDelimitedBoundary>, Option<(usize, usize)>), BoundaryDiscoveryError>)
        requires
            old(self).wf(),
            goal.wf(old(self).text()),
        ensures
            final(self).wf(),
            final(self).same_frame(*old(self)),
            old(self).spec_position() <= final(self).spec_position(),
            r matches Ok((_, Some((a, b)))) ==> old(self).spec_position() <= a <= b
                && b == final(self).spec_position(),
            match (
                r,
                scan_level(
                    old(self).data(),
                    old(self).text(),
                    old(self).spec_bound_end(),
                    traversal.model(),
                    goal.model(),
                    old(self).spec_position(),
                ),
            ) {
                (Ok((children, closing)), Ok((nodes, model_closing, fin))) => nodes_of(children@)
                    == nodes && final(self).spec_position() == fin && match (closing, model_closing) {
                    (Some((a, b)), Some((x, y))) => a == x && b == y,
                    (None, None) => true,
                    _ => false,
                },
                (Err(a), Err(b)) => a == b,
                _ => false,
            },
        decreases old(self).end - old(self).position, 1int,
    {
        proof {
            use_type_invariant(self.profile);
        }
        let ghost start = *self;
        let ghost data = self.data();
        let ghost s = self.text();
        let ghost e = self.spec_bound_end();
        let ghost tr = traversal.model();
        let ghost g = goal.model();
        let mut children: Vec<DiscoveredDelimitedBoundary> = Vec::new();
        proof {
            lemma_nodes_of(children@);
            if let Ok((rest, c, f)) = scan_level(data, s, e, tr, g, self.spec_position()) {
                assert(Seq::<BoundaryNode>::empty() + rest =~= rest);
            }
            assert(nodes_of(children@) =~= Seq::<BoundaryNode>::empty());
        }
        loop
            invariant
                self.wf(),
                self.same_frame(start),
                start == *old(self),
                data == self.data(),
                s == self.text(),
                e == self.spec_bound_end(),
                tr == traversal.model(),
                g == goal.model(),
                goal.wf(s),
                seal_error(data) is None,
                start.spec_position() <= self.spec_position(),
                scan_level(data, s, e, tr, g, start.spec_position()) == prepend(
                    nodes_of(children@),
                    scan_level(data, s, e, tr, g, self.spec_position()),
                ),
            decreases self.end - self.position,
        {
            let ghost p = self.spec_position();
            if self.position == self.end {
                match goal {
                    Goal::Close(id, _, open_byte) => {
                        return Err(
                            BoundaryDiscoveryError::Profile(
                                TokenProfileError::UnclosedBoundary {
                                    identifier: *id,
                                    byte_offset: *open_byte,
                                },
                            ),
                        );
                    },
                    _ => {
                        proof {
                            assert(nodes_of(children@) + Seq::<BoundaryNode>::empty() =~= nodes_of(children@));
                        }
                        return Ok((children, None));
                    },
                }
            }
            if let Goal::Spelling(t) = goal {
                if chars_occur_at(&self.chars, self.position, self.end, t) {
                    let begin = self.position;
                    let k = begin + t.len();
                    self.move_to(k);
                    proof {
                        assert(nodes_of(children@) + Seq::<BoundaryNode>::empty() =~= nodes_of(children@));
                    }
                    return Ok((children, Some((begin, k))));
                }
            }
            let active = match traversal.active() {
                Ok(a) => a,
                Err(x) => {
                    return Err(x);
                },
            };
            let set_identity = active.profile_identity();
            if !self.belongs_to_profile(&set_identity, Ghost(active.identity_data())) {
                return Err(BoundaryDiscoveryError::Profile(TokenProfileError::TriggerSetProfileMismatch));
            }
            let matched = match self.longest_discovery_match(active, goal) {
                Ok(Some(m)) => m,
                Ok(None) => {
                    let k = self.position + 1;
                    self.move_to(k);
                    continue;
                },
                Err(x) => {
                    return Err(x);
                },
            };
            proof {
                lemma_discovery_progress(data, *active, g, s, p, e);
            }
            match matched.kind {
                TriggerMatchKind::Boundary(BoundarySide::Opening) => {
                    let child_traversal = match traversal.child_for(matched.identifier) {
                        Ok(c) => c,
                        Err(x) => {
                            return Err(x);
                        },
                    };
                    let (child, closing_start) = match self.discover_delimited_with(
                        matched.identifier,
                        child_traversal,
                    ) {
                        Ok(found) => found,
                        Err(x) => {
                            return Err(x);
                        },
                    };
                    let through = match goal {
                        Goal::Through(b) => *b == matched.identifier,
                        _ => false,
                    };
                    let ghost before = children@;
                    children.push(child);
                    proof {
                        lemma_nodes_of_push(before, child);
                    }
                    if through {
                        proof {
                            assert(nodes_of(before) + seq![child@] =~= nodes_of(children@));
                        }
                        return Ok((children, Some((closing_start, self.position))));
                    }
                    proof {
                        if let Ok((rest, c, f)) = scan_level(data, s, e, tr, g, self.spec_position()) {
                            assert(nodes_of(before) + (seq![child@] + rest) =~= nodes_of(children@) + rest);
                        }
                    }
                },
                TriggerMatchKind::Boundary(BoundarySide::Closing) => {
                    match goal {
                        Goal::Close(id, _, _) => {
                            if *id == matched.identifier {
                                self.move_to(matched.end_position);
                                proof {
                                    assert(nodes_of(children@) + Seq::<BoundaryNode>::empty() =~= nodes_of(children@));
                                }
                                return Ok((children, Some((matched.start_position, matched.end_position))));
                            } else {
                                return Err(
                                    BoundaryDiscoveryError::Profile(
                                        TokenProfileError::MismatchedBoundary {
                                            expected: *id,
                                            found: matched.identifier,
                                            byte_offset: matched.start,
                                        },
                                    ),
                                );
                            }
                        },
                        _ => {
                            return Err(
                                BoundaryDiscoveryError::UnexpectedClose {
                                    identifier: matched.identifier,
                                    bound: SourceBound::between(matched.start, matched.end),
                                },
                            );
                        },
                    }
                },
                TriggerMatchKind::Carrier | TriggerMatchKind::Trivia => {
                    self.move_to(matched.end_position);
                },
                _ => {
                    return Err(
                        BoundaryDiscoveryError::Profile(
                            TokenProfileError::UnsupportedBoundaryDiscoveryTrigger(matched.identifier),
                        ),
                    );
                },
            }
        }
    }

    /// Discover the boundary `identifier` opened at the cursor, with its
    /// children, before interpreting any of it. Returns the start of its
    /// closing as a character position.
    fn discover_delimited_with(
        &mut self,
        identifier: TriggerIdentifier,
        traversal: BoundaryTraversal<'_>,
    ) -> (r: Result<(DiscoveredDelimitedBoundary, usize), BoundaryDiscoveryError>)
        requires
            old(self).wf(),
        ensures
            final(self).wf(),
            final(self).same_frame(*old(self)),
            old(self).spec_position() <= final(self).spec_position(),
            r is Ok ==> old(self).spec_position() < final(self).spec_position(),
            r matches Ok((_, cs)) ==> old(self).spec_position() < cs <= final(self).spec_position(),
            match (
                r,
                delimited_at(
                    old(self).data(),
                    old(self).text(),
                    old(self).spec_bound_end(),
                    traversal.model(),
                    identifier,
                    old(self).spec_position(),
                ),
            ) {
                (Ok((d, cs)), Ok((node, model_cs, fin))) => d@ == node && cs == model_cs
                    && final(self).spec_position() == fin,
                (Err(a), Err(b)) => a == b,
                _ => false,
            },
        decreases old(self).end - old(self).position, 0int,
    {
        proof {
            use_type_invariant(self.profile);
            lemma_sealed_triggers_valid(self.data(), identifier);
        }
        let ghost s = self.text();
        let ghost p = self.spec_position();
        let definition = match self.profile.definition(identifier) {
            Ok(d) => d,
            Err(x) => {
                return Err(BoundaryDiscoveryError::Profile(x));
            },
        };
        let opening = match &definition.trigger {
            Trigger::Boundary { opening, .. } => opening,
            _ => {
                return Err(
                    BoundaryDiscoveryError::Profile(
                        TokenProfileError::UnsupportedBoundaryDiscoveryTrigger(identifier),
                    ),
                );
            },
        };
        let o = chars_of(opening.as_str());
        if !chars_occur_at(&self.chars, self.position, self.end, &o) {
            return Err(
                BoundaryDiscoveryError::Profile(
                    TokenProfileError::ExpectedBoundaryOpening {
                        identifier,
                        byte_offset: self.byte_offset,
                    },
                ),
            );
        }
        let open = self.position;
        let open_byte = self.byte_offset;
        let k = self.position + o.len();
        self.move_to(k);
        let interior_start = self.byte_offset;
        let goal = Goal::Close(identifier, open, open_byte);
        let (children, closing) = match self.discover_children_with(&goal, traversal) {
            Ok(found) => found,
            Err(x) => {
                return Err(x);
            },
        };
        let (closing_start, closing_end) = match closing {
            Some(c) => c,
            None => {
                return Err(
                    BoundaryDiscoveryError::Profile(
                        TokenProfileError::UnclosedBoundary { identifier, byte_offset: open_byte },
                    ),
                );
            },
        };
        let closing_start_byte = offset_after(&self.chars, k, interior_start, closing_start);
        let closing_end_byte = self.byte_offset;
        let d = DiscoveredDelimitedBoundary {
            boundary: DelimitedBoundary {
                identifier,
                opening: SourceBound::between(open_byte, interior_start),
                interior: SourceBound::between(interior_start, closing_start_byte),
                closing: SourceBound::between(closing_start_byte, closing_end_byte),
            },
            children,
        };
        Ok((d, closing_start))
    }
}


proof fn lemma_static_scan_errors(
    data: TokenProfileData,
    s: Seq<char>,
    e: int,
    a: SealedBoundaryDiscoverySet,
    goal: ScanGoal,
    p: int,
)
    requires
        goal is Close,
    ensures
        scan_level(data, s, e, TraversalModel::Static(a), goal, p) matches Err(x) ==> x is Profile,
    decreases e - p, 1int,
{
    if 0 <= p < e && same_data(a.identity_data(), data) {
        match discovery_match(data, a, goal, s, p, e) {
            Ok(None) => lemma_static_scan_errors(data, s, e, a, goal, p + 1),
            Ok(Some(m)) => if p < m.2 <= e {
                match m.1 {
                    TriggerMatchKind::Boundary(BoundarySide::Opening) => {
                        lemma_static_delimited_errors(data, s, e, a, m.0, p);
                        if let Ok((node, cs, q)) = delimited_at(
                            data,
                            s,
                            e,
                            TraversalModel::Static(a),
                            m.0,
                            p,
                        ) {
                            if p < q <= e {
                                lemma_static_scan_errors(data, s, e, a, goal, q);
                            }
                        }
                    },
                    TriggerMatchKind::Carrier => lemma_static_scan_errors(data, s, e, a, goal, m.2),
                    TriggerMatchKind::Trivia => lemma_static_scan_errors(data, s, e, a, goal, m.2),
                    _ => {},
                }
            },
            Err(_) => {},
        }
    }
}

proof fn lemma_static_delimited_errors(
    data: TokenProfileData,
    s: Seq<char>,
    e: int,
    a: SealedBoundaryDiscoverySet,
    id: TriggerIdentifier,
    p: int,
)
    ensures
        delimited_at(data, s, e, TraversalModel::Static(a), id, p) matches Err(x) ==> x is Profile,
    decreases e - p, 0int,
{
    if let Some(t) = trigger_of(data.spec_definitions(), id) {
        if let Trigger::Boundary { opening, closing: _ } = t {
            if occurs_at(s, p, e, opening@) && opening@.len() > 0 && p >= 0 {
                lemma_static_scan_errors(
                    data,
                    s,
                    e,
                    a,
                    ScanGoal::Close(id, p),
                    p + opening@.len(),
                );
            }
        }
    }
}

/// The outcome of discovering the boundary `id` at `p` under one static
/// discovery set, and where the cursor then stands.
pub open spec fn static_delimited(
    data: TokenProfileData,
    active: SealedBoundaryDiscoverySet,
    id: TriggerIdentifier,
    s: Seq<char>,
    e: int,
    p: int,
) -> Result<(DelimitedBoundary, int), TokenProfileError> {
    if !same_data(active.identity_data(), data) {
        Err(TokenProfileError::TriggerSetProfileMismatch)
    } else if !active.spec_triggers().contains(id) {
        Err(TokenProfileError::InactiveBoundary { identifier: id })
    } else {
        match delimited_at(data, s, e, TraversalModel::Static(active), id, p) {
            Ok((node, _, fin)) => Ok((node.boundary, fin)),
            Err(BoundaryDiscoveryError::Profile(x)) => Err(x),
            Err(_) => Err(TokenProfileError::TriggerSetProfileMismatch),
        }
    }
}

/// The outcome of discovering one level of a configuration's context, with
/// the scan goal `goal`.
pub open spec fn configured_scan(
    data: TokenProfileData,
    configuration: SealedBoundaryDiscoveryConfiguration,
    goal: ScanGoal,
    s: Seq<char>,
    e: int,
    p: int,
) -> Result<(Seq<BoundaryNode>, Option<(int, int)>, int), BoundaryDiscoveryError> {
    scan_level(
        data,
        s,
        e,
        TraversalModel::Configured(configuration, configuration.spec_root()),
        goal,
        p,
    )
}

/// Whether an executed level scan is the modelled one, closings in bytes.
pub open spec fn level_result_is(
    r: Result<(Vec<DiscoveredDelimitedBoundary>, Option<SourceBound>), BoundaryDiscoveryError>,
    model: Result<(Seq<BoundaryNode>, Option<(int, int)>, int), BoundaryDiscoveryError>,
    s: Seq<char>,
    fin: int,
) -> bool {
    match (r, model) {
        (Ok((children, closing)), Ok((nodes, model_closing, f))) => nodes_of(children@) == nodes
            && fin == f && match (closing, model_closing) {
            (Some(b), Some((x, y))) => b@ == bound_of(s, x, y),
            (None, None) => true,
            _ => false,
        },
        (Err(a), Err(b)) => a == b,
        _ => false,
    }
}

impl<'source, 'profile> BoundaryReader<'source, 'profile> {
    /// Discover one complete delimited region before interpreting any child.
    ///
    /// The reader must be positioned at the expected opening. Every active
    /// nested boundary is balanced and configured carriers and trivia are
    /// consumed opaquely; on success the cursor stands past the matching close
    /// and the interior is an independent bound for recursive reading.
    pub fn discover_delimited(
        &mut self,
        identifier: TriggerIdentifier,
        active: &SealedBoundaryDiscoverySet,
    ) -> (r: Result<DelimitedBoundary, TokenProfileError>)
        requires
            old(self).wf(),
        ensures
            final(self).wf(),
            final(self).same_frame(*old(self)),
            match (
                r,
                static_delimited(
                    old(self).data(),
                    *active,
                    identifier,
                    old(self).text(),
                    old(self).spec_bound_end(),
                    old(self).spec_position(),
                ),
            ) {
                (Ok(d), Ok((model, fin))) => d == model && final(self).spec_position() == fin,
                (Err(a), Err(b)) => a == b,
                _ => false,
            },
            r matches Ok(d) ==> (delimited_shape(
                old(self).data(),
                identifier,
                old(self).text(),
                old(self).spec_position(),
                final(self).spec_position(),
                d,
            ) && d.spec_end() == byte_offset(old(self).text(), final(self).spec_position()) as usize),
    {
        proof {
            self.lemma_wf();
            lemma_static_delimited_shape(
                self.data(),
                *active,
                identifier,
                self.text(),
                self.spec_bound_end(),
                self.spec_position(),
            );
        }
        let set_identity = active.profile_identity();
        if !self.belongs_to_profile(&set_identity, Ghost(active.identity_data())) {
            return Err(TokenProfileError::TriggerSetProfileMismatch);
        }
        if !identifiers_contain(active.triggers(), identifier) {
            return Err(TokenProfileError::InactiveBoundary { identifier });
        }
        proof {
            lemma_static_delimited_errors(
                self.data(),
                self.text(),
                self.spec_bound_end(),
                *active,
                identifier,
                self.spec_position(),
            );
        }
        match self.discover_delimited_with(identifier, BoundaryTraversal::Static(active)) {
            Ok((discovered, _)) => Ok(discovered.boundary),
            Err(BoundaryDiscoveryError::Profile(x)) => Err(x),
            Err(_) => vstd::pervasive::unreached(),
        }
    }

    /// Convert a closing given in character positions to a byte bound.
    fn closing_bound(&self, closing: Option<(usize, usize)>) -> (r: Option<SourceBound>)
        requires
            self.wf(),
            closing matches Some((a, b)) ==> a <= b <= self.spec_bound_end(),
        ensures
            match (r, closing) {
                (Some(bound), Some((a, b))) => bound@ == bound_of(self.text(), a as int, b as int),
                (None, None) => true,
                _ => false,
            },
    {
        match closing {
            Some((a, b)) => {
                let a_byte = offset_after(&self.chars, 0, 0, a);
                let b_byte = offset_after(&self.chars, a, a_byte, b);
                proof {
                    assert(self.chars@.take(0) =~= Seq::<char>::empty());
                }
                Some(SourceBound::between(a_byte, b_byte))
            },
            None => None,
        }
    }

    /// Discover the configured top-level boundary tree in one traversal.
    ///
    /// Each context supplies the active boundary, carrier, and trivia rules at
    /// its source level. An opening boundary transitions to the context that
    /// governs its interior before the reader seeks that boundary's close.
    pub fn discover_boundary_children(
        &mut self,
        configuration: &SealedBoundaryDiscoveryConfiguration,
    ) -> (r: Result<Vec<DiscoveredDelimitedBoundary>, BoundaryDiscoveryError>)
        requires
            old(self).wf(),
        ensures
            final(self).wf(),
            final(self).same_frame(*old(self)),
            !same_data(configuration.identity_data(), old(self).data()) ==> r == Err::<
                Vec<DiscoveredDelimitedBoundary>,
                BoundaryDiscoveryError,
            >(BoundaryDiscoveryError::Profile(TokenProfileError::TriggerSetProfileMismatch)),
            same_data(configuration.identity_data(), old(self).data()) ==> match (
                r,
                configured_scan(
                    old(self).data(),
                    *configuration,
                    ScanGoal::Top,
                    old(self).text(),
                    old(self).spec_bound_end(),
                    old(self).spec_position(),
                ),
            ) {
                (Ok(children), Ok((nodes, _, fin))) => nodes_of(children@) == nodes
                    && final(self).spec_position() == fin,
                (Err(a), Err(b)) => a == b,
                _ => false,
            },
    {
        if !configuration.matches_profile(self.profile) {
            return Err(BoundaryDiscoveryError::Profile(TokenProfileError::TriggerSetProfileMismatch));
        }
        let traversal = BoundaryTraversal::Configured {
            configuration,
            context: configuration.root(),
        };
        match self.discover_children_with(&Goal::Top, traversal) {
            Ok((children, _)) => Ok(children),
            Err(x) => Err(x),
        }
    }

    /// Discover the children of the configuration's root context from the
    /// cursor until an exact `termination` spelling seen at that level.
    pub fn discover_children_until(
        &mut self,
        termination: &str,
        configuration: &SealedBoundaryDiscoveryConfiguration,
    ) -> (r: Result<(Vec<DiscoveredDelimitedBoundary>, Option<SourceBound>), BoundaryDiscoveryError>)
        requires
            old(self).wf(),
        ensures
            final(self).wf(),
            final(self).same_frame(*old(self)),
            old(self).spec_position() <= final(self).spec_position(),
            level_result_is(
                r,
                configured_scan(
                    old(self).data(),
                    *configuration,
                    ScanGoal::Spelling(termination@),
                    old(self).text(),
                    old(self).spec_bound_end(),
                    old(self).spec_position(),
                ),
                old(self).text(),
                final(self).spec_position(),
            ),
    {
        let traversal = BoundaryTraversal::Configured {
            configuration,
            context: configuration.root(),
        };
        let goal = Goal::Spelling(chars_of(termination));
        match self.discover_children_with(&goal, traversal) {
            Ok((children, closing)) => Ok((children, self.closing_bound(closing))),
            Err(x) => Err(x),
        }
    }

    /// Discover the children of the configuration's root context from the
    /// cursor through the first complete child opened by `boundary`.
    pub fn discover_children_through_boundary(
        &mut self,
        boundary: TriggerIdentifier,
        configuration: &SealedBoundaryDiscoveryConfiguration,
    ) -> (r: Result<(Vec<DiscoveredDelimitedBoundary>, Option<SourceBound>), BoundaryDiscoveryError>)
        requires
            old(self).wf(),
        ensures
            final(self).wf(),
            final(self).same_frame(*old(self)),
            old(self).spec_position() <= final(self).spec_position(),
            level_result_is(
                r,
                configured_scan(
                    old(self).data(),
                    *configuration,
                    ScanGoal::Through(boundary),
                    old(self).text(),
                    old(self).spec_bound_end(),
                    old(self).spec_position(),
                ),
                old(self).text(),
                final(self).spec_position(),
            ),
    {
        let traversal = BoundaryTraversal::Configured {
            configuration,
            context: configuration.root(),
        };
        match self.discover_children_with(&Goal::Through(boundary), traversal) {
            Ok((children, closing)) => Ok((children, self.closing_bound(closing))),
            Err(x) => Err(x),
        }
    }

    /// Consume `spelling` when it is spelled at the cursor, returning its bound.
    pub fn consume_exact_spelling(&mut self, spelling: &str) -> (r: Option<SourceBound>)
        requires
            old(self).wf(),
        ensures
            final(self).wf(),
            final(self).same_frame(*old(self)),
            occurs_at(old(self).text(), old(self).spec_position(), old(self).spec_bound_end(), spelling@)
                ==> (r matches Some(b) && b@ == bound_of(
                old(self).text(),
                old(self).spec_position(),
                old(self).spec_position() + spelling@.len(),
            ) && final(self).spec_position() == old(self).spec_position() + spelling@.len()),
            !occurs_at(old(self).text(), old(self).spec_position(), old(self).spec_bound_end(), spelling@)
                ==> r is None && final(self).spec_position() == old(self).spec_position(),
    {
        let g = chars_of(spelling);
        if !chars_occur_at(&self.chars, self.position, self.end, &g) {
            return None;
        }
        let start = self.byte_offset;
        let k = self.position + g.len();
        self.move_to(k);
        Some(SourceBound::between(start, self.byte_offset))
    }

    /// Step over one character without interpreting it.
    pub fn advance_uninterpreted_character(&mut self)
        requires
            old(self).wf(),
        ensures
            final(self).wf(),
            final(self).same_frame(*old(self)),
            final(self).spec_position() == if old(self).spec_position() < old(self).spec_bound_end() {
                old(self).spec_position() + 1
            } else {
                old(self).spec_position()
            },
    {
        if self.position < self.end {
            let k = self.position + 1;
            self.move_to(k);
        }
    }
}


// ---------------------------------------------------------------------------
// Laws of matching and discovery.
// ---------------------------------------------------------------------------

/// The complete match of the trigger named `id` at `p`, or the error that
/// looking it up or matching it raises.
pub open spec fn candidate_match(
    defs: Seq<crate::profile::TriggerDefinition>,
    s: Seq<char>,
    p: int,
    e: int,
    id: TriggerIdentifier,
) -> Result<Option<MatchModel>, TokenProfileError> {
    match trigger_of(defs, id) {
        None => Err(TokenProfileError::UnknownTriggerIdentifier(id)),
        Some(t) => trigger_match(s, p, e, id, t),
    }
}

proof fn lemma_longest_from_extremal(
    defs: Seq<crate::profile::TriggerDefinition>,
    s: Seq<char>,
    p: int,
    e: int,
    ids: Seq<TriggerIdentifier>,
    i: int,
    winner: Option<MatchModel>,
)
    requires
        0 <= i <= ids.len(),
        winner is None ==> forall|k: int|
            0 <= k < i ==> candidate_match(defs, s, p, e, #[trigger] ids[k]) == Ok::<
                Option<MatchModel>,
                TokenProfileError,
            >(None),
        winner matches Some(w) ==> (exists|k: int|
            0 <= k < i && candidate_match(defs, s, p, e, #[trigger] ids[k]) == Ok::<
                Option<MatchModel>,
                TokenProfileError,
            >(Some(w))),
        winner matches Some(w) ==> forall|k: int|
            0 <= k < i ==> (candidate_match(defs, s, p, e, #[trigger] ids[k]) matches Ok(Some(c))
                ==> c.2 <= w.2 && (c.2 == w.2 ==> c.0 == w.0)),
        forall|k: int| 0 <= k < i ==> candidate_match(defs, s, p, e, #[trigger] ids[k]) is Ok,
    ensures
        match longest_from(defs, s, p, e, ids, i, winner) {
            Ok(None) => forall|k: int|
                0 <= k < ids.len() ==> candidate_match(defs, s, p, e, #[trigger] ids[k]) == Ok::<
                    Option<MatchModel>,
                    TokenProfileError,
                >(None),
            Ok(Some(m)) => (exists|k: int|
                0 <= k < ids.len() && candidate_match(defs, s, p, e, #[trigger] ids[k]) == Ok::<
                    Option<MatchModel>,
                    TokenProfileError,
                >(Some(m))) && forall|k: int|
                0 <= k < ids.len() ==> (candidate_match(defs, s, p, e, #[trigger] ids[k]) matches Ok(
                    Some(c),
                ) ==> c.2 <= m.2 && (c.2 == m.2 ==> c.0 == m.0)),
            Err(_) => true,
        },
    decreases ids.len() - i,
{
    if i < ids.len() {
        let c0 = candidate_match(defs, s, p, e, ids[i]);
        match trigger_of(defs, ids[i]) {
            None => {},
            Some(t) => match trigger_match(s, p, e, ids[i], t) {
                Err(_) => {},
                Ok(None) => {
                    lemma_longest_from_extremal(defs, s, p, e, ids, i + 1, winner);
                },
                Ok(Some(c)) => match winner {
                    None => {
                        lemma_longest_from_extremal(defs, s, p, e, ids, i + 1, Some(c));
                    },
                    Some(prev) => {
                        if c.2 > prev.2 {
                            assert forall|k: int|
                                0 <= k < i + 1 implies (candidate_match(defs, s, p, e, #[trigger] ids[k]) matches Ok(
                                Some(d),
                            ) ==> d.2 <= c.2 && (d.2 == c.2 ==> d.0 == c.0)) by {
                                if k < i {
                                    if let Ok(Some(d)) = candidate_match(defs, s, p, e, ids[k]) {
                                        assert(d.2 <= prev.2);
                                    }
                                }
                            }
                            lemma_longest_from_extremal(defs, s, p, e, ids, i + 1, Some(c));
                        } else if c.2 == prev.2 && c.0 != prev.0 {
                        } else {
                            lemma_longest_from_extremal(defs, s, p, e, ids, i + 1, winner);
                        }
                    },
                },
            },
        }
    }
}

/// The longest match law: a successful longest match of an active set is the
/// complete match of one of its triggers, and no trigger of the set has a
/// longer complete match there, nor one of equal length from another trigger.
/// When it finds nothing, no trigger of the set matches.
pub proof fn lemma_longest_match_is_maximal(
    data: TokenProfileData,
    set_data: TokenProfileData,
    ids: Seq<TriggerIdentifier>,
    s: Seq<char>,
    p: int,
    e: int,
)
    ensures
        match longest_match_at(data, set_data, ids, s, p, e) {
            Ok(None) => forall|k: int|
                0 <= k < ids.len() ==> candidate_match(
                    data.spec_definitions(),
                    s,
                    p,
                    e,
                    #[trigger] ids[k],
                ) == Ok::<Option<MatchModel>, TokenProfileError>(None),
            Ok(Some(m)) => (exists|k: int|
                0 <= k < ids.len() && candidate_match(
                    data.spec_definitions(),
                    s,
                    p,
                    e,
                    #[trigger] ids[k],
                ) == Ok::<Option<MatchModel>, TokenProfileError>(Some(m))) && forall|k: int|
                0 <= k < ids.len() ==> (candidate_match(
                    data.spec_definitions(),
                    s,
                    p,
                    e,
                    #[trigger] ids[k],
                ) matches Ok(Some(c)) ==> c.2 <= m.2 && (c.2 == m.2 ==> c.0 == m.0)),
            Err(_) => true,
        },
{
    if same_data(set_data, data) {
        lemma_longest_from_extremal(data.spec_definitions(), s, p, e, ids, 0, None);
    }
}


/// Whether a discovered boundary lies in the byte range `[lo, hi]`: its
/// opening, interior, and closing follow one another, and its children lie,
/// in order, inside its interior.
pub open spec fn node_within(s: Seq<char>, node: BoundaryNode, lo: int, hi: int) -> bool
    decreases node,
{
    let b = node.boundary;
    &&& is_char_offset(s, b.spec_opening()@.0 as int)
    &&& is_char_offset(s, b.spec_interior()@.0 as int)
    &&& lo <= b.spec_opening()@.0 < b.spec_opening()@.1
    &&& b.spec_opening()@.1 == b.spec_interior()@.0
    &&& b.spec_interior()@.0 <= b.spec_interior()@.1
    &&& b.spec_interior()@.1 == b.spec_closing()@.0
    &&& b.spec_closing()@.0 < b.spec_closing()@.1 <= hi
    &&& nodes_within(s, node.children, b.spec_interior()@.0 as int, b.spec_interior()@.1 as int)
}

/// Whether a sequence of discovered boundaries lies, in source order and
/// without overlap, in the byte range `[lo, hi]`.
pub open spec fn nodes_within(s: Seq<char>, nodes: Seq<BoundaryNode>, lo: int, hi: int) -> bool
    decreases nodes,
{
    if nodes.len() == 0 {
        true
    } else {
        let last = nodes[nodes.len() - 1];
        &&& nodes_within(s, 
            nodes.subrange(0, nodes.len() - 1),
            lo,
            last.boundary.spec_opening()@.0 as int,
        )
        &&& node_within(s, last, lo, hi)
    }
}

/// Where the children of a level end: before the closing that ended it,
/// except that a level read through a boundary includes that boundary.
pub open spec fn level_stop(goal: ScanGoal, closing: Option<(int, int)>, fin: int) -> int {
    match goal {
        ScanGoal::Through(_) => fin,
        _ => match closing {
            Some((cs, _)) => cs,
            None => fin,
        },
    }
}

proof fn lemma_nodes_within_widen(s: Seq<char>, nodes: Seq<BoundaryNode>, lo1: int, lo2: int, hi1: int, hi2: int)
    requires
        lo1 <= lo2,
        hi1 <= hi2,
        nodes_within(s, nodes, lo2, hi1),
    ensures
        nodes_within(s, nodes, lo1, hi2),
    decreases nodes.len(),
{
    reveal_with_fuel(nodes_within, 2);
    reveal_with_fuel(node_within, 2);
    if nodes.len() > 0 {
        let last = nodes[nodes.len() - 1];
        lemma_nodes_within_widen(
            s,
            nodes.subrange(0, nodes.len() - 1),
            lo1,
            lo2,
            last.boundary.spec_opening()@.0 as int,
            last.boundary.spec_opening()@.0 as int,
        );
    }
}

proof fn lemma_nodes_within_cons(s: Seq<char>, node: BoundaryNode, rest: Seq<BoundaryNode>, lo: int, mid: int, hi: int)
    requires
        node_within(s, node, lo, mid),
        nodes_within(s, rest, mid, hi),
        mid <= hi,
    ensures
        nodes_within(s, seq![node] + rest, lo, hi),
    decreases rest.len(),
{
    reveal_with_fuel(nodes_within, 2);
    reveal_with_fuel(node_within, 2);
    let all = seq![node] + rest;
    if rest.len() == 0 {
        assert(all =~= seq![node]);
        assert(all.subrange(0, 0) =~= Seq::<BoundaryNode>::empty());
        assert(node_within(s, node, lo, hi));
    } else {
        let last = rest[rest.len() - 1];
        let front = rest.subrange(0, rest.len() - 1);
        let open = last.boundary.spec_opening()@.0 as int;
        assert(mid <= open);
        lemma_nodes_within_cons(s, node, front, lo, mid, open);
        assert(all.subrange(0, all.len() - 1) =~= seq![node] + front);
        assert(all[all.len() - 1] == last);
        assert(node_within(s, last, lo, hi));
    }
}

pub(crate) proof fn lemma_byte_offset_monotone(s: Seq<char>, i: int, j: int)
    requires
        0 <= i <= j <= s.len(),
        text_bytes(s) <= usize::MAX,
    ensures
        byte_offset(s, i) <= byte_offset(s, j) <= text_bytes(s),
        i < j ==> byte_offset(s, i) < byte_offset(s, j),
        (byte_offset(s, i) as usize) as int == byte_offset(s, i),
        (byte_offset(s, j) as usize) as int == byte_offset(s, j),
{
    crate::text::lemma_byte_offset_strictly_increasing(s, i, j);
    crate::text::lemma_byte_offset_strictly_increasing(s, j, s.len() as int);
    assert(s.take(s.len() as int) =~= s);
}

/// The nesting law of one level: the children a level discovers lie in order
/// between where the level began and where its children end, each with its
/// own children inside its interior; a closing that ends the level lies
/// between the two.
pub proof fn lemma_scan_level_nesting(
    data: TokenProfileData,
    s: Seq<char>,
    e: int,
    tr: TraversalModel,
    goal: ScanGoal,
    p: int,
)
    requires
        0 <= p <= e <= s.len(),
        text_bytes(s) <= usize::MAX,
    ensures
        scan_level(data, s, e, tr, goal, p) matches Ok((nodes, closing, fin)) ==> p <= fin <= e
            && nodes_within(s, 
            nodes,
            byte_offset(s, p) as int,
            byte_offset(s, level_stop(goal, closing, fin)) as int,
        ) && p <= level_stop(goal, closing, fin) <= fin && (closing matches Some((cs, ce)) ==> p
            <= cs <= ce && ce == fin && (goal is Close ==> cs < ce)),
    decreases e - p, 1int,
{
    if p < e {
        match goal_spelling_at(goal, s, p, e) {
            Some(t) => {},
            None => match level_active(tr) {
                Err(_) => {},
                Ok(active) => if same_data(active.identity_data(), data) {
                    match discovery_match(data, active, goal, s, p, e) {
                        Err(_) => {},
                        Ok(None) => {
                            lemma_scan_level_nesting(data, s, e, tr, goal, p + 1);
                            if let Ok((nodes, closing, fin)) = scan_level(data, s, e, tr, goal, p + 1) {
                                let stop = level_stop(goal, closing, fin);
                                lemma_byte_offset_monotone(s, p, p + 1);
                                lemma_byte_offset_monotone(s, p + 1, stop);
                                lemma_nodes_within_widen(
            s,
                                    nodes,
                                    byte_offset(s, p) as int,
                                    byte_offset(s, p + 1) as int,
                                    byte_offset(s, stop) as int,
                                    byte_offset(s, stop) as int,
                                );
                            }
                        },
                        Ok(Some(m)) => if p < m.2 <= e {
                            match m.1 {
                                TriggerMatchKind::Boundary(BoundarySide::Opening) => {
                                    if let Ok(child) = level_child(tr, m.0) {
                                        lemma_delimited_nesting(data, s, e, child, m.0, p);
                                        if let Ok((node, cs, q)) = delimited_at(data, s, e, child, m.0, p) {
                                            if p < q <= e {
                                                lemma_byte_offset_monotone(s, p, q);
                                                if goal_is_through(goal, m.0) {
                                                    lemma_nodes_within_cons(
            s,
                                                        node,
                                                        Seq::empty(),
                                                        byte_offset(s, p) as int,
                                                        byte_offset(s, q) as int,
                                                        byte_offset(s, q) as int,
                                                    );
                                                    assert(seq![node] + Seq::<BoundaryNode>::empty() =~= seq![node]);
                                                } else {
                                                    lemma_scan_level_nesting(data, s, e, tr, goal, q);
                                                    if let Ok((rest, closing, fin)) = scan_level(data, s, e, tr, goal, q) {
                                                        let stop = level_stop(goal, closing, fin);
                                                        lemma_byte_offset_monotone(s, q, stop);
                                                        lemma_nodes_within_cons(
            s,
                                                            node,
                                                            rest,
                                                            byte_offset(s, p) as int,
                                                            byte_offset(s, q) as int,
                                                            byte_offset(s, stop) as int,
                                                        );
                                                    }
                                                }
                                            }
                                        }
                                    }
                                },
                                TriggerMatchKind::Boundary(BoundarySide::Closing) => {},
                                TriggerMatchKind::Carrier | TriggerMatchKind::Trivia => {
                                    lemma_scan_level_nesting(data, s, e, tr, goal, m.2);
                                    if let Ok((nodes, closing, fin)) = scan_level(data, s, e, tr, goal, m.2) {
                                        let stop = level_stop(goal, closing, fin);
                                        lemma_byte_offset_monotone(s, p, m.2);
                                        lemma_byte_offset_monotone(s, m.2, stop);
                                        lemma_nodes_within_widen(
            s,
                                            nodes,
                                            byte_offset(s, p) as int,
                                            byte_offset(s, m.2) as int,
                                            byte_offset(s, stop) as int,
                                            byte_offset(s, stop) as int,
                                        );
                                    }
                                },
                                _ => {},
                            }
                        },
                    }
                },
            },
        }
    }
}

/// The nesting law of one boundary: a discovered boundary's opening,
/// interior, and closing follow one another between where it opened and where
/// the cursor stops, with its children in order inside its interior.
pub proof fn lemma_delimited_nesting(
    data: TokenProfileData,
    s: Seq<char>,
    e: int,
    tr: TraversalModel,
    id: TriggerIdentifier,
    p: int,
)
    requires
        0 <= p <= e <= s.len(),
        text_bytes(s) <= usize::MAX,
    ensures
        delimited_at(data, s, e, tr, id, p) matches Ok((node, cs, fin)) ==> p < cs < fin <= e
            && node_within(s, node, byte_offset(s, p) as int, byte_offset(s, fin) as int),
    decreases e - p, 0int,
{
    if let Some(t) = trigger_of(data.spec_definitions(), id) {
        if let Trigger::Boundary { opening, closing: _ } = t {
            if occurs_at(s, p, e, opening@) && opening@.len() > 0 {
                let q = p + opening@.len();
                let g = ScanGoal::Close(id, p);
                lemma_scan_level_nesting(data, s, e, tr, g, q);
                if let Ok((children, closing, fin)) = scan_level(data, s, e, tr, g, q) {
                    if let Some((cs, ce)) = closing {
                        lemma_byte_offset_monotone(s, p, q);
                        lemma_byte_offset_monotone(s, q, cs);
                        lemma_byte_offset_monotone(s, cs, ce);
                        lemma_source_bound_of(s, p, q);
                        lemma_source_bound_of(s, q, cs);
                        lemma_source_bound_of(s, cs, ce);
                        let opening_bound = source_bound_of(s, p, q);
                        let interior = source_bound_of(s, q, cs);
                        let closing_bound = source_bound_of(s, cs, ce);
                        lemma_delimited_of(id, opening_bound, interior, closing_bound);
                        assert(is_char_offset(s, byte_offset(s, p) as int));
                        assert(is_char_offset(s, byte_offset(s, q) as int));
                        if ce <= cs {
                            assert(false);
                        }
                    }
                }
            }
        }
    }
}

/// Whether `d` is the boundary `id` opened at character position `p` of `s`
/// and closed just before `fin`: its opening spells the boundary's opening at
/// `p`, its interior follows directly, and its closing spells the boundary's
/// closing and ends at `fin`.
pub open spec fn delimited_shape(
    data: TokenProfileData,
    id: TriggerIdentifier,
    s: Seq<char>,
    p: int,
    fin: int,
    d: DelimitedBoundary,
) -> bool {
    match trigger_of(data.spec_definitions(), id) {
        Some(Trigger::Boundary { opening, closing }) => {
            let q = p + opening@.len();
            let cs = fin - closing@.len();
            &&& 0 <= p < q <= cs <= fin <= s.len()
            &&& s.subrange(p, q) == opening@
            &&& s.subrange(cs, fin) == closing@
            &&& byte_offset(s, q) == byte_offset(s, p) + text_bytes(opening@)
            &&& byte_offset(s, fin) == byte_offset(s, cs) + text_bytes(closing@)
            &&& d.spec_identifier() == id
            &&& d.spec_opening()@ == bound_of(s, p, q)
            &&& d.spec_interior()@ == bound_of(s, q, cs)
            &&& d.spec_closing()@ == bound_of(s, cs, fin)
        },
        _ => false,
    }
}

/// A closing that discovery accepts at `p` spells the closing of the boundary
/// it names.
proof fn lemma_discovery_closing(
    data: TokenProfileData,
    active: SealedBoundaryDiscoverySet,
    goal: ScanGoal,
    s: Seq<char>,
    p: int,
    e: int,
)
    ensures
        discovery_match(data, active, goal, s, p, e) matches Ok(Some(m)) ==> (m.1
            == TriggerMatchKind::Boundary(BoundarySide::Closing) ==> (trigger_of(
            data.spec_definitions(),
            m.0,
        ) matches Some(Trigger::Boundary { opening, closing }) && occurs_at(s, p, e, closing@)
            && m.2 == p + closing@.len())),
{
    let defs = data.spec_definitions();
    lemma_longest_match_is_maximal(data, active.identity_data(), active.spec_triggers(), s, p, e);
    if let Ok(Some(c)) = longest_match_at(data, active.identity_data(), active.spec_triggers(), s, p, e) {
        let ids = active.spec_triggers();
        let k = choose|k: int|
            0 <= k < ids.len() && candidate_match(defs, s, p, e, #[trigger] ids[k]) == Ok::<
                Option<MatchModel>,
                TokenProfileError,
            >(Some(c));
        let t = trigger_of(defs, ids[k])->0;
        match t {
            Trigger::Boundary { opening, closing } => {},
            Trigger::Carrier { opening, closing, escape } => {
                match carrier_scan(s, e, p + opening@.len(), closing@, escape_view(escape), Seq::empty()) {
                    Some(_) => {},
                    None => {},
                }
            },
            _ => {},
        }
        assert(c.0 == ids[k]);
    }
}

/// A scan for the closing of boundary `id` that stops at a closing stops just
/// past a spelling of that boundary's closing.
proof fn lemma_close_scan_closing(
    data: TokenProfileData,
    s: Seq<char>,
    e: int,
    tr: TraversalModel,
    id: TriggerIdentifier,
    open: int,
    p: int,
)
    requires
        0 <= p,
    ensures
        scan_level(data, s, e, tr, ScanGoal::Close(id, open), p) matches Ok((_, Some((cs, ce)), fin))
            ==> (trigger_of(data.spec_definitions(), id) matches Some(
            Trigger::Boundary { opening, closing },
        ) && p <= cs && occurs_at(s, cs, e, closing@) && ce == cs + closing@.len() && fin == ce),
    decreases e - p,
{
    let goal = ScanGoal::Close(id, open);
    if p < e {
        if let Ok(active) = level_active(tr) {
            if same_data(active.identity_data(), data) {
                lemma_discovery_closing(data, active, goal, s, p, e);
                match discovery_match(data, active, goal, s, p, e) {
                    Err(_) => {},
                    Ok(None) => {
                        lemma_close_scan_closing(data, s, e, tr, id, open, p + 1);
                    },
                    Ok(Some(m)) => if p < m.2 <= e {
                        match m.1 {
                            TriggerMatchKind::Boundary(BoundarySide::Opening) => {
                                if let Ok(child) = level_child(tr, m.0) {
                                    if let Ok((node, cs, q)) = delimited_at(data, s, e, child, m.0, p) {
                                        if p < q <= e {
                                            lemma_close_scan_closing(data, s, e, tr, id, open, q);
                                        }
                                    }
                                }
                            },
                            TriggerMatchKind::Carrier | TriggerMatchKind::Trivia => {
                                lemma_close_scan_closing(data, s, e, tr, id, open, m.2);
                            },
                            _ => {},
                        }
                    },
                }
            }
        }
    }
}

/// The shape law of one boundary: a discovered boundary opens at the cursor
/// with its opening spelling, its interior follows directly, and its closing
/// spells the boundary's closing and ends where the cursor stops.
pub proof fn lemma_delimited_shape(
    data: TokenProfileData,
    s: Seq<char>,
    e: int,
    tr: TraversalModel,
    id: TriggerIdentifier,
    p: int,
)
    requires
        0 <= p <= e <= s.len(),
    ensures
        delimited_at(data, s, e, tr, id, p) matches Ok((node, cs, fin)) ==> (delimited_shape(
            data,
            id,
            s,
            p,
            fin,
            node.boundary,
        ) && node.boundary.spec_end() == byte_offset(s, fin) as usize),
{
    if let Some(Trigger::Boundary { opening, closing }) = trigger_of(data.spec_definitions(), id) {
        if occurs_at(s, p, e, opening@) && opening@.len() > 0 {
            let q = p + opening@.len();
            lemma_close_scan_closing(data, s, e, tr, id, p, q);
            if let Ok((children, Some((cs, ce)), fin)) = scan_level(data, s, e, tr, ScanGoal::Close(id, p), q) {
                lemma_source_bound_of(s, p, q);
                lemma_source_bound_of(s, q, cs);
                lemma_source_bound_of(s, cs, ce);
                crate::text::lemma_byte_offset_subrange(s, p, q);
                crate::text::lemma_byte_offset_subrange(s, cs, ce);
                lemma_delimited_of(
                    id,
                    source_bound_of(s, p, q),
                    source_bound_of(s, q, cs),
                    source_bound_of(s, cs, ce),
                );
            }
        }
    }
}

/// The shape law of a delimited discovery: the boundary it returns opens at
/// the cursor with its opening spelling, its interior follows directly, and its
/// closing spells the boundary's closing and ends where the cursor stops.
pub proof fn lemma_static_delimited_shape(
    data: TokenProfileData,
    active: SealedBoundaryDiscoverySet,
    id: TriggerIdentifier,
    s: Seq<char>,
    e: int,
    p: int,
)
    requires
        0 <= p <= e <= s.len(),
    ensures
        static_delimited(data, active, id, s, e, p) matches Ok((d, fin)) ==> (delimited_shape(
            data,
            id,
            s,
            p,
            fin,
            d,
        ) && d.spec_end() == byte_offset(s, fin) as usize),
{
    lemma_delimited_shape(data, s, e, TraversalModel::Static(active), id, p);
}

/// Whether a match of kind `kind` captures a body: carriers and
/// leading-character-class runs do, nothing else does.
pub open spec fn kind_captures_body(kind: TriggerMatchKind) -> bool {
    kind == TriggerMatchKind::Carrier || kind == TriggerMatchKind::LeadingCharacterClass
}

proof fn lemma_trigger_match_body(s: Seq<char>, p: int, e: int, id: TriggerIdentifier, t: Trigger)
    ensures
        trigger_match(s, p, e, id, t) matches Ok(Some(m)) ==> (m.0 == id && (m.3 is Some
            <==> kind_captures_body(m.1))),
{
    match t {
        Trigger::Carrier { opening, closing, escape } => {
            match carrier_scan(s, e, p + opening@.len(), closing@, escape_view(escape), Seq::empty()) {
                Some(_) => {},
                None => {},
            }
        },
        _ => {},
    }
}

proof fn lemma_class_run_end_stops(s: Seq<char>, e: int, i: int, class: CharacterClass)
    requires
        0 <= i <= e <= s.len(),
    ensures
        class_run_end(s, e, i, class) == e || !class_matches(class, s[class_run_end(s, e, i, class)]),
        forall|k: int| i <= k < class_run_end(s, e, i, class) ==> class_matches(class, #[trigger] s[k]),
    decreases e - i,
{
    if i < e && class_matches(class, s[i]) {
        lemma_class_run_end_stops(s, e, i + 1, class);
    }
}

/// A leading-character-class trigger matches the longest run of one leading
/// character and then continuation characters, and captures exactly the text
/// of that run.
pub proof fn lemma_class_match_captures_span(
    s: Seq<char>,
    p: int,
    e: int,
    id: TriggerIdentifier,
    leading: CharacterClass,
    continuation: CharacterClass,
)
    requires
        0 <= p <= e <= s.len(),
    ensures
        trigger_match(
            s,
            p,
            e,
            id,
            Trigger::LeadingCharacterClass { leading, continuation },
        ) matches Ok(Some(m)) ==> {
            &&& m.0 == id
            &&& m.1 == TriggerMatchKind::LeadingCharacterClass
            &&& p < m.2 <= e
            &&& m.3 == Some(s.subrange(p, m.2))
            &&& class_matches(leading, s[p])
            &&& forall|k: int| p < k < m.2 ==> class_matches(continuation, #[trigger] s[k])
            &&& (m.2 == e || !class_matches(continuation, s[m.2]))
        },
        (trigger_match(s, p, e, id, Trigger::LeadingCharacterClass { leading, continuation })
            matches Ok(None)) <==> !(p < e && class_matches(leading, s[p])),
{
    if p < e {
        lemma_class_run_end_stops(s, e, p + 1, continuation);
        lemma_class_run_end_bounds(s, e, p + 1, continuation);
    }
}

/// The shape of a longest match under sealed profile data: it names one of
/// the active set's triggers, consumes at least one character inside the
/// bound, and captures a body exactly when it is a carrier or a
/// leading-character-class run.
pub proof fn lemma_longest_match_shape(
    data: TokenProfileData,
    set_data: TokenProfileData,
    ids: Seq<TriggerIdentifier>,
    s: Seq<char>,
    p: int,
    e: int,
)
    requires
        seal_error(data) is None,
        0 <= p <= e <= s.len(),
    ensures
        longest_match_at(data, set_data, ids, s, p, e) matches Ok(Some(m)) ==> (ids.contains(m.0)
            && p < m.2 <= e && (m.3 is Some <==> kind_captures_body(m.1)) && (m.1
            == TriggerMatchKind::LeadingCharacterClass ==> m.3 == Some(s.subrange(p, m.2)))),
{
    lemma_longest_match_is_maximal(data, set_data, ids, s, p, e);
    lemma_longest_match_advances(data, s, p, e, ids);
    if let Ok(Some(m)) = longest_match_at(data, set_data, ids, s, p, e) {
        let defs = data.spec_definitions();
        let k = choose|k: int|
            0 <= k < ids.len() && candidate_match(defs, s, p, e, #[trigger] ids[k]) == Ok::<
                Option<MatchModel>,
                TokenProfileError,
            >(Some(m));
        lemma_trigger_match_body(s, p, e, ids[k], trigger_of(defs, ids[k])->0);
        if let Trigger::LeadingCharacterClass { leading, continuation } = trigger_of(defs, ids[k])->0 {
            lemma_class_match_captures_span(s, p, e, ids[k], leading, continuation);
        }
        assert(ids[k] == m.0);
    }
}

/// A scan that ends at a spelling ends just past a spelling of it; a scan
/// that ends through a boundary ends with a child of exactly that boundary,
/// whose closing is the closing that ended the scan.
pub proof fn lemma_goal_scan_closing(
    data: TokenProfileData,
    s: Seq<char>,
    e: int,
    tr: TraversalModel,
    goal: ScanGoal,
    p: int,
)
    requires
        0 <= p,
        goal is Through || goal is Spelling,
    ensures
        scan_level(data, s, e, tr, goal, p) matches Ok((nodes, Some((cs, ce)), fin)) ==> (fin
            == ce && match goal {
            ScanGoal::Through(b) => nodes.len() > 0 && nodes.last().boundary.spec_identifier()
                == b && nodes.last().boundary.spec_closing() == source_bound_of(s, cs, ce),
            ScanGoal::Spelling(t) => occurs_at(s, cs, e, t) && ce == cs + t.len(),
            _ => true,
        }),
    decreases e - p,
{
    if p < e && goal_spelling_at(goal, s, p, e) is None {
        if let Ok(active) = level_active(tr) {
            if same_data(active.identity_data(), data) {
                match discovery_match(data, active, goal, s, p, e) {
                    Err(_) => {},
                    Ok(None) => {
                        lemma_goal_scan_closing(data, s, e, tr, goal, p + 1);
                    },
                    Ok(Some(m)) => if p < m.2 <= e {
                        match m.1 {
                            TriggerMatchKind::Boundary(BoundarySide::Opening) => {
                                if let Ok(child) = level_child(tr, m.0) {
                                    if let Ok((node, cs, q)) = delimited_at(data, s, e, child, m.0, p) {
                                        if p < q <= e {
                                            if let Some(Trigger::Boundary { opening, closing }) = trigger_of(
                                                data.spec_definitions(),
                                                m.0,
                                            ) {
                                                lemma_close_scan_closing(
                                                    data,
                                                    s,
                                                    e,
                                                    child,
                                                    m.0,
                                                    p,
                                                    p + opening@.len(),
                                                );
                                                lemma_delimited_of(
                                                    m.0,
                                                    source_bound_of(s, p, p + opening@.len()),
                                                    source_bound_of(s, p + opening@.len(), cs),
                                                    source_bound_of(s, cs, q),
                                                );
                                            }
                                            assert(seq![node].last() == node);
                                            assert(seq![node].len() == 1);
                                            if !goal_is_through(goal, m.0) {
                                                lemma_goal_scan_closing(data, s, e, tr, goal, q);
                                                if let Ok((rest, closing, fin)) = scan_level(data, s, e, tr, goal, q) {
                                                    let all = seq![node] + rest;
                                                    if rest.len() > 0 {
                                                        assert(all.last() == rest.last());
                                                    }
                                                }
                                            }
                                        }
                                    }
                                }
                            },
                            TriggerMatchKind::Carrier | TriggerMatchKind::Trivia => {
                                lemma_goal_scan_closing(data, s, e, tr, goal, m.2);
                            },
                            _ => {},
                        }
                    },
                }
            }
        }
    }
}

} // verus!
