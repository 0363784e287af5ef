//! Sealed lexical boundary data shared by every textual form.
//!
//! A profile does not tokenize a source horizontally. It defines the boundary
//! triggers that a sealed structural form may activate at one recursive
//! position. The boundary reader compares only that active set at the current
//! cursor. Longest complete match is universal machinery; authored precedence
//! is deliberately unrepresentable.

use vstd::prelude::*;

use crate::text::{
    ascii_digit, ascii_lowercase, ascii_uppercase, chars_are_strictly_increasing, chars_contain,
    chars_equal, chars_of, chars_strictly_increasing, ends_with, seq_ends_with, seq_starts_with,
    starts_with, str_equal, is_ascii_alphabetic, is_ascii_digit,
    is_unicode_whitespace, sorted_unique_chars, unicode_whitespace,
};

verus! {

/// A monotonic revision carried in a lexical profile's identity.
#[derive(Clone, Copy, Debug, PartialEq, Eq, Structural, Ord)]
pub struct ProfileRevision(u32);

impl View for ProfileRevision {
    type V = u32;

    closed spec fn view(&self) -> u32 {
        self.0
    }
}

impl ProfileRevision {
    pub fn new(revision: u32) -> (r: Self)
        ensures
            r@ == revision,
    {
        Self(revision)
    }

    pub fn value(self) -> (v: u32)
        ensures
            v == self@,
    {
        self.0
    }

    /// Equal revision numbers are equal revisions.
    pub proof fn lemma_view_injective(a: Self, b: Self)
        ensures
            (a@ == b@) <==> (a == b),
    {
    }
}

/// Compatibility names for the two established NOTA-family profiles.
#[derive(Clone, Copy, Debug, PartialEq, Eq, Structural)]
pub enum GlyphSet {
    Standard,
    NomosExtended,
}

impl GlyphSet {
    pub fn admits_dollar_sigil(self) -> (r: bool)
        ensures
            r == (self == GlyphSet::NomosExtended),
    {
        match self {
            GlyphSet::Standard => false,
            GlyphSet::NomosExtended => true,
        }
    }
}

/// The established profile selector. Its sealed representation is produced by
/// [`RawProfile::seal`].
#[derive(Clone, Copy, Debug, PartialEq, Eq, Structural)]
pub struct RawProfile {
    revision: ProfileRevision,
    glyphs: GlyphSet,
}

impl RawProfile {
    pub closed spec fn spec_revision(self) -> ProfileRevision {
        self.revision
    }

    pub closed spec fn spec_glyphs(self) -> GlyphSet {
        self.glyphs
    }

    pub fn new(revision: ProfileRevision, glyphs: GlyphSet) -> (r: Self)
        ensures
            r.spec_revision() == revision,
            r.spec_glyphs() == glyphs,
    {
        Self { revision, glyphs }
    }

    pub fn standard() -> (r: Self)
        ensures
            r.spec_revision()@ == 1,
            r.spec_glyphs() == GlyphSet::Standard,
            r == RawProfile::standard_spec(),
    {
        Self::new(ProfileRevision::new(1), GlyphSet::Standard)
    }

    pub fn nomos_extended() -> (r: Self)
        ensures
            r.spec_revision()@ == 1,
            r.spec_glyphs() == GlyphSet::NomosExtended,
            r == RawProfile::nomos_extended_spec(),
    {
        Self::new(ProfileRevision::new(1), GlyphSet::NomosExtended)
    }

    pub fn revision(self) -> (r: ProfileRevision)
        ensures
            r == self.spec_revision(),
    {
        self.revision
    }

    pub fn glyphs(self) -> (g: GlyphSet)
        ensures
            g == self.spec_glyphs(),
    {
        self.glyphs
    }

}

/// Compact identity of one trigger definition within a profile.
#[derive(Clone, Copy, Debug, PartialEq, Eq, Structural, Hash, Ord)]
pub struct TriggerIdentifier(u16);

impl View for TriggerIdentifier {
    type V = u16;

    closed spec fn view(&self) -> u16 {
        self.0
    }
}

impl TriggerIdentifier {
    pub fn new(value: u16) -> (r: Self)
        ensures
            r@ == value,
    {
        Self(value)
    }

    pub fn value(self) -> (v: u16)
        ensures
            v == self@,
    {
        self.0
    }

    pub proof fn lemma_view_injective(a: Self, b: Self)
        ensures
            (a@ == b@) <==> (a == b),
    {
    }
}

/// A canonical set of characters: strictly increasing by code point.
#[derive(Debug, PartialEq, Eq)]
pub struct CharacterSet {
    characters: Vec<char>,
}

impl View for CharacterSet {
    type V = Seq<char>;

    closed spec fn view(&self) -> Seq<char> {
        self.characters@
    }
}

impl Clone for CharacterSet {
    fn clone(&self) -> (r: Self)
        ensures
            r@ == self@,
    {
        let mut characters: Vec<char> = Vec::new();
        let mut i: usize = 0;
        while i < self.characters.len()
            invariant
                i <= self.characters.len(),
                characters@ == self.characters@.take(i as int),
            decreases self.characters.len() - i,
        {
            characters.push(self.characters[i]);
            i = i + 1;
            assert(characters@ =~= self.characters@.take(i as int));
        }
        assert(self.characters@.take(i as int) =~= self.characters@);
        CharacterSet { characters }
    }
}

impl CharacterSet {
    /// The set of the given characters, in canonical order.
    pub fn new(characters: Vec<char>) -> (r: Self)
        ensures
            chars_strictly_increasing(r@),
            forall|c: char| r@.contains(c) <==> characters@.contains(c),
    {
        CharacterSet { characters: sorted_unique_chars(&characters) }
    }

    /// The set of the characters of `text`.
    pub fn from_text(text: &str) -> (r: Self)
        ensures
            chars_strictly_increasing(r@),
            forall|c: char| r@.contains(c) <==> text@.contains(c),
    {
        Self::new(chars_of(text))
    }

    pub fn characters(&self) -> (r: &[char])
        ensures
            r@ == self@,
    {
        self.characters.as_slice()
    }

    pub fn contains(&self, character: char) -> (r: bool)
        ensures
            r == self@.contains(character),
    {
        chars_contain(&self.characters, character)
    }

    /// Whether this set is in canonical (strictly increasing) order.
    pub fn is_canonical(&self) -> (r: bool)
        ensures
            r == chars_strictly_increasing(self@),
    {
        chars_are_strictly_increasing(&self.characters)
    }
}

/// A character class used by cursor-local trigger matching.
#[derive(Debug, PartialEq, Eq)]
pub enum CharacterClass {
    AsciiDigit,
    AsciiAlphabetic,
    AsciiAlphanumeric,
    Whitespace,
    Characters(CharacterSet),
}

impl Clone for CharacterClass {
    fn clone(&self) -> (r: Self)
        ensures
            same_class(r, *self),
    {
        match self {
            CharacterClass::AsciiDigit => CharacterClass::AsciiDigit,
            CharacterClass::AsciiAlphabetic => CharacterClass::AsciiAlphabetic,
            CharacterClass::AsciiAlphanumeric => CharacterClass::AsciiAlphanumeric,
            CharacterClass::Whitespace => CharacterClass::Whitespace,
            CharacterClass::Characters(set) => CharacterClass::Characters(set.clone()),
        }
    }
}

/// Two classes with the same meaning and the same canonical data.
pub open spec fn same_class(a: CharacterClass, b: CharacterClass) -> bool {
    match (a, b) {
        (CharacterClass::AsciiDigit, CharacterClass::AsciiDigit) => true,
        (CharacterClass::AsciiAlphabetic, CharacterClass::AsciiAlphabetic) => true,
        (CharacterClass::AsciiAlphanumeric, CharacterClass::AsciiAlphanumeric) => true,
        (CharacterClass::Whitespace, CharacterClass::Whitespace) => true,
        (CharacterClass::Characters(x), CharacterClass::Characters(y)) => x@ == y@,
        _ => false,
    }
}

/// Whether `class` admits `c`.
pub open spec fn class_matches(class: CharacterClass, c: char) -> bool {
    match class {
        CharacterClass::AsciiDigit => is_ascii_digit(c),
        CharacterClass::AsciiAlphabetic => is_ascii_alphabetic(c),
        CharacterClass::AsciiAlphanumeric => is_ascii_digit(c) || is_ascii_alphabetic(c),
        CharacterClass::Whitespace => is_unicode_whitespace(c),
        CharacterClass::Characters(set) => set@.contains(c),
    }
}

/// Whether a class's data is in canonical form.
pub open spec fn class_is_canonical(class: CharacterClass) -> bool {
    match class {
        CharacterClass::Characters(set) => chars_strictly_increasing(set@),
        _ => true,
    }
}

/// Whether some character is admitted by both classes.
pub open spec fn classes_overlap(a: CharacterClass, b: CharacterClass) -> bool {
    match (a, b) {
        (CharacterClass::Characters(left), CharacterClass::Characters(right)) => exists|i: int|
            0 <= i < left@.len() && right@.contains(#[trigger] left@[i]),
        (CharacterClass::Characters(set), other) => exists|i: int|
            0 <= i < set@.len() && class_matches(other, #[trigger] set@[i]),
        (other, CharacterClass::Characters(set)) => exists|i: int|
            0 <= i < set@.len() && class_matches(other, #[trigger] set@[i]),
        (CharacterClass::AsciiDigit, CharacterClass::AsciiDigit) => true,
        (CharacterClass::AsciiDigit, CharacterClass::AsciiAlphanumeric) => true,
        (CharacterClass::AsciiAlphanumeric, CharacterClass::AsciiDigit) => true,
        (CharacterClass::AsciiAlphabetic, CharacterClass::AsciiAlphabetic) => true,
        (CharacterClass::AsciiAlphabetic, CharacterClass::AsciiAlphanumeric) => true,
        (CharacterClass::AsciiAlphanumeric, CharacterClass::AsciiAlphabetic) => true,
        (CharacterClass::AsciiAlphanumeric, CharacterClass::AsciiAlphanumeric) => true,
        (CharacterClass::Whitespace, CharacterClass::Whitespace) => true,
        _ => false,
    }
}

impl CharacterClass {
    pub fn matches(&self, character: char) -> (r: bool)
        ensures
            r == class_matches(*self, character),
    {
        match self {
            CharacterClass::AsciiDigit => ascii_digit(character),
            CharacterClass::AsciiAlphabetic => ascii_uppercase(character) || ascii_lowercase(
                character,
            ),
            CharacterClass::AsciiAlphanumeric => ascii_digit(character) || ascii_uppercase(
                character,
            ) || ascii_lowercase(character),
            CharacterClass::Whitespace => unicode_whitespace(character),
            CharacterClass::Characters(characters) => characters.contains(character),
        }
    }

    /// Whether the class's data is canonical.
    pub fn is_canonical(&self) -> (r: bool)
        ensures
            r == class_is_canonical(*self),
    {
        match self {
            CharacterClass::Characters(set) => set.is_canonical(),
            _ => true,
        }
    }

    fn any_member_matches(set: &CharacterSet, other: &CharacterClass) -> (r: bool)
        ensures
            r == exists|i: int| 0 <= i < set@.len() && class_matches(*other, #[trigger] set@[i]),
    {
        let characters = set.characters();
        let mut i: usize = 0;
        while i < characters.len()
            invariant
                i <= characters@.len(),
                characters@ == set@,
                forall|j: int| 0 <= j < i ==> !class_matches(*other, #[trigger] set@[j]),
            decreases characters.len() - i,
        {
            if other.matches(characters[i]) {
                return true;
            }
            i = i + 1;
        }
        false
    }

    fn overlaps(&self, other: &Self) -> (r: bool)
        ensures
            r == classes_overlap(*self, *other),
    {
        match (self, other) {
            (CharacterClass::Characters(left), CharacterClass::Characters(right)) => {
                let r = Self::any_member_matches(left, other);
                r
            },
            (CharacterClass::Characters(set), _) => Self::any_member_matches(set, other),
            (_, CharacterClass::Characters(set)) => Self::any_member_matches(set, self),
            (CharacterClass::AsciiDigit, CharacterClass::AsciiDigit) => true,
            (CharacterClass::AsciiDigit, CharacterClass::AsciiAlphanumeric) => true,
            (CharacterClass::AsciiAlphanumeric, CharacterClass::AsciiDigit) => true,
            (CharacterClass::AsciiAlphabetic, CharacterClass::AsciiAlphabetic) => true,
            (CharacterClass::AsciiAlphabetic, CharacterClass::AsciiAlphanumeric) => true,
            (CharacterClass::AsciiAlphanumeric, CharacterClass::AsciiAlphabetic) => true,
            (CharacterClass::AsciiAlphanumeric, CharacterClass::AsciiAlphanumeric) => true,
            (CharacterClass::Whitespace, CharacterClass::Whitespace) => true,
            _ => false,
        }
    }
}


/// One generic boundary trigger definition.
#[derive(Debug, PartialEq, Eq)]
pub enum Trigger {
    Boundary { opening: String, closing: String },
    Application { glyph: String },
    Punctuation { glyph: String },
    Carrier { opening: String, closing: String, escape: Option<String> },
    Whitespace { canonical_spelling: String },
    LineComment { opening: String },
    LeadingCharacterClass { leading: CharacterClass, continuation: CharacterClass },
}

/// Two triggers with the same variant and the same spellings and classes.
pub open spec fn same_trigger(a: Trigger, b: Trigger) -> bool {
    match (a, b) {
        (
            Trigger::Boundary { opening: o1, closing: c1 },
            Trigger::Boundary { opening: o2, closing: c2 },
        ) => o1@ == o2@ && c1@ == c2@,
        (Trigger::Application { glyph: g1 }, Trigger::Application { glyph: g2 }) => g1@ == g2@,
        (Trigger::Punctuation { glyph: g1 }, Trigger::Punctuation { glyph: g2 }) => g1@ == g2@,
        (
            Trigger::Carrier { opening: o1, closing: c1, escape: e1 },
            Trigger::Carrier { opening: o2, closing: c2, escape: e2 },
        ) => o1@ == o2@ && c1@ == c2@ && match (e1, e2) {
            (Some(x), Some(y)) => x@ == y@,
            (None, None) => true,
            _ => false,
        },
        (
            Trigger::Whitespace { canonical_spelling: s1 },
            Trigger::Whitespace { canonical_spelling: s2 },
        ) => s1@ == s2@,
        (Trigger::LineComment { opening: o1 }, Trigger::LineComment { opening: o2 }) => o1@
            == o2@,
        (
            Trigger::LeadingCharacterClass { leading: l1, continuation: c1 },
            Trigger::LeadingCharacterClass { leading: l2, continuation: c2 },
        ) => same_class(l1, l2) && same_class(c1, c2),
        _ => false,
    }
}

impl Clone for Trigger {
    fn clone(&self) -> (r: Self)
        ensures
            same_trigger(r, *self),
    {
        match self {
            Trigger::Boundary { opening, closing } => Trigger::Boundary {
                opening: opening.clone(),
                closing: closing.clone(),
            },
            Trigger::Application { glyph } => Trigger::Application { glyph: glyph.clone() },
            Trigger::Punctuation { glyph } => Trigger::Punctuation { glyph: glyph.clone() },
            Trigger::Carrier { opening, closing, escape } => Trigger::Carrier {
                opening: opening.clone(),
                closing: closing.clone(),
                escape: match escape {
                    Some(e) => Some(e.clone()),
                    None => None,
                },
            },
            Trigger::Whitespace { canonical_spelling } => Trigger::Whitespace {
                canonical_spelling: canonical_spelling.clone(),
            },
            Trigger::LineComment { opening } => Trigger::LineComment { opening: opening.clone() },
            Trigger::LeadingCharacterClass { leading, continuation } =>
                Trigger::LeadingCharacterClass {
                leading: leading.clone(),
                continuation: continuation.clone(),
            },
        }
    }
}

/// The exact complete spellings a trigger owns.
pub open spec fn exact_spellings(t: Trigger) -> Seq<Seq<char>> {
    match t {
        Trigger::Boundary { opening, closing } => seq![opening@, closing@],
        Trigger::Application { glyph } => seq![glyph@],
        Trigger::Punctuation { glyph } => seq![glyph@],
        _ => Seq::empty(),
    }
}

/// The leading and continuation classes of a class-driven trigger.
pub open spec fn character_classes(t: Trigger) -> Option<(CharacterClass, CharacterClass)> {
    match t {
        Trigger::Whitespace { .. } => Some((CharacterClass::Whitespace, CharacterClass::Whitespace)),
        Trigger::LeadingCharacterClass { leading, continuation } => Some((leading, continuation)),
        _ => None,
    }
}

/// The opening and closing of a carrier.
pub open spec fn carrier_parts(t: Trigger) -> Option<(Seq<char>, Seq<char>)> {
    match t {
        Trigger::Carrier { opening, closing, .. } => Some((opening@, closing@)),
        _ => None,
    }
}

/// The opening of a line comment.
pub open spec fn comment_opening(t: Trigger) -> Option<Seq<char>> {
    match t {
        Trigger::LineComment { opening } => Some(opening@),
        _ => None,
    }
}

/// The opening of a trigger whose complete match length depends on the source.
pub open spec fn dynamic_opening(t: Trigger) -> Option<Seq<char>> {
    match carrier_parts(t) {
        Some((opening, _)) => Some(opening),
        None => comment_opening(t),
    }
}

/// Whether `spelling` is entirely one run of a leading-class character followed
/// by continuation-class characters.
pub open spec fn class_matches_entire(
    leading: CharacterClass,
    continuation: CharacterClass,
    spelling: Seq<char>,
) -> bool {
    &&& spelling.len() > 0
    &&& class_matches(leading, spelling[0])
    &&& forall|i: int| 1 <= i < spelling.len() ==> class_matches(continuation, #[trigger] spelling[i])
}

pub open spec fn prefixes_overlap(a: Seq<char>, b: Seq<char>) -> bool {
    starts_with(a, b) || starts_with(b, a)
}

/// Whether the exact spellings of two triggers share a complete spelling.
pub open spec fn share_exact_spelling(left: Trigger, right: Trigger) -> bool {
    exists|i: int, j: int|
        0 <= i < exact_spellings(left).len() && 0 <= j < exact_spellings(right).len()
            && #[trigger] exact_spellings(left)[i] == #[trigger] exact_spellings(right)[j]
}

/// Whether a class-driven `classed` trigger can match one of `exact`'s spellings
/// completely.
pub open spec fn class_covers_exact(classed: Trigger, exact: Trigger) -> bool {
    match character_classes(classed) {
        Some((leading, continuation)) => exists|i: int|
            0 <= i < exact_spellings(exact).len() && class_matches_entire(
                leading,
                continuation,
                #[trigger] exact_spellings(exact)[i],
            ),
        None => false,
    }
}

/// Whether a source-dependent `dynamic` trigger can tie `other`.
pub open spec fn dynamic_can_tie(dynamic: Trigger, other: Trigger) -> bool {
    ||| carrier_encloses_exact(dynamic, other)
    ||| comment_prefixes_exact(dynamic, other)
    ||| opening_starts_class(dynamic, other)
}

/// Whether two triggers could produce complete matches of equal length at
/// one cursor position.
pub open spec fn can_tie(left: Trigger, right: Trigger) -> bool {
    ||| share_exact_spelling(left, right)
    ||| match (character_classes(left), character_classes(right)) {
        (Some((l, _)), Some((r, _))) => classes_overlap(l, r),
        _ => false,
    }
    ||| class_covers_exact(right, left)
    ||| class_covers_exact(left, right)
    ||| match (carrier_parts(left), carrier_parts(right)) {
        (Some((l, _)), Some((r, _))) => prefixes_overlap(l, r),
        _ => false,
    }
    ||| match (comment_opening(left), comment_opening(right)) {
        (Some(l), Some(r)) => prefixes_overlap(l, r),
        _ => false,
    }
    ||| match (carrier_parts(left), comment_opening(right)) {
        (Some((carrier, _)), Some(comment)) => prefixes_overlap(carrier, comment),
        _ => false,
    }
    ||| match (comment_opening(left), carrier_parts(right)) {
        (Some(comment), Some((carrier, _))) => prefixes_overlap(carrier, comment),
        _ => false,
    }
    ||| dynamic_can_tie(left, right)
    ||| dynamic_can_tie(right, left)
}

/// The role a trigger's text plays, for diagnostics.
#[derive(Clone, Copy, Debug, PartialEq, Eq, Structural)]
pub enum TriggerTextRole {
    BoundaryOpening,
    BoundaryClosing,
    ExactGlyph,
    CarrierOpening,
    CarrierClosing,
    CarrierEscape,
    TriviaOpening,
    CanonicalSpelling,
}

/// A profile or active trigger set could not be sealed or executed.
#[derive(Debug, Clone, Copy, PartialEq, Eq, Structural)]
pub enum TokenProfileError {
    EmptyTrigger { identifier: TriggerIdentifier, role: TriggerTextRole },
    DuplicateTriggerIdentifier(TriggerIdentifier),
    AmbiguousTriggerDefinition(TriggerIdentifier),
    UnknownTriggerIdentifier(TriggerIdentifier),
    AmbiguousTriggerSet { first: TriggerIdentifier, second: TriggerIdentifier },
    TriggerSetProfileMismatch,
    UnsupportedBoundaryDiscoveryTrigger(TriggerIdentifier),
    InactiveBoundary { identifier: TriggerIdentifier },
    ExpectedBoundaryOpening { identifier: TriggerIdentifier, byte_offset: usize },
    UnclosedBoundary { identifier: TriggerIdentifier, byte_offset: usize },
    MismatchedBoundary { expected: TriggerIdentifier, found: TriggerIdentifier, byte_offset: usize },
    UnsupportedCompatibilityTrigger(TriggerIdentifier),
    UnsupportedCompatibilityBoundary(TriggerIdentifier),
    UnclosedCarrier { identifier: TriggerIdentifier, byte_offset: usize },
    ForbiddenBareCharacter { character: char, byte_offset: usize },
    InvalidSourceBound { start: usize, end: usize, source_length: usize },
}

/// The first malformed text of one trigger, if any.
pub open spec fn validate_trigger(t: Trigger, identifier: TriggerIdentifier) -> Option<
    TokenProfileError,
> {
    match t {
        Trigger::Boundary { opening, closing } => if opening@.len() == 0 {
            Some(
                TokenProfileError::EmptyTrigger {
                    identifier,
                    role: TriggerTextRole::BoundaryOpening,
                },
            )
        } else if closing@.len() == 0 {
            Some(
                TokenProfileError::EmptyTrigger {
                    identifier,
                    role: TriggerTextRole::BoundaryClosing,
                },
            )
        } else if opening@ == closing@ {
            Some(TokenProfileError::AmbiguousTriggerDefinition(identifier))
        } else {
            None
        },
        Trigger::Application { glyph } => if glyph@.len() == 0 {
            Some(TokenProfileError::EmptyTrigger { identifier, role: TriggerTextRole::ExactGlyph })
        } else {
            None
        },
        Trigger::Punctuation { glyph } => if glyph@.len() == 0 {
            Some(TokenProfileError::EmptyTrigger { identifier, role: TriggerTextRole::ExactGlyph })
        } else {
            None
        },
        Trigger::Carrier { opening, closing, escape } => if opening@.len() == 0 {
            Some(
                TokenProfileError::EmptyTrigger {
                    identifier,
                    role: TriggerTextRole::CarrierOpening,
                },
            )
        } else if closing@.len() == 0 {
            Some(
                TokenProfileError::EmptyTrigger {
                    identifier,
                    role: TriggerTextRole::CarrierClosing,
                },
            )
        } else if escape matches Some(e) && e@.len() == 0 {
            Some(
                TokenProfileError::EmptyTrigger { identifier, role: TriggerTextRole::CarrierEscape },
            )
        } else {
            None
        },
        Trigger::LineComment { opening } => if opening@.len() == 0 {
            Some(
                TokenProfileError::EmptyTrigger { identifier, role: TriggerTextRole::TriviaOpening },
            )
        } else {
            None
        },
        Trigger::Whitespace { canonical_spelling } => if canonical_spelling@.len() == 0 {
            Some(
                TokenProfileError::EmptyTrigger {
                    identifier,
                    role: TriggerTextRole::CanonicalSpelling,
                },
            )
        } else {
            None
        },
        Trigger::LeadingCharacterClass { .. } => None,
    }
}

/// Every text of a trigger is non-empty and a boundary's two sides differ.
pub open spec fn trigger_is_valid(t: Trigger) -> bool {
    match t {
        Trigger::Boundary { opening, closing } => opening@.len() > 0 && closing@.len() > 0
            && opening@ != closing@,
        Trigger::Application { glyph } => glyph@.len() > 0,
        Trigger::Punctuation { glyph } => glyph@.len() > 0,
        Trigger::Carrier { opening, closing, escape } => opening@.len() > 0 && closing@.len() > 0
            && (escape matches Some(e) ==> e@.len() > 0),
        Trigger::LineComment { opening } => opening@.len() > 0,
        Trigger::Whitespace { canonical_spelling } => canonical_spelling@.len() > 0,
        Trigger::LeadingCharacterClass { .. } => true,
    }
}

pub proof fn lemma_validate_trigger(t: Trigger, identifier: TriggerIdentifier)
    ensures
        validate_trigger(t, identifier) is None <==> trigger_is_valid(t),
{
}

fn is_empty_string(s: &String) -> (r: bool)
    ensures
        r == (s@.len() == 0),
{
    s.as_str().is_empty()
}

fn string_chars(s: &String) -> (r: Vec<char>)
    ensures
        r@ == s@,
{
    chars_of(s.as_str())
}

impl Trigger {
    /// The canonical emitted spelling, when this generic trigger owns one.
    pub fn canonical_spelling(&self) -> (r: Option<&str>)
        ensures
            match *self {
                Trigger::Whitespace { canonical_spelling } => r matches Some(s) && s@
                    == canonical_spelling@,
                _ => r is None,
            },
    {
        match self {
            Trigger::Whitespace { canonical_spelling } => Some(canonical_spelling.as_str()),
            _ => None,
        }
    }

    fn exact_spellings(&self) -> (r: Vec<Vec<char>>)
        ensures
            r@.len() == exact_spellings(*self).len(),
            forall|i: int| 0 <= i < r@.len() ==> (#[trigger] r@[i])@ == exact_spellings(*self)[i],
    {
        let mut r: Vec<Vec<char>> = Vec::new();
        match self {
            Trigger::Boundary { opening, closing } => {
                r.push(string_chars(opening));
                r.push(string_chars(closing));
            },
            Trigger::Application { glyph } => {
                r.push(string_chars(glyph));
            },
            Trigger::Punctuation { glyph } => {
                r.push(string_chars(glyph));
            },
            _ => {},
        }
        r
    }

    fn character_classes(&self) -> (r: Option<(CharacterClass, CharacterClass)>)
        ensures
            match (r, character_classes(*self)) {
                (Some((a, b)), Some((x, y))) => same_class(a, x) && same_class(b, y),
                (None, None) => true,
                _ => false,
            },
    {
        match self {
            Trigger::Whitespace { .. } => Some(
                (CharacterClass::Whitespace, CharacterClass::Whitespace),
            ),
            Trigger::LeadingCharacterClass { leading, continuation } => Some(
                (leading.clone(), continuation.clone()),
            ),
            _ => None,
        }
    }

    fn carrier_parts(&self) -> (r: Option<(Vec<char>, Vec<char>)>)
        ensures
            match (r, carrier_parts(*self)) {
                (Some((a, b)), Some((x, y))) => a@ == x && b@ == y,
                (None, None) => true,
                _ => false,
            },
    {
        match self {
            Trigger::Carrier { opening, closing, .. } => Some(
                (string_chars(opening), string_chars(closing)),
            ),
            _ => None,
        }
    }

    fn comment_opening(&self) -> (r: Option<Vec<char>>)
        ensures
            match (r, comment_opening(*self)) {
                (Some(a), Some(x)) => a@ == x,
                (None, None) => true,
                _ => false,
            },
    {
        match self {
            Trigger::LineComment { opening } => Some(string_chars(opening)),
            _ => None,
        }
    }

    fn dynamic_opening(&self) -> (r: Option<Vec<char>>)
        ensures
            match (r, dynamic_opening(*self)) {
                (Some(a), Some(x)) => a@ == x,
                (None, None) => true,
                _ => false,
            },
    {
        match self.carrier_parts() {
            Some((opening, _)) => Some(opening),
            None => self.comment_opening(),
        }
    }

    fn validate(&self, identifier: TriggerIdentifier) -> (r: Result<(), TokenProfileError>)
        ensures
            match validate_trigger(*self, identifier) {
                Some(e) => r == Err::<(), TokenProfileError>(e),
                None => r is Ok,
            },
    {
        match self {
            Trigger::Boundary { opening, closing } => {
                if is_empty_string(opening) {
                    return Err(
                        TokenProfileError::EmptyTrigger {
                            identifier,
                            role: TriggerTextRole::BoundaryOpening,
                        },
                    );
                }
                if is_empty_string(closing) {
                    return Err(
                        TokenProfileError::EmptyTrigger {
                            identifier,
                            role: TriggerTextRole::BoundaryClosing,
                        },
                    );
                }
                if str_equal(opening.as_str(), closing.as_str()) {
                    return Err(TokenProfileError::AmbiguousTriggerDefinition(identifier));
                }
                Ok(())
            },
            Trigger::Application { glyph } | Trigger::Punctuation { glyph } => {
                if is_empty_string(glyph) {
                    Err(
                        TokenProfileError::EmptyTrigger {
                            identifier,
                            role: TriggerTextRole::ExactGlyph,
                        },
                    )
                } else {
                    Ok(())
                }
            },
            Trigger::Carrier { opening, closing, escape } => {
                if is_empty_string(opening) {
                    return Err(
                        TokenProfileError::EmptyTrigger {
                            identifier,
                            role: TriggerTextRole::CarrierOpening,
                        },
                    );
                }
                if is_empty_string(closing) {
                    return Err(
                        TokenProfileError::EmptyTrigger {
                            identifier,
                            role: TriggerTextRole::CarrierClosing,
                        },
                    );
                }
                if let Some(escape) = escape {
                    if is_empty_string(escape) {
                        return Err(
                            TokenProfileError::EmptyTrigger {
                                identifier,
                                role: TriggerTextRole::CarrierEscape,
                            },
                        );
                    }
                }
                Ok(())
            },
            Trigger::LineComment { opening } => {
                if is_empty_string(opening) {
                    Err(
                        TokenProfileError::EmptyTrigger {
                            identifier,
                            role: TriggerTextRole::TriviaOpening,
                        },
                    )
                } else {
                    Ok(())
                }
            },
            Trigger::Whitespace { canonical_spelling } => {
                if is_empty_string(canonical_spelling) {
                    Err(
                        TokenProfileError::EmptyTrigger {
                            identifier,
                            role: TriggerTextRole::CanonicalSpelling,
                        },
                    )
                } else {
                    Ok(())
                }
            },
            Trigger::LeadingCharacterClass { .. } => Ok(()),
        }
    }
}


pub proof fn lemma_same_class_matches(a: CharacterClass, b: CharacterClass, c: char)
    requires
        same_class(a, b),
    ensures
        class_matches(a, c) == class_matches(b, c),
{
}

pub proof fn lemma_same_class_overlaps(a: CharacterClass, b: CharacterClass, x: CharacterClass, y: CharacterClass)
    requires
        same_class(a, x),
        same_class(b, y),
    ensures
        classes_overlap(a, b) == classes_overlap(x, y),
{
    assert forall|c: char| class_matches(a, c) == class_matches(x, c) by {
        lemma_same_class_matches(a, x, c);
    }
    assert forall|c: char| class_matches(b, c) == class_matches(y, c) by {
        lemma_same_class_matches(b, y, c);
    }
}

fn matches_entire(leading: &CharacterClass, continuation: &CharacterClass, spelling: &Vec<char>) -> (r: bool)
    ensures
        r == class_matches_entire(*leading, *continuation, spelling@),
{
    if spelling.len() == 0 || !leading.matches(spelling[0]) {
        return false;
    }
    let mut i: usize = 1;
    while i < spelling.len()
        invariant
            1 <= i <= spelling.len(),
            forall|j: int| 1 <= j < i ==> class_matches(*continuation, #[trigger] spelling@[j]),
        decreases spelling.len() - i,
    {
        if !continuation.matches(spelling[i]) {
            return false;
        }
        i = i + 1;
    }
    true
}

fn overlapping_prefixes(a: &Vec<char>, b: &Vec<char>) -> (r: bool)
    ensures
        r == prefixes_overlap(a@, b@),
{
    seq_starts_with(a, b) || seq_starts_with(b, a)
}

fn share_exact(left: &Trigger, right: &Trigger) -> (r: bool)
    ensures
        r == share_exact_spelling(*left, *right),
{
    let ls = left.exact_spellings();
    let rs = right.exact_spellings();
    let mut i: usize = 0;
    while i < ls.len()
        invariant
            i <= ls@.len(),
            ls@.len() == exact_spellings(*left).len(),
            rs@.len() == exact_spellings(*right).len(),
            forall|k: int| 0 <= k < ls@.len() ==> (#[trigger] ls@[k])@ == exact_spellings(*left)[k],
            forall|k: int| 0 <= k < rs@.len() ==> (#[trigger] rs@[k])@ == exact_spellings(*right)[k],
            forall|a: int, b: int|
                0 <= a < i && 0 <= b < rs@.len() ==> #[trigger] exact_spellings(*left)[a]
                    != #[trigger] exact_spellings(*right)[b],
        decreases ls.len() - i,
    {
        let mut j: usize = 0;
        while j < rs.len()
            invariant
                i < ls@.len(),
                j <= rs@.len(),
                ls@.len() == exact_spellings(*left).len(),
                rs@.len() == exact_spellings(*right).len(),
                forall|k: int| 0 <= k < ls@.len() ==> (#[trigger] ls@[k])@ == exact_spellings(*left)[k],
                forall|k: int| 0 <= k < rs@.len() ==> (#[trigger] rs@[k])@ == exact_spellings(*right)[k],
                forall|a: int, b: int|
                    0 <= a < i && 0 <= b < rs@.len() ==> #[trigger] exact_spellings(*left)[a]
                        != #[trigger] exact_spellings(*right)[b],
                forall|b: int|
                    0 <= b < j ==> exact_spellings(*left)[i as int] != #[trigger] exact_spellings(*right)[b],
            decreases rs.len() - j,
        {
            if chars_equal(&ls[i], &rs[j]) {
                assert(ls@[i as int]@ == exact_spellings(*left)[i as int]);
                assert(rs@[j as int]@ == exact_spellings(*right)[j as int]);
                return true;
            }
            j = j + 1;
        }
        i = i + 1;
    }
    false
}

fn covers_exact(classed: &Trigger, exact: &Trigger) -> (r: bool)
    ensures
        r == class_covers_exact(*classed, *exact),
{
    let classes = classed.character_classes();
    match classes {
        None => false,
        Some((leading, continuation)) => {
            let spellings = exact.exact_spellings();
            let ghost spec_classes = character_classes(*classed);
            let mut i: usize = 0;
            while i < spellings.len()
                invariant
                    i <= spellings@.len(),
                    spec_classes == character_classes(*classed),
                    spec_classes matches Some((x, y)) && same_class(leading, x) && same_class(continuation, y),
                    spellings@.len() == exact_spellings(*exact).len(),
                    forall|k: int| 0 <= k < spellings@.len() ==> (#[trigger] spellings@[k])@ == exact_spellings(*exact)[k],
                    forall|k: int| 0 <= k < i ==> !class_matches_entire((spec_classes->0).0, (spec_classes->0).1, #[trigger] exact_spellings(*exact)[k]),
                decreases spellings.len() - i,
            {
                let found = matches_entire(&leading, &continuation, &spellings[i]);
                proof {
                    let (x, y) = spec_classes->0;
                    let sp = exact_spellings(*exact)[i as int];
                    assert(spellings@[i as int]@ == sp);
                    assert forall|c: char| class_matches(leading, c) == class_matches(x, c) by {
                        lemma_same_class_matches(leading, x, c);
                    }
                    assert forall|c: char| class_matches(continuation, c) == class_matches(y, c) by {
                        lemma_same_class_matches(continuation, y, c);
                    }
                    assert(class_matches_entire(leading, continuation, sp) == class_matches_entire(x, y, sp));
                }
                if found {
                    return true;
                }
                i = i + 1;
            }
            false
        },
    }
}

pub open spec fn carrier_encloses_exact(dynamic: Trigger, other: Trigger) -> bool {
    match carrier_parts(dynamic) {
        Some((opening, closing)) => exists|i: int|
            0 <= i < exact_spellings(other).len() && starts_with(
                #[trigger] exact_spellings(other)[i],
                opening,
            ) && ends_with(exact_spellings(other)[i], closing),
        None => false,
    }
}

pub open spec fn comment_prefixes_exact(dynamic: Trigger, other: Trigger) -> bool {
    match comment_opening(dynamic) {
        Some(opening) => exists|i: int|
            0 <= i < exact_spellings(other).len() && starts_with(
                #[trigger] exact_spellings(other)[i],
                opening,
            ),
        None => false,
    }
}

pub open spec fn opening_starts_class(dynamic: Trigger, other: Trigger) -> bool {
    match (dynamic_opening(dynamic), character_classes(other)) {
        (Some(opening), Some((leading, _))) => opening.len() > 0 && class_matches(
            leading,
            opening[0],
        ),
        _ => false,
    }
}

fn carrier_encloses(dynamic: &Trigger, other: &Trigger) -> (r: bool)
    ensures
        r == carrier_encloses_exact(*dynamic, *other),
{
    let spellings = other.exact_spellings();
    match dynamic.carrier_parts() {
        None => false,
        Some((opening, closing)) => {
            let mut i: usize = 0;
            while i < spellings.len()
                invariant
                    i <= spellings@.len(),
                    carrier_parts(*dynamic) matches Some((o, c)) && o == opening@ && c == closing@,
                    spellings@.len() == exact_spellings(*other).len(),
                    forall|k: int| 0 <= k < spellings@.len() ==> (#[trigger] spellings@[k])@ == exact_spellings(*other)[k],
                    forall|k: int| 0 <= k < i ==> !(starts_with(#[trigger] exact_spellings(*other)[k], opening@) && ends_with(exact_spellings(*other)[k], closing@)),
                decreases spellings.len() - i,
            {
                if seq_starts_with(&spellings[i], &opening) && seq_ends_with(&spellings[i], &closing) {
                    assert(spellings@[i as int]@ == exact_spellings(*other)[i as int]);
                    return true;
                }
                i = i + 1;
            }
            false
        },
    }
}

fn comment_prefixes(dynamic: &Trigger, other: &Trigger) -> (r: bool)
    ensures
        r == comment_prefixes_exact(*dynamic, *other),
{
    let spellings = other.exact_spellings();
    match dynamic.comment_opening() {
        None => false,
        Some(opening) => {
            let mut i: usize = 0;
            while i < spellings.len()
                invariant
                    i <= spellings@.len(),
                    comment_opening(*dynamic) matches Some(o) && o == opening@,
                    spellings@.len() == exact_spellings(*other).len(),
                    forall|k: int| 0 <= k < spellings@.len() ==> (#[trigger] spellings@[k])@ == exact_spellings(*other)[k],
                    forall|k: int| 0 <= k < i ==> !starts_with(#[trigger] exact_spellings(*other)[k], opening@),
                decreases spellings.len() - i,
            {
                if seq_starts_with(&spellings[i], &opening) {
                    assert(spellings@[i as int]@ == exact_spellings(*other)[i as int]);
                    return true;
                }
                i = i + 1;
            }
            false
        },
    }
}

fn opening_in_class(dynamic: &Trigger, other: &Trigger) -> (r: bool)
    ensures
        r == opening_starts_class(*dynamic, *other),
{
    match (dynamic.dynamic_opening(), other.character_classes()) {
        (Some(opening), Some((leading, _))) => {
            if opening.len() == 0 {
                false
            } else {
                let r = leading.matches(opening[0]);
                proof {
                    let (x, _) = character_classes(*other)->0;
                    lemma_same_class_matches(leading, x, opening@[0]);
                }
                r
            }
        },
        _ => false,
    }
}

fn dynamic_ties(dynamic: &Trigger, other: &Trigger) -> (r: bool)
    ensures
        r == dynamic_can_tie(*dynamic, *other),
{
    carrier_encloses(dynamic, other) || comment_prefixes(dynamic, other) || opening_in_class(dynamic, other)
}

/// Whether two triggers could tie at one cursor position.
fn triggers_can_tie(left: &Trigger, right: &Trigger) -> (r: bool)
    ensures
        r == can_tie(*left, *right),
{
    if share_exact(left, right) {
        return true;
    }
    match (left.character_classes(), right.character_classes()) {
        (Some((l, _)), Some((r, _))) => {
            let o = l.overlaps(&r);
            proof {
                let (x, _) = character_classes(*left)->0;
                let (y, _) = character_classes(*right)->0;
                lemma_same_class_overlaps(l, r, x, y);
            }
            if o {
                return true;
            }
        },
        _ => {},
    }
    if covers_exact(right, left) || covers_exact(left, right) {
        return true;
    }
    match (left.carrier_parts(), right.carrier_parts()) {
        (Some((l, _)), Some((r, _))) => {
            if overlapping_prefixes(&l, &r) {
                return true;
            }
        },
        _ => {},
    }
    match (left.comment_opening(), right.comment_opening()) {
        (Some(l), Some(r)) => {
            if overlapping_prefixes(&l, &r) {
                return true;
            }
        },
        _ => {},
    }
    match (left.carrier_parts(), right.comment_opening()) {
        (Some((carrier, _)), Some(comment)) => {
            if overlapping_prefixes(&carrier, &comment) {
                return true;
            }
        },
        _ => {},
    }
    match (left.comment_opening(), right.carrier_parts()) {
        (Some(comment), Some((carrier, _))) => {
            if overlapping_prefixes(&carrier, &comment) {
                return true;
            }
        },
        _ => {},
    }
    dynamic_ties(left, right) || dynamic_ties(right, left)
}


/// An identified trigger stored in profile data.
#[derive(Debug, PartialEq, Eq)]
pub struct TriggerDefinition {
    pub identifier: TriggerIdentifier,
    pub trigger: Trigger,
}

pub open spec fn same_definition(a: TriggerDefinition, b: TriggerDefinition) -> bool {
    a.identifier == b.identifier && same_trigger(a.trigger, b.trigger)
}

impl Clone for TriggerDefinition {
    fn clone(&self) -> (r: Self)
        ensures
            same_definition(r, *self),
    {
        TriggerDefinition { identifier: self.identifier, trigger: self.trigger.clone() }
    }
}

/// Identifiers in strictly increasing order.
pub open spec fn identifiers_strictly_increasing(s: Seq<TriggerIdentifier>) -> bool {
    forall|i: int, j: int| 0 <= i < j < s.len() ==> s[i]@ < s[j]@
}

/// The strictly increasing sequence holding exactly the identifiers of `input`.
#[verifier::spinoff_prover]
fn sorted_unique_identifiers(input: &Vec<TriggerIdentifier>) -> (r: Vec<TriggerIdentifier>)
    ensures
        identifiers_strictly_increasing(r@),
        forall|c: TriggerIdentifier| r@.contains(c) <==> input@.contains(c),
{
    let mut r: Vec<TriggerIdentifier> = Vec::new();
    let mut k: usize = 0;
    while k < input.len()
        invariant
            k <= input.len(),
            identifiers_strictly_increasing(r@),
            forall|c: TriggerIdentifier| r@.contains(c) <==> input@.take(k as int).contains(c),
        decreases input.len() - k,
    {
        let x = input[k];
        let mut i: usize = 0;
        while i < r.len() && r[i].value() < x.value()
            invariant
                i <= r.len(),
                forall|j: int| 0 <= j < i ==> r@[j]@ < x@,
            decreases r.len() - i,
        {
            i = i + 1;
        }
        let ghost before = r@;
        if i < r.len() && r[i] == x {
        } else {
            r.insert(i, x);
            proof {
                assert forall|a: int, b: int| 0 <= a < b < r@.len() implies r@[a]@ < r@[b]@ by {
                    if a < i && b > i {
                        assert(r@[b] == before[b - 1]);
                    } else if a == i && b > i {
                        assert(r@[b] == before[b - 1]);
                        if b - 1 > i as int {
                            assert(before[i as int]@ < before[b - 1]@);
                        }
                        TriggerIdentifier::lemma_view_injective(x, before[i as int]);
                    } else if b < i {
                    } else if a < i && b == i {
                    } else {
                        assert(r@[a] == before[a - 1]);
                        assert(r@[b] == before[b - 1]);
                    }
                }
                assert forall|c: TriggerIdentifier| r@.contains(c) <==> before.contains(c) || c
                    == x by {
                    if r@.contains(c) {
                        let j = choose|j: int| 0 <= j < r@.len() && r@[j] == c;
                        if j < i {
                            assert(before[j] == c);
                        } else if j > i {
                            assert(before[j - 1] == c);
                        }
                    }
                    if before.contains(c) {
                        let j = choose|j: int| 0 <= j < before.len() && before[j] == c;
                        if j < i {
                            assert(r@[j] == c);
                        } else {
                            assert(r@[j + 1] == c);
                        }
                    }
                    if c == x {
                        assert(r@[i as int] == c);
                    }
                }
            }
        }
        proof {
            assert(input@.take(k + 1) =~= input@.take(k as int).push(x));
            assert forall|c: TriggerIdentifier| r@.contains(c) <==> input@.take(k + 1).contains(c) by {
                if input@.take(k + 1).contains(c) {
                    let j = choose|j: int| 0 <= j < k + 1 && #[trigger] input@.take(k + 1)[j] == c;
                    if j < k {
                        assert(input@.take(k as int)[j] == c);
                    }
                }
                if input@.take(k as int).contains(c) {
                    let j = choose|j: int| 0 <= j < k && #[trigger] input@.take(k as int)[j] == c;
                    assert(input@.take(k + 1)[j] == c);
                }
                if r@.contains(c) && !before.contains(c) {
                    assert(c == x);
                    assert(input@.take(k + 1)[k as int] == c);
                }
                if c == x {
                    assert(input@.take(k + 1)[k as int] == c);
                }
            }
        }
        k = k + 1;
    }
    assert(input@.take(input.len() as int) =~= input@);
    r
}

fn copy_identifiers(v: &Vec<TriggerIdentifier>) -> (r: Vec<TriggerIdentifier>)
    ensures
        r@ == v@,
{
    let mut r: Vec<TriggerIdentifier> = Vec::new();
    let mut i: usize = 0;
    while i < v.len()
        invariant
            i <= v.len(),
            r@ == v@.take(i as int),
        decreases v.len() - i,
    {
        r.push(v[i]);
        i = i + 1;
        assert(r@ =~= v@.take(i as int));
    }
    assert(v@.take(i as int) =~= v@);
    r
}

/// Whether `id` occurs in `ids`.
pub fn identifiers_contain(ids: &[TriggerIdentifier], id: TriggerIdentifier) -> (r: bool)
    ensures
        r == ids@.contains(id),
{
    let mut i: usize = 0;
    while i < ids.len()
        invariant
            i <= ids@.len(),
            forall|j: int| 0 <= j < i ==> ids@[j] != id,
        decreases ids.len() - i,
    {
        if ids[i] == id {
            return true;
        }
        i = i + 1;
    }
    false
}

/// An unordered set of triggers activated by one sealed structural position.
///
/// Vector order is not precedence. Seal validation and matching treat it as a
/// set; longest complete match is the only selection law.
#[derive(Debug, PartialEq, Eq)]
pub struct TriggerSet {
    triggers: Vec<TriggerIdentifier>,
}

impl View for TriggerSet {
    type V = Seq<TriggerIdentifier>;

    closed spec fn view(&self) -> Seq<TriggerIdentifier> {
        self.triggers@
    }
}

impl Clone for TriggerSet {
    fn clone(&self) -> (r: Self)
        ensures
            r@ == self@,
    {
        TriggerSet { triggers: copy_identifiers(&self.triggers) }
    }
}

impl TriggerSet {
    pub fn new(triggers: Vec<TriggerIdentifier>) -> (r: Self)
        ensures
            identifiers_strictly_increasing(r@),
            forall|c: TriggerIdentifier| r@.contains(c) <==> triggers@.contains(c),
    {
        TriggerSet { triggers: sorted_unique_identifiers(&triggers) }
    }

    pub fn triggers(&self) -> (r: &[TriggerIdentifier])
        ensures
            r@ == self@,
    {
        self.triggers.as_slice()
    }

    /// Whether the identifiers are in canonical strictly increasing order.
    pub fn is_canonical(&self) -> (r: bool)
        ensures
            r == identifiers_strictly_increasing(self@),
    {
        let s = &self.triggers;
        if s.len() == 0 {
            return true;
        }
        let mut i: usize = 1;
        while i < s.len()
            invariant
                1 <= i <= s.len(),
                s@ == self@,
                forall|a: int, b: int| 0 <= a < b < i ==> s@[a]@ < s@[b]@,
            decreases s.len() - i,
        {
            if s[i - 1].value() >= s[i].value() {
                assert(!(s@[i - 1]@ < s@[i as int]@));
                assert(self@ == s@);
                assert(!identifiers_strictly_increasing(self@));
                return false;
            }
            proof {
                assert forall|a: int, b: int| 0 <= a < b < i + 1 implies s@[a]@ < s@[b]@ by {
                    if b == i && a < i - 1 {
                        assert(s@[a]@ < s@[i - 1]@);
                    }
                }
            }
            i = i + 1;
        }
        true
    }
}

/// The complete identity-bearing lexical profile data.
#[derive(Debug, PartialEq, Eq)]
pub struct TokenProfileData {
    revision: ProfileRevision,
    definitions: Vec<TriggerDefinition>,
    root_triggers: TriggerSet,
    forbidden_bare_characters: String,
}

impl TokenProfileData {
    pub closed spec fn spec_revision(self) -> ProfileRevision {
        self.revision
    }

    pub closed spec fn spec_definitions(self) -> Seq<TriggerDefinition> {
        self.definitions@
    }

    pub closed spec fn spec_root_triggers(self) -> Seq<TriggerIdentifier> {
        self.root_triggers@
    }

    pub closed spec fn spec_forbidden(self) -> Seq<char> {
        self.forbidden_bare_characters@
    }
}

/// Two profile data values with the same revision, definitions, root set and
/// forbidden characters.
pub open spec fn same_data(a: TokenProfileData, b: TokenProfileData) -> bool {
    &&& a.spec_revision() == b.spec_revision()
    &&& a.spec_definitions().len() == b.spec_definitions().len()
    &&& forall|i: int|
        0 <= i < a.spec_definitions().len() ==> same_definition(
            #[trigger] a.spec_definitions()[i],
            b.spec_definitions()[i],
        )
    &&& a.spec_root_triggers() == b.spec_root_triggers()
    &&& a.spec_forbidden() == b.spec_forbidden()
}

fn copy_definitions(v: &Vec<TriggerDefinition>) -> (r: Vec<TriggerDefinition>)
    ensures
        r@.len() == v@.len(),
        forall|i: int| 0 <= i < v@.len() ==> same_definition(#[trigger] r@[i], v@[i]),
{
    let mut r: Vec<TriggerDefinition> = Vec::new();
    let mut i: usize = 0;
    while i < v.len()
        invariant
            i <= v.len(),
            r@.len() == i,
            forall|j: int| 0 <= j < i ==> same_definition(#[trigger] r@[j], v@[j]),
        decreases v.len() - i,
    {
        r.push(v[i].clone());
        i = i + 1;
    }
    r
}

impl Clone for TokenProfileData {
    fn clone(&self) -> (r: Self)
        ensures
            same_data(r, *self),
    {
        TokenProfileData {
            revision: self.revision,
            definitions: copy_definitions(&self.definitions),
            root_triggers: self.root_triggers.clone(),
            forbidden_bare_characters: self.forbidden_bare_characters.clone(),
        }
    }
}


/// The index of the first definition of `id`, searching from position `i`.
pub open spec fn definition_index_from(
    defs: Seq<TriggerDefinition>,
    id: TriggerIdentifier,
    i: int,
) -> Option<int>
    decreases defs.len() - i,
{
    if i < 0 || i >= defs.len() {
        None
    } else if defs[i].identifier == id {
        Some(i)
    } else {
        definition_index_from(defs, id, i + 1)
    }
}

/// The index of the first definition of `id`.
pub open spec fn definition_index(defs: Seq<TriggerDefinition>, id: TriggerIdentifier) -> Option<
    int,
> {
    definition_index_from(defs, id, 0)
}

pub proof fn lemma_definition_index_from(defs: Seq<TriggerDefinition>, id: TriggerIdentifier, i: int)
    requires
        0 <= i,
    ensures
        definition_index_from(defs, id, i) matches Some(k) ==> i <= k < defs.len()
            && defs[k].identifier == id && forall|j: int|
            i <= j < k ==> (#[trigger] defs[j]).identifier != id,
        definition_index_from(defs, id, i) is None ==> forall|j: int|
            i <= j < defs.len() ==> (#[trigger] defs[j]).identifier != id,
    decreases defs.len() - i,
{
    if i < defs.len() && defs[i].identifier != id {
        lemma_definition_index_from(defs, id, i + 1);
    }
}

pub proof fn lemma_definition_index(defs: Seq<TriggerDefinition>, id: TriggerIdentifier)
    ensures
        definition_index(defs, id) matches Some(k) ==> 0 <= k < defs.len() && defs[k].identifier
            == id && forall|j: int| 0 <= j < k ==> (#[trigger] defs[j]).identifier != id,
        definition_index(defs, id) is None ==> forall|j: int|
            0 <= j < defs.len() ==> (#[trigger] defs[j]).identifier != id,
{
    lemma_definition_index_from(defs, id, 0);
}

/// The trigger that `id` names, when defined.
pub open spec fn trigger_of(defs: Seq<TriggerDefinition>, id: TriggerIdentifier) -> Option<Trigger> {
    match definition_index(defs, id) {
        Some(k) => Some(defs[k].trigger),
        None => None,
    }
}

/// The first malformed definition from position `i`: its own text, then a
/// repeated identifier.
pub open spec fn definitions_error_from(defs: Seq<TriggerDefinition>, i: int) -> Option<
    TokenProfileError,
>
    decreases defs.len() - i,
{
    if i < 0 || i >= defs.len() {
        None
    } else {
        match validate_trigger(defs[i].trigger, defs[i].identifier) {
            Some(e) => Some(e),
            None => if exists|j: int|
                0 <= j < i && (#[trigger] defs[j]).identifier == defs[i].identifier {
                Some(TokenProfileError::DuplicateTriggerIdentifier(defs[i].identifier))
            } else {
                definitions_error_from(defs, i + 1)
            },
        }
    }
}

/// The first identifier of `ids` from position `i` that no definition names.
pub open spec fn unknown_from(
    defs: Seq<TriggerDefinition>,
    ids: Seq<TriggerIdentifier>,
    i: int,
) -> Option<TriggerIdentifier>
    decreases ids.len() - i,
{
    if i < 0 || i >= ids.len() {
        None
    } else if definition_index(defs, ids[i]) is None {
        Some(ids[i])
    } else {
        unknown_from(defs, ids, i + 1)
    }
}

/// The first pair `(ids[i], ids[j])`, `i < j`, in lexicographic order from
/// `(i, j)`, whose triggers can tie.
pub open spec fn tie_from(
    defs: Seq<TriggerDefinition>,
    ids: Seq<TriggerIdentifier>,
    i: int,
    j: int,
) -> Option<(TriggerIdentifier, TriggerIdentifier)>
    decreases ids.len() - i, ids.len() + 1 - j,
{
    if i < 0 || i >= ids.len() || j <= i {
        None
    } else if j >= ids.len() {
        tie_from(defs, ids, i + 1, i + 2)
    } else if can_tie(trigger_of(defs, ids[i])->0, trigger_of(defs, ids[j])->0) {
        Some((ids[i], ids[j]))
    } else {
        tie_from(defs, ids, i, j + 1)
    }
}

/// Why an active set could not be sealed against these definitions.
pub open spec fn trigger_set_error(defs: Seq<TriggerDefinition>, ids: Seq<TriggerIdentifier>) -> Option<
    TokenProfileError,
> {
    match unknown_from(defs, ids, 0) {
        Some(id) => Some(TokenProfileError::UnknownTriggerIdentifier(id)),
        None => match tie_from(defs, ids, 0, 1) {
            Some((first, second)) => Some(TokenProfileError::AmbiguousTriggerSet { first, second }),
            None => None,
        },
    }
}

/// Why profile data could not be sealed.
pub open spec fn seal_error(data: TokenProfileData) -> Option<TokenProfileError> {
    match definitions_error_from(data.spec_definitions(), 0) {
        Some(e) => Some(e),
        None => trigger_set_error(data.spec_definitions(), data.spec_root_triggers()),
    }
}

/// Whether a trigger may affect where an enclosing boundary closes.
pub open spec fn is_discovery_trigger(t: Trigger) -> bool {
    t is Boundary || t is Carrier || t is Whitespace || t is LineComment
}

/// The first identifier of `ids` from `i` whose trigger is horizontal.
pub open spec fn horizontal_from(
    defs: Seq<TriggerDefinition>,
    ids: Seq<TriggerIdentifier>,
    i: int,
) -> Option<TriggerIdentifier>
    decreases ids.len() - i,
{
    if i < 0 || i >= ids.len() {
        None
    } else if !is_discovery_trigger(trigger_of(defs, ids[i])->0) {
        Some(ids[i])
    } else {
        horizontal_from(defs, ids, i + 1)
    }
}

/// Why a boundary-discovery set could not be sealed.
pub open spec fn discovery_set_error(
    defs: Seq<TriggerDefinition>,
    ids: Seq<TriggerIdentifier>,
) -> Option<TokenProfileError> {
    match trigger_set_error(defs, ids) {
        Some(e) => Some(e),
        None => match horizontal_from(defs, ids, 0) {
            Some(id) => Some(TokenProfileError::UnsupportedBoundaryDiscoveryTrigger(id)),
            None => None,
        },
    }
}

fn find_definition(defs: &Vec<TriggerDefinition>, id: TriggerIdentifier) -> (r: Option<usize>)
    ensures
        match r {
            Some(k) => definition_index(defs@, id) == Some(k as int),
            None => definition_index(defs@, id) is None,
        },
{
    let mut i: usize = 0;
    while i < defs.len()
        invariant
            i <= defs.len(),
            definition_index(defs@, id) == definition_index_from(defs@, id, i as int),
        decreases defs.len() - i,
    {
        if defs[i].identifier == id {
            return Some(i);
        }
        i = i + 1;
    }
    None
}

fn same_strings(a: &String, b: &String) -> (r: bool)
    ensures
        r == (a@ == b@),
{
    str_equal(a.as_str(), b.as_str())
}

fn same_character_sets(a: &CharacterSet, b: &CharacterSet) -> (r: bool)
    ensures
        r == (a@ == b@),
{
    let x = a.characters();
    let y = b.characters();
    if x.len() != y.len() {
        return false;
    }
    let mut i: usize = 0;
    while i < x.len()
        invariant
            i <= x@.len(),
            x@ == a@,
            y@ == b@,
            x@.len() == y@.len(),
            forall|j: int| 0 <= j < i ==> x@[j] == y@[j],
        decreases x.len() - i,
    {
        if x[i] != y[i] {
            return false;
        }
        i = i + 1;
    }
    assert(x@ =~= y@);
    true
}

fn same_classes(a: &CharacterClass, b: &CharacterClass) -> (r: bool)
    ensures
        r == same_class(*a, *b),
{
    match (a, b) {
        (CharacterClass::AsciiDigit, CharacterClass::AsciiDigit) => true,
        (CharacterClass::AsciiAlphabetic, CharacterClass::AsciiAlphabetic) => true,
        (CharacterClass::AsciiAlphanumeric, CharacterClass::AsciiAlphanumeric) => true,
        (CharacterClass::Whitespace, CharacterClass::Whitespace) => true,
        (CharacterClass::Characters(x), CharacterClass::Characters(y)) => same_character_sets(x, y),
        _ => false,
    }
}

fn same_triggers(a: &Trigger, b: &Trigger) -> (r: bool)
    ensures
        r == same_trigger(*a, *b),
{
    match (a, b) {
        (
            Trigger::Boundary { opening: o1, closing: c1 },
            Trigger::Boundary { opening: o2, closing: c2 },
        ) => same_strings(o1, o2) && same_strings(c1, c2),
        (Trigger::Application { glyph: g1 }, Trigger::Application { glyph: g2 }) => same_strings(
            g1,
            g2,
        ),
        (Trigger::Punctuation { glyph: g1 }, Trigger::Punctuation { glyph: g2 }) => same_strings(
            g1,
            g2,
        ),
        (
            Trigger::Carrier { opening: o1, closing: c1, escape: e1 },
            Trigger::Carrier { opening: o2, closing: c2, escape: e2 },
        ) => same_strings(o1, o2) && same_strings(c1, c2) && match (e1, e2) {
            (Some(x), Some(y)) => same_strings(x, y),
            (None, None) => true,
            _ => false,
        },
        (
            Trigger::Whitespace { canonical_spelling: s1 },
            Trigger::Whitespace { canonical_spelling: s2 },
        ) => same_strings(s1, s2),
        (Trigger::LineComment { opening: o1 }, Trigger::LineComment { opening: o2 }) =>
            same_strings(o1, o2),
        (
            Trigger::LeadingCharacterClass { leading: l1, continuation: c1 },
            Trigger::LeadingCharacterClass { leading: l2, continuation: c2 },
        ) => same_classes(l1, l2) && same_classes(c1, c2),
        _ => false,
    }
}

#[verifier::loop_isolation(false)]
fn same_profile_data(a: &TokenProfileData, b: &TokenProfileData) -> (r: bool)
    ensures
        r == same_data(*a, *b),
{
    if a.revision != b.revision || a.definitions.len() != b.definitions.len() {
        return false;
    }
    let mut i: usize = 0;
    while i < a.definitions.len()
        invariant
            i <= a.definitions@.len(),
            a.definitions@.len() == b.definitions@.len(),
            forall|j: int| 0 <= j < i ==> same_definition(#[trigger] a.definitions@[j], b.definitions@[j]),
        decreases a.definitions.len() - i,
    {
        if a.definitions[i].identifier != b.definitions[i].identifier || !same_triggers(
            &a.definitions[i].trigger,
            &b.definitions[i].trigger,
        ) {
            return false;
        }
        i = i + 1;
    }
    let x = a.root_triggers.triggers();
    let y = b.root_triggers.triggers();
    if x.len() != y.len() {
        return false;
    }
    let mut k: usize = 0;
    while k < x.len()
        invariant
            k <= x@.len(),
            x@.len() == y@.len(),
            forall|j: int| 0 <= j < k ==> x@[j] == y@[j],
        decreases x.len() - k,
    {
        if x[k] != y[k] {
            return false;
        }
        k = k + 1;
    }
    assert(x@ =~= y@);
    same_strings(&a.forbidden_bare_characters, &b.forbidden_bare_characters)
}

pub proof fn lemma_same_data_definitions(a: TokenProfileData, b: TokenProfileData, id: TriggerIdentifier)
    requires
        same_data(a, b),
    ensures
        definition_index(a.spec_definitions(), id) == definition_index(b.spec_definitions(), id),
        trigger_of(a.spec_definitions(), id) matches Some(x) ==> trigger_of(b.spec_definitions(), id) matches Some(y) && same_trigger(x, y),
{
    let da = a.spec_definitions();
    let db = b.spec_definitions();
    lemma_definition_index(da, id);
    lemma_definition_index(db, id);
    assert forall|j: int| 0 <= j < da.len() implies (#[trigger] da[j]).identifier == db[j].identifier by {
        assert(same_definition(da[j], db[j]));
    }
    if let Some(k) = definition_index(da, id) {
        assert(same_definition(da[k], db[k]));
        if let Some(m) = definition_index(db, id) {
            if m < k {
                assert(same_definition(da[m], db[m]));
            }
        }
    } else {
        if let Some(m) = definition_index(db, id) {
            assert(same_definition(da[m], db[m]));
        }
    }
}

/// The identity of sealed token-profile data: the canonical data itself.
/// Two identities agree exactly when their data agree.
#[derive(Debug)]
pub struct ProfileIdentity {
    data: TokenProfileData,
}

impl ProfileIdentity {
    pub closed spec fn data(self) -> TokenProfileData {
        self.data
    }

    /// Whether two identities name the same profile data.
    pub fn matches(&self, other: &ProfileIdentity) -> (r: bool)
        ensures
            r == same_data(self.data(), other.data()),
    {
        same_profile_data(&self.data, &other.data)
    }
}

impl PartialEq for ProfileIdentity {
    fn eq(&self, other: &Self) -> (r: bool) {
        self.matches(other)
    }
}

impl vstd::std_specs::cmp::PartialEqSpecImpl for ProfileIdentity {
    open spec fn obeys_eq_spec() -> bool {
        true
    }

    open spec fn eq_spec(&self, other: &Self) -> bool {
        same_data(self.data(), other.data())
    }
}

impl Clone for ProfileIdentity {
    fn clone(&self) -> (r: Self)
        ensures
            same_data(r.data(), self.data()),
    {
        ProfileIdentity { data: self.data.clone() }
    }
}

impl TokenProfileData {
    pub fn new(
        revision: ProfileRevision,
        definitions: Vec<TriggerDefinition>,
        root_triggers: TriggerSet,
        forbidden_bare_characters: String,
    ) -> (r: Self)
        ensures
            r.spec_revision() == revision,
            r.spec_definitions() == definitions@,
            r.spec_root_triggers() == root_triggers@,
            r.spec_forbidden() == forbidden_bare_characters@,
    {
        Self { revision, definitions, root_triggers, forbidden_bare_characters }
    }

    pub fn seal(self) -> (r: Result<SealedTokenProfile, TokenProfileError>)
        ensures
            match r {
                Ok(sealed) => seal_error(self) is None && same_data(sealed.data(), self),
                Err(e) => seal_error(self) == Some(e),
            },
    {
        SealedTokenProfile::seal(self)
    }
}

#[verifier::loop_isolation(false)]
fn check_definitions(defs: &Vec<TriggerDefinition>) -> (r: Result<(), TokenProfileError>)
    ensures
        match definitions_error_from(defs@, 0) {
            Some(e) => r == Err::<(), TokenProfileError>(e),
            None => r is Ok,
        },
{
    let mut index: usize = 0;
    while index < defs.len()
        invariant
            index <= defs.len(),
            definitions_error_from(defs@, 0) == definitions_error_from(defs@, index as int),
        decreases defs.len() - index,
    {
        let definition = &defs[index];
        match definition.trigger.validate(definition.identifier) {
            Err(e) => {
                return Err(e);
            },
            Ok(()) => {},
        }
        let mut prior: usize = 0;
        while prior < index
            invariant
                prior <= index < defs.len(),
                forall|j: int| 0 <= j < prior ==> (#[trigger] defs@[j]).identifier != defs@[index as int].identifier,
            decreases index - prior,
        {
            if defs[prior].identifier == defs[index].identifier {
                assert(defs@[prior as int].identifier == defs@[index as int].identifier);
                return Err(TokenProfileError::DuplicateTriggerIdentifier(defs[index].identifier));
            }
            prior = prior + 1;
        }
        assert(!exists|j: int| 0 <= j < index && (#[trigger] defs@[j]).identifier == defs@[index as int].identifier);
        index = index + 1;
    }
    Ok(())
}

#[verifier::loop_isolation(false)]
fn check_trigger_set(defs: &Vec<TriggerDefinition>, ids: &[TriggerIdentifier]) -> (r: Result<(), TokenProfileError>)
    ensures
        match trigger_set_error(defs@, ids@) {
            Some(e) => r == Err::<(), TokenProfileError>(e),
            None => r is Ok,
        },
{
    let mut i: usize = 0;
    while i < ids.len()
        invariant
            i <= ids@.len(),
            unknown_from(defs@, ids@, 0) == unknown_from(defs@, ids@, i as int),
        decreases ids.len() - i,
    {
        if find_definition(defs, ids[i]).is_none() {
            return Err(TokenProfileError::UnknownTriggerIdentifier(ids[i]));
        }
        i = i + 1;
    }
    assert(unknown_from(defs@, ids@, 0) is None);
    proof {
        lemma_unknown_none(defs@, ids@, 0);
    }
    let mut position: usize = 0;
    while position < ids.len()
        invariant
            position <= ids@.len(),
            unknown_from(defs@, ids@, 0) is None,
            forall|k: int| 0 <= k < ids@.len() ==> definition_index(defs@, #[trigger] ids@[k]) is Some,
            tie_from(defs@, ids@, 0, 1) == tie_from(defs@, ids@, position as int, position + 1),
        decreases ids.len() - position,
    {
        let left = find_definition(defs, ids[position]).unwrap();
        proof {
            lemma_definition_index(defs@, ids@[position as int]);
        }
        let mut right_position: usize = position + 1;
        while right_position < ids.len()
            invariant
                position < right_position <= ids@.len(),
                forall|k: int| 0 <= k < ids@.len() ==> definition_index(defs@, #[trigger] ids@[k]) is Some,
                definition_index(defs@, ids@[position as int]) == Some(left as int),
                tie_from(defs@, ids@, 0, 1) == tie_from(defs@, ids@, position as int, right_position as int),
            decreases ids.len() - right_position,
        {
            let right = find_definition(defs, ids[right_position]).unwrap();
            proof {
                lemma_definition_index(defs@, ids@[right_position as int]);
            }
            if triggers_can_tie(&defs[left].trigger, &defs[right].trigger) {
                return Err(
                    TokenProfileError::AmbiguousTriggerSet {
                        first: ids[position],
                        second: ids[right_position],
                    },
                );
            }
            right_position = right_position + 1;
        }
        position = position + 1;
    }
    Ok(())
}

proof fn lemma_unknown_none(defs: Seq<TriggerDefinition>, ids: Seq<TriggerIdentifier>, i: int)
    requires
        0 <= i,
        unknown_from(defs, ids, i) is None,
    ensures
        forall|k: int| i <= k < ids.len() ==> definition_index(defs, #[trigger] ids[k]) is Some,
    decreases ids.len() - i,
{
    if i < ids.len() {
        lemma_unknown_none(defs, ids, i + 1);
    }
}

proof fn lemma_definitions_valid_from(defs: Seq<TriggerDefinition>, i: int)
    requires
        0 <= i,
        definitions_error_from(defs, i) is None,
    ensures
        forall|k: int| i <= k < defs.len() ==> trigger_is_valid(#[trigger] defs[k].trigger),
    decreases defs.len() - i,
{
    if i < defs.len() {
        lemma_validate_trigger(defs[i].trigger, defs[i].identifier);
        lemma_definitions_valid_from(defs, i + 1);
    }
}

/// Every trigger that sealed data defines is valid: its spellings are
/// non-empty and a boundary's two sides differ.
pub proof fn lemma_sealed_triggers_valid(data: TokenProfileData, id: TriggerIdentifier)
    requires
        seal_error(data) is None,
    ensures
        trigger_of(data.spec_definitions(), id) matches Some(t) ==> trigger_is_valid(t),
{
    lemma_definitions_valid_from(data.spec_definitions(), 0);
    lemma_definition_index(data.spec_definitions(), id);
}

/// A token profile whose definitions and root active set passed sealing.
#[derive(Debug)]
pub struct SealedTokenProfile {
    data: TokenProfileData,
}

impl SealedTokenProfile {
    #[verifier::type_invariant]
    pub open spec fn is_sealed(self) -> bool {
        seal_error(self.data()) is None
    }

    pub closed spec fn data(self) -> TokenProfileData {
        self.data
    }

    fn seal(data: TokenProfileData) -> (r: Result<Self, TokenProfileError>)
        ensures
            match r {
                Ok(sealed) => seal_error(data) is None && same_data(sealed.data(), data),
                Err(e) => seal_error(data) == Some(e),
            },
    {
        check_definitions(&data.definitions)?;
        check_trigger_set(&data.definitions, data.root_triggers.triggers())?;
        let ghost d = data;
        let sealed = SealedTokenProfile { data };
        proof {
            lemma_same_data_reflexive(d);
        }
        Ok(sealed)
    }

    /// The identity of this profile's data.
    pub fn identity(&self) -> (r: ProfileIdentity)
        ensures
            same_data(r.data(), self.data()),
    {
        ProfileIdentity { data: self.data.clone() }
    }

    pub fn revision(&self) -> (r: ProfileRevision)
        ensures
            r == self.data().spec_revision(),
    {
        self.data.revision
    }

    /// Seal `triggers` as one active set of this profile.
    pub fn seal_trigger_set(&self, triggers: TriggerSet) -> (r: Result<SealedTriggerSet, TokenProfileError>)
        ensures
            match r {
                Ok(set) => trigger_set_error(self.data().spec_definitions(), triggers@) is None
                    && set.spec_triggers() == triggers@ && same_data(set.identity_data(), self.data()),
                Err(e) => trigger_set_error(self.data().spec_definitions(), triggers@) == Some(e),
            },
    {
        check_trigger_set(&self.data.definitions, triggers.triggers())?;
        let identity = self.identity();
        proof {
            lemma_same_data_trigger_set(self.data(), identity.data(), triggers@);
        }
        Ok(SealedTriggerSet { profile_identity: identity, triggers })
    }

    /// The root active set, which sealing already validated.
    pub fn root_trigger_set(&self) -> (r: SealedTriggerSet)
        ensures
            r.spec_triggers() == self.data().spec_root_triggers(),
            same_data(r.identity_data(), self.data()),
    {
        proof {
            use_type_invariant(self);
        }
        match self.seal_trigger_set(self.data.root_triggers.clone()) {
            Ok(set) => set,
            Err(_) => vstd::pervasive::unreached(),
        }
    }

    /// Seal the subset of triggers that may participate while discovering an
    /// enclosing boundary before its interior is interpreted.
    ///
    /// Boundary discovery is deliberately narrower than ordinary position
    /// recognition: only nested boundaries, opaque carriers, and trivia may
    /// affect where the enclosing close lies.
    #[verifier::loop_isolation(false)]
    pub fn seal_boundary_discovery_set(&self, triggers: TriggerSet) -> (r: Result<
        SealedBoundaryDiscoverySet,
        TokenProfileError,
    >)
        ensures
            match r {
                Ok(set) => discovery_set_error(self.data().spec_definitions(), triggers@) is None
                    && set.spec_triggers() == triggers@ && same_data(
                    set.identity_data(),
                    self.data(),
                ),
                Err(e) => discovery_set_error(self.data().spec_definitions(), triggers@) == Some(e),
            },
    {
        let sealed = match self.seal_trigger_set(triggers) {
            Ok(sealed) => sealed,
            Err(e) => {
                return Err(e);
            },
        };
        let ids = sealed.triggers();
        proof {
            lemma_unknown_none(self.data().spec_definitions(), ids@, 0);
        }
        let mut i: usize = 0;
        while i < ids.len()
            invariant
                i <= ids@.len(),
                ids@ == sealed.spec_triggers(),
                forall|k: int| 0 <= k < ids@.len() ==> definition_index(self.data().spec_definitions(), #[trigger] ids@[k]) is Some,
                horizontal_from(self.data().spec_definitions(), ids@, 0) == horizontal_from(self.data().spec_definitions(), ids@, i as int),
            decreases ids.len() - i,
        {
            let k = find_definition(&self.data.definitions, ids[i]).unwrap();
            proof {
                lemma_definition_index(self.data().spec_definitions(), ids@[i as int]);
            }
            match &self.data.definitions[k].trigger {
                Trigger::Boundary { .. } | Trigger::Carrier { .. } | Trigger::Whitespace { .. }
                | Trigger::LineComment { .. } => {},
                _ => {
                    return Err(TokenProfileError::UnsupportedBoundaryDiscoveryTrigger(ids[i]));
                },
            }
            i = i + 1;
        }
        proof {
            lemma_horizontal_none(self.data(), sealed.identity_data(), ids@);
        }
        Ok(SealedBoundaryDiscoverySet { triggers: sealed })
    }

    /// The definition that `identifier` names.
    pub fn definition(&self, identifier: TriggerIdentifier) -> (r: Result<&TriggerDefinition, TokenProfileError>)
        ensures
            match r {
                Ok(d) => definition_index(self.data().spec_definitions(), identifier) matches Some(k)
                    && *d == self.data().spec_definitions()[k],
                Err(e) => definition_index(self.data().spec_definitions(), identifier) is None
                    && e == TokenProfileError::UnknownTriggerIdentifier(identifier),
            },
    {
        let found = find_definition(&self.data.definitions, identifier);
        proof {
            lemma_definition_index(self.data().spec_definitions(), identifier);
        }
        match found {
            Some(k) => Ok(&self.data.definitions[k]),
            None => Err(TokenProfileError::UnknownTriggerIdentifier(identifier)),
        }
    }

    pub fn bare_character_is_forbidden(&self, character: char) -> (r: bool)
        ensures
            r == self.data().spec_forbidden().contains(character),
    {
        chars_contain(&chars_of(self.data.forbidden_bare_characters.as_str()), character)
    }
}

pub proof fn lemma_same_data_reflexive(d: TokenProfileData)
    ensures
        same_data(d, d),
{
}

pub proof fn lemma_same_data_symmetric(a: TokenProfileData, b: TokenProfileData)
    requires
        same_data(a, b),
    ensures
        same_data(b, a),
{
    assert forall|i: int| 0 <= i < b.spec_definitions().len() implies same_definition(
        #[trigger] b.spec_definitions()[i],
        a.spec_definitions()[i],
    ) by {
        assert(same_definition(a.spec_definitions()[i], b.spec_definitions()[i]));
        lemma_same_trigger_symmetric(a.spec_definitions()[i].trigger, b.spec_definitions()[i].trigger);
    }
}

pub proof fn lemma_same_trigger_symmetric(a: Trigger, b: Trigger)
    requires
        same_trigger(a, b),
    ensures
        same_trigger(b, a),
{
}

pub proof fn lemma_same_trigger_parts(a: Trigger, x: Trigger)
    requires
        same_trigger(a, x),
    ensures
        exact_spellings(a) == exact_spellings(x),
        carrier_parts(a) == carrier_parts(x),
        comment_opening(a) == comment_opening(x),
        dynamic_opening(a) == dynamic_opening(x),
        character_classes(a) is Some <==> character_classes(x) is Some,
        character_classes(a) matches Some((l, c)) ==> same_class(l, (character_classes(x)->0).0)
            && same_class(c, (character_classes(x)->0).1),
        is_discovery_trigger(a) == is_discovery_trigger(x),
{
    match (a, x) {
        (Trigger::Boundary { opening: o1, closing: c1 }, Trigger::Boundary { opening: o2, closing: c2 }) => {
            assert(exact_spellings(a) =~= exact_spellings(x));
        },
        (Trigger::Application { .. }, Trigger::Application { .. }) => {
            assert(exact_spellings(a) =~= exact_spellings(x));
        },
        (Trigger::Punctuation { .. }, Trigger::Punctuation { .. }) => {
            assert(exact_spellings(a) =~= exact_spellings(x));
        },
        _ => {},
    }
}

proof fn lemma_class_entire_congruent(l: CharacterClass, c: CharacterClass, x: CharacterClass, y: CharacterClass, s: Seq<char>)
    requires
        same_class(l, x),
        same_class(c, y),
    ensures
        class_matches_entire(l, c, s) == class_matches_entire(x, y, s),
{
    assert forall|ch: char| class_matches(l, ch) == class_matches(x, ch) by {
        lemma_same_class_matches(l, x, ch);
    }
    assert forall|ch: char| class_matches(c, ch) == class_matches(y, ch) by {
        lemma_same_class_matches(c, y, ch);
    }
}

proof fn lemma_covers_congruent(a: Trigger, b: Trigger, x: Trigger, y: Trigger)
    requires
        same_trigger(a, x),
        same_trigger(b, y),
    ensures
        class_covers_exact(a, b) == class_covers_exact(x, y),
{
    lemma_same_trigger_parts(a, x);
    lemma_same_trigger_parts(b, y);
    if let Some((l, c)) = character_classes(a) {
        let (lx, cx) = character_classes(x)->0;
        assert forall|s: Seq<char>| class_matches_entire(l, c, s) == class_matches_entire(lx, cx, s) by {
            lemma_class_entire_congruent(l, c, lx, cx, s);
        }
    }
}

proof fn lemma_can_tie_congruent(a: Trigger, b: Trigger, x: Trigger, y: Trigger)
    requires
        same_trigger(a, x),
        same_trigger(b, y),
    ensures
        can_tie(a, b) == can_tie(x, y),
{
    lemma_same_trigger_parts(a, x);
    lemma_same_trigger_parts(b, y);
    lemma_covers_congruent(a, b, x, y);
    lemma_covers_congruent(b, a, y, x);
    if let (Some((l, _)), Some((r, _))) = (character_classes(a), character_classes(b)) {
        lemma_same_class_overlaps(l, r, (character_classes(x)->0).0, (character_classes(y)->0).0);
    }
    if let (Some(opening), Some((leading, _))) = (dynamic_opening(a), character_classes(b)) {
        if opening.len() > 0 {
            lemma_same_class_matches(leading, (character_classes(y)->0).0, opening[0]);
        }
    }
    if let (Some(opening), Some((leading, _))) = (dynamic_opening(b), character_classes(a)) {
        if opening.len() > 0 {
            lemma_same_class_matches(leading, (character_classes(x)->0).0, opening[0]);
        }
    }
}

pub proof fn lemma_same_data_trigger_of(a: TokenProfileData, b: TokenProfileData, id: TriggerIdentifier)
    requires
        same_data(a, b),
    ensures
        trigger_of(a.spec_definitions(), id) is Some <==> trigger_of(b.spec_definitions(), id) is Some,
        trigger_of(a.spec_definitions(), id) is None ==> trigger_of(a.spec_definitions(), id) == trigger_of(b.spec_definitions(), id),
        trigger_of(a.spec_definitions(), id) is Some ==> same_trigger(trigger_of(a.spec_definitions(), id)->0, trigger_of(b.spec_definitions(), id)->0),
{
    lemma_same_data_definitions(a, b, id);
}

proof fn lemma_same_data_ties(a: TokenProfileData, b: TokenProfileData, ids: Seq<TriggerIdentifier>, i: int, j: int)
    requires
        same_data(a, b),
        0 <= i,
    ensures
        tie_from(a.spec_definitions(), ids, i, j) == tie_from(b.spec_definitions(), ids, i, j),
    decreases ids.len() - i, ids.len() + 1 - j,
{
    let da = a.spec_definitions();
    let db = b.spec_definitions();
    if i >= ids.len() || j <= i {
    } else if j >= ids.len() {
        lemma_same_data_ties(a, b, ids, i + 1, i + 2);
    } else {
        lemma_same_data_trigger_of(a, b, ids[i]);
        lemma_same_data_trigger_of(a, b, ids[j]);
        let ta = trigger_of(da, ids[i])->0;
        let tb = trigger_of(db, ids[i])->0;
        let ua = trigger_of(da, ids[j])->0;
        let ub = trigger_of(db, ids[j])->0;
        if trigger_of(da, ids[i]) is Some && trigger_of(da, ids[j]) is Some {
            lemma_can_tie_congruent(ta, ua, tb, ub);
        } else if trigger_of(da, ids[i]) is Some {
            lemma_same_trigger_symmetric(ta, tb);
            lemma_can_tie_congruent(ta, ua, tb, ub);
        } else if trigger_of(da, ids[j]) is Some {
            lemma_can_tie_congruent(ta, ua, tb, ub);
        }
        lemma_same_data_ties(a, b, ids, i, j + 1);
    }
}

proof fn lemma_same_data_unknown(a: TokenProfileData, b: TokenProfileData, ids: Seq<TriggerIdentifier>, i: int)
    requires
        same_data(a, b),
        0 <= i,
    ensures
        unknown_from(a.spec_definitions(), ids, i) == unknown_from(b.spec_definitions(), ids, i),
    decreases ids.len() - i,
{
    if i < ids.len() {
        lemma_same_data_definitions(a, b, ids[i]);
        lemma_same_data_unknown(a, b, ids, i + 1);
    }
}

pub proof fn lemma_same_data_trigger_set(a: TokenProfileData, b: TokenProfileData, ids: Seq<TriggerIdentifier>)
    requires
        same_data(a, b),
    ensures
        trigger_set_error(a.spec_definitions(), ids) == trigger_set_error(b.spec_definitions(), ids),
{
    lemma_same_data_unknown(a, b, ids, 0);
    lemma_same_data_ties(a, b, ids, 0, 1);
}

proof fn lemma_same_data_definitions_error(a: TokenProfileData, b: TokenProfileData, i: int)
    requires
        same_data(a, b),
        0 <= i,
    ensures
        definitions_error_from(a.spec_definitions(), i) == definitions_error_from(
            b.spec_definitions(),
            i,
        ),
    decreases a.spec_definitions().len() - i,
{
    let da = a.spec_definitions();
    let db = b.spec_definitions();
    if i < da.len() {
        assert(same_definition(da[i], db[i]));
        if exists|j: int| 0 <= j < i && (#[trigger] da[j]).identifier == da[i].identifier {
            let j = choose|j: int| 0 <= j < i && (#[trigger] da[j]).identifier == da[i].identifier;
            assert(same_definition(da[j], db[j]));
            assert(db[j].identifier == db[i].identifier);
        }
        if exists|j: int| 0 <= j < i && (#[trigger] db[j]).identifier == db[i].identifier {
            let j = choose|j: int| 0 <= j < i && (#[trigger] db[j]).identifier == db[i].identifier;
            assert(same_definition(da[j], db[j]));
            assert(da[j].identifier == da[i].identifier);
        }
        lemma_validate_trigger(da[i].trigger, da[i].identifier);
        lemma_validate_trigger(db[i].trigger, db[i].identifier);
        lemma_same_data_definitions_error(a, b, i + 1);
    }
}

/// Profile data equal up to identity seal alike.
pub proof fn lemma_same_data_seal_error(a: TokenProfileData, b: TokenProfileData)
    requires
        same_data(a, b),
    ensures
        seal_error(a) == seal_error(b),
{
    lemma_same_data_definitions_error(a, b, 0);
    lemma_same_data_trigger_set(a, b, a.spec_root_triggers());
}

pub proof fn lemma_same_data_horizontal(a: TokenProfileData, b: TokenProfileData, ids: Seq<TriggerIdentifier>, i: int)
    requires
        same_data(a, b),
        0 <= i,
    ensures
        horizontal_from(a.spec_definitions(), ids, i) == horizontal_from(b.spec_definitions(), ids, i),
    decreases ids.len() - i,
{
    if i < ids.len() {
        lemma_same_data_trigger_of(a, b, ids[i]);
        if trigger_of(a.spec_definitions(), ids[i]) is Some {
            lemma_same_trigger_parts(trigger_of(a.spec_definitions(), ids[i])->0, trigger_of(b.spec_definitions(), ids[i])->0);
        }
        lemma_same_data_horizontal(a, b, ids, i + 1);
    }
}

proof fn lemma_horizontal_none(a: TokenProfileData, b: TokenProfileData, ids: Seq<TriggerIdentifier>)
    requires
        same_data(a, b),
        horizontal_from(a.spec_definitions(), ids, 0) is None,
    ensures
        horizontal_from(b.spec_definitions(), ids, 0) is None,
{
    lemma_same_data_horizontal(a, b, ids, 0);
}

impl Clone for SealedTokenProfile {
    fn clone(&self) -> (r: Self)
        ensures
            same_data(r.data(), self.data()),
    {
        proof {
            use_type_invariant(self);
        }
        let data = self.data.clone();
        proof {
            lemma_same_data_seal_error(data, self.data);
        }
        SealedTokenProfile { data }
    }
}

/// An active trigger set sealed against one exact token profile.
#[derive(Debug)]
pub struct SealedTriggerSet {
    profile_identity: ProfileIdentity,
    triggers: TriggerSet,
}

impl SealedTriggerSet {
    #[verifier::type_invariant]
    pub open spec fn is_sealed(self) -> bool {
        trigger_set_error(self.identity_data().spec_definitions(), self.spec_triggers()) is None
    }

    pub closed spec fn identity_data(self) -> TokenProfileData {
        self.profile_identity.data()
    }

    pub closed spec fn spec_triggers(self) -> Seq<TriggerIdentifier> {
        self.triggers@
    }

    pub fn profile_identity(&self) -> (r: ProfileIdentity)
        ensures
            same_data(r.data(), self.identity_data()),
    {
        self.profile_identity.clone()
    }

    pub fn triggers(&self) -> (r: &[TriggerIdentifier])
        ensures
            r@ == self.spec_triggers(),
    {
        self.triggers.triggers()
    }
}

impl Clone for SealedTriggerSet {
    fn clone(&self) -> (r: Self)
        ensures
            same_data(r.identity_data(), self.identity_data()),
            r.spec_triggers() == self.spec_triggers(),
    {
        proof {
            use_type_invariant(self);
        }
        let profile_identity = self.profile_identity.clone();
        let triggers = self.triggers.clone();
        proof {
            lemma_same_data_trigger_set(profile_identity.data(), self.identity_data(), triggers@);
        }
        SealedTriggerSet { profile_identity, triggers }
    }
}

/// A sealed active set restricted to generic outside-in boundary discovery.
#[derive(Debug)]
pub struct SealedBoundaryDiscoverySet {
    triggers: SealedTriggerSet,
}

impl SealedBoundaryDiscoverySet {
    #[verifier::type_invariant]
    pub open spec fn is_sealed(self) -> bool {
        horizontal_from(self.identity_data().spec_definitions(), self.spec_triggers(), 0) is None
    }

    pub closed spec fn identity_data(self) -> TokenProfileData {
        self.triggers.identity_data()
    }

    pub closed spec fn spec_triggers(self) -> Seq<TriggerIdentifier> {
        self.triggers.spec_triggers()
    }

    pub closed spec fn spec_active(self) -> SealedTriggerSet {
        self.triggers
    }

    /// The ordinary active set of a discovery set has its triggers and
    /// profile.
    pub proof fn lemma_spec_active(self)
        ensures
            self.spec_active().spec_triggers() == self.spec_triggers(),
            self.spec_active().identity_data() == self.identity_data(),
    {
    }

    pub fn profile_identity(&self) -> (r: ProfileIdentity)
        ensures
            same_data(r.data(), self.identity_data()),
    {
        self.triggers.profile_identity()
    }

    pub fn triggers(&self) -> (r: &[TriggerIdentifier])
        ensures
            r@ == self.spec_triggers(),
    {
        self.triggers.triggers()
    }

    pub fn active_triggers(&self) -> (r: &SealedTriggerSet)
        ensures
            *r == self.spec_active(),
            r.spec_triggers() == self.spec_triggers(),
            r.identity_data() == self.identity_data(),
    {
        &self.triggers
    }
}


impl Clone for SealedBoundaryDiscoverySet {
    fn clone(&self) -> (r: Self)
        ensures
            same_data(r.identity_data(), self.identity_data()),
            r.spec_triggers() == self.spec_triggers(),
    {
        proof {
            use_type_invariant(self);
        }
        let triggers = self.triggers.clone();
        proof {
            lemma_same_data_horizontal(triggers.identity_data(), self.identity_data(), triggers.spec_triggers(), 0);
        }
        SealedBoundaryDiscoverySet { triggers }
    }
}

/// Two strictly increasing identifier sequences with the same members are equal.
pub proof fn lemma_canonical_identifiers_unique(s: Seq<TriggerIdentifier>, t: Seq<TriggerIdentifier>)
    requires
        identifiers_strictly_increasing(s),
        identifiers_strictly_increasing(t),
        forall|c: TriggerIdentifier| s.contains(c) <==> t.contains(c),
    ensures
        s == t,
    decreases s.len() + t.len(),
{
    if s.len() == 0 {
        if t.len() > 0 {
            assert(t.contains(t[0]));
        }
        assert(s =~= t);
    } else if t.len() == 0 {
        assert(s.contains(s[0]));
    } else {
        assert(s.contains(s[0]));
        assert(t.contains(t[0]));
        let j = choose|j: int| 0 <= j < t.len() && t[j] == s[0];
        let i = choose|i: int| 0 <= i < s.len() && s[i] == t[0];
        assert(s[0]@ <= s[i]@);
        assert(t[0]@ <= t[j]@);
        TriggerIdentifier::lemma_view_injective(s[0], t[0]);
        let s1 = s.drop_first();
        let t1 = t.drop_first();
        assert forall|c: TriggerIdentifier| s1.contains(c) <==> t1.contains(c) by {
            if s1.contains(c) {
                let k = choose|k: int| 0 <= k < s1.len() && s1[k] == c;
                assert(s[k + 1] == c);
                assert(t.contains(c));
                let m = choose|m: int| 0 <= m < t.len() && t[m] == c;
                if m == 0 {
                    assert(s[0]@ < s[k + 1]@);
                } else {
                    assert(t1[m - 1] == c);
                }
            }
            if t1.contains(c) {
                let k = choose|k: int| 0 <= k < t1.len() && t1[k] == c;
                assert(t[k + 1] == c);
                assert(s.contains(c));
                let m = choose|m: int| 0 <= m < s.len() && s[m] == c;
                if m == 0 {
                    assert(t[0]@ < t[k + 1]@);
                } else {
                    assert(s1[m - 1] == c);
                }
            }
        }
        lemma_canonical_identifiers_unique(s1, t1);
        assert(s =~= seq![s[0]] + s1);
        assert(t =~= seq![t[0]] + t1);
    }
}

/// The built-in profile data that `profile` selects: parentheses, square
/// brackets and braces as boundaries, `.` as application, `(| |)` as an
/// escaped carrier, whitespace, and `;;` line comments.
pub open spec fn is_nota_data(profile: RawProfile, data: TokenProfileData) -> bool {
    let d = data.spec_definitions();
    &&& data.spec_revision() == profile.spec_revision()
    &&& d.len() == 7
    &&& forall|k: int| 0 <= k < 7 ==> (#[trigger] d[k]).identifier@ == k
    &&& d[0].trigger matches Trigger::Boundary { opening, closing } && opening@ == seq!['(']
        && closing@ == seq![')']
    &&& d[1].trigger matches Trigger::Boundary { opening, closing } && opening@ == seq!['[']
        && closing@ == seq![']']
    &&& d[2].trigger matches Trigger::Boundary { opening, closing } && opening@ == seq!['{']
        && closing@ == seq!['}']
    &&& d[3].trigger matches Trigger::Application { glyph } && glyph@ == seq!['.']
    &&& d[4].trigger matches Trigger::Carrier { opening, closing, escape } && opening@ == seq![
        '(',
        '|',
    ] && closing@ == seq!['|', ')'] && (escape matches Some(e) && e@ == seq!['\\'])
    &&& d[5].trigger matches Trigger::Whitespace { canonical_spelling } && canonical_spelling@
        == seq![' ']
    &&& d[6].trigger matches Trigger::LineComment { opening } && opening@ == seq![';', ';']
    &&& data.spec_root_triggers().len() == 7
    &&& forall|k: int| 0 <= k < 7 ==> (#[trigger] data.spec_root_triggers()[k])@ == k
    &&& data.spec_forbidden() == if profile.spec_glyphs() == GlyphSet::Standard {
        seq!['"', '$']
    } else {
        seq!['"']
    }
}

impl TokenProfileData {
    fn nota(profile: RawProfile) -> (r: Self)
        ensures
            is_nota_data(profile, r),
    {
        proof {
            reveal_strlit("(");
            reveal_strlit(")");
            reveal_strlit("[");
            reveal_strlit("]");
            reveal_strlit("{");
            reveal_strlit("}");
            reveal_strlit(".");
            reveal_strlit("(|");
            reveal_strlit("|)");
            reveal_strlit("\\");
            reveal_strlit(" ");
            reveal_strlit(";;");
            reveal_strlit("\"");
            reveal_strlit("\"$");
            assert("("@ =~= seq!['(']);
            assert(")"@ =~= seq![')']);
            assert("["@ =~= seq!['[']);
            assert("]"@ =~= seq![']']);
            assert("{"@ =~= seq!['{']);
            assert("}"@ =~= seq!['}']);
            assert("."@ =~= seq!['.']);
            assert("(|"@ =~= seq!['(', '|']);
            assert("|)"@ =~= seq!['|', ')']);
            assert("\\"@ =~= seq!['\\']);
            assert(" "@ =~= seq![' ']);
            assert(";;"@ =~= seq![';', ';']);
            assert("\""@ =~= seq!['"']);
            assert("\"$"@ =~= seq!['"', '$']);
        }
        let mut definitions: Vec<TriggerDefinition> = Vec::new();
        definitions.push(
            TriggerDefinition {
                identifier: TriggerIdentifier::new(0),
                trigger: Trigger::Boundary { opening: "(".to_owned(), closing: ")".to_owned() },
            },
        );
        definitions.push(
            TriggerDefinition {
                identifier: TriggerIdentifier::new(1),
                trigger: Trigger::Boundary { opening: "[".to_owned(), closing: "]".to_owned() },
            },
        );
        definitions.push(
            TriggerDefinition {
                identifier: TriggerIdentifier::new(2),
                trigger: Trigger::Boundary { opening: "{".to_owned(), closing: "}".to_owned() },
            },
        );
        definitions.push(
            TriggerDefinition {
                identifier: TriggerIdentifier::new(3),
                trigger: Trigger::Application { glyph: ".".to_owned() },
            },
        );
        definitions.push(
            TriggerDefinition {
                identifier: TriggerIdentifier::new(4),
                trigger: Trigger::Carrier {
                    opening: "(|".to_owned(),
                    closing: "|)".to_owned(),
                    escape: Some("\\".to_owned()),
                },
            },
        );
        definitions.push(
            TriggerDefinition {
                identifier: TriggerIdentifier::new(5),
                trigger: Trigger::Whitespace { canonical_spelling: " ".to_owned() },
            },
        );
        definitions.push(
            TriggerDefinition {
                identifier: TriggerIdentifier::new(6),
                trigger: Trigger::LineComment { opening: ";;".to_owned() },
            },
        );
        let forbidden = if profile.glyphs().admits_dollar_sigil() {
            "\"".to_owned()
        } else {
            "\"$".to_owned()
        };
        let mut ids: Vec<TriggerIdentifier> = Vec::new();
        let mut k: u16 = 0;
        while k <= 6
            invariant
                k <= 7,
                ids@.len() == k,
                forall|j: int| 0 <= j < k ==> (#[trigger] ids@[j])@ == j,
            decreases 7 - k,
        {
            ids.push(TriggerIdentifier::new(k));
            k = k + 1;
        }
        let ghost input = ids@;
        let root = TriggerSet::new(ids);
        proof {
            assert(identifiers_strictly_increasing(input));
            lemma_canonical_identifiers_unique(root@, input);
        }
        Self::new(profile.revision(), definitions, root, forbidden)
    }
}

impl RawProfile {
    /// Seal the compatibility profile as generic boundary data.
    pub fn seal(self) -> (r: Result<SealedTokenProfile, TokenProfileError>)
        ensures
            match r {
                Ok(sealed) => is_nota_data(self, sealed.data()),
                Err(e) => false,
            },
    {
        let data = TokenProfileData::nota(self);
        let ghost d = data;
        proof {
            lemma_nota_seals(self, d);
        }
        let r = data.seal();
        proof {
            if r is Ok {
                lemma_nota_data_congruent(self, d, r->Ok_0.data());
            }
        }
        r
    }
}

proof fn lemma_nota_pair(profile: RawProfile, data: TokenProfileData, a: int, b: int)
    requires
        is_nota_data(profile, data),
        0 <= a < b < 7,
    ensures
        !can_tie(data.spec_definitions()[a].trigger, data.spec_definitions()[b].trigger),
{
    let d = data.spec_definitions();
    let l = d[a].trigger;
    let r = d[b].trigger;
    assert(exact_spellings(d[0].trigger) =~= seq![seq!['('], seq![')']]);
    assert(exact_spellings(d[1].trigger) =~= seq![seq!['['], seq![']']]);
    assert(exact_spellings(d[2].trigger) =~= seq![seq!['{'], seq!['}']]);
    assert(exact_spellings(d[3].trigger) =~= seq![seq!['.']]);
    assert(exact_spellings(d[4].trigger) =~= Seq::<Seq<char>>::empty());
    assert(exact_spellings(d[5].trigger) =~= Seq::<Seq<char>>::empty());
    assert(exact_spellings(d[6].trigger) =~= Seq::<Seq<char>>::empty());
    assert forall|x: int, y: int| 0 <= x < exact_spellings(l).len() && 0 <= y < exact_spellings(r).len()
        implies #[trigger] exact_spellings(l)[x] != #[trigger] exact_spellings(r)[y] by {
        let u = exact_spellings(l)[x];
        let v = exact_spellings(r)[y];
        assert(u.len() == 1 && v.len() == 1);
        assert(u[0] != v[0]);
    }
    assert forall|x: int| 0 <= x < exact_spellings(l).len() implies !class_matches(CharacterClass::Whitespace, #[trigger] exact_spellings(l)[x][0]) && exact_spellings(l)[x].len() == 1 by {}
    assert forall|x: int| 0 <= x < exact_spellings(r).len() implies !class_matches(CharacterClass::Whitespace, #[trigger] exact_spellings(r)[x][0]) && exact_spellings(r)[x].len() == 1 by {}
    assert(!share_exact_spelling(l, r));
    assert(!class_covers_exact(l, r));
    assert(!class_covers_exact(r, l));
    assert(!dynamic_can_tie(l, r));
    assert(!dynamic_can_tie(r, l));
}

proof fn lemma_nota_seals(profile: RawProfile, data: TokenProfileData)
    requires
        is_nota_data(profile, data),
    ensures
        seal_error(data) is None,
{
    let d = data.spec_definitions();
    let ids = data.spec_root_triggers();
    assert(d[0].trigger->Boundary_opening@[0] != d[0].trigger->Boundary_closing@[0]);
    assert(d[1].trigger->Boundary_opening@[0] != d[1].trigger->Boundary_closing@[0]);
    assert(d[2].trigger->Boundary_opening@[0] != d[2].trigger->Boundary_closing@[0]);
    assert(d[0].identifier@ == 0 && d[1].identifier@ == 1 && d[2].identifier@ == 2);
    assert(d[3].identifier@ == 3 && d[4].identifier@ == 4 && d[5].identifier@ == 5);
    assert(d[6].identifier@ == 6);
    assert(definitions_error_from(d, 7) is None);
    assert(definitions_error_from(d, 6) is None);
    assert(definitions_error_from(d, 5) is None);
    assert(definitions_error_from(d, 4) is None);
    assert(definitions_error_from(d, 3) is None);
    assert(definitions_error_from(d, 2) is None);
    assert(definitions_error_from(d, 1) is None);
    assert(definitions_error_from(d, 0) is None);
    assert forall|k: int| 0 <= k < 7 implies definition_index(d, #[trigger] ids[k]) == Some(k) by {
        lemma_definition_index(d, ids[k]);
        assert(d[k].identifier@ == ids[k]@);
        TriggerIdentifier::lemma_view_injective(d[k].identifier, ids[k]);
        if let Some(m) = definition_index(d, ids[k]) {
            if m < k {
                assert(d[m].identifier@ == m);
            }
        }
    }
    assert(unknown_from(d, ids, 7) is None);
    assert(unknown_from(d, ids, 6) is None);
    assert(unknown_from(d, ids, 5) is None);
    assert(unknown_from(d, ids, 4) is None);
    assert(unknown_from(d, ids, 3) is None);
    assert(unknown_from(d, ids, 2) is None);
    assert(unknown_from(d, ids, 1) is None);
    assert(unknown_from(d, ids, 0) is None);
    assert(!can_tie(d[0].trigger, d[1].trigger)) by { lemma_nota_pair(profile, data, 0, 1); }
    assert(!can_tie(d[0].trigger, d[2].trigger)) by { lemma_nota_pair(profile, data, 0, 2); }
    assert(!can_tie(d[0].trigger, d[3].trigger)) by { lemma_nota_pair(profile, data, 0, 3); }
    assert(!can_tie(d[0].trigger, d[4].trigger)) by { lemma_nota_pair(profile, data, 0, 4); }
    assert(!can_tie(d[0].trigger, d[5].trigger)) by { lemma_nota_pair(profile, data, 0, 5); }
    assert(!can_tie(d[0].trigger, d[6].trigger)) by { lemma_nota_pair(profile, data, 0, 6); }
    assert(!can_tie(d[1].trigger, d[2].trigger)) by { lemma_nota_pair(profile, data, 1, 2); }
    assert(!can_tie(d[1].trigger, d[3].trigger)) by { lemma_nota_pair(profile, data, 1, 3); }
    assert(!can_tie(d[1].trigger, d[4].trigger)) by { lemma_nota_pair(profile, data, 1, 4); }
    assert(!can_tie(d[1].trigger, d[5].trigger)) by { lemma_nota_pair(profile, data, 1, 5); }
    assert(!can_tie(d[1].trigger, d[6].trigger)) by { lemma_nota_pair(profile, data, 1, 6); }
    assert(!can_tie(d[2].trigger, d[3].trigger)) by { lemma_nota_pair(profile, data, 2, 3); }
    assert(!can_tie(d[2].trigger, d[4].trigger)) by { lemma_nota_pair(profile, data, 2, 4); }
    assert(!can_tie(d[2].trigger, d[5].trigger)) by { lemma_nota_pair(profile, data, 2, 5); }
    assert(!can_tie(d[2].trigger, d[6].trigger)) by { lemma_nota_pair(profile, data, 2, 6); }
    assert(!can_tie(d[3].trigger, d[4].trigger)) by { lemma_nota_pair(profile, data, 3, 4); }
    assert(!can_tie(d[3].trigger, d[5].trigger)) by { lemma_nota_pair(profile, data, 3, 5); }
    assert(!can_tie(d[3].trigger, d[6].trigger)) by { lemma_nota_pair(profile, data, 3, 6); }
    assert(!can_tie(d[4].trigger, d[5].trigger)) by { lemma_nota_pair(profile, data, 4, 5); }
    assert(!can_tie(d[4].trigger, d[6].trigger)) by { lemma_nota_pair(profile, data, 4, 6); }
    assert(!can_tie(d[5].trigger, d[6].trigger)) by { lemma_nota_pair(profile, data, 5, 6); }
    assert forall|a: int, b: int| 0 <= a < b < 7 implies !can_tie(
        trigger_of(d, ids[a])->0,
        trigger_of(d, ids[b])->0,
    ) by {
        assert(definition_index(d, ids[a]) == Some(a));
        assert(definition_index(d, ids[b]) == Some(b));
    }
    lemma_no_ties(d, ids, 0, 1);
}

proof fn lemma_no_ties(d: Seq<TriggerDefinition>, ids: Seq<TriggerIdentifier>, i: int, j: int)
    requires
        0 <= i,
        forall|a: int, b: int| 0 <= a < b < ids.len() ==> !can_tie(
            trigger_of(d, #[trigger] ids[a])->0,
            trigger_of(d, #[trigger] ids[b])->0,
        ),
    ensures
        tie_from(d, ids, i, j) is None,
    decreases ids.len() - i, ids.len() + 1 - j,
{
    if i >= ids.len() || j <= i {
    } else if j >= ids.len() {
        lemma_no_ties(d, ids, i + 1, i + 2);
    } else {
        lemma_no_ties(d, ids, i, j + 1);
    }
}

proof fn lemma_tie_free_from(d: Seq<TriggerDefinition>, ids: Seq<TriggerIdentifier>, i: int, j: int)
    requires
        0 <= i < j,
        tie_from(d, ids, i, j) is None,
    ensures
        forall|b: int| j <= b < ids.len() ==> !can_tie(
            trigger_of(d, ids[i])->0,
            trigger_of(d, #[trigger] ids[b])->0,
        ),
        forall|a: int, b: int| i < a < b < ids.len() ==> !can_tie(
            trigger_of(d, #[trigger] ids[a])->0,
            trigger_of(d, #[trigger] ids[b])->0,
        ),
    decreases ids.len() - i, ids.len() + 1 - j,
{
    if i >= ids.len() {
    } else if j >= ids.len() {
        if i + 1 < ids.len() {
            lemma_tie_free_from(d, ids, i + 1, i + 2);
        }
    } else {
        lemma_tie_free_from(d, ids, i, j + 1);
    }
}

/// An active set that passed sealing against some definitions names only
/// defined triggers, and no two of its triggers can tie: at every cursor
/// position at most one of them yields the longest match.
pub proof fn lemma_sealed_set_unambiguous(defs: Seq<TriggerDefinition>, ids: Seq<TriggerIdentifier>)
    requires
        trigger_set_error(defs, ids) is None,
    ensures
        forall|k: int| 0 <= k < ids.len() ==> trigger_of(defs, #[trigger] ids[k]) is Some,
        forall|a: int, b: int| 0 <= a < b < ids.len() ==> !can_tie(
            trigger_of(defs, #[trigger] ids[a])->0,
            trigger_of(defs, #[trigger] ids[b])->0,
        ),
{
    lemma_unknown_none(defs, ids, 0);
    assert forall|k: int| 0 <= k < ids.len() implies trigger_of(defs, #[trigger] ids[k]) is Some by {
        assert(definition_index(defs, ids[k]) is Some);
    }
    if ids.len() > 0 {
        lemma_tie_free_from(defs, ids, 0, 1);
    }
}

proof fn lemma_horizontal_free_from(defs: Seq<TriggerDefinition>, ids: Seq<TriggerIdentifier>, i: int)
    requires
        0 <= i,
        horizontal_from(defs, ids, i) is None,
    ensures
        forall|k: int| i <= k < ids.len() ==> is_discovery_trigger(
            trigger_of(defs, #[trigger] ids[k])->0,
        ),
    decreases ids.len() - i,
{
    if i < ids.len() {
        lemma_horizontal_free_from(defs, ids, i + 1);
    }
}

/// A boundary-discovery set that passed sealing holds only boundaries,
/// carriers, whitespace, and line comments: nothing else can move where an
/// enclosing boundary closes.
pub proof fn lemma_discovery_set_triggers(defs: Seq<TriggerDefinition>, ids: Seq<TriggerIdentifier>)
    requires
        discovery_set_error(defs, ids) is None,
    ensures
        forall|k: int| 0 <= k < ids.len() ==> trigger_of(defs, #[trigger] ids[k]) is Some,
        forall|k: int| 0 <= k < ids.len() ==> is_discovery_trigger(
            trigger_of(defs, #[trigger] ids[k])->0,
        ),
{
    lemma_sealed_set_unambiguous(defs, ids);
    lemma_horizontal_free_from(defs, ids, 0);
}

proof fn lemma_nota_data_congruent(profile: RawProfile, a: TokenProfileData, b: TokenProfileData)
    requires
        is_nota_data(profile, a),
        same_data(b, a),
    ensures
        is_nota_data(profile, b),
{
    let da = a.spec_definitions();
    let db = b.spec_definitions();
    assert(same_definition(db[0], da[0]));
    assert(same_definition(db[1], da[1]));
    assert(same_definition(db[2], da[2]));
    assert(same_definition(db[3], da[3]));
    assert(same_definition(db[4], da[4]));
    assert(same_definition(db[5], da[5]));
    assert(same_definition(db[6], da[6]));
    assert forall|k: int| 0 <= k < 7 implies (#[trigger] db[k]).identifier@ == k by {
        assert(same_definition(db[k], da[k]));
    }
}


pub proof fn lemma_same_class_transitive(a: CharacterClass, b: CharacterClass, c: CharacterClass)
    requires
        same_class(a, b),
        same_class(b, c),
    ensures
        same_class(a, c),
{
}

pub proof fn lemma_same_trigger_transitive(a: Trigger, b: Trigger, c: Trigger)
    requires
        same_trigger(a, b),
        same_trigger(b, c),
    ensures
        same_trigger(a, c),
{
    match (a, b, c) {
        (
            Trigger::LeadingCharacterClass { leading: l1, continuation: c1 },
            Trigger::LeadingCharacterClass { leading: l2, continuation: c2 },
            Trigger::LeadingCharacterClass { leading: l3, continuation: c3 },
        ) => {
            lemma_same_class_transitive(l1, l2, l3);
            lemma_same_class_transitive(c1, c2, c3);
        },
        _ => {},
    }
}

pub proof fn lemma_same_data_transitive(a: TokenProfileData, b: TokenProfileData, c: TokenProfileData)
    requires
        same_data(a, b),
        same_data(b, c),
    ensures
        same_data(a, c),
{
    assert forall|i: int| 0 <= i < a.spec_definitions().len() implies same_definition(
        #[trigger] a.spec_definitions()[i],
        c.spec_definitions()[i],
    ) by {
        assert(same_definition(a.spec_definitions()[i], b.spec_definitions()[i]));
        assert(same_definition(b.spec_definitions()[i], c.spec_definitions()[i]));
        lemma_same_trigger_transitive(
            a.spec_definitions()[i].trigger,
            b.spec_definitions()[i].trigger,
            c.spec_definitions()[i].trigger,
        );
    }
}

impl SealedTokenProfile {
    /// The built-in standard profile, sealed.
    pub fn standard() -> (r: Self)
        ensures
            is_nota_data(RawProfile::standard_spec(), r.data()),
    {
        match RawProfile::standard().seal() {
            Ok(sealed) => sealed,
            Err(_) => vstd::pervasive::unreached(),
        }
    }

    /// The built-in Nomos profile, sealed.
    pub fn nomos_extended() -> (r: Self)
        ensures
            is_nota_data(RawProfile::nomos_extended_spec(), r.data()),
    {
        match RawProfile::nomos_extended().seal() {
            Ok(sealed) => sealed,
            Err(_) => vstd::pervasive::unreached(),
        }
    }
}

impl RawProfile {
    pub closed spec fn standard_spec() -> RawProfile {
        RawProfile { revision: ProfileRevision(1), glyphs: GlyphSet::Standard }
    }

    pub closed spec fn nomos_extended_spec() -> RawProfile {
        RawProfile { revision: ProfileRevision(1), glyphs: GlyphSet::NomosExtended }
    }
}

} // verus!
