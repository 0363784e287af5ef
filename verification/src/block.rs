//! The raw structural model: the [`Block`] tree of one source text, and the
//! primitives that read structure off it.
//!
//! Every type here discovers *structure* and attaches no meaning. An
//! [`AtomCase`] is exposed as data — a reader may ask whether an atom reads as
//! PascalCase — but the crate stamps no "object" / "name" / "type" judgement on
//! it.
//!
//! The tree is span-free: it carries no byte offsets, so it is portable data.

use vstd::prelude::*;
use vstd::string::*;

use crate::text::{
    ascii_lowercase, ascii_uppercase, chars_contain, chars_of, is_ascii_lowercase,
    is_ascii_uppercase, is_unicode_whitespace, string_from_chars, unicode_whitespace,
};

verus! {

/// A recognized document: the ordered top-level objects of one source text.
#[derive(Clone, Debug, PartialEq, Eq)]
pub struct Document {
    root_objects: Vec<Block>,
}

impl Document {
    pub closed spec fn spec_root_objects(self) -> Seq<Block> {
        self.root_objects@
    }

    /// The recognized top-level objects, in source order.
    pub fn root_objects(&self) -> (r: &[Block])
        ensures
            r@ == self.spec_root_objects(),
    {
        self.root_objects.as_slice()
    }

    /// The root object at `index`, or `None` past the end.
    pub fn root_object_at(&self, index: usize) -> (r: Option<&Block>)
        ensures
            index < self.spec_root_objects().len() ==> r == Some(&self.spec_root_objects()[index as int]),
            index >= self.spec_root_objects().len() ==> r is None,
    {
        if index < self.root_objects.len() {
            Some(&self.root_objects[index])
        } else {
            None
        }
    }

    /// How many top-level objects the source held.
    pub fn holds_root_objects(&self) -> (r: usize)
        ensures
            r == self.spec_root_objects().len(),
    {
        self.root_objects.len()
    }

    /// The document holding `root_objects` in order.
    pub fn from_root_objects(root_objects: Vec<Block>) -> (r: Self)
        ensures
            r.spec_root_objects() == root_objects@,
    {
        Document { root_objects }
    }
}

/// The three reader-serving delimiters. New glyphs require an explicit versioned
/// profile revision, never runtime guessing.
#[derive(Clone, Copy, Debug, PartialEq, Eq, Structural)]
pub enum Delimiter {
    Parenthesis,
    SquareBracket,
    Brace,
}

/// The opening spelling of a delimiter.
pub open spec fn opening_spelling(d: Delimiter) -> Seq<char> {
    match d {
        Delimiter::Parenthesis => seq!['('],
        Delimiter::SquareBracket => seq!['['],
        Delimiter::Brace => seq!['{'],
    }
}

/// The closing spelling of a delimiter.
pub open spec fn closing_spelling(d: Delimiter) -> Seq<char> {
    match d {
        Delimiter::Parenthesis => seq![')'],
        Delimiter::SquareBracket => seq![']'],
        Delimiter::Brace => seq!['}'],
    }
}

/// The spellings joined with one space between neighbours.
pub open spec fn space_joined(parts: Seq<Seq<char>>) -> Seq<char>
    decreases parts.len(),
{
    if parts.len() == 0 {
        Seq::empty()
    } else if parts.len() == 1 {
        parts[0]
    } else {
        space_joined(parts.drop_last()) + seq![' '] + parts.last()
    }
}

fn push_all(out: &mut Vec<char>, text: &str)
    ensures
        final(out)@ == old(out)@ + text@,
{
    let chars = chars_of(text);
    let mut i: usize = 0;
    while i < chars.len()
        invariant
            i <= chars@.len(),
            chars@ == text@,
            out@ == old(out)@ + chars@.take(i as int),
        decreases chars.len() - i,
    {
        out.push(chars[i]);
        i = i + 1;
        assert(out@ =~= old(out)@ + chars@.take(i as int));
    }
    assert(chars@.take(i as int) =~= chars@);
}

impl Delimiter {
    pub fn opening_text(self) -> (r: &'static str)
        ensures
            r@ == opening_spelling(self),
    {
        match self {
            Delimiter::Parenthesis => {
                proof {
                    reveal_strlit("(");
                }
                "("
            },
            Delimiter::SquareBracket => {
                proof {
                    reveal_strlit("[");
                }
                "["
            },
            Delimiter::Brace => {
                proof {
                    reveal_strlit("{");
                }
                "{"
            },
        }
    }

    pub fn closing_text(self) -> (r: &'static str)
        ensures
            r@ == closing_spelling(self),
    {
        match self {
            Delimiter::Parenthesis => {
                proof {
                    reveal_strlit(")");
                }
                ")"
            },
            Delimiter::SquareBracket => {
                proof {
                    reveal_strlit("]");
                }
                "]"
            },
            Delimiter::Brace => {
                proof {
                    reveal_strlit("}");
                }
                "}"
            },
        }
    }

    pub fn description(self) -> (r: &'static str)
        ensures
            r@ == match self {
                Delimiter::Parenthesis => "parenthesis"@,
                Delimiter::SquareBracket => "square bracket"@,
                Delimiter::Brace => "brace"@,
            },
    {
        match self {
            Delimiter::Parenthesis => "parenthesis",
            Delimiter::SquareBracket => "square bracket",
            Delimiter::Brace => "brace",
        }
    }

    /// Wrap already-rendered children in this delimiter, space-joined:
    /// `Parenthesis.wrap(["Kind", "(Decision)"])` → `"(Kind (Decision))"`.
    pub fn wrap(self, children: Vec<String>) -> (r: String)
        ensures
            r@ == opening_spelling(self) + space_joined(children@.map_values(|c: String| c@))
                + closing_spelling(self),
    {
        let ghost parts = children@.map_values(|c: String| c@);
        let mut out: Vec<char> = Vec::new();
        push_all(&mut out, self.opening_text());
        let mut i: usize = 0;
        while i < children.len()
            invariant
                i <= children@.len(),
                parts == children@.map_values(|c: String| c@),
                out@ == opening_spelling(self) + space_joined(parts.take(i as int)),
            decreases children.len() - i,
        {
            let ghost before = out@;
            if i > 0 {
                out.push(' ');
            }
            push_all(&mut out, children[i].as_str());
            proof {
                let taken = parts.take(i as int + 1);
                assert(taken.drop_last() =~= parts.take(i as int));
                assert(taken.last() == children@[i as int]@);
                if i == 0 {
                    assert(parts.take(0) =~= Seq::<Seq<char>>::empty());
                    assert(out@ =~= opening_spelling(self) + space_joined(taken));
                } else {
                    assert(out@ =~= opening_spelling(self) + space_joined(taken));
                }
            }
            i = i + 1;
        }
        push_all(&mut out, self.closing_text());
        proof {
            assert(parts.take(i as int) =~= parts);
        }
        string_from_chars(out.as_slice())
    }

    pub(crate) fn closing_character(self) -> (r: char)
        ensures
            seq![r] == closing_spelling(self),
    {
        match self {
            Delimiter::Parenthesis => ')',
            Delimiter::SquareBracket => ']',
            Delimiter::Brace => '}',
        }
    }

    pub(crate) fn from_opening(character: char) -> (r: Option<Self>)
        ensures
            match r {
                Some(d) => opening_spelling(d) == seq![character],
                None => character != '(' && character != '[' && character != '{',
            },
    {
        match character {
            '(' => Some(Delimiter::Parenthesis),
            '[' => Some(Delimiter::SquareBracket),
            '{' => Some(Delimiter::Brace),
            _ => None,
        }
    }

    pub(crate) fn from_closing(character: char) -> (r: Option<Self>)
        ensures
            match r {
                Some(d) => closing_spelling(d) == seq![character],
                None => character != ')' && character != ']' && character != '}',
            },
    {
        match character {
            ')' => Some(Delimiter::Parenthesis),
            ']' => Some(Delimiter::SquareBracket),
            '}' => Some(Delimiter::Brace),
            _ => None,
        }
    }
}

/// A `(| … |)` multiline-string carrier. Holds literal text — delimiters,
/// comment markers, whitespace — that a bare atom cannot represent.
#[derive(Clone, Debug, PartialEq, Eq)]
pub struct PipeText {
    text: String,
}

impl PipeText {
    pub closed spec fn spec_text(self) -> Seq<char> {
        self.text@
    }

    pub fn new(text: &str) -> (r: Self)
        ensures
            r.spec_text() == text@,
    {
        PipeText { text: text.to_owned() }
    }

    pub fn text(&self) -> (r: &str)
        ensures
            r@ == self.spec_text(),
    {
        self.text.as_str()
    }
}

/// Whether `c` may sit inside a bare atom: no whitespace, period, quote, or
/// delimiter glyph.
pub open spec fn is_bare_symbol_character(c: char) -> bool {
    !is_unicode_whitespace(c) && c != '"' && c != '.' && c != '(' && c != ')' && c != '['
        && c != ']' && c != '{' && c != '}'
}

/// Every character of a non-empty text is a bare symbol character.
pub open spec fn is_symbol_text(t: Seq<char>) -> bool {
    t.len() > 0 && forall|i: int| 0 <= i < t.len() ==> is_bare_symbol_character(#[trigger] t[i])
}

/// A dashless symbol led by an ASCII uppercase letter.
pub open spec fn is_pascal_text(t: Seq<char>) -> bool {
    is_symbol_text(t) && is_ascii_uppercase(t[0]) && !t.contains('-')
}

/// A dashless symbol led by an ASCII lowercase letter.
pub open spec fn is_camel_text(t: Seq<char>) -> bool {
    is_symbol_text(t) && is_ascii_lowercase(t[0]) && !t.contains('-')
}

/// A symbol carrying a dash.
pub open spec fn is_kebab_text(t: Seq<char>) -> bool {
    is_symbol_text(t) && t.contains('-')
}

/// The position of the first period in `t`, searching from `i`.
pub open spec fn first_dot_from(t: Seq<char>, i: int) -> Option<int>
    decreases t.len() - i,
{
    if i < 0 || i >= t.len() {
        None
    } else if t[i] == '.' {
        Some(i)
    } else {
        first_dot_from(t, i + 1)
    }
}

/// The text before the first period of `t`, and the non-empty text after it.
pub open spec fn split_at_dot(t: Seq<char>) -> Option<(Seq<char>, Option<Seq<char>>)> {
    match first_dot_from(t, 0) {
        None => None,
        Some(k) => Some(
            (
                t.subrange(0, k),
                if k + 1 == t.len() {
                    None
                } else {
                    Some(t.subrange(k + 1, t.len() as int))
                },
            ),
        ),
    }
}

/// A bare atom: an unbroken run of symbol characters, carrying no meaning.
#[derive(Clone, Debug, PartialEq, Eq)]
pub struct Atom {
    text: String,
}

/// One character weighed against the bare-atom rule.
#[derive(Clone, Copy, Debug)]
pub(crate) struct AtomCharacter {
    pub(crate) character: char,
}

impl AtomCharacter {
    pub(crate) fn new(character: char) -> (r: Self)
        ensures
            r.character == character,
    {
        AtomCharacter { character }
    }

    /// Whether this character may sit inside a bare atom. The period is a
    /// structural dot-application operator, so it can never appear in a bare
    /// atom.
    pub(crate) fn is_bare_symbol(self) -> (r: bool)
        ensures
            r == is_bare_symbol_character(self.character),
    {
        let c = self.character;
        !unicode_whitespace(c) && c != '"' && c != '.' && c != '(' && c != ')' && c != '['
            && c != ']' && c != '{' && c != '}'
    }
}

impl Atom {
    pub closed spec fn spec_text(self) -> Seq<char> {
        self.text@
    }

    pub fn new(text: &str) -> (r: Self)
        ensures
            r.spec_text() == text@,
    {
        Atom { text: text.to_owned() }
    }

    pub fn text(&self) -> (r: &str)
        ensures
            r@ == self.spec_text(),
    {
        self.text.as_str()
    }

    /// Split `text` at its first period into a prefix and, when text follows the
    /// period, a remainder. `None` when `text` carries no period.
    pub fn split_text_at_first_dot(text: &str) -> (r: Option<(&str, Option<&str>)>)
        ensures
            match (r, split_at_dot(text@)) {
                (None, None) => true,
                (Some((prefix, None)), Some((p, None))) => prefix@ == p,
                (Some((prefix, Some(rest))), Some((p, Some(q)))) => prefix@ == p && rest@ == q,
                _ => false,
            },
    {
        let chars = chars_of(text);
        let mut k: usize = 0;
        while k < chars.len() && chars[k] != '.'
            invariant
                k <= chars@.len(),
                chars@ == text@,
                first_dot_from(text@, 0) == first_dot_from(text@, k as int),
            decreases chars.len() - k,
        {
            k = k + 1;
        }
        if k == chars.len() {
            return None;
        }
        let prefix = text.substring_char(0, k);
        if k + 1 == chars.len() {
            Some((prefix, None))
        } else {
            Some((prefix, Some(text.substring_char(k + 1, chars.len()))))
        }
    }

    /// The atom's text split at its first period into a prefix atom and an
    /// optional remainder atom.
    pub fn split_at_first_dot(&self) -> (r: Option<(Atom, Option<Atom>)>)
        ensures
            match (r, split_at_dot(self.spec_text())) {
                (None, None) => true,
                (Some((prefix, None)), Some((p, None))) => prefix.spec_text() == p,
                (Some((prefix, Some(rest))), Some((p, Some(q)))) => prefix.spec_text() == p
                    && rest.spec_text() == q,
                _ => false,
            },
    {
        match Atom::split_text_at_first_dot(self.text.as_str()) {
            None => None,
            Some((prefix, None)) => Some((Atom::new(prefix), None)),
            Some((prefix, Some(rest))) => Some((Atom::new(prefix), Some(Atom::new(rest)))),
        }
    }

    /// Whether every character is a bare symbol character (non-empty).
    pub fn qualifies_as_symbol(&self) -> (r: bool)
        ensures
            r == is_symbol_text(self.spec_text()),
    {
        let chars = chars_of(self.text.as_str());
        if chars.len() == 0 {
            return false;
        }
        let mut i: usize = 0;
        while i < chars.len()
            invariant
                i <= chars@.len(),
                chars@ == self.spec_text(),
                forall|j: int| 0 <= j < i ==> is_bare_symbol_character(#[trigger] chars@[j]),
            decreases chars.len() - i,
        {
            if !AtomCharacter::new(chars[i]).is_bare_symbol() {
                return false;
            }
            i = i + 1;
        }
        true
    }

    /// A symbol whose first character is ASCII uppercase and which carries no
    /// dash — the PascalCase reading, exposed as a candidate, not a verdict.
    pub fn qualifies_as_pascal_case_symbol(&self) -> (r: bool)
        ensures
            r == is_pascal_text(self.spec_text()),
    {
        if !self.qualifies_as_symbol() {
            return false;
        }
        let chars = chars_of(self.text.as_str());
        ascii_uppercase(chars[0]) && !chars_contain(&chars, '-')
    }

    /// A symbol whose first character is ASCII lowercase and which carries no
    /// dash — the camelCase reading.
    pub fn qualifies_as_camel_case_symbol(&self) -> (r: bool)
        ensures
            r == is_camel_text(self.spec_text()),
    {
        if !self.qualifies_as_symbol() {
            return false;
        }
        let chars = chars_of(self.text.as_str());
        ascii_lowercase(chars[0]) && !chars_contain(&chars, '-')
    }

    /// A symbol carrying a dash — the kebab-case reading.
    pub fn qualifies_as_kebab_case_symbol(&self) -> (r: bool)
        ensures
            r == is_kebab_text(self.spec_text()),
    {
        if !self.qualifies_as_symbol() {
            return false;
        }
        let chars = chars_of(self.text.as_str());
        chars_contain(&chars, '-')
    }
}

/// The capitalization classifier, exposed as data. Here the case is a fact
/// about an atom's characters and nothing more.
#[derive(Clone, Copy, Debug, PartialEq, Eq, Structural)]
pub enum AtomCase {
    /// A symbol that is neither Pascal, camel, nor kebab — a digit run, a
    /// sigiled or punctuated symbol. The catch-all.
    Symbol,
    PascalCase,
    CamelCase,
    KebabCase,
}

/// The case of a text: the first reading that holds, `Symbol` otherwise.
pub open spec fn case_of(t: Seq<char>) -> AtomCase {
    if is_pascal_text(t) {
        AtomCase::PascalCase
    } else if is_camel_text(t) {
        AtomCase::CamelCase
    } else if is_kebab_text(t) {
        AtomCase::KebabCase
    } else {
        AtomCase::Symbol
    }
}

impl AtomCase {
    /// Classify an atom by its characters. Every non-empty symbol falls into
    /// exactly one case, with `Symbol` as the catch-all.
    pub fn of(atom: &Atom) -> (r: Self)
        ensures
            r == case_of(atom.spec_text()),
    {
        if atom.qualifies_as_pascal_case_symbol() {
            AtomCase::PascalCase
        } else if atom.qualifies_as_camel_case_symbol() {
            AtomCase::CamelCase
        } else if atom.qualifies_as_kebab_case_symbol() {
            AtomCase::KebabCase
        } else {
            AtomCase::Symbol
        }
    }

    /// Whether the atom reads as this case: only a symbol's one classified
    /// case matches it.
    pub fn matches(self, atom: &Atom) -> (r: bool)
        ensures
            r == (is_symbol_text(atom.spec_text()) && case_of(atom.spec_text()) == self),
    {
        match self {
            AtomCase::Symbol => atom.qualifies_as_symbol() && !atom.qualifies_as_pascal_case_symbol()
                && !atom.qualifies_as_camel_case_symbol() && !atom.qualifies_as_kebab_case_symbol(),
            AtomCase::PascalCase => atom.qualifies_as_pascal_case_symbol(),
            AtomCase::CamelCase => atom.qualifies_as_camel_case_symbol(),
            AtomCase::KebabCase => atom.qualifies_as_kebab_case_symbol(),
        }
    }
}

/// The raw structural node. Four discovered shapes, no meaning attached.
#[derive(Debug, PartialEq, Eq)]
pub enum Block {
    /// A delimiter around an ordered sequence of objects.
    Delimited { delimiter: Delimiter, root_objects: Vec<Block> },
    /// A dot-application: a head object bound to the payload glued after a
    /// period, as one node. Right-associative: `A.B.C` is `App(A, App(B, C))`.
    Application { head: Box<Block>, payload: Box<Block> },
    /// A `(| … |)` multiline-string carrier.
    PipeText(PipeText),
    /// A bare atom: an unbroken run of symbol characters.
    Atom(Atom),
}

impl Clone for Block {
    /// A deep copy of the block and everything inside it.
    fn clone(&self) -> (r: Self)
        decreases self,
    {
        match self {
            Block::Delimited { delimiter, root_objects } => {
                let mut children: Vec<Block> = Vec::new();
                let mut i: usize = 0;
                while i < root_objects.len()
                    invariant
                        i <= root_objects@.len(),
                        *self == (Block::Delimited { delimiter: *delimiter, root_objects: *root_objects }),
                    decreases root_objects.len() - i,
                {
                    proof {
                        assert(decreases_to!(*self => (*self)->root_objects));
                        assert((*self)->root_objects == *root_objects);
                        assert(decreases_to!(*root_objects => root_objects@));
                        assert(decreases_to!(root_objects@ => root_objects@[i as int]));
                    }
                    children.push(root_objects[i].clone());
                    i = i + 1;
                }
                Block::Delimited { delimiter: *delimiter, root_objects: children }
            },
            Block::Application { head, payload } => Block::Application {
                head: Box::new((**head).clone()),
                payload: Box::new((**payload).clone()),
            },
            Block::PipeText(text) => Block::PipeText(text.clone()),
            Block::Atom(atom) => Block::Atom(atom.clone()),
        }
    }
}

/// The flat dotted text of an atom or a dotted chain of atoms.
pub open spec fn dotted(b: Block) -> Option<Seq<char>>
    decreases b,
{
    match b {
        Block::Atom(atom) => Some(atom.spec_text()),
        Block::Application { head, payload } => match (dotted(*head), dotted(*payload)) {
            (Some(h), Some(p)) => Some(h + seq!['.'] + p),
            _ => None,
        },
        _ => None,
    }
}

impl Block {
    /// The head and payload of a dot-application, or `None` for any other
    /// block.
    pub fn as_application(&self) -> (r: Option<(&Block, &Block)>)
        ensures
            match *self {
                Block::Application { head, payload } => r == Some((&*head, &*payload)),
                _ => r is None,
            },
    {
        match self {
            Block::Application { head, payload } => Some((&**head, &**payload)),
            _ => None,
        }
    }

    /// The head object of a dot-application — the object left of the period.
    pub fn application_head(&self) -> (r: Option<&Block>)
        ensures
            match *self {
                Block::Application { head, .. } => r == Some(&*head),
                _ => r is None,
            },
    {
        match self.as_application() {
            Some((head, _)) => Some(head),
            None => None,
        }
    }

    /// The payload object of a dot-application — the object right of the period.
    pub fn application_payload(&self) -> (r: Option<&Block>)
        ensures
            match *self {
                Block::Application { payload, .. } => r == Some(&*payload),
                _ => r is None,
            },
    {
        match self.as_application() {
            Some((_, payload)) => Some(payload),
            None => None,
        }
    }

    pub fn is_parenthesis(&self) -> (r: bool)
        ensures
            r == (*self matches Block::Delimited { delimiter, .. } && delimiter
                == Delimiter::Parenthesis),
    {
        self.is_delimited_with(Delimiter::Parenthesis)
    }

    pub fn is_square_bracket(&self) -> (r: bool)
        ensures
            r == (*self matches Block::Delimited { delimiter, .. } && delimiter
                == Delimiter::SquareBracket),
    {
        self.is_delimited_with(Delimiter::SquareBracket)
    }

    pub fn is_brace(&self) -> (r: bool)
        ensures
            r == (*self matches Block::Delimited { delimiter, .. } && delimiter == Delimiter::Brace),
    {
        self.is_delimited_with(Delimiter::Brace)
    }

    pub fn is_pipe_text(&self) -> (r: bool)
        ensures
            r == (*self is PipeText),
    {
        match self {
            Block::PipeText(_) => true,
            _ => false,
        }
    }

    pub fn is_atom(&self) -> (r: bool)
        ensures
            r == (*self is Atom),
    {
        match self {
            Block::Atom(_) => true,
            _ => false,
        }
    }

    pub fn is_application(&self) -> (r: bool)
        ensures
            r == (*self is Application),
    {
        match self {
            Block::Application { .. } => true,
            _ => false,
        }
    }

    pub fn is_delimited_with(&self, delimiter: Delimiter) -> (r: bool)
        ensures
            r == (*self matches Block::Delimited { delimiter: found, .. } && found == delimiter),
    {
        match self {
            Block::Delimited { delimiter: found, .. } => *found == delimiter,
            _ => false,
        }
    }

    /// The children of a delimited block of the requested delimiter kind, or
    /// `None` for any other block.
    pub fn as_delimited(&self, delimiter: Delimiter) -> (r: Option<&[Block]>)
        ensures
            match *self {
                Block::Delimited { delimiter: found, root_objects } => if found == delimiter {
                    r matches Some(children) && children@ == root_objects@
                } else {
                    r is None
                },
                _ => r is None,
            },
    {
        match self {
            Block::Delimited { delimiter: found, root_objects } => {
                if *found == delimiter {
                    Some(root_objects.as_slice())
                } else {
                    None
                }
            },
            _ => None,
        }
    }

    /// How many child objects a delimited block holds (zero for every other
    /// shape).
    pub fn holds_root_objects(&self) -> (r: usize)
        ensures
            r == match *self {
                Block::Delimited { root_objects, .. } => root_objects@.len(),
                _ => 0,
            },
    {
        match self {
            Block::Delimited { root_objects, .. } => root_objects.len(),
            _ => 0,
        }
    }

    pub fn holds_single_root_object(&self) -> (r: bool)
        ensures
            r == (*self matches Block::Delimited { root_objects, .. } && root_objects@.len() == 1),
    {
        self.holds_root_objects() == 1
    }

    pub fn holds_two_root_objects(&self) -> (r: bool)
        ensures
            r == (*self matches Block::Delimited { root_objects, .. } && root_objects@.len() == 2),
    {
        self.holds_root_objects() == 2
    }

    pub fn root_object_at(&self, index: usize) -> (r: Option<&Block>)
        ensures
            match *self {
                Block::Delimited { root_objects, .. } => if index < root_objects@.len() {
                    r == Some(&root_objects@[index as int])
                } else {
                    r is None
                },
                _ => r is None,
            },
    {
        match self {
            Block::Delimited { root_objects, .. } => {
                if index < root_objects.len() {
                    Some(&root_objects[index])
                } else {
                    None
                }
            },
            _ => None,
        }
    }

    pub fn root_objects(&self) -> (r: &[Block])
        ensures
            r@ == match *self {
                Block::Delimited { root_objects, .. } => root_objects@,
                _ => Seq::empty(),
            },
    {
        match self {
            Block::Delimited { root_objects, .. } => root_objects.as_slice(),
            _ => &[],
        }
    }

    /// The atom this block is, or `None` for a delimited, application, or
    /// pipe-text block.
    pub fn atom(&self) -> (r: Option<&Atom>)
        ensures
            match *self {
                Block::Atom(a) => r == Some(&a),
                _ => r is None,
            },
    {
        match self {
            Block::Atom(atom) => Some(atom),
            _ => None,
        }
    }

    pub fn qualifies_as_symbol(&self) -> (r: bool)
        ensures
            r == (*self matches Block::Atom(a) && is_symbol_text(a.spec_text())),
    {
        match self.atom() {
            Some(atom) => atom.qualifies_as_symbol(),
            None => false,
        }
    }

    pub fn qualifies_as_pascal_case_symbol(&self) -> (r: bool)
        ensures
            r == (*self matches Block::Atom(a) && is_pascal_text(a.spec_text())),
    {
        match self.atom() {
            Some(atom) => atom.qualifies_as_pascal_case_symbol(),
            None => false,
        }
    }

    pub fn qualifies_as_camel_case_symbol(&self) -> (r: bool)
        ensures
            r == (*self matches Block::Atom(a) && is_camel_text(a.spec_text())),
    {
        match self.atom() {
            Some(atom) => atom.qualifies_as_camel_case_symbol(),
            None => false,
        }
    }

    pub fn qualifies_as_kebab_case_symbol(&self) -> (r: bool)
        ensures
            r == (*self matches Block::Atom(a) && is_kebab_text(a.spec_text())),
    {
        match self.atom() {
            Some(atom) => atom.qualifies_as_kebab_case_symbol(),
            None => false,
        }
    }

    /// The flat text of an atom or pipe-text block, or `None` for a delimited
    /// or application block.
    pub fn demote_to_string(&self) -> (r: Option<&str>)
        ensures
            match *self {
                Block::Atom(a) => r matches Some(t) && t@ == a.spec_text(),
                Block::PipeText(p) => r matches Some(t) && t@ == p.spec_text(),
                _ => r is None,
            },
    {
        match self {
            Block::Atom(atom) => Some(atom.text()),
            Block::PipeText(pipe_text) => Some(pipe_text.text()),
            _ => None,
        }
    }

    /// The characters of the flat dotted text of this block.
    fn dotted_chars(&self) -> (r: Option<Vec<char>>)
        ensures
            match (r, dotted(*self)) {
                (Some(v), Some(t)) => v@ == t,
                (None, None) => true,
                _ => false,
            },
        decreases *self,
    {
        match self {
            Block::Atom(atom) => Some(chars_of(atom.text())),
            Block::Application { head, payload } => {
                let mut h = match head.dotted_chars() {
                    Some(h) => h,
                    None => {
                        return None;
                    },
                };
                let p = match payload.dotted_chars() {
                    Some(p) => p,
                    None => {
                        return None;
                    },
                };
                let ghost h0 = h@;
                h.push('.');
                let mut i: usize = 0;
                while i < p.len()
                    invariant
                        i <= p@.len(),
                        h@ == h0 + seq!['.'] + p@.take(i as int),
                    decreases p.len() - i,
                {
                    h.push(p[i]);
                    i = i + 1;
                    assert(h@ =~= h0 + seq!['.'] + p@.take(i as int));
                }
                assert(p@.take(i as int) =~= p@);
                Some(h)
            },
            _ => None,
        }
    }

    /// The flat dotted text of an atom or a dotted chain of atoms, joining the
    /// segments with periods: `App(rustfmt, skip)` → `"rustfmt.skip"`. `None`
    /// when any segment is a delimited or pipe-text block.
    pub fn dotted_text(&self) -> (r: Option<String>)
        ensures
            match (r, dotted(*self)) {
                (Some(s), Some(t)) => s@ == t,
                (None, None) => true,
                _ => false,
            },
    {
        match self.dotted_chars() {
            Some(v) => Some(string_from_chars(v.as_slice())),
            None => None,
        }
    }
}


/// The Pascal, camel, and kebab readings are pairwise exclusive, and the
/// classified case of a symbol is the one reading it has, `Symbol` when it has
/// none: every symbol falls into exactly one case.
pub proof fn lemma_atom_case_partition(t: Seq<char>)
    ensures
        !(is_pascal_text(t) && is_camel_text(t)),
        !(is_pascal_text(t) && is_kebab_text(t)),
        !(is_camel_text(t) && is_kebab_text(t)),
        (case_of(t) == AtomCase::PascalCase) <==> is_pascal_text(t),
        (case_of(t) == AtomCase::CamelCase) <==> is_camel_text(t),
        (case_of(t) == AtomCase::KebabCase) <==> is_kebab_text(t),
        is_symbol_text(t) ==> ((case_of(t) == AtomCase::Symbol) <==> (!is_pascal_text(t)
            && !is_camel_text(t) && !is_kebab_text(t))),
{
}

proof fn lemma_first_dot_past(t: Seq<char>, i: int, k: int)
    requires
        0 <= i <= k < t.len(),
        t[k] == '.',
        forall|j: int| i <= j < k ==> t[j] != '.',
    ensures
        first_dot_from(t, i) == Some(k),
    decreases k - i,
{
    if i < k {
        lemma_first_dot_past(t, i + 1, k);
    }
}

proof fn lemma_first_dot_from(t: Seq<char>, i: int)
    requires
        0 <= i,
    ensures
        first_dot_from(t, i) matches Some(k) ==> i <= k < t.len() && t[k] == '.' && forall|j: int|
            i <= j < k ==> t[j] != '.',
        first_dot_from(t, i) is None ==> forall|j: int| i <= j < t.len() ==> t[j] != '.',
    decreases t.len() - i,
{
    if i < t.len() && t[i] != '.' {
        lemma_first_dot_from(t, i + 1);
    }
}

/// Splitting at the first period undoes joining: a period-free head joined to
/// a non-empty payload by a period splits back into the head and the payload.
pub proof fn lemma_split_undoes_join(head: Seq<char>, payload: Seq<char>)
    requires
        !head.contains('.'),
        payload.len() > 0,
    ensures
        split_at_dot(head + seq!['.'] + payload) == Some((head, Some(payload))),
{
    let t = head + seq!['.'] + payload;
    assert forall|j: int| 0 <= j < head.len() implies t[j] != '.' by {
        assert(t[j] == head[j]);
    }
    lemma_first_dot_past(t, 0, head.len() as int);
    assert(t.subrange(0, head.len() as int) =~= head);
    assert(t.subrange(head.len() as int + 1, t.len() as int) =~= payload);
}

/// Joining undoes splitting: a text splits into a period-free prefix and a
/// remainder that rejoin, around the period, into the text.
pub proof fn lemma_join_undoes_split(t: Seq<char>)
    ensures
        match split_at_dot(t) {
            Some((prefix, Some(rest))) => !prefix.contains('.') && t == prefix + seq!['.'] + rest,
            Some((prefix, None)) => !prefix.contains('.') && t == prefix + seq!['.'],
            None => !t.contains('.'),
        },
{
    lemma_first_dot_from(t, 0);
    match first_dot_from(t, 0) {
        Some(k) => {
            assert(!t.subrange(0, k).contains('.')) by {
                if t.subrange(0, k).contains('.') {
                    let j = choose|j: int| 0 <= j < k && t.subrange(0, k)[j] == '.';
                    assert(t[j] == '.');
                }
            }
            if k + 1 == t.len() {
                assert(t =~= t.subrange(0, k) + seq!['.']);
            } else {
                assert(t =~= t.subrange(0, k) + seq!['.'] + t.subrange(k + 1, t.len() as int));
            }
        },
        None => {
            if t.contains('.') {
                let j = choose|j: int| 0 <= j < t.len() && t[j] == '.';
                assert(t[j] != '.');
            }
        },
    }
}

/// The dotted text of an application of a period-free atom splits back into
/// the atom's text and the dotted text of the payload.
pub proof fn lemma_dotted_chain_splits(head: Atom, payload: Block)
    requires
        !head.spec_text().contains('.'),
        dotted(payload) matches Some(p) && p.len() > 0,
    ensures
        dotted(Block::Application { head: Box::new(Block::Atom(head)), payload: Box::new(payload) })
            matches Some(t) && split_at_dot(t) == Some((head.spec_text(), dotted(payload))),
{
    let b = Block::Application { head: Box::new(Block::Atom(head)), payload: Box::new(payload) };
    let p = dotted(payload)->0;
    assert(dotted(Block::Atom(head)) == Some(head.spec_text()));
    assert(dotted(b) == Some(head.spec_text() + seq!['.'] + p));
    lemma_split_undoes_join(head.spec_text(), p);
}

} // verus!
