//! Raw-layer witnesses for the capitalization classifier and the dotted
//! split/join primitives. The classifier is exposed as data; no test asserts
//! any meaning is stamped onto an atom.

use raw_discovery::{Atom, AtomCase, Block, Delimiter, Document, PipeText};

/// `AtomCase::of` classifies every non-empty atom into exactly one case, with
/// `Symbol` as the catch-all.
#[test]
fn atom_case_classifies_each_leading_shape() {
    assert_eq!(AtomCase::of(&Atom::new("TypeName")), AtomCase::PascalCase);
    assert_eq!(AtomCase::of(&Atom::new("camelName")), AtomCase::CamelCase);
    assert_eq!(AtomCase::of(&Atom::new("kebab-name")), AtomCase::KebabCase);
    assert_eq!(AtomCase::of(&Atom::new("42")), AtomCase::Symbol);
    assert_eq!(
        AtomCase::of(&Atom::new("@handle")),
        AtomCase::Symbol,
        "a non-letter leading character is the Symbol catch-all"
    );
    assert_eq!(AtomCase::of(&Atom::new("name@host")), AtomCase::CamelCase);
}

/// A dash makes an atom kebab regardless of its leading letter.
#[test]
fn a_dashed_atom_reads_as_kebab_not_pascal_or_camel() {
    let dashed = Atom::new("Foo-bar");
    assert_eq!(AtomCase::of(&dashed), AtomCase::KebabCase);
    assert!(!dashed.qualifies_as_pascal_case_symbol());
    assert!(!dashed.qualifies_as_camel_case_symbol());
}

/// `AtomCase::matches` is the public partition predicate: only the atom's one
/// classified case matches.
#[test]
fn atom_case_matches_agrees_with_partitioned_classification() {
    let atom = Atom::new("PascalThing");
    assert!(AtomCase::PascalCase.matches(&atom));
    assert!(!AtomCase::Symbol.matches(&atom));
    assert!(!AtomCase::CamelCase.matches(&atom));
    assert!(!AtomCase::KebabCase.matches(&atom));
}

#[test]
fn symbol_catch_all_matches_only_unreadable_symbols() {
    assert!(AtomCase::Symbol.matches(&Atom::new("42")));
    assert!(!AtomCase::Symbol.matches(&Atom::new("")));
    assert!(!AtomCase::Symbol.matches(&Atom::new("two words")));
    assert!(!Atom::new("a.b").qualifies_as_symbol());
    assert!(!Atom::new("(x)").qualifies_as_symbol());
    assert!(Atom::new("schema:module:Type").qualifies_as_symbol());
}

/// The static string split takes a prefix and an optional remainder at the first
/// period, and reports `None` for a dotless string.
#[test]
fn split_text_at_first_dot_takes_prefix_and_remainder() {
    assert_eq!(
        Atom::split_text_at_first_dot("rustfmt.skip"),
        Some(("rustfmt", Some("skip")))
    );
    assert_eq!(
        Atom::split_text_at_first_dot("alpha.beta.gamma"),
        Some(("alpha", Some("beta.gamma"))),
        "only the first period splits; the remainder keeps its dots"
    );
    assert_eq!(
        Atom::split_text_at_first_dot("trailing."),
        Some(("trailing", None)),
        "a trailing period yields an empty (None) remainder"
    );
    assert_eq!(Atom::split_text_at_first_dot("plain"), None);
}

/// The owned-atom split mirrors the string split.
#[test]
fn split_at_first_dot_yields_prefix_and_remainder_atoms() {
    let (prefix, remainder) = Atom::new("rkyv.Archive")
        .split_at_first_dot()
        .expect("splits at the dot");
    assert_eq!(prefix.text(), "rkyv");
    assert_eq!(remainder.expect("remainder").text(), "Archive");

    assert!(Atom::new("dotless").split_at_first_dot().is_none());
}

fn atom(text: &str) -> Block {
    Block::Atom(Atom::new(text))
}

fn application(head: Block, payload: Block) -> Block {
    Block::Application {
        head: Box::new(head),
        payload: Box::new(payload),
    }
}

/// `dotted_text` joins an application chain back to flat dotted text; the
/// split undoes the join.
#[test]
fn dotted_text_joins_a_recognized_chain() {
    let chain = application(atom("alpha"), application(atom("beta"), atom("gamma")));
    assert!(chain.is_application());
    let joined = chain.dotted_text().expect("a chain of atoms has dotted text");
    assert_eq!(joined, "alpha.beta.gamma");
    assert_eq!(
        Atom::split_text_at_first_dot(&joined),
        Some(("alpha", Some("beta.gamma")))
    );
}

#[test]
fn dotted_text_is_none_for_a_delimited_segment() {
    let block = application(
        atom("head"),
        Block::Delimited {
            delimiter: Delimiter::Parenthesis,
            root_objects: vec![atom("a"), atom("b")],
        },
    );
    assert!(block.is_application());
    assert_eq!(block.dotted_text(), None);
    assert_eq!(
        application(atom("head"), Block::PipeText(PipeText::new("text"))).dotted_text(),
        None
    );
}

#[test]
fn dotted_text_of_a_bare_atom_is_the_atom() {
    assert_eq!(atom("solitary").dotted_text(), Some("solitary".to_owned()));
}

#[test]
fn delimiter_spellings_and_wrapping() {
    assert_eq!(Delimiter::Parenthesis.opening_text(), "(");
    assert_eq!(Delimiter::SquareBracket.closing_text(), "]");
    assert_eq!(Delimiter::Brace.description(), "brace");
    assert_eq!(
        Delimiter::Parenthesis.wrap(vec!["Kind".to_owned(), "(Decision)".to_owned()]),
        "(Kind (Decision))"
    );
    assert_eq!(Delimiter::SquareBracket.wrap(Vec::new()), "[]");
}

#[test]
fn delimited_blocks_expose_their_children_and_shape() {
    let square = Block::Delimited {
        delimiter: Delimiter::SquareBracket,
        root_objects: vec![atom("alpha"), atom("beta")],
    };
    assert!(square.is_square_bracket());
    assert!(!square.is_parenthesis());
    assert!(square.holds_two_root_objects());
    assert!(!square.holds_single_root_object());
    assert_eq!(square.root_objects().len(), 2);
    assert_eq!(
        square.root_object_at(1).and_then(Block::demote_to_string),
        Some("beta")
    );
    assert!(square.root_object_at(2).is_none());
    assert!(square.as_delimited(Delimiter::Brace).is_none());
    assert_eq!(
        square
            .as_delimited(Delimiter::SquareBracket)
            .map(|children| children.len()),
        Some(2)
    );
    assert_eq!(atom("x").root_objects().len(), 0);
    assert_eq!(atom("x").holds_root_objects(), 0);

    let chain = application(atom("Head"), atom("payload"));
    assert_eq!(
        chain.application_head().and_then(Block::demote_to_string),
        Some("Head")
    );
    assert_eq!(
        chain.application_payload().and_then(Block::demote_to_string),
        Some("payload")
    );
    assert!(atom("x").as_application().is_none());

    let document = Document::from_root_objects(vec![square, chain]);
    assert_eq!(document.holds_root_objects(), 2);
    assert!(document.root_object_at(0).expect("root").is_square_bracket());
    assert!(document.root_object_at(2).is_none());
    assert_eq!(document.root_objects().len(), 2);
}

#[test]
fn blocks_answer_case_readings_only_for_atoms() {
    assert!(atom("TypeName").qualifies_as_pascal_case_symbol());
    assert!(atom("field-name").qualifies_as_kebab_case_symbol());
    assert!(atom("camelName").qualifies_as_camel_case_symbol());
    assert!(atom("42").qualifies_as_symbol());
    let pipe = Block::PipeText(PipeText::new("literal text"));
    assert!(pipe.is_pipe_text());
    assert!(!pipe.qualifies_as_symbol());
    assert_eq!(pipe.demote_to_string(), Some("literal text"));
    assert!(pipe.atom().is_none());
}
