//! Witnesses for the reader's cursor rules, each typed refusal, and the laws
//! of sealing and discovery on concrete values.

use raw_discovery::{
    BlockDiscoveryError, BlockPrefixAttachment, BlockPrefixRule, BlockTree,
    BlockTreeDiscoveryConfiguration, BoundaryDiscoveryConfiguration, BoundaryDiscoveryContext,
    BoundaryDiscoveryContextIdentifier, BoundaryDiscoveryError, BoundaryDiscoveryTransition,
    BoundaryReader, CharacterClass, CharacterSet, CueTerminatedBlockDiscoveryConfiguration,
    CueTerminationRule, CueTerminationRuleIdentifier, DiscoveredBlockTree,
    DiscoveredCueTerminatedBlockTree, ProfileRevision, RawProfile, SealedTokenProfile,
    SourceBound, TokenProfileData, TokenProfileError, Trigger, TriggerDefinition,
    TriggerIdentifier, TriggerMatchKind, TriggerSet,
};

fn id(value: u16) -> TriggerIdentifier {
    TriggerIdentifier::new(value)
}

fn context(value: u16) -> BoundaryDiscoveryContextIdentifier {
    BoundaryDiscoveryContextIdentifier::new(value)
}

fn standard() -> SealedTokenProfile {
    RawProfile::standard().seal().expect("standard profile")
}

fn letters() -> CharacterClass {
    CharacterClass::Characters(CharacterSet::from_text("abcdefghijklmnopqrstuvwxyz"))
}

#[test]
fn source_bounds_are_checked_against_character_boundaries() {
    let source = "a\u{00e9}b";
    let whole = SourceBound::whole(source);
    assert_eq!((whole.start(), whole.end()), (0, 4));
    assert!(!whole.is_empty());
    let inner = SourceBound::checked(source, 1, 3).expect("character boundaries");
    assert_eq!((inner.start(), inner.end()), (1, 3));
    assert!(matches!(
        SourceBound::checked(source, 2, 3),
        Err(TokenProfileError::InvalidSourceBound {
            start: 2,
            end: 3,
            source_length: 4
        })
    ));
    assert!(SourceBound::checked(source, 3, 1).is_err());
    assert!(SourceBound::checked(source, 0, 5).is_err());
}

#[test]
fn the_cursor_advances_by_characters_and_bytes() {
    let profile = standard();
    let mut reader = BoundaryReader::new("\u{00e9}xy", &profile);
    assert_eq!(reader.advance_character(), Some('\u{00e9}'));
    assert_eq!(reader.byte_offset(), 2);
    reader.advance_to(3);
    assert_eq!(reader.remaining(), "y");
    reader.advance_uninterpreted_character();
    assert!(reader.is_end());
    assert_eq!(reader.advance_character(), None);
    assert_eq!((reader.bound().start(), reader.bound().end()), (0, 4));
}

#[test]
fn a_line_comment_runs_through_its_newline() {
    let profile = standard();
    let active = profile.root_trigger_set();
    let reader = BoundaryReader::new(";; note\nnext", &profile);
    let comment = reader
        .longest_match(&active)
        .expect("matching succeeds")
        .expect("comment matches");
    assert_eq!(comment.kind(), TriggerMatchKind::Trivia);
    assert!(comment.is_trivia());
    assert_eq!(comment.identifier(), id(6));
    assert_eq!((comment.start(), comment.end()), (0, 8));
    assert_eq!(comment.body(), None);
}

#[test]
fn a_carrier_escape_takes_the_next_character_literally() {
    let profile = standard();
    let active = profile.root_trigger_set();
    let mut reader = BoundaryReader::new("(|a\\|)b|) tail", &profile);
    let carrier = reader
        .consume(&active)
        .expect("carrier read")
        .expect("carrier exists");
    assert_eq!(carrier.kind(), TriggerMatchKind::Carrier);
    assert_eq!(carrier.body(), Some("a|)b"));
    assert_eq!(carrier.end(), 9);
    assert_eq!(reader.remaining(), " tail");
}

#[test]
fn an_unclosed_carrier_is_refused_at_its_opening() {
    let profile = standard();
    let active = profile.root_trigger_set();
    let reader = BoundaryReader::new("x (|never closed", &profile);
    let mut reader = reader;
    reader.advance_to(2);
    assert!(matches!(
        reader.longest_match(&active),
        Err(TokenProfileError::UnclosedCarrier {
            identifier,
            byte_offset: 2
        }) if identifier == id(4)
    ));
}

#[test]
fn a_forbidden_bare_character_is_refused_where_it_stands() {
    let profile = standard();
    let active = profile.root_trigger_set();
    let mut reader = BoundaryReader::new("ab$c", &profile);
    assert!(matches!(
        reader.read_bare(&active),
        Err(TokenProfileError::ForbiddenBareCharacter {
            character: '$',
            byte_offset: 2
        })
    ));
    let nomos = RawProfile::nomos_extended().seal().expect("nomos");
    let nomos_active = nomos.root_trigger_set();
    let mut reader = BoundaryReader::new("ab$c", &nomos);
    assert_eq!(
        reader.read_bare(&nomos_active).expect("bare read").as_deref(),
        Some("ab$c")
    );
}

#[test]
fn discovery_refuses_a_missing_or_inactive_opening() {
    let profile = standard();
    let discovery = profile
        .seal_boundary_discovery_set(TriggerSet::new(vec![id(0), id(5)]))
        .expect("discovery set");
    let mut reader = BoundaryReader::new("x(y)", &profile);
    assert!(matches!(
        reader.discover_delimited(id(0), &discovery),
        Err(TokenProfileError::ExpectedBoundaryOpening {
            identifier,
            byte_offset: 0
        }) if identifier == id(0)
    ));
    assert!(matches!(
        reader.discover_delimited(id(1), &discovery),
        Err(TokenProfileError::InactiveBoundary { identifier }) if identifier == id(1)
    ));
    let nomos = RawProfile::nomos_extended().seal().expect("nomos");
    let mut other = BoundaryReader::new("(y)", &nomos);
    assert!(matches!(
        other.discover_delimited(id(0), &discovery),
        Err(TokenProfileError::TriggerSetProfileMismatch)
    ));
}

#[test]
fn a_discovered_boundary_nests_its_interior_between_its_spellings() {
    let profile = standard();
    let discovery = profile
        .seal_boundary_discovery_set(TriggerSet::new(vec![id(0), id(1), id(5)]))
        .expect("discovery set");
    let source = "([a] b)c";
    let mut reader = BoundaryReader::new(source, &profile);
    let outer = reader
        .discover_delimited(id(0), &discovery)
        .expect("outer boundary");
    assert_eq!(outer.identifier(), id(0));
    assert_eq!((outer.opening().start(), outer.opening().end()), (0, 1));
    assert_eq!((outer.interior().start(), outer.interior().end()), (1, 6));
    assert_eq!((outer.closing().start(), outer.closing().end()), (6, 7));
    assert_eq!(outer.end(), 7);
    assert_eq!(reader.remaining(), "c");
}

fn one_context(boundaries: Vec<TriggerIdentifier>) -> BoundaryDiscoveryConfiguration {
    let root = context(1);
    let transitions = boundaries
        .iter()
        .map(|boundary| BoundaryDiscoveryTransition::new(root, *boundary, root))
        .collect();
    BoundaryDiscoveryConfiguration::new(
        root,
        vec![BoundaryDiscoveryContext::new(root, TriggerSet::new(boundaries))],
        transitions,
    )
}

#[test]
fn boundary_configurations_refuse_each_malformed_rule() {
    let profile = standard();
    let root = context(1);
    let duplicate_context = BoundaryDiscoveryConfiguration::new(
        root,
        vec![
            BoundaryDiscoveryContext::new(root, TriggerSet::new(Vec::new())),
            BoundaryDiscoveryContext::new(root, TriggerSet::new(Vec::new())),
        ],
        Vec::new(),
    );
    assert!(matches!(
        duplicate_context.seal(&profile),
        Err(BoundaryDiscoveryError::DuplicateContext { context }) if context == root
    ));

    let missing_root = BoundaryDiscoveryConfiguration::new(
        context(9),
        vec![BoundaryDiscoveryContext::new(root, TriggerSet::new(Vec::new()))],
        Vec::new(),
    );
    assert!(matches!(
        missing_root.seal(&profile),
        Err(BoundaryDiscoveryError::UnknownContext { context: found }) if found == context(9)
    ));

    let duplicate_transition = BoundaryDiscoveryConfiguration::new(
        root,
        vec![
            BoundaryDiscoveryContext::new(root, TriggerSet::new(vec![id(0)])),
            BoundaryDiscoveryContext::new(context(2), TriggerSet::new(Vec::new())),
        ],
        vec![
            BoundaryDiscoveryTransition::new(root, id(0), root),
            BoundaryDiscoveryTransition::new(root, id(0), context(2)),
        ],
    );
    assert!(matches!(
        duplicate_transition.seal(&profile),
        Err(BoundaryDiscoveryError::DuplicateTransition { context, boundary })
            if context == root && boundary == id(0)
    ));

    let inactive = BoundaryDiscoveryConfiguration::new(
        root,
        vec![BoundaryDiscoveryContext::new(root, TriggerSet::new(Vec::new()))],
        vec![BoundaryDiscoveryTransition::new(root, id(0), root)],
    );
    assert!(matches!(
        inactive.seal(&profile),
        Err(BoundaryDiscoveryError::InactiveTransitionBoundary { context, boundary })
            if context == root && boundary == id(0)
    ));

    let carrier_transition = BoundaryDiscoveryConfiguration::new(
        root,
        vec![BoundaryDiscoveryContext::new(root, TriggerSet::new(vec![id(4)]))],
        vec![BoundaryDiscoveryTransition::new(root, id(4), root)],
    );
    assert!(matches!(
        carrier_transition.seal(&profile),
        Err(BoundaryDiscoveryError::TransitionRequiresBoundary { context, trigger })
            if context == root && trigger == id(4)
    ));

    let horizontal = one_context(vec![id(3)]);
    assert!(matches!(
        horizontal.seal(&profile),
        Err(BoundaryDiscoveryError::Profile(
            TokenProfileError::UnsupportedBoundaryDiscoveryTrigger(identifier)
        )) if identifier == id(3)
    ));

    let missing_child = BoundaryDiscoveryConfiguration::new(
        root,
        vec![BoundaryDiscoveryContext::new(root, TriggerSet::new(vec![id(0)]))],
        Vec::new(),
    );
    assert!(matches!(
        missing_child.seal(&profile),
        Err(BoundaryDiscoveryError::MissingChildContext { context, boundary })
            if context == root && boundary == id(0)
    ));

    let sealed = one_context(vec![id(0), id(1)]).seal(&profile).expect("seals");
    assert_eq!(sealed.root(), root);
}

#[test]
fn construction_puts_contexts_and_transitions_in_canonical_order() {
    let configuration = BoundaryDiscoveryConfiguration::new(
        context(2),
        vec![
            BoundaryDiscoveryContext::new(context(3), TriggerSet::new(vec![id(1), id(0)])),
            BoundaryDiscoveryContext::new(context(2), TriggerSet::new(vec![id(0)])),
        ],
        vec![
            BoundaryDiscoveryTransition::new(context(3), id(1), context(2)),
            BoundaryDiscoveryTransition::new(context(2), id(0), context(3)),
            BoundaryDiscoveryTransition::new(context(3), id(0), context(2)),
        ],
    );
    let contexts: Vec<u16> = configuration
        .contexts()
        .iter()
        .map(|context| context.identifier().value())
        .collect();
    assert_eq!(contexts, vec![2, 3]);
    assert_eq!(configuration.contexts()[1].triggers().triggers(), &[id(0), id(1)]);
    assert!(configuration.contexts()[1].triggers().is_canonical());
    let transitions: Vec<(u16, u16)> = configuration
        .transitions()
        .iter()
        .map(|transition| (transition.context().value(), transition.boundary().value()))
        .collect();
    assert_eq!(transitions, vec![(2, 0), (3, 0), (3, 1)]);
    assert_eq!(configuration.root(), context(2));
    configuration.seal(&standard()).expect("canonical data seals");
}

#[test]
fn prefix_rules_refuse_each_malformed_attachment() {
    let profile = standard();
    let rule = BlockPrefixRule::new(".", letters());
    let duplicate = BlockTreeDiscoveryConfiguration::new(
        one_context(vec![id(0)]),
        vec![
            BlockPrefixAttachment::new(id(0), rule.clone()),
            BlockPrefixAttachment::new(id(0), rule.clone()),
        ],
    );
    assert!(matches!(
        duplicate.seal(&profile),
        Err(BlockDiscoveryError::DuplicatePrefixRule { boundary }) if boundary == id(0)
    ));
    let empty = BlockTreeDiscoveryConfiguration::new(
        one_context(vec![id(0)]),
        vec![BlockPrefixAttachment::new(id(0), BlockPrefixRule::new("", letters()))],
    );
    assert!(matches!(
        empty.seal(&profile),
        Err(BlockDiscoveryError::EmptyPrefixSeparator { boundary }) if boundary == id(0)
    ));
    let not_boundary = BlockTreeDiscoveryConfiguration::new(
        one_context(vec![id(0)]),
        vec![BlockPrefixAttachment::new(id(4), rule.clone())],
    );
    assert!(matches!(
        not_boundary.seal(&profile),
        Err(BlockDiscoveryError::PrefixRequiresBoundary { trigger }) if trigger == id(4)
    ));
    let unconfigured = BlockTreeDiscoveryConfiguration::new(
        one_context(vec![id(0)]),
        vec![BlockPrefixAttachment::new(id(1), rule.clone())],
    );
    assert!(matches!(
        unconfigured.seal(&profile),
        Err(BlockDiscoveryError::UnconfiguredPrefixBoundary { boundary }) if boundary == id(1)
    ));
    let unknown = BlockTreeDiscoveryConfiguration::new(
        one_context(vec![id(0)]),
        vec![BlockPrefixAttachment::new(id(77), rule)],
    );
    assert!(matches!(
        unknown.seal(&profile),
        Err(BlockDiscoveryError::Profile(TokenProfileError::UnknownTriggerIdentifier(identifier)))
            if identifier == id(77)
    ));
}

#[test]
fn a_prefix_never_reaches_outside_its_containing_bound() {
    let profile = standard();
    let configuration = BlockTreeDiscoveryConfiguration::new(
        one_context(vec![id(0), id(1)]),
        vec![BlockPrefixAttachment::new(
            id(1),
            BlockPrefixRule::new(".", letters()),
        )],
    );
    let source = "(ab.[x]) cd.[y]";
    let tree = DiscoveredBlockTree::discover(source, &profile, &configuration).expect("tree");
    let roots = tree.root_blocks();
    assert_eq!(roots.len(), 2);
    let child = &roots[0].children()[0];
    let prefix = child.prefix().expect("prefix inside the parenthesis");
    assert_eq!(&source[prefix.word().start()..prefix.word().end()], "ab");
    assert!(child.source_bound().start() >= roots[0].content_bound().start());
    let second = roots[1].prefix().expect("top-level prefix");
    assert_eq!(&source[second.word().start()..second.word().end()], "cd");
    assert_eq!(
        &source[roots[1].source_bound().start()..roots[1].source_bound().end()],
        "cd.[y]"
    );
    assert!(roots[0].prefix().is_none());
}

fn cue_profile() -> SealedTokenProfile {
    TokenProfileData::new(
        ProfileRevision::new(3),
        vec![
            TriggerDefinition {
                identifier: id(0),
                trigger: Trigger::Boundary {
                    opening: "(".to_owned(),
                    closing: ")".to_owned(),
                },
            },
            TriggerDefinition {
                identifier: id(1),
                trigger: Trigger::Carrier {
                    opening: "\"".to_owned(),
                    closing: "\"".to_owned(),
                    escape: None,
                },
            },
            TriggerDefinition {
                identifier: id(2),
                trigger: Trigger::Whitespace {
                    canonical_spelling: " ".to_owned(),
                },
            },
        ],
        TriggerSet::new(vec![id(0), id(1), id(2)]),
        String::new(),
    )
    .seal()
    .expect("cue profile")
}

fn cue_boundaries() -> BoundaryDiscoveryConfiguration {
    let root = context(0);
    BoundaryDiscoveryConfiguration::new(
        root,
        vec![BoundaryDiscoveryContext::new(
            root,
            TriggerSet::new(vec![id(0), id(1), id(2)]),
        )],
        vec![BoundaryDiscoveryTransition::new(root, id(0), root)],
    )
}

fn rule(value: u16) -> CueTerminationRuleIdentifier {
    CueTerminationRuleIdentifier::new(value)
}

#[test]
fn cue_rules_refuse_each_malformed_rule() {
    let profile = cue_profile();
    let refuse = |rules: Vec<CueTerminationRule>| {
        CueTerminatedBlockDiscoveryConfiguration::new(cue_boundaries(), rules)
            .seal(&profile)
            .err()
    };
    assert_eq!(
        refuse(vec![CueTerminationRule::new(rule(1), "", ";", letters())]),
        Some(BlockDiscoveryError::EmptyCue { rule: rule(1) })
    );
    assert_eq!(
        refuse(vec![CueTerminationRule::new(rule(1), "let", "", letters())]),
        Some(BlockDiscoveryError::EmptyTermination { rule: rule(1) })
    );
    assert_eq!(
        refuse(vec![CueTerminationRule::new(rule(1), "let1", ";", letters())]),
        Some(BlockDiscoveryError::CueOutsideWordAlphabet { rule: rule(1) })
    );
    assert_eq!(
        refuse(vec![CueTerminationRule::new(rule(1), "let", " ;", letters())]),
        Some(BlockDiscoveryError::CueRuleTriggerOverlap {
            rule: rule(1),
            trigger: id(2)
        })
    );
    assert_eq!(
        refuse(vec![CueTerminationRule::through_boundary(rule(1), "let", id(9), letters())]),
        Some(BlockDiscoveryError::Profile(
            TokenProfileError::InactiveBoundary { identifier: id(9) }
        ))
    );
    assert_eq!(
        refuse(vec![
            CueTerminationRule::new(rule(1), "let", ";", letters()),
            CueTerminationRule::new(rule(2), "let", ";", letters()),
        ]),
        Some(BlockDiscoveryError::DuplicateCueSpelling {
            first: rule(1),
            second: rule(2)
        })
    );
}

#[test]
fn a_carrier_cannot_terminate_a_cue_block() {
    let profile = cue_profile();
    let outcome = CueTerminatedBlockDiscoveryConfiguration::new(
        cue_boundaries(),
        vec![CueTerminationRule::through_boundary(rule(1), "let", id(1), letters())],
    )
    .seal(&profile);
    assert!(matches!(
        outcome,
        Err(BlockDiscoveryError::Profile(
            TokenProfileError::UnsupportedBoundaryDiscoveryTrigger(identifier)
        )) if identifier == id(1)
    ));
}

#[test]
fn the_longest_complete_cue_wins_and_a_wrong_profile_is_refused() {
    let profile = cue_profile();
    let configuration = CueTerminatedBlockDiscoveryConfiguration::new(
        cue_boundaries(),
        vec![
            CueTerminationRule::new(rule(1), "let", ";", letters()),
            CueTerminationRule::through_boundary(rule(2), "letrec", id(0), letters()),
        ],
    )
    .seal(&profile)
    .expect("rules seal");
    assert_eq!(configuration.rules().len(), 2);
    let source = "letrec f(x) ; let y;";
    let tree = DiscoveredCueTerminatedBlockTree::discover(source, &profile, &configuration)
        .expect("cue tree");
    let roots = tree.root_blocks();
    assert_eq!(roots.len(), 2);
    assert_eq!(
        &source[roots[0].source_bound().start()..roots[0].source_bound().end()],
        "letrec f(x)"
    );
    assert_eq!(
        &source[roots[1].source_bound().start()..roots[1].source_bound().end()],
        "let y;"
    );
    assert!(roots[1].prefix().is_none());

    let other = RawProfile::standard().seal().expect("standard");
    assert_eq!(
        DiscoveredCueTerminatedBlockTree::discover(source, &other, &configuration).err(),
        Some(BlockDiscoveryError::Profile(
            TokenProfileError::TriggerSetProfileMismatch
        ))
    );
}

fn seal_with(definitions: Vec<TriggerDefinition>) -> Result<SealedTokenProfile, TokenProfileError> {
    let identifiers = definitions.iter().map(|d| d.identifier).collect::<Vec<_>>();
    TokenProfileData::new(
        ProfileRevision::new(1),
        definitions,
        TriggerSet::new(identifiers),
        String::new(),
    )
    .seal()
}

#[test]
fn a_sealed_set_picks_one_longest_match_among_nested_spellings() {
    let profile = seal_with(vec![
        TriggerDefinition {
            identifier: id(0),
            trigger: Trigger::Punctuation { glyph: "<".to_owned() },
        },
        TriggerDefinition {
            identifier: id(1),
            trigger: Trigger::Punctuation { glyph: "<=".to_owned() },
        },
        TriggerDefinition {
            identifier: id(2),
            trigger: Trigger::LineComment { opening: "<<".to_owned() },
        },
        TriggerDefinition {
            identifier: id(3),
            trigger: Trigger::LeadingCharacterClass {
                leading: letters(),
                continuation: letters(),
            },
        },
    ])
    .expect("no two triggers can tie");
    let active = profile.root_trigger_set();
    for (text, winner, end) in [("<= x", 1, 2), ("< x", 0, 1), ("<< x\ny", 2, 5), ("ab<", 3, 2)] {
        let reader = BoundaryReader::new(text, &profile);
        let matched = reader
            .longest_match(&active)
            .expect("never refused as a tie")
            .expect("some trigger matches");
        assert_eq!((matched.identifier(), matched.end()), (id(winner), end));
    }
}

#[test]
fn a_comment_opening_with_an_inner_newline_can_tie_after_sealing() {
    let profile = seal_with(vec![
        TriggerDefinition {
            identifier: id(0),
            trigger: Trigger::LineComment { opening: "#\n!".to_owned() },
        },
        TriggerDefinition {
            identifier: id(1),
            trigger: Trigger::Punctuation { glyph: "#\n".to_owned() },
        },
    ])
    .expect("sealing does not look inside a comment opening");
    let active = profile.root_trigger_set();
    let reader = BoundaryReader::new("#\n!", &profile);
    assert!(matches!(
        reader.longest_match(&active),
        Err(TokenProfileError::AmbiguousTriggerSet { first, second })
            if first == id(0) && second == id(1)
    ));
}

#[test]
fn cue_block_children_stay_between_the_cue_and_the_closing() {
    let profile = cue_profile();
    let configuration = CueTerminatedBlockDiscoveryConfiguration::new(
        cue_boundaries(),
        vec![
            CueTerminationRule::new(rule(1), "let", ";", letters()),
            CueTerminationRule::through_boundary(rule(2), "fn", id(0), letters()),
        ],
    )
    .seal(&profile)
    .expect("sealed rules");
    let source = "let (a (b)) ; fn x (y)";
    let tree = DiscoveredCueTerminatedBlockTree::discover(source, &profile, &configuration)
        .expect("both blocks close");
    let roots = tree.root_blocks();
    assert_eq!(roots.len(), 2);
    let mut previous_end = 0;
    for block in roots {
        let source_bound = block.source_bound();
        let cue = block.cue().bound();
        let content = block.content_bound();
        let closing = block.closing_bound().expect("cue blocks close");
        assert!(previous_end <= source_bound.start());
        assert_eq!(source_bound.start(), cue.start());
        assert_eq!(cue.end(), content.start());
        assert_eq!(content.end(), closing.start());
        assert_eq!(closing.end(), source_bound.end());
        for child in block.children() {
            assert!(content.start() <= child.source_bound().start());
            assert!(child.source_bound().end() <= closing.end());
            for grandchild in child.children() {
                assert!(child.content_bound().start() <= grandchild.source_bound().start());
                assert!(grandchild.source_bound().end() <= child.content_bound().end());
            }
        }
        previous_end = source_bound.end();
    }
    let first = &roots[0];
    assert_eq!(&source[first.source_bound().start()..first.source_bound().end()], "let (a (b)) ;");
    assert_eq!(first.children().len(), 1);
    assert_eq!(first.children()[0].children().len(), 1);
    let second = &roots[1];
    assert_eq!(&source[second.source_bound().start()..second.source_bound().end()], "fn x (y)");
    let through = &second.children()[0];
    assert_eq!(through.source_bound().end(), second.closing_bound().unwrap().end());
    assert!(through.source_bound().end() > second.content_bound().end());
}

#[test]
fn forbidden_text_is_identity_bearing_as_written() {
    let build = |forbidden: &str| {
        TokenProfileData::new(
            ProfileRevision::new(1),
            vec![TriggerDefinition {
                identifier: id(0),
                trigger: Trigger::Whitespace {
                    canonical_spelling: " ".to_owned(),
                },
            }],
            TriggerSet::new(vec![id(0)]),
            forbidden.to_owned(),
        )
        .seal()
        .expect("seals")
    };
    let first = build("\"$");
    let second = build("$\"");
    assert!(first.bare_character_is_forbidden('$'));
    assert!(second.bare_character_is_forbidden('"'));
    assert!(!first.bare_character_is_forbidden('a'));
    assert_ne!(first.identity(), second.identity());
    assert_eq!(first.identity(), build("\"$").identity());
    let set = second.root_trigger_set();
    let reader = BoundaryReader::new(" x", &first);
    assert!(matches!(
        reader.longest_match(&set),
        Err(TokenProfileError::TriggerSetProfileMismatch)
    ));
}
