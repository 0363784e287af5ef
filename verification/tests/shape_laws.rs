//! Witnesses for the order of identifiers, the order-free construction of
//! prefix rules, and the shape of discovered boundaries and blocks.

use raw_discovery::{
    BlockPrefixAttachment, BlockPrefixRule, BlockTree, BlockTreeDiscoveryConfiguration,
    BoundaryDiscoveryConfiguration, BoundaryDiscoveryContext, BoundaryDiscoveryContextIdentifier,
    BoundaryDiscoveryTransition, BoundaryReader, CharacterClass, CueTerminationRuleIdentifier,
    DiscoveredBlock, DiscoveredBlockTree, ProfileRevision, RawProfile, SealedTokenProfile,
    TriggerIdentifier, TriggerMatchKind, TriggerSet,
};

fn id(value: u16) -> TriggerIdentifier {
    TriggerIdentifier::new(value)
}

fn profile() -> SealedTokenProfile {
    RawProfile::standard().seal().expect("standard profile")
}

fn boundaries() -> BoundaryDiscoveryConfiguration {
    let root = BoundaryDiscoveryContextIdentifier::new(0);
    BoundaryDiscoveryConfiguration::new(
        root,
        vec![BoundaryDiscoveryContext::new(
            root,
            TriggerSet::new(vec![id(0), id(1), id(2), id(4), id(5), id(6)]),
        )],
        vec![
            BoundaryDiscoveryTransition::new(root, id(0), root),
            BoundaryDiscoveryTransition::new(root, id(1), root),
            BoundaryDiscoveryTransition::new(root, id(2), root),
        ],
    )
}

#[test]
fn revisions_and_identifiers_order_by_their_numbers() {
    assert!(ProfileRevision::new(1) < ProfileRevision::new(2));
    assert!(ProfileRevision::new(7) >= ProfileRevision::new(7));
    assert!(!(ProfileRevision::new(3) < ProfileRevision::new(2)));
    assert!(id(2) < id(10));
    assert!(BoundaryDiscoveryContextIdentifier::new(4) > BoundaryDiscoveryContextIdentifier::new(1));
    assert!(CueTerminationRuleIdentifier::new(0) <= CueTerminationRuleIdentifier::new(0));
}

#[test]
fn prefix_attachments_in_any_order_give_the_same_configuration() {
    let dot = || BlockPrefixRule::new(".", CharacterClass::AsciiAlphabetic);
    let forward = BlockTreeDiscoveryConfiguration::new(
        boundaries(),
        vec![
            BlockPrefixAttachment::new(id(0), dot()),
            BlockPrefixAttachment::new(id(1), dot()),
            BlockPrefixAttachment::new(id(2), dot()),
        ],
    );
    let backward = BlockTreeDiscoveryConfiguration::new(
        boundaries(),
        vec![
            BlockPrefixAttachment::new(id(2), dot()),
            BlockPrefixAttachment::new(id(0), dot()),
            BlockPrefixAttachment::new(id(1), dot()),
        ],
    );
    assert_eq!(forward, backward);
    assert_eq!(forward.boundaries(), &boundaries());
    let order: Vec<TriggerIdentifier> = forward.prefixes().iter().map(|p| p.boundary()).collect();
    assert_eq!(order, vec![id(0), id(1), id(2)]);
}

#[test]
fn a_discovered_boundary_opens_at_the_cursor_and_closes_with_its_spelling() {
    let profile = profile();
    let set = profile
        .seal_boundary_discovery_set(TriggerSet::new(vec![id(0), id(1), id(4), id(5), id(6)]))
        .expect("discovery set");
    let source = "x (\u{00e9} [a] (| ) |)) tail";
    let mut reader = BoundaryReader::new(source, &profile);
    reader.advance_to(2);
    let found = reader.discover_delimited(id(0), &set).expect("balanced");
    assert_eq!(found.identifier(), id(0));
    assert_eq!(found.opening().start(), 2);
    assert_eq!(found.opening().end(), 3);
    assert_eq!(found.opening().end(), found.interior().start());
    assert_eq!(found.interior().end(), found.closing().start());
    assert_eq!(&source[found.closing().start()..found.closing().end()], ")");
    assert_eq!(found.end(), found.closing().end());
    assert_eq!(reader.byte_offset(), found.end());
    assert_eq!(reader.remaining(), " tail");
}

fn check_block(source: &str, block: &DiscoveredBlock) {
    let closing = block.closing_bound().expect("delimited blocks close");
    assert_eq!(block.cue().bound().end(), block.content_bound().start());
    assert_eq!(block.content_bound().end(), closing.start());
    assert_eq!(closing.end(), block.source_bound().end());
    assert!(block.source_bound().end() <= source.len());
    let mut previous_end = block.content_bound().start();
    for child in block.children() {
        assert!(previous_end <= child.source_bound().start());
        assert!(child.source_bound().end() <= block.content_bound().end());
        check_block(source, child);
        previous_end = child.closing_bound().unwrap().end();
    }
}

#[test]
fn every_discovered_block_lines_up_its_bounds() {
    let profile = profile();
    let configuration = BlockTreeDiscoveryConfiguration::new(
        boundaries(),
        vec![BlockPrefixAttachment::new(
            id(0),
            BlockPrefixRule::new(".", CharacterClass::AsciiAlphabetic),
        )],
    );
    let source = "ab.( [x {y}] (z) ) cd.(w) {}";
    let tree = DiscoveredBlockTree::discover(source, &profile, &configuration).expect("tree");
    let roots = tree.root_blocks();
    assert_eq!(roots.len(), 3);
    let mut previous_end = 0;
    for block in roots {
        assert!(previous_end <= block.cue().bound().start());
        check_block(source, block);
        previous_end = block.closing_bound().unwrap().end();
    }
    assert_eq!(roots[0].children().len(), 2);
    assert_eq!(roots[0].children()[0].children().len(), 1);
}

#[test]
fn equal_revision_numbers_are_equal_revisions() {
    assert_eq!(ProfileRevision::new(3), ProfileRevision::new(3));
    assert_ne!(ProfileRevision::new(3), ProfileRevision::new(4));
    assert_eq!(ProfileRevision::new(9).value(), 9);
}

#[test]
fn a_longest_match_starts_at_the_cursor_and_carries_a_body_only_for_carriers() {
    let profile = profile();
    let active = profile.root_trigger_set();
    for (source, kind, end, body) in [
        ("(| a |) b", TriggerMatchKind::Carrier, 7, Some(" a ")),
        ("  b", TriggerMatchKind::Trivia, 2, None),
        (";; c\nd", TriggerMatchKind::Trivia, 5, None),
        (". e", TriggerMatchKind::Application, 1, None),
    ] {
        let reader = BoundaryReader::new(source, &profile);
        let matched = reader.longest_match(&active).unwrap().unwrap();
        assert_eq!(matched.start(), reader.byte_offset());
        assert!(matched.start() < matched.end());
        assert!(matched.end() <= reader.bound().end());
        assert!(active.triggers().contains(&matched.identifier()));
        assert_eq!(matched.kind(), kind);
        assert_eq!(matched.end(), end);
        assert_eq!(matched.body(), body);
    }
}

#[test]
fn discovered_trees_and_sealed_data_clone_to_equal_values() {
    let profile = profile();
    let copy = profile.clone();
    assert_eq!(copy.identity(), profile.identity());
    let configuration = BlockTreeDiscoveryConfiguration::new(boundaries(), Vec::new());
    let source = "( [a] ) {b}";
    let tree = DiscoveredBlockTree::discover(source, &copy, &configuration).expect("tree");
    let cloned = tree.clone();
    assert_eq!(cloned, tree);
    assert_eq!(configuration.clone(), configuration);
}
