//! Witnesses for the versioned raw profile: the profile revision is data and
//! the glyph vocabulary is versioned data, never a runtime guess.

use raw_discovery::{GlyphSet, ProfileRevision, RawProfile};

#[test]
fn the_standard_glyph_set_forbids_the_sigil_and_nomos_admits_it() {
    assert!(!GlyphSet::Standard.admits_dollar_sigil());
    assert!(GlyphSet::NomosExtended.admits_dollar_sigil());
}

#[test]
fn a_profile_is_versioned_data() {
    let profile = RawProfile::new(ProfileRevision::new(7), GlyphSet::NomosExtended);
    assert_eq!(profile.revision(), ProfileRevision::new(7));
    assert_eq!(profile.revision().value(), 7);
    assert_eq!(profile.glyphs(), GlyphSet::NomosExtended);

    // Revisions order, so a consumer can pin and compare them.
    assert!(ProfileRevision::new(1) < ProfileRevision::new(2));

    // The named profiles are ordinary data values.
    assert_eq!(RawProfile::standard().glyphs(), GlyphSet::Standard);
    assert_eq!(
        RawProfile::nomos_extended().glyphs(),
        GlyphSet::NomosExtended
    );
}

#[test]
fn the_standard_profile_forbids_the_dollar_sigil_in_bare_text() {
    let standard = RawProfile::standard().seal().expect("standard");
    let nomos = RawProfile::nomos_extended().seal().expect("nomos");
    assert!(standard.bare_character_is_forbidden('$'));
    assert!(!nomos.bare_character_is_forbidden('$'));
    assert!(!standard.bare_character_is_forbidden('a'));
}

#[test]
fn sealing_two_profiles_gives_distinct_identities() {
    let standard = RawProfile::standard().seal().expect("standard");
    let nomos = RawProfile::nomos_extended().seal().expect("nomos");
    assert_eq!(standard.identity(), standard.identity());
    assert_ne!(standard.identity(), nomos.identity());
}
