//! Exclusivity of complete matches under a sealed active set: sealing refuses
//! every pair of triggers that could produce complete matches of one length at
//! one cursor position, so the longest match is never refused as a tie.

use vstd::prelude::*;

use crate::boundary::{
    carrier_scan, class_run_end, escape_view, exact_at, lemma_class_run_end_bounds,
    lemma_newline_end_bounds, longest_from, longest_match_at, newline_end, trigger_match,
    BoundarySide, MatchModel, TriggerMatchKind,
};
use crate::profile::{
    can_tie, carrier_parts, character_classes, class_matches, class_matches_entire,
    classes_overlap, comment_opening, dynamic_opening, exact_spellings,
    lemma_same_data_trigger_set, lemma_sealed_set_unambiguous, lemma_sealed_triggers_valid,
    prefixes_overlap, same_data, seal_error, trigger_is_valid, trigger_of, trigger_set_error,
    CharacterClass, TokenProfileData, TokenProfileError, Trigger, TriggerDefinition,
    TriggerIdentifier,
};
use crate::text::{ends_with, occurs_at, starts_with};

verus! {

/// Whether a line comment's opening holds no newline before its last
/// character (true of every other trigger).
pub open spec fn comment_opening_is_single_line(t: Trigger) -> bool {
    match comment_opening(t) {
        Some(o) => newline_only_last(o),
        None => true,
    }
}

/// Whether `o` holds no newline before its last character.
pub open spec fn newline_only_last(o: Seq<char>) -> bool {
    forall|i: int| 0 <= i < o.len() - 1 ==> #[trigger] o[i] != '\n'
}

/// Whether a matching result is the refusal of two distinct triggers whose
/// complete matches have one length.
pub open spec fn is_tie_refusal(r: Result<Option<MatchModel>, TokenProfileError>) -> bool {
    r matches Err(TokenProfileError::AmbiguousTriggerSet { .. })
}

proof fn lemma_class_run_members(s: Seq<char>, e: int, i: int, class: CharacterClass, k: int)
    requires
        0 <= i <= k < class_run_end(s, e, i, class),
    ensures
        class_matches(class, s[k]),
    decreases e - i,
{
    if k > i {
        lemma_class_run_members(s, e, i + 1, class, k);
    }
}

proof fn lemma_newline_end_skips(s: Seq<char>, e: int, i: int, j: int)
    requires
        0 <= i <= j < e,
        forall|k: int| i <= k < j ==> s[k] != '\n',
    ensures
        newline_end(s, e, i) > j,
    decreases j - i,
{
    if i == j {
        lemma_newline_end_bounds(s, e, i);
    } else {
        lemma_newline_end_skips(s, e, i + 1, j);
    }
}

proof fn lemma_carrier_scan_closes(
    s: Seq<char>,
    e: int,
    cursor: int,
    closing: Seq<char>,
    escape: Option<Seq<char>>,
    body: Seq<char>,
)
    ensures
        carrier_scan(s, e, cursor, closing, escape, body) matches Some((end, _)) ==> end >= cursor
            + closing.len() && occurs_at(s, end - closing.len(), e, closing),
    decreases e - cursor,
{
    if 0 <= cursor < e && !occurs_at(s, cursor, e, closing) {
        match escape {
            Some(esc) => if occurs_at(s, cursor, e, esc) {
                let after = cursor + esc.len();
                if after < e {
                    lemma_carrier_scan_closes(s, e, after + 1, closing, escape, body.push(s[after]));
                }
            } else {
                lemma_carrier_scan_closes(s, e, cursor + 1, closing, escape, body.push(s[cursor]));
            },
            None => {
                lemma_carrier_scan_closes(s, e, cursor + 1, closing, escape, body.push(s[cursor]));
            },
        }
    }
}

/// A complete match of an exact trigger is one of its spellings.
proof fn lemma_exact_match_shape(
    s: Seq<char>,
    p: int,
    e: int,
    id: TriggerIdentifier,
    t: Trigger,
    m: MatchModel,
) -> (k: int)
    requires
        exact_spellings(t).len() > 0,
        trigger_match(s, p, e, id, t) == Ok::<Option<MatchModel>, TokenProfileError>(Some(m)),
    ensures
        0 <= k < exact_spellings(t).len(),
        occurs_at(s, p, e, exact_spellings(t)[k]),
        m.2 == p + exact_spellings(t)[k].len(),
{
    match t {
        Trigger::Boundary { opening, closing } => {
            if exact_at(s, p, e, id, TriggerMatchKind::Boundary(BoundarySide::Opening), opening@)
                == Some(m) {
                0
            } else {
                1
            }
        },
        _ => 0,
    }
}

/// A complete match of a class-driven trigger is one leading character and
/// then continuation characters.
proof fn lemma_class_match_shape(
    s: Seq<char>,
    p: int,
    e: int,
    id: TriggerIdentifier,
    t: Trigger,
    m: MatchModel,
)
    requires
        0 <= p <= e <= s.len(),
        character_classes(t) is Some,
        trigger_match(s, p, e, id, t) == Ok::<Option<MatchModel>, TokenProfileError>(Some(m)),
    ensures
        p < m.2 <= e,
        character_classes(t) matches Some((leading, continuation)) && class_matches(leading, s[p])
            && forall|i: int| p < i < m.2 ==> class_matches(continuation, #[trigger] s[i]),
{
    let (leading, continuation) = character_classes(t)->0;
    lemma_class_run_end_bounds(s, e, p + 1, continuation);
    assert forall|i: int| p < i < m.2 implies class_matches(continuation, #[trigger] s[i]) by {
        lemma_class_run_members(s, e, p + 1, continuation, i);
    }
}

/// A complete match of a carrier or a line comment starts with its opening
/// and extends at least over it; a carrier's ends with its closing.
proof fn lemma_dynamic_match_shape(
    s: Seq<char>,
    p: int,
    e: int,
    id: TriggerIdentifier,
    t: Trigger,
    m: MatchModel,
)
    requires
        0 <= p <= e <= s.len(),
        dynamic_opening(t) is Some,
        trigger_is_valid(t),
        comment_opening_is_single_line(t),
        trigger_match(s, p, e, id, t) == Ok::<Option<MatchModel>, TokenProfileError>(Some(m)),
    ensures
        occurs_at(s, p, e, dynamic_opening(t)->0),
        m.2 >= p + dynamic_opening(t)->0.len(),
        carrier_parts(t) matches Some((o, c)) ==> m.2 >= p + o.len() + c.len() && occurs_at(
            s,
            m.2 - c.len(),
            e,
            c,
        ),
{
    match t {
        Trigger::Carrier { opening, closing, escape } => {
            lemma_carrier_scan_closes(
                s,
                e,
                p + opening@.len(),
                closing@,
                escape_view(escape),
                Seq::empty(),
            );
        },
        Trigger::LineComment { opening } => {
            let o = opening@;
            let j = p + o.len() - 1;
            assert(newline_only_last(o));
            assert forall|k: int| p <= k < j implies s[k] != '\n' by {
                assert(s.subrange(p, p + o.len())[k - p] == s[k]);
                assert(o[k - p] != '\n');
            }
            lemma_newline_end_skips(s, e, p, j);
        },
        _ => {},
    }
}

/// Two classes that both admit one character overlap.
proof fn lemma_classes_overlap_complete(a: CharacterClass, b: CharacterClass, ch: char)
    requires
        class_matches(a, ch),
        class_matches(b, ch),
    ensures
        classes_overlap(a, b),
{
    match (a, b) {
        (CharacterClass::Characters(left), CharacterClass::Characters(right)) => {
            let i = choose|i: int| 0 <= i < left@.len() && left@[i] == ch;
            assert(right@.contains(left@[i]));
        },
        (CharacterClass::Characters(set), _) => {
            let i = choose|i: int| 0 <= i < set@.len() && set@[i] == ch;
            assert(class_matches(b, set@[i]));
        },
        (_, CharacterClass::Characters(set)) => {
            let i = choose|i: int| 0 <= i < set@.len() && set@[i] == ch;
            assert(class_matches(a, set@[i]));
        },
        _ => {},
    }
}

/// Two sequences that both occur at one position: one is a prefix of the
/// other.
proof fn lemma_cooccurring_prefixes(s: Seq<char>, p: int, e: int, a: Seq<char>, b: Seq<char>)
    requires
        occurs_at(s, p, e, a),
        occurs_at(s, p, e, b),
    ensures
        prefixes_overlap(a, b),
{
    if a.len() <= b.len() {
        assert(b.take(a.len() as int) =~= a) by {
            assert forall|i: int| 0 <= i < a.len() implies b[i] == a[i] by {
                assert(s.subrange(p, p + a.len())[i] == s[p + i]);
                assert(s.subrange(p, p + b.len())[i] == s[p + i]);
            }
        }
    } else {
        assert(a.take(b.len() as int) =~= b) by {
            assert forall|i: int| 0 <= i < b.len() implies a[i] == b[i] by {
                assert(s.subrange(p, p + a.len())[i] == s[p + i]);
                assert(s.subrange(p, p + b.len())[i] == s[p + i]);
            }
        }
    }
}

/// Every spelling of a valid exact trigger is non-empty.
proof fn lemma_valid_spellings(t: Trigger, k: int)
    requires
        trigger_is_valid(t),
        0 <= k < exact_spellings(t).len(),
    ensures
        exact_spellings(t)[k].len() > 0,
{
}

/// A spelling `g` of the exact trigger `tx`, found at `p`, can tie any other
/// trigger whose complete match at `p` has the spelling's length.
proof fn lemma_spelling_ties(
    s: Seq<char>,
    p: int,
    e: int,
    tx: Trigger,
    k: int,
    id: TriggerIdentifier,
    t: Trigger,
    m: MatchModel,
)
    requires
        0 <= p <= e <= s.len(),
        trigger_is_valid(tx),
        trigger_is_valid(t),
        comment_opening_is_single_line(t),
        0 <= k < exact_spellings(tx).len(),
        occurs_at(s, p, e, exact_spellings(tx)[k]),
        trigger_match(s, p, e, id, t) == Ok::<Option<MatchModel>, TokenProfileError>(Some(m)),
        m.2 == p + exact_spellings(tx)[k].len(),
    ensures
        can_tie(tx, t),
        can_tie(t, tx),
{
    let g = exact_spellings(tx)[k];
    lemma_valid_spellings(tx, k);
    assert(forall|i: int| 0 <= i < g.len() ==> #[trigger] g[i] == s[p + i]) by {
        assert forall|i: int| 0 <= i < g.len() implies #[trigger] g[i] == s[p + i] by {
            assert(s.subrange(p, p + g.len())[i] == s[p + i]);
        }
    }
    if exact_spellings(t).len() > 0 {
        let j = lemma_exact_match_shape(s, p, e, id, t, m);
        let h = exact_spellings(t)[j];
        assert(h =~= g) by {
            assert forall|i: int| 0 <= i < h.len() implies h[i] == g[i] by {
                assert(s.subrange(p, p + h.len())[i] == s[p + i]);
            }
        }
        assert(exact_spellings(tx)[k] == exact_spellings(t)[j]);
        assert(exact_spellings(t)[j] == exact_spellings(tx)[k]);
    } else if character_classes(t) is Some {
        lemma_class_match_shape(s, p, e, id, t, m);
        let (leading, continuation) = character_classes(t)->0;
        assert(class_matches_entire(leading, continuation, exact_spellings(tx)[k]));
    } else {
        assert(dynamic_opening(t) is Some) by {
            match t {
                Trigger::Carrier { .. } => {},
                Trigger::LineComment { .. } => {},
                _ => {},
            }
        }
        lemma_dynamic_match_shape(s, p, e, id, t, m);
        let o = dynamic_opening(t)->0;
        assert(g.take(o.len() as int) =~= o) by {
            assert forall|i: int| 0 <= i < o.len() implies o[i] == g[i] by {
                assert(s.subrange(p, p + o.len())[i] == s[p + i]);
            }
        }
        assert(starts_with(exact_spellings(tx)[k], o));
        if let Some((oc, c)) = carrier_parts(t) {
            assert(g.skip(g.len() - c.len()) =~= c) by {
                assert forall|i: int| 0 <= i < c.len() implies g.skip(g.len() - c.len())[i] == c[i] by {
                    assert(s.subrange(m.2 - c.len(), m.2 - c.len() + c.len())[i] == s[m.2 - c.len() + i]);
                }
            }
            assert(ends_with(exact_spellings(tx)[k], c));
        }
    }
}

/// Two triggers whose complete matches at one position have one length can
/// tie, in either order.
proof fn lemma_equal_ends_can_tie(
    s: Seq<char>,
    p: int,
    e: int,
    id1: TriggerIdentifier,
    t1: Trigger,
    m1: MatchModel,
    id2: TriggerIdentifier,
    t2: Trigger,
    m2: MatchModel,
)
    requires
        0 <= p <= e <= s.len(),
        trigger_is_valid(t1),
        trigger_is_valid(t2),
        comment_opening_is_single_line(t1),
        comment_opening_is_single_line(t2),
        trigger_match(s, p, e, id1, t1) == Ok::<Option<MatchModel>, TokenProfileError>(Some(m1)),
        trigger_match(s, p, e, id2, t2) == Ok::<Option<MatchModel>, TokenProfileError>(Some(m2)),
        m1.2 == m2.2,
    ensures
        can_tie(t1, t2),
{
    if exact_spellings(t1).len() > 0 {
        let k = lemma_exact_match_shape(s, p, e, id1, t1, m1);
        lemma_spelling_ties(s, p, e, t1, k, id2, t2, m2);
    } else if exact_spellings(t2).len() > 0 {
        let k = lemma_exact_match_shape(s, p, e, id2, t2, m2);
        lemma_spelling_ties(s, p, e, t2, k, id1, t1, m1);
    } else if character_classes(t1) is Some && character_classes(t2) is Some {
        lemma_class_match_shape(s, p, e, id1, t1, m1);
        lemma_class_match_shape(s, p, e, id2, t2, m2);
        let (l1, c1) = character_classes(t1)->0;
        let (l2, c2) = character_classes(t2)->0;
        lemma_classes_overlap_complete(l1, l2, s[p]);
    } else if character_classes(t1) is Some {
        assert(dynamic_opening(t2) is Some) by {
            match t2 {
                Trigger::Carrier { .. } => {},
                Trigger::LineComment { .. } => {},
                _ => {},
            }
        }
        lemma_class_match_shape(s, p, e, id1, t1, m1);
        lemma_dynamic_match_shape(s, p, e, id2, t2, m2);
        let o = dynamic_opening(t2)->0;
        assert(s.subrange(p, p + o.len())[0] == s[p]);
    } else if character_classes(t2) is Some {
        assert(dynamic_opening(t1) is Some) by {
            match t1 {
                Trigger::Carrier { .. } => {},
                Trigger::LineComment { .. } => {},
                _ => {},
            }
        }
        lemma_class_match_shape(s, p, e, id2, t2, m2);
        lemma_dynamic_match_shape(s, p, e, id1, t1, m1);
        let o = dynamic_opening(t1)->0;
        assert(s.subrange(p, p + o.len())[0] == s[p]);
    } else {
        assert(dynamic_opening(t1) is Some && dynamic_opening(t2) is Some) by {
            match t1 {
                Trigger::Carrier { .. } => {},
                Trigger::LineComment { .. } => {},
                _ => {},
            }
            match t2 {
                Trigger::Carrier { .. } => {},
                Trigger::LineComment { .. } => {},
                _ => {},
            }
        }
        lemma_dynamic_match_shape(s, p, e, id1, t1, m1);
        lemma_dynamic_match_shape(s, p, e, id2, t2, m2);
        lemma_cooccurring_prefixes(s, p, e, dynamic_opening(t1)->0, dynamic_opening(t2)->0);
    }
}

/// The scan of `ids[i..]` never refuses a tie when the winner so far is the
/// match of an earlier identifier and no two identifiers' triggers can tie.
proof fn lemma_longest_from_never_ties(
    defs: Seq<TriggerDefinition>,
    s: Seq<char>,
    p: int,
    e: int,
    ids: Seq<TriggerIdentifier>,
    i: int,
    winner: Option<MatchModel>,
)
    requires
        0 <= p <= e <= s.len(),
        0 <= i <= ids.len(),
        forall|k: int| 0 <= k < ids.len() ==> trigger_of(defs, #[trigger] ids[k]) is Some,
        forall|k: int|
            0 <= k < ids.len() ==> trigger_is_valid(trigger_of(defs, #[trigger] ids[k])->0),
        forall|k: int|
            0 <= k < ids.len() ==> comment_opening_is_single_line(
                trigger_of(defs, #[trigger] ids[k])->0,
            ),
        forall|a: int, b: int|
            0 <= a < b < ids.len() ==> !can_tie(
                trigger_of(defs, #[trigger] ids[a])->0,
                trigger_of(defs, #[trigger] ids[b])->0,
            ),
        winner matches Some(w) ==> exists|k: int|
            0 <= k < i && trigger_match(s, p, e, ids[k], trigger_of(defs, #[trigger] ids[k])->0)
                == Ok::<Option<MatchModel>, TokenProfileError>(Some(w)),
    ensures
        !is_tie_refusal(longest_from(defs, s, p, e, ids, i, winner)),
    decreases ids.len() - i,
{
    if i < ids.len() {
        let t = trigger_of(defs, ids[i])->0;
        match trigger_match(s, p, e, ids[i], t) {
            Err(_) => {},
            Ok(None) => {
                lemma_longest_from_never_ties(defs, s, p, e, ids, i + 1, winner);
            },
            Ok(Some(c)) => {
                match winner {
                    None => {
                        lemma_longest_from_never_ties(defs, s, p, e, ids, i + 1, Some(c));
                    },
                    Some(prev) => {
                        let k = choose|k: int|
                            0 <= k < i && trigger_match(
                                s,
                                p,
                                e,
                                ids[k],
                                trigger_of(defs, #[trigger] ids[k])->0,
                            ) == Ok::<Option<MatchModel>, TokenProfileError>(Some(prev));
                        if c.2 > prev.2 {
                            lemma_longest_from_never_ties(defs, s, p, e, ids, i + 1, Some(c));
                        } else if c.2 == prev.2 {
                            let u = trigger_of(defs, ids[k])->0;
                            lemma_equal_ends_can_tie(s, p, e, ids[k], u, prev, ids[i], t, c);
                            assert(false);
                        } else {
                            lemma_longest_from_never_ties(defs, s, p, e, ids, i + 1, winner);
                        }
                    },
                }
            },
        }
    }
}

/// Over sealed profile data, the longest match of an active set sealed
/// against the same data is never refused as a tie, at any position and in any
/// bound, provided none of the set's line-comment openings holds a newline
/// before its last character.
pub proof fn lemma_sealed_longest_match_never_ties(
    data: TokenProfileData,
    set_data: TokenProfileData,
    ids: Seq<TriggerIdentifier>,
    s: Seq<char>,
    p: int,
    e: int,
)
    requires
        seal_error(data) is None,
        trigger_set_error(set_data.spec_definitions(), ids) is None,
        forall|k: int|
            0 <= k < ids.len() ==> comment_opening_is_single_line(
                trigger_of(data.spec_definitions(), #[trigger] ids[k])->0,
            ),
        0 <= p <= e <= s.len(),
    ensures
        !is_tie_refusal(longest_match_at(data, set_data, ids, s, p, e)),
{
    if same_data(set_data, data) {
        let defs = data.spec_definitions();
        lemma_same_data_trigger_set(set_data, data, ids);
        lemma_sealed_set_unambiguous(defs, ids);
        assert forall|k: int| 0 <= k < ids.len() implies trigger_is_valid(
            trigger_of(defs, #[trigger] ids[k])->0,
        ) by {
            lemma_sealed_triggers_valid(data, ids[k]);
        }
        lemma_longest_from_never_ties(defs, s, p, e, ids, 0, None);
    }
}

/// Two classes overlap exactly when some character is admitted by both.
pub proof fn lemma_classes_overlap_iff_shared(a: CharacterClass, b: CharacterClass)
    ensures
        classes_overlap(a, b) <==> exists|c: char| class_matches(a, c) && class_matches(b, c),
{
    if exists|c: char| class_matches(a, c) && class_matches(b, c) {
        let c = choose|c: char| class_matches(a, c) && class_matches(b, c);
        lemma_classes_overlap_complete(a, b, c);
    }
    if classes_overlap(a, b) {
        match (a, b) {
            (CharacterClass::Characters(left), CharacterClass::Characters(right)) => {
                let i = choose|i: int| 0 <= i < left@.len() && right@.contains(#[trigger] left@[i]);
                assert(class_matches(a, left@[i]) && class_matches(b, left@[i]));
            },
            (CharacterClass::Characters(set), _) => {
                let i = choose|i: int| 0 <= i < set@.len() && class_matches(b, #[trigger] set@[i]);
                assert(set@.contains(set@[i]));
                assert(class_matches(a, set@[i]) && class_matches(b, set@[i]));
            },
            (_, CharacterClass::Characters(set)) => {
                let i = choose|i: int| 0 <= i < set@.len() && class_matches(a, #[trigger] set@[i]);
                assert(set@.contains(set@[i]));
                assert(class_matches(a, set@[i]) && class_matches(b, set@[i]));
            },
            (CharacterClass::Whitespace, _) => {
                assert(class_matches(a, ' ') && class_matches(b, ' '));
            },
            (CharacterClass::AsciiDigit, _) => {
                assert(class_matches(a, '0') && class_matches(b, '0'));
            },
            (_, CharacterClass::AsciiDigit) => {
                assert(class_matches(a, '0') && class_matches(b, '0'));
            },
            _ => {
                assert(class_matches(a, 'a') && class_matches(b, 'a'));
            },
        }
    }
}

} // verus!
