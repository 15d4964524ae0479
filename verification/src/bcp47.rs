//! Matching of BCP 47 language tags, such as `zh-cmn-Hans-CN`.
//!
//! The grammar of language tags is left to the `language-tags` crate. What
//! this module reads of a tag are its subtags, held as plain strings in
//! [`Subtags`]; an identifier that is not a well-formed tag has none, and takes
//! no part in the matching.

use vstd::prelude::*;
use language_tags::LanguageTag;
use crate::select::{
    decides, first_best, first_best_index, first_choice, has_match, is_first_best,
    lemma_first_best_is, lemma_first_best_some, lemma_first_choice_decided,
    lemma_first_choice_fallthrough, lemma_first_choice_is_winner, lemma_first_choice_none_iff,
    lemma_first_of_two_equal, widen, widen_score,
};

verus! {

/// What an agreeing extended language adds to a score.
pub const EXTENDED_LANGUAGE_WEIGHT: u8 = 32;

/// What an agreeing script adds to a score.
pub const SCRIPT_WEIGHT: u8 = 16;

/// What an agreeing region adds to a score.
pub const REGION_WEIGHT: u8 = 8;

/// What an agreeing variant adds to a score.
pub const VARIANT_WEIGHT: u8 = 4;

/// What an agreeing extension adds to a score.
pub const EXTENSION_WEIGHT: u8 = 2;

/// What an agreeing private use part adds to a score.
pub const PRIVATE_USE_WEIGHT: u8 = 1;

/// The subtags of a language tag, each in the letter case in which the parser
/// writes it, so that equal subtags are equal strings.
#[derive(Debug, Clone, PartialEq, Eq)]
pub struct Subtags {
    /// The primary language.
    pub language: String,
    /// The extended language subtags, as one string.
    pub extended_language: Option<String>,
    /// The script.
    pub script: Option<String>,
    /// The region.
    pub region: Option<String>,
    /// The variant subtags, as one string.
    pub variant: Option<String>,
    /// The extensions, as one string.
    pub extension: Option<String>,
    /// The private use subtags, as one string.
    pub private_use: Option<String>,
}

/// The subtags of a language tag as sequences of characters.
pub ghost struct SubtagsView {
    pub language: Seq<char>,
    pub extended_language: Option<Seq<char>>,
    pub script: Option<Seq<char>>,
    pub region: Option<Seq<char>>,
    pub variant: Option<Seq<char>>,
    pub extension: Option<Seq<char>>,
    pub private_use: Option<Seq<char>>,
}

/// The characters of a subtag that may be absent.
pub open spec fn chars_of(subtag: Option<String>) -> Option<Seq<char>> {
    match subtag {
        Some(s) => Some(s@),
        None => None,
    }
}

impl View for Subtags {
    type V = SubtagsView;

    open spec fn view(&self) -> SubtagsView {
        SubtagsView {
            language: self.language@,
            extended_language: chars_of(self.extended_language),
            script: chars_of(self.script),
            region: chars_of(self.region),
            variant: chars_of(self.variant),
            extension: chars_of(self.extension),
            private_use: chars_of(self.private_use),
        }
    }
}

/// The subtags of an identifier that may not be a tag.
pub open spec fn view_of(subtags: Option<Subtags>) -> Option<SubtagsView> {
    match subtags {
        Some(t) => Some(t@),
        None => None,
    }
}

/// The subtags that the parser finds in an identifier; `None` for an
/// identifier that is not a well-formed language tag.
pub uninterp spec fn parsed(locale: Seq<char>) -> Option<SubtagsView>;

/// Parses `locale` with `LanguageTag::parse` and reads the tag's subtags with
/// its accessors `primary_language`, `extended_language`, `script`, `region`,
/// `variant`, `extension` and `private_use`.
///
/// Nothing is proved of the parser. All that is claimed is that what it
/// returns depends on the characters of `locale` alone.
#[verifier::external_body]
fn parse_subtags(locale: &str) -> (r: Option<Subtags>)
    ensures
        view_of(r) == parsed(locale@),
{
    match LanguageTag::parse(locale) {
        Ok(tag) => Some(
            Subtags {
                language: tag.primary_language().to_string(),
                extended_language: tag.extended_language().map(str::to_string),
                script: tag.script().map(str::to_string),
                region: tag.region().map(str::to_string),
                variant: tag.variant().map(str::to_string),
                extension: tag.extension().map(str::to_string),
                private_use: tag.private_use().map(str::to_string),
            },
        ),
        Err(_) => None,
    }
}

/// What one subtag adds to a score: its weight where candidate and preference
/// both have the subtag and the two are equal, and nothing otherwise. A
/// subtag that either side lacks is no opinion.
pub open spec fn agreement(candidate: Option<Seq<char>>, preference: Option<Seq<char>>, weight: nat) -> nat {
    match (candidate, preference) {
        (Some(c), Some(p)) => if c == p {
            weight
        } else {
            0
        },
        _ => 0,
    }
}

/// The sum of the weights of the subtags in which candidate and preference
/// agree.
pub open spec fn agreement_sum(candidate: SubtagsView, preference: SubtagsView) -> nat {
    agreement(
        candidate.extended_language,
        preference.extended_language,
        EXTENDED_LANGUAGE_WEIGHT as nat,
    ) + agreement(candidate.script, preference.script, SCRIPT_WEIGHT as nat) + agreement(
        candidate.region,
        preference.region,
        REGION_WEIGHT as nat,
    ) + agreement(candidate.variant, preference.variant, VARIANT_WEIGHT as nat) + agreement(
        candidate.extension,
        preference.extension,
        EXTENSION_WEIGHT as nat,
    ) + agreement(candidate.private_use, preference.private_use, PRIVATE_USE_WEIGHT as nat)
}

/// The score of a candidate against a preference: none where either is not a
/// tag or their primary languages differ, else the sum of the weights of the
/// subtags in which they agree.
pub open spec fn score(candidate: Option<SubtagsView>, preference: Option<SubtagsView>) -> Option<
    nat,
> {
    match (candidate, preference) {
        (Some(c), Some(p)) => if c.language == p.language {
            Some(agreement_sum(c, p))
        } else {
            None
        },
        _ => None,
    }
}

/// The score of each candidate against one preference.
pub open spec fn scores(candidates: Seq<Option<SubtagsView>>, preference: Option<SubtagsView>) -> Seq<
    Option<nat>,
> {
    Seq::new(candidates.len(), |i: int| score(candidates[i], preference))
}

/// The candidate chosen for one preference: of the tags with its primary
/// language the one with the highest score, and of several such the earliest.
pub open spec fn select(candidates: Seq<Option<SubtagsView>>, preference: Option<SubtagsView>) -> Option<
    int,
> {
    first_best(scores(candidates, preference))
}

/// The scores of the candidates against each preference: one row for each
/// preference.
pub open spec fn score_table(
    candidates: Seq<Option<SubtagsView>>,
    preferences: Seq<Option<SubtagsView>>,
) -> Seq<Seq<Option<nat>>> {
    Seq::new(preferences.len(), |k: int| scores(candidates, preferences[k]))
}

/// The candidate chosen for a list of preferences: the choice for the first
/// preference that has one.
pub open spec fn best_match(
    candidates: Seq<Option<SubtagsView>>,
    preferences: Seq<Option<SubtagsView>>,
) -> Option<int> {
    first_choice(score_table(candidates, preferences))
}

/// The subtags of each entry of a list.
pub open spec fn views(tags: Seq<Option<Subtags>>) -> Seq<Option<SubtagsView>> {
    Seq::new(tags.len(), |i: int| view_of(tags[i]))
}

/// What the parser finds in each identifier of a list.
pub open spec fn parsed_all(locales: Seq<&str>) -> Seq<Option<SubtagsView>> {
    Seq::new(locales.len(), |i: int| parsed(locales[i]@))
}

/// What one subtag adds to a score.
fn subtag_agreement(candidate: &Option<String>, preference: &Option<String>, weight: u8) -> (r: u8)
    ensures
        r == agreement(chars_of(*candidate), chars_of(*preference), weight as nat),
{
    match (candidate, preference) {
        (Some(c), Some(p)) => if *c == *p {
            weight
        } else {
            0
        },
        _ => 0,
    }
}

/// Scores a candidate against a preference.
pub fn score_of(candidate: &Option<Subtags>, preference: &Option<Subtags>) -> (r: Option<u8>)
    ensures
        widen_score(r) == score(view_of(*candidate), view_of(*preference)),
{
    match (candidate, preference) {
        (Some(c), Some(p)) => {
            if c.language != p.language {
                return None;
            }
            let extended_language = subtag_agreement(
                &c.extended_language,
                &p.extended_language,
                EXTENDED_LANGUAGE_WEIGHT,
            );
            let script = subtag_agreement(&c.script, &p.script, SCRIPT_WEIGHT);
            let region = subtag_agreement(&c.region, &p.region, REGION_WEIGHT);
            let variant = subtag_agreement(&c.variant, &p.variant, VARIANT_WEIGHT);
            let extension = subtag_agreement(&c.extension, &p.extension, EXTENSION_WEIGHT);
            let private_use = subtag_agreement(&c.private_use, &p.private_use, PRIVATE_USE_WEIGHT);
            Some(extended_language + script + region + variant + extension + private_use)
        },
        _ => None,
    }
}

/// Chooses among `candidates` for one preference.
pub fn select_for(candidates: &Vec<Option<Subtags>>, preference: &Option<Subtags>) -> (r: Option<
    usize,
>)
    ensures
        match r {
            Some(i) => select(views(candidates@), view_of(*preference)) == Some(i as int),
            None => select(views(candidates@), view_of(*preference)) is None,
        },
{
    let mut found: Vec<Option<u8>> = Vec::new();
    let mut i: usize = 0;
    while i < candidates.len()
        invariant
            0 <= i <= candidates.len(),
            found.len() == i,
            forall|k: int|
                0 <= k < i ==> widen_score(#[trigger] found[k]) == score(
                    view_of(candidates[k]),
                    view_of(*preference),
                ),
        decreases candidates.len() - i,
    {
        found.push(score_of(&candidates[i], preference));
        i += 1;
    }
    assert(widen(found@) =~= scores(views(candidates@), view_of(*preference)));
    first_best_index(&found)
}

/// Finds the place, among `available`, of the tag that best matches `user`.
///
/// Both lists are in order of priority, and an entry that is `None` stands
/// for an identifier that is not a tag. The user's tags are tried in turn; the
/// first that shares its primary language with an available tag decides, and
/// the available tag that agrees with it in the weightiest subtags is chosen,
/// the earliest of several that agree equally. `None` is returned where no
/// tag of the user shares its primary language with an available tag.
pub fn best_matching_tag(available: &Vec<Option<Subtags>>, user: &Vec<Option<Subtags>>) -> (r:
    Option<usize>)
    ensures
        match r {
            Some(i) => best_match(views(available@), views(user@)) == Some(i as int),
            None => best_match(views(available@), views(user@)) is None,
        },
        r matches Some(i) ==> i < available.len(),
{
    let ghost table = score_table(views(available@), views(user@));
    let mut k: usize = 0;
    assert(table.skip(0) =~= table);
    while k < user.len()
        invariant
            0 <= k <= user.len(),
            table == score_table(views(available@), views(user@)),
            first_choice(table) == first_choice(table.skip(k as int)),
        decreases user.len() - k,
    {
        let chosen = select_for(available, &user[k]);
        proof {
            assert(table.skip(k as int)[0] == scores(views(available@), view_of(user[k as int])));
            assert(table.skip(k as int).drop_first() =~= table.skip(k as int + 1));
        }
        if let Some(i) = chosen {
            proof {
                lemma_select_same_language(views(available@), view_of(user[k as int]));
            }
            return Some(i);
        }
        k += 1;
    }
    assert(table.skip(k as int).len() == 0);
    None
}

/// Parses each identifier of a list.
fn parse_all(locales: &[&str]) -> (r: Vec<Option<Subtags>>)
    ensures
        r.len() == locales.len(),
        views(r@) == parsed_all(locales@),
{
    let mut tags: Vec<Option<Subtags>> = Vec::new();
    let mut i: usize = 0;
    while i < locales.len()
        invariant
            0 <= i <= locales.len(),
            tags.len() == i,
            forall|k: int| 0 <= k < i ==> view_of(#[trigger] tags[k]) == parsed(locales[k]@),
        decreases locales.len() - i,
    {
        tags.push(parse_subtags(locales[i]));
        i += 1;
    }
    assert(views(tags@) =~= parsed_all(locales@));
    tags
}

/// Finds the place, in `available_locales`, of the locale that best matches
/// `user_locales`.
///
/// Each identifier is parsed as a language tag, and one that is not a
/// well-formed tag is passed over, in either list. See [`best_matching_tag`]
/// for how the choice among the tags is made.
pub fn best_matching_index(available_locales: &[&str], user_locales: &[&str]) -> (r: Option<usize>)
    ensures
        match r {
            Some(i) => best_match(parsed_all(available_locales@), parsed_all(user_locales@))
                == Some(i as int),
            None => best_match(parsed_all(available_locales@), parsed_all(user_locales@)) is None,
        },
        r matches Some(i) ==> i < available_locales.len(),
{
    let available = parse_all(available_locales);
    let user = parse_all(user_locales);
    best_matching_tag(&available, &user)
}

/// Finds the locale of `available_locales` that best matches `user_locales`,
/// and returns it as it stands in that list.
///
/// See [`best_matching_index`] for how the choice is made.
pub fn best_matching_locale<'a>(available_locales: &[&'a str], user_locales: &[&str]) -> (r: Option<
    &'a str,
>)
    ensures
        match best_match(parsed_all(available_locales@), parsed_all(user_locales@)) {
            Some(i) => 0 <= i < available_locales.len() && r == Some(available_locales[i]),
            None => r is None,
        },
{
    match best_matching_index(available_locales, user_locales) {
        Some(i) => Some(available_locales[i]),
        None => None,
    }
}

/// Whether candidate and preference are both tags, with the same primary
/// language.
pub open spec fn same_language(candidate: Option<SubtagsView>, preference: Option<SubtagsView>) -> bool {
    candidate is Some && preference is Some && candidate->0.language == preference->0.language
}

/// Whether some candidate is a tag with the primary language of `preference`.
pub open spec fn matches_any(candidates: Seq<Option<SubtagsView>>, preference: Option<SubtagsView>) -> bool {
    exists|i: int| 0 <= i < candidates.len() && same_language(#[trigger] candidates[i], preference)
}

/// The subtags after the primary language, the weightiest first.
pub open spec fn parts(tag: SubtagsView) -> Seq<Option<Seq<char>>> {
    seq![
        tag.extended_language,
        tag.script,
        tag.region,
        tag.variant,
        tag.extension,
        tag.private_use,
    ]
}

/// The weight of each subtag after the primary language, the weightiest
/// first.
pub open spec fn weights() -> Seq<nat> {
    seq![
        EXTENDED_LANGUAGE_WEIGHT as nat,
        SCRIPT_WEIGHT as nat,
        REGION_WEIGHT as nat,
        VARIANT_WEIGHT as nat,
        EXTENSION_WEIGHT as nat,
        PRIVATE_USE_WEIGHT as nat,
    ]
}

/// A candidate is chosen for a preference exactly where some candidate is a
/// tag with the preference's primary language.
pub proof fn lemma_select_some_iff(
    candidates: Seq<Option<SubtagsView>>,
    preference: Option<SubtagsView>,
)
    ensures
        select(candidates, preference) is Some <==> matches_any(candidates, preference),
        has_match(scores(candidates, preference)) <==> matches_any(candidates, preference),
{
    let found = scores(candidates, preference);
    if has_match(found) {
        let j = choose|j: int| 0 <= j < found.len() && (#[trigger] found[j]) is Some;
        assert(same_language(candidates[j], preference));
    }
    if matches_any(candidates, preference) {
        let i = choose|i: int|
            0 <= i < candidates.len() && same_language(#[trigger] candidates[i], preference);
        assert(found[i] is Some);
    }
}

/// Language gate: the candidate chosen for a preference is a tag with the
/// preference's primary language, however many of its other subtags agree
/// with those of another candidate. No candidate has a higher score, and
/// every earlier candidate with that language has a lower one.
pub proof fn lemma_select_same_language(
    candidates: Seq<Option<SubtagsView>>,
    preference: Option<SubtagsView>,
)
    ensures
        select(candidates, preference) matches Some(i) ==> {
            &&& 0 <= i < candidates.len()
            &&& same_language(candidates[i], preference)
            &&& is_first_best(scores(candidates, preference), i)
        },
{
    lemma_first_best_some(scores(candidates, preference));
}

/// Language gate, over a list of preferences: the candidate chosen has the
/// primary language of one of the preferences, namely of the first whose
/// language any candidate has, and is the candidate chosen for that
/// preference.
pub proof fn lemma_best_match_same_language(
    candidates: Seq<Option<SubtagsView>>,
    preferences: Seq<Option<SubtagsView>>,
)
    ensures
        best_match(candidates, preferences) matches Some(i) ==> {
            &&& 0 <= i < candidates.len()
            &&& exists|k: int|
                {
                    &&& 0 <= k < preferences.len()
                    &&& same_language(candidates[i], #[trigger] preferences[k])
                    &&& select(candidates, preferences[k]) == Some(i)
                    &&& forall|e: int|
                        0 <= e < k ==> !matches_any(candidates, #[trigger] preferences[e])
                }
        },
{
    let table = score_table(candidates, preferences);
    lemma_first_choice_is_winner(table);
    if first_choice(table) is Some {
        let i = first_choice(table)->0;
        let k = choose|k: int| #[trigger] decides(table, k) && is_first_best(table[k], i);
        lemma_first_best_is(table[k], i);
        assert forall|e: int| 0 <= e < k implies !matches_any(
            candidates,
            #[trigger] preferences[e],
        ) by {
            assert(!has_match(table[e]));
            lemma_select_some_iff(candidates, preferences[e]);
        }
    }
}

/// Tie-break: of two candidates with the same score against a preference the
/// one that stands first is chosen, whichever of the two that is.
pub proof fn lemma_tie_break(
    a: Option<SubtagsView>,
    b: Option<SubtagsView>,
    preference: Option<SubtagsView>,
)
    requires
        score(a, preference) is Some,
        score(a, preference) == score(b, preference),
    ensures
        select(seq![a, b], preference) == Some(0int),
        select(seq![b, a], preference) == Some(0int),
{
    assert(scores(seq![a, b], preference) =~= seq![score(a, preference), score(b, preference)]);
    assert(scores(seq![b, a], preference) =~= seq![score(b, preference), score(a, preference)]);
    lemma_first_of_two_equal(score(a, preference), score(b, preference));
}

/// Fallthrough: a first preference whose primary language no candidate has,
/// or that is no tag, is passed over, and the choice is that for the
/// preferences after it.
pub proof fn lemma_fallthrough(
    candidates: Seq<Option<SubtagsView>>,
    preferences: Seq<Option<SubtagsView>>,
)
    requires
        preferences.len() > 0,
        !matches_any(candidates, preferences[0]),
    ensures
        best_match(candidates, preferences) == best_match(candidates, preferences.drop_first()),
{
    let table = score_table(candidates, preferences);
    lemma_select_some_iff(candidates, preferences[0]);
    lemma_first_choice_fallthrough(table);
    assert(table.drop_first() =~= score_table(candidates, preferences.drop_first()));
}

/// Fallthrough to the end: where no candidate has the primary language of any
/// preference, nothing is chosen; and where one has, something is.
pub proof fn lemma_no_match_iff(
    candidates: Seq<Option<SubtagsView>>,
    preferences: Seq<Option<SubtagsView>>,
)
    ensures
        best_match(candidates, preferences) is None <==> forall|k: int|
            0 <= k < preferences.len() ==> !matches_any(candidates, #[trigger] preferences[k]),
{
    let table = score_table(candidates, preferences);
    lemma_first_choice_none_iff(table);
    if first_choice(table) is None {
        assert forall|k: int| 0 <= k < preferences.len() implies !matches_any(
            candidates,
            #[trigger] preferences[k],
        ) by {
            assert(!has_match(table[k]));
            lemma_select_some_iff(candidates, preferences[k]);
        }
    } else {
        let k = choose|k: int| 0 <= k < table.len() && has_match(#[trigger] table[k]);
        lemma_select_some_iff(candidates, preferences[k]);
    }
}

/// Identical lists: where the available locales are also the user's, in the
/// same order, and the first of them is a tag, it is chosen.
pub proof fn lemma_identical_lists(locales: Seq<Option<SubtagsView>>)
    requires
        locales.len() > 0,
        locales[0] is Some,
    ensures
        best_match(locales, locales) == Some(0int),
{
    let first = locales[0];
    let found = scores(locales, first);
    assert(is_first_best(found, 0));
    lemma_first_best_is(found, 0);
    let table = score_table(locales, locales);
    assert(table[0] == found);
    assert(has_match(found));
    assert(decides(table, 0));
    lemma_first_choice_decided(table, 0);
}

/// No-opinion neutrality: of two tags with the preference's primary language
/// that are alike but for one subtag, which `a` lacks, `b` scores what `a`
/// scores and, where its subtag agrees with the preference's, the weight of
/// that subtag besides: never less, and never more than that weight. A subtag
/// of `b` that differs from the preference's, or that the preference lacks,
/// counts as the absent subtag of `a` does: the two scores are then equal.
pub proof fn lemma_no_opinion(a: SubtagsView, b: SubtagsView, preference: SubtagsView, f: int)
    requires
        0 <= f < 6,
        a.language == b.language,
        a.language == preference.language,
        parts(a)[f] is None,
        forall|g: int| 0 <= g < 6 && g != f ==> parts(a)[g] == parts(b)[g],
    ensures
        score(Some(a), Some(preference)) is Some,
        score(Some(b), Some(preference)) is Some,
        score(Some(b), Some(preference))->0 == score(Some(a), Some(preference))->0 + agreement(
            parts(b)[f],
            parts(preference)[f],
            weights()[f],
        ),
        score(Some(a), Some(preference))->0 <= score(Some(b), Some(preference))->0 <= score(
            Some(a),
            Some(preference),
        )->0 + weights()[f],
        agreement(parts(b)[f], parts(preference)[f], weights()[f]) == 0 ==> score(
            Some(a),
            Some(preference),
        ) == score(Some(b), Some(preference)),
{
}

} // verus!
