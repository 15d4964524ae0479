//! Matching of POSIX locale identifiers, which have the form
//! `language[_territory][.codeset][@modifier]`.
//!
//! An identifier is taken as the bytes of its UTF-8 text. Nothing is
//! validated: every string has a language, and each further part is either
//! absent or present, possibly empty.
//!
//! The first `@` ends the codeset, the first `.` before it ends the
//! territory, and the first `_` before that ends the language. A part is
//! present exactly where the delimiter that opens it was found, and what
//! follows a delimiter belongs to the part that it opens: a `.` or a `_` after
//! the `@` is of the modifier, and a `_` after the `.` is of the codeset. The
//! parts and their delimiters, in order, make up the identifier.

use vstd::prelude::*;
use vstd::string::*;
use vstd::utf8::*;
use crate::ascii::{
    eq_ignore_ascii_case, eq_ignore_case, find_byte, first_index, lemma_ascii_byte_boundaries,
    lemma_eq_ignore_case_reflexive, lemma_first_index_free, lemma_first_index_is,
    lemma_first_index_none, lemma_first_index_some, substring,
};
use crate::select::{
    decides, first_best, first_best_index, first_choice, has_match, is_first_best,
    lemma_first_best_is, lemma_first_best_some, lemma_first_choice_decided,
    lemma_first_choice_fallthrough, lemma_first_choice_is_winner, lemma_first_choice_none_iff,
    lemma_first_of_two_equal, widen, widen_score,
};

verus! {

/// The byte before a territory, `_`.
pub const TERRITORY_DELIMITER: u8 = 0x5f;

/// The byte before a codeset, `.`.
pub const CODESET_DELIMITER: u8 = 0x2e;

/// The byte before a modifier, `@`.
pub const MODIFIER_DELIMITER: u8 = 0x40;

/// What an agreeing territory adds to a score.
pub const TERRITORY_WEIGHT: u8 = 4;

/// What an agreeing codeset adds to a score.
pub const CODESET_WEIGHT: u8 = 2;

/// What an agreeing modifier adds to a score.
pub const MODIFIER_WEIGHT: u8 = 1;

/// Where the codeset ends: at the first `@`, or at the end of the identifier
/// where there is none.
pub open spec fn codeset_end(s: Seq<u8>) -> int {
    match first_index(s, MODIFIER_DELIMITER) {
        Some(i) => i,
        None => s.len() as int,
    }
}

/// Where the territory ends: at the first `.` before the end of the codeset,
/// or where the codeset ends where there is none.
pub open spec fn territory_end(s: Seq<u8>) -> int {
    match first_index(s.subrange(0, codeset_end(s)), CODESET_DELIMITER) {
        Some(i) => i,
        None => codeset_end(s),
    }
}

/// Where the language ends: at the first `_` before the end of the
/// territory, or where the territory ends where there is none.
pub open spec fn language_end(s: Seq<u8>) -> int {
    match first_index(s.subrange(0, territory_end(s)), TERRITORY_DELIMITER) {
        Some(i) => i,
        None => territory_end(s),
    }
}

/// The bytes of `s` from `from` up to `to`, where `from` follows a delimiter
/// that stands before `to`; `None` where `from` lies beyond `to`, which is
/// how a part whose delimiter was not found shows.
pub open spec fn part(s: Seq<u8>, from: int, to: int) -> Option<Seq<u8>> {
    if from <= to {
        Some(s.subrange(from, to))
    } else {
        None
    }
}

/// The language of the identifier `s`: all that stands before the end of the
/// language.
pub open spec fn language(s: Seq<u8>) -> Seq<u8> {
    s.subrange(0, language_end(s))
}

/// The territory of the identifier `s`: what stands between the `_` that
/// ends the language and the end of the territory. It is absent where no `_`
/// ends the language.
pub open spec fn territory(s: Seq<u8>) -> Option<Seq<u8>> {
    part(s, language_end(s) + 1, territory_end(s))
}

/// The codeset of the identifier `s`: what stands between the `.` that ends
/// the territory and the end of the codeset. It is absent where no `.` ends
/// the territory.
pub open spec fn codeset(s: Seq<u8>) -> Option<Seq<u8>> {
    part(s, territory_end(s) + 1, codeset_end(s))
}

/// The modifier of the identifier `s`: what stands after the `@` that ends
/// the codeset. It is absent where no `@` ends the codeset.
pub open spec fn modifier(s: Seq<u8>) -> Option<Seq<u8>> {
    part(s, codeset_end(s) + 1, s.len() as int)
}

/// What one part adds to a score: its weight where candidate and preference
/// both have the part and the two are equal up to case, and nothing
/// otherwise. A part that either side lacks is no opinion.
pub open spec fn agreement(candidate: Option<Seq<u8>>, preference: Option<Seq<u8>>, weight: nat) -> nat {
    match (candidate, preference) {
        (Some(c), Some(p)) => if eq_ignore_case(c, p) {
            weight
        } else {
            0
        },
        _ => 0,
    }
}

/// Whether two identifiers have the same language, up to case.
pub open spec fn same_language(candidate: Seq<u8>, preference: Seq<u8>) -> bool {
    eq_ignore_case(language(candidate), language(preference))
}

/// The sum of the weights of the parts in which candidate and preference
/// agree.
pub open spec fn agreement_sum(candidate: Seq<u8>, preference: Seq<u8>) -> nat {
    agreement(territory(candidate), territory(preference), TERRITORY_WEIGHT as nat) + agreement(
        codeset(candidate),
        codeset(preference),
        CODESET_WEIGHT as nat,
    ) + agreement(modifier(candidate), modifier(preference), MODIFIER_WEIGHT as nat)
}

/// The score of a candidate against a preference: none where their languages
/// differ, else the sum of the weights of the parts in which they agree.
pub open spec fn score(candidate: Seq<u8>, preference: Seq<u8>) -> Option<nat> {
    if same_language(candidate, preference) {
        Some(agreement_sum(candidate, preference))
    } else {
        None
    }
}

/// The score of each candidate against one preference.
pub open spec fn scores(candidates: Seq<Seq<u8>>, preference: Seq<u8>) -> Seq<Option<nat>> {
    Seq::new(candidates.len(), |i: int| score(candidates[i], preference))
}

/// The candidate chosen for one preference: of those with its language the
/// one with the highest score, and of several such the earliest.
pub open spec fn select(candidates: Seq<Seq<u8>>, preference: Seq<u8>) -> Option<int> {
    first_best(scores(candidates, preference))
}

/// The scores of the candidates against each preference: one row for each
/// preference.
pub open spec fn score_table(candidates: Seq<Seq<u8>>, preferences: Seq<Seq<u8>>) -> Seq<
    Seq<Option<nat>>,
> {
    Seq::new(preferences.len(), |k: int| scores(candidates, preferences[k]))
}

/// The candidate chosen for a list of preferences: the choice for the first
/// preference that has one.
pub open spec fn best_match(candidates: Seq<Seq<u8>>, preferences: Seq<Seq<u8>>) -> Option<int> {
    first_choice(score_table(candidates, preferences))
}

/// The bytes of each identifier of a list.
pub open spec fn texts(locales: Seq<&str>) -> Seq<Seq<u8>> {
    Seq::new(locales.len(), |i: int| locales[i].spec_bytes())
}

/// The bytes of a part that may be absent.
pub open spec fn bytes_of(part: Option<&str>) -> Option<Seq<u8>> {
    match part {
        Some(t) => Some(t.spec_bytes()),
        None => None,
    }
}

/// The three ends stand in order within the identifier, and each is either
/// at its delimiter or, where that was not found, at the end after it.
pub proof fn lemma_ends_in_order(s: Seq<u8>)
    ensures
        0 <= language_end(s) <= territory_end(s) <= codeset_end(s) <= s.len(),
        language_end(s) < territory_end(s) ==> s[language_end(s)] == TERRITORY_DELIMITER,
        territory_end(s) < codeset_end(s) ==> s[territory_end(s)] == CODESET_DELIMITER,
        codeset_end(s) < s.len() ==> s[codeset_end(s)] == MODIFIER_DELIMITER,
{
    lemma_first_index_some(s, MODIFIER_DELIMITER);
    lemma_first_index_some(s.subrange(0, codeset_end(s)), CODESET_DELIMITER);
    lemma_first_index_some(s.subrange(0, territory_end(s)), TERRITORY_DELIMITER);
}

/// Every part that is present starts and ends between two characters of the
/// identifier's text.
pub proof fn lemma_ends(s: Seq<u8>)
    requires
        valid_utf8(s),
    ensures
        0 <= language_end(s) <= territory_end(s) <= codeset_end(s) <= s.len(),
        is_char_boundary(s, language_end(s)),
        is_char_boundary(s, territory_end(s)),
        is_char_boundary(s, codeset_end(s)),
        is_char_boundary(s, s.len() as int),
        language_end(s) < territory_end(s) ==> is_char_boundary(s, language_end(s) + 1),
        territory_end(s) < codeset_end(s) ==> is_char_boundary(s, territory_end(s) + 1),
        codeset_end(s) < s.len() ==> is_char_boundary(s, codeset_end(s) + 1),
{
    is_char_boundary_start_end_of_seq(s);
    lemma_ends_in_order(s);
    if codeset_end(s) < s.len() {
        lemma_ascii_byte_boundaries(s, codeset_end(s));
    }
    if territory_end(s) < codeset_end(s) {
        lemma_ascii_byte_boundaries(s, territory_end(s));
    }
    if language_end(s) < territory_end(s) {
        lemma_ascii_byte_boundaries(s, language_end(s));
    }
}

/// A POSIX locale identifier together with the places where its parts end.
#[derive(Debug, Clone, Copy)]
pub struct PosixLocale<'a> {
    locale: &'a str,
    language_end: usize,
    territory_end: usize,
    codeset_end: usize,
}

impl<'a> PosixLocale<'a> {
    #[verifier::type_invariant]
    spec fn well_formed(self) -> bool {
        &&& self.language_end == language_end(self.locale.spec_bytes())
        &&& self.territory_end == territory_end(self.locale.spec_bytes())
        &&& self.codeset_end == codeset_end(self.locale.spec_bytes())
    }

    /// The identifier as it was given.
    pub closed spec fn locale(&self) -> &'a str {
        self.locale
    }

    /// The bytes of the identifier.
    pub open spec fn text(&self) -> Seq<u8> {
        self.locale().spec_bytes()
    }

    /// Splits `locale` into its parts. Every string is accepted.
    pub fn parse(locale: &'a str) -> (r: Self)
        ensures
            r.locale() == locale,
    {
        let bytes = locale.as_bytes();
        proof {
            encode_utf8_valid_utf8(locale@);
            lemma_ends(bytes@);
        }
        let codeset_end = match find_byte(bytes, MODIFIER_DELIMITER) {
            Some(i) => i,
            None => bytes.len(),
        };
        let territory_end = match find_byte(&bytes[0..codeset_end], CODESET_DELIMITER) {
            Some(i) => i,
            None => codeset_end,
        };
        let language_end = match find_byte(&bytes[0..territory_end], TERRITORY_DELIMITER) {
            Some(i) => i,
            None => territory_end,
        };
        PosixLocale { locale, language_end, territory_end, codeset_end }
    }

    /// The language.
    pub fn language(&self) -> (r: &'a str)
        ensures
            r.spec_bytes() == language(self.text()),
    {
        proof {
            use_type_invariant(self);
            encode_utf8_valid_utf8(self.locale@);
            lemma_ends(self.locale.spec_bytes());
        }
        substring(self.locale, 0, self.language_end)
    }

    /// The territory, where there is one.
    pub fn territory(&self) -> (r: Option<&'a str>)
        ensures
            bytes_of(r) == territory(self.text()),
    {
        proof {
            use_type_invariant(self);
            encode_utf8_valid_utf8(self.locale@);
            lemma_ends(self.locale.spec_bytes());
        }
        if self.language_end < self.territory_end {
            Some(substring(self.locale, self.language_end + 1, self.territory_end))
        } else {
            None
        }
    }

    /// The codeset, where there is one.
    pub fn codeset(&self) -> (r: Option<&'a str>)
        ensures
            bytes_of(r) == codeset(self.text()),
    {
        proof {
            use_type_invariant(self);
            encode_utf8_valid_utf8(self.locale@);
            lemma_ends(self.locale.spec_bytes());
        }
        if self.territory_end < self.codeset_end {
            Some(substring(self.locale, self.territory_end + 1, self.codeset_end))
        } else {
            None
        }
    }

    /// The modifier, where there is one.
    pub fn modifier(&self) -> (r: Option<&'a str>)
        ensures
            bytes_of(r) == modifier(self.text()),
    {
        proof {
            use_type_invariant(self);
            encode_utf8_valid_utf8(self.locale@);
            lemma_ends(self.locale.spec_bytes());
        }
        let end = self.locale.as_bytes().len();
        if self.codeset_end < end {
            Some(substring(self.locale, self.codeset_end + 1, end))
        } else {
            None
        }
    }

    /// Scores this candidate against `preference`.
    pub fn score(&self, preference: &PosixLocale) -> (r: Option<u8>)
        ensures
            widen_score(r) == score(self.text(), preference.text()),
    {
        if !eq_ignore_ascii_case(self.language().as_bytes(), preference.language().as_bytes()) {
            return None;
        }
        let territory = part_agreement(self.territory(), preference.territory(), TERRITORY_WEIGHT);
        let codeset = part_agreement(self.codeset(), preference.codeset(), CODESET_WEIGHT);
        let modifier = part_agreement(self.modifier(), preference.modifier(), MODIFIER_WEIGHT);
        Some(territory + codeset + modifier)
    }

    /// Gives back the identifier as it was given.
    pub fn into_inner(self) -> (r: &'a str)
        ensures
            r == self.locale(),
    {
        self.locale
    }
}

/// What one part adds to a score.
fn part_agreement(candidate: Option<&str>, preference: Option<&str>, weight: u8) -> (r: u8)
    ensures
        r == agreement(bytes_of(candidate), bytes_of(preference), weight as nat),
{
    match (candidate, preference) {
        (Some(c), Some(p)) => if eq_ignore_ascii_case(c.as_bytes(), p.as_bytes()) {
            weight
        } else {
            0
        },
        _ => 0,
    }
}

/// The bytes of each parsed identifier of a list.
pub open spec fn parsed_texts(locales: Seq<PosixLocale>) -> Seq<Seq<u8>> {
    Seq::new(locales.len(), |i: int| locales[i].text())
}

/// Chooses among `candidates` for one preference.
pub fn select_for(candidates: &Vec<PosixLocale>, preference: &PosixLocale) -> (r: Option<usize>)
    ensures
        match r {
            Some(i) => select(parsed_texts(candidates@), preference.text()) == Some(i as int),
            None => select(parsed_texts(candidates@), preference.text()) is None,
        },
{
    let mut found: Vec<Option<u8>> = Vec::new();
    let mut i: usize = 0;
    while i < candidates.len()
        invariant
            0 <= i <= candidates.len(),
            found.len() == i,
            forall|k: int|
                0 <= k < i ==> widen_score(#[trigger] found[k]) == score(
                    candidates[k].text(),
                    preference.text(),
                ),
        decreases candidates.len() - i,
    {
        found.push(candidates[i].score(preference));
        i += 1;
    }
    assert(widen(found@) =~= scores(parsed_texts(candidates@), preference.text()));
    first_best_index(&found)
}

/// Parses each identifier of a list.
fn parse_all<'a>(locales: &[&'a str]) -> (r: Vec<PosixLocale<'a>>)
    ensures
        r.len() == locales.len(),
        forall|k: int| 0 <= k < r.len() ==> (#[trigger] r[k]).locale() == locales[k],
        parsed_texts(r@) == texts(locales@),
{
    let mut parsed: Vec<PosixLocale<'a>> = Vec::new();
    let mut i: usize = 0;
    while i < locales.len()
        invariant
            0 <= i <= locales.len(),
            parsed.len() == i,
            forall|k: int| 0 <= k < i ==> (#[trigger] parsed[k]).locale() == locales[k],
        decreases locales.len() - i,
    {
        parsed.push(PosixLocale::parse(locales[i]));
        i += 1;
    }
    assert(parsed_texts(parsed@) =~= texts(locales@));
    parsed
}

/// Finds the place, in `available_locales`, of the locale that best matches
/// `user_locales`.
///
/// Both lists are in order of priority. The user locales are tried in turn;
/// the first that shares its language with an available locale decides, and
/// the available locale that agrees with it in the weightiest parts is chosen,
/// the earliest of several that agree equally. `None` is returned where no
/// user locale shares its language with an available locale.
pub fn best_matching_index(available_locales: &[&str], user_locales: &[&str]) -> (r: Option<usize>)
    ensures
        match r {
            Some(i) => best_match(texts(available_locales@), texts(user_locales@)) == Some(i as int),
            None => best_match(texts(available_locales@), texts(user_locales@)) is None,
        },
        r matches Some(i) ==> i < available_locales.len(),
{
    let candidates = parse_all(available_locales);
    let ghost cands = texts(available_locales@);
    let ghost prefs = texts(user_locales@);
    let ghost table = score_table(cands, prefs);
    let mut k: usize = 0;
    assert(table.skip(0) =~= table);
    while k < user_locales.len()
        invariant
            0 <= k <= user_locales.len(),
            cands == texts(available_locales@),
            prefs == texts(user_locales@),
            table == score_table(cands, prefs),
            parsed_texts(candidates@) == cands,
            candidates.len() == available_locales.len(),
            first_choice(table) == first_choice(table.skip(k as int)),
        decreases user_locales.len() - k,
    {
        let preference = PosixLocale::parse(user_locales[k]);
        let chosen = select_for(&candidates, &preference);
        proof {
            assert(table.skip(k as int)[0] == scores(cands, preference.text()));
            assert(table.skip(k as int).drop_first() =~= table.skip(k as int + 1));
        }
        if let Some(i) = chosen {
            proof {
                lemma_select_same_language(cands, preference.text());
            }
            return Some(i);
        }
        k += 1;
    }
    assert(table.skip(k as int).len() == 0);
    None
}

/// Finds the locale of `available_locales` that best matches `user_locales`,
/// and returns it as it stands in that list.
///
/// See [`best_matching_index`] for how the choice is made.
pub fn best_matching_locale<'a>(available_locales: &[&'a str], user_locales: &[&str]) -> (r: Option<
    &'a str,
>)
    ensures
        match best_match(texts(available_locales@), texts(user_locales@)) {
            Some(i) => 0 <= i < available_locales.len() && r == Some(available_locales[i]),
            None => r is None,
        },
{
    match best_matching_index(available_locales, user_locales) {
        Some(i) => Some(available_locales[i]),
        None => None,
    }
}

/// Whether `needle` does not occur in `s`.
pub open spec fn free_of(s: Seq<u8>, needle: u8) -> bool {
    forall|i: int| 0 <= i < s.len() ==> s[i] != needle
}

/// A part as it is written: its delimiter and its bytes, or nothing where the
/// part is absent.
pub open spec fn delimited(delimiter: u8, part: Option<Seq<u8>>) -> Seq<u8> {
    match part {
        Some(p) => seq![delimiter] + p,
        None => Seq::empty(),
    }
}

/// The identifier written from its parts.
pub open spec fn format(
    language: Seq<u8>,
    territory: Option<Seq<u8>>,
    codeset: Option<Seq<u8>>,
    modifier: Option<Seq<u8>>,
) -> Seq<u8> {
    language + delimited(TERRITORY_DELIMITER, territory) + delimited(CODESET_DELIMITER, codeset)
        + delimited(MODIFIER_DELIMITER, modifier)
}

/// The parts of an identifier, written in order with their delimiters, are
/// the identifier: nothing is lost, and nothing stands in two parts.
pub proof fn lemma_parts_make_up_identifier(s: Seq<u8>)
    ensures
        format(language(s), territory(s), codeset(s), modifier(s)) == s,
{
    lemma_ends_in_order(s);
    assert(format(language(s), territory(s), codeset(s), modifier(s)) =~= s);
}

/// A part ends at the first delimiter that can end it: the language holds no
/// delimiter, the territory neither `.` nor `@`, and the codeset no `@`.
pub proof fn lemma_parts_hold_no_delimiter(s: Seq<u8>)
    ensures
        free_of(language(s), TERRITORY_DELIMITER),
        free_of(language(s), CODESET_DELIMITER),
        free_of(language(s), MODIFIER_DELIMITER),
        territory(s) matches Some(t) ==> free_of(t, CODESET_DELIMITER) && free_of(
            t,
            MODIFIER_DELIMITER,
        ),
        codeset(s) matches Some(c) ==> free_of(c, MODIFIER_DELIMITER),
{
    lemma_ends_in_order(s);
    let before_modifier = s.subrange(0, codeset_end(s));
    let before_codeset = s.subrange(0, territory_end(s));
    lemma_first_index_free(s, MODIFIER_DELIMITER);
    lemma_first_index_free(before_modifier, CODESET_DELIMITER);
    lemma_first_index_free(before_codeset, TERRITORY_DELIMITER);
    assert forall|i: int| 0 <= i < codeset_end(s) implies s[i] != MODIFIER_DELIMITER by {}
    assert forall|i: int| 0 <= i < territory_end(s) implies s[i] != CODESET_DELIMITER by {
        assert(before_modifier[i] == s[i]);
    }
    assert forall|i: int| 0 <= i < language_end(s) implies s[i] != TERRITORY_DELIMITER by {
        assert(before_codeset[i] == s[i]);
    }
}

/// Parsing undoes writing: an identifier written from a language without
/// delimiters, a territory without `.` and `@`, a codeset without `@` and any
/// modifier has these as its parts. A part that is written empty is found
/// empty, not absent.
pub proof fn lemma_parse_undoes_format(
    language_part: Seq<u8>,
    territory_part: Option<Seq<u8>>,
    codeset_part: Option<Seq<u8>>,
    modifier_part: Option<Seq<u8>>,
)
    requires
        free_of(language_part, TERRITORY_DELIMITER),
        free_of(language_part, CODESET_DELIMITER),
        free_of(language_part, MODIFIER_DELIMITER),
        territory_part matches Some(t) ==> free_of(t, CODESET_DELIMITER) && free_of(
            t,
            MODIFIER_DELIMITER,
        ),
        codeset_part matches Some(c) ==> free_of(c, MODIFIER_DELIMITER),
    ensures
        language(format(language_part, territory_part, codeset_part, modifier_part))
            == language_part,
        territory(format(language_part, territory_part, codeset_part, modifier_part))
            == territory_part,
        codeset(format(language_part, territory_part, codeset_part, modifier_part))
            == codeset_part,
        modifier(format(language_part, territory_part, codeset_part, modifier_part))
            == modifier_part,
{
    let s = format(language_part, territory_part, codeset_part, modifier_part);
    let written_territory = delimited(TERRITORY_DELIMITER, territory_part);
    let written_codeset = delimited(CODESET_DELIMITER, codeset_part);
    let written_modifier = delimited(MODIFIER_DELIMITER, modifier_part);
    let n1 = language_part.len() as int;
    let n2 = n1 + written_territory.len();
    let n3 = n2 + written_codeset.len();
    assert(s.len() == n3 + written_modifier.len());
    assert forall|i: int| 0 <= i < n3 implies s[i] != MODIFIER_DELIMITER by {
        if i < n1 {
            assert(s[i] == language_part[i]);
        } else if i < n2 {
            assert(s[i] == written_territory[i - n1]);
            if i > n1 {
                assert(s[i] == territory_part->0[i - n1 - 1]);
            }
        } else {
            assert(s[i] == written_codeset[i - n2]);
            if i > n2 {
                assert(s[i] == codeset_part->0[i - n2 - 1]);
            }
        }
    }
    if modifier_part is Some {
        assert(s[n3] == written_modifier[0]);
        lemma_first_index_is(s, MODIFIER_DELIMITER, n3);
    } else {
        lemma_first_index_none(s, MODIFIER_DELIMITER);
    }
    assert(codeset_end(s) == n3);
    let before_modifier = s.subrange(0, n3);
    assert forall|i: int| 0 <= i < n2 implies before_modifier[i] != CODESET_DELIMITER by {
        if i < n1 {
            assert(s[i] == language_part[i]);
        } else {
            assert(s[i] == written_territory[i - n1]);
            if i > n1 {
                assert(s[i] == territory_part->0[i - n1 - 1]);
            }
        }
    }
    if codeset_part is Some {
        assert(before_modifier[n2] == written_codeset[0]);
        lemma_first_index_is(before_modifier, CODESET_DELIMITER, n2);
    } else {
        lemma_first_index_none(before_modifier, CODESET_DELIMITER);
    }
    assert(territory_end(s) == n2);
    let before_codeset = s.subrange(0, n2);
    assert forall|i: int| 0 <= i < n1 implies before_codeset[i] != TERRITORY_DELIMITER by {
        assert(s[i] == language_part[i]);
    }
    if territory_part is Some {
        assert(before_codeset[n1] == written_territory[0]);
        lemma_first_index_is(before_codeset, TERRITORY_DELIMITER, n1);
    } else {
        lemma_first_index_none(before_codeset, TERRITORY_DELIMITER);
    }
    assert(language_end(s) == n1);
    assert(language(s) =~= language_part);
    if let Some(t) = territory_part {
        assert(territory(s)->0 =~= t);
    }
    if let Some(c) = codeset_part {
        assert(codeset(s)->0 =~= c);
    }
    if let Some(m) = modifier_part {
        assert(modifier(s)->0 =~= m);
    }
}

/// Whether some candidate has the language of `preference`.
pub open spec fn matches_any(candidates: Seq<Seq<u8>>, preference: Seq<u8>) -> bool {
    exists|i: int| 0 <= i < candidates.len() && same_language(#[trigger] candidates[i], preference)
}

/// The parts after the language, the weightiest first.
pub open spec fn parts(s: Seq<u8>) -> Seq<Option<Seq<u8>>> {
    seq![territory(s), codeset(s), modifier(s)]
}

/// The weight of each part after the language, the weightiest first.
pub open spec fn weights() -> Seq<nat> {
    seq![TERRITORY_WEIGHT as nat, CODESET_WEIGHT as nat, MODIFIER_WEIGHT as nat]
}

/// A candidate is chosen for a preference exactly where some candidate has
/// the preference's language.
pub proof fn lemma_select_some_iff(candidates: Seq<Seq<u8>>, preference: Seq<u8>)
    ensures
        select(candidates, preference) is Some <==> matches_any(candidates, preference),
        has_match(scores(candidates, preference)) <==> matches_any(candidates, preference),
{
    let found = scores(candidates, preference);
    if has_match(found) {
        let j = choose|j: int| 0 <= j < found.len() && (#[trigger] found[j]) is Some;
        assert(same_language(candidates[j], preference));
    }
    if matches_any(candidates, preference) {
        let i = choose|i: int|
            0 <= i < candidates.len() && same_language(#[trigger] candidates[i], preference);
        assert(found[i] is Some);
    }
}

/// Language gate: the candidate chosen for a preference has the preference's
/// language, however many of its other parts agree with those of another
/// candidate. No candidate has a higher score, and every earlier candidate
/// with that language has a lower one.
pub proof fn lemma_select_same_language(candidates: Seq<Seq<u8>>, preference: Seq<u8>)
    ensures
        select(candidates, preference) matches Some(i) ==> {
            &&& 0 <= i < candidates.len()
            &&& same_language(candidates[i], preference)
            &&& is_first_best(scores(candidates, preference), i)
        },
{
    lemma_first_best_some(scores(candidates, preference));
}

/// Language gate, over a list of preferences: the candidate chosen has the
/// language of one of the preferences, namely of the first whose language any
/// candidate has, and is the candidate chosen for that preference.
pub proof fn lemma_best_match_same_language(candidates: Seq<Seq<u8>>, preferences: Seq<Seq<u8>>)
    ensures
        best_match(candidates, preferences) matches Some(i) ==> {
            &&& 0 <= i < candidates.len()
            &&& exists|k: int|
                {
                    &&& 0 <= k < preferences.len()
                    &&& same_language(candidates[i], #[trigger] preferences[k])
                    &&& select(candidates, preferences[k]) == Some(i)
                    &&& forall|e: int|
                        0 <= e < k ==> !matches_any(candidates, #[trigger] preferences[e])
                }
        },
{
    let table = score_table(candidates, preferences);
    lemma_first_choice_is_winner(table);
    if first_choice(table) is Some {
        let i = first_choice(table)->0;
        let k = choose|k: int| #[trigger] decides(table, k) && is_first_best(table[k], i);
        lemma_first_best_is(table[k], i);
        assert forall|e: int| 0 <= e < k implies !matches_any(
            candidates,
            #[trigger] preferences[e],
        ) by {
            assert(!has_match(table[e]));
            lemma_select_some_iff(candidates, preferences[e]);
        }
    }
}

/// Tie-break: of two candidates with the same score against a preference the
/// one that stands first is chosen, whichever of the two that is.
pub proof fn lemma_tie_break(a: Seq<u8>, b: Seq<u8>, preference: Seq<u8>)
    requires
        score(a, preference) is Some,
        score(a, preference) == score(b, preference),
    ensures
        select(seq![a, b], preference) == Some(0int),
        select(seq![b, a], preference) == Some(0int),
{
    assert(scores(seq![a, b], preference) =~= seq![score(a, preference), score(b, preference)]);
    assert(scores(seq![b, a], preference) =~= seq![score(b, preference), score(a, preference)]);
    lemma_first_of_two_equal(score(a, preference), score(b, preference));
}

/// Fallthrough: a first preference whose language no candidate has is passed
/// over, and the choice is that for the preferences after it.
pub proof fn lemma_fallthrough(candidates: Seq<Seq<u8>>, preferences: Seq<Seq<u8>>)
    requires
        preferences.len() > 0,
        !matches_any(candidates, preferences[0]),
    ensures
        best_match(candidates, preferences) == best_match(candidates, preferences.drop_first()),
{
    let table = score_table(candidates, preferences);
    lemma_select_some_iff(candidates, preferences[0]);
    lemma_first_choice_fallthrough(table);
    assert(table.drop_first() =~= score_table(candidates, preferences.drop_first()));
}

/// Fallthrough to the end: where no candidate has the language of any
/// preference, nothing is chosen; and where one has, something is.
pub proof fn lemma_no_match_iff(candidates: Seq<Seq<u8>>, preferences: Seq<Seq<u8>>)
    ensures
        best_match(candidates, preferences) is None <==> forall|k: int|
            0 <= k < preferences.len() ==> !matches_any(candidates, #[trigger] preferences[k]),
{
    let table = score_table(candidates, preferences);
    lemma_first_choice_none_iff(table);
    if first_choice(table) is None {
        assert forall|k: int| 0 <= k < preferences.len() implies !matches_any(
            candidates,
            #[trigger] preferences[k],
        ) by {
            assert(!has_match(table[k]));
            lemma_select_some_iff(candidates, preferences[k]);
        }
    } else {
        let k = choose|k: int| 0 <= k < table.len() && has_match(#[trigger] table[k]);
        lemma_select_some_iff(candidates, preferences[k]);
    }
}

/// Identical lists: where the available locales are also the user's, in the
/// same order, the first of them is chosen.
pub proof fn lemma_identical_lists(locales: Seq<Seq<u8>>)
    requires
        locales.len() > 0,
    ensures
        best_match(locales, locales) == Some(0int),
{
    let first = locales[0];
    let found = scores(locales, first);
    lemma_eq_ignore_case_reflexive(language(first));
    assert forall|j: int| 0 <= j < found.len() && (#[trigger] found[j]) is Some implies found[j]->0
        <= found[0]->0 by {
        lemma_agreement_with_itself(territory(locales[j]), territory(first), TERRITORY_WEIGHT as nat);
        lemma_agreement_with_itself(codeset(locales[j]), codeset(first), CODESET_WEIGHT as nat);
        lemma_agreement_with_itself(modifier(locales[j]), modifier(first), MODIFIER_WEIGHT as nat);
    }
    assert(is_first_best(found, 0));
    lemma_first_best_is(found, 0);
    let table = score_table(locales, locales);
    assert(table[0] == found);
    assert(has_match(found));
    assert(decides(table, 0));
    lemma_first_choice_decided(table, 0);
}

/// No candidate agrees with a part of the preference more than that part
/// agrees with itself.
pub proof fn lemma_agreement_with_itself(
    candidate: Option<Seq<u8>>,
    preference: Option<Seq<u8>>,
    weight: nat,
)
    ensures
        agreement(candidate, preference, weight) <= agreement(preference, preference, weight),
        agreement(candidate, preference, weight) <= weight,
{
    if let Some(p) = preference {
        lemma_eq_ignore_case_reflexive(p);
    }
}

/// No-opinion neutrality: of two candidates with the preference's language
/// that are alike but for one part, which `a` lacks, `b` scores what `a`
/// scores and, where its part agrees with the preference's, the weight of that
/// part besides: never less, and never more than that weight. A part of `b`
/// that differs from the preference's, or that the preference lacks, counts as
/// the absent part of `a` does: the two scores are then equal.
pub proof fn lemma_no_opinion(a: Seq<u8>, b: Seq<u8>, preference: Seq<u8>, f: int)
    requires
        0 <= f < 3,
        language(a) == language(b),
        same_language(a, preference),
        parts(a)[f] is None,
        forall|g: int| 0 <= g < 3 && g != f ==> parts(a)[g] == parts(b)[g],
    ensures
        score(a, preference) is Some,
        score(b, preference) is Some,
        score(b, preference)->0 == score(a, preference)->0 + agreement(
            parts(b)[f],
            parts(preference)[f],
            weights()[f],
        ),
        score(a, preference)->0 <= score(b, preference)->0 <= score(a, preference)->0 + weights()[f],
        agreement(parts(b)[f], parts(preference)[f], weights()[f]) == 0 ==> score(a, preference)
            == score(b, preference),
{
}

} // verus!
