use locale_match::ascii::{eq_ignore_ascii_case, find_byte, to_lower};
use locale_match::bcp47;
use locale_match::bcp47::Subtags;
use locale_match::posix;
use locale_match::posix::PosixLocale;
use locale_match::select::first_best_index;

fn tag(
    language: &str,
    extended_language: Option<&str>,
    script: Option<&str>,
    region: Option<&str>,
) -> Option<Subtags> {
    Some(Subtags {
        language: language.to_string(),
        extended_language: extended_language.map(str::to_string),
        script: script.map(str::to_string),
        region: region.map(str::to_string),
        variant: None,
        extension: None,
        private_use: None,
    })
}

fn full_tag(parts: [&str; 7]) -> Option<Subtags> {
    Some(Subtags {
        language: parts[0].to_string(),
        extended_language: Some(parts[1].to_string()),
        script: Some(parts[2].to_string()),
        region: Some(parts[3].to_string()),
        variant: Some(parts[4].to_string()),
        extension: Some(parts[5].to_string()),
        private_use: Some(parts[6].to_string()),
    })
}

fn posix_score(candidate: &str, preference: &str) -> Option<u8> {
    PosixLocale::parse(candidate).score(&PosixLocale::parse(preference))
}

#[test]
fn first_best_keeps_the_earliest_of_equal_scores() {
    assert_eq!(first_best_index(&vec![None, Some(3), Some(5), Some(5)]), Some(2));
    assert_eq!(first_best_index(&vec![Some(0), Some(0), Some(0)]), Some(0));
    assert_eq!(first_best_index(&vec![Some(1), None, Some(7), Some(2)]), Some(2));
}

#[test]
fn first_best_of_no_scores_is_none() {
    assert_eq!(first_best_index(&vec![]), None);
    assert_eq!(first_best_index(&vec![None, None]), None);
}

#[test]
fn find_byte_gives_the_first_occurrence() {
    assert_eq!(find_byte(b"a_b_c", b'_'), Some(1));
    assert_eq!(find_byte(b"_", b'_'), Some(0));
    assert_eq!(find_byte(b"abc", b'_'), None);
    assert_eq!(find_byte(b"", b'_'), None);
}

#[test]
fn case_is_folded_for_ascii_letters_only() {
    assert_eq!(to_lower(b'A'), b'a');
    assert_eq!(to_lower(b'Z'), b'z');
    assert_eq!(to_lower(b'a'), b'a');
    assert_eq!(to_lower(b'@'), b'@');
    assert_eq!(to_lower(b'['), b'[');
    assert_eq!(to_lower(0xc0), 0xc0);
    assert!(eq_ignore_ascii_case(b"UTF-8", b"utf-8"));
    assert!(eq_ignore_ascii_case(b"", b""));
    assert!(!eq_ignore_ascii_case(b"utf-8", b"utf-16"));
    assert!(!eq_ignore_ascii_case(b"utf8", b"utf-8"));
    assert!(!eq_ignore_ascii_case("\u{416}".as_bytes(), "\u{436}".as_bytes()));
}

#[test]
fn posix_parts_of_text_outside_ascii() {
    let locale = PosixLocale::parse("\u{416}\u{416}_\u{44f}.\u{42c}@\u{43c}");
    assert_eq!(locale.language(), "\u{416}\u{416}");
    assert_eq!(locale.territory(), Some("\u{44f}"));
    assert_eq!(locale.codeset(), Some("\u{42c}"));
    assert_eq!(locale.modifier(), Some("\u{43c}"));
}

#[test]
fn posix_delimiter_inside_a_later_part_is_of_that_part() {
    let locale = PosixLocale::parse("en.ISO_8859-1");
    assert_eq!(locale.language(), "en");
    assert_eq!(locale.territory(), None);
    assert_eq!(locale.codeset(), Some("ISO_8859-1"));
    assert_eq!(locale.modifier(), None);
    let locale = PosixLocale::parse("a.b_c");
    assert_eq!(locale.language(), "a");
    assert_eq!(locale.territory(), None);
    assert_eq!(locale.codeset(), Some("b_c"));
    let locale = PosixLocale::parse("a_b_c.d.e@f@g");
    assert_eq!(locale.language(), "a");
    assert_eq!(locale.territory(), Some("b_c"));
    assert_eq!(locale.codeset(), Some("d.e"));
    assert_eq!(locale.modifier(), Some("f@g"));
    let locale = PosixLocale::parse("sr@latin_RS.UTF-8");
    assert_eq!(locale.language(), "sr");
    assert_eq!(locale.territory(), None);
    assert_eq!(locale.codeset(), None);
    assert_eq!(locale.modifier(), Some("latin_RS.UTF-8"));
    assert_eq!(posix::best_matching_locale(&["en.ISO_8859-1"], &["en"]), Some("en.ISO_8859-1"));
    assert_eq!(posix::best_matching_locale(&["fr", "en.ISO_8859-1"], &["en.iso_8859-1"]), Some("en.ISO_8859-1"));
}

#[test]
fn posix_score_adds_the_weights_of_agreeing_parts() {
    assert_eq!(posix_score("ru_RU.UTF-8@icase", "RU_ru.utf-8@ICASE"), Some(7));
    assert_eq!(posix_score("ru_RU.UTF-8@icase", "ru_RU.UTF-8@dict"), Some(6));
    assert_eq!(posix_score("ru_RU.UTF-8@icase", "ru_RU.KOI8-R@icase"), Some(5));
    assert_eq!(posix_score("ru_RU", "ru_RU.KOI8-R@icase"), Some(4));
    assert_eq!(posix_score("ru_UA.UTF-8@icase", "ru_RU.UTF-8@icase"), Some(3));
    assert_eq!(posix_score("ru.UTF-8", "ru_RU.UTF-8"), Some(2));
    assert_eq!(posix_score("ru@icase", "ru_RU.UTF-8@icase"), Some(1));
    assert_eq!(posix_score("ru", "ru_RU.UTF-8@icase"), Some(0));
    assert_eq!(posix_score("ru_UA.KOI8-R@dict", "ru_RU.UTF-8@icase"), Some(0));
}

#[test]
fn posix_score_of_another_language_is_none() {
    assert_eq!(posix_score("uk_RU.UTF-8@icase", "ru_RU.UTF-8@icase"), None);
    assert_eq!(posix_score("ruRU", "ru"), None);
    assert_eq!(posix_score("", "ru"), None);
}

#[test]
fn posix_parts_that_are_present_and_empty_agree() {
    assert_eq!(posix_score("_.@", "_.@"), Some(7));
    assert_eq!(posix_score("ru_", "ru_"), Some(4));
    assert_eq!(posix_score("ru_", "ru"), Some(0));
    assert_eq!(posix_score("ru_", "ru_RU"), Some(0));
}

#[test]
fn posix_language_gate() {
    let available = ["uk_RU.UTF-8@icase", "ru"];
    assert_eq!(posix::best_matching_locale(&available, &["ru_RU.UTF-8@icase"]), Some("ru"));
    assert_eq!(posix::best_matching_locale(&available[..1], &["ru_RU.UTF-8@icase"]), None);
}

#[test]
fn posix_absent_part_counts_as_a_differing_one() {
    assert_eq!(posix_score("fr", "fr_FR"), Some(0));
    assert_eq!(posix_score("fr_CA", "fr_FR"), Some(0));
    assert_eq!(posix_score("fr_FR", "fr_FR"), Some(4));
    assert_eq!(posix_score("fr.UTF-8", "fr_FR.UTF-8"), Some(2));
    assert_eq!(posix_score("fr_CA.UTF-8", "fr_FR.UTF-8"), Some(2));
    assert_eq!(posix::best_matching_locale(&["fr", "fr_CA"], &["fr_FR"]), Some("fr"));
    assert_eq!(posix::best_matching_locale(&["fr_CA", "fr"], &["fr_FR"]), Some("fr_CA"));
}

#[test]
fn posix_tie_is_broken_by_order() {
    assert_eq!(posix::best_matching_locale(&["pt_BR", "pt_PT"], &["pt"]), Some("pt_BR"));
    assert_eq!(posix::best_matching_locale(&["pt_PT", "pt_BR"], &["pt"]), Some("pt_PT"));
    assert_eq!(posix::best_matching_index(&["en", "EN", "en"], &["en"]), Some(0));
}

#[test]
fn posix_falls_through_to_the_next_preference() {
    assert_eq!(posix::best_matching_locale(&["en_US", "fr_FR"], &["de_DE", "fr"]), Some("fr_FR"));
    assert_eq!(posix::best_matching_index(&["en_US", "fr_FR"], &["de_DE", "fr"]), Some(1));
    assert_eq!(posix::best_matching_locale(&["en_US", "fr_FR"], &["de_DE", "it"]), None);
    assert_eq!(posix::best_matching_index(&["en_US", "fr_FR"], &["de_DE", "it"]), None);
}

#[test]
fn posix_identical_lists_give_the_first() {
    let locales = ["ku_TR.UTF-8", "ku_IQ", "en@dict", "ku_TR.UTF-8"];
    assert_eq!(posix::best_matching_index(&locales, &locales), Some(0));
    assert_eq!(posix::best_matching_locale(&locales, &locales), Some("ku_TR.UTF-8"));
}

#[test]
fn posix_empty_lists_give_nothing() {
    assert_eq!(posix::best_matching_locale(&[], &["en"]), None);
    assert_eq!(posix::best_matching_locale(&["en"], &[]), None);
    assert_eq!(posix::best_matching_locale(&[], &[]), None);
}

#[test]
fn posix_codeset_outweighs_modifier_and_territory_outweighs_both() {
    let user = ["fr_FR.UTF-8@euro"];
    assert_eq!(posix::best_matching_locale(&["fr@euro", "fr.UTF-8"], &user), Some("fr.UTF-8"));
    assert_eq!(posix::best_matching_locale(&["fr.UTF-8@euro", "fr_FR"], &user), Some("fr_FR"));
    assert_eq!(posix::best_matching_locale(&["fr", "fr_CA.UTF-8"], &["fr.UTF-8"]), Some("fr_CA.UTF-8"));
}

#[test]
fn posix_select_for_one_preference() {
    let candidates: Vec<PosixLocale> =
        ["en_GB", "ru_UA", "ru_RU", "ru_RU.UTF-8"].iter().map(|l| PosixLocale::parse(l)).collect();
    assert_eq!(posix::select_for(&candidates, &PosixLocale::parse("ru_RU")), Some(2));
    assert_eq!(posix::select_for(&candidates, &PosixLocale::parse("ru.UTF-8")), Some(3));
    assert_eq!(posix::select_for(&candidates, &PosixLocale::parse("ru")), Some(1));
    assert_eq!(posix::select_for(&candidates, &PosixLocale::parse("fr")), None);
}

#[test]
fn bcp47_score_adds_the_weights_of_agreeing_subtags() {
    let preference = full_tag(["zh", "cmn", "Hans", "CN", "pinyin", "u-co-phonebk", "x-a"]);
    let score = |parts: [&str; 7]| bcp47::score_of(&full_tag(parts), &preference);
    assert_eq!(score(["zh", "cmn", "Hans", "CN", "pinyin", "u-co-phonebk", "x-a"]), Some(63));
    assert_eq!(score(["zh", "cmn", "-", "-", "-", "-", "-"]), Some(32));
    assert_eq!(score(["zh", "-", "Hans", "-", "-", "-", "-"]), Some(16));
    assert_eq!(score(["zh", "-", "-", "CN", "-", "-", "-"]), Some(8));
    assert_eq!(score(["zh", "-", "-", "-", "pinyin", "-", "-"]), Some(4));
    assert_eq!(score(["zh", "-", "-", "-", "-", "u-co-phonebk", "-"]), Some(2));
    assert_eq!(score(["zh", "-", "-", "-", "-", "-", "x-a"]), Some(1));
    assert_eq!(score(["zh", "-", "-", "-", "-", "-", "-"]), Some(0));
    assert_eq!(score(["zh", "-", "Hans", "CN", "-", "u-co-phonebk", "-"]), Some(26));
    assert_eq!(score(["en", "cmn", "Hans", "CN", "pinyin", "u-co-phonebk", "x-a"]), None);
}

#[test]
fn bcp47_score_of_what_is_no_tag_is_none() {
    assert_eq!(bcp47::score_of(&None, &tag("en", None, None, None)), None);
    assert_eq!(bcp47::score_of(&tag("en", None, None, None), &None), None);
    assert_eq!(bcp47::score_of(&None, &None), None);
}

#[test]
fn bcp47_absent_subtag_counts_as_a_differing_one() {
    let preference = tag("zh", None, Some("Hans"), Some("SG"));
    assert_eq!(bcp47::score_of(&tag("zh", None, Some("Hans"), None), &preference), Some(16));
    assert_eq!(bcp47::score_of(&tag("zh", None, Some("Hans"), Some("CN")), &preference), Some(16));
    assert_eq!(bcp47::score_of(&tag("zh", None, Some("Hans"), Some("SG")), &preference), Some(24));
    assert_eq!(bcp47::score_of(&tag("zh", Some("cmn"), Some("Hans"), None), &preference), Some(16));
}

#[test]
fn bcp47_best_matching_tag_passes_over_what_is_no_tag() {
    let available = vec![None, tag("en", None, None, Some("GB")), None, tag("en", None, None, Some("US"))];
    let user = vec![None, tag("fr", None, None, None), tag("en", None, None, Some("US"))];
    assert_eq!(bcp47::best_matching_tag(&available, &user), Some(3));
    assert_eq!(bcp47::select_for(&available, &user[2]), Some(3));
    assert_eq!(bcp47::select_for(&available, &user[1]), None);
    assert_eq!(bcp47::select_for(&available, &user[0]), None);
    assert_eq!(bcp47::best_matching_tag(&available, &vec![None, None]), None);
    assert_eq!(bcp47::best_matching_tag(&vec![None, None], &user), None);
    assert_eq!(bcp47::best_matching_tag(&vec![], &user), None);
    assert_eq!(bcp47::best_matching_tag(&available, &vec![]), None);
}

#[test]
fn bcp47_language_gate() {
    let available = ["en-Hans-CN", "zh"];
    assert_eq!(bcp47::best_matching_locale(&available, &["zh-Hans-CN"]), Some("zh"));
    assert_eq!(bcp47::best_matching_locale(&available[..1], &["zh-Hans-CN"]), None);
}

#[test]
fn bcp47_tie_is_broken_by_order() {
    assert_eq!(bcp47::best_matching_locale(&["pt-BR", "pt-PT"], &["pt"]), Some("pt-BR"));
    assert_eq!(bcp47::best_matching_locale(&["pt-PT", "pt-BR"], &["pt"]), Some("pt-PT"));
    assert_eq!(bcp47::best_matching_index(&["en", "EN", "en"], &["en"]), Some(0));
}

#[test]
fn bcp47_falls_through_to_the_next_preference() {
    assert_eq!(bcp47::best_matching_locale(&["en-US", "fr-FR"], &["de-DE", "fr"]), Some("fr-FR"));
    assert_eq!(bcp47::best_matching_locale(&["en-US", "fr-FR"], &["not a tag", "fr"]), Some("fr-FR"));
    assert_eq!(bcp47::best_matching_index(&["en-US", "fr-FR"], &["de-DE", "fr"]), Some(1));
    assert_eq!(bcp47::best_matching_locale(&["en-US", "fr-FR"], &["de-DE", "it"]), None);
}

#[test]
fn bcp47_identical_lists_give_the_first() {
    let locales = ["ku-TR", "ku-IQ", "en-x-dict", "ku-TR"];
    assert_eq!(bcp47::best_matching_index(&locales, &locales), Some(0));
    assert_eq!(bcp47::best_matching_locale(&locales, &locales), Some("ku-TR"));
}

#[test]
fn bcp47_letter_case_is_the_parsers() {
    assert_eq!(bcp47::best_matching_locale(&["ZH-hans-cn", "zh-HANT-CN"], &["zh-Hans"]), Some("ZH-hans-cn"));
    assert_eq!(bcp47::best_matching_locale(&["zh-HANT-CN", "ZH-hans-cn"], &["zh-Hans"]), Some("ZH-hans-cn"));
}

#[test]
fn bcp47_scenarios() {
    assert_eq!(
        bcp47::best_matching_locale(&["en-US", "en-GB", "ru-UA", "fr-FR", "it"], &["ru-RU", "ru", "en-US", "en"]),
        Some("ru-UA")
    );
    assert_eq!(bcp47::best_matching_locale(&["en", "pt-BR", "pt-PT", "es"], &["pt", "en"]), Some("pt-BR"));
    assert_eq!(bcp47::best_matching_locale(&["zh", "zh-cmn", "zh-cmn-Hans"], &["zh-Hans"]), Some("zh-cmn-Hans"));
    assert_eq!(bcp47::best_matching_locale(&["en-US-SUS-BUS-VUS-GUS"], &["en"]), None);
}

#[test]
fn posix_scenarios() {
    assert_eq!(posix::best_matching_locale(&["fr", "fr_FR", "fr_CA.UTF-8"], &["fr.UTF-8"]), Some("fr_CA.UTF-8"));
    assert_eq!(posix::best_matching_locale(&[], &["en"]), None);
    assert_eq!(posix::best_matching_locale(&["en"], &[]), None);
}

#[test]
fn the_locale_returned_is_the_one_in_the_list() {
    let available = [String::from("EN"), String::from("en")];
    let texts: Vec<&str> = available.iter().map(String::as_str).collect();
    let found = posix::best_matching_locale(&texts, &["en"]).unwrap();
    assert!(std::ptr::eq(found, available[0].as_str()));
    let found = bcp47::best_matching_locale(&texts[1..], &["EN"]).unwrap();
    assert!(std::ptr::eq(found, available[1].as_str()));
}
