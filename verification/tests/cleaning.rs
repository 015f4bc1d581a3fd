use mop::headers::{clean_headers, contains_name, unique_name};
use mop::name::{clean_name, numbered_name, placeholder_name, polish};

fn owned(names: &[&str]) -> Vec<String> {
    names.iter().map(|name| name.to_string()).collect()
}

fn is_clean(name: &str) -> bool {
    !name.is_empty()
        && name.chars().all(|c| c.is_ascii_lowercase() || c.is_ascii_digit() || c == '_')
        && !name.starts_with('_')
        && !name.ends_with('_')
        && !name.contains("__")
}

#[test]
fn clean_name_transliterates() {
    assert_eq!(clean_name("Café"), "cafe");
    assert_eq!(clean_name("München"), "munchen");
    assert_eq!(clean_name("Æneid"), "aeneid");
    assert_eq!(clean_name("北亰"), "bei_jing");
}

#[test]
fn clean_name_lowers_letters() {
    assert_eq!(clean_name("ABCxyz"), "abcxyz");
    assert_eq!(clean_name("Zebra9"), "zebra9");
}

#[test]
fn clean_name_collapses_runs() {
    assert_eq!(clean_name("a b"), "a_b");
    assert_eq!(clean_name("a - b"), "a_b");
    assert_eq!(clean_name("a\t\n.b,,c"), "a_b_c");
    assert_eq!(clean_name("a__b"), "a_b");
}

#[test]
fn clean_name_strips_underscores_at_the_ends() {
    assert_eq!(clean_name("_a_"), "a");
    assert_eq!(clean_name("__a_b__"), "a_b");
    assert_eq!(clean_name("(total)"), "total");
}

#[test]
fn clean_name_falls_back_to_x() {
    assert_eq!(clean_name(""), "x");
    assert_eq!(clean_name("_"), "x");
    assert_eq!(clean_name("?!"), "x");
    assert_eq!(clean_name("\u{200b}"), "x");
}

#[test]
fn polish_works_on_every_ascii_character() {
    for code in 0u8..128 {
        let c = code as char;
        let text = format!("a{}b", c);
        let expected = if c.is_ascii_lowercase() || c.is_ascii_digit() {
            format!("a{}b", c)
        } else if c.is_ascii_uppercase() {
            format!("a{}b", c.to_ascii_lowercase())
        } else {
            "a_b".to_string()
        };
        assert_eq!(polish(&text), expected);
    }
}

#[test]
fn polish_collapses_runs_wherever_they_stand() {
    assert_eq!(polish("  a  b  "), "a_b");
    assert_eq!(polish("--a"), "a");
    assert_eq!(polish("a--"), "a");
    assert_eq!(polish("a-b--c---d"), "a_b_c_d");
    assert_eq!(polish("A1 B2"), "a1_b2");
    assert_eq!(polish(""), "x");
    assert_eq!(polish("---"), "x");
}

#[test]
fn polish_takes_text_that_is_not_ascii() {
    assert_eq!(polish("É"), "x");
    assert_eq!(polish("ÀB"), "b");
    assert_eq!(polish("aéb"), "a_b");
}

#[test]
fn clean_name_keeps_text_below_the_delete_character() {
    for code in 0u8..127 {
        let c = code as char;
        let text = format!("a{}b", c);
        assert_eq!(clean_name(&text), polish(&text));
    }
}

#[test]
fn clean_name_is_clean_for_mixed_input() {
    let samples = [
        "", " ", "_", "__", "a", "A", "é", "a_", "_a", "a__b", "1 2 3", "Ünï çödé", "x_1",
        "\u{7f}", "a\u{7f}b", "日本語", "🦄", "tab\there", "Σίσυφος", "İstanbul", "ǅ",
    ];
    for sample in samples {
        let name = clean_name(sample);
        assert!(is_clean(&name));
        assert_eq!(clean_name(&name), name);
    }
}

#[test]
fn numbered_name_appends_the_decimal_numeral() {
    assert_eq!(numbered_name("a", 2), "a_2");
    assert_eq!(numbered_name("name", 10), "name_10");
    assert_eq!(numbered_name("", 0), "_0");
    assert_eq!(numbered_name("n", 1234567890), "n_1234567890");
    assert_eq!(numbered_name("n", usize::MAX), format!("n_{}", usize::MAX));
}

#[test]
fn placeholder_name_is_x_and_the_number() {
    assert_eq!(placeholder_name(1), "x_1");
    assert_eq!(placeholder_name(27), "x_27");
    assert_eq!(placeholder_name(100), "x_100");
}

#[test]
fn contains_name_finds_exact_matches_only() {
    let names = owned(&["a", "b_2", "x_1"]);
    assert!(contains_name(&names, &"a".to_string()));
    assert!(contains_name(&names, &"x_1".to_string()));
    assert!(!contains_name(&names, &"A".to_string()));
    assert!(!contains_name(&names, &"b".to_string()));
    assert!(!contains_name(&Vec::new(), &"a".to_string()));
}

#[test]
fn unique_name_takes_the_first_free_number() {
    assert_eq!(unique_name(&Vec::new(), "a"), "a");
    assert_eq!(unique_name(&owned(&["b"]), "a"), "a");
    assert_eq!(unique_name(&owned(&["a"]), "a"), "a_2");
    assert_eq!(unique_name(&owned(&["a", "a_2"]), "a"), "a_3");
    assert_eq!(unique_name(&owned(&["a", "a_3"]), "a"), "a_2");
    assert_eq!(unique_name(&owned(&["a_2"]), "a"), "a");
}

#[test]
fn suffix_goes_on_the_base_name() {
    let headers = vec!["a", "a", "a", "a"];
    assert_eq!(clean_headers(&headers), vec!["a", "a_2", "a_3", "a_4"]);
}

#[test]
fn suffixed_name_can_collide_with_a_later_header() {
    let headers = vec!["a", "a", "a_2"];
    assert_eq!(clean_headers(&headers), vec!["a", "a_2", "a_2_2"]);
    let headers = vec!["a_2", "a", "a"];
    assert_eq!(clean_headers(&headers), vec!["a_2", "a", "a_3"]);
}

#[test]
fn blank_headers_are_numbered_on_their_own() {
    let headers = vec!["", "a", " ", "\t", "a"];
    assert_eq!(clean_headers(&headers), vec!["x_1", "a", "x_2", "x_3", "a_2"]);
}

#[test]
fn made_up_name_can_collide_with_a_real_one() {
    let headers = vec!["x_1", ""];
    assert_eq!(clean_headers(&headers), vec!["x_1", "x_1_2"]);
    let headers = vec!["", "x_1", "X 1"];
    assert_eq!(clean_headers(&headers), vec!["x_1", "x_1_2", "x_1_3"]);
}

#[test]
fn white_space_is_trimmed_by_the_unicode_property() {
    let spaces = [
        '\u{9}', '\u{a}', '\u{b}', '\u{c}', '\u{d}', ' ', '\u{85}', '\u{a0}', '\u{1680}',
        '\u{2000}', '\u{2001}', '\u{2002}', '\u{2003}', '\u{2004}', '\u{2005}', '\u{2006}',
        '\u{2007}', '\u{2008}', '\u{2009}', '\u{200a}', '\u{2028}', '\u{2029}', '\u{202f}',
        '\u{205f}', '\u{3000}',
    ];
    for code in 0u32..=0x10ffff {
        if let Some(c) = char::from_u32(code) {
            assert_eq!(spaces.contains(&c), c.is_whitespace());
        }
    }
    let mut codes: Vec<u32> = (0u32..0x100).collect();
    codes.extend(0x167eu32..0x1683);
    codes.extend(0x180du32..0x1810);
    codes.extend(0x1ffeu32..0x2031);
    codes.extend(0x205eu32..0x2062);
    codes.extend(0x2fffu32..0x3002);
    codes.push(0xfeff);
    for code in codes {
        let c = match char::from_u32(code) {
            Some(c) => c,
            None => unreachable!(),
        };
        let text = c.to_string();
        let cleaned = clean_headers(&[text.as_str()]);
        // A blank header becomes the made-up name, any other header its clean form.
        if spaces.contains(&c) {
            assert_eq!(cleaned, vec!["x_1"]);
        } else {
            assert_eq!(cleaned, vec![clean_name(&text)]);
            assert_ne!(cleaned, vec!["x_1"]);
        }
    }
}

#[test]
fn output_is_as_long_as_input_and_clean() {
    let headers = vec!["", "A b", "a_b", "ça va", "  ", "x_1", "!!", "x", "9", "a   b"];
    let cleaned = clean_headers(&headers);
    assert_eq!(cleaned.len(), headers.len());
    for name in &cleaned {
        assert!(is_clean(name));
    }
    assert_eq!(
        cleaned,
        vec!["x_1", "a_b", "a_b_2", "ca_va", "x_2", "x_1_2", "x", "x_3", "9", "a_b_3"]
    );
}

#[test]
fn output_names_are_pairwise_distinct() {
    let headers = vec!["a", "A", "a", "a_2", "a 2", "", "x_1", "x", "X"];
    let cleaned = clean_headers(&headers);
    for i in 0..cleaned.len() {
        for j in 0..i {
            assert_ne!(cleaned[i], cleaned[j]);
        }
    }
}

#[test]
fn cleaning_a_clean_row_changes_nothing() {
    let headers = vec!["name", "age", "x_1", "a_b_c", "9", "x", "name_2"];
    let once = clean_headers(&headers);
    assert_eq!(once, headers);
    let again: Vec<&str> = once.iter().map(|name| name.as_str()).collect();
    assert_eq!(clean_headers(&again), once);
}

#[test]
fn cleaning_twice_is_cleaning_once() {
    let headers = vec!["Name", "name", "", "Café", "_x_", "x", "  ", "a__b", "A B"];
    let once = clean_headers(&headers);
    let again: Vec<&str> = once.iter().map(|name| name.as_str()).collect();
    assert_eq!(clean_headers(&again), once);
}

#[test]
fn identifier_with_stray_underscores_is_not_kept() {
    let headers = vec!["_a", "a__b", "_"];
    assert_eq!(clean_headers(&headers), vec!["a", "a_b", "x"]);
}

#[test]
fn empty_row_cleans_to_empty_row() {
    let headers: Vec<&str> = Vec::new();
    assert!(clean_headers(&headers).is_empty());
}
