use loop_detector::fingerprint::{
    has_action_opening, starts_with_any, starts_with_words_of_any, MIN_PHRASE_CHARS,
};
use loop_detector::phrase::{is_clear, is_separator, is_settled, PhraseBuilder};
use loop_detector::similarity::SIMILARITY_THRESHOLD;
use loop_detector::text::{is_whitespace, same_text, starts_with, to_chars, trim, trim_start};
use loop_detector::{
    extract_action_plan_fingerprints, is_action_plan_sentence, is_highly_similar,
    levenshtein_distance, normalize_phrase, similarity, split_sentences, Similarity,
};

#[test]
fn whitespace_is_that_of_unicode() {
    for u in 0..=0x10FFFFu32 {
        if let Some(c) = char::from_u32(u) {
            assert_eq!(is_whitespace(c), c.is_whitespace(), "{u:x}");
        }
    }
}

#[test]
fn trimming_agrees_with_the_standard_library() {
    for s in ["", " ", " \t\n", "a", " a", "a ", "  a b  ", "\u{3000}让我 \u{a0}", "\u{200b}x "] {
        assert_eq!(trim(s), s.trim());
        assert_eq!(trim_start(s), s.trim_start());
    }
}

#[test]
fn texts_are_compared_by_characters() {
    assert!(starts_with("让我看", "让我"));
    assert!(!starts_with("让", "让我"));
    assert!(!starts_with("我让", "让我"));
    assert!(starts_with("", ""));
    assert!(starts_with("a", ""));
    assert!(same_text("让我", "让我"));
    assert!(!same_text("让我", "让"));
    assert!(!same_text("让", "让我"));
    assert!(!same_text("a", "b"));
    assert_eq!(to_chars("a让"), vec!['a', '让']);
}

#[test]
fn distance_has_the_known_values() {
    assert_eq!(levenshtein_distance("", ""), 0);
    assert_eq!(levenshtein_distance("", "abc"), 3);
    assert_eq!(levenshtein_distance("abc", ""), 3);
    assert_eq!(levenshtein_distance("kitten", "sitting"), 3);
    assert_eq!(levenshtein_distance("sitting", "kitten"), 3);
    assert_eq!(levenshtein_distance("flaw", "lawn"), 2);
    assert_eq!(levenshtein_distance("让我检查", "让我看查"), 1);
    assert_eq!(levenshtein_distance("same", "same"), 0);
}

#[test]
fn distance_obeys_the_triangle_inequality() {
    let words = ["", "a", "ab", "ba", "abc", "cab", "让我", "让a我"];
    for x in words {
        for y in words {
            for z in words {
                assert!(
                    levenshtein_distance(x, z)
                        <= levenshtein_distance(x, y) + levenshtein_distance(y, z)
                );
            }
        }
    }
}

#[test]
fn similarity_is_a_fraction() {
    assert_eq!(similarity("", ""), Similarity { matched: 1, total: 1 });
    assert_eq!(similarity("abc", "abc"), Similarity { matched: 1, total: 1 });
    assert_eq!(similarity("", "abc"), Similarity { matched: 0, total: 3 });
    assert_eq!(similarity("kitten", "sitting"), Similarity { matched: 4, total: 7 });
}

#[test]
fn threshold_is_reached_at_seventeen_of_twenty() {
    assert_eq!(SIMILARITY_THRESHOLD, 85);
    let base = "abcdefghijklmnopqrst";
    assert!(is_highly_similar(base, "ABCdefghijklmnopqrst"));
    assert!(!is_highly_similar(base, "ABCDefghijklmnopqrst"));
    assert!(is_highly_similar("ABCdefghijklmnopqrst", base));
    assert!(is_highly_similar("", ""));
    assert!(!is_highly_similar("", "a"));
}

#[test]
fn exact_threshold_agrees_with_floating_point() {
    for total in 1..=2000u128 {
        for distance in 0..=total {
            let score = 1.0 - (distance as f64 / total as f64);
            assert_eq!(
                score >= 0.85,
                100 * (total - distance) >= SIMILARITY_THRESHOLD * total,
                "{distance} of {total}"
            );
        }
    }
}

#[test]
fn phrases_are_normalized() {
    assert_eq!(normalize_phrase(""), "");
    assert_eq!(normalize_phrase(" 12, 34! "), "");
    assert_eq!(normalize_phrase("Let me view lines 1160-1200."), "let me view lines");
    assert_eq!(normalize_phrase("  Foo_bar--7baz!"), "foo bar baz");
    assert_eq!(normalize_phrase("让我用 Python 打印"), "让我用 python 打印");
    assert_eq!(normalize_phrase("ΑΣ ÀÉ"), "ας àé".replace('ς', "σ"));
    // One character can become two in lower case.
    assert_eq!(normalize_phrase("İx"), "i\u{307}x");
    // Numerals other than the ASCII digits are kept.
    assert_eq!(normalize_phrase("①２x3"), "①２x");
}

#[test]
fn numbers_and_separators_do_not_matter() {
    let plain = normalize_phrase("print 5 lines");
    assert_eq!(plain, normalize_phrase("print 4711 lines"));
    assert_eq!(plain, normalize_phrase("print, lines"));
    assert_eq!(plain, normalize_phrase("--print\tlines??"));
    assert_ne!(plain, normalize_phrase("printlines"));
}

#[test]
fn separators_are_told_from_letters() {
    assert!(is_separator(' ', true));
    assert!(is_separator('7', true));
    assert!(is_separator('-', false));
    assert!(!is_separator('x', true));
    assert!(!is_separator('让', true));
}

#[test]
fn phrase_builder_puts_single_spaces() {
    let mut builder = PhraseBuilder::new();
    builder.separate();
    builder.append(&['a']);
    builder.append(&['b', 'c']);
    builder.separate();
    builder.separate();
    builder.append(&['d']);
    builder.separate();
    assert_eq!(builder.finish(), "abc d");
}

#[test]
fn sentences_keep_their_enders() {
    assert_eq!(split_sentences("One. Two!三？四；five;\n rest"), vec![
        "One.", " Two!", "三？", "四；", "five;", "\n", " rest"
    ]);
    assert_eq!(split_sentences("One.  \t "), vec!["One."]);
    assert_eq!(split_sentences("。！"), vec!["。", "！"]);
    assert!(split_sentences("").is_empty());
    assert!(split_sentences("  ").is_empty());
}

#[test]
fn action_plans_are_known_by_their_opening() {
    for plan in [
        "让我看看", "我来处理", "我要修改", "我需要检查", "下一步是", "现在来运行", "Let me see",
        "LET ME SEE", "I will go", "I'll go", "Let's go", "i need to go", "I want to go",
        " \u{3000}Let me run it",
    ] {
        assert!(is_action_plan_sentence(plan), "{plan}");
    }
    for other in ["他让我看", "then let me see", "letme", "Iwill", "", "   ", "result is i will"] {
        assert!(!is_action_plan_sentence(other), "{other}");
    }
    assert!(has_action_opening("let me"));
    assert!(!has_action_opening("Let me"));
}

#[test]
fn fingerprints_need_twelve_characters() {
    assert_eq!(MIN_PHRASE_CHARS, 12);
    assert_eq!(extract_action_plan_fingerprints("Let me abcde"), vec!["let me abcde"]);
    assert!(extract_action_plan_fingerprints("Let me abcd").is_empty());
    assert!(extract_action_plan_fingerprints("Let me 1234567890").is_empty());
}

#[test]
fn fingerprints_come_in_order() {
    let text = "Well. Let me open the file; nothing here! I will read the log? 下一步检查电机接触器的状态";
    assert_eq!(extract_action_plan_fingerprints(text), vec![
        "let me open the file",
        "i will read the log",
        "下一步检查电机接触器的状态",
    ]);
}

#[test]
fn code_that_begins_like_an_opening_is_no_action_plan() {
    for code in [
        "let mean_value = compute_average(x)",
        "let message = format_message(user_name)",
        "let metrics = collect_metrics(registry)",
        "let me_too = compute_average(x)",
        "let me2 = compute_average(input)",
        "I willow_tree = plant_something(here)",
        "i'llegal_state_error_handler(x)",
        "let's2_total = compute_average(x)",
        "i need tokens = parse_all_tokens(x)",
        "i want totals = compute_all_totals(x)",
    ] {
        assert!(!is_action_plan_sentence(code), "{code}");
        assert!(extract_action_plan_fingerprints(code).is_empty(), "{code}");
    }
}

#[test]
fn openings_end_with_a_word() {
    assert!(has_action_opening("let me"));
    assert!(has_action_opening("let me, then"));
    assert!(has_action_opening("let me检查一下"));
    assert!(has_action_opening("让我check"));
    assert!(!has_action_opening("let mean"));
    assert!(!has_action_opening("let me_"));
    assert!(has_action_opening("let me tryx"));
    assert!(starts_with_any("abc", &["x", "ab"]));
    assert!(!starts_with_any("abc", &["x", "b"]));
    assert!(starts_with_words_of_any("ab c", &["x", "ab"]));
    assert!(!starts_with_words_of_any("abc", &["x", "ab"]));
}

#[test]
fn ascii_is_mapped_as_stated() {
    for u in 0..0x80u32 {
        let c = char::from_u32(u).unwrap();
        assert_eq!(c.is_alphanumeric(), c.is_ascii_alphanumeric());
        assert_eq!(c.to_lowercase().collect::<Vec<char>>(), vec![c.to_ascii_lowercase()]);
    }
    let all: String = (0..0x80u32).filter_map(char::from_u32).collect();
    assert_eq!(all.to_lowercase(), all.to_ascii_lowercase());
}

#[test]
fn lower_case_is_settled_but_for_one_character() {
    for u in 0..=0x10FFFFu32 {
        if let Some(c) = char::from_u32(u) {
            assert_eq!(is_settled(c), c != '\u{130}', "{u:x}");
        }
    }
}

#[test]
fn lower_case_is_clear_of_whitespace() {
    for u in 0..=0x10FFFFu32 {
        if let Some(c) = char::from_u32(u) {
            assert!(is_clear(c), "{u:x}");
        }
    }
}

#[test]
fn normal_forms_join_around_a_character_that_is_not_settled() {
    assert_eq!(normalize_phrase("\u{130}x 7 y\u{130}"), "i\u{307}x yi\u{307}");
}

#[test]
fn plans_with_several_other_numbers_share_a_fingerprint() {
    let a = extract_action_plan_fingerprints("Let me print lines 405-525 and 795-805 of the file");
    let b = extract_action_plan_fingerprints("Let me print lines 1-22222 and 300-4 of the file");
    assert_eq!(a, vec!["let me print lines and of the file"]);
    assert_eq!(a, b);
}

#[test]
fn normalizing_twice_is_normalizing_once() {
    for p in ["", "  Foo_bar--7baz!", "让我用 Python 打印 12 行", "ΑΣ ÀÉ", "①２x3"] {
        let once = normalize_phrase(p);
        assert_eq!(normalize_phrase(&once), once);
    }
    let once = normalize_phrase("\u{130}x");
    assert_ne!(normalize_phrase(&once), once);
}

#[test]
fn normal_forms_join_by_one_space() {
    for sep in [" ", "12", " -- 7,", "_\t\n"] {
        let joined = normalize_phrase(&("Print Lines".to_string() + sep + "让我 看"));
        assert_eq!(joined, "print lines 让我 看");
        assert_eq!(normalize_phrase(&(sep.to_string() + "Print" + sep)), "print");
    }
}

#[test]
fn numbers_and_ascii_case_do_not_matter() {
    let a = normalize_phrase("Show lines 405-525 and 795-805 of File");
    assert_eq!(a, normalize_phrase("Show lines 1-22222 and 3-4 of File"));
    assert_eq!(a, normalize_phrase("SHOW LINES 405-525 AND 795-805 OF FILE"));
    assert_eq!(
        extract_action_plan_fingerprints("LET ME VIEW LINES 12"),
        extract_action_plan_fingerprints("Let me view lines 7")
    );
}
