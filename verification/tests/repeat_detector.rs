use loop_detector::repeat_detector::{MAX_PENDING_CHARS, MIN_SEGMENT_CHARS, REPEAT_THRESHOLD};
use loop_detector::RepeatDetector;

#[test]
fn normal_diverse_text_never_triggers() {
    let mut detector = RepeatDetector::new();
    let text = "First line of output. Second distinct sentence. Third is different. \
Fourth continues. Fifth wraps up. Sixth here. Seventh moves on. Eighth more. Ninth distinct. \
Tenth final.";
    assert!(!detector.push(text));
}

#[test]
fn repeated_sentence_triggers_after_threshold() {
    let mut detector = RepeatDetector::new();
    let normal = "Let me check the function. Verifying the flag. ";
    assert!(!detector.push(normal));
    for _ in 0..REPEAT_THRESHOLD - 1 {
        assert!(!detector.push("Let me view lines 1160-1200. "));
    }
    assert!(detector.push("Let me view lines 1160-1200. "));
}

#[test]
fn interrupted_repetition_resets_count() {
    let mut detector = RepeatDetector::new();
    for _ in 0..REPEAT_THRESHOLD - 1 {
        assert!(!detector.push("Same repeated text here. "));
    }
    assert!(!detector.push("A different sentence in between. "));
    for _ in 0..REPEAT_THRESHOLD - 1 {
        assert!(!detector.push("Same repeated text here. "));
    }
    assert!(detector.push("Same repeated text here. "));
}

#[test]
fn short_fragments_are_ignored() {
    let mut detector = RepeatDetector::new();
    for _ in 0..REPEAT_THRESHOLD + 2 {
        assert!(!detector.push("hi. "));
    }
    let sentence = "This is a long enough repeated sentence to count. ";
    for _ in 0..REPEAT_THRESHOLD - 1 {
        assert!(!detector.push(sentence));
    }
    assert!(detector.push(sentence));
}

#[test]
fn constants_have_their_values() {
    assert_eq!(REPEAT_THRESHOLD, 8);
    assert_eq!(MIN_SEGMENT_CHARS, 10);
    assert_eq!(MAX_PENDING_CHARS, 4096);
}

#[test]
fn short_fragments_do_not_interrupt_a_run() {
    let mut detector = RepeatDetector::new();
    for _ in 0..REPEAT_THRESHOLD - 1 {
        assert!(!detector.push("The same long sentence. Ok. "));
    }
    assert!(detector.push("The same long sentence."));
}

#[test]
fn length_counts_characters_and_the_ender() {
    // Nine characters with the ender: too short, though many bytes.
    let mut detector = RepeatDetector::new();
    assert!(!detector.push(&"一二三四五六七八。".repeat(20)));
    // Ten characters with the ender: long enough.
    let mut detector = RepeatDetector::new();
    assert!(!detector.push(&"一二三四五六七八九。".repeat(7)));
    assert!(detector.push("一二三四五六七八九。"));
}

#[test]
fn whitespace_around_a_segment_does_not_matter() {
    let mut detector = RepeatDetector::new();
    for _ in 0..4 {
        assert!(!detector.push("  Same words again."));
    }
    for _ in 0..3 {
        assert!(!detector.push("\t\u{3000}Same words again."));
    }
    assert!(detector.push("Same words again."));
}

#[test]
fn blank_segments_are_ignored() {
    let mut detector = RepeatDetector::new();
    for _ in 0..20 {
        assert!(!detector.push("                    \n"));
    }
}

#[test]
fn every_ender_cuts() {
    for ender in [".", "!", "?", "。", "！", "？", "\n"] {
        let mut detector = RepeatDetector::new();
        let sentence = format!("a sentence long enough{}", ender);
        assert!(!detector.push(&sentence.repeat(7)));
        assert!(detector.push(&sentence));
    }
    for other in [";", "；", ",", ":"] {
        let mut detector = RepeatDetector::new();
        let sentence = format!("a sentence long enough{}", other);
        assert!(!detector.push(&sentence.repeat(20)));
    }
}

#[test]
fn pieces_of_the_stream_do_not_matter() {
    let text = "Intro sentence goes here. ".to_string() + &"Again and again it comes! ".repeat(8);
    let mut whole = RepeatDetector::new();
    assert!(whole.push(&text));
    let mut pieces = RepeatDetector::new();
    let mut reported = false;
    for c in text.chars() {
        assert!(!reported || c == ' ');
        reported = pieces.push(&c.to_string()) || reported;
    }
    assert!(reported);
}

#[test]
fn a_loop_is_reported_as_long_as_it_goes_on() {
    let mut detector = RepeatDetector::new();
    let sentence = "It goes on and on. ";
    assert!(!detector.push(&sentence.repeat(7)));
    for _ in 0..5 {
        assert!(detector.push(sentence));
    }
    assert!(!detector.push("Now something else. "));
    assert!(!detector.push(sentence));
}

#[test]
fn text_behind_a_reported_loop_stays_pending() {
    let mut detector = RepeatDetector::new();
    let sentence = "It goes on and on. ";
    assert!(detector.push(&sentence.repeat(10)));
    // Two of the ten are still pending; each is reported in turn.
    assert!(detector.push(""));
    assert!(detector.push(""));
    assert!(!detector.push(""));
}

#[test]
fn pending_text_is_dropped_where_it_gets_too_long() {
    let sentence = "yyyyyyyyy.";
    // 4087 + 10 characters exceed the limit: the pending text goes.
    let mut detector = RepeatDetector::new();
    assert!(!detector.push(&"x".repeat(4087)));
    for _ in 0..7 {
        assert!(!detector.push(sentence));
    }
    assert!(detector.push(sentence));
    // 4086 + 10 do not: the first segment begins with it.
    let mut detector = RepeatDetector::new();
    assert!(!detector.push(&"x".repeat(4086)));
    for _ in 0..8 {
        assert!(!detector.push(sentence));
    }
    assert!(detector.push(sentence));
}

#[test]
fn pending_limit_counts_characters() {
    let sentence = "yyyyyyyyy.";
    let mut detector = RepeatDetector::new();
    assert!(!detector.push(&"字".repeat(4086)));
    for _ in 0..8 {
        assert!(!detector.push(sentence));
    }
    assert!(detector.push(sentence));
}

#[test]
fn next_segment_is_taken_up_to_its_ender() {
    let mut pending = "前一句。Next one! rest".to_string();
    assert_eq!(RepeatDetector::take_next_segment(&mut pending), Some("前一句。".to_string()));
    assert_eq!(pending, "Next one! rest");
    assert_eq!(RepeatDetector::take_next_segment(&mut pending), Some("Next one!".to_string()));
    assert_eq!(pending, " rest");
    assert_eq!(RepeatDetector::take_next_segment(&mut pending), None);
    assert_eq!(pending, " rest");
}

#[test]
fn default_detector_is_a_new_one() {
    let mut detector = RepeatDetector::default();
    assert!(!detector.push(&"Same repeated text here. ".repeat(7)));
    assert!(detector.push("Same repeated text here. "));
}
