use loop_detector::cross_turn_detector::{
    CROSS_TURN_ENABLED, REPEAT_MESSAGE_THRESHOLD, WINDOW_SIZE,
};
use loop_detector::{
    extract_action_plan_fingerprints, is_highly_similar, CrossTurnStore, SessionTurnState,
};

#[test]
fn code_and_identifier_references_are_not_fingerprinted() {
    let text = "hv_off_close_breaker(hv_info_t* hv_info, int index) { \
        int do_num = get_conta_do_num(HV_DO_DC_BREAKER, index, 0); \
        return SUCCESS; } \
        SID_BATTERY_SYSTEM_MANAGEMENT_UNIT_CTL_START_SLAVE_BMU_LEFT_CLUSTER_UPDATE \
        send_syn_req(SIGNAL_CTRL_SUBSCRIBE_MSG, &ctrl_sid, sizeof(ctrl_sid))";
    let fps = extract_action_plan_fingerprints(text);
    assert!(fps.is_empty(), "代码引用不应提取出行动计划指纹: {fps:?}");
}

#[test]
fn action_plan_sentence_is_extracted() {
    let text = "让我用 Python 打印 mobile.css 405-525 和 795-805 行。让我执行。";
    let fps = extract_action_plan_fingerprints(text);
    assert_eq!(fps.len(), 1, "只应提取出完整行动计划句: {fps:?}");
    assert_eq!(fps[0], "让我用 python 打印 mobile");
}

#[test]
fn english_action_plan_is_extracted_and_normalized() {
    let text = "Let me view lines 1160-1200. Verifying the flag state now.";
    let fps = extract_action_plan_fingerprints(text);
    assert_eq!(fps.len(), 1, "只应提取 Let me 句: {fps:?}");
    assert_eq!(fps[0], "let me view lines");
}

#[test]
fn cross_turn_loop_triggers_after_threshold_messages() {
    let mut store = CrossTurnStore::new();
    let session = "sess-test-1";
    let fp = vec!["让我用 python 打印 mobilecss 和 行".to_string()];

    assert!(!store.check_and_record(session, &fp));
    assert!(!store.check_and_record(session, &fp));
    assert!(store.check_and_record(session, &fp));
}

#[test]
fn slight_variations_still_match() {
    let a = "让我用 python 打印 mobilecss 和 行".to_string();
    let b = "让我用 python 打印 mobilecss 和 行".to_string();
    assert!(is_highly_similar(&a, &b));
    let c = "让我检查电机接触器状态".to_string();
    assert!(!is_highly_similar(&a, &c));
}

#[test]
fn normalization_makes_similar_action_plans_match() {
    let a = extract_action_plan_fingerprints("让我用 Python 打印 mobile css 405-525 和 795-805 行");
    let b = extract_action_plan_fingerprints("让我用 Python 打印 mobile css 100-200 和 300-400 行");
    assert_eq!(a, b, "仅行号不同，归一化后指纹应一致");
    assert!(is_highly_similar(&a[0], &b[0]));
}

#[test]
fn let_me_call_write_stdin_triggers_cross_turn() {
    let mut store = CrossTurnStore::new();
    let session = "sess-write-stdin";
    let fp = extract_action_plan_fingerprints("Let me call write_stdin.");
    assert!(!fp.is_empty());
    assert!(!store.check_and_record(session, &fp));
    assert!(!store.check_and_record(session, &fp));
    assert!(store.check_and_record(session, &fp));
}

#[test]
fn window_caps_memory() {
    let mut state = SessionTurnState::default();
    for i in 0..(WINDOW_SIZE + 10) {
        state.push(vec![format!("action plan number {i}")]);
    }
    assert!(state.messages.len() <= WINDOW_SIZE);
}

/// A message whose fingerprint is similar to that of no other number.
fn message(number: u32) -> Vec<String> {
    let letter = char::from_u32('a' as u32 + number).unwrap();
    vec![letter.to_string().repeat(20)]
}

#[test]
fn cross_turn_constants_have_their_values() {
    assert!(CROSS_TURN_ENABLED);
    assert_eq!(WINDOW_SIZE, 20);
    assert_eq!(REPEAT_MESSAGE_THRESHOLD, 3);
}

#[test]
fn window_keeps_the_newest_messages() {
    let mut state = SessionTurnState::default();
    for i in 0..25 {
        state.push(message(i));
    }
    assert_eq!(state.messages.len(), 20);
    assert_eq!(state.messages[0], message(5));
    assert_eq!(state.messages[19], message(24));
}

#[test]
fn messages_without_fingerprints_are_not_kept() {
    let mut state = SessionTurnState::default();
    state.push(vec![]);
    assert_eq!(state.messages.len(), 0);
    let mut store = CrossTurnStore::new();
    for _ in 0..5 {
        assert!(!store.check_and_record("s", &[]));
    }
}

#[test]
fn check_counts_messages_not_fingerprints() {
    let mut state = SessionTurnState::default();
    let plan = "let me look at the parser".to_string();
    state.push(vec![plan.clone(), plan.clone(), plan.clone()]);
    assert!(!state.check(&[plan.clone()]));
    state.push(vec!["i will do something else".to_string(), plan.clone()]);
    assert!(!state.check(&[plan.clone()]));
    state.push(vec![plan.clone()]);
    assert!(state.check(&[plan.clone()]));
    assert!(state.check(&["entirely different".to_string(), plan.clone()]));
    assert!(!state.check(&["entirely different".to_string()]));
    assert!(!state.check(&[]));
}

#[test]
fn similar_plans_count_as_the_same() {
    let mut store = CrossTurnStore::new();
    assert!(!store.check_and_record("s", &["let me print the lines of a file".to_string()]));
    assert!(!store.check_and_record("s", &["let me print the lines of b file".to_string()]));
    assert!(store.check_and_record("s", &["let me print the line of a file".to_string()]));
}

#[test]
fn sessions_are_independent() {
    let mut store = CrossTurnStore::new();
    let fp = message(0);
    assert!(!store.check_and_record("one", &fp));
    assert!(!store.check_and_record("one", &fp));
    assert!(!store.check_and_record("two", &fp));
    assert!(!store.check_and_record("two", &fp));
    assert!(store.check_and_record("one", &fp));
    assert!(store.check_and_record("two", &fp));
    assert!(!store.check_and_record("three", &fp));
}

#[test]
fn reported_message_is_taken_back() {
    let mut store = CrossTurnStore::new();
    let both = vec!["let me look at the parser".to_string(), "zzzzzzzzzzzzzzzzzzzz".to_string()];
    let parser = vec!["let me look at the parser".to_string()];
    let z = vec!["zzzzzzzzzzzzzzzzzzzz".to_string()];
    assert!(!store.check_and_record("s", &parser));
    assert!(!store.check_and_record("s", &parser));
    assert!(store.check_and_record("s", &both));
    assert!(store.check_and_record("s", &both));
    // Neither of the two reported messages is among those kept.
    assert!(!store.check_and_record("s", &z));
    assert!(!store.check_and_record("s", &z));
    assert!(store.check_and_record("s", &z));
}

#[test]
fn messages_beyond_the_window_are_forgotten() {
    let mut store = CrossTurnStore::new();
    assert!(!store.check_and_record("s", &message(0)));
    assert!(!store.check_and_record("s", &message(0)));
    for i in 1..18 {
        assert!(!store.check_and_record("s", &message(i)));
    }
    // Nineteen messages are kept: both of the first two still count.
    assert!(store.check_and_record("s", &message(0)));
    assert!(!store.check_and_record("s", &message(18)));
    // Twenty are kept: the next one pushes out the first.
    assert!(!store.check_and_record("s", &message(0)));
}

#[test]
fn report_at_a_full_window_costs_the_oldest_message() {
    let mut store = CrossTurnStore::new();
    assert!(!store.check_and_record("s", &message(1)));
    for i in 2..18 {
        assert!(!store.check_and_record("s", &message(i)));
    }
    assert!(!store.check_and_record("s", &message(1)));
    assert!(!store.check_and_record("s", &message(0)));
    assert!(!store.check_and_record("s", &message(0)));
    // The window is full; the reported message goes, and the oldest with it.
    assert!(store.check_and_record("s", &message(0)));
    // Nineteen are kept, and only the later copy of message 1 is among them.
    assert!(!store.check_and_record("s", &message(1)));
}

#[test]
fn switched_off_store_neither_reports_nor_records() {
    let mut store = CrossTurnStore::new();
    assert!(store.enabled());
    let fp = message(0);
    assert!(!store.check_and_record("s", &fp));
    store.set_enabled(false);
    assert!(!store.enabled());
    for _ in 0..5 {
        assert!(!store.check_and_record("s", &fp));
    }
    store.set_enabled(true);
    assert!(!store.check_and_record("s", &fp));
    assert!(store.check_and_record("s", &fp));
}

#[test]
fn default_store_is_off() {
    let mut store = CrossTurnStore::default();
    assert!(!store.enabled());
    for _ in 0..5 {
        assert!(!store.check_and_record("s", &message(0)));
    }
}
