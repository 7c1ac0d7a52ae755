use chunk_translate::api::process_task;
use chunk_translate::progress::{process_normal_result, ConfigData};
use chunk_translate::sequencer::{Outcome, PendingMessage, Sequencer};

fn success(text: &str) -> Outcome {
    let mut m = serde_json::Map::new();
    m.insert("output".to_string(), serde_json::Value::String(text.to_string()));
    Outcome::Success(serde_json::Value::Object(m).to_string())
}

fn msg(sequence: usize, read_count: usize, outcome: Outcome) -> PendingMessage {
    PendingMessage { sequence, read_count, outcome }
}

#[test]
fn out_of_order_completion_is_delivered_in_order() {
    let mut s = Sequencer::new(2);
    assert!(s.receive(msg(2, 2, success("two"))).is_empty());
    let out = s.receive(msg(1, 1, success("one")));
    let seqs: Vec<usize> = out.iter().map(|m| m.sequence).collect();
    assert_eq!(seqs, vec![1, 2]);
    let config = ConfigData::new("en".to_string(), "zh".to_string());
    let first = process_normal_result(&out[0], "output", &config, "", 2).unwrap().unwrap();
    let second = process_normal_result(&out[1], "output", &config, "", 2).unwrap().unwrap();
    assert_eq!(first.translation, "one");
    assert_eq!(second.translation, "two");
    assert_eq!(s.get_expected(), 3);
}

#[test]
fn failure_is_skipped_and_sequence_advances() {
    let mut s = Sequencer::new(1);
    let out = s.receive(msg(1, 1, Outcome::Failure("status 500".to_string())));
    assert_eq!(out.len(), 1);
    let config = ConfigData::new("en".to_string(), "zh".to_string());
    assert!(process_normal_result(&out[0], "output", &config, "t", 2).unwrap().is_none());
    let out = s.receive(msg(2, 2, success("b")));
    assert_eq!(out.len(), 1);
    assert_eq!(out[0].sequence, 2);
}

#[test]
fn pool_terminates_after_all_sentinels() {
    let mut s = Sequencer::new(2);
    assert!(s.receive(msg(2, 2, success("b"))).is_empty());
    assert!(s.receive(PendingMessage::end_of_stream()).is_empty());
    assert!(!s.is_finished());
    assert_eq!(s.receive(msg(1, 1, success("a"))).len(), 2);
    assert!(!s.is_finished());
    assert!(s.receive(PendingMessage::end_of_stream()).is_empty());
    assert_eq!(s.get_end_signals(), 2);
    assert!(s.is_finished());
}

#[test]
fn stale_and_duplicate_messages_are_dropped() {
    let mut s = Sequencer::new(1);
    assert_eq!(s.receive(msg(1, 1, success("a"))).len(), 1);
    assert!(s.receive(msg(1, 1, success("a"))).is_empty());
    assert!(s.receive(msg(3, 3, success("c"))).is_empty());
    assert!(s.receive(msg(3, 3, success("c"))).is_empty());
    let out = s.receive(msg(2, 2, success("b")));
    assert_eq!(out.len(), 2);
    assert_eq!(s.get_expected(), 4);
    assert!(s.receive(PendingMessage::end_of_stream()).is_empty());
    assert!(s.is_finished());
}

#[test]
fn cursor_counts_every_read_attempt() {
    let config = ConfigData::new("en".to_string(), "zh".to_string()).with_history(4);
    let plan = process_normal_result(&msg(1, 3, success("x")), "output", &config, "terms", 2)
        .unwrap()
        .unwrap();
    assert_eq!(plan.cursor.history_lines, 10);
    assert_eq!(plan.cursor.target_lang, "en");
    assert_eq!(plan.cursor.source_lang, "zh");
    assert!(plan.write_term);
}

#[test]
fn missing_output_key_is_an_error() {
    let config = ConfigData::new("en".to_string(), "zh".to_string());
    let r = process_normal_result(&msg(1, 1, success("x")), "result", &config, "", 2);
    assert!(r.is_err());
}

#[test]
fn task_outcomes() {
    assert!(matches!(process_task(Ok(None)), Outcome::Failure(s) if s == "no result"));
    assert!(matches!(process_task(Err("boom".to_string())), Outcome::Failure(s) if s == "request failed: boom"));
    assert!(matches!(process_task(Ok(Some("null".to_string()))), Outcome::Success(s) if s == "null"));
}

fn permutations(items: Vec<usize>) -> Vec<Vec<usize>> {
    if items.len() <= 1 {
        return vec![items];
    }
    let mut all = Vec::new();
    for i in 0..items.len() {
        let mut rest = items.clone();
        let first = rest.remove(i);
        for mut p in permutations(rest) {
            p.insert(0, first);
            all.push(p);
        }
    }
    all
}

#[test]
fn every_arrival_order_hands_on_in_sequence() {
    for order in permutations(vec![1, 2, 3, 4]) {
        let mut s = Sequencer::new(2);
        let mut handed = Vec::new();
        for seq in &order {
            for m in s.receive(msg(*seq, *seq, success("t"))) {
                handed.push(m.sequence);
            }
        }
        s.receive(PendingMessage::end_of_stream());
        s.receive(PendingMessage::end_of_stream());
        assert_eq!(handed, vec![1, 2, 3, 4], "order {:?}", order);
        assert!(s.is_finished());
    }
}

#[test]
fn held_messages_are_released_intact() {
    let mut s = Sequencer::new(1);
    assert!(s.receive(msg(3, 7, success("c"))).is_empty());
    assert!(s.receive(msg(2, 5, success("b"))).is_empty());
    let out = s.receive(msg(1, 2, success("a")));
    let reads: Vec<usize> = out.iter().map(|m| m.read_count).collect();
    assert_eq!(reads, vec![2, 5, 7]);
    let config = ConfigData::new("en".to_string(), "zh".to_string());
    let texts: Vec<String> = out
        .iter()
        .map(|m| process_normal_result(m, "output", &config, "", 2).unwrap().unwrap().translation)
        .collect();
    assert_eq!(texts, vec!["a", "b", "c"]);
}

#[test]
fn non_string_output_is_missing() {
    let config = ConfigData::new("en".to_string(), "zh".to_string());
    let m = msg(1, 1, Outcome::Success("{\"output\":3}".to_string()));
    assert!(process_normal_result(&m, "output", &config, "", 2).is_err());
}
