use speech_relay::chunker::{chunk_text, split_words};
use speech_relay::dispatch::{clean_text, dispatch_command, EngineOp, SpeakConfig};
use speech_relay::engine::{EngineHandle, EngineStatus};
use speech_relay::protocol::{parse_line, parse_port, port_or_default};
use speech_relay::{DEFAULT_PORT, MAX_CHUNK_LEN};

fn cv(s: &str) -> Vec<char> {
    s.chars().collect()
}

fn sv(chars: &[char]) -> String {
    chars.iter().collect()
}

fn no_interrupt() -> SpeakConfig {
    SpeakConfig {
        interrupt_on_speak: false,
    }
}

#[test]
fn chunk_short_text_is_single_chunk() {
    let got = chunk_text(&cv("hello world"), 100);
    assert_eq!(got.len(), 1);
    assert_eq!(sv(&got[0]), "hello world");
}

#[test]
fn chunk_collapses_whitespace_runs() {
    let got = chunk_text(&cv("  hello \t  world  "), 100);
    assert_eq!(got.len(), 1);
    assert_eq!(sv(&got[0]), "hello world");
}

#[test]
fn chunk_empty_and_blank_text_yield_no_chunks() {
    assert_eq!(chunk_text(&cv(""), 10).len(), 0);
    assert_eq!(chunk_text(&cv("   \t "), 10).len(), 0);
}

#[test]
fn chunk_packs_words_greedily() {
    let got = chunk_text(&cv("aa bb cc"), 5);
    assert_eq!(got.len(), 2);
    assert_eq!(sv(&got[0]), "aa bb");
    assert_eq!(sv(&got[1]), "cc");
}

#[test]
fn chunk_never_splits_a_word() {
    let got = chunk_text(&cv("aaaaaaa bb"), 5);
    assert_eq!(got.len(), 2);
    assert_eq!(sv(&got[0]), "aaaaaaa");
    assert_eq!(sv(&got[1]), "bb");
}

#[test]
fn chunk_rejoin_reproduces_normalized_text() {
    let text = "one  two three   four five";
    let got = chunk_text(&cv(text), 9);
    let joined = got
        .iter()
        .map(|c| sv(c))
        .collect::<Vec<String>>()
        .join(" ");
    assert_eq!(joined, "one two three four five");
    for chunk in &got {
        assert!(chunk.len() <= 9);
    }
}

#[test]
fn split_words_finds_maximal_runs() {
    let got = split_words(&cv(" ab  cd \t e"));
    let words: Vec<String> = got.iter().map(|w| sv(w)).collect();
    assert_eq!(words, vec!["ab", "cd", "e"]);
}

#[test]
fn clean_text_replaces_return_marker() {
    let got = clean_text(&cv("foo\u{23CE}bar\u{23CE}"));
    assert_eq!(sv(&got), "foo bar ");
}

#[test]
fn clean_text_leaves_plain_text_alone() {
    let got = clean_text(&cv("plain text"));
    assert_eq!(sv(&got), "plain text");
}

#[test]
fn dispatch_speak_emits_one_chunk() {
    let ops = dispatch_command('s', &cv("hello world"), no_interrupt());
    assert_eq!(ops.len(), 1);
    match &ops[0] {
        EngineOp::Speak { text, interrupt } => {
            assert_eq!(sv(text), "hello world");
            assert!(!interrupt);
        }
        EngineOp::Cancel => panic!("expected a speak operation"),
    }
}

#[test]
fn dispatch_l_is_synonym_of_s() {
    let s_ops = dispatch_command('s', &cv("same text"), no_interrupt());
    let l_ops = dispatch_command('l', &cv("same text"), no_interrupt());
    assert_eq!(s_ops, l_ops);
}

#[test]
fn dispatch_empty_argument_is_no_op() {
    assert_eq!(dispatch_command('s', &cv(""), no_interrupt()).len(), 0);
    assert_eq!(dispatch_command('l', &cv(""), no_interrupt()).len(), 0);
}

#[test]
fn dispatch_cancel_ignores_argument() {
    let ops = dispatch_command('x', &cv("ignored"), no_interrupt());
    assert_eq!(ops, vec![EngineOp::Cancel]);
}

#[test]
fn dispatch_unknown_code_is_no_op() {
    assert_eq!(dispatch_command('z', &cv("foo"), no_interrupt()).len(), 0);
    assert_eq!(dispatch_command('S', &cv("foo"), no_interrupt()).len(), 0);
}

#[test]
fn dispatch_cleans_marker_before_speaking() {
    let ops = dispatch_command('s', &cv("a\u{23CE}b"), no_interrupt());
    assert_eq!(ops.len(), 1);
    match &ops[0] {
        EngineOp::Speak { text, .. } => assert_eq!(sv(text), "a b"),
        EngineOp::Cancel => panic!("expected a speak operation"),
    }
}

#[test]
fn dispatch_long_text_chunks_in_order() {
    let first = "a".repeat(6000);
    let second = "b".repeat(6000);
    let arg = format!("{first} {second}");
    let ops = dispatch_command('s', &cv(&arg), no_interrupt());
    assert_eq!(ops.len(), 2);
    match (&ops[0], &ops[1]) {
        (
            EngineOp::Speak { text: t0, .. },
            EngineOp::Speak { text: t1, .. },
        ) => {
            assert_eq!(sv(t0), first);
            assert_eq!(sv(t1), second);
        }
        _ => panic!("expected two speak operations"),
    }
}

#[test]
fn dispatch_interrupt_flag_only_on_first_chunk() {
    let arg = format!("{} {}", "a".repeat(6000), "b".repeat(6000));
    let cfg = SpeakConfig {
        interrupt_on_speak: true,
    };
    let ops = dispatch_command('s', &cv(&arg), cfg);
    assert_eq!(ops.len(), 2);
    match (&ops[0], &ops[1]) {
        (
            EngineOp::Speak { interrupt: i0, .. },
            EngineOp::Speak { interrupt: i1, .. },
        ) => {
            assert!(*i0);
            assert!(!*i1);
        }
        _ => panic!("expected two speak operations"),
    }
}

#[test]
fn parse_line_splits_code_and_argument() {
    let cmd = parse_line(&cv("shello world\n")).expect("line carries a command");
    assert_eq!(cmd.code, 's');
    assert_eq!(sv(&cmd.arg), "hello world");
}

#[test]
fn parse_line_strips_crlf() {
    let cmd = parse_line(&cv("shi\r\n")).expect("line carries a command");
    assert_eq!(cmd.code, 's');
    assert_eq!(sv(&cmd.arg), "hi");
}

#[test]
fn parse_line_skips_empty_lines() {
    assert!(parse_line(&cv("")).is_none());
    assert!(parse_line(&cv("\n")).is_none());
    assert!(parse_line(&cv("\r\n")).is_none());
}

#[test]
fn parse_line_takes_any_first_character_as_code() {
    let cmd = parse_line(&cv("\u{e9}foo\n")).expect("line carries a command");
    assert_eq!(cmd.code, '\u{e9}');
    assert_eq!(sv(&cmd.arg), "foo");
}

#[test]
fn parse_port_accepts_decimal_u16() {
    assert_eq!(parse_port(&cv("64111")), Some(64111));
    assert_eq!(parse_port(&cv("0")), Some(0));
    assert_eq!(parse_port(&cv("65535")), Some(65535));
    assert_eq!(parse_port(&cv("+80")), Some(80));
    assert_eq!(parse_port(&cv("00065535")), Some(65535));
}

#[test]
fn parse_port_rejects_bad_input() {
    assert_eq!(parse_port(&cv("")), None);
    assert_eq!(parse_port(&cv("+")), None);
    assert_eq!(parse_port(&cv("65536")), None);
    assert_eq!(parse_port(&cv("99999999999999999999")), None);
    assert_eq!(parse_port(&cv("12a")), None);
    assert_eq!(parse_port(&cv("-1")), None);
    assert_eq!(parse_port(&cv(" 80")), None);
}

#[test]
fn port_or_default_falls_back() {
    assert_eq!(port_or_default(&cv("8080")), 8080);
    assert_eq!(port_or_default(&cv("not a port")), DEFAULT_PORT);
    assert_eq!(port_or_default(&cv("")), DEFAULT_PORT);
}

#[test]
fn fresh_connection_speaks_hello_world() {
    let mut handle = EngineHandle::new(true);
    let ops = handle.submit_line(&cv("s hello world\n"), no_interrupt());
    assert_eq!(ops.len(), 1);
    match &ops[0] {
        EngineOp::Speak { text, .. } => assert_eq!(sv(text), "hello world"),
        EngineOp::Cancel => panic!("expected a speak operation"),
    }
}

#[test]
fn cancel_line_emits_one_cancel() {
    let mut handle = EngineHandle::new(true);
    let ops = handle.submit_line(&cv("x\n"), no_interrupt());
    assert_eq!(ops, vec![EngineOp::Cancel]);
}

#[test]
fn unknown_command_line_reaches_no_engine() {
    let mut handle = EngineHandle::new(true);
    let ops = handle.submit_line(&cv("zfoo\n"), no_interrupt());
    assert_eq!(ops.len(), 0);
}

#[test]
fn oversized_single_word_is_not_split() {
    let word = "a".repeat(25000);
    assert!(word.len() > MAX_CHUNK_LEN);
    let mut handle = EngineHandle::new(true);
    let line = format!("s{word}\n");
    let ops = handle.submit_line(&cv(&line), no_interrupt());
    assert_eq!(ops.len(), 1);
    match &ops[0] {
        EngineOp::Speak { text, .. } => assert_eq!(sv(text), word),
        EngineOp::Cancel => panic!("expected a speak operation"),
    }
}

#[test]
fn blank_lines_are_skipped_silently() {
    let mut handle = EngineHandle::new(true);
    assert_eq!(handle.submit_line(&cv("\n"), no_interrupt()).len(), 0);
    assert_eq!(handle.submit_line(&cv("\r\n"), no_interrupt()).len(), 0);
}

#[test]
fn speak_with_empty_body_reaches_no_engine() {
    let mut handle = EngineHandle::new(true);
    assert_eq!(handle.submit_line(&cv("s\n"), no_interrupt()).len(), 0);
    assert_eq!(handle.submit_line(&cv("l\r\n"), no_interrupt()).len(), 0);
}

#[test]
fn failed_session_turns_every_command_into_no_op() {
    let mut handle = EngineHandle::new(false);
    assert_eq!(handle.status(), EngineStatus::Failed);
    assert_eq!(
        handle.submit_line(&cv("s hello\n"), no_interrupt()).len(),
        0
    );
    assert_eq!(handle.submit_line(&cv("l world\n"), no_interrupt()).len(), 0);
    assert_eq!(handle.submit_line(&cv("x\n"), no_interrupt()).len(), 0);
    assert_eq!(handle.status(), EngineStatus::Failed);
}

#[test]
fn two_submissions_keep_their_own_runs() {
    let mut handle = EngineHandle::new(true);
    let first = handle.submit_line(&cv("s one two\n"), no_interrupt());
    let second = handle.submit_line(&cv("l three\n"), no_interrupt());
    assert_eq!(first.len(), 1);
    assert_eq!(second.len(), 1);
    match (&first[0], &second[0]) {
        (
            EngineOp::Speak { text: t0, .. },
            EngineOp::Speak { text: t1, .. },
        ) => {
            assert_eq!(sv(t0), "one two");
            assert_eq!(sv(t1), "three");
        }
        _ => panic!("expected speak operations"),
    }
}

#[test]
fn ready_session_reports_ready() {
    let handle = EngineHandle::new(true);
    assert_eq!(handle.status(), EngineStatus::Ready);
}
