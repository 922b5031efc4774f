use std::io::Write;

use flate2::write::GzEncoder;
use flate2::Compression;
use log_summarizer::archive::{decompress, has_extension, normalize_text};
use log_summarizer::chunk::{
    assemble, build_prompt, chunk_slices, input_increment, output_increment, PROMPT_PREAMBLE,
    TOTAL_BUDGET,
};
use log_summarizer::filter::{filter_log_messages, filter_segments, is_info_msg};

fn gzip(bytes: &[u8]) -> Vec<u8> {
    let mut enc = GzEncoder::new(Vec::new(), Compression::default());
    enc.write_all(bytes).unwrap();
    enc.finish().unwrap()
}

#[test]
fn decoding_fixture_gives_plaintext() {
    let plain = b"[00:00:01] [Server thread/INFO]: hello\nsecond line\n".to_vec();
    let packed = gzip(&plain);
    assert_ne!(packed, plain);
    assert_eq!(decompress(&packed), Some(plain));
}

#[test]
fn decoding_large_fixture_crosses_blocks() {
    let plain: Vec<u8> = (0..20000u32).map(|i| (i % 251) as u8).collect();
    assert_eq!(decompress(&gzip(&plain)), Some(plain));
}

#[test]
fn decoding_corrupt_archive_fails() {
    assert_eq!(decompress(b"not a gzip stream"), None);
}

#[test]
fn normalizing_replaces_invalid_bytes() {
    assert_eq!(normalize_text(b"ab\xffc"), "ab\u{FFFD}c");
    assert_eq!(normalize_text(b""), "");
}

#[test]
fn filter_drops_warn_entries() {
    let input = "[12:00:00] [Server thread/INFO]: A\n[12:00:01] [Server thread/WARN]: B\n";
    let out = filter_log_messages(input).unwrap();
    assert_eq!(out, "[Server thread/INFO]: A\n");
    assert!(!out.contains("WARN"));
    assert!(!out.contains("12:00"));
}

#[test]
fn filter_trims_startup() {
    let input = "junk[00:00:01] [Server thread/INFO]: Done loading\n[00:00:02] [Server thread/INFO]: ready";
    assert_eq!(
        filter_log_messages(input).unwrap(),
        "[Server thread/INFO]: Done loading\n[Server thread/INFO]: ready"
    );
}

#[test]
fn filter_trims_inside_segment() {
    let input = "[00:00:01] [Server thread/INFO]: prep [Server thread/INFO]: Done x\n";
    assert_eq!(filter_log_messages(input).unwrap(), "[Server thread/INFO]: Done x\n");
}

#[test]
fn filter_without_info_is_empty() {
    let input = "hello\n[00:00:01] [Server thread/WARN]: x\n[00:00:02] [Worker/ERROR]: y";
    assert_eq!(filter_log_messages(input).unwrap(), "");
    assert_eq!(filter_log_messages("").unwrap(), "");
}

#[test]
fn filter_without_done_keeps_all() {
    let input = "[00:00:01] [Server thread/INFO]: a\n[00:00:02]   [Server thread/INFO]: b\n";
    assert_eq!(
        filter_log_messages(input).unwrap(),
        "[Server thread/INFO]: a\n[Server thread/INFO]: b\n"
    );
}

#[test]
fn segments_are_filtered_in_order() {
    let segs = vec![
        "x".to_string(),
        "[Server thread/INFO]: one ".to_string(),
        "[Server thread/WARN]: two ".to_string(),
        "[Server thread/INFO]: three".to_string(),
    ];
    assert_eq!(filter_segments(&segs), "[Server thread/INFO]: one [Server thread/INFO]: three");
}

#[test]
fn info_marker_is_case_sensitive() {
    assert!(is_info_msg("[Server thread/INFO]: hi"));
    assert!(!is_info_msg("[server thread/info]: hi"));
    assert!(!is_info_msg(""));
}

#[test]
fn extension_follows_last_dot() {
    assert!(has_extension("a.log.gz", "gz"));
    assert!(has_extension("a.log", "log"));
    assert!(!has_extension("a.log.gz", "log"));
    assert!(!has_extension(".gz", "gz"));
    assert!(!has_extension("gz", "gz"));
    assert!(!has_extension("a.", "gz"));
}

#[test]
fn budget_splits_between_input_and_output() {
    assert_eq!(PROMPT_PREAMBLE.len(), 110);
    let inc = input_increment(TOTAL_BUDGET, PROMPT_PREAMBLE.len());
    assert_eq!(inc, 914);
    assert_eq!(output_increment(TOTAL_BUDGET, inc), 1134);
}

#[test]
fn chunks_cover_text_in_order() {
    let chunks = chunk_slices("abcdefg", 3);
    assert_eq!(chunks, vec!["abc", "def", "g"]);
    assert_eq!(chunks.concat(), "abcdefg");
    assert_eq!(chunk_slices("abcdef", 3).len(), 2);
    assert!(chunk_slices("", 3).is_empty());
    assert_eq!(chunk_slices("é日本", 2), vec!["é日", "本"]);
}

#[test]
fn chunk_count_is_ceiling() {
    let text = "x".repeat(2000);
    let chunks = chunk_slices(&text, 914);
    assert_eq!(chunks.len(), 3);
    assert_eq!(chunks[2].len(), 2000 - 2 * 914);
    assert_eq!(chunks.concat(), text);
}

#[test]
fn prompt_is_preamble_then_chunk() {
    assert_eq!(build_prompt("P: ", "body"), "P: body");
}

#[test]
fn missing_response_contributes_nothing() {
    let responses = vec![Some("a".to_string()), None, Some("b".to_string())];
    assert_eq!(assemble(&responses), "ab");
    assert_eq!(assemble(&vec![None]), "");
}

fn run_pipeline(archive: &[u8]) -> String {
    let raw = decompress(archive).unwrap();
    let text = normalize_text(&raw);
    let filtered = filter_log_messages(&text).unwrap();
    let inc = input_increment(TOTAL_BUDGET, PROMPT_PREAMBLE.len());
    let responses: Vec<Option<String>> = chunk_slices(&filtered, inc)
        .iter()
        .map(|c| {
            let prompt = build_prompt(PROMPT_PREAMBLE, c);
            prompt.trim_end().lines().last().map(|l| l.to_string())
        })
        .collect();
    assemble(&responses)
}

#[test]
fn end_to_end_echo_gives_chat_line() {
    let log = "[00:00:01] [Server thread/INFO]: Done (1.2s)! For help, type \"help\"\n[00:00:05] [Server thread/INFO]: <steve> hello all\n";
    let out = run_pipeline(&gzip(log.as_bytes()));
    assert_eq!(out, "[Server thread/INFO]: <steve> hello all");
}

#[test]
fn pipeline_runs_are_identical() {
    let log = "[00:00:01] [Server thread/INFO]: Done\n[00:00:02] [Server thread/INFO]: a\n[00:00:03] [Server thread/WARN]: b\n";
    let archive = gzip(log.as_bytes());
    assert_eq!(run_pipeline(&archive), run_pipeline(&archive));
}
