use orbit_wars::model_list::model_list_entries;
use orbit_wars::process_output::{
    command_output_snippet, output_snippet_text, COMMAND_OUTPUT_SNIPPET_BYTES,
};

#[test]
fn model_list_skips_blank_and_comment_lines() {
    let text = b"# champions\n\n  models/a.owv8  \nlabel  models/b.owv8\r\n   # skipped\n c.owv8";
    let entries = model_list_entries(text);
    assert_eq!(
        entries,
        vec![b"models/a.owv8".to_vec(), b"models/b.owv8".to_vec(), b"c.owv8".to_vec()]
    );
}

#[test]
fn model_list_of_only_comments_is_empty() {
    assert!(model_list_entries(b"# nothing\n\n   \n").is_empty());
    assert!(model_list_entries(b"").is_empty());
}

#[test]
fn model_list_takes_last_word_after_unicode_space() {
    // U+3000 IDEOGRAPHIC SPACE separates the words.
    let text = "first\u{3000}second\n".as_bytes();
    assert_eq!(model_list_entries(text), vec![b"second".to_vec()]);
}

#[test]
fn snippet_replaces_controls_and_semicolons() {
    let snippet = output_snippet_text(b"  error;\tfailed\x07 here\n");
    assert_eq!(snippet, b"error, failed  here".to_vec());
}

#[test]
fn snippet_of_blank_output_is_empty_word() {
    assert_eq!(output_snippet_text(b" \n\t "), b"empty".to_vec());
    assert_eq!(command_output_snippet(b""), b"empty".to_vec());
}

#[test]
fn snippet_replaces_c1_control_characters() {
    let text = "a\u{0085}b\u{009f}c".as_bytes();
    assert_eq!(output_snippet_text(text), b"a b c".to_vec());
}

#[test]
fn command_snippet_reads_invalid_utf8_lossily() {
    let snippet = command_output_snippet(b"ok\xffdone");
    assert_eq!(snippet, "ok\u{fffd}done".as_bytes().to_vec());
}

#[test]
fn command_snippet_looks_at_a_bounded_prefix() {
    let mut bytes = vec![b'x'; COMMAND_OUTPUT_SNIPPET_BYTES];
    bytes.extend_from_slice(b"tail");
    let snippet = command_output_snippet(&bytes);
    assert_eq!(snippet.len(), COMMAND_OUTPUT_SNIPPET_BYTES);
    assert!(snippet.iter().all(|byte| *byte == b'x'));
}
