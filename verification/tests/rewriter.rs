use caloud::input_rewrite::rewriter::InputRewriter;
use caloud::input_rewrite::rule::{ParseError, RewriteRule};

/// Feed all of `input`, then flush as at end of stream.
fn rewrite_bytes(rewriter: &mut InputRewriter, input: &[u8]) -> Vec<u8> {
    rewriter.push(input);
    let mut out = rewriter.drain(false);
    out.extend(rewriter.drain(true));
    out
}

#[test]
fn first_rule_wins() {
    let mut rewriter = InputRewriter::new(vec![
        RewriteRule::parse("a:first").unwrap(),
        RewriteRule::parse("a:second").unwrap(),
    ]);
    assert_eq!(rewrite_bytes(&mut rewriter, b"a"), b"first");
}

#[test]
fn longest_match() {
    let mut rewriter = InputRewriter::new(vec![
        RewriteRule::parse(r"a:short").unwrap(),
        RewriteRule::parse(r"ab:long").unwrap(),
    ]);
    assert_eq!(rewrite_bytes(&mut rewriter, b"ab"), b"long");
}

#[test]
fn eof_flushes_unmatched_buffer_as_raw() {
    let mut rewriter = InputRewriter::new(vec![RewriteRule::parse("abc:x").unwrap()]);
    assert_eq!(rewrite_bytes(&mut rewriter, b"ab"), b"ab");
}

#[test]
fn output_is_not_reprocessed() {
    let mut rewriter = InputRewriter::new(vec![
        RewriteRule::parse("a:b").unwrap(),
        RewriteRule::parse("b:a").unwrap(),
    ]);
    assert_eq!(rewrite_bytes(&mut rewriter, b"ab"), b"ba");
}

#[test]
fn short_timeout_flushes_prefix_before_continuation_arrives() {
    // the ambiguity timeout elapses before `b` arrives: the pending ESC is
    // force-drained alone, so the rule cannot match
    let mut rewriter = InputRewriter::new(vec![RewriteRule::parse(r"\x1bb:\x02").unwrap()])
        .with_pending_timeout(0);
    let mut output = Vec::new();
    rewriter.push(b"\x1b");
    output.extend(rewriter.drain(false));
    assert!(rewriter.has_pending());
    output.extend(rewriter.drain(true));
    rewriter.push(b"b");
    output.extend(rewriter.drain(false));
    output.extend(rewriter.drain(true));
    assert_eq!(output, b"\x1bb");
}

#[test]
fn long_timeout_allows_split_bytes_to_combine() {
    // `b` arrives well within the timeout: the two bytes combine and match
    let mut rewriter = InputRewriter::new(vec![RewriteRule::parse(r"\x1bb:\x02").unwrap()])
        .with_pending_timeout(60_000);
    let mut output = Vec::new();
    rewriter.push(b"\x1b");
    output.extend(rewriter.drain(false));
    rewriter.push(b"b");
    output.extend(rewriter.drain(false));
    output.extend(rewriter.drain(true));
    assert_eq!(output, b"\x02");
}

#[test]
fn no_rules_is_identity() {
    let mut rewriter = InputRewriter::new(vec![]);
    assert_eq!(
        rewrite_bytes(&mut rewriter, b"hello \x1b[A world"),
        b"hello \x1b[A world"
    );
}

#[test]
fn chunked_feeds_match_single_pass() {
    let rules = || {
        vec![
            RewriteRule::parse(r"abc:X").unwrap(),
            RewriteRule::parse(r"ab:Y").unwrap(),
        ]
    };
    let input = b"aabcabababcz";
    let mut whole = InputRewriter::new(rules());
    let expected = rewrite_bytes(&mut whole, input);
    for split in 0..input.len() {
        let mut chunked = InputRewriter::new(rules());
        chunked.push(&input[..split]);
        let mut out = chunked.drain(false);
        chunked.push(&input[split..]);
        out.extend(chunked.drain(false));
        out.extend(chunked.drain(true));
        assert_eq!(out, expected);
    }
}

#[test]
fn empty_to_deletes_matches() {
    let mut rewriter = InputRewriter::new(vec![RewriteRule::parse("del:").unwrap()]);
    assert_eq!(rewrite_bytes(&mut rewriter, b"a del b"), b"a  b");
}

#[test]
fn rule_parse_rejects_empty_from() {
    assert!(matches!(
        RewriteRule::parse(":to"),
        Err(ParseError::EmptyFrom)
    ));
}

#[test]
fn rule_parse_rejects_bad_hex() {
    assert!(matches!(
        RewriteRule::parse(r"\xGG:to"),
        Err(ParseError::EscapeError(_))
    ));
}

#[test]
fn rule_parse_rejects_missing_separator() {
    assert!(matches!(
        RewriteRule::parse("from-without-separator"),
        Err(ParseError::MissingColon)
    ));
}

#[test]
fn rule_accessors_expose_parsed_bytes() {
    let rule = RewriteRule::parse(r"\e\x41:b\n").unwrap();
    assert_eq!(rule.from(), b"\x1bA");
    assert_eq!(rule.to(), b"b\n");
}
