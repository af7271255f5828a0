use caloud::input_rewrite::zwsp_inserter::ZwspInserter;

fn run(input: &[u8]) -> Vec<u8> {
    run_all(&[input])
}

fn run_all(inputs: &[&[u8]]) -> Vec<u8> {
    let mut inserter = ZwspInserter::new();
    let mut out = Vec::new();
    for input in inputs {
        out.extend(inserter.process(input));
    }
    out
}

#[test]
fn up_arrow_then_digit() {
    assert_eq!(run(b"\x1b[A5"), b"\x1b[A\xe2\x80\x8b5");
}

#[test]
fn down_arrow_then_digit() {
    assert_eq!(run(b"\x1b[B0"), b"\x1b[B\xe2\x80\x8b0");
}

#[test]
fn right_arrow_does_not_trigger() {
    assert_eq!(run(b"\x1b[C5"), b"\x1b[C5");
}

#[test]
fn modified_up_arrow_then_digit() {
    assert_eq!(run(b"\x1b[1;2A3"), b"\x1b[1;2A\xe2\x80\x8b3");
}

#[test]
fn arrow_then_non_digit_passes_through() {
    assert_eq!(run(b"\x1b[Aa"), b"\x1b[Aa");
}

#[test]
fn consecutive_arrows() {
    assert_eq!(run(b"\x1b[A\x1b[B3"), b"\x1b[A\x1b[B\xe2\x80\x8b3");
}

#[test]
fn only_first_digit_gets_zwsp() {
    assert_eq!(run(b"\x1b[A12"), b"\x1b[A\xe2\x80\x8b12");
}

#[test]
fn digits_without_arrow() {
    assert_eq!(run(b"12345"), b"12345");
}

#[test]
fn zwsp_chunk_split_invariant() {
    let input: &[u8] = b"\x1b[1;2A3 \x1b[B7";
    let whole = run(input);
    for split in 0..input.len() {
        assert_eq!(run_all(&[&input[..split], &input[split..]]), whole);
    }
}
