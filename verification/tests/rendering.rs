use linearize::text::push_decimal;
use linearize::{Linearizer, OpSpan, Possibility};

#[test]
fn spans_as_text() {
    assert_eq!(OpSpan::put(8, 100, 105).to_string(), "Put(8)");
    assert_eq!(OpSpan::get(Some(7), 100, 105).to_string(), "Get(7)");
    assert_eq!(OpSpan::get(None, 100, 105).to_string(), "Get(nil)");
    assert_eq!(OpSpan::fail(100, 105).to_string(), "Fail");
    assert_eq!(OpSpan::stopped(100).to_string(), "Stopped");
    assert_eq!(OpSpan::resumed(100).to_string(), "Resumed");
}

#[test]
fn spans_with_their_window() {
    assert_eq!(OpSpan::put(8, 100, 105).to_debug_string(), "Put(8)<100>-<105>");
    assert_eq!(OpSpan::get(None, 0, 1).to_debug_string(), "Get(nil)<0>-<1>");
    assert_eq!(OpSpan::stopped(116).to_debug_string(), "Stopped<116>-<116>");
}

#[test]
fn numbers_in_decimal() {
    assert_eq!(OpSpan::put(0, 1, 2).to_string(), "Put(0)");
    assert_eq!(OpSpan::put(9, 1, 2).to_string(), "Put(9)");
    assert_eq!(OpSpan::put(10, 1, 2).to_string(), "Put(10)");
    assert_eq!(OpSpan::put(1234567890, 1, 2).to_string(), "Put(1234567890)");
    assert_eq!(OpSpan::get(Some(u64::MAX), 1, 2).to_string(), "Get(18446744073709551615)");
    assert_eq!(
        OpSpan::fail(u64::MAX - 1, u64::MAX).to_debug_string(),
        "Fail<18446744073709551614>-<18446744073709551615>"
    );
}

#[test]
fn decimal_is_appended() {
    let mut out = String::from("n=");
    push_decimal(&mut out, 0);
    assert_eq!(out, "n=0");
    push_decimal(&mut out, 907);
    assert_eq!(out, "n=0907");
    push_decimal(&mut out, 1000);
    assert_eq!(out, "n=09071000");
}

#[test]
fn possibilities_as_text() {
    assert_eq!(Possibility::initial(0).to_string(), "nil<|[]~");
    assert_eq!(Possibility::initial(1).to_string(), "nil<|[0]~");
    assert_eq!(Possibility::initial(3).to_string(), "nil<|[0,0,0]~");

    let mut possibility = Possibility::initial(2);
    possibility.append_span(0, OpSpan::put(8, 100, 105));
    possibility.append_span(1, OpSpan::fail(101, 106));
    possibility.append_span(1, OpSpan::get(None, 107, 108));
    assert_eq!(possibility.to_string(), "nil<|[1,2]~");
    let possibility = possibility.apply_head(0).unwrap();
    assert_eq!(possibility.to_string(), "8<|[0,2]~0-Put(8)");
    let possibility = possibility.apply_head(1).unwrap();
    assert_eq!(possibility.to_string(), "???<|[0,1]~0-Put(8)~1-Fail");
    let possibility = possibility.apply_head(1).unwrap();
    assert_eq!(possibility.to_string(), "???<|[0,0]~0-Put(8)~1-Fail~1-Get(nil)");
}

#[test]
fn checker_as_text() {
    let mut linearizer = Linearizer::new(2);
    assert_eq!(linearizer.to_string(), "Possibilities {\n  nil<|[0,0]~\n}");
    assert!(linearizer.feed_span(0, OpSpan::put(55, 1, 5)));
    assert_eq!(linearizer.to_string(), "Possibilities {\n  nil<|[1,0]~\n}");
    assert!(linearizer.feed_span(1, OpSpan::put(66, 3, 6)));
    let text = linearizer.to_string();
    let mut lines: Vec<&str> = text.lines().collect();
    assert_eq!(lines.len(), 4);
    assert_eq!(lines[0], "Possibilities {");
    assert_eq!(lines[3], "}");
    lines[1..3].sort();
    assert_eq!(lines[1], "  55<|[0,1]~0-Put(55)");
    assert_eq!(lines[2], "  66<|[1,0]~1-Put(66)");
}
