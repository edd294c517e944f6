use perf_format::filesize::{FileSize, Scale};
use perf_format::frames::{FrameTree, StackFrame};
use perf_format::interner::Interner;
use perf_format::lexer::chars_of;
use perf_format::numbers::{parse_ids, parse_timestamp, parse_u32};
use perf_format::parser::{Event, EventKind, ParseError, Parser};

fn text(p: &Parser, ev: &Event) -> String {
    match ev.kind {
        EventKind::Begin { name, .. } | EventKind::Complete { name, .. } => {
            p.name(name).unwrap().iter().collect()
        }
        EventKind::End { .. } => String::new(),
    }
}

#[test]
fn call_then_return_shares_frame() {
    let mut p = Parser::new();
    let b = p.feed_line("x 100/200 1.000000: call foo").unwrap().unwrap();
    let e = p.feed_line("x 100/200 1.000500: return").unwrap().unwrap();
    assert!(matches!(b.kind, EventKind::Begin { sf: 0, .. }));
    assert_eq!(text(&p, &b), "foo");
    assert_eq!(b.ts, 0);
    assert_eq!((b.pid, b.tid), (100, 200));
    assert_eq!(e.kind, EventKind::End { sf: 0 });
    assert_eq!(e.ts, 500_000);
    assert_eq!(e.ts as f64 / 1000.0, 500.0);
    assert_eq!(p.frames().len(), 1);
    assert_eq!(p.frames()[0].parent, None);
    let name: String = p.name(p.frames()[0].name).unwrap().iter().collect();
    assert_eq!(name, "foo");
    assert_eq!(p.events().len(), 2);
}

#[test]
fn trace_marker_is_skipped() {
    let mut p = Parser::new();
    p.feed_line("a 1/1 1.0: call outer").unwrap();
    assert_eq!(p.feed_line("a 1/1 1.5: tr whatever"), Ok(None));
    assert_eq!(p.depth(), 1);
    assert_eq!(p.frames().len(), 1);
    assert_eq!(p.events().len(), 1);
}

#[test]
fn nested_calls_get_parent_links() {
    let mut p = Parser::new();
    let a = p.feed_line("a 1/1 2.0: call outer").unwrap().unwrap();
    let b = p.feed_line("a 1/1 2.0: call inner").unwrap().unwrap();
    assert!(matches!(a.kind, EventKind::Begin { sf: 0, .. }));
    assert!(matches!(b.kind, EventKind::Begin { sf: 1, .. }));
    let f = p.frames();
    assert_eq!(f.len(), 2);
    assert_eq!(f[0].parent, None);
    assert_eq!(f[1].parent, Some(0));
    assert_eq!(p.name(f[0].name).unwrap().iter().collect::<String>(), "outer");
    assert_eq!(p.name(f[1].name).unwrap().iter().collect::<String>(), "inner");
}

#[test]
fn unknown_kind_is_refused() {
    let mut p = Parser::new();
    assert_eq!(p.feed_line("a 1/1 2.0: frob x"), Err(ParseError::UnknownKind));
    assert_eq!(p.events().len(), 0);
}

#[test]
fn timestamps_clamp_forward() {
    let mut p = Parser::new();
    let a = p.feed_line("a 1/1 3.0 call f").unwrap().unwrap();
    let b = p.feed_line("a 1/1 2.5 call g").unwrap().unwrap();
    assert_eq!(a.ts, 0);
    assert_eq!(b.ts, 0);
    let c = p.feed_line("a 1/1 3.25 return").unwrap().unwrap();
    assert_eq!(c.ts, 250_000_000);
    let ts: Vec<u64> = p.events().iter().map(|e| e.ts).collect();
    assert!(ts.windows(2).all(|w| w[0] <= w[1]));
}

#[test]
fn interning_follows_content() {
    let mut t = Interner::new();
    let a = t.intern("foo");
    let b = t.intern("bar");
    let c = t.intern("foo");
    assert_eq!(a, c);
    assert_ne!(a, b);
    assert_eq!(t.len(), 2);
    assert_eq!(t.text(b).unwrap().iter().collect::<String>(), "bar");
    let d = t.intern("");
    assert_ne!(d, a);
    assert_eq!(t.len(), 3);
}

#[test]
fn frame_table_counts_distinct_prefixes() {
    let mut p = Parser::new();
    for _ in 0..3 {
        p.feed_line("a 1/1 1.0 call main").unwrap();
        p.feed_line("a 1/1 1.0 call work").unwrap();
        p.feed_line("a 1/1 1.0 return").unwrap();
        p.feed_line("a 1/1 1.0 call idle").unwrap();
        p.feed_line("a 1/1 1.0 return").unwrap();
        p.feed_line("a 1/1 1.0 return").unwrap();
    }
    // main, main>work, main>idle
    assert_eq!(p.frames().len(), 3);
    assert_eq!(p.events().len(), 18);
    assert_eq!(p.depth(), 0);
}

#[test]
fn call_and_return_balance_the_stack() {
    let mut p = Parser::new();
    p.feed_line("a 1/1 1.0 call main").unwrap();
    let before = p.depth();
    p.feed_line("a 1/1 1.1 call leaf").unwrap();
    assert_eq!(p.depth(), before + 1);
    p.feed_line("a 1/1 1.2 return").unwrap();
    assert_eq!(p.depth(), before);
}

#[test]
fn resolving_again_reuses_ids() {
    let mut names = Interner::new();
    let a = names.intern("a");
    let b = names.intern("b");
    let c = names.intern("c");
    let mut t = FrameTree::new();
    let stack = vec![a, b, c];
    assert_eq!(t.resolve(&stack, 0), None);
    assert_eq!(t.len(), 0);
    let id2 = t.resolve(&stack, 2).unwrap();
    assert_eq!(t.len(), 2);
    assert_eq!(t.resolve(&stack, 2), Some(id2));
    assert_eq!(t.len(), 2);
    let id3 = t.resolve(&stack, 3).unwrap();
    assert_eq!(t.frames()[id3].parent, Some(id2));
    assert_eq!(t.frames()[id3], StackFrame { name: c, parent: Some(id2) });
    let other = vec![a, c];
    let id_ac = t.resolve(&other, 2).unwrap();
    let id1 = t.resolve(&stack, 1);
    assert_eq!(t.frames()[id_ac].parent, id1);
    assert_eq!(t.len(), 4);
}

#[test]
fn syscall_marks_current_frame() {
    let mut p = Parser::new();
    let top = p.feed_line("a 7/8 1.0 syscall").unwrap().unwrap();
    assert!(matches!(top.kind, EventKind::Complete { sf: None, .. }));
    assert_eq!(text(&p, &top), "syscall");
    p.feed_line("a 7/8 1.0 call f").unwrap();
    let inner = p.feed_line("a 7/8 1.0 syscall").unwrap().unwrap();
    assert!(matches!(inner.kind, EventKind::Complete { sf: Some(0), .. }));
    assert_eq!(p.depth(), 1);
    assert_eq!(p.frames().len(), 1);
}

#[test]
fn interrupts_move_the_clock_only() {
    let mut p = Parser::new();
    assert_eq!(p.feed_line("a 1/1 5.0 int"), Ok(None));
    assert_eq!(p.feed_line("a 1/1 6.0 iret"), Ok(None));
    let e = p.feed_line("a 1/1 5.5 call f").unwrap().unwrap();
    assert_eq!(e.ts, 1_000_000_000);
    assert_eq!(p.events().len(), 1);
}

#[test]
fn malformed_lines_are_refused() {
    let mut p = Parser::new();
    assert_eq!(p.feed_line("a 1/1 1.0"), Err(ParseError::MissingField));
    assert_eq!(p.feed_line(""), Err(ParseError::MissingField));
    assert_eq!(p.feed_line("a 1-1 1.0 call f"), Err(ParseError::InvalidNumber));
    assert_eq!(p.feed_line("a x/1 1.0 call f"), Err(ParseError::InvalidNumber));
    assert_eq!(p.feed_line("a 1/1 1.0.0 call f"), Err(ParseError::InvalidNumber));
    assert_eq!(p.feed_line("a 1/1 abc call f"), Err(ParseError::InvalidNumber));
    assert_eq!(p.feed_line("a 1/1 1.0 return"), Err(ParseError::UnmatchedReturn));
    assert_eq!(p.depth(), 0);
    assert_eq!(p.events().len(), 0);
}

#[test]
fn names_keep_inner_spaces() {
    let mut p = Parser::new();
    let e = p.feed_line("  a\t1/1  1.0:  call   foo bar  \n").unwrap().unwrap();
    assert_eq!(text(&p, &e), "foo bar");
    let e = p.feed_line("a 1/1 1.0 call\u{3000}baz\u{a0}").unwrap().unwrap();
    assert_eq!(text(&p, &e), "baz");
}

#[test]
fn numbers_read_exactly() {
    let s = chars_of("1.000500 42 4294967296 12/34/56 3:: .5 7. . 1.1234567891");
    assert_eq!(parse_timestamp(&s, 0, 8), Some(1_000_500_000));
    assert_eq!(parse_u32(&s, 9, 11), Some(42));
    assert_eq!(parse_u32(&s, 12, 22), None);
    assert_eq!(parse_ids(&s, 23, 31), Some((12, 34)));
    assert_eq!(parse_timestamp(&s, 32, 35), Some(3_000_000_000));
    assert_eq!(parse_timestamp(&s, 36, 38), Some(500_000_000));
    assert_eq!(parse_timestamp(&s, 39, 41), Some(7_000_000_000));
    assert_eq!(parse_timestamp(&s, 42, 43), None);
    assert_eq!(parse_timestamp(&s, 44, 56), Some(1_123_456_789));
    assert_eq!(parse_u32(&s, 9, 9), None);
}

#[test]
fn file_sizes_pick_their_scale() {
    let b = FileSize::new(999);
    assert_eq!((b.count(), b.frac(), b.scale()), (999, None, Scale::B));
    let k = FileSize::new(1500);
    assert_eq!((k.count(), k.frac(), k.scale()), (1, Some(150), Scale::KiB));
    let m = FileSize::new(2_340_000);
    assert_eq!((m.count(), m.frac(), m.scale()), (2, Some(234), Scale::MiB));
    let e = FileSize::new(u64::MAX);
    assert_eq!(e.scale(), Scale::EiB);
    assert_eq!(e.count(), 18);
}
