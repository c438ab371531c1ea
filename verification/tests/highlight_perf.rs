use twrite_core::buffer::EditorBuffer;

fn xorshift(seed: u64) -> impl FnMut() -> u64 {
    let mut x = if seed == 0 { 0x1234_5678_9abc_def1 } else { seed };
    move || {
        x ^= x << 13;
        x ^= x >> 7;
        x ^= x << 17;
        x
    }
}

/// Deterministic mixed-syntax fixture exercising headings, fences, tasks,
/// quotes, links, long lines, and unicode paths.
fn make_fixture(lines: usize, seed: u64) -> String {
    let mut rng = xorshift(seed);
    let mut s = String::with_capacity(lines * 64);
    for i in 0..lines {
        match rng() % 8 {
            0 => s.push_str(&format!("# Heading {i}\n")),
            1 => s.push_str("```rust\nfn f() { let x = 42; }\n```\n"),
            2 => s.push_str(&format!("- [ ] task {i} with `code` and **bold**\n")),
            3 => s.push_str(&format!("> quote {i} with [link](https://example.com/{i})\n")),
            4 => s.push_str(&format!("\"dialogue line {i} with unicode h\u{e9}llo \u{1f30d}\"\n")),
            5 => s.push_str(&format!("long line {i} {}\n", "lorem ".repeat(20))),
            _ => s.push_str(&format!("plain line {i} with some words to move over\n")),
        }
    }
    s
}

#[test]
fn fixture_shape_is_deterministic() {
    let a = make_fixture(200, 0x1234);
    let b = make_fixture(200, 0x1234);
    assert_eq!(a, b);
    let buf = EditorBuffer::new(&a);
    assert!(buf.len_lines() >= 200);
    assert!(a.contains("# Heading"));
    assert!(a.contains("- [ ] task"));
    assert!(a.contains("https://example.com/"));
}
