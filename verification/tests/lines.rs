use clipboard_conf::entry::ButtonConfig;
use clipboard_conf::escape::decode_escapes;
use clipboard_conf::line::parse_line;
use clipboard_conf::text::is_whitespace;

fn fields(line: &str) -> Option<(String, String)> {
    parse_line(line).map(|b| (b.label().to_string(), b.payload().to_string()))
}

fn pair(label: &str, payload: &str) -> Option<(String, String)> {
    Some((label.to_string(), payload.to_string()))
}

/// The rule for one line, written with the string methods of the standard
/// library.
fn by_std(line: &str) -> Option<(String, String)> {
    if line.len() > 0 && !line.trim_start().starts_with("#") {
        let parts: Vec<&str> = line.split("::").collect();
        if parts.len() > 1 {
            return Some((parts[0].to_string(), parts[1].to_string().replace("\\n", "\n")));
        }
    }
    None
}

fn words(alphabet: &[char], max_len: usize) -> Vec<String> {
    let mut all: Vec<String> = vec![String::new()];
    let mut last: Vec<String> = vec![String::new()];
    for _ in 0..max_len {
        let mut next: Vec<String> = Vec::new();
        for w in &last {
            for c in alphabet {
                let mut longer = w.clone();
                longer.push(*c);
                next.push(longer);
            }
        }
        all.extend(next.iter().cloned());
        last = next;
    }
    all
}

#[test]
fn plain_line_gives_label_and_payload() {
    assert_eq!(fields("Hello::echo hi"), pair("Hello", "echo hi"));
    assert_eq!(fields("L::P"), pair("L", "P"));
}

#[test]
fn escape_in_payload_becomes_line_feed() {
    assert_eq!(fields("Multi::line one\\nline two"), pair("Multi", "line one\nline two"));
    assert_eq!(fields("M::\\n\\n"), pair("M", "\n\n"));
    assert_eq!(fields("M::a\\nb\\nc"), pair("M", "a\nb\nc"));
}

#[test]
fn escape_in_label_is_kept() {
    assert_eq!(fields("a\\nb::c"), pair("a\\nb", "c"));
}

#[test]
fn empty_line_gives_nothing() {
    assert_eq!(fields(""), None);
}

#[test]
fn comment_gives_nothing() {
    assert_eq!(fields("# comment"), None);
    assert_eq!(fields("#"), None);
    assert_eq!(fields("#a::b"), None);
}

#[test]
fn indented_comment_gives_nothing() {
    assert_eq!(fields("   # a::b"), None);
    assert_eq!(fields("\t#a::b"), None);
    assert_eq!(fields("\u{3000}\u{a0}#a::b"), None);
}

#[test]
fn hash_after_other_text_is_no_comment() {
    assert_eq!(fields("a#::b"), pair("a#", "b"));
    assert_eq!(fields(" a #::#"), pair(" a #", "#"));
    assert_eq!(fields("::#"), pair("", "#"));
}

#[test]
fn line_without_delimiter_gives_nothing() {
    assert_eq!(fields("bad line without delimiter"), None);
    assert_eq!(fields("a:b"), None);
    assert_eq!(fields(":"), None);
    assert_eq!(fields("   "), None);
}

#[test]
fn only_the_first_two_fields_count() {
    assert_eq!(fields("A::B::C"), pair("A", "B"));
    assert_eq!(fields("A::B::C::D"), pair("A", "B"));
    assert_eq!(fields("A::::C"), pair("A", ""));
}

#[test]
fn empty_fields_are_kept() {
    assert_eq!(fields("::"), pair("", ""));
    assert_eq!(fields("::x"), pair("", "x"));
    assert_eq!(fields("x::"), pair("x", ""));
}

#[test]
fn label_is_not_trimmed() {
    assert_eq!(fields("  A  ::  B  "), pair("  A  ", "  B  "));
    assert_eq!(fields("  ::x"), pair("  ", "x"));
}

#[test]
fn odd_colons_split_at_the_first_pair() {
    assert_eq!(fields("A:::B"), pair("A", ":B"));
    assert_eq!(fields("a:::::b"), pair("a", ""));
    assert_eq!(fields(":::"), pair("", ":"));
}

#[test]
fn text_beyond_ascii_is_kept() {
    assert_eq!(fields("né::grüß\\ndich"), pair("né", "grüß\ndich"));
    assert_eq!(fields("日本::語"), pair("日本", "語"));
}

#[test]
fn none_exactly_for_skipped_lines() {
    for line in words(&[':', '#', ' ', 'a'], 5) {
        let skipped = line.is_empty() || line.trim_start().starts_with('#') || !line.contains("::");
        assert_eq!(parse_line(&line).is_none(), skipped, "{:?}", line);
    }
}

#[test]
fn agrees_with_std_string_methods() {
    for line in words(&[':', '#', ' ', '\\', 'n', 'a'], 6) {
        assert_eq!(fields(&line), by_std(&line), "{:?}", line);
    }
}

#[test]
fn decode_replaces_each_escape() {
    assert_eq!(decode_escapes(""), "");
    assert_eq!(decode_escapes("echo hi"), "echo hi");
    assert_eq!(decode_escapes("\\n"), "\n");
    assert_eq!(decode_escapes("a\\nb"), "a\nb");
    assert_eq!(decode_escapes("\\n\\n"), "\n\n");
    assert_eq!(decode_escapes("\\"), "\\");
    assert_eq!(decode_escapes("n\\"), "n\\");
    assert_eq!(decode_escapes("\\\\n"), "\\\n");
    assert_eq!(decode_escapes("\\t\\N"), "\\t\\N");
    assert_eq!(decode_escapes("real\nfeed"), "real\nfeed");
}

#[test]
fn decode_agrees_with_std_replace() {
    for raw in words(&['\\', 'n', 'a', '\n'], 7) {
        assert_eq!(decode_escapes(&raw), raw.replace("\\n", "\n"), "{:?}", raw);
    }
}

#[test]
fn decoded_text_holds_no_escape() {
    for raw in words(&['\\', 'n', 'a'], 8) {
        let out = decode_escapes(&raw);
        assert!(!out.contains("\\n"), "{:?}", raw);
        let escapes = raw.matches("\\n").count();
        assert_eq!(out.chars().count() + escapes, raw.chars().count(), "{:?}", raw);
    }
}

#[test]
fn decoding_works_piece_by_piece() {
    let a = "x\\ny\\";
    let b = "\\nz";
    let whole = format!("{}{}", a, b);
    assert_eq!(decode_escapes(&whole), format!("{}{}", decode_escapes(a), decode_escapes(b)));
    assert_eq!(decode_escapes(&whole), "x\ny\\\nz");
}

#[test]
fn whitespace_is_what_std_calls_whitespace() {
    let mut n: u32 = 0;
    while n <= 0x10FFFF {
        if let Some(c) = char::from_u32(n) {
            assert_eq!(is_whitespace(c), c.is_whitespace(), "U+{:04X}", n);
        }
        n += 1;
    }
}

#[test]
fn whitespace_examples() {
    assert!(is_whitespace(' '));
    assert!(is_whitespace('\t'));
    assert!(is_whitespace('\n'));
    assert!(is_whitespace('\u{a0}'));
    assert!(!is_whitespace('#'));
    assert!(!is_whitespace('a'));
    assert!(!is_whitespace('\u{200b}'));
}

#[test]
fn new_decodes_the_payload() {
    let b = ButtonConfig::new("Multi", "line one\\nline two");
    assert_eq!(b.label(), "Multi");
    assert_eq!(b.payload(), "line one\nline two");
    assert_eq!(Some(b), parse_line("Multi::line one\\nline two"));
}

#[test]
fn new_keeps_the_label_as_it_is() {
    let b = ButtonConfig::new(" a\\n::# ", "");
    assert_eq!(b.label(), " a\\n::# ");
    assert_eq!(b.payload(), "");
}

#[test]
fn clone_is_equal() {
    let b = ButtonConfig::new("A", "B\\n");
    let c = b.clone();
    assert_eq!(b, c);
    assert_eq!(c.label(), "A");
    assert_eq!(c.payload(), "B\n");
    assert_ne!(b, ButtonConfig::new("A", "B"));
    assert_ne!(b, ButtonConfig::new("B", "B\\n"));
}
