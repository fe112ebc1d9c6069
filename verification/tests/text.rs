use mcat_core::text::{
    decimal_chars, escape_angle_chars, join_chars, replace_chars, split_lines,
    trim_chars, unescape_angle_text,
};

fn chars(s: &str) -> Vec<char> {
    s.chars().collect()
}

fn string(cs: &[char]) -> String {
    cs.iter().collect()
}

#[test]
fn trims_unicode_whitespace() {
    assert_eq!(string(&trim_chars(&chars("\u{3000}\t a b \u{a0}\n"))), "a b");
    assert_eq!(string(&trim_chars(&chars("   "))), "");
    assert_eq!(string(&trim_chars(&chars("x"))), "x");
}

#[test]
fn splits_lines_like_str_lines() {
    for s in ["", "a", "a\n", "a\r\nb", "a\n\nb\n", "\n", "a\r", "x\ry\n"] {
        let got: Vec<String> = split_lines(&chars(s)).iter().map(|l| string(l)).collect();
        let want: Vec<String> = s.lines().map(|l| l.to_string()).collect();
        assert_eq!(got, want, "lines of {:?}", s);
    }
}

#[test]
fn joins_with_separator() {
    let parts = vec![chars("a"), chars("b"), chars("c")];
    assert_eq!(string(&join_chars(&parts, &chars(", "))), "a, b, c");
    assert_eq!(string(&join_chars(&vec![], &chars(", "))), "");
}

#[test]
fn replaces_like_str_replace() {
    for (s, p, r) in [("aaa", "aa", "b"), ("&lt;&lt;", "&lt;", "<"), ("xyz", "q", "w"), ("", "a", "b")] {
        assert_eq!(string(&replace_chars(&chars(s), &chars(p), &chars(r))), s.replace(p, r));
    }
}

#[test]
fn escape_then_unescape_gives_text_back() {
    let s = "<div a=\"1\">x > y</div>";
    let escaped = string(&escape_angle_chars(&chars(s)));
    assert_eq!(escaped, "&lt;div a=\"1\"&gt;x &gt; y&lt;/div&gt;");
    assert_eq!(unescape_angle_text(&escaped), s);
    assert!(!escaped.contains('<') && !escaped.contains('>'));
}

#[test]
fn writes_decimals() {
    assert_eq!(string(&decimal_chars(0)), "0");
    assert_eq!(string(&decimal_chars(9222)), "9222");
    assert_eq!(string(&decimal_chars(u64::MAX)), u64::MAX.to_string());
}

#[test]
fn partly_escaped_text_reads_back() {
    assert_eq!(unescape_angle_text("&lt;b>x</b&gt; 3 &gt; 2"), "<b>x</b> 3 > 2");
    assert_eq!(unescape_angle_text("<i>&lt;/i>"), "<i></i>");
}
