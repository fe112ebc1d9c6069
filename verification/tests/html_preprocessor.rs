use mcat_core::dom::{Attribute, HtmlElement, HtmlNode};
use mcat_core::html_preprocessor::{collect, process, splice_unescaped, ProcessingContext, Rule};

fn md(input: &str) -> String {
    process(input)
}

fn element(name: &str, attrs: &[(&str, &str)], children: Vec<HtmlNode>) -> HtmlNode {
    HtmlNode::Element(HtmlElement {
        name: name.to_string(),
        attrs: attrs
            .iter()
            .map(|(k, v)| Attribute {
                namespace: String::new(),
                name: k.to_string(),
                value: v.to_string(),
            })
            .collect(),
        children,
    })
}

fn text(t: &str) -> HtmlNode {
    HtmlNode::Text(t.to_string())
}

#[test]
fn heading_and_paragraph() {
    let out = md("<h2>Title</h2>\n<p>Some <b>bold</b> text</p>");
    assert_eq!(out, "## Title\n\nSome\n\n**bold**\n\ntext");
}

#[test]
fn every_heading_level() {
    assert_eq!(md("<h1>a</h1>"), "# a");
    assert_eq!(md("<h3> c </h3>"), "### c");
    assert_eq!(md("<h6>f</h6>"), "###### f");
}

#[test]
fn plain_markdown_is_kept() {
    assert_eq!(md("# Hello\n\nworld  "), "# Hello\n\nworld");
}

#[test]
fn unknown_tags_stay_as_text() {
    assert_eq!(md("<foo>bar</foo>"), "<foo>bar</foo>");
    assert_eq!(md("a < b > c"), "a < b > c");
}

#[test]
fn inline_formatting() {
    assert_eq!(md("<em> x </em>"), "*x*");
    assert_eq!(md("<i>x</i>"), "*x*");
    assert_eq!(md("<var>x</var>"), "*x*");
    assert_eq!(md("<strong>x</strong>"), "**x**");
    assert_eq!(md("<b>x</b>"), "**x**");
    assert_eq!(md("<del>x</del>"), "~~x~~");
    assert_eq!(md("<s>x</s>"), "~~x~~");
    assert_eq!(md("<strike>x</strike>"), "~~x~~");
    assert_eq!(md("<q>x</q>"), "\"x\"");
    assert_eq!(md("<code>x</code>"), "`x`");
}

#[test]
fn breaks_and_rules() {
    assert_eq!(md("a<br>b"), "a\n\nb");
    assert_eq!(md("<p>a<br>b</p>"), "a\n\nb");
    assert_eq!(md("<b>a<br>b</b>"), "**ab**");
    assert_eq!(md("<hr>"), "---");
}

#[test]
fn code_block() {
    assert_eq!(md("<pre>let x = 1;</pre>"), "```\nlet x = 1;\n```");
}

#[test]
fn links() {
    assert_eq!(md("<a href=\" https://x.org \"> site </a>"), "[site](https://x.org)");
    assert_eq!(md("<a>site</a>"), "site");
}

#[test]
fn images() {
    assert_eq!(md("<img src=\"a.png\" alt=\"pic\">"), "![pic](a.png)");
    assert_eq!(md("<img src=\"a.png\">"), "![IMG](a.png)");
    assert_eq!(md("<img src=\"a.png\" width=\"10\" height=\"20\">"), "![IMG](a.png#10x20)");
    assert_eq!(md("<img src=\"a.png\" width=\"10\">"), "![IMG](a.png#10x)");
    assert_eq!(md("<img src=\"a.png\" height=\"20\">"), "![IMG](a.png#x20)");
    assert_eq!(md("<img>"), "![IMG]()");
}

#[test]
fn quotations() {
    assert_eq!(md("<blockquote><p>one</p><p>two</p></blockquote>"), "> one\n> \n> two");
    assert_eq!(
        md("<details><summary>More</summary>hidden</details>"),
        "> ▼ More\n> \n> hidden"
    );
}

#[test]
fn centred_blocks() {
    assert_eq!(
        md("<div align=\" CENTER \">hi</div>"),
        "<!--CENTER_ON-->\n\nhi\n\n<!--CENTER_OFF-->"
    );
    assert_eq!(md("<p align=\"left\">hi</p>"), "hi");
    assert_eq!(md("<div align=\"center\"></div>x"), "x");
}

#[test]
fn figures() {
    assert_eq!(
        md("<figure><img src=\"a.png\"><figcaption>cap <b>b</b></figcaption></figure>"),
        "![IMG](a.png)\n\ncap**b**"
    );
}

#[test]
fn context_has_every_rule() {
    let ctx = ProcessingContext::new();
    assert_eq!(ctx.rule_for(&"h4".to_string()), Some(Rule::Heading(4)));
    assert_eq!(ctx.rule_for(&"details".to_string()), Some(Rule::Blockquote));
    assert_eq!(ctx.rule_for(&"span".to_string()), None);
}

#[test]
fn insert_then_lookup() {
    let mut ctx = ProcessingContext::new();
    ctx.insert("span".to_string(), Rule::Strong);
    ctx.insert("b".to_string(), Rule::Emphasis);
    assert_eq!(ctx.rule_for(&"span".to_string()), Some(Rule::Strong));
    assert_eq!(ctx.rule_for(&"b".to_string()), Some(Rule::Emphasis));
}

#[test]
fn escape_keeps_known_tags_only() {
    let ctx = ProcessingContext::new();
    let out = ctx.escape_unknown_elements("<b class=\"x\">1</b> <foo> &lt;i&gt;").unwrap();
    assert_eq!(out, "<b class=\"x\">1</b> &lt;foo&gt; <i>");
    let plain = "# Title\n\nJust *text*, no markup.";
    assert_eq!(ctx.escape_unknown_elements(plain).unwrap(), plain);
    let out = ctx.escape_unknown_elements("<bold>").unwrap();
    assert_eq!(out, "&lt;bold&gt;");
}

#[test]
fn collect_joins_trimmed_pieces() {
    let ctx = ProcessingContext::new();
    let e = element(
        "div",
        &[],
        vec![text("  a "), element("span", &[], vec![text(" b ")]), text("   "), text("c")],
    );
    assert_eq!(collect(match &e { HtmlNode::Element(el) => el, _ => unreachable!() }, &ctx, "|"), "a|b|c");
}

#[test]
fn collected_text_is_trimmed() {
    let ctx = ProcessingContext::new();
    let e = element("p", &[], vec![text("\n  x  "), element("br", &[], vec![]), text(" y\t")]);
    let out = collect(match &e { HtmlNode::Element(el) => el, _ => unreachable!() }, &ctx, " ");
    assert_eq!(out, out.trim());
    assert_eq!(out, "x y");
}

#[test]
fn empty_element_collects_nothing() {
    let ctx = ProcessingContext::new();
    let e = HtmlElement { name: "p".to_string(), attrs: vec![], children: vec![] };
    assert_eq!(collect(&e, &ctx, "\n\n"), "");
}

#[test]
fn splice_reads_back_only_the_matches() {
    let gaps = vec!["a &lt;x&gt; ".to_string(), " b".to_string(), String::new()];
    let found = vec!["&lt;i&gt;".to_string(), "&lt;/i&gt;".to_string()];
    assert_eq!(splice_unescaped(&gaps, &found), "a &lt;x&gt; <i> b</i>");
    let none: Vec<String> = vec![];
    assert_eq!(splice_unescaped(&vec!["&lt;p&gt;".to_string()], &none), "&lt;p&gt;");
}

#[test]
fn escaping_changes_only_angle_brackets() {
    let ctx = ProcessingContext::new();
    for markdown in ["<b>x</b> <foo a=1> 3 > 2 < 4", "<details><summary>s</summary>t</details>", "no tags"] {
        let out = ctx.escape_unknown_elements(markdown).unwrap();
        assert_eq!(out.replace("&lt;", "<").replace("&gt;", ">"), markdown);
    }
}

#[test]
fn default_breaks_ignore_the_element() {
    let a = element("br", &[("class", "x")], vec![text("ignored")]);
    let b = element("hr", &[], vec![text("ignored")]);
    assert_eq!(md("a<br class=\"x\">b"), md("a<br>b"));
    let ctx = ProcessingContext::new();
    let wrap = |n: HtmlNode| HtmlElement { name: "div".to_string(), attrs: vec![], children: vec![n] };
    assert_eq!(collect(&wrap(b), &ctx, ""), "---");
    assert_eq!(collect(&wrap(a), &ctx, "").len(), 0);
}

#[test]
fn blockquote_strips_back_to_its_content() {
    let out = md("<blockquote><p>one</p><p>two</p></blockquote>");
    assert!(out.lines().all(|l| l.starts_with("> ")));
    let back: Vec<&str> = out.lines().map(|l| &l[2..]).collect();
    assert_eq!(back.join("\n"), "one\n\ntwo");
}

#[test]
fn groups_in_any_order_give_the_same_rules() {
    let groups: Vec<Vec<(&str, Rule)>> = vec![
        vec![("div", Rule::Block), ("p", Rule::Block)],
        vec![("details", Rule::Blockquote), ("summary", Rule::Summary)],
        vec![("q", Rule::InlineQuote)],
        (1..=6u8).map(|l| (["h1", "h2", "h3", "h4", "h5", "h6"][(l - 1) as usize], Rule::Heading(l))).collect(),
        vec![
            ("br", Rule::LineBreak),
            ("var", Rule::Emphasis),
            ("i", Rule::Emphasis),
            ("hr", Rule::HorizontalRule),
            ("b", Rule::Strong),
            ("strong", Rule::Strong),
            ("em", Rule::Emphasis),
            ("del", Rule::Strikethrough),
            ("s", Rule::Strikethrough),
            ("strike", Rule::Strikethrough),
        ],
        vec![("a", Rule::Link)],
        vec![("img", Rule::Image)],
        vec![("pre", Rule::CodeBlock), ("code", Rule::InlineCode)],
        vec![("blockquote", Rule::Blockquote)],
        vec![("figure", Rule::Paragraphs), ("figcaption", Rule::Inline)],
    ];
    let reference = ProcessingContext::new();
    let mut reversed = ProcessingContext::new();
    for group in groups.iter().rev() {
        for (tag, rule) in group {
            reversed.insert(tag.to_string(), *rule);
        }
    }
    for group in &groups {
        for (tag, rule) in group {
            assert_eq!(reference.rule_for(&tag.to_string()), Some(*rule));
            assert_eq!(reversed.rule_for(&tag.to_string()), Some(*rule));
        }
    }
}

#[test]
fn escaping_twice_changes_nothing_more() {
    let ctx = ProcessingContext::new();
    for markdown in ["<b>x</b> <foo a=1> 3 > 2", "<bold> & <i>y</i>", "plain"] {
        let once = ctx.escape_unknown_elements(markdown).unwrap();
        assert_eq!(ctx.escape_unknown_elements(&once).unwrap(), once);
    }
}

#[test]
fn refused_pattern_gives_none() {
    let mut ctx = ProcessingContext::new();
    ctx.insert("(".to_string(), Rule::Strong);
    assert_eq!(ctx.escape_unknown_elements("<b>x</b>"), None);
}

#[test]
fn only_known_tags_are_restored() {
    let ctx = ProcessingContext::new();
    let known = [
        "div", "p", "details", "summary", "q", "h1", "h2", "h3", "h4", "h5", "h6", "br", "var",
        "i", "hr", "b", "strong", "em", "del", "s", "strike", "a", "img", "pre", "code",
        "blockquote", "figure", "figcaption",
    ];
    let out = ctx
        .escape_unknown_elements("<bold>x</bold> <b>y</b> <span>z</span> <i class=\"c\">w</i> 1 < 2")
        .unwrap();
    assert_eq!(out, "&lt;bold&gt;x&lt;/bold&gt; <b>y</b> &lt;span&gt;z&lt;/span&gt; <i class=\"c\">w</i> 1 &lt; 2");
    for (pos, _) in out.match_indices('<') {
        let after = out[pos + 1..].trim_start_matches('/');
        let name: String = after.chars().take_while(|c| c.is_ascii_alphanumeric()).collect();
        assert!(known.contains(&name.as_str()), "restored an unknown tag: {name}");
    }
}

#[test]
fn rule_order_does_not_change_escaping() {
    let mut first = ProcessingContext::new();
    first.insert("span".to_string(), Rule::Strong);
    first.insert("abbr".to_string(), Rule::Emphasis);
    let mut second = ProcessingContext::new();
    second.insert("abbr".to_string(), Rule::Emphasis);
    second.insert("span".to_string(), Rule::Strong);
    second.insert("span".to_string(), Rule::Strong);
    let markdown = "<span>a</span> <abbr>b</abbr> <a href=\"x\">c</a> <ab>d</ab>";
    let out = first.escape_unknown_elements(markdown).unwrap();
    assert_eq!(second.escape_unknown_elements(markdown).unwrap(), out);
    assert_eq!(out, "<span>a</span> <abbr>b</abbr> <a href=\"x\">c</a> &lt;ab&gt;d&lt;/ab&gt;");
}

#[test]
fn a_tag_is_restored_only_as_a_whole_word() {
    let ctx = ProcessingContext::new();
    assert_eq!(ctx.escape_unknown_elements("<abbr>x</abbr> <a>y</a>").unwrap(), "&lt;abbr&gt;x&lt;/abbr&gt; <a>y</a>");
}
