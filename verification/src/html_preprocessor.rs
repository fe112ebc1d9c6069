//! Turns the HTML embedded in Markdown into Markdown: each known element is rendered by
//! its rule, unknown markup is kept as escaped text.

use crate::dom::{
    attrs_view, build_forest, build_fragment, fragment_traversal, lemma_nodes_view, node_view,
    nodes_view, parse_fragment_traversal, tokens_view, AttrView, Attribute, ElementView,
    HtmlElement, HtmlNode, HtmlToken, NodeView, TokenView,
};
use crate::tag_order::{
    insert_sorted, lemma_sorted_tags, lemma_sorted_tags_order_free, sorted_tags,
};
use crate::text::{
    lemma_escape_concat, lemma_escape_inverts_unescape, lemma_escape_removes_angles,
    lemma_unescape_same_escape, lemma_unescape_wrapped, append_chars, chars_equal, escape_angle_chars, escape_angles, is_trimmed, join, join_chars,
    lemma_escape_plain, lemma_join_trimmed, lemma_trim_is_trimmed, lemma_trimmed_is_fixed,
    lemma_unescape_plain, lemma_join_of_lines, lemma_lines_of_join, is_plain_line, is_white_space, lines, lines_state, lowercase, split_lines, string_from_chars, to_chars, to_lowercase,
    trim, trim_chars, unescape_angle_text, unescape_angles, views,
};
use vstd::prelude::*;

verus! {

/// How an element is rendered.
#[derive(Clone, Copy, PartialEq, Eq, Structural, Debug)]
pub enum Rule {
    /// `img`: `![alt](src#WxH)`.
    Image,
    /// `pre`: a fenced code block.
    CodeBlock,
    /// `code`: inline code.
    InlineCode,
    /// `a`: `[text](href)`, or the text alone without `href`.
    Link,
    /// `blockquote`, `details`: every line quoted with `> `.
    Blockquote,
    /// `figure`: the children as paragraphs.
    Paragraphs,
    /// `figcaption`: the children run together.
    Inline,
    /// `br`: a line break.
    LineBreak,
    /// `hr`: a thematic break.
    HorizontalRule,
    /// `var`, `i`, `em`: `*text*`.
    Emphasis,
    /// `b`, `strong`: `**text**`.
    Strong,
    /// `del`, `s`, `strike`: `~~text~~`.
    Strikethrough,
    /// `h1` to `h6`: a heading of the given level.
    Heading(u8),
    /// `q`: the text in double quotes.
    InlineQuote,
    /// `div`, `p`: the children as paragraphs, fenced by centering markers when the
    /// element is centred.
    Block,
    /// `summary`: the text after a disclosure triangle.
    Summary,
}

/// The rules, with the tag that each one renders, in the order they were added.
pub struct ProcessingContext {
    rules: Vec<(String, Rule)>,
}

/// The values of rule entries.
pub open spec fn entries_view(e: Seq<(String, Rule)>) -> Seq<(Seq<char>, Rule)> {
    e.map_values(|p: (String, Rule)| (p.0@, p.1))
}

/// The map that a sequence of insertions builds: a later entry replaces an earlier one
/// with the same tag.
pub open spec fn rules_map(e: Seq<(Seq<char>, Rule)>) -> Map<Seq<char>, Rule>
    decreases e.len(),
{
    if e.len() == 0 {
        Map::empty()
    } else {
        rules_map(e.drop_last()).insert(e.last().0, e.last().1)
    }
}

impl ProcessingContext {
    /// The tags and rules in the order they were added.
    pub closed spec fn entries(&self) -> Seq<(Seq<char>, Rule)> {
        entries_view(self.rules@)
    }

    /// The rule for each tag.
    pub closed spec fn rules(&self) -> Map<Seq<char>, Rule> {
        rules_map(entries_view(self.rules@))
    }

    /// The tags in the order they were added.
    pub closed spec fn tags(&self) -> Seq<Seq<char>> {
        entries_view(self.rules@).map_values(|p: (Seq<char>, Rule)| p.0)
    }

    /// Adds the rule for `tag`, replacing the one it had.
    pub fn insert(&mut self, tag: String, rule: Rule)
        ensures
            final(self).rules() == old(self).rules().insert(tag@, rule),
            final(self).tags() == old(self).tags().push(tag@),
            final(self).entries() == old(self).entries().push((tag@, rule)),
    {
        let ghost before = self.rules@;
        self.rules.push((tag, rule));
        assert(entries_view(self.rules@).drop_last() =~= entries_view(before));
        assert(self.tags() =~= old(self).tags().push(tag@));
        assert(self.entries() =~= old(self).entries().push((tag@, rule)));
    }

    /// The rule for `tag`, if it has one.
    pub fn rule_for(&self, tag: &String) -> (r: Option<Rule>)
        ensures
            r == (if self.rules().contains_key(tag@) {
                Some(self.rules()[tag@])
            } else {
                None
            }),
    {
        let ghost ev = entries_view(self.rules@);
        let mut i: usize = self.rules.len();
        assert(ev.take(i as int) =~= ev);
        while i > 0
            invariant
                i <= self.rules@.len(),
                ev == entries_view(self.rules@),
                rules_map(ev).contains_key(tag@) == rules_map(ev.take(i as int)).contains_key(tag@),
                rules_map(ev).contains_key(tag@) ==> rules_map(ev)[tag@] == rules_map(
                    ev.take(i as int),
                )[tag@],
            decreases i,
        {
            assert(ev.take(i as int).drop_last() =~= ev.take(i - 1));
            if self.rules[i - 1].0 == *tag {
                return Some(self.rules[i - 1].1);
            }
            i = i - 1;
        }
        None
    }
}

/// The tag and rule of every known element, in the order `ProcessingContext::new` adds
/// them.
pub open spec fn default_entries() -> Seq<(Seq<char>, Rule)> {
    seq![
        ("div"@, Rule::Block),
        ("p"@, Rule::Block),
        ("details"@, Rule::Blockquote),
        ("summary"@, Rule::Summary),
        ("q"@, Rule::InlineQuote),
        ("h1"@, Rule::Heading(1)),
        ("h2"@, Rule::Heading(2)),
        ("h3"@, Rule::Heading(3)),
        ("h4"@, Rule::Heading(4)),
        ("h5"@, Rule::Heading(5)),
        ("h6"@, Rule::Heading(6)),
        ("br"@, Rule::LineBreak),
        ("var"@, Rule::Emphasis),
        ("i"@, Rule::Emphasis),
        ("hr"@, Rule::HorizontalRule),
        ("b"@, Rule::Strong),
        ("strong"@, Rule::Strong),
        ("em"@, Rule::Emphasis),
        ("del"@, Rule::Strikethrough),
        ("s"@, Rule::Strikethrough),
        ("strike"@, Rule::Strikethrough),
        ("a"@, Rule::Link),
        ("img"@, Rule::Image),
        ("pre"@, Rule::CodeBlock),
        ("code"@, Rule::InlineCode),
        ("blockquote"@, Rule::Blockquote),
        ("figure"@, Rule::Paragraphs),
        ("figcaption"@, Rule::Inline),
    ]
}

/// The rule of every known element.
pub open spec fn default_rules() -> Map<Seq<char>, Rule> {
    rules_map(default_entries())
}

/// The tags and rules that each group of rules adds, in the order `ProcessingContext::new`
/// adds the groups: blocks, details, quotes, headings, formatting, links, images, code,
/// quotations, figures.
pub open spec fn rule_groups() -> Seq<Seq<(Seq<char>, Rule)>> {
    let d = default_entries();
    seq![
        d.subrange(0, 2),
        d.subrange(2, 4),
        d.subrange(4, 5),
        d.subrange(5, 11),
        d.subrange(11, 21),
        d.subrange(21, 22),
        d.subrange(22, 23),
        d.subrange(23, 25),
        d.subrange(25, 26),
        d.subrange(26, 28),
    ]
}

/// The entries of the groups, one group after the other.
pub open spec fn chain(groups: Seq<Seq<(Seq<char>, Rule)>>) -> Seq<(Seq<char>, Rule)>
    decreases groups.len(),
{
    if groups.len() == 0 {
        Seq::empty()
    } else {
        chain(groups.drop_last()) + groups.last()
    }
}

/// The known elements, in the order their rules are added.
pub open spec fn default_tags() -> Seq<Seq<char>> {
    default_entries().map_values(|p: (Seq<char>, Rule)| p.0)
}

impl ProcessingContext {
    /// `div` and `p` render as blocks of paragraphs.
    fn add_div_rules(&mut self)
        ensures
            final(self).rules() == old(self).rules()
                .insert("div"@, Rule::Block)
                .insert("p"@, Rule::Block),
            final(self).tags() == old(self).tags().push("div"@).push("p"@),
            final(self).entries() == old(self).entries() + rule_groups()[0],
    {
        self.insert("div".to_owned(), Rule::Block);
        self.insert("p".to_owned(), Rule::Block);
        assert(self.entries() =~= old(self).entries() + rule_groups()[0]);
    }

    /// `details` renders as a quotation, `summary` after a disclosure triangle.
    fn add_details_rules(&mut self)
        ensures
            final(self).rules() == old(self).rules()
                .insert("details"@, Rule::Blockquote)
                .insert("summary"@, Rule::Summary),
            final(self).tags() == old(self).tags().push("details"@).push("summary"@),
            final(self).entries() == old(self).entries() + rule_groups()[1],
    {
        self.insert("details".to_owned(), Rule::Blockquote);
        self.insert("summary".to_owned(), Rule::Summary);
        assert(self.entries() =~= old(self).entries() + rule_groups()[1]);
    }

    /// `q` renders in double quotes.
    fn add_quote_rules(&mut self)
        ensures
            final(self).rules() == old(self).rules().insert("q"@, Rule::InlineQuote),
            final(self).tags() == old(self).tags().push("q"@),
            final(self).entries() == old(self).entries() + rule_groups()[2],
    {
        self.insert("q".to_owned(), Rule::InlineQuote);
        assert(self.entries() =~= old(self).entries() + rule_groups()[2]);
    }

    /// `h1` to `h6` render as headings of their level.
    fn add_heading_rules(&mut self)
        ensures
            final(self).rules() == old(self).rules()
                .insert("h1"@, Rule::Heading(1))
                .insert("h2"@, Rule::Heading(2))
                .insert("h3"@, Rule::Heading(3))
                .insert("h4"@, Rule::Heading(4))
                .insert("h5"@, Rule::Heading(5))
                .insert("h6"@, Rule::Heading(6)),
            final(self).tags() == old(self).tags()
                .push("h1"@)
                .push("h2"@)
                .push("h3"@)
                .push("h4"@)
                .push("h5"@)
                .push("h6"@),
            final(self).entries() == old(self).entries() + rule_groups()[3],
    {
        self.insert("h1".to_owned(), Rule::Heading(1));
        self.insert("h2".to_owned(), Rule::Heading(2));
        self.insert("h3".to_owned(), Rule::Heading(3));
        self.insert("h4".to_owned(), Rule::Heading(4));
        self.insert("h5".to_owned(), Rule::Heading(5));
        self.insert("h6".to_owned(), Rule::Heading(6));
        assert(self.entries() =~= old(self).entries() + rule_groups()[3]);
    }

    /// The inline formatting elements: breaks, emphasis, strong text and strikethrough.
    fn add_formatting_rules(&mut self)
        ensures
            final(self).rules() == old(self).rules()
                .insert("br"@, Rule::LineBreak)
                .insert("var"@, Rule::Emphasis)
                .insert("i"@, Rule::Emphasis)
                .insert("hr"@, Rule::HorizontalRule)
                .insert("b"@, Rule::Strong)
                .insert("strong"@, Rule::Strong)
                .insert("em"@, Rule::Emphasis)
                .insert("del"@, Rule::Strikethrough)
                .insert("s"@, Rule::Strikethrough)
                .insert("strike"@, Rule::Strikethrough),
            final(self).tags() == old(self).tags()
                .push("br"@)
                .push("var"@)
                .push("i"@)
                .push("hr"@)
                .push("b"@)
                .push("strong"@)
                .push("em"@)
                .push("del"@)
                .push("s"@)
                .push("strike"@),
            final(self).entries() == old(self).entries() + rule_groups()[4],
    {
        self.insert("br".to_owned(), Rule::LineBreak);
        self.insert("var".to_owned(), Rule::Emphasis);
        self.insert("i".to_owned(), Rule::Emphasis);
        self.insert("hr".to_owned(), Rule::HorizontalRule);
        self.insert("b".to_owned(), Rule::Strong);
        self.insert("strong".to_owned(), Rule::Strong);
        self.insert("em".to_owned(), Rule::Emphasis);
        self.insert("del".to_owned(), Rule::Strikethrough);
        self.insert("s".to_owned(), Rule::Strikethrough);
        self.insert("strike".to_owned(), Rule::Strikethrough);
        assert(self.entries() =~= old(self).entries() + rule_groups()[4]);
    }

    /// `a` renders as a link.
    fn add_link_rules(&mut self)
        ensures
            final(self).rules() == old(self).rules().insert("a"@, Rule::Link),
            final(self).tags() == old(self).tags().push("a"@),
            final(self).entries() == old(self).entries() + rule_groups()[5],
    {
        self.insert("a".to_owned(), Rule::Link);
        assert(self.entries() =~= old(self).entries() + rule_groups()[5]);
    }

    /// `img` renders as an image.
    fn add_img_rules(&mut self)
        ensures
            final(self).rules() == old(self).rules().insert("img"@, Rule::Image),
            final(self).tags() == old(self).tags().push("img"@),
            final(self).entries() == old(self).entries() + rule_groups()[6],
    {
        self.insert("img".to_owned(), Rule::Image);
        assert(self.entries() =~= old(self).entries() + rule_groups()[6]);
    }

    /// `pre` renders as a code block, `code` as inline code.
    fn add_code_rules(&mut self)
        ensures
            final(self).rules() == old(self).rules()
                .insert("pre"@, Rule::CodeBlock)
                .insert("code"@, Rule::InlineCode),
            final(self).tags() == old(self).tags().push("pre"@).push("code"@),
            final(self).entries() == old(self).entries() + rule_groups()[7],
    {
        self.insert("pre".to_owned(), Rule::CodeBlock);
        self.insert("code".to_owned(), Rule::InlineCode);
        assert(self.entries() =~= old(self).entries() + rule_groups()[7]);
    }

    /// `blockquote` renders as a quotation.
    fn add_block_rules(&mut self)
        ensures
            final(self).rules() == old(self).rules().insert("blockquote"@, Rule::Blockquote),
            final(self).tags() == old(self).tags().push("blockquote"@),
            final(self).entries() == old(self).entries() + rule_groups()[8],
    {
        self.insert("blockquote".to_owned(), Rule::Blockquote);
        assert(self.entries() =~= old(self).entries() + rule_groups()[8]);
    }

    /// `figure` renders its children as paragraphs, `figcaption` runs them together.
    fn add_empty_rules(&mut self)
        ensures
            final(self).rules() == old(self).rules()
                .insert("figure"@, Rule::Paragraphs)
                .insert("figcaption"@, Rule::Inline),
            final(self).tags() == old(self).tags().push("figure"@).push("figcaption"@),
            final(self).entries() == old(self).entries() + rule_groups()[9],
    {
        self.insert("figure".to_owned(), Rule::Paragraphs);
        self.insert("figcaption".to_owned(), Rule::Inline);
        assert(self.entries() =~= old(self).entries() + rule_groups()[9]);
    }

    /// The context with the rule of every known element.
    pub fn new() -> (ctx: Self)
        ensures
            ctx.rules() == default_rules(),
            ctx.tags() == default_tags(),
            ctx.entries() == chain(rule_groups()),
    {
        let mut ctx = ProcessingContext { rules: Vec::new() };
        assert(ctx.rules() == Map::<Seq<char>, Rule>::empty());
        assert(ctx.tags() =~= Seq::<Seq<char>>::empty());
        ctx.add_div_rules();
        ctx.add_details_rules();
        ctx.add_quote_rules();
        ctx.add_heading_rules();
        ctx.add_formatting_rules();
        ctx.add_link_rules();
        ctx.add_img_rules();
        ctx.add_code_rules();
        ctx.add_block_rules();
        ctx.add_empty_rules();
        proof {
            let g = rule_groups();
            assert(ctx.entries() =~= g[0] + g[1] + g[2] + g[3] + g[4] + g[5] + g[6] + g[7] + g[8]
                + g[9]);
            lemma_default_chain();
            assert(ctx.entries() == default_entries());
            assert(ctx.rules() == rules_map(ctx.entries()));
            assert(ctx.tags() =~= default_tags());
        }
        ctx
    }
}


/// The value of the plain (namespace-free) attribute `name`, as `Element::attr` gives it.
pub open spec fn attr_value(attrs: Seq<AttrView>, name: Seq<char>) -> Option<Seq<char>>
    decreases attrs.len(),
{
    if attrs.len() == 0 {
        None
    } else if attrs[0].namespace.len() == 0 && attrs[0].name == name {
        Some(attrs[0].value)
    } else {
        attr_value(attrs.subrange(1, attrs.len() as int), name)
    }
}

/// `c` repeated `n` times.
pub open spec fn repeat_char(c: char, n: nat) -> Seq<char> {
    Seq::new(n, |i: int| c)
}

/// Every line of `content` after `> `, the lines joined by line breaks.
pub open spec fn quote_lines(content: Seq<char>) -> Seq<char> {
    join(quote_each(lines(content)), "\n"@)
}

/// Each line after `> `.
pub open spec fn quote_each(ls: Seq<Seq<char>>) -> Seq<Seq<char>>
    decreases ls.len(),
{
    if ls.len() == 0 {
        Seq::empty()
    } else {
        quote_each(ls.drop_last()).push("> "@ + ls.last())
    }
}

/// The target of an image: its source, followed by `#WxH` when it has a width or a height.
pub open spec fn image_target(attrs: Seq<AttrView>) -> Seq<char> {
    let src = match attr_value(attrs, "src"@) {
        Some(v) => v,
        None => Seq::empty(),
    };
    match (attr_value(attrs, "width"@), attr_value(attrs, "height"@)) {
        (Some(w), Some(h)) => src + "#"@ + w + "x"@ + h,
        (Some(w), None) => src + "#"@ + w + "x"@,
        (None, Some(h)) => src + "#x"@ + h,
        (None, None) => src,
    }
}

/// An image: `![alt](target)`, with `IMG` for a missing `alt`.
pub open spec fn image_output(attrs: Seq<AttrView>) -> Seq<char> {
    let alt = match attr_value(attrs, "alt"@) {
        Some(v) => v,
        None => "IMG"@,
    };
    "!["@ + alt + "]("@ + image_target(attrs) + ")"@
}

/// A block: its content, between centering markers when its `align` attribute, trimmed
/// and lowercased, is `center`. An empty block stays empty.
pub open spec fn block_output(attrs: Seq<AttrView>, content: Seq<char>) -> Seq<char> {
    if content.len() == 0 {
        content
    } else {
        match attr_value(attrs, "align"@) {
            Some(a) => if lowercase(trim(a)) == "center"@ {
                "<!--CENTER_ON-->\n\n"@ + content + "\n\n<!--CENTER_OFF-->"@
            } else {
                content
            },
            None => content,
        }
    }
}

/// What a node renders as: a text node is its text; an element with a rule renders by
/// the rule, any other element as its children run together.
pub open spec fn rendered(n: NodeView, rules: Map<Seq<char>, Rule>) -> Seq<char>
    decreases n, 0int,
{
    match n {
        NodeView::Text(t) => t,
        NodeView::Element(e) => if rules.contains_key(e.name) {
            rule_output(e, rules[e.name], rules)
        } else {
            collected(e.children, rules, Seq::empty())
        },
    }
}

/// The renderings of `ns`, each trimmed, the empty ones left out.
pub open spec fn pieces(ns: Seq<NodeView>, rules: Map<Seq<char>, Rule>) -> Seq<Seq<char>>
    decreases ns, 0int,
{
    if ns.len() == 0 {
        Seq::empty()
    } else {
        let rest = pieces(ns.subrange(0, ns.len() - 1), rules);
        let p = trim(rendered(ns[ns.len() - 1], rules));
        if p.len() > 0 {
            rest.push(p)
        } else {
            rest
        }
    }
}

/// The non-empty trimmed renderings of `ns`, joined with `sep`.
pub open spec fn collected(ns: Seq<NodeView>, rules: Map<Seq<char>, Rule>, sep: Seq<char>) -> Seq<
    char,
>
    decreases ns, 1int,
{
    join(pieces(ns, rules), sep)
}

/// What element `e` renders as under `rule`.
pub open spec fn rule_output(e: ElementView, rule: Rule, rules: Map<Seq<char>, Rule>) -> Seq<char>
    decreases e, 0int,
{
    let inline = collected(e.children, rules, Seq::empty());
    let paragraphs = collected(e.children, rules, "\n\n"@);
    match rule {
        Rule::Image => image_output(e.attrs),
        Rule::CodeBlock => "```\n"@ + inline + "\n```"@,
        Rule::InlineCode => "`"@ + inline + "`"@,
        Rule::Link => match attr_value(e.attrs, "href"@) {
            Some(href) => "["@ + trim(inline) + "]("@ + trim(href) + ")"@,
            None => inline,
        },
        Rule::Blockquote => quote_lines(paragraphs),
        Rule::Paragraphs => paragraphs,
        Rule::Inline => inline,
        Rule::LineBreak => "\n"@,
        Rule::HorizontalRule => "---"@,
        Rule::Emphasis => "*"@ + trim(inline) + "*"@,
        Rule::Strong => "**"@ + trim(inline) + "**"@,
        Rule::Strikethrough => "~~"@ + trim(inline) + "~~"@,
        Rule::Heading(level) => repeat_char('#', level as nat) + " "@ + trim(inline),
        Rule::InlineQuote => "\""@ + inline + "\""@,
        Rule::Block => block_output(e.attrs, paragraphs),
        Rule::Summary => "\u{25bc} "@ + trim(inline),
    }
}


/// The value of the plain attribute `name` of an element.
pub fn attr_lookup(attrs: &Vec<Attribute>, name: &[char]) -> (r: Option<Vec<char>>)
    ensures
        r is Some <==> attr_value(attrs_view(attrs@), name@) is Some,
        r matches Some(v) ==> attr_value(attrs_view(attrs@), name@) == Some(v@),
{
    let ghost av = attrs_view(attrs@);
    let mut i: usize = 0;
    assert(av.subrange(0, av.len() as int) =~= av);
    while i < attrs.len()
        invariant
            i <= attrs@.len(),
            av == attrs_view(attrs@),
            attr_value(av, name@) == attr_value(av.subrange(i as int, av.len() as int), name@),
        decreases attrs@.len() - i,
    {
        let ghost rest = av.subrange(i as int, av.len() as int);
        assert(rest[0] == attrs@[i as int]@);
        assert(rest.subrange(1, rest.len() as int) =~= av.subrange(i + 1, av.len() as int));
        let a = &attrs[i];
        if a.namespace.as_str().is_empty() {
            let n = to_chars(a.name.as_str());
            if chars_equal(n.as_slice(), name) {
                return Some(to_chars(a.value.as_str()));
            }
        }
        i = i + 1;
    }
    None
}


/// `prefix`, then `content`.
fn prefixed(prefix: &str, content: &[char]) -> (r: Vec<char>)
    ensures
        r@ == prefix@ + content@,
{
    let mut r = to_chars(prefix);
    append_chars(&mut r, content);
    r
}

/// `prefix`, then `content`, then `suffix`.
fn surround(prefix: &str, content: &[char], suffix: &str) -> (r: Vec<char>)
    ensures
        r@ == prefix@ + content@ + suffix@,
{
    let mut r = to_chars(prefix);
    append_chars(&mut r, content);
    let s = to_chars(suffix);
    append_chars(&mut r, s.as_slice());
    r
}

/// Every line of `content` after `> `, the lines joined by line breaks.
fn quote_chars(content: &[char]) -> (r: Vec<char>)
    ensures
        r@ == quote_lines(content@),
{
    let ls = split_lines(content);
    let mut quoted: Vec<Vec<char>> = Vec::new();
    let mut i: usize = 0;
    while i < ls.len()
        invariant
            i <= ls@.len(),
            views(ls@) == lines(content@),
            views(quoted@) == quote_each(views(ls@).take(i as int)),
        decreases ls@.len() - i,
    {
        let q = prefixed("> ", ls[i].as_slice());
        let ghost before = quoted@;
        quoted.push(q);
        assert(views(ls@).take(i + 1).drop_last() =~= views(ls@).take(i as int));
        assert(views(quoted@) =~= quote_each(views(ls@).take(i + 1)));
        i = i + 1;
    }
    assert(views(ls@).take(ls@.len() as int) =~= views(ls@));
    let nl = to_chars("\n");
    join_chars(&quoted, nl.as_slice())
}

/// An image: `![alt](target)`.
fn image_chars(attrs: &Vec<Attribute>) -> (r: Vec<char>)
    ensures
        r@ == image_output(attrs_view(attrs@)),
{
    let src_name = to_chars("src");
    let alt_name = to_chars("alt");
    let width_name = to_chars("width");
    let height_name = to_chars("height");
    let mut target = match attr_lookup(attrs, src_name.as_slice()) {
        Some(v) => v,
        None => Vec::new(),
    };
    let width = attr_lookup(attrs, width_name.as_slice());
    let height = attr_lookup(attrs, height_name.as_slice());
    match (width, height) {
        (Some(w), Some(h)) => {
            append_chars(&mut target, to_chars("#").as_slice());
            append_chars(&mut target, w.as_slice());
            append_chars(&mut target, to_chars("x").as_slice());
            append_chars(&mut target, h.as_slice());
        },
        (Some(w), None) => {
            append_chars(&mut target, to_chars("#").as_slice());
            append_chars(&mut target, w.as_slice());
            append_chars(&mut target, to_chars("x").as_slice());
        },
        (None, Some(h)) => {
            append_chars(&mut target, to_chars("#x").as_slice());
            append_chars(&mut target, h.as_slice());
        },
        (None, None) => {},
    }
    assert(target@ == image_target(attrs_view(attrs@)));
    let alt = match attr_lookup(attrs, alt_name.as_slice()) {
        Some(v) => v,
        None => to_chars("IMG"),
    };
    let mut r = surround("![", alt.as_slice(), "](");
    append_chars(&mut r, target.as_slice());
    append_chars(&mut r, to_chars(")").as_slice());
    r
}

/// A block: `content`, between centering markers when the element is centred.
fn block_chars(attrs: &Vec<Attribute>, content: Vec<char>) -> (r: Vec<char>)
    ensures
        r@ == block_output(attrs_view(attrs@), content@),
{
    if content.len() == 0 {
        return content;
    }
    let align_name = to_chars("align");
    match attr_lookup(attrs, align_name.as_slice()) {
        Some(a) => {
            let trimmed = string_from_chars(trim_chars(a.as_slice()).as_slice());
            let lower = to_chars(to_lowercase(trimmed.as_str()).as_str());
            let center = to_chars("center");
            if chars_equal(lower.as_slice(), center.as_slice()) {
                surround("<!--CENTER_ON-->\n\n", content.as_slice(), "\n\n<!--CENTER_OFF-->")
            } else {
                content
            }
        },
        None => content,
    }
}


/// What a node renders as.
fn render_node(n: &HtmlNode, ctx: &ProcessingContext) -> (r: Vec<char>)
    ensures
        r@ == rendered(n@, ctx.rules()),
    decreases n, 0int,
{
    match n {
        HtmlNode::Text(t) => to_chars(t.as_str()),
        HtmlNode::Element(e) => {
            let none: [char; 0] = [];
            assert(none@ =~= Seq::<char>::empty());
            match ctx.rule_for(&e.name) {
                Some(rule) => render_rule(e, rule, ctx),
                None => collect_nodes(&e.children, ctx, &none),
            }
        },
    }
}

/// What element `e` renders as under `rule`.
fn render_rule(e: &HtmlElement, rule: Rule, ctx: &ProcessingContext) -> (r: Vec<char>)
    ensures
        r@ == rule_output(e@, rule, ctx.rules()),
    decreases e, 0int,
{
    let none: [char; 0] = [];
    assert(none@ =~= Seq::<char>::empty());
    match rule {
        Rule::Image => image_chars(&e.attrs),
        Rule::CodeBlock => {
            let inline = collect_nodes(&e.children, ctx, &none);
            surround("```\n", inline.as_slice(), "\n```")
        },
        Rule::InlineCode => {
            let inline = collect_nodes(&e.children, ctx, &none);
            surround("`", inline.as_slice(), "`")
        },
        Rule::Link => {
            let inline = collect_nodes(&e.children, ctx, &none);
            let href_name = to_chars("href");
            match attr_lookup(&e.attrs, href_name.as_slice()) {
                Some(href) => {
                    let mut r = surround("[", trim_chars(inline.as_slice()).as_slice(), "](");
                    append_chars(&mut r, trim_chars(href.as_slice()).as_slice());
                    append_chars(&mut r, to_chars(")").as_slice());
                    r
                },
                None => inline,
            }
        },
        Rule::Blockquote => {
            let sep = to_chars("\n\n");
            let paragraphs = collect_nodes(&e.children, ctx, sep.as_slice());
            quote_chars(paragraphs.as_slice())
        },
        Rule::Paragraphs => {
            let sep = to_chars("\n\n");
            collect_nodes(&e.children, ctx, sep.as_slice())
        },
        Rule::Inline => collect_nodes(&e.children, ctx, &none),
        Rule::LineBreak => to_chars("\n"),
        Rule::HorizontalRule => to_chars("---"),
        Rule::Emphasis => {
            let inline = collect_nodes(&e.children, ctx, &none);
            surround("*", trim_chars(inline.as_slice()).as_slice(), "*")
        },
        Rule::Strong => {
            let inline = collect_nodes(&e.children, ctx, &none);
            surround("**", trim_chars(inline.as_slice()).as_slice(), "**")
        },
        Rule::Strikethrough => {
            let inline = collect_nodes(&e.children, ctx, &none);
            surround("~~", trim_chars(inline.as_slice()).as_slice(), "~~")
        },
        Rule::Heading(level) => {
            let mut r: Vec<char> = Vec::new();
            let mut k: u8 = 0;
            while k < level
                invariant
                    k <= level,
                    r@ == repeat_char('#', k as nat),
                decreases level - k,
            {
                r.push('#');
                k = k + 1;
                assert(r@ =~= repeat_char('#', k as nat));
            }
            let inline = collect_nodes(&e.children, ctx, &none);
            let rest = prefixed(" ", trim_chars(inline.as_slice()).as_slice());
            append_chars(&mut r, rest.as_slice());
            r
        },
        Rule::InlineQuote => {
            let inline = collect_nodes(&e.children, ctx, &none);
            surround("\"", inline.as_slice(), "\"")
        },
        Rule::Block => {
            let sep = to_chars("\n\n");
            let paragraphs = collect_nodes(&e.children, ctx, sep.as_slice());
            block_chars(&e.attrs, paragraphs)
        },
        Rule::Summary => {
            let inline = collect_nodes(&e.children, ctx, &none);
            prefixed("\u{25bc} ", trim_chars(inline.as_slice()).as_slice())
        },
    }
}

/// The non-empty trimmed renderings of `ns`, joined with `sep`.
fn collect_nodes(ns: &Vec<HtmlNode>, ctx: &ProcessingContext, sep: &[char]) -> (r: Vec<char>)
    ensures
        r@ == collected(nodes_view(ns@), ctx.rules(), sep@),
    decreases ns, 1int,
{
    let ghost nv = nodes_view(ns@);
    let ghost rules = ctx.rules();
    proof {
        lemma_nodes_view(ns@);
    }
    let mut r: Vec<char> = Vec::new();
    let mut first = true;
    let mut i: usize = 0;
    assert(nv.take(0) =~= Seq::<NodeView>::empty());
    while i < ns.len()
        invariant
            i <= ns@.len(),
            nv == nodes_view(ns@),
            nv.len() == ns@.len(),
            forall|j: int| 0 <= j < ns@.len() ==> #[trigger] nv[j] == node_view(ns@[j]),
            rules == ctx.rules(),
            first == (pieces(nv.take(i as int), rules).len() == 0),
            r@ == join(pieces(nv.take(i as int), rules), sep@),
        decreases ns@.len() - i,
    {
        let ghost prev = pieces(nv.take(i as int), rules);
        assert(nv.take(i + 1).subrange(0, i as int) =~= nv.take(i as int));
        assert(nv.take(i + 1)[i as int] == node_view(ns@[i as int]));
        let piece = trim_chars(render_node(&ns[i], ctx).as_slice());
        if piece.len() > 0 {
            if !first {
                append_chars(&mut r, sep);
            }
            append_chars(&mut r, piece.as_slice());
            first = false;
            assert(prev.push(piece@).drop_last() =~= prev);
        }
        i = i + 1;
    }
    assert(nv.take(ns@.len() as int) =~= nv);
    r
}


/// The text of `element`'s children: their non-empty trimmed renderings joined with `sep`.
pub fn collect(element: &HtmlElement, ctx: &ProcessingContext, sep: &str) -> (r: String)
    ensures
        r@ == collected(element@.children, ctx.rules(), sep@),
{
    let sep_chars = to_chars(sep);
    let r = collect_nodes(&element.children, ctx, sep_chars.as_slice());
    string_from_chars(r.as_slice())
}

/// The pattern of an escaped start or end tag of a known element: `&lt;`, an optional
/// `/`, one of the tags, a word boundary, anything but `&`, then `&gt;`.
pub open spec fn known_tag_pattern(tags: Seq<Seq<char>>) -> Seq<char> {
    "&lt;(/?(?:"@ + join(tags, "|"@) + "))\\b[^&]*&gt;"@
}

/// The views of a sequence of strings.
pub open spec fn string_views(v: Seq<String>) -> Seq<Seq<char>> {
    v.map_values(|x: String| x@)
}

/// The parts of a text between the matches and the matches, in the order they come:
/// `gaps[0] + found[0] + gaps[1] + ... + found[n - 1] + gaps[n]`.
pub open spec fn interleave(gaps: Seq<Seq<char>>, found: Seq<Seq<char>>) -> Seq<char>
    decreases found.len(),
{
    if found.len() == 0 {
        if gaps.len() > 0 {
            gaps[0]
        } else {
            Seq::empty()
        }
    } else {
        interleave(gaps.drop_last(), found.drop_last()) + found.last() + gaps.last()
    }
}

/// Each match read back by `unescape_angles`.
pub open spec fn unescaped_each(found: Seq<Seq<char>>) -> Seq<Seq<char>> {
    found.map_values(|m: Seq<char>| unescape_angles(m))
}

/// What `escape_unknown_elements` gives for `markdown` with the rules of `tags`: every `<`
/// and `>` escaped, then the matches of the pattern of the tags in dictionary order read
/// back; `None` when the regex engine refuses the pattern.
pub open spec fn escaping_result(tags: Seq<Seq<char>>, markdown: Seq<char>) -> Option<Seq<char>> {
    match regex_pieces(known_tag_pattern(sorted_tags(tags)), escape_angles(markdown)) {
        None => None,
        Some((gaps, found)) => Some(interleave(gaps, unescaped_each(found))),
    }
}

/// A letter or digit of ASCII, which a regex pattern matches as itself.
pub open spec fn is_word_char(c: char) -> bool {
    ('a' <= c && c <= 'z') || ('A' <= c && c <= 'Z') || ('0' <= c && c <= '9')
}

/// Tags that are all non-empty runs of ASCII letters and digits, at least one of them.
pub open spec fn word_tags(tags: Seq<Seq<char>>) -> bool {
    &&& tags.len() > 0
    &&& forall|i: int| 0 <= i < tags.len() ==> #[trigger] tags[i].len() > 0
    &&& forall|i: int, j: int|
        0 <= i < tags.len() && 0 <= j < tags[i].len() ==> is_word_char(#[trigger] tags[i][j])
}

/// Whether two sequences of tags hold the same tags, in whatever order and number.
pub open spec fn same_tags(a: Seq<Seq<char>>, b: Seq<Seq<char>>) -> bool {
    forall|x: Seq<char>| a.contains(x) <==> b.contains(x)
}

/// The sorted tags of word tags are word tags.
proof fn lemma_word_tags_sorted(tags: Seq<Seq<char>>)
    requires
        word_tags(tags),
    ensures
        word_tags(sorted_tags(tags)),
{
    lemma_sorted_tags(tags);
    let st = sorted_tags(tags);
    assert(tags.contains(tags[0]));
    assert(st.contains(tags[0]));
    assert forall|i: int| 0 <= i < st.len() implies #[trigger] st[i].len() > 0 && (forall|j: int|
        0 <= j < st[i].len() ==> is_word_char(#[trigger] st[i][j])) by {
        assert(st.contains(st[i]));
        let k = choose|k: int| 0 <= k < tags.len() && tags[k] == st[i];
        assert(tags[k].len() > 0);
        assert forall|j: int| 0 <= j < st[i].len() implies is_word_char(#[trigger] st[i][j]) by {
            assert(is_word_char(tags[k][j]));
        }
    }
}

/// An escaped tag of one of the sorted tags is an escaped tag of one of the tags.
proof fn lemma_escaped_tag_of_sorted(m: Seq<char>, tags: Seq<Seq<char>>)
    requires
        is_escaped_tag(m, sorted_tags(tags)),
    ensures
        is_escaped_tag(m, tags),
{
    lemma_sorted_tags(tags);
    let st = sorted_tags(tags);
    let (i, slash, rest) = choose|i: int, slash: Seq<char>, rest: Seq<char>|
        0 <= i < st.len() && (slash == Seq::<char>::empty() || slash == seq!['/'])
            && ends_tag_word(rest) && m == #[trigger] escaped_tag(slash, st[i], rest);
    assert(st.contains(st[i]));
    let k = choose|k: int| 0 <= k < tags.len() && tags[k] == st[i];
    assert(m == escaped_tag(slash, tags[k], rest));
}

/// An escaped tag of one of the tags is one of the sorted tags too.
proof fn lemma_plain_escaped_tag_to_sorted(m: Seq<char>, tags: Seq<Seq<char>>)
    requires
        is_plain_escaped_tag(m, tags),
    ensures
        is_plain_escaped_tag(m, sorted_tags(tags)),
{
    lemma_sorted_tags(tags);
    let st = sorted_tags(tags);
    let (i, slash, rest) = choose|i: int, slash: Seq<char>, rest: Seq<char>|
        0 <= i < tags.len() && (slash == Seq::<char>::empty() || slash == seq!['/']) && (rest.len()
            == 0 || ((rest[0] as int) < 128 && !is_boundary_word_char(rest[0]))) && !rest.contains(
            '&',
        ) && !rest.contains('<') && !rest.contains('>') && m == #[trigger] escaped_tag(
            slash,
            tags[i],
            rest,
        );
    assert(tags.contains(tags[i]));
    assert(st.contains(tags[i]));
    let k = choose|k: int| 0 <= k < st.len() && st[k] == tags[i];
    assert(m == escaped_tag(slash, st[k], rest));
}

/// A character of a word for the regex word boundary `\b`: an ASCII letter or digit, or
/// `_` (Unicode counts more characters as word characters; these are among them).
pub open spec fn is_boundary_word_char(c: char) -> bool {
    is_word_char(c) || c == '_'
}

/// What follows a tag in a start or end tag: no word character right after the tag, so
/// that the tag is a whole word, and no `&`.
pub open spec fn ends_tag_word(rest: Seq<char>) -> bool {
    &&& rest.len() == 0 || !is_boundary_word_char(rest[0])
    &&& !rest.contains('&')
}

/// An escaped start or end tag: `&lt;`, the `slash` (empty or `/`), the tag, `rest`, then
/// `&gt;`.
pub open spec fn escaped_tag(slash: Seq<char>, tag: Seq<char>, rest: Seq<char>) -> Seq<char> {
    seq!['&', 'l', 't', ';'] + (slash + tag + rest) + seq!['&', 'g', 't', ';']
}

/// `m` is an escaped start or end tag of one of `tags`: the tag is a whole word, and no
/// `&` follows it but the one of the closing `&gt;`.
pub open spec fn is_escaped_tag(m: Seq<char>, tags: Seq<Seq<char>>) -> bool {
    exists|i: int, slash: Seq<char>, rest: Seq<char>|
        0 <= i < tags.len() && (slash == Seq::<char>::empty() || slash == seq!['/'])
            && ends_tag_word(rest) && m == #[trigger] escaped_tag(slash, tags[i], rest)
}

/// An escaped start or end tag of one of `tags` that the pattern of the tags surely
/// matches: the tag is followed by `&gt;` or by an ASCII character other than a letter,
/// digit or `_`, and what follows the tag holds no `&`, `<` or `>` before the closing
/// `&gt;`.
pub open spec fn is_plain_escaped_tag(m: Seq<char>, tags: Seq<Seq<char>>) -> bool {
    exists|i: int, slash: Seq<char>, rest: Seq<char>|
        0 <= i < tags.len() && (slash == Seq::<char>::empty() || slash == seq!['/']) && (rest.len()
            == 0 || ((rest[0] as int) < 128 && !is_boundary_word_char(rest[0]))) && !rest.contains(
            '&',
        ) && !rest.contains('<') && !rest.contains('>') && m == #[trigger] escaped_tag(
            slash,
            tags[i],
            rest,
        )
}

/// A start or end tag: `<`, the `slash` (empty or `/`), the tag, `rest`, then `>`.
pub open spec fn restored_tag(slash: Seq<char>, tag: Seq<char>, rest: Seq<char>) -> Seq<char> {
    seq!['<'] + (slash + tag + rest) + seq!['>']
}

/// `m` is a start or end tag of one of `tags`: `<`, an optional `/`, the tag as a whole
/// word, text without `<`, `>` or `&`, then `>`.
pub open spec fn is_restored_tag(m: Seq<char>, tags: Seq<Seq<char>>) -> bool {
    exists|i: int, slash: Seq<char>, rest: Seq<char>|
        0 <= i < tags.len() && (slash == Seq::<char>::empty() || slash == seq!['/'])
            && ends_tag_word(rest) && !rest.contains('<') && !rest.contains('>') && m == #[trigger] restored_tag(
            slash,
            tags[i],
            rest,
        )
}

/// When `regex::Regex::new` accepts `pattern`: the parts of `haystack` between its matches,
/// as `Regex::split` yields them, and the matches, as `Regex::find_iter` yields them.
/// `None` when the pattern is refused. It depends on the pattern and the haystack alone.
pub uninterp spec fn regex_pieces(pattern: Seq<char>, haystack: Seq<char>) -> Option<
    (Seq<Seq<char>>, Seq<Seq<char>>),
>;

/// Compiles `pattern` with `regex::Regex::new` and, when it is accepted, cuts `text` with
/// `Regex::split` into the parts between the matches and collects the matches with
/// `Regex::find_iter`. In the `regex` source both walk the same successive
/// non-overlapping matches, and `split` yields the text from the end of one match to the
/// start of the next, then the rest after the last: so there is one part more than
/// matches, and parts and matches in turn make up the text. Which parts match is named by
/// `regex_pieces`. The pattern of the default tags, in dictionary order, is accepted: it is built only of syntax
/// that the `regex` documentation lists (literals, a non-capturing group of alternatives,
/// an optional `/`, the word boundary `\b`, the negated class `[^&]` and `*`), and it
/// compiles far below the default size limit of `Regex::new`. When the pattern is that of
/// tags made of ASCII letters and digits, which it matches as themselves, every match is
/// `&lt;`, an optional `/`, one of the tags, a run of characters other than `&`, then
/// `&gt;`: the only strings the pattern's syntax accepts. The word boundary `\b` after the
/// tag, whose last character is a word character, then holds only when the next character
/// is not one: so the run does not start with an ASCII letter, digit or `_`, which the
/// documentation's `\w` includes. And no escaped tag of those tags is left between the
/// matches, as far as the word boundary surely holds after it (the tag is followed by
/// `&gt;` or by an ASCII character other than a letter, digit or `_`): such an occurrence
/// is a match of the pattern where it starts, and `find_iter` yields the leftmost match
/// from the end of the one before; a match holds no `&` but the one it starts with and
/// the one of its closing `&gt;`, so it cannot start before the occurrence and reach
/// into it, and the search cannot pass over it.
#[verifier::external_body]
fn regex_split_matches(pattern: &str, text: &str) -> (r: Option<(Vec<String>, Vec<String>)>)
    ensures
        pattern@ == "&lt;(/?(?:"@ + join(sorted_tags(default_tags()), "|"@) + "))\\b[^&]*&gt;"@
            ==> r is Some,
        forall|tags: Seq<Seq<char>>|
            #![trigger join(tags, "|"@)]
            pattern@ == "&lt;(/?(?:"@ + join(tags, "|"@) + "))\\b[^&]*&gt;"@ && word_tags(tags)
                ==> (r matches Some((g, f)) ==> (forall|k: int|
                0 <= k < f@.len() ==> is_escaped_tag(#[trigger] f@[k]@, tags)) && (forall|
                k: int,
                a: int,
                b: int,
            |
                0 <= k < g@.len() && 0 <= a <= b <= g@[k]@.len() ==> !is_plain_escaped_tag(
                    #[trigger] g@[k]@.subrange(a, b),
                    tags,
                ))),
        match regex_pieces(pattern@, text@) {
            None => r is None,
            Some((gaps, found)) => r matches Some((g, f)) && string_views(g@) == gaps
                && string_views(f@) == found && gaps.len() == found.len() + 1 && interleave(
                gaps,
                found,
            ) == text@,
        },
{
    let re = regex::Regex::new(pattern).ok()?;
    let gaps: Vec<String> = re.split(text).map(String::from).collect();
    let found: Vec<String> = re.find_iter(text).map(|m| String::from(m.as_str())).collect();
    Some((gaps, found))
}

/// Puts a text back together from the parts between the matches and the matches, each
/// match read back by `unescape_angle_text`.
pub fn splice_unescaped(gaps: &Vec<String>, found: &Vec<String>) -> (r: String)
    requires
        gaps@.len() == found@.len() + 1,
    ensures
        r@ == interleave(string_views(gaps@), unescaped_each(string_views(found@))),
{
    let ghost g = string_views(gaps@);
    let ghost u = unescaped_each(string_views(found@));
    let mut out = to_chars(gaps[0].as_str());
    let mut i: usize = 0;
    assert(g.take(1).drop_last() =~= g.take(0));
    assert(out@ == interleave(g.take(1), u.take(0)));
    while i < found.len()
        invariant
            gaps@.len() == found@.len() + 1,
            i <= found@.len(),
            g == string_views(gaps@),
            u == unescaped_each(string_views(found@)),
            out@ == interleave(g.take(i + 1), u.take(i as int)),
        decreases found@.len() - i,
    {
        let m = unescape_angle_text(found[i].as_str());
        append_chars(&mut out, to_chars(m.as_str()).as_slice());
        append_chars(&mut out, to_chars(gaps[i + 1].as_str()).as_slice());
        assert(g.take(i + 2).drop_last() =~= g.take(i + 1));
        assert(u.take(i + 1).drop_last() =~= u.take(i as int));
        i = i + 1;
    }
    assert(g.take(found@.len() + 1int) =~= g);
    assert(u.take(found@.len() as int) =~= u);
    string_from_chars(out.as_slice())
}

impl ProcessingContext {
    /// The pattern of the escaped tags of the elements that have a rule, the tags in
    /// dictionary order.
    fn known_tag_pattern_text(&self) -> (r: String)
        ensures
            r@ == known_tag_pattern(sorted_tags(self.tags())),
    {
        let mut names: Vec<Vec<char>> = Vec::new();
        let mut i: usize = 0;
        assert(self.tags().take(0) =~= Seq::<Seq<char>>::empty());
        assert(views(names@) =~= Seq::<Seq<char>>::empty());
        while i < self.rules.len()
            invariant
                i <= self.rules@.len(),
                self.tags().len() == self.rules@.len(),
                views(names@) == sorted_tags(self.tags().take(i as int)),
            decreases self.rules@.len() - i,
        {
            assert(self.tags()[i as int] == self.rules@[i as int].0@);
            insert_sorted(&mut names, to_chars(self.rules[i].0.as_str()));
            assert(self.tags().take(i + 1).drop_last() =~= self.tags().take(i as int));
            assert(self.tags().take(i + 1).last() == self.tags()[i as int]);
            i = i + 1;
        }
        assert(self.tags().take(self.rules@.len() as int) =~= self.tags());
        let bar = to_chars("|");
        let alternatives = join_chars(&names, bar.as_slice());
        let pattern = surround("&lt;(/?(?:", alternatives.as_slice(), "))\\b[^&]*&gt;");
        string_from_chars(pattern.as_slice())
    }

    /// Escapes every `<` and `>` of `markdown`, then restores those of the start and end
    /// tags of the elements that have a rule, so that the parser sees only those tags.
    /// `None` when the regex engine refuses the tag pattern, which it never does for the
    /// rules of `ProcessingContext::new`.
    pub fn escape_unknown_elements(&self, markdown: &str) -> (r: Option<String>)
        ensures
            match regex_pieces(
                known_tag_pattern(sorted_tags(self.tags())),
                escape_angles(markdown@),
            ) {
                None => r is None,
                Some((gaps, found)) => r matches Some(s) && gaps.len() == found.len() + 1
                    && interleave(gaps, found) == escape_angles(markdown@) && s@ == interleave(
                    gaps,
                    unescaped_each(found),
                ) && (word_tags(self.tags()) ==> (forall|k: int|
                    0 <= k < found.len() ==> is_escaped_tag(#[trigger] found[k], self.tags()))
                    && (forall|k: int, a: int, b: int|
                    0 <= k < gaps.len() && 0 <= a <= b <= gaps[k].len() ==> !is_plain_escaped_tag(
                        #[trigger] gaps[k].subrange(a, b),
                        self.tags(),
                    ))),
            },
            match r {
                None => escaping_result(self.tags(), markdown@) is None,
                Some(s) => escaping_result(self.tags(), markdown@) == Some(s@),
            },
            same_tags(self.tags(), default_tags()) ==> r is Some,
    {
        let escaped = escape_angle_chars(to_chars(markdown).as_slice());
        let escaped_text = string_from_chars(escaped.as_slice());
        let pattern = self.known_tag_pattern_text();
        let pieces = regex_split_matches(pattern.as_str(), escaped_text.as_str());
        proof {
            if word_tags(self.tags()) {
                lemma_word_tags_sorted(self.tags());
            }
            if same_tags(self.tags(), default_tags()) {
                lemma_sorted_tags_order_free(self.tags(), default_tags());
            }
        }
        match pieces {
            None => None,
            Some((gaps, found)) => {
                proof {
                    if word_tags(self.tags()) {
                        assert forall|k: int| 0 <= k < found@.len() implies is_escaped_tag(
                            #[trigger] found@[k]@,
                            self.tags(),
                        ) by {
                            lemma_escaped_tag_of_sorted(found@[k]@, self.tags());
                        }
                        assert forall|k: int, a: int, b: int|
                            0 <= k < gaps@.len() && 0 <= a <= b
                                <= gaps@[k]@.len() implies !is_plain_escaped_tag(
                            #[trigger] gaps@[k]@.subrange(a, b),
                            self.tags(),
                        ) by {
                            if is_plain_escaped_tag(gaps@[k]@.subrange(a, b), self.tags()) {
                                lemma_plain_escaped_tag_to_sorted(
                                    gaps@[k]@.subrange(a, b),
                                    self.tags(),
                                );
                            }
                        }
                    }
                }
                Some(splice_unescaped(&gaps, &found))
            },
        }
    }
}

/// The Markdown that a fragment's traversal renders as: the top-level nodes joined as
/// paragraphs.
pub open spec fn fragment_markdown(toks: Seq<TokenView>, rules: Map<Seq<char>, Rule>) -> Seq<char> {
    collected(build_forest(toks), rules, "\n\n"@)
}

/// Renders the fragment that a traversal describes.
pub fn render_fragment(ctx: &ProcessingContext, tokens: Vec<HtmlToken>) -> (r: String)
    ensures
        r@ == fragment_markdown(tokens_view(tokens@), ctx.rules()),
{
    let nodes = build_fragment(tokens);
    let sep = to_chars("\n\n");
    let r = collect_nodes(&nodes, ctx, sep.as_slice());
    string_from_chars(r.as_slice())
}

/// Converts the HTML in `markdown` to Markdown: unknown markup is escaped, the rest is
/// parsed as an HTML fragment and rendered by the default rules.
pub fn process(markdown: &str) -> (r: String)
    ensures
        regex_pieces(known_tag_pattern(sorted_tags(default_tags())), escape_angles(markdown@)) matches Some(
            (gaps, found),
        ) && r@ == fragment_markdown(
            fragment_traversal(interleave(gaps, unescaped_each(found))),
            default_rules(),
        ),
{
    let ctx = ProcessingContext::new();
    match ctx.escape_unknown_elements(markdown) {
        Some(escaped) => {
            let tokens = parse_fragment_traversal(escaped.as_str());
            render_fragment(&ctx, tokens)
        },
        None => {
            assert(false);
            String::new()
        },
    }
}


/// Every piece is a non-empty trimmed text.
proof fn lemma_pieces_trimmed(ns: Seq<NodeView>, rules: Map<Seq<char>, Rule>)
    ensures
        forall|i: int|
            0 <= i < pieces(ns, rules).len() ==> #[trigger] pieces(ns, rules)[i].len() > 0
                && is_trimmed(pieces(ns, rules)[i]),
    decreases ns.len(),
{
    if ns.len() > 0 {
        let init = ns.subrange(0, ns.len() - 1);
        lemma_pieces_trimmed(init, rules);
        lemma_trim_is_trimmed(rendered(ns[ns.len() - 1], rules));
        let rest = pieces(init, rules);
        let p = trim(rendered(ns[ns.len() - 1], rules));
        assert forall|i: int|
            0 <= i < pieces(ns, rules).len() implies #[trigger] pieces(ns, rules)[i].len() > 0
                && is_trimmed(pieces(ns, rules)[i]) by {
            if i < rest.len() {
                assert(pieces(ns, rules)[i] == rest[i]);
            } else {
                assert(pieces(ns, rules)[i] == p);
            }
        }
    }
}

/// The text that the children of an element collect to is already trimmed: it neither
/// starts nor ends with whitespace, whatever the separator.
pub proof fn lemma_collected_is_trimmed(
    ns: Seq<NodeView>,
    rules: Map<Seq<char>, Rule>,
    sep: Seq<char>,
)
    ensures
        trim(collected(ns, rules, sep)) == collected(ns, rules, sep),
{
    lemma_pieces_trimmed(ns, rules);
    lemma_join_trimmed(pieces(ns, rules), sep);
    lemma_trimmed_is_fixed(collected(ns, rules, sep));
}


/// A text that lacks `c` has no part that holds it.
proof fn lemma_concat_lacks(a: Seq<char>, b: Seq<char>, c: char)
    requires
        !(a + b).contains(c),
    ensures
        !a.contains(c),
        !b.contains(c),
{
    if a.contains(c) {
        let k = choose|k: int| 0 <= k < a.len() && a[k] == c;
        assert((a + b)[k] == c);
    }
    if b.contains(c) {
        let k = choose|k: int| 0 <= k < b.len() && b[k] == c;
        assert((a + b)[a.len() + k] == c);
    }
}

/// Splitting off the last match and the part after it.
proof fn lemma_interleave_last(gaps: Seq<Seq<char>>, found: Seq<Seq<char>>, c: char)
    requires
        gaps.len() == found.len() + 1,
        found.len() > 0,
        !interleave(gaps, found).contains(c),
    ensures
        !interleave(gaps.drop_last(), found.drop_last()).contains(c),
        !found.last().contains(c),
        !gaps.last().contains(c),
        unescaped_each(found).drop_last() == unescaped_each(found.drop_last()),
        unescaped_each(found).last() == unescape_angles(found.last()),
{
    let head = interleave(gaps.drop_last(), found.drop_last());
    lemma_concat_lacks(head + found.last(), gaps.last(), c);
    lemma_concat_lacks(head, found.last(), c);
    assert(unescaped_each(found).drop_last() =~= unescaped_each(found.drop_last()));
}

/// With no `&` in the text, reading back the matches changes nothing.
proof fn lemma_interleave_plain(gaps: Seq<Seq<char>>, found: Seq<Seq<char>>)
    requires
        gaps.len() == found.len() + 1,
        !interleave(gaps, found).contains('&'),
    ensures
        interleave(gaps, unescaped_each(found)) == interleave(gaps, found),
    decreases found.len(),
{
    if found.len() > 0 {
        lemma_interleave_last(gaps, found, '&');
        lemma_interleave_plain(gaps.drop_last(), found.drop_last());
        lemma_unescape_plain(found.last());
    }
}

/// With no angle bracket in the text, escaping it again after reading back the matches
/// gives it back.
proof fn lemma_escape_interleave(gaps: Seq<Seq<char>>, found: Seq<Seq<char>>)
    requires
        gaps.len() == found.len() + 1,
        !interleave(gaps, found).contains('<'),
        !interleave(gaps, found).contains('>'),
    ensures
        escape_angles(interleave(gaps, unescaped_each(found))) == interleave(gaps, found),
    decreases found.len(),
{
    if found.len() == 0 {
        lemma_escape_plain(gaps[0]);
    } else {
        lemma_interleave_last(gaps, found, '<');
        lemma_interleave_last(gaps, found, '>');
        let g0 = gaps.drop_last();
        let f0 = found.drop_last();
        lemma_escape_interleave(g0, f0);
        let uh = interleave(g0, unescaped_each(f0));
        let um = unescape_angles(found.last());
        assert(interleave(gaps, unescaped_each(found)) == uh + um + gaps.last());
        lemma_escape_concat(uh + um, gaps.last());
        lemma_escape_concat(uh, um);
        lemma_escape_inverts_unescape(found.last());
        lemma_escape_plain(gaps.last());
    }
}

/// Escaping changes only angle brackets: whatever parts of the escaped Markdown the regex
/// engine matches, the result escapes to the same text as the Markdown, and for Markdown
/// without `&` reading the result back (`&lt;` as `<`, then `&gt;` as `>`) gives the
/// Markdown: no character is added, removed or moved.
pub proof fn lemma_escaping_changes_only_angles(
    markdown: Seq<char>,
    gaps: Seq<Seq<char>>,
    found: Seq<Seq<char>>,
)
    requires
        gaps.len() == found.len() + 1,
        interleave(gaps, found) == escape_angles(markdown),
    ensures
        escape_angles(interleave(gaps, unescaped_each(found))) == escape_angles(markdown),
        !markdown.contains('&') ==> unescape_angles(interleave(gaps, unescaped_each(found)))
            == markdown,
{
    lemma_escape_removes_angles(markdown);
    lemma_escape_interleave(gaps, found);
    if !markdown.contains('&') {
        lemma_unescape_same_escape(interleave(gaps, unescaped_each(found)), markdown);
    }
}

/// Escaping is idempotent: the result of `escape_unknown_elements` escapes to the same
/// text as the Markdown, so escaping the result again gives the same outcome as escaping
/// the Markdown, whatever rules the context holds.
pub proof fn lemma_escaping_is_idempotent(
    tags: Seq<Seq<char>>,
    markdown: Seq<char>,
    gaps: Seq<Seq<char>>,
    found: Seq<Seq<char>>,
)
    requires
        gaps.len() == found.len() + 1,
        interleave(gaps, found) == escape_angles(markdown),
    ensures
        escaping_result(tags, interleave(gaps, unescaped_each(found))) == escaping_result(
            tags,
            markdown,
        ),
{
    lemma_escaping_changes_only_angles(markdown, gaps, found);
}

/// Escaping does not depend on the order of the rules: contexts with rules for the same
/// tags, added in any order and any number of times, escape every Markdown alike, since
/// the pattern lists the tags in dictionary order.
pub proof fn lemma_escaping_order_free(
    tags1: Seq<Seq<char>>,
    tags2: Seq<Seq<char>>,
    markdown: Seq<char>,
)
    requires
        same_tags(tags1, tags2),
    ensures
        escaping_result(tags1, markdown) == escaping_result(tags2, markdown),
{
    lemma_sorted_tags_order_free(tags1, tags2);
}

/// Plain Markdown passes the escaping unchanged: a text with no `<`, `>` or `&` comes out
/// of `escape_unknown_elements` as it went in, whatever the regex engine matches in it.
pub proof fn lemma_plain_text_survives_escaping(
    markdown: Seq<char>,
    gaps: Seq<Seq<char>>,
    found: Seq<Seq<char>>,
)
    requires
        !markdown.contains('<'),
        !markdown.contains('>'),
        !markdown.contains('&'),
        gaps.len() == found.len() + 1,
        interleave(gaps, found) == escape_angles(markdown),
    ensures
        interleave(gaps, unescaped_each(found)) == markdown,
{
    lemma_escape_plain(markdown);
    lemma_interleave_plain(gaps, found);
}

/// A line break and a thematic break render the same for every element: neither reads
/// the element's attributes or children.
pub proof fn lemma_breaks_ignore_element(e1: ElementView, e2: ElementView, rules: Map<Seq<char>, Rule>)
    ensures
        rule_output(e1, Rule::LineBreak, rules) == rule_output(e2, Rule::LineBreak, rules),
        rule_output(e1, Rule::LineBreak, rules) == "\n"@,
        rule_output(e1, Rule::HorizontalRule, rules) == rule_output(e2, Rule::HorizontalRule, rules),
        rule_output(e1, Rule::HorizontalRule, rules) == "---"@,
{
}

/// Under the rules of `ProcessingContext::new`, every `br` element renders as a line break
/// and every `hr` element as a thematic break, whatever its attributes and children, and
/// `blockquote` and `details` elements render as quotations.
pub proof fn lemma_default_rendering(e: ElementView)
    ensures
        e.name == "br"@ ==> rendered(NodeView::Element(e), default_rules()) == "\n"@,
        e.name == "hr"@ ==> rendered(NodeView::Element(e), default_rules()) == "---"@,
        e.name == "blockquote"@ || e.name == "details"@ ==> rendered(
            NodeView::Element(e),
            default_rules(),
        ) == rule_output(e, Rule::Blockquote, default_rules()),
{
    lemma_default_rules_distinct();
    lemma_rules_map_distinct(default_entries());
    let d = default_entries();
    assert(d[11] == ("br"@, Rule::LineBreak));
    assert(d[14] == ("hr"@, Rule::HorizontalRule));
    assert(rules_map(d).contains_key(d[11].0) && rules_map(d).contains_key(d[14].0));
    if e.name == "br"@ {
        assert(rendered(NodeView::Element(e), default_rules()) == rule_output(
            e,
            Rule::LineBreak,
            default_rules(),
        ));
    }
    if e.name == "hr"@ {
        assert(rendered(NodeView::Element(e), default_rules()) == rule_output(
            e,
            Rule::HorizontalRule,
            default_rules(),
        ));
    }
    assert(d[25] == ("blockquote"@, Rule::Blockquote));
    assert(d[2] == ("details"@, Rule::Blockquote));
    assert(rules_map(d).contains_key(d[25].0) && rules_map(d).contains_key(d[2].0));
    if e.name == "blockquote"@ || e.name == "details"@ {
        assert(default_rules().contains_key(e.name));
        assert(default_rules()[e.name] == Rule::Blockquote);
    }
}

/// No tag occurs twice among the entries.
pub open spec fn distinct_tags(e: Seq<(Seq<char>, Rule)>) -> bool {
    forall|i: int, j: int| 0 <= i < j < e.len() ==> #[trigger] e[i].0 != #[trigger] e[j].0
}

/// With no tag twice, every entry's rule is the one that the map gives its tag, and the
/// map holds no other tag.
proof fn lemma_rules_map_distinct(e: Seq<(Seq<char>, Rule)>)
    requires
        distinct_tags(e),
    ensures
        forall|i: int| 0 <= i < e.len() ==> #[trigger] rules_map(e).contains_key(e[i].0)
            && rules_map(e)[e[i].0] == e[i].1,
        forall|k: Seq<char>| #[trigger] rules_map(e).contains_key(k) ==> exists|i: int|
            0 <= i < e.len() && e[i].0 == k,
    decreases e.len(),
{
    if e.len() > 0 {
        let init = e.drop_last();
        assert(distinct_tags(init)) by {
            assert forall|i: int, j: int| 0 <= i < j < init.len() implies #[trigger] init[i].0
                != #[trigger] init[j].0 by {
                assert(init[i] == e[i] && init[j] == e[j]);
            }
        }
        lemma_rules_map_distinct(init);
        assert(rules_map(e) == rules_map(init).insert(e.last().0, e.last().1));
        assert forall|i: int| 0 <= i < e.len() implies #[trigger] rules_map(e).contains_key(e[i].0)
            && rules_map(e)[e[i].0] == e[i].1 by {
            if i < e.len() - 1 {
                assert(init[i] == e[i]);
                assert(e[i].0 != e[e.len() - 1].0);
                assert(rules_map(init).contains_key(init[i].0));
            }
        }
        assert forall|k: Seq<char>| #[trigger] rules_map(e).contains_key(k) implies exists|i: int|
            0 <= i < e.len() && e[i].0 == k by {
            if k != e.last().0 {
                assert(rules_map(init).contains_key(k));
                let i = choose|i: int| 0 <= i < init.len() && init[i].0 == k;
                assert(e[i] == init[i]);
            } else {
                assert(e[e.len() - 1].0 == k);
            }
        }
    }
}

/// Every tag in the map comes from an entry, which holds the rule the map gives it.
proof fn lemma_rules_map_entry(e: Seq<(Seq<char>, Rule)>)
    ensures
        forall|i: int| 0 <= i < e.len() ==> #[trigger] rules_map(e).contains_key(e[i].0),
        forall|k: Seq<char>| #[trigger] rules_map(e).contains_key(k) ==> e.contains(
            (k, rules_map(e)[k]),
        ),
    decreases e.len(),
{
    if e.len() > 0 {
        let init = e.drop_last();
        lemma_rules_map_entry(init);
        assert(rules_map(e) == rules_map(init).insert(e.last().0, e.last().1));
        assert forall|i: int| 0 <= i < e.len() implies #[trigger] rules_map(e).contains_key(
            e[i].0,
        ) by {
            if i < e.len() - 1 {
                assert(init[i] == e[i]);
                assert(rules_map(init).contains_key(init[i].0));
            }
        }
        assert forall|k: Seq<char>| #[trigger] rules_map(e).contains_key(k) implies e.contains(
            (k, rules_map(e)[k]),
        ) by {
            if k == e.last().0 {
                assert(e[e.len() - 1] == (k, rules_map(e)[k]));
            } else {
                assert(rules_map(init).contains_key(k));
                let i = choose|i: int| 0 <= i < init.len() && init[i] == (k, rules_map(init)[k]);
                assert(e[i] == init[i]);
            }
        }
    }
}

/// Adding rules gives the same rules in any order when no tag is added twice with
/// different rules: a sequence of entries with pairwise different tags builds the same map
/// as any sequence that holds the same entries.
pub proof fn lemma_rules_order_free(e1: Seq<(Seq<char>, Rule)>, e2: Seq<(Seq<char>, Rule)>)
    requires
        distinct_tags(e1),
        forall|x: (Seq<char>, Rule)| e1.contains(x) <==> e2.contains(x),
    ensures
        rules_map(e1) == rules_map(e2),
{
    lemma_rules_map_distinct(e1);
    lemma_rules_map_entry(e1);
    lemma_rules_map_entry(e2);
    assert forall|k: Seq<char>| #[trigger] rules_map(e2).contains_key(k) implies rules_map(
        e1,
    ).contains_key(k) && rules_map(e1)[k] == rules_map(e2)[k] by {
        assert(e2.contains((k, rules_map(e2)[k])));
        let i = choose|i: int| 0 <= i < e1.len() && e1[i] == (k, rules_map(e2)[k]);
        assert(rules_map(e1).contains_key(e1[i].0));
    }
    assert forall|k: Seq<char>| #[trigger] rules_map(e1).contains_key(k) implies rules_map(
        e2,
    ).contains_key(k) by {
        assert(e1.contains((k, rules_map(e1)[k])));
        let j = choose|j: int| 0 <= j < e2.len() && e2[j] == (k, rules_map(e1)[k]);
        assert(rules_map(e2).contains_key(e2[j].0));
    }
    assert(rules_map(e1) =~= rules_map(e2));
}

/// An entry is in the chained groups exactly when it is in one of them.
proof fn lemma_chain_contains(groups: Seq<Seq<(Seq<char>, Rule)>>, x: (Seq<char>, Rule))
    ensures
        chain(groups).contains(x) <==> exists|i: int| 0 <= i < groups.len() && #[trigger] groups[i].contains(x),
    decreases groups.len(),
{
    if groups.len() > 0 {
        let init = groups.drop_last();
        lemma_chain_contains(init, x);
        let a = chain(init);
        let b = groups.last();
        if (a + b).contains(x) {
            let k = choose|k: int| 0 <= k < (a + b).len() && (a + b)[k] == x;
            if k < a.len() {
                assert(a[k] == x);
                let i = choose|i: int| 0 <= i < init.len() && #[trigger] init[i].contains(x);
                assert(groups[i] == init[i]);
            } else {
                assert(b[k - a.len()] == x);
                assert(groups[groups.len() - 1].contains(x));
            }
        }
        if exists|i: int| 0 <= i < groups.len() && #[trigger] groups[i].contains(x) {
            let i = choose|i: int| 0 <= i < groups.len() && #[trigger] groups[i].contains(x);
            if i < groups.len() - 1 {
                assert(init[i] == groups[i]);
                assert(a.contains(x));
                let k = choose|k: int| 0 <= k < a.len() && a[k] == x;
                assert((a + b)[k] == x);
            } else {
                let k = choose|k: int| 0 <= k < b.len() && b[k] == x;
                assert((a + b)[a.len() + k] == x);
            }
        }
    }
}

/// `order` lists each of `0..n` once.
pub open spec fn lists_each(order: Seq<int>, n: int) -> bool {
    &&& order.len() == n
    &&& forall|i: int| 0 <= i < order.len() ==> 0 <= #[trigger] order[i] < n
    &&& forall|j: int| 0 <= j < n ==> #[trigger] order.contains(j)
}

/// The groups of rules, one after the other, are the default entries.
proof fn lemma_default_chain()
    ensures
        chain(rule_groups()) == default_entries(),
{
    let g = rule_groups();
    reveal_with_fuel(chain, 11);
    assert(chain(g) =~= g[0] + g[1] + g[2] + g[3] + g[4] + g[5] + g[6] + g[7] + g[8] + g[9]);
    assert(chain(g) =~= default_entries());
    assert(g[0] + g[1] + g[2] + g[3] + g[4] + g[5] + g[6] + g[7] + g[8] + g[9]
        =~= default_entries());
}

/// The groups of rules add pairwise different tags, so no group overwrites a rule of
/// another: each group method run once, in any order, from a context without rules, gives
/// the rules of `ProcessingContext::new`.
pub proof fn lemma_group_order_free(order: Seq<int>)
    requires
        lists_each(order, rule_groups().len() as int),
    ensures
        rules_map(chain(order.map_values(|i: int| rule_groups()[i]))) == default_rules(),
{
    let gs = rule_groups();
    let re = order.map_values(|i: int| gs[i]);
    lemma_default_rules_distinct();
    lemma_default_chain();
    assert forall|x: (Seq<char>, Rule)| chain(gs).contains(x) <==> chain(re).contains(x) by {
        lemma_chain_contains(gs, x);
        lemma_chain_contains(re, x);
        if chain(gs).contains(x) {
            let j = choose|j: int| 0 <= j < gs.len() && #[trigger] gs[j].contains(x);
            assert(order.contains(j));
            let i = choose|i: int| 0 <= i < order.len() && order[i] == j;
            assert(re[i] == gs[j]);
        }
        if chain(re).contains(x) {
            let i = choose|i: int| 0 <= i < re.len() && #[trigger] re[i].contains(x);
            assert(re[i] == gs[order[i]]);
        }
    }
    lemma_rules_order_free(chain(gs), chain(re));
}

/// A number that tells the known tags apart: the length, the first and the last character.
spec fn tag_code(s: Seq<char>) -> int {
    if s.len() == 0 {
        0
    } else {
        s.len() * 0x1_0000_0000_0000 + (s[0] as int) * 0x100_0000 + (s.last() as int)
    }
}

/// The position of a default tag among the default entries.
spec fn default_tag_position(s: Seq<char>) -> int {
    if tag_code(s) == tag_code("div"@) {
        0
    } else     if tag_code(s) == tag_code("p"@) {
        1
    } else     if tag_code(s) == tag_code("details"@) {
        2
    } else     if tag_code(s) == tag_code("summary"@) {
        3
    } else     if tag_code(s) == tag_code("q"@) {
        4
    } else     if tag_code(s) == tag_code("h1"@) {
        5
    } else     if tag_code(s) == tag_code("h2"@) {
        6
    } else     if tag_code(s) == tag_code("h3"@) {
        7
    } else     if tag_code(s) == tag_code("h4"@) {
        8
    } else     if tag_code(s) == tag_code("h5"@) {
        9
    } else     if tag_code(s) == tag_code("h6"@) {
        10
    } else     if tag_code(s) == tag_code("br"@) {
        11
    } else     if tag_code(s) == tag_code("var"@) {
        12
    } else     if tag_code(s) == tag_code("i"@) {
        13
    } else     if tag_code(s) == tag_code("hr"@) {
        14
    } else     if tag_code(s) == tag_code("b"@) {
        15
    } else     if tag_code(s) == tag_code("strong"@) {
        16
    } else     if tag_code(s) == tag_code("em"@) {
        17
    } else     if tag_code(s) == tag_code("del"@) {
        18
    } else     if tag_code(s) == tag_code("s"@) {
        19
    } else     if tag_code(s) == tag_code("strike"@) {
        20
    } else     if tag_code(s) == tag_code("a"@) {
        21
    } else     if tag_code(s) == tag_code("img"@) {
        22
    } else     if tag_code(s) == tag_code("pre"@) {
        23
    } else     if tag_code(s) == tag_code("code"@) {
        24
    } else     if tag_code(s) == tag_code("blockquote"@) {
        25
    } else     if tag_code(s) == tag_code("figure"@) {
        26
    } else     if tag_code(s) == tag_code("figcaption"@) {
        27
    } else {
        28
    }
}

/// Each default tag stands at its own position.
proof fn lemma_default_positions()
    ensures
        forall|i: int| 0 <= i < default_entries().len() ==> default_tag_position(
            #[trigger] default_entries()[i].0,
        ) == i,
{
    reveal_strlit("div");
    reveal_strlit("p");
    reveal_strlit("details");
    reveal_strlit("summary");
    reveal_strlit("q");
    reveal_strlit("h1");
    reveal_strlit("h2");
    reveal_strlit("h3");
    reveal_strlit("h4");
    reveal_strlit("h5");
    reveal_strlit("h6");
    reveal_strlit("br");
    reveal_strlit("var");
    reveal_strlit("i");
    reveal_strlit("hr");
    reveal_strlit("b");
    reveal_strlit("strong");
    reveal_strlit("em");
    reveal_strlit("del");
    reveal_strlit("s");
    reveal_strlit("strike");
    reveal_strlit("a");
    reveal_strlit("img");
    reveal_strlit("pre");
    reveal_strlit("code");
    reveal_strlit("blockquote");
    reveal_strlit("figure");
    reveal_strlit("figcaption");
    let e = default_entries();
    assert(default_tag_position(e[0].0) == 0);
    assert(default_tag_position(e[1].0) == 1);
    assert(default_tag_position(e[2].0) == 2);
    assert(default_tag_position(e[3].0) == 3);
    assert(default_tag_position(e[4].0) == 4);
    assert(default_tag_position(e[5].0) == 5);
    assert(default_tag_position(e[6].0) == 6);
    assert(default_tag_position(e[7].0) == 7);
    assert(default_tag_position(e[8].0) == 8);
    assert(default_tag_position(e[9].0) == 9);
    assert(default_tag_position(e[10].0) == 10);
    assert(default_tag_position(e[11].0) == 11);
    assert(default_tag_position(e[12].0) == 12);
    assert(default_tag_position(e[13].0) == 13);
    assert(default_tag_position(e[14].0) == 14);
    assert(default_tag_position(e[15].0) == 15);
    assert(default_tag_position(e[16].0) == 16);
    assert(default_tag_position(e[17].0) == 17);
    assert(default_tag_position(e[18].0) == 18);
    assert(default_tag_position(e[19].0) == 19);
    assert(default_tag_position(e[20].0) == 20);
    assert(default_tag_position(e[21].0) == 21);
    assert(default_tag_position(e[22].0) == 22);
    assert(default_tag_position(e[23].0) == 23);
    assert(default_tag_position(e[24].0) == 24);
    assert(default_tag_position(e[25].0) == 25);
    assert(default_tag_position(e[26].0) == 26);
    assert(default_tag_position(e[27].0) == 27);
    assert forall|i: int| 0 <= i < e.len() implies default_tag_position(#[trigger] e[i].0) == i by {
        if i == 0 {} else if i == 1 {} else if i == 2 {} else if i == 3 {} else if i == 4 {} else if i == 5 {} else if i == 6 {} else if i == 7 {} else if i == 8 {} else if i == 9 {} else if i == 10 {} else if i == 11 {} else if i == 12 {} else if i == 13 {} else if i == 14 {} else if i == 15 {} else if i == 16 {} else if i == 17 {} else if i == 18 {} else if i == 19 {} else if i == 20 {} else if i == 21 {} else if i == 22 {} else if i == 23 {} else if i == 24 {} else if i == 25 {} else if i == 26 {} else {}
    }
}

/// The default entries add each tag once.
pub proof fn lemma_default_rules_distinct()
    ensures
        distinct_tags(default_entries()),
{
    lemma_default_positions();
}


/// Each quoted line is its line after `> `.
proof fn lemma_quote_each(ls: Seq<Seq<char>>)
    ensures
        quote_each(ls).len() == ls.len(),
        forall|i: int| 0 <= i < ls.len() ==> #[trigger] quote_each(ls)[i] == "> "@ + ls[i],
    decreases ls.len(),
{
    if ls.len() > 0 {
        lemma_quote_each(ls.drop_last());
        assert forall|i: int| 0 <= i < ls.len() implies #[trigger] quote_each(ls)[i] == "> "@
            + ls[i] by {
            if i < ls.len() - 1 {
                assert(ls.drop_last()[i] == ls[i]);
            }
        }
    }
}

/// Quoting a content line by line can be undone: the lines of the quotation are the lines
/// of the content, each after `> `, and joining those lines again gives the content. The
/// quotation is empty exactly when the content is. The content holds no `\r` and does
/// not end with `\n`.
pub proof fn lemma_quote_lines_round_trip(c: Seq<char>)
    requires
        !c.contains('\r'),
        c.len() == 0 || c.last() != '\n',
    ensures
        lines(quote_lines(c)).len() == lines(c).len(),
        forall|i: int|
            0 <= i < lines(c).len() ==> #[trigger] lines(quote_lines(c))[i] == "> "@ + lines(c)[i],
        join(lines(c), "\n"@) == c,
        quote_lines(c).len() == 0 <==> c.len() == 0,
{
    reveal_strlit("\n");
    reveal_strlit("> ");
    assert("\n"@ =~= seq!['\n']);
    lemma_join_of_lines(c);
    let ls = lines(c);
    let q = quote_each(ls);
    lemma_quote_each(ls);
    assert forall|i: int| 0 <= i < q.len() implies is_plain_line(#[trigger] q[i]) by {
        assert(q[i] == "> "@ + ls[i]);
        assert(is_plain_line(ls[i]) && !ls[i].contains('\r'));
        assert(!q[i].contains('\n')) by {
            if q[i].contains('\n') {
                let k = choose|k: int| 0 <= k < q[i].len() && q[i][k] == '\n';
                if k >= 2 {
                    assert(ls[i][k - 2] == '\n');
                }
            }
        }
        if ls[i].len() > 0 {
            assert(q[i].last() == ls[i].last());
            assert(ls[i].contains(ls[i].last()));
        }
    }
    if q.len() > 0 {
        assert(q.last() == q[q.len() - 1]);
    }
    lemma_lines_of_join(q);
    if c.len() > 0 {
        assert(ls.len() > 0);
        assert(lines(quote_lines(c)).len() > 0);
        assert(lines_state(Seq::<char>::empty()).1.len() == 0);
    } else {
        assert(ls.len() == 0) by {
            assert(lines_state(Seq::<char>::empty()).1.len() == 0);
        }
    }
}

/// A quotation block can be read back to its content: each of its lines is a line of the
/// content after `> `, and the lines of the content join back to it. It is empty exactly
/// when the content is. The content is the children's text, taken here to hold no `\r`.
pub proof fn lemma_blockquote_round_trip(e: ElementView, rules: Map<Seq<char>, Rule>)
    requires
        !collected(e.children, rules, "\n\n"@).contains('\r'),
    ensures
        ({
            let c = collected(e.children, rules, "\n\n"@);
            let r = rule_output(e, Rule::Blockquote, rules);
            &&& lines(r).len() == lines(c).len()
            &&& forall|i: int| 0 <= i < lines(c).len() ==> #[trigger] lines(r)[i] == "> "@ + lines(c)[i]
            &&& join(lines(c), "\n"@) == c
            &&& (r.len() == 0 <==> c.len() == 0)
        }),
{
    let c = collected(e.children, rules, "\n\n"@);
    lemma_collected_is_trimmed(e.children, rules, "\n\n"@);
    lemma_trim_is_trimmed(c);
    if c.len() > 0 {
        assert(is_trimmed(c));
        assert(is_white_space('\n'));
    }
    lemma_quote_lines_round_trip(c);
}



/// Entries with pairwise different tags, added after any others, each give their tag
/// their rule.
proof fn lemma_rules_map_suffix(a: Seq<(Seq<char>, Rule)>, b: Seq<(Seq<char>, Rule)>)
    requires
        distinct_tags(b),
    ensures
        forall|i: int| 0 <= i < b.len() ==> #[trigger] rules_map(a + b).contains_key(b[i].0)
            && rules_map(a + b)[b[i].0] == b[i].1,
    decreases b.len(),
{
    if b.len() > 0 {
        let init = b.drop_last();
        assert(distinct_tags(init)) by {
            assert forall|i: int, j: int| 0 <= i < j < init.len() implies #[trigger] init[i].0
                != #[trigger] init[j].0 by {
                assert(init[i] == b[i] && init[j] == b[j]);
            }
        }
        lemma_rules_map_suffix(a, init);
        assert((a + b).drop_last() =~= a + init);
        assert((a + b).last() == b.last());
        assert forall|i: int| 0 <= i < b.len() implies #[trigger] rules_map(a + b).contains_key(
            b[i].0,
        ) && rules_map(a + b)[b[i].0] == b[i].1 by {
            if i < b.len() - 1 {
                assert(init[i] == b[i]);
                assert(b[i].0 != b[b.len() - 1].0);
                assert(rules_map(a + init).contains_key(init[i].0));
            }
        }
    }
}

/// A group of the default rules adds each of its tags once.
proof fn lemma_group_distinct(k: int)
    requires
        0 <= k < rule_groups().len(),
    ensures
        distinct_tags(rule_groups()[k]),
{
    lemma_default_rules_distinct();
    let d = default_entries();
    let g = rule_groups()[k];
    let lo = if k == 0 { 0int } else if k == 1 { 2 } else if k == 2 { 4 } else if k == 3 { 5 }
        else if k == 4 { 11 } else if k == 5 { 21 } else if k == 6 { 22 } else if k == 7 { 23 }
        else if k == 8 { 25 } else { 26 };
    assert(g == d.subrange(lo, lo + g.len()));
    assert forall|i: int, j: int| 0 <= i < j < g.len() implies #[trigger] g[i].0
        != #[trigger] g[j].0 by {
        assert(g[i] == d[lo + i] && g[j] == d[lo + j]);
    }
}

/// After `add_formatting_rules`, which appends `rule_groups()[4]` to the entries whatever
/// they were, every `br` element renders as a line break and every `hr` element as a
/// thematic break, whatever its attributes and children.
pub proof fn lemma_formatting_rules_breaks(before: Seq<(Seq<char>, Rule)>, e: ElementView)
    ensures
        e.name == "br"@ ==> rendered(NodeView::Element(e), rules_map(before + rule_groups()[4]))
            == "\n"@,
        e.name == "hr"@ ==> rendered(NodeView::Element(e), rules_map(before + rule_groups()[4]))
            == "---"@,
{
    let g = rule_groups()[4];
    lemma_group_distinct(4);
    lemma_rules_map_suffix(before, g);
    assert(g[0] == ("br"@, Rule::LineBreak));
    assert(g[3] == ("hr"@, Rule::HorizontalRule));
    assert(rules_map(before + g).contains_key(g[0].0) && rules_map(before + g).contains_key(
        g[3].0,
    ));
}

/// After `add_block_rules`, which appends `rule_groups()[8]` to the entries whatever they
/// were, a `blockquote` element renders as a quotation that reads back to its content:
/// each of its lines is a line of the content after `> `, the lines of the content join
/// back to it, and it is empty exactly when the content is. The content is the children's
/// text, taken here to hold no `\r`.
pub proof fn lemma_block_rules_round_trip(before: Seq<(Seq<char>, Rule)>, e: ElementView)
    requires
        e.name == "blockquote"@,
        !collected(e.children, rules_map(before + rule_groups()[8]), "\n\n"@).contains('\r'),
    ensures
        ({
            let rules = rules_map(before + rule_groups()[8]);
            let c = collected(e.children, rules, "\n\n"@);
            let r = rendered(NodeView::Element(e), rules);
            &&& lines(r).len() == lines(c).len()
            &&& forall|i: int| 0 <= i < lines(c).len() ==> #[trigger] lines(r)[i] == "> "@ + lines(
                c,
            )[i]
            &&& join(lines(c), "\n"@) == c
            &&& (r.len() == 0 <==> c.len() == 0)
        }),
{
    let g = rule_groups()[8];
    let rules = rules_map(before + g);
    lemma_group_distinct(8);
    lemma_rules_map_suffix(before, g);
    assert(g[0] == ("blockquote"@, Rule::Blockquote));
    assert(rules.contains_key(g[0].0));
    assert(rendered(NodeView::Element(e), rules) == rule_output(e, Rule::Blockquote, rules));
    lemma_blockquote_round_trip(e, rules);
}


/// Every part of the interleaved text lacks what the whole text lacks.
proof fn lemma_interleave_parts_lack(gaps: Seq<Seq<char>>, found: Seq<Seq<char>>, c: char)
    requires
        gaps.len() == found.len() + 1,
        !interleave(gaps, found).contains(c),
    ensures
        forall|k: int| 0 <= k < gaps.len() ==> !(#[trigger] gaps[k]).contains(c),
        forall|k: int| 0 <= k < found.len() ==> !(#[trigger] found[k]).contains(c),
    decreases found.len(),
{
    if found.len() > 0 {
        lemma_interleave_last(gaps, found, c);
        let g0 = gaps.drop_last();
        let f0 = found.drop_last();
        lemma_interleave_parts_lack(g0, f0, c);
        assert forall|k: int| 0 <= k < gaps.len() implies !(#[trigger] gaps[k]).contains(c) by {
            if k < g0.len() {
                assert(g0[k] == gaps[k]);
            }
        }
        assert forall|k: int| 0 <= k < found.len() implies !(#[trigger] found[k]).contains(c) by {
            if k < f0.len() {
                assert(f0[k] == found[k]);
            }
        }
    }
}

/// Only start and end tags of known elements are restored: when every match of the
/// regex engine is an escaped tag of one of `tags`, made of letters and digits, the result
/// of `escape_unknown_elements` consists of the parts between the matches, which hold no
/// `<` or `>`, and the restored matches, each `<`, an optional `/`, one of the tags, text
/// without `<`, `>` or `&`, then `>`.
pub proof fn lemma_only_known_tags_restored(
    tags: Seq<Seq<char>>,
    markdown: Seq<char>,
    gaps: Seq<Seq<char>>,
    found: Seq<Seq<char>>,
)
    requires
        gaps.len() == found.len() + 1,
        interleave(gaps, found) == escape_angles(markdown),
        word_tags(tags),
        forall|k: int| 0 <= k < found.len() ==> is_escaped_tag(#[trigger] found[k], tags),
    ensures
        forall|k: int|
            0 <= k < gaps.len() ==> !(#[trigger] gaps[k]).contains('<') && !gaps[k].contains('>'),
        forall|k: int|
            0 <= k < found.len() ==> is_restored_tag(#[trigger] unescaped_each(found)[k], tags),
{
    lemma_escape_removes_angles(markdown);
    lemma_interleave_parts_lack(gaps, found, '<');
    lemma_interleave_parts_lack(gaps, found, '>');
    assert forall|k: int| 0 <= k < found.len() implies is_restored_tag(
        #[trigger] unescaped_each(found)[k],
        tags,
    ) by {
        let m = found[k];
        let (i, slash, rest) = choose|i: int, slash: Seq<char>, rest: Seq<char>|
            0 <= i < tags.len() && (slash == Seq::<char>::empty() || slash == seq!['/'])
                && ends_tag_word(rest) && m == #[trigger] escaped_tag(slash, tags[i], rest);
        let t = tags[i];
        let lt = seq!['&', 'l', 't', ';'];
        let gt = seq!['&', 'g', 't', ';'];
        let y = slash + t + rest;
        assert(!t.contains('&')) by {
            if t.contains('&') {
                let j = choose|j: int| 0 <= j < t.len() && t[j] == '&';
                assert(is_word_char(tags[i][j]));
            }
        }
        assert(!slash.contains('&')) by {
            if slash.contains('&') {
                let j = choose|j: int| 0 <= j < slash.len() && slash[j] == '&';
            }
        }
        assert(!(slash + t).contains('&')) by {
            if (slash + t).contains('&') {
                let j = choose|j: int| 0 <= j < (slash + t).len() && (slash + t)[j] == '&';
                if j < slash.len() {
                    assert(slash[j] == '&');
                } else {
                    assert(t[j - slash.len()] == '&');
                }
            }
        }
        assert(!y.contains('&')) by {
            if y.contains('&') {
                let j = choose|j: int| 0 <= j < y.len() && y[j] == '&';
                if j < (slash + t).len() {
                    assert((slash + t)[j] == '&');
                } else {
                    assert(rest[j - (slash + t).len()] == '&');
                }
            }
        }
        lemma_unescape_wrapped(y);
        assert(m == lt + y + gt);
        lemma_concat_lacks(lt + y, gt, '<');
        lemma_concat_lacks(lt, y, '<');
        lemma_concat_lacks(slash + t, rest, '<');
        lemma_concat_lacks(lt + y, gt, '>');
        lemma_concat_lacks(lt, y, '>');
        lemma_concat_lacks(slash + t, rest, '>');
        assert(unescaped_each(found)[k] == restored_tag(slash, t, rest));
    }
}

/// The tags of the default rules are made of letters and digits.
pub proof fn lemma_default_word_tags()
    ensures
        word_tags(default_tags()),
{
    reveal_strlit("div");
    reveal_strlit("p");
    reveal_strlit("details");
    reveal_strlit("summary");
    reveal_strlit("q");
    reveal_strlit("h1");
    reveal_strlit("h2");
    reveal_strlit("h3");
    reveal_strlit("h4");
    reveal_strlit("h5");
    reveal_strlit("h6");
    reveal_strlit("br");
    reveal_strlit("var");
    reveal_strlit("i");
    reveal_strlit("hr");
    reveal_strlit("b");
    reveal_strlit("strong");
    reveal_strlit("em");
    reveal_strlit("del");
    reveal_strlit("s");
    reveal_strlit("strike");
    reveal_strlit("a");
    reveal_strlit("img");
    reveal_strlit("pre");
    reveal_strlit("code");
    reveal_strlit("blockquote");
    reveal_strlit("figure");
    reveal_strlit("figcaption");
    let t = default_tags();
    assert forall|i: int| 0 <= i < t.len() implies #[trigger] t[i].len() > 0 && (forall|j: int|
        0 <= j < t[i].len() ==> is_word_char(#[trigger] t[i][j])) by {
        if i == 0 {
            assert(t[0] == "div"@);
        } else if i == 1 {
            assert(t[1] == "p"@);
        } else if i == 2 {
            assert(t[2] == "details"@);
        } else if i == 3 {
            assert(t[3] == "summary"@);
        } else if i == 4 {
            assert(t[4] == "q"@);
        } else if i == 5 {
            assert(t[5] == "h1"@);
        } else if i == 6 {
            assert(t[6] == "h2"@);
        } else if i == 7 {
            assert(t[7] == "h3"@);
        } else if i == 8 {
            assert(t[8] == "h4"@);
        } else if i == 9 {
            assert(t[9] == "h5"@);
        } else if i == 10 {
            assert(t[10] == "h6"@);
        } else if i == 11 {
            assert(t[11] == "br"@);
        } else if i == 12 {
            assert(t[12] == "var"@);
        } else if i == 13 {
            assert(t[13] == "i"@);
        } else if i == 14 {
            assert(t[14] == "hr"@);
        } else if i == 15 {
            assert(t[15] == "b"@);
        } else if i == 16 {
            assert(t[16] == "strong"@);
        } else if i == 17 {
            assert(t[17] == "em"@);
        } else if i == 18 {
            assert(t[18] == "del"@);
        } else if i == 19 {
            assert(t[19] == "s"@);
        } else if i == 20 {
            assert(t[20] == "strike"@);
        } else if i == 21 {
            assert(t[21] == "a"@);
        } else if i == 22 {
            assert(t[22] == "img"@);
        } else if i == 23 {
            assert(t[23] == "pre"@);
        } else if i == 24 {
            assert(t[24] == "code"@);
        } else if i == 25 {
            assert(t[25] == "blockquote"@);
        } else if i == 26 {
            assert(t[26] == "figure"@);
        } else if i == 27 {
            assert(t[27] == "figcaption"@);
        }
    }
}


/// The `k`-th default entry's rule is the one the default rules give its tag.
proof fn lemma_default_rule_at(k: int)
    requires
        0 <= k < default_entries().len(),
    ensures
        default_rules().contains_key(default_entries()[k].0),
        default_rules()[default_entries()[k].0] == default_entries()[k].1,
{
    lemma_default_rules_distinct();
    lemma_rules_map_distinct(default_entries());
    assert(rules_map(default_entries()).contains_key(default_entries()[k].0));
}

/// The element with this name, attributes and children.
pub open spec fn element(name: Seq<char>, attrs: Seq<AttrView>, children: Seq<NodeView>) -> NodeView {
    NodeView::Element(ElementView { name, attrs, children })
}

/// Under the default rules a `p` renders exactly as a `div` with the same attributes and
/// children: the tag plays no part. Its content is its children as paragraphs; when that
/// is not empty and `align`, trimmed and lowercased, is `center`, the content stands
/// between the centering markers, and otherwise it stands alone.
pub proof fn lemma_paragraph_renders_as_division(attrs: Seq<AttrView>, children: Seq<NodeView>)
    ensures
        rendered(element("p"@, attrs, children), default_rules()) == rendered(
            element("div"@, attrs, children),
            default_rules(),
        ),
        ({
            let c = collected(children, default_rules(), "\n\n"@);
            let centred = attr_value(attrs, "align"@) matches Some(a) && lowercase(trim(a))
                == "center"@;
            &&& c.len() > 0 && centred ==> rendered(element("p"@, attrs, children), default_rules())
                == "<!--CENTER_ON-->\n\n"@ + c + "\n\n<!--CENTER_OFF-->"@
            &&& !(c.len() > 0 && centred) ==> rendered(element("p"@, attrs, children), default_rules())
                == c
        }),
{
    lemma_default_rule_at(0);
    lemma_default_rule_at(1);
    assert(default_entries()[0] == ("div"@, Rule::Block));
    assert(default_entries()[1] == ("p"@, Rule::Block));
}

/// Under the default rules the heading `h1` to `h6` of level `n` renders as `n` times
/// `#`, a space, then its children run together and trimmed; so each level adds one `#`
/// to the one before.
pub proof fn lemma_heading_levels(attrs: Seq<AttrView>, children: Seq<NodeView>)
    ensures
        ({
            let x = trim(collected(children, default_rules(), Seq::empty()));
            &&& rendered(element("h1"@, attrs, children), default_rules()) == seq!['#', ' '] + x
            &&& rendered(element("h2"@, attrs, children), default_rules()) == seq!['#', '#', ' ']
                + x
            &&& rendered(element("h3"@, attrs, children), default_rules()) == seq![
                '#',
                '#',
                '#',
                ' ',
            ] + x
            &&& rendered(element("h4"@, attrs, children), default_rules()) == seq![
                '#',
                '#',
                '#',
                '#',
                ' ',
            ] + x
            &&& rendered(element("h5"@, attrs, children), default_rules()) == seq![
                '#',
                '#',
                '#',
                '#',
                '#',
                ' ',
            ] + x
            &&& rendered(element("h6"@, attrs, children), default_rules()) == seq![
                '#',
                '#',
                '#',
                '#',
                '#',
                '#',
                ' ',
            ] + x
            &&& forall|n: int|
                5 <= n < 10 ==> rendered(element(#[trigger] default_entries()[n + 1].0, attrs, children), default_rules())
                    == seq!['#'] + rendered(
                    element(default_entries()[n].0, attrs, children),
                    default_rules(),
                )
        }),
{
    let x = trim(collected(children, default_rules(), Seq::empty()));
    reveal_strlit(" ");
    let d = default_entries();
    assert forall|n: int| 5 <= n <= 10 implies default_rules().contains_key(#[trigger] d[n].0)
        && default_rules()[d[n].0] == Rule::Heading((n - 4) as u8) && rendered(
        element(d[n].0, attrs, children),
        default_rules(),
    ) == repeat_char('#', (n - 4) as nat) + " "@ + x by {
        lemma_default_rule_at(n);
        if n == 5 {} else if n == 6 {} else if n == 7 {} else if n == 8 {} else if n == 9 {} else {}
    }
    assert(d[5].0 == "h1"@ && d[6].0 == "h2"@ && d[7].0 == "h3"@ && d[8].0 == "h4"@ && d[9].0
        == "h5"@ && d[10].0 == "h6"@);
    assert(repeat_char('#', 1) + " "@ =~= seq!['#', ' ']);
    assert(repeat_char('#', 2) + " "@ =~= seq!['#', '#', ' ']);
    assert(repeat_char('#', 3) + " "@ =~= seq!['#', '#', '#', ' ']);
    assert(repeat_char('#', 4) + " "@ =~= seq!['#', '#', '#', '#', ' ']);
    assert(repeat_char('#', 5) + " "@ =~= seq!['#', '#', '#', '#', '#', ' ']);
    assert(repeat_char('#', 6) + " "@ =~= seq!['#', '#', '#', '#', '#', '#', ' ']);
    assert forall|n: int| 5 <= n < 10 implies rendered(
        element(#[trigger] d[n + 1].0, attrs, children),
        default_rules(),
    ) == seq!['#'] + rendered(element(d[n].0, attrs, children), default_rules()) by {
        assert(repeat_char('#', (n + 1 - 4) as nat) + " "@ + x =~= seq!['#'] + (repeat_char(
            '#',
            (n - 4) as nat,
        ) + " "@ + x));
    }
}

/// Under the default rules an `img` renders as `![`, its `alt` attribute whenever it has
/// one, the empty value included, and `IMG` only when it has none, then `](`, its target
/// and `)`.
pub proof fn lemma_image_alt(attrs: Seq<AttrView>, children: Seq<NodeView>)
    ensures
        ({
            let r = rendered(element("img"@, attrs, children), default_rules());
            &&& attr_value(attrs, "alt"@) matches Some(v) ==> r == "!["@ + v + "]("@
                + image_target(attrs) + ")"@
            &&& attr_value(attrs, "alt"@) is None ==> r == "!["@ + "IMG"@ + "]("@ + image_target(
                attrs,
            ) + ")"@
        }),
{
    lemma_default_rule_at(22);
    assert(default_entries()[22] == ("img"@, Rule::Image));
}

/// Under the default rules emphasis, strong text and strikethrough wrap the same inline
/// content, the children run together with no separator and trimmed: `*x*` for `i`, `em`
/// and `var`, `**x**` for `b` and `strong`, `~~x~~` for `del`, `s` and `strike`.
pub proof fn lemma_inline_formatting(attrs: Seq<AttrView>, children: Seq<NodeView>)
    ensures
        ({
            let x = trim(collected(children, default_rules(), Seq::empty()));
            &&& rendered(element("i"@, attrs, children), default_rules()) == "*"@ + x + "*"@
            &&& rendered(element("em"@, attrs, children), default_rules()) == "*"@ + x + "*"@
            &&& rendered(element("var"@, attrs, children), default_rules()) == "*"@ + x + "*"@
            &&& rendered(element("b"@, attrs, children), default_rules()) == "**"@ + x + "**"@
            &&& rendered(element("strong"@, attrs, children), default_rules()) == "**"@ + x
                + "**"@
            &&& rendered(element("del"@, attrs, children), default_rules()) == "~~"@ + x + "~~"@
            &&& rendered(element("s"@, attrs, children), default_rules()) == "~~"@ + x + "~~"@
            &&& rendered(element("strike"@, attrs, children), default_rules()) == "~~"@ + x
                + "~~"@
        }),
{
    let d = default_entries();
    lemma_default_rule_at(12);
    lemma_default_rule_at(13);
    lemma_default_rule_at(15);
    lemma_default_rule_at(16);
    lemma_default_rule_at(17);
    lemma_default_rule_at(18);
    lemma_default_rule_at(19);
    lemma_default_rule_at(20);
    assert(d[12] == ("var"@, Rule::Emphasis) && d[13] == ("i"@, Rule::Emphasis) && d[17] == (
        "em"@,
        Rule::Emphasis,
    ));
    assert(d[15] == ("b"@, Rule::Strong) && d[16] == ("strong"@, Rule::Strong));
    assert(d[18] == ("del"@, Rule::Strikethrough) && d[19] == ("s"@, Rule::Strikethrough)
        && d[20] == ("strike"@, Rule::Strikethrough));
}


/// An escaped tag of word tags starts with `&` and holds no `<`.
proof fn lemma_plain_escaped_tag_shape(m: Seq<char>, tags: Seq<Seq<char>>)
    requires
        is_plain_escaped_tag(m, tags),
        word_tags(tags),
    ensures
        m.len() > 0,
        m[0] == '&',
        !m.contains('<'),
{
    let (i, slash, rest) = choose|i: int, slash: Seq<char>, rest: Seq<char>|
        0 <= i < tags.len() && (slash == Seq::<char>::empty() || slash == seq!['/']) && (rest.len()
            == 0 || ((rest[0] as int) < 128 && !is_boundary_word_char(rest[0]))) && !rest.contains(
            '&',
        ) && !rest.contains('<') && !rest.contains('>') && m == #[trigger] escaped_tag(
            slash,
            tags[i],
            rest,
        );
    let t = tags[i];
    let lt = seq!['&', 'l', 't', ';'];
    let gt = seq!['&', 'g', 't', ';'];
    let y = slash + t + rest;
    assert(m == lt + y + gt);
    assert(m[0] == '&');
    if m.contains('<') {
        let j = choose|j: int| 0 <= j < m.len() && m[j] == '<';
        if j < 4 {
            assert(m[j] == lt[j]);
        } else if j < 4 + slash.len() {
            assert(m[j] == slash[j - 4]);
        } else if j < 4 + slash.len() + t.len() {
            assert(m[j] == t[j - 4 - slash.len()]);
            assert(is_word_char(tags[i][j - 4 - slash.len()]));
        } else if j < 4 + y.len() {
            assert(m[j] == rest[j - 4 - slash.len() - t.len()]);
        } else {
            assert(m[j] == gt[j - 4 - y.len()]);
        }
    }
}

/// A restored tag of word tags starts with `<` and holds no `&`.
proof fn lemma_restored_tag_shape(m: Seq<char>, tags: Seq<Seq<char>>)
    requires
        is_restored_tag(m, tags),
        word_tags(tags),
    ensures
        m.len() > 0,
        m[0] == '<',
        !m.contains('&'),
{
    let (i, slash, rest) = choose|i: int, slash: Seq<char>, rest: Seq<char>|
        0 <= i < tags.len() && (slash == Seq::<char>::empty() || slash == seq!['/'])
            && ends_tag_word(rest) && !rest.contains('<') && !rest.contains('>') && m
            == #[trigger] restored_tag(slash, tags[i], rest);
    let t = tags[i];
    let y = slash + t + rest;
    assert(m == seq!['<'] + y + seq!['>']);
    assert(m[0] == '<');
    if m.contains('&') {
        let j = choose|j: int| 0 <= j < m.len() && m[j] == '&';
        if j == 0 {
        } else if j < 1 + slash.len() {
            assert(m[j] == slash[j - 1]);
        } else if j < 1 + slash.len() + t.len() {
            assert(m[j] == t[j - 1 - slash.len()]);
            assert(is_word_char(tags[i][j - 1 - slash.len()]));
        } else if j < 1 + y.len() {
            assert(m[j] == rest[j - 1 - slash.len() - t.len()]);
        } else {
            assert(m[j] == '>');
        }
    }
}

/// No escaped tag lies in text put together from parts that hold none and pieces that
/// start with `<` and hold no `&`.
proof fn lemma_no_plain_tag_in_interleave(
    gaps: Seq<Seq<char>>,
    pieces: Seq<Seq<char>>,
    tags: Seq<Seq<char>>,
)
    requires
        gaps.len() == pieces.len() + 1,
        word_tags(tags),
        forall|k: int, a: int, b: int|
            0 <= k < gaps.len() && 0 <= a <= b <= gaps[k].len() ==> !is_plain_escaped_tag(
                #[trigger] gaps[k].subrange(a, b),
                tags,
            ),
        forall|k: int|
            0 <= k < pieces.len() ==> (#[trigger] pieces[k]).len() > 0 && pieces[k][0] == '<'
                && !pieces[k].contains('&'),
    ensures
        forall|a: int, b: int|
            0 <= a <= b <= interleave(gaps, pieces).len() ==> !is_plain_escaped_tag(
                #[trigger] interleave(gaps, pieces).subrange(a, b),
                tags,
            ),
    decreases pieces.len(),
{
    let s = interleave(gaps, pieces);
    if pieces.len() == 0 {
        assert forall|a: int, b: int| 0 <= a <= b <= s.len() implies !is_plain_escaped_tag(
            #[trigger] s.subrange(a, b),
            tags,
        ) by {
            assert(s.subrange(a, b) == gaps[0].subrange(a, b));
        }
    } else {
        let g0 = gaps.drop_last();
        let p0 = pieces.drop_last();
        assert forall|k: int, a: int, b: int|
            0 <= k < g0.len() && 0 <= a <= b <= g0[k].len() implies !is_plain_escaped_tag(
            #[trigger] g0[k].subrange(a, b),
            tags,
        ) by {
            assert(g0[k] == gaps[k]);
            assert(!is_plain_escaped_tag(gaps[k].subrange(a, b), tags));
        }
        assert forall|k: int| 0 <= k < p0.len() implies (#[trigger] p0[k]).len() > 0 && p0[k][0]
            == '<' && !p0[k].contains('&') by {
            assert(p0[k] == pieces[k]);
        }
        lemma_no_plain_tag_in_interleave(g0, p0, tags);
        let x = interleave(g0, p0);
        let y = pieces.last();
        let z = gaps.last();
        assert(y == pieces[pieces.len() - 1]);
        assert(z == gaps[gaps.len() - 1]);
        assert(s == x + y + z);
        assert forall|a: int, b: int| 0 <= a <= b <= s.len() implies !is_plain_escaped_tag(
            #[trigger] s.subrange(a, b),
            tags,
        ) by {
            let m = s.subrange(a, b);
            if is_plain_escaped_tag(m, tags) {
                lemma_plain_escaped_tag_shape(m, tags);
                if b <= x.len() {
                    assert(m =~= x.subrange(a, b));
                } else if a <= x.len() {
                    assert(s[x.len() as int] == y[0]);
                    assert(m[x.len() - a] == '<');
                } else if a < x.len() + y.len() {
                    assert(m[0] == y[a - x.len()]);
                    assert(y.contains(y[a - x.len()]));
                } else {
                    assert(m =~= z.subrange(a - x.len() - y.len(), b - x.len() - y.len()));
                    assert(!is_plain_escaped_tag(
                        gaps[gaps.len() - 1].subrange(a - x.len() - y.len(), b - x.len() - y.len()),
                        tags,
                    ));
                }
            }
        }
    }
}

/// Every start and end tag of a known element is restored: when the regex engine leaves
/// no escaped tag of `tags` between its matches, and every match is one, the result of
/// `escape_unknown_elements` holds no escaped start or end tag of those tags anywhere (as
/// far as the word boundary surely holds after the tag).
pub proof fn lemma_no_known_tag_left_escaped(
    tags: Seq<Seq<char>>,
    markdown: Seq<char>,
    gaps: Seq<Seq<char>>,
    found: Seq<Seq<char>>,
)
    requires
        gaps.len() == found.len() + 1,
        interleave(gaps, found) == escape_angles(markdown),
        word_tags(tags),
        forall|k: int| 0 <= k < found.len() ==> is_escaped_tag(#[trigger] found[k], tags),
        forall|k: int, a: int, b: int|
            0 <= k < gaps.len() && 0 <= a <= b <= gaps[k].len() ==> !is_plain_escaped_tag(
                #[trigger] gaps[k].subrange(a, b),
                tags,
            ),
    ensures
        forall|a: int, b: int|
            0 <= a <= b <= interleave(gaps, unescaped_each(found)).len() ==> !is_plain_escaped_tag(
                #[trigger] interleave(gaps, unescaped_each(found)).subrange(a, b),
                tags,
            ),
{
    lemma_only_known_tags_restored(tags, markdown, gaps, found);
    let u = unescaped_each(found);
    assert forall|k: int| 0 <= k < u.len() implies (#[trigger] u[k]).len() > 0 && u[k][0] == '<'
        && !u[k].contains('&') by {
        lemma_restored_tag_shape(u[k], tags);
    }
    lemma_no_plain_tag_in_interleave(gaps, u, tags);
}


/// Under the default rules an `img` points at its `src` (empty when it has none), with
/// `#WxH`, `#Wx` or `#xH` after it for the width and height it has.
pub proof fn lemma_image_target(attrs: Seq<AttrView>, children: Seq<NodeView>)
    ensures
        ({
            let r = rendered(element("img"@, attrs, children), default_rules());
            let alt = match attr_value(attrs, "alt"@) {
                Some(v) => v,
                None => "IMG"@,
            };
            let src = match attr_value(attrs, "src"@) {
                Some(v) => v,
                None => Seq::empty(),
            };
            let w = attr_value(attrs, "width"@);
            let h = attr_value(attrs, "height"@);
            &&& w is Some && h is Some ==> r == "!["@ + alt + "]("@ + (src + "#"@ + w->0 + "x"@
                + h->0) + ")"@
            &&& w is Some && h is None ==> r == "!["@ + alt + "]("@ + (src + "#"@ + w->0 + "x"@)
                + ")"@
            &&& w is None && h is Some ==> r == "!["@ + alt + "]("@ + (src + "#x"@ + h->0) + ")"@
            &&& w is None && h is None
                ==> r == "!["@ + alt + "]("@ + src + ")"@
        }),
{
    lemma_default_rule_at(22);
    assert(default_entries()[22] == ("img"@, Rule::Image));
}

/// Under the default rules: `pre` fences its children, run together, as a code block;
/// `code` puts them between backquotes; `q` between double quotes; `a` with an `href`
/// is a link to the trimmed `href` with the trimmed children as text, and without one
/// just the children; `summary` is a disclosure triangle, a space and the trimmed
/// children; `figure` is the children as paragraphs and `figcaption` the children run
/// together.
pub proof fn lemma_other_elements(attrs: Seq<AttrView>, children: Seq<NodeView>)
    ensures
        ({
            let inline = collected(children, default_rules(), Seq::empty());
            let paragraphs = collected(children, default_rules(), "\n\n"@);
            &&& rendered(element("pre"@, attrs, children), default_rules()) == "```\n"@ + inline
                + "\n```"@
            &&& rendered(element("code"@, attrs, children), default_rules()) == "`"@ + inline
                + "`"@
            &&& rendered(element("q"@, attrs, children), default_rules()) == "\""@ + inline
                + "\""@
            &&& attr_value(attrs, "href"@) matches Some(h) ==> rendered(
                element("a"@, attrs, children),
                default_rules(),
            ) == "["@ + trim(inline) + "]("@ + trim(h) + ")"@
            &&& attr_value(attrs, "href"@) is None ==> rendered(
                element("a"@, attrs, children),
                default_rules(),
            ) == inline
            &&& rendered(element("summary"@, attrs, children), default_rules()) == "\u{25bc} "@
                + trim(inline)
            &&& rendered(element("figure"@, attrs, children), default_rules()) == paragraphs
            &&& rendered(element("figcaption"@, attrs, children), default_rules()) == inline
            &&& rendered(element("blockquote"@, attrs, children), default_rules()) == quote_lines(
                paragraphs,
            )
            &&& rendered(element("details"@, attrs, children), default_rules()) == quote_lines(
                paragraphs,
            )
        }),
{
    let d = default_entries();
    lemma_default_rule_at(2);
    lemma_default_rule_at(3);
    lemma_default_rule_at(4);
    lemma_default_rule_at(21);
    lemma_default_rule_at(23);
    lemma_default_rule_at(24);
    lemma_default_rule_at(25);
    lemma_default_rule_at(26);
    lemma_default_rule_at(27);
    assert(d[2] == ("details"@, Rule::Blockquote) && d[3] == ("summary"@, Rule::Summary) && d[4]
        == ("q"@, Rule::InlineQuote));
    assert(d[21] == ("a"@, Rule::Link) && d[23] == ("pre"@, Rule::CodeBlock) && d[24] == (
        "code"@,
        Rule::InlineCode,
    ));
    assert(d[25] == ("blockquote"@, Rule::Blockquote) && d[26] == ("figure"@, Rule::Paragraphs)
        && d[27] == ("figcaption"@, Rule::Inline));
}


/// Collecting renders each child, trims it and leaves it out when empty: one child gives
/// its trimmed rendering, and a further child with a non-empty trimmed rendering is added
/// after the separator. A text node renders as its text.
pub proof fn lemma_collect_children(
    n1: NodeView,
    n2: NodeView,
    rules: Map<Seq<char>, Rule>,
    sep: Seq<char>,
)
    ensures
        forall|t: Seq<char>| #[trigger] rendered(NodeView::Text(t), rules) == t,
        collected(seq![n1], rules, sep) == trim(rendered(n1, rules)),
        trim(rendered(n1, rules)).len() > 0 && trim(rendered(n2, rules)).len() > 0 ==> collected(
            seq![n1, n2],
            rules,
            sep,
        ) == trim(rendered(n1, rules)) + sep + trim(rendered(n2, rules)),
        trim(rendered(n2, rules)).len() == 0 ==> collected(seq![n1, n2], rules, sep) == collected(
            seq![n1],
            rules,
            sep,
        ),
{
    let one = seq![n1];
    let two = seq![n1, n2];
    assert(one.subrange(0, 0) =~= Seq::<NodeView>::empty());
    assert(two.subrange(0, 1) =~= one);
    assert(pieces(Seq::<NodeView>::empty(), rules) =~= Seq::<Seq<char>>::empty());
    let p1 = trim(rendered(n1, rules));
    if p1.len() > 0 {
        assert(pieces(one, rules) =~= seq![p1]);
    } else {
        assert(pieces(one, rules) =~= Seq::<Seq<char>>::empty());
        assert(p1 =~= Seq::<char>::empty());
    }
    let p2 = trim(rendered(n2, rules));
    if p1.len() > 0 && p2.len() > 0 {
        assert(pieces(two, rules) =~= seq![p1, p2]);
        assert(seq![p1, p2].drop_last() =~= seq![p1]);
    }
}

/// Under the default rules an element without a rule renders as its children run
/// together, whatever its name and attributes.
pub proof fn lemma_unknown_element(name: Seq<char>, attrs: Seq<AttrView>, children: Seq<NodeView>)
    requires
        !default_tags().contains(name),
    ensures
        rendered(element(name, attrs, children), default_rules()) == collected(
            children,
            default_rules(),
            Seq::empty(),
        ),
{
    lemma_default_rules_distinct();
    lemma_rules_map_distinct(default_entries());
    if default_rules().contains_key(name) {
        let i = choose|i: int| 0 <= i < default_entries().len() && default_entries()[i].0 == name;
        assert(default_tags()[i] == name);
    }
}

} // verus!
