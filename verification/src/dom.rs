//! A plain model of an HTML fragment: elements with attributes and children, and text.
//! The fragment is read from the traversal that the HTML parser gives of it, a stream
//! of open, close and text tokens, and rebuilt here into a tree.

use ego_tree::iter::Edge;
use scraper::Node;
use vstd::prelude::*;

verus! {

/// An attribute of an element: its namespace (empty for plain HTML attributes), its
/// local name and its value.
pub struct Attribute {
    pub namespace: String,
    pub name: String,
    pub value: String,
}

/// An HTML element with its attributes and its children in document order.
pub struct HtmlElement {
    pub name: String,
    pub attrs: Vec<Attribute>,
    pub children: Vec<HtmlNode>,
}

/// A node of the fragment that the preprocessor reads: an element or a run of text.
pub enum HtmlNode {
    Element(HtmlElement),
    Text(String),
}

/// One step of a depth-first traversal of a fragment: an element opens, an element
/// closes, a run of text, or any other step (comments, doctypes, the closing of a
/// non-element node).
pub enum HtmlToken {
    Open(String, Vec<Attribute>),
    Close,
    Text(String),
    Other,
}

/// The value of an attribute.
pub struct AttrView {
    pub namespace: Seq<char>,
    pub name: Seq<char>,
    pub value: Seq<char>,
}

/// The value of an element.
pub struct ElementView {
    pub name: Seq<char>,
    pub attrs: Seq<AttrView>,
    pub children: Seq<NodeView>,
}

/// The value of a node.
pub enum NodeView {
    Element(ElementView),
    Text(Seq<char>),
}

/// The value of a traversal step.
pub enum TokenView {
    Open(Seq<char>, Seq<AttrView>),
    Close,
    Text(Seq<char>),
    Other,
}

impl View for Attribute {
    type V = AttrView;

    open spec fn view(&self) -> AttrView {
        AttrView { namespace: self.namespace@, name: self.name@, value: self.value@ }
    }
}

/// The values of a sequence of attributes.
pub open spec fn attrs_view(attrs: Seq<Attribute>) -> Seq<AttrView> {
    attrs.map_values(|a: Attribute| a@)
}

/// The value of a node.
pub open spec fn node_view(n: HtmlNode) -> NodeView
    decreases n, 1int,
{
    match n {
        HtmlNode::Element(e) => NodeView::Element(element_view(e)),
        HtmlNode::Text(t) => NodeView::Text(t@),
    }
}

/// The value of an element.
pub open spec fn element_view(e: HtmlElement) -> ElementView
    decreases e, 0int,
{
    ElementView { name: e.name@, attrs: attrs_view(e.attrs@), children: nodes_view(e.children@) }
}

/// The values of a sequence of nodes.
pub open spec fn nodes_view(ns: Seq<HtmlNode>) -> Seq<NodeView>
    decreases ns, 0int,
{
    if ns.len() == 0 {
        Seq::empty()
    } else {
        nodes_view(ns.subrange(0, ns.len() - 1)).push(node_view(ns[ns.len() - 1]))
    }
}

impl View for HtmlNode {
    type V = NodeView;

    open spec fn view(&self) -> NodeView {
        node_view(*self)
    }
}

impl View for HtmlElement {
    type V = ElementView;

    open spec fn view(&self) -> ElementView {
        element_view(*self)
    }
}

impl View for HtmlToken {
    type V = TokenView;

    open spec fn view(&self) -> TokenView {
        match self {
            HtmlToken::Open(name, attrs) => TokenView::Open(name@, attrs_view(attrs@)),
            HtmlToken::Close => TokenView::Close,
            HtmlToken::Text(t) => TokenView::Text(t@),
            HtmlToken::Other => TokenView::Other,
        }
    }
}

/// The values of a sequence of tokens.
pub open spec fn tokens_view(ts: Seq<HtmlToken>) -> Seq<TokenView> {
    ts.map_values(|t: HtmlToken| t@)
}

/// `nodes_view` has one value per node, in order.
pub proof fn lemma_nodes_view(ns: Seq<HtmlNode>)
    ensures
        nodes_view(ns).len() == ns.len(),
        forall|i: int| 0 <= i < ns.len() ==> #[trigger] nodes_view(ns)[i] == node_view(ns[i]),
    decreases ns.len(),
{
    if ns.len() > 0 {
        lemma_nodes_view(ns.subrange(0, ns.len() - 1));
    }
}


/// The values of a sequence of elements.
pub open spec fn elements_view(es: Seq<HtmlElement>) -> Seq<ElementView> {
    es.map_values(|e: HtmlElement| element_view(e))
}

/// The frame below every open element: it gathers the top-level nodes.
pub open spec fn root_frame() -> ElementView {
    ElementView { name: Seq::empty(), attrs: Seq::empty(), children: Seq::empty() }
}

/// `e` with `n` added as its last child.
pub open spec fn add_child(e: ElementView, n: NodeView) -> ElementView {
    ElementView { name: e.name, attrs: e.attrs, children: e.children.push(n) }
}

/// The stack of open elements after the top one closes: it becomes the last child of
/// the element below it.
pub open spec fn close_top(stack: Seq<ElementView>) -> Seq<ElementView> {
    let rest = stack.drop_last();
    rest.update(rest.len() - 1, add_child(rest.last(), NodeView::Element(stack.last())))
}

/// The stack of open elements after one traversal step. A close with no open element
/// and the other steps change nothing.
pub open spec fn step(stack: Seq<ElementView>, tok: TokenView) -> Seq<ElementView> {
    match tok {
        TokenView::Open(name, attrs) => stack.push(
            ElementView { name: name, attrs: attrs, children: Seq::empty() },
        ),
        TokenView::Close => if stack.len() >= 2 {
            close_top(stack)
        } else {
            stack
        },
        TokenView::Text(t) => stack.update(
            stack.len() - 1,
            add_child(stack.last(), NodeView::Text(t)),
        ),
        TokenView::Other => stack,
    }
}

/// The stack of open elements after the steps `toks`, from `stack`.
pub open spec fn run(stack: Seq<ElementView>, toks: Seq<TokenView>) -> Seq<ElementView>
    decreases toks.len(),
{
    if toks.len() == 0 {
        stack
    } else {
        step(run(stack, toks.drop_last()), toks.last())
    }
}

/// The top-level nodes once every element still open is closed.
pub open spec fn close_all(stack: Seq<ElementView>) -> Seq<NodeView>
    decreases stack.len(),
{
    if stack.len() <= 1 {
        stack[0].children
    } else {
        close_all(close_top(stack))
    }
}

/// The nodes that a traversal describes. Elements left open at the end are closed there.
pub open spec fn build_forest(toks: Seq<TokenView>) -> Seq<NodeView> {
    close_all(run(seq![root_frame()], toks))
}

/// Closes the top element of `stack` into the one below it.
fn close_top_exec(stack: &mut Vec<HtmlElement>)
    requires
        old(stack)@.len() >= 2,
    ensures
        elements_view(final(stack)@) == close_top(elements_view(old(stack)@)),
        final(stack)@.len() == old(stack)@.len() - 1,
{
    let ghost before = elements_view(stack@);
    let top = stack.pop().unwrap();
    let mut parent = stack.pop().unwrap();
    let ghost pc = parent.children@;
    parent.children.push(HtmlNode::Element(top));
    assert(parent.children@.subrange(0, parent.children@.len() - 1) =~= pc);
    assert(element_view(parent) == add_child(before[before.len() - 2], NodeView::Element(before.last())));
    stack.push(parent);
    assert(elements_view(stack@) =~= close_top(before));
}

/// Rebuilds the nodes that a traversal describes.
pub fn build_fragment(tokens: Vec<HtmlToken>) -> (r: Vec<HtmlNode>)
    ensures
        nodes_view(r@) == build_forest(tokens_view(tokens@)),
{
    let ghost toks = tokens_view(tokens@);
    let mut stack: Vec<HtmlElement> = Vec::new();
    let root = HtmlElement { name: String::new(), attrs: Vec::new(), children: Vec::new() };
    assert(attrs_view(root.attrs@) =~= Seq::<AttrView>::empty());
    assert(element_view(root) == root_frame());
    stack.push(root);
    assert(elements_view(stack@) =~= seq![root_frame()]);
    assert(toks.take(0) =~= Seq::<TokenView>::empty());
    for tok in it: tokens.into_iter()
        invariant
            it.seq() == tokens@,
            toks == tokens_view(tokens@),
            stack@.len() >= 1,
            elements_view(stack@) == run(seq![root_frame()], toks.take(it.index() as int)),
    {
        let ghost i = it.index() as int;
        let ghost before = elements_view(stack@);
        assert(toks.take(i + 1).drop_last() =~= toks.take(i));
        assert(toks.take(i + 1).last() == tok@);
        match tok {
            HtmlToken::Open(name, attrs) => {
                let e = HtmlElement { name, attrs, children: Vec::new() };
                assert(nodes_view(e.children@) =~= Seq::<NodeView>::empty());
                stack.push(e);
                assert(elements_view(stack@) =~= step(before, toks[i]));
            },
            HtmlToken::Close => {
                if stack.len() >= 2 {
                    close_top_exec(&mut stack);
                }
            },
            HtmlToken::Text(t) => {
                let mut top = stack.pop().unwrap();
                let ghost tc = top.children@;
                top.children.push(HtmlNode::Text(t));
                assert(top.children@.subrange(0, top.children@.len() - 1) =~= tc);
                stack.push(top);
                assert(elements_view(stack@) =~= step(before, toks[i]));
            },
            HtmlToken::Other => {},
        }
    }
    assert(toks.take(toks.len() as int) =~= toks);
    while stack.len() > 1
        invariant
            stack@.len() >= 1,
            close_all(elements_view(stack@)) == build_forest(toks),
        decreases stack@.len(),
    {
        close_top_exec(&mut stack);
    }
    let root = stack.pop().unwrap();
    root.children
}


/// The depth-first traversal of a node: an element opens, its children follow, and it
/// closes; a text node is one step.
pub open spec fn node_tokens(n: NodeView) -> Seq<TokenView>
    decreases n, 1int,
{
    match n {
        NodeView::Element(e) => seq![TokenView::Open(e.name, e.attrs)] + forest_tokens(e.children)
            + seq![TokenView::Close],
        NodeView::Text(t) => seq![TokenView::Text(t)],
    }
}

/// The traversal of a sequence of nodes, one after the other.
pub open spec fn forest_tokens(ns: Seq<NodeView>) -> Seq<TokenView>
    decreases ns, 0int,
{
    if ns.len() == 0 {
        Seq::empty()
    } else {
        forest_tokens(ns.subrange(0, ns.len() - 1)) + node_tokens(ns[ns.len() - 1])
    }
}

/// `stack` with `ns` added after the children of its top element.
pub open spec fn extend_top(stack: Seq<ElementView>, ns: Seq<NodeView>) -> Seq<ElementView> {
    let top = stack.last();
    stack.update(
        stack.len() - 1,
        ElementView { name: top.name, attrs: top.attrs, children: top.children + ns },
    )
}

/// Running two traversals one after the other is running their concatenation.
proof fn lemma_run_append(st: Seq<ElementView>, a: Seq<TokenView>, b: Seq<TokenView>)
    ensures
        run(st, a + b) == run(run(st, a), b),
    decreases b.len(),
{
    if b.len() == 0 {
        assert(a + b =~= a);
    } else {
        assert((a + b).drop_last() =~= a + b.drop_last());
        assert((a + b).last() == b.last());
        lemma_run_append(st, a, b.drop_last());
    }
}

/// Running the traversal of a node adds the node as the last child of the top element.
proof fn lemma_run_node(st: Seq<ElementView>, n: NodeView)
    requires
        st.len() >= 1,
    ensures
        run(st, node_tokens(n)) == st.update(st.len() - 1, add_child(st.last(), n)),
    decreases n, 1int,
{
    match n {
        NodeView::Element(e) => {
            let open = seq![TokenView::Open(e.name, e.attrs)];
            let close = seq![TokenView::Close];
            let inner = forest_tokens(e.children);
            assert(open.drop_last() =~= Seq::<TokenView>::empty());
            assert(close.drop_last() =~= Seq::<TokenView>::empty());
            let frame = ElementView { name: e.name, attrs: e.attrs, children: Seq::empty() };
            assert(run(st, open.drop_last()) == st);
            assert(open.last() == TokenView::Open(e.name, e.attrs));
            assert(run(st, open) == st.push(frame));
            lemma_run_append(st, open, inner);
            lemma_run_forest(st.push(frame), e.children);
            let st2 = extend_top(st.push(frame), e.children);
            assert(frame.children + e.children =~= e.children);
            assert(st2 =~= st.push(e));
            lemma_run_append(st, open + inner, close);
            assert(node_tokens(n) == open + inner + close);
            assert(run(st2, close.drop_last()) == st2);
            assert(close.last() == TokenView::Close);
            assert(run(st2, close) == close_top(st2));
            assert(close_top(st2) =~= st.update(st.len() - 1, add_child(st.last(), n)));
        },
        NodeView::Text(t) => {
            assert(node_tokens(n).drop_last() =~= Seq::<TokenView>::empty());
            assert(run(st, node_tokens(n).drop_last()) == st);
            assert(node_tokens(n).last() == TokenView::Text(t));
        },
    }
}

/// Running the traversal of a sequence of nodes adds them, in order, after the children
/// of the top element.
proof fn lemma_run_forest(st: Seq<ElementView>, ns: Seq<NodeView>)
    requires
        st.len() >= 1,
    ensures
        run(st, forest_tokens(ns)) == extend_top(st, ns),
    decreases ns, 0int,
{
    if ns.len() == 0 {
        assert(st.last().children + ns =~= st.last().children);
        assert(extend_top(st, ns) =~= st);
    } else {
        let init = ns.subrange(0, ns.len() - 1);
        lemma_run_append(st, forest_tokens(init), node_tokens(ns[ns.len() - 1]));
        lemma_run_forest(st, init);
        lemma_run_node(extend_top(st, init), ns[ns.len() - 1]);
        let c = st.last().children;
        assert((c + init).push(ns[ns.len() - 1]) =~= c + ns);
        let st1 = extend_top(st, init);
        assert(add_child(st1.last(), ns[ns.len() - 1]) == extend_top(st, ns).last());
        assert(st1.update(st1.len() - 1, add_child(st1.last(), ns[ns.len() - 1])) =~= extend_top(st, ns));
    }
}

/// Rebuilding a traversal gives back the nodes that it traverses: the tree that the
/// preprocessor reads is the one that the parser's traversal describes.
pub proof fn lemma_build_forest_inverts_traversal(ns: Seq<NodeView>)
    ensures
        build_forest(forest_tokens(ns)) == ns,
{
    lemma_run_forest(seq![root_frame()], ns);
    assert(root_frame().children + ns =~= ns);
}

/// What `scraper::Html::parse_fragment` builds from a text, read as the depth-first
/// traversal (`NodeRef::traverse`) of each child of the fragment's root `html`
/// element in turn: an element opens and closes, a text node is its text, and every
/// other step is `Other`. It depends on the text alone.
pub uninterp spec fn fragment_traversal(html: Seq<char>) -> Seq<TokenView>;

/// Parses `html` as an HTML fragment with `scraper::Html::parse_fragment` and returns the
/// traversal of the root element's children. Nothing is claimed of the result beyond
/// that it is the traversal that the parser gives, named by `fragment_traversal`.
#[verifier::external_body]
pub(crate) fn parse_fragment_traversal(html: &str) -> (r: Vec<HtmlToken>)
    ensures
        tokens_view(r@) == fragment_traversal(html@),
{
    let doc = scraper::Html::parse_fragment(html);
    doc.root_element().children().flat_map(|child| child.traverse()).map(|step| match step {
        Edge::Open(node) => match node.value() {
            Node::Element(e) => HtmlToken::Open(e.name().to_string(), e.attrs.iter().map(|(q, v)|
                Attribute { namespace: q.ns.to_string(), name: q.local.to_string(), value: v.to_string() }).collect()),
            Node::Text(t) => HtmlToken::Text(t.to_string()),
            _ => HtmlToken::Other,
        },
        Edge::Close(node) => match node.value() {
            Node::Element(_) => HtmlToken::Close,
            _ => HtmlToken::Other,
        },
    }).collect()
}


/// Parses `html` as an HTML fragment and returns its top-level nodes.
pub fn parse_fragment(html: &str) -> (r: Vec<HtmlNode>)
    ensures
        nodes_view(r@) == build_forest(fragment_traversal(html@)),
{
    build_fragment(parse_fragment_traversal(html))
}

} // verus!
