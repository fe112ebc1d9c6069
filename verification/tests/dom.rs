use mcat_core::dom::{build_fragment, parse_fragment, Attribute, HtmlNode, HtmlToken};

fn open(name: &str) -> HtmlToken {
    HtmlToken::Open(name.to_string(), vec![])
}

fn describe(nodes: &[HtmlNode]) -> String {
    nodes
        .iter()
        .map(|n| match n {
            HtmlNode::Text(t) => format!("'{}'", t),
            HtmlNode::Element(e) => format!("{}({})", e.name, describe(&e.children)),
        })
        .collect::<Vec<_>>()
        .join(",")
}

#[test]
fn rebuilds_a_traversal() {
    let tokens = vec![
        open("p"),
        HtmlToken::Text("a".to_string()),
        open("b"),
        HtmlToken::Text("c".to_string()),
        HtmlToken::Close,
        HtmlToken::Close,
        HtmlToken::Other,
        HtmlToken::Text("d".to_string()),
    ];
    assert_eq!(describe(&build_fragment(tokens)), "p('a',b('c')),'d'");
}

#[test]
fn closes_open_elements_and_ignores_stray_closes() {
    let tokens = vec![HtmlToken::Close, open("div"), open("i"), HtmlToken::Text("x".to_string())];
    assert_eq!(describe(&build_fragment(tokens)), "div(i('x'))");
    assert_eq!(describe(&build_fragment(vec![])), "");
}

#[test]
fn parser_traversal_round_trip() {
    let nodes = parse_fragment("<p>a<b>c</b></p><!-- note -->d");
    assert_eq!(describe(&nodes), "p('a',b('c')),'d'");
}

#[test]
fn parser_keeps_attributes() {
    let nodes = parse_fragment("<img src=\"x.png\" ALT=\"y\">");
    assert_eq!(nodes.len(), 1);
    match &nodes[0] {
        HtmlNode::Element(e) => {
            assert_eq!(e.name, "img");
            assert!(e.children.is_empty());
            let pairs: Vec<(String, String)> = e
                .attrs
                .iter()
                .map(|a: &Attribute| (a.name.clone(), a.value.clone()))
                .collect();
            assert!(pairs.contains(&("src".to_string(), "x.png".to_string())));
            assert!(pairs.contains(&("alt".to_string(), "y".to_string())));
            assert!(e.attrs.iter().all(|a| a.namespace.is_empty()));
        }
        _ => panic!("expected an element"),
    }
}
