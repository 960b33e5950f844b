use tl::queryselector::selector::{Combinator, Selector, Simple};
use tl::{parse, HTMLTag, Node, ParserOptions};

fn force_as_tag<'a, 'b>(actual: &'a Node<'b>) -> &'a HTMLTag<'b> {
    match actual {
        Node::Tag(t) => t,
        _ => panic!("Failed to force tag as Node::Tag (got {:?})", actual),
    }
}

fn text(bytes: Vec<u8>) -> String {
    String::from_utf8(bytes).unwrap()
}

#[test]
fn mutate_dom() {
    let input = r#"<img src="test.png" />"#;
    let mut dom = parse(input, ParserOptions::default()).unwrap();

    let handle = {
        let mut selector = dom.query_selector("[src]").unwrap();
        selector.next().unwrap()
    };

    let parser = dom.parser_mut();

    let el = handle.get_mut(parser).unwrap();
    let tag = el.as_tag_mut().unwrap();
    let attr = tag.attributes_mut();
    let bytes = attr.get_mut(b"src").unwrap().as_mut().unwrap();
    bytes.set(b"world.png").unwrap();

    assert_eq!(attr.get(b"src"), Some(Some(&"world.png".into())));
}

#[test]
fn query_selector_simple() {
    let input = "<div><p class=\"hi\">hello</p></div>";
    let dom = parse(input, ParserOptions::default()).unwrap();
    let parser = dom.parser();
    let mut selector = dom.query_selector(".hi").unwrap();
    let el = force_as_tag(selector.next().and_then(|x| x.get(parser)).unwrap());

    assert_eq!(dom.nodes().len(), 3);
    assert_eq!(text(el.inner_text(parser)), "hello");
}

#[test]
fn tag_query_selector() {
    // empty
    let dom = parse("<p></p>", ParserOptions::default()).unwrap();
    let parser = dom.parser();
    let selector = dom.nodes()[0]
        .as_tag()
        .unwrap()
        .query_selector(parser, "div.z")
        .unwrap();
    assert_eq!(selector.count(), 0);

    // one child
    let dom = parse(
        r#"<p><div class="z">PASS</div></p>"#,
        ParserOptions::default(),
    )
    .unwrap();
    let parser = dom.parser();
    let mut selector = dom.nodes()[0]
        .as_tag()
        .unwrap()
        .query_selector(parser, "div.z")
        .unwrap();
    assert_eq!(selector.clone().count(), 1);
    assert_eq!(
        text(
            selector
                .next()
                .unwrap()
                .get(parser)
                .unwrap()
                .inner_text(parser)
        ),
        "PASS"
    );

    // nested
    let dom = parse(
        r#"<p><div class="z"><div class="y">PASS</div></div></p>"#,
        ParserOptions::default(),
    )
    .unwrap();
    let parser = dom.parser();
    let mut selector = dom.nodes()[0]
        .as_tag()
        .unwrap()
        .query_selector(parser, "div.y")
        .unwrap();
    assert_eq!(selector.clone().count(), 1);
    assert_eq!(
        text(
            selector
                .next()
                .unwrap()
                .get(parser)
                .unwrap()
                .inner_text(parser)
        ),
        "PASS"
    );
}

#[test]
fn query_selector_with_quote() {
    let input = r#"<div><meta property="og:title" content="hello" /></div>"#;
    let dom = parse(input, ParserOptions::default()).unwrap();
    let parser = dom.parser();
    let node_option = dom
        .query_selector(r#"meta[property="og:title"]"#)
        .and_then(|mut iter| iter.next());
    let value = node_option.map(|node| {
        node.get(parser)
            .unwrap()
            .as_tag()
            .unwrap()
            .attributes()
            .get(b"content")
            .flatten()
            .unwrap()
            .try_as_utf8_str()
            .unwrap()
            .to_string()
    });

    assert_eq!(value, Some("hello".to_string()));
}

#[test]
fn assert_length() {
    fn assert_len(input: &str, selector: &str, len: usize) {
        let dom = parse(input, Default::default()).unwrap();
        let el = dom.nodes()[0].as_tag().unwrap();
        let query = el.query_selector(dom.parser(), selector).unwrap();
        assert_eq!(query.count(), len);
    }

    assert_len("<div></div>", "a", 0);
    assert_len("<div><a></a></div>", "a", 1);
    assert_len("<div><a><a></a></a></div>", "a", 2);
    assert_len("<div><a><span></span></a></div>", "span", 1);
}

#[test]
fn subtree_query_leaves_siblings_out() {
    let input = r#"<p><div class="z">in</div></p><div class="z">out</div>"#;
    let dom = parse(input, Default::default()).unwrap();
    let parser = dom.parser();

    let whole: Vec<u32> = {
        let mut found = Vec::new();
        let mut matches = dom.query_selector("div.z").unwrap();
        while let Some(h) = matches.next() {
            found.push(h.get_inner());
        }
        found
    };
    assert_eq!(whole, vec![1, 3]);

    let first = dom.nodes()[0].as_tag().unwrap();
    let mut scoped = first.query_selector(parser, "div.z").unwrap();
    assert_eq!(scoped.clone().count(), 1);
    let h = scoped.next().unwrap();
    assert_eq!(h.get_inner(), 1);
    assert_eq!(text(h.get(parser).unwrap().inner_text(parser)), "in");
    assert_eq!(scoped.next(), None);
    assert_eq!(scoped.next(), None);
}

#[test]
fn cloned_cursor_is_independent() {
    let dom = parse("<a></a><a></a><a></a>", Default::default()).unwrap();
    let mut matches = dom.query_selector("a").unwrap();
    assert_eq!(matches.next().map(|h| h.get_inner()), Some(0));

    let mut copy = matches.clone();
    assert_eq!(copy.next().map(|h| h.get_inner()), Some(1));
    assert_eq!(copy.next().map(|h| h.get_inner()), Some(2));
    assert_eq!(copy.next(), None);

    assert_eq!(matches.clone().count(), 2);
    assert_eq!(matches.next().map(|h| h.get_inner()), Some(1));
}

#[test]
fn descendant_and_child_combinators() {
    let input = "<ul><li><b>x</b></li></ul><b>y</b>";
    let dom = parse(input, Default::default()).unwrap();

    let ids = |selector: &str| -> Vec<u32> {
        let mut found = Vec::new();
        let mut matches = dom.query_selector(selector).unwrap();
        while let Some(h) = matches.next() {
            found.push(h.get_inner());
        }
        found
    };

    assert_eq!(ids("b"), vec![2, 4]);
    assert_eq!(ids("ul b"), vec![2]);
    assert_eq!(ids("ul li b"), vec![2]);
    assert_eq!(ids("li > b"), vec![2]);
    assert_eq!(ids("ul > b"), Vec::<u32>::new());
    assert_eq!(ids("ul>li"), vec![1]);
    assert_eq!(ids("li ul"), Vec::<u32>::new());
    assert_eq!(ids("*"), vec![0, 1, 2, 4]);
}

#[test]
fn simple_selectors() {
    let input = r#"<a id="x" class="one two" href=/p data-k>t</a><a class="two">u</a>"#;
    let dom = parse(input, Default::default()).unwrap();
    let count = |selector: &str| dom.query_selector(selector).unwrap().count();

    assert_eq!(count("a"), 2);
    assert_eq!(count("A"), 0);
    assert_eq!(count("#x"), 1);
    assert_eq!(count(".one"), 1);
    assert_eq!(count(".two"), 2);
    assert_eq!(count(".one.two"), 1);
    assert_eq!(count(".on"), 0);
    assert_eq!(count("[data-k]"), 1);
    assert_eq!(count("[href=/p]"), 1);
    assert_eq!(count("[href='/p']"), 1);
    assert_eq!(count("[href=\"/p\"]"), 1);
    assert_eq!(count("[href=/]"), 0);
    assert_eq!(count("[data-k=]"), 0);
    assert_eq!(count("a#x.one[href][data-k]"), 1);
    assert_eq!(count("  a  "), 2);
}

#[test]
fn selector_syntax_errors() {
    let dom = parse("<a></a>", Default::default()).unwrap();
    for bad in [
        "", "  ", "#", ".", "[", "[a", "[a=", "[a='b]", "[a=\"b\"", "[a='b'x]", "[]", "a >", "> a",
        "a > > b", "a,b", "a@",
    ] {
        assert!(dom.query_selector(bad).is_none(), "{:?}", bad);
        assert!(Selector::parse(bad.as_bytes()).is_none(), "{:?}", bad);
    }
}

#[test]
fn selector_shape() {
    let selector = Selector::parse(b"div.z > [a=b] *").unwrap();
    assert_eq!(selector.compounds.len(), 3);
    assert!(matches!(selector.compounds[0].tests[0], Simple::Tag(b"div")));
    assert!(matches!(selector.compounds[0].tests[1], Simple::Class(b"z")));
    assert_eq!(selector.compounds[1].combinator, Combinator::Child);
    assert!(matches!(
        selector.compounds[1].tests[0],
        Simple::AttributeValue(b"a", b"b")
    ));
    assert_eq!(selector.compounds[2].combinator, Combinator::Descendant);
    assert!(matches!(selector.compounds[2].tests[0], Simple::All));
}
