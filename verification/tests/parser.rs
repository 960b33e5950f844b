use tl::parser::options::HTMLVersion;
use tl::{parse, parse_bytes, Node, NodeHandle, ParseError, ParserOptions, VDom};

fn text(bytes: Vec<u8>) -> String {
    String::from_utf8(bytes).unwrap()
}

fn names(dom: &VDom) -> Vec<String> {
    dom.nodes()
        .iter()
        .map(|node| match node {
            Node::Tag(t) => format!("<{}>", t.name().as_utf8_str()),
            Node::Raw(b) => format!("text:{}", b.as_utf8_str()),
            Node::Comment(b) => format!("comment:{}", b.as_utf8_str()),
        })
        .collect()
}

fn top(dom: &VDom) -> Vec<u32> {
    dom.children().iter().map(|h| h.get_inner()).collect()
}

fn kids(dom: &VDom, i: usize) -> Vec<u32> {
    dom.nodes()[i]
        .as_tag()
        .unwrap()
        .children()
        .top()
        .iter()
        .map(|h| h.get_inner())
        .collect()
}

fn raw(dom: &VDom, i: usize) -> String {
    dom.nodes()[i].as_tag().unwrap().raw().as_utf8_str()
}

#[test]
fn stray_bytes_in_attribute_position_are_skipped() {
    let dom = parse(r#"<button " >"#, ParserOptions::default()).unwrap();
    assert_eq!(names(&dom), vec!["<button>"]);
    assert_eq!(dom.nodes()[0].as_tag().unwrap().attributes().len(), 0);
    assert_eq!(raw(&dom, 0), r#"<button " >"#);

    let dom = parse("<div @ >", ParserOptions::default()).unwrap();
    assert_eq!(names(&dom), vec!["<div>"]);
    assert!(dom.nodes()[0].as_tag().unwrap().attributes().is_empty());

    let dom = parse("<a = >", ParserOptions::default()).unwrap();
    assert_eq!(names(&dom), vec!["<a>"]);
    assert!(dom.nodes()[0].as_tag().unwrap().attributes().is_empty());

    let dom = parse("<span ! foo>", ParserOptions::default()).unwrap();
    let attrs = dom.nodes()[0].as_tag().unwrap().attributes();
    assert_eq!(attrs.len(), 1);
    assert_eq!(attrs.get(b"foo"), Some(None));

    let dom = parse("<div < >x", ParserOptions::default()).unwrap();
    assert_eq!(names(&dom), vec!["<div>", "text:x"]);
}

#[test]
fn whitespace_after_quoted_value() {
    let dom = parse(
        r#"<a href="x" rel="internal"  >t</a><br/>"#,
        ParserOptions::default(),
    )
    .unwrap();
    let a = dom.nodes()[0].as_tag().unwrap();
    assert_eq!(a.attributes().len(), 2);
    assert_eq!(a.attributes().get(b"rel").unwrap().unwrap().as_bytes(), b"internal");
    assert_eq!(text(a.inner_text(dom.parser())), "t");
}

#[test]
fn first_of_two_attributes_of_one_name_stands() {
    let dom = parse(r#"<a x="1" y x="2" y="3">"#, ParserOptions::default()).unwrap();
    let attrs = dom.nodes()[0].as_tag().unwrap().attributes();
    assert_eq!(attrs.len(), 2);
    assert_eq!(attrs.get(b"x").unwrap().unwrap().as_bytes(), b"1");
    assert_eq!(attrs.get(b"y"), Some(None));
    assert_eq!(attrs.position(b"x"), 0);
    assert_eq!(attrs.position(b"y"), 1);
    assert_eq!(attrs.position(b"z"), 2);
}

#[test]
fn attribute_values() {
    let dom = parse(
        "<a one='1' two=\"2 2\" three=3 four= five=\"\" six='x\"y' seven=>",
        ParserOptions::default(),
    )
    .unwrap();
    let attrs = dom.nodes()[0].as_tag().unwrap().attributes();
    let value = |name: &[u8]| attrs.get(name).unwrap().unwrap().as_utf8_str();
    assert_eq!(value(b"one"), "1");
    assert_eq!(value(b"two"), "2 2");
    assert_eq!(value(b"three"), "3");
    assert_eq!(value(b"four"), "");
    assert_eq!(value(b"five"), "");
    assert_eq!(value(b"six"), "x\"y");
    assert_eq!(value(b"seven"), "");
    assert_eq!(attrs.len(), 7);
    assert_eq!(attrs.get(b"eight"), None);
    assert!(attrs.contains(b"four"));
    assert!(!attrs.contains(b"fou"));
}

#[test]
fn names_are_case_sensitive() {
    let dom = parse("<A Href=x></a></A>", ParserOptions::default()).unwrap();
    let a = dom.nodes()[0].as_tag().unwrap();
    assert_eq!(a.name().as_bytes(), b"A");
    assert!(a.attributes().contains(b"Href"));
    assert!(!a.attributes().contains(b"href"));
    // `</a>` closes nothing, `</A>` closes the element.
    assert_eq!(a.raw().as_bytes(), b"<A Href=x></a></A>");
}

#[test]
fn unterminated_quoted_value_runs_to_the_end() {
    let dom = parse("<a b=\"c>d", ParserOptions::default()).unwrap();
    let a = dom.nodes()[0].as_tag().unwrap();
    assert_eq!(a.attributes().get(b"b").unwrap().unwrap().as_bytes(), b"c>d");
    assert_eq!(a.raw().as_bytes(), b"<a b=\"c>d");
    assert_eq!(dom.nodes().len(), 1);
}

#[test]
fn unterminated_start_tag_is_kept() {
    let dom = parse("x<p ", ParserOptions::default()).unwrap();
    assert_eq!(names(&dom), vec!["text:x", "<p>"]);
    assert_eq!(raw(&dom, 1), "<p ");
    assert_eq!(top(&dom), vec![0, 1]);

    let dom = parse("<p id", ParserOptions::default()).unwrap();
    assert_eq!(dom.nodes()[0].as_tag().unwrap().attributes().get(b"id"), Some(None));
}

#[test]
fn comments() {
    let dom = parse("a<!-- x -- > y -->b", ParserOptions::default()).unwrap();
    assert_eq!(names(&dom), vec!["text:a", "comment:<!-- x -- > y -->", "text:b"]);

    let dom = parse("<!-->x", ParserOptions::default()).unwrap();
    assert_eq!(names(&dom), vec!["comment:<!-->", "text:x"]);

    let dom = parse("<!--->x", ParserOptions::default()).unwrap();
    assert_eq!(names(&dom), vec!["comment:<!--->", "text:x"]);

    // A comment that never ends runs to the end of the input.
    let dom = parse("<p><!-- open <b>", ParserOptions::default()).unwrap();
    assert_eq!(names(&dom), vec!["<p>", "comment:<!-- open <b>"]);
    assert_eq!(kids(&dom, 0), vec![1]);
    assert_eq!(text(dom.nodes()[0].inner_text(dom.parser())), "");
}

#[test]
fn declarations() {
    let dom = parse("<!doctype HTML>x", ParserOptions::default()).unwrap();
    assert_eq!(dom.version(), Some(HTMLVersion::HTML5));
    assert_eq!(names(&dom), vec!["text:x"]);

    let dom = parse("<!DOCTYPE   html PUBLIC \"x\">", ParserOptions::default()).unwrap();
    assert_eq!(dom.version(), Some(HTMLVersion::HTML5));
    assert_eq!(dom.nodes().len(), 0);

    let dom = parse("<!DOCTYPE svg>x", ParserOptions::default()).unwrap();
    assert_eq!(dom.version(), None);

    let dom = parse("<!ELEMENT html><p>", ParserOptions::default()).unwrap();
    assert_eq!(dom.version(), None);
    assert_eq!(names(&dom), vec!["<p>"]);

    let dom = parse("<p>text", ParserOptions::default()).unwrap();
    assert_eq!(dom.version(), None);

    // A declaration that never ends swallows the rest.
    let dom = parse("a<!doctype html", ParserOptions::default()).unwrap();
    assert_eq!(dom.version(), Some(HTMLVersion::HTML5));
    assert_eq!(names(&dom), vec!["text:a"]);
}

#[test]
fn a_lone_less_than_is_text() {
    let dom = parse("a < b", ParserOptions::default()).unwrap();
    assert_eq!(names(&dom), vec!["text:a ", "text:< b"]);

    let dom = parse("J\x00<", ParserOptions::default()).unwrap();
    assert_eq!(names(&dom), vec!["text:J\x00", "text:<"]);

    let dom = parse("<=/Fy<=/", ParserOptions::default()).unwrap();
    assert_eq!(names(&dom), vec!["text:<=/Fy", "text:<=/"]);

    let dom = parse("<<p>", ParserOptions::default()).unwrap();
    assert_eq!(names(&dom), vec!["text:<", "<p>"]);
}

#[test]
fn end_tags() {
    // An end tag that matches no open element is ignored.
    let dom = parse("a</b>c", ParserOptions::default()).unwrap();
    assert_eq!(names(&dom), vec!["text:a", "text:c"]);

    // An end tag closes the innermost open element of its name, and with
    // it the elements that are open inside.
    let dom = parse("<div><p><i>text</div>after", ParserOptions::default()).unwrap();
    assert_eq!(names(&dom), vec!["<div>", "<p>", "<i>", "text:text", "text:after"]);
    assert_eq!(top(&dom), vec![0, 4]);
    assert_eq!(kids(&dom, 0), vec![1]);
    assert_eq!(kids(&dom, 1), vec![2]);
    assert_eq!(kids(&dom, 2), vec![3]);
    assert_eq!(raw(&dom, 0), "<div><p><i>text</div>");
    assert_eq!(raw(&dom, 1), "<p><i>text");
    assert_eq!(raw(&dom, 2), "<i>text");

    // What follows the name in an end tag is dropped, up to the `>`.
    let dom = parse("<p>x</p class='y'>z", ParserOptions::default()).unwrap();
    assert_eq!(names(&dom), vec!["<p>", "text:x", "text:z"]);
    assert_eq!(raw(&dom, 0), "<p>x</p class='y'>");

    let dom = parse("<p>x</>y", ParserOptions::default()).unwrap();
    assert_eq!(kids(&dom, 0), vec![1, 2]);
}

#[test]
fn open_elements_are_closed_at_the_end() {
    let dom = parse("<a><b>x", ParserOptions::default()).unwrap();
    assert_eq!(raw(&dom, 0), "<a><b>x");
    assert_eq!(raw(&dom, 1), "<b>x");
    assert_eq!(dom.parser().stack.len(), 0);
    assert_eq!(text(dom.outer_html()), "<a><b>x");
}

#[test]
fn void_and_self_closing_elements_have_no_children() {
    let dom = parse("<br /><p>test</p>", ParserOptions::default()).unwrap();
    assert_eq!(dom.children().len(), 2);
    assert_eq!(kids(&dom, 0), Vec::<u32>::new());

    let dom = parse("<img><hr><p>x</p>", ParserOptions::default()).unwrap();
    assert_eq!(top(&dom), vec![0, 1, 2]);
    assert_eq!(raw(&dom, 0), "<img>");

    let dom = parse("<div /><p>x</p>", ParserOptions::default()).unwrap();
    assert_eq!(top(&dom), vec![0, 1]);
    assert_eq!(raw(&dom, 0), "<div />");

    // Between the slash and the `>`, everything is dropped.
    let dom = parse("<div / a=b>x", ParserOptions::default()).unwrap();
    assert_eq!(top(&dom), vec![0, 1]);
    assert!(dom.nodes()[0].as_tag().unwrap().attributes().is_empty());

    // The slash is an identifier byte: right after the name it belongs
    // to the name.
    let dom = parse("<br/>", ParserOptions::default()).unwrap();
    assert_eq!(dom.nodes()[0].as_tag().unwrap().name().as_bytes(), b"br/");
}

#[test]
fn node_limit() {
    let input = "<a></a><b></b><c></c>";
    let limit = |n: usize| parse(input, ParserOptions::new().max_nodes(n)).map(|dom| dom.nodes().len());
    assert_eq!(limit(3), Ok(3));
    assert_eq!(limit(4), Ok(3));
    assert_eq!(limit(2), Err(ParseError::NodeLimitExceeded));
    assert_eq!(limit(0), Err(ParseError::NodeLimitExceeded));
    assert_eq!(
        parse("", ParserOptions::new().max_nodes(0)).map(|dom| dom.nodes().len()),
        Ok(0)
    );
}

#[test]
fn options() {
    let default = ParserOptions::default();
    assert_eq!(default, ParserOptions::new());
    assert!(!default.is_tracking_ids());
    assert!(!default.is_tracking_classes());
    assert_eq!(default.max_nodes, usize::MAX);
    assert_eq!(default.version, None);
    // Tracking identifiers keeps both indexes; the index of classes can
    // also be kept alone.
    assert!(default.track_ids().is_tracking_ids());
    assert!(default.track_ids().is_tracking_classes());
    assert!(!default.track_classes().is_tracking_ids());
    assert!(default.track_classes().is_tracking_classes());
    let both = default.track_ids().track_classes().max_nodes(7);
    assert!(both.is_tracking_ids());
    assert!(both.is_tracking_classes());
    assert_eq!(both.max_nodes, 7);
    let labelled = both.html_version(HTMLVersion::TransitionalHTML401);
    assert_eq!(labelled.version, Some(HTMLVersion::TransitionalHTML401));
    assert_eq!(labelled.max_nodes, 7);
    assert!(labelled.is_tracking_ids() && labelled.is_tracking_classes());
}

#[test]
fn the_version_hint_labels_documents_that_declare_none() {
    let strict = ParserOptions::new().html_version(HTMLVersion::StrictHTML401);
    let frameset = ParserOptions::new().html_version(HTMLVersion::FramesetHTML401);
    assert_eq!(
        parse("<p>x</p>", strict).unwrap().version(),
        Some(HTMLVersion::StrictHTML401)
    );
    assert_eq!(
        parse("<!DOCTYPE svg><p>", frameset).unwrap().version(),
        Some(HTMLVersion::FramesetHTML401)
    );
    assert_eq!(
        parse("<!DOCTYPE html><p>", strict).unwrap().version(),
        Some(HTMLVersion::HTML5)
    );
    // The label changes nothing else.
    let plain = parse("<br><p id=a>x", ParserOptions::new()).unwrap();
    let hinted = parse("<br><p id=a>x", strict).unwrap();
    assert_eq!(names(&plain), names(&hinted));
    assert_eq!(top(&plain), top(&hinted));
}

#[test]
fn ids_with_and_without_index() {
    let input = r#"<a id="x">1</a><b id="x">2</b><c id>3</c>"#;
    let indexed = parse(input, ParserOptions::new().track_ids()).unwrap();
    let plain = parse(input, ParserOptions::new()).unwrap();

    // The index holds the element filed last, a search finds the first.
    assert_eq!(indexed.get_element_by_id(b"x"), Some(NodeHandle::new(2)));
    assert_eq!(plain.get_element_by_id(b"x"), Some(NodeHandle::new(0)));
    assert_eq!(indexed.get_element_by_id(b"y"), None);
    assert_eq!(plain.get_element_by_id(b"y"), None);
    assert_eq!(plain.get_element_by_id(b""), None);
    assert_eq!(indexed.parser().ids.len(), 2);
    assert_eq!(plain.parser().ids.len(), 0);

    let input = r#"<a id="x" class="k">1</a><b class="k l">2</b>"#;
    let indexed = parse(input, ParserOptions::new().track_ids()).unwrap();
    assert_eq!(indexed.parser().ids.len(), 1);
    assert_eq!(indexed.parser().classes.len(), 3);
    assert_eq!(
        indexed.get_elements_by_class_name(b"k").collect(),
        vec![NodeHandle::new(0), NodeHandle::new(2)]
    );
}

#[test]
fn classes_with_and_without_index() {
    let input = "<a class=\"one  two\nthree\">1</a><b class=two>2</b><c class>3</c><d class=''>";
    let indexed = parse(input, ParserOptions::new().track_classes()).unwrap();
    let plain = parse(input, ParserOptions::new()).unwrap();
    for dom in [&indexed, &plain] {
        let found = |name: &[u8]| -> Vec<u32> {
            dom.get_elements_by_class_name(name)
                .collect()
                .iter()
                .map(|h| h.get_inner())
                .collect()
        };
        assert_eq!(found(b"one"), vec![0]);
        assert_eq!(found(b"two"), vec![0, 2]);
        assert_eq!(found(b"three"), vec![0]);
        assert_eq!(found(b"four"), Vec::<u32>::new());
        assert_eq!(found(b""), Vec::<u32>::new());
        assert_eq!(found(b"one  two"), Vec::<u32>::new());
    }
    assert_eq!(indexed.parser().classes.len(), 4);
    assert_eq!(plain.parser().classes.len(), 0);
}

#[test]
fn a_class_named_twice_is_filed_once() {
    let input = "<a class='x y x  x\ny'></a><b class=x></b>";
    let indexed = parse(input, ParserOptions::new().track_classes()).unwrap();
    let plain = parse(input, ParserOptions::new()).unwrap();
    for dom in [&indexed, &plain] {
        assert_eq!(
            dom.get_elements_by_class_name(b"x").collect(),
            vec![NodeHandle::new(0), NodeHandle::new(1)]
        );
        let mut found = dom.get_elements_by_class_name(b"y");
        let mut copy = found;
        assert_eq!(found.next(), Some(NodeHandle::new(0)));
        assert_eq!(found.next(), None);
        assert_eq!(found.next(), None);
        assert_eq!(copy.next(), Some(NodeHandle::new(0)));
        assert_eq!(copy.collect(), Vec::<NodeHandle>::new());
    }
    let keys: Vec<String> = indexed
        .parser()
        .classes
        .iter()
        .map(|entry| entry.key.as_utf8_str())
        .collect();
    assert_eq!(keys, vec!["x", "y", "x"]);
}

#[test]
fn untouched_documents_render_as_the_input() {
    for input in [
        "",
        "plain",
        "<html><head></head><body><img src=\"\"><br><hr></body></html>",
        "<p>abcd</p",
        "<a href='x'   b = c>t</a >",
        "<!DOCTYPE html> hello </stray> <p",
        "<div><p>text</div>after<!-- never",
        "<=/Fy<=/",
    ] {
        let dom = parse(input, ParserOptions::default()).unwrap();
        assert_eq!(text(dom.outer_html()), input);
        let dom = parse(input, ParserOptions::new().track_ids().track_classes()).unwrap();
        assert_eq!(text(dom.outer_html()), input);
    }
    let bytes: &[u8] = &[0x3c, 0x61, 0x3e, 0xff, 0x00, 0x3c];
    assert_eq!(parse_bytes(bytes, ParserOptions::default()).unwrap().outer_html(), bytes);
}

#[test]
fn modified_documents_are_written_out_anew() {
    let input = "<a href='x'   b  c=1>t<br><i></a >u";
    let mut dom = parse(input, ParserOptions::default()).unwrap();
    assert_eq!(text(dom.outer_html()), input);
    assert_eq!(
        text(dom.nodes()[0].as_tag().unwrap().outer_html(dom.parser())),
        "<a href='x'   b  c=1>t<br><i></a >"
    );
    assert_eq!(
        text(dom.nodes()[0].as_tag().unwrap().inner_html(dom.parser())),
        "t<br><i>"
    );

    // Once all nodes were handed out, everything is written anew.
    let _ = dom.nodes_mut();
    assert!(dom.parser().modified);
    assert_eq!(text(dom.outer_html()), "<a href=\"x\" b c=\"1\">t<br><i></i></a>u");
    assert_eq!(
        text(dom.nodes()[0].as_tag().unwrap().outer_html(dom.parser())),
        "<a href=\"x\" b c=\"1\">t<br><i></i></a>"
    );
    assert_eq!(
        text(dom.nodes()[0].as_tag().unwrap().inner_html(dom.parser())),
        "t<br><i></i>"
    );
    assert_eq!(text(dom.nodes()[1].outer_html(dom.parser())), "t");
    assert_eq!(text(dom.nodes()[0].inner_text(dom.parser())), "t");
}

#[test]
fn untouched_subtrees_stay_as_they_stand_in_the_input() {
    let input = "<ul id='l'><li class=a >one</li ><li  class='b'><b>two</b></li></ul><p  x>t</p >";
    let mut dom = parse(input, ParserOptions::default()).unwrap();
    let list = NodeHandle::new(0);
    let first = NodeHandle::new(1);
    let second = NodeHandle::new(3);
    let bold = NodeHandle::new(4);
    let para = NodeHandle::new(6);
    assert_eq!(text(first.outer_html(dom.parser())), "<li class=a >one</li >");
    assert_eq!(text(para.outer_html(dom.parser())), "<p  x>t</p >");
    assert_eq!(text(NodeHandle::new(99).outer_html(dom.parser())), "");

    // Asking for the store alone marks no node: every top-level subtree is
    // still as it stands in the input.
    let _ = dom.parser_mut();
    assert!(dom.parser().modified);
    assert!(dom.parser().touched.iter().all(|mark| !mark));
    assert_eq!(text(dom.outer_html()), input);

    // One element deep in the tree is handed out and changed.
    bold.get_mut(dom.parser_mut())
        .unwrap()
        .as_tag_mut()
        .unwrap()
        .attributes_mut()
        .insert("k".into(), Some("v".into()));
    assert_eq!(
        dom.parser().touched,
        vec![false, false, false, false, true, false, false, false]
    );
    let parser = dom.parser();
    // It is written anew, and so is every element that it lies below ...
    assert_eq!(text(bold.outer_html(parser)), "<b k=\"v\">two</b>");
    assert_eq!(text(second.outer_html(parser)), "<li class=\"b\"><b k=\"v\">two</b></li>");
    assert_eq!(
        text(list.outer_html(parser)),
        "<ul id=\"l\"><li class=a >one</li ><li class=\"b\"><b k=\"v\">two</b></li></ul>"
    );
    // ... while the subtrees beside them stay byte for byte.
    assert_eq!(text(first.outer_html(parser)), "<li class=a >one</li >");
    assert_eq!(text(para.outer_html(parser)), "<p  x>t</p >");
    assert_eq!(
        text(dom.outer_html()),
        "<ul id=\"l\"><li class=a >one</li ><li class=\"b\"><b k=\"v\">two</b></li></ul><p  x>t</p >"
    );
    // An element that is asked itself, not by its handle, is written anew
    // once anything was handed out; what is below it stays.
    assert_eq!(
        text(dom.nodes()[6].as_tag().unwrap().outer_html(parser)),
        "<p x>t</p>"
    );
    assert_eq!(
        text(dom.nodes()[0].as_tag().unwrap().inner_html(parser)),
        "<li class=a >one</li ><li class=\"b\"><b k=\"v\">two</b></li>"
    );

    // A text that is replaced shows in all that it lies below.
    *NodeHandle::new(2).get_mut(dom.parser_mut()).unwrap() = Node::Raw("1".into());
    assert_eq!(
        text(dom.outer_html()),
        "<ul id=\"l\"><li class=\"a\">1</li><li class=\"b\"><b k=\"v\">two</b></li></ul><p  x>t</p >"
    );
}

#[test]
fn replacing_a_value_shows_in_the_markup() {
    let mut dom = parse(r#"<img src="test.png" alt>"#, ParserOptions::default()).unwrap();
    let tag = dom.nodes_mut()[0].as_tag_mut().unwrap();
    let attrs = tag.attributes_mut();
    attrs.insert("src".into(), Some("world.png".into()));
    attrs.insert("width".into(), None);
    assert_eq!(attrs.get(b"src").unwrap().unwrap().as_bytes(), b"world.png");
    assert_eq!(attrs.len(), 3);
    assert_eq!(text(dom.outer_html()), r#"<img src="world.png" alt width>"#);

    let attrs = dom.nodes_mut()[0].as_tag_mut().unwrap().attributes_mut();
    attrs.remove(b"alt");
    attrs.remove(b"nothing");
    attrs.remove_value(b"nothing");
    attrs.remove_value(b"src");
    assert_eq!(attrs.get(b"src"), Some(None));
    assert_eq!(attrs.get(b"alt"), None);
    assert_eq!(attrs.get_mut(b"alt"), None);
    *attrs.get_mut(b"width").unwrap() = Some("3".into());
    assert_eq!(text(dom.outer_html()), r#"<img src width="3">"#);

    dom.nodes_mut()[0].as_tag_mut().unwrap().name_mut().set(b"p").unwrap();
    assert_eq!(text(dom.outer_html()), r#"<p src width="3"></p>"#);
}

#[test]
fn nothing_is_copied_while_parsing() {
    let input = r#"<a id=x class="one two" href='y'>text<!-- c --><br></a>"#;
    let dom = parse(input, ParserOptions::new().track_ids().track_classes()).unwrap();
    let range = input.as_bytes().as_ptr_range();
    let inside = |b: &tl::Bytes| {
        let held = b.as_bytes_borrowed().expect("a view, not a copy");
        held.is_empty() || (range.start <= held.as_ptr() && held.as_ptr() < range.end)
    };
    for node in dom.nodes().iter() {
        match node {
            Node::Tag(t) => {
                assert!(inside(t.name()));
                assert!(inside(t.raw()));
                for a in t.attributes().raw.iter() {
                    assert!(inside(&a.name));
                    assert!(a.value.as_ref().map_or(true, |v| inside(v)));
                }
            }
            Node::Raw(b) | Node::Comment(b) => assert!(inside(b)),
        }
    }
    assert_eq!(dom.parser().ids.len(), 1);
    assert_eq!(dom.parser().classes.len(), 2);
    for entry in dom.parser().ids.iter().chain(dom.parser().classes.iter()) {
        assert!(inside(&entry.key));
    }
}

#[test]
fn handles_resolve_in_their_store() {
    let mut dom = parse("<p>a</p>", ParserOptions::default()).unwrap();
    let parser = dom.parser();
    assert!(NodeHandle::new(0).get(parser).unwrap().as_tag().is_some());
    assert!(NodeHandle::new(1).get(parser).unwrap().as_raw().is_some());
    assert!(NodeHandle::new(2).get(parser).is_none());
    assert!(parser.resolve_node_id(1).unwrap().as_comment().is_none());
    assert!(parser.resolve_node_id(2).is_none());
    assert_eq!(parser.children_of(NodeHandle::new(0)).unwrap().len(), 1);
    assert!(parser.children_of(NodeHandle::new(1)).is_none());
    assert!(parser.children_of(NodeHandle::new(9)).is_none());
    assert_eq!(parser.parent_of(NodeHandle::new(0)), None);
    assert_eq!(parser.parent_of(NodeHandle::new(1)), Some(NodeHandle::new(0)));
    assert_eq!(parser.parent_of(NodeHandle::new(9)), None);
    assert!(NodeHandle::new(0).get(parser).unwrap().children().is_some());
    assert!(NodeHandle::new(1).get(parser).unwrap().children().is_none());

    // A missing node is no change.
    assert!(NodeHandle::new(2).get_mut(&mut dom.parser).is_none());
    assert!(!dom.parser().modified);
    NodeHandle::new(1)
        .get_mut(&mut dom.parser)
        .unwrap()
        .as_raw_mut()
        .unwrap()
        .set(b"b")
        .unwrap();
    assert!(dom.parser().modified);
    assert_eq!(text(dom.outer_html()), "<p>b</p>");
    *dom.parser.resolve_node_id_mut(1).unwrap() = Node::Comment("<!--c-->".into());
    assert_eq!(
        dom.nodes()[1].as_comment().unwrap().as_bytes(),
        b"<!--c-->"
    );
    dom.parser
        .resolve_node_id_mut(1)
        .unwrap()
        .as_comment_mut()
        .unwrap()
        .set(b"<!---->")
        .unwrap();
    assert_eq!(text(dom.outer_html()), "<p><!----></p>");
    assert_eq!(text(dom.nodes()[0].inner_text(dom.parser())), "");
}

#[test]
fn every_child_has_one_parent_and_stands_after_it() {
    let input = "<a><b>1<c>2</c></b><d/>3<e><f></a>4<g>";
    let dom = parse(input, ParserOptions::default()).unwrap();
    let parser = dom.parser();
    let count = dom.nodes().len();
    let mut seen = vec![0usize; count];
    for (i, node) in dom.nodes().iter().enumerate() {
        if let Some(tag) = node.as_tag() {
            let children = tag.children().top();
            for pair in children.windows(2) {
                assert!(pair[0].get_inner() < pair[1].get_inner());
            }
            for child in children.iter() {
                let c = child.get_inner() as usize;
                assert!(i < c && c < count);
                assert_eq!(parser.parent_of(*child), Some(NodeHandle::new(i as u32)));
                seen[c] += 1;
            }
            let (start, end) = tag.boundaries(parser);
            assert_eq!(&input.as_bytes()[start..=end], tag.raw().as_bytes());
        }
    }
    for h in dom.children().iter() {
        assert_eq!(parser.parent_of(*h), None);
        seen[h.get_inner() as usize] += 1;
    }
    assert_eq!(seen, vec![1usize; count]);
}

#[test]
fn subtree_boundaries() {
    let dom = parse("<a><b>1<c>2</c></b>3</a><d></d>", ParserOptions::default()).unwrap();
    let parser = dom.parser();
    let span = |i: usize| dom.nodes()[i].as_tag().unwrap().children().boundaries(parser);
    assert_eq!(span(0), Some((1, 5)));
    assert_eq!(span(1), Some((2, 4)));
    assert_eq!(span(3), Some((4, 4)));
    assert_eq!(span(6), None);
    let a = dom.nodes()[0].as_tag().unwrap().children();
    assert_eq!(a.start(), Some(NodeHandle::new(1)));
    assert_eq!(a.all(parser).len(), 5);
    assert_eq!(dom.nodes()[6].as_tag().unwrap().children().start(), None);
}

#[test]
fn package_listing_is_read_in_full() {
    // A listing as package indexes serve it: a quoted value, two spaces,
    // then the end of the tag.
    let mut input = String::from(
        "<!DOCTYPE html>\n<html lang=\"en\">\n<head><title>Links for pyt</title>\n  <meta name=\"api-version\" value=\"2\"/>\n</head>\n<body><h1>Links for pyt</h1>\n",
    );
    for minor in 1..=32 {
        input.push_str(&format!(
            "        <a href=\"../../packages/pyt/0.5.{0}/pyt-0.5.{0}.tar.gz#sha256=965befc8e306fc38283b52d7819656ab711ad42acaa94df37ec08b824262349b\" rel=\"internal\"  >pyt-0.5.{0}.tar.gz</a><br/>\n",
            minor
        ));
    }
    input.push_str(
        "        <a href=\"../../packages/pyt/1.4.0/pyt-1.4.0.tar.gz#sha256=09a12322f7027953b1195ea657b2b82f3c4d0b38df622bdaa6c8ff29674be216\" rel=\"internal\" data-requires-python=\"&gt;=3.10\" >pyt-1.4.0.tar.gz</a><br/>\n</body>\n</html>\n<script id=\"f5_cspm\">(function(){var f5_cspm={f5_p:'<redacted>',setCharAt:function(str,index,chr){if(index>str.length-1)return str;return str.substr(0,index)+chr+str.substr(index+1);}};f5_cspm.go();}());</script>\n",
    );

    let dom = parse(&input, ParserOptions::default()).unwrap();
    assert!(dom.children().len() > 0);
    assert_eq!(dom.version(), Some(HTMLVersion::HTML5));
    assert_eq!(dom.query_selector("a[rel=internal]").unwrap().count(), 33);
    assert_eq!(text(dom.outer_html()), input);
}

#[test]
fn nexus_simple_api_html() {
    // A listing as a package index serves it. What matters is
    // `rel="internal"  >`: two spaces between a quoted value and the `>`.
    let input = r#"<!DOCTYPE html>
<html lang="en">
<head><title>Links for pyt</title>
  <meta name="api-version" value="2"/>
</head>
<body><h1>Links for pyt</h1>
        <a href="../../packages/pyt/0.5.1/pyt-0.5.1.tar.gz#sha256=965befc8e306fc38283b52d7819656ab711ad42acaa94df37ec08b824262349b" rel="internal"  >pyt-0.5.1.tar.gz</a><br/>
        <a href="../../packages/pyt/0.5.2/pyt-0.5.2.tar.gz#sha256=0e1b007ef984974f709f7c77d6a0b669bea7b0f99b016547172b10cf5ae8c525" rel="internal"  >pyt-0.5.2.tar.gz</a><br/>
        <a href="../../packages/pyt/0.5.3/pyt-0.5.3.tar.gz#sha256=c80cb7846149700f2cc8f6856d2daafbf1bb1b4597d0f7bf0b39c00f6b429732" rel="internal"  >pyt-0.5.3.tar.gz</a><br/>
        <a href="../../packages/pyt/0.6.4/pyt-0.6.4.tar.gz#sha256=49f1b87cb90cb332dbeea89370a6056117be83e43a208208f6572ab12abe2abb" rel="internal"  >pyt-0.6.4.tar.gz</a><br/>
        <a href="../../packages/pyt/0.7.1/pyt-0.7.1.tar.gz#sha256=b07e5047a8adb2177f593f976f2e8045f9dee6076f600cedbf4a1f6331ec96c4" rel="internal"  >pyt-0.7.1.tar.gz</a><br/>
        <a href="../../packages/pyt/0.7.2/pyt-0.7.2.tar.gz#sha256=0c021ffbe3c7c0e7e405fd029a0f074d473be9354d3c25cf5a3d69694c978fd7" rel="internal"  >pyt-0.7.2.tar.gz</a><br/>
        <a href="../../packages/pyt/0.7.3/pyt-0.7.3.tar.gz#sha256=9b4f22bbd716a811da65a85d5ed7b0b01989851dda6473cca9840d05766265a1" rel="internal"  >pyt-0.7.3.tar.gz</a><br/>
        <a href="../../packages/pyt/0.7.4/pyt-0.7.4.tar.gz#sha256=c153205ead215b35b839f522f06593a9bb2016aebb1157f2e8cd53d6ae05d335" rel="internal"  >pyt-0.7.4.tar.gz</a><br/>
        <a href="../../packages/pyt/0.7.5/pyt-0.7.5.tar.gz#sha256=48b28f329941271a02360d40faaccb1fb52fd4a4997995e1da80b7ed7a355b78" rel="internal"  >pyt-0.7.5.tar.gz</a><br/>
        <a href="../../packages/pyt/0.7.6/pyt-0.7.6.tar.gz#sha256=50c919236b46cf024dd6a3683b0178be8b35bc08b48650c189c04f94334fe4a5" rel="internal"  >pyt-0.7.6.tar.gz</a><br/>
        <a href="../../packages/pyt/0.7.7/pyt-0.7.7.tar.gz#sha256=1a6a5f03095d0a43d233b086422261523fd14f039846dad42dfc59e769a3a1bc" rel="internal"  >pyt-0.7.7.tar.gz</a><br/>
        <a href="../../packages/pyt/0.7.9/pyt-0.7.9.tar.gz#sha256=cc3d7e98e87ece296fb7e8c793275b35dff1c693737324b39dd51d9f08d194ab" rel="internal"  >pyt-0.7.9.tar.gz</a><br/>
        <a href="../../packages/pyt/0.7.10/pyt-0.7.10.tar.gz#sha256=7a883a24fcd425238dfaa5047d4effc7a77912d08f33111eccee27c289166aa8" rel="internal"  >pyt-0.7.10.tar.gz</a><br/>
        <a href="../../packages/pyt/0.7.11/pyt-0.7.11.tar.gz#sha256=5c78dd369f23431326933f79be85c9dfea81ee8842ab05b7f9043fb4c3d5ebe5" rel="internal"  >pyt-0.7.11.tar.gz</a><br/>
        <a href="../../packages/pyt/0.7.12/pyt-0.7.12.tar.gz#sha256=ada0f9d591b745a81fa7e96fa932cae9e98f5c9f5ce4bd9ed85992c25bfe2e18" rel="internal"  >pyt-0.7.12.tar.gz</a><br/>
        <a href="../../packages/pyt/0.7.13/pyt-0.7.13.tar.gz#sha256=8a4d1561c149aba1ede93d698a4a96c679f86deccbda5ee3596c79a0efc88d32" rel="internal"  >pyt-0.7.13.tar.gz</a><br/>
        <a href="../../packages/pyt/0.7.14/pyt-0.7.14.tar.gz#sha256=2e79b03482a1f5d5cd7df57588fe5b3d7e5504bdb0b1e3615fc66d6b52e4266e" rel="internal"  >pyt-0.7.14.tar.gz</a><br/>
        <a href="../../packages/pyt/0.7.15/pyt-0.7.15.tar.gz#sha256=629fb8bc5b34e693d7cd2008498a0c2db243b81a5b5f5cd663f58a46fa6d3301" rel="internal"  >pyt-0.7.15.tar.gz</a><br/>
        <a href="../../packages/pyt/0.7.22/pyt-0.7.22.tar.gz#sha256=40e8ab9e88c286c71ebfc8b4dc31057b4537b74faeb36d49bb0ccf9bbbd7ef66" rel="internal"  >pyt-0.7.22.tar.gz</a><br/>
        <a href="../../packages/pyt/0.7.23/pyt-0.7.23.tar.gz#sha256=73c05ffff1d185e5bc98161e115f2c3200b254a91d8fd26de874809babb02bc4" rel="internal"  >pyt-0.7.23.tar.gz</a><br/>
        <a href="../../packages/pyt/0.7.24/pyt-0.7.24.tar.gz#sha256=da5880d6001cd6a3d9a1e3af0ad501f327de6b963a478b120f3c31637ded3f1c" rel="internal"  >pyt-0.7.24.tar.gz</a><br/>
        <a href="../../packages/pyt/0.7.25/pyt-0.7.25.tar.gz#sha256=39955144f0760845003e05ede5899f667eb5af6efe99876e449cda50ee0e68d7" rel="internal"  >pyt-0.7.25.tar.gz</a><br/>
        <a href="../../packages/pyt/0.7.26/pyt-0.7.26.tar.gz#sha256=ae96638d5499c315c927b84f13a63b6961852ba85279d513270f136b93229cba" rel="internal"  >pyt-0.7.26.tar.gz</a><br/>
        <a href="../../packages/pyt/0.7.27/pyt-0.7.27.tar.gz#sha256=971c6a9e35d7757cb711cd6cef5e4f0f2aacac569252e0afa9c3eea7fa3198bf" rel="internal"  >pyt-0.7.27.tar.gz</a><br/>
        <a href="../../packages/pyt/0.7.28/pyt-0.7.28.tar.gz#sha256=e2e673ff3875deb1cb307040efdc64be120f6369a18afc391e9d7436beea281c" rel="internal"  >pyt-0.7.28.tar.gz</a><br/>
        <a href="../../packages/pyt/0.7.29/pyt-0.7.29.tar.gz#sha256=0ac0181a2847380d8af0a739d65ab5cb14cc7f135fba4c3b2613a1c7defe18de" rel="internal"  >pyt-0.7.29.tar.gz</a><br/>
        <a href="../../packages/pyt/0.7.31/pyt-0.7.31.tar.gz#sha256=592cbf3c35298e4c9da51fb18cef6b69ea61a64fe294efd96290b2451b5ae22a" rel="internal"  >pyt-0.7.31.tar.gz</a><br/>
        <a href="../../packages/pyt/1.0.5/pyt-1.0.5.tar.gz#sha256=dfb3522e17a7f3788a324fe4064b434cb5a744fae3221947af219701d1c37f75" rel="internal"  >pyt-1.0.5.tar.gz</a><br/>
        <a href="../../packages/pyt/1.3.0/pyt-1.3.0-py3-none-any.whl#sha256=3429e8cbcc066eba385d9b5df969d39491dd78a32d8ebd810b822eb91ca9c569" rel="internal" data-requires-python="&gt;=3.10" >pyt-1.3.0-py3-none-any.whl</a><br/>
        <a href="../../packages/pyt/1.3.0/pyt-1.3.0.tar.gz#sha256=acb8782effb5e7b3ef4ef07c8bc86b79e8aaf52e36ee911e521cb3efff658ee2" rel="internal" data-requires-python="&gt;=3.10" >pyt-1.3.0.tar.gz</a><br/>
        <a href="../../packages/pyt/1.4.0/pyt-1.4.0-py3-none-any.whl#sha256=67f2705a81c02039eb11f5fde898e56c2add39b7909b326db36b2fc04e547393" rel="internal" data-requires-python="&gt;=3.10" >pyt-1.4.0-py3-none-any.whl</a><br/>
        <a href="../../packages/pyt/1.4.0/pyt-1.4.0.tar.gz#sha256=09a12322f7027953b1195ea657b2b82f3c4d0b38df622bdaa6c8ff29674be216" rel="internal" data-requires-python="&gt;=3.10" >pyt-1.4.0.tar.gz</a><br/>
</body>
</html>
<script id="f5_cspm">(function(){var f5_cspm={f5_p:'<redacted>',setCharAt:function(str,index,chr){if(index>str.length-1)return str;return str.substr(0,index)+chr+str.substr(index+1);},get_byte:function(str,i){var s=(i/16)|0;i=(i&15);s=s*32;return((str.charCodeAt(i+16+s)-65)<<4)|(str.charCodeAt(i+s)-65);},set_byte:function(str,i,b){var s=(i/16)|0;i=(i&15);s=s*32;str=f5_cspm.setCharAt(str,(i+16+s),String.fromCharCode((b>>4)+65));str=f5_cspm.setCharAt(str,(i+s),String.fromCharCode((b&15)+65));return str;},set_latency:function(str,latency){latency=latency&0xffff;str=f5_cspm.set_byte(str,40,(latency>>8));str=f5_cspm.set_byte(str,41,(latency&0xff));str=f5_cspm.set_byte(str,35,2);return str;},wait_perf_data:function(){try{var wp=window.performance.timing;if(wp.loadEventEnd>0){var res=wp.loadEventEnd-wp.navigationStart;if(res<60001){var cookie_val=f5_cspm.set_latency(f5_cspm.f5_p,res);window.document.cookie='<redacted>='+encodeURIComponent(cookie_val)+';path=/;'+'';}
return;}}
catch(err){return;}
setTimeout(f5_cspm.wait_perf_data,100);return;},go:function(){var chunk=window.document.cookie.split(/\s*;\s*/);for(var i=0;i<chunk.length;++i){var pair=chunk[i].split(/\s*=\s*/);if(pair[0]=='f5_cspm'&&pair[1]=='1234')
{var d=new Date();d.setTime(d.getTime()-1000);window.document.cookie='f5_cspm=;expires='+d.toUTCString()+';path=/;'+';';setTimeout(f5_cspm.wait_perf_data,100);}}}}
f5_cspm.go();}());</script>
"#;

    let dom = parse(input, ParserOptions::default()).unwrap();
    // Verify we can find elements
    assert!(dom.children().len() > 0);
}

#[test]
fn random_markup_is_read_without_loss() {
    let alphabet: &[u8] = b"<<<>>//!--== \"' \nabpi";
    let mut state: u64 = 0x2545_f491_4f6c_dd1d;
    let mut next = move || {
        state ^= state << 13;
        state ^= state >> 7;
        state ^= state << 17;
        state
    };
    for round in 0..3000 {
        let len = (next() % 48) as usize;
        let input: Vec<u8> = (0..len)
            .map(|_| alphabet[(next() % alphabet.len() as u64) as usize])
            .collect();
        let options = match round % 3 {
            0 => ParserOptions::new(),
            1 => ParserOptions::new().track_ids().track_classes(),
            _ => ParserOptions::new().max_nodes(1000),
        };
        let mut dom = parse_bytes(&input, options).unwrap();

        // As parsed, the document is the input.
        assert_eq!(dom.outer_html(), input);
        assert!(dom.nodes().len() <= input.len());
        assert_eq!(dom.parser().stack.len(), 0);

        // Every node is a top-level node or the child of one element, which
        // stands before it, and every element spans a part of the input.
        let count = dom.nodes().len();
        let mut seen = vec![0usize; count];
        for h in dom.children().iter() {
            seen[h.get_inner() as usize] += 1;
        }
        for (i, node) in dom.nodes().iter().enumerate() {
            if let Some(tag) = node.as_tag() {
                for child in tag.children().top().iter() {
                    assert!(i < child.get_inner() as usize);
                    seen[child.get_inner() as usize] += 1;
                }
                let (start, end) = tag.boundaries(dom.parser());
                assert_eq!(&input[start..=end], tag.raw().as_bytes());
                // What lies below an element is what its subtree query visits.
                let below = tag.query_selector(dom.parser(), "*").unwrap().count();
                let tags_below = tag
                    .children()
                    .all(dom.parser())
                    .iter()
                    .filter(|n| n.as_tag().is_some())
                    .count();
                assert_eq!(below, tags_below);
            }
        }
        assert_eq!(seen, vec![1usize; count]);

        // Written out anew, text and comments are as they were held.
        let held: Vec<u8> = dom
            .children()
            .iter()
            .filter_map(|h| match h.get(dom.parser()).unwrap() {
                Node::Tag(_) => None,
                Node::Raw(b) | Node::Comment(b) => Some(b.as_bytes().to_vec()),
            })
            .flatten()
            .collect();
        let elements = dom
            .children()
            .iter()
            .any(|h| h.get(dom.parser()).unwrap().as_tag().is_some());
        let _ = dom.parser_mut();
        if !elements {
            assert_eq!(dom.outer_html(), held);
        }
    }
}
