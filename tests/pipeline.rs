use akt_browser::css::{CSSValue, Unit};
use akt_browser::document::Document;
use akt_browser::dom::{AttrMap, Element, NodeType, Text};
use akt_browser::fetch::{check_scheme, FetchError, HTTPStatus, Request, Response, ResponseType};
use akt_browser::html::{parse, parse_fragment, HTMLParseError};
use akt_browser::layout::{to_layout_document, BoxType, LayoutBox};
use akt_browser::style::{to_styled_document, Display, PropertyMap};
use akt_browser::utils::resolves_path;
use std::collections::HashMap;

fn document(body: &str) -> Document {
    parse(Response {
        rtype: ResponseType::Basic,
        url: "file:///page.html".to_string(),
        status: HTTPStatus::OK,
        headers: HashMap::new(),
        data: body.as_bytes().to_vec(),
    })
    .unwrap()
}

fn tag_of(b: &LayoutBox) -> String {
    match &b.box_props {
        Some(p) => match p.node_type {
            NodeType::Element(e) => e.tag_name.clone(),
            NodeType::Text(t) => format!("#{}", t.data),
        },
        None => String::new(),
    }
}

#[test]
fn inner_text_concatenates_in_document_order() {
    let nodes = parse_fragment("<div>a<p>b<i>c</i></p>d</div>").unwrap();
    assert_eq!(nodes[0].inner_text(), "abcd");
}

#[test]
fn inner_html_round_trips_markup() {
    let source = "<div id=\"x\" class=\"y z\">hello <p>w</p><i></i></div>";
    let nodes = parse_fragment(source).unwrap();
    assert_eq!(nodes[0].to_string(), source);
    let inner = nodes[0].inner_html();
    assert_eq!(inner, "hello <p>w</p><i></i>");
    assert_eq!(parse_fragment(&inner).unwrap(), parse_fragment("hello <p>w</p><i></i>").unwrap());
}

#[test]
fn set_inner_html_replaces_children() {
    let mut node = Element::new("div".to_string(), AttrMap::new(), vec![Text::new("old".to_string())]);
    assert_eq!(node.set_inner_html("<b>new</b>!".to_string()), Ok(()));
    assert_eq!(node.inner_html(), "<b>new</b>!");
    assert_eq!(node.inner_text(), "new!");
}

#[test]
fn set_inner_html_with_mismatched_tags_keeps_children() {
    let mut node = Element::new("div".to_string(), AttrMap::new(), vec![Text::new("old".to_string())]);
    assert_eq!(
        node.set_inner_html("<p>a</div>".to_string()),
        Err(HTMLParseError::InvalidResourceError(0))
    );
    assert_eq!(node.children, vec![Text::new("old".to_string())]);
}

#[test]
fn script_and_style_inners_are_collected() {
    let doc = document("<html><style>p { color: red }</style><script>one()</script><div><script>two()</script></div></html>");
    assert_eq!(doc.get_style_inners(), vec!["p { color: red }".to_string()]);
    assert_eq!(doc.get_script_inners(), vec!["one()".to_string(), "two()".to_string()]);
    assert_eq!(doc.collect_tag_inners("div"), vec!["two()".to_string()]);
    assert_eq!(doc.collect_tag_inners("table"), Vec::<String>::new());
}

#[test]
fn nested_elements_of_the_same_name_each_count() {
    let doc = document("<div>a<div>b</div></div>");
    assert_eq!(doc.collect_tag_inners("div"), vec!["ab".to_string(), "b".to_string()]);
}

#[test]
fn display_defaults_to_inline() {
    let doc = document("<div><p>x</p><span>y</span><script>z</script></div>");
    let styled = to_styled_document(&doc);
    let root = &styled.document_element;
    assert_eq!(root.display(), Display::Block);
    assert_eq!(root.children[0].display(), Display::Block);
    assert_eq!(root.children[1].display(), Display::Inline);
    assert_eq!(root.children[2].display(), Display::Hidden);
    assert_eq!(root.children[1].children[0].display(), Display::Inline);
}

#[test]
fn unknown_display_keyword_is_inline() {
    let doc = document("<div><style>span { display: flex } i { display: none }</style><span>y</span><i>z</i></div>");
    let styled = to_styled_document(&doc);
    assert_eq!(styled.document_element.children[1].display(), Display::Inline);
    assert_eq!(styled.document_element.children[2].display(), Display::Hidden);
}

#[test]
fn later_rule_overrides_earlier_rule() {
    let doc = document("<div><style>.big { width: 1em } span[class=big] { width: 2em } * { height: 3em }</style><span class=\"big\">y</span></div>");
    let styled = to_styled_document(&doc);
    let span = &styled.document_element.children[1];
    assert_eq!(span.properties.get("width"), Some(&CSSValue::Length((2, Unit::Em))));
    assert_eq!(span.properties.get("height"), Some(&CSSValue::Length((3, Unit::Em))));
    assert_eq!(span.properties.get("color"), None);
}

#[test]
fn document_style_overrides_the_baseline() {
    let doc = document("<div><style>div { display: inline }</style></div>");
    let styled = to_styled_document(&doc);
    assert_eq!(styled.document_element.display(), Display::Inline);
}

#[test]
fn unparsable_style_drops_all_rules() {
    let doc = document("<div><style>p { width: 1px }</style><p>x</p></div>");
    let styled = to_styled_document(&doc);
    assert_eq!(styled.document_element.display(), Display::Inline);
    assert_eq!(styled.document_element.children[1].display(), Display::Inline);
}

#[test]
fn class_selector_compares_the_whole_attribute() {
    let doc = document("<div><style>.a { width: 1em } span[class~=b] { height: 1em }</style><span class=\"a b\">y</span></div>");
    let styled = to_styled_document(&doc);
    let span = &styled.document_element.children[1];
    assert_eq!(span.properties.get("width"), None);
    assert_eq!(span.properties.get("height"), Some(&CSSValue::Length((1, Unit::Em))));
}

#[test]
fn grouping_example_gives_three_children() {
    let doc = document("<div><p>A</p>hi<p>B</p></div>");
    let layout = to_layout_document(to_styled_document(&doc));
    let top = &layout.top_box;
    assert_eq!(top.box_type, BoxType::BlockBox);
    assert_eq!(tag_of(top), "div");
    assert_eq!(top.children.len(), 3);
    assert_eq!(top.children[0].box_type, BoxType::BlockBox);
    assert_eq!(tag_of(&top.children[0]), "p");
    assert_eq!(top.children[1].box_type, BoxType::AnonymousBox);
    assert!(top.children[1].box_props.is_none());
    assert_eq!(top.children[1].children.len(), 1);
    assert_eq!(top.children[1].children[0].box_type, BoxType::InlineBox);
    assert_eq!(tag_of(&top.children[1].children[0]), "#hi");
    assert_eq!(top.children[2].box_type, BoxType::BlockBox);
    assert_eq!(tag_of(&top.children[2]), "p");
}

#[test]
fn inline_block_inline_gives_anonymous_block_anonymous() {
    let doc = document("<div>a<b>c</b><p>B</p><i>d</i>e</div>");
    let layout = to_layout_document(to_styled_document(&doc));
    let kinds: Vec<BoxType> = layout.top_box.children.iter().map(|c| c.box_type).collect();
    assert_eq!(kinds, vec![BoxType::AnonymousBox, BoxType::BlockBox, BoxType::AnonymousBox]);
    assert_eq!(layout.top_box.children[0].children.len(), 2);
    assert_eq!(layout.top_box.children[2].children.len(), 2);
}

#[test]
fn hidden_nodes_leave_no_box() {
    let doc = document("<div><script>x()</script><p>A</p></div>");
    let layout = to_layout_document(to_styled_document(&doc));
    assert_eq!(layout.top_box.children.len(), 1);
    assert_eq!(tag_of(&layout.top_box.children[0]), "p");

    let doc = document("<script>x()</script>");
    let layout = to_layout_document(to_styled_document(&doc));
    assert_eq!(layout.top_box.box_type, BoxType::NoneBox);
    assert!(layout.top_box.box_props.is_none());
    assert!(layout.top_box.children.is_empty());
}

#[test]
fn inline_box_children_are_not_grouped() {
    let doc = document("<span>a<p>b</p>c</span>");
    let layout = to_layout_document(to_styled_document(&doc));
    let kinds: Vec<BoxType> = layout.top_box.children.iter().map(|c| c.box_type).collect();
    assert_eq!(layout.top_box.box_type, BoxType::InlineBox);
    assert_eq!(kinds, vec![BoxType::InlineBox, BoxType::BlockBox, BoxType::InlineBox]);
}

#[test]
fn property_map_keeps_one_entry_per_name() {
    let mut m = PropertyMap::new();
    m.insert("width".to_string(), CSSValue::Length((1, Unit::Em)));
    m.insert("display".to_string(), CSSValue::Keyword("block".to_string()));
    m.insert("width".to_string(), CSSValue::Length((5, Unit::Em)));
    assert_eq!(m.entries.len(), 2);
    assert_eq!(m.get("width"), Some(&CSSValue::Length((5, Unit::Em))));
}

#[test]
fn resolves_paths_to_addresses() {
    assert_eq!(resolves_path("/home/u".to_string(), "https://example.com".to_string()), "https://example.com");
    assert_eq!(resolves_path("/home/u".to_string(), "http://example.com/a".to_string()), "http://example.com/a");
    assert_eq!(resolves_path("/home/u".to_string(), "/tmp/a.html".to_string()), "file:///tmp/a.html");
    assert_eq!(resolves_path("/home/u".to_string(), "a.html".to_string()), "file:///home/u/a.html");
    assert_eq!(resolves_path("/home/u/".to_string(), "a.html".to_string()), "file:///home/u/a.html");
}

#[test]
fn only_file_scheme_is_fetched() {
    assert_eq!(check_scheme("file"), Ok(()));
    assert_eq!(
        check_scheme("https"),
        Err(FetchError::URLSchemeUnsupportedError { scheme: "http(s)".to_string(), response: None })
    );
    assert_eq!(
        check_scheme("ftp"),
        Err(FetchError::URLSchemeUnsupportedError { scheme: "ftp".to_string(), response: None })
    );
}

#[test]
fn response_type_names() {
    assert_eq!(ResponseType::CORS.to_string(), "cors");
    assert_eq!(ResponseType::from_str("default"), Ok(ResponseType::Default));
    assert_eq!(ResponseType::from_str("opaque"), Err("invalid response type"));
    assert_eq!(Request::new("file:///a".to_string()).url, "file:///a");
}

#[test]
fn all_elements_in_document_order() {
    let doc = document("<div id=\"a\">x<p id=\"b\">y<i id=\"b\">z</i></p><span></span></div>");
    let tags: Vec<String> = doc
        .all_elements()
        .iter()
        .map(|n| match &n.node_type {
            NodeType::Element(e) => e.tag_name.clone(),
            NodeType::Text(_) => panic!("text node listed"),
        })
        .collect();
    assert_eq!(tags, vec!["div", "p", "i", "span"]);
}

#[test]
fn element_by_id_is_the_first_match() {
    let doc = document("<div id=\"a\">x<p id=\"b\">y<i id=\"b\">z</i></p></div>");
    let found = doc.get_element_by_id("b").unwrap();
    assert_eq!(found.inner_text(), "yz");
    assert!(doc.get_element_by_id("a").is_some());
    assert!(doc.get_element_by_id("c").is_none());
}
