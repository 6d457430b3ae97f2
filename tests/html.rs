use akt_browser::dom::{AttrMap, Element, NodeType, Text};
use akt_browser::fetch::{HTTPStatus, Response, ResponseType};
use akt_browser::html::{
    attribute, attributes, close_tag, element, open_tag, parse, parse_fragment,
    parse_without_normalziation, text, HTMLParseError,
};
use std::collections::HashMap;

fn chars(s: &str) -> Vec<char> {
    s.chars().collect()
}

fn response(body: &str) -> Response {
    Response {
        rtype: ResponseType::Basic,
        url: "file:///tmp/index.html".to_string(),
        status: HTTPStatus::OK,
        headers: HashMap::new(),
        data: body.as_bytes().to_vec(),
    }
}

#[test]
fn test_parse_element() {
    let input = chars("<p></p>");
    assert_eq!(
        element(&input, 0),
        Some((Element::new("p".to_string(), AttrMap::new(), vec![]), input.len()))
    );

    let input = chars("<p>Hello World</p>");
    assert_eq!(
        element(&input, 0),
        Some((
            Element::new(
                "p".to_string(),
                AttrMap::new(),
                vec![Text::new("Hello World".to_string())]
            ),
            input.len()
        ))
    );

    assert!(element(&chars("<p>Hello World</div>"), 0).is_none());
}

#[test]
fn test_parse_text() {
    {
        let input = chars("Hello World");
        assert_eq!(text(&input, 0), (Text::new("Hello World".to_string()), input.len()));
    }
    {
        let input = chars("Hello World<");
        assert_eq!(text(&input, 0), (Text::new("Hello World".to_string()), input.len() - 1));
        assert_eq!(input[input.len() - 1], '<');
    }
}

#[test]
fn test_parse_open_tag() {
    {
        let input = chars("<p>");
        assert_eq!(open_tag(&input, 0), Some(("p".to_string(), AttrMap::new(), input.len())));
    }
    {
        let mut attributes = AttrMap::new();
        attributes.insert("id".to_string(), "test".to_string());
        let input = chars("<p id=\"test\">");
        assert_eq!(open_tag(&input, 0), Some(("p".to_string(), attributes, input.len())))
    }

    {
        let input = chars("<p id=\"test\" class=\"sample\">");
        let result = open_tag(&input, 0);
        let mut attributes = AttrMap::new();
        attributes.insert("id".to_string(), "test".to_string());
        attributes.insert("class".to_string(), "sample".to_string());
        assert_eq!(result, Some(("p".to_string(), attributes, input.len())));
    }
}

#[test]
fn test_parse_close_tag() {
    let input = chars("</p>");
    let result = close_tag(&input, 0);
    assert_eq!(result, Some(("p".to_string(), input.len())))
}

#[test]
fn test_parse_attributes() {
    let mut expected_map = AttrMap::new();
    expected_map.insert("test".to_string(), "foobar".to_string());
    let input = chars("test=\"foobar\"");
    assert_eq!(attributes(&input, 0), Some((expected_map, input.len())));
}

#[test]
fn test_parse_attribute() {
    let input = chars("test=\"foobar\"");
    assert_eq!(
        attribute(&input, 0),
        Some((("test".to_string(), "foobar".to_string()), input.len()))
    );

    let input = chars("test = \"foobar\"");
    assert_eq!(
        attribute(&input, 0),
        Some((("test".to_string(), "foobar".to_string()), input.len()))
    );

    let input = chars("test = \"&quot;&quot;\"");
    assert_eq!(
        attribute(&input, 0),
        Some((("test".to_string(), "\"\"".to_string()), input.len()))
    )
}

#[test]
fn mismatched_tags_fail_the_whole_parse() {
    assert_eq!(
        parse_fragment("<p>Hello World</div>"),
        Err(HTMLParseError::InvalidResourceError(0))
    );
    assert!(parse_fragment("<div><p>a</div></p>").is_err());
    assert!(parse_without_normalziation(b"<a>x</b>".to_vec()).is_err());
    assert!(parse(response("<html><p>x</q></html>")).is_err());
}

#[test]
fn single_top_level_node_is_the_root() {
    let doc = parse(response("<div id=\"main\">hi</div>")).unwrap();
    assert_eq!(doc.url, "file:///tmp/index.html");
    assert_eq!(doc.document_uri, "file:///tmp/index.html");
    match &doc.document_element.node_type {
        NodeType::Element(e) => {
            assert_eq!(e.tag_name, "div");
            assert_eq!(e.id(), Some(&"main".to_string()));
        }
        _ => panic!("expected an element"),
    }
    assert_eq!(doc.document_element.inner_text(), "hi");
}

#[test]
fn several_top_level_nodes_are_wrapped_in_html() {
    let doc = parse(response("<p>a</p>\n<p>b</p>")).unwrap();
    match &doc.document_element.node_type {
        NodeType::Element(e) => {
            assert_eq!(e.tag_name, "html");
            assert_eq!(e.attributes, AttrMap::new());
        }
        _ => panic!("expected an element"),
    }
    assert_eq!(doc.document_element.children.len(), 3);
    assert_eq!(doc.document_element.inner_html(), "<p>a</p>\n<p>b</p>");
}

#[test]
fn empty_payload_gives_an_empty_html_root() {
    let doc = parse(response("")).unwrap();
    assert_eq!(doc.document_element, Element::new("html".to_string(), AttrMap::new(), vec![]));
}

#[test]
fn text_is_kept_verbatim() {
    let nodes = parse_fragment("  line one\n\tline two ").unwrap();
    assert_eq!(nodes, vec![Text::new("  line one\n\tline two ".to_string())]);
}

#[test]
fn space_after_the_last_attribute_is_refused() {
    assert!(parse_fragment("<p id=\"a\" >x</p>").is_err());
    assert!(parse_fragment("<p >x</p>").is_ok());
}

#[test]
fn attribute_values_must_be_quoted_and_not_empty() {
    assert!(parse_fragment("<p id=a>x</p>").is_err());
    assert!(parse_fragment("<p id=\"\">x</p>").is_err());
}

#[test]
fn repeated_attribute_keeps_the_last_value() {
    let nodes = parse_fragment("<p a=\"1\" b=\"2\" a=\"3\"></p>").unwrap();
    match &nodes[0].node_type {
        NodeType::Element(e) => assert_eq!(
            e.attributes(),
            vec![("a".to_string(), "3".to_string()), ("b".to_string(), "2".to_string())]
        ),
        _ => panic!("expected an element"),
    }
}

#[test]
fn non_ascii_letters_name_elements() {
    let nodes = parse_fragment("<été>x</été>").unwrap();
    match &nodes[0].node_type {
        NodeType::Element(e) => assert_eq!(e.tag_name, "été"),
        _ => panic!("expected an element"),
    }
    assert!(parse_fragment("<h1>x</h1>").is_err());
}

#[test]
fn non_ascii_whitespace_separates_attributes() {
    let nodes = parse_fragment("<p\u{3000}id\u{3000}=\u{3000}\"a\">x</p>").unwrap();
    match &nodes[0].node_type {
        NodeType::Element(e) => assert_eq!(e.id(), Some(&"a".to_string())),
        _ => panic!("expected an element"),
    }
}

#[test]
fn utf8_payload_is_decoded() {
    let nodes = parse_without_normalziation("<p>日本 é</p>".as_bytes().to_vec()).unwrap();
    assert_eq!(nodes[0].inner_text(), "日本 é");
    assert_eq!(nodes[0].to_string(), "<p>日本 é</p>");
}
