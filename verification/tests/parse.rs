use tempo::ast::{Ast, Item, ItemKind};
use tempo::parse::{fill_in_text_fragments, parse_str, serialize, FragmentKind};

#[test]
fn parses_empty_string() {
    assert_eq!(parse_str("").unwrap(), vec![].into());
}

#[test]
fn parses_standalone_new_lines() {
    assert_eq!(
        parse_str("\n\n\n").unwrap(),
        vec![Item { kind: ItemKind::Text("\n\n\n".to_owned()) }].into()
    );
}

#[test]
fn parses_standalone_text() {
    assert_eq!(
        parse_str("hello world").unwrap(),
        vec![Item { kind: ItemKind::Text("hello world".to_owned()) }].into()
    );
}

#[test]
fn parses_standalone_code() {
    assert_eq!(
        parse_str("<% hello %>").unwrap(),
        vec![Item {
            kind: ItemKind::Code { source: " hello ".to_owned(), print_result: false },
        }]
        .into()
    );
}

#[test]
fn parses_two_adjacent_code() {
    assert_eq!(
        parse_str("<% hello %><% world %>").unwrap(),
        vec![
            Item { kind: ItemKind::Code { source: " hello ".to_owned(), print_result: false } },
            Item { kind: ItemKind::Code { source: " world ".to_owned(), print_result: false } },
        ]
        .into()
    );
}

#[test]
fn parses_trailing_text() {
    assert_eq!(
        parse_str("<% hello %>\n world").unwrap(),
        vec![
            Item { kind: ItemKind::Code { source: " hello ".to_owned(), print_result: false } },
            Item { kind: ItemKind::Text("\n world".to_owned()) },
        ]
        .into()
    );
}

#[test]
fn parses_leading_text() {
    assert_eq!(
        parse_str("say: <% hello %>").unwrap(),
        vec![
            Item { kind: ItemKind::Text("say: ".to_owned()) },
            Item { kind: ItemKind::Code { source: " hello ".to_owned(), print_result: false } },
        ]
        .into()
    );
}

#[test]
fn parses_print_sigil() {
    assert_eq!(
        parse_str("<%= x %>").unwrap(),
        vec![Item { kind: ItemKind::Code { source: " x ".to_owned(), print_result: true } }]
            .into()
    );
}

#[test]
fn print_sigil_strips_exactly_one_char() {
    assert_eq!(
        parse_str("<%== x %>").unwrap(),
        vec![Item { kind: ItemKind::Code { source: "= x ".to_owned(), print_result: true } }]
            .into()
    );
}

#[test]
fn parses_empty_code_block() {
    assert_eq!(
        parse_str("<%%>").unwrap(),
        vec![Item { kind: ItemKind::Code { source: "".to_owned(), print_result: false } }].into()
    );
}

#[test]
fn parses_empty_print_code_block() {
    assert_eq!(
        parse_str("<%=%>").unwrap(),
        vec![Item { kind: ItemKind::Code { source: "".to_owned(), print_result: true } }].into()
    );
}

#[test]
fn unterminated_marker_is_text() {
    assert_eq!(
        parse_str("<% never closed").unwrap(),
        vec![Item { kind: ItemKind::Text("<% never closed".to_owned()) }].into()
    );
}

#[test]
fn stray_closing_marker_is_text() {
    assert_eq!(
        parse_str("a %> b").unwrap(),
        vec![Item { kind: ItemKind::Text("a %> b".to_owned()) }].into()
    );
}

#[test]
fn shortest_match_ends_at_first_closing_marker() {
    assert_eq!(
        parse_str("<% a %> b %>").unwrap(),
        vec![
            Item { kind: ItemKind::Code { source: " a ".to_owned(), print_result: false } },
            Item { kind: ItemKind::Text(" b %>".to_owned()) },
        ]
        .into()
    );
}

#[test]
fn code_may_span_lines() {
    assert_eq!(
        parse_str("<% a\nb %>").unwrap(),
        vec![Item { kind: ItemKind::Code { source: " a\nb ".to_owned(), print_result: false } }]
            .into()
    );
}

#[test]
fn text_between_code_blocks() {
    assert_eq!(
        parse_str("a<%x%>b<%y%>c").unwrap(),
        vec![
            Item { kind: ItemKind::Text("a".to_owned()) },
            Item { kind: ItemKind::Code { source: "x".to_owned(), print_result: false } },
            Item { kind: ItemKind::Text("b".to_owned()) },
            Item { kind: ItemKind::Code { source: "y".to_owned(), print_result: false } },
            Item { kind: ItemKind::Text("c".to_owned()) },
        ]
        .into()
    );
}

#[test]
fn gap_filler_spans_whole_input_even_when_empty() {
    let frags = fill_in_text_fragments("", vec![]);
    assert_eq!(frags.len(), 1);
    assert!(matches!(frags[0].kind, FragmentKind::Text));
    assert_eq!(frags[0].span.low_index, 0);
    assert_eq!(frags[0].span.high_index, 0);
}

#[test]
fn serializes_parsed_document_verbatim() {
    let input = "pre <% a %>\n<%= b %> post";
    let doc = parse_str(input).unwrap();
    assert_eq!(serialize(&doc), input.to_owned());
}

#[test]
fn reparsing_serialized_document_round_trips() {
    let inputs = [
        "",
        "plain text only",
        "<% hello %><% world %>",
        "<%= print me %> and <% not me %>",
        "tail <% code %> then <% open never closed",
        "<%%><%=%>middle<% x %>",
    ];
    for input in inputs {
        let doc = parse_str(input).unwrap();
        let rendered = serialize(&doc);
        let again = parse_str(&rendered).unwrap();
        assert_eq!(doc, again);
    }
}
