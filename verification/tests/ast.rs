use parser::ast::{ASTElm, ASTMetaData, ASTNode, ASTPos, ASTRange, ASTType};

#[allow(non_snake_case)]
#[test]
fn test_ASTPos_increase_positions() {
    let mut pos = ASTPos::new(1, 1, 0);
    assert_eq!(pos.pos(), 0);
    assert_eq!(pos.line(), 1);
    assert_eq!(pos.ch(), 1);

    pos.increase_pos_n(1);
    pos.increase_line_n(1);
    pos.increase_ch_n(1);

    // the offset counts characters: a line ending read and a character read each add to it
    assert_eq!(pos.pos(), 3);
    assert_eq!(pos.line(), 2);
    assert_eq!(pos.ch(), 2);
}

#[allow(non_snake_case)]
fn ASTNode_return() -> ASTNode {
    ASTNode::new(ASTElm {
        elm_type: ASTType::Document,
        elm_meta: ASTMetaData::Nil,
        value: "astnode_return".to_string(),
        ..Default::default()
    })
}

#[allow(non_snake_case)]
#[test]
fn ASTNode_basics() {
    let mut node = ASTNode::new(ASTElm {
        elm_type: ASTType::Document,
        elm_meta: ASTMetaData::Nil,
        value: "hello".to_string(),
        ..Default::default()
    });

    node.append(ASTElm {
        elm_type: ASTType::Document,
        elm_meta: ASTMetaData::Nil,
        value: "Hello2".to_string(),
        ..Default::default()
    });

    node.append_node(ASTNode::new(ASTElm {
        elm_type: ASTType::Document,
        elm_meta: ASTMetaData::Nil,
        value: "hello3".to_string(),
        ..Default::default()
    }));

    node.append_node(ASTNode_return());

    println!("{:?}", node);

    assert_eq!(node.value(), "hello");
    assert_eq!(node.children().len(), 3);
    assert_eq!(node.children()[0].value(), "Hello2");
    assert_eq!(node.children()[1].value(), "hello3");
    assert_eq!(node.children()[2].value(), "astnode_return");
}

#[test]
fn position_setters_replace_one_component() {
    let mut pos = ASTPos::new(3, 4, 5);
    pos.set_line(7);
    assert_eq!(pos, ASTPos::new(7, 4, 5));
    pos.set_ch(8);
    assert_eq!(pos, ASTPos::new(7, 8, 5));
    pos.set_pos(9);
    assert_eq!(pos, ASTPos::new(7, 8, 9));
}

#[test]
fn position_advances_by_the_given_amounts() {
    let mut pos = ASTPos::new(2, 5, 10);
    pos.increase_ch_n(3);
    assert_eq!(pos, ASTPos::new(2, 8, 13));
    pos.increase_line_n(2);
    assert_eq!(pos, ASTPos::new(4, 1, 15));
    pos.increase_pos_n(4);
    assert_eq!(pos, ASTPos::new(4, 1, 19));
    pos.increase_ch_n(0);
    assert_eq!(pos, ASTPos::new(4, 1, 19));
}

#[test]
fn defaults_are_an_empty_document() {
    assert_eq!(ASTType::default(), ASTType::Document);
    assert_eq!(ASTMetaData::default(), ASTMetaData::Nil);
    assert_eq!(ASTPos::default(), ASTPos::new(0, 0, 0));
    assert_eq!(ASTRange::default(), ASTRange::new(ASTPos::new(0, 0, 0), ASTPos::new(0, 0, 0)));
    let elm = ASTElm::default();
    assert_eq!(elm.elm_type, ASTType::Document);
    assert_eq!(elm.elm_meta, ASTMetaData::Nil);
    assert_eq!(elm.value, "");
    assert_eq!(elm.raw_value, "");
    assert_eq!(elm.range, ASTRange::default());
    assert_eq!(ASTElm::new_document(), elm);
}

#[test]
fn range_holds_its_ends() {
    let range = ASTRange::new(ASTPos::new(1, 2, 3), ASTPos::new(4, 5, 6));
    assert_eq!(range.begin, ASTPos::new(1, 2, 3));
    assert_eq!(range.end, ASTPos::new(4, 5, 6));
}

#[test]
fn element_builders_set_kind_and_texts() {
    let range = ASTRange::new(ASTPos::new(1, 1, 0), ASTPos::new(1, 4, 3));

    let paragraph = ASTElm::new_paragraph("v", "raw", range);
    assert_eq!(paragraph.elm_type, ASTType::Paragraph);
    assert_eq!(paragraph.elm_meta, ASTMetaData::Nil);
    assert_eq!(paragraph.value, "v");
    assert_eq!(paragraph.raw_value, "raw");
    assert_eq!(paragraph.range, range);

    let headers = ASTElm::new_headers(ASTMetaData::H3, "v", "raw", range);
    assert_eq!(headers.elm_type, ASTType::Headers);
    assert_eq!(headers.elm_meta, ASTMetaData::H3);
    assert_eq!(headers.value, "v");
    assert_eq!(headers.raw_value, "raw");

    let text = ASTElm::new_text("abc", range);
    assert_eq!(text.elm_type, ASTType::Text);
    assert_eq!(text.value, "abc");
    assert_eq!(text.raw_value, "abc");

    let emphasis = ASTElm::new_emphasis("", "*a*", range);
    assert_eq!(emphasis.elm_type, ASTType::Emphasis);
    assert_eq!(emphasis.value, "");
    assert_eq!(emphasis.raw_value, "*a*");

    let soft = ASTElm::new_softbreak(range);
    assert_eq!(soft.elm_type, ASTType::SoftBreak);
    assert_eq!(soft.value, "\n");
    assert_eq!(soft.raw_value, "\n");

    let hard = ASTElm::new_hardbreak(range);
    assert_eq!(hard.elm_type, ASTType::HardBreak);
    assert_eq!(hard.value, "\n");
    assert_eq!(hard.raw_value, "\n");
    assert_eq!(hard.range, range);
}

#[test]
fn node_getters_and_setters_agree() {
    let range = ASTRange::new(ASTPos::new(1, 1, 0), ASTPos::new(1, 4, 3));
    let mut node = ASTNode::new(ASTElm::new_text("abc", range));
    assert_eq!(*node.node_type(), ASTType::Text);
    assert_eq!(*node.meta(), ASTMetaData::Nil);
    assert_eq!(node.value(), "abc");
    assert_eq!(node.raw_value(), "abc");
    assert_eq!(*node.range(), range);
    assert!(node.children().is_empty());

    node.set_node_type(ASTType::Headers);
    node.set_meta(ASTMetaData::H2);
    node.set_value("v".to_string());
    node.set_raw_value("r".to_string());
    let other = ASTRange::new(ASTPos::new(2, 1, 4), ASTPos::new(2, 2, 5));
    node.set_range(other);
    assert_eq!(*node.node_type(), ASTType::Headers);
    assert_eq!(*node.meta(), ASTMetaData::H2);
    assert_eq!(node.value(), "v");
    assert_eq!(node.raw_value(), "r");
    assert_eq!(*node.range(), other);

    *node.node_type_mut() = ASTType::Paragraph;
    *node.meta_mut() = ASTMetaData::H6;
    node.value_mut().push('w');
    node.raw_value_mut().push('s');
    node.range_mut().end = ASTPos::new(9, 9, 9);
    assert_eq!(*node.node_type(), ASTType::Paragraph);
    assert_eq!(*node.meta(), ASTMetaData::H6);
    assert_eq!(node.value(), "vw");
    assert_eq!(node.raw_value(), "rs");
    assert_eq!(node.range().end, ASTPos::new(9, 9, 9));
}

#[test]
fn append_keeps_the_order_of_children() {
    let range = ASTRange::default();
    let mut node = ASTNode::new(ASTElm::new_document());
    node.append(ASTElm::new_text("a", range));
    node.append_node_from_vec(vec![
        ASTNode::new(ASTElm::new_text("b", range)),
        ASTNode::new(ASTElm::new_text("c", range)),
    ]);
    node.append_node(ASTNode::new(ASTElm::new_text("d", range)));
    node.append_node_from_vec(vec![]);
    let values: Vec<&str> = node.children().iter().map(|child| child.value().as_str()).collect();
    assert_eq!(values, vec!["a", "b", "c", "d"]);
}

#[test]
fn render_nests_tags_by_kind() {
    let range = ASTRange::default();
    let mut emphasis = ASTNode::new(ASTElm::new_emphasis("", "*a*", range));
    emphasis.append(ASTElm::new_text("a", range));
    let mut paragraph = ASTNode::new(ASTElm::new_paragraph("", "x\n*a*", range));
    paragraph.append(ASTElm::new_text("x", range));
    paragraph.append(ASTElm::new_softbreak(range));
    paragraph.append_node(emphasis);
    paragraph.append(ASTElm::new_hardbreak(range));
    let mut header = ASTNode::new(ASTElm::new_headers(ASTMetaData::H1, "", "# h", range));
    header.append(ASTElm::new_text("h", range));
    let mut document = ASTNode::new(ASTElm::new_document());
    document.append_node(header);
    document.append_node(paragraph);
    assert_eq!(
        document.render_debug_format(),
        "<document><header><text>h</text></header><paragraph><text>x</text><softbreak /><emphasis><text>a</text></emphasis><hardbreak /></paragraph></document>"
    );
    assert_eq!(ASTNode::new(ASTElm::new_document()).render_debug_format(), "<document></document>");
}

#[test]
fn render_twice_gives_the_same_text() {
    let range = ASTRange::default();
    let mut node = ASTNode::new(ASTElm::new_paragraph("", "ab", range));
    node.append(ASTElm::new_text("ab", range));
    let first = node.render_debug_format();
    let second = node.render_debug_format();
    assert_eq!(first, second);
    assert_eq!(first, "<paragraph><text>ab</text></paragraph>");
}

#[test]
fn render_looks_at_kind_children_and_text_only() {
    let mut one = ASTNode::new(ASTElm::new_headers(
        ASTMetaData::H1,
        "ignored",
        "# a",
        ASTRange::new(ASTPos::new(1, 1, 0), ASTPos::new(1, 4, 3)),
    ));
    one.append(ASTElm::new_text("a", ASTRange::default()));
    let mut other = ASTNode::new(ASTElm::new_headers(
        ASTMetaData::H5,
        "",
        "##### a",
        ASTRange::new(ASTPos::new(7, 1, 90), ASTPos::new(7, 8, 97)),
    ));
    other.append(ASTElm::new_text("a", ASTRange::new(ASTPos::new(7, 7, 96), ASTPos::new(7, 8, 97))));
    assert_eq!(one.render_debug_format(), other.render_debug_format());
}
