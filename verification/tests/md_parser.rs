use parser::ast::{ASTElm, ASTMetaData, ASTNode, ASTPos, ASTRange, ASTType};
use parser::md_parser::{md_parse, ErrorKind, ParseError, Parser};

#[test]
fn test_single_char_ok() {
    let mut parser = Parser::new();
    assert_eq!(parser.pos_get_range(), ASTRange::new(ASTPos::new(1, 1, 0), ASTPos::new(1, 1, 0)));
    assert_eq!(parser.single_char('a', "abc"), Ok(("bc", 'a')));
    assert_eq!(parser.pos_get_range(), ASTRange::new(ASTPos::new(1, 1, 0), ASTPos::new(1, 2, 1)));
}

#[test]
fn test_single_char_ok_isolate() {
    let mut parser = Parser::new();
    assert_eq!(parser.pos_get_range(), ASTRange::new(ASTPos::new(1, 1, 0), ASTPos::new(1, 1, 0)));
    let was_locked = parser.pos_isolate();
    let found = parser.single_char('a', "abc");
    parser.pos_release(was_locked);
    assert_eq!(found, Ok(("bc", 'a')));
    assert_eq!(parser.pos_get_range(), ASTRange::new(ASTPos::new(1, 1, 0), ASTPos::new(1, 1, 0)));
}

#[test]
fn test_single_char_err() {
    let mut parser = Parser::new();
    assert_eq!(parser.pos_get_range(), ASTRange::new(ASTPos::new(1, 1, 0), ASTPos::new(1, 1, 0)));
    assert_eq!(parser.single_char('b', "abc"), Err(ParseError::new("abc", ErrorKind::Char)));
    assert_eq!(parser.pos_get_range(), ASTRange::new(ASTPos::new(1, 1, 0), ASTPos::new(1, 1, 0)));
}

#[test]
fn test_parse_emphasis_ok() {
    let mut parser = Parser::new();
    assert_eq!(parser.pos_get_range(), ASTRange::new(ASTPos::new(1, 1, 0), ASTPos::new(1, 1, 0)));
    assert_eq!(
        parser.parse_emphasis("*emphasis*").unwrap().1.render_debug_format(),
        "<emphasis><text>emphasis</text></emphasis>"
    );
    assert_eq!(parser.pos_get_range(), ASTRange::new(ASTPos::new(1, 1, 0), ASTPos::new(1, 11, 10)));
}

#[test]
fn test_parse_emphasis_multiline_ok() {
    let mut parser = Parser::new();
    assert_eq!(parser.pos_get_range(), ASTRange::new(ASTPos::new(1, 1, 0), ASTPos::new(1, 1, 0)));

    assert_eq!(
        parser.parse_emphasis("*emphasis\nemphasis*").unwrap().1.render_debug_format(),
        "<emphasis><text>emphasis</text><softbreak /><text>emphasis</text></emphasis>"
    );

    assert_eq!(parser.pos_get_range(), ASTRange::new(ASTPos::new(1, 1, 0), ASTPos::new(2, 10, 19)));
}

#[test]
fn test_parse_emphasis_nested_ok() {
    let mut parser = Parser::new();
    assert_eq!(parser.pos_get_range(), ASTRange::new(ASTPos::new(1, 1, 0), ASTPos::new(1, 1, 0)));

    assert_eq!(
        parser.parse_emphasis("*emphasis\n*emphasis*\nemphasis*").unwrap().1.render_debug_format(),
        "<emphasis><text>emphasis</text><softbreak /><emphasis><text>emphasis</text></emphasis><softbreak /><text>emphasis</text></emphasis>"
    );

    assert_eq!(parser.pos_get_range(), ASTRange::new(ASTPos::new(1, 1, 0), ASTPos::new(3, 10, 30)));
}

#[test]
fn test_parse_emphasis_err() {
    let mut parser = Parser::new();
    assert_eq!(parser.pos_get_range(), ASTRange::new(ASTPos::new(1, 1, 0), ASTPos::new(1, 1, 0)));

    assert_eq!(
        parser.parse_emphasis("*invalid\nemphasis"),
        Err(ParseError::new("*invalid\nemphasis", ErrorKind::Char))
    );

    assert_eq!(
        parser.parse_emphasis("invalid\nemphasis*"),
        Err(ParseError::new("invalid\nemphasis*", ErrorKind::Char))
    );

    assert_eq!(
        parser.parse_emphasis("*invalid\n*emphasis*"),
        Err(ParseError::new("*invalid\n*emphasis*", ErrorKind::Char))
    );

    assert_eq!(parser.pos_get_range(), ASTRange::new(ASTPos::new(1, 1, 0), ASTPos::new(1, 1, 0)));
}

#[test]
fn test_parse_inline_ok() {
    let mut parser = Parser::new();
    assert_eq!(parser.pos_get_range(), ASTRange::new(ASTPos::new(1, 1, 0), ASTPos::new(1, 1, 0)));

    assert_eq!(
        parser.parse_inline("this is text*this is Emphasis*"),
        Ok((
            "*this is Emphasis*",
            ASTNode::new(ASTElm::new_text(
                "this is text",
                ASTRange::new(ASTPos::new(1, 1, 0), ASTPos::new(1, 13, 12))
            ))
        ))
    );

    assert_eq!(parser.pos_get_range(), ASTRange::new(ASTPos::new(1, 1, 0), ASTPos::new(1, 13, 12)));
}

#[test]
fn test_parse_paragraph() {
    let mut parser = Parser::new();
    assert_eq!(parser.pos_get_range(), ASTRange::new(ASTPos::new(1, 1, 0), ASTPos::new(1, 1, 0)));

    assert_eq!(
        parser.parse_paragraph("this is text*this is Emphasis*").unwrap().1.render_debug_format(),
        "<paragraph><text>this is text</text><emphasis><text>this is Emphasis</text></emphasis></paragraph>"
    );

    assert_eq!(parser.pos_get_range(), ASTRange::new(ASTPos::new(1, 1, 0), ASTPos::new(1, 31, 30)));
}

#[test]
fn test_parse_paragraph_multiline() {
    let mut parser = Parser::new();
    assert_eq!(parser.pos_get_range(), ASTRange::new(ASTPos::new(1, 1, 0), ASTPos::new(1, 1, 0)));

    assert_eq!(
        parser.parse_paragraph("this is text\nmultiline").unwrap().1.render_debug_format(),
        "<paragraph><text>this is text</text><softbreak /><text>multiline</text></paragraph>"
    );

    assert_eq!(parser.pos_get_range(), ASTRange::new(ASTPos::new(1, 1, 0), ASTPos::new(2, 10, 22)));
}

#[test]
fn test_parse_paragraph_multiline_other_block() {
    let mut parser = Parser::new();
    assert_eq!(parser.pos_get_range(), ASTRange::new(ASTPos::new(1, 1, 0), ASTPos::new(1, 1, 0)));

    assert_eq!(
        parser
            .parse_paragraph("this is text\nmultiline\n# headering")
            .unwrap()
            .1
            .render_debug_format(),
        "<paragraph><text>this is text</text><softbreak /><text>multiline</text></paragraph>"
    );

    assert_eq!(parser.pos_get_range(), ASTRange::new(ASTPos::new(1, 1, 0), ASTPos::new(2, 10, 22)));

    let mut parser = Parser::new();
    assert_eq!(parser.pos_get_range(), ASTRange::new(ASTPos::new(1, 1, 0), ASTPos::new(1, 1, 0)));
    assert_eq!(
        parser.parse_paragraph("this is text\nmultiline\n# headering").unwrap().0,
        "\n# headering"
    );
    assert_eq!(parser.pos_get_range(), ASTRange::new(ASTPos::new(1, 1, 0), ASTPos::new(2, 10, 22)));
}

#[test]
fn test_parse_headers() {
    let mut parser = Parser::new();
    assert_eq!(parser.pos_get_range(), ASTRange::new(ASTPos::new(1, 1, 0), ASTPos::new(1, 1, 0)));

    assert_eq!(
        parser.parse_headers("# *headering*").unwrap().1.render_debug_format(),
        "<header><emphasis><text>headering</text></emphasis></header>"
    );

    assert_eq!(parser.pos_get_range(), ASTRange::new(ASTPos::new(1, 1, 0), ASTPos::new(1, 14, 13)));
}

#[test]
fn test_parse_document() {
    let mut parser = Parser::new();
    let mut node = ASTNode::new(ASTElm::new_document());
    assert_eq!(parser.pos_get_range(), ASTRange::new(ASTPos::new(1, 1, 0), ASTPos::new(1, 1, 0)));

    node = parser.parse_document(
        "# *headering*\n\nthis is paragraph\n*this is emphasis*\n\nthis is other paragraph",
        node,
    );

    assert_eq!(parser.pos_get_range(), ASTRange::new(ASTPos::new(1, 1, 0), ASTPos::new(6, 24, 76)));

    assert_eq!(
        node.render_debug_format(),
        "<document><header><emphasis><text>headering</text></emphasis></header><paragraph><text>this is paragraph</text><softbreak /><emphasis><text>this is emphasis</text></emphasis></paragraph><paragraph><text>this is other paragraph</text></paragraph></document>"
    );
}

#[test]
fn test_decide_char_printable() {
    let parser = Parser::new();
    println!("------------------------------------------\n");
    println!("ascii 'a': {:?}", parser.decide_char_printable('a'));
    println!("ascii '\\n': {:?}", parser.decide_char_printable('\n'));
    println!("ascii ' ': {:?}", parser.decide_char_printable(' '));
}

#[test]
fn test_parse_nc_char() {
    let mut parser = Parser::new();
    println!("------------------------------------------\n");
    println!("{:?}", parser.parse_nc_char("abc"));
    println!("{:?}", parser.parse_nc_char("\nabc"));
    println!("{:?}", parser.parse_nc_char("\tcde"));
}

#[test]
fn test_parse_nbr_string() {
    let node = ASTNode::new(ASTElm {
        elm_type: ASTType::Text,
        elm_meta: ASTMetaData::Nil,
        value: "parse_nbr_string".to_string(),
        ..Default::default()
    });
    let mut parser = Parser::new();
    assert_eq!(
        parser.parse_nbr_string("parse_nbr_string\ntest"),
        Ok(("\ntest", node.value().to_string()))
    );
}

#[test]
fn test_parse_string() {
    let mut parser = Parser::new();
    let test_case = "parse_string\ntest\nallow line-break";
    assert_eq!(parser.parse_string(test_case), Ok(("", test_case.to_string())));
}

#[test]
fn test_parse_blocks() {
    let mut parser = Parser::new();
    println!("-----parse_blocks------");
    println!("parse_blocks # headering -> {:?}", parser.parse_blocks("# headering"));
    println!("parse_blocks paragraph -> {:?}", parser.parse_blocks("paragraph"));
    println!(
        "parse_blocks # headering\\nparagraph ->{:?}",
        parser.parse_blocks("# headering\nparagraph")
    );
    println!(
        "parse_blocks # headering\\nparagraph\\n# headering2 ->{:?}",
        parser.parse_blocks("# headering\nparagraph\n# headering2")
    );
    println!("-----parse_blocks------");
}

#[test]
fn test_md_parse() {
    let mut node = ASTNode::new(ASTElm { ..Default::default() });
    node = md_parse("# headering\nparagraph\n# headering2", node);

    let mut dest = ASTNode::new(ASTElm {
        elm_type: ASTType::Document,
        elm_meta: ASTMetaData::Nil,
        value: "".to_string(),
        raw_value: "# headering\nparagraph\n# headering2".to_string(),
        range: ASTRange::new(ASTPos::new(1, 1, 0), ASTPos::new(3, 13, 34)),
    });

    let mut headering = ASTNode::new(ASTElm {
        elm_type: ASTType::Headers,
        elm_meta: ASTMetaData::H1,
        value: "".to_string(),
        raw_value: "# headering".to_string(),
        range: ASTRange::new(ASTPos::new(1, 1, 0), ASTPos::new(1, 12, 11)),
    });

    let mut paragraph = ASTNode::new(ASTElm {
        elm_type: ASTType::Paragraph,
        elm_meta: ASTMetaData::Nil,
        value: "".to_string(),
        raw_value: "paragraph".to_string(),
        range: ASTRange::new(ASTPos::new(2, 1, 12), ASTPos::new(2, 10, 21)),
    });

    let mut headering2 = ASTNode::new(ASTElm {
        elm_type: ASTType::Headers,
        elm_meta: ASTMetaData::H1,
        value: "".to_string(),
        raw_value: "# headering2".to_string(),
        range: ASTRange::new(ASTPos::new(3, 1, 22), ASTPos::new(3, 13, 34)),
    });

    let text_headering = ASTNode::new(ASTElm {
        elm_type: ASTType::Text,
        elm_meta: ASTMetaData::Nil,
        value: "headering".to_string(),
        raw_value: "headering".to_string(),
        range: ASTRange::new(ASTPos::new(1, 3, 2), ASTPos::new(1, 12, 11)),
    });

    let text_headering2 = ASTNode::new(ASTElm {
        elm_type: ASTType::Text,
        elm_meta: ASTMetaData::Nil,
        value: "headering2".to_string(),
        raw_value: "headering2".to_string(),
        range: ASTRange::new(ASTPos::new(3, 3, 24), ASTPos::new(3, 13, 34)),
    });

    let text_paragraph = ASTNode::new(ASTElm {
        elm_type: ASTType::Text,
        elm_meta: ASTMetaData::Nil,
        value: "paragraph".to_string(),
        raw_value: "paragraph".to_string(),
        range: ASTRange::new(ASTPos::new(2, 1, 12), ASTPos::new(2, 10, 21)),
    });

    headering.append_node(text_headering);
    headering2.append_node(text_headering2);
    paragraph.append_node(text_paragraph);
    dest.append_node(headering);
    dest.append_node(paragraph);
    dest.append_node(headering2);

    assert_eq!(node, dest);
}

#[test]
fn test_parse_separate() {
    let mut parser = Parser::new();
    println!("!!!!! test parse separate !!!!!");
    println!("{:?}", parser.parse_separate("paragraph\n# headering"));
    println!("{:?}", parser.parse_separate("paragraph\n\n\nparagraph2"));
    println!("{:?}", parser.parse_separate("paragraph"));
    println!("{:?}", parser.parse_separate("paragraph\ncontinue_paragraph\n\nother_paragraph"));
    println!(
        "{:?}",
        parser.parse_separate("hogehoge\ncontinue_paragraph\nthird_paragraph\nfour_paragraph2")
    );
    println!(
        "{:?}",
        parser.parse_separate("日本語でも\nしっかりと\n動作するか\n確認します。令和\n\n")
    );
    println!("!!!!! test parse separate !!!!!");
}

#[test]
fn test_parse_nsp_char() {
    let mut parser = Parser::new();
    println!("{:?}", parser.parse_nsp_char("abc"));
    println!("{:?}", parser.parse_nsp_char("*abc"));
    println!("{:?}", parser.parse_nsp_char("*bc"));
}

#[test]
fn test_parse_nsp_string() {
    let mut parser = Parser::new();
    println!("{:?}", parser.parse_nsp_string("hogehoge*hogehoge"));
    println!("{:?}", parser.parse_nsp_string("*remain"));
    println!("{:?}", parser.parse_nsp_string("a*hoge"));
    println!("{:?}", parser.parse_nsp_string("hoge*"));
}
