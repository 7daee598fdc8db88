use parser::ast::{ASTPos, ASTRange};
use parser::md_parser::Parser;

fn range(begin: (u32, u32, u32), end: (u32, u32, u32)) -> ASTRange {
    ASTRange::new(ASTPos::new(begin.0, begin.1, begin.2), ASTPos::new(end.0, end.1, end.2))
}

#[test]
fn fresh_parser_stands_at_the_origin() {
    let parser = Parser::new();
    assert_eq!(parser.pos_tran_depth(), 0);
    assert!(!parser.pos_locked());
    assert_eq!(parser.pos_get_range(), range((1, 1, 0), (1, 1, 0)));
    assert_eq!(parser.pos_get_previous_line_range(), range((1, 1, 0), (1, 1, 0)));
}

#[test]
fn one_character_moves_column_and_offset() {
    let mut parser = Parser::new();
    parser.increase_ch();
    assert_eq!(parser.pos_get_range(), range((1, 1, 0), (1, 2, 1)));
    parser.increase_ch_n(4);
    assert_eq!(parser.pos_get_range(), range((1, 1, 0), (1, 6, 5)));
}

#[test]
fn one_line_moves_line_and_offset_and_resets_column() {
    let mut parser = Parser::new();
    parser.increase_ch_n(7);
    parser.increase_line();
    assert_eq!(parser.pos_get_range(), range((1, 1, 0), (2, 1, 8)));
    parser.increase_line_n(3);
    assert_eq!(parser.pos_get_range(), range((1, 1, 0), (5, 1, 11)));
}

#[test]
fn offset_alone_can_move() {
    let mut parser = Parser::new();
    parser.increase_pos();
    parser.increase_pos_n(9);
    assert_eq!(parser.pos_get_range(), range((1, 1, 0), (1, 1, 10)));
}

#[test]
fn line_ending_of_two_characters_adds_two_to_the_offset() {
    let mut parser = Parser::new();
    parser.increase_ch_n(3);
    parser.increase_line_ending(2);
    assert_eq!(parser.pos_get_range(), range((1, 1, 0), (2, 1, 5)));
    parser.increase_line_ending(1);
    assert_eq!(parser.pos_get_range(), range((1, 1, 0), (3, 1, 6)));
}

#[test]
fn transaction_anchors_the_range() {
    let mut parser = Parser::new();
    parser.increase_ch_n(2);
    parser.pos_begin_transaction();
    assert_eq!(parser.pos_tran_depth(), 1);
    parser.increase_ch_n(3);
    assert_eq!(parser.pos_get_range(), range((1, 3, 2), (1, 6, 5)));
    parser.pos_begin_transaction();
    parser.increase_ch();
    assert_eq!(parser.pos_tran_depth(), 2);
    assert_eq!(parser.pos_get_range(), range((1, 6, 5), (1, 7, 6)));
    parser.pos_commit();
    assert_eq!(parser.pos_get_range(), range((1, 3, 2), (1, 7, 6)));
    parser.pos_commit();
    assert_eq!(parser.pos_tran_depth(), 0);
    assert_eq!(parser.pos_get_range(), range((1, 1, 0), (1, 7, 6)));
}

#[test]
fn rollback_goes_back_to_where_the_transaction_began() {
    let mut parser = Parser::new();
    parser.increase_ch_n(2);
    parser.pos_begin_transaction();
    parser.increase_line_ending(1);
    parser.increase_ch_n(5);
    parser.pos_rollback();
    assert_eq!(parser.pos_tran_depth(), 0);
    assert_eq!(parser.pos_get_range(), range((1, 1, 0), (1, 3, 2)));
}

#[test]
fn nested_rollback_undoes_the_inner_part_only() {
    let mut parser = Parser::new();
    parser.pos_begin_transaction();
    parser.increase_ch_n(2);
    parser.pos_begin_transaction();
    parser.increase_ch_n(2);
    parser.pos_rollback();
    assert_eq!(parser.pos_get_range(), range((1, 1, 0), (1, 3, 2)));
    parser.pos_commit();
    assert_eq!(parser.pos_get_range(), range((1, 1, 0), (1, 3, 2)));
}

#[test]
fn closing_without_an_open_transaction_changes_nothing() {
    let mut parser = Parser::new();
    parser.increase_ch_n(2);
    parser.pos_commit();
    parser.pos_rollback();
    assert_eq!(parser.pos_tran_depth(), 0);
    assert_eq!(parser.pos_get_range(), range((1, 1, 0), (1, 3, 2)));
}

#[test]
fn end_transaction_commits_or_rolls_back() {
    let mut parser = Parser::new();
    parser.pos_begin_transaction();
    parser.increase_ch_n(2);
    parser.pos_end_transaction(true);
    assert_eq!(parser.pos_get_range(), range((1, 1, 0), (1, 3, 2)));
    parser.pos_begin_transaction();
    parser.increase_ch_n(2);
    parser.pos_end_transaction(false);
    assert_eq!(parser.pos_tran_depth(), 0);
    assert_eq!(parser.pos_get_range(), range((1, 1, 0), (1, 3, 2)));
}

#[test]
fn lock_suspends_advances_and_transactions() {
    let mut parser = Parser::new();
    parser.pos_begin_transaction();
    parser.increase_ch();
    parser.pos_lock();
    assert!(parser.pos_locked());
    parser.increase_ch_n(5);
    parser.increase_line_n(2);
    parser.increase_pos_n(3);
    parser.increase_line_ending(2);
    parser.pos_begin_transaction();
    assert_eq!(parser.pos_tran_depth(), 1);
    parser.pos_rollback();
    parser.pos_commit();
    assert_eq!(parser.pos_tran_depth(), 1);
    assert_eq!(parser.pos_get_range(), range((1, 1, 0), (1, 2, 1)));
    parser.pos_unlock();
    assert!(!parser.pos_locked());
    parser.increase_ch();
    assert_eq!(parser.pos_get_range(), range((1, 1, 0), (1, 3, 2)));
}

#[test]
fn isolate_restores_the_lock_that_was_there() {
    let mut parser = Parser::new();
    let outer = parser.pos_isolate();
    assert!(!outer);
    let inner = parser.pos_isolate();
    assert!(inner);
    parser.pos_release(inner);
    assert!(parser.pos_locked());
    parser.pos_release(outer);
    assert!(!parser.pos_locked());
}

#[test]
fn range_before_break_leaves_the_line_ending_out() {
    let mut parser = Parser::new();
    parser.pos_begin_transaction();
    parser.increase_ch_n(3);
    assert_eq!(parser.pos_get_previous_line_range(), range((1, 1, 0), (1, 4, 3)));
    parser.increase_line_ending(1);
    assert_eq!(parser.pos_get_range(), range((1, 1, 0), (2, 1, 4)));
    assert_eq!(parser.pos_get_previous_line_range(), range((1, 1, 0), (1, 4, 3)));
    parser.increase_ch();
    assert_eq!(parser.pos_get_previous_line_range(), range((1, 1, 0), (2, 2, 5)));
}

#[test]
fn range_before_break_without_a_transaction_starts_at_the_origin() {
    let mut parser = Parser::new();
    parser.increase_ch_n(3);
    parser.increase_line();
    assert_eq!(parser.pos_get_previous_line_range(), range((1, 1, 0), (1, 4, 3)));
}
