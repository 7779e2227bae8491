use chearmyp::lex::block;
use chearmyp::lex::find_line_ending;
use chearmyp::lex::has_3_special_characters;
use chearmyp::lex::Token;

#[test]
fn can_detect_special_characters() {
    assert!(has_3_special_characters(&b"aaa"[..], 0, 'a' as u8), "Normal string");
}

#[test]
fn cannot_detect_special_characters() {
    assert!(!has_3_special_characters(&b""[..], 0, 'a' as u8), "Empty string");
    assert!(!has_3_special_characters(&b"a"[..], 0, 'a' as u8), "Single character string");
    assert!(!has_3_special_characters(&b"aa"[..], 0, 'a' as u8), "Double character string");
}

#[test]
fn can_lex() {
    assert_eq!(block(&b"bbb\nb\nbbb"[..], 0, 0, 'b' as u8), (Token::Block(vec![&b"b"[..]]), 9));
}

#[test]
fn cannot_lex() {
    assert_eq!(block(&b""[..], 0, 0, 'c' as u8), (Token::Empty, 0));
    assert_eq!(block(&b"c"[..], 0, 0, 'c' as u8), (Token::Invalid, 0));
    assert_eq!(block(&b"cc"[..], 0, 0, 'c' as u8), (Token::Invalid, 0));
}

#[test]
fn no_match_leaves_any_offset_unchanged() {
    let src = &b"abc\n@@x\n"[..];
    assert_eq!(block(src, 4, 0, '@' as u8), (Token::Invalid, 4));
    assert_eq!(block(src, 8, 0, '@' as u8), (Token::Empty, 8));
    assert_eq!(block(src, 100, 0, '@' as u8), (Token::Empty, 100));
}

#[test]
fn unterminated_block_returns_every_line() {
    let src = &b"bbb\nhello\nworld"[..];
    let (token, offset) = block(src, 0, 0, 'b' as u8);
    assert_eq!(token, Token::Block(vec![&b"hello"[..], &b"world"[..]]));
    assert_eq!(offset, src.len());
}

#[test]
fn unterminated_block_with_trailing_newline_ends_at_buffer_end() {
    let src = &b"@@@\none\ntwo\n"[..];
    let (token, offset) = block(src, 0, 0, '@' as u8);
    assert_eq!(token, Token::Block(vec![&b"one"[..], &b"two"[..]]));
    assert_eq!(offset, src.len());
}

#[test]
fn indented_closing_fence_is_consumed_and_excluded() {
    let src = &b"@@@\n\tabc\n\t@@@\nrest"[..];
    let (token, offset) = block(src, 0, 1, '@' as u8);
    assert_eq!(token, Token::Block(vec![&b"\tabc"[..]]));
    assert_eq!(offset, 14);
    assert_eq!(&src[offset..], &b"rest"[..]);
}

#[test]
fn deeper_indented_fence_run_is_kept_as_content() {
    let src = &b"@@@\n\t\t@@@\n@@@\n"[..];
    let (token, offset) = block(src, 0, 1, '@' as u8);
    assert_eq!(token, Token::Block(vec![&b"\t\t@@@"[..], &b"@@@"[..]]));
    assert_eq!(offset, src.len());
}

#[test]
fn empty_line_stops_collection_where_it_stands() {
    let src = &b"bbb\n\nxx"[..];
    let (token, offset) = block(src, 0, 0, 'b' as u8);
    assert_eq!(token, Token::Block(vec![]));
    assert_eq!(offset, 4);
}

#[test]
fn block_offset_lands_on_a_line_boundary() {
    let src = &b"bbb\nx\nbbb\nnext line"[..];
    let (token, offset) = block(src, 0, 0, 'b' as u8);
    assert_eq!(token, Token::Block(vec![&b"x"[..]]));
    assert_eq!(offset, 10);
    assert_eq!(src[offset - 1], b'\n');
    assert_eq!(find_line_ending(src, offset), src.len());
}

#[test]
fn line_scanner_finds_newline_or_buffer_end() {
    let src = &b"ab\ncd"[..];
    assert_eq!(find_line_ending(src, 0), 2);
    assert_eq!(find_line_ending(src, 2), 2);
    assert_eq!(find_line_ending(src, 3), 5);
    assert_eq!(find_line_ending(src, 5), 5);
}
