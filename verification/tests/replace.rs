use pipesh::lex::CharCursor;
use pipesh::replace::{ReplaceOne, Stream};

#[test]
fn cursor_gives_each_character_with_its_position() {
    let mut cursor = CharCursor::new("aé;");
    assert_eq!(cursor.next(), Some((0, 'a')));
    assert_eq!(cursor.next(), Some((1, 'é')));
    assert_eq!(cursor.next(), Some((2, ';')));
    assert_eq!(cursor.next(), None);
    assert_eq!(cursor.next(), None);
}

#[test]
fn replaced_item_comes_out_first() {
    let mut stream = ReplaceOne::new(CharCursor::new("abc"));
    assert_eq!(stream.next(), Some((0, 'a')));
    stream.replace((0, 'a'));
    assert_eq!(stream.next(), Some((0, 'a')));
    assert_eq!(stream.next(), Some((1, 'b')));
    assert_eq!(stream.next(), Some((2, 'c')));
    assert_eq!(stream.next(), None);
}

#[test]
fn replacing_twice_keeps_the_last_item() {
    let mut stream = ReplaceOne::new(CharCursor::new("xy"));
    stream.replace((7, 'p'));
    stream.replace((8, 'q'));
    assert_eq!(stream.next(), Some((8, 'q')));
    assert_eq!(stream.next(), Some((0, 'x')));
    assert_eq!(stream.next(), Some((1, 'y')));
    assert_eq!(stream.next(), None);
}

#[test]
fn item_replaced_at_the_end_still_comes_out() {
    let mut stream = ReplaceOne::new(CharCursor::new(""));
    assert_eq!(stream.next(), None);
    stream.replace((3, 'z'));
    assert_eq!(stream.next(), Some((3, 'z')));
    assert_eq!(stream.next(), None);
}
