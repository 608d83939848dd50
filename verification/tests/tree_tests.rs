use piece_table::arena::Color;
use piece_table::piece::BufferKind;
use piece_table::tree::PieceTree;

#[test]
fn new_builds_one_black_node_over_the_original_text() {
    for text in ["", "ab\ncd\n"] {
        let t = PieceTree::new(text);
        assert_eq!(t.root, Some(0));
        let n = t.arena.get(0);
        assert_eq!(n.piece.buffer_kind, BufferKind::Original);
        assert_eq!(n.piece.start, 0);
        assert_eq!(n.piece.length, text.len());
        assert_eq!(n.color, Color::Black);
        assert_eq!((n.left, n.right, n.parent), (None, None, None));
        assert_eq!((n.left_char_count, n.left_line_count), (0, 0));
    }
    let t = PieceTree::new("ab\ncd\n");
    assert_eq!(t.arena.get(0).piece.line_starts, vec![2, 5]);
    assert_eq!(t.arena.get(0).piece.line_feed_count, 2);
}

#[test]
fn new_holds_the_text() {
    let t = PieceTree::new("hello");
    assert_eq!(t.get_text(), "hello");
    assert_eq!(t.len(), 5);
    assert_eq!(t.line_count(), 1);
}

#[test]
fn new_counts_lines() {
    let t = PieceTree::new("a\nb\nc");
    assert_eq!(t.len(), 5);
    assert_eq!(t.line_count(), 3);
}

#[test]
fn new_empty_document() {
    let t = PieceTree::new("");
    assert_eq!(t.get_text(), "");
    assert_eq!(t.len(), 0);
    assert_eq!(t.line_count(), 1);
}

#[test]
fn new_counts_bytes_not_chars() {
    let t = PieceTree::new("héllo");
    assert_eq!(t.len(), 6);
    assert_eq!(t.get_text(), "héllo");
}

#[test]
fn insert_in_the_middle_of_a_piece() {
    let mut t = PieceTree::new("hello");
    t.insert(2, "XY");
    assert_eq!(t.get_text(), "heXYllo");
    assert_eq!(t.len(), 7);
    assert_eq!(t.line_count(), 1);
}

#[test]
fn insert_at_a_piece_start() {
    let mut t = PieceTree::new("hello");
    t.insert(0, "X");
    assert_eq!(t.get_text(), "Xhello");
    assert_eq!(t.len(), 6);
}

#[test]
fn insert_at_the_end() {
    let mut t = PieceTree::new("abc");
    t.insert(3, "X");
    assert_eq!(t.get_text(), "abcX");
    assert_eq!(t.len(), 4);
    assert_eq!(t.line_count(), 1);
}

#[test]
fn insert_into_an_empty_document() {
    let mut t = PieceTree::new("");
    t.insert(0, "hi\nyo");
    assert_eq!(t.get_text(), "hi\nyo");
    assert_eq!(t.len(), 5);
    assert_eq!(t.line_count(), 2);
}

#[test]
fn insert_before_an_earlier_piece() {
    let mut t = PieceTree::new("abcdef");
    t.insert(3, "X");
    t.insert(1, "Y");
    assert_eq!(t.get_text(), "aYbcXdef");
    t.insert(0, "Z");
    assert_eq!(t.get_text(), "ZaYbcXdef");
}

#[test]
fn insert_counts_new_lines() {
    let mut t = PieceTree::new("ab");
    t.insert(1, "\n\n");
    assert_eq!(t.get_text(), "a\n\nb");
    assert_eq!(t.line_count(), 3);
    assert_eq!(t.len(), 4);
}

#[test]
fn insert_twice_inside_the_last_piece() {
    let mut t = PieceTree::new("abcdef");
    t.insert(3, "X");
    assert_eq!(t.get_text(), "abcXdef");
    t.insert(5, "Y");
    assert_eq!(t.get_text(), "abcXdYef");
    t.insert(7, "Z");
    assert_eq!(t.get_text(), "abcXdYeZf");
    assert_eq!(t.len(), 9);
}

#[test]
fn insert_non_ascii_text() {
    let mut t = PieceTree::new("añb");
    t.insert(1, "€");
    assert_eq!(t.get_text(), "a€ñb");
    assert_eq!(t.len(), 7);
}

#[test]
fn delete_nothing() {
    let mut t = PieceTree::new("hello");
    t.delete(1, 0);
    assert_eq!(t.get_text(), "hello");
    assert_eq!(t.len(), 5);
}

#[test]
fn delete_past_the_end_does_nothing() {
    let mut t = PieceTree::new("hello");
    t.delete(5, 3);
    assert_eq!(t.get_text(), "hello");
    t.delete(9, 1);
    assert_eq!(t.get_text(), "hello");
}

#[test]
fn delete_start_of_piece() {
    let mut t = PieceTree::new("hello world");
    t.delete(0, 6);
    assert_eq!(t.get_text(), "world");
    assert_eq!(t.len(), 5);
}

#[test]
fn delete_end_of_piece() {
    let mut t = PieceTree::new("hello world");
    t.delete(5, 6);
    assert_eq!(t.get_text(), "hello");
    assert_eq!(t.len(), 5);
}

#[test]
fn delete_runs_to_the_end() {
    let mut t = PieceTree::new("hello world");
    t.delete(5, 100);
    assert_eq!(t.get_text(), "hello");
}

#[test]
fn delete_middle_of_piece() {
    let mut t = PieceTree::new("hello world");
    t.delete(2, 3);
    assert_eq!(t.get_text(), "he world");
    assert_eq!(t.len(), 8);
}

#[test]
fn delete_inside_an_earlier_piece() {
    let mut t = PieceTree::new("abcdef");
    t.insert(3, "XY");
    assert_eq!(t.get_text(), "abcXYdef");
    t.delete(1, 1);
    assert_eq!(t.get_text(), "acXYdef");
}

#[test]
fn delete_whole_document() {
    let mut t = PieceTree::new("abc\ndef");
    t.delete(0, 7);
    assert_eq!(t.get_text(), "");
    assert_eq!(t.len(), 0);
    assert_eq!(t.line_count(), 1);
}

#[test]
fn delete_across_pieces() {
    let mut t = PieceTree::new("hello");
    t.insert(2, "XY");
    assert_eq!(t.get_text(), "heXYllo");
    t.delete(1, 4);
    assert_eq!(t.get_text(), "hlo");
    assert_eq!(t.len(), 3);
}

#[test]
fn delete_removes_line_feeds_from_the_count() {
    let mut t = PieceTree::new("a\nb\nc\nd");
    assert_eq!(t.line_count(), 4);
    t.delete(1, 4);
    assert_eq!(t.get_text(), "a\nd");
    assert_eq!(t.line_count(), 2);
}

#[test]
fn delete_a_whole_inserted_piece() {
    let mut t = PieceTree::new("abcd");
    t.insert(2, "XYZ");
    t.delete(2, 3);
    assert_eq!(t.get_text(), "abcd");
    assert_eq!(t.len(), 4);
}

#[test]
fn get_slice_inside() {
    let t = PieceTree::new("hello world");
    assert_eq!(t.get_slice(6, 5), "world");
    assert_eq!(t.get_slice(0, 5), "hello");
    assert_eq!(t.get_slice(3, 0), "");
}

#[test]
fn get_slice_cut_at_the_end() {
    let t = PieceTree::new("hello world");
    assert_eq!(t.get_slice(6, 100), "world");
    assert_eq!(t.get_slice(20, 3), "");
    assert_eq!(t.get_slice(11, 3), "");
}

#[test]
fn get_slice_across_pieces() {
    let mut t = PieceTree::new("hello");
    t.insert(2, "XY");
    assert_eq!(t.get_slice(1, 4), "eXYl");
    assert_eq!(t.get_slice(3, 10), "Yllo");
}

#[test]
fn get_line_each_line() {
    let t = PieceTree::new("ab\ncd\nef");
    assert_eq!(t.get_line(0), Some("ab".to_string()));
    assert_eq!(t.get_line(1), Some("cd".to_string()));
    assert_eq!(t.get_line(2), Some("ef".to_string()));
    assert_eq!(t.get_line(3), None);
}

#[test]
fn get_line_empty_lines() {
    let t = PieceTree::new("a\n\nb\n");
    assert_eq!(t.get_line(0), Some("a".to_string()));
    assert_eq!(t.get_line(1), Some("".to_string()));
    assert_eq!(t.get_line(2), Some("b".to_string()));
    assert_eq!(t.get_line(3), Some("".to_string()));
    assert_eq!(t.get_line(4), None);
}

#[test]
fn get_line_across_pieces() {
    let mut t = PieceTree::new("ab\ncd");
    t.insert(4, "XX\nYY");
    assert_eq!(t.get_text(), "ab\ncXX\nYYd");
    assert_eq!(t.get_line(1), Some("cXX".to_string()));
    assert_eq!(t.get_line(2), Some("YYd".to_string()));
    assert_eq!(t.line_count(), 3);
}

#[test]
fn offset_to_position_first_line() {
    let t = PieceTree::new("ab\ncd");
    assert_eq!(t.offset_to_position(0), Some((0, 0)));
    assert_eq!(t.offset_to_position(1), Some((0, 1)));
}

#[test]
fn offset_to_position_a_line_feed_ends_its_line() {
    let t = PieceTree::new("ab\ncd");
    assert_eq!(t.offset_to_position(2), Some((0, 2)));
    assert_eq!(t.offset_to_position(3), Some((1, 0)));
    assert_eq!(t.offset_to_position(4), Some((1, 1)));
    let u = PieceTree::new("a\nb");
    assert_eq!(u.offset_to_position(1), Some((0, 1)));
    assert_eq!(u.offset_to_position(2), Some((1, 0)));
    assert_eq!(u.offset_to_position(3), None);
}

#[test]
fn offset_to_position_past_the_end() {
    let t = PieceTree::new("ab\ncd");
    assert_eq!(t.offset_to_position(5), None);
    assert_eq!(t.offset_to_position(50), None);
    let e = PieceTree::new("");
    assert_eq!(e.offset_to_position(0), None);
}

#[test]
fn offset_to_position_after_insert() {
    let mut t = PieceTree::new("ab\ncd");
    t.insert(1, "\n");
    assert_eq!(t.get_text(), "a\nb\ncd");
    assert_eq!(t.offset_to_position(4), Some((2, 0)));
    assert_eq!(t.offset_to_position(5), Some((2, 1)));
}

#[test]
fn position_to_offset_lines() {
    let t = PieceTree::new("ab\ncd");
    assert_eq!(t.position_to_offset(0, 0), Some(0));
    assert_eq!(t.position_to_offset(0, 1), Some(1));
    assert_eq!(t.position_to_offset(1, 0), Some(3));
    assert_eq!(t.position_to_offset(1, 1), Some(4));
    assert_eq!(t.position_to_offset(2, 0), None);
}

#[test]
fn position_to_offset_does_not_check_the_column() {
    let t = PieceTree::new("ab\ncd");
    assert_eq!(t.position_to_offset(0, 10), Some(10));
}

#[test]
fn position_to_offset_after_insert() {
    let mut t = PieceTree::new("abcdef");
    t.insert(3, "\nxy\n");
    assert_eq!(t.get_text(), "abc\nxy\ndef");
    assert_eq!(t.position_to_offset(1, 0), Some(4));
    assert_eq!(t.position_to_offset(2, 0), Some(7));
    assert_eq!(t.position_to_offset(2, 2), Some(9));
}

fn line_feeds(s: &str) -> usize {
    s.bytes().filter(|b| *b == b'\n').count()
}

#[test]
fn many_edits_keep_the_totals() {
    let mut t = PieceTree::new("the quick brown fox\njumps over\nthe lazy dog");
    let mut step: usize = 0;
    while step < 60 {
        let len = t.len();
        if step % 3 == 2 && len > 4 {
            let start = (step * 7) % (len - 2);
            t.delete(start, 1 + step % 4);
        } else if len > 0 {
            let offset = (step * 13) % len;
            if step % 2 == 0 {
                t.insert(offset, "ab\n");
            } else {
                t.insert(offset, "xyz");
            }
        }
        let text = t.get_text();
        assert_eq!(t.len(), text.len());
        assert_eq!(t.line_count(), line_feeds(&text) + 1);
        step += 1;
    }
}

#[test]
fn many_edits_keep_reads_consistent() {
    let mut t = PieceTree::new("0123456789\nabcdefghij\nklmnopqrst");
    let mut step: usize = 0;
    while step < 40 {
        let len = t.len();
        let offset = (step * 17 + 3) % len;
        if step % 4 == 3 {
            t.delete(offset, 2);
        } else {
            t.insert(offset, "-\n");
        }
        let text = t.get_text();
        let len = t.len();
        let start = (step * 5) % len;
        let slice = t.get_slice(start, 6);
        let end = if start + 6 < len { start + 6 } else { len };
        assert_eq!(slice, &text[start..end]);
        let (line, col) = t.offset_to_position(start).unwrap();
        assert_eq!(line, line_feeds(&text[..start]));
        let line_begin = match text[..start].rfind('\n') {
            Some(i) => i + 1,
            None => 0,
        };
        assert_eq!(col, start - line_begin);
        assert_eq!(t.position_to_offset(line, col), Some(start));
        let mut n: usize = 0;
        for expected in text.split('\n') {
            assert_eq!(t.get_line(n), Some(expected.to_string()));
            n += 1;
        }
        assert_eq!(t.get_line(n), None);
        step += 1;
    }
}

#[test]
fn insert_then_delete_restores_the_text() {
    let mut t = PieceTree::new("hello world");
    t.insert(5, ", big");
    assert_eq!(t.get_text(), "hello, big world");
    t.delete(5, 5);
    assert_eq!(t.get_text(), "hello world");
    assert_eq!(t.len(), 11);
}

fn count_red_pairs(t: &PieceTree, node: Option<usize>, parent_red: bool) -> usize {
    match node {
        None => 0,
        Some(i) => {
            let n = t.arena.get(i);
            let red = n.color == Color::Red;
            let here = if red && parent_red { 1 } else { 0 };
            here + count_red_pairs(t, n.left, red) + count_red_pairs(t, n.right, red)
        }
    }
}

fn black_height(t: &PieceTree, node: Option<usize>) -> Option<usize> {
    match node {
        None => Some(0),
        Some(i) => {
            let n = t.arena.get(i);
            let l = black_height(t, n.left)?;
            let r = black_height(t, n.right)?;
            if l != r {
                return None;
            }
            Some(l + if n.color == Color::Black { 1 } else { 0 })
        }
    }
}

#[test]
fn inserts_keep_the_root_black_and_no_red_pairs() {
    let mut t = PieceTree::new("abcdefghijklmnopqrstuvwxyz");
    let mut step: usize = 0;
    while step < 80 {
        let len = t.len();
        let offset = (step * 11 + 5) % len;
        t.insert(offset, "12");
        let root = t.root.unwrap();
        assert_eq!(t.arena.get(root).color, Color::Black);
        assert_eq!(count_red_pairs(&t, t.root, false), 0);
        assert!(black_height(&t, t.root).is_some());
        step += 1;
    }
}

#[test]
fn deletes_keep_the_root_black() {
    let mut t = PieceTree::new("abcdefghijklmnopqrstuvwxyz");
    let mut step: usize = 0;
    while step < 30 {
        let len = t.len();
        t.insert((step * 7 + 1) % len, "xy");
        step += 1;
    }
    while t.len() > 3 {
        let len = t.len();
        t.delete((len * 3) / 7, 3);
        if let Some(root) = t.root {
            assert_eq!(t.arena.get(root).color, Color::Black);
        }
        assert_eq!(count_red_pairs(&t, t.root, false), 0);
        assert!(black_height(&t, t.root).is_some());
    }
}

#[test]
fn deleting_a_black_leaf_keeps_the_black_heights_equal() {
    let mut t = PieceTree::new("abcdefghij");
    t.insert(10, "xy");
    t.insert(3, "xy");
    t.delete(0, 3);
    assert_eq!(t.get_text(), "xydefghijxy");
    assert_eq!(count_red_pairs(&t, t.root, false), 0);
    assert!(black_height(&t, t.root).is_some());
}

#[test]
fn deleting_next_to_a_red_node_leaves_no_red_pairs() {
    let mut t = PieceTree::new("abcdefghij");
    t.delete(3, 5);
    t.insert(1, "xy");
    t.insert(6, "xy");
    t.delete(3, 5);
    assert_eq!(t.get_text(), "axyj");
    assert_eq!(count_red_pairs(&t, t.root, false), 0);
    assert!(black_height(&t, t.root).is_some());
}

#[test]
fn mixed_edits_keep_the_tree_red_black() {
    let mut t = PieceTree::new("the quick brown fox jumps over the lazy dog");
    let mut step: usize = 0;
    while step < 120 {
        let len = t.len();
        if step % 3 == 2 && len > 4 {
            t.delete((step * 13) % (len - 2), 1 + step % 4);
        } else {
            t.insert((step * 17) % (len + 1), "ab\n");
        }
        if let Some(root) = t.root {
            assert_eq!(t.arena.get(root).color, Color::Black);
        }
        assert_eq!(count_red_pairs(&t, t.root, false), 0);
        assert!(black_height(&t, t.root).is_some());
        step += 1;
    }
}
