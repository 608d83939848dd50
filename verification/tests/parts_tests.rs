use piece_table::arena::{Color, Node, NodeArena};
use piece_table::buffer::AddBuffer;
use piece_table::piece::{BufferKind, Piece};

fn sample_piece() -> Piece {
    Piece::new(BufferKind::Original, 0, 10, vec![2, 5, 7])
}

fn leaf(piece: Piece) -> Node {
    Node {
        piece,
        left_char_count: 0,
        left_line_count: 0,
        color: Color::Red,
        left: None,
        right: None,
        parent: None,
    }
}

#[test]
fn add_buffer_starts_empty() {
    let b = AddBuffer::new();
    assert_eq!(b.content, "");
    assert!(b.line_starts.is_empty());
}

#[test]
fn add_buffer_append_returns_start_and_length() {
    let mut b = AddBuffer::new();
    assert_eq!(b.append("ab\ncd"), (0, 5));
    assert_eq!(b.append("x\ny"), (5, 3));
    assert_eq!(b.content, "ab\ncdx\ny");
}

#[test]
fn add_buffer_records_line_feed_positions_in_the_buffer() {
    let mut b = AddBuffer::new();
    b.append("ab\ncd");
    b.append("x\ny");
    assert_eq!(b.line_starts, vec![2, 6]);
}

#[test]
fn add_buffer_records_byte_positions_of_line_feeds_and_carriage_returns() {
    let mut b = AddBuffer::new();
    assert_eq!(b.append("é\r\nz"), (0, 5));
    assert_eq!(b.line_starts, vec![2, 3]);
    b.append("a\n");
    assert_eq!(b.line_starts, vec![2, 3, 6]);
    b.append("\rq");
    assert_eq!(b.line_starts, vec![2, 3, 6, 7]);
}

#[test]
fn add_buffer_append_empty() {
    let mut b = AddBuffer::new();
    b.append("abc");
    assert_eq!(b.append(""), (3, 0));
    assert!(b.line_starts.is_empty());
}

#[test]
fn piece_new_counts_line_feeds() {
    let p = Piece::new(BufferKind::Add, 3, 4, vec![1]);
    assert_eq!(p.buffer_kind, BufferKind::Add);
    assert_eq!(p.start, 3);
    assert_eq!(p.length, 4);
    assert_eq!(p.line_feed_count, 1);
    assert_eq!(p.line_starts, vec![1]);
}

#[test]
fn piece_trim_start() {
    let p = sample_piece().trim_start(3);
    assert_eq!(p.buffer_kind, BufferKind::Original);
    assert_eq!(p.start, 3);
    assert_eq!(p.length, 7);
    assert_eq!(p.line_starts, vec![2, 4]);
    assert_eq!(p.line_feed_count, 2);
}

#[test]
fn piece_trim_start_keeps_a_feed_at_the_cut() {
    let p = sample_piece().trim_start(5);
    assert_eq!(p.line_starts, vec![0, 2]);
    let q = sample_piece().trim_start(10);
    assert_eq!(q.length, 0);
    assert!(q.line_starts.is_empty());
}

#[test]
fn piece_trim_end() {
    let p = sample_piece().trim_end(6);
    assert_eq!(p.start, 0);
    assert_eq!(p.length, 6);
    assert_eq!(p.line_starts, vec![2, 5]);
    assert_eq!(p.line_feed_count, 2);
    let q = sample_piece().trim_end(5);
    assert_eq!(q.line_starts, vec![2]);
}

#[test]
fn piece_split_at() {
    let (a, b) = sample_piece().split_at(5);
    assert_eq!((a.start, a.length), (0, 5));
    assert_eq!(a.line_starts, vec![2]);
    assert_eq!(a.line_feed_count, 1);
    assert_eq!((b.start, b.length), (5, 5));
    assert_eq!(b.line_starts, vec![0, 2]);
    assert_eq!(b.line_feed_count, 2);
    assert_eq!(b.buffer_kind, BufferKind::Original);
}

#[test]
fn piece_split_at_the_ends() {
    let (a, b) = sample_piece().split_at(0);
    assert_eq!(a.length, 0);
    assert!(a.line_starts.is_empty());
    assert_eq!(b.length, 10);
    assert_eq!(b.line_starts, vec![2, 5, 7]);
    let (c, d) = sample_piece().split_at(10);
    assert_eq!(c.line_starts, vec![2, 5, 7]);
    assert_eq!(d.length, 0);
    assert_eq!(d.start, 10);
}

#[test]
fn piece_offset_to_line_col() {
    let p = sample_piece();
    assert_eq!(p.offset_to_line_col(0), (0, 0));
    assert_eq!(p.offset_to_line_col(1), (0, 1));
    assert_eq!(p.offset_to_line_col(2), (0, 2));
    assert_eq!(p.offset_to_line_col(3), (1, 0));
    assert_eq!(p.offset_to_line_col(4), (1, 1));
    assert_eq!(p.offset_to_line_col(6), (2, 0));
    assert_eq!(p.offset_to_line_col(9), (3, 1));
    let q = Piece::new(BufferKind::Original, 0, 3, vec![1]);
    assert_eq!(q.offset_to_line_col(1), (0, 1));
    assert_eq!(q.offset_to_line_col(2), (1, 0));
}

#[test]
fn piece_clone_is_equal() {
    let p = sample_piece();
    let q = p.clone();
    assert_eq!(q.start, p.start);
    assert_eq!(q.length, p.length);
    assert_eq!(q.line_starts, p.line_starts);
    assert_eq!(q.line_feed_count, p.line_feed_count);
}

#[test]
fn arena_allocates_in_order() {
    let mut a = NodeArena::new();
    assert_eq!(a.allocate(leaf(Piece::new(BufferKind::Add, 0, 1, vec![]))), 0);
    assert_eq!(a.allocate(leaf(Piece::new(BufferKind::Add, 1, 2, vec![]))), 1);
    assert_eq!(a.get(0).piece.length, 1);
    assert_eq!(a.get(1).piece.length, 2);
}

#[test]
fn arena_reuses_the_last_freed_slot() {
    let mut a = NodeArena::new();
    a.allocate(leaf(Piece::new(BufferKind::Add, 0, 1, vec![])));
    a.allocate(leaf(Piece::new(BufferKind::Add, 1, 1, vec![])));
    a.allocate(leaf(Piece::new(BufferKind::Add, 2, 1, vec![])));
    a.free(0);
    a.free(2);
    assert_eq!(a.allocate(leaf(Piece::new(BufferKind::Add, 5, 3, vec![]))), 2);
    assert_eq!(a.allocate(leaf(Piece::new(BufferKind::Add, 6, 4, vec![]))), 0);
    assert_eq!(a.allocate(leaf(Piece::new(BufferKind::Add, 7, 5, vec![]))), 3);
    assert_eq!(a.get(2).piece.length, 3);
    assert_eq!(a.get(0).piece.length, 4);
    assert_eq!(a.get(1).piece.start, 1);
}

#[test]
fn arena_get_mut_changes_in_place() {
    let mut a = NodeArena::new();
    a.allocate(leaf(Piece::new(BufferKind::Add, 0, 1, vec![])));
    a.get_mut(0).color = Color::Black;
    a.get_mut(0).left_char_count = 7;
    assert_eq!(a.get(0).color, Color::Black);
    assert_eq!(a.get(0).left_char_count, 7);
}
