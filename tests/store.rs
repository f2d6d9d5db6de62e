use fresh::buffer::TextBuffer;
use fresh::chunks::{Chunk, UnloadedChunk};

fn chars(s: &str) -> Vec<char> {
    s.chars().collect()
}

fn spans(b: &TextBuffer) -> Vec<(u64, u64, bool)> {
    b.chunks()
        .iter()
        .map(|c| match c {
            Chunk::Loaded(l) => (l.offset, l.data.len() as u64, true),
            Chunk::Unloaded(u) => (u.offset, u.size, false),
        })
        .collect()
}

fn assert_tiles(b: &TextBuffer) {
    let s = spans(b);
    let mut next = 0u64;
    for (offset, size, _) in &s {
        assert_eq!(*offset, next);
        assert!(*size > 0);
        next = offset + size;
    }
    assert_eq!(next, b.len() as u64);
}

#[test]
fn split_unloaded_chunk() {
    let c = UnloadedChunk { offset: 100, size: 50 };
    let (a, b) = c.split(120);
    assert_eq!((a.offset, a.size), (100, 20));
    assert_eq!((b.offset, b.size), (120, 30));
}

#[test]
fn chunk_constructors() {
    match Chunk::unloaded(3, 4) {
        Chunk::Unloaded(u) => assert_eq!((u.offset, u.size), (3, 4)),
        Chunk::Loaded(_) => panic!("expected an unloaded chunk"),
    }
    let data = chars("xyz");
    match Chunk::loaded(7, &data, true) {
        Chunk::Loaded(l) => {
            assert_eq!(l.offset, 7);
            assert_eq!(l.data, &data[..]);
            assert!(l.is_modified);
        },
        Chunk::Unloaded(_) => panic!("expected a loaded chunk"),
    }
}

#[test]
fn large_file_edit_loads_only_its_region() {
    let mut b = TextBuffer::from_size(500_000);
    assert!(!b.is_loaded());
    let (pos, len, src) = b.missing_in(200_000, 204_096).unwrap();
    assert_eq!((pos, len, src), (200_000, 4096, 200_000));
    b.fill(pos, vec!['a'; len]);
    assert_tiles(&b);
    assert!(b.missing_in(200_000, 204_096).is_none());
    b.insert(201_000, chars("hello"));
    assert_tiles(&b);
    assert_eq!(b.len(), 500_005);
    for (offset, size, loaded) in spans(&b) {
        let overlaps = offset < 204_101 && offset + size > 200_000;
        assert_eq!(loaded, overlaps, "chunk at {} of size {}", offset, size);
    }
    assert_eq!(b.slice(200_999, 201_006), chars("ahelloa"));
    assert!(b.is_modified());
}

#[test]
fn edits_keep_chunks_contiguous() {
    let mut b = TextBuffer::from_chars(chars("hello world"));
    assert!(!b.is_modified());
    b.insert(5, chars(","));
    b.delete(0, 1);
    b.insert(0, chars("J"));
    b.insert(12, chars("!"));
    assert_tiles(&b);
    assert_eq!(b.to_string(), "Jello, world!");
    assert!(b.is_modified());
    b.mark_saved();
    assert!(!b.is_modified());
    assert_eq!(b.contents(), chars("Jello, world!"));
}

#[test]
fn delete_across_loaded_and_unloaded_chunks() {
    let mut b = TextBuffer::from_size(10);
    b.fill(3, chars("abcd"));
    b.delete(2, 8);
    assert_eq!(b.len(), 4);
    assert_tiles(&b);
    let (pos, len, src) = b.missing_in(0, 4).unwrap();
    assert_eq!((pos, len, src), (0, 2, 0));
    b.fill(0, chars("01"));
    let (pos, len, src) = b.missing_in(0, 4).unwrap();
    assert_eq!((pos, len, src), (2, 2, 8));
    b.fill(2, chars("89"));
    assert!(b.is_loaded());
    assert_eq!(b.to_string(), "0189");
}

#[test]
fn empty_document() {
    let b = TextBuffer::new();
    assert_eq!(b.len(), 0);
    assert_eq!(b.chunk_count(), 0);
    assert!(b.is_loaded());
    assert_eq!(b.to_string(), "");
    assert!(b.missing_in(0, 0).is_none());
}

#[test]
fn char_at_reads_across_chunks() {
    let mut b = TextBuffer::from_chars(chars("abc"));
    b.insert(3, chars("def"));
    b.insert(0, chars("_"));
    assert_eq!(b.char_at(0), '_');
    assert_eq!(b.char_at(4), 'd');
    assert_eq!(b.char_at(6), 'f');
}
