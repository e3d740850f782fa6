use yek::{
    can_pack, chunk_file_name, pack_chunks, sort_entries, threshold_of, Chunk, DEFAULT_CHUNK_SIZE,
};

fn entry(path: &str, content: &str, priority: i32) -> (String, String, i32) {
    (path.to_string(), content.to_string(), priority)
}

fn body(c: &Chunk) -> String {
    String::from_utf8(c.body.clone()).unwrap()
}

#[test]
fn two_small_files_keep_their_order() {
    let entries = vec![entry("a.txt", "hello", 0), entry("b.txt", "world!!", 1)];
    let chunks = pack_chunks(&entries, 20, false);
    // a.txt accounts 5 + 10 + 5 = 20; b.txt's 22 more exceed 20, so it starts a new chunk.
    assert_eq!(chunks.len(), 2);
    assert_eq!(body(&chunks[0]), "chunk 0\n>>>> a.txt\nhello\n");
    assert_eq!(body(&chunks[1]), "chunk 1\n>>>> b.txt\nworld!!\n");
    assert_eq!(chunk_file_name(&chunks[0]), "chunk-0.txt");
    assert_eq!(chunk_file_name(&chunks[1]), "chunk-1.txt");
}

#[test]
fn small_files_share_a_chunk() {
    let entries = vec![entry("a", "x", 0), entry("b", "y", 0)];
    let chunks = pack_chunks(&entries, 100, false);
    assert_eq!(chunks.len(), 1);
    assert_eq!(body(&chunks[0]), "chunk 0\n>>>> a\nx\nchunk 0\n>>>> b\ny\n");
    assert_eq!(chunks[0].part, None);
}

#[test]
fn oversized_file_is_split_into_parts() {
    let content = "abcdefghijklmnopqrstuvwxy";
    assert_eq!(content.len(), 25);
    let chunks = pack_chunks(&[entry("big.txt", content, 0)], 20, false);
    assert_eq!(chunks.len(), 2);
    assert_eq!(chunks[0].index, 0);
    assert_eq!(chunks[0].part, Some(0));
    assert_eq!(chunks[1].index, 1);
    assert_eq!(chunks[1].part, Some(1));
    assert_eq!(body(&chunks[0]), "chunk 0\n>>>> big.txt:part 0\nabcdefghijklmnopqrst\n");
    assert_eq!(body(&chunks[1]), "chunk 1\n>>>> big.txt:part 1\nuvwxy\n");
    assert_eq!(chunk_file_name(&chunks[0]), "chunk-0-part-0.txt");
    assert_eq!(chunk_file_name(&chunks[1]), "chunk-1-part-1.txt");
}

#[test]
fn file_at_threshold_is_force_split() {
    let chunks = pack_chunks(&[entry("a", "12345", 0)], 5, false);
    assert_eq!(chunks.len(), 1);
    assert_eq!(chunks[0].part, Some(0));
    assert_eq!(body(&chunks[0]), "chunk 0\n>>>> a:part 0\n12345\n");
    let below = pack_chunks(&[entry("a", "1234", 0)], 5, false);
    assert_eq!(below[0].part, None);
}

#[test]
fn buffer_is_flushed_before_a_split_file() {
    let entries = vec![entry("s", "hi", 0), entry("big", "0123456789", 0), entry("t", "yo", 0)];
    let chunks = pack_chunks(&entries, 8, false);
    let idx: Vec<usize> = chunks.iter().map(|c| c.index).collect();
    assert_eq!(idx, vec![0, 1, 2, 3]);
    assert_eq!(body(&chunks[0]), "chunk 0\n>>>> s\nhi\n");
    assert_eq!(body(&chunks[1]), "chunk 1\n>>>> big:part 0\n01234567\n");
    assert_eq!(body(&chunks[2]), "chunk 2\n>>>> big:part 1\n89\n");
    assert_eq!(body(&chunks[3]), "chunk 3\n>>>> t\nyo\n");
    assert_eq!(chunks[3].part, None);
}

#[test]
fn chunk_indices_are_contiguous() {
    let mut entries = Vec::new();
    for i in 0..30 {
        entries.push(entry(&format!("f{i}.txt"), &"x".repeat(i * 3), 0));
    }
    let chunks = pack_chunks(&entries, 16, false);
    for (i, c) in chunks.iter().enumerate() {
        assert_eq!(c.index, i);
    }
}

#[test]
fn byte_mode_parts_rebuild_the_content() {
    let content = "é".repeat(13);
    let chunks = pack_chunks(&[entry("u.txt", &content, 0)], 7, false);
    let mut data = Vec::new();
    for c in &chunks {
        let header = format!("chunk {}\n>>>> u.txt:part {}\n", c.index, c.part.unwrap());
        assert!(c.body.starts_with(header.as_bytes()));
        data.extend_from_slice(&c.body[header.len()..c.body.len() - 1]);
    }
    assert_eq!(data, content.as_bytes());
}

#[test]
fn token_mode_splits_by_tokens() {
    let chunks = pack_chunks(&[entry("t", "a  b\tc\nd e", 0)], 2, true);
    assert_eq!(chunks.len(), 3);
    assert_eq!(body(&chunks[0]), "chunk 0\n>>>> t:part 0\na b\n");
    assert_eq!(body(&chunks[1]), "chunk 1\n>>>> t:part 1\nc d\n");
    assert_eq!(body(&chunks[2]), "chunk 2\n>>>> t:part 2\ne\n");
}

#[test]
fn token_mode_keeps_small_files_whole() {
    let chunks = pack_chunks(&[entry("t", "one  two", 0)], 50, true);
    assert_eq!(chunks.len(), 1);
    assert_eq!(body(&chunks[0]), "chunk 0\n>>>> t\none  two\n");
}

#[test]
fn no_entries_no_chunks() {
    assert!(pack_chunks(&[], 10, false).is_empty());
}

#[test]
fn sorting_is_by_priority_then_path() {
    let a = vec![entry("b", "1", 1), entry("a", "2", 1), entry("z", "3", 0)];
    let b = vec![entry("z", "3", 0), entry("b", "1", 1), entry("a", "2", 1)];
    let sa = sort_entries(a);
    let sb = sort_entries(b);
    let paths: Vec<&str> = sa.iter().map(|e| e.0.as_str()).collect();
    assert_eq!(paths, vec!["z", "a", "b"]);
    assert_eq!(sa, sb);
    let ca = pack_chunks(&sa, 30, false);
    let cb = pack_chunks(&sb, 30, false);
    assert_eq!(ca.len(), cb.len());
    for (x, y) in ca.iter().zip(cb.iter()) {
        assert_eq!(x.body, y.body);
    }
}

#[test]
fn threshold_defaults_and_fit() {
    assert_eq!(threshold_of(None), DEFAULT_CHUNK_SIZE);
    assert_eq!(threshold_of(Some(7)), 7);
    assert!(can_pack(&entry("a", "b c", 0), true));
}

#[test]
fn token_mode_parts_rebuild_the_tokens() {
    let text = "alpha beta\n\tgamma  delta epsilon\r\nzeta";
    let entries = vec![entry("w", text, 0), entry("x", "small one", 0)];
    let chunks = pack_chunks(&entries, 3, true);
    let mut tokens: Vec<String> = Vec::new();
    for c in &chunks {
        let b = body(c);
        let payload = b.splitn(3, '\n').nth(2).unwrap();
        tokens.extend(payload.split_whitespace().map(|t| t.to_string()));
    }
    let expected: Vec<String> =
        format!("{text} small one").split_whitespace().map(|t| t.to_string()).collect();
    assert_eq!(tokens, expected);
}
