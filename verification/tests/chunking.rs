use linechunk::chunker::Chunker;
use linechunk::config::{Config, TextEncoding};
use linechunk::driver::run;

fn test_config(chunk_size: usize) -> Config {
    Config {
        input_path: "in.txt".chars().collect(),
        output_prefix: "out".chars().collect(),
        chunk_size,
        line_ending: vec!['\n'],
        encoding: TextEncoding::Utf8,
    }
}

fn name_of(a: &linechunk::emit::Artifact) -> String {
    a.name.iter().collect()
}

fn decompress(data: &[u8]) -> Vec<u8> {
    zstd::stream::decode_all(data).expect("artifact must be a zstd frame")
}

#[test]
fn three_lines_two_chunks() {
    // threshold 100 bytes, LF, UTF-8, the whole input in one read; the
    // middle line alone exceeds the threshold, so the first chunk does too,
    // and "c\n" is flushed on its own.
    let config = test_config(100);
    let line2: String = "b".repeat(200) + "\n";
    let input: Vec<u8> = [b"a\n".to_vec(), line2.as_bytes().to_vec(), b"c\n".to_vec()].concat();
    let arts = run(&config, &vec![input]).unwrap();
    assert_eq!(arts.len(), 2);
    let mut expected1 = b"a\n".to_vec();
    expected1.extend_from_slice(line2.as_bytes());
    assert_eq!(decompress(&arts[0].data), expected1);
    assert_eq!(decompress(&arts[1].data), b"c\n".to_vec());
    assert_eq!(name_of(&arts[0]), "out.001.zst");
    assert_eq!(name_of(&arts[1]), "out.002.zst");
}

#[test]
fn cut_is_minimal_boundary_prefix() {
    // Fifty 10-byte lines in one read, threshold 100: the cut takes the
    // smallest boundary-ending prefix of at least 100 bytes - exactly ten
    // lines - and the rest is flushed as the final chunk.
    let config = test_config(100);
    let input: Vec<u8> = "123456789\n".repeat(50).into_bytes();
    let arts = run(&config, &vec![input.clone()]).unwrap();
    assert_eq!(arts.len(), 2);
    assert_eq!(decompress(&arts[0].data), input[..100].to_vec());
    assert_eq!(decompress(&arts[1].data), input[100..].to_vec());
}

#[test]
fn empty_input_no_chunks() {
    let config = test_config(100);
    let arts = run(&config, &vec![]).unwrap();
    assert_eq!(arts.len(), 0);
    let arts = run(&config, &vec![Vec::new()]).unwrap();
    assert_eq!(arts.len(), 0);
}

#[test]
fn no_trailing_newline_single_chunk() {
    let config = test_config(1024 * 1024);
    let arts = run(&config, &vec![b"x\ny".to_vec()]).unwrap();
    assert_eq!(arts.len(), 1);
    assert_eq!(decompress(&arts[0].data), b"x\ny".to_vec());
    assert_eq!(name_of(&arts[0]), "out.001.zst");
}

#[test]
fn long_line_grows_past_threshold() {
    // A single line longer than the threshold is never cut mid-line: the
    // chunk keeps growing until the line ends.
    let config = test_config(100);
    let blocks: Vec<Vec<u8>> = vec![
        "x".repeat(150).into_bytes(),
        ("x".repeat(150) + "\n").into_bytes(),
    ];
    let arts = run(&config, &blocks).unwrap();
    assert_eq!(arts.len(), 1);
    assert_eq!(decompress(&arts[0].data), ("x".repeat(300) + "\n").into_bytes());
}

#[test]
fn round_trip_many_blocks() {
    let config = test_config(64);
    let mut blocks: Vec<Vec<u8>> = Vec::new();
    let mut input: Vec<u8> = Vec::new();
    for i in 0..40 {
        let line = format!("line number {} with some payload\n", i);
        let block = line.into_bytes();
        input.extend_from_slice(&block);
        blocks.push(block);
    }
    let arts = run(&config, &blocks).unwrap();
    assert!(arts.len() > 1);
    let mut rebuilt: Vec<u8> = Vec::new();
    for a in &arts {
        rebuilt.extend_from_slice(&decompress(&a.data));
    }
    assert_eq!(rebuilt, input);
}

#[test]
fn chunk_indices_are_dense() {
    let config = test_config(8);
    let blocks: Vec<Vec<u8>> = (0..9).map(|i| format!("row {}\n", i).into_bytes()).collect();
    let arts = run(&config, &blocks).unwrap();
    for (i, a) in arts.iter().enumerate() {
        assert_eq!(name_of(a), format!("out.{:03}.zst", i + 1));
    }
}

#[test]
fn rerun_is_byte_identical() {
    let config = test_config(32);
    let blocks: Vec<Vec<u8>> = (0..12).map(|i| format!("entry {}\n", i * 7).into_bytes()).collect();
    let first = run(&config, &blocks).unwrap();
    let second = run(&config, &blocks).unwrap();
    assert_eq!(first.len(), second.len());
    for (a, b) in first.iter().zip(second.iter()) {
        assert_eq!(a.name, b.name);
        assert_eq!(a.data, b.data);
    }
}

#[test]
fn boundary_below_threshold_not_taken() {
    // The only boundary lies below the threshold, so no cut happens even
    // though the accumulated bytes exceed the threshold: a non-final chunk
    // is never smaller than the threshold.
    let config = test_config(10);
    let mut chunker = Chunker::new(&config);
    let (r1, _) = chunker.push(&b"aaaaaaaa\nbbbb".to_vec());
    assert!(r1.is_none());
    let (r2, _) = chunker.push(&b"cccc".to_vec());
    assert!(r2.is_none());
    let last = chunker.finish().unwrap();
    assert_eq!(last.bytes, b"aaaaaaaa\nbbbbcccc".to_vec());
}

#[test]
fn push_and_finish_by_hand() {
    let config = test_config(4);
    let mut chunker = Chunker::new(&config);
    let (none, _) = chunker.push(&b"ab\n".to_vec());
    assert!(none.is_none());
    let (cut, _) = chunker.push(&b"cd\nef".to_vec());
    let cut = cut.expect("threshold crossed at a boundary");
    assert_eq!(cut.index, 1);
    assert_eq!(cut.bytes, b"ab\ncd\n".to_vec());
    let last = chunker.finish().expect("trailing bytes flush");
    assert_eq!(last.index, 2);
    assert_eq!(last.bytes, b"ef".to_vec());
    assert!(chunker.finish().is_none());
}

#[test]
fn crlf_line_ending_cut() {
    let config = Config {
        input_path: "in".chars().collect(),
        output_prefix: "out".chars().collect(),
        chunk_size: 4,
        line_ending: vec!['\r', '\n'],
        encoding: TextEncoding::Utf8,
    };
    let mut chunker = Chunker::new(&config);
    let (cut, _) = chunker.push(&b"ab\r\ncd".to_vec());
    let cut = cut.expect("boundary after ab");
    assert_eq!(cut.bytes, b"ab\r\n".to_vec());
    let last = chunker.finish().unwrap();
    assert_eq!(last.bytes, b"cd".to_vec());
}
