use juxr::channel::{ByteSource, VecSink, VecSource};
use juxr::streams::{EmbeddedStream, EmbeddedStreams, StreamHandler};
use juxr::trim::TrimFilterReader;

/// Collects every stream: name, kind, and full content.
struct Collector {
    seen: Vec<(Vec<u8>, Option<Vec<u8>>, Vec<u8>)>,
}

impl Collector {
    fn new() -> Collector {
        Collector { seen: Vec::new() }
    }
}

impl<R: ByteSource> StreamHandler<R> for Collector {
    fn on_stream(&mut self, stream: &mut EmbeddedStream<R>) {
        let name = stream.name();
        let kind = stream.kind();
        let mut content = Vec::new();
        loop {
            let chunk = stream.read_bytes(300).unwrap();
            if chunk.is_empty() {
                break;
            }
            content.extend_from_slice(&chunk);
        }
        self.seen.push((name, kind, content));
    }
}

/// Reads nothing from any stream.
struct Ignorer {
    names: Vec<Vec<u8>>,
}

impl<R: ByteSource> StreamHandler<R> for Ignorer {
    fn on_stream(&mut self, stream: &mut EmbeddedStream<R>) {
        self.names.push(stream.name());
    }
}

fn read_all<R: ByteSource>(stream: &mut EmbeddedStream<R>) -> Vec<u8> {
    let mut total = Vec::new();
    loop {
        let chunk = stream.read_bytes(300).unwrap();
        if chunk.is_empty() {
            break;
        }
        total.extend_from_slice(&chunk);
    }
    total
}

#[test]
fn given_empty_input_then_returns_empty() {
    let src = VecSource::new(Vec::new());
    let mut instance = EmbeddedStream::new(b"foo.txt", b"cafebabe", src, 40);
    assert_eq!(read_all(&mut instance).len(), 0);
}

#[test]
fn given_empty_content_then_returns_empty() {
    let input = b"\n[[juxr::stream::cafebabe::foo.txt]]\nMore text\n".to_vec();
    let src = VecSource::new(input);
    let mut instance = EmbeddedStream::new(b"foo.txt", b"cafebabe", src, 40);
    assert_eq!(read_all(&mut instance).len(), 0);
}

#[test]
fn given_content_without_needle_then_returns_content() {
    let input = b"Some text\nMore text\n".to_vec();
    let src = VecSource::new(input);
    let mut instance = EmbeddedStream::new(b"foo.txt", b"cafebabe", src, 40);
    assert_eq!(read_all(&mut instance), b"Some text\nMore text\n".to_vec());
}

#[test]
fn given_content_with_needle_then_returns_content_up_to_needle() {
    let input =
        b"Some text\nMore text\n[[juxr::stream::cafebabe::foo.txt]]\nIgnored text\n".to_vec();
    let src = VecSource::new(input);
    let mut instance = EmbeddedStream::new(b"foo.txt", b"cafebabe", src, 40);
    assert_eq!(read_all(&mut instance), b"Some text\nMore text".to_vec());
}

#[test]
fn given_no_streams_then_flushes_to_out() {
    let input = b"Some text\nMore text\n".to_vec();
    let mut handler = Collector::new();
    let (out, result) =
        EmbeddedStreams::new(VecSource::new(input.clone()), VecSink::new()).for_each(&mut handler);
    assert!(result.is_ok());
    assert_eq!(out.into_vec(), input);
    assert_eq!(handler.seen.len(), 0);
}

#[test]
fn given_stream_then_non_stream_flushes_to_out() {
    let input = b"Some text\n\n[[juxr::stream::cafebabe::file.txt]]\nSome content\n[[juxr::stream::cafebabe::file.txt]]\nMore text\n".to_vec();
    let mut handler = Collector::new();
    let (out, result) =
        EmbeddedStreams::new(VecSource::new(input), VecSink::new()).for_each(&mut handler);
    assert!(result.is_ok());
    assert_eq!(out.into_vec(), b"Some text\nMore text\n".to_vec());
    assert_eq!(handler.seen.len(), 1);
    assert_eq!(handler.seen[0].0, b"file.txt".to_vec());
    assert!(handler.seen[0].1.is_none());
}

#[test]
fn exact_extraction() {
    let open = b"\n[[juxr::stream::cafebabe::file.txt]]\n";
    let mut input = b"A\n".to_vec();
    input.extend_from_slice(open);
    input.extend_from_slice(b"B");
    input.extend_from_slice(open);
    input.extend_from_slice(b"C\n");
    let mut handler = Collector::new();
    let (out, result) =
        EmbeddedStreams::new(VecSource::new(input), VecSink::new()).for_each(&mut handler);
    assert!(result.is_ok());
    assert_eq!(out.into_vec(), b"A\nC\n".to_vec());
    assert_eq!(handler.seen.len(), 1);
    assert_eq!(handler.seen[0].2, b"B".to_vec());
}

#[test]
fn chunk_boundary_invariance() {
    let open = b"\n[[juxr::stream::cafebabe::file.txt]]\n";
    let mut input = b"head text\n".to_vec();
    input.extend_from_slice(open);
    input.extend_from_slice(b"payload bytes");
    input.extend_from_slice(open);
    input.extend_from_slice(b"tail text\n");
    let mut whole = Collector::new();
    let (out_whole, r1) = EmbeddedStreams::new(VecSource::new(input.clone()), VecSink::new())
        .for_each(&mut whole);
    assert!(r1.is_ok());
    let whole_out = out_whole.into_vec();
    for chunk in [1usize, 2, 3, 7, 38, 39] {
        let mut split = Collector::new();
        let (out_split, r2) =
            EmbeddedStreams::new(VecSource::with_chunk(input.clone(), chunk), VecSink::new())
                .for_each(&mut split);
        assert!(r2.is_ok());
        assert_eq!(out_split.into_vec(), whole_out);
        assert_eq!(split.seen.len(), whole.seen.len());
        assert_eq!(split.seen[0].2, whole.seen[0].2);
    }
}

#[test]
fn drain_on_short_read() {
    let open_a = b"\n[[juxr::stream::aaaa::first.txt]]\n";
    let open_b = b"\n[[juxr::stream::bbbb::second.txt]]\n";
    let mut input = b"before\n".to_vec();
    input.extend_from_slice(open_a);
    input.extend_from_slice(b"unread content");
    input.extend_from_slice(open_a);
    input.extend_from_slice(b"between\n");
    input.extend_from_slice(open_b);
    input.extend_from_slice(b"also unread");
    input.extend_from_slice(open_b);
    input.extend_from_slice(b"after\n");
    let mut handler = Ignorer { names: Vec::new() };
    let (out, result) =
        EmbeddedStreams::new(VecSource::new(input), VecSink::new()).for_each(&mut handler);
    assert!(result.is_ok());
    assert_eq!(out.into_vec(), b"before\nbetween\nafter\n".to_vec());
    assert_eq!(handler.names, vec![b"first.txt".to_vec(), b"second.txt".to_vec()]);
}

#[test]
fn empty_content_edge_case() {
    let open = b"\n[[juxr::stream::cafebabe::empty.bin]]\n";
    let mut input = Vec::new();
    input.extend_from_slice(open);
    input.extend_from_slice(open);
    let mut handler = Collector::new();
    let (out, result) =
        EmbeddedStreams::new(VecSource::new(input), VecSink::new()).for_each(&mut handler);
    assert!(result.is_ok());
    assert_eq!(out.into_vec(), Vec::<u8>::new());
    assert_eq!(handler.seen.len(), 1);
    assert_eq!(handler.seen[0].2, Vec::<u8>::new());
}

#[test]
fn incomplete_token_degrades_to_passthrough() {
    let input = b"text\n[[juxr::stream::never-closed".to_vec();
    let mut handler = Collector::new();
    let (out, result) =
        EmbeddedStreams::new(VecSource::new(input.clone()), VecSink::new()).for_each(&mut handler);
    assert!(result.is_ok());
    assert_eq!(out.into_vec(), input);
    assert_eq!(handler.seen.len(), 0);
}

#[test]
fn stream_with_kind_reports_both_parts() {
    let open = b"\n[[juxr::stream::cafebabe::junit-test-report::r.xml]]\n";
    let mut input = Vec::new();
    input.extend_from_slice(open);
    input.extend_from_slice(b"data");
    input.extend_from_slice(open);
    let mut handler = Collector::new();
    let (out, result) =
        EmbeddedStreams::new(VecSource::new(input), VecSink::new()).for_each(&mut handler);
    assert!(result.is_ok());
    assert_eq!(out.into_vec(), Vec::<u8>::new());
    assert_eq!(handler.seen.len(), 1);
    assert_eq!(handler.seen[0].0, b"r.xml".to_vec());
    assert_eq!(handler.seen[0].1, Some(b"junit-test-report".to_vec()));
    assert_eq!(handler.seen[0].2, b"data".to_vec());
}

#[test]
fn strips_spaces() {
    let input = b"this is a string with spaces and newlines".to_vec();
    let mut instance = TrimFilterReader::new(VecSource::new(input));
    let mut output = Vec::new();
    let mut count = 0;
    loop {
        let chunk = instance.read_bytes(300).unwrap();
        if chunk.is_empty() {
            break;
        }
        count += chunk.len();
        output.extend_from_slice(&chunk);
    }
    assert_eq!(count, 34);
    assert_eq!(output, b"thisisastringwithspacesandnewlines".to_vec());
}

#[test]
fn trim_keeps_ordered_printable_subsequence() {
    let mut input = Vec::new();
    let mut expected = Vec::new();
    for b in 33u8..127u8 {
        input.push(b' ');
        input.push(b);
        input.push(b'\n');
        input.push(0x07);
        input.push(0x7f);
        expected.push(b);
    }
    let mut instance = TrimFilterReader::new(VecSource::with_chunk(input, 5));
    let mut output = Vec::new();
    loop {
        let chunk = instance.read_bytes(16).unwrap();
        if chunk.is_empty() {
            break;
        }
        output.extend_from_slice(&chunk);
    }
    assert_eq!(output, expected);
}

#[test]
fn trim_of_pure_whitespace_is_empty() {
    let input = b"  \n\t  \r\n ".to_vec();
    let mut instance = TrimFilterReader::new(VecSource::with_chunk(input, 2));
    let chunk = instance.read_bytes(8).unwrap();
    assert!(chunk.is_empty());
}

#[test]
fn large_input_crosses_buffer_boundary() {
    let open = b"\n[[juxr::stream::cafebabe::big.bin]]\n";
    let mut head = vec![b'x'; 20000];
    head[12345] = b'\n';
    let mut input = head.clone();
    input.extend_from_slice(open);
    input.extend_from_slice(b"payload");
    input.extend_from_slice(open);
    input.extend_from_slice(b"tail");
    let mut handler = Collector::new();
    let (out, result) =
        EmbeddedStreams::new(VecSource::with_chunk(input, 997), VecSink::new())
            .for_each(&mut handler);
    assert!(result.is_ok());
    let mut expected = head;
    expected.extend_from_slice(b"tail");
    assert_eq!(out.into_vec(), expected);
    assert_eq!(handler.seen.len(), 1);
    assert_eq!(handler.seen[0].2, b"payload".to_vec());
}

#[test]
fn oversize_token_degrades_to_passthrough() {
    let mut input = b"\n[[juxr::stream::id::".to_vec();
    input.extend(vec![b'n'; 9000]);
    input.extend_from_slice(b"]]\n");
    let mut handler = Collector::new();
    let (out, result) =
        EmbeddedStreams::new(VecSource::new(input.clone()), VecSink::new()).for_each(&mut handler);
    assert!(result.is_ok());
    assert_eq!(out.into_vec(), input);
    assert_eq!(handler.seen.len(), 0);
}

#[test]
fn trim_drops_del_and_high_bytes() {
    let input = vec![0x7fu8, b'a', 0x80, b'b', 0xff, b' '];
    let mut instance = TrimFilterReader::new(VecSource::new(input));
    let chunk = instance.read_bytes(8).unwrap();
    assert_eq!(chunk, b"ab".to_vec());
}

#[test]
fn name_and_kind_split_at_last_separator() {
    let open = b"\n[[juxr::stream::id-1::kind::a::name.txt]]\n";
    let mut input = Vec::new();
    input.extend_from_slice(open);
    input.extend_from_slice(b"x");
    input.extend_from_slice(open);
    let mut handler = Collector::new();
    let (out, result) =
        EmbeddedStreams::new(VecSource::new(input), VecSink::new()).for_each(&mut handler);
    assert!(result.is_ok());
    assert_eq!(out.into_vec(), Vec::<u8>::new());
    assert_eq!(handler.seen.len(), 1);
    assert_eq!(handler.seen[0].0, b"name.txt".to_vec());
    assert_eq!(handler.seen[0].1, Some(b"kind::a".to_vec()));
}
