use bytes::BytesMut;
use pantosmime::wrap::wrap_bytes_crlf;

#[test]
fn test_line_wrap() {
    let mut data = BytesMut::from("testtest".as_bytes());
    wrap_bytes_crlf(&mut data, 4);
    assert_eq!(data, BytesMut::from("test\r\ntest"));

    data = BytesMut::from("testtest".as_bytes());
    wrap_bytes_crlf(&mut data, 6);
    assert_eq!(data, BytesMut::from("testte\r\nst"));
}

#[test]
fn wrapped_text_has_the_lengths_given() {
    let mut data = BytesMut::from("testtest".as_bytes());
    wrap_bytes_crlf(&mut data, 4);
    assert_eq!(data.len(), 10);
    let mut data = BytesMut::from("testtest".as_bytes());
    wrap_bytes_crlf(&mut data, 6);
    assert_eq!(data.len(), 10);
}

#[test]
fn short_and_empty_texts_stay() {
    let mut data = BytesMut::new();
    wrap_bytes_crlf(&mut data, 76);
    assert!(data.is_empty());
    let mut data = BytesMut::from("abc".as_bytes());
    wrap_bytes_crlf(&mut data, 3);
    assert_eq!(&data[..], b"abc");
    let mut data = BytesMut::from("abc".as_bytes());
    wrap_bytes_crlf(&mut data, 4);
    assert_eq!(&data[..], b"abc");
    let mut data = BytesMut::from("abc".as_bytes());
    wrap_bytes_crlf(&mut data, 1);
    assert_eq!(&data[..], b"a\r\nb\r\nc");
}

#[test]
fn every_line_but_the_last_is_full_and_the_lines_give_the_text() {
    for len in 0..400usize {
        for width in [1usize, 2, 3, 7, 76, 77, 399, 400, 401] {
            let text: Vec<u8> = (0..len).map(|i| b'a' + (i % 26) as u8).collect();
            let mut data = BytesMut::from(&text[..]);
            wrap_bytes_crlf(&mut data, width);
            let wrapped = data.to_vec();
            let lines: Vec<&[u8]> = wrapped.split(|b| *b == b'\n').collect();
            let mut joined: Vec<u8> = Vec::new();
            for (i, line) in lines.iter().enumerate() {
                if i + 1 < lines.len() {
                    assert_eq!(line.len(), width + 1);
                    assert_eq!(line[width], b'\r');
                    joined.extend_from_slice(&line[..width]);
                } else {
                    assert!(line.len() <= width);
                    assert!(len == 0 || !line.is_empty());
                    joined.extend_from_slice(line);
                }
            }
            assert_eq!(joined, text);
        }
    }
}

#[test]
fn base64_text_cut_at_every_line_break_gives_full_lines() {
    let text = b"QUJDREVGR0hJSktMTU5PUFFSU1RVVldYWVo=".to_vec();
    for width in 1..40usize {
        let mut data = BytesMut::from(&text[..]);
        wrap_bytes_crlf(&mut data, width);
        let wrapped = String::from_utf8(data.to_vec()).unwrap();
        let lines: Vec<&str> = wrapped.split("\r\n").collect();
        for line in &lines[..lines.len() - 1] {
            assert_eq!(line.len(), width);
        }
        let last = lines[lines.len() - 1];
        assert!(1 <= last.len() && last.len() <= width);
        assert_eq!(wrapped.replace("\r\n", "").as_bytes(), &text[..]);
        assert_eq!(lines.len(), (text.len() + width - 1) / width);
    }
}
