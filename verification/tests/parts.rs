use multipart_form::boundary::{random_boundary, BOUNDARY_LEN};
use multipart_form::wire::{
    render_closing_marker, render_delimiter, render_stream_header, write_text_part,
};
use multipart_form::{cursor_at_end, Cursor, PreparedField, Source};

#[test]
fn cursor_hands_out_its_bytes_in_order() {
    let mut cursor = Cursor::new(vec![1, 2, 3, 4, 5]);
    assert!(!cursor_at_end(&cursor));
    let mut buf = [9u8; 3];
    assert_eq!(cursor.read(&mut buf).unwrap(), 3);
    assert_eq!(buf, [1, 2, 3]);
    assert!(!cursor_at_end(&cursor));
    let mut buf = [9u8; 3];
    assert_eq!(cursor.read(&mut buf).unwrap(), 2);
    assert_eq!(buf, [4, 5, 9]);
    assert!(cursor_at_end(&cursor));
    assert_eq!(cursor.read(&mut buf).unwrap(), 0);
    assert_eq!(buf, [4, 5, 9]);
}

#[test]
fn cursor_over_nothing_is_at_its_end() {
    let mut cursor = Cursor::new(Vec::new());
    assert!(cursor_at_end(&cursor));
    let mut buf = [0u8; 4];
    assert_eq!(cursor.read(&mut buf).unwrap(), 0);
}

#[test]
fn cursor_with_empty_buffer_does_not_move() {
    let mut cursor = Cursor::new(vec![1]);
    let mut empty: [u8; 0] = [];
    assert_eq!(cursor.read(&mut empty).unwrap(), 0);
    assert!(!cursor_at_end(&cursor));
}

#[test]
fn text_part_on_the_wire() {
    let mut out = String::from("before");
    write_text_part(&mut out, "B", "n\u{e4}me", "v\r\nw");
    assert_eq!(
        out,
        "before\r\n--B\r\nContent-Disposition: form-data; name=\"n\u{e4}me\"\r\n\r\nv\r\nw"
    );
}

#[test]
fn stream_header_with_and_without_filename() {
    assert_eq!(
        render_stream_header("\r\n--B", "f", Some("a b.txt"), "text/plain"),
        "\r\n--B\r\nContent-Disposition: form-data; name=\"f\"; filename=\"a b.txt\"\r\nContent-Type: text/plain\r\n\r\n"
    );
    assert_eq!(
        render_stream_header("\r\n--B", "f", None, "application/octet-stream"),
        "\r\n--B\r\nContent-Disposition: form-data; name=\"f\"\r\nContent-Type: application/octet-stream\r\n\r\n"
    );
}

#[test]
fn stream_header_begins_with_the_delimiter_as_given() {
    assert_eq!(
        render_stream_header("B", "f", None, "a/b"),
        "B\r\nContent-Disposition: form-data; name=\"f\"\r\nContent-Type: a/b\r\n\r\n"
    );
    assert_eq!(
        render_stream_header("", "f", None, "a/b"),
        "\r\nContent-Disposition: form-data; name=\"f\"\r\nContent-Type: a/b\r\n\r\n"
    );
    assert_eq!(render_delimiter("XYZ"), "\r\n--XYZ");
    assert_eq!(render_delimiter(""), "\r\n--");
}

#[test]
fn closing_marker_has_no_line_break_after_it() {
    assert_eq!(render_closing_marker("0a1B"), "\r\n--0a1B--");
    assert_eq!(render_closing_marker(""), "\r\n----");
}

#[test]
fn random_boundary_has_the_declared_length() {
    assert_eq!(BOUNDARY_LEN, 16);
    let token = random_boundary();
    assert_eq!(token.chars().count(), BOUNDARY_LEN);
    assert!(token.chars().all(|c| c.is_ascii_alphanumeric()));
}

#[test]
fn prepared_field_reads_header_then_payload() {
    let mut field = PreparedField::from_stream(
        "n",
        "\r\n--B",
        &mime::APPLICATION_JSON,
        Some("d.json"),
        Cursor::new(b"{}".to_vec()),
    );
    let header = "\r\n--B\r\nContent-Disposition: form-data; name=\"n\"; filename=\"d.json\"\r\nContent-Type: application/json\r\n\r\n";
    let mut buf = vec![0u8; header.len() + 10];
    assert_eq!(field.read(&mut buf).unwrap(), header.len());
    assert_eq!(&buf[..header.len()], header.as_bytes());
    assert_eq!(field.read(&mut buf).unwrap(), 2);
    assert_eq!(&buf[..2], b"{}");
    assert_eq!(field.read(&mut buf).unwrap(), 0);
}

#[test]
fn prepared_field_header_in_pieces() {
    let mut field = PreparedField::from_stream(
        "n",
        "\r\n--B",
        &mime::TEXT_PLAIN,
        None,
        Cursor::new(b"xy".to_vec()),
    );
    let mut out = Vec::new();
    let mut buf = [0u8; 7];
    loop {
        let n = field.read(&mut buf).unwrap();
        if n == 0 {
            break;
        }
        out.extend_from_slice(&buf[..n]);
    }
    assert_eq!(
        out,
        b"\r\n--B\r\nContent-Disposition: form-data; name=\"n\"\r\nContent-Type: text/plain\r\n\r\nxy"
            .to_vec()
    );
}

#[test]
fn prepared_field_header_with_file_name_and_text_plain() {
    let mut field = PreparedField::from_stream(
        "f",
        "\r\n--XYZ",
        &mime::TEXT_PLAIN,
        Some("x.txt"),
        Cursor::new(Vec::new()),
    );
    let header = b"\r\n--XYZ\r\nContent-Disposition: form-data; name=\"f\"; filename=\"x.txt\"\r\nContent-Type: text/plain\r\n\r\n";
    let mut buf = [0u8; 200];
    assert_eq!(field.read(&mut buf).unwrap(), header.len());
    assert_eq!(&buf[..header.len()], &header[..]);
}

#[test]
fn prepared_field_header_with_default_type_has_ninety_three_bytes() {
    let mut field = PreparedField::from_stream(
        "f",
        "\r\n--XYZ",
        &mime::APPLICATION_OCTET_STREAM,
        None,
        Cursor::new(Vec::new()),
    );
    let header = b"\r\n--XYZ\r\nContent-Disposition: form-data; name=\"f\"\r\nContent-Type: application/octet-stream\r\n\r\n";
    assert_eq!(header.len(), 93);
    let mut buf = [0u8; 200];
    assert_eq!(field.read(&mut buf).unwrap(), 93);
    assert_eq!(&buf[..93], &header[..]);
    assert_eq!(field.read(&mut buf).unwrap(), 0);
}

#[test]
fn prepared_field_first_read_is_the_whole_header_and_no_payload_byte() {
    let mut field = PreparedField::from_stream(
        "f",
        "\r\n--XYZ",
        &mime::TEXT_PLAIN,
        None,
        Cursor::new(b"AB".to_vec()),
    );
    let mut buf = [0u8; 100];
    assert_eq!(field.read(&mut buf).unwrap(), 79);
    assert_eq!(
        &buf[..79],
        &b"\r\n--XYZ\r\nContent-Disposition: form-data; name=\"f\"\r\nContent-Type: text/plain\r\n\r\n"[..]
    );
    assert_eq!(field.read(&mut buf).unwrap(), 2);
    assert_eq!(&buf[..2], b"AB");
    assert_eq!(field.read(&mut buf).unwrap(), 0);
}

/// A payload that counts the reads made on it and hands out nothing.
struct Counting {
    reads: std::rc::Rc<std::cell::Cell<usize>>,
}

impl Source for Counting {
    fn read(&mut self, _buf: &mut [u8]) -> Result<usize, std::io::Error> {
        self.reads.set(self.reads.get() + 1);
        Ok(0)
    }
}

#[test]
fn from_stream_reads_nothing_and_later_reads_go_to_the_payload_once_each() {
    let reads = std::rc::Rc::new(std::cell::Cell::new(0));
    let mut field = PreparedField::from_stream(
        "f",
        "\r\n--XYZ",
        &mime::TEXT_PLAIN,
        None,
        Counting { reads: reads.clone() },
    );
    assert_eq!(reads.get(), 0);
    let mut buf = [0u8; 100];
    assert_eq!(field.read(&mut buf).unwrap(), 79);
    assert_eq!(reads.get(), 0);
    assert_eq!(field.read(&mut buf).unwrap(), 0);
    assert_eq!(reads.get(), 1);
    assert_eq!(field.read(&mut buf).unwrap(), 0);
    assert_eq!(reads.get(), 2);
}
