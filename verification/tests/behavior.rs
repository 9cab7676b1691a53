use prefix_writer::PrefixWriter;

const PREFIX: &str = "prefix: ";

#[test]
fn withholds_incomplete_line_until_flush() {
    let mut writer = PrefixWriter::new(PREFIX.to_owned(), Vec::new());

    writer.write("first\nsecond".as_bytes());
    assert_eq!(b"prefix: first\n".as_slice(), writer.writer().as_slice());

    writer.flush();
    assert_eq!(
        b"prefix: first\nprefix: second".as_slice(),
        writer.writer().as_slice()
    );
}

#[test]
fn flush_twice_without_pending_line() {
    let mut writer = PrefixWriter::new(PREFIX.to_owned(), Vec::new());

    writer.write("abc\n".as_bytes());
    writer.flush();
    writer.flush();

    let buffer = writer.into_writer();
    assert_eq!("prefix: abc\n", String::from_utf8_lossy(&buffer));
}

#[test]
fn flush_keeps_the_line_open() {
    let mut writer = PrefixWriter::new(PREFIX.to_owned(), Vec::new());

    writer.write("a".as_bytes());
    writer.flush();
    assert_eq!(b"prefix: a".as_slice(), writer.writer().as_slice());

    writer.write("b\n".as_bytes());
    let buffer = writer.into_writer();
    assert_eq!("prefix: aprefix: ab\n", String::from_utf8_lossy(&buffer));
}

#[test]
fn lossy_decoding_replaces_invalid_bytes() {
    let mut writer = PrefixWriter::new(PREFIX.to_owned(), Vec::new());

    writer.write(&[b'a', 0xFF, b'\n']);
    writer.flush();

    let buffer = writer.into_writer();
    assert_eq!(
        format!("{}a\u{FFFD}\n", PREFIX),
        String::from_utf8_lossy(&buffer)
    );
}

#[test]
fn chunked_writes_match_single_write() {
    let whole = "fir st\nsec\n\nond";
    for split in 0..whole.len() {
        let mut chunked = PrefixWriter::new(PREFIX.to_owned(), Vec::new());
        chunked.write(whole[..split].as_bytes());
        chunked.write(whole[split..].as_bytes());
        chunked.flush();

        let mut single = PrefixWriter::new(PREFIX.to_owned(), Vec::new());
        single.write(whole.as_bytes());
        single.flush();

        assert_eq!(single.into_writer(), chunked.into_writer());
    }
}

#[test]
fn empty_prefix_leaves_lines_unchanged() {
    let mut writer = PrefixWriter::new(String::new(), Vec::new());

    writer.write("a\nb\n".as_bytes());
    writer.flush();

    let buffer = writer.into_writer();
    assert_eq!("a\nb\n", String::from_utf8_lossy(&buffer));
}

#[test]
fn multibyte_prefix_is_kept_whole() {
    let mut writer = PrefixWriter::new("\u{BB} ".to_owned(), Vec::new());

    writer.write("x\n".as_bytes());
    writer.flush();

    let buffer = writer.into_writer();
    assert_eq!("\u{BB} x\n", String::from_utf8_lossy(&buffer));
}

#[test]
fn write_reports_full_input_consumed() {
    let mut writer = PrefixWriter::new(PREFIX.to_owned(), Vec::new());

    assert_eq!(4, writer.write("a\nbc".as_bytes()));
    assert_eq!(0, writer.write("".as_bytes()));
    assert_eq!(3, writer.write("d\ne".as_bytes()));
}

#[test]
fn with_prefix_changes_later_lines_only() {
    let mut writer = PrefixWriter::new("a: ".to_owned(), Vec::new());
    writer.write("one\n".as_bytes());

    let mut writer = writer.with_prefix("b: ".to_owned());
    writer.write("two\n".as_bytes());

    let buffer = writer.into_writer();
    assert_eq!("a: one\nb: two\n", String::from_utf8_lossy(&buffer));
}

#[test]
fn with_writer_swaps_the_sink() {
    let mut writer = PrefixWriter::new(PREFIX.to_owned(), Vec::new());
    writer.write("one\n".as_bytes());

    let mut writer = writer.with_writer(Vec::new());
    writer.write("two\n".as_bytes());

    let buffer = writer.into_writer();
    assert_eq!("prefix: two\n", String::from_utf8_lossy(&buffer));
}

#[test]
fn eager_variant_prefixes_empty_lines() {
    let mut writer =
        prefix_writer::prefix_writer::PrefixWriter::new(PREFIX.to_owned(), Vec::new());

    writer.write("a\n\nb".as_bytes());
    writer.flush();

    let buffer = writer.into_writer();
    assert_eq!(
        "prefix: a\nprefix: \nprefix: b",
        String::from_utf8_lossy(&buffer)
    );
}
