use prefix_writer::prefix_writer::PrefixWriter;
use rand::Rng;

const PREFIX: &str = "prefix: ";

fn run_test(input: &str, prefix: &str, expected: &str) {
    let mut writer = PrefixWriter::new(prefix.to_owned(), Vec::new());

    writer.write(input.as_bytes());
    writer.flush();

    let buffer = writer.into_writer();
    let got = String::from_utf8_lossy(&buffer);

    assert_eq!(expected, got);
}

fn give_random_input() -> Vec<u8> {
    let mut rng = rand::thread_rng();
    let lines: u32 = rng.gen_range(0..10);

    let mut buffer = String::new();
    for _line in 0..lines {
        let newline = rng.gen_bool(0.33);

        buffer.push_str("ABC");
        if newline {
            buffer.push('\n');
        }
    }
    buffer.push('e');

    buffer.as_bytes().to_vec()
}

#[test]
fn prefix_writer_single_line() {
    run_test("first\n", PREFIX, &format!("{}first\n", PREFIX));
}

#[test]
fn prefix_writer_two_line() {
    run_test(
        "first\nsecond\n",
        PREFIX,
        &format!("{}first\n{}second\n", PREFIX, PREFIX),
    );
}

#[test]
fn prefix_writer_two_line_remainder() {
    run_test(
        "first\nsecond",
        PREFIX,
        &format!("{}first\n{}second", PREFIX, PREFIX),
    );
}

#[test]
fn prefix_writer_fuzztest() {
    for _ in 0..10_000 {
        let input = give_random_input();

        let mut writer = PrefixWriter::new(PREFIX.to_owned(), Vec::new());

        writer.write(&input);
        writer.flush();

        let buffer = writer.into_writer();
        let got = String::from_utf8_lossy(&buffer);

        for line in got.lines() {
            assert!(line.starts_with(PREFIX));
        }
    }
}
