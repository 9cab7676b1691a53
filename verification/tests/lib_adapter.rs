use prefix_writer::PrefixWriter;
use rand::Rng;

const PREFIX: &str = "prefix: ";

fn run(input: &str, prefix: &str, expected: &str) {
    let mut writer = PrefixWriter::new(prefix.to_owned(), Vec::new());

    writer.write(input.as_bytes());
    writer.flush();

    let buffer = writer.into_writer();
    let got = String::from_utf8_lossy(&buffer);

    assert_eq!(expected, got);
}

fn give_random_input() -> Vec<u8> {
    let mut rng = rand::thread_rng();
    let lines: u32 = rng.gen_range(0..10);

    let mut buffer = String::new();
    for _line in 0..lines {
        let newline = rng.gen_bool(0.33);

        buffer.push_str("ABC");
        if newline {
            buffer.push('\n');
        }
    }
    buffer.push('e');

    buffer.as_bytes().to_vec()
}

#[test]
fn empty() {
    run("", PREFIX, "");
}

#[test]
fn empty_lines() {
    run("\n\n\n\n", PREFIX, "\n\n\n\n");
}

#[test]
fn no_newline() {
    run("first", PREFIX, &format!("{}first", PREFIX));
}

#[test]
fn lib_single_line() {
    run("first\n", PREFIX, &format!("{}first\n", PREFIX));
}

#[test]
fn lib_two_line() {
    run(
        "first\nsecond\n",
        PREFIX,
        &format!("{}first\n{}second\n", PREFIX, PREFIX),
    );
}

#[test]
fn lib_two_line_remainder() {
    run(
        "first\nsecond",
        PREFIX,
        &format!("{}first\n{}second", PREFIX, PREFIX),
    );
}

#[test]
fn two_line_empty_lines() {
    run(
        "first\n\n\n\nsecond\n",
        PREFIX,
        &format!("{}first\n\n\n\n{}second\n", PREFIX, PREFIX),
    );
}

#[test]
fn lib_fuzztest() {
    for _ in 0..10_000 {
        let input = give_random_input();

        let mut writer = PrefixWriter::new(PREFIX.to_owned(), Vec::new());

        writer.write(&input);
        writer.flush();

        let buffer = writer.into_writer();
        let got = String::from_utf8_lossy(&buffer);

        for line in got.lines() {
            assert!(line.starts_with(PREFIX));
        }
    }
}
