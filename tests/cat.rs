use catlib::{cat, escape_byte, flags_of, render_source, transform, Flags, Options};

fn run(inputs: &[&[u8]], options: &[Options]) -> Vec<u8> {
    let srcs: Vec<Vec<u8>> = inputs.iter().map(|s| s.to_vec()).collect();
    cat(&srcs, options)
}

fn run_str(inputs: &[&str], options: &[Options]) -> String {
    let srcs: Vec<&[u8]> = inputs.iter().map(|s| s.as_bytes()).collect();
    String::from_utf8(run(&srcs, options)).unwrap()
}

fn numbered_lines(raw: &str, skip_blank: bool) -> String {
    let mut res = String::new();
    let mut idx = 0;
    for line in raw.split('\n') {
        if skip_blank && line.is_empty() {
            res += "\n";
            continue;
        }
        idx += 1;
        res += &format!("{:>6}  ", idx);
        res += line;
        res += "\n";
    }
    if !raw.ends_with('\n') {
        res.pop();
    }
    res
}

fn squeezed(raw: &str) -> String {
    let mut res = String::from(raw);
    while res.contains("\n\n") {
        res = res.replace("\n\n", "\n");
    }
    res
}

#[test]
fn cat_simple() {
    assert_eq!(run_str(&["hello\nworld"], &[]), "hello\nworld");
}

#[test]
fn cat_multiple() {
    let res = run_str(&["hello\nworld", "\tbye bye\nworld", "foo\nbar"], &[]);
    assert_eq!(res, "hello\nworld\tbye bye\nworldfoo\nbar");
}

#[test]
fn cat_show_ends() {
    let res = run_str(
        &["hello\nworld", "\tbye bye\nworld", "foo\nbar"],
        &[Options::ShowEnds],
    );
    let expected = "hello\nworld\tbye bye\nworldfoo\nbar".replace("\n", "$\n");
    assert_eq!(res, expected);
}

#[test]
fn cat_show_tabs() {
    let res = run_str(
        &["hello\nworld", "\tbye bye\nworld", "foo\nbar"],
        &[Options::ShowTabs],
    );
    let expected = "hello\nworld\tbye bye\nworldfoo\nbar".replace("\t", "^I");
    assert_eq!(res, expected);
}

#[test]
fn cat_show_ends_show_tabs() {
    let res = run_str(
        &["hello\nworld", "\tbye bye\nworld", "foo\nbar"],
        &[Options::ShowTabs, Options::ShowEnds],
    );
    let expected = "hello\nworld\tbye bye\nworldfoo\nbar"
        .replace("\t", "^I")
        .replace("\n", "$\n");
    assert_eq!(res, expected);
}

#[test]
fn cat_squeeze_lines() {
    let res = run_str(&["hello\n\n\t\nworld"], &[Options::SqueezeBlank]);
    assert_eq!(res, squeezed("hello\n\n\t\nworld"));
    assert_eq!(res, "hello\n\t\nworld");
}

#[test]
fn cat_show_ends_squeeze_lines() {
    let res = run_str(
        &["hello\n\n\t\nworld"],
        &[Options::ShowEnds, Options::SqueezeBlank],
    );
    assert_eq!(res, squeezed("hello\n\n\t\nworld").replace("\n", "$\n"));
}

#[test]
fn cat_show_tabs_squeeze_lines() {
    let res = run_str(
        &["hello\n\n\t\nworld"],
        &[Options::ShowTabs, Options::SqueezeBlank],
    );
    assert_eq!(res, squeezed("hello\n\n\t\nworld").replace("\t", "^I"));
}

#[test]
fn cat_show_ends_show_tabs_squeeze_lines() {
    let res = run_str(
        &["hello\n\n\t\nworld"],
        &[Options::ShowTabs, Options::ShowEnds, Options::SqueezeBlank],
    );
    let expected = squeezed("hello\n\n\t\nworld")
        .replace("\t", "^I")
        .replace("\n", "$\n");
    assert_eq!(res, expected);
}

#[test]
fn cat_number() {
    let res = run_str(&["hello\n\n\t\nworld"], &[Options::Number]);
    assert_eq!(res, numbered_lines("hello\n\n\t\nworld", false));
    assert_eq!(res, "     1  hello\n     2  \n     3  \t\n     4  world");
}

#[test]
fn cat_number_nonblank() {
    let res = run_str(&["hello\n\n\t\nworld"], &[Options::NumberNonblank]);
    assert_eq!(res, numbered_lines("hello\n\n\t\nworld", true));
    assert_eq!(res, "     1  hello\n\n     2  \t\n     3  world");
}

#[test]
fn cat_number_nonblank2() {
    let res = run_str(&["\n\n\nhello\n\n\t\nworld"], &[Options::NumberNonblank]);
    assert_eq!(res, numbered_lines("\n\n\nhello\n\n\t\nworld", true));
    assert!(res.starts_with("\n\n\n     1  hello\n"));
}

#[test]
fn cant_show_nonprinting() {
    let out = run(&[&[0x01, b'a', 0x7f, 0x81, 0xff, b'\t', b'\n']], &[Options::ShowNonprinting]);
    assert_eq!(out, b"^Aa^?M-^AM-^?\t\n".to_vec());
}

#[test]
fn identity_keeps_every_byte() {
    let all: Vec<u8> = (0..=255u8).collect();
    let out = run(&[&all, b"", b"\n\n\t"], &[]);
    let mut expected = all.clone();
    expected.extend_from_slice(b"\n\n\t");
    assert_eq!(out, expected);
}

#[test]
fn empty_sources_give_nothing() {
    assert_eq!(run(&[], &[Options::Number]), Vec::<u8>::new());
    assert_eq!(run(&[b"", b""], &[Options::Number, Options::ShowEnds]), Vec::<u8>::new());
}

#[test]
fn show_ends_example() {
    assert_eq!(run_str(&["a\nb"], &[Options::ShowEnds]), "a$\nb");
}

#[test]
fn show_tabs_leaves_other_bytes() {
    let out = run(&[&[b'\t', 0x89, b'x', b'\t']], &[Options::ShowTabs]);
    assert_eq!(out, vec![b'^', b'I', 0x89, b'x', b'^', b'I']);
}

#[test]
fn show_tabs_with_nonprinting() {
    let out = run(&[&[b'\t', 0x89]], &[Options::ShowNonprinting]);
    assert_eq!(out, b"\tM-^I".to_vec());
    let out = run(&[&[b'\t', 0x89]], &[Options::ShowNonprinting, Options::ShowTabs]);
    assert_eq!(out, b"^IM-^I".to_vec());
}

#[test]
fn squeeze_removes_newline_runs() {
    assert_eq!(run_str(&["\n\n\na\n\n\n\nb\n"], &[Options::SqueezeBlank]), "a\nb\n");
    assert_eq!(run_str(&["a\n", "\nb"], &[Options::SqueezeBlank]), "a\nb");
}

#[test]
fn squeeze_with_number_still_numbers_line_starts() {
    let res = run_str(&["a\n\nb"], &[Options::Number, Options::SqueezeBlank]);
    assert_eq!(res, "     1  a\n     2       3  b");
}

#[test]
fn nonblank_wins_over_number() {
    let res = run_str(&["\n\n\nhello"], &[Options::Number, Options::NumberNonblank]);
    assert_eq!(res, "\n\n\n     1  hello");
    let res = run_str(&["\n\n\nhello"], &[Options::NumberNonblank]);
    assert_eq!(res, "\n\n\n     1  hello");
    let res = run_str(&["\n\n\nhello"], &[Options::Number]);
    assert_eq!(res, "     1  \n     2  \n     3  \n     4  hello");
}

#[test]
fn numbering_continues_across_sources() {
    let res = run_str(&["a\n", "b\n"], &[Options::Number]);
    assert_eq!(res, "     1  a\n     2  b\n");
}

#[test]
fn each_source_starts_a_line() {
    let res = run_str(&["ab", "cd"], &[Options::Number]);
    assert_eq!(res, "     1  ab     2  cd");
    let res = run_str(&["ab", "\ncd"], &[Options::NumberNonblank]);
    assert_eq!(res, "     1  ab\n     2  cd");
}

#[test]
fn escape_notation() {
    assert_eq!(escape_byte(0x01), b"^A".to_vec());
    assert_eq!(escape_byte(0x7f), b"^?".to_vec());
    assert_eq!(escape_byte(0x81), b"M-^A".to_vec());
    assert_eq!(escape_byte(0x00), b"^@".to_vec());
    assert_eq!(escape_byte(0x1f), b"^_".to_vec());
    assert_eq!(escape_byte(b'A'), b"A".to_vec());
    assert_eq!(escape_byte(0x8a), b"M-^J".to_vec());
    assert_eq!(escape_byte(0xff), b"M-^?".to_vec());
    assert_eq!(escape_byte(0xc1), b"M-A".to_vec());
    assert_eq!(escape_byte(b'\t'), b"\t".to_vec());
    assert_eq!(escape_byte(b'\n'), b"\n".to_vec());
}

#[test]
fn wide_line_numbers() {
    let mut out: Vec<u8> = Vec::new();
    let mut idx: u128 = 999_998;
    let f = flags_of(&[Options::Number]);
    render_source(&f, b"x\ny\n", &mut idx, &mut out);
    assert_eq!(idx, 1_000_000);
    assert_eq!(String::from_utf8(out).unwrap(), "999999  x\n1000000  y\n");
}

#[test]
fn flags_from_repeated_options() {
    let f = flags_of(&[Options::ShowEnds, Options::ShowEnds, Options::NumberNonblank]);
    assert_eq!(
        f,
        Flags {
            show_tabs: false,
            show_ends: true,
            squeeze_blank: false,
            number: false,
            number_nonblank: true,
            show_nonprinting: false,
        }
    );
    assert_eq!(flags_of(&[]), Flags::none());
}

#[test]
fn transform_with_flags() {
    let f = flags_of(&[Options::ShowEnds, Options::Number]);
    let srcs = vec![b"a\n".to_vec(), b"\tb".to_vec()];
    let out = transform(&srcs, &f);
    assert_eq!(String::from_utf8(out).unwrap(), "     1  a$\n     2  \tb");
}
