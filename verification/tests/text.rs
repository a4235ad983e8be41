use crev_repo::platform::{all_or_first_error, cfg_arguments, parse_cfgs, Cfg};
use crev_repo::text::{join, split, split_lines, Separator};
use crev_repo::version::decimal_text;

fn name(text: &str) -> Cfg {
    Cfg::Name(text.to_string())
}

#[test]
fn splitting_at_commas_leaves_out_empty_pieces() {
    assert_eq!(split("a,b,,c,", Separator::Comma), vec!["a", "b", "c"]);
    assert_eq!(split("", Separator::Comma), Vec::<String>::new());
    assert_eq!(split(",,", Separator::Comma), Vec::<String>::new());
    assert_eq!(split(" a, b ", Separator::Comma), vec![" a", " b "]);
}

#[test]
fn splitting_at_white_space_knows_unicode() {
    assert_eq!(split("  code --wait\t-n\n", Separator::WhiteSpace), vec!["code", "--wait", "-n"]);
    assert_eq!(split("a\u{a0}b\u{3000}c\u{85}d", Separator::WhiteSpace), vec!["a", "b", "c", "d"]);
    assert_eq!(split("a\u{200b}b", Separator::WhiteSpace), vec!["a\u{200b}b"]);
    assert_eq!(split(" \u{2003} ", Separator::WhiteSpace), Vec::<String>::new());
}

#[test]
fn white_space_is_what_std_says() {
    for code in 0..0x11_0000u32 {
        if let Some(character) = char::from_u32(code) {
            let text = character.to_string();
            let expected: Vec<&str> = text.split_whitespace().collect();
            assert_eq!(split(&text, Separator::WhiteSpace), expected);
        }
    }
}

#[test]
fn the_pieces_lose_nothing_but_separators() {
    let text = "ab,c,,d";
    assert_eq!(split(text, Separator::Comma).concat(), text.replace(',', ""));
}

#[test]
fn lines_end_as_in_std() {
    for text in ["", "\n", "a", "a\n", "a\r\n", "a\r", "a\r\r\nb", "\r\n\r\n", "a\n\nb\r\nc\r", "\r"] {
        let expected: Vec<&str> = text.lines().collect();
        assert_eq!(split_lines(text), expected, "{:?}", text);
    }
    assert_eq!(split_lines("one\ntwo\r\nthree"), vec!["one", "two", "three"]);
}

#[test]
fn joining_puts_the_separator_between() {
    let parts = vec!["1.0.0".to_string(), "2.0.0".to_string()];
    assert_eq!(join(&parts, ", "), "1.0.0, 2.0.0");
    assert_eq!(join(&vec!["x".to_string()], ", "), "x");
    assert_eq!(join(&vec![], ", "), "");
}

#[test]
fn numbers_are_written_in_decimal() {
    assert_eq!(decimal_text(0), "0");
    assert_eq!(decimal_text(7), "7");
    assert_eq!(decimal_text(10), "10");
    assert_eq!(decimal_text(usize::MAX), usize::MAX.to_string());
}

#[test]
fn the_configuration_is_read_line_by_line() {
    let output = b"unix\ntarget_os=\"linux\"\r\ndebug_assertions\n".to_vec();
    assert_eq!(
        parse_cfgs(&output).unwrap(),
        vec![
            name("unix"),
            Cfg::KeyPair("target_os".to_string(), "linux".to_string()),
            name("debug_assertions"),
        ]
    );
    assert_eq!(parse_cfgs(&vec![]).unwrap(), vec![]);
}

#[test]
fn the_configuration_may_hold_text_beyond_ascii() {
    let output = "vendor=\"Grüße\"\n".as_bytes().to_vec();
    assert_eq!(
        parse_cfgs(&output).unwrap(),
        vec![Cfg::KeyPair("vendor".to_string(), "Grüße".to_string())]
    );
}

#[test]
fn the_first_line_that_is_no_configuration_is_reported() {
    let error = parse_cfgs(&b"unix\nkey=\nkey=\"\n".to_vec()).unwrap_err();
    assert_eq!(error.line, 1);
    let expected: Result<cargo_platform::Cfg, _> = "key=".parse();
    assert_eq!(error.error.to_string(), expected.unwrap_err().to_string());
    let error = parse_cfgs(&b"unix\n\nwindows\n".to_vec()).unwrap_err();
    assert_eq!(error.line, 1);
}

#[test]
fn the_compiler_is_asked_for_a_target() {
    assert_eq!(cfg_arguments(&None), vec!["--print=cfg"]);
    assert_eq!(
        cfg_arguments(&Some("wasm32-unknown-unknown".to_string())),
        vec!["--print=cfg", "--target", "wasm32-unknown-unknown"]
    );
}

#[test]
fn all_values_or_the_first_error() {
    let good: Vec<Result<u8, char>> = vec![Ok(1), Ok(2)];
    assert_eq!(all_or_first_error(good), Ok(vec![1, 2]));
    let bad: Vec<Result<u8, char>> = vec![Ok(1), Err('x'), Ok(3), Err('y')];
    assert_eq!(all_or_first_error(bad), Err((1, 'x')));
}
