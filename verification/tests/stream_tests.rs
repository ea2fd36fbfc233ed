use ciphers::stream::{stream, text_cleanup, Args};

#[test]
fn cleanup_keeps_letters_and_spaces_lowercased() {
    assert_eq!(
        text_cleanup(String::from("Hello, World!\n42")),
        "hello world"
    );
    assert_eq!(text_cleanup(String::from("ABC def")), "abc def");
    assert_eq!(text_cleanup(String::from("1234!?")), "");
}

#[test]
fn stream_xors_character_by_character() {
    // XOR with a space flips the case bit of an ASCII letter.
    assert_eq!(stream("abc", "   "), "ABC");
    // XOR with itself gives NUL characters.
    assert_eq!(stream("aa", "aa"), "\u{0}\u{0}");
}

#[test]
fn stream_stops_at_the_shorter_input() {
    assert_eq!(stream("abcdef", "  "), "AB");
    assert_eq!(stream("a", "  "), "A");
}

#[test]
fn stream_applied_twice_restores_the_text() {
    let text = "attack at dawn";
    let key = "supersecretkey";
    let once = stream(text, key);
    let twice = stream(&once, key);
    assert_eq!(twice, text);
}

#[test]
fn stream_tool_args_carry_the_switches() {
    let args = Args {
        prepare: false,
        encrypt: true,
        cryptanalysis: false,
    };
    assert!(args.encrypt && !args.prepare && !args.cryptanalysis);
}
