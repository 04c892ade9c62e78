use hpak::minify::minify_bytes;
use hpak::minify::RonMinifier;

fn minify_str(input: &str) -> String {
    String::from_utf8(minify_bytes(input.as_bytes())).unwrap()
}

#[test]
fn it_minify_ron_keeps_plain_strings() {
    assert_eq!(r#""Hello World!""#, minify_str(r#""Hello World!""#));
    assert_eq!(r#""Hello\nWorld!""#, minify_str(r#""Hello\nWorld!""#));
    assert_eq!(r#""Hello\ \t World!""#, minify_str(r#""Hello\ \t World!""#));
}

#[test]
fn it_minify_ron_strips_whitespace_and_comments() {
    let input = r#"GameConfig( // optional struct name
    window_size: (800, 600),
    window_title: "PAC-MAN",
    fullscreen: false,

    mouse_sensitivity: 1.4,
    key_bindings: {
        "up": Up,
        "down": Down,
        "left": Left,
        "right": Right,

        // Uncomment to enable WASD controls
        /*
        "W": Up,
        "S": Down,
        "A": Left,
        "D": Right,
        */
    },

    difficulty_options: (
        start_difficulty: Easy,
        adaptive: false,
    ),
)"#;
    let expected = "GameConfig(window_size:(800,600),window_title:\"PAC-MAN\",fullscreen:false,\
        mouse_sensitivity:1.4,key_bindings:{\"up\":Up,\"down\":Down,\"left\":Left,\"right\":Right,},\
        difficulty_options:(start_difficulty:Easy,adaptive:false,),)";
    assert_eq!(expected, minify_str(input));
}

#[test]
fn minifying_already_minified_text_is_a_no_op() {
    let once = minify_bytes(br#"a  b   { "k" : 1 , "v" : [ 2, 3 ] }"#);
    let twice = minify_bytes(&once);
    assert_eq!(once, twice);
}

#[test]
fn minifying_text_without_whitespace_or_comments_is_identity() {
    let input = br#"GameConfig(window_size:(800,600),title:"a b c")"#;
    // whitespace lives only inside the string, so nothing changes
    assert_eq!(input.to_vec(), minify_bytes(input));
}

#[test]
fn token_fusing_whitespace_survives_as_one_space() {
    assert_eq!("a b", minify_str("a  \t  b"));
    assert_eq!("ab", minify_str("a) (b").replace(['(', ')'], ""));
    assert_eq!("x:1", minify_str("x : 1").replace(' ', ""));
}

#[test]
fn minifying_twice_with_slashes_inside_strings() {
    let input = br#"x  { "path" : "a/b\\c" }  // note"#;
    let once = minify_bytes(input);
    assert_eq!(once, minify_bytes(&once));
}

#[test]
fn minifier_wrapper_matches_free_function() {
    let text = b"a   b // gone\nc".to_vec();
    let wrapper = RonMinifier::new(text.clone());
    assert_eq!(wrapper.minify(), minify_bytes(&text));
    assert_eq!(wrapper.minify(), b"a bc".to_vec());
}
