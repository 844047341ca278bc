use lazybind::split::{split_cmd, Unterminated};

fn ok(cmd: &str) -> Vec<String> {
    split_cmd(cmd).unwrap()
}

#[test]
fn splits_on_whitespace() {
    assert_eq!(ok("/usr/bin/some_command some_args"), ["/usr/bin/some_command", "some_args"]);
    assert_eq!(ok("  a\tb \u{3000} c\n"), ["a", "b", "c"]);
    assert_eq!(ok(""), Vec::<String>::new());
    assert_eq!(ok(" \t "), Vec::<String>::new());
}

#[test]
fn quotes_enclose() {
    assert_eq!(ok("'a b' \"c d\""), ["a b", "c d"]);
    assert_eq!(ok("'a\"b' \"c'd\""), ["a\"b", "c'd"]);
    assert_eq!(ok("a'b c'd\"e f\"g"), ["ab cde fg"]);
    assert_eq!(ok("'' a \"\""), ["", "a", ""]);
    assert_eq!(ok("''''"), [""]);
}

#[test]
fn no_escape_characters() {
    assert_eq!(ok("a\\ b"), ["a\\", "b"]);
    assert_eq!(ok("'a\\'"), ["a\\"]);
    assert_eq!(ok("\\n"), ["\\n"]);
}

#[test]
fn unterminated_is_refused_at_its_quote() {
    assert_eq!(split_cmd("'"), Err(Unterminated { position: 0 }));
    assert_eq!(split_cmd("a \"b c"), Err(Unterminated { position: 2 }));
    assert_eq!(split_cmd("'a' b'c\"d\""), Err(Unterminated { position: 5 }));
    // positions count characters
    assert_eq!(split_cmd("äöü 'x"), Err(Unterminated { position: 4 }));
}

#[test]
fn continued_command_splits_in_parts() {
    let head = "cmd 'a b'";
    let tail = " --more \"c\"";
    let mut parts = ok(head);
    parts.extend(ok(tail));
    assert_eq!(ok(&format!("{}{}", head, tail)), parts);
    assert_eq!(split_cmd("cmd 'a b' 'c"), Err(Unterminated { position: 10 }));
    assert_eq!(split_cmd(" 'c"), Err(Unterminated { position: 1 }));
}

#[test]
fn unquoted_words_are_the_visible_characters() {
    let s = " a\\b  $c;\td ";
    let visible: String = s.chars().filter(|c| !c.is_whitespace()).collect();
    assert_eq!(ok(s).concat(), visible);
    assert_eq!(ok(s), ["a\\b", "$c;", "d"]);
}

#[test]
fn quoted_words_read_back() {
    let words = ["", "a b", "it's", "\t", "x"];
    let mut line = String::new();
    for w in words {
        line.push('"');
        line.push_str(w);
        line.push_str("\" ");
    }
    assert_eq!(ok(&line), words);
}

#[test]
fn white_space_of_every_character() {
    for n in 0..=0x10ffffu32 {
        let Some(c) = char::from_u32(n) else { continue };
        if c == '"' || c == '\'' {
            continue;
        }
        let white = matches!(
            n,
            0x09..=0x0d
                | 0x20
                | 0x85
                | 0xa0
                | 0x1680
                | 0x2000..=0x200a
                | 0x2028
                | 0x2029
                | 0x202f
                | 0x205f
                | 0x3000
        );
        let words = ok(&c.to_string());
        if white {
            assert_eq!(words.len(), 0);
        } else {
            assert_eq!(words, [c.to_string()]);
        }
    }
}

#[test]
fn refused_for_the_first_quote_that_is_not_enclosed() {
    // the quotes at 4 and 7 both lack a closing one; that at 7 is enclosed by the other
    assert_eq!(split_cmd("a b \"c 'd"), Err(Unterminated { position: 4 }));
    assert!(split_cmd("a b ").is_ok());
    assert!(split_cmd("a b \"c ").is_err());
    // a quote within closed quotes is no quote
    assert_eq!(ok("\"it's\""), ["it's"]);
    assert_eq!(split_cmd("\"it's\" 'x"), Err(Unterminated { position: 7 }));
}
