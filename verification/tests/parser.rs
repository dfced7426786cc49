use ded::parser::{Parser, Position, Transform};

#[test]
fn next() {
    let mut parser = Parser::new("");

    assert_eq!(None, parser.next());

    parser.reset("fo\nba");

    assert_eq!(
        Position {
            offset: 0,
            line: 1,
            col: 1
        },
        parser.position()
    );
    assert_eq!(Some('f'), parser.next());
    assert_eq!(
        Position {
            offset: 1,
            line: 1,
            col: 2
        },
        parser.position()
    );
    assert_eq!(Some('o'), parser.next());
    assert_eq!(
        Position {
            offset: 2,
            line: 1,
            col: 3
        },
        parser.position()
    );
    assert_eq!(Some('\n'), parser.next());
    assert_eq!(
        Position {
            offset: 3,
            line: 2,
            col: 1
        },
        parser.position()
    );
    assert_eq!(Some('b'), parser.next());
    assert_eq!(
        Position {
            offset: 4,
            line: 2,
            col: 2
        },
        parser.position()
    );
    assert_eq!(Some('a'), parser.next());
    assert_eq!(
        Position {
            offset: 5,
            line: 2,
            col: 3
        },
        parser.position()
    );
    assert_eq!(None, parser.next());
}

#[test]
fn peek() {
    let mut parser = Parser::new("");
    assert_eq!(None, parser.peek());
    parser.reset("f");
    assert_eq!(Some('f'), parser.peek());
}

#[test]
fn satisfy() {
    let mut parser = Parser::new("f");
    assert_eq!(Ok('f'), parser.satisfy(|c| c == 'f'));
    assert!(parser.satisfy(|c| c == 'x').is_err());
    parser.next();
    assert!(parser.satisfy(|c| c == 'f').is_err());
}

#[test]
fn one_of() {
    let mut parser = Parser::new("x");
    let pattern = "xyz";

    assert!(parser.one_of(pattern).is_ok());
    parser.reset("y");
    assert!(parser.one_of(pattern).is_ok());
    parser.reset("u");
    assert!(parser.one_of(pattern).is_err());
}

#[test]
fn hex_digit() {
    let mut parser = Parser::new("ab9h");
    assert_eq!(Ok('a'), parser.hex_digit());
    assert_eq!(Ok('b'), parser.hex_digit());
    assert_eq!(Ok('9'), parser.hex_digit());
    assert!(parser.hex_digit().is_err());
}

#[test]
fn many0() {
    let mut parser = Parser::new("abc012");
    let pattern = "abc";
    assert_eq!(vec!['a', 'b', 'c'], parser.many0(pattern));
    assert_eq!(0, parser.many0(pattern).len());
    assert_eq!("012", parser.rest_input());
}

#[test]
fn many1() {
    let mut parser = Parser::new("abc012");
    let pattern = "abc";
    assert_eq!(Ok(vec!['a', 'b', 'c']), parser.many1(pattern));
    assert_eq!("012", parser.rest_input());
    parser.reset("012");
    assert!(parser.many1(pattern).is_err())
}

#[test]
fn hex_string() {
    let hex = "b488a4ca";
    let mut parser = Parser::new(hex);
    assert_eq!(Ok(String::from(hex)), parser.hex_string());
    assert_eq!("", parser.rest_input());
    parser.reset(" deadbeef");
    assert!(parser.hex_digit().is_err());
}

#[test]
fn char() {
    let mut parser = Parser::new("foo");
    assert_eq!(Ok('f'), parser.char('f'));
    assert_eq!(Ok('o'), parser.char('o'));
    assert!(parser.char('f').is_err());
}

#[test]
fn eof() {
    let mut parser = Parser::new("");
    assert!(parser.eof().is_ok());
    parser.reset("\n");
    assert!(parser.eof().is_err());
}

#[test]
fn newline() {
    let mut parser = Parser::new("");
    assert!(parser.newline().is_err());
    parser.reset("\n");
    assert!(parser.newline().is_ok());
    assert!(parser.eof().is_ok());
}

#[test]
fn either() {
    let mut parser = Parser::new(" ");
    assert_eq!(Ok(' '), parser.either(" ", "0123456789abcdef"));
    parser.reset("d");
    assert_eq!(Ok('d'), parser.either(" ", "0123456789abcdef"));
    parser.reset("A");
    assert!(parser.either(" ", "0123456789abcdef").is_err());
}

#[test]
fn line_ending() {
    let mut parser = Parser::new("");
    assert!(parser.line_ending().is_ok());
    parser.reset("\n ");
    assert!(parser.line_ending().is_ok());
    assert!(parser.line_ending().is_err());
}

#[test]
fn ignore_many() {
    let mut parser = Parser::new("deadbeef");
    parser.ignore_many0("\n");
    assert_eq!("deadbeef", parser.rest_input());
    parser.ignore_many0("0123456789abcdef");
    assert!(parser.eof().is_ok());
}

#[test]
fn comment() {
    let mut parser = Parser::new("# foobar\n# foobar");
    assert!(parser.comment().is_ok());
    assert!(parser.comment().is_ok());
    assert!(parser.eof().is_ok());
    parser.reset(" ");
    assert!(parser.comment().is_err());
}

#[test]
fn space() {
    let mut parser = Parser::new("");
    assert!(parser.space().is_err());
    parser.reset(" \t");
    assert!(parser.space().is_ok());
    assert!(parser.eof().is_ok());
}

#[test]
fn whitespace() {
    let mut parser = Parser::new("   #  this is a comment\n\t   \n# ^ this is an empty line\ndeadbeef");
    assert!(parser.whitespace().is_ok()); // consume whitespace before the first comment
    assert!(parser.whitespace().is_ok()); // consume the first comment
    assert!(parser.whitespace().is_ok()); // consume the empty line
    assert!(parser.whitespace().is_ok()); // consume the second comment
    assert!(parser.try_whitespace().is_none());
    assert_eq!("deadbeef", parser.rest_input());
}

#[test]
fn ignore_whitespace() {
    let mut parser = Parser::new("   #  this is a comment\n\t   \n# ^ this is an empty line\n   deadbeef");
    parser.ignore_whitespace();
    assert_eq!("deadbeef", parser.rest_input());
    parser.ignore_whitespace();
    assert_eq!("deadbeef", parser.rest_input());
}

#[test]
fn transform() {
    let mut parser = Parser::new(
        "   #  this is a comment\n\t   \n# ^ this is an empty line\ndeadbeef /etc/secret",
    );
    assert_eq!(
        Ok(Transform::Rename {
            hash_fragment: String::from("deadbeef"),
            pattern: String::from("/etc/secret")
        }),
        parser.transform()
    );
    assert!(parser.eof().is_ok());

    parser.reset("#  this is a comment\n\t   \n# ^ this is an empty line\ndeadbeef ");
    assert_eq!(
        Ok(Transform::Remove {
            hash_fragment: String::from("deadbeef")
        }),
        parser.transform()
    );
    assert!(parser.eof().is_ok());

    parser.reset("#  this is a comment\n\t   \n# ^ this is an empty line\ndeadbeef");
    assert_eq!(
        Ok(Transform::Remove {
            hash_fragment: String::from("deadbeef")
        }),
        parser.transform()
    );
    assert!(parser.eof().is_ok());
}

#[test]
fn parse_rename_and_removes() {
    let mut parser = Parser::new("deadbeef /etc/secret");
    assert_eq!(
        Ok(vec![Transform::Rename {
            hash_fragment: String::from("deadbeef"),
            pattern: String::from("/etc/secret")
        }]),
        parser.parse()
    );

    parser.reset("deadbeef");
    assert_eq!(
        Ok(vec![Transform::Remove {
            hash_fragment: String::from("deadbeef")
        }]),
        parser.parse()
    );

    parser.reset("deadbeef ");
    assert_eq!(
        Ok(vec![Transform::Remove {
            hash_fragment: String::from("deadbeef")
        }]),
        parser.parse()
    );
}

#[test]
fn parse_comments_only_is_empty() {
    let mut parser = Parser::new("# a comment\n\n   \n# another\n");
    assert_eq!(Ok(vec![]), parser.parse());
}

#[test]
fn parse_rejects_trailing_content() {
    let mut parser = Parser::new("deadbeef x\nNOT-A-TRANSFORM");
    assert!(parser.parse().is_err());

    parser.reset("deadbeef\n!!!");
    assert!(parser.parse().is_err());
}

#[test]
fn parse_whole_listing() {
    let mut parser = Parser::new(
        "# Edit directory /tmp/demo\n\naa11 new-name.txt\nbb22\n# comment between\ncc33 \n",
    );
    assert_eq!(
        Ok(vec![
            Transform::Rename {
                hash_fragment: String::from("aa11"),
                pattern: String::from("new-name.txt")
            },
            Transform::Remove {
                hash_fragment: String::from("bb22")
            },
            Transform::Remove {
                hash_fragment: String::from("cc33")
            },
        ]),
        parser.parse()
    );
}

#[test]
fn parse_pattern_trimming() {
    // A pattern of blanks trims to nothing and asks for removal.
    let mut parser = Parser::new("ab12 \t \n");
    assert_eq!(
        Ok(vec![Transform::Remove {
            hash_fragment: String::from("ab12")
        }]),
        parser.parse()
    );

    // Interior blanks survive; outer blanks are trimmed.
    parser.reset("ab12   two words  \n");
    assert_eq!(
        Ok(vec![Transform::Rename {
            hash_fragment: String::from("ab12"),
            pattern: String::from("two words")
        }]),
        parser.parse()
    );
}
