use rcclex::charset::Charset;
use rcclex::config::{Config, Error};
use rcclex::lexer::{Lexer, Token};

fn lexer(s: &[u8]) -> Lexer {
    Lexer::new(s, Config::default())
}

fn onetok(s: &[u8]) -> Result<Token, Error> {
    lexer(s).token()
}

fn chars(bytes: &[u8]) -> Charset {
    let mut s = Charset::new();
    for c in bytes {
        s.add_char(*c);
    }
    s
}

fn word() -> Charset {
    let mut s = Charset::range(b'0', b'9');
    s.add_range(b'A', b'Z');
    s.add_range(b'a', b'z');
    s.add_char(b'_');
    s
}

#[test]
fn tokens() {
    let mut lex =
        lexer(b"()\\A\\Z{18}{1,59}{9,}{,8}*+?|[]].\\x00\\x7f\\x9\\s\\S\\d\\D\\w\\W\\t\\n");
    let ans = [
        Token::Open,
        Token::Close(false),
        Token::StartGroup,
        Token::EndGroup,
        Token::Repeat(18, Some(18)),
        Token::Repeat(1, Some(59)),
        Token::Repeat(9, None),
        Token::Repeat(0, Some(8)),
        Token::Repeat(0, None),
        Token::Repeat(1, None),
        Token::Repeat(0, Some(1)),
        Token::Union,
        Token::Char(chars(b"]")),
        Token::Char(Charset::all()),
        Token::Char(chars(&[0])),
        Token::Char(chars(&[0x7f])),
        Token::Char(chars(&[0x9])),
        Token::Char(chars(b"\n\t \r")),
        Token::Char(chars(b"\n\t \r").inv()),
        Token::Char(Charset::range(b'0', b'9')),
        Token::Char(Charset::range(b'0', b'9').inv()),
        Token::Char(word()),
        Token::Char(word().inv()),
        Token::Char(chars(b"\t")),
        Token::Char(chars(b"\n")),
        Token::Close(true),
    ];
    for a in ans {
        assert_eq!(lex.token().unwrap(), a);
    }

    let mut v: Vec<u8> = vec![];
    for c in 0..128 {
        match c {
            b'(' | b')' | b'{' | b'*' | b'+' | b'?' | b'|' | b'[' | b'.' | b'\\' => {
                v.push(b'\\');
                v.push(c);
            }
            _ => v.push(c),
        }
    }
    let mut lex = lexer(&v);
    for c in 0..128 {
        assert_eq!(lex.token().unwrap(), Token::Char(chars(&[c])));
    }
    assert_eq!(lex.token().unwrap(), Token::Close(true));
}

#[test]
fn charset() {
    let mut lex = lexer(b"[][\\]][^]][\\d][^-\\x05][\\s-\\d][--][abc\\n]");
    let mut abc = Charset::range(b'a', b'c');
    abc.add_char(b'\n');
    let ans = [
        Token::Char(chars(b"[]")),
        Token::Char(chars(b"]").inv()),
        Token::Char(Charset::range(b'0', b'9')),
        Token::Char(chars(&[b'-', 5]).inv()),
        Token::Char(chars(b"\t\n\r").union(&Charset::range(b' ', b'9'))),
        Token::Char(chars(b"-")),
        Token::Char(abc),
        Token::Close(true),
    ];
    for a in ans {
        assert_eq!(lex.token().unwrap(), a);
    }
}

#[test]
fn lexer_errors() {
    assert_eq!(onetok(b"\\").unwrap_err(), Error::Escape);
    assert_eq!(onetok(b"[").unwrap_err(), Error::Charset);
    assert_eq!(onetok(b"[hello").unwrap_err(), Error::Charset);
    assert_eq!(onetok(b"[i-").unwrap_err(), Error::Charset);
    assert_eq!(onetok(b"{").unwrap_err(), Error::Repeat);
    assert_eq!(onetok(b"{a").unwrap_err(), Error::Repeat);
    assert_eq!(onetok(b"{}").unwrap_err(), Error::Repeat);
    assert_eq!(onetok(b"{0,0}").unwrap_err(), Error::Repeat);
    assert_eq!(onetok(b"\\xq").unwrap_err(), Error::Escape);
    assert_eq!(onetok(b"{a").unwrap_err(), Error::Repeat);
}

#[test]
fn auto_groups() {
    let mut config = Config::default();
    config.auto_groups = true;
    let mut lex = Lexer::new(b"()", config);
    assert_eq!(lex.token(), Ok(Token::StartGroup));
    assert_eq!(lex.token(), Ok(Token::Open));
    assert_eq!(lex.token(), Ok(Token::Close(false)));
    assert_eq!(lex.token(), Ok(Token::EndGroup));
    assert_eq!(lex.token(), Ok(Token::Close(true)));
}

#[test]
fn overflow_and_bad_repeats() {
    assert_eq!(onetok(b"{256}"), Err(Error::Overflow));
    assert_eq!(onetok(b"{300,}"), Err(Error::Overflow));
    assert_eq!(onetok(b"\\x100"), Err(Error::Overflow));
    assert_eq!(onetok(b"{255}"), Ok(Token::Repeat(255, Some(255))));
    assert_eq!(onetok(b"{0}"), Err(Error::Repeat));
    assert_eq!(onetok(b"{3,2}"), Err(Error::Repeat));
    assert_eq!(onetok(b"{,}"), Ok(Token::Repeat(0, None)));
    assert_eq!(onetok(b"{0,}"), Ok(Token::Repeat(0, None)));
    assert_eq!(onetok(b"{1,}"), Ok(Token::Repeat(1, None)));
    assert_eq!(onetok(b"{,1}"), Ok(Token::Repeat(0, Some(1))));
    assert_eq!(onetok(b"{0,1}"), Ok(Token::Repeat(0, Some(1))));
    assert_eq!(onetok(b"\\xff"), Ok(Token::Char(Charset::char(255))));
    assert_eq!(onetok(b"\\XA"), Ok(Token::Char(Charset::char(10))));
}

#[test]
fn class_edge_cases() {
    assert_eq!(onetok(b"[]"), Err(Error::Charset));
    assert_eq!(onetok(b"[z-a]"), Err(Error::Charset));
    assert_eq!(onetok(b"[a-]"), Ok(Token::Char(chars(b"a-"))));
    assert_eq!(onetok(b"[\\A]"), Err(Error::Escape));
    assert_eq!(onetok(b"[a-c]"), Ok(Token::Char(Charset::range(b'a', b'c'))));
    assert_eq!(onetok(b"[^\\x00-\\xff]"), Ok(Token::Char(Charset::new())));
    assert_eq!(onetok(b"\\q"), Ok(Token::Char(Charset::char(b'q'))));
    assert_eq!(onetok(b"."), Ok(Token::Char(Charset::all())));
}

#[test]
fn end_of_input_repeats_close() {
    let mut lex = lexer(b"a");
    assert_eq!(lex.token(), Ok(Token::Char(Charset::char(b'a'))));
    for _ in 0..3 {
        assert_eq!(lex.token(), Ok(Token::Close(true)));
    }
    let mut config = Config::default();
    config.auto_groups = true;
    let mut dot = Charset::new();
    dot.add_char(b'x');
    config.dot_charset = dot;
    let mut lex = Lexer::new(b".", config);
    assert_eq!(lex.token(), Ok(Token::Char(Charset::char(b'x'))));
}

#[test]
fn config_checks_escape_keys() {
    let mut config = Config::default();
    assert!(config.is_valid());
    config.esc_charset.insert(b'y', Charset::char(b'y'));
    assert!(config.is_valid());
    config.esc_charset.insert(b'x', Charset::char(b'x'));
    assert!(!config.is_valid());
    let mut config = Config::default();
    config.esc_charset.insert(b'A', Charset::new());
    assert!(!config.is_valid());
    let mut config = Config::default();
    config.esc_charset.insert(b'1', Charset::new());
    assert!(!config.is_valid());
}

#[test]
fn error_messages() {
    assert_eq!(Error::Config.message(), "invalid regex configuration");
    assert_eq!(Error::Charset.message(), "bad charset syntax");
    assert_eq!(Error::Escape.message(), "invalid escape sequence");
    assert_eq!(Error::Repeat.message(), "bad repeat syntax");
    assert_eq!(
        Error::Overflow.message(),
        "repeat number or hexadecimal char value exceeds 255"
    );
    assert_eq!(Error::Balance.message(), "bad () balance");
    assert_eq!(Error::Group.message(), "attempted to define empty expr as a group");
    assert_eq!(Error::Union.message(), "invalid usage of '|' or bad () balance");
    assert_eq!(Error::Empty.message(), "empty expression or sub-expression");
    assert_eq!(Error::Postfix.to_string(), "invalid usage of postfix operator");
}

#[test]
fn tokens_reads_to_the_end_or_an_error() {
    let v = lexer(b"a|b*").tokens().unwrap();
    assert_eq!(
        v,
        vec![
            Token::Char(Charset::char(b'a')),
            Token::Union,
            Token::Char(Charset::char(b'b')),
            Token::Repeat(0, None),
            Token::Close(true)
        ]
    );
    assert!(v.len() <= 2 * 4 + 1);
    assert_eq!(lexer(b"").tokens().unwrap(), vec![Token::Close(true)]);
    assert_eq!(lexer(b"ab[x").tokens(), Err(Error::Charset));
    let mut config = Config::default();
    config.auto_groups = true;
    let v = Lexer::new(b"(a)", config).tokens().unwrap();
    assert_eq!(v.len(), 6);
    assert!(v.len() <= 2 * 3 + 1);
}
