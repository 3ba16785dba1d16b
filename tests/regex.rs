use rcclex::config::{Config, Error};
use rcclex::regex::{compile, Regex};

type MatchRes = Vec<(Option<usize>, Option<usize>)>;

fn has(flags: &Vec<bool>, g: usize) -> bool {
    flags.get(g) == Some(&true)
}

fn match_compiled(r: &Regex, s: &[u8], start: usize, res: &MatchRes) -> bool {
    let mut state = 0;
    let mut failed = false;
    for (i, c) in s
        .iter()
        .enumerate()
        .skip(start)
        .chain(std::iter::once((s.len(), &0)))
    {
        for (g, (h, t)) in res.iter().enumerate() {
            if (*h == Some(i) || *t == Some(i)) && failed {
                return false;
            }
            if *h == Some(i) && !has(&r.head[state], g) {
                return false;
            }
            if *t == Some(i) && !has(&r.tail[state], g) {
                return false;
            }
        }
        if i != s.len() {
            match r.nodes[state][*c as usize] {
                None => failed = true,
                Some(next) => state = next,
            }
        }
    }
    true
}

fn verify_match(pattern: &[u8], s: &[u8], res: &MatchRes) -> Result<bool, Error> {
    let mut config = Config::default();
    config.auto_groups = true;
    let r = compile(pattern, config)?;
    Ok(match_compiled(&r, s, res[0].0.unwrap(), res))
}

fn auto(pattern: &[u8]) -> Regex {
    let mut config = Config::default();
    config.auto_groups = true;
    compile(pattern, config).unwrap()
}

fn compile_err(pattern: &[u8]) -> Error {
    match compile(pattern, Config::default()) {
        Ok(_) => panic!("pattern compiled"),
        Err(e) => e,
    }
}

#[test]
fn tests_just_works() {
    assert_eq!(
        verify_match(b"(hello)", b"hello", &vec![(Some(0), Some(5))]),
        Ok(true)
    );
    assert_eq!(
        verify_match(b"(hello)", b"hellou", &vec![(Some(0), Some(5))]),
        Ok(true)
    );
    assert_eq!(
        verify_match(b"(hellou)", b"hello", &vec![(Some(0), Some(5))]),
        Ok(false)
    );
    assert_eq!(
        verify_match(b"(hello)", b"hellou", &vec![(Some(0), Some(6))]),
        Ok(false)
    );
    assert_eq!(
        verify_match(b"(hell)", b"hellou", &vec![(Some(0), Some(5))]),
        Ok(false)
    );
    assert_eq!(
        verify_match(b"(((a)))", b"a", &vec![(Some(0), Some(1)); 3]),
        Ok(true)
    );
}

#[test]
fn scenarios_find() {
    assert_eq!(auto(b"(hello)").find(b"hello"), Some((0, 5)));
    assert_eq!(auto(b"(hello)").find(b"hellou"), Some((0, 5)));
    assert_eq!(auto(b"(hellou)").find(b"hello"), None);
    assert_eq!(auto(b"(a?b*c+d{2,})").find(b"bbcdd"), Some((0, 5)));
    assert_eq!(auto(b"([a-d])").find(b"b"), Some((0, 1)));
    assert_eq!(auto(b"(a...b)").find(b"abababbb"), Some((2, 7)));
    assert_eq!(auto(b"(ab*)").find(b"xxabbbby"), Some((2, 7)));
    assert_eq!(auto(b"(x*)").find(b"abc"), Some((0, 0)));
}

#[test]
fn scenarios_errors() {
    assert_eq!(compile_err(b"|a"), Error::Union);
    assert_eq!(compile_err(b"{"), Error::Repeat);
    assert_eq!(compile_err(b"a{256}"), Error::Overflow);
    let mut config = Config::default();
    config.esc_charset.insert(b'Z', rcclex::charset::Charset::new());
    assert!(matches!(compile(b"a", config), Err(Error::Config)));
}

#[test]
fn plain_literals_match_themselves() {
    for s in [&b"hello"[..], b"a", b"xyz01", b"  _-=", b"\x01\x7f"] {
        let mut pattern = vec![b'('];
        pattern.extend_from_slice(s);
        pattern.push(b')');
        assert_eq!(auto(&pattern).find(s), Some((0, s.len())));
    }
}

#[test]
fn nested_groups_lie_within_their_parents() {
    // (x(ab)y) on "xaby": group 0 = [0,4], group 1 = [1,3]
    let r = auto(b"(x(ab)y)");
    let s = b"xaby";
    assert!(match_compiled(
        &r,
        s,
        0,
        &vec![(Some(0), Some(4)), (Some(1), Some(3))]
    ));
    assert!(!match_compiled(
        &r,
        s,
        0,
        &vec![(Some(0), Some(4)), (Some(0), Some(3))]
    ));
}

#[test]
fn compiled_tables_are_complete() {
    let r = auto(b"((a|b)*c)");
    assert_eq!(r.nodes.len(), r.head.len());
    assert_eq!(r.nodes.len(), r.tail.len());
    for row in &r.nodes {
        assert_eq!(row.len(), 256);
        for t in row.iter().flatten() {
            assert!(*t < r.nodes.len());
        }
    }
}

#[test]
fn captures_report_each_group() {
    assert_eq!(
        auto(b"(x(ab)y)").captures(b"xaby"),
        Some(vec![Some((0, 4)), Some((1, 3))])
    );
    assert_eq!(
        auto(b"(((a)))").captures(b"a"),
        Some(vec![Some((0, 1)), Some((0, 1)), Some((0, 1))])
    );
    assert_eq!(auto(b"(hello)").captures(b"hellou"), Some(vec![Some((0, 5))]));
    assert_eq!(auto(b"(hellou)").captures(b"hello"), None);
    // the skipped optional group opens and closes at the same position
    assert_eq!(
        auto(b"(a(b)?c)").captures(b"zac"),
        Some(vec![Some((1, 3)), Some((2, 2))])
    );
    assert_eq!(auto(b"(a)|(b)").captures(b"b"), None);
    assert_eq!(
        auto(b"((a)|(b))").captures(b"b"),
        Some(vec![Some((0, 1)), None, Some((0, 1))])
    );
}

#[test]
fn captures_open_before_they_close() {
    let r = auto(b"((a|b)*c(d*))");
    let caps = r.captures(b"xxabbcdd").unwrap();
    assert_eq!(caps[0], Some((2, 8)));
    for (p, q) in caps.iter().flatten() {
        assert!(p <= q);
        assert!(2 <= *p && *q <= 8);
    }
    assert_eq!(caps[2], Some((6, 8)));
}

#[test]
fn tables_as_maps_and_sets() {
    let r = compile(b"a", Config::default()).unwrap();
    assert_eq!(r.transitions(0), std::collections::HashMap::from([(b'a', 1)]));
    assert_eq!(r.transitions(1), std::collections::HashMap::new());
    let r = auto(b"((a)b)");
    assert_eq!(r.heads(0), std::collections::HashSet::from([0, 1]));
    assert!(r.tails(0).is_empty());
    let s1 = r.transitions(0)[&b'a'];
    assert_eq!(r.tails(s1), std::collections::HashSet::from([1]));
    let s2 = r.transitions(s1)[&b'b'];
    assert_eq!(r.tails(s2), std::collections::HashSet::from([0]));
}
