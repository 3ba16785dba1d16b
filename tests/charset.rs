use rcclex::charset::Charset;
use rcclex::config::Error;

fn chars(bytes: &[u8]) -> Charset {
    let mut s = Charset::new();
    for c in bytes {
        s.add_char(*c);
    }
    s
}

#[test]
fn construct() {
    assert_eq!(chars(&[0]).low_bits(), 1);
    assert_eq!(chars(&[0, 2]).low_bits(), 5);
    assert_eq!(chars(&[0, 1, 2]).low_bits(), 7);
    let mut s = Charset::new();
    s.add_char(5);
    s.add_range(0, 2);
    assert_eq!(s.low_bits(), 7 | 32);
    assert_eq!(Charset::range(0, 127).low_bits(), u128::MAX);
}

#[test]
fn methods() {
    let mut s = Charset::range(1, 2);
    assert_eq!(s.low_bits(), 6);
    s.add(&chars(&[5]));
    assert_eq!(s.low_bits(), 38);
    assert_eq!(s.inv().low_bits(), u128::MAX - 38);
}

#[test]
fn iter() {
    let s = Charset::range(0, 127);
    let mut it = s.iter();
    for i in 0..=127 {
        assert_eq!(it.next(), Some(i));
    }
    assert_eq!(it.next(), None);

    let mut s = Charset::new();
    s.add_char(6);
    s.add_range(8, 27);
    s.add_range(50, 52);
    let mut it = s.iter();
    assert_eq!(it.next(), Some(6));
    for i in 8..=27 {
        assert_eq!(it.next(), Some(i));
    }
    for i in 50..=52 {
        assert_eq!(it.next(), Some(i));
    }
    assert_eq!(it.next(), None);
}

#[test]
fn properties() {
    let mut s = Charset::new();
    assert!(s.empty());
    assert!(!s.ischar());
    s = s.union(&Charset::char(b'a'));
    assert!(!s.empty());
    assert!(s.ischar());
    s = s.union(&Charset::char(b'b'));
    assert!(!s.empty());
    assert!(!s.ischar());
}

#[test]
fn parse() {
    assert_eq!(Charset::parse(b"[a-d]").unwrap(), Charset::range(b'a', b'd'));
}

#[test]
fn parse_unions_classes_and_rejects_operators() {
    let mut ab = Charset::char(b'a');
    ab.add_char(b'b');
    assert_eq!(Charset::parse(b"a[b]").unwrap(), ab);
    assert_eq!(Charset::parse(b"").unwrap(), Charset::new());
    assert_eq!(Charset::parse(b"a|b"), Err(Error::Charset));
    assert_eq!(Charset::parse(b"[a"), Err(Error::Charset));
}

#[test]
fn high_bytes_are_members() {
    let mut s = Charset::new();
    s.add_char(200);
    s.add_char(255);
    assert!(s.contains(200));
    assert!(s.contains(255));
    assert!(!s.contains(201));
    assert!(!s.contains(72));
    assert_eq!(s.low_bits(), 0);
    assert_eq!(s.members(), vec![200, 255]);
    let all = Charset::all();
    assert_eq!(all.members().len(), 256);
    assert!(all.contains(0) && all.contains(255));
}

#[test]
fn algebra_laws_on_values() {
    let a = Charset::range(b'a', b'k');
    let mut b = Charset::range(10, 20);
    b.add_char(250);
    assert_eq!(a.union(&a), a);
    assert!(a.intersect(&a.inv()).empty());
    assert_eq!(a.inv().inv(), a);
    assert_eq!(a.union(&b), b.union(&a));
    assert_eq!(a.union(&a.inv()), Charset::all());
    let m = b.members();
    for w in m.windows(2) {
        assert!(w[0] < w[1]);
    }
    assert_eq!(m, (10..=20).chain(std::iter::once(250)).collect::<Vec<u8>>());
}

#[test]
fn backward_iteration_and_singletons() {
    let mut s = Charset::range(3, 5);
    s.add_char(240);
    let mut it = s.iter();
    assert_eq!(it.next_back(), Some(240));
    assert_eq!(it.next_back(), Some(5));
    assert_eq!(it.next(), Some(3));
    assert_eq!(it.next_back(), Some(4));
    assert_eq!(it.next_back(), Some(3));
    assert_eq!(it.next_back(), None);
    assert!(Charset::char(255).ischar());
    assert!(!Charset::range(7, 8).ischar());
    assert!(Charset::range(9, 3).empty());
}

#[test]
fn pattern_text_escapes_members() {
    assert_eq!(chars(b"-a]\n\t").pattern(), b"[\\t\\n\\-\\]a]".to_vec());
    assert_eq!(chars(&[0, 200, b'~']).pattern(), b"[\\x00~\\xc8]".to_vec());
    assert_eq!(Charset::new().pattern(), b"[]".to_vec());
    assert_eq!(Charset::range(b'x', b'z').pattern(), b"[xyz]".to_vec());
}

#[test]
fn charset_just_works() {
    let mut c = Charset::char(b'a');
    c = c.union(&Charset::char(b'c'));
    assert!(c.contains(b'a'));
    assert!(c.contains(b'c'));
    c = c.inv().intersect(&Charset::range(b'a', b'c'));
    assert!(!c.contains(b'a'));
    assert!(!c.contains(b'c'));
    assert!(c.contains(b'b'));
    assert!(!c.contains(b'd'));
    for k in 0..=126u8 {
        let cmd = 128 + k;
        c.add_char(cmd);
        assert!(c.contains(cmd));
    }
}

#[test]
fn iterators() {
    let s = Charset::range(b'a', b'z');
    let mut it = s.iter();
    let mut i = 0usize;
    while let Some(c) = it.next() {
        assert_eq!(i + usize::from(b'a'), c.into());
        i += 1;
    }
    assert_eq!(i, 26);
    let mut c = Charset::char(b'a');
    let cmd = 128;
    c.add_char(cmd);
    let mut it = c.iter();
    assert_eq!(it.next(), Some(b'a'));
    assert_eq!(it.next(), Some(cmd));
}
