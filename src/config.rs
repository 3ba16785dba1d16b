use vstd::prelude::*;
use std::collections::HashMap;
use crate::charset::Charset;

verus! {

broadcast use vstd::std_specs::hash::group_hash_axioms;

/// The ways in which compiling a pattern can fail.
#[derive(Clone, Copy, Debug, PartialEq, Eq, Structural)]
pub enum Error {
    Config,
    Charset,
    Escape,
    Repeat,
    Overflow,
    Balance,
    Group,
    Union,
    Empty,
    Postfix,
}

/// The text that describes each error.
pub open spec fn error_text(e: Error) -> Seq<char> {
    match e {
        Error::Config => "invalid regex configuration"@,
        Error::Charset => "bad charset syntax"@,
        Error::Escape => "invalid escape sequence"@,
        Error::Repeat => "bad repeat syntax"@,
        Error::Overflow => "repeat number or hexadecimal char value exceeds 255"@,
        Error::Balance => "bad () balance"@,
        Error::Group => "attempted to define empty expr as a group"@,
        Error::Union => "invalid usage of '|' or bad () balance"@,
        Error::Empty => "empty expression or sub-expression"@,
        Error::Postfix => "invalid usage of postfix operator"@,
    }
}

impl Error {
    /// The human-readable description of the error.
    pub fn message(&self) -> (r: &'static str)
        ensures
            r@ == error_text(*self),
    {
        match self {
            Error::Config => "invalid regex configuration",
            Error::Charset => "bad charset syntax",
            Error::Escape => "invalid escape sequence",
            Error::Repeat => "bad repeat syntax",
            Error::Overflow => "repeat number or hexadecimal char value exceeds 255",
            Error::Balance => "bad () balance",
            Error::Group => "attempted to define empty expr as a group",
            Error::Union => "invalid usage of '|' or bad () balance",
            Error::Empty => "empty expression or sub-expression",
            Error::Postfix => "invalid usage of postfix operator",
        }
    }

    /// Same as [`Error::message`], as an owned string.
    pub fn to_string(&self) -> (r: String)
        ensures
            r@ == error_text(*self),
    {
        self.message().to_string()
    }
}

/// A byte that may name a class escape `\c`: an ASCII letter other than the
/// reserved `A`, `Z`, `x` and `X`.
pub open spec fn is_class_escape(c: u8) -> bool {
    (0x42 <= c <= 0x57) || c == 0x59 || (0x61 <= c <= 0x77) || c == 0x79 || c == 0x7a
}

/// How patterns are read.
pub struct Config {
    /// The set that `.` stands for.
    pub dot_charset: Charset,
    /// The set that each escape `\c` stands for, by `c`.
    pub esc_charset: HashMap<u8, Charset>,
    /// Whether every `(...)` also captures, as if written `\A(...)\Z`.
    pub auto_groups: bool,
}

/// The bytes `\s` stands for: space, tab, CR and LF.
pub open spec fn space_set() -> Set<u8> {
    set![0x20u8, 0x09u8, 0x0du8, 0x0au8]
}

/// The bytes `\d` stands for.
pub open spec fn digit_set() -> Set<u8> {
    Set::new(|c: u8| 0x30 <= c <= 0x39)
}

/// The bytes `\w` stands for: letters, digits and `_`.
pub open spec fn word_set() -> Set<u8> {
    Set::new(|c: u8| (0x30 <= c <= 0x39) || (0x41 <= c <= 0x5a) || (0x61 <= c <= 0x7a) || c == 0x5f)
}

impl Config {
    /// Whether every key of `esc_charset` may name a class escape.
    pub open spec fn valid(&self) -> bool {
        forall|c: u8| #[trigger] self.esc_charset@.contains_key(c) ==> is_class_escape(c)
    }

    /// Whether this is the configuration that [`Config::default`] makes.
    pub open spec fn is_default(&self) -> bool {
        &&& self.dot_charset@ == Set::new(|c: u8| true)
        &&& !self.auto_groups
        &&& self.esc_charset@.dom() == set![
            0x74u8, 0x6eu8, 0x73u8, 0x53u8, 0x64u8, 0x44u8, 0x77u8, 0x57u8
        ]
        &&& self.esc_charset@[0x74u8]@ == set![0x09u8]
        &&& self.esc_charset@[0x6eu8]@ == set![0x0au8]
        &&& self.esc_charset@[0x73u8]@ == space_set()
        &&& self.esc_charset@[0x53u8]@ == space_set().complement()
        &&& self.esc_charset@[0x64u8]@ == digit_set()
        &&& self.esc_charset@[0x44u8]@ == digit_set().complement()
        &&& self.esc_charset@[0x77u8]@ == word_set()
        &&& self.esc_charset@[0x57u8]@ == word_set().complement()
        &&& self.valid()
    }

    /// `.` stands for any byte, groups are not automatic, and `\t \n \s \S \d
    /// \D \w \W` have their usual meaning.
    pub fn default() -> (r: Config)
        ensures
            r.is_default(),
    {
        let mut w = Charset::range(0x41u8, 0x5au8);
        w.add_range(0x61u8, 0x7au8);
        w.add_range(0x30u8, 0x39u8);
        w.add_char(0x5fu8);
        let mut s = Charset::char(0x20u8);
        s.add_char(0x09u8);
        s.add_char(0x0du8);
        s.add_char(0x0au8);
        let d = Charset::range(0x30u8, 0x39u8);
        proof {
            assert(w@ =~= word_set());
            assert(s@ =~= space_set());
            assert(d@ =~= digit_set());
        }
        let mut m: HashMap<u8, Charset> = HashMap::new();
        m.insert(0x74u8, Charset::char(0x09u8));
        m.insert(0x6eu8, Charset::char(0x0au8));
        m.insert(0x73u8, s);
        m.insert(0x53u8, s.inv());
        m.insert(0x64u8, d);
        m.insert(0x44u8, d.inv());
        m.insert(0x77u8, w);
        m.insert(0x57u8, w.inv());
        let r = Config { dot_charset: Charset::all(), esc_charset: m, auto_groups: false };
        proof {
            assert(r.esc_charset@.dom() =~= set![
                0x74u8, 0x6eu8, 0x73u8, 0x53u8, 0x64u8, 0x44u8, 0x77u8, 0x57u8
            ]);
        }
        r
    }

    /// Whether every key of `esc_charset` may name a class escape.
    pub fn is_valid(&self) -> (r: bool)
        ensures
            r == self.valid(),
    {
        let mut c: u16 = 0;
        while c < 256
            invariant
                c <= 256,
                forall|d: u8| d < c && #[trigger] self.esc_charset@.contains_key(d) ==> is_class_escape(d),
            decreases 256 - c,
        {
            let b = c as u8;
            if self.esc_charset.contains_key(&b) && !(
                (0x42u8 <= b && b <= 0x57u8) || b == 0x59u8 || (0x61u8 <= b && b <= 0x77u8) || b == 0x79u8 || b == 0x7au8
            ) {
                return false;
            }
            c = c + 1;
        }
        true
    }
}

} // verus!
