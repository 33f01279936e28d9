//! The wire command set: a closed list of request variants, each with a
//! stable one-byte opcode, and the binary encoding used on the wire.
//!
//! A request is encoded as `[user, opcode, len, argument bytes]`, where `len`
//! is the byte length of the UTF-8 argument (0 for argument-less commands).
//! Decoding never fails: an unrecognized opcode yields `UNKNOWN`.

use vstd::prelude::*;
use vstd::utf8::encode_utf8;
use vstd::string::StrSliceExecFns;

verus! {

/// Reserved delimiter that joins the two logical arguments of WRITE, CP and
/// MV inside the single argument slot of the wire format. It must not occur
/// in legitimate path or content text (a documented limitation: there is no
/// escaping).
pub const WRITE_DELIM: &'static str = "~%%~";

#[allow(non_camel_case_types)]
#[derive(Debug, PartialEq)]
pub enum Command {
    UNKNOWN,
    CD(String),
    MKDIR(String),
    LS,
    PWD,
    WHO,
    RM(String),
    TOUCH(String),
    READ(String),
    WRITE(String),
    FIND(String),
    CP(String),
    MV(String),
}

impl Command {
    /// The opcode byte of this variant.
    pub open spec fn opcode_spec(self) -> u8 {
        match self {
            Command::UNKNOWN => 255,
            Command::CD(_) => 1,
            Command::MKDIR(_) => 2,
            Command::PWD => 3,
            Command::LS => 4,
            Command::WHO => 5,
            Command::RM(_) => 6,
            Command::TOUCH(_) => 7,
            Command::READ(_) => 8,
            Command::WRITE(_) => 9,
            Command::FIND(_) => 10,
            Command::CP(_) => 11,
            Command::MV(_) => 12,
        }
    }

    /// The argument carried by this variant, empty for argument-less ones.
    pub open spec fn arg_view(self) -> Seq<char> {
        match self {
            Command::CD(s) => s@,
            Command::MKDIR(s) => s@,
            Command::RM(s) => s@,
            Command::TOUCH(s) => s@,
            Command::READ(s) => s@,
            Command::WRITE(s) => s@,
            Command::FIND(s) => s@,
            Command::CP(s) => s@,
            Command::MV(s) => s@,
            _ => Seq::empty(),
        }
    }

    /// The bytes this command puts on the wire when sent by `user`:
    /// a user byte, the opcode, the argument's byte length, the argument.
    pub open spec fn encoded_bytes(self, user: u8) -> Seq<u8> {
        seq![user, self.opcode_spec(), encode_utf8(self.arg_view()).len() as u8]
            + encode_utf8(self.arg_view())
    }

    /// Which commands a given opcode byte decodes to; unrecognized opcodes
    /// decode to UNKNOWN, so decoding is total.
    pub open spec fn decode_spec(opcode: u8, argument: String) -> Command {
        match opcode {
            1u8 => Command::CD(argument),
            2u8 => Command::MKDIR(argument),
            3u8 => Command::PWD,
            4u8 => Command::LS,
            5u8 => Command::WHO,
            6u8 => Command::RM(argument),
            7u8 => Command::TOUCH(argument),
            8u8 => Command::READ(argument),
            9u8 => Command::WRITE(argument),
            10u8 => Command::FIND(argument),
            11u8 => Command::CP(argument),
            12u8 => Command::MV(argument),
            _ => Command::UNKNOWN,
        }
    }

    pub fn opt_code(&self) -> (r: u8)
        ensures
            r == self.opcode_spec(),
    {
        match self {
            Command::UNKNOWN => 255,
            Command::CD(..) => 1,
            Command::MKDIR(..) => 2,
            Command::PWD => 3,
            Command::LS => 4,
            Command::WHO => 5,
            Command::RM(..) => 6,
            Command::TOUCH(..) => 7,
            Command::READ(..) => 8,
            Command::WRITE(..) => 9,
            Command::FIND(..) => 10,
            Command::CP(..) => 11,
            Command::MV(..) => 12,
        }
    }

    /// Encode this command as sent by `user`. The argument must fit the wire
    /// format's one-byte length field.
    pub fn to_bytes(&self, user: u8) -> (r: Vec<u8>)
        requires
            encode_utf8(self.arg_view()).len() <= 255,
        ensures
            r@ == self.encoded_bytes(user),
    {
        let mut payload: Vec<u8> = Vec::new();
        payload.push(user);
        payload.push(self.opt_code());
        match self {
            Command::UNKNOWN | Command::LS | Command::PWD | Command::WHO => {
                payload.push(0u8);
            }
            Command::CD(target)
            | Command::MKDIR(target)
            | Command::RM(target)
            | Command::TOUCH(target)
            | Command::READ(target)
            | Command::WRITE(target)
            | Command::FIND(target)
            | Command::CP(target)
            | Command::MV(target) => {
                let mut bytes = target.as_str().as_bytes_vec();
                let n = bytes.len();
                payload.push(n as u8);
                payload.append(&mut bytes);
            }
        }
        proof {
            assert(payload@ =~= self.encoded_bytes(user));
        }
        payload
    }
}

/// The opcodes whose commands keep their argument when decoded. PWD, LS and
/// WHO carry no argument, and unrecognized opcodes decode to UNKNOWN, which
/// carries none either.
pub open spec fn carries_argument(opcode: u8) -> bool {
    opcode == 1 || opcode == 2 || opcode == 6 || opcode == 7 || opcode == 8 || opcode == 9
        || opcode == 10 || opcode == 11 || opcode == 12
}

/// Round trip law: decoding an `(opcode, argument)` pair and re-encoding the
/// resulting command reproduces the opcode and the argument bytes on the
/// wire (an unrecognized opcode is reproduced as UNKNOWN's opcode byte).
/// Opcodes that carry no argument reproduce it only when it is empty, since
/// decoding drops it; such inputs are excluded here.
pub proof fn lemma_round_trip(opcode: u8, argument: String, user: u8)
    requires
        carries_argument(opcode) || argument@.len() == 0,
        encode_utf8(argument@).len() <= 255,
    ensures
        ({
            let c = Command::decode_spec(opcode, argument);
            let canonical: u8 = if 1 <= opcode <= 12 {
                opcode
            } else {
                255
            };
            c.encoded_bytes(user) == seq![
                user,
                canonical,
                encode_utf8(argument@).len() as u8,
            ] + encode_utf8(argument@)
        }),
{
    let c = Command::decode_spec(opcode, argument);
    if carries_argument(opcode) {
        assert(c.arg_view() == argument@);
    } else {
        assert(c.arg_view() =~= argument@);
    }
}

impl From<(u8, String)> for Command {
    /// Decode a wire request from its opcode byte and argument string.
    fn from(value: (u8, String)) -> (r: Self) {
        match value.0 {
            1u8 => Command::CD(value.1),
            2u8 => Command::MKDIR(value.1),
            3u8 => Command::PWD,
            4u8 => Command::LS,
            5u8 => Command::WHO,
            6u8 => Command::RM(value.1),
            7u8 => Command::TOUCH(value.1),
            8u8 => Command::READ(value.1),
            9u8 => Command::WRITE(value.1),
            10u8 => Command::FIND(value.1),
            11u8 => Command::CP(value.1),
            12u8 => Command::MV(value.1),
            _ => Command::UNKNOWN,
        }
    }
}

impl vstd::std_specs::convert::FromSpecImpl<(u8, String)> for Command {
    open spec fn obeys_from_spec() -> bool {
        true
    }

    open spec fn from_spec(value: (u8, String)) -> Command {
        Command::decode_spec(value.0, value.1)
    }
}


/// Does the reserved delimiter stand at position `i` of `s`?
pub open spec fn delim_at(s: Seq<char>, i: int) -> bool {
    s[i] == '~' && s[i + 1] == '%' && s[i + 2] == '%' && s[i + 3] == '~'
}

/// Index of the first delimiter occurrence (scanning left to right), or an
/// index past any possible match if there is none.
pub open spec fn find_delim(s: Seq<char>) -> int
    decreases s.len(),
{
    if s.len() < 4 {
        s.len() as int
    } else if delim_at(s, 0) {
        0
    } else {
        1 + find_delim(s.drop_first())
    }
}

/// Does `s` contain the reserved delimiter anywhere?
pub open spec fn has_delim(s: Seq<char>) -> bool {
    find_delim(s) + 4 <= s.len()
}

/// The two logical arguments packed into one argument slot: the text before
/// the first delimiter and the text after it. `None` where the argument does
/// not hold exactly one delimiter (no escaping exists, so any other count is
/// malformed).
pub open spec fn split_parts(s: Seq<char>) -> Option<(Seq<char>, Seq<char>)> {
    if !has_delim(s) {
        None
    } else {
        let i = find_delim(s);
        let rest = s.skip(i + 4);
        if has_delim(rest) {
            None
        } else {
            Some((s.take(i), rest))
        }
    }
}

proof fn lemma_find_delim_bounds(s: Seq<char>)
    ensures
        0 <= find_delim(s) <= s.len(),
        has_delim(s) ==> delim_at(s, find_delim(s)),
    decreases s.len(),
{
    if s.len() >= 4 && !delim_at(s, 0) {
        lemma_find_delim_bounds(s.drop_first());
    }
}

proof fn lemma_find_delim_at(s: Seq<char>, i: int)
    requires
        0 <= i,
        i + 4 <= s.len(),
        delim_at(s, i),
        forall|k: int| 0 <= k < i ==> !#[trigger] delim_at(s, k),
    ensures
        find_delim(s) == i,
    decreases i,
{
    if i > 0 {
        assert forall|k: int| 0 <= k < i - 1 implies !#[trigger] delim_at(s.drop_first(), k) by {
            assert(!delim_at(s, k + 1));
        }
        assert(delim_at(s.drop_first(), i - 1));
        lemma_find_delim_at(s.drop_first(), i - 1);
    }
}

proof fn lemma_find_delim_none(s: Seq<char>)
    requires
        forall|k: int| 0 <= k && k + 4 <= s.len() ==> !#[trigger] delim_at(s, k),
    ensures
        !has_delim(s),
    decreases s.len(),
{
    if s.len() >= 4 {
        assert forall|k: int| 0 <= k && k + 4 <= s.drop_first().len() implies !#[trigger] delim_at(
            s.drop_first(),
            k,
        ) by {
            assert(!delim_at(s, k + 1));
        }
        lemma_find_delim_none(s.drop_first());
    }
}

/// Scan for the first delimiter at or after `from`.
fn scan_delim(s: &str, from: usize) -> (r: Option<usize>)
    requires
        from <= s@.len(),
    ensures
        match r {
            Some(i) => from <= i && i + 4 <= s@.len() && delim_at(s@, i as int) && (forall|k: int|
                from <= k < i ==> !#[trigger] delim_at(s@, k)),
            None => forall|k: int|
                from <= k && k + 4 <= s@.len() ==> !#[trigger] delim_at(s@, k),
        },
{
    let n = s.unicode_len();
    if n < 4 {
        return None;
    }
    let mut k = from;
    while k <= n - 4
        invariant
            n == s@.len(),
            n >= 4,
            from <= k,
            k <= n,
            forall|m: int| from <= m < k ==> !#[trigger] delim_at(s@, m),
        decreases n - k,
    {
        if s.get_char(k) == '~' && s.get_char(k + 1) == '%' && s.get_char(k + 2) == '%'
            && s.get_char(k + 3) == '~' {
            return Some(k);
        }
        k += 1;
    }
    None
}

/// Split a packed two-argument string at its one delimiter; `None` where
/// the delimiter count is not exactly one.
pub fn split_two(s: &str) -> (r: Option<(String, String)>)
    ensures
        match r {
            Some(parts) => split_parts(s@) == Some((parts.0@, parts.1@)),
            None => split_parts(s@) is None,
        },
{
    let n = s.unicode_len();
    let first = match scan_delim(s, 0) {
        None => {
            proof {
                lemma_find_delim_none(s@);
            }
            return None;
        },
        Some(i) => i,
    };
    proof {
        lemma_find_delim_at(s@, first as int);
    }
    match scan_delim(s, first + 4) {
        Some(m) => {
            proof {
                let rest = s@.skip(first as int + 4);
                assert(delim_at(rest, m - first - 4));
                lemma_find_delim_bounds(rest);
                if !has_delim(rest) {
                    assert(!delim_at(rest, m - first - 4)) by {
                        lemma_find_delim_none_converse(rest, m - first - 4);
                    }
                }
            }
            None
        },
        None => {
            proof {
                let rest = s@.skip(first as int + 4);
                assert forall|k: int| 0 <= k && k + 4 <= rest.len() implies !#[trigger] delim_at(
                    rest,
                    k,
                ) by {
                    assert(!delim_at(s@, k + first + 4));
                    assert(rest[k] == s@[k + first + 4]);
                    assert(rest[k + 1] == s@[k + first + 5]);
                    assert(rest[k + 2] == s@[k + first + 6]);
                    assert(rest[k + 3] == s@[k + first + 7]);
                }
                lemma_find_delim_none(rest);
            }
            let a = s.substring_char(0, first).to_owned();
            let b = s.substring_char(first + 4, n).to_owned();
            proof {
                assert(s@.subrange(0, first as int) =~= s@.take(first as int));
                assert(s@.subrange(first as int + 4, n as int) =~= s@.skip(first as int + 4));
            }
            Some((a, b))
        },
    }
}

/// A position where no delimiter can stand, under a no-delimiter scan.
proof fn lemma_find_delim_none_converse(s: Seq<char>, i: int)
    requires
        !has_delim(s),
        0 <= i,
        i + 4 <= s.len(),
    ensures
        !delim_at(s, i),
    decreases i,
{
    if i == 0 {
    } else {
        lemma_find_delim_none_converse(s.drop_first(), i - 1);
        assert(!delim_at(s.drop_first(), i - 1));
        assert(s.drop_first()[i - 1] == s[i]);
        assert(s.drop_first()[i] == s[i + 1]);
        assert(s.drop_first()[i + 1] == s[i + 2]);
        assert(s.drop_first()[i + 2] == s[i + 3]);
    }
}


/// The opcode a typed command word stands for, if it is one of the words
/// that take an argument slot (this set drives the two-part command line:
/// `word argument`).
pub open spec fn word_opcode(word: Seq<char>) -> Option<u8> {
    if word == "cd"@ {
        Some(1u8)
    } else if word == "mkdir"@ {
        Some(2u8)
    } else if word == "ls"@ {
        Some(4u8)
    } else if word == "rm"@ {
        Some(6u8)
    } else if word == "touch"@ {
        Some(7u8)
    } else if word == "read"@ {
        Some(8u8)
    } else if word == "write"@ {
        Some(9u8)
    } else if word == "find"@ {
        Some(10u8)
    } else if word == "cp"@ {
        Some(11u8)
    } else if word == "mv"@ {
        Some(12u8)
    } else {
        None
    }
}

/// Character-wise string comparison.
fn str_eq(a: &str, b: &str) -> (r: bool)
    ensures
        r == (a@ == b@),
{
    let n = a.unicode_len();
    if n != b.unicode_len() {
        return false;
    }
    let mut i: usize = 0;
    while i < n
        invariant
            n == a@.len(),
            n == b@.len(),
            i <= n,
            forall|k: int| 0 <= k < i ==> a@[k] == b@[k],
        decreases n - i,
    {
        if a.get_char(i) != b.get_char(i) {
            return false;
        }
        i += 1;
    }
    proof {
        assert(a@ =~= b@);
    }
    true
}

impl Command {
    /// Parse a typed two-part command line, `word` and `argument`, as a
    /// command; an unrecognized word yields UNKNOWN.
    pub fn from_parts(word: &str, argument: &str) -> (r: Command)
        ensures
            match word_opcode(word@) {
                Some(opcode) => r.opcode_spec() == opcode && r.arg_view() == (
                if carries_argument(opcode) {
                    argument@
                } else {
                    Seq::<char>::empty()
                }),
                None => r == Command::UNKNOWN,
            },
    {
        if str_eq(word, "cd") {
            Command::CD(argument.to_owned())
        } else if str_eq(word, "mkdir") {
            Command::MKDIR(argument.to_owned())
        } else if str_eq(word, "ls") {
            Command::LS
        } else if str_eq(word, "rm") {
            Command::RM(argument.to_owned())
        } else if str_eq(word, "touch") {
            Command::TOUCH(argument.to_owned())
        } else if str_eq(word, "read") {
            Command::READ(argument.to_owned())
        } else if str_eq(word, "write") {
            Command::WRITE(argument.to_owned())
        } else if str_eq(word, "find") {
            Command::FIND(argument.to_owned())
        } else if str_eq(word, "cp") {
            Command::CP(argument.to_owned())
        } else if str_eq(word, "mv") {
            Command::MV(argument.to_owned())
        } else {
            Command::UNKNOWN
        }
    }

    /// Parse a typed one-part command line; only the argument-less words
    /// are recognized.
    pub fn from_word(word: &str) -> (r: Command)
        ensures
            r == (if word@ == "pwd"@ {
                Command::PWD
            } else if word@ == "whoami"@ {
                Command::WHO
            } else if word@ == "ls"@ {
                Command::LS
            } else {
                Command::UNKNOWN
            }),
    {
        if str_eq(word, "pwd") {
            Command::PWD
        } else if str_eq(word, "whoami") {
            Command::WHO
        } else if str_eq(word, "ls") {
            Command::LS
        } else {
            Command::UNKNOWN
        }
    }
}

} // verus!
