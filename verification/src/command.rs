//! The typed commands a request can decode to, and ASCII case-insensitive
//! matching for command names.

use vstd::prelude::*;

verus! {

/// The ghost shape of a command: every string as its character sequence.
pub enum CommandModel {
    Select(u8),
    Get(Seq<char>),
    SetValue(Seq<char>, Seq<char>),
    Ping(Option<Seq<char>>),
    Exists(Seq<Seq<char>>),
    Rpush(Seq<char>, Seq<Seq<char>>),
    Lpush(Seq<char>, Seq<Seq<char>>),
    Blpop(Seq<Seq<char>>, u64),
    Brpop(Seq<Seq<char>>, u64),
}

/// A typed request, produced once per request by the decoder and consumed
/// once by the executor. Blocking-pop timeouts are held in milliseconds.
pub enum Command {
    Select(u8),
    Get(String),
    SetValue(String, String),
    Ping(Option<String>),
    Exists(Vec<String>),
    Rpush(String, Vec<String>),
    Lpush(String, Vec<String>),
    BLPOP(Vec<String>, u64),
    BRPOP(Vec<String>, u64),
}

impl View for Command {
    type V = CommandModel;

    open spec fn view(&self) -> CommandModel {
        match self {
            Command::Select(i) => CommandModel::Select(*i),
            Command::Get(k) => CommandModel::Get(k@),
            Command::SetValue(k, v) => CommandModel::SetValue(k@, v@),
            Command::Ping(m) => CommandModel::Ping(
                match m {
                    Some(s) => Some(s@),
                    None => None,
                },
            ),
            Command::Exists(ks) => CommandModel::Exists(ks.deep_view()),
            Command::Rpush(k, vs) => CommandModel::Rpush(k@, vs.deep_view()),
            Command::Lpush(k, vs) => CommandModel::Lpush(k@, vs.deep_view()),
            Command::BLPOP(ks, t) => CommandModel::Blpop(ks.deep_view(), *t),
            Command::BRPOP(ks, t) => CommandModel::Brpop(ks.deep_view(), *t),
        }
    }
}

/// The code point of `c` with an ASCII lowercase letter folded to its
/// uppercase partner.
pub open spec fn upper_code(c: char) -> int {
    if 'a' <= c && c <= 'z' {
        (c as u32) - 32
    } else {
        c as u32 as int
    }
}

/// Character-wise equality up to ASCII case.
pub open spec fn eq_ignore_ascii_case_spec(a: Seq<char>, b: Seq<char>) -> bool {
    a.len() == b.len() && (forall|i: int|
        0 <= i < a.len() ==> upper_code(a[i]) == upper_code(#[trigger] b[i]))
}

/// Compares two strings for equality up to ASCII case, so that command
/// names match however they are capitalized.
#[verifier::loop_isolation(false)]
pub fn eq_ignore_ascii_case(a: &str, b: &str) -> (r: bool)
    ensures
        r == eq_ignore_ascii_case_spec(a@, b@),
{
    let na = a.unicode_len();
    let nb = b.unicode_len();
    if na != nb {
        return false;
    }
    let mut i: usize = 0;
    while i < na
        invariant
            0 <= i <= na,
            forall|j: int| 0 <= j < i ==> upper_code(a@[j]) == upper_code(#[trigger] b@[j]),
        decreases na - i,
    {
        let ca = a.get_char(i);
        let cb = b.get_char(i);
        let ua: u32 = if 'a' <= ca && ca <= 'z' {
            ca as u32 - 32
        } else {
            ca as u32
        };
        let ub: u32 = if 'a' <= cb && cb <= 'z' {
            cb as u32 - 32
        } else {
            cb as u32
        };
        if ua != ub {
            return false;
        }
        i = i + 1;
    }
    true
}

} // verus!
