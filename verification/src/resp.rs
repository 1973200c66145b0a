//! Wire-format primitives: decimal digit strings, unsigned-integer parsing,
//! CRLF line splitting, and the RESP-style reply and request encodings.

use vstd::prelude::*;

verus! {

// ---------------------------------------------------------------------------
// Decimal digit strings
// ---------------------------------------------------------------------------

/// The single digit character for a value below ten.
pub open spec fn spec_digit(d: nat) -> char {
    if d == 0 {
        '0'
    } else if d == 1 {
        '1'
    } else if d == 2 {
        '2'
    } else if d == 3 {
        '3'
    } else if d == 4 {
        '4'
    } else if d == 5 {
        '5'
    } else if d == 6 {
        '6'
    } else if d == 7 {
        '7'
    } else if d == 8 {
        '8'
    } else {
        '9'
    }
}

/// The canonical decimal rendering of `n`, with no sign and no leading zeros
/// (except for the single digit of zero itself).
pub open spec fn spec_uint_string(n: nat) -> Seq<char>
    decreases n,
{
    if n < 10 {
        seq![spec_digit(n)]
    } else {
        spec_uint_string(n / 10).push(spec_digit(n % 10))
    }
}

fn digit_str(d: usize) -> (r: &'static str)
    requires
        d < 10,
    ensures
        r@ == seq![spec_digit(d as nat)],
{
    proof {
        reveal_strlit("0");
        reveal_strlit("1");
        reveal_strlit("2");
        reveal_strlit("3");
        reveal_strlit("4");
        reveal_strlit("5");
        reveal_strlit("6");
        reveal_strlit("7");
        reveal_strlit("8");
        reveal_strlit("9");
    }
    let r = match d {
        0 => "0",
        1 => "1",
        2 => "2",
        3 => "3",
        4 => "4",
        5 => "5",
        6 => "6",
        7 => "7",
        8 => "8",
        _ => "9",
    };
    proof {
        assert(r@ =~= seq![spec_digit(d as nat)]);
    }
    r
}

/// Renders `n` in decimal.
pub fn usize_to_string(n: usize) -> (r: String)
    ensures
        r@ == spec_uint_string(n as nat),
    decreases n,
{
    if n < 10 {
        digit_str(n).to_owned()
    } else {
        let mut s = usize_to_string(n / 10);
        s.append(digit_str(n % 10));
        proof {
            assert(s@ =~= spec_uint_string(n as nat));
        }
        s
    }
}

/// Renders `n` in decimal.
pub fn u64_to_string(n: u64) -> (r: String)
    ensures
        r@ == spec_uint_string(n as nat),
    decreases n,
{
    if n < 10 {
        digit_str(n as usize).to_owned()
    } else {
        let mut s = u64_to_string(n / 10);
        s.append(digit_str((n % 10) as usize));
        proof {
            assert(s@ =~= spec_uint_string(n as nat));
        }
        s
    }
}

// ---------------------------------------------------------------------------
// Unsigned decimal parsing
// ---------------------------------------------------------------------------

pub open spec fn is_digit(c: char) -> bool {
    '0' <= c && c <= '9'
}

/// The numeric value of a digit character.
pub open spec fn digit_val(c: char) -> nat {
    ((c as u32) - ('0' as u32)) as nat
}

pub open spec fn all_digits(s: Seq<char>) -> bool {
    forall|i: int| 0 <= i < s.len() ==> is_digit(#[trigger] s[i])
}

/// The value of a digit string, most significant digit first.
pub open spec fn digits_val(s: Seq<char>) -> nat
    decreases s.len(),
{
    if s.len() == 0 {
        0
    } else {
        digits_val(s.drop_last()) * 10 + digit_val(s.last())
    }
}

/// The accepted unsigned-integer grammar: an optional leading `+`, then one
/// or more decimal digits; the value is unbounded.
pub open spec fn spec_parse_uint(s: Seq<char>) -> Option<nat> {
    let body = if s.len() > 0 && s[0] == '+' {
        s.drop_first()
    } else {
        s
    };
    if body.len() > 0 && all_digits(body) {
        Some(digits_val(body))
    } else {
        None
    }
}

proof fn lemma_digits_val_prefix_grows(s: Seq<char>, i: int)
    requires
        0 <= i <= s.len(),
    ensures
        digits_val(s.take(i)) <= digits_val(s),
    decreases s.len() - i,
{
    if i < s.len() {
        assert(s.take(i + 1).drop_last() =~= s.take(i));
        assert(s.take(i + 1).last() == s[i]);
        assert(digits_val(s.take(i + 1)) == digits_val(s.take(i)) * 10 + digit_val(s[i]));
        assert(digits_val(s.take(i)) <= digits_val(s.take(i)) * 10) by (nonlinear_arith);
        lemma_digits_val_prefix_grows(s, i + 1);
        assert(s.take(s.len() as int) =~= s);
    } else {
        assert(s.take(i) =~= s);
    }
}

/// Parses the digit run `s[from..to]` as an unsigned value, bounded by
/// `max`. Returns `None` if any character is not a digit, the run is empty,
/// or the value exceeds `max`.
fn parse_digits_range(s: &str, from: usize, to: usize, max: u64) -> (r: Option<u64>)
    requires
        from <= to <= s@.len(),
    ensures
        (match r {
            Some(v) => {
                &&& all_digits(s@.subrange(from as int, to as int))
                &&& to > from
                &&& digits_val(s@.subrange(from as int, to as int)) == v
                &&& v <= max
            },
            None => {
                ||| to == from
                ||| !all_digits(s@.subrange(from as int, to as int))
                ||| digits_val(s@.subrange(from as int, to as int)) > max
            },
        }),
{
    let n = to;
    if from == n {
        return None;
    }
    let ghost body = s@.subrange(from as int, to as int);
    let mut i: usize = from;
    let mut acc: u64 = 0;
    while i < n
        invariant
            from <= i <= n,
            n == to <= s@.len(),
            body == s@.subrange(from as int, to as int),
            from < n,
            all_digits(body.take(i - from)),
            acc == digits_val(body.take(i - from)),
            acc <= max,
        decreases n - i,
    {
        let c = s.get_char(i);
        if !('0' <= c && c <= '9') {
            proof {
                assert(body[i - from] == c);
                assert(!is_digit(body[i - from]));
            }
            return None;
        }
        let d: u64 = (c as u32 as u64) - ('0' as u32 as u64);
        proof {
            assert(d == digit_val(c));
            assert(d <= 9);
        }
        if acc > max / 10 || (acc == max / 10 && d > max % 10) {
            proof {
                assert(acc * 10 + d > max) by (nonlinear_arith)
                    requires
                        acc * 10 + d <= u64::MAX ==> (acc > max / 10 || (acc == max / 10 && d
                            > max % 10)),
                        acc > max / 10 || (acc == max / 10 && d > max % 10),
                        d <= 9,
                        max == (max / 10) * 10 + max % 10,
                        max % 10 < 10,
                ;
                assert(body.take(i - from + 1).drop_last() =~= body.take(i - from));
                assert(body.take(i - from + 1).last() == body[i - from]);
                assert(digits_val(body.take(i - from + 1)) == acc * 10 + d);
                lemma_digits_val_prefix_grows(body, i - from + 1);
                assert(digits_val(body) > max);
            }
            return None;
        }
        proof {
            assert(acc * 10 + d <= max) by (nonlinear_arith)
                requires
                    !(acc > max / 10 || (acc == max / 10 && d > max % 10)),
                    d <= 9,
                    max == (max / 10) * 10 + max % 10,
                    max % 10 < 10,
            ;
            assert(body.take(i - from + 1).drop_last() =~= body.take(i - from));
            assert(body.take(i - from + 1).last() == body[i - from]);
            assert(body[i - from] == c);
        }
        acc = acc * 10 + d;
        i = i + 1;
    }
    proof {
        assert(body.take(n - from) =~= body);
    }
    Some(acc)
}

/// Parses `s` as an unsigned decimal integer no larger than `max`: an
/// optional leading `+`, then one or more digits. Returns `None` on any
/// other shape and on values above `max`.
pub fn parse_uint_capped(s: &str, max: u64) -> (r: Option<u64>)
    ensures
        (match r {
            Some(v) => spec_parse_uint(s@) == Some(v as nat) && v <= max,
            None => (match spec_parse_uint(s@) {
                Some(n) => n > max,
                None => true,
            }),
        }),
{
    let n = s.unicode_len();
    if n == 0 {
        return None;
    }
    let first = s.get_char(0);
    let start: usize = if first == '+' {
        1
    } else {
        0
    };
    proof {
        if start == 1 {
            assert(s@.subrange(1, n as int) =~= s@.drop_first());
        } else {
            assert(s@.subrange(0, n as int) =~= s@);
        }
    }
    parse_digits_range(s, start, n, max)
}

/// Parses `s` as a blocking-pop timeout in seconds, returning the value in
/// milliseconds. Values above [`MAX_TIMEOUT_MILLIS`] are rejected.
#[verifier::loop_isolation(false)]
#[verifier::rlimit(50)]
pub fn parse_timeout_millis(s: &str) -> (r: Option<u64>)
    ensures
        r == (match spec_parse_timeout_millis(s@) {
            Some(n) => if n <= MAX_TIMEOUT_MILLIS {
                Some(n as u64)
            } else {
                None::<u64>
            },
            None => None::<u64>,
        }),
{
    let n = s.unicode_len();
    if n == 0 {
        return None;
    }
    let start: usize = if s.get_char(0) == '+' {
        1
    } else {
        0
    };
    let ghost body = if s@[0] == '+' {
        s@.drop_first()
    } else {
        s@
    };
    proof {
        assert(body =~= s@.subrange(start as int, n as int));
        lemma_find_char(body, '.');
    }
    let mut j: usize = start;
    while j < n && s.get_char(j) != '.'
        invariant
            start <= j <= n,
            n == s@.len(),
            start <= 1,
            body == s@.subrange(start as int, n as int),
            forall|k: int| start <= k < j ==> s@[k] != '.',
        decreases n - j,
    {
        j = j + 1;
    }
    proof {
        assert forall|k: int| 0 <= k < j - start implies body[k] != '.' by {
            assert(body[k] == s@[start + k]);
        }
    }
    if j == n {
        // No fractional part: the whole string after the sign is the
        // seconds value.
        proof {
            assert(find_char(body, '.') is None);
        }
        match parse_digits_range(s, start, n, 1_000_000_000) {
            Some(w) => Some(w * 1000),
            None => {
                proof {
                    if body.len() > 0 && all_digits(body) {
                        assert(digits_val(body) > 1_000_000_000);
                        assert(digits_val(body) * 1000 > MAX_TIMEOUT_MILLIS);
                    }
                }
                None
            },
        }
    } else {
        proof {
            assert(body[j - start] == s@[j as int]);
            assert(find_char(body, '.') == Some(j - start as int));
        }
        let ghost whole = body.take(j - start as int);
        let ghost frac = body.skip(j - start + 1);
        proof {
            assert(whole =~= s@.subrange(start as int, j as int));
            assert(frac =~= s@.subrange(j + 1, n as int));
        }
        if j == start && j + 1 == n {
            // A bare dot has no digits at all.
            return None;
        }
        let w: u64 = if j == start {
            proof {
                assert(whole.len() == 0);
                assert(digits_val(whole) == 0);
            }
            0
        } else {
            match parse_digits_range(s, start, j, 1_000_000_000) {
                Some(w) => w,
                None => {
                    proof {
                        if all_digits(whole) && digits_val(whole) <= 1_000_000_000 {
                            assert(false);
                        }
                        if all_digits(whole) && all_digits(frac) {
                            assert(digits_val(whole) > 1_000_000_000);
                            assert(frac_millis(frac) >= 0);
                            assert(digits_val(whole) * 1000 + frac_millis(frac)
                                > MAX_TIMEOUT_MILLIS);
                        }
                    }
                    return None;
                },
            }
        };
        // Validate the fractional digits.
        let mut k: usize = j + 1;
        while k < n
            invariant
                j + 1 <= k <= n,
                n == s@.len(),
                j < n,
                frac == s@.subrange(j + 1, n as int),
                forall|m: int| 0 <= m < k - j - 1 ==> is_digit(#[trigger] frac[m]),
            decreases n - k,
        {
            let c = s.get_char(k);
            if !('0' <= c && c <= '9') {
                proof {
                    assert(frac[k - j - 1] == c);
                    assert(!all_digits(frac));
                }
                return None;
            }
            proof {
                assert(frac[k - j - 1] == c);
            }
            k = k + 1;
        }
        proof {
            assert(all_digits(frac));
        }
        let rem = n - j - 1;
        proof {
            assert(frac.len() == rem);
        }
        let mut fm: u64 = 0;
        if rem >= 1 {
            let c = s.get_char(j + 1);
            fm = fm + (c as u32 as u64 - '0' as u32 as u64) * 100;
            proof {
                assert(frac[0] == c);
            }
        }
        if rem >= 2 {
            let c = s.get_char(j + 2);
            fm = fm + (c as u32 as u64 - '0' as u32 as u64) * 10;
            proof {
                assert(frac[1] == c);
            }
        }
        if rem >= 3 {
            let c = s.get_char(j + 3);
            fm = fm + (c as u32 as u64 - '0' as u32 as u64);
            proof {
                assert(frac[2] == c);
            }
        }
        proof {
            assert(fm == frac_millis(frac));
            assert(fm <= 999);
        }
        Some(w * 1000 + fm)
    }
}

// ---------------------------------------------------------------------------
// CRLF line splitting
// ---------------------------------------------------------------------------

pub open spec fn crlf() -> Seq<char> {
    seq!['\r', '\n']
}

/// `s` contains no CRLF pair.
pub open spec fn no_crlf(s: Seq<char>) -> bool {
    forall|i: int| 0 <= i && i + 1 < s.len() ==> !(#[trigger] s[i] == '\r' && s[i + 1] == '\n')
}

/// Splits `s` at each CRLF pair, leftmost first; the separators are dropped
/// and the (possibly empty) pieces between them are kept, so the result
/// always holds at least one piece.
pub open spec fn spec_split_crlf(s: Seq<char>) -> Seq<Seq<char>>
    decreases s.len(),
{
    if s.len() < 2 {
        seq![s]
    } else if s[0] == '\r' && s[1] == '\n' {
        seq![Seq::<char>::empty()] + spec_split_crlf(s.skip(2))
    } else {
        let rest = spec_split_crlf(s.drop_first());
        rest.update(0, seq![s[0]] + rest[0])
    }
}

pub proof fn lemma_split_crlf_len(s: Seq<char>)
    ensures
        spec_split_crlf(s).len() >= 1,
    decreases s.len(),
{
    if s.len() < 2 {
    } else if s[0] == '\r' && s[1] == '\n' {
        lemma_split_crlf_len(s.skip(2))
    } else {
        lemma_split_crlf_len(s.drop_first())
    }
}

/// A piece with no CRLF pair is returned whole.
pub proof fn lemma_split_crlf_whole(s: Seq<char>)
    requires
        no_crlf(s),
    ensures
        spec_split_crlf(s) == seq![s],
    decreases s.len(),
{
    if s.len() < 2 {
    } else {
        assert(!(s[0] == '\r' && s[1] == '\n'));
        assert(no_crlf(s.drop_first())) by {
            assert forall|i: int| 0 <= i && i + 1 < s.drop_first().len() implies !(
            #[trigger] s.drop_first()[i] == '\r' && s.drop_first()[i + 1] == '\n') by {
                assert(s.drop_first()[i] == s[i + 1]);
                assert(s.drop_first()[i + 1] == s[i + 2]);
            }
        }
        lemma_split_crlf_whole(s.drop_first());
        assert(spec_split_crlf(s) == seq![s.drop_first()].update(
            0,
            seq![s[0]] + s.drop_first(),
        ));
        assert(seq![s[0]] + s.drop_first() =~= s);
        assert(spec_split_crlf(s) =~= seq![s]);
    }
}

/// Splitting `line + CRLF + rest` yields `line` and then the split of `rest`,
/// provided `line` itself holds no CRLF pair.
pub proof fn lemma_split_crlf_append(line: Seq<char>, rest: Seq<char>)
    requires
        no_crlf(line),
    ensures
        spec_split_crlf(line + crlf() + rest) == seq![line] + spec_split_crlf(rest),
    decreases line.len(),
{
    let s = line + crlf() + rest;
    if line.len() == 0 {
        assert(s[0] == '\r' && s[1] == '\n');
        assert(s.skip(2) =~= rest);
        assert(line =~= Seq::<char>::empty());
        assert(seq![Seq::<char>::empty()] + spec_split_crlf(rest) == seq![line]
            + spec_split_crlf(rest));
    } else {
        assert(s[0] == line[0]);
        assert(!(s[0] == '\r' && s[1] == '\n')) by {
            if line.len() == 1 {
                assert(s[1] == crlf()[0]);
            } else {
                assert(s[1] == line[1]);
            }
        }
        assert(s.len() >= 2);
        assert(no_crlf(line.drop_first())) by {
            assert forall|i: int| 0 <= i && i + 1 < line.drop_first().len() implies !(
            #[trigger] line.drop_first()[i] == '\r' && line.drop_first()[i + 1] == '\n') by {
                assert(line.drop_first()[i] == line[i + 1]);
                assert(line.drop_first()[i + 1] == line[i + 2]);
            }
        }
        lemma_split_crlf_append(line.drop_first(), rest);
        assert(s.drop_first() =~= line.drop_first() + crlf() + rest);
        let inner = seq![line.drop_first()] + spec_split_crlf(rest);
        assert(spec_split_crlf(s.drop_first()) == inner);
        lemma_split_crlf_len(rest);
        assert(inner[0] == line.drop_first());
        assert(spec_split_crlf(s) == inner.update(0, seq![line[0]] + line.drop_first()));
        assert(seq![line[0]] + line.drop_first() =~= line);
        assert(inner.update(0, line) =~= seq![line] + spec_split_crlf(rest));
    }
}

/// Splits the request text into its CRLF-separated lines.
pub fn split_crlf(s: &str) -> (r: Vec<String>)
    ensures
        r.deep_view() == spec_split_crlf(s@),
        r.len() >= 1,
{
    let n = s.unicode_len();
    let mut pieces: Vec<String> = Vec::new();
    let mut start: usize = 0;
    let mut i: usize = 0;
    proof {
        assert(pieces.deep_view() =~= Seq::<Seq<char>>::empty());
        assert(s@.skip(0) =~= s@);
    }
    while i < n && i + 1 < n
        invariant
            start <= i <= n,
            n == s@.len(),
            spec_split_crlf(s@) == pieces.deep_view() + spec_split_crlf(s@.skip(start as int)),
            forall|j: int|
                start <= j && j + 1 < n ==> j < i ==> !(#[trigger] s@[j] == '\r' && s@[j + 1]
                    == '\n'),
        decreases n - i,
    {
        let c0 = s.get_char(i);
        let c1 = s.get_char(i + 1);
        if c0 == '\r' && c1 == '\n' {
            let piece = s.substring_char(start, i).to_owned();
            proof {
                let tail = s@.skip(start as int);
                let line = s@.subrange(start as int, i as int);
                assert(no_crlf(line)) by {
                    assert forall|j: int| 0 <= j && j + 1 < line.len() implies !(
                    #[trigger] line[j] == '\r' && line[j + 1] == '\n') by {
                        assert(line[j] == s@[start + j]);
                        assert(line[j + 1] == s@[start + j + 1]);
                    }
                }
                assert(tail =~= line + crlf() + s@.skip(i + 2));
                lemma_split_crlf_append(line, s@.skip(i + 2));
                assert(pieces.deep_view().push(line) + spec_split_crlf(s@.skip(i + 2))
                    =~= pieces.deep_view() + (seq![line] + spec_split_crlf(s@.skip(i + 2))));
            }
            pieces.push(piece);
            proof {
                assert(pieces.deep_view() =~= pieces.deep_view().drop_last().push(
                    s@.subrange(start as int, i as int),
                ));
            }
            start = i + 2;
            i = i + 2;
        } else {
            i = i + 1;
        }
    }
    let last = s.substring_char(start, n).to_owned();
    proof {
        let tail = s@.skip(start as int);
        assert(no_crlf(tail)) by {
            assert forall|j: int| 0 <= j && j + 1 < tail.len() implies !(#[trigger] tail[j]
                == '\r' && tail[j + 1] == '\n') by {
                assert(tail[j] == s@[start + j]);
                assert(tail[j + 1] == s@[start + j + 1]);
                assert(start + j < i);
            }
        }
        lemma_split_crlf_whole(tail);
        assert(tail =~= s@.subrange(start as int, n as int));
    }
    pieces.push(last);
    proof {
        assert(pieces.deep_view() =~= pieces.deep_view().drop_last().push(
            s@.skip(start as int),
        ));
        lemma_split_crlf_len(s@);
    }
    pieces
}

// ---------------------------------------------------------------------------
// Replies
// ---------------------------------------------------------------------------

/// A simple success reply: `+<text>\r\n`.
pub open spec fn simple_reply(msg: Seq<char>) -> Seq<char> {
    seq!['+'] + msg + crlf()
}

/// An error reply: `-<message>\r\n`.
pub open spec fn error_reply(msg: Seq<char>) -> Seq<char> {
    seq!['-'] + msg + crlf()
}

/// An integer reply: `:<n>\r\n`.
pub open spec fn integer_reply(n: nat) -> Seq<char> {
    seq![':'] + spec_uint_string(n) + crlf()
}

/// The null bulk reply for an absent value: `$-1\r\n`.
pub open spec fn null_bulk_reply() -> Seq<char> {
    seq!['$', '-', '1', '\r', '\n']
}

/// The number of bytes in the UTF-8 encoding of the characters.
pub open spec fn byte_len(s: Seq<char>) -> nat {
    vstd::utf8::encode_utf8(s).len()
}

/// The UTF-8 byte length of `s`.
pub fn byte_len_of(s: &str) -> (r: usize)
    ensures
        r == byte_len(s@),
{
    proof {
        broadcast use vstd::slice::axiom_spec_len;
    }
    s.as_bytes().len()
}

/// One framed bulk argument: `$<len>\r\n<arg>\r\n`, the length counted in
/// UTF-8 bytes.
pub open spec fn bulk(arg: Seq<char>) -> Seq<char> {
    seq!['$'] + spec_uint_string(byte_len(arg)) + crlf() + arg + crlf()
}

/// The two-element array reply of a successful blocking pop.
pub open spec fn pair_reply(key: Seq<char>, value: Seq<char>) -> Seq<char> {
    seq!['*', '2'] + crlf() + bulk(key) + bulk(value)
}

pub fn make_simple_reply(msg: &str) -> (r: String)
    ensures
        r@ == simple_reply(msg@),
{
    proof {
        reveal_strlit("+");
        reveal_strlit("\r\n");
    }
    let mut r = "+".to_owned();
    r.append(msg);
    r.append("\r\n");
    proof {
        assert(r@ =~= simple_reply(msg@));
    }
    r
}

pub fn make_error_reply(msg: &str) -> (r: String)
    ensures
        r@ == error_reply(msg@),
{
    proof {
        reveal_strlit("-");
        reveal_strlit("\r\n");
    }
    let mut r = "-".to_owned();
    r.append(msg);
    r.append("\r\n");
    proof {
        assert(r@ =~= error_reply(msg@));
    }
    r
}

pub fn make_integer_reply(n: usize) -> (r: String)
    ensures
        r@ == integer_reply(n as nat),
{
    proof {
        reveal_strlit(":");
        reveal_strlit("\r\n");
    }
    let mut r = ":".to_owned();
    r.append(usize_to_string(n).as_str());
    r.append("\r\n");
    proof {
        assert(r@ =~= integer_reply(n as nat));
    }
    r
}

pub fn make_null_bulk_reply() -> (r: String)
    ensures
        r@ == null_bulk_reply(),
{
    proof {
        reveal_strlit("$-1\r\n");
    }
    let r = "$-1\r\n".to_owned();
    proof {
        assert(r@ =~= null_bulk_reply());
    }
    r
}

fn make_bulk(arg: &str) -> (r: String)
    ensures
        r@ == bulk(arg@),
{
    proof {
        reveal_strlit("$");
        reveal_strlit("\r\n");
    }
    let mut r = "$".to_owned();
    r.append(usize_to_string(byte_len_of(arg)).as_str());
    r.append("\r\n");
    r.append(arg);
    r.append("\r\n");
    proof {
        assert(r@ =~= bulk(arg@));
    }
    r
}

pub fn make_pair_reply(key: &str, value: &str) -> (r: String)
    ensures
        r@ == pair_reply(key@, value@),
{
    proof {
        reveal_strlit("*2\r\n");
    }
    let mut r = "*2\r\n".to_owned();
    r.append(make_bulk(key).as_str());
    r.append(make_bulk(value).as_str());
    proof {
        assert(("*2\r\n")@ =~= seq!['*', '2'] + crlf());
        assert(r@ =~= pair_reply(key@, value@));
    }
    r
}

// ---------------------------------------------------------------------------
// Request encoding
// ---------------------------------------------------------------------------

/// The concatenated bulk blocks of the arguments, in order.
pub open spec fn encode_args(args: Seq<Seq<char>>) -> Seq<char>
    decreases args.len(),
{
    if args.len() == 0 {
        Seq::empty()
    } else {
        bulk(args.first()) + encode_args(args.drop_first())
    }
}

/// The canonical framing of a whole request: `*<N>\r\n` and then one bulk
/// block per argument.
pub open spec fn encode_request_spec(args: Seq<Seq<char>>) -> Seq<char> {
    seq!['*'] + spec_uint_string(args.len()) + crlf() + encode_args(args)
}

pub proof fn lemma_encode_args_snoc(args: Seq<Seq<char>>, arg: Seq<char>)
    ensures
        encode_args(args.push(arg)) == encode_args(args) + bulk(arg),
    decreases args.len(),
{
    let whole = args.push(arg);
    if args.len() == 0 {
        assert(whole.drop_first() =~= Seq::<Seq<char>>::empty());
        assert(whole.first() == arg);
        assert(encode_args(whole.drop_first()) == Seq::<char>::empty());
        assert(encode_args(whole) =~= bulk(arg));
        assert(encode_args(args) + bulk(arg) =~= bulk(arg));
    } else {
        assert(whole.drop_first() =~= args.drop_first().push(arg));
        lemma_encode_args_snoc(args.drop_first(), arg);
        assert(whole.first() == args.first());
        assert(encode_args(whole) == bulk(args.first()) + (encode_args(args.drop_first())
            + bulk(arg)));
        assert(bulk(args.first()) + (encode_args(args.drop_first()) + bulk(arg))
            =~= (bulk(args.first()) + encode_args(args.drop_first())) + bulk(arg));
    }
}

/// Encodes an argument list in the canonical request framing.
pub fn encode_request(args: &Vec<String>) -> (r: String)
    ensures
        r@ == encode_request_spec(args.deep_view()),
{
    proof {
        reveal_strlit("*");
        reveal_strlit("\r\n");
    }
    let mut r = "*".to_owned();
    r.append(usize_to_string(args.len()).as_str());
    r.append("\r\n");
    proof {
        assert(args.deep_view().take(0) =~= Seq::<Seq<char>>::empty());
        assert(r@ =~= seq!['*'] + spec_uint_string(args.deep_view().len()) + crlf()
            + encode_args(args.deep_view().take(0)));
    }
    let n = args.len();
    let mut i: usize = 0;
    while i < n
        invariant
            i <= n,
            n == args.len(),
            r@ == seq!['*'] + spec_uint_string(args.deep_view().len()) + crlf() + encode_args(
                args.deep_view().take(i as int),
            ),
        decreases n - i,
    {
        r.append(make_bulk(args[i].as_str()).as_str());
        proof {
            let dv = args.deep_view();
            assert(dv.take(i + 1) =~= dv.take(i as int).push(dv[i as int]));
            lemma_encode_args_snoc(dv.take(i as int), dv[i as int]);
            assert(dv[i as int] == args[i as int]@);
            assert(r@ =~= seq!['*'] + spec_uint_string(dv.len()) + crlf() + encode_args(
                dv.take(i + 1),
            ));
        }
        i = i + 1;
    }
    proof {
        assert(args.deep_view().take(n as int) =~= args.deep_view());
    }
    r
}

// ---------------------------------------------------------------------------
// Timeout parsing
// ---------------------------------------------------------------------------

/// Largest timeout, in milliseconds, that a blocking pop accepts: the
/// whole-seconds part may not exceed one billion seconds. The cap keeps
/// every timeout arithmetic comfortably inside `u64` milliseconds; a
/// request asking for more (over thirty years) is refused as an invalid
/// timeout rather than accepted and never honoured.
pub const MAX_TIMEOUT_MILLIS: u64 = 1_000_000_000_999;

/// Index of the first occurrence of `c` in `s`, if any.
pub open spec fn find_char(s: Seq<char>, c: char) -> Option<int>
    decreases s.len(),
{
    if s.len() == 0 {
        None
    } else if s[0] == c {
        Some(0)
    } else {
        match find_char(s.drop_first(), c) {
            None => None,
            Some(i) => Some(i + 1),
        }
    }
}

pub proof fn lemma_find_char(s: Seq<char>, c: char)
    ensures
        (match find_char(s, c) {
            Some(i) => 0 <= i < s.len() && s[i] == c && (forall|j: int|
                0 <= j < i ==> s[j] != c),
            None => forall|j: int| 0 <= j < s.len() ==> s[j] != c,
        }),
    decreases s.len(),
{
    if s.len() > 0 && s[0] != c {
        lemma_find_char(s.drop_first(), c);
        match find_char(s.drop_first(), c) {
            None => {
                assert forall|j: int| 0 <= j < s.len() implies s[j] != c by {
                    if j > 0 {
                        assert(s.drop_first()[j - 1] == s[j]);
                    }
                }
            },
            Some(i) => {
                assert(s.drop_first()[i] == s[i + 1]);
                assert forall|j: int| 0 <= j < i + 1 implies s[j] != c by {
                    if j > 0 {
                        assert(s.drop_first()[j - 1] == s[j]);
                    }
                }
            },
        }
    }
}

/// The value, in thousandths, of a fractional digit run: the first three
/// digits count, the rest are truncated.
pub open spec fn frac_millis(frac: Seq<char>) -> nat {
    if frac.len() == 0 {
        0
    } else if frac.len() == 1 {
        digit_val(frac[0]) * 100
    } else if frac.len() == 2 {
        digit_val(frac[0]) * 100 + digit_val(frac[1]) * 10
    } else {
        digit_val(frac[0]) * 100 + digit_val(frac[1]) * 10 + digit_val(frac[2])
    }
}

/// The accepted timeout grammar, in seconds with millisecond precision: an
/// optional leading `+`, then a whole part and an optional `.` with a
/// fractional part, at least one digit in all. The result is the value in
/// milliseconds, fractional digits beyond the third truncated. The grammar
/// is plain decimal on purpose: exponent, infinite and not-a-number forms
/// name no usable wait and are refused as invalid, as are negative ones.
pub open spec fn spec_parse_timeout_millis(s: Seq<char>) -> Option<nat> {
    let body = if s.len() > 0 && s[0] == '+' {
        s.drop_first()
    } else {
        s
    };
    match find_char(body, '.') {
        None => if body.len() > 0 && all_digits(body) {
            Some(digits_val(body) * 1000)
        } else {
            None
        },
        Some(i) => {
            let whole = body.take(i);
            let frac = body.skip(i + 1);
            if whole.len() + frac.len() > 0 && all_digits(whole) && all_digits(frac) {
                Some(digits_val(whole) * 1000 + frac_millis(frac))
            } else {
                None
            }
        },
    }
}

} // verus!
