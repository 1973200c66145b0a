//! Laws the library keeps across its functions: the framing round trip and
//! the store-level reply guarantees.

use vstd::prelude::*;

use crate::command::CommandModel;
use crate::database::ValueModel;
use crate::execute_cmd::get_reply;
use crate::resp::{
    all_digits, bulk, byte_len, crlf, digit_val, digits_val, encode_args,
    encode_request_spec, is_digit, lemma_split_crlf_append, lemma_split_crlf_whole, no_crlf,
    null_bulk_reply, simple_reply, spec_digit, spec_parse_uint, spec_split_crlf,
    spec_uint_string,
};
use crate::utils::{spec_parse_args, spec_parse_request, spec_resolve, ParseError};

verus! {

/// The canonical decimal rendering is all digits and reads back as the
/// number it renders.
pub proof fn lemma_uint_string_val(n: nat)
    ensures
        all_digits(spec_uint_string(n)),
        spec_uint_string(n).len() > 0,
        digits_val(spec_uint_string(n)) == n,
        spec_parse_uint(spec_uint_string(n)) == Some(n),
    decreases n,
{
    if n < 10 {
        assert(is_digit(spec_digit(n)));
        assert(digit_val(spec_digit(n)) == n);
        assert(digits_val(spec_uint_string(n)) == digits_val(
            spec_uint_string(n).drop_last(),
        ) * 10 + n);
        assert(spec_uint_string(n).drop_last() =~= Seq::<char>::empty());
        assert(spec_uint_string(n)[0] != '+');
    } else {
        lemma_uint_string_val(n / 10);
        let s = spec_uint_string(n / 10);
        let w = s.push(spec_digit(n % 10));
        assert(w.drop_last() =~= s);
        assert(digit_val(spec_digit(n % 10)) == n % 10);
        assert(digits_val(w) == (n / 10) * 10 + n % 10);
        assert((n / 10) * 10 + n % 10 == n) by (nonlinear_arith);
        assert(all_digits(w)) by {
            assert(forall|i: int| 0 <= i < s.len() ==> is_digit(#[trigger] w[i]));
            assert(is_digit(w[w.len() - 1]));
        }
        assert(w[0] != '+');
    }
}

/// A sequence without carriage returns holds no CRLF pair.
proof fn lemma_no_cr_no_crlf(s: Seq<char>)
    requires
        forall|i: int| 0 <= i < s.len() ==> s[i] != '\r',
    ensures
        no_crlf(s),
{
}

/// The lines of the framed argument blocks, in order, without the final
/// empty piece the trailing CRLF leaves.
pub open spec fn arg_lines(args: Seq<Seq<char>>) -> Seq<Seq<char>>
    decreases args.len(),
{
    if args.len() == 0 {
        Seq::empty()
    } else {
        seq![seq!['$'] + spec_uint_string(byte_len(args.first()))] + seq![args.first()]
            + arg_lines(args.drop_first())
    }
}

proof fn lemma_length_line_no_crlf(a: Seq<char>)
    ensures
        no_crlf(seq!['$'] + spec_uint_string(byte_len(a))),
{
    let line = seq!['$'] + spec_uint_string(byte_len(a));
    lemma_uint_string_val(byte_len(a));
    assert forall|i: int| 0 <= i < line.len() implies line[i] != '\r' by {
        if i > 0 {
            assert(is_digit(spec_uint_string(byte_len(a))[i - 1]));
        }
    }
    lemma_no_cr_no_crlf(line);
}

/// Splitting the encoded argument blocks recovers their lines, and then
/// the one empty piece after the final separator.
proof fn lemma_split_encode_args(args: Seq<Seq<char>>)
    requires
        forall|i: int| 0 <= i < args.len() ==> no_crlf(#[trigger] args[i]),
    ensures
        spec_split_crlf(encode_args(args)) == arg_lines(args) + seq![Seq::<char>::empty()],
    decreases args.len(),
{
    if args.len() == 0 {
        assert(encode_args(args) =~= Seq::<char>::empty());
        lemma_split_crlf_whole(Seq::<char>::empty());
        assert(spec_split_crlf(encode_args(args)) =~= arg_lines(args) + seq![
            Seq::<char>::empty(),
        ]);
    } else {
        let a = args.first();
        let rest = args.drop_first();
        let lenline = seq!['$'] + spec_uint_string(byte_len(a));
        assert forall|i: int| 0 <= i < rest.len() implies no_crlf(#[trigger] rest[i]) by {
            assert(rest[i] == args[i + 1]);
        }
        lemma_split_encode_args(rest);
        lemma_length_line_no_crlf(a);
        assert(encode_args(args) =~= lenline + crlf() + (a + crlf() + encode_args(rest)));
        lemma_split_crlf_append(lenline, a + crlf() + encode_args(rest));
        lemma_split_crlf_append(a, encode_args(rest));
        assert(args[0] == a);
        assert(spec_split_crlf(encode_args(args)) =~= arg_lines(args) + seq![
            Seq::<char>::empty(),
        ]);
    }
}

/// Reading the framed blocks back off their lines yields the arguments.
proof fn lemma_parse_arg_lines(args: Seq<Seq<char>>)
    ensures
        spec_parse_args(arg_lines(args) + seq![Seq::<char>::empty()], args.len()) == Some(
            args,
        ),
    decreases args.len(),
{
    let lines = arg_lines(args) + seq![Seq::<char>::empty()];
    if args.len() == 0 {
        assert(spec_parse_args(lines, 0) == Some(Seq::<Seq<char>>::empty()));
        assert(args =~= Seq::<Seq<char>>::empty());
    } else {
        let a = args.first();
        let rest = args.drop_first();
        lemma_parse_arg_lines(rest);
        lemma_uint_string_val(byte_len(a));
        let lenline = seq!['$'] + spec_uint_string(byte_len(a));
        assert(lines[0] == lenline);
        assert(lines[1] == a);
        assert(lines.len() >= 2);
        assert(lenline[0] == '$');
        assert(lenline.drop_first() =~= spec_uint_string(byte_len(a)));
        assert(lines.skip(2) =~= arg_lines(rest) + seq![Seq::<char>::empty()]);
        assert(spec_parse_args(lines.skip(2), (args.len() - 1) as nat) == Some(rest));
        assert(seq![a] + rest =~= args);
    }
}

/// The framing round trip: the canonical encoding of an argument list
/// decodes to exactly the command and raw arguments that list names —
/// and to the matching refusal where the list itself is unacceptable.
/// The arguments themselves may hold anything but a CRLF pair, which the
/// line-based framing cannot carry.
pub proof fn lemma_request_round_trip(args: Seq<Seq<char>>)
    requires
        args.len() > 0,
        args.len() <= usize::MAX,
        forall|i: int| 0 <= i < args.len() ==> no_crlf(#[trigger] args[i]),
    ensures
        spec_parse_request(encode_request_spec(args)) == (match spec_resolve(args) {
            Ok(c) => Ok::<(CommandModel, Seq<Seq<char>>), ParseError>((c, args.drop_first())),
            Err(e) => Err::<(CommandModel, Seq<Seq<char>>), ParseError>(e),
        }),
{
    let enc = encode_request_spec(args);
    let header = seq!['*'] + spec_uint_string(args.len());
    lemma_uint_string_val(args.len());
    assert forall|i: int| 0 <= i < header.len() implies header[i] != '\r' by {
        if i > 0 {
            assert(is_digit(spec_uint_string(args.len())[i - 1]));
        }
    }
    lemma_no_cr_no_crlf(header);
    assert(enc =~= header + crlf() + encode_args(args));
    lemma_split_crlf_append(header, encode_args(args));
    lemma_split_encode_args(args);
    let lines = spec_split_crlf(enc);
    assert(lines == seq![header] + (arg_lines(args) + seq![Seq::<char>::empty()]));
    assert(lines[0] == header);
    assert(enc.len() > 0);
    assert(header[0] == '*');
    assert(header.drop_first() =~= spec_uint_string(args.len()));
    assert(spec_parse_uint(header.drop_first()) == Some(args.len()));
    assert(lines.drop_first() =~= arg_lines(args) + seq![Seq::<char>::empty()]);
    lemma_parse_arg_lines(args);
    assert(spec_parse_args(lines.drop_first(), args.len()) == Some(args));
}

/// A GET right after a SET of the same key answers with that value.
pub proof fn lemma_set_then_get(store: Map<Seq<char>, ValueModel>, k: Seq<char>, v: Seq<char>)
    ensures
        get_reply(store.insert(k, ValueModel::Scalar(v)), k) == simple_reply(v),
{
}

/// A GET of a key the store does not hold answers with the null bulk
/// reply.
pub proof fn lemma_get_absent(store: Map<Seq<char>, ValueModel>, k: Seq<char>)
    requires
        !store.contains_key(k),
    ensures
        get_reply(store, k) == null_bulk_reply(),
{
}

} // verus!
