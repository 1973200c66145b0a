//! The request decoder and the command executor: one request's text in, a
//! typed command out; one command in, a reply and the session effects out.

use vstd::prelude::*;

use crate::command::{eq_ignore_ascii_case, eq_ignore_ascii_case_spec, Command, CommandModel};
use crate::database::{Registry, ValueModel};
use crate::execute_cmd::{
    count_present, execute_blpop_cmd, execute_brpop_cmd, execute_exists_cmd, execute_get_cmd,
    execute_lpush_cmd, execute_ping_cmd, execute_rpush_cmd, execute_select_cmd,
    execute_set_cmd, first_ready, get_reply, pop_step_spec, PopStep,
};
use crate::resp::{
    byte_len, byte_len_of, error_reply, integer_reply, simple_reply,
    spec_parse_timeout_millis, spec_parse_uint, spec_split_crlf, split_crlf, make_error_reply,
    parse_timeout_millis, parse_uint_capped, MAX_TIMEOUT_MILLIS,
};
use crate::{MAX_DATABASES, MAX_KEYS};

verus! {

// ---------------------------------------------------------------------------
// The decoder's specification
// ---------------------------------------------------------------------------

/// Every way a request can be refused before any command runs.
pub enum ParseError {
    Empty,
    Invalid,
    SelectArity,
    BadIndex,
    GetArity,
    SetArity,
    ExistsArity,
    RpushArity,
    LpushArity,
    BlpopArity,
    BrpopArity,
    TooManyKeys,
    BadTimeout,
    Unsupported,
}

/// The message each refusal carries.
pub open spec fn parse_error_message(e: ParseError) -> Seq<char> {
    match e {
        ParseError::Empty => "Empty request"@,
        ParseError::Invalid => "Invalid request format"@,
        ParseError::SelectArity => "Syntax error. Usage: SELECT <index>"@,
        ParseError::BadIndex => "Invalid database index"@,
        ParseError::GetArity => "Syntax error. Usage: GET <key>"@,
        ParseError::SetArity => "Syntax error. Usage: SET <key> <value>"@,
        ParseError::ExistsArity => "Syntax error. Usage: EXISTS <key> [<key> ...]"@,
        ParseError::RpushArity => "Syntax error. Usage: RPUSH <key> <value> [<value> ...]"@,
        ParseError::LpushArity => "Syntax error. Usage: LPUSH <key> <value> [<value> ...]"@,
        ParseError::BlpopArity => "Syntax error. Usage: BLPOP <key> <value> [<value> ...]"@,
        ParseError::BrpopArity => "Syntax error. Usage: BRPOP <key> <value> [<value> ...]"@,
        ParseError::TooManyKeys => "Exceeded maximum number of keys (5)"@,
        ParseError::BadTimeout => "Invalid timeout"@,
        ParseError::Unsupported => "Unsupported command"@,
    }
}

/// Reads `count` framed arguments from the lines: each is a `$<len>` line
/// and then the argument itself, whose UTF-8 byte count must equal the
/// declared length. Lines beyond the last argument are ignored.
pub open spec fn spec_parse_args(lines: Seq<Seq<char>>, count: nat) -> Option<Seq<Seq<char>>>
    decreases count,
{
    if count == 0 {
        Some(Seq::empty())
    } else if lines.len() < 2 {
        None
    } else {
        let lh = lines[0];
        let arg = lines[1];
        if lh.len() > 0 && lh[0] == '$' && spec_parse_uint(lh.drop_first()) == Some(
            byte_len(arg),
        ) {
            match spec_parse_args(lines.skip(2), (count - 1) as nat) {
                None => None,
                Some(rest) => Some(seq![arg] + rest),
            }
        } else {
            None
        }
    }
}

/// Chooses and validates the command the argument list names; the first
/// argument is the name, matched without regard to ASCII case.
pub open spec fn spec_resolve(args: Seq<Seq<char>>) -> Result<CommandModel, ParseError>
    recommends
        args.len() > 0,
{
    let name = args[0];
    let parts = args.drop_first();
    if eq_ignore_ascii_case_spec(name, "SELECT"@) {
        if parts.len() != 1 {
            Err(ParseError::SelectArity)
        } else {
            match spec_parse_uint(parts[0]) {
                Some(i) => if i <= MAX_DATABASES as nat {
                    Ok(CommandModel::Select(i as u8))
                } else {
                    Err(ParseError::BadIndex)
                },
                None => Err(ParseError::BadIndex),
            }
        }
    } else if eq_ignore_ascii_case_spec(name, "GET"@) {
        if parts.len() != 1 {
            Err(ParseError::GetArity)
        } else {
            Ok(CommandModel::Get(parts[0]))
        }
    } else if eq_ignore_ascii_case_spec(name, "SET"@) {
        if parts.len() != 2 {
            Err(ParseError::SetArity)
        } else {
            Ok(CommandModel::SetValue(parts[0], parts[1]))
        }
    } else if eq_ignore_ascii_case_spec(name, "PING"@) {
        Ok(
            CommandModel::Ping(
                if parts.len() > 0 {
                    Some(parts[0])
                } else {
                    None
                },
            ),
        )
    } else if eq_ignore_ascii_case_spec(name, "EXISTS"@) {
        if parts.len() == 0 {
            Err(ParseError::ExistsArity)
        } else {
            Ok(CommandModel::Exists(parts))
        }
    } else if eq_ignore_ascii_case_spec(name, "RPUSH"@) {
        if parts.len() < 2 {
            Err(ParseError::RpushArity)
        } else {
            Ok(CommandModel::Rpush(parts[0], parts.drop_first()))
        }
    } else if eq_ignore_ascii_case_spec(name, "LPUSH"@) {
        if parts.len() < 2 {
            Err(ParseError::LpushArity)
        } else {
            Ok(CommandModel::Lpush(parts[0], parts.drop_first()))
        }
    } else if eq_ignore_ascii_case_spec(name, "BLPOP"@) {
        if parts.len() < 2 {
            Err(ParseError::BlpopArity)
        } else if parts.len() - 1 > MAX_KEYS as int {
            Err(ParseError::TooManyKeys)
        } else {
            match spec_parse_timeout_millis(parts.last()) {
                Some(t) => if t <= MAX_TIMEOUT_MILLIS as nat {
                    Ok(CommandModel::Blpop(parts.drop_last(), t as u64))
                } else {
                    Err(ParseError::BadTimeout)
                },
                None => Err(ParseError::BadTimeout),
            }
        }
    } else if eq_ignore_ascii_case_spec(name, "BRPOP"@) {
        if parts.len() < 2 {
            Err(ParseError::BrpopArity)
        } else if parts.len() - 1 > MAX_KEYS as int {
            Err(ParseError::TooManyKeys)
        } else {
            match spec_parse_timeout_millis(parts.last()) {
                Some(t) => if t <= MAX_TIMEOUT_MILLIS as nat {
                    Ok(CommandModel::Brpop(parts.drop_last(), t as u64))
                } else {
                    Err(ParseError::BadTimeout)
                },
                None => Err(ParseError::BadTimeout),
            }
        }
    } else {
        Err(ParseError::Unsupported)
    }
}

/// What decoding a whole request yields: the typed command and the raw
/// arguments after the command name, or the refusal. The framing is one
/// `*<N>` line and then `N` framed arguments; a request with no text at
/// all, or one that declares no arguments, is an empty request.
pub open spec fn spec_parse_request(s: Seq<char>) -> Result<
    (CommandModel, Seq<Seq<char>>),
    ParseError,
> {
    if s.len() == 0 {
        Err(ParseError::Empty)
    } else {
        let lines = spec_split_crlf(s);
        let header = lines[0];
        if !(header.len() > 0 && header[0] == '*') {
            Err(ParseError::Invalid)
        } else {
            match spec_parse_uint(header.drop_first()) {
                None => Err(ParseError::Invalid),
                Some(count) => if count > usize::MAX as nat {
                    Err(ParseError::Invalid)
                } else {
                    match spec_parse_args(lines.drop_first(), count) {
                        None => Err(ParseError::Invalid),
                        Some(args) => if args.len() == 0 {
                            Err(ParseError::Empty)
                        } else {
                            match spec_resolve(args) {
                                Ok(cmd) => Ok((cmd, args.drop_first())),
                                Err(e) => Err(e),
                            }
                        },
                    }
                },
            }
        }
    }
}


// ---------------------------------------------------------------------------
// The decoder
// ---------------------------------------------------------------------------

/// Clones the elements `v[from..to]` into a fresh vector.
fn push_clone(r: &mut Vec<String>, s: &String)
    ensures
        final(r).deep_view() == old(r).deep_view().push(s@),
{
    r.push(s.clone());
    proof {
        let target = old(r).deep_view().push(s@);
        assert forall|k: int| 0 <= k < r.deep_view().len() implies r.deep_view()[k]
            == target[k] by {
            if k == r.deep_view().len() - 1 {
            } else {
                assert(r@[k] == old(r)@[k]);
            }
        }
        assert(r.deep_view() =~= target);
    }
}

fn slice_vec(v: &Vec<String>, from: usize, to: usize) -> (r: Vec<String>)
    requires
        from <= to <= v@.len(),
    ensures
        r.deep_view() == v.deep_view().subrange(from as int, to as int),
{
    let mut r: Vec<String> = Vec::new();
    let mut i: usize = from;
    proof {
        assert(r.deep_view() =~= v.deep_view().subrange(from as int, from as int));
    }
    while i < to
        invariant
            from <= i <= to <= v@.len(),
            r.deep_view() == v.deep_view().subrange(from as int, i as int),
        decreases to - i,
    {
        push_clone(&mut r, &v[i]);
        proof {
            assert(v.deep_view()[i as int] == v@[i as int]@);
            assert(r.deep_view() =~= v.deep_view().subrange(from as int, i + 1));
        }
        i = i + 1;
    }
    r
}

/// Decodes one request into its typed command and the raw arguments after
/// the command name, or refuses it with a descriptive message. The framing
/// is `*<N>` and then `N` blocks of `$<len>` and the argument itself, all
/// CRLF-separated, lengths counted in UTF-8 bytes; the first argument names
/// the command without regard to ASCII case. At most [`MAX_KEYS`] candidate
/// keys may be given to a blocking pop, the timeout excluded.
#[verifier::loop_isolation(false)]
#[verifier::rlimit(100)]
pub fn parse_request(request: &str) -> (r: Result<(Command, Vec<String>), &'static str>)
    ensures
        (match r {
            Ok((cmd, parts)) => spec_parse_request(request@) == Ok::<
                (CommandModel, Seq<Seq<char>>),
                ParseError,
            >((cmd@, parts.deep_view())),
            Err(m) => spec_parse_request(request@) is Err && m@ == parse_error_message(
                spec_parse_request(request@)->Err_0,
            ),
        }),
{
    let n = request.unicode_len();
    if n == 0 {
        return Err("Empty request");
    }
    let lines = split_crlf(request);
    let ghost ldv = lines.deep_view();
    let header = &lines[0];
    proof {
        assert(header@ == ldv[0]);
    }
    if !(header.unicode_len() > 0 && header.as_str().get_char(0) == '*') {
        return Err("Invalid request format");
    }
    let count64 = match parse_uint_capped(
        header.as_str().substring_char(1, header.unicode_len()),
        usize::MAX as u64,
    ) {
        Some(c) => c,
        None => {
            proof {
                assert(header@.subrange(1, header@.len() as int) =~= header@.drop_first());
            }
            return Err("Invalid request format");
        },
    };
    proof {
        assert(header@.subrange(1, header@.len() as int) =~= header@.drop_first());
    }
    let count = count64 as usize;
    let mut parts: Vec<String> = Vec::new();
    let mut li: usize = 1;
    let mut c: usize = 0;
    proof {
        assert(ldv.skip(1) =~= ldv.drop_first());
        assert(parts.deep_view() =~= Seq::<Seq<char>>::empty());
        assert(parts.deep_view() + Seq::<Seq<char>>::empty() =~= parts.deep_view());
    }
    while c < count
        invariant
            c <= count,
            1 <= li <= ldv.len(),
            parts.deep_view().len() == c,
            spec_parse_args(ldv.drop_first(), count as nat) == (match spec_parse_args(
                ldv.skip(li as int),
                (count - c) as nat,
            ) {
                None => None::<Seq<Seq<char>>>,
                Some(rest) => Some(parts.deep_view() + rest),
            }),
        decreases count - c,
    {
        if li >= lines.len() || li + 1 >= lines.len() {
            proof {
                assert(ldv.skip(li as int).len() < 2);
            }
            return Err("Invalid request format");
        }
        let lh = &lines[li];
        proof {
            assert(lh@ == ldv.skip(li as int)[0]);
        }
        if !(lh.unicode_len() > 0 && lh.as_str().get_char(0) == '$') {
            return Err("Invalid request format");
        }
        let arg = &lines[li + 1];
        proof {
            assert(arg@ == ldv.skip(li as int)[1]);
            assert(lh@.subrange(1, lh@.len() as int) =~= lh@.drop_first());
        }
        let alen = byte_len_of(arg.as_str());
        let good = match parse_uint_capped(
            lh.as_str().substring_char(1, lh.unicode_len()),
            usize::MAX as u64,
        ) {
            Some(l) => l == alen as u64,
            None => false,
        };
        if !good {
            return Err("Invalid request format");
        }
        let ghost old_parts = parts.deep_view();
        parts.push(arg.clone());
        proof {
            assert(parts.deep_view() =~= old_parts.push(arg@));
            assert(ldv.skip(li as int).skip(2) =~= ldv.skip(li + 2));
            match spec_parse_args(ldv.skip(li + 2), (count - c - 1) as nat) {
                None => {},
                Some(rest) => {
                    assert(old_parts + (seq![arg@] + rest) =~= old_parts.push(arg@) + rest);
                },
            }
        }
        li = li + 2;
        c = c + 1;
    }
    proof {
        assert(spec_parse_args(ldv.skip(li as int), 0) == Some(Seq::<Seq<char>>::empty()));
        assert(parts.deep_view() + Seq::<Seq<char>>::empty() =~= parts.deep_view());
        assert(spec_parse_args(ldv.drop_first(), count as nat) == Some(parts.deep_view()));
    }
    if parts.len() == 0 {
        return Err("Empty request");
    }
    let ghost args = parts.deep_view();
    let name = parts.remove(0);
    proof {
        assert(parts.deep_view() =~= args.drop_first());
        assert(name@ == args[0]);
        assert(spec_parse_request(request@) == (match spec_resolve(args) {
            Ok(c) => Ok::<(CommandModel, Seq<Seq<char>>), ParseError>((c, args.drop_first())),
            Err(e) => Err::<(CommandModel, Seq<Seq<char>>), ParseError>(e),
        }));
    }
    if eq_ignore_ascii_case(name.as_str(), "SELECT") {
        if parts.len() != 1 {
            return Err("Syntax error. Usage: SELECT <index>");
        }
        match parse_uint_capped(parts[0].as_str(), MAX_DATABASES as u64) {
            Some(i) => {
                let cmd = Command::Select(i as u8);
                proof {
                    assert(parts.deep_view()[0] == parts@[0]@);
                    assert(spec_resolve(args) == Ok::<CommandModel, ParseError>(cmd@));
                }
                Ok((cmd, parts))
            },
            None => Err("Invalid database index"),
        }
    } else if eq_ignore_ascii_case(name.as_str(), "GET") {
        if parts.len() != 1 {
            return Err("Syntax error. Usage: GET <key>");
        }
        let cmd = Command::Get(parts[0].clone());
        proof {
            assert(spec_resolve(args) == Ok::<CommandModel, ParseError>(cmd@));
        }
        Ok((cmd, parts))
    } else if eq_ignore_ascii_case(name.as_str(), "SET") {
        if parts.len() != 2 {
            return Err("Syntax error. Usage: SET <key> <value>");
        }
        let cmd = Command::SetValue(parts[0].clone(), parts[1].clone());
        proof {
            assert(spec_resolve(args) == Ok::<CommandModel, ParseError>(cmd@));
        }
        Ok((cmd, parts))
    } else if eq_ignore_ascii_case(name.as_str(), "PING") {
        let cmd = if parts.len() > 0 {
            Command::Ping(Some(parts[0].clone()))
        } else {
            Command::Ping(None)
        };
        proof {
            assert(spec_resolve(args) == Ok::<CommandModel, ParseError>(cmd@));
        }
        Ok((cmd, parts))
    } else if eq_ignore_ascii_case(name.as_str(), "EXISTS") {
        if parts.len() == 0 {
            return Err("Syntax error. Usage: EXISTS <key> [<key> ...]");
        }
        let ks = slice_vec(&parts, 0, parts.len());
        let cmd = Command::Exists(ks);
        proof {
            assert(parts.deep_view().subrange(0, parts.deep_view().len() as int)
                =~= parts.deep_view());
            assert(spec_resolve(args) == Ok::<CommandModel, ParseError>(cmd@));
        }
        Ok((cmd, parts))
    } else if eq_ignore_ascii_case(name.as_str(), "RPUSH") {
        if parts.len() < 2 {
            return Err("Syntax error. Usage: RPUSH <key> <value> [<value> ...]");
        }
        let vs = slice_vec(&parts, 1, parts.len());
        let cmd = Command::Rpush(parts[0].clone(), vs);
        proof {
            assert(parts.deep_view().subrange(1, parts.deep_view().len() as int)
                =~= parts.deep_view().drop_first());
            assert(spec_resolve(args) == Ok::<CommandModel, ParseError>(cmd@));
        }
        Ok((cmd, parts))
    } else if eq_ignore_ascii_case(name.as_str(), "LPUSH") {
        if parts.len() < 2 {
            return Err("Syntax error. Usage: LPUSH <key> <value> [<value> ...]");
        }
        let vs = slice_vec(&parts, 1, parts.len());
        let cmd = Command::Lpush(parts[0].clone(), vs);
        proof {
            assert(parts.deep_view().subrange(1, parts.deep_view().len() as int)
                =~= parts.deep_view().drop_first());
            assert(spec_resolve(args) == Ok::<CommandModel, ParseError>(cmd@));
        }
        Ok((cmd, parts))
    } else if eq_ignore_ascii_case(name.as_str(), "BLPOP") {
        if parts.len() < 2 {
            return Err("Syntax error. Usage: BLPOP <key> <value> [<value> ...]");
        }
        if parts.len() - 1 > MAX_KEYS {
            return Err("Exceeded maximum number of keys (5)");
        }
        proof {
            assert(parts.deep_view()[parts.deep_view().len() - 1] == parts@[parts@.len()
                - 1]@);
        }
        let t = match parse_timeout_millis(parts[parts.len() - 1].as_str()) {
            Some(t) => t,
            None => {
                return Err("Invalid timeout");
            },
        };
        let ks = slice_vec(&parts, 0, parts.len() - 1);
        let cmd = Command::BLPOP(ks, t);
        proof {
            assert(parts.deep_view().subrange(0, parts.deep_view().len() - 1)
                =~= parts.deep_view().drop_last());
            assert(spec_resolve(args) == Ok::<CommandModel, ParseError>(cmd@));
        }
        Ok((cmd, parts))
    } else if eq_ignore_ascii_case(name.as_str(), "BRPOP") {
        if parts.len() < 2 {
            return Err("Syntax error. Usage: BRPOP <key> <value> [<value> ...]");
        }
        if parts.len() - 1 > MAX_KEYS {
            return Err("Exceeded maximum number of keys (5)");
        }
        proof {
            assert(parts.deep_view()[parts.deep_view().len() - 1] == parts@[parts@.len()
                - 1]@);
        }
        let t = match parse_timeout_millis(parts[parts.len() - 1].as_str()) {
            Some(t) => t,
            None => {
                return Err("Invalid timeout");
            },
        };
        let ks = slice_vec(&parts, 0, parts.len() - 1);
        let cmd = Command::BRPOP(ks, t);
        proof {
            assert(parts.deep_view().subrange(0, parts.deep_view().len() - 1)
                =~= parts.deep_view().drop_last());
            assert(spec_resolve(args) == Ok::<CommandModel, ParseError>(cmd@));
        }
        Ok((cmd, parts))
    } else {
        Err("Unsupported command")
    }
}


// ---------------------------------------------------------------------------
// The executor
// ---------------------------------------------------------------------------

/// One step of a command's execution: the finished reply, or how many
/// milliseconds a blocking pop wants to sleep before its next poll.
pub enum CmdStep {
    Done(String),
    Wait(u64),
}

/// The error reply the session rule produces for a late SELECT.
pub open spec fn select_locked_reply() -> Seq<char> {
    error_reply("SELECT can only be called at the start of the session"@)
}

/// What one command's execution does to the registry and the session, and
/// what step it hands back. This is the executor's whole per-command
/// contract, named so that the queue drain can fold it over the queue.
pub open spec fn command_effect(pre_db: Registry, pre_sel: u8, pre_flag: bool, cmd: Command,
    elapsed: u64, post_db: Registry, post_sel: u8, post_flag: bool, r: CmdStep) -> bool {
    &&& post_db.wf()
    &&& (pre_db.has_db(pre_sel) ==> post_db.has_db(post_sel))
    &&& (match cmd {
            Command::Select(index) => if pre_flag {
                &&& post_db == pre_db
                &&& post_sel == pre_sel
                &&& post_flag
                &&& r matches CmdStep::Done(s) && s@ == select_locked_reply()
            } else {
                &&& post_flag
                &&& post_sel == index
                &&& post_db.has_db(index)
                &&& (pre_db.has_db(index) ==> post_db == pre_db)
                &&& (!pre_db.has_db(index) ==> post_db.db(index).store() == Map::<
                    Seq<char>,
                    ValueModel,
                >::empty() && post_db.db(index).queue@ == Seq::<Command>::empty())
                &&& (forall|o: u8| o != index ==> post_db.spec_db(o) == pre_db.spec_db(o))
                &&& r matches CmdStep::Done(s) && s@ == simple_reply("OK"@)
            },
            Command::Get(key) => {
                &&& post_flag
                &&& post_sel == pre_sel
                &&& post_db == pre_db
                &&& r matches CmdStep::Done(s) && s@ == (if pre_db.has_db(pre_sel) {
                    get_reply(pre_db.db(pre_sel).store(), key@)
                } else {
                    error_reply("Database not found"@)
                })
            },
            Command::SetValue(key, value) => {
                &&& post_flag
                &&& post_sel == pre_sel
                &&& post_db.has_db(pre_sel) == pre_db.has_db(pre_sel)
                &&& (forall|o: u8|
                    o != pre_sel ==> post_db.spec_db(o) == pre_db.spec_db(o))
                &&& (if pre_db.has_db(pre_sel) {
                    &&& post_db.db(pre_sel).store() == pre_db.db(
                        pre_sel,
                    ).store().insert(key@, ValueModel::Scalar(value@))
                    &&& post_db.db(pre_sel).queue == pre_db.db(
                        pre_sel,
                    ).queue
                    &&& r matches CmdStep::Done(s) && s@ == simple_reply("OK"@)
                } else {
                    &&& post_db.databases@ == pre_db.databases@
                    &&& r matches CmdStep::Done(s) && s@ == error_reply("Database not found"@)
                })
            },
            Command::Ping(m) => {
                &&& post_flag
                &&& post_sel == pre_sel
                &&& post_db == pre_db
                &&& r matches CmdStep::Done(s) && s@ == (match m {
                    Some(msg) => simple_reply(msg@),
                    None => simple_reply("PONG"@),
                })
            },
            Command::Exists(keys) => {
                &&& post_flag
                &&& post_sel == pre_sel
                &&& post_db == pre_db
                &&& r matches CmdStep::Done(s) && s@ == (if pre_db.has_db(pre_sel) {
                    integer_reply(
                        count_present(pre_db.db(pre_sel).store(), keys.deep_view()),
                    )
                } else {
                    error_reply("Database not found"@)
                })
            },
            Command::Rpush(key, values) => {
                &&& post_flag
                &&& post_sel == pre_sel
                &&& push_effect(
                    pre_db,
                    post_db,
                    pre_sel,
                    key@,
                    values.deep_view(),
                    false,
                    r,
                )
            },
            Command::Lpush(key, values) => {
                &&& post_flag
                &&& post_sel == pre_sel
                &&& push_effect(
                    pre_db,
                    post_db,
                    pre_sel,
                    key@,
                    values.deep_view(),
                    true,
                    r,
                )
            },
            Command::BLPOP(keys, t) => {
                &&& post_flag
                &&& post_sel == pre_sel
                &&& pop_effect(
                    pre_db,
                    post_db,
                    pre_sel,
                    keys.deep_view(),
                    t,
                    elapsed,
                    false,
                    r,
                )
            },
            Command::BRPOP(keys, t) => {
                &&& post_flag
                &&& post_sel == pre_sel
                &&& pop_effect(
                    pre_db,
                    post_db,
                    pre_sel,
                    keys.deep_view(),
                    t,
                    elapsed,
                    true,
                    r,
                )
            },
        })
}

/// Runs one command against the registry and the session. A SELECT is
/// accepted only while the session's command-executed flag is still down;
/// every other command raises the flag even when it fails. Blocking pops
/// hand the waiting back to the caller through [`CmdStep::Wait`]:
/// `elapsed_millis` says how long this same command has been waiting, and
/// every other command ignores it.
pub fn execute_command(cmd: &Command, db: &mut Registry, selected_db: &mut u8,
    cmd_executed: &mut bool, elapsed_millis: u64) -> (r: CmdStep)
    requires
        old(db).wf(),
    ensures
        final(db).wf(),
        old(db).has_db(*old(selected_db)) ==> final(db).has_db(*final(selected_db)),
        command_effect(*old(db), *old(selected_db), *old(cmd_executed), *cmd, elapsed_millis,
            *final(db), *final(selected_db), *final(cmd_executed), r),
{
    let ghost db0 = *db;
    let ghost sel0 = *selected_db;
    match cmd {
        Command::Select(index) => {
            if *cmd_executed {
                CmdStep::Done(
                    make_error_reply("SELECT can only be called at the start of the session"),
                )
            } else {
                *cmd_executed = true;
                match execute_select_cmd(*index, db, selected_db) {
                    Ok(s) => CmdStep::Done(s),
                    Err(e) => CmdStep::Done(make_error_reply(e)),
                }
            }
        },
        Command::Get(key) => {
            *cmd_executed = true;
            match execute_get_cmd(key.clone(), db, *selected_db) {
                Ok(s) => CmdStep::Done(s),
                Err(e) => CmdStep::Done(make_error_reply(e)),
            }
        },
        Command::SetValue(key, value) => {
            *cmd_executed = true;
            match execute_set_cmd(key.clone(), value.clone(), db, *selected_db) {
                Ok(s) => CmdStep::Done(s),
                Err(e) => CmdStep::Done(make_error_reply(e)),
            }
        },
        Command::Ping(m) => {
            *cmd_executed = true;
            let msg = match m {
                Some(s) => Some(s.clone()),
                None => None,
            };
            match execute_ping_cmd(msg) {
                Ok(s) => CmdStep::Done(s),
                Err(e) => CmdStep::Done(make_error_reply(e)),
            }
        },
        Command::Exists(keys) => {
            *cmd_executed = true;
            let ks = slice_vec(keys, 0, keys.len());
            proof {
                assert(ks.deep_view() =~= keys.deep_view());
            }
            match execute_exists_cmd(ks, db, *selected_db) {
                Ok(s) => CmdStep::Done(s),
                Err(e) => CmdStep::Done(make_error_reply(e)),
            }
        },
        Command::Rpush(key, values) => {
            *cmd_executed = true;
            let vs = slice_vec(values, 0, values.len());
            proof {
                assert(vs.deep_view() =~= values.deep_view());
            }
            match execute_rpush_cmd(key.clone(), vs, db, *selected_db) {
                Ok(s) => CmdStep::Done(s),
                Err(e) => CmdStep::Done(make_error_reply(e)),
            }
        },
        Command::Lpush(key, values) => {
            *cmd_executed = true;
            let vs = slice_vec(values, 0, values.len());
            proof {
                assert(vs.deep_view() =~= values.deep_view());
            }
            match execute_lpush_cmd(key.clone(), vs, db, *selected_db) {
                Ok(s) => CmdStep::Done(s),
                Err(e) => CmdStep::Done(make_error_reply(e)),
            }
        },
        Command::BLPOP(keys, t) => {
            *cmd_executed = true;
            let step = execute_blpop_cmd(keys, *t, db, *selected_db, elapsed_millis);
            match step {
                PopStep::Done(res) => {
                    let ghost gdone = res;
                    proof {
                        assert(pop_step_spec(db0, *db, keys.deep_view(), *t, elapsed_millis,
                            false, sel0, PopStep::Done(gdone)));
                    }
                    match res {
                        Ok(s) => CmdStep::Done(s),
                        Err(e) => CmdStep::Done(make_error_reply(e)),
                    }
                },
                PopStep::Wait(d) => CmdStep::Wait(d),
            }
        },
        Command::BRPOP(keys, t) => {
            *cmd_executed = true;
            let step = execute_brpop_cmd(keys, *t, db, *selected_db, elapsed_millis);
            match step {
                PopStep::Done(res) => {
                    let ghost gdone = res;
                    proof {
                        assert(pop_step_spec(db0, *db, keys.deep_view(), *t, elapsed_millis,
                            true, sel0, PopStep::Done(gdone)));
                    }
                    match res {
                        Ok(s) => CmdStep::Done(s),
                        Err(e) => CmdStep::Done(make_error_reply(e)),
                    }
                },
                PopStep::Wait(d) => CmdStep::Wait(d),
            }
        },
    }
}

/// What RPUSH and LPUSH do to the registry and what they reply, wrapped
/// for the executor.
pub open spec fn push_effect(old_db: Registry, new_db: Registry, sel: u8, key: Seq<char>,
    values: Seq<Seq<char>>, front: bool, r: CmdStep) -> bool {
    &&& new_db.has_db(sel) == old_db.has_db(sel)
    &&& (forall|o: u8| o != sel ==> new_db.spec_db(o) == old_db.spec_db(o))
    &&& (if old_db.has_db(sel) {
        &&& new_db.db(sel).queue == old_db.db(sel).queue
        &&& (if old_db.db(sel).pushable(key) {
            let newlist = if front {
                crate::database::Database::lpush_result(old_db.db(sel).list_at(key), values)
            } else {
                crate::database::Database::rpush_result(old_db.db(sel).list_at(key), values)
            };
            &&& new_db.db(sel).store() == old_db.db(sel).store().insert(
                key,
                ValueModel::List(newlist),
            )
            &&& r matches CmdStep::Done(s) && s@ == integer_reply(newlist.len())
        } else {
            &&& new_db.db(sel).store() == old_db.db(sel).store()
            &&& r matches CmdStep::Done(s) && s@ == error_reply("Key is not a list"@)
        })
    } else {
        &&& new_db.databases@ == old_db.databases@
        &&& r matches CmdStep::Done(s) && s@ == error_reply("Database not found"@)
    })
}

/// What one poll of a blocking pop does and what the executor hands back
/// for it: the same step the engine took, with an engine error wrapped as
/// an error reply.
pub open spec fn pop_effect(old_db: Registry, new_db: Registry, sel: u8,
    keys: Seq<Seq<char>>, timeout_millis: u64, elapsed_millis: u64, from_back: bool,
    r: CmdStep) -> bool {
    match r {
        CmdStep::Wait(d) => pop_step_spec(old_db, new_db, keys, timeout_millis,
            elapsed_millis, from_back, sel, PopStep::Wait(d)),
        CmdStep::Done(s) => exists|done: Result<String, &'static str>|
            {
                &&& #[trigger] pop_step_spec(old_db, new_db, keys, timeout_millis,
                    elapsed_millis, from_back, sel, PopStep::Done(done))
                &&& s@ == (match done {
                    Ok(x) => x@,
                    Err(e) => error_reply(e@),
                })
            },
    }
}


// ---------------------------------------------------------------------------
// The per-database command queue
// ---------------------------------------------------------------------------

/// Appends the command to its target database's pending queue.
pub fn push_command(db: &mut Registry, selected_db: u8, cmd: Command)
    requires
        old(db).wf(),
        old(db).has_db(selected_db),
    ensures
        final(db).wf(),
        final(db).has_db(selected_db),
        final(db).db(selected_db).queue@ == old(db).db(selected_db).queue@.push(cmd),
        final(db).db(selected_db).store() == old(db).db(selected_db).store(),
        forall|o: u8| o != selected_db ==> final(db).spec_db(o) == old(db).spec_db(o),
{
    let mut cur = match db.take_db(selected_db) {
        Some(c) => c,
        None => unreached(),
    };
    cur.queue.push_back(cmd);
    db.put_db(selected_db, cur);
}

/// What a drain step hands back: the finished response text, or the
/// accumulated text so far with the blocking command to resume, and how
/// long to sleep first.
pub enum DrainStep {
    Done(String),
    Waiting(String, Command, u64),
}

/// A pop of the head command off the target database's queue: the queue
/// loses its first element and nothing else changes.
pub open spec fn queue_popped(pre: Registry, post: Registry, target: u8) -> bool {
    &&& post.wf()
    &&& pre.has_db(target)
    &&& post.has_db(target)
    &&& post.db(target).queue@ == pre.db(target).queue@.drop_first()
    &&& post.db(target).store() == pre.db(target).store()
    &&& (forall|o: u8| o != target ==> post.spec_db(o) == pre.spec_db(o))
}

/// What a whole drain does, folded one command at a time over the target
/// database's queue. A pending command runs first with its own elapsed
/// wait; each command then popped off the queue runs with a fresh wait,
/// and every reply is appended to `acc` in pop order, each exactly as
/// [`command_effect`] fixes it from the state the earlier commands left.
/// The drain ends with `Done` holding all the replies once the queue is
/// empty, or with `Waiting` holding the replies so far and the very
/// command that asked to wait, together with its sleep.
pub open spec fn drain_rel(pre_db: Registry, pre_sel: u8, pre_flag: bool, target: u8,
    acc: Seq<char>, pending: Option<Command>, elapsed: u64, post_db: Registry, post_sel: u8,
    post_flag: bool, r: DrainStep) -> bool
    decreases pre_db.db(target).queue@.len(), (if pending is Some {
        1int
    } else {
        0int
    }),
{
    match pending {
        Some(c) => exists|mid_db: Registry, mid_sel: u8, mid_flag: bool, step: CmdStep|
            {
                &&& #[trigger] command_effect(pre_db, pre_sel, pre_flag, c, elapsed, mid_db,
                    mid_sel, mid_flag, step)
                &&& mid_db.db(target).queue@ == pre_db.db(target).queue@
                &&& (match step {
                    CmdStep::Wait(d) => {
                        &&& r matches DrainStep::Waiting(a, c2, d2) && a@ == acc && c2 == c
                            && d2 == d
                        &&& post_db == mid_db
                        &&& post_sel == mid_sel
                        &&& post_flag == mid_flag
                    },
                    CmdStep::Done(s) => drain_rel(mid_db, mid_sel, mid_flag, target,
                        acc + s@, None, 0, post_db, post_sel, post_flag, r),
                })
            },
        None => if pre_db.db(target).queue@.len() == 0 {
            &&& r matches DrainStep::Done(s) && s@ == acc
            &&& post_sel == pre_sel
            &&& post_flag == pre_flag
            &&& post_db.has_db(target)
            &&& post_db.db(target).queue@ == pre_db.db(target).queue@
            &&& post_db.db(target).store() == pre_db.db(target).store()
            &&& (forall|o: u8| o != target ==> post_db.spec_db(o) == pre_db.spec_db(o))
        } else {
            exists|pop_db: Registry|
                {
                    &&& #[trigger] queue_popped(pre_db, pop_db, target)
                    &&& drain_rel(pop_db, pre_sel, pre_flag, target, acc,
                        Some(pre_db.db(target).queue@.first()), 0, post_db, post_sel,
                        post_flag, r)
                }
        },
    }
}

/// Pops and executes commands from the queue of database `target` until it
/// is empty, appending each reply to `acc` in pop order. A `pending`
/// command, handed back by an earlier [`DrainStep::Waiting`], runs first,
/// with `elapsed_millis` saying how long it has been waiting; commands
/// freshly popped from the queue start their own waits at zero. The
/// session handle moves with any SELECT that runs, but the queue drained
/// stays that of `target`. The whole effect, reply text included, is
/// [`drain_rel`] folded over the queue.
pub fn execute_queued_commands(target: u8, db: &mut Registry, selected_db: &mut u8,
    cmd_executed: &mut bool, pending: Option<Command>, acc: String, elapsed_millis: u64) -> (r:
    DrainStep)
    requires
        old(db).wf(),
        old(db).has_db(target),
        old(db).has_db(*old(selected_db)),
    ensures
        final(db).wf(),
        final(db).has_db(target),
        final(db).has_db(*final(selected_db)),
        drain_rel(*old(db), *old(selected_db), *old(cmd_executed), target, acc@, pending,
            elapsed_millis, *final(db), *final(selected_db), *final(cmd_executed), r),
    decreases old(db).db(target).queue@.len(), (if pending is Some {
        1int
    } else {
        0int
    }),
{
    let ghost pre_db = *db;
    let ghost pre_sel = *selected_db;
    let ghost pre_flag = *cmd_executed;
    let ghost acc0 = acc@;
    match pending {
        Some(c0) => {
            let step = execute_command(&c0, db, selected_db, cmd_executed, elapsed_millis);
            let ghost gstep = step;
            let ghost mid_db = *db;
            let ghost mid_sel = *selected_db;
            let ghost mid_flag = *cmd_executed;
            proof {
                assert(command_effect(pre_db, pre_sel, pre_flag, c0, elapsed_millis, mid_db,
                    mid_sel, mid_flag, gstep));
                assert(mid_db.db(target).queue@ == pre_db.db(target).queue@);
                assert(mid_db.has_db(target));
            }
            match step {
                CmdStep::Wait(d) => {
                    let r = DrainStep::Waiting(acc, c0, d);
                    proof {
                        assert(drain_rel(pre_db, pre_sel, pre_flag, target, acc0,
                            Some(c0), elapsed_millis, *db, *selected_db, *cmd_executed, r));
                    }
                    r
                },
                CmdStep::Done(s) => {
                    let mut acc2 = acc;
                    acc2.append(s.as_str());
                    let r = execute_queued_commands(target, db, selected_db, cmd_executed,
                        None, acc2, 0);
                    proof {
                        assert(drain_rel(mid_db, mid_sel, mid_flag, target, acc0 + s@, None,
                            0, *db, *selected_db, *cmd_executed, r));
                        assert(drain_rel(pre_db, pre_sel, pre_flag, target, acc0, Some(c0),
                            elapsed_millis, *db, *selected_db, *cmd_executed, r));
                    }
                    r
                },
            }
        },
        None => {
            let mut cur = match db.take_db(target) {
                Some(c) => c,
                None => unreached(),
            };
            let next = cur.queue.pop_front();
            db.put_db(target, cur);
            match next {
                None => {
                    proof {
                        assert(db.db(target).queue@ == pre_db.db(target).queue@);
                        assert(db.db(target).store() == pre_db.db(target).store());
                    }
                    let r = DrainStep::Done(acc);
                    proof {
                        assert(drain_rel(pre_db, pre_sel, pre_flag, target, acc0, None,
                            elapsed_millis, *db, *selected_db, *cmd_executed, r));
                    }
                    r
                },
                Some(c0) => {
                    let ghost pop_db = *db;
                    proof {
                        assert(pop_db.db(target).queue@ =~= pre_db.db(
                            target,
                        ).queue@.drop_first());
                        assert(queue_popped(pre_db, pop_db, target));
                        assert(c0 == pre_db.db(target).queue@.first());
                    }
                    let r = execute_queued_commands(target, db, selected_db, cmd_executed,
                        Some(c0), acc, 0);
                    proof {
                        assert(drain_rel(pre_db, pre_sel, pre_flag, target, acc0, None,
                            elapsed_millis, *db, *selected_db, *cmd_executed, r));
                    }
                    r
                },
            }
        },
    }
}

} // verus!
