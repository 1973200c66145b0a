//! The per-command handlers: each acquires the registry only for the
//! duration of its own access and returns the RESP-style reply text.

use vstd::prelude::*;
use vstd::pervasive::unreached;

use crate::database::{Data, Database, Registry, ValueModel};
use crate::resp::{
    integer_reply, make_integer_reply, make_null_bulk_reply, make_pair_reply,
    make_simple_reply, null_bulk_reply, pair_reply, simple_reply,
};

verus! {

/// The reply GET gives over a store: the scalar at the key, or the null
/// bulk reply where the key is absent or holds a list.
pub open spec fn get_reply(store: Map<Seq<char>, ValueModel>, key: Seq<char>) -> Seq<char> {
    if store.contains_key(key) {
        match store[key] {
            ValueModel::Scalar(s) => simple_reply(s),
            ValueModel::List(_) => null_bulk_reply(),
        }
    } else {
        null_bulk_reply()
    }
}

/// How many of `keys` are present in the store, duplicates counted each
/// time they appear.
pub open spec fn count_present(store: Map<Seq<char>, ValueModel>, keys: Seq<Seq<char>>) -> nat
    decreases keys.len(),
{
    if keys.len() == 0 {
        0
    } else {
        count_present(store, keys.drop_last()) + (if store.contains_key(keys.last()) {
            1nat
        } else {
            0nat
        })
    }
}

/// SELECT: switches the session to `index`, creating that database on its
/// first use. The session rule (SELECT only before any other command) is
/// enforced by the executor, not here.
pub fn execute_select_cmd(index: u8, db: &mut Registry, selected_db: &mut u8) -> (r: Result<
    String,
    &'static str,
>)
    requires
        old(db).wf(),
    ensures
        final(db).wf(),
        *final(selected_db) == index,
        final(db).has_db(index),
        old(db).has_db(index) ==> *final(db) == *old(db),
        !old(db).has_db(index) ==> final(db).db(index).store() == Map::<
            Seq<char>,
            ValueModel,
        >::empty() && final(db).db(index).queue@ == Seq::<crate::command::Command>::empty(),
        forall|o: u8| o != index ==> final(db).spec_db(o) == old(db).spec_db(o),
        r is Ok && r->Ok_0@ == simple_reply("OK"@),
{
    *selected_db = index;
    if !db.contains_db(index) {
        db.put_db(index, Database::new());
    }
    Ok(make_simple_reply("OK"))
}

/// GET: the scalar at `key` as a simple reply, or the null bulk reply
/// where the key is absent — or holds a list, a type confusion this
/// command reports the same way as absence.
pub fn execute_get_cmd(key: String, db: &Registry, selected_db: u8) -> (r: Result<
    String,
    &'static str,
>)
    requires
        db.wf(),
    ensures
        (match r {
            Ok(s) => db.has_db(selected_db) && s@ == get_reply(db.db(selected_db).store(), key@),
            Err(e) => !db.has_db(selected_db) && e@ == "Database not found"@,
        }),
{
    match db.get_db(selected_db) {
        None => Err("Database not found"),
        Some(cur) => {
            proof {
                crate::database::lemma_reg_find_wf(db.databases@, selected_db);
            }
            match cur.get_data(&key) {
                Some(d) => match d {
                    Data::Scalar(s) => Ok(make_simple_reply(s.as_str())),
                    Data::List(_) => Ok(make_null_bulk_reply()),
                },
                None => Ok(make_null_bulk_reply()),
            }
        },
    }
}

/// SET: unconditionally stores `value` as a scalar at `key`, discarding
/// whatever was there.
pub fn execute_set_cmd(key: String, value: String, db: &mut Registry, selected_db: u8) -> (r:
    Result<String, &'static str>)
    requires
        old(db).wf(),
    ensures
        final(db).wf(),
        final(db).has_db(selected_db) == old(db).has_db(selected_db),
        forall|o: u8| o != selected_db ==> final(db).spec_db(o) == old(db).spec_db(o),
        (match r {
            Ok(s) => {
                &&& old(db).has_db(selected_db)
                &&& s@ == simple_reply("OK"@)
                &&& final(db).db(selected_db).store() == old(db).db(selected_db).store().insert(
                    key@,
                    ValueModel::Scalar(value@),
                )
                &&& final(db).db(selected_db).queue == old(db).db(selected_db).queue
            },
            Err(e) => {
                &&& !old(db).has_db(selected_db)
                &&& e@ == "Database not found"@
                &&& final(db).databases@ == old(db).databases@
            },
        }),
{
    match db.take_db(selected_db) {
        None => Err("Database not found"),
        Some(mut cur) => {
            cur.upsert(key, Data::Scalar(value));
            db.put_db(selected_db, cur);
            Ok(make_simple_reply("OK"))
        },
    }
}

/// PING: echoes the message, or answers PONG without one. Always succeeds.
pub fn execute_ping_cmd(message: Option<String>) -> (r: Result<String, &'static str>)
    ensures
        r is Ok,
        r->Ok_0@ == (match message {
            Some(m) => simple_reply(m@),
            None => simple_reply("PONG"@),
        }),
{
    match message {
        Some(msg) => Ok(make_simple_reply(msg.as_str())),
        None => Ok(make_simple_reply("PONG")),
    }
}

/// EXISTS: counts how many of the keys are present, whatever value shape
/// they hold; a key given twice counts twice.
pub fn execute_exists_cmd(keys: Vec<String>, db: &Registry, selected_db: u8) -> (r: Result<
    String,
    &'static str,
>)
    requires
        db.wf(),
    ensures
        (match r {
            Ok(s) => db.has_db(selected_db) && s@ == integer_reply(
                count_present(db.db(selected_db).store(), keys.deep_view()),
            ),
            Err(e) => !db.has_db(selected_db) && e@ == "Database not found"@,
        }),
{
    match db.get_db(selected_db) {
        None => Err("Database not found"),
        Some(cur) => {
            proof {
                crate::database::lemma_reg_find_wf(db.databases@, selected_db);
            }
            let n = keys.len();
            let mut count: usize = 0;
            let mut i: usize = 0;
            while i < n
                invariant
                    i <= n,
                    n == keys.len(),
                    cur.wf(),
                    db.wf(),
                    db.spec_db(selected_db) == Some(*cur),
                    count <= i,
                    count == count_present(cur.store(), keys.deep_view().take(i as int)),
                decreases n - i,
            {
                proof {
                    let dv = keys.deep_view();
                    assert(dv.take(i + 1).drop_last() =~= dv.take(i as int));
                    assert(dv.take(i + 1).last() == dv[i as int]);
                    assert(dv[i as int] == keys@[i as int]@);
                }
                if cur.get_data(&keys[i]).is_some() {
                    count = count + 1;
                }
                i = i + 1;
            }
            proof {
                assert(keys.deep_view().take(n as int) =~= keys.deep_view());
            }
            Ok(make_integer_reply(count))
        },
    }
}

/// The shared body of RPUSH and LPUSH: appends `values` to the list at
/// `key` (at the tail in order, or at the head one by one) and replies
/// with the resulting length. A key holding a scalar refuses the push.
fn execute_push_cmd(key: String, values: Vec<String>, db: &mut Registry, selected_db: u8,
    front: bool) -> (r: Result<String, &'static str>)
    requires
        old(db).wf(),
    ensures
        final(db).wf(),
        final(db).has_db(selected_db) == old(db).has_db(selected_db),
        forall|o: u8| o != selected_db ==> final(db).spec_db(o) == old(db).spec_db(o),
        old(db).has_db(selected_db) ==> final(db).db(selected_db).queue == old(db).db(
            selected_db,
        ).queue,
        r is Ok <==> old(db).has_db(selected_db) && old(db).db(selected_db).pushable(key@),
        (match r {
            Ok(s) => {
                let newlist = if front {
                    Database::lpush_result(
                        old(db).db(selected_db).list_at(key@),
                        values.deep_view(),
                    )
                } else {
                    Database::rpush_result(
                        old(db).db(selected_db).list_at(key@),
                        values.deep_view(),
                    )
                };
                &&& old(db).has_db(selected_db)
                &&& old(db).db(selected_db).pushable(key@)
                &&& s@ == integer_reply(newlist.len())
                &&& final(db).db(selected_db).store() == old(db).db(
                    selected_db,
                ).store().insert(key@, ValueModel::List(newlist))
            },
            Err(e) => {
                &&& (e@ == "Database not found"@ <==> !old(db).has_db(selected_db))
                &&& (e@ == "Key is not a list"@ <==> old(db).has_db(selected_db) && !old(
                    db,
                ).db(selected_db).pushable(key@))
                &&& old(db).has_db(selected_db) ==> final(db).db(selected_db).store() == old(
                    db,
                ).db(selected_db).store()
                &&& !old(db).has_db(selected_db) ==> final(db).databases@ == old(db).databases@
            },
        }),
{
    proof {
        reveal_strlit("Database not found");
        reveal_strlit("Key is not a list");
    }
    match db.take_db(selected_db) {
        None => {
            proof {
                assert("Database not found"@.len() == 18);
                assert("Key is not a list"@.len() == 17);
            }
            Err("Database not found")
        },
        Some(mut cur) => {
            let r = cur.push_list(&key, &values, front);
            db.put_db(selected_db, cur);
            match r {
                Ok(len) => Ok(make_integer_reply(len)),
                Err(e) => {
                    proof {
                        assert("Database not found"@.len() == 18);
                        assert("Key is not a list"@.len() == 17);
                        assert(e@ != "Database not found"@);
                    }
                    Err(e)
                },
            }
        },
    }
}

/// RPUSH: appends the values at the tail, in the given order.
pub fn execute_rpush_cmd(key: String, values: Vec<String>, db: &mut Registry,
    selected_db: u8) -> (r: Result<String, &'static str>)
    requires
        old(db).wf(),
    ensures
        final(db).wf(),
        final(db).has_db(selected_db) == old(db).has_db(selected_db),
        forall|o: u8| o != selected_db ==> final(db).spec_db(o) == old(db).spec_db(o),
        old(db).has_db(selected_db) ==> final(db).db(selected_db).queue == old(db).db(
            selected_db,
        ).queue,
        r is Ok <==> old(db).has_db(selected_db) && old(db).db(selected_db).pushable(key@),
        (match r {
            Ok(s) => {
                let newlist = Database::rpush_result(
                    old(db).db(selected_db).list_at(key@),
                    values.deep_view(),
                );
                &&& old(db).has_db(selected_db)
                &&& old(db).db(selected_db).pushable(key@)
                &&& s@ == integer_reply(newlist.len())
                &&& final(db).db(selected_db).store() == old(db).db(
                    selected_db,
                ).store().insert(key@, ValueModel::List(newlist))
            },
            Err(e) => {
                &&& (e@ == "Database not found"@ <==> !old(db).has_db(selected_db))
                &&& (e@ == "Key is not a list"@ <==> old(db).has_db(selected_db) && !old(
                    db,
                ).db(selected_db).pushable(key@))
                &&& old(db).has_db(selected_db) ==> final(db).db(selected_db).store() == old(
                    db,
                ).db(selected_db).store()
                &&& !old(db).has_db(selected_db) ==> final(db).databases@ == old(db).databases@
            },
        }),
{
    execute_push_cmd(key, values, db, selected_db, false)
}

/// LPUSH: pushes the values at the head one at a time, so they end up in
/// reverse of the given order.
pub fn execute_lpush_cmd(key: String, values: Vec<String>, db: &mut Registry,
    selected_db: u8) -> (r: Result<String, &'static str>)
    requires
        old(db).wf(),
    ensures
        final(db).wf(),
        final(db).has_db(selected_db) == old(db).has_db(selected_db),
        forall|o: u8| o != selected_db ==> final(db).spec_db(o) == old(db).spec_db(o),
        old(db).has_db(selected_db) ==> final(db).db(selected_db).queue == old(db).db(
            selected_db,
        ).queue,
        r is Ok <==> old(db).has_db(selected_db) && old(db).db(selected_db).pushable(key@),
        (match r {
            Ok(s) => {
                let newlist = Database::lpush_result(
                    old(db).db(selected_db).list_at(key@),
                    values.deep_view(),
                );
                &&& old(db).has_db(selected_db)
                &&& old(db).db(selected_db).pushable(key@)
                &&& s@ == integer_reply(newlist.len())
                &&& final(db).db(selected_db).store() == old(db).db(
                    selected_db,
                ).store().insert(key@, ValueModel::List(newlist))
            },
            Err(e) => {
                &&& (e@ == "Database not found"@ <==> !old(db).has_db(selected_db))
                &&& (e@ == "Key is not a list"@ <==> old(db).has_db(selected_db) && !old(
                    db,
                ).db(selected_db).pushable(key@))
                &&& old(db).has_db(selected_db) ==> final(db).db(selected_db).store() == old(
                    db,
                ).db(selected_db).store()
                &&& !old(db).has_db(selected_db) ==> final(db).databases@ == old(db).databases@
            },
        }),
{
    execute_push_cmd(key, values, db, selected_db, true)
}


// ---------------------------------------------------------------------------
// The blocking pop engine
// ---------------------------------------------------------------------------

/// Index of the first candidate key that holds a non-empty list.
pub open spec fn first_ready(d: Database, keys: Seq<Seq<char>>) -> Option<int>
    decreases keys.len(),
{
    if keys.len() == 0 {
        None
    } else if d.list_ready(keys[0]) {
        Some(0)
    } else {
        match first_ready(d, keys.drop_first()) {
            None => None,
            Some(i) => Some(i + 1),
        }
    }
}

pub proof fn lemma_first_ready_at(d: Database, keys: Seq<Seq<char>>, i: int)
    requires
        0 <= i < keys.len(),
        d.list_ready(keys[i]),
        forall|j: int| 0 <= j < i ==> !d.list_ready(#[trigger] keys[j]),
    ensures
        first_ready(d, keys) == Some(i),
    decreases i,
{
    if i > 0 {
        assert forall|j: int| 0 <= j < i - 1 implies !d.list_ready(
            #[trigger] keys.drop_first()[j],
        ) by {
            assert(keys.drop_first()[j] == keys[j + 1]);
        }
        assert(keys.drop_first()[i - 1] == keys[i]);
        lemma_first_ready_at(d, keys.drop_first(), i - 1);
    }
}

pub proof fn lemma_first_ready_none(d: Database, keys: Seq<Seq<char>>)
    requires
        forall|j: int| 0 <= j < keys.len() ==> !d.list_ready(#[trigger] keys[j]),
    ensures
        first_ready(d, keys) is None,
    decreases keys.len(),
{
    if keys.len() > 0 {
        assert forall|j: int| 0 <= j < keys.drop_first().len() implies !d.list_ready(
            #[trigger] keys.drop_first()[j],
        ) by {
            assert(keys.drop_first()[j] == keys[j + 1]);
        }
        lemma_first_ready_none(d, keys.drop_first());
    }
}

/// What one scan of the candidate keys does to the selected database and
/// what it returns: pops from the first key holding a non-empty list and
/// replies with the key and the value, or touches nothing.
pub open spec fn pop_attempt_spec(old_db: Registry, new_db: Registry, keys: Seq<Seq<char>>,
    from_back: bool, selected_db: u8, r: Result<Option<String>, &'static str>) -> bool {
    &&& new_db.has_db(selected_db) == old_db.has_db(selected_db)
    &&& (forall|o: u8| o != selected_db ==> new_db.spec_db(o) == old_db.spec_db(o))
    &&& (old_db.has_db(selected_db) ==> new_db.db(selected_db).queue == old_db.db(
        selected_db,
    ).queue)
    &&& (match r {
        Err(e) => !old_db.has_db(selected_db) && e@ == "Database not found"@
            && new_db.databases@ == old_db.databases@,
        Ok(None) => {
            &&& old_db.has_db(selected_db)
            &&& first_ready(old_db.db(selected_db), keys) is None
            &&& new_db.db(selected_db).store() == old_db.db(selected_db).store()
        },
        Ok(Some(reply)) => {
            &&& old_db.has_db(selected_db)
            &&& first_ready(old_db.db(selected_db), keys) is Some
            &&& {
                let i = first_ready(old_db.db(selected_db), keys)->Some_0;
                let k = keys[i];
                let l = old_db.db(selected_db).list_at(k);
                &&& reply@ == pair_reply(
                    k,
                    if from_back {
                        l.last()
                    } else {
                        l.first()
                    },
                )
                &&& new_db.db(selected_db).store() == old_db.db(selected_db).store().insert(
                    k,
                    ValueModel::List(
                        if from_back {
                            l.drop_last()
                        } else {
                            l.drop_first()
                        },
                    ),
                )
            }
        },
    })
}

/// One scan over the candidate keys, in order: pops one element from the
/// first key that holds a non-empty list and replies `(key, value)`;
/// yields nothing, and changes nothing, where no key is ready.
#[verifier::loop_isolation(false)]
pub fn execute_pop_attempt(keys: &Vec<String>, from_back: bool, db: &mut Registry,
    selected_db: u8) -> (r: Result<Option<String>, &'static str>)
    requires
        old(db).wf(),
    ensures
        final(db).wf(),
        pop_attempt_spec(*old(db), *final(db), keys.deep_view(), from_back, selected_db, r),
{
    match db.take_db(selected_db) {
        None => Err("Database not found"),
        Some(mut cur) => {
            let ghost cur0 = cur;
            let ghost dbt = *db;
            let n = keys.len();
            let mut i: usize = 0;
            while i < n
                invariant
                    i <= n,
                    n == keys.len(),
                    *db == dbt,
                    cur == cur0,
                    cur0.wf(),
                    forall|j: int|
                        0 <= j < i ==> !cur0.list_ready(#[trigger] keys.deep_view()[j]),
                decreases n - i,
            {
                let ready = match cur.get_data(&keys[i]) {
                    Some(d) => match d {
                        Data::List(l) => l.len() > 0,
                        Data::Scalar(_) => false,
                    },
                    None => false,
                };
                proof {
                    assert(keys.deep_view()[i as int] == keys@[i as int]@);
                    assert(ready == cur0.list_ready(keys.deep_view()[i as int]));
                }
                if ready {
                    let v = match cur.pop_list(&keys[i], from_back) {
                        Some(v) => v,
                        None => unreached(),
                    };
                    let reply = make_pair_reply(keys[i].as_str(), v.as_str());
                    db.put_db(selected_db, cur);
                    proof {
                        lemma_first_ready_at(cur0, keys.deep_view(), i as int);
                    }
                    return Ok(Some(reply));
                }
                i = i + 1;
            }
            db.put_db(selected_db, cur);
            proof {
                lemma_first_ready_none(cur0, keys.deep_view());
            }
            Ok(None)
        },
    }
}

/// One poll step of a blocking pop: either the command is done, with its
/// reply or error, or the caller should sleep for the returned number of
/// milliseconds and poll again.
pub enum PopStep {
    Done(Result<String, &'static str>),
    Wait(u64),
}

/// What one poll of a blocking pop does: a ready key is popped and
/// answered at once; otherwise an elapsed wait of at least the timeout
/// fails with Timeout, and anything less waits one poll interval more
/// (or just the remainder of the timeout, where that is shorter). A
/// timeout of zero therefore means one scan and an almost immediate
/// failure, never a wait without bound.
pub open spec fn pop_step_spec(old_db: Registry, new_db: Registry, keys: Seq<Seq<char>>,
    timeout_millis: u64, elapsed_millis: u64, from_back: bool, selected_db: u8,
    r: PopStep) -> bool {
    match r {
        PopStep::Done(done) => match done {
            Err(e) => if e@ == "Timeout"@ {
                &&& old_db.has_db(selected_db)
                &&& first_ready(old_db.db(selected_db), keys) is None
                &&& elapsed_millis >= timeout_millis
                &&& pop_attempt_spec(old_db, new_db, keys, from_back, selected_db, Ok(None))
            } else {
                pop_attempt_spec(old_db, new_db, keys, from_back, selected_db, Err(e))
            },
            Ok(reply) => pop_attempt_spec(
                old_db,
                new_db,
                keys,
                from_back,
                selected_db,
                Ok(Some(reply)),
            ),
        },
        PopStep::Wait(delay) => {
            &&& pop_attempt_spec(old_db, new_db, keys, from_back, selected_db, Ok(None))
            &&& elapsed_millis < timeout_millis
            &&& delay == (if timeout_millis - elapsed_millis < crate::POLL_INTERVAL_MILLIS {
                timeout_millis - elapsed_millis
            } else {
                crate::POLL_INTERVAL_MILLIS as int
            })
        },
    }
}

/// The algorithm the two blocking pops share, one poll per call: scan the
/// keys in order, pop from the first ready list, and otherwise decide
/// between failing with Timeout and waiting another interval. The caller
/// performs the sleep between polls and reports how long the command has
/// been waiting.
pub fn execute_pop_step(keys: &Vec<String>, timeout_millis: u64, db: &mut Registry,
    selected_db: u8, elapsed_millis: u64, from_back: bool) -> (r: PopStep)
    requires
        old(db).wf(),
    ensures
        final(db).wf(),
        pop_step_spec(*old(db), *final(db), keys.deep_view(), timeout_millis, elapsed_millis,
            from_back, selected_db, r),
{
    proof {
        reveal_strlit("Timeout");
        reveal_strlit("Database not found");
    }
    match execute_pop_attempt(keys, from_back, db, selected_db) {
        Err(e) => {
            proof {
                assert("Timeout"@.len() == 7);
                assert("Database not found"@.len() == 18);
                assert(e@ != "Timeout"@);
            }
            PopStep::Done(Err(e))
        },
        Ok(Some(reply)) => PopStep::Done(Ok(reply)),
        Ok(None) => if elapsed_millis >= timeout_millis {
            PopStep::Done(Err("Timeout"))
        } else {
            let remaining = timeout_millis - elapsed_millis;
            if remaining < crate::POLL_INTERVAL_MILLIS {
                PopStep::Wait(remaining)
            } else {
                PopStep::Wait(crate::POLL_INTERVAL_MILLIS)
            }
        },
    }
}

/// BLPOP, one poll per call: pops from the head of the first candidate
/// key holding a non-empty list.
pub fn execute_blpop_cmd(keys: &Vec<String>, timeout_millis: u64, db: &mut Registry,
    selected_db: u8, elapsed_millis: u64) -> (r: PopStep)
    requires
        old(db).wf(),
    ensures
        final(db).wf(),
        pop_step_spec(*old(db), *final(db), keys.deep_view(), timeout_millis, elapsed_millis,
            false, selected_db, r),
{
    execute_pop_step(keys, timeout_millis, db, selected_db, elapsed_millis, false)
}

/// BRPOP, one poll per call: pops from the tail of the first candidate
/// key holding a non-empty list.
pub fn execute_brpop_cmd(keys: &Vec<String>, timeout_millis: u64, db: &mut Registry,
    selected_db: u8, elapsed_millis: u64) -> (r: PopStep)
    requires
        old(db).wf(),
    ensures
        final(db).wf(),
        pop_step_spec(*old(db), *final(db), keys.deep_view(), timeout_millis, elapsed_millis,
            true, selected_db, r),
{
    execute_pop_step(keys, timeout_millis, db, selected_db, elapsed_millis, true)
}

} // verus!
