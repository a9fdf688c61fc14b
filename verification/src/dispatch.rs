//! The command dispatcher: case-insensitive command matching, arity checks,
//! and execution of one command against the store. `handle_command` returns
//! the reply bytes, whether the store was written, and whether the
//! connection must close, exactly as the `dispatch_*` functions describe.
use vstd::prelude::*;
use vstd::string::StringSliceAdditionalSpecFns;
use crate::codec::views_of;
use crate::codec::lemma_views_of_push;
use crate::reply::{
    bulk_reply,
    null_bulk,
    simple_reply,
    int_reply,
    array_header,
    safe_line,
    str_bytes_vec,
    append_bytes,
    safe_line_from_slice,
    make_bulk,
    make_array,
    make_null_bulk,
};
use crate::store::{
    Store,
    StoreModel,
    model_contains,
    model_get,
    model_set,
    model_del,
    distinct_keys,
};
use crate::pat::{lossy_decode, glob_pat_ok, glob_match, lossy_string, compile_pattern,
    pattern_matches};

verus! {

/// ASCII case folding: the matcher treats `a..z` as `A..Z`.
pub open spec fn upper(b: u8) -> u8 {
    if 97 <= b <= 122 {
        (b - 32) as u8
    } else {
        b
    }
}

/// Case-insensitive equality of a command word with a command name.
pub open spec fn cmd_eq(a: Seq<u8>, name: Seq<u8>) -> bool {
    a.len() == name.len() && (forall|k: int| 0 <= k < a.len() ==> upper(#[trigger] a[k]) == upper(
        name[k],
    ))
}

pub open spec fn ping_name() -> Seq<u8> {
    seq![80u8, 73u8, 78u8, 71u8]
}

pub open spec fn set_name() -> Seq<u8> {
    seq![83u8, 69u8, 84u8]
}

pub open spec fn flushdb_name() -> Seq<u8> {
    seq![70u8, 76u8, 85u8, 83u8, 72u8, 68u8, 66u8]
}

pub open spec fn del_name() -> Seq<u8> {
    seq![68u8, 69u8, 76u8]
}

pub open spec fn get_name() -> Seq<u8> {
    seq![71u8, 69u8, 84u8]
}

pub open spec fn keys_name() -> Seq<u8> {
    seq![75u8, 69u8, 89u8, 83u8]
}

pub open spec fn quit_name() -> Seq<u8> {
    seq![81u8, 85u8, 73u8, 84u8]
}

pub open spec fn pong_text() -> Seq<u8> {
    seq![80u8, 79u8, 78u8, 71u8]
}

pub open spec fn ok_text() -> Seq<u8> {
    seq![79u8, 75u8]
}

pub open spec fn arity_err(cmd: Seq<u8>) -> Seq<u8> {
    "-ERR wrong number of arguments for '".spec_bytes() + safe_line(cmd)
        + "' command\r\n".spec_bytes()
}

pub open spec fn unknown_err(cmd: Seq<u8>) -> Seq<u8> {
    "-ERR unknown command '".spec_bytes() + safe_line(cmd) + "'\r\n".spec_bytes()
}

/// The keys whose lossy decoding matches the decoded pattern `p`, in store
/// order.
pub open spec fn selected_keys(m: StoreModel, p: Seq<char>) -> Seq<Seq<u8>>
    decreases m.len(),
{
    if m.len() == 0 {
        Seq::empty()
    } else {
        let rest = selected_keys(m.skip(1), p);
        if glob_match(p, lossy_decode(m[0].0)) {
            seq![m[0].0] + rest
        } else {
            rest
        }
    }
}

pub open spec fn bulks_concat(ks: Seq<Seq<u8>>) -> Seq<u8>
    decreases ks.len(),
{
    if ks.len() == 0 {
        Seq::empty()
    } else {
        bulk_reply(ks[0]) + bulks_concat(ks.skip(1))
    }
}

/// The `KEYS` reply: an array of the matching keys, or the null bulk when
/// the pattern does not compile.
pub open spec fn keys_reply(m: StoreModel, pat: Seq<u8>) -> Seq<u8> {
    if glob_pat_ok(lossy_decode(pat)) {
        array_header(selected_keys(m, lossy_decode(pat)).len() as int) + bulks_concat(
            selected_keys(m, lossy_decode(pat)),
        )
    } else {
        null_bulk()
    }
}

/// The reply to one command, given the store contents it runs against.
pub open spec fn dispatch_reply(args: Seq<Seq<u8>>, m: StoreModel) -> Seq<u8> {
    let c = args[0];
    if cmd_eq(c, ping_name()) {
        if args.len() == 1 {
            simple_reply(pong_text())
        } else if args.len() == 2 {
            bulk_reply(args[1])
        } else {
            arity_err(c)
        }
    } else if cmd_eq(c, set_name()) {
        if args.len() == 3 {
            simple_reply(ok_text())
        } else {
            arity_err(c)
        }
    } else if cmd_eq(c, flushdb_name()) {
        if args.len() == 1 {
            simple_reply(ok_text())
        } else {
            arity_err(c)
        }
    } else if cmd_eq(c, del_name()) {
        if args.len() == 2 {
            if model_contains(m, args[1]) {
                int_reply(1)
            } else {
                int_reply(0)
            }
        } else {
            arity_err(c)
        }
    } else if cmd_eq(c, get_name()) {
        if args.len() == 2 {
            match model_get(m, args[1]) {
                Some(v) => bulk_reply(v),
                None => null_bulk(),
            }
        } else {
            arity_err(c)
        }
    } else if cmd_eq(c, keys_name()) {
        if args.len() == 2 {
            keys_reply(m, args[1])
        } else {
            arity_err(c)
        }
    } else if cmd_eq(c, quit_name()) {
        if args.len() == 1 {
            simple_reply(ok_text())
        } else {
            arity_err(c)
        }
    } else {
        unknown_err(c)
    }
}

/// The store contents after one command.
pub open spec fn dispatch_store(args: Seq<Seq<u8>>, m: StoreModel) -> StoreModel {
    let c = args[0];
    if cmd_eq(c, set_name()) && args.len() == 3 {
        model_set(m, args[1], args[2])
    } else if cmd_eq(c, flushdb_name()) && args.len() == 1 {
        StoreModel::empty()
    } else if cmd_eq(c, del_name()) && args.len() == 2 {
        model_del(m, args[1])
    } else {
        m
    }
}

/// Whether the command wrote to the store.
pub open spec fn dispatch_write(args: Seq<Seq<u8>>, m: StoreModel) -> bool {
    let c = args[0];
    if cmd_eq(c, set_name()) && args.len() == 3 {
        true
    } else if cmd_eq(c, flushdb_name()) && args.len() == 1 {
        true
    } else if cmd_eq(c, del_name()) && args.len() == 2 {
        model_contains(m, args[1])
    } else {
        false
    }
}

/// Whether the command asks the connection to close (`QUIT`).
pub open spec fn dispatch_close(args: Seq<Seq<u8>>) -> bool {
    cmd_eq(args[0], quit_name()) && args.len() == 1
}

/// Two command names that differ in their first letter cannot both match.
pub proof fn lemma_cmd_eq_excludes(a: Seq<u8>, n1: Seq<u8>, n2: Seq<u8>)
    requires
        cmd_eq(a, n1),
        n1.len() > 0,
        n2.len() > 0,
        upper(n1[0]) != upper(n2[0]),
    ensures
        !cmd_eq(a, n2),
{
    if cmd_eq(a, n2) {
        assert(upper(a[0]) == upper(n1[0]));
        assert(upper(a[0]) == upper(n2[0]));
    }
}

fn upper_byte(b: u8) -> (r: u8)
    ensures
        r == upper(b),
{
    if 97 <= b && b <= 122 {
        b - 32
    } else {
        b
    }
}

/// Case-insensitive comparison of a command word with a command name.
pub fn arg_match(arg: &Vec<u8>, what: &Vec<u8>) -> (r: bool)
    ensures
        r == cmd_eq(arg@, what@),
{
    if arg.len() != what.len() {
        return false;
    }
    let mut k: usize = 0;
    while k < arg.len()
        invariant
            k <= arg.len(),
            arg.len() == what.len(),
            forall|t: int| 0 <= t < k ==> upper(#[trigger] arg@[t]) == upper(what@[t]),
        decreases arg.len() - k,
    {
        if upper_byte(arg[k]) != upper_byte(what[k]) {
            return false;
        }
        k = k + 1;
    }
    true
}

/// The arity-mismatch error reply for command word `cmd`.
pub fn invalid_num_args(cmd: &Vec<u8>) -> (r: Vec<u8>)
    ensures
        r@ == arity_err(cmd@),
{
    let mut v = str_bytes_vec("-ERR wrong number of arguments for '");
    let s = safe_line_from_slice(cmd);
    append_bytes(&mut v, &s);
    let tail = str_bytes_vec("' command\r\n");
    append_bytes(&mut v, &tail);
    v
}

fn unknown_cmd_reply(cmd: &Vec<u8>) -> (r: Vec<u8>)
    ensures
        r@ == unknown_err(cmd@),
{
    let mut v = str_bytes_vec("-ERR unknown command '");
    let s = safe_line_from_slice(cmd);
    append_bytes(&mut v, &s);
    let tail = str_bytes_vec("'\r\n");
    append_bytes(&mut v, &tail);
    v
}

/// The `KEYS` reply for a pattern that compiled.
fn run_keys(store: &Store, pat: &Vec<u8>) -> (r: Vec<u8>)
    ensures
        r@ == keys_reply(store@, pat@),
{
    let pstr = lossy_string(pat);
    match compile_pattern(pstr.as_str()) {
        None => make_null_bulk(),
        Some(cp) => {
            let ghost p = lossy_decode(pat@);
            let mut sel: Vec<Vec<u8>> = Vec::new();
            let n = store.len();
            let mut idx: usize = 0;
            proof {
                assert(views_of(sel@) =~= Seq::<Seq<u8>>::empty());
                assert(store@.skip(0) =~= store@);
                assert(Seq::<Seq<u8>>::empty() + selected_keys(store@, p) =~= selected_keys(
                    store@,
                    p,
                ));
            }
            while idx < n
                invariant
                    idx <= n == store@.len(),
                    cp.src() == p,
                    selected_keys(store@, p) == views_of(sel@) + selected_keys(
                        store@.skip(idx as int),
                        p,
                    ),
                decreases n - idx,
            {
                let ghost tail = store@.skip(idx as int);
                proof {
                    assert(tail[0] == store@[idx as int]);
                    assert(tail.skip(1) =~= store@.skip(idx as int + 1));
                }
                let key = store.key_at(idx);
                let kstr = lossy_string(&key);
                if pattern_matches(&cp, kstr.as_str()) {
                    let ghost prev = views_of(sel@);
                    proof {
                        lemma_views_of_push(sel@, key);
                        assert(prev + (seq![store@[idx as int].0] + selected_keys(
                            store@.skip(idx as int + 1),
                            p,
                        )) =~= prev.push(store@[idx as int].0) + selected_keys(
                            store@.skip(idx as int + 1),
                            p,
                        ));
                    }
                    sel.push(key);
                } else {
                }
                idx = idx + 1;
            }
            proof {
                assert(store@.skip(n as int) =~= StoreModel::empty());
                assert(views_of(sel@) + Seq::<Seq<u8>>::empty() =~= views_of(sel@));
            }
            let ghost selv = selected_keys(store@, p);
            let mut out = make_array(sel.len());
            let mut t: usize = 0;
            proof {
                assert(selv.skip(0) =~= selv);
            }
            while t < sel.len()
                invariant
                    t <= sel.len(),
                    selv == views_of(sel@),
                    out@ + bulks_concat(selv.skip(t as int)) == array_header(selv.len() as int)
                        + bulks_concat(selv),
                decreases sel.len() - t,
            {
                let ghost tail = selv.skip(t as int);
                proof {
                    assert(tail[0] == selv[t as int]);
                    assert(tail.skip(1) =~= selv.skip(t as int + 1));
                    assert(selv[t as int] == sel@[t as int]@);
                }
                let bk = make_bulk(&sel[t]);
                let ghost prev_out = out@;
                append_bytes(&mut out, &bk);
                proof {
                    assert((prev_out + bk@) + bulks_concat(selv.skip(t as int + 1)) =~= prev_out
                        + (bulk_reply(selv[t as int]) + bulks_concat(selv.skip(t as int + 1))));
                }
                t = t + 1;
            }
            proof {
                assert(selv.skip(sel@.len() as int) =~= Seq::<Seq<u8>>::empty());
                assert(out@ + Seq::<u8>::empty() =~= out@);
            }
            out
        },
    }
}

/// Runs one parsed command against the store. Returns the reply bytes,
/// whether the store was written, and whether the connection must close.
pub fn handle_command(args: &Vec<Vec<u8>>, store: &mut Store) -> (r: (Vec<u8>, bool, bool))
    requires
        args.len() > 0,
        distinct_keys(old(store)@),
    ensures
        r.0@ == dispatch_reply(views_of(args@), old(store)@),
        final(store)@ == dispatch_store(views_of(args@), old(store)@),
        r.1 == dispatch_write(views_of(args@), old(store)@),
        r.2 == dispatch_close(views_of(args@)),
        distinct_keys(final(store)@),
{
    let cmd = &args[0];
    proof {
        assert(forall|i: int| 0 <= i < args@.len() ==> views_of(args@)[i] == #[trigger] args@[i]@);
        assert(views_of(args@)[0] == args@[0]@);
        assert(cmd@ == args@[0]@);
    }
    let ping: Vec<u8> = vec![80u8, 73u8, 78u8, 71u8];
    let set: Vec<u8> = vec![83u8, 69u8, 84u8];
    let flushdb: Vec<u8> = vec![70u8, 76u8, 85u8, 83u8, 72u8, 68u8, 66u8];
    let del: Vec<u8> = vec![68u8, 69u8, 76u8];
    let get: Vec<u8> = vec![71u8, 69u8, 84u8];
    let keys: Vec<u8> = vec![75u8, 69u8, 89u8, 83u8];
    let quit: Vec<u8> = vec![81u8, 85u8, 73u8, 84u8];
    if arg_match(cmd, &ping) {
        proof {
            lemma_cmd_eq_excludes(args@[0]@, ping_name(), quit_name());
        }
        if args.len() == 1 {
            let v: Vec<u8> = vec![43u8, 80u8, 79u8, 78u8, 71u8, 13u8, 10u8];
            proof {
                assert(v@ =~= simple_reply(pong_text()));
            }
            (v, false, false)
        } else if args.len() == 2 {
            let m = &args[1];
            proof {
                assert(views_of(args@)[1] == args@[1]@ && m@ == args@[1]@);
            }
            (make_bulk(m), false, false)
        } else {
            (invalid_num_args(cmd), false, false)
        }
    } else if arg_match(cmd, &set) {
        proof {
            lemma_cmd_eq_excludes(args@[0]@, set_name(), del_name());
        }
        if args.len() == 3 {
            let k = &args[1];
            let v = &args[2];
            proof {
                assert(views_of(args@)[1] == args@[1]@ && k@ == args@[1]@);
                assert(views_of(args@)[2] == args@[2]@ && v@ == args@[2]@);
            }
            store.set(k, v);
            let v: Vec<u8> = vec![43u8, 79u8, 75u8, 13u8, 10u8];
            proof {
                assert(v@ =~= simple_reply(ok_text()));
            }
            (v, true, false)
        } else {
            (invalid_num_args(cmd), false, false)
        }
    } else if arg_match(cmd, &flushdb) {
        if args.len() == 1 {
            store.clear();
            let v: Vec<u8> = vec![43u8, 79u8, 75u8, 13u8, 10u8];
            proof {
                assert(v@ =~= simple_reply(ok_text()));
            }
            (v, true, false)
        } else {
            (invalid_num_args(cmd), false, false)
        }
    } else if arg_match(cmd, &del) {
        if args.len() == 2 {
            let key = &args[1];
            proof {
                assert(views_of(args@)[1] == args@[1]@);
                assert(key@ == args@[1]@);
            }
            let had = store.del(key);
            if had {
                let v: Vec<u8> = vec![58u8, 49u8, 13u8, 10u8];
                proof {
                    assert(v@ =~= int_reply(1));
                }
                (v, true, false)
            } else {
                let v: Vec<u8> = vec![58u8, 48u8, 13u8, 10u8];
                proof {
                    assert(v@ =~= int_reply(0));
                }
                (v, false, false)
            }
        } else {
            (invalid_num_args(cmd), false, false)
        }
    } else if arg_match(cmd, &get) {
        proof {
            lemma_cmd_eq_excludes(args@[0]@, get_name(), set_name());
            lemma_cmd_eq_excludes(args@[0]@, get_name(), del_name());
        }
        if args.len() == 2 {
            let k = &args[1];
            proof {
                assert(views_of(args@)[1] == args@[1]@ && k@ == args@[1]@);
            }
            match store.get(k) {
                Some(v) => (make_bulk(&v), false, false),
                None => (make_null_bulk(), false, false),
            }
        } else {
            (invalid_num_args(cmd), false, false)
        }
    } else if arg_match(cmd, &keys) {
        proof {
            lemma_cmd_eq_excludes(args@[0]@, keys_name(), quit_name());
        }
        if args.len() == 2 {
            let p = &args[1];
            proof {
                assert(views_of(args@)[1] == args@[1]@ && p@ == args@[1]@);
            }
            let out = run_keys(store, p);
            (out, false, false)
        } else {
            (invalid_num_args(cmd), false, false)
        }
    } else if arg_match(cmd, &quit) {
        if args.len() == 1 {
            let v: Vec<u8> = vec![43u8, 79u8, 75u8, 13u8, 10u8];
            proof {
                assert(v@ =~= simple_reply(ok_text()));
            }
            (v, false, true)
        } else {
            (invalid_num_args(cmd), false, false)
        }
    } else {
        (unknown_cmd_reply(cmd), false, false)
    }
}

} // verus!
