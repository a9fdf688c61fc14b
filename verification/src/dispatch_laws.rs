//! Laws of the dispatcher: what `GET` returns after `SET`, `DEL` and
//! `FLUSHDB` behaviour, what `KEYS` lists, and case-insensitive command
//! matching.
use vstd::prelude::*;
use crate::reply::{bulk_reply, null_bulk, int_reply, array_header};
use crate::store::{
    StoreModel,
    key_index,
    model_contains,
    model_get,
    model_set,
    model_del,
    distinct_keys,
    lemma_key_index,
    lemma_key_index_first,
    lemma_key_index_none,
};
use crate::pat::{lossy_decode, glob_pat_ok, glob_match};
use crate::dispatch::{
    upper,
    cmd_eq,
    ping_name,
    set_name,
    flushdb_name,
    del_name,
    get_name,
    keys_name,
    quit_name,
    selected_keys,
    bulks_concat,
    keys_reply,
    dispatch_reply,
    dispatch_store,
    dispatch_write,
    dispatch_close,
    lemma_cmd_eq_excludes,
};

verus! {

/// After `SET k v`, the entry for `k` holds `v`.
pub proof fn lemma_model_set_get(m: StoreModel, k: Seq<u8>, v: Seq<u8>)
    requires
        distinct_keys(m),
    ensures
        model_get(model_set(m, k, v), k) == Some(v),
{
    lemma_key_index(m, k);
    let m2 = model_set(m, k, v);
    if key_index(m, k) >= 0 {
        let i = key_index(m, k);
        assert(m2[i].0 == k);
        assert forall|t: int| 0 <= t < i implies m2[t].0 != k by {
            assert(m2[t] == m[t]);
        }
        lemma_key_index_first(m2, k, i);
    } else {
        assert(m2[m.len() as int].0 == k);
        assert forall|t: int| 0 <= t < m.len() implies m2[t].0 != k by {
            assert(m2[t] == m[t]);
        }
        lemma_key_index_first(m2, k, m.len() as int);
    }
}

/// After `DEL k`, no entry for `k` remains.
pub proof fn lemma_model_del_get(m: StoreModel, k: Seq<u8>)
    requires
        distinct_keys(m),
    ensures
        !model_contains(model_del(m, k), k),
{
    lemma_key_index(m, k);
    let m2 = model_del(m, k);
    if key_index(m, k) >= 0 {
        let i = key_index(m, k);
        assert forall|t: int| 0 <= t < m2.len() implies m2[t].0 != k by {
            if t < i {
                assert(m2[t] == m[t]);
            } else {
                assert(m2[t] == m[t + 1]);
            }
        }
        lemma_key_index_none(m2, k);
    }
}

/// `GET k` after `SET k v` replies with the bulk of `v`, whatever the
/// letter case of either command word.
pub proof fn lemma_set_then_get(c0: Seq<u8>, c1: Seq<u8>, m: StoreModel, k: Seq<u8>, v: Seq<u8>)
    requires
        cmd_eq(c0, set_name()),
        cmd_eq(c1, get_name()),
        distinct_keys(m),
    ensures
        dispatch_store(seq![c0, k, v], m) == model_set(m, k, v),
        dispatch_reply(seq![c1, k], model_set(m, k, v)) == bulk_reply(v),
{
    lemma_cmd_eq_excludes(c1, get_name(), set_name());
    lemma_cmd_eq_excludes(c1, get_name(), del_name());
    lemma_model_set_get(m, k, v);
}

/// `GET k` with no entry for `k` replies with the null bulk.
pub proof fn lemma_get_missing(c1: Seq<u8>, m: StoreModel, k: Seq<u8>)
    requires
        cmd_eq(c1, get_name()),
        !model_contains(m, k),
    ensures
        dispatch_reply(seq![c1, k], m) == null_bulk(),
{
    lemma_cmd_eq_excludes(c1, get_name(), set_name());
    lemma_cmd_eq_excludes(c1, get_name(), del_name());
}

/// `GET k` right after `DEL k` replies with the null bulk.
pub proof fn lemma_del_then_get(c0: Seq<u8>, c1: Seq<u8>, m: StoreModel, k: Seq<u8>)
    requires
        cmd_eq(c0, del_name()),
        cmd_eq(c1, get_name()),
        distinct_keys(m),
    ensures
        dispatch_store(seq![c0, k], m) == model_del(m, k),
        dispatch_reply(seq![c1, k], model_del(m, k)) == null_bulk(),
{
    lemma_cmd_eq_excludes(c0, del_name(), set_name());
    lemma_model_del_get(m, k);
    lemma_get_missing(c1, model_del(m, k), k);
}

/// `DEL k` replies `:1` exactly when `k` is present, else `:0`, and in the
/// first case also reports a write.
pub proof fn lemma_del_reply(c0: Seq<u8>, m: StoreModel, k: Seq<u8>)
    requires
        cmd_eq(c0, del_name()),
    ensures
        dispatch_reply(seq![c0, k], m) == (if model_contains(m, k) {
            int_reply(1)
        } else {
            int_reply(0)
        }),
        dispatch_write(seq![c0, k], m) == model_contains(m, k),
{
    lemma_cmd_eq_excludes(c0, del_name(), set_name());
}

/// After `FLUSHDB`, every `GET` replies the null bulk and every `DEL`
/// replies `:0`.
pub proof fn lemma_flushdb(c0: Seq<u8>, c1: Seq<u8>, c2: Seq<u8>, m: StoreModel, k: Seq<u8>)
    requires
        cmd_eq(c0, flushdb_name()),
        cmd_eq(c1, get_name()),
        cmd_eq(c2, del_name()),
    ensures
        dispatch_store(seq![c0], m) == StoreModel::empty(),
        dispatch_reply(seq![c1, k], StoreModel::empty()) == null_bulk(),
        dispatch_reply(seq![c2, k], StoreModel::empty()) == int_reply(0),
{
    lemma_get_missing(c1, StoreModel::empty(), k);
    lemma_del_reply(c2, StoreModel::empty(), k);
}

/// The selected keys are exactly the stored keys whose decoding matches.
pub proof fn lemma_selected_keys_membership(m: StoreModel, p: Seq<char>)
    ensures
        forall|k: Seq<u8>|
            #[trigger] selected_keys(m, p).contains(k) <==> ((exists|i: int|
                0 <= i < m.len() && #[trigger] m[i].0 == k) && glob_match(p, lossy_decode(k))),
    decreases m.len(),
{
    if m.len() == 0 {
    } else {
        lemma_selected_keys_membership(m.skip(1), p);
        let rest = selected_keys(m.skip(1), p);
        let sel = selected_keys(m, p);
        let hit = glob_match(p, lossy_decode(m[0].0));
        assert forall|k: Seq<u8>| #[trigger] sel.contains(k) implies ((exists|i: int|
            0 <= i < m.len() && #[trigger] m[i].0 == k) && glob_match(p, lossy_decode(k))) by {
            let idx = choose|idx: int| 0 <= idx < sel.len() && sel[idx] == k;
            if hit {
                if idx == 0 {
                    assert(m[0].0 == k);
                } else {
                    assert(rest[idx - 1] == k);
                    assert(rest.contains(k));
                    let i = choose|i: int| 0 <= i < m.skip(1).len() && #[trigger] m.skip(1)[i].0
                        == k;
                    assert(m[i + 1].0 == k);
                }
            } else {
                assert(rest[idx] == k);
                assert(rest.contains(k));
                let i = choose|i: int| 0 <= i < m.skip(1).len() && #[trigger] m.skip(1)[i].0 == k;
                assert(m[i + 1].0 == k);
            }
        }
        assert forall|k: Seq<u8>| ((exists|i: int| 0 <= i < m.len() && #[trigger] m[i].0 == k)
            && glob_match(p, lossy_decode(k))) implies #[trigger] sel.contains(k) by {
            let i = choose|i: int| 0 <= i < m.len() && #[trigger] m[i].0 == k;
            if i == 0 {
                assert(sel[0] == k);
            } else {
                assert(m.skip(1)[i - 1].0 == k);
                assert(rest.contains(k));
                let j = choose|j: int| 0 <= j < rest.len() && rest[j] == k;
                if hit {
                    assert(sel[j + 1] == k);
                } else {
                    assert(sel[j] == k);
                }
            }
        }
    }
}

/// What `KEYS` lists: for a pattern that compiles, the reply is an array of
/// bulks whose elements, as a set, are exactly the keys whose decoding the
/// pattern matches. With the pattern `*`, which matches every candidate,
/// that set is the whole key set.
pub proof fn lemma_keys_reply_elements(c0: Seq<u8>, m: StoreModel, pat: Seq<u8>)
    requires
        cmd_eq(c0, keys_name()),
        glob_pat_ok(lossy_decode(pat)),
    ensures
        dispatch_reply(seq![c0, pat], m) == array_header(
            selected_keys(m, lossy_decode(pat)).len() as int,
        ) + bulks_concat(selected_keys(m, lossy_decode(pat))),
        forall|k: Seq<u8>|
            #[trigger] selected_keys(m, lossy_decode(pat)).contains(k) <==> ((exists|i: int|
                0 <= i < m.len() && #[trigger] m[i].0 == k) && glob_match(
                lossy_decode(pat),
                lossy_decode(k),
            )),
{
    lemma_cmd_eq_excludes(c0, keys_name(), ping_name());
    lemma_cmd_eq_excludes(c0, keys_name(), quit_name());
    lemma_selected_keys_membership(m, lossy_decode(pat));
}

/// Whether the command word names one of the eight commands.
pub open spec fn is_known_command(c: Seq<u8>) -> bool {
    ||| cmd_eq(c, ping_name())
    ||| cmd_eq(c, set_name())
    ||| cmd_eq(c, flushdb_name())
    ||| cmd_eq(c, del_name())
    ||| cmd_eq(c, get_name())
    ||| cmd_eq(c, keys_name())
    ||| cmd_eq(c, quit_name())
}

/// Whether the argument count fits the command named by `args[0]`.
pub open spec fn arity_ok(args: Seq<Seq<u8>>) -> bool {
    let c = args[0];
    if cmd_eq(c, ping_name()) {
        args.len() == 1 || args.len() == 2
    } else if cmd_eq(c, set_name()) {
        args.len() == 3
    } else if cmd_eq(c, flushdb_name()) {
        args.len() == 1
    } else if cmd_eq(c, del_name()) {
        args.len() == 2
    } else if cmd_eq(c, get_name()) {
        args.len() == 2
    } else if cmd_eq(c, keys_name()) {
        args.len() == 2
    } else if cmd_eq(c, quit_name()) {
        args.len() == 1
    } else {
        false
    }
}

/// Words equal up to letter case match the same command names.
pub proof fn lemma_cmd_eq_transfer(a: Seq<u8>, b: Seq<u8>, n: Seq<u8>)
    requires
        cmd_eq(a, b),
    ensures
        cmd_eq(a, n) == cmd_eq(b, n),
{
    if cmd_eq(a, n) {
        assert forall|k: int| 0 <= k < b.len() implies upper(#[trigger] b[k]) == upper(n[k]) by {
            assert(upper(a[k]) == upper(b[k]));
            assert(upper(a[k]) == upper(n[k]));
        }
    }
    if cmd_eq(b, n) {
        assert forall|k: int| 0 <= k < a.len() implies upper(#[trigger] a[k]) == upper(n[k]) by {
            assert(upper(a[k]) == upper(b[k]));
            assert(upper(b[k]) == upper(n[k]));
        }
    }
}

/// Command matching is case-insensitive: replacing the command word by one
/// equal to it up to letter case changes neither the reply, nor the store,
/// nor the write and close verdicts. (The arity must fit: an arity error
/// echoes the word itself, letter case included.)
pub proof fn lemma_dispatch_case_insensitive(args: Seq<Seq<u8>>, b: Seq<u8>, m: StoreModel)
    requires
        args.len() > 0,
        cmd_eq(args[0], b),
        is_known_command(args[0]),
        arity_ok(args),
    ensures
        dispatch_reply(args.update(0, b), m) == dispatch_reply(args, m),
        dispatch_store(args.update(0, b), m) == dispatch_store(args, m),
        dispatch_write(args.update(0, b), m) == dispatch_write(args, m),
        dispatch_close(args.update(0, b)) == dispatch_close(args),
{
    let a = args[0];
    let args2 = args.update(0, b);
    assert(args2[0] == b);
    assert(args2.len() == args.len());
    assert(forall|i: int| 1 <= i < args.len() ==> #[trigger] args2[i] == args[i]);
    lemma_cmd_eq_transfer(a, b, ping_name());
    lemma_cmd_eq_transfer(a, b, set_name());
    lemma_cmd_eq_transfer(a, b, flushdb_name());
    lemma_cmd_eq_transfer(a, b, del_name());
    lemma_cmd_eq_transfer(a, b, get_name());
    lemma_cmd_eq_transfer(a, b, keys_name());
    lemma_cmd_eq_transfer(a, b, quit_name());
}

} // verus!
