//! Command execution: the dispatch step between a decoded command and the
//! keyspace store, producing the reply value to encode.
use vstd::prelude::*;

use crate::command::{Command, CommandView};
use crate::resp::{Reply, ReplyView};
use crate::store::{
    config_lookup, get_post, get_result, keys_list_ok, prune, ConfigView, Database, EntryView,
};

verus! {

/// The bytes of `PONG`.
pub open spec fn pong_text() -> Seq<u8> {
    seq![80u8, 79u8, 78u8, 71u8]
}

/// The bytes of `OK`.
pub open spec fn ok_text() -> Seq<u8> {
    seq![79u8, 75u8]
}

/// The bytes of `unknown command`.
pub open spec fn unknown_text() -> Seq<u8> {
    seq![
        117u8,
        110u8,
        107u8,
        110u8,
        111u8,
        119u8,
        110u8,
        32u8,
        99u8,
        111u8,
        109u8,
        109u8,
        97u8,
        110u8,
        100u8,
    ]
}

/// The reply owed to a command, judged against the store state it ran on.
pub open spec fn reply_ok(
    cmd: CommandView,
    kv0: Map<Seq<u8>, EntryView>,
    conf: ConfigView,
    now: u64,
    r: ReplyView,
) -> bool {
    match cmd {
        CommandView::Ping => r == ReplyView::Simple(pong_text()),
        CommandView::Echo(m) => r == ReplyView::Simple(m),
        CommandView::SetValue(k, v, e) => r == ReplyView::Simple(ok_text()),
        CommandView::Get(k) => match get_result(kv0, k, now) {
            Some(v) => r == ReplyView::Simple(v),
            None => r == ReplyView::NullBulk,
        },
        CommandView::Keys(p) => r matches ReplyView::Array(items) && keys_list_ok(
            items,
            kv0,
            p,
            now,
        ),
        CommandView::ConfigGet(p) => match config_lookup(conf, p) {
            Some(v) => r == ReplyView::Array(seq![p, v]),
            None => r == ReplyView::NullBulk,
        },
        CommandView::Unknown => r == ReplyView::Error(unknown_text()),
    }
}

/// The store state a command leaves behind.
pub open spec fn post_kv(cmd: CommandView, kv0: Map<Seq<u8>, EntryView>, now: u64) -> Map<
    Seq<u8>,
    EntryView,
> {
    match cmd {
        CommandView::SetValue(k, v, e) => match e {
            None => kv0.insert(k, EntryView { value: v, expires_at: None }),
            Some(t) => kv0.insert(k, EntryView { value: v, expires_at: Some((now + t) as u64) }),
        },
        CommandView::Get(k) => get_post(kv0, k, now),
        CommandView::Keys(p) => prune(kv0, now),
        _ => kv0,
    }
}

/// Executes one command at time `now_ms` against the store, returning the
/// reply to render. The time-to-live bound is a machine limit: the caller
/// must have checked that the absolute expiry fits in u64.
pub fn execute_command(db: &mut Database, cmd: Command, now_ms: u64) -> (r: Reply)
    requires
        old(db).wf(),
        cmd@ matches CommandView::SetValue(_k, _v, Some(t)) ==> now_ms + t <= u64::MAX,
    ensures
        final(db).wf(),
        final(db)@.config == old(db)@.config,
        final(db)@.kv == post_kv(cmd@, old(db)@.kv, now_ms),
        reply_ok(cmd@, old(db)@.kv, old(db)@.config, now_ms, r@),
{
    match cmd {
        Command::Ping => {
            let mut t: Vec<u8> = Vec::new();
            t.push(80);
            t.push(79);
            t.push(78);
            t.push(71);
            proof {
                assert(t@ =~= pong_text());
            }
            Reply::Simple(t)
        },
        Command::Echo(m) => Reply::Simple(m),
        Command::SetValue(k, v, e) => {
            match e {
                Some(ms) => db.set_with_expire(&k, &v, ms, now_ms),
                None => db.set(&k, &v),
            }
            let mut t: Vec<u8> = Vec::new();
            t.push(79);
            t.push(75);
            proof {
                assert(t@ =~= ok_text());
            }
            Reply::Simple(t)
        },
        Command::Get(k) => match db.get(&k, now_ms) {
            Some(v) => {
                proof {
                    assert(v.deep_view() =~= v@);
                    assert(get_result(old(db)@.kv, k@, now_ms) == Some(v@));
                }
                Reply::Simple(v)
            },
            None => Reply::NullBulk,
        },
        Command::Keys(p) => Reply::Array(db.keys(&p, now_ms)),
        Command::ConfigGet(p) => match db.config_get(&p) {
            Some(v) => {
                let ghost pv = p@;
                let ghost vv = v@;
                proof {
                    assert(v.deep_view() =~= v@);
                    assert(config_lookup(old(db)@.config, p@) == Some(vv));
                }
                let mut items: Vec<Vec<u8>> = Vec::new();
                items.push(p);
                items.push(v);
                proof {
                    assert(items.deep_view() =~~= seq![pv, vv]);
                }
                Reply::Array(items)
            },
            None => Reply::NullBulk,
        },
        Command::Unknown => {
            let mut t: Vec<u8> = Vec::new();
            t.push(117);
            t.push(110);
            t.push(107);
            t.push(110);
            t.push(111);
            t.push(119);
            t.push(110);
            t.push(32);
            t.push(99);
            t.push(111);
            t.push(109);
            t.push(109);
            t.push(97);
            t.push(110);
            t.push(100);
            proof {
                assert(t@ =~= unknown_text());
            }
            Reply::Error(t)
        },
    }
}

} // verus!
