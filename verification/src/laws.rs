//! Proved properties of the broadcast engine, stated over the spec
//! transitions of `chat`: distinctness of handed-out ids, ordered delivery,
//! history accumulation and rotation, eviction by the sweep, and stability
//! of the `Connected` snapshot.
use vstd::prelude::*;

use crate::chat::{
    bc_wf, color_t, disconnect_t, has_user, ids_distinct, join_t, nick_t, paste_t, publish_t,
    published_msg, recv_t, rotate_t, sweep_t, sweep_users, user_index, user_sent, BroadcasterV,
    UserV,
};
use crate::codec::frame_of;
use crate::mailbox::mailbox_accepts;
use crate::msg::{MsgV, PasteV, UserMsgV};
use crate::MAILBOX_CAPACITY;

verus! {

/// One operation on the engine, as the abstract counterpart of the public
/// methods. An operation whose sender id is unknown leaves the state as it
/// is, as the methods do when they fail.
pub enum Op {
    Join { nick: Seq<char>, color: Option<Seq<char>> },
    Publish { id: u64, body: Seq<char>, now: u64 },
    PublishPaste { paste: PasteV },
    ChangeColor { id: u64, color: Seq<char> },
    ChangeNick { id: u64, nick: Seq<char> },
    Sweep,
    Rotate,
    Recv { id: u64 },
    Disconnect { id: u64 },
}

/// The state after one operation.
pub open spec fn step(b: BroadcasterV, op: Op) -> BroadcasterV {
    match op {
        Op::Join { nick, color } => if b.next_id < u64::MAX {
            join_t(b, nick, color).0
        } else {
            b
        },
        Op::Publish { id, body, now } => if has_user(b.users, id) {
            publish_t(b, id, body, now)
        } else {
            b
        },
        Op::PublishPaste { paste } => paste_t(b, paste),
        Op::ChangeColor { id, color } => if has_user(b.users, id) {
            color_t(b, id, color)
        } else {
            b
        },
        Op::ChangeNick { id, nick } => if has_user(b.users, id) {
            nick_t(b, id, nick)
        } else {
            b
        },
        Op::Sweep => sweep_t(b),
        Op::Rotate => rotate_t(b),
        Op::Recv { id } => if has_user(b.users, id) {
            recv_t(b, id).0
        } else {
            b
        },
        Op::Disconnect { id } => if has_user(b.users, id) {
            disconnect_t(b, id)
        } else {
            b
        },
    }
}

/// The state after a sequence of operations, first operation first.
pub open spec fn run(b: BroadcasterV, ops: Seq<Op>) -> BroadcasterV
    decreases ops.len(),
{
    if ops.len() == 0 {
        b
    } else {
        run(step(b, ops[0]), ops.drop_first())
    }
}

/// The ids handed out to joining clients over a sequence of operations, in
/// join order.
pub open spec fn join_ids(b: BroadcasterV, ops: Seq<Op>) -> Seq<u64>
    decreases ops.len(),
{
    if ops.len() == 0 {
        Seq::empty()
    } else {
        let rest = join_ids(step(b, ops[0]), ops.drop_first());
        match ops[0] {
            Op::Join { .. } => if b.next_id < u64::MAX {
                seq![b.next_id] + rest
            } else {
                rest
            },
            _ => rest,
        }
    }
}

/// The chat messages appended to history over a sequence of operations, in
/// publish order.
pub open spec fn published_msgs(b: BroadcasterV, ops: Seq<Op>) -> Seq<UserMsgV>
    decreases ops.len(),
{
    if ops.len() == 0 {
        Seq::empty()
    } else {
        let rest = published_msgs(step(b, ops[0]), ops.drop_first());
        match ops[0] {
            Op::Publish { id, body, now } => if has_user(b.users, id) {
                seq![published_msg(b, id, body, now)] + rest
            } else {
                rest
            },
            _ => rest,
        }
    }
}

/// The `Message` frames fanned out over a sequence of operations, in publish
/// order.
pub open spec fn published_frames(b: BroadcasterV, ops: Seq<Op>) -> Seq<Seq<char>>
    decreases ops.len(),
{
    if ops.len() == 0 {
        Seq::empty()
    } else {
        let rest = published_frames(step(b, ops[0]), ops.drop_first());
        match ops[0] {
            Op::Publish { id, body, now } => if has_user(b.users, id) {
                seq![frame_of(MsgV::Message(published_msg(b, id, body, now)))] + rest
            } else {
                rest
            },
            _ => rest,
        }
    }
}

/// No operation ever lowers the next id to be handed out.
pub proof fn lemma_step_next_id(b: BroadcasterV, op: Op)
    ensures
        step(b, op).next_id >= b.next_id,
{
}

/// Every id a join hands out from here on is at least the current next id.
pub proof fn lemma_join_ids_lower(b: BroadcasterV, ops: Seq<Op>)
    ensures
        forall|i: int| 0 <= i < join_ids(b, ops).len() ==> (#[trigger] join_ids(b, ops)[i])
            >= b.next_id,
    decreases ops.len(),
{
    if ops.len() == 0 {
    } else {
        let b1 = step(b, ops[0]);
        lemma_join_ids_lower(b1, ops.drop_first());
        lemma_step_next_id(b, ops[0]);
        let rest = join_ids(b1, ops.drop_first());
        assert forall|i: int| 0 <= i < join_ids(b, ops).len() implies (#[trigger] join_ids(
            b,
            ops,
        )[i]) >= b.next_id by {
            match ops[0] {
                Op::Join { .. } => {
                    if b.next_id < u64::MAX {
                        if i > 0 {
                            assert(join_ids(b, ops)[i] == rest[i - 1]);
                            assert(rest[i - 1] >= b1.next_id);
                        }
                    } else {
                        assert(join_ids(b, ops)[i] == rest[i]);
                    }
                },
                _ => {
                    assert(join_ids(b, ops)[i] == rest[i]);
                },
            }
        }
    }
}

/// Law: over any sequence of operations, the client ids handed out by joins
/// are pairwise distinct.
pub proof fn lemma_join_ids_distinct(b: BroadcasterV, ops: Seq<Op>)
    ensures
        forall|i: int, j: int|
            0 <= i < j < join_ids(b, ops).len() ==> (#[trigger] join_ids(b, ops)[i]) != (
            #[trigger] join_ids(b, ops)[j]),
    decreases ops.len(),
{
    if ops.len() == 0 {
    } else {
        let b1 = step(b, ops[0]);
        lemma_join_ids_distinct(b1, ops.drop_first());
        lemma_join_ids_lower(b1, ops.drop_first());
        let rest = join_ids(b1, ops.drop_first());
        assert forall|i: int, j: int|
            0 <= i < j < join_ids(b, ops).len() implies (#[trigger] join_ids(b, ops)[i]) != (
        #[trigger] join_ids(b, ops)[j]) by {
            match ops[0] {
                Op::Join { .. } => {
                    if b.next_id < u64::MAX {
                        if i == 0 {
                            assert(join_ids(b, ops)[j] == rest[j - 1]);
                            assert(rest[j - 1] >= b1.next_id);
                            assert(b1.next_id == b.next_id + 1);
                        } else {
                            assert(join_ids(b, ops)[i] == rest[i - 1]);
                            assert(join_ids(b, ops)[j] == rest[j - 1]);
                        }
                    } else {
                        assert(join_ids(b, ops)[i] == rest[i]);
                        assert(join_ids(b, ops)[j] == rest[j]);
                    }
                },
                _ => {
                    assert(join_ids(b, ops)[i] == rest[i]);
                    assert(join_ids(b, ops)[j] == rest[j]);
                },
            }
        }
    }
}

/// A publish changes no client's position or id.
pub proof fn lemma_publish_ids(b: BroadcasterV, id: u64, body: Seq<char>, now: u64)
    ensures
        publish_t(b, id, body, now).users.len() == b.users.len(),
        forall|i: int| 0 <= i < b.users.len() ==> (#[trigger] publish_t(
            b,
            id,
            body,
            now,
        ).users[i]).id == b.users[i].id,
{
    let t = publish_t(b, id, body, now);
    assert forall|i: int| 0 <= i < b.users.len() implies (#[trigger] t.users[i]).id
        == b.users[i].id by {
        assert(t.users[i] == user_sent(
            b.users[i],
            frame_of(MsgV::Message(published_msg(b, id, body, now))),
        ));
    }
}

/// All operations in the sequence are publishes whose sender is currently
/// joined.
pub open spec fn all_known_publishes(b: BroadcasterV, ops: Seq<Op>) -> bool {
    forall|t: int|
        0 <= t < ops.len() ==> match #[trigger] ops[t] {
            Op::Publish { id, .. } => has_user(b.users, id),
            _ => false,
        }
}

/// Law: across a sequence of publishes by joined senders, every client whose
/// mailbox is open and has room for them all receives exactly one `Message`
/// frame per publish, in the order the publishes were issued.
pub proof fn lemma_publish_order(b: BroadcasterV, ops: Seq<Op>, k: int)
    requires
        all_known_publishes(b, ops),
        0 <= k < b.users.len(),
        !b.users[k].mailbox.closed,
        b.users[k].mailbox.frames.len() + ops.len() <= MAILBOX_CAPACITY,
    ensures
        run(b, ops).users.len() == b.users.len(),
        run(b, ops).users[k].mailbox.frames == b.users[k].mailbox.frames + published_frames(
            b,
            ops,
        ),
    decreases ops.len(),
{
    if ops.len() == 0 {
        assert(b.users[k].mailbox.frames + published_frames(b, ops) =~= b.users[k].mailbox.frames);
    } else {
        let op0 = ops[0];
        let b1 = step(b, op0);
        match op0 {
            Op::Publish { id, body, now } => {
                assert(has_user(b.users, id));
                lemma_publish_ids(b, id, body, now);
                let f0 = frame_of(MsgV::Message(published_msg(b, id, body, now)));
                assert(b1.users[k] == user_sent(b.users[k], f0));
                assert(mailbox_accepts(b.users[k].mailbox));
                assert(b1.users[k].mailbox.frames == b.users[k].mailbox.frames.push(f0));
                assert(all_known_publishes(b1, ops.drop_first())) by {
                    assert forall|t: int| 0 <= t < ops.drop_first().len() implies match #[trigger] ops.drop_first()[t] {
                        Op::Publish { id, .. } => has_user(b1.users, id),
                        _ => false,
                    } by {
                        assert(ops.drop_first()[t] == ops[t + 1]);
                        match ops[t + 1] {
                            Op::Publish { id: pid, .. } => {
                                assert(has_user(b.users, pid));
                                let w = choose|w: int|
                                    0 <= w < b.users.len() && (#[trigger] b.users[w]).id == pid;
                                assert(b1.users[w].id == pid);
                            },
                            _ => {},
                        }
                    }
                }
                lemma_publish_order(b1, ops.drop_first(), k);
                assert(run(b, ops).users[k].mailbox.frames =~= b.users[k].mailbox.frames
                    + published_frames(b, ops));
            },
            _ => {
                assert(false);
            },
        }
    }
}

/// Rotation leaves the history buffer empty, whatever it held.
pub proof fn lemma_rotate_clears(b: BroadcasterV)
    ensures
        rotate_t(b).history == Seq::<UserMsgV>::empty(),
        rotate_t(b).users == b.users,
{
}

/// Law: across any sequence of operations with no rotation among them, the
/// history buffer holds what it held before, followed by every published
/// message, in publish order.
pub proof fn lemma_history_accumulates(b: BroadcasterV, ops: Seq<Op>)
    requires
        forall|t: int| 0 <= t < ops.len() ==> !((#[trigger] ops[t]) is Rotate),
    ensures
        run(b, ops).history == b.history + published_msgs(b, ops),
    decreases ops.len(),
{
    if ops.len() == 0 {
        assert(b.history + published_msgs(b, ops) =~= b.history);
    } else {
        let b1 = step(b, ops[0]);
        assert forall|t: int| 0 <= t < ops.drop_first().len() implies !((#[trigger] ops.drop_first()[t]) is Rotate) by {
            assert(ops.drop_first()[t] == ops[t + 1]);
        }
        lemma_history_accumulates(b1, ops.drop_first());
        match ops[0] {
            Op::Publish { id, body, now } => {
                if has_user(b.users, id) {
                    assert(b1.history == b.history.push(published_msg(b, id, body, now)));
                    assert(run(b, ops).history =~= b.history + published_msgs(b, ops));
                } else {
                    assert(run(b, ops).history =~= b.history + published_msgs(b, ops));
                }
            },
            _ => {
                assert(b1.history == b.history);
                assert(run(b, ops).history =~= b.history + published_msgs(b, ops));
            },
        }
    }
}

/// A client whose mailbox cannot take the ping is absent after a sweep.
pub proof fn lemma_sweep_absent(users: Seq<UserV>, id: u64)
    requires
        ids_distinct(users),
        has_user(users, id),
        !mailbox_accepts(users[user_index(users, id)].mailbox),
    ensures
        !has_user(sweep_users(users), id),
    decreases users.len(),
{
    let k = user_index(users, id);
    crate::chat::lemma_user_index(users, id);
    let tail = users.drop_first();
    assert(ids_distinct(tail)) by {
        assert forall|i: int, j: int|
            #![trigger tail[i], tail[j]]
            0 <= i < tail.len() && 0 <= j < tail.len() && i != j implies tail[i].id
            != tail[j].id by {
            assert(tail[i] == users[i + 1]);
            assert(tail[j] == users[j + 1]);
        }
    }
    if k == 0 {
        assert(sweep_users(users) == sweep_users(tail));
        if has_user(sweep_users(tail), id) {
            crate::chat::lemma_sweep_ids_present(tail, id);
            let oi = choose|oi: int| 0 <= oi < tail.len() && (#[trigger] tail[oi]).id == id;
            assert(users[oi + 1].id == id);
            assert(users[oi + 1].id == users[0].id);
            assert(false);
        }
    } else {
        assert(tail[k - 1] == users[k]);
        assert(has_user(tail, id));
        let k1 = user_index(tail, id);
        crate::chat::lemma_user_index(tail, id);
        assert(k1 == k - 1) by {
            if k1 != k - 1 {
                assert(tail[k1].id == tail[k - 1].id);
                assert(false);
            }
        }
        lemma_sweep_absent(tail, id);
        if mailbox_accepts(users[0].mailbox) {
            if has_user(sweep_users(users), id) {
                let s = sweep_users(users);
                let i = choose|i: int| 0 <= i < s.len() && (#[trigger] s[i]).id == id;
                if i == 0 {
                    assert(users[0].id == id);
                    assert(users[0].id == users[k].id);
                    assert(false);
                } else {
                    assert(s[i] == sweep_users(tail)[i - 1]);
                    assert(has_user(sweep_users(tail), id));
                    assert(false);
                }
            }
        }
    }
}

/// A client whose mailbox takes the ping survives a sweep, with the ping
/// queued behind its pending frames.
pub proof fn lemma_sweep_keeps(users: Seq<UserV>, id: u64)
    requires
        ids_distinct(users),
        has_user(users, id),
        mailbox_accepts(users[user_index(users, id)].mailbox),
    ensures
        has_user(sweep_users(users), id),
    decreases users.len(),
{
    let k = user_index(users, id);
    crate::chat::lemma_user_index(users, id);
    let tail = users.drop_first();
    if k == 0 {
        assert(sweep_users(users)[0].id == users[0].id);
    } else {
        assert(ids_distinct(tail)) by {
            assert forall|i: int, j: int|
                #![trigger tail[i], tail[j]]
                0 <= i < tail.len() && 0 <= j < tail.len() && i != j implies tail[i].id
                != tail[j].id by {
                assert(tail[i] == users[i + 1]);
                assert(tail[j] == users[j + 1]);
            }
        }
        assert(tail[k - 1] == users[k]);
        assert(has_user(tail, id));
        let k1 = user_index(tail, id);
        crate::chat::lemma_user_index(tail, id);
        assert(k1 == k - 1) by {
            if k1 != k - 1 {
                assert(tail[k1].id == tail[k - 1].id);
                assert(false);
            }
        }
        lemma_sweep_keeps(tail, id);
        let s1 = sweep_users(tail);
        let i1 = choose|i: int| 0 <= i < s1.len() && (#[trigger] s1[i]).id == id;
        if mailbox_accepts(users[0].mailbox) {
            assert(sweep_users(users)[i1 + 1].id == id);
        } else {
            assert(sweep_users(users)[i1].id == id);
        }
    }
}

/// Law: a client whose mailbox is full when the sweep runs is absent from
/// the registry afterwards, and a publish by a client whose mailbox took the
/// ping still succeeds: the engine accepts it, the vanished client simply no
/// longer receives anything.
pub proof fn lemma_sweep_evicts_then_publish(b: BroadcasterV, dead: u64, sender: u64)
    requires
        bc_wf(b),
        has_user(b.users, dead),
        !mailbox_accepts(b.users[user_index(b.users, dead)].mailbox),
        has_user(b.users, sender),
        mailbox_accepts(b.users[user_index(b.users, sender)].mailbox),
    ensures
        !has_user(sweep_t(b).users, dead),
        has_user(sweep_t(b).users, sender),
{
    lemma_sweep_absent(b.users, dead);
    lemma_sweep_keeps(b.users, sender);
}

/// All operations in the sequence are publishes, by whomever.
pub open spec fn all_publishes(ops: Seq<Op>) -> bool {
    forall|t: int| 0 <= t < ops.len() ==> (#[trigger] ops[t]) is Publish
}

/// Publishes keep every client in place: same position, same id, and its
/// oldest pending frame untouched.
pub proof fn lemma_publishes_keep_frame0(b: BroadcasterV, ops: Seq<Op>, k: int)
    requires
        all_publishes(ops),
        0 <= k < b.users.len(),
        b.users[k].mailbox.frames.len() >= 1,
    ensures
        run(b, ops).users.len() == b.users.len(),
        run(b, ops).users[k].id == b.users[k].id,
        run(b, ops).users[k].mailbox.frames.len() >= 1,
        run(b, ops).users[k].mailbox.frames[0] == b.users[k].mailbox.frames[0],
    decreases ops.len(),
{
    if ops.len() == 0 {
    } else {
        let b1 = step(b, ops[0]);
        match ops[0] {
            Op::Publish { id, body, now } => {
                if has_user(b.users, id) {
                    let f0 = frame_of(MsgV::Message(published_msg(b, id, body, now)));
                    assert(b1.users[k] == user_sent(b.users[k], f0));
                } else {
                    assert(b1 == b);
                }
            },
            _ => {
                assert(false);
            },
        }
        assert forall|t: int| 0 <= t < ops.drop_first().len() implies (#[trigger] ops.drop_first()[t]) is Publish by {
            assert(ops.drop_first()[t] == ops[t + 1]);
        }
        lemma_publishes_keep_frame0(b1, ops.drop_first(), k);
    }
}

/// Law: the `Connected` snapshot queued for a client at join time is the
/// frame of the history buffer at that instant, and later publishes never
/// change it: the client holds a copy, not a live view.
pub proof fn lemma_connected_snapshot(
    b: BroadcasterV,
    nick: Seq<char>,
    color: Option<Seq<char>>,
    ops: Seq<Op>,
)
    requires
        b.next_id < u64::MAX,
        all_publishes(ops),
    ensures
        ({
            let b1 = join_t(b, nick, color).0;
            let bf = run(b1, ops);
            let k = b.users.len() as int;
            &&& bf.users.len() == b1.users.len()
            &&& bf.users[k].id == join_t(b, nick, color).1
            &&& bf.users[k].mailbox.frames.len() >= 1
            &&& bf.users[k].mailbox.frames[0] == frame_of(MsgV::Connected(b.history))
        }),
{
    let b1 = join_t(b, nick, color).0;
    let k = b.users.len() as int;
    assert(b1.users[k].mailbox.frames == seq![frame_of(MsgV::Connected(b.history))]);
    lemma_publishes_keep_frame0(b1, ops, k);
}

} // verus!
