//! The broadcast engine: the registry of connected clients, each with its
//! bounded mailbox, and the history buffer, mutated together under one
//! critical section by join, publish, attribute-change, sweep and rotation
//! operations. Every operation is specified as a transition on the
//! mathematical state `BroadcasterV`.
use vstd::prelude::*;

use crate::codec::{event_data, frame_of};
use crate::mailbox::{mailbox_accepts, mailbox_send, Mailbox, MailboxV};
use crate::msg::{copy_history, Msg, MsgV, Paste, PasteV, UserMsg, UserMsgV};
use crate::schedule::epoch_seconds_now;

verus! {

/// One connected client: its process-lifetime-unique id, its mutable
/// attributes, and its delivery queue.
pub struct User {
    pub id: u64,
    pub nick: String,
    pub color: Option<String>,
    pub mailbox: Mailbox,
}

/// Mathematical model of a client.
#[verifier::ext_equal]
pub struct UserV {
    pub id: u64,
    pub nick: Seq<char>,
    pub color: Option<Seq<char>>,
    pub mailbox: MailboxV,
}

impl View for User {
    type V = UserV;

    open spec fn view(&self) -> UserV {
        UserV {
            id: self.id,
            nick: self.nick@,
            color: match self.color {
                Some(c) => Some(c@),
                None => None,
            },
            mailbox: self.mailbox@,
        }
    }
}

impl DeepView for User {
    type V = UserV;

    open spec fn deep_view(&self) -> UserV {
        self.view()
    }
}

/// The failure of an operation whose sender id is not registered: a stale or
/// forged handle. Per-recipient delivery failures are never an error.
#[derive(Debug, PartialEq, Eq)]
pub struct UnknownSender;

/// Mathematical model of the whole engine state.
#[verifier::ext_equal]
pub struct BroadcasterV {
    pub users: Seq<UserV>,
    pub history: Seq<UserMsgV>,
    pub next_id: u64,
}

/// Client ids are pairwise distinct.
pub open spec fn ids_distinct(users: Seq<UserV>) -> bool {
    forall|i: int, j: int|
        #![trigger users[i], users[j]]
        0 <= i < users.len() && 0 <= j < users.len() && i != j ==> users[i].id != users[j].id
}

/// Every client id is below the bound.
pub open spec fn ids_below(users: Seq<UserV>, bound: u64) -> bool {
    forall|i: int| 0 <= i < users.len() ==> (#[trigger] users[i]).id < bound
}

/// Well-formedness: client ids are pairwise distinct and all below the next
/// id to be handed out.
pub open spec fn bc_wf(b: BroadcasterV) -> bool {
    ids_distinct(b.users) && ids_below(b.users, b.next_id)
}

/// Whether a client with this id is registered.
pub open spec fn has_user(users: Seq<UserV>, id: u64) -> bool {
    exists|i: int| 0 <= i < users.len() && (#[trigger] users[i]).id == id
}

/// The index of the registered client with this id.
pub open spec fn user_index(users: Seq<UserV>, id: u64) -> int {
    choose|i: int| 0 <= i < users.len() && (#[trigger] users[i]).id == id
}

pub proof fn lemma_user_index(users: Seq<UserV>, id: u64)
    requires
        has_user(users, id),
    ensures
        0 <= user_index(users, id) < users.len(),
        users[user_index(users, id)].id == id,
{
}

/// One client after a non-blocking delivery attempt of `f`.
pub open spec fn user_sent(u: UserV, f: Seq<char>) -> UserV {
    UserV { mailbox: mailbox_send(u.mailbox, f), ..u }
}

/// Fan-out: one delivery attempt of `f` to every registered client, in
/// registry order. A full or closed mailbox drops the frame; nobody stalls.
pub open spec fn deliver_all(users: Seq<UserV>, f: Seq<char>) -> Seq<UserV> {
    users.map_values(|u: UserV| user_sent(u, f))
}

/// Joining: the new client gets the next id and a fresh mailbox holding only
/// the `Connected` snapshot of the history buffer at this instant.
pub open spec fn join_t(b: BroadcasterV, nick: Seq<char>, color: Option<Seq<char>>) -> (
    BroadcasterV,
    u64,
) {
    let nu = UserV {
        id: b.next_id,
        nick: nick,
        color: color,
        mailbox: MailboxV { frames: seq![frame_of(MsgV::Connected(b.history))], closed: false },
    };
    (
        BroadcasterV {
            users: b.users.push(nu),
            history: b.history,
            next_id: (b.next_id + 1) as u64,
        },
        b.next_id,
    )
}

/// The chat message a publish by this sender appends to history: the
/// sender's current nick and color, the body, and the publish instant.
pub open spec fn published_msg(b: BroadcasterV, id: u64, body: Seq<char>, now: u64) -> UserMsgV {
    let u = b.users[user_index(b.users, id)];
    UserMsgV { nick: u.nick, custom_nick_color: u.color, msg: body, time: now }
}

/// Publishing: the message goes into history and its frame is fanned out to
/// every client, the sender included.
pub open spec fn publish_t(b: BroadcasterV, id: u64, body: Seq<char>, now: u64) -> BroadcasterV {
    let m = published_msg(b, id, body, now);
    BroadcasterV {
        users: deliver_all(b.users, frame_of(MsgV::Message(m))),
        history: b.history.push(m),
        next_id: b.next_id,
    }
}

/// Publishing a paste: fan-out only; pastes are not chat history.
pub open spec fn paste_t(b: BroadcasterV, p: PasteV) -> BroadcasterV {
    BroadcasterV {
        users: deliver_all(b.users, frame_of(MsgV::Paste(p))),
        history: b.history,
        next_id: b.next_id,
    }
}

/// A color change: the sender's record is updated first, then the change is
/// broadcast to every client, the sender included.
pub open spec fn color_t(b: BroadcasterV, id: u64, color: Seq<char>) -> BroadcasterV {
    let i = user_index(b.users, id);
    let users1 = b.users.update(i, UserV { color: Some(color), ..b.users[i] });
    BroadcasterV {
        users: deliver_all(users1, frame_of(MsgV::ColorChange(color))),
        history: b.history,
        next_id: b.next_id,
    }
}

/// A nick change, with the same discipline as a color change.
pub open spec fn nick_t(b: BroadcasterV, id: u64, nick: Seq<char>) -> BroadcasterV {
    let i = user_index(b.users, id);
    let users1 = b.users.update(i, UserV { nick: nick, ..b.users[i] });
    BroadcasterV {
        users: deliver_all(users1, frame_of(MsgV::NickChange(nick))),
        history: b.history,
        next_id: b.next_id,
    }
}

/// One liveness sweep over a registry: every client whose mailbox accepts
/// the ping keeps it queued and stays; every other client is evicted.
pub open spec fn sweep_users(users: Seq<UserV>) -> Seq<UserV>
    decreases users.len(),
{
    if users.len() == 0 {
        Seq::empty()
    } else {
        let rest = sweep_users(users.drop_first());
        if mailbox_accepts(users[0].mailbox) {
            seq![user_sent(users[0], frame_of(MsgV::Ping))] + rest
        } else {
            rest
        }
    }
}

/// The sweep transition.
pub open spec fn sweep_t(b: BroadcasterV) -> BroadcasterV {
    BroadcasterV { users: sweep_users(b.users), history: b.history, next_id: b.next_id }
}

/// The rotation transition: history is cleared, clients are untouched.
pub open spec fn rotate_t(b: BroadcasterV) -> BroadcasterV {
    BroadcasterV { users: b.users, history: Seq::empty(), next_id: b.next_id }
}

/// Consuming one frame from one client's mailbox.
pub open spec fn recv_t(b: BroadcasterV, id: u64) -> (BroadcasterV, Option<Seq<char>>) {
    let i = user_index(b.users, id);
    let u = b.users[i];
    if u.mailbox.frames.len() == 0 {
        (b, None)
    } else {
        (
            BroadcasterV {
                users: b.users.update(
                    i,
                    UserV {
                        mailbox: MailboxV {
                            frames: u.mailbox.frames.drop_first(),
                            closed: u.mailbox.closed,
                        },
                        ..u
                    },
                ),
                history: b.history,
                next_id: b.next_id,
            },
            Some(u.mailbox.frames[0]),
        )
    }
}

/// Departure: the client's mailbox is closed; the next sweep evicts it.
pub open spec fn disconnect_t(b: BroadcasterV, id: u64) -> BroadcasterV {
    let i = user_index(b.users, id);
    let u = b.users[i];
    BroadcasterV {
        users: b.users.update(
            i,
            UserV { mailbox: MailboxV { frames: u.mailbox.frames, closed: true }, ..u },
        ),
        history: b.history,
        next_id: b.next_id,
    }
}

pub proof fn lemma_sweep_users_push(s: Seq<UserV>, x: UserV)
    ensures
        sweep_users(s.push(x)) == sweep_users(s) + (if mailbox_accepts(x.mailbox) {
            seq![user_sent(x, frame_of(MsgV::Ping))]
        } else {
            Seq::<UserV>::empty()
        }),
    decreases s.len(),
{
    let t = s.push(x);
    if s.len() == 0 {
        assert(t.drop_first() =~= Seq::<UserV>::empty());
        assert(sweep_users(Seq::<UserV>::empty()) =~= Seq::<UserV>::empty());
        if mailbox_accepts(x.mailbox) {
            assert(sweep_users(t) =~= sweep_users(s) + seq![user_sent(x, frame_of(MsgV::Ping))]);
        } else {
            assert(sweep_users(t) =~= sweep_users(s));
            assert(sweep_users(s) + Seq::<UserV>::empty() =~= sweep_users(s));
        }
    } else {
        assert(t.drop_first() =~= s.drop_first().push(x));
        lemma_sweep_users_push(s.drop_first(), x);
        assert(sweep_users(t) =~= sweep_users(s) + (if mailbox_accepts(x.mailbox) {
            seq![user_sent(x, frame_of(MsgV::Ping))]
        } else {
            Seq::<UserV>::empty()
        }));
    }
}

/// Every id present after a sweep was present before it.
pub proof fn lemma_sweep_ids_present(users: Seq<UserV>, id: u64)
    ensures
        has_user(sweep_users(users), id) ==> has_user(users, id),
    decreases users.len(),
{
    if users.len() == 0 {
    } else {
        let tail = users.drop_first();
        lemma_sweep_ids_present(tail, id);
        let s = sweep_users(users);
        if has_user(s, id) {
            let i = choose|i: int| 0 <= i < s.len() && (#[trigger] s[i]).id == id;
            if mailbox_accepts(users[0].mailbox) {
                if i == 0 {
                    assert(users[0].id == id);
                } else {
                    assert(sweep_users(tail)[i - 1].id == id);
                    assert(has_user(tail, id));
                    let oi = choose|oi: int|
                        0 <= oi < tail.len() && (#[trigger] tail[oi]).id == id;
                    assert(users[oi + 1].id == id);
                }
            } else {
                assert(has_user(tail, id));
                let oi = choose|oi: int| 0 <= oi < tail.len() && (#[trigger] tail[oi]).id == id;
                assert(users[oi + 1].id == id);
            }
        }
    }
}

/// A sweep keeps ids pairwise distinct, and every survivor carries an id the
/// registry already had.
pub proof fn lemma_sweep_users_wf(users: Seq<UserV>)
    requires
        ids_distinct(users),
    ensures
        ids_distinct(sweep_users(users)),
        forall|i: int|
            0 <= i < sweep_users(users).len() ==> has_user(
                users,
                (#[trigger] sweep_users(users)[i]).id,
            ),
    decreases users.len(),
{
    if users.len() == 0 {
    } else {
        let tail = users.drop_first();
        assert(ids_distinct(tail)) by {
            assert forall|i: int, j: int|
                #![trigger tail[i], tail[j]]
                0 <= i < tail.len() && 0 <= j < tail.len() && i != j implies tail[i].id
                != tail[j].id by {
                assert(tail[i] == users[i + 1]);
                assert(tail[j] == users[j + 1]);
            }
        }
        lemma_sweep_users_wf(tail);
        let rest = sweep_users(tail);
        let s = sweep_users(users);
        assert forall|i: int| 0 <= i < s.len() implies has_user(users, (#[trigger] s[i]).id) by {
            if mailbox_accepts(users[0].mailbox) {
                if i == 0 {
                    assert(s[0].id == users[0].id);
                } else {
                    assert(s[i] == rest[i - 1]);
                    let oi = choose|oi: int|
                        0 <= oi < tail.len() && (#[trigger] tail[oi]).id == rest[i - 1].id;
                    assert(users[oi + 1].id == s[i].id);
                }
            } else {
                assert(s[i] == rest[i]);
                let oi = choose|oi: int|
                    0 <= oi < tail.len() && (#[trigger] tail[oi]).id == rest[i].id;
                assert(users[oi + 1].id == s[i].id);
            }
        }
        if mailbox_accepts(users[0].mailbox) {
            assert(!has_user(tail, users[0].id)) by {
                if has_user(tail, users[0].id) {
                    let oi = choose|oi: int|
                        0 <= oi < tail.len() && (#[trigger] tail[oi]).id == users[0].id;
                    assert(users[oi + 1].id == users[0].id);
                    assert(false);
                }
            }
            assert forall|i: int, j: int|
                #![trigger s[i], s[j]]
                0 <= i < s.len() && 0 <= j < s.len() && i != j implies s[i].id != s[j].id by {
                if i != 0 && j != 0 {
                    assert(s[i] == rest[i - 1]);
                    assert(s[j] == rest[j - 1]);
                } else if i == 0 {
                    assert(s[j] == rest[j - 1]);
                    lemma_sweep_ids_present(tail, s[j].id);
                    assert(has_user(rest, s[j].id));
                } else {
                    assert(s[i] == rest[i - 1]);
                    lemma_sweep_ids_present(tail, s[i].id);
                    assert(has_user(rest, s[i].id));
                }
            }
        }
    }
}

/// Sweeping preserves well-formedness.
pub proof fn lemma_sweep_wf(b: BroadcasterV)
    requires
        bc_wf(b),
    ensures
        bc_wf(sweep_t(b)),
{
    lemma_sweep_users_wf(b.users);
    let s = sweep_users(b.users);
    assert forall|i: int| 0 <= i < s.len() implies (#[trigger] s[i]).id < b.next_id by {
        let oi = choose|oi: int| 0 <= oi < b.users.len() && (#[trigger] b.users[oi]).id == s[i].id;
        assert(b.users[oi].id < b.next_id);
    }
}

/// Any state whose users carry, position for position, the same ids as a
/// well-formed state is well-formed.
pub proof fn lemma_wf_same_ids(b0: BroadcasterV, b1: BroadcasterV)
    requires
        bc_wf(b0),
        b1.next_id == b0.next_id,
        b1.users.len() == b0.users.len(),
        forall|i: int| 0 <= i < b1.users.len() ==> (#[trigger] b1.users[i]).id == b0.users[i].id,
    ensures
        bc_wf(b1),
{
}

/// The broadcast engine. In the running server one instance lives behind a
/// mutex shared by the request handlers and the two schedulers.
pub struct Broadcaster {
    users: Vec<User>,
    history: Vec<UserMsg>,
    next_id: u64,
}

impl View for Broadcaster {
    type V = BroadcasterV;

    closed spec fn view(&self) -> BroadcasterV {
        BroadcasterV {
            users: self.users.deep_view(),
            history: self.history.deep_view(),
            next_id: self.next_id,
        }
    }
}

/// One delivery attempt of `frame` to every user, in order.
fn fanout(users: &mut Vec<User>, frame: &String)
    ensures
        final(users).deep_view() == deliver_all(old(users).deep_view(), frame@),
{
    let ghost u0: Seq<UserV> = users.deep_view();
    let ghost target: Seq<UserV> = deliver_all(u0, frame@);
    let mut kept: Vec<User> = Vec::new();
    while users.len() > 0
        invariant
            kept@.len() + users@.len() == u0.len(),
            kept.deep_view() =~= target.subrange(0, kept@.len() as int),
            users.deep_view() =~= u0.subrange(kept@.len() as int, u0.len() as int),
            target == deliver_all(u0, frame@),
        decreases users@.len(),
    {
        let ghost k = kept@.len() as int;
        let ghost us = users.deep_view();
        let mut u = users.remove(0);
        proof {
            assert(u@ == us[0]);
            assert(u@ == u0[k]);
            assert forall|j: int| 0 <= j < users@.len() implies users.deep_view()[j] == u0.subrange(
                k + 1,
                u0.len() as int,
            )[j] by {
                assert(users.deep_view()[j] == us[j + 1]);
            }
            assert(users.deep_view() =~= u0.subrange(k + 1, u0.len() as int));
        }
        let _ = u.mailbox.try_send(frame.clone());
        proof {
            assert(u@ == user_sent(u0[k], frame@));
            assert(target[k] == user_sent(u0[k], frame@));
        }
        kept.push(u);
        proof {
            assert(kept.deep_view() =~= target.subrange(0, k + 1));
        }
    }
    *users = kept;
    proof {
        assert(target.subrange(0, u0.len() as int) =~= target);
    }
}

impl Default for Broadcaster {
    /// An engine with no clients, an empty history, and ids starting at 0.
    fn default() -> (r: Broadcaster)
        ensures
            r@.users == Seq::<UserV>::empty(),
            r@.history == Seq::<UserMsgV>::empty(),
            r@.next_id == 0,
            bc_wf(r@),
    {
        let r = Broadcaster { users: Vec::new(), history: Vec::new(), next_id: 0 };
        proof {
            assert(r@.users =~= Seq::<UserV>::empty());
            assert(r@.history =~= Seq::<UserMsgV>::empty());
        }
        r
    }
}

impl Broadcaster {
    /// A fresh engine; the caller wires it to the schedulers.
    pub fn new() -> (r: Broadcaster)
        ensures
            r@.users == Seq::<UserV>::empty(),
            r@.history == Seq::<UserMsgV>::empty(),
            r@.next_id == 0,
            bc_wf(r@),
    {
        Broadcaster::default()
    }

    /// The index of the client with this id, if it is registered.
    fn find_user(&self, id: u64) -> (r: Option<usize>)
        ensures
            match r {
                Some(i) => i < self@.users.len() && self@.users[i as int].id == id && has_user(
                    self@.users,
                    id,
                ),
                None => !has_user(self@.users, id),
            },
    {
        let mut i: usize = 0;
        while i < self.users.len()
            invariant
                i <= self@.users.len(),
                self@.users.len() == self.users@.len(),
                forall|j: int| 0 <= j < i ==> (#[trigger] self@.users[j]).id != id,
            decreases self.users@.len() - i,
        {
            if self.users[i].id == id {
                return Some(i);
            }
            i = i + 1;
        }
        None
    }

    /// Joins a new client: allocates the next id, queues the `Connected`
    /// snapshot in a fresh mailbox, and registers the client. The returned
    /// id is the caller's handle for every later operation.
    pub fn new_user(&mut self, nick: &str, color: Option<String>) -> (id: u64)
        requires
            bc_wf(old(self)@),
            old(self)@.next_id < u64::MAX,
        ensures
            bc_wf(final(self)@),
            final(self)@ == join_t(old(self)@, nick@, match color {
                Some(c) => Some(c@),
                None => None,
            }).0,
            id == old(self)@.next_id,
    {
        let ghost b0 = self@;
        let ghost cv: Option<Seq<char>> = match &color {
            Some(c) => Some(c@),
            None => None,
        };
        let id = self.next_id;
        self.next_id = self.next_id + 1;
        let mut mb = Mailbox::new();
        let frame = event_data(&Msg::connected(&self.history));
        let ok = mb.try_send(frame);
        assert(ok);
        let ghost mbv: MailboxV = mb@;
        proof {
            assert(mbv.frames =~= seq![frame_of(MsgV::Connected(b0.history))]);
        }
        let ghost users0 = self.users.deep_view();
        let u = User { id, nick: nick.to_owned(), color, mailbox: mb };
        let ghost uv: UserV = u@;
        self.users.push(u);
        proof {
            let nu = join_t(b0, nick@, cv).0;
            assert(self.users.deep_view() =~= users0.push(uv));
            assert(uv == nu.users[users0.len() as int]);
            assert(self@.users =~= nu.users);
            assert(self@ == nu);
            assert forall|i: int| 0 <= i < self@.users.len() implies (#[trigger] self@.users[i]).id
                < self@.next_id by {
                if i < users0.len() {
                    assert(self@.users[i] == b0.users[i]);
                }
            }
            assert forall|i: int, j: int|
                #![trigger self@.users[i], self@.users[j]]
                0 <= i < self@.users.len() && 0 <= j < self@.users.len() && i != j implies self@
                .users[i].id != self@.users[j].id by {
                if i < users0.len() && j < users0.len() {
                    assert(self@.users[i] == b0.users[i]);
                    assert(self@.users[j] == b0.users[j]);
                }
            }
        }
        id
    }

    /// Publishes a chat message from a registered sender at the given
    /// instant: appends it to history and fans its frame out to everyone,
    /// the sender included. Fails exactly when the sender id is unknown.
    pub fn send_at(&mut self, id: u64, msg: String, now: u64) -> (r: Result<(), UnknownSender>)
        requires
            bc_wf(old(self)@),
        ensures
            bc_wf(final(self)@),
            match r {
                Ok(_) => has_user(old(self)@.users, id) && final(self)@ == publish_t(
                    old(self)@,
                    id,
                    msg@,
                    now,
                ),
                Err(_) => !has_user(old(self)@.users, id) && final(self)@ == old(self)@,
            },
    {
        let ghost b0 = self@;
        let ghost msgv: Seq<char> = msg@;
        let idx = match self.find_user(id) {
            Some(i) => i,
            None => {
                return Err(UnknownSender);
            },
        };
        proof {
            lemma_user_index(b0.users, id);
            assert(user_index(b0.users, id) == idx as int);
        }
        let um = UserMsg {
            nick: self.users[idx].nick.clone(),
            custom_nick_color: match &self.users[idx].color {
                Some(c) => Some(c.clone()),
                None => None,
            },
            msg,
            time: now,
        };
        let ghost umv: UserMsgV = um@;
        proof {
            assert(umv == published_msg(b0, id, msgv, now));
        }
        let frame = event_data(&Msg::user_msg(um.duplicate()));
        let ghost h0 = self.history.deep_view();
        self.history.push(um);
        proof {
            assert(self.history.deep_view() =~= h0.push(umv));
        }
        fanout(&mut self.users, &frame);
        proof {
            let t = publish_t(b0, id, msgv, now);
            assert(self@.users == t.users);
            assert(self@.history =~= t.history);
            assert(self@ == t);
            lemma_wf_same_ids(b0, t);
        }
        Ok(())
    }

    /// Publishes a chat message stamped with the wall clock now. What the
    /// clock will read cannot be known in advance: some instant is used.
    pub fn send(&mut self, id: u64, msg: String) -> (r: Result<(), UnknownSender>)
        requires
            bc_wf(old(self)@),
        ensures
            bc_wf(final(self)@),
            match r {
                Ok(_) => has_user(old(self)@.users, id) && (exists|now: u64|
                    final(self)@ == publish_t(old(self)@, id, msg@, now)),
                Err(_) => !has_user(old(self)@.users, id) && final(self)@ == old(self)@,
            },
    {
        let now = epoch_seconds_now();
        self.send_at(id, msg, now)
    }

    /// Broadcasts a stored paste to every client. Pastes come from the
    /// external store; they do not touch the history buffer.
    pub fn send_paste(&mut self, paste: Paste)
        requires
            bc_wf(old(self)@),
        ensures
            bc_wf(final(self)@),
            final(self)@ == paste_t(old(self)@, paste@),
    {
        let ghost b0 = self@;
        let ghost pv: PasteV = paste@;
        let frame = event_data(&Msg::paste_msg(paste));
        fanout(&mut self.users, &frame);
        proof {
            let t = paste_t(b0, pv);
            assert(self@.users == t.users);
            assert(self@ == t);
            lemma_wf_same_ids(b0, t);
        }
    }

    /// Applies a color change to the sender's record, then broadcasts it to
    /// every client, the sender included. Fails exactly when the sender id
    /// is unknown.
    pub fn change_color(&mut self, id: u64, color: String) -> (r: Result<(), UnknownSender>)
        requires
            bc_wf(old(self)@),
        ensures
            bc_wf(final(self)@),
            match r {
                Ok(_) => has_user(old(self)@.users, id) && final(self)@ == color_t(
                    old(self)@,
                    id,
                    color@,
                ),
                Err(_) => !has_user(old(self)@.users, id) && final(self)@ == old(self)@,
            },
    {
        let ghost b0 = self@;
        let ghost colv: Seq<char> = color@;
        let idx = match self.find_user(id) {
            Some(i) => i,
            None => {
                return Err(UnknownSender);
            },
        };
        proof {
            lemma_user_index(b0.users, id);
            assert(user_index(b0.users, id) == idx as int);
        }
        let frame = event_data(&Msg::color_change_msg(color.clone()));
        let ghost users0 = self.users.deep_view();
        let mut u = self.users.remove(idx);
        u.color = Some(color);
        let ghost uv: UserV = u@;
        self.users.insert(idx, u);
        proof {
            assert(self.users.deep_view() =~= users0.update(idx as int, uv));
            assert(uv == UserV { color: Some(colv), ..b0.users[idx as int] });
        }
        fanout(&mut self.users, &frame);
        proof {
            let t = color_t(b0, id, colv);
            assert(self@.users == t.users);
            assert(self@ == t);
            assert forall|i: int| 0 <= i < t.users.len() implies (#[trigger] t.users[i]).id
                == b0.users[i].id by {
                assert(t.users[i] == user_sent(users0.update(idx as int, uv)[i], frame@));
            }
            lemma_wf_same_ids(b0, t);
        }
        Ok(())
    }

    /// Applies a nick change to the sender's record, then broadcasts it to
    /// every client, the sender included. Fails exactly when the sender id
    /// is unknown.
    pub fn change_nick(&mut self, id: u64, nick: String) -> (r: Result<(), UnknownSender>)
        requires
            bc_wf(old(self)@),
        ensures
            bc_wf(final(self)@),
            match r {
                Ok(_) => has_user(old(self)@.users, id) && final(self)@ == nick_t(
                    old(self)@,
                    id,
                    nick@,
                ),
                Err(_) => !has_user(old(self)@.users, id) && final(self)@ == old(self)@,
            },
    {
        let ghost b0 = self@;
        let ghost nv: Seq<char> = nick@;
        let idx = match self.find_user(id) {
            Some(i) => i,
            None => {
                return Err(UnknownSender);
            },
        };
        proof {
            lemma_user_index(b0.users, id);
            assert(user_index(b0.users, id) == idx as int);
        }
        let frame = event_data(&Msg::nick_change_msg(nick.clone()));
        let ghost users0 = self.users.deep_view();
        let mut u = self.users.remove(idx);
        u.nick = nick;
        let ghost uv: UserV = u@;
        self.users.insert(idx, u);
        proof {
            assert(self.users.deep_view() =~= users0.update(idx as int, uv));
            assert(uv == UserV { nick: nv, ..b0.users[idx as int] });
        }
        fanout(&mut self.users, &frame);
        proof {
            let t = nick_t(b0, id, nv);
            assert(self@.users == t.users);
            assert(self@ == t);
            assert forall|i: int| 0 <= i < t.users.len() implies (#[trigger] t.users[i]).id
                == b0.users[i].id by {
                assert(t.users[i] == user_sent(users0.update(idx as int, uv)[i], frame@));
            }
            lemma_wf_same_ids(b0, t);
        }
        Ok(())
    }

    /// One liveness sweep: attempts a `Ping` on every client and drops every
    /// client whose mailbox could not take it. Invoked on the sweep period.
    pub fn remove_dead_users(&mut self)
        requires
            bc_wf(old(self)@),
        ensures
            bc_wf(final(self)@),
            final(self)@ == sweep_t(old(self)@),
    {
        let ghost b0 = self@;
        let frame = event_data(&Msg::Ping);
        let ghost u0: Seq<UserV> = self.users.deep_view();
        let mut kept: Vec<User> = Vec::new();
        let ghost mut processed: Seq<UserV> = Seq::empty();
        while self.users.len() > 0
            invariant
                processed.len() + self.users@.len() == u0.len(),
                processed =~= u0.subrange(0, processed.len() as int),
                self.users.deep_view() =~= u0.subrange(processed.len() as int, u0.len() as int),
                kept.deep_view() =~= sweep_users(processed),
                frame@ == frame_of(MsgV::Ping),
                self@.history == b0.history,
                self@.next_id == b0.next_id,
                u0 == b0.users,
            decreases self.users@.len(),
        {
            let ghost k = processed.len() as int;
            let ghost us = self.users.deep_view();
            let mut u = self.users.remove(0);
            proof {
                assert(u@ == us[0]);
                assert(u@ == u0[k]);
                assert forall|j: int| 0 <= j < self.users@.len() implies self.users.deep_view()[j]
                    == u0.subrange(k + 1, u0.len() as int)[j] by {
                    assert(self.users.deep_view()[j] == us[j + 1]);
                }
                assert(self.users.deep_view() =~= u0.subrange(k + 1, u0.len() as int));
            }
            let ghost kept0 = kept.deep_view();
            let ok = u.mailbox.try_send(frame.clone());
            if ok {
                proof {
                    assert(u@ == user_sent(u0[k], frame_of(MsgV::Ping)));
                }
                kept.push(u);
            }
            proof {
                lemma_sweep_users_push(processed, u0[k]);
                processed = processed.push(u0[k]);
                assert(processed =~= u0.subrange(0, k + 1));
                if mailbox_accepts(u0[k].mailbox) {
                    assert(kept.deep_view() =~= kept0.push(
                        user_sent(u0[k], frame_of(MsgV::Ping)),
                    ));
                    assert(kept.deep_view() =~= sweep_users(processed));
                } else {
                    assert(kept.deep_view() =~= sweep_users(processed));
                }
            }
        }
        proof {
            assert(processed =~= u0);
            assert(kept.deep_view() =~= sweep_users(u0));
        }
        let ghost keptv: Seq<UserV> = kept.deep_view();
        self.users = kept;
        proof {
            assert(self.users.deep_view() == keptv);
            assert(self@.users =~= sweep_users(b0.users));
            assert(self@ =~= sweep_t(b0));
            lemma_sweep_wf(b0);
        }
    }

    /// Clears the history buffer. Invoked by the rotation schedule at each
    /// day boundary; clients and their mailboxes are untouched.
    pub fn rotate_history(&mut self)
        requires
            bc_wf(old(self)@),
        ensures
            bc_wf(final(self)@),
            final(self)@ == rotate_t(old(self)@),
    {
        self.history.clear();
        proof {
            assert(self.history.deep_view() =~= Seq::<UserMsgV>::empty());
            assert(self@ == rotate_t(old(self)@));
        }
    }

    /// Takes the oldest pending frame of this client's mailbox: the consumer
    /// side of its output sequence, drained by the transport loop. Fails
    /// exactly when the id is unknown.
    pub fn next_frame(&mut self, id: u64) -> (r: Result<Option<String>, UnknownSender>)
        requires
            bc_wf(old(self)@),
        ensures
            bc_wf(final(self)@),
            match r {
                Ok(f) => has_user(old(self)@.users, id) && final(self)@ == recv_t(old(self)@, id).0
                    && (match f {
                    Some(s) => recv_t(old(self)@, id).1 == Some(s@),
                    None => recv_t(old(self)@, id).1 is None,
                }),
                Err(_) => !has_user(old(self)@.users, id) && final(self)@ == old(self)@,
            },
    {
        let ghost b0 = self@;
        let idx = match self.find_user(id) {
            Some(i) => i,
            None => {
                return Err(UnknownSender);
            },
        };
        proof {
            lemma_user_index(b0.users, id);
            assert(user_index(b0.users, id) == idx as int);
        }
        let ghost users0 = self.users.deep_view();
        let mut u = self.users.remove(idx);
        let f = u.mailbox.next_frame();
        let ghost uv: UserV = u@;
        self.users.insert(idx, u);
        proof {
            assert(self.users.deep_view() =~= users0.update(idx as int, uv));
            if b0.users[idx as int].mailbox.frames.len() == 0 {
                assert(self.users.deep_view() =~= users0);
                assert(self@ == b0);
            } else {
                assert(uv == recv_t(b0, id).0.users[idx as int]);
                assert(self@.users =~= recv_t(b0, id).0.users);
                assert(self@ == recv_t(b0, id).0);
            }
            assert forall|i: int| 0 <= i < self@.users.len() implies (#[trigger] self@.users[i]).id
                == b0.users[i].id by {}
            lemma_wf_same_ids(b0, self@);
        }
        Ok(f)
    }

    /// Marks this client's consumer gone: its mailbox is closed, so the next
    /// sweep evicts it. Fails exactly when the id is unknown.
    pub fn disconnect(&mut self, id: u64) -> (r: Result<(), UnknownSender>)
        requires
            bc_wf(old(self)@),
        ensures
            bc_wf(final(self)@),
            match r {
                Ok(_) => has_user(old(self)@.users, id) && final(self)@ == disconnect_t(
                    old(self)@,
                    id,
                ),
                Err(_) => !has_user(old(self)@.users, id) && final(self)@ == old(self)@,
            },
    {
        let ghost b0 = self@;
        let idx = match self.find_user(id) {
            Some(i) => i,
            None => {
                return Err(UnknownSender);
            },
        };
        proof {
            lemma_user_index(b0.users, id);
            assert(user_index(b0.users, id) == idx as int);
        }
        let ghost users0 = self.users.deep_view();
        let mut u = self.users.remove(idx);
        u.mailbox.close();
        let ghost uv: UserV = u@;
        self.users.insert(idx, u);
        proof {
            assert(self.users.deep_view() =~= users0.update(idx as int, uv));
            assert(uv.mailbox.frames =~= b0.users[idx as int].mailbox.frames);
            assert(uv == disconnect_t(b0, id).users[idx as int]);
            assert(self@.users =~= disconnect_t(b0, id).users);
            assert(self@ == disconnect_t(b0, id));
            assert forall|i: int| 0 <= i < self@.users.len() implies (#[trigger] self@.users[i]).id
                == b0.users[i].id by {}
            lemma_wf_same_ids(b0, self@);
        }
        Ok(())
    }

    /// A copy of the history buffer as it stands: what the next joiner's
    /// `Connected` snapshot would carry.
    pub fn history_snapshot(&self) -> (r: Vec<UserMsg>)
        ensures
            r.deep_view() == self@.history,
    {
        copy_history(&self.history)
    }

    /// Whether the id space has room for another join. False only after
    /// 2^64 - 1 joins; callers outside the library test this before joining.
    pub fn can_join(&self) -> (r: bool)
        ensures
            r == (self@.next_id < u64::MAX),
    {
        self.next_id < u64::MAX
    }

    /// How many clients are registered.
    pub fn user_count(&self) -> (n: usize)
        ensures
            n == self@.users.len(),
    {
        self.users.len()
    }
}

} // verus!
