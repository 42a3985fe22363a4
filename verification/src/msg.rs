//! The event envelope: the typed unit pushed to every connected client, and
//! the payload records it carries.
use vstd::prelude::*;

verus! {

/// One chat message as it is kept in the history buffer and carried by a
/// `Message` envelope: who said it, with which custom color, what, and when
/// (seconds since the Unix epoch, UTC).
#[derive(Debug, PartialEq, Eq)]
pub struct UserMsg {
    pub nick: String,
    pub custom_nick_color: Option<String>,
    pub msg: String,
    pub time: u64,
}

/// Mathematical model of a `UserMsg`.
#[verifier::ext_equal]
pub struct UserMsgV {
    pub nick: Seq<char>,
    pub custom_nick_color: Option<Seq<char>>,
    pub msg: Seq<char>,
    pub time: u64,
}

impl View for UserMsg {
    type V = UserMsgV;

    open spec fn view(&self) -> UserMsgV {
        UserMsgV {
            nick: self.nick@,
            custom_nick_color: match self.custom_nick_color {
                Some(c) => Some(c@),
                None => None,
            },
            msg: self.msg@,
            time: self.time,
        }
    }
}

impl DeepView for UserMsg {
    type V = UserMsgV;

    open spec fn deep_view(&self) -> UserMsgV {
        self.view()
    }
}

impl UserMsg {
    /// An exact copy; written out because a derived clone says nothing to the
    /// verifier about the copied fields.
    pub fn duplicate(&self) -> (r: UserMsg)
        ensures
            r@ == self@,
    {
        UserMsg {
            nick: self.nick.clone(),
            custom_nick_color: match &self.custom_nick_color {
                Some(c) => Some(c.clone()),
                None => None,
            },
            msg: self.msg.clone(),
            time: self.time,
        }
    }
}

/// A stored paste as the core sees it: a payload to broadcast, owned by the
/// external store. `creation_date` is seconds since the Unix epoch.
#[derive(Debug, PartialEq, Eq)]
pub struct Paste {
    pub id: i64,
    pub filename: Option<String>,
    pub content: Option<String>,
    pub creation_date: u64,
}

/// Mathematical model of a `Paste`.
#[verifier::ext_equal]
pub struct PasteV {
    pub id: i64,
    pub filename: Option<Seq<char>>,
    pub content: Option<Seq<char>>,
    pub creation_date: u64,
}

impl View for Paste {
    type V = PasteV;

    open spec fn view(&self) -> PasteV {
        PasteV {
            id: self.id,
            filename: match self.filename {
                Some(f) => Some(f@),
                None => None,
            },
            content: match self.content {
                Some(c) => Some(c@),
                None => None,
            },
            creation_date: self.creation_date,
        }
    }
}

/// The event envelope. `Connected` carries the history snapshot handed to a
/// client at join time; `Ping` is the liveness probe and carries nothing;
/// the rest carry one payload each.
#[derive(Debug, PartialEq, Eq)]
pub enum Msg {
    Connected(Vec<UserMsg>),
    Ping,
    Message(UserMsg),
    Paste(Paste),
    NickChange(String),
    ColorChange(String),
}

/// Mathematical model of an envelope.
#[verifier::ext_equal]
pub enum MsgV {
    Connected(Seq<UserMsgV>),
    Ping,
    Message(UserMsgV),
    Paste(PasteV),
    NickChange(Seq<char>),
    ColorChange(Seq<char>),
}

impl View for Msg {
    type V = MsgV;

    open spec fn view(&self) -> MsgV {
        match self {
            Msg::Connected(h) => MsgV::Connected(h.deep_view()),
            Msg::Ping => MsgV::Ping,
            Msg::Message(m) => MsgV::Message(m@),
            Msg::Paste(p) => MsgV::Paste(p@),
            Msg::NickChange(n) => MsgV::NickChange(n@),
            Msg::ColorChange(c) => MsgV::ColorChange(c@),
        }
    }
}

/// Copies a history buffer, element for element.
pub fn copy_history(h: &Vec<UserMsg>) -> (r: Vec<UserMsg>)
    ensures
        r.deep_view() == h.deep_view(),
{
    let mut r: Vec<UserMsg> = Vec::new();
    let mut i: usize = 0;
    while i < h.len()
        invariant
            i <= h.len(),
            r@.len() == i,
            r.deep_view() =~~= h.deep_view().subrange(0, i as int),
        decreases h.len() - i,
    {
        let ghost r0: Seq<UserMsg> = r@;
        r.push(h[i].duplicate());
        proof {
            assert forall|j: int| 0 <= j < i + 1 implies r.deep_view()[j] == h.deep_view()[j] by {
                if j < i {
                    assert(r0[j].deep_view() == h.deep_view().subrange(0, i as int)[j]);
                }
            }
            assert(r.deep_view() =~~= h.deep_view().subrange(0, i as int + 1));
        }
        i = i + 1;
    }
    assert(r.deep_view() =~~= h.deep_view());
    r
}

impl Msg {
    /// A `Message` envelope around one chat message.
    pub fn user_msg(msg: UserMsg) -> (r: Msg)
        ensures
            r@ == MsgV::Message(msg@),
    {
        Msg::Message(msg)
    }

    /// A `Connected` envelope carrying a copy of the given history buffer,
    /// not a live view of it.
    pub fn connected(history: &Vec<UserMsg>) -> (r: Msg)
        ensures
            r@ == MsgV::Connected(history.deep_view()),
    {
        Msg::Connected(copy_history(history))
    }

    /// A `Paste` envelope around one stored paste.
    pub fn paste_msg(paste: Paste) -> (r: Msg)
        ensures
            r@ == MsgV::Paste(paste@),
    {
        Msg::Paste(paste)
    }

    /// A `ColorChange` envelope carrying the new color value.
    pub fn color_change_msg(color: String) -> (r: Msg)
        ensures
            r@ == MsgV::ColorChange(color@),
    {
        Msg::ColorChange(color)
    }

    /// A `NickChange` envelope carrying the new nickname.
    pub fn nick_change_msg(nick: String) -> (r: Msg)
        ensures
            r@ == MsgV::NickChange(nick@),
    {
        Msg::NickChange(nick)
    }
}

} // verus!
