//! The wire form of an event envelope: one server-sent-events frame,
//! `data: ` + JSON + two newlines. The spec functions here define the frame
//! exactly; `event_data` builds it.
use vstd::prelude::*;

use crate::json::{
    append_i64, append_json_opt_string, append_json_string, json_int, json_opt_string, json_string,
};
use crate::msg::{Msg, MsgV, Paste, PasteV, UserMsg, UserMsgV};
use crate::rfc3339::{append_datetime, rfc3339_of};

verus! {

/// The JSON object for one chat message.
pub open spec fn json_user_msg(m: UserMsgV) -> Seq<char> {
    "{\"nick\":"@ + json_string(m.nick) + ",\"custom_nick_color\":"@ + json_opt_string(
        m.custom_nick_color,
    ) + ",\"msg\":"@ + json_string(m.msg) + ",\"time\":\""@ + rfc3339_of(m.time) + "\"}"@
}

/// The comma-separated items of a history snapshot.
pub open spec fn json_history_items(h: Seq<UserMsgV>) -> Seq<char>
    decreases h.len(),
{
    if h.len() == 0 {
        Seq::empty()
    } else if h.len() == 1 {
        json_user_msg(h[0])
    } else {
        json_user_msg(h[0]) + ","@ + json_history_items(h.drop_first())
    }
}

/// The JSON array for a history snapshot.
pub open spec fn json_history(h: Seq<UserMsgV>) -> Seq<char> {
    "["@ + json_history_items(h) + "]"@
}

/// The JSON object for a paste.
pub open spec fn json_paste(p: PasteV) -> Seq<char> {
    "{\"id\":"@ + json_int(p.id as int) + ",\"filename\":"@ + json_opt_string(p.filename)
        + ",\"content\":"@ + json_opt_string(p.content) + ",\"creation_date\":\""@ + rfc3339_of(
        p.creation_date,
    ) + "\"}"@
}

/// The JSON object for an envelope: its type tag, and its payload unless the
/// variant carries none.
pub open spec fn json_msg(m: MsgV) -> Seq<char> {
    match m {
        MsgV::Connected(h) => "{\"type\":\"Connected\",\"data\":"@ + json_history(h) + "}"@,
        MsgV::Ping => "{\"type\":\"Ping\"}"@,
        MsgV::Message(um) => "{\"type\":\"Message\",\"data\":"@ + json_user_msg(um) + "}"@,
        MsgV::Paste(p) => "{\"type\":\"Paste\",\"data\":"@ + json_paste(p) + "}"@,
        MsgV::NickChange(s) => "{\"type\":\"NickChange\",\"data\":"@ + json_string(s) + "}"@,
        MsgV::ColorChange(s) => "{\"type\":\"ColorChange\",\"data\":"@ + json_string(s) + "}"@,
    }
}

/// One whole wire frame for an envelope.
pub open spec fn frame_of(m: MsgV) -> Seq<char> {
    "data: "@ + json_msg(m) + "\n\n"@
}

pub proof fn lemma_json_items_one(x: UserMsgV)
    ensures
        json_history_items(seq![x]) == json_user_msg(x),
{
}

pub proof fn lemma_json_items_push(s: Seq<UserMsgV>, x: UserMsgV)
    requires
        s.len() >= 1,
    ensures
        json_history_items(s.push(x)) == json_history_items(s) + ","@ + json_user_msg(x),
    decreases s.len(),
{
    if s.len() == 1 {
        let t = s.push(x);
        assert(t.len() == 2);
        assert(t.drop_first() =~= seq![x]);
        assert(t[0] == s[0]);
        lemma_json_items_one(x);
        assert(json_history_items(s) =~= json_user_msg(s[0]));
    } else {
        assert(s.push(x).drop_first() =~= s.drop_first().push(x));
        lemma_json_items_push(s.drop_first(), x);
        assert(json_history_items(s.push(x)) =~= json_history_items(s) + ","@ + json_user_msg(x));
    }
}

/// Appends the JSON object for one chat message.
fn append_user_msg(out: &mut String, m: &UserMsg)
    ensures
        final(out)@ == old(out)@ + json_user_msg(m@),
{
    out.append("{\"nick\":");
    append_json_string(out, m.nick.as_str());
    out.append(",\"custom_nick_color\":");
    append_json_opt_string(out, &m.custom_nick_color);
    out.append(",\"msg\":");
    append_json_string(out, m.msg.as_str());
    out.append(",\"time\":\"");
    append_datetime(out, m.time);
    out.append("\"}");
    assert(final(out)@ =~= old(out)@ + json_user_msg(m@));
}

/// Appends the JSON array for a history snapshot.
fn append_history(out: &mut String, h: &Vec<UserMsg>)
    ensures
        final(out)@ == old(out)@ + json_history(h.deep_view()),
{
    out.append("[");
    assert(out@ =~= old(out)@ + "["@ + json_history_items(h.deep_view().subrange(0, 0)));
    let mut i: usize = 0;
    while i < h.len()
        invariant
            i <= h.len(),
            h@.len() == h.deep_view().len(),
            out@ == old(out)@ + "["@ + json_history_items(h.deep_view().subrange(0, i as int)),
        decreases h.len() - i,
    {
        if i > 0 {
            out.append(",");
        }
        append_user_msg(out, &h[i]);
        proof {
            let hv = h.deep_view();
            assert(hv[i as int] == h@[i as int]@);
            if i == 0 {
                assert(hv.subrange(0, 1) =~= seq![hv[0]]);
                lemma_json_items_one(hv[0]);
                assert(out@ =~= old(out)@ + "["@ + json_history_items(hv.subrange(0, 1)));
            } else {
                assert(hv.subrange(0, i as int + 1) =~= hv.subrange(0, i as int).push(
                    hv[i as int],
                ));
                lemma_json_items_push(hv.subrange(0, i as int), hv[i as int]);
                assert(out@ =~= old(out)@ + "["@ + json_history_items(hv.subrange(0, i as int + 1)));
            }
        }
        i = i + 1;
    }
    out.append("]");
    proof {
        assert(h.deep_view().subrange(0, h@.len() as int) =~= h.deep_view());
        assert(final(out)@ =~= old(out)@ + json_history(h.deep_view()));
    }
}

/// Appends the JSON object for a paste.
fn append_paste(out: &mut String, p: &Paste)
    ensures
        final(out)@ == old(out)@ + json_paste(p@),
{
    out.append("{\"id\":");
    append_i64(out, p.id);
    out.append(",\"filename\":");
    append_json_opt_string(out, &p.filename);
    out.append(",\"content\":");
    append_json_opt_string(out, &p.content);
    out.append(",\"creation_date\":\"");
    append_datetime(out, p.creation_date);
    out.append("\"}");
    assert(final(out)@ =~= old(out)@ + json_paste(p@));
}

/// Appends the JSON object for an envelope.
fn append_msg(out: &mut String, m: &Msg)
    ensures
        final(out)@ == old(out)@ + json_msg(m@),
{
    match m {
        Msg::Connected(h) => {
            out.append("{\"type\":\"Connected\",\"data\":");
            append_history(out, h);
            out.append("}");
            assert(final(out)@ =~= old(out)@ + json_msg(m@));
        },
        Msg::Ping => {
            out.append("{\"type\":\"Ping\"}");
        },
        Msg::Message(um) => {
            out.append("{\"type\":\"Message\",\"data\":");
            append_user_msg(out, um);
            out.append("}");
            assert(final(out)@ =~= old(out)@ + json_msg(m@));
        },
        Msg::Paste(p) => {
            out.append("{\"type\":\"Paste\",\"data\":");
            append_paste(out, p);
            out.append("}");
            assert(final(out)@ =~= old(out)@ + json_msg(m@));
        },
        Msg::NickChange(s) => {
            out.append("{\"type\":\"NickChange\",\"data\":");
            append_json_string(out, s.as_str());
            out.append("}");
            assert(final(out)@ =~= old(out)@ + json_msg(m@));
        },
        Msg::ColorChange(s) => {
            out.append("{\"type\":\"ColorChange\",\"data\":");
            append_json_string(out, s.as_str());
            out.append("}");
            assert(final(out)@ =~= old(out)@ + json_msg(m@));
        },
    }
}

/// Serializes one envelope onto the wire: the frame a client's transport
/// loop writes out verbatim.
pub fn event_data(msg: &Msg) -> (r: String)
    ensures
        r@ == frame_of(msg@),
{
    let mut out = String::new();
    out.append("data: ");
    append_msg(&mut out, msg);
    out.append("\n\n");
    assert(out@ =~= frame_of(msg@));
    out
}

} // verus!
