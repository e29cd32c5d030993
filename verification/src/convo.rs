//! Conversations: role-tagged messages bound to one model identifier, and
//! the JSON request body sent to the inference endpoint.
use vstd::prelude::*;

verus! {

/// Who speaks a message.
#[derive(Debug, Clone, Copy, PartialEq, Eq, Structural)]
pub enum Role {
    User,
    Assistant,
}

/// The wire name of a role.
pub open spec fn role_text(r: Role) -> Seq<char> {
    match r {
        Role::User => "user"@,
        Role::Assistant => "assistant"@,
    }
}

impl Role {
    /// The wire name of this role.
    pub fn as_text(&self) -> (r: &'static str)
        ensures
            r@ == role_text(*self),
    {
        match self {
            Role::User => "user",
            Role::Assistant => "assistant",
        }
    }
}

/// One turn of a conversation.
pub struct Message {
    pub role: Role,
    pub content: String,
}

/// The mathematical content of a message: its role and its text.
pub open spec fn msg_data(m: Message) -> (Role, Seq<char>) {
    (m.role, m.content@)
}

/// The content of a message list.
pub open spec fn msgs_data(ms: Seq<Message>) -> Seq<(Role, Seq<char>)> {
    ms.map_values(|m: Message| msg_data(m))
}

/// A conversation: the model it belongs to and its turns in order.
pub struct Conversation {
    pub model: String,
    pub messages: Vec<Message>,
}

/// The JSON object of one message. The content is spliced in as it stands,
/// without JSON escaping: the stream decoder on the other side expects this
/// naive form.
pub open spec fn msg_json(m: (Role, Seq<char>)) -> Seq<char> {
    "{\"role\":\""@ + role_text(m.0) + "\",\"content\":\""@ + m.1 + "\"}"@
}

/// The message objects each followed by one comma.
pub open spec fn msgs_commas(ms: Seq<(Role, Seq<char>)>) -> Seq<char>
    decreases ms.len(),
{
    if ms.len() == 0 {
        Seq::empty()
    } else {
        msgs_commas(ms.drop_last()) + msg_json(ms.last()) + seq![',']
    }
}

/// The request body for a conversation: model, message list and the
/// streaming flag. The character before the closing bracket is dropped: with
/// messages present it is the trailing comma; with none it is the opening
/// bracket itself, leaving a degenerate body — callers always append the
/// user prompt before sending.
pub open spec fn conv_json(model: Seq<char>, ms: Seq<(Role, Seq<char>)>) -> Seq<char> {
    let base = "{\"model\":\""@ + model + "\",\"messages\":["@ + msgs_commas(ms);
    base.take(base.len() - 1) + "],\"stream\":true}"@
}

impl Message {
    /// Renders this message as its JSON object.
    pub fn to_json_string(&self) -> (r: String)
        ensures
            r@ == msg_json(msg_data(*self)),
    {
        let mut r = String::new();
        r.append("{\"role\":\"");
        r.append(self.role.as_text());
        r.append("\",\"content\":\"");
        r.append(self.content.as_str());
        r.append("\"}");
        r
    }
}

impl Conversation {
    /// An empty conversation for a model.
    pub fn new(model: String) -> (c: Conversation)
        ensures
            c.model@ == model@,
            c.messages@.len() == 0,
    {
        Conversation { model, messages: Vec::new() }
    }

    /// Appends one turn.
    pub fn push_message(&mut self, role: Role, content: String)
        ensures
            final(self).model@ == old(self).model@,
            msgs_data(final(self).messages@) == msgs_data(old(self).messages@).push(
                (role, content@),
            ),
    {
        let ghost oldm = msgs_data(self.messages@);
        let m = Message { role, content };
        proof {
            assert(msgs_data(self.messages@.push(m)) =~= oldm.push(msg_data(m)));
        }
        self.messages.push(m);
    }

    /// Renders the streaming request body for this conversation.
    pub fn to_json_string(&self) -> (r: String)
        ensures
            r@ == conv_json(self.model@, msgs_data(self.messages@)),
    {
        let ghost ms = msgs_data(self.messages@);
        let mut base = String::new();
        base.append("{\"model\":\"");
        base.append(self.model.as_str());
        base.append("\",\"messages\":[");
        let ghost pre = base@;
        let mut i: usize = 0;
        proof {
            assert(base@ =~= pre + msgs_commas(ms.take(0)));
        }
        while i < self.messages.len()
            invariant
                i <= self.messages@.len(),
                ms == msgs_data(self.messages@),
                ms.len() == self.messages@.len(),
                base@ =~= pre + msgs_commas(ms.take(i as int)),
            decreases self.messages@.len() - i,
        {
            let mj = self.messages[i].to_json_string();
            base.append(mj.as_str());
            base.append(",");
            proof {
                reveal_strlit(",");
                assert(ms.take(i + 1).drop_last() =~= ms.take(i as int));
                assert(ms.take(i + 1).last() == ms[i as int]);
                assert(msg_data(self.messages@[i as int]) == ms[i as int]);
                assert(","@ =~= seq![',']);
            }
            i += 1;
        }
        proof {
            assert(ms.take(ms.len() as int) =~= ms);
            reveal_strlit("{\"model\":\"");
        }
        let blen = base.as_str().unicode_len();
        let trimmed = base.as_str().substring_char(0, blen - 1);
        let mut r = trimmed.to_owned();
        r.append("],\"stream\":true}");
        proof {
            let basev = pre + msgs_commas(ms);
            assert(trimmed@ == basev.subrange(0, basev.len() - 1));
            assert(basev.subrange(0, basev.len() - 1) =~= basev.take(basev.len() - 1));
            assert(("{\"model\":\""@ + self.model@ + "\",\"messages\":["@) =~= pre);
            assert(("{\"model\":\""@ + self.model@ + "\",\"messages\":["@ + msgs_commas(ms))
                =~= basev);
        }
        r
    }
}

} // verus!
