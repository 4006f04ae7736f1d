//! The messages of a conversation, and how a reply is told from its prompt.

use vstd::prelude::*;
use vstd::string::*;
use crate::backend::random::local_time;

verus! {

/// Who wrote a message.
#[derive(Debug, Clone, Copy, PartialEq, Eq, Structural)]
pub enum Sender {
    User,
    ChatCLM,
}

/// One message of a conversation.
#[derive(Debug, Clone, PartialEq, Eq)]
pub struct Message {
    pub message: String,
    pub time_iso: String,
    pub sender: Sender,
}

impl Message {
    /// Whether the user wrote the message.
    pub fn is_user_msg(&self) -> (from_user: bool)
        ensures
            from_user == (self.sender == Sender::User),
    {
        self.sender == Sender::User
    }

    /// A message written now.
    pub fn new(message: String, sender: Sender) -> (created: Self)
        ensures
            created.message == message,
            created.sender == sender,
    {
        let time_iso = match local_time("%Y-%m-%d %H:%M:%S") {
            Some(time) => time,
            None => String::new(),
        };
        Self { message, time_iso, sender }
    }
}

/// The messages of a conversation, oldest first.
#[derive(Debug, Clone, PartialEq, Eq)]
pub struct ChatHistory {
    pub messages: Vec<Message>,
}

impl Default for ChatHistory {
    fn default() -> (history: Self)
        ensures
            history.messages@.len() == 0,
    {
        ChatHistory { messages: Vec::new() }
    }
}

impl ChatHistory {
    /// Whether `after` is `before` with one more message at the end, with the
    /// given text and sender.
    pub open spec fn extended(before: Self, after: Self, message: String, sender: Sender) -> bool {
        &&& after.messages@.len() == before.messages@.len() + 1
        &&& after.messages@.drop_last() == before.messages@
        &&& after.messages@.last().message == message
        &&& after.messages@.last().sender == sender
    }

    /// Puts `message` at the end.
    pub fn add_message(&mut self, message: Message)
        ensures
            final(self).messages@ == old(self).messages@.push(message),
    {
        self.messages.push(message);
    }

    /// Puts a message of the server, written now, at the end.
    pub fn new_server_message(&mut self, message: String)
        ensures
            ChatHistory::extended(*old(self), *final(self), message, Sender::ChatCLM),
    {
        self.add_message(Message::new(message, Sender::ChatCLM));
        proof {
            assert(self.messages@.drop_last() =~= old(self).messages@);
        }
    }

    /// Puts a message of the user, written now, at the end.
    pub fn new_user_message(&mut self, message: String)
        ensures
            ChatHistory::extended(*old(self), *final(self), message, Sender::User),
    {
        self.add_message(Message::new(message, Sender::User));
        proof {
            assert(self.messages@.drop_last() =~= old(self).messages@);
        }
    }

    /// Puts `message` in the place of the last message's text if the server
    /// wrote that message; changes nothing otherwise.
    pub fn replace_last_server_message(&mut self, message: String)
        ensures
            final(self).messages@.len() == old(self).messages@.len(),
            forall|i: int|
                0 <= i < old(self).messages@.len() - 1 ==> final(self).messages@[i] == old(
                    self,
                ).messages@[i],
            old(self).messages@.len() > 0 ==> {
                let before = old(self).messages@.last();
                let after = final(self).messages@.last();
                &&& after.sender == before.sender
                &&& after.time_iso == before.time_iso
                &&& after.message == if before.sender == Sender::ChatCLM {
                    message
                } else {
                    before.message
                }
            },
    {
        let count: usize = self.messages.len();
        if count > 0 {
            if self.messages[count - 1].sender == Sender::ChatCLM {
                let last = self.messages.pop().unwrap();
                self.messages.push(Message { message, time_iso: last.time_iso, sender: last.sender });
            }
        }
    }
}

/// Whether `c` is white space, as Unicode's `White_Space` property has it.
pub open spec fn is_space(c: char) -> bool {
    let code = c as u32;
    ||| 0x09 <= code <= 0x0d
    ||| code == 0x20
    ||| code == 0x85
    ||| code == 0xa0
    ||| code == 0x1680
    ||| 0x2000 <= code <= 0x200a
    ||| code == 0x2028
    ||| code == 0x2029
    ||| code == 0x202f
    ||| code == 0x205f
    ||| code == 0x3000
}

/// The number of white-space characters that `text` starts with.
pub open spec fn leading_spaces(text: Seq<char>) -> nat
    decreases text.len(),
{
    if text.len() > 0 && is_space(text[0]) {
        1 + leading_spaces(text.skip(1))
    } else {
        0
    }
}

/// The number of white-space characters that `text` ends with.
pub open spec fn trailing_spaces(text: Seq<char>) -> nat
    decreases text.len(),
{
    if text.len() > 0 && is_space(text.last()) {
        1 + trailing_spaces(text.drop_last())
    } else {
        0
    }
}

/// `text` without the white space at its start and at its end.
pub open spec fn trimmed(text: Seq<char>) -> Seq<char> {
    let rest = text.skip(leading_spaces(text) as int);
    rest.take(rest.len() - trailing_spaces(rest))
}

/// What `response` adds to `prompt`: where the trimmed response starts with
/// the trimmed prompt, what follows, trimmed; otherwise the trimmed response.
pub open spec fn continuation(prompt: Seq<char>, response: Seq<char>) -> Seq<char> {
    let asked = trimmed(prompt);
    let answered = trimmed(response);
    if asked.is_prefix_of(answered) {
        trimmed(answered.skip(asked.len() as int))
    } else {
        answered
    }
}

/// No text starts or ends with more white space than it has characters.
pub proof fn lemma_spaces_fit(text: Seq<char>)
    ensures
        leading_spaces(text) <= text.len(),
        trailing_spaces(text) <= text.len(),
    decreases text.len(),
{
    if text.len() > 0 {
        lemma_spaces_fit(text.skip(1));
        lemma_spaces_fit(text.drop_last());
    }
}

/// Whether `c` is white space.
pub fn is_whitespace(c: char) -> (space: bool)
    ensures
        space == is_space(c),
{
    let code: u32 = c as u32;
    (0x09 <= code && code <= 0x0d) || code == 0x20 || code == 0x85 || code == 0xa0 || code
        == 0x1680 || (0x2000 <= code && code <= 0x200a) || code == 0x2028 || code == 0x2029
        || code == 0x202f || code == 0x205f || code == 0x3000
}

/// Where the trimmed part of `text[from..to]` starts and ends, counted in
/// characters of `text`.
fn trim_bounds(text: &str, from: usize, to: usize) -> (bounds: (usize, usize))
    requires
        from <= to <= text@.len(),
    ensures
        from <= bounds.0 <= bounds.1 <= to,
        text@.subrange(bounds.0 as int, bounds.1 as int) == trimmed(
            text@.subrange(from as int, to as int),
        ),
{
    let ghost part = text@.subrange(from as int, to as int);
    let mut start: usize = from;
    proof {
        assert(part.skip(0) =~= part);
    }
    while start < to && is_whitespace(text.get_char(start))
        invariant
            from <= start <= to <= text@.len(),
            part == text@.subrange(from as int, to as int),
            (start - from) + leading_spaces(part.skip(start - from)) == leading_spaces(part),
        decreases to - start,
    {
        proof {
            let rest = part.skip(start - from);
            assert(rest[0] == text@[start as int]);
            assert(rest.skip(1) =~= part.skip(start + 1 - from));
        }
        start += 1;
    }
    proof {
        let rest = part.skip(start - from);
        if start < to {
            assert(rest[0] == text@[start as int]);
        }
        assert(leading_spaces(rest) == 0);
    }
    let ghost rest = part.skip(start - from);
    let mut end: usize = to;
    proof {
        assert(rest.take(rest.len() as int) =~= rest);
    }
    while end > start && is_whitespace(text.get_char(end - 1))
        invariant
            from <= start <= end <= to <= text@.len(),
            part == text@.subrange(from as int, to as int),
            rest == part.skip(start - from),
            (to - end) + trailing_spaces(rest.take(end - start)) == trailing_spaces(rest),
        decreases end - start,
    {
        proof {
            let head = rest.take(end - start);
            assert(head.last() == text@[end - 1]);
            assert(head.drop_last() =~= rest.take(end - 1 - start));
        }
        end -= 1;
    }
    proof {
        let head = rest.take(end - start);
        if end > start {
            assert(head.last() == text@[end - 1]);
        }
        assert(trailing_spaces(head) == 0);
        assert(text@.subrange(start as int, end as int) =~= rest.take(rest.len() - (to - end)));
    }
    (start, end)
}

/// Whether `text[b.0..b.1]` starts with `begin[a.0..a.1]`.
fn starts_with(text: &str, b: (usize, usize), begin: &str, a: (usize, usize)) -> (does: bool)
    requires
        a.0 <= a.1 <= begin@.len(),
        b.0 <= b.1 <= text@.len(),
    ensures
        does == begin@.subrange(a.0 as int, a.1 as int).is_prefix_of(
            text@.subrange(b.0 as int, b.1 as int),
        ),
{
    let ghost short = begin@.subrange(a.0 as int, a.1 as int);
    let ghost long = text@.subrange(b.0 as int, b.1 as int);
    if a.1 - a.0 > b.1 - b.0 {
        return false;
    }
    let count: usize = a.1 - a.0;
    let mut i: usize = 0;
    while i < count
        invariant
            i <= count,
            count == a.1 - a.0,
            count <= b.1 - b.0,
            a.0 <= a.1 <= begin@.len(),
            b.0 <= b.1 <= text@.len(),
            short == begin@.subrange(a.0 as int, a.1 as int),
            long == text@.subrange(b.0 as int, b.1 as int),
            forall|k: int| 0 <= k < i ==> short[k] == long[k],
        decreases count - i,
    {
        if begin.get_char(a.0 + i) != text.get_char(b.0 + i) {
            proof {
                assert(short[i as int] != long[i as int]);
                if short.is_prefix_of(long) {
                    assert(long.subrange(0, short.len() as int)[i as int] == short[i as int]);
                }
            }
            return false;
        }
        i += 1;
    }
    proof {
        assert(short =~= long.subrange(0, short.len() as int));
    }
    true
}

/// What `response` adds to `prompt`.
pub fn cut_prompt(prompt: &String, response: &String) -> (rest: String)
    ensures
        rest@ == continuation(prompt@, response@),
{
    let asked = prompt.as_str();
    let answered = response.as_str();
    let a = trim_bounds(asked, 0, asked.unicode_len());
    let b = trim_bounds(answered, 0, answered.unicode_len());
    proof {
        assert(asked@.subrange(0, asked@.len() as int) =~= asked@);
        assert(answered@.subrange(0, answered@.len() as int) =~= answered@);
    }
    if starts_with(answered, b, asked, a) {
        let c = trim_bounds(answered, b.0 + (a.1 - a.0), b.1);
        proof {
            assert(answered@.subrange(b.0 + (a.1 - a.0), b.1 as int) =~= trimmed(answered@).skip(
                trimmed(asked@).len() as int,
            ));
        }
        String::from_str(answered.substring_char(c.0, c.1))
    } else {
        String::from_str(answered.substring_char(b.0, b.1))
    }
}

} // verus!
