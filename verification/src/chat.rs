//! State of the chat line (key T): text entry, and a bounded history of
//! time-stamped messages, newest last. Commands are executed by the caller.

use vstd::prelude::*;
use std::collections::VecDeque;
use std::time::Instant;
use vstd::utf8::encode_utf8;
use crate::text::{control_char, is_control, string_pop, string_push, trim, trimmed};

verus! {

/// Most messages kept in the history.
pub const MAX_HISTORY: usize = 50;

/// Most messages shown at once.
pub const VISIBLE_LINES: usize = 10;

/// Most bytes (UTF-8) of text entered on one line.
pub const MAX_INPUT_BYTES: usize = 200;

/// `std::time::Instant`, declared so that history entries can carry their time
/// stamp; proofs see nothing inside it.
#[verifier::external_type_specification]
#[verifier::external_body]
pub struct ExInstant(Instant);

/// Calls `Instant::now` for the current instant. Trusted, and nothing is claimed
/// of the value, which depends on the clock.
#[verifier::external_body]
fn now() -> Instant {
    Instant::now()
}

/// Input after typing `c`: kept when it is not a control character and the line
/// holds fewer than 200 bytes (its byte length as `str::len` reports it).
pub open spec fn type_char(input: Seq<char>, c: char) -> Seq<char> {
    if !control_char(c) && (encode_utf8(input).len() as usize) < MAX_INPUT_BYTES {
        input.push(c)
    } else {
        input
    }
}

/// Input after typing the characters of `s` in order.
pub open spec fn typed(input: Seq<char>, s: Seq<char>) -> Seq<char>
    decreases s.len(),
{
    if s.len() == 0 {
        input
    } else {
        type_char(typed(input, s.drop_last()), s.last())
    }
}

/// History after appending `msg`: the newest 50 messages.
pub open spec fn pushed<T>(history: Seq<T>, msg: T) -> Seq<T> {
    let all = history.push(msg);
    if all.len() > MAX_HISTORY {
        all.skip(all.len() - MAX_HISTORY)
    } else {
        all
    }
}

/// Chat state: open or closed, the line being typed, the time-stamped history.
pub struct Chat {
    open: bool,
    input: String,
    history: VecDeque<(String, Instant)>,
}

impl Default for Chat {
    fn default() -> (r: Self)
        ensures
            !r.is_open(),
            r.input_view() == Seq::<char>::empty(),
            r.history_view() == Seq::<(String, Instant)>::empty(),
    {
        Chat { open: false, input: String::new(), history: VecDeque::new() }
    }
}

impl Chat {
    /// `true` while the chat is open.
    pub closed spec fn spec_is_open(&self) -> bool {
        self.open
    }

    /// The line being typed.
    pub closed spec fn input_view(&self) -> Seq<char> {
        self.input@
    }

    /// The history, oldest first.
    pub closed spec fn history_view(&self) -> Seq<(String, Instant)> {
        self.history@
    }

    /// `true` while the chat is open.
    #[verifier::when_used_as_spec(spec_is_open)]
    pub fn is_open(&self) -> (r: bool)
        ensures
            r == self.spec_is_open(),
    {
        self.open
    }

    /// Opens the chat with an empty line.
    pub fn open(&mut self)
        ensures
            final(self).is_open(),
            final(self).input_view() == Seq::<char>::empty(),
            final(self).history_view() == old(self).history_view(),
    {
        self.open = true;
        self.input = String::new();
    }

    /// Opens the chat with `prefix` already typed (e.g. "/" for a command).
    pub fn open_with(&mut self, prefix: &str)
        ensures
            final(self).is_open(),
            final(self).input_view() == prefix@,
            final(self).history_view() == old(self).history_view(),
    {
        self.open = true;
        self.input = String::new();
        self.input.append(prefix);
    }

    /// Closes the chat without sending.
    pub fn close(&mut self)
        ensures
            !final(self).is_open(),
            final(self).input_view() == Seq::<char>::empty(),
            final(self).history_view() == old(self).history_view(),
    {
        self.open = false;
        self.input = String::new();
    }

    /// Types text: printable characters only, up to 200 bytes on the line.
    pub fn type_str(&mut self, s: &str)
        ensures
            final(self).is_open() == old(self).is_open(),
            final(self).input_view() == typed(old(self).input_view(), s@),
            final(self).history_view() == old(self).history_view(),
    {
        let ghost start = self.input@;
        for ch in it: s.chars()
            invariant
                it.seq() == s@,
                self.open == old(self).is_open(),
                self.history == old(self).history,
                start == old(self).input_view(),
                self.input@ == typed(start, s@.take(it.index())),
        {
            let ghost before = self.input@;
            if !is_control(ch) && self.input.as_str().len() < MAX_INPUT_BYTES {
                string_push(&mut self.input, ch);
            }
            proof {
                let t = s@.take(it.index() + 1);
                assert(t.drop_last() =~= s@.take(it.index()));
                assert(t.last() == ch);
            }
        }
        assert(s@.take(s@.len() as int) =~= s@);
    }

    /// Deletes the last character typed.
    pub fn backspace(&mut self)
        ensures
            final(self).is_open() == old(self).is_open(),
            final(self).input_view() == (if old(self).input_view().len() == 0 {
                old(self).input_view()
            } else {
                old(self).input_view().drop_last()
            }),
            final(self).history_view() == old(self).history_view(),
    {
        string_pop(&mut self.input);
    }

    /// Sends the line: returns it trimmed (`None` when blank) and closes the chat.
    pub fn submit(&mut self) -> (r: Option<String>)
        ensures
            !final(self).is_open(),
            final(self).input_view() == Seq::<char>::empty(),
            final(self).history_view() == old(self).history_view(),
            trimmed(old(self).input_view()).len() == 0 ==> r == None::<String>,
            trimmed(old(self).input_view()).len() > 0 ==> (r matches Some(line) && line@ == trimmed(old(self).input_view())),
    {
        let line = trim(self.input.as_str());
        self.open = false;
        self.input = String::new();
        if line.as_str().is_empty() {
            None
        } else {
            Some(line)
        }
    }

    /// Adds a message to the history (command reply, chat), stamped with the
    /// current time; only the newest 50 are kept.
    pub fn push(&mut self, msg: String)
        ensures
            final(self).is_open() == old(self).is_open(),
            final(self).input_view() == old(self).input_view(),
            final(self).history_view().len() > 0,
            final(self).history_view().last().0 == msg,
            final(self).history_view() == pushed(old(self).history_view(), final(self).history_view().last()),
    {
        let t = now();
        let n0 = self.history.len();
        let ghost all = self.history@.push((msg, t));
        self.history.push_back((msg, t));
        assert(self.history@ == all);
        let mut dropped: usize = 0;
        while self.history.len() > MAX_HISTORY
            invariant
                self.open == old(self).is_open(),
                self.input == old(self).input,
                all.len() == old(self).history@.len() + 1,
                all.len() == n0 + 1,
                dropped <= all.len(),
                self.history@ == all.skip(dropped as int),
                self.history@.len() > MAX_HISTORY ==> dropped + MAX_HISTORY < all.len(),
                self.history@.len() <= MAX_HISTORY ==> dropped == (if all.len() > MAX_HISTORY { all.len() - MAX_HISTORY } else { 0 }),
            decreases self.history@.len(),
        {
            self.history.pop_front();
            assert(all.skip(dropped as int).drop_first() =~= all.skip(dropped + 1));
            dropped = dropped + 1;
        }
        proof {
            assert(all.last() == (msg, t));
            if all.len() > MAX_HISTORY {
                assert(self.history@.last() == all.last());
            } else {
                assert(self.history@ == all);
            }
        }
    }

    /// The newest messages, at most 10, newest first.
    pub fn recent_lines(&self) -> (r: Vec<&(String, Instant)>)
        ensures
            r@.len() == (if self.history_view().len() < VISIBLE_LINES { self.history_view().len() } else { VISIBLE_LINES as nat }),
            forall|i: int| 0 <= i < r@.len() ==> *(#[trigger] r@[i]) == self.history_view()[self.history_view().len() - 1 - i],
    {
        let n = self.history.len();
        let mut out: Vec<&(String, Instant)> = Vec::new();
        let mut i: usize = 0;
        while i < n && i < VISIBLE_LINES
            invariant
                n == self.history@.len(),
                i <= n,
                i <= VISIBLE_LINES,
                out@.len() == i,
                forall|j: int| 0 <= j < i ==> *(#[trigger] out@[j]) == self.history@[n - 1 - j],
            decreases n - i,
        {
            out.push(&self.history[n - 1 - i]);
            i = i + 1;
        }
        out
    }

    /// The line being typed.
    pub fn input(&self) -> (r: &str)
        ensures
            r@ == self.input_view(),
    {
        self.input.as_str()
    }
}

/// The history never holds more than 50 messages, and the message just pushed is
/// the newest one.
pub proof fn law_history_bounded<T>(history: Seq<T>, msg: T)
    ensures
        pushed(history, msg).len() <= MAX_HISTORY,
        pushed(history, msg).len() > 0,
        pushed(history, msg).last() == msg,
{
}

/// Pushing onto a history of n messages keeps min(n + 1, 50) of them: the old
/// history less only its oldest max(0, n + 1 - 50) entries, then the new message.
pub proof fn law_push_drops_only_the_oldest<T>(history: Seq<T>, msg: T)
    ensures
        history.len() < 50 ==> pushed(history, msg).len() == history.len() + 1,
        history.len() >= 50 ==> pushed(history, msg).len() == 50,
        forall|i: int| 0 <= i < pushed(history, msg).len() - 1 ==> #[trigger] pushed(history, msg)[i]
            == history[i + history.len() + 1 - pushed(history, msg).len()],
        pushed(history, msg)[pushed(history, msg).len() - 1] == msg,
{
}

/// Typing keeps what was already typed and only ever adds non-control characters
/// taken from the typed text.
pub proof fn law_typing_appends(input: Seq<char>, s: Seq<char>)
    ensures
        input.is_prefix_of(typed(input, s)),
        forall|i: int| input.len() <= i < typed(input, s).len() ==> !control_char(#[trigger] typed(input, s)[i])
            && s.contains(typed(input, s)[i]),
    decreases s.len(),
{
    if s.len() > 0 {
        let init = s.drop_last();
        law_typing_appends(input, init);
        let t = typed(input, init);
        assert forall|i: int| input.len() <= i < typed(input, s).len() implies !control_char(#[trigger] typed(input, s)[i])
            && s.contains(typed(input, s)[i]) by {
            if i < t.len() {
                assert(typed(input, s)[i] == t[i]);
                let k = choose|k: int| 0 <= k < init.len() && init[k] == t[i];
                assert(s[k] == init[k]);
            } else {
                assert(typed(input, s)[i] == s.last());
                assert(s[s.len() - 1] == s.last());
            }
        }
    }
}

/// Backspace undoes typing: when a typed character was kept, deleting the last
/// character gives back the line as it was before.
pub proof fn law_backspace_undoes_typing(input: Seq<char>, c: char)
    ensures
        type_char(input, c) != input ==> type_char(input, c).len() > 0 && type_char(input, c).drop_last() == input,
{
    if type_char(input, c) != input {
        assert(input.push(c).drop_last() =~= input);
    }
}

} // verus!
