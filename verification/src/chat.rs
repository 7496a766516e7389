//! Chat input and history: message normalisation, the bounded message log,
//! and the command-completion state of the input line.
use std::collections::VecDeque;

use vstd::prelude::*;
use vstd::string::{StrSliceExecFns, StringExecFns};
use vstd::utf8::{encode_utf8, is_char_boundary};
use crate::text::{pop_char, push_char};
use vstd::arithmetic::div_mod::{lemma_mod_add_multiples_vanish, lemma_mod_self_0, lemma_small_mod};

verus! {

/// The longest message, in characters, that is ever sent.
pub const MAX_MESSAGE_LEN: usize = 256;

/// How many messages the log keeps; older ones are dropped first.
pub const MAX_MESSAGES: usize = 100;

/// How many completions the popup shows at once.
pub const MAX_SUGGESTION_ROWS: usize = 10;

/// The Unicode `White_Space` property.
pub open spec fn white_space(c: char) -> bool {
    let u = c as u32;
    (0x09 <= u <= 0x0d) || u == 0x20 || u == 0x85 || u == 0xa0 || u == 0x1680 || (0x2000 <= u <= 0x200a)
        || u == 0x2028 || u == 0x2029 || u == 0x202f || u == 0x205f || u == 0x3000
}

/// Whether `c` has the Unicode `White_Space` property.
pub fn is_white_space(c: char) -> (r: bool)
    ensures
        r == white_space(c),
{
    let u = c as u32;
    (0x09 <= u && u <= 0x0d) || u == 0x20 || u == 0x85 || u == 0xa0 || u == 0x1680 || (0x2000 <= u && u
        <= 0x200a) || u == 0x2028 || u == 0x2029 || u == 0x202f || u == 0x205f || u == 0x3000
}

/// The words of `s`: its maximal runs of characters that are not white
/// space, in order.
pub open spec fn words(s: Seq<char>) -> Seq<Seq<char>>
    decreases s.len(),
{
    if s.len() == 0 {
        Seq::empty()
    } else {
        let w = words(s.drop_last());
        let c = s.last();
        if white_space(c) {
            w
        } else if s.len() >= 2 && !white_space(s[s.len() - 2]) {
            w.update(w.len() - 1, w.last().push(c))
        } else {
            w.push(seq![c])
        }
    }
}

/// The words joined by single spaces.
pub open spec fn join_words(ws: Seq<Seq<char>>) -> Seq<char>
    decreases ws.len(),
{
    if ws.len() == 0 {
        Seq::empty()
    } else if ws.len() == 1 {
        ws[0]
    } else {
        join_words(ws.drop_last()) + seq![' '] + ws.last()
    }
}

/// A chat message as sent: its words joined by single spaces, cut to
/// `MAX_MESSAGE_LEN` characters.
pub open spec fn normalized(s: Seq<char>) -> Seq<char> {
    let j = join_words(words(s));
    if j.len() <= MAX_MESSAGE_LEN {
        j
    } else {
        j.take(MAX_MESSAGE_LEN as int)
    }
}

/// A string that ends in a character that is not white space has a word.
proof fn lemma_words_nonempty(s: Seq<char>)
    requires
        s.len() > 0,
        !white_space(s.last()),
    ensures
        words(s).len() > 0,
    decreases s.len(),
{
    if s.len() >= 2 && !white_space(s[s.len() - 2]) {
        let t = s.drop_last();
        assert(t.last() == s[s.len() - 2]);
        lemma_words_nonempty(t);
    }
}

proof fn lemma_join_extend(ws: Seq<Seq<char>>, c: char)
    requires
        ws.len() > 0,
    ensures
        join_words(ws.update(ws.len() - 1, ws.last().push(c))) == join_words(ws).push(c),
{
    let ws2 = ws.update(ws.len() - 1, ws.last().push(c));
    if ws.len() == 1 {
    } else {
        assert(ws2.drop_last() =~= ws.drop_last());
        assert(ws2.last() == ws.last().push(c));
        assert(join_words(ws2) =~= join_words(ws).push(c));
    }
}

proof fn lemma_join_push(ws: Seq<Seq<char>>, c: char)
    ensures
        join_words(ws.push(seq![c])) == if ws.len() == 0 {
            seq![c]
        } else {
            join_words(ws) + seq![' ', c]
        },
{
    let ws2 = ws.push(seq![c]);
    assert(ws2.drop_last() =~= ws);
    if ws.len() > 0 {
        assert(join_words(ws2) =~= join_words(ws) + seq![' ', c]);
    }
}




/// Trims the ends, collapses each inner run of white space to one space,
/// and cuts the result to `MAX_MESSAGE_LEN` characters. A leading `/` is
/// kept, so commands still read as commands.
pub fn normalize_chat_message(s: &str) -> (r: String)
    ensures
        r@ == normalized(s@),
{
    broadcast use vstd::string::group_string_axioms;
    let mut collapsed: Vec<char> = Vec::new();
    let mut after_space = true;
    for c in it: s.chars()
        invariant
            it.seq() == s@,
            collapsed@ == join_words(words(s@.take(it.index()))),
            after_space == (it.index() == 0 || white_space(s@[it.index() - 1])),
            collapsed@.len() > 0 <==> words(s@.take(it.index())).len() > 0,
    {
        let ghost i = it.index();
        proof {
            assert(c == s@[i]);
            assert(s@.take(i + 1).drop_last() =~= s@.take(i));
            assert(s@.take(i + 1).last() == c);
            if i > 0 {
                assert(s@.take(i + 1)[i - 1] == s@[i - 1]);
            }
        }
        if is_white_space(c) {
            after_space = true;
        } else {
            proof {
                if !after_space {
                    lemma_words_nonempty(s@.take(i));
                    lemma_join_extend(words(s@.take(i)), c);
                } else {
                    lemma_join_push(words(s@.take(i)), c);
                }
            }
            if after_space && collapsed.len() > 0 {
                collapsed.push(' ');
            }
            collapsed.push(c);
            after_space = false;
        }
    }
    proof {
        assert(s@.take(s@.len() as int) =~= s@);
    }
    let mut out = String::new();
    let mut i: usize = 0;
    while i < collapsed.len() && i < MAX_MESSAGE_LEN
        invariant
            i <= collapsed.len(),
            i <= MAX_MESSAGE_LEN,
            out@ == collapsed@.take(i as int),
        decreases collapsed.len() - i,
    {
        push_char(&mut out, collapsed[i]);
        proof {
            assert(collapsed@.take(i + 1) =~= collapsed@.take(i as int).push(collapsed@[i as int]));
        }
        i += 1;
    }
    proof {
        assert(collapsed@.take(collapsed@.len() as int) =~= collapsed@);
    }
    out
}


/// What a command completer offers for the text after the `/`: the options,
/// and how many bytes at the end of that text each option replaces.
pub struct Suggestions {
    pub partial_len: usize,
    pub options: Vec<String>,
}

/// The views of a list of strings.
pub open spec fn string_views(v: Seq<String>) -> Seq<Seq<char>> {
    v.map_values(|s: String| s@)
}

/// The state of the chat as the contracts see it.
pub ghost struct ChatView<L> {
    pub messages: Seq<L>,
    pub input: Seq<char>,
    pub open: bool,
    pub cursor_reset: bool,
    pub suggestions: Seq<Seq<char>>,
    pub suggest_index: int,
    pub suggest_anchor: Seq<char>,
    pub suggest_applied: bool,
    pub last_computed: Seq<char>,
}

/// The chat log and input line. `L` is one received message as the
/// renderer keeps it.
pub struct ChatState<L> {
    messages: VecDeque<L>,
    input: String,
    open: bool,
    cursor_reset: bool,
    suggestions: Vec<String>,
    suggest_index: usize,
    suggest_anchor: String,
    suggest_applied: bool,
    last_computed: String,
}

impl<L> View for ChatState<L> {
    type V = ChatView<L>;

    closed spec fn view(&self) -> ChatView<L> {
        ChatView {
            messages: self.messages@,
            input: self.input@,
            open: self.open,
            cursor_reset: self.cursor_reset,
            suggestions: string_views(self.suggestions@),
            suggest_index: self.suggest_index as int,
            suggest_anchor: self.suggest_anchor@,
            suggest_applied: self.suggest_applied,
            last_computed: self.last_computed@,
        }
    }
}

/// The log holds at most `MAX_MESSAGES` messages, and the highlighted
/// suggestion is one of the suggestions whenever there are any.
pub open spec fn chat_wf<L>(v: ChatView<L>) -> bool {
    &&& v.messages.len() <= MAX_MESSAGES
    &&& 0 <= v.suggest_index
    &&& (v.suggestions.len() > 0 ==> v.suggest_index < v.suggestions.len())
}

/// `v` with no suggestions and nothing remembered about them.
pub open spec fn cleared<L>(v: ChatView<L>) -> ChatView<L> {
    ChatView {
        suggestions: Seq::empty(),
        suggest_anchor: Seq::empty(),
        suggest_index: 0,
        suggest_applied: false,
        last_computed: Seq::empty(),
        ..v
    }
}

/// The log after one more message: the oldest goes once there are more
/// than `MAX_MESSAGES`.
pub open spec fn pushed_log<L>(log: Seq<L>, line: L) -> Seq<L> {
    if log.len() + 1 > MAX_MESSAGES {
        log.push(line).drop_first()
    } else {
        log.push(line)
    }
}

/// The suggestions taken from a completer's answer for input `input`: the
/// anchor is the input without the `partial_len` bytes that the options
/// replace. An answer whose cut does not fall on a character boundary of
/// the input gives none.
pub open spec fn takes_suggestions<L>(v: ChatView<L>, input: Seq<char>, partial_len: int, options: Seq<Seq<char>>)
    -> bool {
    let bytes = encode_utf8(input);
    let cut = bytes.len() - partial_len;
    if partial_len <= bytes.len() && is_char_boundary(bytes, cut) {
        &&& encode_utf8(v.suggest_anchor) == bytes.subrange(0, cut)
        &&& v.suggestions == options
    } else {
        &&& v.suggest_anchor == Seq::<char>::empty()
        &&& v.suggestions == Seq::<Seq<char>>::empty()
    }
}

impl<L> ChatState<L> {
    /// The chat is well formed: its view meets `chat_wf`.
    pub open spec fn wf(&self) -> bool {
        chat_wf(self@)
    }

    /// A closed chat with an empty log and input.
    pub fn new() -> (c: Self)
        ensures
            c.wf(),
            c@ == (ChatView::<L> {
                messages: Seq::empty(),
                input: Seq::empty(),
                open: false,
                cursor_reset: false,
                suggestions: Seq::empty(),
                suggest_index: 0,
                suggest_anchor: Seq::empty(),
                suggest_applied: false,
                last_computed: Seq::empty(),
            }),
    {
        let c = ChatState {
            messages: VecDeque::new(),
            input: String::new(),
            open: false,
            cursor_reset: false,
            suggestions: Vec::new(),
            suggest_index: 0,
            suggest_anchor: String::new(),
            suggest_applied: false,
            last_computed: String::new(),
        };
        proof {
            assert(string_views(c.suggestions@) =~= Seq::<Seq<char>>::empty());
        }
        c
    }

    /// Appends a received message, dropping the oldest past `MAX_MESSAGES`.
    pub fn push_message(&mut self, line: L)
        requires
            old(self).wf(),
        ensures
            final(self).wf(),
            final(self)@ == (ChatView { messages: pushed_log(old(self)@.messages, line), ..old(self)@ }),
    {
        self.messages.push_back(line);
        if self.messages.len() > MAX_MESSAGES {
            let _ = self.messages.pop_front();
        }
        proof {
            assert(self@.messages =~= pushed_log(old(self)@.messages, line));
        }
    }

    pub fn is_open(&self) -> (r: bool)
        ensures
            r == self@.open,
    {
        self.open
    }

    /// The message log, oldest first.
    pub fn messages(&self) -> (r: &VecDeque<L>)
        ensures
            r@ == self@.messages,
    {
        &self.messages
    }

    /// The text typed so far.
    pub fn input(&self) -> (r: &str)
        ensures
            r@ == self@.input,
    {
        self.input.as_str()
    }

    /// The completions offered for the input.
    pub fn suggestions(&self) -> (r: &Vec<String>)
        ensures
            string_views(r@) == self@.suggestions,
    {
        &self.suggestions
    }

    /// Which completion is highlighted.
    pub fn suggest_index(&self) -> (r: usize)
        ensures
            r == self@.suggest_index,
    {
        self.suggest_index
    }

    /// The part of the input that the completions follow.
    pub fn suggest_anchor(&self) -> (r: &str)
        ensures
            r@ == self@.suggest_anchor,
    {
        self.suggest_anchor.as_str()
    }

    /// Whether the cursor moved since the last call: the input was opened
    /// or edited. Reading it resets it.
    pub fn take_cursor_reset(&mut self) -> (r: bool)
        requires
            old(self).wf(),
        ensures
            final(self).wf(),
            r == old(self)@.cursor_reset,
            final(self)@ == (ChatView { cursor_reset: false, ..old(self)@ }),
    {
        let r = self.cursor_reset;
        self.cursor_reset = false;
        r
    }

    fn clear_suggestions(&mut self)
        requires
            old(self).wf(),
        ensures
            final(self).wf(),
            final(self)@ == cleared(old(self)@),
    {
        self.suggestions = Vec::new();
        self.suggest_anchor = String::new();
        self.suggest_index = 0;
        self.suggest_applied = false;
        self.last_computed = String::new();
        proof {
            assert(string_views(self.suggestions@) =~= Seq::<Seq<char>>::empty());
        }
    }

    /// Opens the chat with an empty input.
    pub fn open(&mut self)
        requires
            old(self).wf(),
        ensures
            final(self).wf(),
            final(self)@ == cleared(ChatView { open: true, input: Seq::empty(), cursor_reset: true, ..old(self)@ }),
    {
        self.open = true;
        self.input = String::new();
        self.cursor_reset = true;
        self.clear_suggestions();
    }

    /// Opens the chat with `/` typed, ready for a command.
    pub fn open_with_slash(&mut self)
        requires
            old(self).wf(),
        ensures
            final(self).wf(),
            final(self)@ == cleared(ChatView { open: true, input: seq!['/'], cursor_reset: true, ..old(self)@ }),
    {
        self.open = true;
        let mut input = String::new();
        push_char(&mut input, '/');
        self.input = input;
        self.cursor_reset = true;
        self.clear_suggestions();
    }

    /// Closes the chat, keeping the input.
    pub fn close(&mut self)
        requires
            old(self).wf(),
        ensures
            final(self).wf(),
            final(self)@ == cleared(ChatView { open: false, ..old(self)@ }),
    {
        self.open = false;
        self.clear_suggestions();
    }
}


/// The input after typing `typed` and then, if `backspace`, deleting the
/// last character.
pub open spec fn after_typing(input: Seq<char>, typed: Seq<char>, backspace: bool) -> Seq<char> {
    let t = input + typed;
    if backspace && t.len() > 0 {
        t.drop_last()
    } else {
        t
    }
}

/// The highlighted completion after a Tab: the next one, or the previous
/// one with Shift, once a completion has been applied.
pub open spec fn next_index(i: int, n: int, applied: bool, shift: bool) -> int {
    if !applied {
        i
    } else if shift {
        (i + n - 1) % n
    } else {
        (i + 1) % n
    }
}

/// `v` recomputed for input `t`: remembered as computed, nothing applied,
/// and, for a command with a completer at hand, the suggestions that the
/// completer answers when asked about the text after the `/`.
pub open spec fn recomputed<L, F: Fn(&str) -> Suggestions>(v: ChatView<L>, t: Seq<char>, tree: Option<&F>) -> bool {
    &&& v.last_computed == t
    &&& v.suggest_index == 0
    &&& !v.suggest_applied
    &&& if tree is Some && t.len() > 0 && t[0] == '/' {
        exists|cmd: &str, sug: Suggestions|
            cmd@ == t.subrange(1, t.len() as int) && call_ensures(*tree->0, (cmd,), sug) && takes_suggestions(
                v,
                t,
                sug.partial_len as int,
                string_views(sug.options@),
            )
    } else {
        v.suggestions == Seq::<Seq<char>>::empty() && v.suggest_anchor == Seq::<char>::empty()
    }
}

impl<L> ChatState<L> {
    /// Takes a completer's answer `sug` for the current input.
    pub fn apply_suggestions(&mut self, sug: Suggestions)
        requires
            old(self).wf(),
        ensures
            final(self).wf(),
            takes_suggestions(final(self)@, old(self)@.input, sug.partial_len as int, string_views(sug.options@)),
            final(self)@.messages == old(self)@.messages,
            final(self)@.input == old(self)@.input,
            final(self)@.open == old(self)@.open,
            final(self)@.cursor_reset == old(self)@.cursor_reset,
            final(self)@.suggest_index == 0,
            final(self)@.suggest_applied == false,
            final(self)@.last_computed == old(self)@.input,
    {
        self.last_computed = self.input.clone();
        self.suggest_index = 0;
        self.suggest_applied = false;
        let input = self.input.as_str();
        let input_len = input.as_bytes().len();
        proof {
            assert(input@ == self.input@);
            assert(input_len == encode_utf8(self.input@).len());
        }
        if sug.partial_len <= input_len && self.input.as_str().is_char_boundary(input_len - sug.partial_len) {
            let cut = input_len - sug.partial_len;
            let (head, _) = self.input.as_str().split_at(cut);
            self.suggest_anchor = head.to_owned();
            self.suggestions = sug.options;
        } else {
            self.suggestions = Vec::new();
            self.suggest_anchor = String::new();
            proof {
                assert(string_views(self.suggestions@) =~= Seq::<Seq<char>>::empty());
            }
        }
    }

    /// Recomputes the completions of the current input: only a command (a
    /// leading `/`) with a completer at hand has any.
    fn recompute_suggestions<F: Fn(&str) -> Suggestions>(&mut self, tree: Option<&F>)
        requires
            old(self).wf(),
            tree matches Some(f) ==> forall|s: &str| call_requires(*f, (s,)),
        ensures
            final(self).wf(),
            recomputed(final(self)@, old(self)@.input, tree),
            final(self)@.messages == old(self)@.messages,
            final(self)@.input == old(self)@.input,
            final(self)@.open == old(self)@.open,
            final(self)@.cursor_reset == old(self)@.cursor_reset,
    {
        let n = self.input.as_str().unicode_len();
        if n > 0 && self.input.as_str().get_char(0) == '/' {
            if let Some(t) = tree {
                let cmd = self.input.as_str().substring_char(1, n);
                let sug = t(cmd);
                let ghost p = sug.partial_len as int;
                let ghost o = string_views(sug.options@);
                let ghost g = sug;
                self.apply_suggestions(sug);
                proof {
                    assert(takes_suggestions(self@, old(self)@.input, p, o));
                    assert(cmd@ == old(self)@.input.subrange(1, old(self)@.input.len() as int));
                    assert(call_ensures(*t, (cmd,), g));
                }
                return;
            }
        }
        self.last_computed = self.input.clone();
        self.suggest_index = 0;
        self.suggest_applied = false;
        self.suggestions = Vec::new();
        self.suggest_anchor = String::new();
        proof {
            assert(string_views(self.suggestions@) =~= Seq::<Seq<char>>::empty());
        }
    }

    /// Handles one frame of keyboard input while the chat is open: typed
    /// characters, then Backspace; Tab applies the highlighted completion or
    /// cycles to the next (Shift: previous); Enter sends the normalised
    /// input, if it has any words, and closes the chat.
    pub fn handle_key_input<F: Fn(&str) -> Suggestions>(
        &mut self,
        typed_chars: &[char],
        backspace: bool,
        enter: bool,
        tab: bool,
        shift: bool,
        tree: Option<&F>,
    ) -> (r: Option<String>)
        requires
            old(self).wf(),
            tree matches Some(f) ==> forall|s: &str| call_requires(*f, (s,)),
        ensures
            final(self).wf(),
            !old(self)@.open ==> r is None && final(self)@ == old(self)@,
            old(self)@.open ==> ({
                let v = old(self)@;
                let t = after_typing(v.input, typed_chars@, backspace);
                let cr = v.cursor_reset || typed_chars@.len() > 0 || backspace;
                if tab && v.suggestions.len() > 0 {
                    let i2 = next_index(v.suggest_index, v.suggestions.len() as int, v.suggest_applied, shift);
                    let inp = v.suggest_anchor + v.suggestions[i2];
                    &&& r is None
                    &&& final(self)@ == (ChatView {
                        input: inp,
                        suggest_index: i2,
                        suggest_applied: true,
                        last_computed: inp,
                        cursor_reset: true,
                        ..v
                    })
                } else if enter {
                    &&& (normalized(t).len() == 0 ==> r is None)
                    &&& (normalized(t).len() > 0 ==> r is Some && r->0@ == normalized(t))
                    &&& final(self)@ == cleared(ChatView { input: Seq::empty(), open: false, cursor_reset: cr, ..v })
                } else {
                    &&& r is None
                    &&& final(self)@.messages == v.messages
                    &&& final(self)@.input == t
                    &&& final(self)@.open
                    &&& final(self)@.cursor_reset == cr
                    &&& (t == v.last_computed ==> final(self)@ == (ChatView { input: t, cursor_reset: cr, ..v }))
                    &&& (t != v.last_computed ==> recomputed(final(self)@, t, tree))
                }
            }),
    {
        if !self.open {
            return None;
        }
        let ghost v = self@;
        let mut i: usize = 0;
        while i < typed_chars.len()
            invariant
                self.wf(),
                i <= typed_chars@.len(),
                self@ == (ChatView {
                    input: v.input + typed_chars@.take(i as int),
                    cursor_reset: v.cursor_reset || i > 0,
                    ..v
                }),
            decreases typed_chars.len() - i,
        {
            push_char(&mut self.input, typed_chars[i]);
            self.cursor_reset = true;
            proof {
                assert(v.input + typed_chars@.take(i + 1) =~= (v.input + typed_chars@.take(i as int)).push(
                    typed_chars@[i as int],
                ));
            }
            i += 1;
        }
        proof {
            assert(typed_chars@.take(typed_chars@.len() as int) =~= typed_chars@);
        }
        if backspace {
            let _ = pop_char(&mut self.input);
            self.cursor_reset = true;
        }
        let ghost t = after_typing(v.input, typed_chars@, backspace);
        assert(self@.input == t);
        if tab && self.suggestions.len() > 0 {
            let n = self.suggestions.len();
            if self.suggest_applied {
                self.suggest_index = if shift {
                    if self.suggest_index == 0 {
                        n - 1
                    } else {
                        self.suggest_index - 1
                    }
                } else if self.suggest_index + 1 == n {
                    0
                } else {
                    self.suggest_index + 1
                };
                proof {
                    let i0 = v.suggest_index;
                    if shift {
                        if i0 == 0 {
                            assert((i0 + n - 1) % (n as int) == n - 1) by {
                                lemma_small_mod((n - 1) as nat, n as nat);
                            }
                        } else {
                            assert((i0 + n - 1) % (n as int) == i0 - 1) by {
                                assert(i0 + n - 1 == n + (i0 - 1));
                                lemma_mod_add_multiples_vanish(i0 - 1, n as int);
                                lemma_small_mod((i0 - 1) as nat, n as nat);
                            }
                        }
                    } else {
                        if i0 + 1 == n {
                            lemma_mod_self_0(n as int);
                        } else {
                            lemma_small_mod((i0 + 1) as nat, n as nat);
                        }
                    }
                }
            }
            let mut inp = self.suggest_anchor.clone();
            inp.append(self.suggestions[self.suggest_index].as_str());
            self.input = inp;
            self.suggest_applied = true;
            self.last_computed = self.input.clone();
            self.cursor_reset = true;
            return None;
        }
        if self.input != self.last_computed {
            self.recompute_suggestions(tree);
        }
        if enter {
            let normalized_msg = normalize_chat_message(self.input.as_str());
            let msg = if normalized_msg.as_str().is_empty() {
                None
            } else {
                Some(normalized_msg)
            };
            self.input = String::new();
            self.open = false;
            self.clear_suggestions();
            return msg;
        }
        None
    }
}


/// A word: at least one character, none of them white space.
pub open spec fn is_word(w: Seq<char>) -> bool {
    w.len() > 0 && forall|i: int| 0 <= i < w.len() ==> !white_space(#[trigger] w[i])
}

/// Text made of words between single spaces: no white space but `' '`,
/// no space first or last, and never two spaces in a row.
pub open spec fn spaced_words(t: Seq<char>) -> bool {
    &&& forall|i: int| 0 <= i < t.len() && white_space(#[trigger] t[i]) ==> t[i] == ' '
    &&& t.len() > 0 ==> t[0] != ' ' && t.last() != ' '
    &&& forall|i: int| 0 <= i < t.len() - 1 && #[trigger] t[i] == ' ' ==> t[i + 1] != ' '
}

proof fn lemma_words_are_words(s: Seq<char>)
    ensures
        forall|k: int| 0 <= k < words(s).len() ==> is_word(#[trigger] words(s)[k]),
    decreases s.len(),
{
    if s.len() > 0 {
        lemma_words_are_words(s.drop_last());
        let w = words(s.drop_last());
        let c = s.last();
        if !white_space(c) && s.len() >= 2 && !white_space(s[s.len() - 2]) {
            lemma_words_nonempty(s.drop_last());
            let nw = w.last().push(c);
            assert(is_word(w.last()));
            assert(is_word(nw)) by {
                assert forall|i: int| 0 <= i < nw.len() implies !white_space(#[trigger] nw[i]) by {
                    if i < w.last().len() {
                        assert(nw[i] == w.last()[i]);
                    }
                }
            }
        } else if !white_space(c) {
            assert(is_word(seq![c]));
        }
    }
}

proof fn lemma_join_spaced(ws: Seq<Seq<char>>)
    requires
        forall|k: int| 0 <= k < ws.len() ==> is_word(#[trigger] ws[k]),
    ensures
        spaced_words(join_words(ws)),
        ws.len() > 0 ==> join_words(ws).len() > 0,
    decreases ws.len(),
{
    if ws.len() == 1 {
        assert(is_word(ws[0]));
    } else if ws.len() > 1 {
        let a = join_words(ws.drop_last());
        let w = ws.last();
        assert forall|k: int| 0 <= k < ws.drop_last().len() implies is_word(#[trigger] ws.drop_last()[k]) by {
            assert(ws.drop_last()[k] == ws[k]);
        }
        lemma_join_spaced(ws.drop_last());
        assert(is_word(w) && is_word(ws[ws.len() - 2]));
        let t = a + seq![' '] + w;
        assert(join_words(ws) == t);
        assert forall|i: int| 0 <= i < t.len() && white_space(#[trigger] t[i]) implies t[i] == ' ' by {
            if i < a.len() {
                assert(t[i] == a[i]);
            } else if i > a.len() {
                assert(t[i] == w[i - a.len() - 1]);
            }
        }
        assert(t[0] == a[0]);
        assert(t.last() == w.last());
        assert(w.last() == w[w.len() - 1]);
        assert(white_space(' '));
        assert forall|i: int| 0 <= i < t.len() - 1 && #[trigger] t[i] == ' ' implies t[i + 1] != ' ' by {
            if i < a.len() - 1 {
                assert(t[i] == a[i] && t[i + 1] == a[i + 1]);
            } else if i == a.len() - 1 {
                assert(t[i] == a.last());
            } else if i == a.len() {
                assert(t[i + 1] == w[0]);
            } else {
                assert(t[i] == w[i - a.len() - 1]);
                assert(!white_space(w[i - a.len() - 1]));
            }
        }
    }
}

/// A sent message is words between single spaces: no other white space,
/// no space first, never two in a row, and none last unless the cut to
/// `MAX_MESSAGE_LEN` fell just after one; it is never longer than
/// `MAX_MESSAGE_LEN`.
pub proof fn law_normalized_shape(s: Seq<char>)
    ensures
        normalized(s).len() <= MAX_MESSAGE_LEN,
        forall|i: int| 0 <= i < normalized(s).len() && white_space(#[trigger] normalized(s)[i]) ==> normalized(s)[i] == ' ',
        normalized(s).len() > 0 ==> normalized(s)[0] != ' ',
        forall|i: int| 0 <= i < normalized(s).len() - 1 && #[trigger] normalized(s)[i] == ' ' ==> normalized(s)[i + 1] != ' ',
        join_words(words(s)).len() <= MAX_MESSAGE_LEN ==> spaced_words(normalized(s)),
{
    lemma_words_are_words(s);
    lemma_join_spaced(words(s));
    let j = join_words(words(s));
    let r = normalized(s);
    if j.len() > MAX_MESSAGE_LEN {
        assert forall|i: int| 0 <= i < r.len() && white_space(#[trigger] r[i]) implies r[i] == ' ' by {
            assert(r[i] == j[i]);
        }
        assert(r[0] == j[0]);
        assert forall|i: int| 0 <= i < r.len() - 1 && #[trigger] r[i] == ' ' implies r[i + 1] != ' ' by {
            assert(r[i] == j[i] && r[i + 1] == j[i + 1]);
        }
    }
}

/// Shift+Tab after Tab highlights the same completion again.
pub proof fn law_tab_round_trip(i: int, n: int)
    requires
        0 <= i < n,
    ensures
        next_index(next_index(i, n, true, false), n, true, true) == i,
{
    if i + 1 == n {
        lemma_mod_self_0(n);
        lemma_small_mod((n - 1) as nat, n as nat);
        assert(0 + n - 1 == n - 1);
    } else {
        lemma_small_mod((i + 1) as nat, n as nat);
        assert(i + 1 + n - 1 == n + i);
        lemma_mod_add_multiples_vanish(i, n);
        lemma_small_mod(i as nat, n as nat);
    }
}


/// The rows of the completion popup: how many of the `len` completions it
/// shows, and the first one shown, scrolled just far enough to show the
/// highlighted one.
pub open spec fn popup_window(len: int, index: int) -> (int, int) {
    let visible = if len < MAX_SUGGESTION_ROWS { len } else { MAX_SUGGESTION_ROWS as int };
    let max_offset = len - visible;
    let scrolled = if index >= visible - 1 { index - (visible - 1) } else { 0 };
    (if scrolled < max_offset { scrolled } else { max_offset }, visible)
}

/// The first completion the popup shows, and how many it shows, for `len`
/// completions with the one at `index` highlighted.
pub fn suggestion_window(len: usize, index: usize) -> (r: (usize, usize))
    requires
        len > 0,
    ensures
        (r.0 as int, r.1 as int) == popup_window(len as int, index as int),
{
    let visible = if len < MAX_SUGGESTION_ROWS { len } else { MAX_SUGGESTION_ROWS };
    let max_offset = len - visible;
    let scrolled = index.saturating_sub(visible - 1);
    let offset = if scrolled < max_offset { scrolled } else { max_offset };
    (offset, visible)
}

/// The popup always shows the highlighted completion, and only
/// completions that exist.
pub proof fn law_popup_shows_highlight(len: int, index: int)
    requires
        0 <= index < len,
    ensures
        popup_window(len, index).0 <= index < popup_window(len, index).0 + popup_window(len, index).1,
        0 <= popup_window(len, index).0,
        popup_window(len, index).0 + popup_window(len, index).1 <= len,
{
}

/// The 25 code points with the Unicode `White_Space` property, one by one.
pub open spec fn unicode_white_space(c: char) -> bool {
    let u = c as u32;
    u == 0x09 || u == 0x0a || u == 0x0b || u == 0x0c || u == 0x0d || u == 0x20 || u == 0x85 || u == 0xa0 || u
        == 0x1680 || u == 0x2000 || u == 0x2001 || u == 0x2002 || u == 0x2003 || u == 0x2004 || u == 0x2005 || u
        == 0x2006 || u == 0x2007 || u == 0x2008 || u == 0x2009 || u == 0x200a || u == 0x2028 || u == 0x2029 || u
        == 0x202f || u == 0x205f || u == 0x3000
}

/// White space for message normalisation is exactly Unicode `White_Space`:
/// no other character (a letter, a digit, `_`) ever counts as one.
pub proof fn law_white_space_is_unicode(c: char)
    ensures
        white_space(c) <==> unicode_white_space(c),
{
}

proof fn lemma_plain_words(s: Seq<char>)
    requires
        s.len() > 0,
        forall|i: int| 0 <= i < s.len() ==> !white_space(#[trigger] s[i]),
    ensures
        words(s) == seq![s],
    decreases s.len(),
{
    if s.len() == 1 {
        assert(s.drop_last() =~= Seq::<char>::empty());
        assert(words(s.drop_last()) =~= Seq::<Seq<char>>::empty());
        assert(seq![s.last()] =~= s);
        assert(words(s) == Seq::<Seq<char>>::empty().push(seq![s.last()]));
        assert(words(s) =~= seq![s]);
    } else {
        let t = s.drop_last();
        assert forall|i: int| 0 <= i < t.len() implies !white_space(#[trigger] t[i]) by {
            assert(t[i] == s[i]);
        }
        lemma_plain_words(t);
        assert(!white_space(s[s.len() - 2]));
        assert(t.push(s.last()) =~= s);
        assert(words(t) == seq![t]);
        assert(words(t).len() == 1 && words(t).last() == t);
        assert(words(s) == words(t).update(0, t.push(s.last())));
        assert(seq![t].update(0, t.push(s.last())) =~= seq![s]);
    }
}

/// Normalisation keeps every character that is not white space: a message
/// with no Unicode `White_Space` character and no longer than
/// `MAX_MESSAGE_LEN` is sent exactly as typed.
pub proof fn law_normalize_keeps_plain_text(s: Seq<char>)
    requires
        s.len() <= MAX_MESSAGE_LEN,
        forall|i: int| 0 <= i < s.len() ==> !unicode_white_space(#[trigger] s[i]),
    ensures
        normalized(s) == s,
{
    assert forall|i: int| 0 <= i < s.len() implies !white_space(#[trigger] s[i]) by {
        law_white_space_is_unicode(s[i]);
    }
    if s.len() == 0 {
        assert(words(s) =~= Seq::<Seq<char>>::empty());
    } else {
        lemma_plain_words(s);
        assert(join_words(seq![s]) == s);
    }
}

} // verus!
