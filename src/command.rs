use vstd::prelude::*;
use vstd::utf8::{decode_utf8, valid_utf8};

use crate::err::Error;

verus! {

/// The byte that opens a frame.
pub const FRAME_OPEN: u8 = 0x5b;

/// The byte that closes a frame.
pub const FRAME_CLOSE: u8 = 0x5d;

/// The byte that separates the tokens of a frame.
pub const TOKEN_SEPARATOR: u8 = 0x20;

/// The position of the first `b` in `s`, if there is one.
pub open spec fn first_index(s: Seq<u8>, b: u8) -> Option<int>
    decreases s.len(),
{
    if s.len() == 0 {
        None
    } else {
        match first_index(s.drop_last(), b) {
            Some(i) => Some(i),
            None => if s.last() == b {
                Some(s.len() - 1)
            } else {
                None
            },
        }
    }
}

/// `s` cut at every separator byte; an empty `s` is one empty token.
pub open spec fn split_tokens(s: Seq<u8>) -> Seq<Seq<u8>>
    decreases s.len(),
{
    if s.len() == 0 {
        seq![Seq::empty()]
    } else {
        let prev = split_tokens(s.drop_last());
        if s.last() == TOKEN_SEPARATOR {
            prev.push(Seq::empty())
        } else {
            prev.update(prev.len() - 1, prev.last().push(s.last()))
        }
    }
}

/// The decoded tokens of a frame's interior, or `None` when a token is not
/// valid UTF-8.
pub open spec fn frame_words(interior: Seq<u8>) -> Option<Seq<Seq<char>>> {
    let ts = split_tokens(interior);
    if forall|i: int| 0 <= i < ts.len() ==> valid_utf8(#[trigger] ts[i]) {
        Some(ts.map_values(|t: Seq<u8>| decode_utf8(t)))
    } else {
        None
    }
}

/// A command as text: its action and its arguments in order.
pub type CommandModel = (Seq<char>, Seq<Seq<char>>);

/// The command carried by a frame's interior: the first token is the action,
/// the others are the arguments.
pub open spec fn frame_command(interior: Seq<u8>) -> Option<CommandModel> {
    match frame_words(interior) {
        Some(words) => Some((words[0], words.skip(1))),
        None => None,
    }
}

/// One step of the parser on buffer `buf`: the buffer it leaves and the command
/// it yields.
pub open spec fn parse_step(buf: Seq<u8>) -> (Seq<u8>, Option<CommandModel>) {
    match first_index(buf, FRAME_OPEN) {
        None => (Seq::empty(), None),
        Some(s) => {
            let rest = buf.skip(s + 1);
            match first_index(rest, FRAME_CLOSE) {
                None => (rest, None),
                Some(e) => (rest.skip(e + 1), frame_command(rest.take(e))),
            }
        },
    }
}

pub proof fn lemma_first_index_bounds(s: Seq<u8>, b: u8)
    ensures
        first_index(s, b) is Some ==> 0 <= first_index(s, b)->0 < s.len(),
        first_index(s, b) is Some ==> s[first_index(s, b)->0] == b,
        first_index(s, b) is Some ==> forall|j: int|
            0 <= j < first_index(s, b)->0 ==> s[j] != b,
        first_index(s, b) is None ==> forall|j: int| 0 <= j < s.len() ==> s[j] != b,
    decreases s.len(),
{
    if s.len() > 0 {
        lemma_first_index_bounds(s.drop_last(), b);
        assert forall|j: int| 0 <= j < s.len() - 1 implies s[j] == s.drop_last()[j] by {}
    }
}

proof fn lemma_first_index_prefix(s: Seq<u8>, b: u8, k: int)
    requires
        0 <= k <= s.len(),
        first_index(s.take(k), b) is Some,
    ensures
        first_index(s, b) == first_index(s.take(k), b),
    decreases s.len(),
{
    if k == s.len() {
        assert(s.take(k) =~= s);
    } else {
        assert(s.drop_last().take(k) =~= s.take(k));
        lemma_first_index_prefix(s.drop_last(), b, k);
    }
}

proof fn lemma_split_tokens_nonempty(s: Seq<u8>)
    ensures
        split_tokens(s).len() >= 1,
    decreases s.len(),
{
    if s.len() > 0 {
        lemma_split_tokens_nonempty(s.drop_last());
    }
}

/// A step of the parser never grows the buffer, and a step that yields a
/// command shrinks it.
pub proof fn lemma_parse_step_shrinks(buf: Seq<u8>)
    ensures
        parse_step(buf).0.len() <= buf.len(),
        parse_step(buf).1 is Some ==> parse_step(buf).0.len() < buf.len(),
{
    lemma_first_index_bounds(buf, FRAME_OPEN);
    if let Some(s) = first_index(buf, FRAME_OPEN) {
        lemma_first_index_bounds(buf.skip(s + 1), FRAME_CLOSE);
    }
}

/// Steps of the parser taken until one yields nothing: the buffer left, and
/// the commands yielded in order.
pub open spec fn drain_commands(buf: Seq<u8>) -> (Seq<u8>, Seq<CommandModel>)
    decreases buf.len(),
    via drain_commands_decreases
{
    match parse_step(buf).1 {
        None => (parse_step(buf).0, Seq::empty()),
        Some(c) => {
            let rest = drain_commands(parse_step(buf).0);
            (rest.0, seq![c] + rest.1)
        },
    }
}

#[via_fn]
proof fn drain_commands_decreases(buf: Seq<u8>) {
    lemma_parse_step_shrinks(buf);
}

/// A command read from a device: an action and its arguments.
#[derive(Clone, Debug)]
pub struct Command {
    pub action: String,
    pub arguments: Vec<String>,
}

impl View for Command {
    type V = CommandModel;

    open spec fn view(&self) -> CommandModel {
        (self.action@, self.arguments@.map_values(|a: String| a@))
    }
}

/// A consumer of the commands of one action.
pub trait CommandHandler {
    fn action(&self) -> String;

    fn handle(&self, command: &Command);
}

/// A streaming tokenizer: bytes are fed in, and bracketed frames come out as
/// commands.
pub struct CommandParser {
    buffer: Vec<u8>,
}

impl View for CommandParser {
    type V = Seq<u8>;

    closed spec fn view(&self) -> Seq<u8> {
        self.buffer@
    }
}

/// The position of the first `b` in `v`.
fn find_byte(v: &Vec<u8>, b: u8) -> (r: Option<usize>)
    ensures
        match r {
            Some(i) => first_index(v@, b) == Some(i as int),
            None => first_index(v@, b) is None,
        },
{
    let mut i: usize = 0;
    while i < v.len()
        invariant
            0 <= i <= v.len(),
            first_index(v@.take(i as int), b) is None,
        decreases v.len() - i,
    {
        assert(v@.take(i + 1).drop_last() =~= v@.take(i as int));
        if v[i] == b {
            proof {
                lemma_first_index_prefix(v@, b, i + 1);
            }
            return Some(i);
        }
        i += 1;
    }
    assert(v@.take(i as int) =~= v@);
    None
}

/// The bytes of `v` from `lo` up to `hi`.
fn copy_range(v: &Vec<u8>, lo: usize, hi: usize) -> (r: Vec<u8>)
    requires
        lo <= hi <= v.len(),
    ensures
        r@ == v@.subrange(lo as int, hi as int),
{
    let mut r: Vec<u8> = Vec::new();
    let mut i: usize = lo;
    while i < hi
        invariant
            lo <= i <= hi <= v.len(),
            r@ == v@.subrange(lo as int, i as int),
        decreases hi - i,
    {
        r.push(v[i]);
        i += 1;
        assert(r@ =~= v@.subrange(lo as int, i as int));
    }
    r
}

/// `s` cut at every separator byte.
fn split_at_separators(s: &Vec<u8>) -> (r: Vec<Vec<u8>>)
    ensures
        r@.map_values(|t: Vec<u8>| t@) == split_tokens(s@),
{
    let mut done: Vec<Vec<u8>> = Vec::new();
    let mut cur: Vec<u8> = Vec::new();
    let mut i: usize = 0;
    while i < s.len()
        invariant
            0 <= i <= s.len(),
            split_tokens(s@.take(i as int)) == done@.map_values(|t: Vec<u8>| t@).push(cur@),
        decreases s.len() - i,
    {
        let ghost before = done@.map_values(|t: Vec<u8>| t@);
        assert(s@.take(i + 1).drop_last() =~= s@.take(i as int));
        if s[i] == TOKEN_SEPARATOR {
            done.push(cur);
            cur = Vec::new();
            assert(done@.map_values(|t: Vec<u8>| t@) =~= before.push(
                done@[done@.len() - 1]@,
            ));
        } else {
            cur.push(s[i]);
            assert(before.push(cur@) =~= split_tokens(s@.take(i + 1)));
        }
        i += 1;
    }
    assert(s@.take(i as int) =~= s@);
    done.push(cur);
    assert(done@.map_values(|t: Vec<u8>| t@) =~= split_tokens(s@));
    done
}

/// Relies on String::from_utf8: valid UTF-8 is decoded to its characters,
/// anything else is refused.
#[verifier::external_body]
fn string_from_utf8(bytes: Vec<u8>) -> (r: Option<String>)
    ensures
        r is Some <==> valid_utf8(bytes@),
        r matches Some(s) ==> s@ == decode_utf8(bytes@),
{
    String::from_utf8(bytes).ok()
}

/// The command that the interior of a frame carries, if its tokens are text.
fn decode_frame(interior: &Vec<u8>) -> (r: Option<Command>)
    ensures
        match r {
            Some(c) => frame_command(interior@) == Some(c@),
            None => frame_command(interior@) is None,
        },
{
    let tokens = split_at_separators(interior);
    let ghost ts = split_tokens(interior@);
    proof {
        lemma_split_tokens_nonempty(interior@);
        assert forall|j: int| 0 <= j < tokens@.len() implies tokens@[j]@ == ts[j] by {
            assert(tokens@.map_values(|t: Vec<u8>| t@)[j] == tokens@[j]@);
        }
    }
    let mut words: Vec<String> = Vec::new();
    let mut i: usize = 0;
    while i < tokens.len()
        invariant
            0 <= i <= tokens.len() == ts.len(),
            ts == split_tokens(interior@),
            forall|j: int| 0 <= j < tokens@.len() ==> tokens@[j]@ == ts[j],
            forall|j: int| 0 <= j < i ==> valid_utf8(#[trigger] ts[j]),
            words@.map_values(|w: String| w@) == ts.take(i as int).map_values(
                |t: Seq<u8>| decode_utf8(t),
            ),
        decreases tokens.len() - i,
    {
        let ghost before = words@.map_values(|w: String| w@);
        let token = copy_range(&tokens[i], 0, tokens[i].len());
        assert(token@ =~= ts[i as int]);
        match string_from_utf8(token) {
            Some(w) => {
                assert(w@ == decode_utf8(ts[i as int]));
                words.push(w);
                assert(ts.take(i + 1).map_values(|t: Seq<u8>| decode_utf8(t)) =~= ts.take(
                    i as int,
                ).map_values(|t: Seq<u8>| decode_utf8(t)).push(decode_utf8(ts[i as int])));
                assert(words@.map_values(|w: String| w@) =~= before.push(w@));
                assert(words@.map_values(|w: String| w@) =~= ts.take(i + 1).map_values(
                    |t: Seq<u8>| decode_utf8(t),
                ));
            },
            None => {
                assert(!valid_utf8(ts[i as int]));
                assert(frame_words(interior@) is None);
                return None;
            },
        }
        i += 1;
    }
    assert(ts.take(i as int) =~= ts);
    let ghost all = ts.map_values(|t: Seq<u8>| decode_utf8(t));
    assert(frame_words(interior@) == Some(all));
    let action = words.remove(0);
    assert(words@.map_values(|w: String| w@) =~= all.skip(1));
    Some(Command { action, arguments: words })
}

impl CommandParser {
    pub fn new() -> (r: CommandParser)
        ensures
            r@ == Seq::<u8>::empty(),
    {
        CommandParser { buffer: Vec::new() }
    }

    /// Appends `buf` to the bytes waiting to be parsed.
    pub fn extend(&mut self, buf: &[u8]) -> (r: Result<(), Error>)
        ensures
            final(self)@ == old(self)@ + buf@,
            r is Ok,
    {
        let mut i: usize = 0;
        while i < buf.len()
            invariant
                0 <= i <= buf@.len(),
                self@ == old(self)@ + buf@.take(i as int),
            decreases buf.len() - i,
        {
            self.buffer.push(buf[i]);
            i += 1;
            assert(self@ =~= old(self)@ + buf@.take(i as int));
        }
        assert(buf@.take(i as int) =~= buf@);
        Ok(())
    }

    /// Takes the next frame out of the buffer. Bytes before the first `[` are
    /// dropped; with no `[` the whole buffer is dropped. A frame without its
    /// `]` yet waits for more bytes; a complete frame is consumed and yields
    /// its command, unless its interior is not text.
    pub fn parse(&mut self) -> (r: Option<Command>)
        ensures
            final(self)@ == parse_step(old(self)@).0,
            match r {
                Some(c) => parse_step(old(self)@).1 == Some(c@),
                None => parse_step(old(self)@).1 is None,
            },
    {
        let start = match find_byte(&self.buffer, FRAME_OPEN) {
            Some(s) => s,
            None => {
                self.buffer = Vec::new();
                return None;
            },
        };
        proof {
            lemma_first_index_bounds(self.buffer@, FRAME_OPEN);
        }
        assert(start < self.buffer.len());
        let rest = copy_range(&self.buffer, start + 1, self.buffer.len());
        assert(rest@ =~= old(self)@.skip(start + 1));
        match find_byte(&rest, FRAME_CLOSE) {
            None => {
                self.buffer = rest;
                None
            },
            Some(end) => {
                proof {
                    lemma_first_index_bounds(rest@, FRAME_CLOSE);
                }
                let interior = copy_range(&rest, 0, end);
                assert(interior@ =~= rest@.take(end as int));
                self.buffer = copy_range(&rest, end + 1, rest.len());
                assert(self.buffer@ =~= rest@.skip(end + 1));
                decode_frame(&interior)
            },
        }
    }
}

} // verus!

verus! {

/// A buffer without `[` holds no frame: the parser drops all of it and
/// yields nothing, and so does draining it.
pub proof fn law_no_open_bracket_discards(buf: Seq<u8>)
    requires
        forall|i: int| 0 <= i < buf.len() ==> buf[i] != FRAME_OPEN,
    ensures
        parse_step(buf) == (Seq::<u8>::empty(), None::<CommandModel>),
        drain_commands(buf) == (Seq::<u8>::empty(), Seq::<CommandModel>::empty()),
{
    lemma_first_index_bounds(buf, FRAME_OPEN);
    assert(first_index(buf, FRAME_OPEN) is None);
}

} // verus!
