//! A rigctld-compatible CAT server core: `F <hz>` sets the carrier
//! frequency shared with the transmitter, `f` reads it back.

use vstd::prelude::*;
use vstd::utf8::{valid_utf8, decode_utf8};
use std::sync::Arc;
use std::sync::atomic::AtomicU64;
use std::sync::atomic::Ordering;
use crate::cat_text::{
    is_whitespace, is_unicode_whitespace, word_len, lemma_word_len, split_whitespace,
    first_newline, lemma_first_newline, parse_u64, parse_u64_decimal, decimal, decimal_text,
};

verus! {

/// One command line of the protocol.
#[derive(Clone, Copy, Debug, PartialEq, Eq, Structural)]
pub enum CatCommand {
    /// `F <hz>` with a valid frequency.
    SetFrequency(u64),
    /// `F <word>` where the word is not a frequency.
    InvalidFrequency,
    /// `F` alone.
    MissingFrequency,
    /// `f`.
    GetFrequency,
    /// Any other command, accepted and ignored.
    Other,
}

/// The command a line stands for, given its words; a blank line is none.
pub open spec fn line_command(words: Seq<Seq<char>>) -> Option<CatCommand> {
    if words.len() == 0 {
        None
    } else if words[0] == seq!['F'] {
        if words.len() > 1 {
            match parse_u64_decimal(words[1]) {
                Some(f) => Some(CatCommand::SetFrequency(f)),
                None => Some(CatCommand::InvalidFrequency),
            }
        } else {
            Some(CatCommand::MissingFrequency)
        }
    } else if words[0] == seq!['f'] {
        Some(CatCommand::GetFrequency)
    } else {
        Some(CatCommand::Other)
    }
}

pub open spec fn opt_seq(o: Option<CatCommand>) -> Seq<CatCommand> {
    match o {
        Some(c) => seq![c],
        None => Seq::<CatCommand>::empty(),
    }
}

/// The commands of a text, one per line that is not blank, in order.
pub open spec fn cat_commands(t: Seq<char>) -> Seq<CatCommand>
    decreases t.len(),
{
    match first_newline(t) {
        None => opt_seq(line_command(split_whitespace(t))),
        Some(i) => {
            proof {
                lemma_first_newline(t);
            }
            opt_seq(line_command(split_whitespace(t.take(i)))) + cat_commands(t.skip(i + 1))
        },
    }
}

/// `RPRT 0` and a line feed: the command succeeded.
pub open spec fn reply_ok() -> Seq<u8> {
    seq![0x52u8, 0x50, 0x52, 0x54, 0x20, 0x30, 0x0A]
}

/// `RPRT 1` and a line feed: the frequency could not be read.
pub open spec fn reply_error() -> Seq<u8> {
    seq![0x52u8, 0x50, 0x52, 0x54, 0x20, 0x31, 0x0A]
}

/// The frequency to store, if any, and the reply to a command, when the
/// shared frequency reads `current`.
pub open spec fn cat_response(cmd: CatCommand, current: u64) -> (Option<u64>, Seq<u8>) {
    match cmd {
        CatCommand::SetFrequency(f) => (Some(f), reply_ok()),
        CatCommand::InvalidFrequency => (None, reply_error()),
        CatCommand::MissingFrequency => (None, Seq::<u8>::empty()),
        CatCommand::GetFrequency => (None, decimal_text(current as nat).push(0x0Au8)),
        CatCommand::Other => (None, reply_ok()),
    }
}

/// Replies to `cmds`, the `i`-th command seeing the frequency `reads[i]`.
pub open spec fn cat_replies(cmds: Seq<CatCommand>, reads: Seq<u64>) -> Seq<u8>
    decreases cmds.len(),
{
    if cmds.len() == 0 || reads.len() < cmds.len() {
        Seq::<u8>::empty()
    } else {
        cat_replies(cmds.drop_last(), reads.drop_last()) + cat_response(
            cmds.last(),
            reads[cmds.len() - 1],
        ).1
    }
}

/// The frequency after `cmds`, each acted on as `cat_response` says, from
/// `f0`, when no other client stores meanwhile.
pub open spec fn session_frequency(cmds: Seq<CatCommand>, f0: u64) -> u64
    decreases cmds.len(),
{
    if cmds.len() == 0 {
        f0
    } else {
        let before = session_frequency(cmds.drop_last(), f0);
        match cat_response(cmds.last(), before).0 {
            Some(f) => f,
            None => before,
        }
    }
}

/// The frequency that each command of `cmds` reads, from `f0`, when no
/// other client stores meanwhile: the frequency after the commands before it.
pub open spec fn session_reads(cmds: Seq<CatCommand>, f0: u64) -> Seq<u64> {
    Seq::new(cmds.len(), |i: int| session_frequency(cmds.take(i), f0))
}

/// The frequencies `cmds` store, in order: one per well-formed `F <hz>`.
pub open spec fn set_values(cmds: Seq<CatCommand>) -> Seq<u64>
    decreases cmds.len(),
{
    if cmds.len() == 0 {
        Seq::<u64>::empty()
    } else {
        let before = set_values(cmds.drop_last());
        match cat_response(cmds.last(), 0).0 {
            Some(f) => before.push(f),
            None => before,
        }
    }
}

/// The value of the last well-formed `F <hz>` among `cmds`, if any.
pub open spec fn last_set_frequency(cmds: Seq<CatCommand>) -> Option<u64>
    decreases cmds.len(),
{
    if cmds.len() == 0 {
        None
    } else {
        match cmds.last() {
            CatCommand::SetFrequency(f) => Some(f),
            _ => last_set_frequency(cmds.drop_last()),
        }
    }
}

/// A client alone on the server ends with the frequency of its last
/// well-formed `F <hz>` line, or the one it found if it sent none; every
/// `f` it sends is answered with the frequency its commands before it left,
/// so that a read after a set gives back the value set.
pub proof fn lemma_session_frequency(cmds: Seq<CatCommand>, f0: u64)
    ensures
        session_frequency(cmds, f0) == match last_set_frequency(cmds) {
            Some(f) => f,
            None => f0,
        },
        forall|i: int|
            0 <= i < cmds.len() && cmds[i] == CatCommand::GetFrequency ==> cat_response(
                cmds[i],
                #[trigger] session_reads(cmds, f0)[i],
            ).1 == decimal_text(
                (match last_set_frequency(cmds.take(i)) {
                    Some(f) => f,
                    None => f0,
                }) as nat,
            ).push(0x0Au8),
    decreases cmds.len(),
{
    if cmds.len() > 0 {
        lemma_session_frequency(cmds.drop_last(), f0);
    }
    assert forall|i: int|
        0 <= i < cmds.len() && cmds[i] == CatCommand::GetFrequency implies cat_response(
        cmds[i],
        #[trigger] session_reads(cmds, f0)[i],
    ).1 == decimal_text(
        (match last_set_frequency(cmds.take(i)) {
            Some(f) => f,
            None => f0,
        }) as nat,
    ).push(0x0Au8) by {
        lemma_session_frequency(cmds.take(i), f0);
    }
}

/// The last frequency `cmds` store is that of their last well-formed
/// `F <hz>`, and they store none when there is no such line.
pub proof fn lemma_last_store(cmds: Seq<CatCommand>)
    ensures
        match last_set_frequency(cmds) {
            Some(f) => set_values(cmds).len() > 0 && set_values(cmds).last() == f,
            None => set_values(cmds).len() == 0,
        },
    decreases cmds.len(),
{
    if cmds.len() > 0 {
        lemma_last_store(cmds.drop_last());
    }
}

/// What `String::from_utf8_lossy` makes of `bytes`: invalid sequences are
/// replaced by U+FFFD.
pub uninterp spec fn utf8_lossy(bytes: Seq<u8>) -> Seq<char>;

/// Calls `String::from_utf8_lossy` and lists the characters of the result.
/// Documented: valid UTF-8 is decoded as it is; invalid sequences become
/// U+FFFD. Which sequences count as one replacement is left to the name.
#[verifier::external_body]
fn utf8_lossy_chars(data: &[u8]) -> (r: Vec<char>)
    ensures
        r@ == utf8_lossy(data@),
        valid_utf8(data@) ==> r@ == decode_utf8(data@),
{
    String::from_utf8_lossy(data).chars().collect()
}

/// Index of the first line feed at or after `from`, or the length.
fn find_newline(t: &Vec<char>, from: usize) -> (j: usize)
    requires
        from <= t@.len(),
    ensures
        from <= j <= t@.len(),
        j < t@.len() ==> t@[j as int] == '\n',
        forall|k: int| from <= k < j ==> t@[k] != '\n',
{
    let n = t.len();
    let mut j = from;
    while j < n && t[j] != '\n'
        invariant
            from <= j <= n,
            n == t@.len(),
            forall|k: int| from <= k < j ==> t@[k] != '\n',
        decreases n - j,
    {
        j = j + 1;
    }
    j
}

/// `word_len` is the length of the leading run of non white space.
proof fn lemma_word_len_is(s: Seq<char>, m: int)
    requires
        0 <= m <= s.len(),
        forall|k: int| 0 <= k < m ==> !is_unicode_whitespace(s[k]),
        m < s.len() ==> is_unicode_whitespace(s[m]),
    ensures
        word_len(s) == m,
{
    lemma_word_len(s);
}

pub open spec fn word_views(ws: Seq<Vec<char>>) -> Seq<Seq<char>> {
    ws.map_values(|w: Vec<char>| w@)
}

/// The words of `t[lo..hi]`.
fn split_words(t: &Vec<char>, lo: usize, hi: usize) -> (ws: Vec<Vec<char>>)
    requires
        lo <= hi <= t@.len(),
    ensures
        word_views(ws@) == split_whitespace(t@.subrange(lo as int, hi as int)),
{
    let mut ws: Vec<Vec<char>> = Vec::new();
    let mut i = lo;
    while i < hi
        invariant
            lo <= i <= hi,
            hi <= t@.len(),
            split_whitespace(t@.subrange(lo as int, hi as int)) == word_views(ws@) + split_whitespace(
                t@.subrange(i as int, hi as int),
            ),
        decreases hi - i,
    {
        let ghost rest = t@.subrange(i as int, hi as int);
        let c = t[i];
        assert(rest[0] == c);
        if is_whitespace(c) {
            assert(rest.skip(1) =~= t@.subrange(i + 1, hi as int));
            i = i + 1;
        } else {
            let mut word: Vec<char> = Vec::new();
            let mut j = i;
            while j < hi && !is_whitespace(t[j])
                invariant
                    i <= j <= hi,
                    hi <= t@.len(),
                    word@ == t@.subrange(i as int, j as int),
                    forall|k: int| i <= k < j ==> !is_unicode_whitespace(t@[k]),
                decreases hi - j,
            {
                word.push(t[j]);
                assert(word@ =~= t@.subrange(i as int, j + 1));
                j = j + 1;
            }
            proof {
                lemma_word_len_is(rest, j - i);
                assert(rest.take(j - i) =~= word@);
                assert(rest.skip(j - i) =~= t@.subrange(j as int, hi as int));
            }
            let ghost before = ws@;
            ws.push(word);
            assert(word_views(ws@) =~= word_views(before).push(word@));
            assert(word_views(ws@) + split_whitespace(t@.subrange(j as int, hi as int)) =~= word_views(
                before,
            ) + split_whitespace(rest));
            i = j;
        }
    }
    assert(split_whitespace(t@.subrange(hi as int, hi as int)) =~= Seq::<Seq<char>>::empty()) by {
        assert(t@.subrange(hi as int, hi as int) =~= Seq::<char>::empty());
    }
    assert(word_views(ws@) + Seq::<Seq<char>>::empty() =~= word_views(ws@));
    ws
}

/// Whether a word is the single character `c`.
fn word_is(w: &Vec<char>, c: char) -> (r: bool)
    ensures
        r == (w@ == seq![c]),
{
    if w.len() == 1 && w[0] == c {
        assert(w@ =~= seq![c]);
        true
    } else {
        false
    }
}

/// The command of a line, from its words.
fn command_of_words(words: &Vec<Vec<char>>) -> (r: Option<CatCommand>)
    ensures
        r == line_command(word_views(words@)),
{
    let ghost v = word_views(words@);
    if words.len() == 0 {
        return None;
    }
    assert(v[0] == words@[0]@);
    if word_is(&words[0], 'F') {
        if words.len() > 1 {
            assert(v[1] == words@[1]@);
            match parse_u64(&words[1]) {
                Some(f) => Some(CatCommand::SetFrequency(f)),
                None => Some(CatCommand::InvalidFrequency),
            }
        } else {
            Some(CatCommand::MissingFrequency)
        }
    } else if word_is(&words[0], 'f') {
        Some(CatCommand::GetFrequency)
    } else {
        Some(CatCommand::Other)
    }
}

/// The commands of a text, one per line that is not blank.
pub fn parse_cat_command_text(text: &Vec<char>) -> (cmds: Vec<CatCommand>)
    ensures
        cmds@ == cat_commands(text@),
{
    let n = text.len();
    let mut cmds: Vec<CatCommand> = Vec::new();
    let mut i: usize = 0;
    assert(text@.skip(0) =~= text@);
    loop
        invariant_except_break
            cat_commands(text@) == cmds@ + cat_commands(text@.skip(i as int)),
        invariant
            i <= n,
            n == text@.len(),
        ensures
            cat_commands(text@) == cmds@,
        decreases n - i,
    {
        let ghost rest = text@.skip(i as int);
        let j = find_newline(text, i);
        let words = split_words(text, i, j);
        let cmd = command_of_words(&words);
        proof {
            lemma_first_newline(rest);
            assert forall|k: int| 0 <= k < j - i implies rest[k] != '\n' by {
                assert(rest[k] == text@[i + k]);
            }
        }
        let ghost before = cmds@;
        match cmd {
            Some(c) => {
                cmds.push(c);
            },
            None => {},
        }
        assert(cmds@ =~= before + opt_seq(cmd));
        if j == n {
            proof {
                assert(text@.subrange(i as int, j as int) =~= rest);
                if first_newline(rest) is Some {
                    let k = first_newline(rest)->0;
                    assert(rest[k] == text@[i + k]);
                }
                assert(cat_commands(rest) == opt_seq(line_command(split_whitespace(rest))));
                assert(cmds@ + Seq::<CatCommand>::empty() =~= cmds@);
            }
            break ;
        }
        proof {
            assert(rest[j - i] == text@[j as int]);
            if first_newline(rest) is Some {
                let k = first_newline(rest)->0;
                assert(k == j - i) by {
                    if k < j - i {
                        assert(rest[k] == text@[i + k]);
                    }
                }
            }
            assert(rest.take(j - i) =~= text@.subrange(i as int, j as int));
            assert(rest.skip(j - i + 1) =~= text@.skip(j + 1));
            assert(before + (opt_seq(cmd) + cat_commands(text@.skip(j + 1))) =~= cmds@ + cat_commands(
                text@.skip(j + 1),
            ));
        }
        i = j + 1;
    }
    cmds
}

/// The frequency to store, if any, and the reply to one command, the shared
/// frequency reading `current`.
pub fn cat_reply(cmd: CatCommand, current: u64) -> (r: (Option<u64>, Vec<u8>))
    ensures
        r.0 == cat_response(cmd, current).0,
        r.1@ == cat_response(cmd, current).1,
{
    match cmd {
        CatCommand::SetFrequency(f) => {
            let v = vec![0x52u8, 0x50, 0x52, 0x54, 0x20, 0x30, 0x0A];
            assert(v@ =~= reply_ok());
            (Some(f), v)
        },
        CatCommand::InvalidFrequency => {
            let v = vec![0x52u8, 0x50, 0x52, 0x54, 0x20, 0x31, 0x0A];
            assert(v@ =~= reply_error());
            (None, v)
        },
        CatCommand::MissingFrequency => (None, Vec::new()),
        CatCommand::GetFrequency => {
            let mut v = decimal(current);
            v.push(0x0A);
            (None, v)
        },
        CatCommand::Other => {
            let v = vec![0x52u8, 0x50, 0x52, 0x54, 0x20, 0x30, 0x0A];
            assert(v@ =~= reply_ok());
            (None, v)
        },
    }
}

/// Frequency control server state: the carrier frequency in Hz, shared with
/// the transmitter and any other clients.
pub struct CatServer {
    frequency: Arc<AtomicU64>,
}

impl CatServer {
    pub closed spec fn frequency(&self) -> Arc<AtomicU64> {
        self.frequency
    }

    /// A server acting on the shared `frequency`.
    pub fn new(frequency: Arc<AtomicU64>) -> (s: Self)
        ensures
            s.frequency() == frequency,
    {
        CatServer { frequency }
    }

    /// Reads the shared frequency; other threads may store to it at any time.
    fn load_frequency(&self) -> u64 {
        self.frequency.load(Ordering::SeqCst)
    }

    /// Stores a new shared frequency and returns the value stored.
    fn store_frequency(&self, f: u64) -> (stored: u64)
        ensures
            stored == f,
    {
        self.frequency.store(f, Ordering::SeqCst);
        f
    }

    /// Acts on the commands in one chunk of received bytes and returns the
    /// replies to send back, in order, with the frequencies stored into the
    /// shared value, in the order they were stored. Each `F <hz>` stores its
    /// frequency before the next command runs; each `f` reads the frequency
    /// then, which other clients may have changed meanwhile. Bytes that are
    /// valid UTF-8 are read as they are.
    pub fn handle_input(&self, data: &[u8]) -> (out: (Vec<u8>, Vec<u64>))
        ensures
            exists|reads: Seq<u64>|
                reads.len() == cat_commands(utf8_lossy(data@)).len() && out.0@ == cat_replies(
                    cat_commands(utf8_lossy(data@)),
                    reads,
                ),
            out.1@ == set_values(cat_commands(utf8_lossy(data@))),
            match last_set_frequency(cat_commands(utf8_lossy(data@))) {
                Some(f) => out.1@.len() > 0 && out.1@.last() == f,
                None => out.1@.len() == 0,
            },
            valid_utf8(data@) ==> utf8_lossy(data@) == decode_utf8(data@),
    {
        let text = utf8_lossy_chars(data);
        let cmds = parse_cat_command_text(&text);
        let mut reply: Vec<u8> = Vec::new();
        let mut stored: Vec<u64> = Vec::new();
        let ghost mut reads: Seq<u64> = Seq::empty();
        let mut i: usize = 0;
        while i < cmds.len()
            invariant
                i <= cmds@.len(),
                reads.len() == i,
                reply@ == cat_replies(cmds@.take(i as int), reads),
                stored@ == set_values(cmds@.take(i as int)),
            decreases cmds@.len() - i,
        {
            let cmd = cmds[i];
            let current = match cmd {
                CatCommand::GetFrequency => self.load_frequency(),
                _ => 0,
            };
            let (store, text_reply) = cat_reply(cmd, current);
            match store {
                Some(f) => {
                    let v = self.store_frequency(f);
                    stored.push(v);
                },
                None => {},
            }
            let ghost before = reply@;
            let mut tail = text_reply;
            reply.append(&mut tail);
            proof {
                let c2 = cmds@.take(i + 1);
                let r2 = reads.push(current);
                assert(c2.drop_last() =~= cmds@.take(i as int));
                assert(r2.drop_last() =~= reads);
                assert(c2.last() == cmd);
                assert(r2[c2.len() - 1] == current);
                reads = r2;
            }
            i = i + 1;
        }
        assert(cmds@.take(cmds@.len() as int) =~= cmds@);
        proof {
            lemma_last_store(cmds@);
        }
        (reply, stored)
    }
}

} // verus!
