//! The line protocol: one command per line, words split on whitespace, and
//! what each command does to the vault.

use vstd::prelude::*;
use vstd::std_specs::iter::IteratorSpec;
use crate::crypt::{seals, CryptError};
use crate::vault::{joined, push_str, Vault};

verus! {

/// Unicode's White_Space characters.
pub open spec fn is_white(c: char) -> bool {
    let x = c as u32;
    ||| 0x09 <= x <= 0x0D
    ||| x == 0x20
    ||| x == 0x85
    ||| x == 0xA0
    ||| x == 0x1680
    ||| 0x2000 <= x <= 0x200A
    ||| x == 0x2028
    ||| x == 0x2029
    ||| x == 0x202F
    ||| x == 0x205F
    ||| x == 0x3000
}

/// The words closed so far and the word being read, after some characters.
pub open spec fn split_from(s: Seq<char>) -> (Seq<Seq<char>>, Seq<char>)
    decreases s.len(),
{
    if s.len() == 0 {
        (Seq::empty(), Seq::empty())
    } else {
        let (done, cur) = split_from(s.drop_last());
        if is_white(s.last()) {
            if cur.len() > 0 {
                (done.push(cur), Seq::empty())
            } else {
                (done, Seq::empty())
            }
        } else {
            (done, cur.push(s.last()))
        }
    }
}

/// The words of a line: its maximal runs of characters that are not
/// whitespace, in order.
pub open spec fn whitespace_words(line: Seq<char>) -> Seq<Seq<char>> {
    let (done, cur) = split_from(line);
    if cur.len() > 0 {
        done.push(cur)
    } else {
        done
    }
}

/// Relies on std's String::push: appends one character.
#[verifier::external_body]
fn push_char(s: &mut String, c: char)
    ensures
        final(s)@ == old(s)@.push(c),
{
    s.push(c)
}

/// Whether a character is whitespace.
fn char_is_white(c: char) -> (r: bool)
    ensures
        r == is_white(c),
{
    let x = c as u32;
    (0x09 <= x && x <= 0x0D) || x == 0x20 || x == 0x85 || x == 0xA0 || x == 0x1680 || (0x2000
        <= x && x <= 0x200A) || x == 0x2028 || x == 0x2029 || x == 0x202F || x == 0x205F || x
        == 0x3000
}

/// The words of a line, split on whitespace, in order.
fn split_words(line: &str) -> (r: Vec<String>)
    ensures
        r@.map_values(|w: String| w@) == whitespace_words(line@),
{
    broadcast use vstd::string::axiom_spec_iter, vstd::string::next_postcondition;

    let mut words: Vec<String> = Vec::new();
    let mut cur = String::new();
    let mut it = line.chars();
    let ghost mut i: int = 0;
    loop
        invariant
            0 <= i <= line@.len(),
            it.remaining() == line@.subrange(i, line@.len() as int),
            words@.map_values(|w: String| w@) == split_from(line@.subrange(0, i)).0,
            cur@ == split_from(line@.subrange(0, i)).1,
        ensures
            words@.map_values(|w: String| w@) == split_from(line@).0,
            cur@ == split_from(line@).1,
        decreases line@.len() - i,
    {
        match it.next() {
            Some(c) => {
                let ghost prefix = line@.subrange(0, i + 1);
                assert(c == line@[i]);
                assert(prefix.drop_last() == line@.subrange(0, i));
                assert(prefix.last() == c);
                if char_is_white(c) {
                    if !cur.as_str().is_empty() {
                        let w = cur;
                        cur = String::new();
                        let ghost before = words@;
                        words.push(w);
                        assert(words@.map_values(|w: String| w@) =~= before.map_values(
                            |w: String| w@,
                        ).push(w@));
                    }
                } else {
                    push_char(&mut cur, c);
                }
                proof {
                    i = i + 1;
                }
                assert(line@.subrange(i, line@.len() as int) == line@.subrange(
                    i - 1,
                    line@.len() as int,
                ).drop_first());
            },
            None => {
                assert(line@.subrange(0, i) == line@);
                break ;
            },
        }
    }
    if !cur.as_str().is_empty() {
        let ghost before = words@;
        words.push(cur);
        assert(words@.map_values(|w: String| w@) =~= before.map_values(|w: String| w@).push(
            split_from(line@).1,
        ));
    }
    words
}

/// One client request.
#[derive(Debug, PartialEq, Eq)]
pub enum Command {
    Put(String, String),
    Get(String),
    Del(String),
    Lst,
    Help,
    Off,
    /// An empty line, an unknown word, or a command without its arguments.
    Ignore,
}

/// The help text: the command names.
pub open spec fn help_text() -> Seq<char> {
    seq!['p', 'u', 't', ' ', 'g', 'e', 't', ' ', 'd', 'e', 'l', ' ', 'o', 'f', 'f', ' ', 'l', 's', 't', ' ', '?', '\n']
}

/// The command that a line's words make: the first word names it, the next
/// ones are its arguments, and further words are ignored.
pub open spec fn parses_to(ws: Seq<Seq<char>>, c: Command) -> bool {
    if ws.len() == 0 {
        c == Command::Ignore
    } else if ws[0] == seq!['p', 'u', 't'] {
        if ws.len() >= 3 {
            (c matches Command::Put(k, v) && k@ == ws[1] && v@ == ws[2])
        } else {
            c == Command::Ignore
        }
    } else if ws[0] == seq!['g', 'e', 't'] {
        if ws.len() >= 2 {
            (c matches Command::Get(k) && k@ == ws[1])
        } else {
            c == Command::Ignore
        }
    } else if ws[0] == seq!['d', 'e', 'l'] {
        if ws.len() >= 2 {
            (c matches Command::Del(k) && k@ == ws[1])
        } else {
            c == Command::Ignore
        }
    } else if ws[0] == seq!['l', 's', 't'] {
        c == Command::Lst
    } else if ws[0] == seq!['?'] {
        c == Command::Help
    } else if ws[0] == seq!['o', 'f', 'f'] {
        c == Command::Off
    } else {
        c == Command::Ignore
    }
}

/// Whether a string holds exactly the characters of a literal.
fn is_word(w: &String, lit: &str) -> (r: bool)
    ensures
        r == (w@ == lit@),
{
    let l = lit.to_owned();
    w.eq(&l)
}

/// The command that a line's words make.
pub fn parse_words(words: Vec<String>) -> (r: Command)
    ensures
        parses_to(words@.map_values(|w: String| w@), r),
{
    let ghost ws = words@.map_values(|w: String| w@);
    if words.len() == 0 {
        return Command::Ignore;
    }
    proof {
        reveal_strlit("put");
        reveal_strlit("get");
        reveal_strlit("del");
        reveal_strlit("lst");
        reveal_strlit("?");
        reveal_strlit("off");
        assert("put"@ =~= seq!['p', 'u', 't']);
        assert("get"@ =~= seq!['g', 'e', 't']);
        assert("del"@ =~= seq!['d', 'e', 'l']);
        assert("lst"@ =~= seq!['l', 's', 't']);
        assert("?"@ =~= seq!['?']);
        assert("off"@ =~= seq!['o', 'f', 'f']);
    }
    assert(ws[0] == words@[0]@);
    let n = words.len();
    if is_word(&words[0], "put") {
        if n >= 3 {
            assert(ws[1] == words@[1]@ && ws[2] == words@[2]@);
            Command::Put(words[1].clone(), words[2].clone())
        } else {
            Command::Ignore
        }
    } else if is_word(&words[0], "get") {
        if n >= 2 {
            assert(ws[1] == words@[1]@);
            Command::Get(words[1].clone())
        } else {
            Command::Ignore
        }
    } else if is_word(&words[0], "del") {
        if n >= 2 {
            assert(ws[1] == words@[1]@);
            Command::Del(words[1].clone())
        } else {
            Command::Ignore
        }
    } else if is_word(&words[0], "lst") {
        Command::Lst
    } else if is_word(&words[0], "?") {
        Command::Help
    } else if is_word(&words[0], "off") {
        Command::Off
    } else {
        Command::Ignore
    }
}

/// The command on one line of client input.
pub fn parse_command(line: &str) -> (r: Command)
    ensures
        parses_to(whitespace_words(line@), r),
{
    parse_words(split_words(line))
}

/// What a command asks of the server besides the change to the vault: a
/// line to send back, a blob to write, and whether to shut down.
pub struct Outcome {
    pub answer: Option<String>,
    pub persist: Option<Result<Vec<u8>, CryptError>>,
    pub shutdown: bool,
}

/// What running `cmd` does, on a vault that held `before` with its keys
/// stored in the order `keys`, and that holds `after` once it ran.
pub open spec fn effect(
    before: Map<Seq<char>, Seq<char>>,
    keys: Seq<Seq<char>>,
    after: Map<Seq<char>, Seq<char>>,
    cmd: Command,
    r: Outcome,
) -> bool {
    &&& (r.shutdown <==> cmd == Command::Off)
    &&& match cmd {
        Command::Put(k, v) => {
            &&& after == before.insert(k@, v@)
            &&& r.answer is None
            &&& r.persist is Some
        },
        Command::Get(k) => {
            &&& after == before
            &&& r.persist is None
            &&& (r.answer matches Some(a) && a@ == (if before.dom().contains(k@) {
                seq!['v', 'a', 'l', ' '] + before[k@] + seq!['\n']
            } else {
                seq!['n', 'i', 'l', '\n']
            }))
        },
        Command::Del(k) => {
            &&& after == before.remove(k@)
            &&& r.answer is None
            &&& (r.persist is None <==> !before.dom().contains(k@))
        },
        Command::Lst => {
            &&& after == before
            &&& r.persist is None
            &&& (r.answer matches Some(a) && a@ == joined(keys) + seq!['\n'])
        },
        Command::Help => {
            &&& after == before
            &&& r.persist is None
            &&& (r.answer matches Some(a) && a@ == help_text())
        },
        _ => {
            &&& after == before
            &&& r.persist is None
            &&& r.answer is None
        },
    }
}

/// Runs one command against the vault.
pub fn execute(vault: &mut Vault, cmd: Command) -> (r: Outcome)
    requires
        old(vault).wf(),
    ensures
        final(vault).wf(),
        final(vault).key() == old(vault).key(),
        r.persist matches Some(Ok(blob)) ==> seals(final(vault).key(), blob@, final(vault).plaintext()),
        effect(old(vault)@, old(vault).key_seq(), final(vault)@, cmd, r),
{
    proof {
        reveal_strlit("\n");
        reveal_strlit("val ");
        reveal_strlit("nil\n");
        reveal_strlit("put get del off lst ?\n");
        assert("val "@ =~= seq!['v', 'a', 'l', ' ']);
        assert("nil\n"@ =~= seq!['n', 'i', 'l', '\n']);
        assert("\n"@ =~= seq!['\n']);
        assert("put get del off lst ?\n"@ =~= help_text());
    }
    match cmd {
        Command::Put(k, v) => {
            let blob = vault.put(k.as_str(), v.as_str());
            Outcome { answer: None, persist: Some(blob), shutdown: false }
        },
        Command::Get(k) => {
            let answer = match vault.get(k.as_str()) {
                Some(v) => {
                    let mut a = "val ".to_owned();
                    push_str(&mut a, v);
                    push_str(&mut a, "\n");
                    a
                },
                None => "nil\n".to_owned(),
            };
            Outcome { answer: Some(answer), persist: None, shutdown: false }
        },
        Command::Del(k) => {
            let persist = vault.del(k.as_str());
            Outcome { answer: None, persist, shutdown: false }
        },
        Command::Lst => {
            let mut a = vault.lst();
            push_str(&mut a, "\n");
            Outcome { answer: Some(a), persist: None, shutdown: false }
        },
        Command::Help => {
            Outcome { answer: Some("put get del off lst ?\n".to_owned()), persist: None, shutdown: false }
        },
        Command::Off => Outcome { answer: None, persist: None, shutdown: true },
        Command::Ignore => Outcome { answer: None, persist: None, shutdown: false },
    }
}

/// Runs one line of client input against the vault.
pub fn handle_line(vault: &mut Vault, line: &str) -> (r: Outcome)
    requires
        old(vault).wf(),
    ensures
        final(vault).wf(),
        final(vault).key() == old(vault).key(),
        r.persist matches Some(Ok(blob)) ==> seals(final(vault).key(), blob@, final(vault).plaintext()),
        exists|c: Command|
            parses_to(whitespace_words(line@), c) && effect(
                old(vault)@,
                old(vault).key_seq(),
                final(vault)@,
                c,
                r,
            ),
{
    let cmd = parse_command(line);
    execute(vault, cmd)
}

} // verus!
