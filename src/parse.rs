use vstd::prelude::*;

use crate::direction::{direction_from_chars, direction_of, Direction};
use crate::text::{chars_of, is_separator, is_white_space, lower, lowered, separator, spells, string_of, white_space};

verus! {

/// A line without the white space at its start.
pub open spec fn trim_start(s: Seq<char>) -> Seq<char>
    decreases s.len(),
{
    if s.len() > 0 && is_white_space(s[0]) {
        trim_start(s.drop_first())
    } else {
        s
    }
}

/// A line without the white space at its end.
pub open spec fn trim_end(s: Seq<char>) -> Seq<char>
    decreases s.len(),
{
    if s.len() > 0 && is_white_space(s.last()) {
        trim_end(s.drop_last())
    } else {
        s
    }
}

/// A line without the white space at either end.
pub open spec fn trim(s: Seq<char>) -> Seq<char> {
    trim_end(trim_start(s))
}

/// Reading a text from the left: the words that are complete, and the
/// word that is still going on.
pub open spec fn scan(s: Seq<char>) -> (Seq<Seq<char>>, Seq<char>)
    decreases s.len(),
{
    if s.len() == 0 {
        (Seq::empty(), Seq::empty())
    } else {
        let (done, cur) = scan(s.drop_last());
        if is_separator(s.last()) {
            if cur.len() > 0 {
                (done.push(cur), Seq::empty())
            } else {
                (done, cur)
            }
        } else {
            (done, cur.push(s.last()))
        }
    }
}

/// The words of a text: its longest runs of characters that are not ASCII
/// white space, from left to right.
pub open spec fn tokens(s: Seq<char>) -> Seq<Seq<char>> {
    let (done, cur) = scan(s);
    if cur.len() > 0 {
        done.push(cur)
    } else {
        done
    }
}

/// Words joined with one space between each two.
pub open spec fn join(ws: Seq<Seq<char>>) -> Seq<char>
    decreases ws.len(),
{
    if ws.len() == 0 {
        Seq::empty()
    } else if ws.len() == 1 {
        ws[0]
    } else {
        join(ws.drop_last()) + seq![' '] + ws.last()
    }
}

/// What a command means to the rules.
pub enum CommandView {
    Empty,
    Go(Direction),
    Look,
    Take(Seq<char>),
    Drop(Seq<char>),
    Inventory,
    Quit,
    Unknown(Seq<char>),
    BadArgs(Seq<char>),
}

/// The command that a line of words stands for. The verb is read in lower
/// case; the words after it are its arguments.
pub open spec fn command_of(toks: Seq<Seq<char>>) -> CommandView {
    if toks.len() == 0 {
        CommandView::Empty
    } else {
        let verb = lower(toks[0]);
        let n = toks.len() - 1;
        if verb == "go"@ {
            if n == 1 && direction_of(toks[1]) is Some {
                CommandView::Go(direction_of(toks[1])->0)
            } else {
                CommandView::BadArgs(verb)
            }
        } else if verb == "look"@ || verb == "l"@ {
            if n == 0 {
                CommandView::Look
            } else {
                CommandView::BadArgs(verb)
            }
        } else if verb == "take"@ || verb == "get"@ {
            if n >= 1 {
                CommandView::Take(join(toks.drop_first()))
            } else {
                CommandView::BadArgs(verb)
            }
        } else if verb == "drop"@ {
            if n >= 1 {
                CommandView::Drop(join(toks.drop_first()))
            } else {
                CommandView::BadArgs(verb)
            }
        } else if verb == "inventory"@ || verb == "i"@ || verb == "inv"@ {
            if n == 0 {
                CommandView::Inventory
            } else {
                CommandView::BadArgs(verb)
            }
        } else if verb == "quit"@ || verb == "exit"@ {
            if n == 0 {
                CommandView::Quit
            } else {
                CommandView::BadArgs(verb)
            }
        } else if direction_of(verb) is Some {
            if n == 0 {
                CommandView::Go(direction_of(verb)->0)
            } else {
                CommandView::BadArgs(verb)
            }
        } else {
            CommandView::Unknown(verb)
        }
    }
}

/// The command that a line of input stands for.
pub open spec fn command_of_line(line: Seq<char>) -> CommandView {
    command_of(tokens(trim(line)))
}

/// One command of the player, read from a line of input.
#[derive(Debug, PartialEq, Eq)]
pub enum Command {
    /// A line with nothing but white space.
    Empty,
    Go(Direction),
    Look,
    /// Take the item of this name.
    Take(String),
    /// Drop the item of this name.
    Drop(String),
    Inventory,
    Quit,
    /// A verb that is not known, in lower case.
    Unknown(String),
    /// A known verb, in lower case, with the wrong number of arguments.
    BadArgs(String),
}

impl View for Command {
    type V = CommandView;

    open spec fn view(&self) -> CommandView {
        match self {
            Command::Empty => CommandView::Empty,
            Command::Go(d) => CommandView::Go(*d),
            Command::Look => CommandView::Look,
            Command::Take(n) => CommandView::Take(n@),
            Command::Drop(n) => CommandView::Drop(n@),
            Command::Inventory => CommandView::Inventory,
            Command::Quit => CommandView::Quit,
            Command::Unknown(v) => CommandView::Unknown(v@),
            Command::BadArgs(v) => CommandView::BadArgs(v@),
        }
    }
}

/// The characters of each word of a list.
pub open spec fn words(ws: Seq<Vec<char>>) -> Seq<Seq<char>> {
    ws.map_values(|w: Vec<char>| w@)
}

/// The characters of a line between the white space at its two ends.
fn trimmed(v: &Vec<char>) -> (r: Vec<char>)
    ensures
        r@ == trim(v@),
{
    let n = v.len();
    let mut lo: usize = 0;
    assert(v@.subrange(0, n as int) =~= v@);
    while lo < n && white_space(v[lo])
        invariant
            n == v@.len(),
            lo <= n,
            trim_start(v@) == trim_start(v@.subrange(lo as int, n as int)),
        decreases n - lo,
    {
        assert(v@.subrange(lo as int, n as int).drop_first() =~= v@.subrange(lo + 1, n as int));
        lo = lo + 1;
    }
    assert(trim_start(v@) == v@.subrange(lo as int, n as int));
    let mut hi: usize = n;
    while hi > lo && white_space(v[hi - 1])
        invariant
            n == v@.len(),
            lo <= hi <= n,
            trim(v@) == trim_end(v@.subrange(lo as int, hi as int)),
        decreases hi - lo,
    {
        assert(v@.subrange(lo as int, hi as int).drop_last() =~= v@.subrange(lo as int, hi - 1));
        hi = hi - 1;
    }
    assert(trim(v@) == v@.subrange(lo as int, hi as int));
    let mut r: Vec<char> = Vec::new();
    let mut i: usize = lo;
    while i < hi
        invariant
            n == v@.len(),
            lo <= i <= hi <= n,
            r@ == v@.subrange(lo as int, i as int),
        decreases hi - i,
    {
        r.push(v[i]);
        i = i + 1;
        assert(r@ =~= v@.subrange(lo as int, i as int));
    }
    r
}

/// The words of a text, as `tokens` says.
fn split_words(v: &Vec<char>) -> (r: Vec<Vec<char>>)
    ensures
        words(r@) == tokens(v@),
{
    let mut done: Vec<Vec<char>> = Vec::new();
    let mut cur: Vec<char> = Vec::new();
    let mut i: usize = 0;
    while i < v.len()
        invariant
            i <= v@.len(),
            words(done@) == scan(v@.take(i as int)).0,
            cur@ == scan(v@.take(i as int)).1,
        decreases v@.len() - i,
    {
        let c = v[i];
        assert(v@.take(i + 1).drop_last() =~= v@.take(i as int));
        if separator(c) {
            if cur.len() > 0 {
                let ghost d0 = done@;
                done.push(cur);
                cur = Vec::new();
                assert(words(done@) =~= words(d0).push(scan(v@.take(i as int)).1));
            }
        } else {
            cur.push(c);
        }
        i = i + 1;
    }
    assert(v@.take(v@.len() as int) =~= v@);
    if cur.len() > 0 {
        let ghost d0 = done@;
        done.push(cur);
        assert(words(done@) =~= words(d0).push(scan(v@).1));
    }
    done
}

/// The words from the second on, joined with one space between each two.
fn join_arguments(ws: &Vec<Vec<char>>) -> (r: Vec<char>)
    requires
        ws@.len() >= 1,
    ensures
        r@ == join(words(ws@).drop_first()),
{
    let ghost all = words(ws@);
    let mut r: Vec<char> = Vec::new();
    let mut i: usize = 1;
    while i < ws.len()
        invariant
            all == words(ws@),
            1 <= i <= ws@.len(),
            r@ == join(all.subrange(1, i as int)),
        decreases ws@.len() - i,
    {
        let ghost before = r@;
        if i > 1 {
            r.push(' ');
        }
        let w = &ws[i];
        let mut k: usize = 0;
        let ghost mid = r@;
        while k < w.len()
            invariant
                mid == (if i > 1 { before + seq![' '] } else { before }),
                k <= w@.len(),
                r@ == mid + w@.take(k as int),
            decreases w@.len() - k,
        {
            r.push(w[k]);
            k = k + 1;
            assert(r@ =~= mid + w@.take(k as int));
        }
        assert(w@.take(w@.len() as int) =~= w@);
        assert(all.subrange(1, i + 1).drop_last() =~= all.subrange(1, i as int));
        if i == 1 {
            assert(before =~= Seq::<char>::empty());
            assert(r@ =~= w@);
        }
        i = i + 1;
    }
    assert(all.subrange(1, ws@.len() as int) =~= all.drop_first());
    r
}

/// Reads one command from a line of input. Every line, however odd, reads
/// as exactly one command.
pub fn parse_command(line: &str) -> (r: Command)
    ensures
        r@ == command_of_line(line@),
{
    let chars = chars_of(line);
    let t = trimmed(&chars);
    let toks = split_words(&t);
    proof {
        assert(words(toks@).len() == toks@.len());
    }
    if toks.len() == 0 {
        return Command::Empty;
    }
    let ghost tv = words(toks@);
    assert(tv[0] == toks@[0]@);
    let verb = lowered(&toks[0]);
    let n = toks.len() - 1;
    if spells(&verb, "go") {
        if n == 1 {
            assert(tv[1] == toks@[1]@);
            match direction_from_chars(&toks[1]) {
                Some(d) => Command::Go(d),
                None => Command::BadArgs(string_of(&verb)),
            }
        } else {
            Command::BadArgs(string_of(&verb))
        }
    } else if spells(&verb, "look") || spells(&verb, "l") {
        if n == 0 { Command::Look } else { Command::BadArgs(string_of(&verb)) }
    } else if spells(&verb, "take") || spells(&verb, "get") {
        if n >= 1 {
            Command::Take(string_of(&join_arguments(&toks)))
        } else {
            Command::BadArgs(string_of(&verb))
        }
    } else if spells(&verb, "drop") {
        if n >= 1 {
            Command::Drop(string_of(&join_arguments(&toks)))
        } else {
            Command::BadArgs(string_of(&verb))
        }
    } else if spells(&verb, "inventory") || spells(&verb, "i") || spells(&verb, "inv") {
        if n == 0 { Command::Inventory } else { Command::BadArgs(string_of(&verb)) }
    } else if spells(&verb, "quit") || spells(&verb, "exit") {
        if n == 0 { Command::Quit } else { Command::BadArgs(string_of(&verb)) }
    } else {
        match direction_from_chars(&verb) {
            Some(d) => {
                proof {
                    crate::text::lemma_lower_idempotent(toks@[0]@);
                }
                if n == 0 { Command::Go(d) } else { Command::BadArgs(string_of(&verb)) }
            },
            None => {
                proof {
                    crate::text::lemma_lower_idempotent(toks@[0]@);
                }
                Command::Unknown(string_of(&verb))
            },
        }
    }
}

} // verus!
