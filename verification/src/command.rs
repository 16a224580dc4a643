//! The commands of the interactive prompt: a line that starts with `:` is a
//! command, any other line is a query.
use vstd::prelude::*;
use crate::text::chars_of;

verus! {

/// What a line typed at the query prompt asks for.
#[derive(Clone, Copy, Debug, PartialEq, Eq, Structural)]
pub enum Command {
    /// A query to answer (the line does not start with `:`).
    Query,
    /// `:q` or `:quit`.
    Quit,
    /// `:o <file>` or `:open <file>`.
    Open,
    /// `:s <term>` or `:stem <term>`.
    Stem,
    /// `:i <folder>` or `:index <folder>`.
    Index,
    /// `:v` or `:vocab`.
    Vocab,
    /// `:k` or `:kgram`.
    KGram,
    /// `:enable k` or `:enable kgram`.
    EnableKGram,
    /// `:disable k` or `:disable kgram`.
    DisableKGram,
    /// `:h` or `:help`.
    Help,
    /// Any other line that starts with `:`.
    Invalid,
}

/// `:` followed by `name`.
pub open spec fn colon(name: Seq<char>) -> Seq<char> {
    seq![':'] + name
}

/// The line is `:` + `short` or `:` + `long`.
pub open spec fn is_either(line: Seq<char>, short: Seq<char>, long: Seq<char>) -> bool {
    line == colon(short) || line == colon(long)
}

/// The line starts with `:` + `short` + space or `:` + `long` + space.
pub open spec fn starts_either(line: Seq<char>, short: Seq<char>, long: Seq<char>) -> bool {
    colon(short).push(' ').is_prefix_of(line) || colon(long).push(' ').is_prefix_of(line)
}

/// The command that a line asks for, tried in this order.
pub open spec fn command_of(line: Seq<char>) -> Command {
    if !(line.len() > 0 && line[0] == ':') {
        Command::Query
    } else if is_either(line, seq!['q'], seq!['q', 'u', 'i', 't']) {
        Command::Quit
    } else if starts_either(line, seq!['o'], seq!['o', 'p', 'e', 'n']) {
        Command::Open
    } else if starts_either(line, seq!['s'], seq!['s', 't', 'e', 'm']) {
        Command::Stem
    } else if starts_either(line, seq!['i'], seq!['i', 'n', 'd', 'e', 'x']) {
        Command::Index
    } else if is_either(line, seq!['v'], seq!['v', 'o', 'c', 'a', 'b']) {
        Command::Vocab
    } else if is_either(line, seq!['k'], seq!['k', 'g', 'r', 'a', 'm']) {
        Command::KGram
    } else if is_either(line, seq!['e', 'n', 'a', 'b', 'l', 'e', ' ', 'k'], seq!['e', 'n', 'a', 'b', 'l', 'e', ' ', 'k', 'g', 'r', 'a', 'm']) {
        Command::EnableKGram
    } else if is_either(
        line,
        seq!['d', 'i', 's', 'a', 'b', 'l', 'e', ' ', 'k'],
        seq!['d', 'i', 's', 'a', 'b', 'l', 'e', ' ', 'k', 'g', 'r', 'a', 'm'],
    ) {
        Command::DisableKGram
    } else if is_either(line, seq!['h'], seq!['h', 'e', 'l', 'p']) {
        Command::Help
    } else {
        Command::Invalid
    }
}

/// Whether `p` is a prefix of `s`.
fn has_prefix(s: &Vec<char>, p: &Vec<char>) -> (r: bool)
    ensures
        r == p@.is_prefix_of(s@),
{
    if p.len() > s.len() {
        return false;
    }
    let mut i: usize = 0;
    while i < p.len()
        invariant
            i <= p@.len(),
            p@.len() <= s@.len(),
            forall|j: int| 0 <= j < i ==> p@[j] == s@[j],
        decreases p@.len() - i,
    {
        if p[i] != s[i] {
            return false;
        }
        i = i + 1;
    }
    assert(p@ =~= s@.take(p@.len() as int));
    true
}

/// Whether `s` is `p`.
fn same(s: &Vec<char>, p: &Vec<char>) -> (r: bool)
    ensures
        r == (s@ == p@),
{
    if s.len() != p.len() {
        return false;
    }
    let b = has_prefix(s, p);
    proof {
        if b {
            assert(s@ =~= p@);
        }
    }
    b
}

/// `:` followed by `name`.
fn colon_of(name: Vec<char>) -> (r: Vec<char>)
    ensures
        r@ == colon(name@),
{
    let mut r: Vec<char> = vec![':'];
    let mut i: usize = 0;
    while i < name.len()
        invariant
            i <= name@.len(),
            r@ == colon(name@.take(i as int)),
        decreases name@.len() - i,
    {
        r.push(name[i]);
        assert(name@.take(i + 1) =~= name@.take(i as int).push(name@[i as int]));
        assert(r@ =~= colon(name@.take(i + 1)));
        i = i + 1;
    }
    assert(name@.take(name@.len() as int) =~= name@);
    r
}

fn either(line: &Vec<char>, short: Vec<char>, long: Vec<char>) -> (r: bool)
    ensures
        r == is_either(line@, short@, long@),
{
    same(line, &colon_of(short)) || same(line, &colon_of(long))
}

fn starts(line: &Vec<char>, short: Vec<char>, long: Vec<char>) -> (r: bool)
    ensures
        r == starts_either(line@, short@, long@),
{
    let mut a = colon_of(short);
    a.push(' ');
    let mut b = colon_of(long);
    b.push(' ');
    has_prefix(line, &a) || has_prefix(line, &b)
}

/// The command that a line typed at the query prompt asks for (see
/// `command_of`).
pub fn classify_command(line: &str) -> (c: Command)
    ensures
        c == command_of(line@),
{
    let cs = chars_of(line);
    let w0: Vec<char> = vec!['q'];
    assert(w0@ =~= seq!['q']);
    let w1: Vec<char> = vec!['q', 'u', 'i', 't'];
    assert(w1@ =~= seq!['q', 'u', 'i', 't']);
    let w2: Vec<char> = vec!['o'];
    assert(w2@ =~= seq!['o']);
    let w3: Vec<char> = vec!['o', 'p', 'e', 'n'];
    assert(w3@ =~= seq!['o', 'p', 'e', 'n']);
    let w4: Vec<char> = vec!['s'];
    assert(w4@ =~= seq!['s']);
    let w5: Vec<char> = vec!['s', 't', 'e', 'm'];
    assert(w5@ =~= seq!['s', 't', 'e', 'm']);
    let w6: Vec<char> = vec!['i'];
    assert(w6@ =~= seq!['i']);
    let w7: Vec<char> = vec!['i', 'n', 'd', 'e', 'x'];
    assert(w7@ =~= seq!['i', 'n', 'd', 'e', 'x']);
    let w8: Vec<char> = vec!['v'];
    assert(w8@ =~= seq!['v']);
    let w9: Vec<char> = vec!['v', 'o', 'c', 'a', 'b'];
    assert(w9@ =~= seq!['v', 'o', 'c', 'a', 'b']);
    let w10: Vec<char> = vec!['k'];
    assert(w10@ =~= seq!['k']);
    let w11: Vec<char> = vec!['k', 'g', 'r', 'a', 'm'];
    assert(w11@ =~= seq!['k', 'g', 'r', 'a', 'm']);
    let w12: Vec<char> = vec!['e', 'n', 'a', 'b', 'l', 'e', ' ', 'k'];
    assert(w12@ =~= seq!['e', 'n', 'a', 'b', 'l', 'e', ' ', 'k']);
    let w13: Vec<char> = vec!['e', 'n', 'a', 'b', 'l', 'e', ' ', 'k', 'g', 'r', 'a', 'm'];
    assert(w13@ =~= seq!['e', 'n', 'a', 'b', 'l', 'e', ' ', 'k', 'g', 'r', 'a', 'm']);
    let w14: Vec<char> = vec!['d', 'i', 's', 'a', 'b', 'l', 'e', ' ', 'k'];
    assert(w14@ =~= seq!['d', 'i', 's', 'a', 'b', 'l', 'e', ' ', 'k']);
    let w15: Vec<char> = vec!['d', 'i', 's', 'a', 'b', 'l', 'e', ' ', 'k', 'g', 'r', 'a', 'm'];
    assert(w15@ =~= seq!['d', 'i', 's', 'a', 'b', 'l', 'e', ' ', 'k', 'g', 'r', 'a', 'm']);
    let w16: Vec<char> = vec!['h'];
    assert(w16@ =~= seq!['h']);
    let w17: Vec<char> = vec!['h', 'e', 'l', 'p'];
    assert(w17@ =~= seq!['h', 'e', 'l', 'p']);
    if !(cs.len() > 0 && cs[0] == ':') {
        Command::Query
    } else if either(&cs, w0, w1) {
        Command::Quit
    } else if starts(&cs, w2, w3) {
        Command::Open
    } else if starts(&cs, w4, w5) {
        Command::Stem
    } else if starts(&cs, w6, w7) {
        Command::Index
    } else if either(&cs, w8, w9) {
        Command::Vocab
    } else if either(&cs, w10, w11) {
        Command::KGram
    } else if either(&cs, w12, w13) {
        Command::EnableKGram
    } else if either(
        &cs,
        w14,
        w15,
    ) {
        Command::DisableKGram
    } else if either(&cs, w16, w17) {
        Command::Help
    } else {
        Command::Invalid
    }
}

} // verus!
