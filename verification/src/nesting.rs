//! How deep a TOML text nests. The parser descends one level for every array,
//! inline table and table that stands inside another, so a text is measured
//! before it is parsed.
//!
//! The measure is taken in one pass that follows the text as the parser does.
//! Strings and comments are passed over: a string in single or double quotes
//! ends at the next quote of its kind, a string opened by three quotes at the
//! next three to five, a comment at the end of its line, and behind a backslash
//! in a string in double quotes the next character is no quote. In what is
//! left, `[` and `{` open a level where a value stands and `]` and `}` close
//! one; a dot counts as a level where it stands in a key, up to the end of that
//! key's value; and a table header counts its brackets and its dots.
//!
//! A text that the parser reads through is measured as it nests: a key with
//! its value stands as many levels deep as were counted at its deepest place,
//! and a table header at least as many as its line counts. A header stands at
//! most twice as deep as its line counts, because a part of it that names an
//! array of tables stands for two levels, the array and a table in it. So what
//! the parser builds is at most one level deep for the document, then twice
//! the measure for a header, then the measure for a key with its value.

use vstd::prelude::*;
use vstd::std_specs::iter::IteratorSpec;

verus! {

/// The deepest nesting that a text may have to be parsed.
pub const NESTING_LIMIT: usize = 64;

/// Where in the text the pass is.
#[derive(Clone, Copy, Debug, PartialEq, Eq, Structural)]
pub enum Lex {
    /// Among keys, values and punctuation.
    Code,
    /// In a comment.
    Comment,
    /// Behind one quote that opens a string.
    Quote1 { basic: bool },
    /// Behind two quotes: an empty string, or two of the three that open a
    /// string over lines.
    Quote2 { basic: bool },
    /// In a string that ends on its line.
    Line { basic: bool },
    /// Behind a backslash in such a string.
    LineEscape,
    /// In a string that was opened by three quotes, behind `run` quotes in a
    /// row.
    Block { basic: bool, run: u8 },
    /// Behind a backslash in such a string.
    BlockEscape,
}

/// An array or inline table that is open.
pub struct Level {
    /// It is an inline table.
    pub table: bool,
    /// What was counted for the levels around it.
    pub base: nat,
    /// The dots of the key whose value it is.
    pub dots: nat,
}

/// What the pass knows after some characters of a text.
pub struct Scan {
    pub lex: Lex,
    /// The arrays and inline tables that are open, the outermost first.
    pub levels: Seq<Level>,
    /// What is counted for them: one for each and the dots of its key.
    pub below: nat,
    /// The dots of the key that is being read, or whose value is.
    pub dots: nat,
    /// A key is being read, not a value.
    pub in_key: bool,
    /// What is counted for the table header that is being read.
    pub header: nat,
    /// The most that was ever counted at once.
    pub peak: nat,
}

/// The quote of strings in double quotes (`basic`) or in single quotes.
pub open spec fn quote_of(basic: bool) -> char {
    if basic {
        '"'
    } else {
        '\''
    }
}

/// Where the pass is once it sees that `c` comes next: two quotes were an empty
/// string, and three or four in a row ended a string, if `c` is no further
/// quote.
pub open spec fn settled(lex: Lex, c: char) -> Lex {
    match lex {
        Lex::Quote2 { basic } => if c == quote_of(basic) {
            lex
        } else {
            Lex::Code
        },
        Lex::Block { basic, run } => if run >= 3 && c != quote_of(basic) {
            Lex::Code
        } else {
            lex
        },
        _ => lex,
    }
}

/// Where the pass is behind the character `c`, read at `lex`.
pub open spec fn lex_after(lex: Lex, c: char) -> Lex {
    match lex {
        Lex::Code => if c == '"' {
            Lex::Quote1 { basic: true }
        } else if c == '\'' {
            Lex::Quote1 { basic: false }
        } else if c == '#' {
            Lex::Comment
        } else {
            Lex::Code
        },
        Lex::Comment => if c == '\n' {
            Lex::Code
        } else {
            Lex::Comment
        },
        Lex::Quote1 { basic } => if c == quote_of(basic) {
            Lex::Quote2 { basic }
        } else if c == '\n' {
            Lex::Code
        } else if basic && c == '\\' {
            Lex::LineEscape
        } else {
            Lex::Line { basic }
        },
        Lex::Quote2 { basic } => Lex::Block { basic, run: 0 },
        Lex::Line { basic } => if c == quote_of(basic) || c == '\n' {
            Lex::Code
        } else if basic && c == '\\' {
            Lex::LineEscape
        } else {
            Lex::Line { basic }
        },
        Lex::LineEscape => Lex::Line { basic: true },
        Lex::Block { basic, run } => if c == quote_of(basic) {
            if run >= 4 {
                Lex::Code
            } else {
                Lex::Block { basic, run: (run + 1) as u8 }
            }
        } else if basic && c == '\\' {
            Lex::BlockEscape
        } else {
            Lex::Block { basic, run: 0 }
        },
        Lex::BlockEscape => Lex::Block { basic: true, run: 0 },
    }
}

/// The character `c`, read at `lex`, is one of the text's structure: it stands
/// in code, or it ends a line outside a string over lines.
pub open spec fn is_structure(lex: Lex, c: char) -> bool {
    if c == '\n' {
        !(lex is Block) && lex != Lex::BlockEscape
    } else {
        lex == Lex::Code
    }
}

/// What is counted at once.
pub open spec fn counted(scan: Scan) -> nat {
    scan.below + scan.dots + scan.header
}

/// What the pass knows of the structure behind the character `c` of it.
pub open spec fn structure_after(scan: Scan, c: char) -> Scan {
    if scan.header > 0 {
        if c == '\n' {
            Scan { header: 0, dots: 0, in_key: true, ..scan }
        } else if c == '[' || c == '.' {
            Scan { header: scan.header + 1, ..scan }
        } else {
            scan
        }
    } else if c == '\n' {
        if scan.levels.len() == 0 {
            Scan { dots: 0, in_key: true, ..scan }
        } else {
            scan
        }
    } else if c == '[' && scan.levels.len() == 0 && scan.in_key {
        Scan { header: 1, ..scan }
    } else if c == '[' || c == '{' {
        Scan {
            levels: scan.levels.push(
                Level { table: c == '{', base: scan.below, dots: scan.dots },
            ),
            below: scan.below + scan.dots + 1,
            dots: 0,
            in_key: c == '{',
            ..scan
        }
    } else if c == ']' || c == '}' {
        if scan.levels.len() > 0 {
            Scan {
                levels: scan.levels.drop_last(),
                below: scan.levels.last().base,
                dots: scan.levels.last().dots,
                in_key: false,
                ..scan
            }
        } else {
            scan
        }
    } else if c == '.' {
        if scan.in_key {
            Scan { dots: scan.dots + 1, ..scan }
        } else {
            scan
        }
    } else if c == '=' {
        Scan { in_key: false, ..scan }
    } else if c == ',' {
        if scan.levels.len() > 0 && scan.levels.last().table {
            Scan { dots: 0, in_key: true, ..scan }
        } else {
            scan
        }
    } else {
        scan
    }
}

/// What the pass knows after one more character.
pub open spec fn advance(scan: Scan, c: char) -> Scan {
    let lex = settled(scan.lex, c);
    let next = if is_structure(lex, c) {
        structure_after(scan, c)
    } else {
        scan
    };
    Scan {
        lex: lex_after(lex, c),
        peak: if counted(next) > scan.peak {
            counted(next)
        } else {
            scan.peak
        },
        ..next
    }
}

/// What the pass knows after the first `upto` characters of a text.
pub open spec fn scan(text: Seq<char>, upto: nat) -> Scan
    recommends
        upto <= text.len(),
    decreases upto,
{
    if upto == 0 {
        Scan {
            lex: Lex::Code,
            levels: Seq::empty(),
            below: 0,
            dots: 0,
            in_key: true,
            header: 0,
            peak: 0,
        }
    } else {
        advance(scan(text, (upto - 1) as nat), text[upto - 1])
    }
}

/// How deep a text nests: the most that the pass ever counts at once in it.
pub open spec fn nesting(text: Seq<char>) -> nat {
    scan(text, text.len()).peak
}

/// The most that was counted only grows, and it is never less than what is
/// counted.
pub proof fn lemma_peak_grows(text: Seq<char>, early: nat, late: nat)
    requires
        early <= late,
    ensures
        scan(text, early).peak <= scan(text, late).peak,
        counted(scan(text, late)) <= scan(text, late).peak,
    decreases late,
{
    if early < late {
        lemma_peak_grows(text, early, (late - 1) as nat);
    } else if late > 0 {
        lemma_peak_grows(text, (late - 1) as nat, (late - 1) as nat);
    }
}

/// The open levels as the pass holds them.
pub open spec fn same_levels(stack: Seq<(bool, usize, usize)>, levels: Seq<Level>) -> bool {
    &&& stack.len() == levels.len()
    &&& forall|i: int|
        0 <= i < stack.len() ==> (#[trigger] stack[i]).0 == levels[i].table && stack[i].1
            == levels[i].base && stack[i].2 == levels[i].dots
}

/// Where the pass is once it sees that `c` comes next.
fn settle(lex: Lex, c: char) -> (r: Lex)
    ensures
        r == settled(lex, c),
{
    match lex {
        Lex::Quote2 { basic } => if c == quote(basic) {
            lex
        } else {
            Lex::Code
        },
        Lex::Block { basic, run } => if run >= 3 && c != quote(basic) {
            Lex::Code
        } else {
            lex
        },
        _ => lex,
    }
}

/// The quote of strings in double quotes (`basic`) or in single quotes.
fn quote(basic: bool) -> (c: char)
    ensures
        c == quote_of(basic),
{
    if basic {
        '"'
    } else {
        '\''
    }
}

/// Where the pass is behind the character `c`, read at `lex`.
fn step(lex: Lex, c: char) -> (r: Lex)
    ensures
        r == lex_after(lex, c),
{
    match lex {
        Lex::Code => if c == '"' {
            Lex::Quote1 { basic: true }
        } else if c == '\'' {
            Lex::Quote1 { basic: false }
        } else if c == '#' {
            Lex::Comment
        } else {
            Lex::Code
        },
        Lex::Comment => if c == '\n' {
            Lex::Code
        } else {
            Lex::Comment
        },
        Lex::Quote1 { basic } => if c == quote(basic) {
            Lex::Quote2 { basic }
        } else if c == '\n' {
            Lex::Code
        } else if basic && c == '\\' {
            Lex::LineEscape
        } else {
            Lex::Line { basic }
        },
        Lex::Quote2 { basic } => Lex::Block { basic, run: 0 },
        Lex::Line { basic } => if c == quote(basic) || c == '\n' {
            Lex::Code
        } else if basic && c == '\\' {
            Lex::LineEscape
        } else {
            Lex::Line { basic }
        },
        Lex::LineEscape => Lex::Line { basic: true },
        Lex::Block { basic, run } => if c == quote(basic) {
            if run >= 4 {
                Lex::Code
            } else {
                Lex::Block { basic, run: run + 1 }
            }
        } else if basic && c == '\\' {
            Lex::BlockEscape
        } else {
            Lex::Block { basic, run: 0 }
        },
        Lex::BlockEscape => Lex::Block { basic: true, run: 0 },
    }
}

/// Whether the character `c`, read at `lex`, is one of the text's structure.
fn structure(lex: Lex, c: char) -> (r: bool)
    ensures
        r == is_structure(lex, c),
{
    if c == '\n' {
        match lex {
            Lex::Block { .. } => false,
            Lex::BlockEscape => false,
            _ => true,
        }
    } else {
        match lex {
            Lex::Code => true,
            _ => false,
        }
    }
}

/// Says whether a text nests within `limit`.
pub fn nesting_within(text: &str, limit: usize) -> (ok: bool)
    ensures
        ok == (nesting(text@) <= limit),
{
    broadcast use vstd::string::group_string_axioms;

    let mut rest = text.chars();
    let mut lex = Lex::Code;
    let mut stack: Vec<(bool, usize, usize)> = Vec::new();
    let mut below: usize = 0;
    let mut dots: usize = 0;
    let mut in_key = true;
    let mut header: usize = 0;
    let ghost mut at: nat = 0;
    assert(rest.remaining() == text@);
    loop
        invariant
            at <= text@.len(),
            rest.remaining() == text@.skip(at as int),
            lex == scan(text@, at).lex,
            same_levels(stack@, scan(text@, at).levels),
            below == scan(text@, at).below,
            dots == scan(text@, at).dots,
            in_key == scan(text@, at).in_key,
            header == scan(text@, at).header,
            below + dots + header <= limit,
            scan(text@, at).peak <= limit,
            stack@.len() > 0 ==> header == 0,
            forall|i: int|
                0 <= i < stack@.len() ==> (#[trigger] stack@[i]).1 + stack@[i].2 <= limit,
        decreases text@.len() - at,
    {
        let ghost before = rest.remaining();
        let ghost old_scan = scan(text@, at);
        let next = rest.next();
        assert(before.len() > 0 ==> next == Some(before[0]) && rest.remaining()
            == before.drop_first());
        assert(before.len() == 0 ==> next is None);
        let c = match next {
            None => {
                assert(at == text@.len());
                return true;
            },
            Some(c) => c,
        };
        proof {
            assert(c == text@[at as int]);
            assert(scan(text@, at + 1) == advance(old_scan, c));
            lemma_peak_grows(text@, at + 1, text@.len());
            assert(text@.skip(at as int).drop_first() =~= text@.skip(at as int + 1));
        }
        let here = settle(lex, c);
        if structure(here, c) {
            if header > 0 {
                if c == '\n' {
                    header = 0;
                    dots = 0;
                    in_key = true;
                } else if c == '[' || c == '.' {
                    if below + dots + header >= limit {
                        return false;
                    }
                    header = header + 1;
                }
            } else if c == '\n' {
                if stack.len() == 0 {
                    dots = 0;
                    in_key = true;
                }
            } else if c == '[' && stack.len() == 0 && in_key {
                if below + dots >= limit {
                    return false;
                }
                header = 1;
            } else if c == '[' || c == '{' {
                if below + dots >= limit {
                    return false;
                }
                stack.push((c == '{', below, dots));
                below = below + dots + 1;
                dots = 0;
                in_key = c == '{';
                assert(same_levels(stack@, structure_after(old_scan, c).levels));
            } else if c == ']' || c == '}' {
                if stack.len() > 0 {
                    let top = stack.pop().unwrap();
                    below = top.1;
                    dots = top.2;
                    in_key = false;
                    assert(same_levels(stack@, structure_after(old_scan, c).levels));
                }
            } else if c == '.' {
                if in_key {
                    if below + dots >= limit {
                        return false;
                    }
                    dots = dots + 1;
                }
            } else if c == '=' {
                in_key = false;
            } else if c == ',' {
                if stack.len() > 0 && stack[stack.len() - 1].0 {
                    dots = 0;
                    in_key = true;
                }
            }
        }
        lex = step(here, c);
        proof {
            at = at + 1;
        }
    }
}

} // verus!
