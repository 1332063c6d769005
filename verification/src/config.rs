//! Parsing a configuration file's text into a sequence of blocks.
//!
//! The text is split into lines the way `str::lines` does it: lines end at a
//! `'\n'`, and a `'\r'` immediately before the `'\n'` is not part of the
//! line; a final line needs no terminator, and an empty final fragment yields
//! no line.  The lines are then gathered into blocks: every maximal run of
//! non-empty lines becomes one block holding the normalized forms of its
//! lines, and empty lines only separate blocks — a run of empty lines, or
//! empty lines at either end of the file, never produce a block.

use vstd::prelude::*;

use crate::block::Block;
use crate::block::normalize_line;
use crate::block::normalize_spec;

verus! {

/// Drops a final carriage return, as `str::lines` does at a line feed.
pub open spec fn strip_cr(line: Seq<char>) -> Seq<char> {
    if line.len() > 0 && line.last() == '\r' {
        line.drop_last()
    } else {
        line
    }
}

/// The lines of `text`, given that the characters `cur` have already been
/// read from the current line.  Follows `str::lines`: a `'\n'` ends a line
/// and a `'\r'` just before it is stripped; a non-empty final fragment is a
/// line of its own, kept verbatim.
pub open spec fn split_lines_from(text: Seq<char>, cur: Seq<char>) -> Seq<Seq<char>>
    decreases text.len(),
{
    if text.len() == 0 {
        if cur.len() == 0 {
            Seq::empty()
        } else {
            seq![cur]
        }
    } else if text[0] == '\n' {
        seq![strip_cr(cur)] + split_lines_from(text.drop_first(), Seq::empty())
    } else {
        split_lines_from(text.drop_first(), cur.push(text[0]))
    }
}

/// The lines of `text`, as `str::lines` yields them.
pub open spec fn split_lines(text: Seq<char>) -> Seq<Seq<char>> {
    split_lines_from(text, Seq::empty())
}

/// The blocks formed by `lines`, given that the in-progress block already
/// holds the line set `cur`.  An empty line closes the in-progress block if
/// it is non-empty and is ignored otherwise; a non-empty line's normalized
/// form joins the in-progress block; a non-empty in-progress block left at
/// the end becomes the last block.
pub open spec fn blocks_from(lines: Seq<Seq<char>>, cur: Set<Seq<char>>) -> Seq<Set<Seq<char>>>
    decreases lines.len(),
{
    if lines.len() == 0 {
        if cur.is_empty() {
            Seq::empty()
        } else {
            seq![cur]
        }
    } else if lines[0].len() == 0 {
        if cur.is_empty() {
            blocks_from(lines.drop_first(), cur)
        } else {
            seq![cur] + blocks_from(lines.drop_first(), Set::empty())
        }
    } else {
        blocks_from(lines.drop_first(), cur.insert(normalize_spec(lines[0])))
    }
}

/// The sequence of block contents that parsing `text` yields.
pub open spec fn parse_spec(text: Seq<char>) -> Seq<Set<Seq<char>>> {
    blocks_from(split_lines(text), Set::empty())
}

/// The ordered sequence of blocks parsed from one configuration file.  The
/// order records where each block stood in the file; it carries no meaning
/// for comparison.
pub struct Config {
    /// The file's blocks, in order of appearance.
    pub blocks: Vec<Block>,
}

impl View for Config {
    type V = Seq<Set<Seq<char>>>;

    open spec fn view(&self) -> Seq<Set<Seq<char>>> {
        self.blocks@.map_values(|b: Block| b@)
    }
}

impl Config {
    /// A configuration with no blocks.
    pub fn new() -> (c: Config)
        ensures
            c@ == Seq::<Set<Seq<char>>>::empty(),
    {
        let c = Config { blocks: Vec::new() };
        proof {
            assert(c@ =~= Seq::<Set<Seq<char>>>::empty());
        }
        c
    }

    /// The number of blocks.
    pub fn len(&self) -> (n: usize)
        ensures
            n == self@.len(),
    {
        self.blocks.len()
    }

    /// Whether the configuration has no blocks.
    pub fn is_empty(&self) -> (r: bool)
        ensures
            r == (self@.len() == 0),
    {
        self.blocks.len() == 0
    }
}

/// Splits `text` into its lines, each line as a vector of characters,
/// exactly as `str::lines` splits it.
pub fn split_into_lines(text: &str) -> (lines: Vec<Vec<char>>)
    ensures
        lines@.map_values(|l: Vec<char>| l@) == split_lines(text@),
{
    let n = text.unicode_len();
    let mut lines: Vec<Vec<char>> = Vec::new();
    let mut cur: Vec<char> = Vec::new();
    let mut i: usize = 0;
    proof {
        assert(text@.skip(0) =~= text@);
        assert(lines@.map_values(|l: Vec<char>| l@) =~= Seq::<Seq<char>>::empty());
    }
    while i < n
        invariant
            n == text@.len(),
            i <= n,
            split_lines(text@) == lines@.map_values(|l: Vec<char>| l@) + split_lines_from(
                text@.skip(i as int),
                cur@,
            ),
        decreases n - i,
    {
        let ghost rest = text@.skip(i as int);
        proof {
            assert(rest.len() > 0);
            assert(rest[0] == text@[i as int]);
            assert(rest.drop_first() =~= text@.skip(i + 1));
        }
        let c = text.get_char(i);
        if c == '\n' {
            let ghost cur0 = cur@;
            if cur.len() > 0 && cur[cur.len() - 1] == '\r' {
                cur.pop();
                proof {
                    assert(cur@ =~= strip_cr(cur0));
                }
            }
            proof {
                assert(cur@ == strip_cr(cur0));
            }
            let ghost lines0 = lines@.map_values(|l: Vec<char>| l@);
            lines.push(cur);
            cur = Vec::new();
            proof {
                assert(lines@.map_values(|l: Vec<char>| l@) =~= lines0.push(strip_cr(cur0)));
                assert(lines0.push(strip_cr(cur0)) + split_lines_from(text@.skip(i + 1), cur@)
                    =~= lines0 + (seq![strip_cr(cur0)] + split_lines_from(
                    text@.skip(i + 1),
                    Seq::empty(),
                )));
            }
        } else {
            cur.push(c);
        }
        i += 1;
    }
    proof {
        assert(text@.skip(n as int) =~= Seq::<char>::empty());
        if cur@.len() == 0 {
            assert(lines@.map_values(|l: Vec<char>| l@) + Seq::<Seq<char>>::empty()
                =~= lines@.map_values(|l: Vec<char>| l@));
        }
    }
    if cur.len() > 0 {
        let ghost lines0 = lines@.map_values(|l: Vec<char>| l@);
        let ghost cur0 = cur@;
        lines.push(cur);
        proof {
            assert(lines@.map_values(|l: Vec<char>| l@) =~= lines0.push(cur0));
            assert(lines0 + seq![cur0] =~= lines0.push(cur0));
        }
    }
    lines
}

/// Parses a configuration file's full text into its sequence of blocks.
pub fn parse(text: &str) -> (config: Config)
    ensures
        config@ == parse_spec(text@),
{
    let lines = split_into_lines(text);
    let ghost line_views = lines@.map_values(|l: Vec<char>| l@);
    let mut blocks: Vec<Block> = Vec::new();
    let mut cur = Block::new();
    let mut i: usize = 0;
    proof {
        assert(line_views.skip(0) =~= line_views);
        assert(blocks@.map_values(|b: Block| b@) =~= Seq::<Set<Seq<char>>>::empty());
    }
    while i < lines.len()
        invariant
            lines@.map_values(|l: Vec<char>| l@) == line_views,
            i <= lines.len(),
            parse_spec(text@) == blocks@.map_values(|b: Block| b@) + blocks_from(
                line_views.skip(i as int),
                cur@,
            ),
        decreases lines.len() - i,
    {
        let ghost rest = line_views.skip(i as int);
        proof {
            assert(rest[0] == line_views[i as int]);
            assert(rest.drop_first() =~= line_views.skip(i + 1));
        }
        if lines[i].len() == 0 {
            proof {
                assert(line_views[i as int].len() == 0);
            }
            let empty = cur.is_empty();
            if !empty {
                let ghost blocks0 = blocks@.map_values(|b: Block| b@);
                let ghost cur0 = cur@;
                blocks.push(cur);
                cur = Block::new();
                proof {
                    assert(blocks@.map_values(|b: Block| b@) =~= blocks0.push(cur0));
                    assert(blocks0.push(cur0) + blocks_from(line_views.skip(i + 1), cur@)
                        =~= blocks0 + (seq![cur0] + blocks_from(
                        line_views.skip(i + 1),
                        Set::empty(),
                    )));
                }
            }
        } else {
            proof {
                assert(line_views[i as int].len() > 0);
            }
            let norm = normalize_line(&lines[i]);
            cur.insert(norm);
        }
        i += 1;
    }
    proof {
        assert(line_views.skip(lines@.len() as int) =~= Seq::<Seq<char>>::empty());
    }
    let last_empty = cur.is_empty();
    if !last_empty {
        let ghost blocks0 = blocks@.map_values(|b: Block| b@);
        let ghost cur0 = cur@;
        blocks.push(cur);
        proof {
            assert(blocks@.map_values(|b: Block| b@) =~= blocks0.push(cur0));
            assert(blocks0 + seq![cur0] =~= blocks0.push(cur0));
        }
    } else {
        proof {
            assert(blocks@.map_values(|b: Block| b@) + Seq::<Set<Seq<char>>>::empty()
                =~= blocks@.map_values(|b: Block| b@));
        }
    }
    Config { blocks }
}

} // verus!
