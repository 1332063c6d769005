//! Normalized lines and blocks.
//!
//! A *normalized* line is a line with every space and tab character removed.
//! A [`Block`] is a set of normalized lines; its identity for comparison
//! purposes is exactly that set.

use vstd::prelude::*;

verus! {

/// A character that normalization deletes: a space or a tab.
pub open spec fn is_removable(c: char) -> bool {
    c == ' ' || c == '\t'
}

/// The normalized form of a line: the line with every space and tab removed.
pub open spec fn normalize_spec(line: Seq<char>) -> Seq<char> {
    line.filter(|c: char| !is_removable(c))
}

/// How `Seq::filter` grows when one element is appended.
proof fn lemma_filter_push<A>(s: Seq<A>, x: A, pred: spec_fn(A) -> bool)
    ensures
        s.push(x).filter(pred) == if pred(x) {
            s.filter(pred).push(x)
        } else {
            s.filter(pred)
        },
{
    reveal(Seq::filter);
    assert(s.push(x).drop_last() =~= s);
    assert(s.push(x).last() == x);
}

/// Removes every space and tab character from `line`.
pub fn normalize_line(line: &Vec<char>) -> (out: Vec<char>)
    ensures
        out@ == normalize_spec(line@),
{
    let mut out: Vec<char> = Vec::new();
    let mut i: usize = 0;
    while i < line.len()
        invariant
            i <= line.len(),
            out@ == normalize_spec(line@.take(i as int)),
        decreases line.len() - i,
    {
        let c = line[i];
        proof {
            assert(line@.take(i + 1) =~= line@.take(i as int).push(line@[i as int]));
            lemma_filter_push(line@.take(i as int), line@[i as int], |c: char| !is_removable(c));
        }
        if !(c == ' ' || c == '\t') {
            out.push(c);
        }
        i += 1;
    }
    proof {
        assert(line@.take(line@.len() as int) =~= line@);
    }
    out
}

/// Content equality of two character vectors.
fn eq_char_vec(x: &Vec<char>, y: &Vec<char>) -> (r: bool)
    ensures
        r == (x@ == y@),
{
    if x.len() != y.len() {
        return false;
    }
    let mut i: usize = 0;
    while i < x.len()
        invariant
            i <= x.len(),
            x.len() == y.len(),
            forall|j: int| 0 <= j < i ==> x@[j] == y@[j],
        decreases x.len() - i,
    {
        if x[i] != y[i] {
            return false;
        }
        i += 1;
    }
    proof {
        assert(x@ =~= y@);
    }
    true
}

/// A set of normalized lines, produced from one maximal run of non-empty
/// lines of a configuration file.  Abstractly a `Block` is the set of its
/// lines: duplicates collapse, and the order in which lines were inserted is
/// irrelevant.
pub struct Block {
    lines: Vec<Vec<char>>,
}

impl View for Block {
    type V = Set<Seq<char>>;

    closed spec fn view(&self) -> Set<Seq<char>> {
        self.line_seq().to_set()
    }
}

impl Block {
    /// The stored lines, as a sequence of character sequences.
    pub closed spec fn line_seq(self) -> Seq<Seq<char>> {
        self.lines@.map_values(|l: Vec<char>| l@)
    }

    /// Each distinct line is stored once.
    #[verifier::type_invariant]
    pub closed spec fn wf(self) -> bool {
        self.line_seq().no_duplicates()
    }

    /// An empty block.  The parser never leaves one in a configuration, but
    /// every block starts out empty while its lines are gathered.
    pub fn new() -> (b: Block)
        ensures
            b@ == Set::<Seq<char>>::empty(),
    {
        let b = Block { lines: Vec::new() };
        proof {
            assert(b.line_seq() =~= Seq::<Seq<char>>::empty());
            assert(b@ =~= Set::<Seq<char>>::empty());
        }
        b
    }

    /// Whether `line` is one of the block's normalized lines.
    pub fn contains_line(&self, line: &Vec<char>) -> (r: bool)
        ensures
            r == self@.contains(line@),
    {
        let mut i: usize = 0;
        while i < self.lines.len()
            invariant
                i <= self.lines.len(),
                forall|j: int| 0 <= j < i ==> self.line_seq()[j] != line@,
            decreases self.lines.len() - i,
        {
            if eq_char_vec(&self.lines[i], line) {
                proof {
                    assert(self.line_seq()[i as int] == line@);
                }
                return true;
            }
            i += 1;
        }
        proof {
            assert(!self.line_seq().contains(line@));
        }
        false
    }

    /// Adds a normalized line to the block.  Inserting a line that is
    /// already present leaves the block unchanged.
    pub fn insert(&mut self, line: Vec<char>)
        ensures
            final(self)@ == old(self)@.insert(line@),
    {
        proof {
            use_type_invariant(&*self);
        }
        let present = self.contains_line(&line);
        if present {
            proof {
                assert(old(self)@.insert(line@) =~= old(self)@);
            }
        } else {
            let ghost prev = old(self).line_seq();
            let mut lines: Vec<Vec<char>> = Vec::new();
            core::mem::swap(&mut self.lines, &mut lines);
            lines.push(line);
            proof {
                assert(lines@.map_values(|l: Vec<char>| l@) =~= prev.push(line@));
                prev.lemma_push_to_set_commute(line@);
                assert(!prev.contains(line@));
                assert(prev.push(line@).no_duplicates());
            }
            *self = Block { lines };
        }
    }

    /// The number of distinct lines in the block.
    pub fn len(&self) -> (n: usize)
        ensures
            n == self@.len(),
    {
        proof {
            use_type_invariant(self);
            self.line_seq().unique_seq_to_set();
        }
        self.lines.len()
    }

    /// Whether the block has no lines.
    pub fn is_empty(&self) -> (r: bool)
        ensures
            r == self@.is_empty(),
    {
        proof {
            use_type_invariant(self);
            self.line_seq().unique_seq_to_set();
            if self.line_seq().len() == 0 {
                assert(self@ =~= Set::<Seq<char>>::empty());
            }
        }
        self.lines.len() == 0
    }

    /// The `i`-th stored line, under an arbitrary internal order.  Together
    /// with [`Block::len`] this exposes the block's content, one line at a
    /// time.
    pub fn line_at(&self, i: usize) -> (l: &Vec<char>)
        requires
            i < self@.len(),
        ensures
            self@.contains(l@),
    {
        proof {
            use_type_invariant(self);
            self.line_seq().unique_seq_to_set();
            assert(self.line_seq()[i as int] == self.lines@.map_values(|l: Vec<char>| l@)[i as int]);
        }
        &self.lines[i]
    }

    /// Whether `self` and `other` hold exactly the same set of lines.
    pub fn eq_block(&self, other: &Block) -> (r: bool)
        ensures
            r == (self@ == other@),
    {
        let fwd = self.is_subset(other);
        if !fwd {
            return false;
        }
        let bwd = other.is_subset(self);
        if !bwd {
            return false;
        }
        proof {
            assert(self@ =~= other@);
        }
        true
    }

    /// Whether every line of `self` is also a line of `other`.
    fn is_subset(&self, other: &Block) -> (r: bool)
        ensures
            r == self@.subset_of(other@),
    {
        let mut i: usize = 0;
        while i < self.lines.len()
            invariant
                i <= self.lines.len(),
                forall|j: int| 0 <= j < i ==> other@.contains(#[trigger] self.line_seq()[j]),
            decreases self.lines.len() - i,
        {
            if !other.contains_line(&self.lines[i]) {
                proof {
                    assert(self@.contains(self.line_seq()[i as int]));
                }
                return false;
            }
            i += 1;
        }
        proof {
            assert forall|x: Seq<char>| self@.contains(x) implies other@.contains(x) by {
                let j = choose|j: int|
                    0 <= j < self.line_seq().len() && self.line_seq()[j] == x;
                assert(other@.contains(self.line_seq()[j]));
            };
        }
        true
    }
}

} // verus!
