//! The laws the parser and matcher obey: whitespace inside a line, duplicate
//! lines inside a block, extra blank lines between blocks, and the order of
//! lines and of blocks are all irrelevant to comparison.

use vstd::prelude::*;

use crate::block::is_removable;
use crate::block::normalize_spec;
use crate::config::blocks_from;
use crate::config::parse_spec;
use crate::config::split_lines;
use crate::config::split_lines_from;
use crate::config::strip_cr;
use crate::matcher::blocks_multiset;
use crate::matcher::configs_equivalent;

verus! {

/// Normalization of a sequence of characters made only of spaces and tabs
/// yields nothing.
proof fn lemma_normalize_all_removable(w: Seq<char>)
    requires
        forall|i: int| 0 <= i < w.len() ==> is_removable(#[trigger] w[i]),
    ensures
        normalize_spec(w) == Seq::<char>::empty(),
    decreases w.len(),
{
    reveal(Seq::filter);
    if w.len() == 0 {
        assert(normalize_spec(w) =~= Seq::<char>::empty());
    } else {
        lemma_normalize_all_removable(w.drop_last());
        assert(!(!is_removable(w.last())));
    }
}

/// Whitespace invariance: inserting any run of spaces and tabs anywhere in a
/// line leaves its normalized form unchanged, so two lines that differ only
/// in whitespace contribute the same element to a block.
pub proof fn lemma_whitespace_invariance(a: Seq<char>, w: Seq<char>, b: Seq<char>)
    requires
        forall|i: int| 0 <= i < w.len() ==> is_removable(#[trigger] w[i]),
    ensures
        normalize_spec(a + w + b) == normalize_spec(a + b),
{
    let pred = |c: char| !is_removable(c);
    Seq::filter_distributes_over_add(a + w, b, pred);
    Seq::filter_distributes_over_add(a, w, pred);
    Seq::filter_distributes_over_add(a, b, pred);
    lemma_normalize_all_removable(w);
    assert(a.filter(pred) + Seq::<char>::empty() =~= a.filter(pred));
}

/// Parsing only looks at a line through its normalized form: replacing a
/// non-empty line by any non-empty line with the same normalized form leaves
/// the parsed blocks unchanged.
pub proof fn lemma_normalized_line_equivalence(
    prefix: Seq<Seq<char>>,
    l1: Seq<char>,
    l2: Seq<char>,
    suffix: Seq<Seq<char>>,
    cur: Set<Seq<char>>,
)
    requires
        l1.len() > 0,
        l2.len() > 0,
        normalize_spec(l1) == normalize_spec(l2),
    ensures
        blocks_from(prefix + seq![l1] + suffix, cur) == blocks_from(prefix + seq![l2] + suffix, cur),
{
    let s1 = seq![l1] + suffix;
    let s2 = seq![l2] + suffix;
    assert forall|c: Set<Seq<char>>| #[trigger] blocks_from(s1, c) == blocks_from(s2, c) by {
        assert(s1.drop_first() =~= suffix);
        assert(s2.drop_first() =~= suffix);
    };
    lemma_blocks_from_congruent(prefix, s1, s2, cur);
    assert(prefix + seq![l1] + suffix =~= prefix + s1);
    assert(prefix + seq![l2] + suffix =~= prefix + s2);
}

/// A blank line at the start of the file produces no block.
pub proof fn lemma_leading_blank_line(lines: Seq<Seq<char>>)
    ensures
        blocks_from(seq![Seq::<char>::empty()] + lines, Set::empty()) == blocks_from(
            lines,
            Set::empty(),
        ),
{
    assert((seq![Seq::<char>::empty()] + lines).drop_first() =~= lines);
}

/// A blank line at the end of the file produces no block.
pub proof fn lemma_trailing_blank_line(lines: Seq<Seq<char>>, cur: Set<Seq<char>>)
    ensures
        blocks_from(lines.push(Seq::<char>::empty()), cur) == blocks_from(lines, cur),
    decreases lines.len(),
{
    let e = Seq::<char>::empty();
    if lines.len() == 0 {
        assert(lines.push(e)[0].len() == 0);
        assert(lines.push(e).drop_first() =~= Seq::<Seq<char>>::empty());
        if !cur.is_empty() {
            assert(seq![cur] + blocks_from(Seq::<Seq<char>>::empty(), Set::empty()) =~= seq![cur]);
        }
    } else {
        assert(lines.push(e).drop_first() =~= lines.drop_first().push(e));
        assert(lines.push(e)[0] == lines[0]);
        if lines[0].len() == 0 {
            if cur.is_empty() {
                lemma_trailing_blank_line(lines.drop_first(), cur);
            } else {
                lemma_trailing_blank_line(lines.drop_first(), Set::empty());
            }
        } else {
            lemma_trailing_blank_line(lines.drop_first(), cur.insert(normalize_spec(lines[0])));
        }
    }
}

/// Consecutive blank lines separate blocks no differently than a single
/// blank line: a doubled blank line anywhere parses the same as one.
pub proof fn lemma_collapse_blank_lines(
    prefix: Seq<Seq<char>>,
    suffix: Seq<Seq<char>>,
    cur: Set<Seq<char>>,
)
    ensures
        blocks_from(prefix + seq![Seq::<char>::empty(), Seq::<char>::empty()] + suffix, cur)
            == blocks_from(prefix + seq![Seq::<char>::empty()] + suffix, cur),
{
    let e = Seq::<char>::empty();
    let s1 = seq![e, e] + suffix;
    let s2 = seq![e] + suffix;
    assert forall|c: Set<Seq<char>>| #[trigger] blocks_from(s1, c) == blocks_from(s2, c) by {
        assert(s1.drop_first() =~= s2);
        assert(s2.drop_first() =~= suffix);
        if c.is_empty() {
            assert(blocks_from(s1, c) == blocks_from(s2, c));
        } else {
            assert(blocks_from(s1, c) == seq![c] + blocks_from(s2, Set::empty()));
            assert(blocks_from(s2, Set::empty()) == blocks_from(suffix, Set::empty()));
        }
    };
    lemma_blocks_from_congruent(prefix, s1, s2, cur);
    assert(prefix + seq![e, e] + suffix =~= prefix + s1);
    assert(prefix + seq![e] + suffix =~= prefix + s2);
}

/// Duplicate lines collapse: a non-empty line repeated twice in a row parses
/// exactly as the line written once, since a block is a set.
pub proof fn lemma_duplicate_line(
    prefix: Seq<Seq<char>>,
    x: Seq<char>,
    suffix: Seq<Seq<char>>,
    cur: Set<Seq<char>>,
)
    requires
        x.len() > 0,
    ensures
        blocks_from(prefix + seq![x, x] + suffix, cur) == blocks_from(
            prefix + seq![x] + suffix,
            cur,
        ),
{
    let nx = normalize_spec(x);
    let s1 = seq![x, x] + suffix;
    let s2 = seq![x] + suffix;
    assert forall|c: Set<Seq<char>>| #[trigger] blocks_from(s1, c) == blocks_from(s2, c) by {
        assert(s1.drop_first() =~= s2);
        assert(s2.drop_first() =~= suffix);
        assert(s1[0] == x);
        assert(s2[0] == x);
        assert(blocks_from(s1, c) == blocks_from(s2, c.insert(nx)));
        assert(blocks_from(s2, c.insert(nx)) == blocks_from(suffix, c.insert(nx).insert(nx)));
        assert(blocks_from(s2, c) == blocks_from(suffix, c.insert(nx)));
        assert(c.insert(nx).insert(nx) =~= c.insert(nx));
    };
    lemma_blocks_from_congruent(prefix, s1, s2, cur);
    assert(prefix + seq![x, x] + suffix =~= prefix + s1);
    assert(prefix + seq![x] + suffix =~= prefix + s2);
}

/// The order of lines within a block is irrelevant: swapping two adjacent
/// non-empty lines leaves the parsed blocks unchanged.  Adjacent swaps
/// generate every permutation of a block's lines.
pub proof fn lemma_swap_adjacent_lines(
    prefix: Seq<Seq<char>>,
    x: Seq<char>,
    y: Seq<char>,
    suffix: Seq<Seq<char>>,
    cur: Set<Seq<char>>,
)
    requires
        x.len() > 0,
        y.len() > 0,
    ensures
        blocks_from(prefix + seq![x, y] + suffix, cur) == blocks_from(
            prefix + seq![y, x] + suffix,
            cur,
        ),
{
    let nx = normalize_spec(x);
    let ny = normalize_spec(y);
    let s1 = seq![x, y] + suffix;
    let s2 = seq![y, x] + suffix;
    assert forall|c: Set<Seq<char>>| #[trigger] blocks_from(s1, c) == blocks_from(s2, c) by {
        let t1 = seq![y] + suffix;
        let t2 = seq![x] + suffix;
        assert(s1.drop_first() =~= t1);
        assert(s2.drop_first() =~= t2);
        assert(t1.drop_first() =~= suffix);
        assert(t2.drop_first() =~= suffix);
        assert(s1[0] == x && t1[0] == y);
        assert(s2[0] == y && t2[0] == x);
        assert(blocks_from(s1, c) == blocks_from(t1, c.insert(nx)));
        assert(blocks_from(t1, c.insert(nx)) == blocks_from(suffix, c.insert(nx).insert(ny)));
        assert(blocks_from(s2, c) == blocks_from(t2, c.insert(ny)));
        assert(blocks_from(t2, c.insert(ny)) == blocks_from(suffix, c.insert(ny).insert(nx)));
        assert(c.insert(nx).insert(ny) =~= c.insert(ny).insert(nx));
    };
    lemma_blocks_from_congruent(prefix, s1, s2, cur);
    assert(prefix + seq![x, y] + suffix =~= prefix + s1);
    assert(prefix + seq![y, x] + suffix =~= prefix + s2);
}

/// Equivalence respects multiplicity: two configurations are equivalent
/// exactly when every block content occurs the same number of times in both.
/// A block occurring once on one side and twice on the other is therefore a
/// mismatch, even though the two sides hold the same *set* of blocks.
pub proof fn lemma_equivalence_is_multiset_equality(
    a: Seq<Set<Seq<char>>>,
    b: Seq<Set<Seq<char>>>,
)
    ensures
        configs_equivalent(a, b) <==> (forall|x: Set<Seq<char>>|
            blocks_multiset(a).count(x) == blocks_multiset(b).count(x)),
{
    if forall|x: Set<Seq<char>>| blocks_multiset(a).count(x) == blocks_multiset(b).count(x) {
        assert(blocks_multiset(a) =~= blocks_multiset(b));
    }
}

/// The order of blocks within a file is irrelevant: two configurations with
/// the same multiset of blocks — in particular, one a permutation of the
/// other — compare identically against any third configuration, on either
/// side of the comparison.
pub proof fn lemma_block_order_invariance(
    a1: Seq<Set<Seq<char>>>,
    a2: Seq<Set<Seq<char>>>,
    b: Seq<Set<Seq<char>>>,
)
    requires
        blocks_multiset(a1) == blocks_multiset(a2),
    ensures
        configs_equivalent(a1, b) == configs_equivalent(a2, b),
        configs_equivalent(b, a1) == configs_equivalent(b, a2),
{
}

/// Splitting is unchanged by a final newline after an ordinary character:
/// the last line was unterminated and merely becomes terminated.
proof fn lemma_split_newline_after_char(t: Seq<char>, cur: Seq<char>)
    requires
        t.len() > 0,
        t.last() != '\n',
        t.last() != '\r',
    ensures
        split_lines_from(t.push('\n'), cur) == split_lines_from(t, cur),
    decreases t.len(),
{
    if t.len() == 1 {
        assert(t.push('\n').drop_first() =~= seq!['\n']);
        assert(t.drop_first() =~= Seq::<char>::empty());
        if t[0] == '\n' {
        } else {
            assert(split_lines_from(t.push('\n'), cur) == split_lines_from(
                seq!['\n'],
                cur.push(t[0]),
            ));
            assert(seq!['\n'].drop_first() =~= Seq::<char>::empty());
            assert(strip_cr(cur.push(t[0])) =~= cur.push(t[0]));
            assert(split_lines_from(Seq::<char>::empty(), Seq::<char>::empty())
                =~= Seq::<Seq<char>>::empty());
            assert(split_lines_from(Seq::<char>::empty(), cur.push(t[0]))
                =~= seq![cur.push(t[0])]);
            assert(split_lines_from(seq!['\n'], cur.push(t[0])) =~= seq![cur.push(t[0])]);
            assert(split_lines_from(t, cur) =~= seq![cur.push(t[0])]);
        }
    } else {
        assert(t.push('\n').drop_first() =~= t.drop_first().push('\n'));
        assert(t.drop_first().last() == t.last());
        if t[0] == '\n' {
            lemma_split_newline_after_char(t.drop_first(), Seq::empty());
        } else {
            lemma_split_newline_after_char(t.drop_first(), cur.push(t[0]));
        }
    }
}

/// Splitting a text that already ends in a newline with one more newline
/// appended yields the same lines plus one trailing empty line.
proof fn lemma_split_newline_after_newline(t: Seq<char>, cur: Seq<char>)
    requires
        t.len() > 0,
        t.last() == '\n',
    ensures
        split_lines_from(t.push('\n'), cur) == split_lines_from(t, cur).push(Seq::empty()),
    decreases t.len(),
{
    let e = Seq::<char>::empty();
    if t.len() == 1 {
        assert(t.push('\n').drop_first() =~= seq!['\n']);
        assert(t.drop_first() =~= e);
        assert(strip_cr(e) =~= e);
        assert(seq!['\n'].drop_first() =~= e);
        assert(split_lines_from(e, e) =~= Seq::<Seq<char>>::empty());
        assert(split_lines_from(seq!['\n'], e) =~= seq![e]);
        assert(split_lines_from(t.push('\n'), cur) =~= seq![strip_cr(cur)] + seq![e]);
        assert(split_lines_from(t, cur) =~= seq![strip_cr(cur)]);
        assert((seq![strip_cr(cur)] + seq![e]) =~= seq![strip_cr(cur)].push(e));
    } else {
        assert(t.push('\n').drop_first() =~= t.drop_first().push('\n'));
        assert(t.drop_first().last() == t.last());
        if t[0] == '\n' {
            lemma_split_newline_after_newline(t.drop_first(), e);
            assert(seq![strip_cr(cur)] + split_lines_from(t.drop_first(), e).push(e)
                =~= (seq![strip_cr(cur)] + split_lines_from(t.drop_first(), e)).push(e));
        } else {
            lemma_split_newline_after_newline(t.drop_first(), cur.push(t[0]));
        }
    }
}

/// A newline at the start of the text only opens the file with a blank
/// line, and so changes no block.
pub proof fn lemma_leading_newline(t: Seq<char>)
    ensures
        parse_spec(seq!['\n'] + t) == parse_spec(t),
{
    let e = Seq::<char>::empty();
    assert((seq!['\n'] + t).drop_first() =~= t);
    assert(strip_cr(e) =~= e);
    assert(split_lines(seq!['\n'] + t) == seq![e] + split_lines(t));
    lemma_leading_blank_line(split_lines(t));
    assert(seq![Seq::<char>::empty()] + split_lines(t) =~= seq![e] + split_lines(t));
}

/// The final newline of a file is optional: unless the text ends in a bare
/// carriage return, appending a newline leaves the parsed blocks unchanged.
pub proof fn lemma_trailing_newline(t: Seq<char>)
    requires
        t.len() == 0 || t.last() != '\r',
    ensures
        parse_spec(t.push('\n')) == parse_spec(t),
{
    let e = Seq::<char>::empty();
    if t.len() == 0 {
        assert(t.push('\n') =~= seq!['\n']);
        assert(seq!['\n'].drop_first() =~= e);
        assert(strip_cr(e) =~= e);
        assert(split_lines_from(e, e) =~= Seq::<Seq<char>>::empty());
        assert(split_lines(seq!['\n']) =~= seq![e]);
        assert(seq![e].drop_first() =~= Seq::<Seq<char>>::empty());
        assert(blocks_from(seq![e], Set::empty()) == blocks_from(
            Seq::<Seq<char>>::empty(),
            Set::empty(),
        ));
        assert(parse_spec(t) == Seq::<Set<Seq<char>>>::empty());
        assert(parse_spec(t.push('\n')) =~= Seq::<Set<Seq<char>>>::empty());
    } else if t.last() == '\n' {
        lemma_split_newline_after_newline(t, e);
        lemma_trailing_blank_line(split_lines(t), Set::empty());
    } else {
        lemma_split_newline_after_char(t, e);
    }
}

/// Parsing agrees step by step once the remaining lines are interchangeable:
/// if two tails of a file parse identically from every in-progress block,
/// they still parse identically behind any common prefix of lines.
pub proof fn lemma_blocks_from_congruent(
    prefix: Seq<Seq<char>>,
    s1: Seq<Seq<char>>,
    s2: Seq<Seq<char>>,
    cur: Set<Seq<char>>,
)
    requires
        forall|c: Set<Seq<char>>| #[trigger] blocks_from(s1, c) == blocks_from(s2, c),
    ensures
        blocks_from(prefix + s1, cur) == blocks_from(prefix + s2, cur),
    decreases prefix.len(),
{
    if prefix.len() == 0 {
        assert(prefix + s1 =~= s1);
        assert(prefix + s2 =~= s2);
    } else {
        let rest = prefix.drop_first();
        assert((prefix + s1).drop_first() =~= rest + s1);
        assert((prefix + s2).drop_first() =~= rest + s2);
        assert((prefix + s1)[0] == prefix[0]);
        assert((prefix + s2)[0] == prefix[0]);
        if prefix[0].len() == 0 {
            if cur.is_empty() {
                lemma_blocks_from_congruent(rest, s1, s2, cur);
            } else {
                lemma_blocks_from_congruent(rest, s1, s2, Set::empty());
            }
        } else {
            lemma_blocks_from_congruent(rest, s1, s2, cur.insert(normalize_spec(prefix[0])));
        }
    }
}

} // verus!
