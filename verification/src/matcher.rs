//! Deciding whether two parsed configurations are equivalent.
//!
//! Two configurations are equivalent when their block sequences are equal as
//! multisets: every distinct block (a set of normalized lines) occurs the
//! same number of times in both, irrespective of order.  The comparison
//! drains both configurations as it matches blocks, and reports the first
//! discrepancy it finds.

use vstd::prelude::*;

use crate::block::Block;
use crate::config::Config;
use vstd::multiset::Multiset;

verus! {

/// The multiset of block contents of a configuration's block sequence.
/// Comparison depends on nothing else: order never matters.
pub open spec fn blocks_multiset(blocks: Seq<Set<Seq<char>>>) -> Multiset<Set<Seq<char>>> {
    blocks.to_multiset()
}

/// Whether two block sequences represent the same multiset of blocks.
pub open spec fn configs_equivalent(a: Seq<Set<Seq<char>>>, b: Seq<Set<Seq<char>>>) -> bool {
    blocks_multiset(a) == blocks_multiset(b)
}

/// The outcome of comparing two configurations.
pub enum CompareResult {
    /// The two configurations hold the same multiset of blocks.
    Equivalent,
    /// A block of the first configuration — the one carried here — has no
    /// set-equal counterpart left in the second.
    UnmatchedBlock(Block),
    /// Every block of the first configuration was matched, and the carried
    /// blocks of the second configuration remain unmatched.
    LeftoverBlocks(Vec<Block>),
}

impl CompareResult {
    /// Whether the comparison succeeded.
    pub fn is_equivalent(&self) -> (r: bool)
        ensures
            r == (self is Equivalent),
    {
        match self {
            CompareResult::Equivalent => true,
            _ => false,
        }
    }
}

/// Compares two configurations for block-multiset equality, draining both.
///
/// Blocks of `a` are taken from the end, and each is matched against the
/// first set-equal block still in `b`; matched blocks leave both sides.  The
/// result is `Equivalent` exactly when the two configurations held the same
/// multiset of blocks — each side's internal order is irrelevant, and
/// duplicate blocks must occur equally often on both sides.  Otherwise the
/// first block of `a` found to exceed its multiplicity in `b` is returned as
/// `UnmatchedBlock`, and if `a` is exhausted while `b` still holds blocks,
/// those blocks are returned as `LeftoverBlocks`.
pub fn compare_configs(a: &mut Config, b: &mut Config) -> (r: CompareResult)
    ensures
        (r is Equivalent <==> configs_equivalent(old(a)@, old(b)@)),
        (r is Equivalent ==> final(a)@.len() == 0 && final(b)@.len() == 0),
        (r is UnmatchedBlock <==> !blocks_multiset(old(a)@).subset_of(blocks_multiset(old(b)@))),
        (r matches CompareResult::UnmatchedBlock(blk) ==> blocks_multiset(old(a)@).count(blk@)
            > blocks_multiset(old(b)@).count(blk@)),
        (r is LeftoverBlocks <==> blocks_multiset(old(a)@).subset_of(blocks_multiset(old(b)@))
            && !configs_equivalent(old(a)@, old(b)@)),
        (r matches CompareResult::LeftoverBlocks(rest) ==> rest@.len() > 0 && blocks_multiset(
            old(b)@,
        ) == blocks_multiset(old(a)@).add(blocks_multiset(rest@.map_values(|x: Block| x@)))),
{
    let ghost ma = blocks_multiset(old(a)@);
    let ghost mb = blocks_multiset(old(b)@);
    proof {
        broadcast use vstd::seq_lib::group_seq_properties;

        assert(ma.add(b@.to_multiset()) =~= mb.add(a@.to_multiset()));
    }
    while a.blocks.len() > 0
        invariant
            ma == blocks_multiset(old(a)@),
            mb == blocks_multiset(old(b)@),
            ma.add(b@.to_multiset()) == mb.add(a@.to_multiset()),
        decreases a.blocks.len(),
    {
        let ghost va = a@;
        let ghost vb = b@;
        let blk = match a.blocks.pop() {
            Some(blk) => blk,
            None => {
                proof {
                    assert(false);
                }
                Block::new()
            },
        };
        proof {
            broadcast use vstd::seq_lib::group_seq_properties;

            assert(a@ =~= va.drop_last());
            assert(va =~= a@.push(blk@));
            va.drop_last().to_multiset_ensures();
            assert(va.to_multiset() =~= a@.to_multiset().insert(blk@));
        }
        let mut found = false;
        let mut j: usize = 0;
        let n = b.blocks.len();
        while j < n && !found
            invariant
                n == b.blocks.len(),
                j <= n,
                found ==> j >= 1 && b@[j - 1] == blk@,
                !found ==> forall|k: int| 0 <= k < j ==> b@[k] != blk@,
            decreases n - j + (if found {
                0int
            } else {
                1int
            }),
        {
            if b.blocks[j].eq_block(&blk) {
                found = true;
            }
            j += 1;
        }
        if found {
            let idx = j - 1;
            proof {
                vb.to_multiset_ensures();
                assert(vb[idx as int] == blk@);
                assert(vb.remove(idx as int).to_multiset() =~= vb.to_multiset().remove(blk@));
                assert(vb.contains(blk@));
                assert(vb.to_multiset().count(blk@) > 0);
            }
            b.blocks.remove(idx);
            proof {
                assert(b@ =~= vb.remove(idx as int));
                assert(b@.to_multiset() == vb.to_multiset().remove(blk@));
                assert forall|x: Set<Seq<char>>|
                    ma.add(b@.to_multiset()).count(x) == mb.add(a@.to_multiset()).count(x) by {
                    assert(ma.add(vb.to_multiset()).count(x) == mb.add(va.to_multiset()).count(x));
                    assert(vb.to_multiset().remove(blk@).count(x) == if x == blk@ {
                        vb.to_multiset().count(x) - 1
                    } else {
                        vb.to_multiset().count(x) as int
                    });
                    assert(va.to_multiset().count(x) == if x == blk@ {
                        a@.to_multiset().count(x) + 1int
                    } else {
                        a@.to_multiset().count(x) as int
                    });
                };
                assert(ma.add(b@.to_multiset()) =~= mb.add(a@.to_multiset()));
            }
        } else {
            proof {
                vb.to_multiset_ensures();
                assert(!vb.contains(blk@));
                assert(vb.to_multiset().count(blk@) == 0);
                assert(ma.count(blk@) == mb.count(blk@) + a@.to_multiset().count(blk@) + 1) by {
                    assert(ma.add(vb.to_multiset()).count(blk@) == mb.add(
                        a@.to_multiset().insert(blk@),
                    ).count(blk@));
                }
                assert(ma.count(blk@) > mb.count(blk@));
                assert(!ma.subset_of(mb));
            }
            return CompareResult::UnmatchedBlock(blk);
        }
    }
    proof {
        assert(a@.len() == 0);
        a@.to_multiset_ensures();
        assert(a@.to_multiset().len() == 0);
        assert(a@.to_multiset() =~= Multiset::<Set<Seq<char>>>::empty());
        assert(ma.add(b@.to_multiset()) =~= mb);
    }
    if b.blocks.len() == 0 {
        proof {
            b@.to_multiset_ensures();
            assert(b@.to_multiset() =~= Multiset::<Set<Seq<char>>>::empty());
            assert(ma =~= mb);
            assert(ma.subset_of(mb));
        }
        return CompareResult::Equivalent;
    }
    let ghost drained = b@;
    let mut rest: Vec<Block> = Vec::new();
    proof {
        assert(rest@.map_values(|x: Block| x@).to_multiset().add(b@.to_multiset())
            =~= drained.to_multiset());
    }
    while b.blocks.len() > 0
        invariant
            rest@.map_values(|x: Block| x@).to_multiset().add(b@.to_multiset())
                == drained.to_multiset(),
            rest@.len() + b@.len() == drained.len(),
        decreases b.blocks.len(),
    {
        let ghost vb = b@;
        let ghost vr = rest@.map_values(|x: Block| x@);
        let blk = match b.blocks.pop() {
            Some(blk) => blk,
            None => {
                proof {
                    assert(false);
                }
                Block::new()
            },
        };
        rest.push(blk);
        proof {
            assert(b@ =~= vb.drop_last());
            assert(vb =~= b@.push(blk@));
            b@.to_multiset_ensures();
            assert(vb.to_multiset() =~= b@.to_multiset().insert(blk@));
            assert(rest@.map_values(|x: Block| x@) =~= vr.push(blk@));
            vr.to_multiset_ensures();
            assert(rest@.map_values(|x: Block| x@).to_multiset() =~= vr.to_multiset().insert(
                blk@,
            ));
            assert(rest@.map_values(|x: Block| x@).to_multiset().add(b@.to_multiset())
                =~= drained.to_multiset()) by {
                assert(forall|x: Set<Seq<char>>|
                    #[trigger] vr.to_multiset().insert(blk@).add(b@.to_multiset()).count(x)
                        == vr.to_multiset().add(b@.to_multiset().insert(blk@)).count(x));
            }
        }
    }
    proof {
        b@.to_multiset_ensures();
        assert(b@.to_multiset() =~= Multiset::<Set<Seq<char>>>::empty());
        let rm = rest@.map_values(|x: Block| x@).to_multiset();
        assert(rm =~= drained.to_multiset());
        assert(mb == ma.add(rm));
        drained.to_multiset_ensures();
        rest@.map_values(|x: Block| x@).to_multiset_ensures();
        assert(rest@.map_values(|x: Block| x@).len() == rest@.len());
        assert(drained.len() > 0);
        assert(rest@.len() > 0);
        assert(rm.len() > 0) by {
            assert(rm.len() == rest@.map_values(|x: Block| x@).len());
        }
        assert(ma.subset_of(mb)) by {
            assert(forall|x: Set<Seq<char>>| #[trigger] ma.count(x) <= ma.add(rm).count(x));
        }
        assert(ma != mb) by {
            assert(mb.len() == ma.len() + rm.len());
        }
    }
    CompareResult::LeftoverBlocks(rest)
}

} // verus!
