//! Merkle inclusion proofs over a block's transaction ids.
//!
//! A level with an odd number of nodes is padded by repeating its last node;
//! each next level hashes adjacent pairs.  The proof lists, per level, the
//! sibling of the target's node; folding those siblings from the target
//! upward reproduces the root, which is what the contract states.
use vstd::prelude::*;

use crate::bytes::{bytes_eq, vecs_view};
use crate::errors::QueryError;
use crate::hashes::{merklize, merklize_of};

verus! {

/// A level padded to even length by repeating its last node.
pub open spec fn pad_even(level: Seq<Seq<u8>>) -> Seq<Seq<u8>> {
    if level.len() % 2 == 1 {
        level.push(level.last())
    } else {
        level
    }
}

/// The next level up: adjacent pairs of the padded level, hashed.
pub open spec fn level_up(level: Seq<Seq<u8>>) -> Seq<Seq<u8>> {
    let p = pad_even(level);
    Seq::<Seq<u8>>::new((p.len() / 2) as nat, |i: int| merklize_of(p[2 * i], p[2 * i + 1]))
}

/// The Merkle root of a non-empty level.
pub open spec fn merkle_root(level: Seq<Seq<u8>>) -> Seq<u8>
    recommends
        level.len() >= 1,
    decreases level.len(),
{
    if level.len() <= 1 {
        if level.len() == 1 {
            level[0]
        } else {
            Seq::<u8>::empty()
        }
    } else {
        merkle_root(level_up(level))
    }
}

/// The canonical proof: per level, the padded level's node next to the
/// target's (the one at the position with its lowest bit flipped), from the
/// bottom level up.  Its length is the number of halvings down to one node.
pub open spec fn proof_siblings(level: Seq<Seq<u8>>, pos: nat) -> Seq<Seq<u8>>
    decreases level.len(),
{
    if level.len() <= 1 {
        Seq::<Seq<u8>>::empty()
    } else {
        let p = pad_even(level);
        let sib = if pos % 2 == 0 {
            p[pos as int + 1]
        } else {
            p[pos as int - 1]
        };
        seq![sib] + proof_siblings(level_up(level), pos / 2)
    }
}

/// Fold a proof path: combine the running hash with each sibling, on the
/// side the position's bit picks, halving the position per level.
pub open spec fn fold_proof_path(start: Seq<u8>, pos: nat, siblings: Seq<Seq<u8>>) -> Seq<u8>
    decreases siblings.len(),
{
    if siblings.len() == 0 {
        start
    } else {
        let next = if pos % 2 == 0 {
            merklize_of(start, siblings[0])
        } else {
            merklize_of(siblings[0], start)
        };
        fold_proof_path(next, pos / 2, siblings.drop_first())
    }
}

/// Copy a list of byte strings.
fn dup_vecs(v: &Vec<Vec<u8>>) -> (r: Vec<Vec<u8>>)
    ensures
        vecs_view(r@) == vecs_view(v@),
{
    let mut out: Vec<Vec<u8>> = Vec::new();
    let n = v.len();
    let mut i: usize = 0;
    while i < n
        invariant
            n == v.len(),
            i <= n,
            vecs_view(out@).len() == i,
            forall|j: int| 0 <= j < i ==> (#[trigger] vecs_view(out@)[j]) == vecs_view(v@)[j],
        decreases n - i,
    {
        let ghost pre_out = vecs_view(out@);
        let item = v[i].clone();
        let ghost itemv = item@;
        proof {
            assert(itemv =~= v@[i as int]@);
        }
        out.push(item);
        proof {
            assert(vecs_view(out@) =~= pre_out.push(itemv));
        }
        i = i + 1;
    }
    proof {
        assert(vecs_view(out@) =~= vecs_view(v@));
    }
    out
}

/// The inclusion proof of `tx_hash` among `block_txids`: the siblings from
/// the bottom level up, and the target's position.  Folding the siblings
/// from the target reproduces the block's Merkle root.
pub fn merkle_proof(block_txids: &Vec<Vec<u8>>, tx_hash: &Vec<u8>) -> (r: Result<
    (Vec<Vec<u8>>, usize),
    QueryError,
>)
    ensures
        match r {
            Ok(p) => ({
                let txv = vecs_view(block_txids@);
                &&& txv.len() >= 1
                &&& p.1 < txv.len()
                &&& txv[p.1 as int] == tx_hash@
                &&& forall|q: int| 0 <= q < p.1 ==> (#[trigger] txv[q]) != tx_hash@
                &&& vecs_view(p.0@) == proof_siblings(txv, p.1 as nat)
                &&& fold_proof_path(tx_hash@, p.1 as nat, vecs_view(p.0@)) == merkle_root(txv)
            }),
            Err(e) => e is NotInBlock && forall|q: int|
                0 <= q < vecs_view(block_txids@).len() ==> (#[trigger] vecs_view(
                    block_txids@,
                )[q]) != tx_hash@,
        },
{
    let ghost txv = vecs_view(block_txids@);
    // find the target's position
    let n = block_txids.len();
    let mut pos: usize = 0;
    loop
        invariant
            n == block_txids.len(),
            txv == vecs_view(block_txids@),
            txv.len() == n,
            pos <= n,
            forall|q: int| 0 <= q < pos ==> (#[trigger] txv[q]) != tx_hash@,
        ensures
            pos < n,
            txv[pos as int] == tx_hash@,
            forall|q: int| 0 <= q < pos ==> (#[trigger] txv[q]) != tx_hash@,
        decreases n - pos,
    {
        if pos == n {
            return Err(QueryError::NotInBlock);
        }
        proof {
            assert(txv[pos as int] == block_txids@[pos as int]@);
        }
        if bytes_eq(&block_txids[pos], tx_hash) {
            break ;
        }
        pos = pos + 1;
    }
    let mut level = dup_vecs(block_txids);
    let mut index: usize = pos;
    let mut merkle: Vec<Vec<u8>> = Vec::new();
    let ghost h0 = tx_hash@;
    let ghost p0 = pos as nat;
    proof {
        assert(vecs_view(merkle@) =~= Seq::<Seq<u8>>::empty());
        assert(vecs_view(merkle@) + proof_siblings(vecs_view(level@), index as nat)
            =~= proof_siblings(txv, p0));
        assert forall|rest: Seq<Seq<u8>>|
            #[trigger] fold_proof_path(h0, p0, vecs_view(merkle@) + rest) == fold_proof_path(
            vecs_view(level@)[index as int],
            index as nat,
            rest,
        ) by {
            assert(vecs_view(merkle@) + rest =~= rest);
        }
    }
    while level.len() > 1
        invariant
            level@.len() >= 1,
            index < level@.len(),
            merkle_root(vecs_view(level@)) == merkle_root(txv),
            vecs_view(merkle@) + proof_siblings(vecs_view(level@), index as nat) == proof_siblings(
                txv,
                p0,
            ),
            forall|rest: Seq<Seq<u8>>|
                #[trigger] fold_proof_path(h0, p0, vecs_view(merkle@) + rest) == fold_proof_path(
                    vecs_view(level@)[index as int],
                    index as nat,
                    rest,
                ),
        decreases level@.len(),
    {
        let ghost cur = vecs_view(level@);
        let ghost pre_merkle = vecs_view(merkle@);
        // pad an odd level by repeating its last node
        if level.len() % 2 == 1 {
            let last = level[level.len() - 1].clone();
            proof {
                assert(last@ =~= level@[level@.len() - 1]@);
            }
            level.push(last);
        }
        let ghost padded = vecs_view(level@);
        proof {
            assert(padded =~= pad_even(cur));
            assert(forall|j: int| 0 <= j < cur.len() ==> (#[trigger] padded[j]) == cur[j]);
            assert(padded.len() % 2 == 0);
        }
        // record the sibling of the target's node
        let sib_index = if index % 2 == 0 {
            index + 1
        } else {
            index - 1
        };
        proof {
            assert(sib_index < padded.len());
        }
        let sibling = level[sib_index].clone();
        let ghost sibv = level@[sib_index as int]@;
        proof {
            assert(sibling@ =~= sibv);
            assert(sibv == padded[sib_index as int]);
        }
        merkle.push(sibling);
        // hash the padded level pairwise into the next level
        let half = level.len() / 2;
        let mut next: Vec<Vec<u8>> = Vec::new();
        let mut i: usize = 0;
        while i < half
            invariant
                half == level@.len() / 2,
                level@.len() <= usize::MAX,
                level@.len() % 2 == 0,
                i <= half,
                padded == vecs_view(level@),
                vecs_view(next@).len() == i,
                forall|j: int|
                    0 <= j < i ==> (#[trigger] vecs_view(next@)[j]) == merklize_of(
                        padded[2 * j],
                        padded[2 * j + 1],
                    ),
            decreases half - i,
        {
            proof {
                assert(padded[2 * i as int] == level@[2 * i as int]@);
                assert(padded[2 * i + 1] == level@[2 * i + 1]@);
            }
            let ghost pre_next = vecs_view(next@);
            let h = merklize(&level[2 * i], &level[2 * i + 1]);
            let ghost hv = h@;
            next.push(h);
            proof {
                assert(vecs_view(next@) =~= pre_next.push(hv));
            }
            i = i + 1;
        }
        proof {
            assert(vecs_view(next@) =~= level_up(cur));
        }
        let new_index = index / 2;
        proof {
            let nx = vecs_view(next@);
            assert(nx.len() == padded.len() / 2);
            assert(new_index < nx.len());
            // the recorded sibling extends every fold path by one step
            assert forall|rest: Seq<Seq<u8>>|
                #[trigger] fold_proof_path(h0, p0, vecs_view(merkle@) + rest) == fold_proof_path(
                nx[new_index as int],
                new_index as nat,
                rest,
            ) by {
                assert(vecs_view(merkle@) =~= pre_merkle.push(sibv));
                assert(pre_merkle.push(sibv) + rest =~= pre_merkle + (seq![sibv] + rest));
                assert(fold_proof_path(h0, p0, pre_merkle + (seq![sibv] + rest))
                    == fold_proof_path(cur[index as int], index as nat, seq![sibv] + rest));
                assert((seq![sibv] + rest)[0] == sibv);
                assert((seq![sibv] + rest).drop_first() =~= rest);
                if index % 2 == 0 {
                    assert(cur[index as int] == padded[2 * (index as int / 2)]);
                    assert(sibv == padded[2 * (index as int / 2) + 1]);
                    assert(nx[new_index as int] == merklize_of(cur[index as int], sibv));
                } else {
                    assert(sibv == padded[2 * (index as int / 2)]);
                    assert(cur[index as int] == padded[2 * (index as int / 2) + 1]);
                    assert(nx[new_index as int] == merklize_of(sibv, cur[index as int]));
                }
            }
            assert(merkle_root(cur) == merkle_root(level_up(cur)));
            assert(proof_siblings(cur, index as nat) == seq![sibv] + proof_siblings(
                level_up(cur),
                new_index as nat,
            ));
            assert(vecs_view(merkle@) + proof_siblings(nx, new_index as nat) =~= pre_merkle + (seq![
                sibv,
            ] + proof_siblings(level_up(cur), new_index as nat)));
        }
        level = next;
        index = new_index;
    }
    proof {
        assert(level@.len() == 1);
        assert(index == 0);
        assert(vecs_view(merkle@) + Seq::<Seq<u8>>::empty() =~= vecs_view(merkle@));
        assert(fold_proof_path(h0, p0, vecs_view(merkle@)) == fold_proof_path(
            vecs_view(level@)[0],
            0nat,
            Seq::<Seq<u8>>::empty(),
        ));
        assert(merkle_root(vecs_view(level@)) == vecs_view(level@)[0]);
        assert(proof_siblings(vecs_view(level@), index as nat) == Seq::<Seq<u8>>::empty());
        assert(vecs_view(merkle@) + Seq::<Seq<u8>>::empty() =~= vecs_view(merkle@));
    }
    Ok((merkle, pos))
}

} // verus!
