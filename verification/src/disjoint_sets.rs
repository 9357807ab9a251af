//! Disjoint sets over the elements `0..n`, kept by `petgraph`'s `UnionFind`.
//!
//! The structure itself is not verified here. What this module states of it
//! is taken on trust and is the ground on which the region labelling is
//! proved: which element represents each set, and how a union picks the
//! representative of the merged set.

use vstd::prelude::*;
use petgraph::unionfind::UnionFind;

verus! {

#[verifier::external_type_specification]
#[verifier::external_body]
#[verifier::reject_recursive_types(K)]
pub struct ExUnionFind<K>(UnionFind<K>);

/// For each element, the element that represents its set: the root reached
/// from it by following parent links. A representative represents itself.
pub uninterp spec fn representatives(sets: UnionFind<usize>) -> Seq<usize>;

/// For each element, its rank: 0 at first, and raised by one each time the
/// element, as a representative, takes in a set whose representative has
/// the same rank. Ranks are stored in a byte; a representative of rank `r`
/// stands for at least `2^r` elements, so the byte never overflows.
pub uninterp spec fn ranks(sets: UnionFind<usize>) -> Seq<nat>;

/// The state of a family of disjoint sets, as far as unions and lookups
/// depend on it.
pub struct Forest {
    pub reps: Seq<usize>,
    pub ranks: Seq<nat>,
}

impl Forest {
    /// `n` sets of one element each, all of rank 0.
    pub open spec fn fresh(n: nat) -> Forest {
        Forest { reps: Seq::new(n, |i: int| i as usize), ranks: Seq::new(n, |i: int| 0nat) }
    }

    /// The sets of `x` and `y` merged. The representative of higher rank
    /// stays; with equal ranks the representative of `x` stays and its rank
    /// goes up by one.
    pub open spec fn union(self, x: int, y: int) -> Forest {
        let rx = self.reps[x];
        let ry = self.reps[y];
        if rx == ry {
            self
        } else if self.ranks[rx as int] < self.ranks[ry as int] {
            Forest {
                reps: Seq::new(
                    self.reps.len(),
                    |i: int|
                        if self.reps[i] == rx {
                            ry
                        } else {
                            self.reps[i]
                        },
                ),
                ranks: self.ranks,
            }
        } else {
            Forest {
                reps: Seq::new(
                    self.reps.len(),
                    |i: int|
                        if self.reps[i] == ry {
                            rx
                        } else {
                            self.reps[i]
                        },
                ),
                ranks: if self.ranks[rx as int] == self.ranks[ry as int] {
                    self.ranks.update(rx as int, self.ranks[rx as int] + 1)
                } else {
                    self.ranks
                },
            }
        }
    }

    /// Every element has a representative among the elements, and a
    /// representative represents itself.
    pub open spec fn wf(self) -> bool {
        &&& self.ranks.len() == self.reps.len()
        &&& forall|i: int|
            0 <= i < self.reps.len() ==> 0 <= #[trigger] self.reps[i] < self.reps.len()
                && self.reps[self.reps[i] as int] == self.reps[i]
    }
}

/// The state of `sets`.
pub open spec fn forest_of(sets: UnionFind<usize>) -> Forest {
    Forest { reps: representatives(sets), ranks: ranks(sets) }
}

/// Calls `UnionFind::new`, which makes `n` sets of one element each: every
/// element is its own parent and has rank 0.
#[verifier::external_body]
pub(crate) fn new_sets(n: usize) -> (sets: UnionFind<usize>)
    ensures
        representatives(sets) == Forest::fresh(n as nat).reps,
        ranks(sets) == Forest::fresh(n as nat).ranks,
{
    UnionFind::new(n)
}

/// Calls `UnionFind::find`, which follows the parent links from `x` to the
/// root of its tree and changes nothing. It panics where `x` is no element.
#[verifier::external_body]
pub(crate) fn find_set(sets: &UnionFind<usize>, x: usize) -> (rep: usize)
    requires
        x < representatives(*sets).len(),
    ensures
        rep == representatives(*sets)[x as int],
{
    sets.find(x)
}

/// Calls `UnionFind::union`, which looks up both roots, shortening paths on
/// the way without changing any root or rank, and hangs the root of lower
/// rank below the other; with equal ranks the root of `y` goes below the
/// root of `x`, whose rank then goes up by one. It answers whether the two
/// sets were distinct. It panics where `x` or `y` is no element.
#[verifier::external_body]
pub(crate) fn union_sets(sets: &mut UnionFind<usize>, x: usize, y: usize) -> (merged: bool)
    requires
        x < representatives(*old(sets)).len(),
        y < representatives(*old(sets)).len(),
    ensures
        representatives(*final(sets)) == forest_of(*old(sets)).union(x as int, y as int).reps,
        ranks(*final(sets)) == forest_of(*old(sets)).union(x as int, y as int).ranks,
        merged == (representatives(*old(sets))[x as int] != representatives(*old(sets))[y as int]),
{
    sets.union(x, y)
}

/// Calls `UnionFind::into_labeling`, which hands out, for each element, the
/// root of its tree.
#[verifier::external_body]
pub(crate) fn into_labels(sets: UnionFind<usize>) -> (labels: Vec<usize>)
    ensures
        labels@ == representatives(sets),
{
    sets.into_labeling()
}

/// A fresh family is well formed.
pub(crate) proof fn lemma_fresh_wf(n: nat)
    requires
        n <= usize::MAX,
    ensures
        Forest::fresh(n).wf(),
        Forest::fresh(n).reps.len() == n,
{
}

/// A union keeps a family well formed, keeps together what was together,
/// and puts the sets of `x` and `y` together and nothing else.
pub(crate) proof fn lemma_union(f: Forest, x: int, y: int)
    requires
        f.wf(),
        0 <= x < f.reps.len(),
        0 <= y < f.reps.len(),
    ensures
        f.union(x, y).wf(),
        f.union(x, y).reps.len() == f.reps.len(),
        f.union(x, y).reps[x] == f.union(x, y).reps[y],
        f.union(x, y).reps[x] == f.reps[x] || f.union(x, y).reps[x] == f.reps[y],
        f.ranks[f.reps[y] as int] <= f.ranks[f.reps[x] as int] ==> f.union(x, y).reps[x]
            == f.reps[x],
        forall|a: int|
            0 <= a < f.reps.len() && a != f.reps[x] ==> #[trigger] f.union(x, y).ranks[a]
                == f.ranks[a],
        forall|a: int|
            0 <= a < f.reps.len() ==> #[trigger] f.union(x, y).reps[a] == (if f.reps[a] == f.reps[x]
                || f.reps[a] == f.reps[y] {
                f.union(x, y).reps[x]
            } else {
                f.reps[a]
            }),
{
    let g = f.union(x, y);
    let rx = f.reps[x];
    let ry = f.reps[y];
    assert(f.reps[rx as int] == rx);
    assert(f.reps[ry as int] == ry);
    assert forall|i: int| 0 <= i < g.reps.len() implies 0 <= #[trigger] g.reps[i] < g.reps.len()
        && g.reps[g.reps[i] as int] == g.reps[i] by {
        assert(0 <= f.reps[i] < f.reps.len());
        assert(f.reps[f.reps[i] as int] == f.reps[i]);
    }
}

} // verus!
