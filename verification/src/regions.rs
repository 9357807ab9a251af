//! What the region labelling computes, and why its labels tell regions apart.
//!
//! The lattice is scanned row by row into disjoint sets. Element 0 of the
//! sets stands for the background, element `a + 1` for cell `a`. A
//! foreground cell (state exactly 1) is put in the set of each foreground
//! cell behind it: north and west of it, and north-west and north-east of
//! it when regions are traced eight-connected. Every other cell is put in
//! the set of the background. The label of a cell is the representative of
//! its set: 0 for the background, and for a region one more than the index
//! of one of its cells.

use vstd::prelude::*;
use crate::disjoint_sets::{lemma_fresh_wf, lemma_union, Forest};
use crate::grid::GridView;

verus! {

/// Cell `a` is a cell of the lattice in state 1.
pub open spec fn is_foreground(g: GridView, a: int) -> bool {
    0 <= a < g.cells.len() && g.cells[a] == 1
}

/// Cell `j` lies behind cell `i`: it is the northern or the western
/// neighbour of `i` or, traced eight-connected, the north-western or the
/// north-eastern one.
pub open spec fn behind(g: GridView, i: int, j: int) -> bool {
    ||| j == i - g.width && i >= g.width
    ||| j == i - 1 && i % (g.width as int) != 0
    ||| g.eight() && j == i - g.width - 1 && i >= g.width && i % (g.width as int) != 0
    ||| g.eight() && j == i - g.width + 1 && i >= g.width && i % (g.width as int) != g.width - 1
}

/// Cells `a` and `b` are neighbours: one lies behind the other.
pub open spec fn adjacent(g: GridView, a: int, b: int) -> bool {
    behind(g, a, b) || behind(g, b, a)
}

/// Place `t` of `path` is a neighbour of the next place.
pub open spec fn step_at(g: GridView, path: Seq<int>, t: int) -> bool {
    adjacent(g, path[t], path[t + 1])
}

/// Place `t` of `path` is a foreground cell.
pub open spec fn foreground_at(g: GridView, path: Seq<int>, t: int) -> bool {
    is_foreground(g, path[t])
}

/// A path of foreground cells, each a neighbour of the next.
pub open spec fn is_foreground_path(g: GridView, path: Seq<int>) -> bool {
    &&& path.len() >= 1
    &&& forall|t: int| 0 <= t < path.len() ==> #[trigger] foreground_at(g, path, t)
    &&& forall|t: int| 0 <= t < path.len() - 1 ==> #[trigger] step_at(g, path, t)
}

/// A path of foreground cells leads from `a` to `b`: the two cells belong
/// to one region. Traced four-connected the path takes steps north, east,
/// south and west only; traced eight-connected it may take diagonal steps
/// too.
pub open spec fn connected(g: GridView, a: int, b: int) -> bool {
    exists|path: Seq<int>|
        #[trigger] is_foreground_path(g, path) && path[0] == a && path[path.len() - 1] == b
}

/// The scan, visiting the foreground cell `i`, puts it in the set of the
/// foreground cell `j` behind it.
pub open spec fn ties(g: GridView, i: int, j: int) -> bool {
    is_foreground(g, i) && is_foreground(g, j) && behind(g, i, j)
}

/// One of `a` and `b` is among the first `visited` cells and was tied to
/// the other when the scan visited it.
pub open spec fn linked(g: GridView, visited: int, a: int, b: int) -> bool {
    (a < visited && ties(g, a, b)) || (b < visited && ties(g, b, a))
}

/// Place `t` of `chain` is linked to the next place.
pub open spec fn link_at(g: GridView, visited: int, chain: Seq<int>, t: int) -> bool {
    linked(g, visited, chain[t], chain[t + 1])
}

/// A chain of foreground cells, each linked to the next.
pub open spec fn is_chain(g: GridView, visited: int, chain: Seq<int>) -> bool {
    &&& chain.len() >= 1
    &&& is_foreground(g, chain[0])
    &&& forall|t: int| 0 <= t < chain.len() - 1 ==> #[trigger] link_at(g, visited, chain, t)
}

/// Cells `a` and `b` are joined by a chain of links made while the first
/// `visited` cells were scanned.
pub open spec fn joined(g: GridView, visited: int, a: int, b: int) -> bool {
    exists|chain: Seq<int>|
        #[trigger] is_chain(g, visited, chain) && chain[0] == a && chain[chain.len() - 1] == b
}

/// The representative of the set of cell `a`.
pub open spec fn rep_of(f: Forest, a: int) -> int {
    f.reps[a + 1] as int
}

/// The label of the foreground cell `j` behind the visited cell, if the
/// lattice has such a cell.
pub open spec fn label_behind(f: Forest, g: GridView, j: int, present: bool) -> Seq<usize> {
    if present && g.cells[j] == 1 {
        seq![f.reps[j + 1]]
    } else {
        Seq::empty()
    }
}

/// The labels of the foreground cells behind cell `i`, in the order north,
/// west, north-west, north-east.
pub open spec fn labels_behind(f: Forest, g: GridView, i: int) -> Seq<usize> {
    let w = g.width as int;
    label_behind(f, g, i - w, i >= w) + label_behind(f, g, i - 1, i % w != 0) + label_behind(
        f,
        g,
        i - w - 1,
        g.eight() && i >= w && i % w != 0,
    ) + label_behind(f, g, i - w + 1, g.eight() && i >= w && i % w != w - 1)
}

/// The set of element `x` merged with the set of each label in turn.
pub open spec fn unite_all(f: Forest, x: int, labels: Seq<usize>) -> Forest
    decreases labels.len(),
{
    if labels.len() == 0 {
        f
    } else {
        unite_all(f, x, labels.drop_last()).union(x, labels.last() as int)
    }
}

/// The sets after the scan has visited cell `i`.
pub open spec fn visit(f: Forest, g: GridView, i: int) -> Forest {
    if g.cells[i] == 1 {
        unite_all(f, i + 1, labels_behind(f, g, i))
    } else {
        f.union(0, i + 1)
    }
}

/// The sets after the scan has visited the first `visited` cells.
pub open spec fn scan(g: GridView, visited: nat) -> Forest
    decreases visited,
{
    if visited == 0 {
        Forest::fresh(g.cells.len() + 1)
    } else {
        visit(scan(g, (visited - 1) as nat), g, visited - 1)
    }
}

/// The label of each cell after the whole scan: the representative of its
/// set. The representative of the background itself is left out.
pub open spec fn raw_labels(g: GridView) -> Seq<usize> {
    scan(g, g.cells.len()).reps.remove(0)
}

/// The labels that `get_connected_components` hands out: the
/// representatives of the sets after the scan or, made consecutive, their
/// numbers in the order of first occurrence.
pub open spec fn region_labels(g: GridView, consecutive: bool) -> Seq<usize> {
    if consecutive {
        crate::numbering::renumbered(raw_labels(g))
    } else {
        raw_labels(g)
    }
}

/// Every foreground cell is joined to itself.
pub(crate) proof fn lemma_joined_refl(g: GridView, visited: int, a: int)
    requires
        is_foreground(g, a),
    ensures
        joined(g, visited, a, a),
{
    let chain = seq![a];
    assert(is_chain(g, visited, chain));
    assert(chain[chain.len() - 1] == a);
}

/// Linked cells are joined.
pub(crate) proof fn lemma_joined_link(g: GridView, visited: int, a: int, b: int)
    requires
        linked(g, visited, a, b),
    ensures
        joined(g, visited, a, b),
{
    let chain = seq![a, b];
    assert forall|t: int| 0 <= t < chain.len() - 1 implies #[trigger] link_at(
        g,
        visited,
        chain,
        t,
    ) by {
        assert(chain[0] == a && chain[1] == b);
    }
    assert(is_chain(g, visited, chain));
    assert(chain[chain.len() - 1] == b);
}

/// The cells of a chain are foreground cells.
pub(crate) proof fn lemma_chain_is_foreground(
    g: GridView,
    visited: int,
    chain: Seq<int>,
    t: int,
)
    requires
        is_chain(g, visited, chain),
        0 <= t < chain.len(),
    ensures
        is_foreground(g, chain[t]),
{
    if t > 0 {
        assert(link_at(g, visited, chain, t - 1));
    }
}

/// Joined cells are foreground cells.
pub(crate) proof fn lemma_joined_is_foreground(g: GridView, visited: int, a: int, b: int)
    requires
        joined(g, visited, a, b),
    ensures
        is_foreground(g, a),
        is_foreground(g, b),
{
    let chain = choose|chain: Seq<int>|
        #[trigger] is_chain(g, visited, chain) && chain[0] == a && chain[chain.len() - 1] == b;
    lemma_chain_is_foreground(g, visited, chain, chain.len() - 1);
}

/// Being joined is symmetric.
pub(crate) proof fn lemma_joined_sym(g: GridView, visited: int, a: int, b: int)
    requires
        joined(g, visited, a, b),
    ensures
        joined(g, visited, b, a),
{
    let chain = choose|chain: Seq<int>|
        #[trigger] is_chain(g, visited, chain) && chain[0] == a && chain[chain.len() - 1] == b;
    let n = chain.len() as int;
    let back = Seq::new(chain.len(), |t: int| chain[n - 1 - t]);
    lemma_chain_is_foreground(g, visited, chain, n - 1);
    assert forall|t: int| 0 <= t < back.len() - 1 implies #[trigger] link_at(
        g,
        visited,
        back,
        t,
    ) by {
        assert(link_at(g, visited, chain, n - 2 - t));
        assert(back[t] == chain[n - 1 - t]);
        assert(back[t + 1] == chain[n - 2 - t]);
    }
    assert(back[0] == b);
    assert(is_chain(g, visited, back));
    assert(back[back.len() - 1] == a);
}

/// Being joined is transitive.
pub(crate) proof fn lemma_joined_trans(g: GridView, visited: int, a: int, b: int, c: int)
    requires
        joined(g, visited, a, b),
        joined(g, visited, b, c),
    ensures
        joined(g, visited, a, c),
{
    let p = choose|chain: Seq<int>|
        #[trigger] is_chain(g, visited, chain) && chain[0] == a && chain[chain.len() - 1] == b;
    let q = choose|chain: Seq<int>|
        #[trigger] is_chain(g, visited, chain) && chain[0] == b && chain[chain.len() - 1] == c;
    let m = p.len() as int;
    let chain = Seq::new(
        (m - 1 + q.len()) as nat,
        |t: int|
            if t < m - 1 {
                p[t]
            } else {
                q[t - (m - 1)]
            },
    );
    assert forall|t: int| 0 <= t < chain.len() - 1 implies #[trigger] link_at(
        g,
        visited,
        chain,
        t,
    ) by {
        if t < m - 1 {
            assert(link_at(g, visited, p, t));
            assert(chain[t] == p[t]);
            assert(chain[t + 1] == p[t + 1]);
        } else {
            assert(link_at(g, visited, q, t - (m - 1)));
            assert(chain[t] == q[t - (m - 1)]);
            assert(chain[t + 1] == q[t - (m - 1) + 1]);
        }
    }
    assert(chain[0] == a);
    assert(is_chain(g, visited, chain));
    assert(chain[chain.len() - 1] == c);
}

/// What is joined early stays joined as the scan goes on.
pub(crate) proof fn lemma_joined_mono(g: GridView, earlier: int, later: int, a: int, b: int)
    requires
        joined(g, earlier, a, b),
        earlier <= later,
    ensures
        joined(g, later, a, b),
{
    let chain = choose|chain: Seq<int>|
        #[trigger] is_chain(g, earlier, chain) && chain[0] == a && chain[chain.len() - 1] == b;
    assert forall|t: int| 0 <= t < chain.len() - 1 implies #[trigger] link_at(
        g,
        later,
        chain,
        t,
    ) by {
        assert(link_at(g, earlier, chain, t));
    }
    assert(is_chain(g, later, chain));
}

/// When the whole lattice has been scanned, the chains are the paths of
/// foreground cells.
pub(crate) proof fn lemma_joined_is_connected(g: GridView, a: int, b: int)
    ensures
        joined(g, g.cells.len() as int, a, b) <==> connected(g, a, b),
{
    let n = g.cells.len() as int;
    if joined(g, n, a, b) {
        let chain = choose|chain: Seq<int>|
            #[trigger] is_chain(g, n, chain) && chain[0] == a && chain[chain.len() - 1] == b;
        assert forall|t: int| 0 <= t < chain.len() implies #[trigger] foreground_at(
            g,
            chain,
            t,
        ) by {
            lemma_chain_is_foreground(g, n, chain, t);
        }
        assert forall|t: int| 0 <= t < chain.len() - 1 implies #[trigger] step_at(g, chain, t) by {
            assert(link_at(g, n, chain, t));
        }
        assert(is_foreground_path(g, chain));
    }
    if connected(g, a, b) {
        let path = choose|path: Seq<int>|
            #[trigger] is_foreground_path(g, path) && path[0] == a && path[path.len() - 1] == b;
        assert forall|t: int| 0 <= t < path.len() - 1 implies #[trigger] link_at(g, n, path, t) by {
            assert(step_at(g, path, t));
            assert(foreground_at(g, path, t));
            assert(foreground_at(g, path, t + 1));
        }
        assert(foreground_at(g, path, 0));
        assert(is_chain(g, n, path));
    }
}

/// Linked cells have the same representative.
pub open spec fn respects_links(f: Forest, g: GridView, visited: int) -> bool {
    forall|a: int, b: int| #[trigger] linked(g, visited, a, b) ==> rep_of(f, a) == rep_of(f, b)
}

/// The representative of every foreground cell is a cell that the cell is
/// joined to.
pub open spec fn within_reach(f: Forest, g: GridView, visited: int) -> bool {
    forall|a: int|
        is_foreground(g, a) ==> #[trigger] rep_of(f, a) >= 1 && joined(
            g,
            visited,
            a,
            rep_of(f, a) - 1,
        )
}

/// Cells from `from` on are still alone in their sets and of rank 0, and
/// the representatives of the cells before `from` are cells before `from`
/// or the background.
pub open spec fn rest_untouched(f: Forest, g: GridView, from: int) -> bool {
    &&& forall|a: int|
        from <= a < g.cells.len() ==> #[trigger] rep_of(f, a) == a + 1 && f.ranks[a + 1] == 0
    &&& forall|a: int| 0 <= a < from ==> #[trigger] rep_of(f, a) <= from
}

/// The background represents itself and, among the cells before `upto`,
/// every cell that is not foreground.
pub open spec fn background_kept(f: Forest, g: GridView, upto: int) -> bool {
    &&& f.reps[0] == 0
    &&& forall|a: int| 0 <= a < upto && g.cells[a] != 1 ==> #[trigger] rep_of(f, a) == 0
}

/// What holds of the sets when the first `visited` cells have been scanned.
pub open spec fn scanned(f: Forest, g: GridView, visited: int) -> bool {
    &&& f.wf()
    &&& f.reps.len() == g.cells.len() + 1
    &&& respects_links(f, g, visited)
    &&& within_reach(f, g, visited)
    &&& rest_untouched(f, g, visited)
    &&& background_kept(f, g, visited)
}

/// Where linked cells have the same representative, so do the two ends of
/// a chain.
pub(crate) proof fn lemma_chain_same_label(f: Forest, g: GridView, visited: int, chain: Seq<int>)
    requires
        respects_links(f, g, visited),
        is_chain(g, visited, chain),
    ensures
        rep_of(f, chain[0]) == rep_of(f, chain[chain.len() - 1]),
    decreases chain.len(),
{
    if chain.len() > 1 {
        let shorter = chain.drop_last();
        assert forall|t: int| 0 <= t < shorter.len() - 1 implies #[trigger] link_at(
            g,
            visited,
            shorter,
            t,
        ) by {
            assert(link_at(g, visited, chain, t));
        }
        assert(is_chain(g, visited, shorter));
        lemma_chain_same_label(f, g, visited, shorter);
        assert(link_at(g, visited, chain, chain.len() - 2));
        assert(linked(g, visited, chain[chain.len() - 2], chain[chain.len() - 1]));
    }
}

/// A cell behind a cell of the lattice is an earlier cell of the lattice.
pub(crate) proof fn lemma_behind_is_earlier(g: GridView, i: int, j: int)
    requires
        g.wf(),
        0 <= i < g.cells.len(),
        behind(g, i, j),
    ensures
        0 <= j < i,
{
    let w = g.width as int;
    crate::grid::lemma_index_cell(i, w, g.height as int);
    let row = i / w;
    let column = i % w;
    if i >= w {
        assert(row >= 1) by (nonlinear_arith)
            requires
                i == row * w + column,
                0 <= column < w,
                i >= w,
        ;
        assert(i - w - 1 == (row - 1) * w + (column - 1)) by (nonlinear_arith)
            requires
                i == row * w + column,
        ;
        assert((row - 1) * w >= 0) by (nonlinear_arith)
            requires
                row >= 1,
                w > 0,
        ;
    }
}

/// What holds of the sets while the foreground cell `i` is being visited.
pub open spec fn visiting(f: Forest, g: GridView, i: int) -> bool {
    &&& f.wf()
    &&& f.reps.len() == g.cells.len() + 1
    &&& within_reach(f, g, i + 1)
    &&& rest_untouched(f, g, i + 1)
    &&& background_kept(f, g, i + 1)
}

/// Each label is the element of an earlier cell that cell `i` is joined to.
pub open spec fn labels_fit(g: GridView, i: int, labels: Seq<usize>) -> bool {
    forall|t: int|
        0 <= t < labels.len() ==> 1 <= #[trigger] labels[t] <= i && joined(
            g,
            i + 1,
            i,
            labels[t] - 1,
        )
}

/// Sets that were one set in `f` are one set in `h`.
pub open spec fn coarser(f: Forest, h: Forest) -> bool {
    forall|a: int, b: int|
        0 <= a < f.reps.len() && 0 <= b < f.reps.len() && #[trigger] f.reps[a]
            == #[trigger] f.reps[b] ==> h.reps[a] == h.reps[b]
}

/// Merging the set of the foreground cell `i` with the sets of fitting
/// labels keeps what holds during the visit, splits no set and leaves cell
/// `i` in one set with every label.
pub(crate) proof fn lemma_unite_all(f: Forest, g: GridView, i: int, labels: Seq<usize>)
    requires
        is_foreground(g, i),
        visiting(f, g, i),
        labels_fit(g, i, labels),
    ensures
        visiting(unite_all(f, i + 1, labels), g, i),
        coarser(f, unite_all(f, i + 1, labels)),
        forall|t: int|
            0 <= t < labels.len() ==> unite_all(f, i + 1, labels).reps[i + 1] == unite_all(
                f,
                i + 1,
                labels,
            ).reps[#[trigger] labels[t] as int],
    decreases labels.len(),
{
    if labels.len() > 0 {
        let front = labels.drop_last();
        let l = labels.last() as int;
        assert forall|t: int| 0 <= t < front.len() implies 1 <= #[trigger] front[t] <= i && joined(
            g,
            i + 1,
            i,
            front[t] - 1,
        ) by {
            assert(front[t] == labels[t]);
        }
        lemma_unite_all(f, g, i, front);
        let prev = unite_all(f, i + 1, front);
        let h = prev.union(i + 1, l);
        assert(h == unite_all(f, i + 1, labels));
        assert(labels[labels.len() - 1] == l);
        assert(joined(g, i + 1, i, l - 1));
        lemma_joined_is_foreground(g, i + 1, i, l - 1);
        lemma_union(prev, i + 1, l);
        let pi = rep_of(prev, i);
        let pl = rep_of(prev, l - 1);
        let w = rep_of(h, i);
        assert(w == pi || w == pl);
        assert(pi >= 1 && pl >= 1);
        assert(pi <= i + 1 && pl <= i + 1);
        // every foreground cell stays joined to its representative
        assert(joined(g, i + 1, i, pi - 1));
        assert(joined(g, i + 1, l - 1, pl - 1));
        lemma_joined_sym(g, i + 1, i, pi - 1);
        lemma_joined_sym(g, i + 1, i, l - 1);
        lemma_joined_trans(g, i + 1, pi - 1, i, l - 1);
        lemma_joined_trans(g, i + 1, pi - 1, l - 1, pl - 1);
        lemma_joined_sym(g, i + 1, pi - 1, pl - 1);
        lemma_joined_is_foreground(g, i + 1, pi - 1, pl - 1);
        lemma_joined_refl(g, i + 1, pi - 1);
        lemma_joined_refl(g, i + 1, pl - 1);
        assert(joined(g, i + 1, pi - 1, w - 1));
        assert(joined(g, i + 1, pl - 1, w - 1));
        assert forall|a: int| is_foreground(g, a) implies #[trigger] rep_of(h, a) >= 1 && joined(
            g,
            i + 1,
            a,
            rep_of(h, a) - 1,
        ) by {
            assert(rep_of(prev, a) >= 1 && joined(g, i + 1, a, rep_of(prev, a) - 1));
            if rep_of(prev, a) == pi {
                lemma_joined_trans(g, i + 1, a, pi - 1, w - 1);
            } else if rep_of(prev, a) == pl {
                lemma_joined_trans(g, i + 1, a, pl - 1, w - 1);
            }
        }
        // the cells after `i` stay untouched
        assert forall|a: int| i + 1 <= a < g.cells.len() implies #[trigger] rep_of(h, a) == a + 1
            && h.ranks[a + 1] == 0 by {
            assert(rep_of(prev, a) == a + 1);
        }
        assert forall|a: int| 0 <= a < i + 1 implies #[trigger] rep_of(h, a) <= i + 1 by {
            assert(rep_of(prev, a) <= i + 1);
        }
        // the background keeps what it has
        assert(prev.reps[0] == 0);
        assert(h.reps[0] == 0);
        assert forall|a: int| 0 <= a < i + 1 && g.cells[a] != 1 implies #[trigger] rep_of(h, a)
            == 0 by {
            assert(rep_of(prev, a) == 0);
        }
        // no set is split
        assert forall|a: int, b: int|
            0 <= a < f.reps.len() && 0 <= b < f.reps.len() && #[trigger] f.reps[a]
                == #[trigger] f.reps[b] implies h.reps[a] == h.reps[b] by {
            assert(prev.reps[a] == prev.reps[b]);
        }
        assert forall|t: int| 0 <= t < labels.len() implies h.reps[i + 1]
            == h.reps[#[trigger] labels[t] as int] by {
            if t < labels.len() - 1 {
                assert(front[t] == labels[t]);
                assert(prev.reps[i + 1] == prev.reps[front[t] as int]);
            }
        }
    } else {
        assert(unite_all(f, i + 1, labels) == f);
    }
}

/// `label` is the representative of a cell that cell `i` is tied to.
pub open spec fn label_of_tied(f: Forest, g: GridView, i: int, label: usize) -> bool {
    exists|j: int| #[trigger] ties(g, i, j) && label == rep_of(f, j)
}

/// The labels behind cell `i` are the representatives of the cells it is
/// tied to.
pub(crate) proof fn lemma_labels_behind(f: Forest, g: GridView, i: int)
    requires
        g.wf(),
        is_foreground(g, i),
    ensures
        forall|t: int|
            0 <= t < labels_behind(f, g, i).len() ==> label_of_tied(
                f,
                g,
                i,
                #[trigger] labels_behind(f, g, i)[t],
            ),
        forall|j: int| #[trigger] ties(g, i, j) ==> labels_behind(f, g, i).contains(f.reps[j + 1]),
{
    let w = g.width as int;
    let labels = labels_behind(f, g, i);
    let north = label_behind(f, g, i - w, i >= w);
    let west = label_behind(f, g, i - 1, i % w != 0);
    let north_west = label_behind(f, g, i - w - 1, g.eight() && i >= w && i % w != 0);
    let north_east = label_behind(f, g, i - w + 1, g.eight() && i >= w && i % w != w - 1);
    assert(labels == north + west + north_west + north_east);
    if i >= w {
        assert(behind(g, i, i - w));
        lemma_behind_is_earlier(g, i, i - w);
    }
    if i % w != 0 {
        assert(behind(g, i, i - 1));
        lemma_behind_is_earlier(g, i, i - 1);
    }
    if g.eight() && i >= w && i % w != 0 {
        assert(behind(g, i, i - w - 1));
        lemma_behind_is_earlier(g, i, i - w - 1);
    }
    if g.eight() && i >= w && i % w != w - 1 {
        assert(behind(g, i, i - w + 1));
        lemma_behind_is_earlier(g, i, i - w + 1);
    }
    assert forall|t: int| 0 <= t < labels.len() implies label_of_tied(
        f,
        g,
        i,
        #[trigger] labels[t],
    ) by {
        let a = north.len() as int;
        let b = a + west.len();
        let c = b + north_west.len();
        if t < a {
            assert(labels[t] == north[t]);
            assert(ties(g, i, i - w));
            assert(labels[t] == rep_of(f, i - w));
        } else if t < b {
            assert(labels[t] == west[t - a]);
            assert(ties(g, i, i - 1));
            assert(labels[t] == rep_of(f, i - 1));
        } else if t < c {
            assert(labels[t] == north_west[t - b]);
            assert(ties(g, i, i - w - 1));
            assert(labels[t] == rep_of(f, i - w - 1));
        } else {
            assert(labels[t] == north_east[t - c]);
            assert(ties(g, i, i - w + 1));
            assert(labels[t] == rep_of(f, i - w + 1));
        }
    }
    assert forall|j: int| #[trigger] ties(g, i, j) implies labels.contains(f.reps[j + 1]) by {
        let a = north.len() as int;
        let b = a + west.len();
        let c = b + north_west.len();
        if j == i - w && i >= w {
            assert(labels[0] == north[0]);
        } else if j == i - 1 && i % w != 0 {
            assert(labels[a] == west[0]);
        } else if g.eight() && j == i - w - 1 && i >= w && i % w != 0 {
            assert(labels[b] == north_west[0]);
        } else {
            assert(labels[c] == north_east[0]);
        }
    }
}

/// A visit to a cell that is not foreground keeps what holds of the scan.
proof fn lemma_visit_background(f: Forest, g: GridView, i: int)
    requires
        g.wf(),
        0 <= i < g.cells.len(),
        g.cells[i] != 1,
        scanned(f, g, i),
    ensures
        scanned(f.union(0, i + 1), g, i + 1),
{
    let h = f.union(0, i + 1);
    lemma_union(f, 0, i + 1);
    assert(rep_of(f, i) == i + 1);
    assert(h.reps[0] == 0);
    assert forall|a: int| is_foreground(g, a) implies #[trigger] rep_of(h, a) == rep_of(f, a) by {
        assert(rep_of(f, a) >= 1);
        if a < i {
            assert(rep_of(f, a) <= i);
        } else {
            assert(rep_of(f, a) == a + 1);
        }
    }
    assert forall|a: int| is_foreground(g, a) implies #[trigger] rep_of(h, a) >= 1 && joined(
        g,
        i + 1,
        a,
        rep_of(h, a) - 1,
    ) by {
        assert(rep_of(h, a) == rep_of(f, a));
        assert(rep_of(f, a) >= 1 && joined(g, i, a, rep_of(f, a) - 1));
        lemma_joined_mono(g, i, i + 1, a, rep_of(f, a) - 1);
    }
    assert forall|a: int, b: int| #[trigger] linked(g, i + 1, a, b) implies rep_of(h, a)
        == rep_of(h, b) by {
        assert(linked(g, i, a, b));
        assert(rep_of(f, a) == rep_of(f, b));
        assert(rep_of(h, a) == rep_of(f, a));
        assert(rep_of(h, b) == rep_of(f, b));
    }
    assert forall|a: int| i + 1 <= a < g.cells.len() implies #[trigger] rep_of(h, a) == a + 1
        && h.ranks[a + 1] == 0 by {
        assert(rep_of(f, a) == a + 1);
    }
    assert forall|a: int| 0 <= a < i + 1 implies #[trigger] rep_of(h, a) <= i + 1 by {
        if a < i {
            assert(rep_of(f, a) <= i);
        }
    }
    assert forall|a: int| 0 <= a < i + 1 && g.cells[a] != 1 implies #[trigger] rep_of(h, a)
        == 0 by {
        if a < i {
            assert(rep_of(f, a) == 0);
        }
    }
}

/// A visit to a foreground cell keeps what holds of the scan.
proof fn lemma_visit_foreground(f: Forest, g: GridView, i: int)
    requires
        g.wf(),
        is_foreground(g, i),
        scanned(f, g, i),
    ensures
        scanned(unite_all(f, i + 1, labels_behind(f, g, i)), g, i + 1),
{
    let labels = labels_behind(f, g, i);
    let h = unite_all(f, i + 1, labels);
    lemma_labels_behind(f, g, i);
    assert forall|a: int| is_foreground(g, a) implies #[trigger] rep_of(f, a) >= 1 && joined(
        g,
        i + 1,
        a,
        rep_of(f, a) - 1,
    ) by {
        assert(rep_of(f, a) >= 1 && joined(g, i, a, rep_of(f, a) - 1));
        lemma_joined_mono(g, i, i + 1, a, rep_of(f, a) - 1);
    }
    assert(rep_of(f, i) == i + 1);
    assert forall|a: int| 0 <= a < i + 1 implies #[trigger] rep_of(f, a) <= i + 1 by {
        if a < i {
            assert(rep_of(f, a) <= i);
        }
    }
    assert forall|a: int| 0 <= a < i + 1 && g.cells[a] != 1 implies #[trigger] rep_of(f, a)
        == 0 by {
    }
    assert(visiting(f, g, i));
    assert forall|t: int| 0 <= t < labels.len() implies 1 <= #[trigger] labels[t] <= i && joined(
        g,
        i + 1,
        i,
        labels[t] - 1,
    ) by {
        assert(label_of_tied(f, g, i, labels[t]));
        let j = choose|j: int| #[trigger] ties(g, i, j) && labels[t] == rep_of(f, j);
        lemma_behind_is_earlier(g, i, j);
        assert(rep_of(f, j) <= i);
        assert(rep_of(f, j) >= 1 && joined(g, i + 1, j, rep_of(f, j) - 1));
        assert(linked(g, i + 1, i, j));
        lemma_joined_link(g, i + 1, i, j);
        lemma_joined_trans(g, i + 1, i, j, rep_of(f, j) - 1);
    }
    lemma_unite_all(f, g, i, labels);
    assert forall|a: int, b: int| #[trigger] linked(g, i + 1, a, b) implies rep_of(h, a)
        == rep_of(h, b) by {
        if (a < i && ties(g, a, b)) || (b < i && ties(g, b, a)) {
            assert(linked(g, i, a, b));
            assert(rep_of(f, a) == rep_of(f, b));
            assert(f.reps[a + 1] == f.reps[b + 1]);
        } else {
            let j = if a == i && ties(g, a, b) {
                b
            } else {
                a
            };
            assert(ties(g, i, j));
            assert(labels.contains(f.reps[j + 1]));
            let t = choose|t: int| 0 <= t < labels.len() && labels[t] == f.reps[j + 1];
            let l = labels[t] as int;
            assert(h.reps[i + 1] == h.reps[l]);
            assert(rep_of(f, j) >= 1);
            assert(f.reps[l] == f.reps[j + 1]);
            assert(h.reps[l] == h.reps[j + 1]);
        }
    }
}

/// What holds of the sets after the scan of the first `visited` cells.
pub(crate) proof fn lemma_scan(g: GridView, visited: nat)
    requires
        g.wf(),
        visited <= g.cells.len(),
        g.cells.len() < usize::MAX,
    ensures
        scanned(scan(g, visited), g, visited as int),
    decreases visited,
{
    if visited == 0 {
        let f = scan(g, 0);
        lemma_fresh_wf(g.cells.len() + 1);
        assert forall|a: int| is_foreground(g, a) implies #[trigger] rep_of(f, a) >= 1 && joined(
            g,
            0,
            a,
            rep_of(f, a) - 1,
        ) by {
            lemma_joined_refl(g, 0, a);
        }
    } else {
        let i = visited - 1;
        lemma_scan(g, i as nat);
        let f = scan(g, i as nat);
        if g.cells[i] == 1 {
            lemma_visit_foreground(f, g, i);
        } else {
            lemma_visit_background(f, g, i);
        }
    }
}

/// The label of a cell is the representative of its set after the scan.
pub(crate) proof fn lemma_raw_labels(g: GridView)
    requires
        g.wf(),
        g.cells.len() < usize::MAX,
    ensures
        raw_labels(g).len() == g.cells.len(),
        forall|a: int|
            0 <= a < g.cells.len() ==> #[trigger] raw_labels(g)[a] == rep_of(
                scan(g, g.cells.len()),
                a,
            ),
{
    lemma_scan(g, g.cells.len());
}

/// Merging the set of an element with the sets of elements keeps the sets
/// well formed.
pub(crate) proof fn lemma_unite_all_wf(f: Forest, x: int, labels: Seq<usize>)
    requires
        f.wf(),
        0 <= x < f.reps.len(),
        forall|t: int| 0 <= t < labels.len() ==> #[trigger] labels[t] < f.reps.len(),
    ensures
        unite_all(f, x, labels).wf(),
        unite_all(f, x, labels).reps.len() == f.reps.len(),
    decreases labels.len(),
{
    if labels.len() > 0 {
        let front = labels.drop_last();
        assert forall|t: int| 0 <= t < front.len() implies #[trigger] front[t] < f.reps.len() by {
            assert(front[t] == labels[t]);
        }
        lemma_unite_all_wf(f, x, front);
        assert(labels[labels.len() - 1] < f.reps.len());
        lemma_union(unite_all(f, x, front), x, labels.last() as int);
    }
}

/// Merging with one more label is one more union.
pub(crate) proof fn lemma_unite_all_step(f: Forest, x: int, labels: Seq<usize>, t: int)
    requires
        0 <= t < labels.len(),
    ensures
        unite_all(f, x, labels.take(t + 1)) == unite_all(f, x, labels.take(t)).union(
            x,
            labels[t] as int,
        ),
{
    assert(labels.take(t + 1).drop_last() =~= labels.take(t));
    assert(labels.take(t + 1).last() == labels[t]);
}

} // verus!
