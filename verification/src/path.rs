//! The path that a search is walking: tiles with the letters placed on them.

use vstd::prelude::*;
use vstd::set_lib::{set_int_range, lemma_int_range, lemma_len_subset};
use arrayvec::ArrayVec;
use crate::letter::Letter;
use crate::tile::{Tile, TileSet};

verus! {

/// `arrayvec::ArrayVec`, a vector of fixed capacity stored inline. Nothing of
/// its inside is known here: what it holds is told by `steps` alone.
#[verifier::external_type_specification]
#[verifier::external_body]
#[verifier::reject_recursive_types(T)]
pub struct ExArrayVec<T, const CAP: usize>(ArrayVec<T, CAP>);

/// A tile together with the letter placed on it.
pub type Step = (Tile, Letter);

/// A sequence of at most 25 steps.
pub type Path = ArrayVec<(Tile, Letter), 25>;

/// The steps that a path holds, first to last.
pub uninterp spec fn steps(path: ArrayVec<(Tile, Letter), 25>) -> Seq<(Tile, Letter)>;

/// `ArrayVec::new`: a path without steps.
#[verifier::external_body]
pub(crate) fn path_new() -> (path: Path)
    ensures
        steps(path) == Seq::<Step>::empty(),
{
    ArrayVec::new()
}

/// `ArrayVec::push`: appends `step`. The call panics on a full vector, so a
/// caller has to show that fewer than 25 steps are held.
#[verifier::external_body]
pub(crate) fn path_push(path: &mut Path, step: Step)
    requires
        steps(*old(path)).len() < 25,
    ensures
        steps(*final(path)) == steps(*old(path)).push(step),
{
    path.push(step)
}

/// `ArrayVec::pop`: takes the last step off and returns it; on a path without
/// steps it returns `None` and changes nothing.
#[verifier::external_body]
pub(crate) fn path_pop(path: &mut Path) -> (step: Option<Step>)
    ensures
        steps(*old(path)).len() == 0 ==> step is None && steps(*final(path)) == steps(*old(path)),
        steps(*old(path)).len() > 0 ==> step == Some(steps(*old(path)).last())
            && steps(*final(path)) == steps(*old(path)).drop_last(),
{
    path.pop()
}

/// `ArrayVec::as_slice`: the steps held, as a slice.
#[verifier::external_body]
pub(crate) fn path_as_slice(path: &Path) -> (slice: &[Step])
    ensures
        slice@ == steps(*path),
{
    path.as_slice()
}

/// `ArrayVec::clone`: a path that holds the same steps.
#[verifier::external_body]
pub(crate) fn path_clone(path: &Path) -> (copy: Path)
    ensures
        steps(copy) == steps(*path),
{
    path.clone()
}

/// Whether `path` passes over `tile`.
pub open spec fn visits(path: Seq<Step>, tile: Tile) -> bool {
    exists|i: int| 0 <= i < path.len() && (#[trigger] path[i]).0 == tile
}

/// A path is legal when no tile occurs twice on it and each step but the
/// first lands on a neighbour of the tile before it.
pub open spec fn legal_path(path: Seq<Step>) -> bool {
    &&& forall|i: int, j: int|
        0 <= i < j < path.len() ==> (#[trigger] path[i]).0 != (#[trigger] path[j]).0
    &&& forall|i: int|
        0 <= i < path.len() - 1 ==> (#[trigger] path[i]).0.adjacent(path[i + 1].0)
}

/// Whether a legal `path` stays legal with a step onto `tile` appended: the
/// path has not been there, and `tile` is next to its last tile. On the empty
/// path every tile will do.
pub open spec fn can_step(path: Seq<Step>, tile: Tile) -> bool {
    &&& !visits(path, tile)
    &&& path.len() > 0 ==> path.last().0.adjacent(tile)
}

/// A legal path holds at most 25 steps, one for each tile.
pub proof fn lemma_legal_path_len(path: Seq<Step>)
    requires
        legal_path(path),
    ensures
        path.len() <= 25,
{
    let ords = Seq::new(path.len(), |i: int| path[i].0.ord());
    assert forall|i: int, j: int| 0 <= i < ords.len() && 0 <= j < ords.len() && i != j implies ords[i]
        != ords[j] by {
        Tile::lemma_ord_at();
        if i < j {
            assert(path[i].0 != path[j].0);
        } else {
            assert(path[j].0 != path[i].0);
        }
    }
    let range = set_int_range(0, 25);
    assert forall|x: int| ords.to_set().contains(x) implies range.contains(x) by {
        Tile::lemma_ord_at();
    }
    ords.unique_seq_to_set();
    lemma_int_range(0, 25);
    lemma_len_subset(ords.to_set(), range);
}

/// A legal path extended by a step that `can_step` admits is legal.
pub proof fn lemma_legal_push(path: Seq<Step>, step: Step)
    requires
        legal_path(path),
        can_step(path, step.0),
    ensures
        legal_path(path.push(step)),
        path.len() < 25,
{
    let next = path.push(step);
    assert forall|i: int, j: int| 0 <= i < j < next.len() implies (#[trigger] next[i]).0 != (
    #[trigger] next[j]).0 by {
        if j == path.len() {
            assert(path[i].0 != step.0);
        } else {
            assert(path[i].0 != path[j].0);
        }
    }
    assert forall|i: int| 0 <= i < next.len() - 1 implies (#[trigger] next[i]).0.adjacent(
        next[i + 1].0,
    ) by {
        if i == path.len() - 1 {
            assert(path.last().0.adjacent(step.0));
        } else {
            assert(path[i].0.adjacent(path[i + 1].0));
        }
    }
    lemma_legal_path_len(next);
}

/// A legal path without its last step is legal, and no longer passes over
/// the tile of that step.
pub proof fn lemma_legal_pop(path: Seq<Step>)
    requires
        legal_path(path),
        path.len() > 0,
    ensures
        legal_path(path.drop_last()),
        can_step(path.drop_last(), path.last().0),
        forall|t: Tile| visits(path.drop_last(), t) == (visits(path, t) && t != path.last().0),
{
    let rest = path.drop_last();
    assert forall|i: int, j: int| 0 <= i < j < rest.len() implies (#[trigger] rest[i]).0 != (
    #[trigger] rest[j]).0 by {
        assert(path[i].0 != path[j].0);
    }
    assert forall|i: int| 0 <= i < rest.len() - 1 implies (#[trigger] rest[i]).0.adjacent(
        rest[i + 1].0,
    ) by {
        assert(path[i].0.adjacent(path[i + 1].0));
    }
    assert forall|t: Tile| visits(rest, t) == (visits(path, t) && t != path.last().0) by {
        if visits(rest, t) {
            let i = choose|i: int| 0 <= i < rest.len() && (#[trigger] rest[i]).0 == t;
            assert(path[i].0 == t);
            assert(path[i].0 != path[path.len() - 1].0);
        }
        if visits(path, t) && t != path.last().0 {
            let i = choose|i: int| 0 <= i < path.len() && (#[trigger] path[i]).0 == t;
            assert(rest[i].0 == t);
        }
    }
    if rest.len() > 0 {
        assert(path[rest.len() - 1].0.adjacent(path[rest.len() - 1 + 1].0));
    }
}

/// The state of a walk over the grid: the path so far, and the set of the
/// tiles it has passed over.
#[derive(Debug)]
pub struct PathState {
    path: Path,
    occupied: TileSet,
}

impl View for PathState {
    type V = Seq<Step>;

    /// The steps taken so far, first to last.
    closed spec fn view(&self) -> Seq<Step> {
        steps(self.path)
    }
}

impl Default for PathState {
    /// The state before the first step.
    fn default() -> (state: PathState)
        ensures
            state.wf(),
            state@ == Seq::<Step>::empty(),
    {
        PathState::new()
    }
}

impl PathState {
    /// The path is legal, and the set of occupied tiles is the set of the
    /// tiles on the path.
    pub closed spec fn wf(&self) -> bool {
        &&& legal_path(self@)
        &&& forall|t: Tile| self.occupied@.contains(t) == visits(self@, t)
    }

    /// What a well-formed state promises of its path.
    pub proof fn lemma_wf(&self)
        requires
            self.wf(),
        ensures
            legal_path(self@),
            self@.len() <= 25,
    {
        lemma_legal_path_len(self@);
    }

    /// The state before the first step.
    pub fn new() -> (state: PathState)
        ensures
            state.wf(),
            state@ == Seq::<Step>::empty(),
    {
        PathState { path: path_new(), occupied: TileSet::empty() }
    }

    /// The path walked so far.
    pub fn path(&self) -> (path: &Path)
        ensures
            steps(*path) == self@,
    {
        &self.path
    }

    /// Steps onto `tile` and places `letter` there.
    pub fn push(&mut self, tile: Tile, letter: Letter)
        requires
            old(self).wf(),
            can_step(old(self)@, tile),
        ensures
            final(self).wf(),
            final(self)@ == old(self)@.push((tile, letter)),
    {
        proof {
            lemma_legal_push(self@, (tile, letter));
        }
        path_push(&mut self.path, (tile, letter));
        self.occupied.insert(tile);
        proof {
            let before = old(self)@;
            let after = self@;
            assert forall|t: Tile| self.occupied@.contains(t) == visits(after, t) by {
                if visits(before, t) {
                    let i = choose|i: int| 0 <= i < before.len() && (#[trigger] before[i]).0 == t;
                    assert(after[i].0 == t);
                }
                if t == tile {
                    assert(after[before.len() as int].0 == t);
                }
                if visits(after, t) && t != tile {
                    let i = choose|i: int| 0 <= i < after.len() && (#[trigger] after[i]).0 == t;
                    assert(before[i].0 == t);
                }
            }
        }
    }

    /// Takes the last step back. Without a step to take back nothing changes.
    pub fn pop(&mut self)
        requires
            old(self).wf(),
        ensures
            final(self).wf(),
            final(self)@ == (if old(self)@.len() > 0 { old(self)@.drop_last() } else { old(self)@ }),
    {
        if let Some((tile, _)) = path_pop(&mut self.path) {
            self.occupied.remove(tile);
            proof {
                lemma_legal_pop(old(self)@);
                assert(tile == old(self)@.last().0);
                assert(self@ == old(self)@.drop_last());
                assert forall|t: Tile| self.occupied@.contains(t) == visits(self@, t) by {
                    assert(old(self).occupied@.contains(t) == visits(old(self)@, t));
                }
            }
        } else {
            assert(self@ == old(self)@);
            assert forall|t: Tile| self.occupied@.contains(t) == visits(self@, t) by {
                assert(old(self).occupied@.contains(t) == visits(old(self)@, t));
            }
        }
    }

    /// The tiles that the next step may land on: the neighbours of the last
    /// tile that the path has not passed over, or every tile where no step
    /// has been taken yet.
    pub fn neighbours(&self) -> (next: TileSet)
        requires
            self.wf(),
        ensures
            forall|t: Tile| #[trigger] next@.contains(t) == can_step(self@, t),
    {
        let slice = path_as_slice(&self.path);
        match slice.last() {
            Some(step) => {
                let next = step.0.neighbours().difference(self.occupied);
                assert(slice@.last() == *step);
                next
            },
            None => {
                assert(slice@.len() == 0);
                TileSet::all()
            },
        }
    }
}

} // verus!
