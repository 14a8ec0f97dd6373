//! What a resize asks for, cycle by cycle.
//!
//! A cycle observes the size that is asked for, then carves a seam, puts one
//! back, starts over from the pristine image, or leaves the working copy
//! alone. Reading the size and publishing the working copy belong to the
//! caller.

use vstd::prelude::*;
use rand::rngs::ThreadRng;
use crate::carve::place_fault;
use crate::color::CustomColor;
use crate::energy::{energy_field, is_energy_field_of};
use crate::extract::{horizontal_result, is_search_result, lemma_search_result, vertical_result};
use crate::grid::{
    cells_at_columns, cells_at_rows, lemma_turned, transpose, without_columns, without_rows,
};
use crate::matrix::Matrix;
use crate::seam::{CarveError, HorizontalSeam, Seam, VerticalSeam};
use crate::seam_holder::{is_reconciled, SeamHolder};
use crate::search::{has_no_seam, GradientMagnitudePoint};

verus! {

/// A size in cells: the one that is asked for, or the one that a grid has.
#[derive(Clone, Copy, Debug, PartialEq, Eq, Structural)]
pub struct WindowSize {
    pub height: usize,
    pub width: usize,
}

/// What a cycle does to the working copy.
#[derive(Clone, Copy, Debug, PartialEq, Eq, Structural)]
pub enum Plan {
    /// Nothing: the size is reached, or cannot be approached any further.
    Hold,
    /// Carve the cheapest vertical seam.
    CarveVertical,
    /// Carve the cheapest horizontal seam.
    CarveHorizontal,
    /// Carve the cheaper of the cheapest vertical and horizontal seams.
    CarveCheaper,
    /// Put the vertical seam carved last back.
    RestoreVertical,
    /// Put the horizontal seam carved last back.
    RestoreHorizontal,
    /// Start over from the pristine image.
    Reset,
}

/// A seam found on the energy field, of either orientation.
#[derive(Debug)]
pub enum Found {
    Vertical(VerticalSeam),
    Horizontal(HorizontalSeam),
}

/// What a cycle does for a working copy of size `current` when `target` is
/// asked for. `pristine` is the size of the pristine image; `last_vertical`
/// and `last_horizontal` are the lengths of the seams carved last, where
/// there are any.
///
/// Carving comes first, and stops at one column or row. Then a seam is put
/// back into a side that is too short: first one that has one cell for each
/// line the working copy has now, which is the seam carved last of all;
/// else one that has more. Where a side is too short, no seam is left for
/// it, and it has not the extent of the pristine image, the cycle starts
/// over from the pristine image. A side that has that extent and no seam
/// stays as it is.
pub open spec fn planned(
    current: WindowSize,
    target: WindowSize,
    pristine: WindowSize,
    last_vertical: Option<usize>,
    last_horizontal: Option<usize>,
) -> Plan {
    let narrower = target.width < current.width && current.width > 1;
    let lower = target.height < current.height && current.height > 1;
    let wider = target.width > current.width;
    let taller = target.height > current.height;
    if narrower && lower {
        Plan::CarveCheaper
    } else if narrower {
        Plan::CarveVertical
    } else if lower {
        Plan::CarveHorizontal
    } else if wider && last_vertical == Some(current.height) {
        Plan::RestoreVertical
    } else if taller && last_horizontal == Some(current.width) {
        Plan::RestoreHorizontal
    } else if wider && last_vertical is Some {
        Plan::RestoreVertical
    } else if taller && last_horizontal is Some {
        Plan::RestoreHorizontal
    } else if wider && current.width < pristine.width {
        Plan::Reset
    } else if taller && current.height < pristine.height {
        Plan::Reset
    } else {
        Plan::Hold
    }
}

/// The size to go by after an attempt to read the size that is asked for:
/// what was read, or the size known before where nothing could be read.
pub fn observe(known: WindowSize, seen: Option<WindowSize>) -> (target: WindowSize)
    ensures
        target == match seen {
            Some(size) => size,
            None => known,
        },
{
    match seen {
        Some(size) => size,
        None => known,
    }
}

/// What a cycle does; see [`planned`].
pub fn plan(
    current: WindowSize,
    target: WindowSize,
    pristine: WindowSize,
    last_vertical: Option<usize>,
    last_horizontal: Option<usize>,
) -> (chosen: Plan)
    ensures
        chosen == planned(current, target, pristine, last_vertical, last_horizontal),
{
    let narrower = target.width < current.width && current.width > 1;
    let lower = target.height < current.height && current.height > 1;
    let wider = target.width > current.width;
    let taller = target.height > current.height;
    let vertical_fits = match last_vertical {
        Some(length) => length == current.height,
        None => false,
    };
    let horizontal_fits = match last_horizontal {
        Some(length) => length == current.width,
        None => false,
    };
    if narrower && lower {
        Plan::CarveCheaper
    } else if narrower {
        Plan::CarveVertical
    } else if lower {
        Plan::CarveHorizontal
    } else if wider && vertical_fits {
        Plan::RestoreVertical
    } else if taller && horizontal_fits {
        Plan::RestoreHorizontal
    } else if wider && last_vertical.is_some() {
        Plan::RestoreVertical
    } else if taller && last_horizontal.is_some() {
        Plan::RestoreHorizontal
    } else if wider && current.width < pristine.width {
        Plan::Reset
    } else if taller && current.height < pristine.height {
        Plan::Reset
    } else {
        Plan::Hold
    }
}

/// Which of the two seams found is carved: the vertical one if it is
/// strictly cheaper than the horizontal one, else the horizontal one; the one
/// that was found where the other was not.
pub open spec fn cheaper_of(
    vertical: Result<(VerticalSeam, u128), CarveError>,
    horizontal: Result<(HorizontalSeam, u128), CarveError>,
) -> Result<Found, CarveError> {
    match (vertical, horizontal) {
        (Ok(v), Ok(h)) => if v.1 < h.1 {
            Ok(Found::Vertical(v.0))
        } else {
            Ok(Found::Horizontal(h.0))
        },
        (Ok(v), Err(_)) => Ok(Found::Vertical(v.0)),
        (Err(_), Ok(h)) => Ok(Found::Horizontal(h.0)),
        (Err(err), Err(_)) => Err(err),
    }
}

/// Picks the seam to carve from what the two searches gave; see
/// [`cheaper_of`].
pub fn cheaper_seam(
    vertical: Result<(VerticalSeam, u128), CarveError>,
    horizontal: Result<(HorizontalSeam, u128), CarveError>,
) -> (picked: Result<Found, CarveError>)
    ensures
        picked == cheaper_of(vertical, horizontal),
{
    match vertical {
        Ok((v, v_energy)) => match horizontal {
            Ok((h, h_energy)) => if v_energy < h_energy {
                Ok(Found::Vertical(v))
            } else {
                Ok(Found::Horizontal(h))
            },
            Err(_) => Ok(Found::Vertical(v)),
        },
        Err(err) => match horizontal {
            Ok((h, _)) => Ok(Found::Horizontal(h)),
            Err(_) => Err(err),
        },
    }
}

/// A cycle holds still only where neither side can be brought nearer to
/// the size that is asked for: a side that is too long has one cell left,
/// and a side that is too short has no seam to put back and the extent of
/// the pristine image.
pub proof fn lemma_hold(
    current: WindowSize,
    target: WindowSize,
    pristine: WindowSize,
    last_vertical: Option<usize>,
    last_horizontal: Option<usize>,
)
    ensures
        planned(current, target, pristine, last_vertical, last_horizontal) == Plan::Hold <==> {
            &&& target.width < current.width ==> current.width == 1
            &&& target.height < current.height ==> current.height == 1
            &&& target.width > current.width ==> last_vertical is None && current.width
                >= pristine.width
            &&& target.height > current.height ==> last_horizontal is None && current.height
                >= pristine.height
        },
{
}

/// A cycle never carves a side down to nothing and carves only a side that
/// is too long. It puts a seam back only into a side that is too short, and
/// one that has not one cell for each line of the working copy only where
/// no seam that has is asked for. It starts over only where a side is too
/// short.
pub proof fn lemma_plan_is_sound(
    current: WindowSize,
    target: WindowSize,
    pristine: WindowSize,
    last_vertical: Option<usize>,
    last_horizontal: Option<usize>,
)
    ensures
        match planned(current, target, pristine, last_vertical, last_horizontal) {
            Plan::CarveVertical => target.width < current.width && current.width > 1,
            Plan::CarveHorizontal => target.height < current.height && current.height > 1,
            Plan::CarveCheaper => target.width < current.width && current.width > 1
                && target.height < current.height && current.height > 1,
            Plan::RestoreVertical => {
                &&& target.width > current.width
                &&& last_vertical is Some
                &&& last_vertical != Some(current.height) ==> !(target.height > current.height
                    && last_horizontal == Some(current.width))
            },
            Plan::RestoreHorizontal => {
                &&& target.height > current.height
                &&& last_horizontal is Some
                &&& last_horizontal != Some(current.width) ==> !(target.width > current.width
                    && last_vertical is Some)
            },
            Plan::Reset => target.width > current.width || target.height > current.height,
            Plan::Hold => true,
        },
{
}

/// The state of the carving worker: the pristine image, the working copy
/// that is carved and grown, the seams that were carved from it, and the
/// size that was last asked for.
pub struct CarvePipeline<T> {
    pub pristine: Matrix<T>,
    pub working: Matrix<T>,
    pub seams: SeamHolder,
    pub target: WindowSize,
}

/// The length of the seam at the end of `log`, if there is one.
pub open spec fn last_length(log: Seq<Seam>) -> Option<usize> {
    if log.len() == 0 {
        None
    } else {
        Some(log.last().indices@.len() as usize)
    }
}

/// The length of the seam at the end of `log`, if there is one.
fn length_of_last(log: &Vec<Seam>) -> (length: Option<usize>)
    ensures
        length == last_length(log@),
{
    if log.len() == 0 {
        None
    } else {
        Some(log[log.len() - 1].indices.len())
    }
}

/// The first `at` identifiers of `path`, and those beyond.
fn split_path(path: &Vec<usize>, at: usize) -> (parts: (Vec<usize>, Vec<usize>))
    requires
        at <= path@.len(),
    ensures
        parts.0@ == path@.take(at as int),
        parts.1@ == path@.skip(at as int),
{
    let mut first: Vec<usize> = Vec::with_capacity(at);
    let mut rest: Vec<usize> = Vec::with_capacity(path.len() - at);
    let mut k: usize = 0;
    while k < at
        invariant
            k <= at <= path@.len(),
            first@ == path@.take(k as int),
        decreases at - k,
    {
        first.push(path[k]);
        k += 1;
        assert(first@ =~= path@.take(k as int));
    }
    while k < path.len()
        invariant
            at <= k <= path@.len(),
            first@ == path@.take(at as int),
            rest@ == path@.subrange(at as int, k as int),
        decreases path@.len() - k,
    {
        rest.push(path[k]);
        k += 1;
        assert(rest@ =~= path@.subrange(at as int, k as int));
    }
    assert(rest@ =~= path@.skip(at as int));
    (first, rest)
}

impl<T: Copy> Matrix<T> {
    /// The size of the grid.
    pub fn size(&self) -> (size: WindowSize)
        requires
            self.width > 0,
        ensures
            size.width == self.width,
            size.height == self.height(),
    {
        WindowSize { height: self.height(), width: self.width }
    }
}

impl<T: Copy> CarvePipeline<T> {
    /// The pristine image and the working copy are well-formed grids.
    pub open spec fn wf(&self) -> bool {
        self.pristine.wf() && self.working.wf()
    }

    /// The size of the working copy.
    pub open spec fn current(&self) -> WindowSize {
        WindowSize { height: self.working.height(), width: self.working.width }
    }

    /// What the next cycle does if it goes by the size `target`.
    pub open spec fn next_plan(&self, target: WindowSize) -> Plan {
        planned(
            self.current(),
            target,
            WindowSize { height: self.pristine.height(), width: self.pristine.width },
            last_length(self.seams.vertical_seams@),
            last_length(self.seams.horizontal_seams@),
        )
    }

    /// Whether the working copy and the seams of the two states are the same.
    pub open spec fn same_work(&self, other: &Self) -> bool {
        &&& self.working == other.working
        &&& self.seams.vertical_seams@ == other.seams.vertical_seams@
        &&& self.seams.horizontal_seams@ == other.seams.horizontal_seams@
    }

    /// Why `found` cannot be carved from the working copy; `None` where it
    /// can.
    pub open spec fn carve_fault(&self, found: &Found) -> Option<CarveError> {
        match found {
            Found::Vertical(seam) => place_fault(
                seam.columns@,
                self.working.height() as int,
                self.working.width as int,
            ),
            Found::Horizontal(seam) => place_fault(
                seam.rows@,
                self.working.width as int,
                self.working.height() as int,
            ),
        }
    }

    /// Whether `after` is this state with `found` carved from the working
    /// copy and pushed, named by the identifiers of its cells, on the log of
    /// its orientation.
    pub open spec fn is_carve(&self, found: &Found, after: &Self) -> bool {
        let w = self.working.width as int;
        match found {
            Found::Vertical(seam) => {
                &&& after.working.width == w - 1
                &&& after.working.vector@ == without_columns(self.working.vector@, w, seam.columns@)
                &&& after.working.original_indices@ == without_columns(
                    self.working.original_indices@,
                    w,
                    seam.columns@,
                )
                &&& after.seams.vertical_seams@.len() == self.seams.vertical_seams@.len() + 1
                &&& after.seams.vertical_seams@.drop_last() == self.seams.vertical_seams@
                &&& after.seams.vertical_seams@.last().is_vertical
                &&& after.seams.vertical_seams@.last().indices@ == cells_at_columns(
                    self.working.original_indices@,
                    w,
                    seam.columns@,
                )
                &&& after.seams.horizontal_seams@ == self.seams.horizontal_seams@
            },
            Found::Horizontal(seam) => {
                &&& after.working.width == w
                &&& after.working.vector@ == without_rows(self.working.vector@, w, seam.rows@)
                &&& after.working.original_indices@ == without_rows(
                    self.working.original_indices@,
                    w,
                    seam.rows@,
                )
                &&& after.seams.horizontal_seams@.len() == self.seams.horizontal_seams@.len() + 1
                &&& after.seams.horizontal_seams@.drop_last() == self.seams.horizontal_seams@
                &&& !after.seams.horizontal_seams@.last().is_vertical
                &&& after.seams.horizontal_seams@.last().indices@ == cells_at_rows(
                    self.working.original_indices@,
                    w,
                    seam.rows@,
                )
                &&& after.seams.vertical_seams@ == self.seams.vertical_seams@
            },
        }
    }

    /// The log of the vertical seams, or of the horizontal ones.
    pub open spec fn log(&self, vertical: bool) -> Seq<Seam> {
        if vertical {
            self.seams.vertical_seams@
        } else {
            self.seams.horizontal_seams@
        }
    }

    /// The number of lines of the working copy that a seam of the given
    /// orientation crosses.
    pub open spec fn lines(&self, vertical: bool) -> int {
        if vertical {
            self.working.height() as int
        } else {
            self.working.width as int
        }
    }

    /// Why the seam carved last in the given orientation cannot be put back;
    /// `None` where it can, and where there is no such seam. The seam must
    /// have a cell for each line of the working copy. It may have more, if
    /// the other log has a seam for each of them to go to.
    pub open spec fn restore_fault(&self, vertical: bool) -> Option<CarveError> {
        let log = self.log(vertical);
        let lines = self.lines(vertical);
        if log.len() == 0 {
            None
        } else if log.last().indices@.len() < lines || log.last().indices@.len() - lines
            > self.log(!vertical).len() {
            Some(CarveError::SeamLengthMismatch)
        } else {
            self.working.insert_fault(log.last().indices@.take(lines), lines, &self.pristine)
        }
    }

    /// Whether `after` is this state with the seam carved last in the given
    /// orientation put back from the pristine image and taken off its log.
    /// Of its cells, the first go back, one into each line of the working
    /// copy; those beyond are spliced into the seams carved last in the
    /// other orientation, which were carved after it and will need them when
    /// they go back.
    pub open spec fn is_restore(&self, vertical: bool, after: &Self) -> bool {
        let log = self.log(vertical);
        let lines = self.lines(vertical);
        let path = log.last().indices@;
        &&& log.len() > 0
        &&& if vertical {
            self.working.is_restored_in_rows(path.take(lines), &self.pristine, &after.working)
        } else {
            self.working.is_restored_in_columns(path.take(lines), &self.pristine, &after.working)
        }
        &&& after.log(vertical) == log.drop_last()
        &&& is_reconciled(self.log(!vertical), path.skip(lines), after.log(!vertical))
    }

    /// Whether `after` has a copy of the pristine image as its working copy and no
    /// seams.
    pub open spec fn is_reset(&self, after: &Self) -> bool {
        &&& after.working.same_as(&self.pristine)
        &&& after.seams.vertical_seams@.len() == 0
        &&& after.seams.horizontal_seams@.len() == 0
    }

    /// Whether `after` may come of this state by a cycle that does `chosen`
    /// on the energy field `energy`. A cycle that carves goes by what the
    /// search gives, which is one of the cheapest seams of the field.
    pub open spec fn is_cycle(
        &self,
        chosen: Plan,
        energy: &Matrix<GradientMagnitudePoint>,
        after: &Self,
    ) -> bool {
        let e = energy.vector@;
        let w = energy.width as int;
        let h = energy.height() as int;
        match chosen {
            Plan::Hold => after.same_work(self),
            Plan::Reset => self.is_reset(after),
            Plan::RestoreVertical => self.is_restore(true, after),
            Plan::RestoreHorizontal => self.is_restore(false, after),
            Plan::CarveVertical => exists|vertical: Result<(VerticalSeam, u128), CarveError>|
                is_search_result(e, w, false, #[trigger] vertical_result(vertical))
                    && vertical is Ok && self.is_carve(&Found::Vertical(vertical->Ok_0.0), after),
            Plan::CarveHorizontal => exists|horizontal: Result<(HorizontalSeam, u128), CarveError>|
                is_search_result(
                    transpose(e, w),
                    h,
                    false,
                    #[trigger] horizontal_result(horizontal),
                )
                    && horizontal is Ok && self.is_carve(
                    &Found::Horizontal(horizontal->Ok_0.0),
                    after,
                ),
            Plan::CarveCheaper => exists|
                vertical: Result<(VerticalSeam, u128), CarveError>,
                horizontal: Result<(HorizontalSeam, u128), CarveError>,
            |
                is_search_result(e, w, false, vertical_result(vertical)) && is_search_result(
                    transpose(e, w),
                    h,
                    false,
                    horizontal_result(horizontal),
                ) && (#[trigger] cheaper_of(vertical, horizontal)) is Ok && self.is_carve(
                    &cheaper_of(vertical, horizontal)->Ok_0,
                    after,
                ),
        }
    }

    /// Why a cycle that goes by the size `target`, with the energy field
    /// `energy`, fails; `None` where it does what it planned. A cycle that
    /// carves fails where the field has not the shape of the working copy or
    /// no seam can pass through it; one that puts a seam back fails where
    /// that seam cannot be put back (see [`CarvePipeline::restore_fault`]).
    pub open spec fn cycle_fault(
        &self,
        target: WindowSize,
        energy: &Matrix<GradientMagnitudePoint>,
    ) -> Option<CarveError> {
        let e = energy.vector@;
        let w = energy.width as int;
        let h = energy.height() as int;
        let fits = energy.width == self.working.width && energy.height()
            == self.working.height();
        match self.next_plan(target) {
            Plan::Hold => None,
            Plan::Reset => None,
            Plan::RestoreVertical => self.restore_fault(true),
            Plan::RestoreHorizontal => self.restore_fault(false),
            Plan::CarveVertical => if !fits {
                Some(CarveError::SeamLengthMismatch)
            } else if has_no_seam(e, w, false) {
                Some(CarveError::EmptySearchSpace)
            } else {
                None
            },
            Plan::CarveHorizontal => if !fits {
                Some(CarveError::SeamLengthMismatch)
            } else if has_no_seam(transpose(e, w), h, false) {
                Some(CarveError::EmptySearchSpace)
            } else {
                None
            },
            Plan::CarveCheaper => if !fits {
                Some(CarveError::SeamLengthMismatch)
            } else if has_no_seam(e, w, false) && has_no_seam(transpose(e, w), h, false) {
                Some(CarveError::EmptySearchSpace)
            } else {
                None
            },
        }
    }

    /// A pipeline for `image`: the working copy is a copy of it, no seam has
    /// been carved, and its own size is the one asked for.
    pub fn new(image: Matrix<T>) -> (pipeline: Self)
        requires
            image.wf(),
        ensures
            pipeline.wf(),
            pipeline.pristine == image,
            pipeline.working.same_as(&image),
            pipeline.seams.vertical_seams@.len() == 0,
            pipeline.seams.horizontal_seams@.len() == 0,
            pipeline.target == pipeline.current(),
    {
        let working = image.duplicate();
        let target = image.size();
        CarvePipeline { pristine: image, working, seams: SeamHolder::new(), target }
    }

    /// What the next cycle does if it goes by the size known now.
    pub fn plan(&self) -> (chosen: Plan)
        requires
            self.wf(),
        ensures
            chosen == self.next_plan(self.target),
    {
        plan(
            self.working.size(),
            self.target,
            self.pristine.size(),
            length_of_last(&self.seams.vertical_seams),
            length_of_last(&self.seams.horizontal_seams),
        )
    }

    /// Carves `found` from the working copy and pushes it, named by the
    /// identifiers of its cells, on the log of its orientation. On an error
    /// nothing changes.
    pub fn carve(&mut self, found: &Found) -> (done: Result<(), CarveError>)
        requires
            old(self).wf(),
        ensures
            final(self).wf(),
            final(self).pristine == old(self).pristine,
            final(self).target == old(self).target,
            match done {
                Ok(()) => old(self).carve_fault(found) is None && old(self).is_carve(
                    found,
                    final(self),
                ),
                Err(err) => old(self).carve_fault(found) == Some(err) && final(self).same_work(
                    old(self),
                ),
            },
    {
        match found {
            Found::Vertical(seam) => {
                if self.working.width <= 1 {
                    return Err(CarveError::DimensionExhausted);
                }
                let named = match self.working.seam_of_columns(seam) {
                    Ok(named) => named,
                    Err(err) => {
                        return Err(err);
                    },
                };
                let ghost log = self.seams.vertical_seams@;
                let done = self.working.carve_vertical_seam(seam);
                match done {
                    Ok(()) => {
                        self.seams.vertical_seams.push(named);
                        proof {
                            assert(self.seams.vertical_seams@.drop_last() =~= log);
                        }
                        Ok(())
                    },
                    Err(err) => Err(err),
                }
            },
            Found::Horizontal(seam) => {
                if self.working.height() <= 1 {
                    return Err(CarveError::DimensionExhausted);
                }
                let named = match self.working.seam_of_rows(seam) {
                    Ok(named) => named,
                    Err(err) => {
                        return Err(err);
                    },
                };
                let ghost log = self.seams.horizontal_seams@;
                let done = self.working.carve_horizontal_seam(seam);
                match done {
                    Ok(()) => {
                        self.seams.horizontal_seams.push(named);
                        proof {
                            assert(self.seams.horizontal_seams@.drop_last() =~= log);
                        }
                        Ok(())
                    },
                    Err(err) => Err(err),
                }
            },
        }
    }

    /// Puts the seam carved last in the given orientation back from the
    /// pristine image and takes it off its log; see
    /// [`CarvePipeline::is_restore`]. Returns whether there was such a seam.
    /// On an error nothing changes.
    pub fn restore(&mut self, vertical: bool) -> (done: Result<bool, CarveError>)
        requires
            old(self).wf(),
            old(self).working.width < usize::MAX,
            old(self).working.vector@.len() + old(self).working.height() <= usize::MAX,
            old(self).working.vector@.len() + old(self).working.width <= usize::MAX,
        ensures
            final(self).wf(),
            final(self).pristine == old(self).pristine,
            final(self).target == old(self).target,
            match done {
                Ok(true) => {
                    &&& old(self).log(vertical).len() > 0
                    &&& old(self).restore_fault(vertical) is None
                    &&& old(self).is_restore(vertical, final(self))
                },
                Ok(false) => {
                    &&& old(self).log(vertical).len() == 0
                    &&& final(self).same_work(old(self))
                },
                Err(err) => {
                    &&& old(self).restore_fault(vertical) == Some(err)
                    &&& final(self).same_work(old(self))
                },
            },
    {
        let lines: usize = if vertical {
            self.working.height()
        } else {
            self.working.width
        };
        let others: usize = if vertical {
            self.seams.horizontal_seams.len()
        } else {
            self.seams.vertical_seams.len()
        };
        let (returning, beyond) = if vertical {
            let n: usize = self.seams.vertical_seams.len();
            if n == 0 {
                return Ok(false);
            }
            let path = &self.seams.vertical_seams[n - 1].indices;
            if path.len() < lines || path.len() - lines > others {
                return Err(CarveError::SeamLengthMismatch);
            }
            split_path(path, lines)
        } else {
            let n: usize = self.seams.horizontal_seams.len();
            if n == 0 {
                return Ok(false);
            }
            let path = &self.seams.horizontal_seams[n - 1].indices;
            if path.len() < lines || path.len() - lines > others {
                return Err(CarveError::SeamLengthMismatch);
            }
            split_path(path, lines)
        };
        let seam = Seam { indices: returning, is_vertical: vertical };
        match self.working.insert_seam(&seam, &self.pristine) {
            Ok(()) => {
                if vertical {
                    self.seams.vertical_seams.pop();
                } else {
                    self.seams.horizontal_seams.pop();
                }
                self.seams.insert_overflowing_indices(beyond, !vertical);
                Ok(true)
            },
            Err(err) => Err(err),
        }
    }

    /// Starts over: the working copy becomes a copy of the pristine image, and
    /// the seams are forgotten.
    pub fn reset(&mut self)
        requires
            old(self).wf(),
        ensures
            final(self).wf(),
            final(self).pristine == old(self).pristine,
            final(self).target == old(self).target,
            old(self).is_reset(final(self)),
    {
        self.working = self.pristine.duplicate();
        self.seams = SeamHolder::new();
    }

    /// One cycle of the worker. It goes by `seen`, the size read in this
    /// cycle, or by the size known before where nothing could be read;
    /// decides what to do (see [`planned`]); and does it. `energy` is the
    /// energy field of the working copy. A cycle that carves searches it for
    /// the cheapest seam, with `rng` to choose among equally cheap ones, and
    /// never looks for inserted cells to avoid. On an error the working copy
    /// and the seams stay as they were.
    pub fn cycle(
        &mut self,
        seen: Option<WindowSize>,
        energy: &Matrix<GradientMagnitudePoint>,
        rng: &mut ThreadRng,
    ) -> (done: Result<Plan, CarveError>)
        requires
            old(self).wf(),
            energy.wf(),
            old(self).working.width < usize::MAX,
            old(self).working.vector@.len() + old(self).working.height() <= usize::MAX,
            old(self).working.vector@.len() + old(self).working.width <= usize::MAX,
        ensures
            final(self).wf(),
            final(self).pristine == old(self).pristine,
            final(self).target == match seen {
                Some(size) => size,
                None => old(self).target,
            },
            match done {
                Ok(chosen) => {
                    &&& old(self).cycle_fault(final(self).target, energy) is None
                    &&& chosen == old(self).next_plan(final(self).target)
                    &&& old(self).is_cycle(chosen, energy, final(self))
                },
                Err(err) => {
                    &&& old(self).cycle_fault(final(self).target, energy) == Some(err)
                    &&& final(self).same_work(old(self))
                },
            },
    {
        self.target = observe(self.target, seen);
        let chosen = self.plan();
        let ghost e = energy.vector@;
        let ghost w = energy.width as int;
        let ghost h = energy.height() as int;
        proof {
            self.working.lemma_shape();
            energy.lemma_shape();
        }
        match chosen {
            Plan::Hold => Ok(chosen),
            Plan::Reset => {
                self.reset();
                Ok(chosen)
            },
            Plan::RestoreVertical => match self.restore(true) {
                Ok(true) => Ok(chosen),
                Ok(false) => Err(CarveError::SeamLengthMismatch),
                Err(err) => Err(err),
            },
            Plan::RestoreHorizontal => match self.restore(false) {
                Ok(true) => Ok(chosen),
                Ok(false) => Err(CarveError::SeamLengthMismatch),
                Err(err) => Err(err),
            },
            Plan::CarveVertical => {
                if !self.fits(energy) {
                    return Err(CarveError::SeamLengthMismatch);
                }
                let vertical = energy.extract_vertical_seam(rng, false);
                let ghost searched = vertical;
                proof {
                    lemma_search_result(e, w, false, vertical_result(searched));
                }
                match vertical {
                    Ok((seam, _)) => {
                        let done = self.carve(&Found::Vertical(seam));
                        match done {
                            Ok(()) => Ok(chosen),
                            Err(err) => Err(err),
                        }
                    },
                    Err(err) => Err(err),
                }
            },
            Plan::CarveHorizontal => {
                if !self.fits(energy) {
                    return Err(CarveError::SeamLengthMismatch);
                }
                let horizontal = energy.extract_horizontal_seam(rng, false);
                let ghost searched = horizontal;
                proof {
                    lemma_turned(e, w);
                    lemma_search_result(transpose(e, w), h, false, horizontal_result(searched));
                }
                match horizontal {
                    Ok((seam, _)) => {
                        let done = self.carve(&Found::Horizontal(seam));
                        match done {
                            Ok(()) => Ok(chosen),
                            Err(err) => Err(err),
                        }
                    },
                    Err(err) => Err(err),
                }
            },
            Plan::CarveCheaper => {
                if !self.fits(energy) {
                    return Err(CarveError::SeamLengthMismatch);
                }
                let vertical = energy.extract_vertical_seam(rng, false);
                let horizontal = energy.extract_horizontal_seam(rng, false);
                let ghost searched_vertical = vertical;
                let ghost searched_horizontal = horizontal;
                proof {
                    lemma_turned(e, w);
                    lemma_search_result(e, w, false, vertical_result(searched_vertical));
                    lemma_search_result(
                        transpose(e, w),
                        h,
                        false,
                        horizontal_result(searched_horizontal),
                    );
                }
                match cheaper_seam(vertical, horizontal) {
                    Ok(found) => {
                        let done = self.carve(&found);
                        match done {
                            Ok(()) => Ok(chosen),
                            Err(err) => Err(err),
                        }
                    },
                    Err(err) => Err(err),
                }
            },
        }
    }

    /// Whether `energy` has the width and the height of the working copy.
    pub fn fits(&self, energy: &Matrix<GradientMagnitudePoint>) -> (yes: bool)
        requires
            self.wf(),
            energy.wf(),
        ensures
            yes == (energy.width == self.working.width && energy.height()
                == self.working.height()),
    {
        proof {
            self.working.lemma_shape();
            energy.lemma_shape();
        }
        energy.width == self.working.width && energy.vector.len() == self.working.vector.len()
    }
}

impl CarvePipeline<CustomColor> {
    /// One cycle of the worker on an image: a [`cycle`](CarvePipeline::cycle)
    /// on the energy field of the working copy.
    pub fn step(&mut self, seen: Option<WindowSize>, rng: &mut ThreadRng) -> (done: Result<
        Plan,
        CarveError,
    >)
        requires
            old(self).wf(),
            old(self).working.width < usize::MAX,
            old(self).working.vector@.len() + old(self).working.height() <= usize::MAX,
            old(self).working.vector@.len() + old(self).working.width <= usize::MAX,
        ensures
            final(self).wf(),
            final(self).pristine == old(self).pristine,
            final(self).target == match seen {
                Some(size) => size,
                None => old(self).target,
            },
            exists|energy: Matrix<GradientMagnitudePoint>| #[trigger]
                is_energy_field_of(&old(self).working, &energy) && match done {
                    Ok(chosen) => {
                        &&& old(self).cycle_fault(final(self).target, &energy) is None
                        &&& chosen == old(self).next_plan(final(self).target)
                        &&& old(self).is_cycle(chosen, &energy, final(self))
                    },
                    Err(err) => {
                        &&& old(self).cycle_fault(final(self).target, &energy) == Some(err)
                        &&& final(self).same_work(old(self))
                    },
                },
    {
        let energy = energy_field(&self.working);
        self.cycle(seen, &energy, rng)
    }
}

} // verus!
