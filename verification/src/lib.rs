//! Shortest paths between the corners of a square binary grid.
//!
//! A [`PathFinder`] takes a flattened, row-major grid of free (`1`) and
//! blocked (`0`) cells together with the side length `n`, runs a
//! breadth-first search from `(0, 0)` to `(n-1, n-1)` once at construction,
//! and afterwards answers two read-only queries: whether a path exists, and
//! the path itself as a flat, interleaved coordinate sequence.

use vstd::prelude::*;

pub mod model;
pub mod search;

use crate::model::{is_shortest_dest_path, path_view, reaches_dest};
use crate::search::bfs;

verus! {

/// The one way construction can fail: the flat cell sequence does not
/// describe a square grid with at least one cell of the stated size.
#[derive(Clone, Copy, Debug, PartialEq, Eq, Structural)]
pub enum PathFinderError {
    InvalidInput,
}

/// Owns the path found by one breadth-first search over one grid snapshot.
///
/// The path is computed eagerly at construction and never changes
/// afterwards, so repeated queries always return the same answers.
pub struct PathFinder {
    path: Vec<(usize, usize)>,
}

impl View for PathFinder {
    type V = Seq<(int, int)>;

    closed spec fn view(&self) -> Seq<(int, int)> {
        path_view(self.path@)
    }
}

impl PathFinder {
    /// Validate the input and run the search at once.
    ///
    /// Rejects exactly the inputs that describe no square grid: a zero size,
    /// or a cell sequence whose length is not the square of the size.  On
    /// every accepted input the stored path is non-empty exactly when the
    /// two corners are connected, and is then a shortest connecting path.
    pub fn new(grid: Vec<u8>, size: usize) -> (result: Result<PathFinder, PathFinderError>)
        ensures
            match result {
                Result::Ok(pf) => {
                    &&& size >= 1
                    &&& grid@.len() == size * size
                    &&& (pf@.len() != 0 <==> reaches_dest(grid@, size as nat))
                    &&& (pf@.len() != 0 ==> is_shortest_dest_path(grid@, size as nat, pf@))
                },
                Result::Err(e) => {
                    &&& e == PathFinderError::InvalidInput
                    &&& (size == 0 || grid@.len() != size * size)
                },
            },
    {
        if size == 0 {
            return Err(PathFinderError::InvalidInput);
        }
        let len = grid.len();
        match size.checked_mul(size) {
            Option::Some(cells) => {
                if len != cells {
                    return Err(PathFinderError::InvalidInput);
                }
            },
            Option::None => {
                // no vector is as long as an overflowing square
                return Err(PathFinderError::InvalidInput);
            },
        }
        let path = bfs(grid, size);
        Ok(PathFinder { path })
    }

    /// Whether the search found a path between the two corners.
    ///
    /// The result depends only on the stored path, so repeated calls agree.
    pub fn has_path(&self) -> (r: bool)
        ensures
            r == (self@.len() != 0),
    {
        self.path.len() != 0
    }

    /// The stored path as `[r0, c0, r1, c1, ...]`, in start-to-destination
    /// order; empty exactly when no path exists.
    ///
    /// The result depends only on the stored path, so repeated calls agree.
    pub fn path(&self) -> (r: Vec<usize>)
        ensures
            r@.len() == 2 * self@.len(),
            forall|i: int|
                0 <= i < self@.len() ==> r@[2 * i] as int == #[trigger] self@[i].0 && r@[2 * i
                    + 1] as int == self@[i].1,
    {
        let mut r: Vec<usize> = Vec::new();
        let mut i: usize = 0;
        while i < self.path.len()
            invariant
                i <= self.path@.len(),
                r@.len() == 2 * i,
                self@ == path_view(self.path@),
                forall|k: int|
                    0 <= k < i ==> r@[2 * k] as int == #[trigger] self@[k].0 && r@[2 * k
                        + 1] as int == self@[k].1,
            decreases self.path@.len() - i,
        {
            let cell = self.path[i];
            r.push(cell.0);
            r.push(cell.1);
            i = i + 1;
        }
        r
    }
}

} // verus!
