//! Grid-map model for MovingAI-style pathfinding benchmarks.
//!
//! A [`MovingAiMap`] stores an immutable row-major grid of single-character
//! tile labels together with a movement topology (octile or 4-connected).
//! The [`Map2D`] trait answers traversability queries over such a grid:
//! whether a tile can ever be occupied, whether a directed single step
//! between adjacent tiles is legal under the terrain rules (including the
//! diagonal corner-cutting rule), and the full legal neighbor set of a tile.

use vstd::prelude::*;

pub mod parser;

verus! {

use vstd::arithmetic::div_mod::lemma_fundamental_div_mod;
use vstd::arithmetic::div_mod::lemma_fundamental_div_mod_converse;
use vstd::arithmetic::div_mod::lemma_mod_bound;
use vstd::arithmetic::div_mod::lemma_multiply_divide_lt;

/// Coordinates in `(x, y)` form: `x` indexes columns, `y` indexes rows.
pub type Coords2D = (usize, usize);

/// Failures that the map constructor and the map parser can report.
#[derive(Debug, Clone, Copy, PartialEq, Eq, Structural)]
pub enum MapError {
    /// The supplied cell sequence does not have length `width * height`.
    DimensionMismatch,
    /// A numeric header field could not be parsed as a `usize`.
    InvalidNumber,
}

/// Whether an agent could ever stand on a tile with this label,
/// under some approach direction.
pub open spec fn spec_enterable(label: char) -> bool {
    label == '.' || label == 'G' || label == 'S' || label == 'W'
}

/// The terrain rule table, keyed by the destination and source labels.
/// Open ground (`.`, `G`) is enterable from anywhere; swamp (`S`) only
/// from open ground or swamp; water (`W`) only from water; everything
/// else blocks.
pub open spec fn spec_terrain_allows(to_label: char, from_label: char) -> bool {
    match to_label {
        '.' => true,
        'G' => true,
        'S' => from_label == '.' || from_label == 'S',
        'W' => from_label == 'W',
        _ => false,
    }
}

/// A step between these coordinates changes both axes.
pub open spec fn spec_diagonal(a: Coords2D, b: Coords2D) -> bool {
    a.0 != b.0 && a.1 != b.1
}

/// `c` is one of the eight geometric neighbor candidates of `tile`.
pub open spec fn spec_neighbor_candidate(tile: Coords2D, c: Coords2D) -> bool {
    &&& -1 <= c.0 as int - tile.0 as int <= 1
    &&& -1 <= c.1 as int - tile.1 as int <= 1
    &&& c != tile
}

/// All coordinates of a `width` by `height` grid in row-major order
/// (`y` outer, `x` inner).
pub open spec fn spec_row_major(width: int, height: int) -> Seq<Coords2D> {
    Seq::new((width * height) as nat, |i: int| ((i % width) as usize, (i / width) as usize))
}

/// A restartable cursor over all coordinates of a grid in row-major
/// order, as produced by [`Map2D::coords`].
pub struct CoordsIter {
    width: usize,
    height: usize,
    curr_x: usize,
    curr_y: usize,
}

impl CoordsIter {
    /// The number of columns of the grid being enumerated.
    pub closed spec fn spec_width(&self) -> int {
        self.width as int
    }

    /// The number of rows of the grid being enumerated.
    pub closed spec fn spec_height(&self) -> int {
        self.height as int
    }

    /// The column of the next coordinate to yield.
    pub closed spec fn spec_x(&self) -> int {
        self.curr_x as int
    }

    /// The row of the next coordinate to yield.
    pub closed spec fn spec_y(&self) -> int {
        self.curr_y as int
    }

    /// How many coordinates have been yielded so far.
    pub open spec fn spec_pos(&self) -> int {
        self.spec_y() * self.spec_width() + self.spec_x()
    }

    /// The cursor's representation invariant.
    pub open spec fn wf(&self) -> bool {
        &&& self.spec_width() > 0 ==> self.spec_x() < self.spec_width()
        &&& self.spec_width() == 0 ==> self.spec_x() == 0 && self.spec_y() == self.spec_height()
        &&& self.spec_y() <= self.spec_height()
    }

    /// The enumeration is exhausted.
    pub open spec fn spec_done(&self) -> bool {
        self.spec_y() >= self.spec_height()
    }

    /// A well-formed cursor is exhausted exactly when its position has
    /// reached the grid's size.
    pub proof fn lemma_pos_bounds(&self)
        requires
            self.wf(),
        ensures
            0 <= self.spec_pos(),
            self.spec_done() <==> self.spec_pos() >= self.spec_width() * self.spec_height(),
    {
        let x = self.spec_x();
        let y = self.spec_y();
        let w = self.spec_width();
        let h = self.spec_height();
        if w == 0 {
            assert(y * w == 0 && h * w == 0) by (nonlinear_arith)
                requires
                    w == 0,
            ;
        } else {
            assert(0 <= y * w + x) by (nonlinear_arith)
                requires
                    0 <= x && 0 <= y && 0 <= w,
            ;
            if y >= h {
                assert(y * w + x >= w * h) by (nonlinear_arith)
                    requires
                        y >= h && w > 0 && x >= 0 && h >= 0,
                ;
            } else {
                assert(y * w + x < w * h) by (nonlinear_arith)
                    requires
                        0 <= y < h && 0 <= x < w,
                ;
            }
        }
    }

    /// Yield the next coordinate in row-major order, or `None` once all
    /// `width * height` coordinates have been produced.
    pub fn next(&mut self) -> (r: Option<Coords2D>)
        requires
            old(self).wf(),
        ensures
            final(self).wf(),
            final(self).spec_width() == old(self).spec_width(),
            final(self).spec_height() == old(self).spec_height(),
            old(self).spec_done() ==> r is None && *final(self) == *old(self),
            !old(self).spec_done() ==> {
                &&& final(self).spec_pos() == old(self).spec_pos() + 1
                &&& 0 <= old(self).spec_pos() < old(self).spec_width() * old(self).spec_height()
                &&& r == Some(
                    spec_row_major(old(self).spec_width(), old(self).spec_height())[old(
                        self,
                    ).spec_pos()],
                )
                &&& (r matches Some(c) && c.0 < old(self).spec_width() && c.1 < old(
                    self,
                ).spec_height())
            },
    {
        if self.curr_y >= self.height {
            return None;
        }
        let x = self.curr_x;
        let y = self.curr_y;
        self.curr_x += 1;
        if self.curr_x >= self.width {
            self.curr_x = 0;
            self.curr_y += 1;
        }
        proof {
            let w = old(self).spec_width();
            let h = old(self).spec_height();
            let pos = old(self).spec_pos();
            old(self).lemma_pos_bounds();
            assert(final(self).spec_pos() == pos + 1) by (nonlinear_arith)
                requires
                    final(self).spec_pos() == final(self).spec_y() * w + final(self).spec_x(),
                    pos == (y as int) * w + (x as int),
                    (final(self).spec_x() == x + 1 && final(self).spec_y() == y as int && x + 1
                        < w) || (x + 1 >= w && final(self).spec_x() == 0 && final(self).spec_y()
                        == y + 1 && x as int == w - 1),
            ;
            lemma_fundamental_div_mod_converse(pos, w, y as int, x as int);
        }
        Some((x, y))
    }
}

/// Operations common to 2D map representations.
pub trait Map2D<T> {
    /// The representation invariant that all query methods rely on.
    spec fn inv(&self) -> bool;

    /// The number of columns.
    spec fn spec_width(&self) -> int;

    /// The number of rows.
    spec fn spec_height(&self) -> int;

    /// The label stored at the given coordinates.
    spec fn spec_cell(&self, coords: Coords2D) -> T;

    /// Whether the coordinates lie outside the grid.
    spec fn spec_out_of_bound(&self, coords: Coords2D) -> bool;

    /// Whether the tile could ever be occupied.
    spec fn spec_traversable(&self, tile: Coords2D) -> bool;

    /// Every map has a height.
    fn height(&self) -> (r: usize)
        ensures
            r == self.spec_height(),
    ;

    /// Every map has a width.
    fn width(&self) -> (r: usize)
        ensures
            r == self.spec_width(),
    ;

    /// Bounds-checked access to a tile's label.
    fn get(&self, coords: Coords2D) -> (r: &T)
        requires
            self.inv(),
            !self.spec_out_of_bound(coords),
        ensures
            *r == self.spec_cell(coords),
    ;

    /// Check if the given coordinates are out of bound.
    fn is_out_of_bound(&self, coords: Coords2D) -> (r: bool)
        ensures
            r == self.spec_out_of_bound(coords),
    ;

    /// Check if a tile in the map can be traversed by an agent in some
    /// situation: false for out-of-bounds tiles, obstacles and
    /// unrecognized labels.
    fn is_traversable(&self, tile: Coords2D) -> (r: bool)
        requires
            self.inv(),
        ensures
            r == self.spec_traversable(tile),
    ;

    /// Whether a single directed step from `from` into `to` is legal.
    spec fn spec_traversable_from(&self, from: Coords2D, to: Coords2D) -> bool;

    /// Check if a tile in the map can be traversed coming from the `from`
    /// tile: the step must stay in bounds, respect the grid's adjacency,
    /// obey the terrain rule table, and a diagonal step must additionally
    /// not cut a blocked corner.
    fn is_traversable_from(&self, from: Coords2D, to: Coords2D) -> (r: bool)
        requires
            self.inv(),
        ensures
            r == self.spec_traversable_from(from, to),
    ;

    /// Return a cursor yielding all the coordinates in the map in
    /// row-major order.
    fn coords(&self) -> (r: CoordsIter)
        ensures
            r.wf(),
            r.spec_width() == self.spec_width(),
            r.spec_height() == self.spec_height(),
            r.spec_pos() == 0,
    ;

    /// How many tiles of the whole map are traversable.
    spec fn spec_free_states(&self) -> int;

    /// Return the number of free states of a map: the count of the
    /// coordinates, in row-major enumeration order, whose tile is
    /// traversable.
    fn free_states(&self) -> (r: usize)
        requires
            self.inv(),
        ensures
            r == self.spec_free_states(),
    ;

    /// Return the list of accessible neighbors of a tile: exactly those
    /// of the eight geometric neighbor candidates that can be stepped
    /// into directly from `tile`, without duplicates.
    fn neighbors(&self, tile: Coords2D) -> (r: Vec<Coords2D>)
        requires
            self.inv(),
        ensures
            r@.no_duplicates(),
            forall|c: Coords2D|
                #[trigger] r@.contains(c) <==> (spec_neighbor_candidate(tile, c)
                    && self.spec_traversable_from(tile, c)),
    ;
}

/// An immutable representation of a MovingAI map.
#[derive(Debug)]
pub struct MovingAiMap {
    map_type: Vec<char>,
    height: usize,
    width: usize,
    map: Vec<char>,
}

impl MovingAiMap {
    /// The characters of the topology tag the map was built with.
    pub closed spec fn spec_map_type(&self) -> Seq<char> {
        self.map_type@
    }

    /// The row-major cell labels.
    pub closed spec fn spec_cells(&self) -> Seq<char> {
        self.map@
    }

    /// The map uses 8-directional movement.
    pub open spec fn spec_is_octile(&self) -> bool {
        self.spec_map_type() == "octile"@
    }

    /// Geometric adjacency between two coordinates under the map's
    /// topology; under octile this includes the case `a == b`.
    pub open spec fn spec_connect(&self, a: Coords2D, b: Coords2D) -> bool {
        if self.spec_is_octile() {
            -1 <= a.0 as int - b.0 as int <= 1 && -1 <= a.1 as int - b.1 as int <= 1
        } else {
            (a.1 == b.1 && (a.0 == b.0 + 1 || b.0 == a.0 + 1)) || (a.0 == b.0 && (a.1 == b.1 + 1
                || b.1 == a.1 + 1))
        }
    }

    /// All coordinates of the map in row-major order.
    pub open spec fn spec_coordinates(&self) -> Seq<Coords2D> {
        spec_row_major(self.spec_width(), self.spec_height())
    }

    /// The traversable coordinates among the first `n` of the row-major
    /// enumeration.
    pub open spec fn spec_free_prefix(&self, n: int) -> Seq<Coords2D> {
        self.spec_coordinates().take(n).filter(|c: Coords2D| self.spec_traversable(c))
    }

    /// A single step from `from` into `to` that is legal on terrain
    /// grounds alone: both tiles in bounds, adjacent under the topology,
    /// and allowed by the terrain rule table. The corner-cutting rule is
    /// not considered here.
    pub open spec fn spec_step_allowed(&self, from: Coords2D, to: Coords2D) -> bool {
        &&& !self.spec_out_of_bound(to)
        &&& !self.spec_out_of_bound(from)
        &&& self.spec_connect(to, from)
        &&& spec_terrain_allows(self.spec_cell(to), self.spec_cell(from))
    }

    fn is_octile_type(&self) -> (r: bool)
        ensures
            r == self.spec_is_octile(),
    {
        crate::parser::chars_eq_str(&self.map_type, "octile")
    }

    fn coordinates_connect(&self, coords_a: Coords2D, coords_b: Coords2D) -> (r: bool)
        ensures
            r == self.spec_connect(coords_a, coords_b),
    {
        let (x1, y1) = coords_a;
        let (x2, y2) = coords_b;
        if self.is_octile_type() {
            let dx_ok = if x1 >= x2 {
                x1 - x2 <= 1
            } else {
                x2 - x1 <= 1
            };
            let dy_ok = if y1 >= y2 {
                y1 - y2 <= 1
            } else {
                y2 - y1 <= 1
            };
            dx_ok && dy_ok
        } else {
            (y1 == y2 && ((x1 > x2 && x1 - x2 == 1) || (x2 > x1 && x2 - x1 == 1))) || (x1 == x2 && (
            (y1 > y2 && y1 - y2 == 1) || (y2 > y1 && y2 - y1 == 1)))
        }
    }

    pub(crate) fn make(map_type: Vec<char>, height: usize, width: usize, map: Vec<char>) -> (r: Result<
        MovingAiMap,
        MapError,
    >)
        ensures
            match r {
                Ok(m) => {
                    &&& map@.len() == width * height
                    &&& m.inv()
                    &&& m.spec_width() == width
                    &&& m.spec_height() == height
                    &&& m.spec_cells() == map@
                    &&& m.spec_map_type() == map_type@
                },
                Err(e) => {
                    &&& e == MapError::DimensionMismatch
                    &&& map@.len() != width * height
                },
            },
    {
        let len = map.len();
        match width.checked_mul(height) {
            Some(n) => {
                if len == n {
                    Ok(MovingAiMap { map_type, height, width, map })
                } else {
                    Err(MapError::DimensionMismatch)
                }
            },
            None => Err(MapError::DimensionMismatch),
        }
    }

    /// Create a new `MovingAiMap` object from basic components.
    ///
    /// # Arguments
    ///  * `map_type`: the movement topology; `octile` means 8-directional,
    ///    anything else means 4-directional.
    ///  * `height`: the height of the map.
    ///  * `width`: the width of the map.
    ///  * `map`: a vector representing the map in row-major order.
    ///
    /// Fails with [`MapError::DimensionMismatch`] if and only if the size
    /// of the map vector differs from `width * height`.
    pub fn new(map_type: String, height: usize, width: usize, map: Vec<char>) -> (r: Result<
        MovingAiMap,
        MapError,
    >)
        ensures
            match r {
                Ok(m) => {
                    &&& map@.len() == width * height
                    &&& m.inv()
                    &&& m.spec_width() == width
                    &&& m.spec_height() == height
                    &&& m.spec_cells() == map@
                    &&& m.spec_map_type() == map_type@
                },
                Err(e) => {
                    &&& e == MapError::DimensionMismatch
                    &&& map@.len() != width * height
                },
            },
    {
        let mt = crate::parser::chars_of(map_type.as_str());
        Self::make(mt, height, width, map)
    }
}

impl Map2D<char> for MovingAiMap {
    open spec fn inv(&self) -> bool {
        self.spec_cells().len() == self.spec_width() * self.spec_height()
    }

    closed spec fn spec_width(&self) -> int {
        self.width as int
    }

    closed spec fn spec_height(&self) -> int {
        self.height as int
    }

    open spec fn spec_cell(&self, coords: Coords2D) -> char {
        self.spec_cells()[coords.1 as int * self.spec_width() + coords.0 as int]
    }

    open spec fn spec_out_of_bound(&self, coords: Coords2D) -> bool {
        coords.0 as int >= self.spec_width() || coords.1 as int >= self.spec_height()
    }

    open spec fn spec_traversable(&self, tile: Coords2D) -> bool {
        !self.spec_out_of_bound(tile) && spec_enterable(self.spec_cell(tile))
    }

    fn height(&self) -> usize {
        self.height
    }

    fn width(&self) -> usize {
        self.width
    }

    fn get(&self, coords: Coords2D) -> &char {
        let len = self.map.len();
        proof {
            lemma_row_major_index_in_range(
                coords.0 as int,
                coords.1 as int,
                self.spec_width(),
                self.spec_height(),
            );
        }
        &self.map[coords.1 * self.width + coords.0]
    }

    fn is_out_of_bound(&self, coords: Coords2D) -> bool {
        coords.0 >= self.width || coords.1 >= self.height
    }

    fn is_traversable(&self, tile: Coords2D) -> bool {
        if self.is_out_of_bound(tile) {
            return false;
        }
        let tile_char = *self.get(tile);
        match tile_char {
            '.' | 'G' | 'S' | 'W' => true,
            '@' | 'O' | 'T' => false,
            _ => false,
        }
    }

    open spec fn spec_traversable_from(&self, from: Coords2D, to: Coords2D) -> bool {
        &&& !self.spec_out_of_bound(to)
        &&& !self.spec_out_of_bound(from)
        &&& self.spec_connect(to, from)
        &&& spec_terrain_allows(self.spec_cell(to), self.spec_cell(from))
        &&& (self.spec_is_octile() && spec_diagonal(from, to)) ==> {
            &&& self.spec_step_allowed(from, (from.0, to.1))
            &&& self.spec_step_allowed((from.0, to.1), to)
            &&& self.spec_step_allowed(from, (to.0, from.1))
            &&& self.spec_step_allowed((to.0, from.1), to)
        }
    }

    fn is_traversable_from(&self, from: Coords2D, to: Coords2D) -> (r: bool)
        decreases (if spec_diagonal(from, to) {
            1int
        } else {
            0int
        }),
    {
        if self.is_out_of_bound(to) {
            return false;
        }
        if self.is_out_of_bound(from) {
            return false;
        }
        if !self.coordinates_connect(to, from) {
            return false;
        }
        let diagonal = from.0 != to.0 && from.1 != to.1;
        let octile = self.is_octile_type();
        let tile_char = *self.get(to);
        let from_char = *self.get(from);
        let terrain_ok = match (tile_char, from_char) {
            ('.', _) => true,
            ('G', _) => true,
            ('@', _) => false,
            ('O', _) => false,
            ('T', _) => false,
            ('S', '.') => true,
            ('S', 'S') => true,
            ('W', 'W') => true,
            _ => false,
        };
        if !octile || !diagonal {
            terrain_ok
        } else {
            // A diagonal step must not cut a corner: both L-shaped
            // orthogonal detours must themselves be fully legal.
            let (x, y) = from;
            let (p, q) = to;
            let intermediate_a = (x, q);
            let intermediate_b = (p, y);
            terrain_ok && self.is_traversable_from(from, intermediate_a)
                && self.is_traversable_from(intermediate_a, to) && self.is_traversable_from(
                from,
                intermediate_b,
            ) && self.is_traversable_from(intermediate_b, to)
        }
    }

    fn coords(&self) -> (r: CoordsIter) {
        let r = CoordsIter {
            width: self.width,
            height: self.height,
            curr_x: 0,
            curr_y: if self.width == 0 {
                self.height
            } else {
                0
            },
        };
        proof {
            assert(r.spec_y() * r.spec_width() == 0) by (nonlinear_arith)
                requires
                    r.spec_width() == 0 || r.spec_y() == 0,
            ;
        }
        r
    }

    open spec fn spec_free_states(&self) -> int {
        self.spec_free_prefix(self.spec_width() * self.spec_height()).len() as int
    }

    fn free_states(&self) -> (r: usize) {
        let cell_count = self.map.len();
        let mut count: usize = 0;
        let mut iter = self.coords();
        let ghost total = self.spec_width() * self.spec_height();
        proof {
            assert(self.spec_free_prefix(0).len() == 0) by {
                assert(self.spec_coordinates().take(0) =~= Seq::<Coords2D>::empty());
                reveal(Seq::filter);
            }
        }
        loop
            invariant
                self.inv(),
                iter.wf(),
                iter.spec_width() == self.spec_width(),
                iter.spec_height() == self.spec_height(),
                total == self.spec_width() * self.spec_height(),
                total == cell_count,
                0 <= iter.spec_pos() <= total,
                count <= iter.spec_pos(),
                count == self.spec_free_prefix(iter.spec_pos()).len(),
            decreases total - iter.spec_pos(),
        {
            let ghost pos = iter.spec_pos();
            let next = iter.next();
            match next {
                Some(c) => {
                    proof {
                        assert(self.spec_coordinates().take(pos + 1) =~= self.spec_coordinates()
                            .take(pos).push(self.spec_coordinates()[pos]));
                        self.spec_coordinates().take(pos).lemma_filter_len_push(
                            |t: Coords2D| self.spec_traversable(t),
                            c,
                        );
                    }
                    if self.is_traversable(c) {
                        count += 1;
                    }
                },
                None => {
                    proof {
                        iter.lemma_pos_bounds();
                    }
                    return count;
                },
            }
        }
    }

    fn neighbors(&self, tile: Coords2D) -> (r: Vec<Coords2D>) {
        broadcast use vstd::seq_lib::group_seq_properties;

        let mut out: Vec<Coords2D> = Vec::new();
        if self.is_out_of_bound(tile) {
            return out;
        }
        let (x, y) = tile;
        let cands: Vec<Coords2D> = if x > 0 && y > 0 {
            vec![
                (x + 1, y),
                (x + 1, y + 1),
                (x + 1, y - 1),
                (x, y + 1),
                (x, y - 1),
                (x - 1, y),
                (x - 1, y - 1),
                (x - 1, y + 1),
            ]
        } else if x > 0 {
            vec![(x + 1, y), (x + 1, y + 1), (x, y + 1), (x - 1, y), (x - 1, y + 1)]
        } else if y > 0 {
            vec![(x + 1, y), (x + 1, y + 1), (x + 1, y - 1), (x, y + 1), (x, y - 1)]
        } else {
            vec![(x + 1, y), (x + 1, y + 1), (x, y + 1)]
        };
        proof {
            assert(cands@.no_duplicates());
            assert forall|c: Coords2D| cands@.contains(c) <==> spec_neighbor_candidate(
                tile,
                c,
            ) by {
                if spec_neighbor_candidate(tile, c) {
                    assert(c.0 as int == x - 1 || c.0 as int == x as int || c.0 as int == x + 1);
                    assert(c.1 as int == y - 1 || c.1 as int == y as int || c.1 as int == y + 1);
                }
            }
        }
        let mut i: usize = 0;
        while i < cands.len()
            invariant
                self.inv(),
                i <= cands@.len(),
                cands@.no_duplicates(),
                out@.no_duplicates(),
                forall|c: Coords2D|
                    #[trigger] out@.contains(c) <==> (cands@.take(i as int).contains(c)
                        && self.spec_traversable_from(tile, c)),
            decreases cands@.len() - i,
        {
            let cand = cands[i];
            proof {
                assert(cands@.take(i + 1) =~= cands@.take(i as int).push(cand));
                if cands@.take(i as int).contains(cand) {
                    let k = choose|k: int|
                        0 <= k < i && cands@.take(i as int)[k] == cand;
                    assert(cands@[k] == cands@[i as int]);
                    assert(false);
                }
            }
            let ghost out0 = out@;
            let step_ok = self.is_traversable_from(tile, cand);
            if step_ok {
                out.push(cand);
                proof {
                    assert(!out0.contains(cand));
                    assert forall|p: int, q: int|
                        0 <= p < q < out@.len() implies out@[p] != out@[q] by {
                        if q < out0.len() {
                            assert(out@[p] == out0[p] && out@[q] == out0[q]);
                        } else {
                            assert(out@[q] == cand && out@[p] == out0[p]);
                            assert(out0.contains(out0[p]));
                        }
                    }
                }
            }
            proof {
                let t = cands@.take(i as int);
                assert forall|c: Coords2D|
                    #[trigger] out@.contains(c) <==> (cands@.take(i + 1).contains(c)
                        && self.spec_traversable_from(tile, c)) by {
                    vstd::seq_lib::lemma_seq_contains_after_push(t, cand, c);
                    assert(t.push(cand).contains(c) <==> (t.contains(c) || c == cand));
                    if step_ok {
                        vstd::seq_lib::lemma_seq_contains_after_push(out0, cand, c);
                        assert(out@ == out0.push(cand));
                        assert(out@.contains(c) <==> (out0.contains(c) || c == cand));
                    } else {
                        assert(out@ == out0);
                    }
                }
            }
            i += 1;
        }
        proof {
            assert(cands@.take(cands@.len() as int) =~= cands@);
        }
        out
    }
}

/// Round-trip bounds: every coordinate of the row-major enumeration lies
/// inside the grid, and its row-major index addresses a stored label.
pub proof fn lemma_coordinates_in_bounds(m: &MovingAiMap, i: int)
    requires
        m.inv(),
        0 <= i < m.spec_coordinates().len(),
    ensures
        !m.spec_out_of_bound(m.spec_coordinates()[i]),
        0 <= (m.spec_coordinates()[i].1 as int * m.spec_width() + m.spec_coordinates()[i].0 as int)
            < m.spec_cells().len(),
{
    let w = m.spec_width();
    let h = m.spec_height();
    if w <= 0 || h <= 0 {
        assert(w * h <= 0) by (nonlinear_arith)
            requires
                (w <= 0 && h >= 0) || (h <= 0 && w >= 0),
        ;
    }
    lemma_mod_bound(i, w);
    lemma_multiply_divide_lt(i, w, h);
    lemma_fundamental_div_mod(i, w);
    assert(w * (i / w) == (i / w) * w) by (nonlinear_arith);
}

/// Boundary safety: a legal directed step never starts or ends out of
/// bounds, so every member of a neighbor set is a valid coordinate.
pub proof fn lemma_step_stays_in_bounds(m: &MovingAiMap, from: Coords2D, to: Coords2D)
    requires
        m.spec_traversable_from(from, to),
    ensures
        !m.spec_out_of_bound(from),
        !m.spec_out_of_bound(to),
{
}

/// Water can be entered only from water: a step into a water tile from
/// any other terrain, open ground included, is illegal.
pub proof fn lemma_water_only_from_water(m: &MovingAiMap, from: Coords2D, to: Coords2D)
    requires
        m.spec_cell(to) == 'W',
        m.spec_cell(from) != 'W',
    ensures
        !m.spec_traversable_from(from, to),
{
}

/// Swamp can be entered only from open ground (`.`) or swamp.
pub proof fn lemma_swamp_entry_sources(m: &MovingAiMap, from: Coords2D, to: Coords2D)
    requires
        m.spec_cell(to) == 'S',
        m.spec_cell(from) != '.',
        m.spec_cell(from) != 'S',
    ensures
        !m.spec_traversable_from(from, to),
{
}

/// Water and swamp never directly interconnect, in either direction.
pub proof fn lemma_water_swamp_never_interconnect(m: &MovingAiMap, a: Coords2D, b: Coords2D)
    requires
        m.spec_cell(a) == 'W',
        m.spec_cell(b) == 'S',
    ensures
        !m.spec_traversable_from(a, b),
        !m.spec_traversable_from(b, a),
{
}

/// Open ground may always step into adjacent swamp on a non-diagonal
/// step; diagonal steps are additionally subject to the corner-cutting
/// rule.
pub proof fn lemma_ground_enters_swamp(m: &MovingAiMap, from: Coords2D, to: Coords2D)
    requires
        m.inv(),
        !m.spec_out_of_bound(from),
        !m.spec_out_of_bound(to),
        m.spec_connect(to, from),
        !spec_diagonal(from, to),
        m.spec_cell(from) == '.',
        m.spec_cell(to) == 'S',
    ensures
        m.spec_traversable_from(from, to),
{
}

/// The free-state count equals the number of coordinates of the
/// row-major enumeration whose tile is traversable.
pub proof fn lemma_free_states_counts_coordinates(m: &MovingAiMap)
    ensures
        m.spec_free_states() == m.spec_coordinates().filter(
            |c: Coords2D| m.spec_traversable(c),
        ).len(),
{
    assert(m.spec_coordinates().take(m.spec_width() * m.spec_height()) =~= m.spec_coordinates());
}

/// A coordinate `(x, y)` with `x < w` and `y < h` addresses a cell of a
/// `w` by `h` row-major grid.
pub proof fn lemma_row_major_index_in_range(x: int, y: int, w: int, h: int)
    requires
        0 <= x < w,
        0 <= y < h,
    ensures
        0 <= y * w + x < w * h,
{
    assert(0 <= y * w + x < w * h) by (nonlinear_arith)
        requires
            0 <= x < w,
            0 <= y < h,
    ;
}

} // verus!

