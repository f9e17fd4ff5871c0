//! Positions in a row-major raster, and the sparse map from positions to
//! colours that holds what changed in one frame.

use crate::quantize::QuantizedColor;
use std::collections::HashMap;
use vstd::prelude::*;

verus! {

/// The position `(x, y)` of the pixel with linear index `index` in a
/// row-major raster that is `width` pixels wide.
pub open spec fn position_of(index: int, width: int) -> (int, int) {
    (index % width, index / width)
}

/// The linear index of the pixel at `position` in a row-major raster that is
/// `width` pixels wide.
pub open spec fn index_of(position: (int, int), width: int) -> int {
    position.1 * width + position.0
}

/// Whether `position` names one of the first `cells` pixels of a row-major
/// raster that is `width` pixels wide.
pub open spec fn in_raster(position: (int, int), width: int, cells: int) -> bool {
    &&& 0 <= position.0 < width
    &&& 0 <= position.1
    &&& index_of(position, width) < cells
}

/// Whether `position` lies in a grid of `width` by `height` pixels.
pub open spec fn in_grid(position: (int, int), width: int, height: int) -> bool {
    &&& 0 <= position.0 < width
    &&& 0 <= position.1 < height
}

/// The positions of a raster of `width * height` pixels are those of the
/// grid of `width` by `height` pixels.
pub proof fn lemma_raster_is_grid(position: (int, int), width: int, height: int)
    requires
        0 <= width,
        0 <= height,
    ensures
        in_raster(position, width, width * height) <==> in_grid(position, width, height),
{
    let (x, y) = position;
    if 0 <= x < width && 0 <= y {
        if y < height {
            assert(y * width + width <= width * height) by (nonlinear_arith)
                requires
                    y + 1 <= height,
                    0 < width,
            ;
        } else {
            assert(width * height <= y * width) by (nonlinear_arith)
                requires
                    height <= y,
                    0 < width,
            ;
        }
    }
}

/// A linear index and its position determine each other.
pub proof fn lemma_position_round_trip(index: int, width: int)
    requires
        0 <= index,
        0 < width,
    ensures
        0 <= position_of(index, width).0 < width,
        0 <= position_of(index, width).1,
        index_of(position_of(index, width), width) == index,
{
    vstd::arithmetic::div_mod::lemma_fundamental_div_mod(index, width);
    vstd::arithmetic::div_mod::lemma_mod_bound(index, width);
    vstd::arithmetic::div_mod::lemma_div_pos_is_pos(index, width);
    assert(width * (index / width) == (index / width) * width) by (nonlinear_arith);
}

/// A position inside a raster and its linear index determine each other.
pub proof fn lemma_index_round_trip(position: (int, int), width: int)
    requires
        0 <= position.0 < width,
        0 <= position.1,
    ensures
        0 <= index_of(position, width),
        position_of(index_of(position, width), width) == position,
{
    assert(0 <= position.1 * width) by (nonlinear_arith)
        requires
            0 <= position.1,
            0 < width,
    ;
    assert(position.1 * width == width * position.1) by (nonlinear_arith);
    vstd::arithmetic::div_mod::lemma_fundamental_div_mod_converse(
        index_of(position, width),
        width,
        position.1,
        position.0,
    );
}

/// The position of a linear index: `x = index % width`, `y = index / width`.
pub fn index_to_position(index: usize, width: usize) -> (position: (usize, usize))
    requires
        width > 0,
    ensures
        (position.0 as int, position.1 as int) == position_of(index as int, width as int),
{
    let y: usize = index / width;
    let x: usize = index % width;
    (x, y)
}

/// The key under which a position is stored: `x * 2^64 + y`.
spec fn key_of(position: (int, int)) -> int {
    position.0 * 0x1_0000_0000_0000_0000 + position.1
}

/// The position that a key stands for.
spec fn position_of_key(key: u128) -> (int, int) {
    ((key / 0x1_0000_0000_0000_0000) as int, (key % 0x1_0000_0000_0000_0000) as int)
}

/// Whether both coordinates of `position` are values of `usize`.
spec fn addressable(position: (int, int)) -> bool {
    &&& 0 <= position.0 <= usize::MAX
    &&& 0 <= position.1 <= usize::MAX
}

/// A sparse map from positions to colours: the pixels of one frame that
/// differ from the frame it was compared with. Every position occurs at most
/// once, and the positions have no order.
pub struct ChangeMap {
    cells: HashMap<u128, QuantizedColor>,
}

impl View for ChangeMap {
    type V = Map<(int, int), QuantizedColor>;

    /// The map from position `(x, y)` to the colour stored for it.
    closed spec fn view(&self) -> Map<(int, int), QuantizedColor> {
        Map::new(
            |position: (int, int)|
                addressable(position) && self.cells@.contains_key(key_of(position) as u128),
            |position: (int, int)| self.cells@[key_of(position) as u128],
        )
    }
}

impl ChangeMap {
    /// Every key stands for a position whose coordinates are values of `usize`.
    #[verifier::type_invariant]
    spec fn keys_are_positions(self) -> bool {
        forall|key: u128| #[trigger]
            self.cells@.contains_key(key) ==> addressable(position_of_key(key))
    }

    /// The stored positions are as many as the stored keys.
    proof fn lemma_positions_match_keys(self)
        requires
            self.keys_are_positions(),
        ensures
            self@.dom().finite(),
            self@.dom().len() == self.cells@.dom().len(),
    {
        let keys = self.cells@.dom();
        let decode = |key: u128| position_of_key(key);
        assert forall|position: (int, int)| self@.dom().contains(position) implies keys.map(
            decode,
        ).contains(position) by {
            let key = key_of(position) as u128;
            assert(keys.contains(key) && decode(key) == position);
        }
        assert forall|position: (int, int)|
            keys.map(decode).contains(position) implies self@.dom().contains(position) by {
            let key = choose|key: u128| keys.contains(key) && decode(key) == position;
            assert(key_of(position) as u128 == key);
        }
        assert(keys.map(decode) =~= self@.dom());
        vstd::set_lib::lemma_map_size(keys, self@.dom(), decode);
    }

    /// A map without entries.
    pub fn new() -> (map: ChangeMap)
        ensures
            map@ == Map::<(int, int), QuantizedColor>::empty(),
    {
        let map = ChangeMap { cells: HashMap::new() };
        assert(map@ =~= Map::<(int, int), QuantizedColor>::empty());
        map
    }

    /// Stores `color` for the position `(x, y)`, in place of what was stored
    /// for it before.
    pub fn insert(&mut self, x: usize, y: usize, color: QuantizedColor)
        ensures
            final(self)@ == old(self)@.insert((x as int, y as int), color),
    {
        proof {
            use_type_invariant(&*self);
        }
        let key: u128 = (x as u128) * 0x1_0000_0000_0000_0000 + (y as u128);
        // The cells are taken out while they change, so that `self` is a
        // valid map at every step.
        let mut cells: HashMap<u128, QuantizedColor> = HashMap::new();
        std::mem::swap(&mut self.cells, &mut cells);
        cells.insert(key, color);
        std::mem::swap(&mut self.cells, &mut cells);
        assert(self@ =~= old(self)@.insert((x as int, y as int), color));
    }

    /// The number of positions that have an entry.
    pub fn len(&self) -> (count: usize)
        ensures
            self@.dom().finite(),
            count == self@.dom().len(),
    {
        proof {
            use_type_invariant(self);
            self.lemma_positions_match_keys();
        }
        self.cells.len()
    }

    /// Whether no position has an entry.
    pub fn is_empty(&self) -> (empty: bool)
        ensures
            empty == (self@ == Map::<(int, int), QuantizedColor>::empty()),
    {
        proof {
            use_type_invariant(self);
            self.lemma_positions_match_keys();
            if self@.dom().len() == 0 {
                assert(self@ =~= Map::<(int, int), QuantizedColor>::empty());
            }
        }
        self.cells.len() == 0
    }

    /// The colour stored for the position `(x, y)`, if it has an entry.
    pub fn get(&self, x: usize, y: usize) -> (color: Option<QuantizedColor>)
        ensures
            color == if self@.contains_key((x as int, y as int)) {
                Some(self@[(x as int, y as int)])
            } else {
                None::<QuantizedColor>
            },
    {
        let key: u128 = (x as u128) * 0x1_0000_0000_0000_0000 + (y as u128);
        match self.cells.get(&key) {
            Some(color) => Some(*color),
            None => None,
        }
    }

    /// Whether the position `(x, y)` has an entry.
    pub fn contains(&self, x: usize, y: usize) -> (present: bool)
        ensures
            present == self@.contains_key((x as int, y as int)),
    {
        let key: u128 = (x as u128) * 0x1_0000_0000_0000_0000 + (y as u128);
        self.cells.contains_key(&key)
    }

    /// The entries of the map, each position with its colour, every entry
    /// once and in no particular order.
    pub fn entries(&self) -> (list: Vec<((usize, usize), QuantizedColor)>)
        ensures
            list.len() == self@.dom().len(),
            forall|i: int|
                0 <= i < list.len() ==> self@.contains_pair(
                    ((#[trigger] list[i]).0.0 as int, list[i].0.1 as int),
                    list[i].1,
                ),
            forall|i: int, j: int| 0 <= i < j < list.len() ==> list[i].0 != list[j].0,
    {
        proof {
            use_type_invariant(self);
            self.lemma_positions_match_keys();
        }
        let mut list: Vec<((usize, usize), QuantizedColor)> = Vec::new();
        for cell in walk: self.cells.iter()
            invariant
                self.keys_are_positions(),
                list.len() == walk.index(),
                walk.seq().no_duplicates(),
                forall|i: int|
                    0 <= i < walk.seq().len() ==> self.cells@.contains_pair(
                        *(#[trigger] walk.seq()[i]).0,
                        *walk.seq()[i].1,
                    ),
                forall|i: int|
                    0 <= i < list.len() ==> key_of(
                        ((#[trigger] list[i]).0.0 as int, list[i].0.1 as int),
                    ) == *walk.seq()[i].0 && list[i].1 == *walk.seq()[i].1,
        {
            let (key, color) = cell;
            assert(self.cells@.contains_key(*key));
            let x: usize = (*key / 0x1_0000_0000_0000_0000) as usize;
            let y: usize = (*key % 0x1_0000_0000_0000_0000) as usize;
            list.push(((x, y), *color));
        }
        proof {
            assert forall|i: int, j: int| 0 <= i < j < list.len() implies list[i].0
                != list[j].0 by {
                if list[i].0 == list[j].0 {
                    assert(list[i].1 == list[j].1);
                }
            }
        }
        list
    }
}

} // verus!
