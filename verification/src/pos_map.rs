//! A dense map from planner cells to values, with one value set aside to
//! mean "not set".

use crate::pos::Pos;
use vstd::prelude::*;
use vstd::std_specs::cmp::PartialEqSpec;

verus! {

/// A value of `T` for every cell of a rectangle. A cell that holds the
/// initial value counts as not set, so the initial value has to be one that
/// is never stored on purpose.
pub struct PosMap<T> {
    /// The values, one column after the other.
    data: Vec<T>,
    shape: (usize, usize),
    init: T,
}

/// Where the cell `(x, y)` of a rectangle that is `h` high lies in a vector
/// of its cells.
spec fn slot(h: int, x: int, y: int) -> int {
    x * h + y
}

/// Each cell of a rectangle has a slot of its own within the vector.
proof fn lemma_slot_in_range(w: int, h: int, x: int, y: int)
    requires
        0 <= x < w,
        0 <= y < h,
    ensures
        0 <= slot(h, x, y) < w * h,
        x * h <= slot(h, x, y) < (x + 1) * h,
{
    assert(x * h + h == (x + 1) * h) by (nonlinear_arith);
    assert((x + 1) * h <= w * h) by (nonlinear_arith)
        requires
            x + 1 <= w,
            h >= 0,
    ;
    assert(0 <= x * h) by (nonlinear_arith)
        requires
            0 <= x,
            0 <= h,
    ;
}

/// Two different cells have different slots.
proof fn lemma_slot_injective(h: int, x0: int, y0: int, x1: int, y1: int)
    requires
        0 <= y0 < h,
        0 <= y1 < h,
        0 <= x0,
        0 <= x1,
        slot(h, x0, y0) == slot(h, x1, y1),
    ensures
        x0 == x1,
        y0 == y1,
{
    if x0 < x1 {
        lemma_slot_in_range(x1, h, x0, y0);
        assert(x1 * h >= (x0 + 1) * h) by (nonlinear_arith)
            requires
                x1 >= x0 + 1,
                h >= 0,
        ;
    } else if x1 < x0 {
        lemma_slot_in_range(x0, h, x1, y1);
        assert(x0 * h >= (x1 + 1) * h) by (nonlinear_arith)
            requires
                x0 >= x1 + 1,
                h >= 0,
        ;
    }
}

impl<T> PosMap<T> {
    #[verifier::type_invariant]
    spec fn dense(self) -> bool {
        self.data.len() == self.shape.0 * self.shape.1
    }
}

impl<T> PosMap<T> where T: Copy + PartialEq {
    /// The lengths of the two axes.
    pub closed spec fn dims(&self) -> (nat, nat) {
        (self.shape.0 as nat, self.shape.1 as nat)
    }

    /// The value that means "not set".
    pub closed spec fn sentinel(&self) -> T {
        self.init
    }

    /// What the cell `(x, y)` holds; meaningful inside the map only.
    pub closed spec fn at(&self, x: int, y: int) -> T {
        self.data@[slot(self.shape.1 as int, x, y)]
    }

    /// `(x, y)` is a cell of the map.
    pub open spec fn holds(&self, x: int, y: int) -> bool {
        0 <= x < self.dims().0 && 0 <= y < self.dims().1
    }

    /// `pos` is a cell of the map.
    pub open spec fn inside(&self, pos: Pos) -> bool {
        0 <= pos.x < self.dims().0 && 0 <= pos.y < self.dims().1
    }

    /// What the cell `pos` holds; meaningful inside the map only.
    pub open spec fn value(&self, pos: Pos) -> T {
        self.at(pos.x as int, pos.y as int)
    }

    /// `pos` is a cell of the map and holds something else than the
    /// sentinel.
    pub open spec fn filled(&self, pos: Pos) -> bool {
        self.inside(pos) && !self.value(pos).eq_spec(&self.sentinel())
    }

    /// A map of the given shape with `init` in every cell, which also
    /// makes `init` the sentinel.
    pub fn new(shape: (usize, usize), init: T) -> (map: Self)
        requires
            shape.0 * shape.1 <= usize::MAX,
        ensures
            map.dims() == (shape.0 as nat, shape.1 as nat),
            map.sentinel() == init,
            forall|x: int, y: int| map.holds(x, y) ==> #[trigger] map.at(x, y) == init,
    {
        let n = shape.0 * shape.1;
        let mut data: Vec<T> = Vec::with_capacity(n);
        let mut i: usize = 0;
        while i < n
            invariant
                i <= n,
                data.len() == i,
                forall|k: int| 0 <= k < i ==> data[k] == init,
            decreases n - i,
        {
            data.push(init);
            i += 1;
        }
        let map = PosMap { data, shape, init };
        proof {
            assert forall|x: int, y: int| map.holds(x, y) implies #[trigger] map.at(x, y)
                == init by {
                lemma_slot_in_range(shape.0 as int, shape.1 as int, x, y);
            }
        }
        map
    }

    /// The slot of `pos`, if `pos` is a cell of the map.
    fn pos_to_key(&self, pos: &Pos) -> (key: Option<usize>)
        ensures
            self.inside(*pos) ==> key.is_some() && key.unwrap() == slot(
                self.shape.1 as int,
                pos.x as int,
                pos.y as int,
            ) && key.unwrap() < self.data.len(),
            !self.inside(*pos) ==> key.is_none(),
    {
        proof {
            use_type_invariant(self);
        }
        if pos.x < 0 || pos.y < 0 || pos.x as u64 >= self.shape.0 as u64 || pos.y as u64
            >= self.shape.1 as u64 {
            None
        } else {
            proof {
                lemma_slot_in_range(
                    self.shape.0 as int,
                    self.shape.1 as int,
                    pos.x as int,
                    pos.y as int,
                );
            }
            Some(pos.x as usize * self.shape.1 + pos.y as usize)
        }
    }

    /// What the cell `pos` holds, or `None` out of bounds.
    pub fn get(&self, pos: &Pos) -> (r: Option<&T>)
        ensures
            r == (if self.inside(*pos) {
                Some(&self.value(*pos))
            } else {
                None
            }),
    {
        match self.pos_to_key(pos) {
            Some(key) => Some(&self.data[key]),
            None => None,
        }
    }

    /// What the cell `pos` holds, or `None` where that is the sentinel or
    /// `pos` is out of bounds.
    pub fn get_if_set(&self, pos: &Pos) -> (r: Option<&T>)
        ensures
            T::obeys_eq_spec() ==> r == (if self.filled(*pos) {
                Some(&self.value(*pos))
            } else {
                None
            }),
            r.is_some() ==> self.inside(*pos) && *r.unwrap() == self.value(*pos),
    {
        match self.pos_to_key(pos) {
            Some(key) => {
                let x = &self.data[key];
                if *x == self.init {
                    None
                } else {
                    Some(x)
                }
            },
            None => None,
        }
    }

    /// What the cell `pos` holds, or `default` out of bounds.
    pub fn get_or(&self, pos: &Pos, default: &T) -> (r: T)
        ensures
            r == (if self.inside(*pos) {
                self.value(*pos)
            } else {
                *default
            }),
    {
        match self.pos_to_key(pos) {
            Some(key) => self.data[key],
            None => *default,
        }
    }

    /// What the cell `pos` of the map holds.
    pub fn get_unchecked(&self, pos: &Pos) -> (r: T)
        requires
            self.inside(*pos),
        ensures
            r == self.value(*pos),
    {
        match self.pos_to_key(pos) {
            Some(key) => self.data[key],
            None => self.init,
        }
    }

    /// Stores `value` in the cell `pos` of the map.
    pub fn set(&mut self, pos: &Pos, value: T)
        requires
            old(self).inside(*pos),
        ensures
            final(self).dims() == old(self).dims(),
            final(self).sentinel() == old(self).sentinel(),
            final(self).value(*pos) == value,
            forall|x: int, y: int|
                final(self).holds(x, y) && (x, y) != (pos.x as int, pos.y as int)
                    ==> #[trigger] final(self).at(x, y) == old(self).at(x, y),
    {
        proof {
            use_type_invariant(&*self);
        }
        match self.pos_to_key(pos) {
            Some(key) => {
                self.data[key] = value;
                proof {
                    assert forall|x: int, y: int|
                        self.holds(x, y) && (x, y) != (
                            pos.x as int,
                            pos.y as int,
                        ) implies #[trigger] self.at(x, y) == old(self).at(x, y) by {
                        lemma_slot_in_range(self.shape.0 as int, self.shape.1 as int, x, y);
                        if slot(self.shape.1 as int, x, y) == key {
                            lemma_slot_injective(
                                self.shape.1 as int,
                                x,
                                y,
                                pos.x as int,
                                pos.y as int,
                            );
                        }
                    }
                }
            },
            None => {},
        }
    }

    /// Whether `pos` is a cell of the map and holds something else than the
    /// sentinel.
    pub fn is_set(&self, pos: &Pos) -> (r: bool)
        ensures
            T::obeys_eq_spec() ==> r == self.filled(*pos),
            r ==> self.inside(*pos),
    {
        match self.pos_to_key(pos) {
            Some(key) => self.data[key] != self.init,
            None => false,
        }
    }

    /// Puts the sentinel back into every cell. Where the sentinel equals
    /// itself, no cell is set afterwards.
    pub fn clear(&mut self)
        ensures
            final(self).dims() == old(self).dims(),
            final(self).sentinel() == old(self).sentinel(),
            forall|x: int, y: int|
                final(self).holds(x, y) ==> #[trigger] final(self).at(x, y)
                    == final(self).sentinel(),
            final(self).sentinel().eq_spec(&final(self).sentinel()) ==> forall|pos: Pos|
                !#[trigger] final(self).filled(pos),
    {
        proof {
            use_type_invariant(&*self);
        }
        let n = self.data.len();
        let mut i: usize = 0;
        while i < n
            invariant
                n == self.data.len(),
                n == self.shape.0 * self.shape.1,
                self.shape == old(self).shape,
                self.init == old(self).init,
                i <= n,
                forall|k: int| 0 <= k < i ==> self.data[k] == self.init,
            decreases n - i,
        {
            self.data[i] = self.init;
            i += 1;
        }
        proof {
            assert forall|x: int, y: int| self.holds(x, y) implies #[trigger] self.at(x, y)
                == self.sentinel() by {
                lemma_slot_in_range(self.shape.0 as int, self.shape.1 as int, x, y);
            }
        }
    }
}

} // verus!
