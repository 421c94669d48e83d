//! Signed direction pairs built from per-axis positive/negative flags.

use vstd::prelude::*;
use vstd::std_specs::cmp::PartialEqSpec;

verus! {

/// One axis: a positive flag and a negative flag (or any per-direction
/// payload, such as the key bound to each direction).
#[derive(Clone, Copy, Default)]
pub struct Dir1<T> {
    pub pos: T,
    pub neg: T,
}

/// Two axes of [`Dir1`].
#[derive(Clone, Copy, Default)]
pub struct Dir2<T> {
    pub x: Dir1<T>,
    pub y: Dir1<T>,
}

impl Dir1<bool> {
    /// The value [`Dir1::dir`] computes: `+1`, `-1`, or `0` when the flags
    /// agree.
    pub open spec fn spec_dir(self) -> i8 {
        (if self.pos {
            1int
        } else {
            0int
        } - if self.neg {
            1int
        } else {
            0int
        }) as i8
    }

    /// The signed direction of this axis: `+1`, `-1`, or `0` when the flags
    /// agree.
    pub fn dir(self) -> (r: i8)
        ensures
            r == self.spec_dir(),
    {
        (if self.pos {
            1i8
        } else {
            0i8
        }) - (if self.neg {
            1i8
        } else {
            0i8
        })
    }
}

impl<T: Clone> Dir1<T> {
    /// Where `key` equals an axis key in `keymap`, write a clone of `val`
    /// into the flag on the same side; the other flag keeps its value.
    pub fn write_if_eq<U: PartialEq>(&mut self, keymap: &Dir1<U>, key: &U, val: &T)
        ensures
            U::obeys_eq_spec() ==> {
                &&& key.eq_spec(&keymap.pos) ==> cloned(*val, final(self).pos)
                &&& !key.eq_spec(&keymap.pos) ==> final(self).pos == old(self).pos
                &&& key.eq_spec(&keymap.neg) ==> cloned(*val, final(self).neg)
                &&& !key.eq_spec(&keymap.neg) ==> final(self).neg == old(self).neg
            },
    {
        if *key == keymap.pos {
            self.pos = val.clone();
        }
        if *key == keymap.neg {
            self.neg = val.clone();
        }
    }
}

impl Dir2<bool> {
    /// The signed direction of both axes, x first.
    pub fn dir(self) -> (r: [i8; 2])
        ensures
            r@ == seq![self.x.spec_dir(), self.y.spec_dir()],
    {
        let r: [i8; 2] = [self.x.dir(), self.y.dir()];
        proof {
            assert(r@ =~= seq![self.x.spec_dir(), self.y.spec_dir()]);
        }
        r
    }
}

impl<T: Clone> Dir2<T> {
    /// Where `key` equals a key in `keymap`, write a clone of `val` into the
    /// flag in the same place; every other flag keeps its value.
    pub fn write_if_eq<U: PartialEq>(&mut self, keymap: &Dir2<U>, key: &U, val: &T)
        ensures
            U::obeys_eq_spec() ==> {
                &&& key.eq_spec(&keymap.x.pos) ==> cloned(*val, final(self).x.pos)
                &&& !key.eq_spec(&keymap.x.pos) ==> final(self).x.pos == old(self).x.pos
                &&& key.eq_spec(&keymap.x.neg) ==> cloned(*val, final(self).x.neg)
                &&& !key.eq_spec(&keymap.x.neg) ==> final(self).x.neg == old(self).x.neg
                &&& key.eq_spec(&keymap.y.pos) ==> cloned(*val, final(self).y.pos)
                &&& !key.eq_spec(&keymap.y.pos) ==> final(self).y.pos == old(self).y.pos
                &&& key.eq_spec(&keymap.y.neg) ==> cloned(*val, final(self).y.neg)
                &&& !key.eq_spec(&keymap.y.neg) ==> final(self).y.neg == old(self).y.neg
            },
    {
        self.x.write_if_eq(&keymap.x, key, val);
        self.y.write_if_eq(&keymap.y, key, val);
    }
}

} // verus!
