//! An immutable arithmetic progression `start, start + step, ...` that stops
//! before `stop`. Its length is derived, never stored, and two ranges are equal
//! when they hold the same items, whatever their `stop`.

use vstd::prelude::*;
use crate::registry::{ClassRegistry, ClassInstall, GetSetItemKind, RegistryError, SlotId};
use crate::slice::{SliceArgs, count_steps, before_stop, lemma_count_steps, lemma_count_steps_unique,
    lemma_selected_in_bounds, slice_indices, slice_step_is_zero, slice_length, lemma_count_at_most_len};

verus! {

/// Why a range operation was refused.
#[derive(Clone, Copy, Debug, PartialEq, Eq)]
pub enum RangeError {
    /// The step given to a constructor, or a subscript's step, is zero.
    ZeroStep,
    /// An integer subscript lies outside the range.
    IndexOutOfRange,
    /// The value searched for is not an item of the range.
    NotInRange,
    /// A result does not fit the 64-bit bounds of a range.
    Overflow,
    /// A constructor was called with other than one to three arguments.
    ArgumentCount,
}

/// `range(start, stop, step)`; `step` is never zero.
#[derive(Clone, Copy, Debug)]
pub struct PyRange {
    pub start: i64,
    pub stop: i64,
    pub step: i64,
}

pub open spec fn fits_i64(v: int) -> bool {
    i64::MIN <= v <= i64::MAX
}

impl PyRange {
    pub open spec fn wf(&self) -> bool {
        self.step != 0
    }

    /// The number of items.
    pub open spec fn len_spec(&self) -> int {
        count_steps(self.start as int, self.stop as int, self.step as int)
    }

    /// The item at position `k` (meaningful for `0 <= k < len_spec()`).
    pub open spec fn item(&self, k: int) -> int {
        self.start + self.step * k
    }
}

impl View for PyRange {
    type V = Seq<int>;

    /// The items, in iteration order.
    open spec fn view(&self) -> Seq<int> {
        Seq::new(self.len_spec() as nat, |k: int| self.item(k))
    }
}

impl PyRange {
    /// Every item lies between `start` (inclusive) and `stop` (exclusive).
    pub proof fn lemma_item_bounds(&self, k: int)
        requires
            self.wf(),
            0 <= k < self.len_spec(),
        ensures
            self.step > 0 ==> self.start <= self.item(k) < self.stop,
            self.step < 0 ==> self.stop < self.item(k) <= self.start,
            fits_i64(self.item(k)),
    {
        lemma_count_steps(self.start as int, self.stop as int, self.step as int, k);
        if self.step > 0 {
            assert(self.step * k >= 0) by (nonlinear_arith)
                requires self.step > 0, k >= 0;
        } else {
            assert(self.step * k <= 0) by (nonlinear_arith)
                requires self.step < 0, k >= 0;
        }
    }

    pub proof fn lemma_len_bounds(&self)
        requires
            self.wf(),
        ensures
            0 <= self.len_spec() <= u64::MAX,
    {
        let l = self.len_spec();
        lemma_count_steps(self.start as int, self.stop as int, self.step as int, 0);
        if l > u64::MAX {
            self.lemma_item_bounds(u64::MAX as int);
            let m = u64::MAX as int;
            if self.step > 0 {
                assert(self.step * m >= m) by (nonlinear_arith)
                    requires self.step >= 1, m >= 0;
            } else {
                assert(self.step * m <= -m) by (nonlinear_arith)
                    requires self.step <= -1, m >= 0;
            }
        }
    }

    /// The number of items.
    fn compute_length(&self) -> (r: u64)
        requires
            self.wf(),
        ensures
            r == self.len_spec(),
    {
        proof { self.lemma_len_bounds(); }
        let start = self.start as i128;
        let stop = self.stop as i128;
        let step = self.step as i128;
        if step > 0 {
            if start < stop {
                ((stop - start - 1) / step + 1) as u64
            } else {
                0
            }
        } else {
            if start > stop {
                ((start - stop - 1) / (-step) + 1) as u64
            } else {
                0
            }
        }
    }

    /// `range(stop)`: the items `0, 1, ..., stop - 1`.
    pub fn new(stop: i64) -> (r: PyRange)
        ensures
            r.wf(),
            r.start == 0 && r.stop == stop && r.step == 1,
    {
        PyRange { start: 0, stop, step: 1 }
    }

    /// `range(start, stop[, step])`; the step defaults to one and must not be zero.
    pub fn new_from(start: i64, stop: i64, step: Option<i64>) -> (r: Result<PyRange, RangeError>)
        ensures
            step == Some(0i64) <==> r == Err::<PyRange, RangeError>(RangeError::ZeroStep),
            step != Some(0i64) ==> (r matches Ok(g) && g.wf() && g.start == start && g.stop == stop
                && g.step == (match step { Some(s) => s, None => 1 })),
    {
        let step = match step {
            Some(s) => s,
            None => 1,
        };
        if step == 0 {
            return Err(RangeError::ZeroStep);
        }
        Ok(PyRange { start, stop, step })
    }

    /// The constructor as called with positional arguments: one argument is
    /// the stop, two or three are start, stop and step.
    pub fn slot_new(args: &Vec<i64>) -> (r: Result<PyRange, RangeError>)
        ensures
            args.len() == 1 ==> r == Ok::<PyRange, RangeError>(PyRange { start: 0, stop: args[0], step: 1 }),
            (args.len() == 0 || args.len() > 3) <==> r == Err::<PyRange, RangeError>(RangeError::ArgumentCount),
            args.len() == 2 ==> r == Ok::<PyRange, RangeError>(PyRange { start: args[0], stop: args[1], step: 1 }),
            args.len() == 3 ==> (args[2] == 0 <==> r == Err::<PyRange, RangeError>(RangeError::ZeroStep)),
            args.len() == 3 && args[2] != 0 ==> r == Ok::<PyRange, RangeError>(
                PyRange { start: args[0], stop: args[1], step: args[2] }),
    {
        if args.len() == 1 {
            Ok(Self::new(args[0]))
        } else if args.len() == 2 {
            Self::new_from(args[0], args[1], None)
        } else if args.len() == 3 {
            Self::new_from(args[0], args[1], Some(args[2]))
        } else {
            Err(RangeError::ArgumentCount)
        }
    }

    pub fn start(&self) -> (r: i64)
        ensures
            r == self.start,
    {
        self.start
    }

    pub fn stop(&self) -> (r: i64)
        ensures
            r == self.stop,
    {
        self.stop
    }

    pub fn step(&self) -> (r: i64)
        ensures
            r == self.step,
    {
        self.step
    }

    /// The number of items.
    pub fn __len__(&self) -> (r: u64)
        requires
            self.wf(),
        ensures
            r == self.len_spec(),
            r == self@.len(),
    {
        self.compute_length()
    }

    /// The length as a sequence length, refused when it exceeds `isize::MAX`.
    pub fn protocol_length(&self) -> (r: Result<usize, RangeError>)
        requires
            self.wf(),
        ensures
            (self.len_spec() <= i64::MAX && self.len_spec() <= usize::MAX) <==> r is Ok,
            r matches Ok(n) ==> n == self.len_spec(),
            r matches Err(e) ==> e == RangeError::Overflow,
    {
        let n = self.compute_length();
        if n <= i64::MAX as u64 && n <= usize::MAX as u64 {
            Ok(n as usize)
        } else {
            Err(RangeError::Overflow)
        }
    }

    pub fn is_empty(&self) -> (r: bool)
        requires
            self.wf(),
        ensures
            r == (self@.len() == 0),
    {
        self.compute_length() == 0
    }

    /// The range counts upwards from a start below its stop.
    pub fn forward(&self) -> (r: bool)
        ensures
            r == (self.start < self.stop),
    {
        self.start < self.stop
    }

    pub fn __bool__(&self) -> (r: bool)
        requires
            self.wf(),
        ensures
            r == (self@.len() > 0),
    {
        !self.is_empty()
    }

    /// The arguments that rebuild this range: `(start, stop, step)`.
    pub fn __reduce__(&self) -> (r: (i64, i64, i64))
        ensures
            r == (self.start, self.stop, self.step),
    {
        (self.start, self.stop, self.step)
    }

    /// The item at `index`; a negative index counts from the end.
    pub fn get(&self, index: i128) -> (r: Option<i64>)
        requires
            self.wf(),
        ensures
            ({
                let i = if index < 0 { self@.len() + index } else { index as int };
                &&& (0 <= i < self@.len()) <==> r is Some
                &&& r matches Some(v) ==> v == self@[i]
            }),
    {
        let n = self.compute_length();
        proof { self.lemma_len_bounds(); }
        let i: i128 = if index < 0 { n as i128 + index } else { index };
        if 0 <= i && i < n as i128 {
            proof {
                self.lemma_item_bounds(i as int);
                let (s, k) = (self.step as int, i as int);
                assert(-0x8000_0000_0000_0000_0000_0000_0000_0000 < s * k < 0x8000_0000_0000_0000_0000_0000_0000_0000) by (nonlinear_arith)
                    requires -0x8000_0000_0000_0000 <= s < 0x8000_0000_0000_0000, 0 <= k < 0x1_0000_0000_0000_0000;
            }
            let v = self.start as i128 + (self.step as i128) * i;
            Some(v as i64)
        } else {
            None
        }
    }

    /// The position of `value` among the items, if it is one.
    pub fn index_of(&self, value: i64) -> (r: Option<u64>)
        requires
            self.wf(),
        ensures
            r is None <==> !self@.contains(value as int),
            r matches Some(k) ==> k < self@.len() && self@[k as int] == value,
    {
        proof { self.lemma_len_bounds(); }
        let start = self.start as i128;
        let stop = self.stop as i128;
        let step = self.step as i128;
        let v = value as i128;
        let (lo_ok, off, unit) = if step > 0 {
            (start <= v && v < stop, v - start, step)
        } else {
            (stop < v && v <= start, start - v, -step)
        };
        assert(self@.contains(value as int) ==> lo_ok && off % unit == 0) by {
            if self@.contains(value as int) {
                let j = choose|j: int| 0 <= j < self@.len() && self@[j] == value as int;
                self.lemma_item_bounds(j);
                assert(off == unit * j) by (nonlinear_arith)
                    requires step > 0 ==> (off == value - start && unit == step),
                        step < 0 ==> (off == start - value && unit == -step),
                        step != 0, value == start + step * j;
                vstd::arithmetic::div_mod::lemma_mod_multiples_basic(j, unit as int);
                assert(lo_ok);
                assert(off % unit == 0) by (nonlinear_arith)
                    requires off == unit * j, (j * unit) % (unit as int) == 0;
            }
        };
        if lo_ok && off % unit == 0 {
            let k = off / unit;
            proof {
                vstd::arithmetic::div_mod::lemma_fundamental_div_mod(off as int, unit as int);
                assert(k >= 0) by (nonlinear_arith)
                    requires off >= 0, unit > 0, off == unit * k;
                assert(self.item(k as int) == value) by (nonlinear_arith)
                    requires step > 0 ==> (off == value - start && unit == step),
                        step < 0 ==> (off == start - value && unit == -step),
                        step != 0, off == unit * k, self.item(k as int) == start + step * k;
                lemma_count_steps(self.start as int, self.stop as int, self.step as int, k as int);
                assert(self@[k as int] == value as int);
            }
            Some(k as u64)
        } else {
            None
        }
    }

    /// `value` is an item of the range: one division, no scan.
    pub fn contains_inner(&self, needle: i64) -> (r: bool)
        requires
            self.wf(),
        ensures
            r == self@.contains(needle as int),
    {
        self.index_of(needle).is_some()
    }

    pub fn __contains__(&self, needle: i64) -> (r: bool)
        requires
            self.wf(),
        ensures
            r == self@.contains(needle as int),
    {
        self.contains_inner(needle)
    }

    /// The position of `needle`, or `NotInRange`.
    pub fn index(&self, needle: i64) -> (r: Result<u64, RangeError>)
        requires
            self.wf(),
        ensures
            r is Err <==> !self@.contains(needle as int),
            r matches Ok(k) ==> k < self@.len() && self@[k as int] == needle,
            r matches Err(e) ==> e == RangeError::NotInRange,
    {
        match self.index_of(needle) {
            Some(k) => Ok(k),
            None => Err(RangeError::NotInRange),
        }
    }

    /// How many items equal `item`: one or zero, the items being distinct.
    pub fn count(&self, item: i64) -> (r: usize)
        requires
            self.wf(),
        ensures
            r == (if self@.contains(item as int) { 1usize } else { 0usize }),
    {
        if self.index_of(item).is_some() { 1 } else { 0 }
    }

    /// Equal ranges hold the same items: equal lengths, and then equal starts
    /// unless empty, and equal steps unless of length at most one.
    pub open spec fn same_items(&self, other: &PyRange) -> bool {
        &&& self.len_spec() == other.len_spec()
        &&& (self.len_spec() == 0 || self.start == other.start)
        &&& (self.len_spec() <= 1 || self.step == other.step)
    }

    /// The key that hashing reads: the length, the start unless empty, the step
    /// when there are two items or more. The stop never enters it.
    pub open spec fn hash_key_spec(&self) -> (int, Option<int>, Option<int>) {
        (
            self.len_spec(),
            if self.len_spec() == 0 { None } else { Some(self.start as int) },
            if self.len_spec() <= 1 { None } else { Some(self.step as int) },
        )
    }

    /// The values hashed for this range (see `hash_key_spec`).
    pub fn hash_key(&self) -> (r: (u64, Option<i64>, Option<i64>))
        requires
            self.wf(),
        ensures
            (r.0 as int, match r.1 { Some(v) => Some(v as int), None => None },
                match r.2 { Some(v) => Some(v as int), None => None }) == self.hash_key_spec(),
    {
        let n = self.compute_length();
        let s = if n == 0 { None } else { Some(self.start) };
        let t = if n <= 1 { None } else { Some(self.step) };
        (n, s, t)
    }
}

impl PartialEq for PyRange {
    fn eq(&self, other: &PyRange) -> (r: bool) {
        if self.step == 0 || other.step == 0 {
            return self.start == other.start && self.stop == other.stop && self.step == other.step;
        }
        let n = self.compute_length();
        if n != other.compute_length() {
            false
        } else if n == 0 {
            true
        } else if self.start != other.start {
            false
        } else if n == 1 {
            true
        } else {
            self.step == other.step
        }
    }
}

impl vstd::std_specs::cmp::PartialEqSpecImpl for PyRange {
    open spec fn obeys_eq_spec() -> bool {
        true
    }

    open spec fn eq_spec(&self, other: &PyRange) -> bool {
        if self.step == 0 || other.step == 0 {
            self.start == other.start && self.stop == other.stop && self.step == other.step
        } else {
            self.same_items(other)
        }
    }
}

/// A subscript of a range: one position, or a slice.
#[derive(Clone, Copy, Debug)]
pub enum RangeIndex {
    Int(i128),
    Slice(SliceArgs),
}

/// What subscripting a range gives: one item, or a sub-range.
#[derive(Clone, Copy, Debug)]
pub enum RangeItem {
    Int(i64),
    Range(PyRange),
}

/// One step in the direction of `z`.
pub open spec fn unit_toward(z: int) -> int {
    if z > 0 { 1 } else { -1 }
}

/// A progression of `n >= 1` items from `x` by `z` holds exactly `n` items
/// when it stops one unit past its last item.
pub proof fn lemma_count_exact(x: int, z: int, n: int)
    requires
        z != 0,
        n >= 1,
    ensures
        count_steps(x, x + z * (n - 1) + unit_toward(z), z) == n,
{
    let y = x + z * (n - 1) + unit_toward(z);
    assert forall|k: int| k >= 0 implies (before_stop(x, y, z, k) <==> before_stop(0, n, 1, k)) by {
        if z > 0 {
            assert(z * k <= z * (n - 1) <==> k <= n - 1) by (nonlinear_arith)
                requires z > 0;
        } else {
            assert(z * k >= z * (n - 1) <==> k <= n - 1) by (nonlinear_arith)
                requires z < 0;
        }
    }
    lemma_count_steps_unique(x, y, z, 0, n, 1);
}

pub proof fn lemma_sign_of_product(q: int, st: int)
    requires
        q != 0,
        st != 0,
    ensures
        (q * st > 0) == ((q > 0) == (st > 0)),
        q * st != 0,
{
    if q > 0 && st > 0 {
        assert(q * st > 0) by (nonlinear_arith) requires q > 0, st > 0;
    } else if q < 0 && st < 0 {
        assert(q * st > 0) by (nonlinear_arith) requires q < 0, st < 0;
    } else if q > 0 {
        assert(q * st < 0) by (nonlinear_arith) requires q > 0, st < 0;
    } else {
        assert(q * st < 0) by (nonlinear_arith) requires q < 0, st > 0;
    }
}

/// An iterator over a range's items, with a cursor that only moves forward.
#[derive(Clone, Copy, Debug)]
pub struct PyRangeIterator {
    pub index: u64,
    pub start: i64,
    pub step: i64,
    pub length: u64,
}

impl PyRangeIterator {
    /// The last item fits 64 bits, and so does every item before it.
    pub open spec fn wf(&self) -> bool {
        self.length == 0 || fits_i64(self.start + self.step * (self.length - 1))
    }

    /// The items not yet handed out.
    pub open spec fn remaining(&self) -> Seq<int> {
        if self.index >= self.length {
            Seq::empty()
        } else {
            Seq::new((self.length - self.index) as nat, |k: int| self.start + self.step * (self.index + k))
        }
    }

    /// The next item, or `None` once all have been handed out.
    pub fn next(&mut self) -> (r: Option<i64>)
        requires
            old(self).wf(),
        ensures
            final(self).wf(),
            final(self).start == old(self).start && final(self).step == old(self).step,
            final(self).length == old(self).length,
            r is None <==> old(self).remaining().len() == 0,
            r is None ==> *final(self) == *old(self),
            r matches Some(v) ==> v == old(self).remaining()[0]
                && final(self).remaining() == old(self).remaining().drop_first()
                && final(self).index == old(self).index + 1,
    {
        if self.index < self.length {
            let i = self.index;
            proof {
                let (s, k, l, s0) = (self.step as int, i as int, self.length as int, self.start as int);
                assert(-0x8000_0000_0000_0000_0000_0000_0000_0000 < s * k < 0x8000_0000_0000_0000_0000_0000_0000_0000) by (nonlinear_arith)
                    requires -0x8000_0000_0000_0000 <= s < 0x8000_0000_0000_0000, 0 <= k < 0x1_0000_0000_0000_0000;
                assert(fits_i64(s0 + s * k)) by (nonlinear_arith)
                    requires 0 <= k < l, fits_i64(s0), fits_i64(s0 + s * (l - 1));
            }
            let v = self.start as i128 + (self.step as i128) * (i as i128);
            self.index = i + 1;
            proof {
                assert(self.remaining() =~= old(self).remaining().drop_first());
            }
            Some(v as i64)
        } else {
            None
        }
    }

    /// How many items are left.
    pub fn __length_hint__(&self) -> (r: u64)
        ensures
            r == self.remaining().len(),
    {
        if self.index < self.length { self.length - self.index } else { 0 }
    }

    /// Moves the cursor to a saved position, clamped into `[0, length]`.
    pub fn __setstate__(&mut self, state: i128)
        ensures
            final(self).index == (if state < 0 { 0 } else if state > old(self).length { old(self).length as int } else { state as int }),
            final(self).start == old(self).start && final(self).step == old(self).step,
            final(self).length == old(self).length,
    {
        self.index = if state < 0 {
            0
        } else if state > self.length as i128 {
            self.length
        } else {
            state as u64
        };
    }

    /// What rebuilds this iterator: the range's `(start, stop, step)` with the
    /// stop one length past the start, and the cursor.
    pub fn __reduce__(&self) -> (r: (i64, i128, i64, u64))
        ensures
            r == (self.start, (self.start + self.length * self.step) as i128, self.step, self.index),
    {
        proof {
            let (s, l) = (self.step as int, self.length as int);
            assert(-0x8000_0000_0000_0000_0000_0000_0000_0000 + 0x8000_0000_0000_0000 <= l * s <= 0x7fff_ffff_ffff_ffff_8000_0000_0000_0000) by (nonlinear_arith)
                requires -0x8000_0000_0000_0000 <= s < 0x8000_0000_0000_0000, 0 <= l < 0x1_0000_0000_0000_0000;
        }
        (self.start, self.start as i128 + (self.length as i128) * (self.step as i128), self.step, self.index)
    }
}

/// An iterator whose start and step are kept wider than 64 bits, for
/// ranges where the step would not fit: the start plus one step, or the
/// negated step of a reversed range.
#[derive(Clone, Copy, Debug)]
pub struct PyLongRangeIterator {
    pub index: u64,
    pub start: i128,
    pub step: i128,
    pub length: u64,
}

impl PyLongRangeIterator {
    /// The step stays within 65 bits; when there are items, the first and
    /// the last fit 64 bits, and so does every item between them.
    pub open spec fn wf(&self) -> bool {
        &&& -0x1_0000_0000_0000_0000 <= self.step <= 0x1_0000_0000_0000_0000
        &&& -0x1_0000_0000_0000_0000 <= self.start <= 0x1_0000_0000_0000_0000
        &&& self.length > 0 ==> fits_i64(self.start as int) && fits_i64(self.start + self.step * (self.length - 1))
    }

    pub open spec fn remaining(&self) -> Seq<int> {
        if self.index >= self.length {
            Seq::empty()
        } else {
            Seq::new((self.length - self.index) as nat, |k: int| self.start + self.step * (self.index + k))
        }
    }

    pub fn next(&mut self) -> (r: Option<i64>)
        requires
            old(self).wf(),
        ensures
            final(self).wf(),
            final(self).start == old(self).start && final(self).step == old(self).step,
            final(self).length == old(self).length,
            r is None <==> old(self).remaining().len() == 0,
            r is None ==> *final(self) == *old(self),
            r matches Some(v) ==> v == old(self).remaining()[0]
                && final(self).remaining() == old(self).remaining().drop_first()
                && final(self).index == old(self).index + 1,
    {
        if self.index < self.length {
            let i = self.index;
            proof {
                let (s, k, l, s0) = (self.step as int, i as int, self.length as int, self.start as int);
                let last = s0 + s * (l - 1);
                assert(fits_i64(s0 + s * k) && -0x1_0000_0000_0000_0000 <= s * k <= 0x1_0000_0000_0000_0000) by (nonlinear_arith)
                    requires 0 <= k < l, fits_i64(s0), fits_i64(last), last == s0 + s * (l - 1);
            }
            let v = self.start + self.step * (i as i128);
            self.index = i + 1;
            proof {
                assert(self.remaining() =~= old(self).remaining().drop_first());
            }
            Some(v as i64)
        } else {
            None
        }
    }
}

/// An iterator over a range's items in one of two representations, chosen
/// once when it is made.
#[derive(Clone, Copy, Debug)]
pub enum RangeIterator {
    Fixed(PyRangeIterator),
    Long(PyLongRangeIterator),
}

impl RangeIterator {
    pub open spec fn wf(&self) -> bool {
        match self {
            RangeIterator::Fixed(it) => it.wf(),
            RangeIterator::Long(it) => it.wf(),
        }
    }

    /// The items not yet handed out.
    pub open spec fn remaining(&self) -> Seq<int> {
        match self {
            RangeIterator::Fixed(it) => it.remaining(),
            RangeIterator::Long(it) => it.remaining(),
        }
    }

    pub open spec fn position(&self) -> int {
        match self {
            RangeIterator::Fixed(it) => it.index as int,
            RangeIterator::Long(it) => it.index as int,
        }
    }

    pub open spec fn total(&self) -> int {
        match self {
            RangeIterator::Fixed(it) => it.length as int,
            RangeIterator::Long(it) => it.length as int,
        }
    }

    /// The next item, or `None` once all have been handed out.
    pub fn next(&mut self) -> (r: Option<i64>)
        requires
            old(self).wf(),
        ensures
            final(self).wf(),
            final(self).total() == old(self).total(),
            r is None <==> old(self).remaining().len() == 0,
            r is None ==> *final(self) == *old(self),
            r matches Some(v) ==> v == old(self).remaining()[0]
                && final(self).remaining() == old(self).remaining().drop_first()
                && final(self).position() == old(self).position() + 1,
    {
        match self {
            RangeIterator::Fixed(it) => it.next(),
            RangeIterator::Long(it) => it.next(),
        }
    }

    /// How many items are left.
    pub fn __length_hint__(&self) -> (r: u64)
        ensures
            r == self.remaining().len(),
    {
        let (index, length) = match self {
            RangeIterator::Fixed(it) => (it.index, it.length),
            RangeIterator::Long(it) => (it.index, it.length),
        };
        if index < length { length - index } else { 0 }
    }

    /// Moves the cursor to a saved position, clamped into `[0, length]`.
    pub fn __setstate__(&mut self, state: i128)
        requires
            old(self).wf(),
        ensures
            final(self).wf(),
            final(self).total() == old(self).total(),
            final(self).position() == (if state < 0 { 0 } else if state > old(self).total() { old(self).total() } else { state as int }),
            final(self).remaining() == (if final(self).position() >= final(self).total() { Seq::<int>::empty() } else {
                old(self).remaining_from(final(self).position()) }),
    {
        match self {
            RangeIterator::Fixed(it) => {
                it.index = if state < 0 { 0 } else if state > it.length as i128 { it.length } else { state as u64 };
            }
            RangeIterator::Long(it) => {
                it.index = if state < 0 { 0 } else if state > it.length as i128 { it.length } else { state as u64 };
            }
        }
        proof {
            if self.position() < self.total() {
                assert(self.remaining() =~= old(self).remaining_from(self.position()));
            }
        }
    }

    /// The items from position `p` on, whatever the cursor.
    pub open spec fn remaining_from(&self, p: int) -> Seq<int> {
        match self {
            RangeIterator::Fixed(it) => Seq::new((it.length - p) as nat, |k: int| it.start + it.step * (p + k)),
            RangeIterator::Long(it) => Seq::new((it.length - p) as nat, |k: int| it.start + it.step * (p + k)),
        }
    }

    /// What rebuilds this iterator: the range's `(start, stop, step)` with the
    /// stop one length past the start, and the cursor.
    pub fn __reduce__(&self) -> (r: (i128, i128, i128, u64))
        requires
            self.wf(),
        ensures
            ({
                let (start, step, length, index) = match self {
                    RangeIterator::Fixed(it) => (it.start as int, it.step as int, it.length as int, it.index),
                    RangeIterator::Long(it) => (it.start as int, it.step as int, it.length as int, it.index),
                };
                r == (start as i128, (start + length * step) as i128, step as i128, index)
            }),
    {
        let (start, step, length, index): (i128, i128, u64, u64) = match self {
            RangeIterator::Fixed(it) => (it.start as i128, it.step as i128, it.length, it.index),
            RangeIterator::Long(it) => (it.start, it.step, it.length, it.index),
        };
        proof {
            let (s, l, s0) = (step as int, length as int, start as int);
            if l > 0 {
                assert(-0x3_0000_0000_0000_0000 <= l * s <= 0x3_0000_0000_0000_0000) by (nonlinear_arith)
                    requires -0x1_0000_0000_0000_0000 <= s <= 0x1_0000_0000_0000_0000, l > 0,
                        fits_i64(s0), fits_i64(s0 + s * (l - 1));
            } else {
                assert(l * s == 0) by (nonlinear_arith)
                    requires l == 0;
            }
        }
        (start, start + (length as i128) * step, step, index)
    }
}

impl PyRange {
    /// The iterator that `iter` makes: machine-word fields when the start
    /// plus one step fits 64 bits, wide ones otherwise.
    pub open spec fn iterator_spec(&self) -> RangeIterator {
        if fits_i64(self.start + self.step) {
            RangeIterator::Fixed(PyRangeIterator { index: 0, start: self.start, step: self.step, length: self.len_spec() as u64 })
        } else {
            RangeIterator::Long(PyLongRangeIterator {
                index: 0, start: self.start as i128, step: self.step as i128, length: self.len_spec() as u64,
            })
        }
    }

    /// A fresh iterator over the items.
    pub fn iter(&self) -> (r: RangeIterator)
        requires
            self.wf(),
        ensures
            r == self.iterator_spec(),
            r.wf(),
            r.remaining() == self@,
            r.position() == 0,
    {
        let n = self.compute_length();
        proof {
            if n > 0 {
                self.lemma_item_bounds(n - 1);
            }
        }
        let sum = self.start as i128 + self.step as i128;
        let r = if i64::MIN as i128 <= sum && sum <= i64::MAX as i128 {
            RangeIterator::Fixed(PyRangeIterator { index: 0, start: self.start, step: self.step, length: n })
        } else {
            RangeIterator::Long(PyLongRangeIterator { index: 0, start: self.start as i128, step: self.step as i128, length: n })
        };
        proof {
            assert(r.remaining() =~= self@);
        }
        r
    }

    /// An iterator over the items in reverse order.
    pub fn __reversed__(&self) -> (r: RangeIterator)
        requires
            self.wf(),
        ensures
            r.wf(),
            r.remaining() == self@.reverse(),
            r.position() == 0,
    {
        let n = self.compute_length();
        proof { self.lemma_len_bounds(); }
        let step = self.step as i128;
        proof {
            let (s, l, s0) = (step as int, n as int, self.start as int);
            if l > 0 {
                self.lemma_item_bounds(l - 1);
                assert(-0x3_0000_0000_0000_0000 <= l * s <= 0x3_0000_0000_0000_0000) by (nonlinear_arith)
                    requires -0x8000_0000_0000_0000 <= s < 0x8000_0000_0000_0000, l > 0,
                        fits_i64(s0), fits_i64(s0 + s * (l - 1));
            } else {
                assert(l * s == 0) by (nonlinear_arith)
                    requires l == 0;
            }
        }
        let new_stop = self.start as i128 - step;
        let start = new_stop + (n as i128) * step;
        let neg = -step;
        proof {
            if n > 0 {
                self.lemma_item_bounds(n - 1);
                self.lemma_item_bounds(0);
                assert(start == self.item(n - 1)) by (nonlinear_arith)
                    requires start == self.start - self.step + n * self.step, self.item(n - 1) == self.start + self.step * (n - 1);
            }
        }
        let r = if i64::MIN as i128 <= start && start <= i64::MAX as i128 && i64::MIN as i128 <= neg
            && neg <= i64::MAX as i128 && i64::MIN as i128 <= new_stop && new_stop <= i64::MAX as i128 {
            RangeIterator::Fixed(PyRangeIterator { index: 0, start: start as i64, step: neg as i64, length: n })
        } else {
            RangeIterator::Long(PyLongRangeIterator { index: 0, start, step: neg, length: n })
        };
        proof {
            let rev = self@.reverse();
            assert forall|k: int| 0 <= k < n implies #[trigger] r.remaining()[k] == rev[k] by {
                assert(start + neg * k == self.start + self.step * (n - 1 - k)) by (nonlinear_arith)
                    requires start == self.start - self.step + n * self.step, neg == -self.step;
            }
            if n > 0 {
                assert(start + neg * (n - 1) == self.start) by (nonlinear_arith)
                    requires start == self.start - self.step + n * self.step, neg == -self.step;
            }
            assert(r.remaining() =~= rev);
        }
        r
    }

    /// The range of the `n` items at positions `p, p + q, ...`. Its stop lies
    /// one unit past the last of them, a stop that fits whenever one can;
    /// an empty selection starts and stops where the first position would
    /// be (at `start` if that does not fit), and a single item keeps the step
    /// `q * step` only if it fits. Refused when the step of two or more items,
    /// or the stop, leaves 64 bits.
    pub open spec fn select(&self, p: int, q: int, n: int) -> Result<PyRange, RangeError> {
        let x = self.start + p * self.step;
        let z = q * self.step;
        let sgn: int = if (q > 0) == (self.step > 0) { 1 } else { -1 };
        let step2: int = if fits_i64(z) { z } else { sgn };
        if n <= 0 {
            let x2: int = if fits_i64(x) { x } else { self.start as int };
            Ok(PyRange { start: x2 as i64, stop: x2 as i64, step: step2 as i64 })
        } else if n >= 2 && !fits_i64(z) {
            Err(RangeError::Overflow)
        } else {
            let last = self.start + self.step * (p + q * (n - 1));
            if fits_i64(last + sgn) {
                Ok(PyRange { start: x as i64, stop: (last + sgn) as i64, step: step2 as i64 })
            } else {
                Err(RangeError::Overflow)
            }
        }
    }

    /// What subscripting by a slice gives: the range over the selected
    /// positions, or why there is none.
    pub open spec fn slice_spec(&self, s: SliceArgs) -> Result<PyRange, RangeError> {
        if slice_step_is_zero(s) {
            Err(RangeError::ZeroStep)
        } else {
            let (a, b, c) = slice_indices(s, self.len_spec());
            self.select(a, c, count_steps(a, b, c))
        }
    }

    /// The item at a position, or the sub-range a slice selects.
    pub fn __getitem__(&self, subscript: RangeIndex) -> (r: Result<RangeItem, RangeError>)
        requires
            self.wf(),
        ensures
            subscript matches RangeIndex::Int(index) ==> ({
                let i = if index < 0 { self@.len() + index } else { index as int };
                &&& (0 <= i < self@.len()) <==> r is Ok
                &&& r matches Ok(item) ==> item == RangeItem::Int(self@[i] as i64)
                &&& r matches Err(e) ==> e == RangeError::IndexOutOfRange
            }),
            subscript matches RangeIndex::Slice(s) ==> match self.slice_spec(s) {
                Ok(g) => r == Ok::<RangeItem, RangeError>(RangeItem::Range(g)),
                Err(e) => r == Err::<RangeItem, RangeError>(e),
            },
    {
        match subscript {
            RangeIndex::Int(index) => match self.get(index) {
                Some(v) => Ok(RangeItem::Int(v)),
                None => Err(RangeError::IndexOutOfRange),
            },
            RangeIndex::Slice(s) => {
                let n = self.compute_length();
                proof { self.lemma_len_bounds(); }
                match s.indices(n) {
                    None => Err(RangeError::ZeroStep),
                    Some((a, b, c)) => {
                        let cnt = slice_length(a, b, c);
                        proof { lemma_count_at_most_len(s, n as int); }
                        let st = self.step as i128;
                        proof {
                            let (s0, ai) = (st as int, a as int);
                            assert(-0x7fff_ffff_ffff_ffff_8000_0000_0000_0000 <= ai * s0 < 0x7fff_ffff_ffff_ffff_0000_0000_0000_0000) by (nonlinear_arith)
                                requires -0x8000_0000_0000_0000 <= s0 < 0x8000_0000_0000_0000, -1 <= ai <= 0xffff_ffff_ffff_ffff;
                        }
                        let sgn: i128 = if (c > 0) == (st > 0) { 1 } else { -1 };
                        let z_fits: bool;
                        let z: i128;
                        if c > -0x1_0000_0000_0000_0000 && c < 0x1_0000_0000_0000_0000 {
                            proof {
                                let (ci, s0) = (c as int, st as int);
                                assert(-0x8000_0000_0000_0000_0000_0000_0000_0000 < ci * s0 < 0x7fff_ffff_ffff_ffff_ffff_ffff_ffff_ffff) by (nonlinear_arith)
                                    requires -0x8000_0000_0000_0000 <= s0 < 0x8000_0000_0000_0000, -0x1_0000_0000_0000_0000 < ci < 0x1_0000_0000_0000_0000;
                            }
                            z = c * st;
                            z_fits = i64::MIN as i128 <= z && z <= i64::MAX as i128;
                        } else {
                            proof {
                                let (ci, s0) = (c as int, st as int);
                                assert(!fits_i64(ci * s0)) by (nonlinear_arith)
                                    requires s0 != 0, ci >= 0x1_0000_0000_0000_0000 || ci <= -0x1_0000_0000_0000_0000;
                            }
                            z = 0;
                            z_fits = false;
                        }
                        let step2: i128 = if z_fits { z } else { sgn };
                        let x = self.start as i128 + a * st;
                        if cnt == 0 {
                            let x2: i128 = if i64::MIN as i128 <= x && x <= i64::MAX as i128 { x } else { self.start as i128 };
                            return Ok(RangeItem::Range(PyRange { start: x2 as i64, stop: x2 as i64, step: step2 as i64 }));
                        }
                        if cnt >= 2 && !z_fits {
                            return Err(RangeError::Overflow);
                        }
                        proof {
                            lemma_selected_in_bounds(s, n as int, (cnt - 1) as int);
                            lemma_selected_in_bounds(s, n as int, 0);
                        }
                        let pos = a + c * ((cnt - 1) as i128);
                        proof {
                            self.lemma_item_bounds(pos as int);
                            self.lemma_item_bounds(a as int);
                            let (s0, pi) = (st as int, pos as int);
                            assert(-0x7fff_ffff_ffff_ffff_8000_0000_0000_0000 <= s0 * pi < 0x7fff_ffff_ffff_ffff_0000_0000_0000_0000) by (nonlinear_arith)
                                requires -0x8000_0000_0000_0000 <= s0 < 0x8000_0000_0000_0000, 0 <= pi <= 0xffff_ffff_ffff_ffff;
                        }
                        let last = self.start as i128 + st * pos;
                        let stop2 = last + sgn;
                        if stop2 < i64::MIN as i128 || stop2 > i64::MAX as i128 {
                            Err(RangeError::Overflow)
                        } else {
                            Ok(RangeItem::Range(PyRange { start: x as i64, stop: stop2 as i64, step: step2 as i64 }))
                        }
                    }
                }
            }
        }
    }
}

/// Iterating a range hands out exactly its items, as many as its length.
pub proof fn lemma_iteration_count(r: PyRange)
    requires
        r.wf(),
    ensures
        r.iterator_spec().remaining() == r@,
        r.iterator_spec().remaining().len() == r.len_spec(),
{
    r.lemma_len_bounds();
    assert(r.iterator_spec().remaining() =~= r@);
}

/// Two ranges are equal exactly when they hold the same items in the same
/// order; the stop plays no part beyond that.
pub proof fn lemma_eq_iff_same_items(a: PyRange, b: PyRange)
    requires
        a.wf(),
        b.wf(),
    ensures
        a.same_items(&b) <==> a@ == b@,
{
    lemma_count_steps(a.start as int, a.stop as int, a.step as int, 0);
    lemma_count_steps(b.start as int, b.stop as int, b.step as int, 0);
    if a.same_items(&b) {
        assert forall|k: int| 0 <= k < a@.len() implies a@[k] == b@[k] by {
            if a.len_spec() == 1 {
                assert(k == 0);
            }
        }
        assert(a@ =~= b@);
    }
    if a@ == b@ {
        assert(a@.len() == b@.len());
        if a.len_spec() >= 1 {
            assert(a@[0] == b@[0]);
        }
        if a.len_spec() >= 2 {
            assert(a@[1] == b@[1]);
        }
    }
}

/// Equal ranges have equal hash keys, and equal hash keys mean equal ranges:
/// length zero ranges all agree, length one ranges agree on the start, longer
/// ones on start and step.
pub proof fn lemma_hash_key_iff_eq(a: PyRange, b: PyRange)
    requires
        a.wf(),
        b.wf(),
    ensures
        a.same_items(&b) <==> a.hash_key_spec() == b.hash_key_spec(),
        a.len_spec() == 0 && b.len_spec() == 0 ==> a.same_items(&b),
        a.len_spec() == 1 && b.len_spec() == 1 ==> (a.same_items(&b) <==> a.start == b.start),
        a.len_spec() > 1 && b.len_spec() > 1 ==> (a.same_items(&b) <==> a.len_spec() == b.len_spec()
            && a.start == b.start && a.step == b.step),
{
}

/// The range that `select` builds holds exactly the items at the selected
/// positions, when all of them lie inside the range.
pub proof fn lemma_select_items(r: PyRange, p: int, q: int, n: int)
    requires
        r.wf(),
        q != 0,
        n >= 0,
        forall|k: int| 0 <= k < n ==> 0 <= #[trigger] (p + q * k) < r.len_spec(),
        r.select(p, q, n) is Ok,
    ensures
        ({
            let g = r.select(p, q, n)->Ok_0;
            &&& g.wf()
            &&& g.len_spec() == n
            &&& g@ == Seq::new(n as nat, |k: int| r@[p + q * k])
            &&& n >= 1 ==> g.start == r@[p]
        }),
{
    let g = r.select(p, q, n)->Ok_0;
    let st = r.step as int;
    let z = q * st;
    lemma_sign_of_product(q, st);
    if n == 0 {
        assert(g@ =~= Seq::new(n as nat, |k: int| r@[p + q * k]));
    } else {
        assert(0 <= p + q * 0 < r.len_spec());
        assert(p + q * 0 == p);
        r.lemma_item_bounds(p);
        let x = r.start + p * st;
        assert(x == r.item(p)) by (nonlinear_arith)
            requires x == r.start + p * st, r.item(p) == r.start + st * p;
        if n >= 2 {
            lemma_count_exact(x, z, n);
            assert(x + z * (n - 1) == r.start + st * (p + q * (n - 1))) by (nonlinear_arith)
                requires x == r.start + p * st, z == q * st;
        } else {
            lemma_count_exact(x, g.step as int, 1);
        }
        assert forall|k: int| 0 <= k < n implies #[trigger] g@[k] == r@[p + q * k] by {
            assert(0 <= p + q * k < r.len_spec());
            if n >= 2 {
                assert(x + z * k == r.start + st * (p + q * k)) by (nonlinear_arith)
                    requires x == r.start + p * st, z == q * st;
            } else {
                assert(k == 0);
            }
        }
        assert(g@ =~= Seq::new(n as nat, |k: int| r@[p + q * k]));
    }
}

/// A slice of a range is the range over the selected positions: its items are
/// the sliced range's items at positions `a, a + c, ...` (which all lie inside
/// it: see `lemma_selected_in_bounds`).
pub proof fn lemma_slice_items(r: PyRange, s: SliceArgs)
    requires
        r.wf(),
        r.slice_spec(s) is Ok,
    ensures
        ({
            let (a, b, c) = slice_indices(s, r.len_spec());
            let g = r.slice_spec(s)->Ok_0;
            &&& g.wf()
            &&& g.len_spec() == count_steps(a, b, c)
            &&& g@ == Seq::new(count_steps(a, b, c) as nat, |k: int| r@[a + c * k])
        }),
{
    let (a, b, c) = slice_indices(s, r.len_spec());
    lemma_count_steps(r.start as int, r.stop as int, r.step as int, 0);
    lemma_count_steps(a, b, c, 0);
    assert forall|k: int| 0 <= k < count_steps(a, b, c) implies 0 <= #[trigger] (a + c * k) < r.len_spec() by {
        lemma_selected_in_bounds(s, r.len_spec(), k);
    }
    lemma_select_items(r, a, c, count_steps(a, b, c));
}

/// Slicing with the whole span always succeeds and gives a range equal to
/// the one sliced.
pub proof fn lemma_full_slice(r: PyRange)
    requires
        r.wf(),
    ensures
        r.slice_spec(SliceArgs { start: None, stop: None, step: None }) matches Ok(g)
            && g.wf() && g.same_items(&r),
{
    let s = SliceArgs { start: None, stop: None, step: None };
    let l = r.len_spec();
    lemma_count_steps(r.start as int, r.stop as int, r.step as int, 0);
    assert(slice_indices(s, l) == (0int, l, 1int));
    assert(count_steps(0, l, 1) == l);
    assert(1 * r.step == r.step);
    if l >= 1 {
        r.lemma_item_bounds(l - 1);
        assert(0 + 1 * (l - 1) == l - 1);
    }
    lemma_slice_items(r, s);
    let g = r.slice_spec(s)->Ok_0;
    assert(g@ =~= r@);
    lemma_eq_iff_same_items(g, r);
}

/// Slicing a slice is slicing the first range once with the composed
/// positions (start `a1 + c1 * a2`, step `c1 * c2`, as many items as the
/// second slice selects): that selection succeeds too and gives an equal
/// range, with the same items.
pub proof fn lemma_slice_of_slice(r: PyRange, s1: SliceArgs, s2: SliceArgs)
    requires
        r.wf(),
        r.slice_spec(s1) is Ok,
        r.slice_spec(s1)->Ok_0.slice_spec(s2) is Ok,
    ensures
        ({
            let g1 = r.slice_spec(s1)->Ok_0;
            let g2 = g1.slice_spec(s2)->Ok_0;
            let (a1, b1, c1) = slice_indices(s1, r.len_spec());
            let (a2, b2, c2) = slice_indices(s2, g1.len_spec());
            let n2 = count_steps(a2, b2, c2);
            &&& r.select(a1 + c1 * a2, c1 * c2, n2) matches Ok(g3) && g3.wf() && g3.same_items(&g2)
            &&& g2@ == Seq::new(n2 as nat, |k: int| r@[a1 + c1 * (a2 + c2 * k)])
        }),
{
    let g1 = r.slice_spec(s1)->Ok_0;
    let g2 = g1.slice_spec(s2)->Ok_0;
    let (a1, b1, c1) = slice_indices(s1, r.len_spec());
    let (a2, b2, c2) = slice_indices(s2, g1.len_spec());
    let n1 = count_steps(a1, b1, c1);
    let n2 = count_steps(a2, b2, c2);
    let st = r.step as int;
    lemma_slice_items(r, s1);
    lemma_slice_items(g1, s2);
    lemma_count_steps(a2, b2, c2, 0);
    lemma_count_at_most_len(s2, n1);
    let p3 = a1 + c1 * a2;
    let q3 = c1 * c2;
    lemma_sign_of_product(c1, c2);
    lemma_sign_of_product(c1, st);
    lemma_sign_of_product(q3, st);
    assert forall|k: int| 0 <= k < n2 implies
        0 <= #[trigger] (p3 + q3 * k) < r.len_spec() && p3 + q3 * k == a1 + c1 * (a2 + c2 * k) by {
        lemma_selected_in_bounds(s2, n1, k);
        lemma_selected_in_bounds(s1, r.len_spec(), a2 + c2 * k);
        assert(p3 + q3 * k == a1 + c1 * (a2 + c2 * k)) by (nonlinear_arith)
            requires p3 == a1 + c1 * a2, q3 == c1 * c2;
    }
    if n2 >= 1 {
        let j = a2 + c2 * (n2 - 1);
        lemma_selected_in_bounds(s2, n1, n2 - 1);
        assert(0 <= p3 + q3 * (n2 - 1) < r.len_spec());
        // g1's step has the sign of c1 * step, and two or more items keep it exactly
        assert(g1.step > 0 <==> (c1 > 0) == (st > 0));
        if n2 >= 2 {
            assert(g1.step == c1 * st);
            assert(c2 * (c1 * st) == q3 * st) by (nonlinear_arith) requires q3 == c1 * c2;
        }
        // the last selected item, seen from g1 and from r
        assert(g1.start + g1.step * (a2 + c2 * (n2 - 1)) == g1@[j]);
        assert(g1@[j] == r@[a1 + c1 * j]);
        assert(r.start + st * (p3 + q3 * (n2 - 1)) == r@[a1 + c1 * j]) by {
            assert(p3 + q3 * (n2 - 1) == a1 + c1 * j) by (nonlinear_arith)
                requires p3 == a1 + c1 * a2, q3 == c1 * c2, j == a2 + c2 * (n2 - 1);
        }
    }
    lemma_select_items(r, p3, q3, n2);
    let g3 = r.select(p3, q3, n2)->Ok_0;
    assert forall|k: int| 0 <= k < n2 implies #[trigger] g2@[k] == r@[a1 + c1 * (a2 + c2 * k)] by {
        lemma_selected_in_bounds(s2, n1, k);
        assert(g2@[k] == g1@[a2 + c2 * k]);
    }
    assert(g2@ =~= Seq::new(n2 as nat, |k: int| r@[a1 + c1 * (a2 + c2 * k)]));
    assert(g3@ =~= g2@);
    lemma_eq_iff_same_items(g3, g2);
}

/// What a linear search over a range's items reports.
#[derive(Clone, Copy, Debug, PartialEq, Eq)]
pub enum SearchType {
    Count,
    Contains,
    Index,
}

/// How many items of `s` equal `v`.
pub open spec fn occurrences(s: Seq<int>, v: int) -> nat
    decreases s.len(),
{
    if s.len() == 0 {
        0
    } else {
        occurrences(s.drop_last(), v) + if s.last() == v { 1nat } else { 0nat }
    }
}

/// Searches the items one by one, as a caller does when the probe is not a
/// plain integer: `Count` counts matches, `Contains` gives one or zero, `Index`
/// gives the first matching position or `NotInRange`.
pub fn iter_search(r: &PyRange, item: i64, flag: SearchType) -> (res: Result<u64, RangeError>)
    requires
        r.wf(),
    ensures
        flag == SearchType::Count ==> res == Ok::<u64, RangeError>(occurrences(r@, item as int) as u64),
        flag == SearchType::Contains ==> res == Ok::<u64, RangeError>(if r@.contains(item as int) { 1u64 } else { 0u64 }),
        flag == SearchType::Index ==> (res is Err <==> !r@.contains(item as int)),
        flag == SearchType::Index ==> (res matches Ok(k) ==> k < r@.len() && r@[k as int] == item
            && forall|j: int| 0 <= j < k ==> r@[j] != item),
        flag == SearchType::Index ==> (res matches Err(e) ==> e == RangeError::NotInRange),
{
    proof { r.lemma_len_bounds(); }
    let mut it = r.iter();
    let mut count: u64 = 0;
    let mut pos: u64 = 0;
    loop
        invariant
            it.wf(),
            pos <= r@.len(),
            r@.len() <= u64::MAX,
            it.remaining() == r@.subrange(pos as int, r@.len() as int),
            count == occurrences(r@.subrange(0, pos as int), item as int),
            count <= pos,
            flag != SearchType::Count ==> count == 0,
        ensures
            pos == r@.len(),
            count == occurrences(r@, item as int),
            flag != SearchType::Count ==> count == 0,
        decreases r@.len() - pos,
    {
        let ghost before = r@.subrange(0, pos as int);
        match it.next() {
            None => {
                proof {
                    assert(r@.subrange(0, pos as int) =~= r@);
                }
                break;
            }
            Some(v) => {
                proof {
                    assert(pos < r@.len());
                    assert(r@.subrange(0, pos + 1) =~= before.push(v as int));
                    assert(r@.subrange(0, pos + 1).drop_last() =~= before);
                    assert(it.remaining() =~= r@.subrange(pos + 1, r@.len() as int));
                }
                if v == item {
                    match flag {
                        SearchType::Index => {
                            proof {
                                assert forall|j: int| 0 <= j < pos implies r@[j] != item by {
                                    lemma_occurrences_zero(before, item as int, j);
                                }
                                assert(r@[pos as int] == item);
                            }
                            return Ok(pos);
                        }
                        SearchType::Contains => {
                            proof { assert(r@[pos as int] == item); }
                            return Ok(1);
                        }
                        SearchType::Count => {
                            count = count + 1;
                        }
                    }
                }
                pos = pos + 1;
            }
        }
    }
    match flag {
        SearchType::Count => Ok(count),
        SearchType::Contains => {
            proof { lemma_occurrences_zero_contains(r@, item as int); }
            Ok(0)
        }
        SearchType::Index => {
            proof { lemma_occurrences_zero_contains(r@, item as int); }
            Err(RangeError::NotInRange)
        }
    }
}

proof fn lemma_occurrences_zero(s: Seq<int>, v: int, j: int)
    requires
        occurrences(s, v) == 0,
        0 <= j < s.len(),
    ensures
        s[j] != v,
    decreases s.len(),
{
    assert(occurrences(s.drop_last(), v) == 0);
    if j < s.len() - 1 {
        lemma_occurrences_zero(s.drop_last(), v, j);
        assert(s.drop_last()[j] == s[j]);
    }
}

proof fn lemma_occurrences_zero_contains(s: Seq<int>, v: int)
    requires
        occurrences(s, v) == 0,
    ensures
        !s.contains(v),
{
    if s.contains(v) {
        let j = choose|j: int| 0 <= j < s.len() && s[j] == v;
        lemma_occurrences_zero(s, v, j);
    }
}

/// The methods the range class installs, in install order.
pub open spec fn range_method_names() -> Seq<Seq<char>> {
    seq!["__reversed__"@, "__len__"@, "__bool__"@, "__reduce__"@, "__getitem__"@, "__contains__"@, "index"@, "count"@]
}

/// Its read-only properties.
pub open spec fn range_property_names() -> Seq<Seq<char>> {
    seq!["start"@, "stop"@, "step"@]
}

/// Its slots, in the order they are written.
pub open spec fn range_slots() -> Seq<SlotId> {
    seq![SlotId::New, SlotId::Hash, SlotId::RichCompare, SlotId::Iter, SlotId::Repr, SlotId::AsMapping, SlotId::AsSequence]
}

/// The function written to each of those slots.
pub open spec fn range_slot_functions() -> Seq<Seq<char>> {
    seq!["slot_new"@, "hash"@, "cmp"@, "iter"@, "repr_str"@, "as_mapping"@, "as_sequence"@]
}

/// Registers what the range class installs (its methods, its three read-only
/// properties and its slots), validates and renders it. It always succeeds.
pub fn init() -> (r: Result<ClassInstall, Vec<RegistryError>>)
    ensures
        r matches Ok(c) && ({
            &&& c.attributes@.len() == 8
            &&& forall|k: int| 0 <= k < 8 ==> (#[trigger] c.attributes@[k])@ == range_method_names()[k]
            &&& c.getsets@.len() == 3
            &&& forall|k: int| 0 <= k < 3 ==> (#[trigger] c.getsets@[k]).name@ == range_property_names()[k]
                && c.getsets@[k].getter@ == range_property_names()[k]
                && c.getsets@[k].setter is None && c.getsets@[k].deleter is None
            &&& c.slots@.len() == 7
            &&& forall|k: int| 0 <= k < 7 ==> (#[trigger] c.slots@[k]).0 == range_slots()[k]
                && c.slots@[k].1@ == range_slot_functions()[k]
            &&& c.members@.len() == 0 && c.extensions@.len() == 0
        }),
{
    let mut reg = ClassRegistry::new();
    let names: [&str; 8] = ["__reversed__", "__len__", "__bool__", "__reduce__", "__getitem__", "__contains__",
        "index", "count"];
    proof {
        reveal_strlit("__reversed__");
        reveal_strlit("__len__");
        reveal_strlit("__bool__");
        reveal_strlit("__reduce__");
        reveal_strlit("__getitem__");
        reveal_strlit("__contains__");
        reveal_strlit("index");
        reveal_strlit("count");
        assert(names@ =~= seq!["__reversed__", "__len__", "__bool__", "__reduce__", "__getitem__", "__contains__",
            "index", "count"]);
        assert forall|j: int, k: int| 0 <= j < k < 8 implies (#[trigger] names@[j])@ != (#[trigger] names@[k])@ by {
            if j == 0 { assert(names@[j]@[2] != names@[k]@[2] || names@[j]@.len() != names@[k]@.len()); }
            else if j == 1 { assert(names@[j]@.len() != names@[k]@.len() || names@[j]@[2] != names@[k]@[2]); }
            else if j == 2 { assert(names@[j]@.len() != names@[k]@.len() || names@[j]@[2] != names@[k]@[2]); }
            else if j == 3 { assert(names@[j]@.len() != names@[k]@.len() || names@[j]@[2] != names@[k]@[2]); }
            else if j == 4 { assert(names@[j]@.len() != names@[k]@.len() || names@[j]@[2] != names@[k]@[2]); }
            else if j == 5 { assert(names@[j]@.len() != names@[k]@.len() || names@[j]@[2] != names@[k]@[2]); }
            else { assert(names@[j]@[0] != names@[k]@[0]); }
        }
    }
    let mut i: usize = 0;
    while i < 8
        invariant
            reg.wf(),
            i <= 8,
            forall|j: int, k: int| 0 <= j < k < 8 ==> (#[trigger] names@[j])@ != (#[trigger] names@[k])@,
            reg.attributes@.len() == i,
            forall|j: int| 0 <= j < i ==> ((#[trigger] reg.attributes@[j]).name matches crate::registry::ItemName::Attr(s)
                && s@ == names@[j]@),
            forall|j: int| 0 <= j < i ==> (#[trigger] reg.attributes@[j]).code@ == names@[j]@
                && reg.attributes@[j].priority == crate::registry::METHOD_PRIORITY,
            forall|j: int| 0 <= j < 8 ==> (#[trigger] names@[j])@ == range_method_names()[j],
            reg.slots@.len() == 0 && reg.extensions@.len() == 0,
            reg.getsets@.entries.len() == 0 && !reg.getsets@.validated,
            reg.members@.entries.len() == 0 && !reg.members@.validated,
        decreases 8 - i,
    {
        let name = names[i].to_owned();
        let code = names[i].to_owned();
        proof {
            assert(forall|j: int| 0 <= j < i ==> names@[j]@ != names@[i as int]@);
        }
        let res = reg.add_method(name, Vec::new(), code);
        if let Err(e) = res {
            let mut errs = Vec::new();
            errs.push(e);
            return Err(errs);
        }
        i = i + 1;
    }
    let ghost attrs = reg.attributes@;
    let props: [&str; 3] = ["start", "stop", "step"];
    proof {
        reveal_strlit("start");
        reveal_strlit("stop");
        reveal_strlit("step");
        assert(props@ =~= seq!["start", "stop", "step"]);
        assert forall|j: int, k: int| 0 <= j < k < 3 implies (#[trigger] props@[j])@ != (#[trigger] props@[k])@ by {
            assert(props@[j]@.len() != props@[k]@.len() || props@[j]@[2] != props@[k]@[2]);
        }
    }
    let mut i: usize = 0;
    while i < 3
        invariant
            reg.wf(),
            i <= 3,
            forall|j: int, k: int| 0 <= j < k < 3 ==> (#[trigger] props@[j])@ != (#[trigger] props@[k])@,
            reg.getsets@.entries.len() == i,
            forall|j: int| 0 <= j < i ==> (#[trigger] reg.getsets@.entries[j]).name@ == props@[j]@
                && (reg.getsets@.entries[j].getter matches Some(g) && g@ == props@[j]@)
                && reg.getsets@.entries[j].setter is None && reg.getsets@.entries[j].deleter is None,
            forall|j: int| 0 <= j < 3 ==> (#[trigger] props@[j])@ == range_property_names()[j],
            !reg.getsets@.validated,
            reg.attributes@ == attrs,
            reg.slots@.len() == 0 && reg.extensions@.len() == 0,
            reg.members@.entries.len() == 0 && !reg.members@.validated,
        decreases 3 - i,
    {
        let ghost before = reg.getsets@.entries;
        let g: Vec<String> = Vec::new();
        let name = props[i].to_owned();
        proof {
            assert forall|j: int| 0 <= j < before.len() implies !crate::registry::getset_has_key(#[trigger] before[j], name@, g@) by {
                assert(props@[j]@ != props@[i as int]@);
            }
        }
        let func = props[i].to_owned();
        let res = reg.getsets.add_item(name, g, GetSetItemKind::Getter, func);
        if let Err(e) = res {
            let mut errs = Vec::new();
            errs.push(e);
            return Err(errs);
        }
        proof {
            assert forall|j: int| 0 <= j < i + 1 implies (#[trigger] reg.getsets@.entries[j]).name@ == props@[j]@
                && (reg.getsets@.entries[j].getter matches Some(g) && g@ == props@[j]@)
                && reg.getsets@.entries[j].setter is None && reg.getsets@.entries[j].deleter is None by {
                if j < i {
                    assert(reg.getsets@.entries.drop_last()[j] == before[j]);
                } else {
                    assert(crate::registry::getset_slot(reg.getsets@.entries.last(), GetSetItemKind::Setter) is None);
                    assert(crate::registry::getset_slot(reg.getsets@.entries.last(), GetSetItemKind::Deleter) is None);
                }
            }
        }
        i = i + 1;
    }
    let slots: [SlotId; 7] = [SlotId::New, SlotId::Hash, SlotId::RichCompare, SlotId::Iter, SlotId::Repr,
        SlotId::AsMapping, SlotId::AsSequence];
    let funcs: [&str; 7] = ["slot_new", "hash", "cmp", "iter", "repr_str", "as_mapping", "as_sequence"];
    assert(forall|j: int, k: int| 0 <= j < k < 7 ==> #[trigger] slots@[j] != #[trigger] slots@[k]);
    assert(slots@ =~= range_slots());
    assert(funcs@ =~= seq!["slot_new", "hash", "cmp", "iter", "repr_str", "as_mapping", "as_sequence"]);
    let ghost props_entries = reg.getsets@.entries;
    proof { crate::registry::lemma_getset_none_missing(reg.getsets@.entries); }
    let mut i: usize = 0;
    while i < 7
        invariant
            reg.wf(),
            i <= 7,
            forall|j: int, k: int| 0 <= j < k < 7 ==> #[trigger] slots@[j] != #[trigger] slots@[k],
            reg.slots@.len() == i,
            forall|j: int| 0 <= j < i ==> (#[trigger] reg.slots@[j]).name == crate::registry::ItemName::Slot(slots@[j])
                && reg.slots@[j].code@ == funcs@[j]@ && reg.slots@[j].priority == crate::registry::SLOT_PRIORITY,
            slots@ == range_slots(),
            forall|j: int| 0 <= j < 7 ==> (#[trigger] funcs@[j])@ == range_slot_functions()[j],
            reg.attributes@ == attrs,
            reg.getsets@.entries == props_entries,
            reg.extensions@.len() == 0,
            forall|j: int| 0 <= j < 3 ==> (#[trigger] props_entries[j]).name@ == range_property_names()[j]
                && (props_entries[j].getter matches Some(g) && g@ == range_property_names()[j])
                && props_entries[j].setter is None && props_entries[j].deleter is None,
            forall|j: int| 0 <= j < 8 ==> (#[trigger] attrs[j]).code@ == range_method_names()[j]
                && attrs[j].priority == crate::registry::METHOD_PRIORITY,
            attrs.len() == 8,
            reg.getsets@.entries.len() == 3 && crate::registry::getset_missing(reg.getsets@.entries).len() == 0,
            !reg.getsets@.validated,
            reg.members@.entries.len() == 0 && !reg.members@.validated,
        decreases 7 - i,
    {
        let res = reg.add_slot(slots[i], Vec::new(), funcs[i].to_owned());
        if let Err(e) = res {
            let mut errs = Vec::new();
            errs.push(e);
            return Err(errs);
        }
        i = i + 1;
    }
    if let Err(e) = reg.validate() {
        return Err(e);
    }
    let c = reg.render();
    proof {
        assert(crate::registry::guard_view(c.extensions@).len() == c.extensions@.len());
        assert(crate::registry::guard_view(reg.extensions@).len() == reg.extensions@.len());
        crate::registry::lemma_install_order_uniform(reg.attributes@, crate::registry::METHOD_PRIORITY);
        crate::registry::lemma_install_order_uniform(reg.slots@, crate::registry::SLOT_PRIORITY);
        assert forall|k: int| 0 <= k < 7 implies (#[trigger] c.slots@[k]).0 == range_slots()[k] by {
            assert(crate::registry::ItemName::Slot(c.slots@[k].0) == reg.slots@[k].name);
        }
        assert forall|k: int| 0 <= k < 3 implies (#[trigger] c.getsets@[k]).name@ == range_property_names()[k]
            && c.getsets@[k].getter@ == range_property_names()[k]
            && c.getsets@[k].setter is None && c.getsets@[k].deleter is None by {
            assert(reg.getsets@.entries[k] == props_entries[k]);
            assert(reg.getsets@.entries[k].getter == Some(c.getsets@[k].getter));
        }
    }
    Ok(c)
}

} // verus!
