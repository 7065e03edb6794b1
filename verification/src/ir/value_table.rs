//! The values of a running frame, one slot per node.

use crate::value::Value;
use vstd::prelude::*;

verus! {

/// Values, readiness and remaining readers, each in a list of its own. The
/// readiness of eight slots is packed into one byte.
#[derive(Debug)]
pub struct ValueTable {
    pub values: Vec<Value>,
    pub ready: Vec<u8>,
    pub refcounts: Vec<u16>,
}

/// Bytes that hold a bit for each of `n` slots.
pub open spec fn bytes_for(n: int) -> int {
    (n + 7) / 8
}

/// Bit `k` of a byte.
pub open spec fn bit_of(b: u8, k: u8) -> bool {
    (b >> k) & 1u8 == 1u8
}

/// The bit of slot `i`.
pub open spec fn ready_bit(ready: Seq<u8>, i: int) -> bool {
    bit_of(ready[i / 8], (i % 8) as u8)
}

/// The readers that are left after one has read.
pub open spec fn one_less(readers: u16) -> u16 {
    if readers > 0 {
        (readers - 1) as u16
    } else {
        0
    }
}

/// The readers that are left after `k` have read.
pub open spec fn after_reads(readers: u16, k: nat) -> u16
    decreases k,
{
    if k == 0 {
        readers
    } else {
        one_less(after_reads(readers, (k - 1) as nat))
    }
}

fn mask(k: u8) -> (m: u8)
    requires
        k < 8,
    ensures
        m == 1u8 << k,
{
    1u8 << k
}

proof fn lemma_bits(b: u8, k: u8, j: u8)
    requires
        k < 8,
        j < 8,
    ensures
        (b & (1u8 << k) != 0) == bit_of(b, k),
        bit_of(b | (1u8 << k), j) == (bit_of(b, j) || j == k),
        bit_of(b & !(1u8 << k), j) == (bit_of(b, j) && j != k),
        !bit_of(0u8, j),
{
    assert((b & (1u8 << k) != 0) == ((b >> k) & 1u8 == 1u8)) by (bit_vector)
        requires
            k < 8,
    ;
    assert((((b | (1u8 << k)) >> j) & 1u8 == 1u8) == (((b >> j) & 1u8 == 1u8) || j == k)) by (bit_vector)
        requires
            k < 8,
            j < 8,
    ;
    assert((((b & !(1u8 << k)) >> j) & 1u8 == 1u8) == (((b >> j) & 1u8 == 1u8) && j != k)) by (bit_vector)
        requires
            k < 8,
            j < 8,
    ;
    assert((0u8 >> j) & 1u8 == 0u8) by (bit_vector);
}

impl ValueTable {
    /// The three lists fit together.
    pub open spec fn wf(self) -> bool {
        &&& self.refcounts@.len() == self.values@.len()
        &&& self.ready@.len() == bytes_for(self.values@.len() as int)
    }

    /// Whether slot `i` has its value.
    pub open spec fn is_ready_at(self, i: int) -> bool {
        ready_bit(self.ready@, i)
    }

    /// The slot holds nothing.
    pub open spec fn blank_at(self, i: int) -> bool {
        self.values@[i] == Value::Null && !self.is_ready_at(i) && self.refcounts@[i] == 0
    }

    /// The table has `n` slots that hold nothing, and no bit is set.
    pub open spec fn blank(self, n: int) -> bool {
        &&& self.values@ == Seq::new(n as nat, |i: int| Value::Null)
        &&& self.ready@ == Seq::new(bytes_for(n) as nat, |i: int| 0u8)
        &&& self.refcounts@ == Seq::new(n as nat, |i: int| 0u16)
    }

    /// Slot `i` is the same in both tables.
    pub open spec fn same_at(self, other: ValueTable, i: int) -> bool {
        &&& self.values@[i] == other.values@[i]
        &&& self.is_ready_at(i) == other.is_ready_at(i)
        &&& self.refcounts@[i] == other.refcounts@[i]
    }

    pub fn new() -> (t: Self)
        ensures
            t.wf(),
            t.values@.len() == 0,
    {
        ValueTable { values: Vec::new(), ready: Vec::new(), refcounts: Vec::new() }
    }

    /// A table of `n` slots that hold nothing.
    pub fn with_unready(n: usize) -> (t: Self)
        requires
            n <= usize::MAX - 7,
        ensures
            t.wf(),
            t.blank(n as int),
            t.values@.len() == n,
            forall|i: int| 0 <= i < n ==> #[trigger] t.blank_at(i),
    {
        let mut t = ValueTable::new();
        let bytes: usize = (n + 7) / 8;
        let mut i: usize = 0;
        while i < n
            invariant
                i <= n,
                t.values@ =~= Seq::new(i as nat, |k: int| Value::Null),
                t.refcounts@ =~= Seq::new(i as nat, |k: int| 0u16),
                t.ready@.len() == 0,
            decreases n - i,
        {
            t.values.push(Value::Null);
            t.refcounts.push(0);
            i = i + 1;
        }
        let mut k: usize = 0;
        while k < bytes
            invariant
                k <= bytes,
                t.values@ =~= Seq::new(n as nat, |k: int| Value::Null),
                t.refcounts@ =~= Seq::new(n as nat, |k: int| 0u16),
                t.ready@ =~= Seq::new(k as nat, |k: int| 0u8),
            decreases bytes - k,
        {
            t.ready.push(0);
            k = k + 1;
        }
        proof {
            lemma_blank(t, n as int);
        }
        t
    }

    pub fn len(&self) -> (n: usize)
        ensures
            n == self.values@.len(),
    {
        self.values.len()
    }

    pub fn is_empty(&self) -> (r: bool)
        ensures
            r == (self.values@.len() == 0),
    {
        self.values.len() == 0
    }

    /// Gives the table `n` slots. Those that it had keep what they hold, new
    /// ones hold nothing.
    pub fn resize(&mut self, n: usize)
        requires
            old(self).wf(),
            n <= usize::MAX - 7,
        ensures
            final(self).wf(),
            final(self).values@.len() == n,
            forall|i: int|
                0 <= i < n && i < old(self).values@.len() ==> #[trigger] final(self).same_at(*old(self), i),
            forall|i: int| old(self).values@.len() <= i < n ==> #[trigger] final(self).blank_at(i),
    {
        let before = self.values.len();
        let ghost first = *self;
        let bytes = (n + 7) / 8;
        // The spare bits of the last byte may be left over from a longer table.
        let mut i: usize = before;
        while i < n && i / 8 < self.ready.len()
            invariant
                self.values == first.values,
                self.refcounts == first.refcounts,
                first.wf(),
                self.wf(),
                before == first.values@.len(),
                before <= i,
                self.ready@.len() == first.ready@.len(),
                forall|k: int| 0 <= k < before ==> #[trigger] ready_bit(self.ready@, k) == ready_bit(first.ready@, k),
                forall|k: int| before <= k < i && k < self.ready@.len() * 8 ==> !#[trigger] ready_bit(self.ready@, k),
            decreases self.ready@.len() * 8 - i,
        {
            self.clear_ready(i);
            i = i + 1;
        }
        let mut vs: usize = before;
        if n < before {
            self.values.truncate(n);
            self.refcounts.truncate(n);
            let ghost bits = self.ready@;
            self.ready.truncate(bytes);
            assert forall|k: int| 0 <= k < n implies #[trigger] self.is_ready_at(k) == first.is_ready_at(k) by {
                assert(self.ready@[k / 8] == bits[k / 8]);
                assert(ready_bit(bits, k) == ready_bit(first.ready@, k));
            }
        } else {
            let ghost cleared = *self;
            while vs < n
                invariant
                    before <= vs <= n,
                    self.values@.len() == vs,
                    self.refcounts@.len() == vs,
                    self.ready == cleared.ready,
                    forall|k: int| 0 <= k < before ==> #[trigger] self.values@[k] == first.values@[k],
                    forall|k: int| 0 <= k < before ==> #[trigger] self.refcounts@[k] == first.refcounts@[k],
                    forall|k: int| before <= k < vs ==> #[trigger] self.values@[k] == Value::Null,
                    forall|k: int| before <= k < vs ==> #[trigger] self.refcounts@[k] == 0,
                    before == first.values@.len(),
                decreases n - vs,
            {
                self.values.push(Value::Null);
                self.refcounts.push(0);
                vs = vs + 1;
            }
            let had = self.ready.len();
            let ghost bits = self.ready@;
            while self.ready.len() < bytes
                invariant
                    had <= self.ready@.len(),
                    had <= bytes ==> self.ready@.len() <= bytes,
                    self.values@.len() == n,
                    self.refcounts@.len() == n,
                    forall|k: int| 0 <= k < had ==> #[trigger] self.ready@[k] == bits[k],
                    forall|k: int| had <= k < self.ready@.len() ==> #[trigger] self.ready@[k] == 0,
                    forall|k: int| 0 <= k < before ==> #[trigger] self.values@[k] == first.values@[k],
                    forall|k: int| 0 <= k < before ==> #[trigger] self.refcounts@[k] == first.refcounts@[k],
                    forall|k: int| before <= k < n ==> #[trigger] self.values@[k] == Value::Null,
                    forall|k: int| before <= k < n ==> #[trigger] self.refcounts@[k] == 0,
                decreases bytes - self.ready@.len(),
            {
                self.ready.push(0);
            }
            proof {
                assert forall|k: int| before <= k < n implies !#[trigger] self.is_ready_at(k) by {
                    if k < had * 8 {
                        assert(self.ready@[k / 8] == bits[k / 8]);
                        assert(!ready_bit(cleared.ready@, k));
                    } else {
                        assert(self.ready@[k / 8] == 0);
                        lemma_bits(0, 0, (k % 8) as u8);
                    }
                }
                assert forall|k: int| 0 <= k < before implies self.is_ready_at(k) == first.is_ready_at(k) by {
                    assert(self.ready@[k / 8] == bits[k / 8]);
                    assert(ready_bit(cleared.ready@, k) == ready_bit(first.ready@, k));
                }
            }
        }
    }

    /// Whether slot `idx` has its value.
    pub fn is_ready(&self, idx: usize) -> (r: bool)
        requires
            idx / 8 < self.ready@.len(),
        ensures
            r == self.is_ready_at(idx as int),
    {
        let k = (idx % 8) as u8;
        proof {
            lemma_bits(self.ready@[idx as int / 8], k, k);
        }
        self.ready[idx / 8] & mask(k) != 0
    }

    /// Marks slot `idx` as having its value.
    pub fn set_ready(&mut self, idx: usize)
        requires
            idx / 8 < old(self).ready@.len(),
        ensures
            final(self).values == old(self).values,
            final(self).refcounts == old(self).refcounts,
            final(self).ready@.len() == old(self).ready@.len(),
            forall|i: int|
                0 <= i < old(self).ready@.len() * 8 ==> #[trigger] ready_bit(final(self).ready@, i) == (ready_bit(
                    old(self).ready@,
                    i,
                ) || i == idx),
    {
        let k = (idx % 8) as u8;
        let b = self.ready[idx / 8];
        self.ready.set(idx / 8, b | mask(k));
        proof {
            assert forall|i: int| 0 <= i < self.ready@.len() * 8 implies #[trigger] ready_bit(self.ready@, i) == (ready_bit(
                old(self).ready@,
                i,
            ) || i == idx) by {
                lemma_bits(b, k, (i % 8) as u8);
                if i / 8 == idx as int / 8 {
                    assert((i % 8 == k) == (i == idx));
                }
            }
        }
    }

    /// Marks slot `idx` as having no value.
    pub fn clear_ready(&mut self, idx: usize)
        requires
            idx / 8 < old(self).ready@.len(),
        ensures
            final(self).values == old(self).values,
            final(self).refcounts == old(self).refcounts,
            final(self).ready@.len() == old(self).ready@.len(),
            forall|i: int|
                0 <= i < old(self).ready@.len() * 8 ==> #[trigger] ready_bit(final(self).ready@, i) == (ready_bit(
                    old(self).ready@,
                    i,
                ) && i != idx),
    {
        let k = (idx % 8) as u8;
        let b = self.ready[idx / 8];
        self.ready.set(idx / 8, b & !mask(k));
        proof {
            assert forall|i: int| 0 <= i < self.ready@.len() * 8 implies #[trigger] ready_bit(self.ready@, i) == (ready_bit(
                old(self).ready@,
                i,
            ) && i != idx) by {
                lemma_bits(b, k, (i % 8) as u8);
                if i / 8 == idx as int / 8 {
                    assert((i % 8 == k) == (i == idx));
                }
            }
        }
    }

    /// Puts a value into slot `idx`, for that many readers.
    pub fn set_value(&mut self, idx: usize, value: Value, consumer_count: u16)
        requires
            old(self).wf(),
            idx < old(self).values@.len(),
        ensures
            final(self).wf(),
            final(self).values@ == old(self).values@.update(idx as int, value),
            final(self).refcounts@ == old(self).refcounts@.update(idx as int, consumer_count),
            final(self).is_ready_at(idx as int),
            forall|i: int|
                0 <= i < old(self).values@.len() && i != idx ==> #[trigger] final(self).same_at(*old(self), i),
    {
        self.values.set(idx, value);
        self.set_ready(idx);
        self.refcounts.set(idx, consumer_count);
    }

    /// The value of slot `idx`.
    pub fn get_value(&self, idx: usize) -> (v: Value)
        requires
            idx < self.values@.len(),
        ensures
            v == self.values@[idx as int],
    {
        self.values[idx].clone()
    }

    /// The value of slot `idx`, to be changed in place.
    pub fn get_value_mut(&mut self, idx: usize) -> (r: Option<&mut Value>)
        ensures
            match r {
                Some(v) => {
                    &&& idx < old(self).values@.len()
                    &&& *v == old(self).values@[idx as int]
                    &&& final(self).values@ == old(self).values@.update(idx as int, *final(v))
                    &&& final(self).ready == old(self).ready
                    &&& final(self).refcounts == old(self).refcounts
                },
                None => idx >= old(self).values@.len() && *final(self) == *old(self),
            },
    {
        if idx < self.values.len() {
            Some(&mut self.values[idx])
        } else {
            None
        }
    }

    /// Counts one reader of slot `idx` off; tells whether others are left.
    pub fn consume(&mut self, idx: usize) -> (left: bool)
        requires
            old(self).wf(),
            idx < old(self).values@.len(),
        ensures
            final(self).wf(),
            final(self).values == old(self).values,
            final(self).ready == old(self).ready,
            final(self).refcounts@ == old(self).refcounts@.update(
                idx as int,
                one_less(old(self).refcounts@[idx as int]),
            ),
            left == (final(self).refcounts@[idx as int] > 0),
    {
        if self.refcounts[idx] > 0 {
            let n = self.refcounts[idx];
            self.refcounts.set(idx, n - 1);
        }
        assert(self.refcounts@ =~= old(self).refcounts@.update(idx as int, self.refcounts@[idx as int]));
        self.refcounts[idx] > 0
    }

    /// Whether slot `idx` has its value and no reader is left.
    pub fn is_consumed(&self, idx: usize) -> (r: bool)
        requires
            self.wf(),
            idx < self.values@.len(),
        ensures
            r == (self.is_ready_at(idx as int) && self.refcounts@[idx as int] == 0),
    {
        self.is_ready(idx) && self.refcounts[idx] == 0
    }

    /// Empties slot `idx`.
    pub fn reset_slot(&mut self, idx: usize)
        requires
            old(self).wf(),
            idx < old(self).values@.len(),
        ensures
            final(self).wf(),
            final(self).values@.len() == old(self).values@.len(),
            final(self).blank_at(idx as int),
            forall|i: int|
                0 <= i < old(self).values@.len() && i != idx ==> #[trigger] final(self).same_at(*old(self), i),
    {
        self.values.set(idx, Value::Null);
        self.clear_ready(idx);
        self.refcounts.set(idx, 0);
    }

    /// Empties all slots: the table is as a new one with as many.
    pub fn reset_all(&mut self)
        requires
            old(self).wf(),
        ensures
            final(self).wf(),
            final(self).blank(old(self).values@.len() as int),
            final(self).values@.len() == old(self).values@.len(),
            forall|i: int| 0 <= i < old(self).values@.len() ==> #[trigger] final(self).blank_at(i),
    {
        let n = self.values.len();
        let mut i: usize = 0;
        while i < n
            invariant
                i <= n,
                self.values@.len() == n,
                self.refcounts@.len() == n,
                self.ready == old(self).ready,
                forall|k: int| 0 <= k < i ==> #[trigger] self.values@[k] == Value::Null,
                forall|k: int| 0 <= k < i ==> #[trigger] self.refcounts@[k] == 0,
            decreases n - i,
        {
            self.values.set(i, Value::Null);
            self.refcounts.set(i, 0);
            i = i + 1;
        }
        let ghost cleared = *self;
        let mut k: usize = 0;
        while k < self.ready.len()
            invariant
                k <= self.ready@.len() == old(self).ready@.len(),
                self.values == cleared.values,
                self.refcounts == cleared.refcounts,
                forall|j: int| 0 <= j < k ==> #[trigger] self.ready@[j] == 0,
            decreases self.ready@.len() - k,
        {
            self.ready.set(k, 0);
            k = k + 1;
        }
        assert(self.values@ =~= Seq::new(n as nat, |i: int| Value::Null));
        assert(self.refcounts@ =~= Seq::new(n as nat, |i: int| 0u16));
        assert(self.ready@ =~= Seq::new(bytes_for(n as int) as nat, |i: int| 0u8));
        proof {
            lemma_blank(*self, n as int);
        }
    }
}

proof fn lemma_blank(t: ValueTable, n: int)
    requires
        0 <= n,
        t.blank(n),
    ensures
        t.wf(),
        forall|i: int| 0 <= i < n ==> #[trigger] t.blank_at(i),
{
    assert forall|i: int| 0 <= i < n implies #[trigger] t.blank_at(i) by {
        assert(t.ready@[i / 8] == 0);
        lemma_bits(0, 0, (i % 8) as u8);
    }
}

impl Default for ValueTable {
    fn default() -> (t: Self)
        ensures
            t.wf(),
            t.values@.len() == 0,
    {
        ValueTable::new()
    }
}

/// Reading back what was put into a slot gives the value, until the slot is
/// emptied; what happens to other slots does not matter.
pub proof fn law_slot_keeps_its_value(a: ValueTable, b: ValueTable, c: ValueTable, idx: int, other: int, v: Value)
    requires
        0 <= idx < a.values@.len(),
        0 <= other < a.values@.len(),
        other != idx,
        b.values@ == a.values@.update(idx, v),
        b.is_ready_at(idx),
        c.values@.len() == b.values@.len(),
        forall|i: int| 0 <= i < b.values@.len() && i != other ==> #[trigger] c.same_at(b, i),
    ensures
        c.values@[idx] == v,
        c.is_ready_at(idx),
{
    assert(c.same_at(b, idx));
}


/// A slot is used up by as many reads as it was set for, and not by fewer.
pub proof fn law_slot_is_used_up_by_its_readers(readers: u16, k: nat)
    ensures
        k < readers ==> after_reads(readers, k) == readers - k,
        k >= readers ==> after_reads(readers, k) == 0,
    decreases k,
{
    if k > 0 {
        law_slot_is_used_up_by_its_readers(readers, (k - 1) as nat);
    }
}

/// A table that is emptied as a whole cannot be told from a new one of as many
/// slots: every index that the bits reach is unready in both.
pub proof fn law_emptied_table_is_as_new(emptied: ValueTable, new: ValueTable, n: int, i: int)
    requires
        0 <= n,
        emptied.blank(n),
        new.blank(n),
        0 <= i < bytes_for(n) * 8,
    ensures
        emptied.values@ == new.values@,
        emptied.ready@ == new.ready@,
        emptied.refcounts@ == new.refcounts@,
        !emptied.is_ready_at(i),
{
    assert(emptied.ready@[i / 8] == 0);
    lemma_bits(0, 0, (i % 8) as u8);
}

} // verus!
