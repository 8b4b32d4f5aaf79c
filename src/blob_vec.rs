use crate::data::{DataInfo, DataLayout};
use vstd::prelude::*;

verus! {

/// A growable column of component values.
///
/// The column records the memory layout of its values and whether they run
/// code when dropped, and keeps its own account of how many values it has
/// room for: a column of zero-sized values always has room for `usize::MAX`.
pub struct BlobVec<V> {
    item_layout: DataLayout,
    capacity: usize,
    data: Vec<V>,
    needs_drop: bool,
}

/// The capacity that `reserve` leaves: unchanged where there is room, else
/// at least double the old one and enough for `additional` more values.
pub open spec fn reserved_capacity(capacity: nat, len: nat, additional: nat) -> nat {
    if capacity >= len + additional {
        capacity
    } else if capacity + capacity > usize::MAX {
        usize::MAX as nat
    } else if capacity + capacity >= len + additional {
        capacity + capacity
    } else {
        len + additional
    }
}

/// The capacity that `reserve_exact` leaves: unchanged where there is room,
/// else exactly enough for `additional` more values.
pub open spec fn exact_capacity(capacity: nat, len: nat, additional: nat) -> nat {
    if capacity >= len + additional {
        capacity
    } else {
        len + additional
    }
}

impl<V> View for BlobVec<V> {
    type V = Seq<V>;

    closed spec fn view(&self) -> Seq<V> {
        self.data@
    }
}

impl<V> BlobVec<V> {
    /// The number of values the column has room for.
    pub closed spec fn spec_capacity(&self) -> nat {
        self.capacity as nat
    }

    /// The layout of the values.
    pub closed spec fn spec_layout(&self) -> DataLayout {
        self.item_layout
    }

    /// The column holds no more values than it has room for, and a column of
    /// zero-sized values has room for `usize::MAX`.
    pub closed spec fn wf(&self) -> bool {
        &&& self.data@.len() <= self.capacity
        &&& self.item_layout.size == 0 ==> self.capacity == usize::MAX
    }

    /// An empty column with room for `capacity` values.
    pub fn new(item_layout: DataLayout, needs_drop: bool, capacity: usize) -> (r: BlobVec<V>)
        ensures
            r.wf(),
            r@ == Seq::<V>::empty(),
            r.spec_layout() == item_layout,
            r.spec_needs_drop() == needs_drop,
            item_layout.size == 0 ==> r.spec_capacity() == usize::MAX,
            item_layout.size != 0 ==> r.spec_capacity() == capacity,
    {
        if item_layout.size == 0 {
            BlobVec { item_layout, capacity: usize::MAX, data: Vec::new(), needs_drop }
        } else {
            let mut blob_vec = BlobVec { item_layout, capacity: 0, data: Vec::new(), needs_drop };
            blob_vec.reserve_exact(capacity);
            blob_vec
        }
    }

    /// An empty column for values of the type that `data_info` describes.
    pub fn new_for_data(data_info: &DataInfo, capacity: usize) -> (r: BlobVec<V>)
        ensures
            r.wf(),
            r@ == Seq::<V>::empty(),
            r.spec_layout() == data_info.spec_layout(),
            data_info.spec_layout().size == 0 ==> r.spec_capacity() == usize::MAX,
            data_info.spec_layout().size != 0 ==> r.spec_capacity() == capacity,
    {
        BlobVec::new(data_info.layout(), data_info.drop_fn(), capacity)
    }

    /// The number of values.
    pub fn len(&self) -> (r: usize)
        ensures
            r == self@.len(),
    {
        self.data.len()
    }

    /// Whether the column holds no value.
    pub fn is_empty(&self) -> (r: bool)
        ensures
            r == (self@.len() == 0),
    {
        self.data.len() == 0
    }

    /// The number of values the column has room for.
    pub fn capacity(&self) -> (r: usize)
        ensures
            r == self.spec_capacity(),
    {
        self.capacity
    }

    /// The layout of the values.
    pub fn layout(&self) -> (r: DataLayout)
        ensures
            r == self.spec_layout(),
    {
        self.item_layout
    }

    /// Whether the values run code when dropped, as recorded.
    pub closed spec fn spec_needs_drop(&self) -> bool {
        self.needs_drop
    }

    /// Whether the values run code when dropped.
    pub fn needs_drop(&self) -> (r: bool)
        ensures
            r == self.spec_needs_drop(),
    {
        self.needs_drop
    }

    /// Makes room for `additional` more values, no more than asked.
    pub fn reserve_exact(&mut self, additional: usize)
        requires
            old(self).wf(),
            old(self)@.len() + additional <= usize::MAX,
        ensures
            final(self).wf(),
            final(self)@ == old(self)@,
            final(self).spec_layout() == old(self).spec_layout(),
            final(self).spec_needs_drop() == old(self).spec_needs_drop(),
            final(self).spec_capacity() == exact_capacity(
                old(self).spec_capacity(),
                old(self)@.len(),
                additional as nat,
            ),
    {
        let available_space = self.capacity - self.data.len();
        if available_space < additional {
            self.grow_exact(additional - available_space);
        }
    }

    /// Makes room for `additional` more values, at least doubling the room
    /// where it grows.
    pub fn reserve(&mut self, additional: usize)
        requires
            old(self).wf(),
            old(self)@.len() + additional <= usize::MAX,
        ensures
            final(self).wf(),
            final(self)@ == old(self)@,
            final(self).spec_layout() == old(self).spec_layout(),
            final(self).spec_needs_drop() == old(self).spec_needs_drop(),
            final(self).spec_capacity() == reserved_capacity(
                old(self).spec_capacity(),
                old(self)@.len(),
                additional as nat,
            ),
    {
        if self.capacity - self.data.len() < additional {
            let needed = additional - (self.capacity - self.data.len());
            let increment = if self.capacity > usize::MAX - self.capacity {
                usize::MAX - self.capacity
            } else if self.capacity >= needed {
                self.capacity
            } else {
                needed
            };
            self.grow_exact(increment);
        }
    }

    fn grow_exact(&mut self, increment: usize)
        requires
            old(self).wf(),
            increment > 0,
            old(self).capacity + increment <= usize::MAX,
        ensures
            final(self).wf(),
            final(self)@ == old(self)@,
            final(self).item_layout == old(self).item_layout,
            final(self).needs_drop == old(self).needs_drop,
            final(self).capacity == old(self).capacity + increment,
    {
        self.data.reserve(self.capacity + increment - self.data.len());
        self.capacity = self.capacity + increment;
    }

    /// Appends `value` at the end.
    pub fn push(&mut self, value: V)
        requires
            old(self).wf(),
            old(self)@.len() < usize::MAX,
        ensures
            final(self).wf(),
            final(self)@ == old(self)@.push(value),
            final(self).spec_layout() == old(self).spec_layout(),
            final(self).spec_needs_drop() == old(self).spec_needs_drop(),
            final(self).spec_capacity() == reserved_capacity(
                old(self).spec_capacity(),
                old(self)@.len(),
                1,
            ),
    {
        self.reserve(1);
        self.data.push(value);
    }

    /// Puts `value` at `index`, dropping the value that was there.
    pub fn replace_unchecked(&mut self, index: usize, value: V)
        requires
            old(self).wf(),
            index < old(self)@.len(),
        ensures
            final(self).wf(),
            final(self)@ == old(self)@.update(index as int, value),
            final(self).spec_layout() == old(self).spec_layout(),
            final(self).spec_needs_drop() == old(self).spec_needs_drop(),
            final(self).spec_capacity() == old(self).spec_capacity(),
    {
        self.data[index] = value;
    }

    /// Takes the value at `index` out, moving the last value into its place,
    /// and hands it to the caller.
    pub fn swap_remove_and_forget_unchecked(&mut self, index: usize) -> (r: V)
        requires
            old(self).wf(),
            index < old(self)@.len(),
        ensures
            final(self).wf(),
            r == old(self)@[index as int],
            final(self)@ == old(self)@.update(index as int, old(self)@.last()).drop_last(),
            final(self).spec_layout() == old(self).spec_layout(),
            final(self).spec_needs_drop() == old(self).spec_needs_drop(),
            final(self).spec_capacity() == old(self).spec_capacity(),
    {
        self.data.swap_remove(index)
    }

    /// Takes the value at `index` out, moving the last value into its place,
    /// and drops it.
    pub fn swap_remove_and_drop_unchecked(&mut self, index: usize)
        requires
            old(self).wf(),
            index < old(self)@.len(),
        ensures
            final(self).wf(),
            final(self)@ == old(self)@.update(index as int, old(self)@.last()).drop_last(),
            final(self).spec_layout() == old(self).spec_layout(),
            final(self).spec_needs_drop() == old(self).spec_needs_drop(),
            final(self).spec_capacity() == old(self).spec_capacity(),
    {
        let _removed = self.data.swap_remove(index);
    }

    /// The value at `index`.
    pub fn get_unchecked(&self, index: usize) -> (r: &V)
        requires
            index < self@.len(),
        ensures
            *r == self@[index as int],
    {
        &self.data[index]
    }

    /// The value at `index`, to be changed in place.
    pub fn get_mut_unchecked(&mut self, index: usize) -> (r: &mut V)
        requires
            old(self).wf(),
            index < old(self)@.len(),
        ensures
            *r == old(self)@[index as int],
            final(self).wf(),
            final(self)@ == old(self)@.update(index as int, *final(r)),
            final(self).spec_layout() == old(self).spec_layout(),
            final(self).spec_needs_drop() == old(self).spec_needs_drop(),
            final(self).spec_capacity() == old(self).spec_capacity(),
    {
        &mut self.data[index]
    }

    /// All the values, in order.
    pub fn get_slice(&self) -> (r: &[V])
        ensures
            r@ == self@,
    {
        self.data.as_slice()
    }

    /// Drops every value; the room stays.
    pub fn clear(&mut self)
        requires
            old(self).wf(),
        ensures
            final(self).wf(),
            final(self)@ == Seq::<V>::empty(),
            final(self).spec_layout() == old(self).spec_layout(),
            final(self).spec_needs_drop() == old(self).spec_needs_drop(),
            final(self).spec_capacity() == old(self).spec_capacity(),
    {
        self.data.clear();
    }
}

/// The padding to add after a value of `layout` so that the next address is
/// a multiple of `align`, a power of two.
pub fn padding_needed_for(layout: &DataLayout, align: usize) -> (r: usize)
    requires
        align > 0,
        align & ((align - 1) as usize) == 0,
        layout.size + align - 1 <= usize::MAX,
    ensures
        r < align,
        layout.size + r <= usize::MAX,
        ((layout.size + r) as usize) & ((align - 1) as usize) == 0,
{
    let len = layout.size;
    let mask = align - 1;
    let t = len + mask;
    let len_rounded_up = t & !mask;
    assert(len_rounded_up & mask == 0) by (bit_vector)
        requires
            len_rounded_up == t & !mask,
    ;
    assert(len_rounded_up >= len && len_rounded_up - len < align) by (bit_vector)
        requires
            align > 0,
            align & mask == 0,
            mask == align - 1,
            t == len + mask,
            t >= len,
            len_rounded_up == t & !mask,
    ;
    len_rounded_up - len
}

/// `padded` is the size of a value of `layout` with the padding that brings
/// it to a multiple of its alignment.
pub open spec fn is_padded(layout: &DataLayout, padded: nat) -> bool {
    &&& layout.size <= padded < layout.size + layout.align
    &&& (padded as usize) & ((layout.align - 1) as usize) == 0
}

/// The layout of `n` values of `layout` laid end to end, each padded to its
/// alignment, and the distance from one value to the next; `None` where the
/// total size does not fit in a `usize`.
pub fn repeat_layout(layout: &DataLayout, n: usize) -> (r: Option<(DataLayout, usize)>)
    requires
        layout.align > 0,
        layout.align & ((layout.align - 1) as usize) == 0,
        layout.size + layout.align - 1 <= usize::MAX,
    ensures
        r.is_some() ==> {
            let (array, padded) = r.unwrap();
            &&& is_padded(layout, padded as nat)
            &&& array.size == padded * n
            &&& array.align == layout.align
        },
        r.is_none() ==> forall|padded: nat| #[trigger] is_padded(layout, padded) ==> padded * n > usize::MAX,
{
    let pad = padding_needed_for(layout, layout.align);
    let padded_size = layout.size + pad;
    match padded_size.checked_mul(n) {
        Some(alloc_size) => Some((DataLayout { size: alloc_size, align: layout.align }, padded_size)),
        None => {
            proof {
                assert forall|padded: nat| #[trigger] is_padded(layout, padded) implies padded * n > usize::MAX by {
                    lemma_aligned_unique(layout.size, layout.align, padded, padded_size as nat);
                }
            }
            None
        },
    }
}

/// Between `size` and `size + align`, one number only is a multiple of the
/// power of two `align`.
proof fn lemma_aligned_unique(size: usize, align: usize, x: nat, y: nat)
    requires
        align > 0,
        align & ((align - 1) as usize) == 0,
        size + align - 1 <= usize::MAX,
        size <= x < size + align,
        size <= y < size + align,
        (x as usize) & ((align - 1) as usize) == 0,
        (y as usize) & ((align - 1) as usize) == 0,
    ensures
        x == y,
{
    let xu = x as usize;
    let yu = y as usize;
    let mask = (align - 1) as usize;
    if x < y {
        let d = (y - x) as usize;
        assert(d < align);
        assert(yu == xu + d);
        assert(d & mask == 0) by (bit_vector)
            requires
                xu & mask == 0,
                yu & mask == 0,
                yu == xu + d,
                yu >= xu,
                align & mask == 0,
                mask == align - 1,
                align > 0,
        ;
        assert(d == 0) by (bit_vector)
            requires
                d & mask == 0,
                d < align,
                align & mask == 0,
                mask == align - 1,
                align > 0,
        ;
    } else if y < x {
        let d = (x - y) as usize;
        assert(d < align);
        assert(xu == yu + d);
        assert(d & mask == 0) by (bit_vector)
            requires
                xu & mask == 0,
                yu & mask == 0,
                xu == yu + d,
                xu >= yu,
                align & mask == 0,
                mask == align - 1,
                align > 0,
        ;
        assert(d == 0) by (bit_vector)
            requires
                d & mask == 0,
                d < align,
                align & mask == 0,
                mask == align - 1,
                align > 0,
        ;
    }
}

/// The layout of `n` values of `layout` laid end to end, as
/// [`repeat_layout`] gives it.
pub fn array_layout(layout: &DataLayout, n: usize) -> (r: Option<DataLayout>)
    requires
        layout.align > 0,
        layout.align & ((layout.align - 1) as usize) == 0,
        layout.size + layout.align - 1 <= usize::MAX,
    ensures
        r.is_some() ==> exists|padded: nat| #[trigger] is_padded(layout, padded) && r.unwrap().size == padded * n
            && r.unwrap().align == layout.align,
        r.is_none() ==> forall|padded: nat| #[trigger] is_padded(layout, padded) ==> padded * n > usize::MAX,
{
    match repeat_layout(layout, n) {
        Some((array, padded)) => {
            assert(is_padded(layout, padded as nat));
            Some(array)
        },
        None => None,
    }
}

} // verus!
