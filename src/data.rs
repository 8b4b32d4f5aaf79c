use vstd::layout::{align_of, layout_for_type_is_valid, size_of, valid_layout};
use vstd::prelude::*;

verus! {

/// The size and alignment of the values of a component type.
#[derive(Clone, Copy, Debug, PartialEq, Eq, Structural)]
pub struct DataLayout {
    /// Size of one value, in bytes.
    pub size: usize,
    /// Alignment of one value, in bytes: a power of two.
    pub align: usize,
}

impl DataLayout {
    /// A size and an alignment that a memory layout can have.
    pub open spec fn is_valid(&self) -> bool {
        valid_layout(self.size, self.align)
    }

    /// The layout of the type `T`.
    pub fn new<T>() -> (r: DataLayout)
        ensures
            r.size == size_of::<T>(),
            r.align == align_of::<T>(),
            r.is_valid(),
    {
        layout_for_type_is_valid::<T>();
        DataLayout { size: core::mem::size_of::<T>(), align: core::mem::align_of::<T>() }
    }
}

/// Relies on std::mem::needs_drop: whether dropping a `T` runs any code.
#[verifier::external_body]
fn needs_drop_of<T>() -> (r: bool) {
    std::mem::needs_drop::<T>()
}

/// What the world knows of a component type: a name, a memory layout and
/// whether its values run code when dropped.
#[derive(Clone, Copy, Debug)]
pub struct DataInfo {
    name: &'static str,
    layout: DataLayout,
    needs_drop: bool,
}

impl DataInfo {
    /// The layout recorded in this description.
    pub closed spec fn spec_layout(&self) -> DataLayout {
        self.layout
    }

    /// The name recorded in this description.
    pub closed spec fn spec_name(&self) -> &'static str {
        self.name
    }

    /// The drop flag recorded in this description.
    pub closed spec fn spec_needs_drop(&self) -> bool {
        self.needs_drop
    }

    /// The description of the type `T` under the name `name`, with the layout
    /// and drop behaviour that the compiler gives it.
    pub fn deafult_for<T>(name: &'static str) -> (r: DataInfo)
        ensures
            r.spec_layout().size == size_of::<T>(),
            r.spec_layout().align == align_of::<T>(),
            r.spec_layout().is_valid(),
            r.spec_name() == name,
    {
        DataInfo { name, layout: DataLayout::new::<T>(), needs_drop: needs_drop_of::<T>() }
    }

    /// A description from its parts.
    pub fn new(name: &'static str, layout: DataLayout, needs_drop: bool) -> (r: DataInfo)
        ensures
            r.spec_name() == name,
            r.spec_layout() == layout,
            r.spec_needs_drop() == needs_drop,
    {
        DataInfo { name, layout, needs_drop }
    }

    /// Whether values of this type run code when dropped.
    pub fn drop_fn(&self) -> (r: bool)
        ensures
            r == self.spec_needs_drop(),
    {
        self.needs_drop
    }

    /// The memory layout of this type.
    pub fn layout(&self) -> (r: DataLayout)
        ensures
            r == self.spec_layout(),
    {
        self.layout
    }

    /// The name of this type.
    pub fn name(&self) -> (r: &'static str)
        ensures
            r == self.spec_name(),
    {
        self.name
    }
}

} // verus!
