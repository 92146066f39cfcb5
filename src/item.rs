use vstd::prelude::*;

use crate::numbers::Fin;
use crate::Scalar;

verus! {

/// Handle of an item in one `Context`; handed out in increasing order, starting at 1.
#[derive(Debug, Clone, Copy, PartialEq, Eq, Structural, PartialOrd, Ord, Hash)]
pub struct Id(pub(crate) u32);

impl Id {
    /// The number behind the handle.
    pub closed spec fn value(self) -> nat {
        self.0 as nat
    }

    pub(crate) fn new(v: u32) -> (r: Id)
        ensures
            r.value() == v,
    {
        Id(v)
    }

    /// The identifier with number `v`.
    pub closed spec fn from_value(v: nat) -> Id {
        Id(v as u32)
    }

    pub proof fn lemma_from_value(v: nat)
        requires
            v <= u32::MAX,
        ensures
            Id::from_value(v).value() == v,
    {
    }

    pub proof fn lemma_value_injective(a: Id, b: Id)
        ensures
            a.value() == b.value() <==> a == b,
    {
    }

    /// The number behind the handle.
    pub fn get(self) -> (r: u32)
        ensures
            r == self.value(),
    {
        self.0
    }
}

/// Spacing before and after an item along one dimension.
#[derive(Debug, Clone, Copy)]
pub struct Margin {
    pub start: Scalar,
    pub end: Scalar,
}

impl Default for Margin {
    fn default() -> (r: Self)
        ensures
            r.start == 0,
            r.end == 0,
    {
        Margin { start: 0, end: 0 }
    }
}

/// Configuration of one rectangle: how it lays out its children, how it
/// places itself inside its parent, its margins and its explicit sizes.
#[derive(Debug, Clone, Copy)]
pub struct Item<const ND: usize> {
    pub flags: ItemFlags<ND>,
    /// One pair per dimension.
    pub margins: [Margin; ND],
    /// `None` sizes the dimension from the children.
    pub size: [Option<Scalar>; ND],
}

impl<const ND: usize> Item<ND> {
    /// The configuration of a freshly created item.
    pub open spec fn is_default(self) -> bool {
        &&& self.flags.as_parent.layout is Fixed
        &&& self.flags.as_parent.allow_wrap
        &&& self.flags.as_parent.auto_wrap
        &&& self.flags.as_parent.alignment_along_axis.is_start()
        &&& !self.flags.as_child.wrap_me
        &&& !self.flags.extra.inserted
        &&& forall|d: int|
            0 <= d < ND ==> {
                &&& self.margins@[d].start == 0
                &&& self.margins@[d].end == 0
                &&& self.size@[d] is None
                &&& self.flags.as_child.alignment_cross_axis@[d].is_start()
            }
    }
}

impl<const ND: usize> Default for Item<ND> {
    fn default() -> (r: Self)
        ensures
            r.is_default(),
    {
        Item {
            flags: ItemFlags::default(),
            margins: vstd::array::array_fill_for_copy_types(Margin { start: 0, end: 0 }),
            size: vstd::array::array_fill_for_copy_types(None),
        }
    }
}

#[derive(Clone, Copy, Debug)]
pub struct ItemFlags<const ND: usize> {
    pub as_parent: AsParentFlags<ND>,
    pub as_child: AsChildFlags<ND>,
    pub extra: ExtraFlags<ND>,
}

impl<const ND: usize> Default for ItemFlags<ND> {
    fn default() -> (r: Self)
        ensures
            r.as_parent.layout is Fixed,
            r.as_parent.allow_wrap,
            r.as_parent.auto_wrap,
            r.as_parent.alignment_along_axis.is_start(),
            !r.as_child.wrap_me,
            !r.extra.inserted,
            forall|d: int| 0 <= d < ND ==> r.as_child.alignment_cross_axis@[d].is_start(),
    {
        ItemFlags {
            as_parent: AsParentFlags::default(),
            as_child: AsChildFlags::default(),
            extra: ExtraFlags::default(),
        }
    }
}

/// How a container places its children.
#[derive(Clone, Copy, Debug)]
pub enum Layout<const ND: usize> {
    /// Every dimension is a cross axis: each child is aligned on its own.
    Fixed,
    /// Children follow each other along the given dimension.
    Flex(Fin<ND>),
}

impl<const ND: usize> Default for Layout<ND> {
    fn default() -> (r: Self)
        ensures
            r is Fixed,
    {
        Layout::Fixed
    }
}

/// How an item lays out its children.
#[derive(Clone, Copy, Debug)]
pub struct AsParentFlags<const ND: usize> {
    pub layout: Layout<ND>,
    /// Start a new line before a child that asks for it.
    pub allow_wrap: bool,
    /// Start a new line before a child that would overflow the line.
    pub auto_wrap: bool,
    /// Where the free space of a line goes:
    /// start `|[A][B]    |`, end `|    [A][B]|`, center `|  [A][B]  |`,
    /// justify `|[A]    [B]|`.
    pub alignment_along_axis: Alignment,
}

impl<const ND: usize> Default for AsParentFlags<ND> {
    fn default() -> (r: Self)
        ensures
            r.layout is Fixed,
            r.allow_wrap,
            r.auto_wrap,
            r.alignment_along_axis.is_start(),
    {
        AsParentFlags {
            layout: Layout::default(),
            allow_wrap: true,
            auto_wrap: true,
            alignment_along_axis: Alignment::default(),
        }
    }
}

/// Anchoring to the front and/or the back of the available space: front
/// alone is start, back alone is end, neither is center, both is justify
/// (along the flex axis) or fill (across it).
#[derive(Clone, Debug, Copy)]
pub struct Alignment {
    pub front: bool,
    pub back: bool,
}

impl Alignment {
    pub open spec fn is_start(self) -> bool {
        self.front && !self.back
    }
}

impl Default for Alignment {
    fn default() -> (r: Self)
        ensures
            r.is_start(),
    {
        Alignment { front: true, back: false }
    }
}

/// How an item places itself inside its parent.
#[derive(Clone, Copy, Debug)]
pub struct AsChildFlags<const ND: usize> {
    /// One alignment per dimension; the parent's flex axis ignores it.
    pub alignment_cross_axis: [Alignment; ND],
    /// Ask the parent to start a new line before this item.
    pub wrap_me: bool,
}

impl<const ND: usize> Default for AsChildFlags<ND> {
    fn default() -> (r: Self)
        ensures
            !r.wrap_me,
            forall|d: int| 0 <= d < ND ==> r.alignment_cross_axis@[d].is_start(),
    {
        let start = Alignment { front: true, back: false };
        AsChildFlags { alignment_cross_axis: vstd::array::array_fill_for_copy_types(start), wrap_me: false }
    }
}

/// Bookkeeping with no effect on the layout.
#[derive(Clone, Copy, Debug)]
pub struct ExtraFlags<const ND: usize> {
    /// Set when the item was placed with `insert_after`.
    pub inserted: bool,
}

impl<const ND: usize> Default for ExtraFlags<ND> {
    fn default() -> (r: Self)
        ensures
            !r.inserted,
    {
        ExtraFlags { inserted: false }
    }
}

} // verus!
