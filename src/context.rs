use vstd::prelude::*;

use crate::error::ItemNotFound;
use crate::geometry::{
    along_pos, arrange_along_axis_range, arrange_cross_axis_range, calc_along_axis, calc_cross_axis,
    clamp_to_scalar, cross_layout, ExtentAndMargins, LineParams,
};
use crate::item::{ExtraFlags, Id, Item, ItemFlags, Layout, Margin};
use crate::tree::{
    acyclic_from, is_along, arrange_children, arrange_list, arrange_pass, chain, chain_ends, child_exts, children,
    configs, first_child, geom, id_in, layout_dim, lemma_chain_bounds, lemma_explicit_size_kept,
    line_params, links_valid, measure_list, measure_pass, measured, place_along, place_cross, slot,
    tree_ok, ItemWithCalcSize, Links,
};
use crate::Scalar;

verus! {

/// An arena of items linked into trees, and the layout engine that computes
/// their boxes.
pub struct Context<const ND: usize> {
    last_id: Id,
    items: Vec<ItemWithCalcSize<ND>>,
    links: Vec<Links>,
}

/// A record as `item_new` creates it: default configuration, zero box.
pub open spec fn is_fresh<const ND: usize>(r: ItemWithCalcSize<ND>) -> bool {
    &&& r.item.is_default()
    &&& forall|d: int| 0 <= d < ND ==> r.position@[d] == 0 && r.size@[d] == 0
}

/// `r` with its `inserted` flag set.
pub open spec fn mark_inserted<const ND: usize>(r: ItemWithCalcSize<ND>) -> ItemWithCalcSize<ND> {
    ItemWithCalcSize {
        item: Item {
            flags: ItemFlags { extra: ExtraFlags { inserted: true }, ..r.item.flags },
            ..r.item
        },
        ..r
    }
}

/// `links` with the next sibling of `id` set to `next`.
pub open spec fn set_next(links: Seq<Links>, id: Id, next: Option<Id>) -> Seq<Links> {
    links.update(slot(id), Links { next_sibling: next, ..links[slot(id)] })
}

/// `links` with the first child of `id` set to `first`.
pub open spec fn set_first(links: Seq<Links>, id: Id, first: Option<Id>) -> Seq<Links> {
    links.update(slot(id), Links { first_child: first, ..links[slot(id)] })
}

impl<const ND: usize> Default for Context<ND> {
    fn default() -> (r: Self)
        ensures
            r.wf(),
            r.count() == 0,
    {
        Self::new()
    }
}

impl<const ND: usize> Context<ND> {
    /// Every item, by slot (`id.value() - 1`).
    pub closed spec fn records(&self) -> Seq<ItemWithCalcSize<ND>> {
        self.items@
    }

    /// The tree links of every item, by slot.
    pub closed spec fn link_table(&self) -> Seq<Links> {
        self.links@
    }

    /// The last identifier handed out.
    pub closed spec fn last_id(&self) -> nat {
        self.last_id.value()
    }

    pub open spec fn count(&self) -> int {
        self.records().len() as int
    }

    pub open spec fn contains(&self, id: Id) -> bool {
        id_in(self.count(), id)
    }

    /// Identifiers are handed out as 1, 2, ...; every link names an item.
    pub open spec fn wf(&self) -> bool {
        &&& self.link_table().len() == self.records().len()
        &&& self.last_id() == self.records().len()
        &&& self.records().len() <= u32::MAX
        &&& links_valid(self.link_table())
    }

    /// The links of `id`.
    pub open spec fn links_of(&self, id: Id) -> Links {
        self.link_table()[slot(id)]
    }

    /// The configuration and box of `id`.
    pub open spec fn record(&self, id: Id) -> ItemWithCalcSize<ND> {
        self.records()[slot(id)]
    }

    pub fn new() -> (r: Self)
        ensures
            r.wf(),
            r.count() == 0,
    {
        Context { last_id: Id::new(0), items: Vec::new(), links: Vec::new() }
    }

    fn slot_of(&self, id: Id) -> (r: Option<usize>)
        ensures
            self.contains(id) <==> r is Some,
            r is Some ==> r->Some_0 == slot(id),
    {
        let v = id.get();
        if v >= 1 && (v as usize) <= self.items.len() {
            Some((v - 1) as usize)
        } else {
            None
        }
    }

    // ====== adding items

    /// Adds an item with the default configuration, no parent and no children.
    pub fn item_new(&mut self) -> (r: &Id)
        requires
            old(self).wf(),
            old(self).count() < u32::MAX,
        ensures
            final(self).wf(),
            final(self).records().len() == old(self).records().len() + 1,
            final(self).records().drop_last() == old(self).records(),
            is_fresh(final(self).records().last()),
            final(self).link_table() == old(self).link_table().push(Links { first_child: None, next_sibling: None }),
            r.value() == final(self).count(),
    {
        self.last_id = Id::new(self.last_id.get() + 1);
        self.items.push(ItemWithCalcSize::default());
        self.links.push(Links { first_child: None, next_sibling: None });
        proof {
            assert(self.items@.drop_last() =~= old(self).items@);
        }
        &self.last_id
    }

    /// Adds an item configured by `before_insert`, with no parent and no children.
    pub fn item_new_mut<F: FnOnce(&mut Item<ND>)>(&mut self, before_insert: F) -> (r: &Id)
        requires
            old(self).wf(),
            old(self).count() < u32::MAX,
            forall|x: &mut Item<ND>| #[trigger] before_insert.requires((x,)),
        ensures
            final(self).wf(),
            final(self).records().len() == old(self).records().len() + 1,
            final(self).records().drop_last() == old(self).records(),
            final(self).link_table() == old(self).link_table().push(Links { first_child: None, next_sibling: None }),
            forall|d: int|
                0 <= d < ND ==> #[trigger] final(self).records().last().position@[d] == 0
                    && final(self).records().last().size@[d] == 0,
            r.value() == final(self).count(),
    {
        let mut xx: ItemWithCalcSize<ND> = ItemWithCalcSize::default();
        before_insert(&mut xx.item);
        self.last_id = Id::new(self.last_id.get() + 1);
        self.items.push(xx);
        self.links.push(Links { first_child: None, next_sibling: None });
        proof {
            assert(self.items@.drop_last() =~= old(self).items@);
        }
        &self.last_id
    }

    // ====== accessing

    pub fn items_count(&self) -> (r: usize)
        ensures
            r == self.count(),
    {
        self.items.len()
    }

    pub fn item(&self, item_id: Id) -> (r: Option<&Item<ND>>)
        ensures
            self.contains(item_id) <==> r is Some,
            r is Some ==> *r->Some_0 == self.record(item_id).item,
    {
        match self.slot_of(item_id) {
            Some(i) => Some(&self.items[i].item),
            None => None,
        }
    }

    pub fn item_mut(&mut self, item_id: Id) -> (r: Option<&mut Item<ND>>)
        ensures
            old(self).contains(item_id) <==> r is Some,
            r is None ==> *final(self) == *old(self),
            r is Some ==> *r->Some_0 == old(self).record(item_id).item,
            r is Some ==> final(self).records() == old(self).records().update(
                slot(item_id),
                ItemWithCalcSize { item: *final(r->Some_0), ..old(self).record(item_id) },
            ),
            final(self).link_table() == old(self).link_table(),
            final(self).last_id() == old(self).last_id(),
    {
        match self.slot_of(item_id) {
            Some(i) => Some(&mut self.items[i].item),
            None => None,
        }
    }

    pub fn item_rect_err(&self, item_id: Id) -> (r: Result<&ItemWithCalcSize<ND>, ItemNotFound>)
        ensures
            self.contains(item_id) <==> r is Ok,
            r is Ok ==> *r->Ok_0 == self.record(item_id),
            r is Err ==> r->Err_0 == ItemNotFound(item_id),
    {
        match self.slot_of(item_id) {
            Some(i) => Ok(&self.items[i]),
            None => Err(ItemNotFound(item_id)),
        }
    }

    /// Error version of `item`.
    pub fn item_err(&self, item_id: Id) -> (r: Result<&Item<ND>, ItemNotFound>)
        ensures
            self.contains(item_id) <==> r is Ok,
            r is Ok ==> *r->Ok_0 == self.record(item_id).item,
            r is Err ==> r->Err_0 == ItemNotFound(item_id),
    {
        match self.item(item_id) {
            Some(x) => Ok(x),
            None => Err(ItemNotFound(item_id)),
        }
    }

    pub fn item_rect_mut_err(&mut self, item_id: Id) -> (r: Result<&mut ItemWithCalcSize<ND>, ItemNotFound>)
        ensures
            old(self).contains(item_id) <==> r is Ok,
            r is Err ==> r->Err_0 == ItemNotFound(item_id) && *final(self) == *old(self),
            r is Ok ==> *r->Ok_0 == old(self).record(item_id),
            r is Ok ==> final(self).records() == old(self).records().update(slot(item_id), *final(r->Ok_0)),
            final(self).link_table() == old(self).link_table(),
            final(self).last_id() == old(self).last_id(),
    {
        match self.slot_of(item_id) {
            Some(i) => Ok(&mut self.items[i]),
            None => Err(ItemNotFound(item_id)),
        }
    }

    /// Error version of `item_mut`.
    pub fn item_mut_err(&mut self, item_id: Id) -> (r: Result<&mut Item<ND>, ItemNotFound>)
        ensures
            old(self).contains(item_id) <==> r is Ok,
            r is Err ==> r->Err_0 == ItemNotFound(item_id) && *final(self) == *old(self),
            r is Ok ==> *r->Ok_0 == old(self).record(item_id).item,
            r is Ok ==> final(self).records() == old(self).records().update(
                slot(item_id),
                ItemWithCalcSize { item: *final(r->Ok_0), ..old(self).record(item_id) },
            ),
            final(self).link_table() == old(self).link_table(),
            final(self).last_id() == old(self).last_id(),
    {
        match self.slot_of(item_id) {
            Some(i) => Ok(&mut self.items[i].item),
            None => Err(ItemNotFound(item_id)),
        }
    }

    /// The configuration of the last child of `parent_id`, if it has children.
    pub fn item_mut_last_child(&mut self, parent_id: Id) -> (r: Result<Option<&mut Item<ND>>, ItemNotFound>)
        requires
            old(self).wf(),
            old(self).contains(parent_id) ==> chain_ends(
                old(self).link_table(),
                first_child(old(self).link_table(), parent_id),
                old(self).count() as nat,
            ),
        ensures
            old(self).contains(parent_id) <==> r is Ok,
            r is Err ==> r->Err_0 == ItemNotFound(parent_id) && *final(self) == *old(self),
            r is Ok ==> (r->Ok_0 is None <==> children(old(self).link_table(), parent_id).len() == 0),
            r is Ok && r->Ok_0 is None ==> *final(self) == *old(self),
            r is Ok && r->Ok_0 is Some ==> {
                let last = children(old(self).link_table(), parent_id).last();
                &&& *r->Ok_0->Some_0 == old(self).record(last).item
                &&& final(self).records() == old(self).records().update(
                    slot(last),
                    ItemWithCalcSize { item: *final(r->Ok_0->Some_0), ..old(self).record(last) },
                )
            },
            final(self).link_table() == old(self).link_table(),
            final(self).last_id() == old(self).last_id(),
    {
        if self.slot_of(parent_id).is_none() {
            return Err(ItemNotFound(parent_id));
        }
        let ids = self.children_of(parent_id);
        if ids.len() == 0 {
            return Ok(None);
        }
        let last = (ids[ids.len() - 1].get() - 1) as usize;
        Ok(Some(&mut self.items[last].item))
    }

    // ====== changing the hierarchy

    /// Puts `later_id` right after `earlier_id` in its sibling chain and marks
    /// it as inserted. Whether `later_id` was linked elsewhere is not checked.
    pub fn insert_after(&mut self, earlier_id: Id, later_id: Id) -> (r: Result<(), ItemNotFound>)
        requires
            old(self).wf(),
        ensures
            final(self).wf(),
            !old(self).contains(earlier_id) ==> r == Err::<(), ItemNotFound>(ItemNotFound(earlier_id)),
            old(self).contains(earlier_id) && !old(self).contains(later_id) ==> r == Err::<(), ItemNotFound>(
                ItemNotFound(later_id),
            ),
            r is Err ==> *final(self) == *old(self),
            old(self).contains(earlier_id) && old(self).contains(later_id) ==> {
                &&& r is Ok
                &&& final(self).records() == old(self).records().update(
                    slot(later_id),
                    mark_inserted(old(self).record(later_id)),
                )
                &&& final(self).link_table() == set_next(
                    set_next(old(self).link_table(), later_id, old(self).links_of(earlier_id).next_sibling),
                    earlier_id,
                    Some(later_id),
                )
            },
    {
        let e = match self.slot_of(earlier_id) {
            Some(e) => e,
            None => return Err(ItemNotFound(earlier_id)),
        };
        let l = match self.slot_of(later_id) {
            Some(l) => l,
            None => return Err(ItemNotFound(later_id)),
        };
        let earlier_next_sibling = self.links[e].next_sibling;
        let mut later_links = self.links[l];
        later_links.next_sibling = earlier_next_sibling;
        self.links.set(l, later_links);
        let mut later = self.items[l];
        later.item.flags.extra.inserted = true;
        self.items.set(l, later);
        let mut earlier_links = self.links[e];
        earlier_links.next_sibling = Some(later_id);
        self.links.set(e, earlier_links);
        Ok(())
    }

    /// Makes `child_id` the first child of `parent_id`; the former first
    /// child becomes its next sibling.
    pub fn push_front(&mut self, parent_id: Id, child_id: Id) -> (r: Result<(), ItemNotFound>)
        requires
            old(self).wf(),
        ensures
            final(self).wf(),
            !old(self).contains(child_id) ==> r == Err::<(), ItemNotFound>(ItemNotFound(child_id)),
            old(self).contains(child_id) && !old(self).contains(parent_id) ==> r == Err::<(), ItemNotFound>(
                ItemNotFound(parent_id),
            ),
            r is Err ==> *final(self) == *old(self),
            final(self).records() == old(self).records(),
            old(self).contains(child_id) && old(self).contains(parent_id) ==> {
                let linked = set_first(old(self).link_table(), parent_id, Some(child_id));
                &&& r is Ok
                &&& final(self).link_table() == match old(self).links_of(parent_id).first_child {
                    Some(previous) => set_next(linked, child_id, Some(previous)),
                    None => linked,
                }
            },
    {
        let c = match self.slot_of(child_id) {
            Some(c) => c,
            None => return Err(ItemNotFound(child_id)),
        };
        let p = match self.slot_of(parent_id) {
            Some(p) => p,
            None => return Err(ItemNotFound(parent_id)),
        };
        let mut parent = self.links[p];
        let previous = parent.first_child;
        parent.first_child = Some(child_id);
        self.links.set(p, parent);
        match previous {
            Some(previous_first_child_id) => {
                let mut child = self.links[c];
                child.next_sibling = Some(previous_first_child_id);
                self.links.set(c, child);
            },
            None => {},
        }
        Ok(())
    }

    /// Makes `child_id` the last child of `parent_id`, walking the sibling
    /// chain to its end.
    pub fn push_back(&mut self, parent_id: Id, child_id: Id) -> (r: Result<(), ItemNotFound>)
        requires
            old(self).wf(),
            old(self).contains(parent_id) ==> chain_ends(
                old(self).link_table(),
                first_child(old(self).link_table(), parent_id),
                old(self).count() as nat,
            ),
        ensures
            final(self).wf(),
            !old(self).contains(child_id) ==> r == Err::<(), ItemNotFound>(ItemNotFound(child_id)),
            old(self).contains(child_id) && !old(self).contains(parent_id) ==> r == Err::<(), ItemNotFound>(
                ItemNotFound(parent_id),
            ),
            r is Err ==> *final(self) == *old(self),
            final(self).records() == old(self).records(),
            old(self).contains(child_id) && old(self).contains(parent_id) ==> {
                let kids = children(old(self).link_table(), parent_id);
                &&& r is Ok
                &&& final(self).link_table() == if kids.len() == 0 {
                    set_first(old(self).link_table(), parent_id, Some(child_id))
                } else {
                    set_next(old(self).link_table(), kids.last(), Some(child_id))
                }
            },
    {
        if self.slot_of(child_id).is_none() {
            return Err(ItemNotFound(child_id));
        }
        let p = match self.slot_of(parent_id) {
            Some(p) => p,
            None => return Err(ItemNotFound(parent_id)),
        };
        let ids = self.children_of(parent_id);
        if ids.len() == 0 {
            let mut parent = self.links[p];
            parent.first_child = Some(child_id);
            self.links.set(p, parent);
        } else {
            let last = (ids[ids.len() - 1].get() - 1) as usize;
            let mut last_links = self.links[last];
            last_links.next_sibling = Some(child_id);
            self.links.set(last, last_links);
        }
        Ok(())
    }

    // ====== tree walking

    /// The children of `id`, in order.
    fn children_of(&self, id: Id) -> (r: Vec<Id>)
        requires
            self.wf(),
            self.contains(id),
            chain_ends(self.link_table(), first_child(self.link_table(), id), self.count() as nat),
        ensures
            r@ == children(self.link_table(), id),
            r.len() <= self.count(),
            forall|k: int| 0 <= k < r.len() ==> self.contains(#[trigger] r@[k]),
    {
        let ghost links = self.links@;
        let ghost n = links.len() as nat;
        let mut cur = self.links[(id.get() - 1) as usize].first_child;
        let mut out: Vec<Id> = Vec::new();
        let ghost mut fuel: nat = n;
        while cur.is_some()
            invariant
                links == self.links@,
                n == links.len(),
                self.wf(),
                fuel <= n,
                chain_ends(links, cur, fuel),
                out@ + chain(links, cur, fuel) == children(links, id),
                out.len() + fuel <= n,
            decreases fuel,
        {
            let c = cur.unwrap();
            out.push(c);
            proof {
                assert(chain(links, cur, fuel) == seq![c] + chain(links, links[slot(c)].next_sibling, (fuel - 1) as nat));
                assert(out@ + chain(links, links[slot(c)].next_sibling, (fuel - 1) as nat) =~= children(links, id));
            }
            cur = self.links[(c.get() - 1) as usize].next_sibling;
            proof {
                fuel = (fuel - 1) as nat;
            }
        }
        proof {
            assert(out@ =~= children(links, id));
            lemma_chain_bounds(links, first_child(links, id), n);
        }
        out
    }

    /// What the parent reads of each of `ids` along `dim`.
    fn calc_extent_margins(&self, ids: &Vec<Id>, dim: usize) -> (r: Vec<ExtentAndMargins>)
        requires
            dim < ND,
            forall|k: int| 0 <= k < ids.len() ==> self.contains(#[trigger] ids@[k]),
        ensures
            r@ == child_exts(configs(self.records()), geom(self.records(), dim as int), ids@, dim as int),
    {
        let mut out: Vec<ExtentAndMargins> = Vec::new();
        let mut k: usize = 0;
        while k < ids.len()
            invariant
                dim < ND,
                k <= ids.len(),
                forall|q: int| 0 <= q < ids.len() ==> self.contains(#[trigger] ids@[q]),
                out@ =~= child_exts(configs(self.records()), geom(self.records(), dim as int), ids@, dim as int).take(
                    k as int,
                ),
            decreases ids.len() - k,
        {
            let rec = &self.items[(ids[k].get() - 1) as usize];
            let m: Margin = rec.item.margins[dim];
            out.push(
                ExtentAndMargins {
                    margin_start: m.start,
                    extent: rec.size[dim],
                    margin_end: m.end,
                    wrap_me: rec.item.flags.as_child.wrap_me,
                    alignment: rec.item.flags.as_child.alignment_cross_axis[dim],
                },
            );
            k = k + 1;
        }
        out
    }

    /// Writes the box of the item in `idx` along `dim`.
    fn set_geom(&mut self, idx: usize, dim: usize, pos: Scalar, size: Scalar)
        requires
            idx < old(self).records().len(),
            dim < ND,
        ensures
            final(self).records().len() == old(self).records().len(),
            final(self).link_table() == old(self).link_table(),
            final(self).last_id() == old(self).last_id(),
            configs(final(self).records()) == configs(old(self).records()),
            geom(final(self).records(), dim as int) == geom(old(self).records(), dim as int).update(
                idx as int,
                (pos, size),
            ),
            forall|e: int|
                0 <= e < ND && e != dim ==> #[trigger] geom(final(self).records(), e) == geom(
                    old(self).records(),
                    e,
                ),
    {
        let mut rec = self.items[idx];
        rec.position[dim] = pos;
        rec.size[dim] = size;
        self.items.set(idx, rec);
        proof {
            assert(configs(self.items@) =~= configs(old(self).items@));
            assert(geom(self.items@, dim as int) =~= geom(old(self).items@, dim as int).update(
                idx as int,
                (pos, size),
            ));
            assert forall|e: int| 0 <= e < ND && e != dim implies #[trigger] geom(self.items@, e) == geom(
                old(self).items@,
                e,
            ) by {
                assert(geom(self.items@, e) =~= geom(old(self).items@, e));
            }
        }
    }

    // ====== layout

    /// Measure pass along `dim` over the tree under `item_id`.
    fn calc_size(&mut self, item_id: Id, dim: usize, Ghost(depth): Ghost<nat>)
        requires
            old(self).wf(),
            dim < ND,
            tree_ok(old(self).link_table(), item_id, depth),
        ensures
            final(self).wf(),
            final(self).records().len() == old(self).records().len(),
            final(self).link_table() == old(self).link_table(),
            configs(final(self).records()) == configs(old(self).records()),
            geom(final(self).records(), dim as int) == measure_pass(
                configs(old(self).records()),
                old(self).link_table(),
                geom(old(self).records(), dim as int),
                item_id,
                dim as int,
                depth,
            ),
            forall|e: int|
                0 <= e < ND && e != dim ==> #[trigger] geom(final(self).records(), e) == geom(
                    old(self).records(),
                    e,
                ),
        decreases depth,
    {
        let ghost cfgs = configs(self.records());
        let ghost links = self.link_table();
        let ghost g0 = geom(self.records(), dim as int);
        let ids = self.children_of(item_id);
        let mut k: usize = 0;
        while k < ids.len()
            invariant
                self.wf(),
                dim < ND,
                k <= ids.len(),
                depth > 0,
                ids@ == children(links, item_id),
                ids.len() <= self.count(),
                forall|q: int| 0 <= q < ids.len() ==> self.contains(#[trigger] ids@[q]),
                tree_ok(links, item_id, depth),
                self.link_table() == links,
                self.records().len() == old(self).records().len(),
                configs(self.records()) == cfgs,
                geom(self.records(), dim as int) == measure_list(cfgs, links, g0, ids@, dim as int, depth, k as int),
                forall|e: int|
                    0 <= e < ND && e != dim ==> #[trigger] geom(self.records(), e) == geom(old(self).records(), e),
            decreases ids.len() - k,
        {
            let child = ids[k];
            self.calc_size(child, dim, Ghost((depth - 1) as nat));
            k = k + 1;
        }
        let exts = self.calc_extent_margins(&ids, dim);
        let idx = (item_id.get() - 1) as usize;
        let rec = self.items[idx];
        let wrap = match rec.item.flags.as_parent.layout {
            Layout::Flex(_) => rec.item.flags.as_parent.allow_wrap,
            Layout::Fixed => false,
        };
        let along = match rec.item.flags.as_parent.layout {
            Layout::Flex(a) => a.into_usize() == dim,
            Layout::Fixed => false,
        };
        let extent: Scalar = match rec.item.size[dim] {
            Some(v) => v,
            None => if along {
                clamp_to_scalar(calc_along_axis(&exts, wrap))
            } else {
                clamp_to_scalar(calc_cross_axis(&exts, wrap))
            },
        };
        proof {
            assert(cfgs[slot(item_id)] == rec.item);
            assert(extent == measured(cfgs, links, geom(self.records(), dim as int), item_id, dim as int));
        }
        self.set_geom(idx, dim, rec.position[dim], extent);
    }

    /// Places the children of a flex container along its axis `dim`, line by
    /// line.
    fn arrange_along_axis(&mut self, item_id: Id, dim: usize, ids: &Vec<Id>)
        requires
            old(self).wf(),
            dim < ND,
            old(self).contains(item_id),
            ids@ == children(old(self).link_table(), item_id),
            ids.len() <= old(self).count(),
            forall|q: int| 0 <= q < ids.len() ==> old(self).contains(#[trigger] ids@[q]),
            is_along(old(self).record(item_id).item, dim as int),
        ensures
            final(self).wf(),
            final(self).records().len() == old(self).records().len(),
            final(self).link_table() == old(self).link_table(),
            configs(final(self).records()) == configs(old(self).records()),
            geom(final(self).records(), dim as int) == arrange_children(
                configs(old(self).records()),
                old(self).link_table(),
                geom(old(self).records(), dim as int),
                item_id,
                dim as int,
            ),
            forall|e: int|
                0 <= e < ND && e != dim ==> #[trigger] geom(final(self).records(), e) == geom(
                    old(self).records(),
                    e,
                ),
    {
        let ghost cfgs = configs(self.records());
        let ghost links = self.link_table();
        let ghost g0 = geom(self.records(), dim as int);
        let exts = self.calc_extent_margins(ids, dim);
        let idx = (item_id.get() - 1) as usize;
        let rec = self.items[idx];
        proof {
            assert(cfgs[slot(item_id)] == rec.item);
            assert(g0[slot(item_id)] == (rec.position[dim as int], rec.size[dim as int]));
        }
        let p = LineParams {
            space: rec.size[dim],
            offset: rec.position[dim],
            alignment: rec.item.flags.as_parent.alignment_along_axis,
            allow_wrap: rec.item.flags.as_parent.allow_wrap,
            auto_wrap: rec.item.flags.as_parent.auto_wrap,
        };
        assert(p == line_params(rec.item, g0[slot(item_id)]));
        let positions = arrange_along_axis_range(&exts, p);
        let mut k: usize = 0;
        while k < ids.len()
            invariant
                self.wf(),
                dim < ND,
                k <= ids.len() == positions.len() == exts.len(),
                ids@ == children(links, item_id),
                forall|q: int| 0 <= q < ids.len() ==> self.contains(#[trigger] ids@[q]),
                forall|q: int| 0 <= q < ids.len() ==> #[trigger] positions@[q] == along_pos(exts@, p, q),
                exts@ == child_exts(cfgs, g0, ids@, dim as int),
                self.link_table() == links,
                self.records().len() == old(self).records().len(),
                configs(self.records()) == cfgs,
                geom(self.records(), dim as int) == place_along(g0, ids@, exts@, p, k as int),
                forall|e: int|
                    0 <= e < ND && e != dim ==> #[trigger] geom(self.records(), e) == geom(old(self).records(), e),
            decreases ids.len() - k,
        {
            let c = (ids[k].get() - 1) as usize;
            let size = self.items[c].size[dim];
            self.set_geom(c, dim, clamp_to_scalar(positions[k]), size);
            k = k + 1;
        }
        assert(geom(self.records(), dim as int) =~= arrange_children(cfgs, links, g0, item_id, dim as int));
    }

    /// Places the children of a container across `dim`: in one band as deep
    /// as the container, or in one band per line when lines are honoured.
    fn arrange_cross_axis(&mut self, item_id: Id, dim: usize, ids: &Vec<Id>)
        requires
            old(self).wf(),
            dim < ND,
            old(self).contains(item_id),
            ids@ == children(old(self).link_table(), item_id),
            ids.len() <= old(self).count(),
            forall|q: int| 0 <= q < ids.len() ==> old(self).contains(#[trigger] ids@[q]),
            !is_along(old(self).record(item_id).item, dim as int),
        ensures
            final(self).wf(),
            final(self).records().len() == old(self).records().len(),
            final(self).link_table() == old(self).link_table(),
            configs(final(self).records()) == configs(old(self).records()),
            geom(final(self).records(), dim as int) == arrange_children(
                configs(old(self).records()),
                old(self).link_table(),
                geom(old(self).records(), dim as int),
                item_id,
                dim as int,
            ),
            forall|e: int|
                0 <= e < ND && e != dim ==> #[trigger] geom(final(self).records(), e) == geom(
                    old(self).records(),
                    e,
                ),
    {
        let ghost cfgs = configs(self.records());
        let ghost links = self.link_table();
        let ghost g0 = geom(self.records(), dim as int);
        let exts = self.calc_extent_margins(ids, dim);
        let idx = (item_id.get() - 1) as usize;
        let rec = self.items[idx];
        proof {
            assert(cfgs[slot(item_id)] == rec.item);
            assert(g0[slot(item_id)] == (rec.position[dim as int], rec.size[dim as int]));
        }
        let wrap = match rec.item.flags.as_parent.layout {
            Layout::Flex(_) => rec.item.flags.as_parent.allow_wrap,
            Layout::Fixed => false,
        };
        let placed = arrange_cross_axis_range(&exts, wrap, rec.size[dim] as i64, rec.position[dim] as i64);
        let mut k: usize = 0;
        while k < ids.len()
            invariant
                self.wf(),
                dim < ND,
                k <= ids.len() == placed.len() == exts.len(),
                ids@ == children(links, item_id),
                forall|q: int| 0 <= q < ids.len() ==> self.contains(#[trigger] ids@[q]),
                forall|q: int|
                    0 <= q < ids.len() ==> (#[trigger] placed@[q].0 as int, placed@[q].1 as int)
                        == cross_layout(exts@, wrap, rec.size[dim as int] as int, rec.position[dim as int] as int, q),
                exts@ == child_exts(cfgs, g0, ids@, dim as int),
                self.link_table() == links,
                self.records().len() == old(self).records().len(),
                configs(self.records()) == cfgs,
                geom(self.records(), dim as int) == place_cross(
                    g0,
                    ids@,
                    exts@,
                    wrap,
                    rec.size[dim as int] as int,
                    rec.position[dim as int] as int,
                    k as int,
                ),
                forall|e: int|
                    0 <= e < ND && e != dim ==> #[trigger] geom(self.records(), e) == geom(old(self).records(), e),
            decreases ids.len() - k,
        {
            let c = (ids[k].get() - 1) as usize;
            let (pos, size) = placed[k];
            self.set_geom(c, dim, clamp_to_scalar(pos), clamp_to_scalar(size));
            k = k + 1;
        }
        assert(geom(self.records(), dim as int) =~= arrange_children(cfgs, links, g0, item_id, dim as int));
    }

    /// Arrange pass along `dim` over the tree under `item_id`: places the
    /// children inside the item's box, then each child's own children.
    fn arrange(&mut self, item_id: Id, dim: usize, Ghost(depth): Ghost<nat>)
        requires
            old(self).wf(),
            dim < ND,
            tree_ok(old(self).link_table(), item_id, depth),
        ensures
            final(self).wf(),
            final(self).records().len() == old(self).records().len(),
            final(self).link_table() == old(self).link_table(),
            configs(final(self).records()) == configs(old(self).records()),
            geom(final(self).records(), dim as int) == arrange_pass(
                configs(old(self).records()),
                old(self).link_table(),
                geom(old(self).records(), dim as int),
                item_id,
                dim as int,
                depth,
            ),
            forall|e: int|
                0 <= e < ND && e != dim ==> #[trigger] geom(final(self).records(), e) == geom(
                    old(self).records(),
                    e,
                ),
        decreases depth,
    {
        let ghost cfgs = configs(self.records());
        let ghost links = self.link_table();
        let ghost g0 = geom(self.records(), dim as int);
        let ids = self.children_of(item_id);
        let idx = (item_id.get() - 1) as usize;
        let along = match self.items[idx].item.flags.as_parent.layout {
            Layout::Flex(a) => a.into_usize() == dim,
            Layout::Fixed => false,
        };
        if along {
            self.arrange_along_axis(item_id, dim, &ids);
        } else {
            self.arrange_cross_axis(item_id, dim, &ids);
        }
        let ghost g1 = geom(self.records(), dim as int);
        assert(g1 == arrange_children(cfgs, links, g0, item_id, dim as int));
        let mut k: usize = 0;
        while k < ids.len()
            invariant
                self.wf(),
                dim < ND,
                k <= ids.len(),
                depth > 0,
                ids@ == children(links, item_id),
                forall|q: int| 0 <= q < ids.len() ==> self.contains(#[trigger] ids@[q]),
                tree_ok(links, item_id, depth),
                self.link_table() == links,
                self.records().len() == old(self).records().len(),
                configs(self.records()) == cfgs,
                geom(self.records(), dim as int) == arrange_list(cfgs, links, g1, ids@, dim as int, depth, k as int),
                forall|e: int|
                    0 <= e < ND && e != dim ==> #[trigger] geom(self.records(), e) == geom(old(self).records(), e),
            decreases ids.len() - k,
        {
            let child = ids[k];
            self.arrange(child, dim, Ghost((depth - 1) as nat));
            k = k + 1;
        }
    }

    /// Lays out the tree under `item_id`: for each dimension the measure pass,
    /// then for each dimension the arrange pass. Following links from
    /// `item_id` must never come back to an item already on the path.
    pub fn layout_item_recursively(&mut self, item_id: Id) -> (r: Result<(), ItemNotFound>)
        requires
            old(self).wf(),
            old(self).contains(item_id) ==> acyclic_from(old(self).link_table(), item_id),
        ensures
            final(self).wf(),
            final(self).link_table() == old(self).link_table(),
            final(self).records().len() == old(self).records().len(),
            configs(final(self).records()) == configs(old(self).records()),
            !old(self).contains(item_id) ==> r == Err::<(), ItemNotFound>(ItemNotFound(item_id))
                && final(self).records() == old(self).records(),
            old(self).contains(item_id) ==> r is Ok,
            old(self).contains(item_id) ==> forall|d: int|
                0 <= d < ND ==> #[trigger] geom(final(self).records(), d) == layout_dim(
                    configs(old(self).records()),
                    old(self).link_table(),
                    geom(old(self).records(), d),
                    item_id,
                    d,
                ),
            old(self).contains(item_id) ==> forall|d: int|
                0 <= d < ND && (#[trigger] old(self).record(item_id).item.size@[d]) is Some
                    ==> final(self).record(item_id).size@[d] == old(self).record(item_id).item.size@[d]->Some_0,
    {
        if self.slot_of(item_id).is_none() {
            return Err(ItemNotFound(item_id));
        }
        let ghost cfgs = configs(self.records());
        let ghost links = self.link_table();
        let ghost n = links.len() as nat;
        let mut d: usize = 0;
        while d < ND
            invariant
                self.wf(),
                d <= ND,
                acyclic_from(links, item_id),
                n == links.len(),
                self.link_table() == links,
                self.records().len() == old(self).records().len(),
                configs(self.records()) == cfgs,
                cfgs == configs(old(self).records()),
                forall|e: int|
                    0 <= e < d ==> #[trigger] geom(self.records(), e) == measure_pass(
                        cfgs,
                        links,
                        geom(old(self).records(), e),
                        item_id,
                        e,
                        n,
                    ),
                forall|e: int| d <= e < ND ==> #[trigger] geom(self.records(), e) == geom(old(self).records(), e),
            decreases ND - d,
        {
            self.calc_size(item_id, d, Ghost(n));
            d = d + 1;
        }
        let mut d: usize = 0;
        while d < ND
            invariant
                self.wf(),
                d <= ND,
                acyclic_from(links, item_id),
                n == links.len(),
                self.link_table() == links,
                self.records().len() == old(self).records().len(),
                configs(self.records()) == cfgs,
                cfgs == configs(old(self).records()),
                forall|e: int|
                    0 <= e < d ==> #[trigger] geom(self.records(), e) == layout_dim(
                        cfgs,
                        links,
                        geom(old(self).records(), e),
                        item_id,
                        e,
                    ),
                forall|e: int|
                    d <= e < ND ==> #[trigger] geom(self.records(), e) == measure_pass(
                        cfgs,
                        links,
                        geom(old(self).records(), e),
                        item_id,
                        e,
                        n,
                    ),
            decreases ND - d,
        {
            self.arrange(item_id, d, Ghost(n));
            d = d + 1;
        }
        proof {
            assert forall|e: int|
                0 <= e < ND && (#[trigger] old(self).record(item_id).item.size@[e]) is Some implies self.record(
                item_id,
            ).size@[e] == old(self).record(item_id).item.size@[e]->Some_0 by {
                lemma_explicit_size_kept(cfgs, links, geom(old(self).records(), e), item_id, e);
                assert(geom(self.records(), e)[slot(item_id)].1 == self.record(item_id).size@[e]);
            }
        }
        Ok(())
    }
}

} // verus!