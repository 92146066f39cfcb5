use vstd::prelude::*;

use crate::geometry::{
    along_extent, along_pos, clamp_scalar, cross_extent, cross_layout, ExtentAndMargins, LineParams,
};
use crate::item::{Id, Item, Layout};
use crate::Scalar;

verus! {

/// Tree links of one item: its first child and its next sibling.
#[derive(Clone, Copy, Debug)]
pub struct Links {
    pub first_child: Option<Id>,
    pub next_sibling: Option<Id>,
}

/// An item's configuration with its computed box: position and size per
/// dimension.
#[derive(Debug, Clone, Copy)]
pub struct ItemWithCalcSize<const ND: usize> {
    pub item: Item<ND>,
    pub position: [Scalar; ND],
    pub size: [Scalar; ND],
}

impl<const ND: usize> Default for ItemWithCalcSize<ND> {
    fn default() -> (r: Self)
        ensures
            r.item.is_default(),
            forall|d: int| 0 <= d < ND ==> r.position@[d] == 0 && r.size@[d] == 0,
    {
        ItemWithCalcSize {
            item: Item::default(),
            position: vstd::array::array_fill_for_copy_types(0),
            size: vstd::array::array_fill_for_copy_types(0),
        }
    }
}

/// Position of an item in the arena's tables.
pub open spec fn slot(id: Id) -> int {
    id.value() - 1
}

/// `id` names one of `n` items.
pub open spec fn id_in(n: int, id: Id) -> bool {
    1 <= id.value() <= n
}

pub open spec fn link_in(n: int, link: Option<Id>) -> bool {
    match link {
        Some(x) => id_in(n, x),
        None => true,
    }
}

/// Every link names an existing item.
pub open spec fn links_valid(links: Seq<Links>) -> bool {
    forall|i: int|
        0 <= i < links.len() ==> link_in(links.len() as int, #[trigger] links[i].first_child) && link_in(
            links.len() as int,
            links[i].next_sibling,
        )
}

/// The sibling chain from `start`, followed for at most `fuel` items.
pub open spec fn chain(links: Seq<Links>, start: Option<Id>, fuel: nat) -> Seq<Id>
    decreases fuel,
{
    match start {
        None => Seq::empty(),
        Some(c) => if fuel == 0 || !id_in(links.len() as int, c) {
            Seq::empty()
        } else {
            seq![c] + chain(links, links[slot(c)].next_sibling, (fuel - 1) as nat)
        },
    }
}

/// The sibling chain from `start` ends within `fuel` items.
pub open spec fn chain_ends(links: Seq<Links>, start: Option<Id>, fuel: nat) -> bool
    decreases fuel,
{
    match start {
        None => true,
        Some(c) => fuel > 0 && id_in(links.len() as int, c) && chain_ends(
            links,
            links[slot(c)].next_sibling,
            (fuel - 1) as nat,
        ),
    }
}

pub open spec fn first_child(links: Seq<Links>, id: Id) -> Option<Id> {
    links[slot(id)].first_child
}

/// The children of `id`, in order.
pub open spec fn children(links: Seq<Links>, id: Id) -> Seq<Id> {
    chain(links, first_child(links, id), links.len() as nat)
}

/// Below `id` every sibling chain ends and no path is `depth` items long.
pub open spec fn tree_ok(links: Seq<Links>, id: Id, depth: nat) -> bool
    decreases depth,
{
    &&& depth > 0
    &&& id_in(links.len() as int, id)
    &&& chain_ends(links, first_child(links, id), links.len() as nat)
    &&& forall|k: int|
        0 <= k < children(links, id).len() ==> tree_ok(
            links,
            #[trigger] children(links, id)[k],
            (depth - 1) as nat,
        )
}

/// Following child and sibling links from `root` never comes back: the
/// items below `root` form a tree or a DAG.
pub open spec fn acyclic_from(links: Seq<Links>, root: Id) -> bool {
    tree_ok(links, root, links.len() as nat)
}

/// Position and size of every item along dimension `d`.
pub open spec fn geom<const ND: usize>(items: Seq<ItemWithCalcSize<ND>>, d: int) -> Seq<(Scalar, Scalar)> {
    Seq::new(items.len(), |i: int| (items[i].position@[d], items[i].size@[d]))
}

/// The configuration of every item.
pub open spec fn configs<const ND: usize>(items: Seq<ItemWithCalcSize<ND>>) -> Seq<Item<ND>> {
    Seq::new(items.len(), |i: int| items[i].item)
}

/// What a parent reads of a child with configuration `cfg` and extent
/// `extent` along `d`.
pub open spec fn ext_of<const ND: usize>(cfg: Item<ND>, extent: Scalar, d: int) -> ExtentAndMargins {
    ExtentAndMargins {
        margin_start: cfg.margins@[d].start,
        extent,
        margin_end: cfg.margins@[d].end,
        wrap_me: cfg.flags.as_child.wrap_me,
        alignment: cfg.flags.as_child.alignment_cross_axis@[d],
    }
}

pub open spec fn child_exts<const ND: usize>(
    cfgs: Seq<Item<ND>>,
    g: Seq<(Scalar, Scalar)>,
    ids: Seq<Id>,
    d: int,
) -> Seq<ExtentAndMargins> {
    Seq::new(ids.len(), |k: int| ext_of(cfgs[slot(ids[k])], g[slot(ids[k])].1, d))
}

/// `d` is the flex axis of the item.
pub open spec fn is_along<const ND: usize>(cfg: Item<ND>, d: int) -> bool {
    match cfg.flags.as_parent.layout {
        Layout::Flex(a) => a.index() == d,
        Layout::Fixed => false,
    }
}

/// The item breaks its children into lines: a flex container that allows it.
pub open spec fn honours_lines<const ND: usize>(cfg: Item<ND>) -> bool {
    cfg.flags.as_parent.layout is Flex && cfg.flags.as_parent.allow_wrap
}

/// The extent of `id` along `d` given its children's current sizes: the
/// explicit size if set, else what its children need, saturated to a `Scalar`.
pub open spec fn measured<const ND: usize>(
    cfgs: Seq<Item<ND>>,
    links: Seq<Links>,
    g: Seq<(Scalar, Scalar)>,
    id: Id,
    d: int,
) -> Scalar {
    let cfg = cfgs[slot(id)];
    let e = child_exts(cfgs, g, children(links, id), d);
    match cfg.size@[d] {
        Some(v) => v,
        None => (if is_along(cfg, d) {
            clamp_scalar(along_extent(e, honours_lines(cfg)))
        } else {
            clamp_scalar(cross_extent(e, honours_lines(cfg)))
        }) as Scalar,
    }
}

/// Measure pass along `d`: children first, then the item itself.
pub open spec fn measure_pass<const ND: usize>(
    cfgs: Seq<Item<ND>>,
    links: Seq<Links>,
    g: Seq<(Scalar, Scalar)>,
    id: Id,
    d: int,
    depth: nat,
) -> Seq<(Scalar, Scalar)>
    decreases depth, 1nat, 0int,
{
    if depth == 0 {
        g
    } else {
        let ids = children(links, id);
        let g1 = measure_list(cfgs, links, g, ids, d, depth, ids.len() as int);
        g1.update(slot(id), (g1[slot(id)].0, measured(cfgs, links, g1, id, d)))
    }
}

/// Measure pass on the first `k` of `ids`, in order.
pub open spec fn measure_list<const ND: usize>(
    cfgs: Seq<Item<ND>>,
    links: Seq<Links>,
    g: Seq<(Scalar, Scalar)>,
    ids: Seq<Id>,
    d: int,
    depth: nat,
    k: int,
) -> Seq<(Scalar, Scalar)>
    decreases depth, 0nat, k,
{
    if k <= 0 || depth == 0 {
        g
    } else {
        measure_pass(
            cfgs,
            links,
            measure_list(cfgs, links, g, ids, d, depth, k - 1),
            ids[k - 1],
            d,
            (depth - 1) as nat,
        )
    }
}

/// How a flex container with configuration `cfg` and box `own` lines up
/// its children along its axis.
pub open spec fn line_params<const ND: usize>(cfg: Item<ND>, own: (Scalar, Scalar)) -> LineParams {
    LineParams {
        space: own.1,
        offset: own.0,
        alignment: cfg.flags.as_parent.alignment_along_axis,
        allow_wrap: cfg.flags.as_parent.allow_wrap,
        auto_wrap: cfg.flags.as_parent.auto_wrap,
    }
}

/// Writes the positions along the axis of the first `k` of `ids`.
pub open spec fn place_along(
    g: Seq<(Scalar, Scalar)>,
    ids: Seq<Id>,
    e: Seq<ExtentAndMargins>,
    p: LineParams,
    k: int,
) -> Seq<(Scalar, Scalar)>
    decreases k,
{
    if k <= 0 {
        g
    } else {
        let g1 = place_along(g, ids, e, p, k - 1);
        g1.update(slot(ids[k - 1]), (clamp_scalar(along_pos(e, p, k - 1)) as Scalar, g1[slot(ids[k - 1])].1))
    }
}

/// Writes the positions and sizes across the axis of the first `k` of `ids`.
pub open spec fn place_cross(
    g: Seq<(Scalar, Scalar)>,
    ids: Seq<Id>,
    e: Seq<ExtentAndMargins>,
    wrap: bool,
    space: int,
    offset: int,
    k: int,
) -> Seq<(Scalar, Scalar)>
    decreases k,
{
    if k <= 0 {
        g
    } else {
        let g1 = place_cross(g, ids, e, wrap, space, offset, k - 1);
        let placed = cross_layout(e, wrap, space, offset, k - 1);
        g1.update(slot(ids[k - 1]), (clamp_scalar(placed.0) as Scalar, clamp_scalar(placed.1) as Scalar))
    }
}

/// Places the children of `id` along `d` inside its box.
pub open spec fn arrange_children<const ND: usize>(
    cfgs: Seq<Item<ND>>,
    links: Seq<Links>,
    g: Seq<(Scalar, Scalar)>,
    id: Id,
    d: int,
) -> Seq<(Scalar, Scalar)> {
    let cfg = cfgs[slot(id)];
    let ids = children(links, id);
    let e = child_exts(cfgs, g, ids, d);
    let own = g[slot(id)];
    if is_along(cfg, d) {
        place_along(g, ids, e, line_params(cfg, own), ids.len() as int)
    } else {
        place_cross(g, ids, e, honours_lines(cfg), own.1 as int, own.0 as int, ids.len() as int)
    }
}

/// Arrange pass along `d`: the item's children, then each child's subtree.
pub open spec fn arrange_pass<const ND: usize>(
    cfgs: Seq<Item<ND>>,
    links: Seq<Links>,
    g: Seq<(Scalar, Scalar)>,
    id: Id,
    d: int,
    depth: nat,
) -> Seq<(Scalar, Scalar)>
    decreases depth, 1nat, 0int,
{
    if depth == 0 {
        g
    } else {
        let ids = children(links, id);
        arrange_list(cfgs, links, arrange_children(cfgs, links, g, id, d), ids, d, depth, ids.len() as int)
    }
}

/// Arrange pass on the first `k` of `ids`, in order.
pub open spec fn arrange_list<const ND: usize>(
    cfgs: Seq<Item<ND>>,
    links: Seq<Links>,
    g: Seq<(Scalar, Scalar)>,
    ids: Seq<Id>,
    d: int,
    depth: nat,
    k: int,
) -> Seq<(Scalar, Scalar)>
    decreases depth, 0nat, k,
{
    if k <= 0 || depth == 0 {
        g
    } else {
        arrange_pass(
            cfgs,
            links,
            arrange_list(cfgs, links, g, ids, d, depth, k - 1),
            ids[k - 1],
            d,
            (depth - 1) as nat,
        )
    }
}

/// The layout of the tree under `root` along `d`: the measure pass, then the
/// arrange pass.
pub open spec fn layout_dim<const ND: usize>(
    cfgs: Seq<Item<ND>>,
    links: Seq<Links>,
    g: Seq<(Scalar, Scalar)>,
    root: Id,
    d: int,
) -> Seq<(Scalar, Scalar)> {
    let n = links.len() as nat;
    arrange_pass(cfgs, links, measure_pass(cfgs, links, g, root, d, n), root, d, n)
}

/// A chain holds at most `fuel` items, each of them existing.
pub proof fn lemma_chain_bounds(links: Seq<Links>, start: Option<Id>, fuel: nat)
    ensures
        chain(links, start, fuel).len() <= fuel,
        forall|k: int|
            0 <= k < chain(links, start, fuel).len() ==> id_in(
                links.len() as int,
                #[trigger] chain(links, start, fuel)[k],
            ),
    decreases fuel,
{
    if let Some(c) = start {
        if fuel > 0 && id_in(links.len() as int, c) {
            lemma_chain_bounds(links, links[slot(c)].next_sibling, (fuel - 1) as nat);
            let rest = chain(links, links[slot(c)].next_sibling, (fuel - 1) as nat);
            assert forall|k: int| 0 <= k < chain(links, start, fuel).len() implies id_in(
                links.len() as int,
                #[trigger] chain(links, start, fuel)[k],
            ) by {
                if k > 0 {
                    assert(chain(links, start, fuel)[k] == rest[k - 1]);
                }
            }
        }
    }
}

/// `x` is a child of `id`, or below one of its children, within `depth` levels.
pub open spec fn below(links: Seq<Links>, id: Id, depth: nat, x: Id) -> bool
    decreases depth,
{
    depth > 0 && exists|k: int|
        0 <= k < children(links, id).len() && (children(links, id)[k] == x || below(
            links,
            #[trigger] children(links, id)[k],
            (depth - 1) as nat,
            x,
        ))
}

proof fn lemma_tree_ok_mono(links: Seq<Links>, x: Id, m: nat)
    requires
        tree_ok(links, x, m),
    ensures
        tree_ok(links, x, m + 1),
    decreases m,
{
    let kids = children(links, x);
    assert forall|k: int| 0 <= k < kids.len() implies tree_ok(links, #[trigger] kids[k], m) by {
        lemma_tree_ok_mono(links, kids[k], (m - 1) as nat);
    }
}

proof fn lemma_below_tree_ok(links: Seq<Links>, a: Id, k: nat, j: nat, x: Id)
    requires
        tree_ok(links, a, k),
        below(links, a, j, x),
    ensures
        tree_ok(links, x, (k - 1) as nat),
    decreases j,
{
    let kids = children(links, a);
    let m = choose|m: int|
        0 <= m < kids.len() && (kids[m] == x || below(links, #[trigger] kids[m], (j - 1) as nat, x));
    let c = kids[m];
    assert(tree_ok(links, c, (k - 1) as nat));
    if c != x {
        lemma_below_tree_ok(links, c, (k - 1) as nat, (j - 1) as nat, x);
        lemma_tree_ok_mono(links, x, (k - 2) as nat);
    }
}

/// Below an item that satisfies `tree_ok`, the item itself never appears.
pub proof fn lemma_not_below_itself(links: Seq<Links>, a: Id, k: nat, j: nat)
    requires
        tree_ok(links, a, k),
    ensures
        !below(links, a, j, a),
    decreases k,
{
    if below(links, a, j, a) {
        lemma_below_tree_ok(links, a, k, j, a);
        lemma_not_below_itself(links, a, (k - 1) as nat, j);
    }
}

proof fn lemma_children_exist(links: Seq<Links>, id: Id)
    ensures
        forall|k: int|
            0 <= k < children(links, id).len() ==> id_in(links.len() as int, #[trigger] children(links, id)[k]),
{
    lemma_chain_bounds(links, first_child(links, id), links.len() as nat);
}

proof fn lemma_place_along_frame(
    g: Seq<(Scalar, Scalar)>,
    ids: Seq<Id>,
    e: Seq<ExtentAndMargins>,
    p: LineParams,
    k: int,
    y: Id,
)
    requires
        0 <= slot(y) < g.len(),
        forall|j: int| 0 <= j < k ==> #[trigger] ids[j] != y && 0 <= slot(ids[j]) < g.len(),
    ensures
        place_along(g, ids, e, p, k).len() == g.len(),
        place_along(g, ids, e, p, k)[slot(y)] == g[slot(y)],
    decreases k,
{
    if k > 0 {
        lemma_place_along_frame(g, ids, e, p, k - 1, y);
        Id::lemma_value_injective(ids[k - 1], y);
    }
}

proof fn lemma_place_cross_frame(
    g: Seq<(Scalar, Scalar)>,
    ids: Seq<Id>,
    e: Seq<ExtentAndMargins>,
    wrap: bool,
    space: int,
    offset: int,
    k: int,
    y: Id,
)
    requires
        0 <= slot(y) < g.len(),
        forall|j: int| 0 <= j < k ==> #[trigger] ids[j] != y && 0 <= slot(ids[j]) < g.len(),
    ensures
        place_cross(g, ids, e, wrap, space, offset, k).len() == g.len(),
        place_cross(g, ids, e, wrap, space, offset, k)[slot(y)] == g[slot(y)],
    decreases k,
{
    if k > 0 {
        lemma_place_cross_frame(g, ids, e, wrap, space, offset, k - 1, y);
        Id::lemma_value_injective(ids[k - 1], y);
    }
}

/// The arrange pass under `id` leaves alone every item that is not below `id`.
proof fn lemma_arrange_frame<const ND: usize>(
    cfgs: Seq<Item<ND>>,
    links: Seq<Links>,
    g: Seq<(Scalar, Scalar)>,
    id: Id,
    d: int,
    depth: nat,
    y: Id,
)
    requires
        0 <= slot(y) < g.len(),
        g.len() == links.len(),
        !below(links, id, depth, y),
    ensures
        arrange_pass(cfgs, links, g, id, d, depth).len() == g.len(),
        arrange_pass(cfgs, links, g, id, d, depth)[slot(y)] == g[slot(y)],
    decreases depth, 1nat, 0int,
{
    if depth > 0 {
        let ids = children(links, id);
        lemma_children_exist(links, id);
        assert forall|j: int| 0 <= j < ids.len() implies #[trigger] ids[j] != y && !below(
            links,
            ids[j],
            (depth - 1) as nat,
            y,
        ) by {
            if ids[j] == y || below(links, ids[j], (depth - 1) as nat, y) {
                assert(below(links, id, depth, y));
            }
        }
        let cfg = cfgs[slot(id)];
        let e = child_exts(cfgs, g, ids, d);
        let own = g[slot(id)];
        lemma_place_along_frame(g, ids, e, line_params(cfg, own), ids.len() as int, y);
        lemma_place_cross_frame(g, ids, e, honours_lines(cfg), own.1 as int, own.0 as int, ids.len() as int, y);
        let g1 = arrange_children(cfgs, links, g, id, d);
        lemma_arrange_list_frame(cfgs, links, g1, ids, d, depth, ids.len() as int, y);
    }
}

proof fn lemma_arrange_list_frame<const ND: usize>(
    cfgs: Seq<Item<ND>>,
    links: Seq<Links>,
    g: Seq<(Scalar, Scalar)>,
    ids: Seq<Id>,
    d: int,
    depth: nat,
    k: int,
    y: Id,
)
    requires
        0 <= slot(y) < g.len(),
        g.len() == links.len(),
        k <= ids.len(),
        forall|j: int| 0 <= j < ids.len() ==> !below(links, #[trigger] ids[j], (depth - 1) as nat, y),
    ensures
        arrange_list(cfgs, links, g, ids, d, depth, k).len() == g.len(),
        arrange_list(cfgs, links, g, ids, d, depth, k)[slot(y)] == g[slot(y)],
    decreases depth, 0nat, k,
{
    if k > 0 && depth > 0 {
        lemma_arrange_list_frame(cfgs, links, g, ids, d, depth, k - 1, y);
        let g1 = arrange_list(cfgs, links, g, ids, d, depth, k - 1);
        lemma_arrange_frame(cfgs, links, g1, ids[k - 1], d, (depth - 1) as nat, y);
    }
}

proof fn lemma_measure_len<const ND: usize>(
    cfgs: Seq<Item<ND>>,
    links: Seq<Links>,
    g: Seq<(Scalar, Scalar)>,
    id: Id,
    d: int,
    depth: nat,
)
    requires
        g.len() == links.len(),
        id_in(links.len() as int, id),
    ensures
        measure_pass(cfgs, links, g, id, d, depth).len() == g.len(),
    decreases depth, 1nat, 0int,
{
    if depth > 0 {
        let ids = children(links, id);
        lemma_children_exist(links, id);
        lemma_measure_list_len(cfgs, links, g, ids, d, depth, ids.len() as int);
    }
}

proof fn lemma_measure_list_len<const ND: usize>(
    cfgs: Seq<Item<ND>>,
    links: Seq<Links>,
    g: Seq<(Scalar, Scalar)>,
    ids: Seq<Id>,
    d: int,
    depth: nat,
    k: int,
)
    requires
        g.len() == links.len(),
        k <= ids.len(),
        forall|j: int| 0 <= j < ids.len() ==> id_in(links.len() as int, #[trigger] ids[j]),
    ensures
        measure_list(cfgs, links, g, ids, d, depth, k).len() == g.len(),
    decreases depth, 0nat, k,
{
    if k > 0 && depth > 0 {
        lemma_measure_list_len(cfgs, links, g, ids, d, depth, k - 1);
        lemma_measure_len(cfgs, links, measure_list(cfgs, links, g, ids, d, depth, k - 1), ids[k - 1], d, (depth - 1) as nat);
    }
}

/// An explicit size survives the layout: after `layout_dim`, the root's size
/// along `d` is the size its configuration sets, whatever its children need.
pub proof fn lemma_explicit_size_kept<const ND: usize>(
    cfgs: Seq<Item<ND>>,
    links: Seq<Links>,
    g: Seq<(Scalar, Scalar)>,
    root: Id,
    d: int,
)
    requires
        acyclic_from(links, root),
        g.len() == links.len(),
        cfgs[slot(root)].size@[d] is Some,
    ensures
        layout_dim(cfgs, links, g, root, d)[slot(root)].1 == cfgs[slot(root)].size@[d]->Some_0,
{
    let n = links.len() as nat;
    let m = measure_pass(cfgs, links, g, root, d, n);
    let ids = children(links, root);
    lemma_children_exist(links, root);
    lemma_measure_list_len(cfgs, links, g, ids, d, n, ids.len() as int);
    assert(m[slot(root)].1 == cfgs[slot(root)].size@[d]->Some_0);
    lemma_measure_len(cfgs, links, g, root, d, n);
    lemma_not_below_itself(links, root, n, n);
    lemma_arrange_frame(cfgs, links, m, root, d, n, root);
}

/// `x` is `id` or lies under it, where the measure pass of depth `depth`
/// visits it.
pub open spec fn subtree(links: Seq<Links>, id: Id, depth: nat, x: Id) -> bool
    decreases depth,
{
    depth > 0 && (x == id || exists|k: int|
        0 <= k < children(links, id).len() && subtree(
            links,
            #[trigger] children(links, id)[k],
            (depth - 1) as nat,
            x,
        ))
}

proof fn lemma_measure_frame<const ND: usize>(
    cfgs: Seq<Item<ND>>,
    links: Seq<Links>,
    g: Seq<(Scalar, Scalar)>,
    id: Id,
    d: int,
    depth: nat,
)
    requires
        g.len() == links.len(),
        id_in(links.len() as int, id),
    ensures
        forall|i: int|
            0 <= i < g.len() ==> (#[trigger] measure_pass(cfgs, links, g, id, d, depth)[i]).0 == g[i].0,
        forall|x: Id|
            id_in(links.len() as int, x) && !subtree(links, id, depth, x) ==> #[trigger] measure_pass(
                cfgs,
                links,
                g,
                id,
                d,
                depth,
            )[slot(x)] == g[slot(x)],
    decreases depth, 1nat, 0int,
{
    lemma_measure_len(cfgs, links, g, id, d, depth);
    if depth > 0 {
        let ids = children(links, id);
        lemma_children_exist(links, id);
        lemma_measure_list_len(cfgs, links, g, ids, d, depth, ids.len() as int);
        lemma_measure_list_frame(cfgs, links, g, ids, d, depth, ids.len() as int);
        let g1 = measure_list(cfgs, links, g, ids, d, depth, ids.len() as int);
        assert forall|x: Id|
            id_in(links.len() as int, x) && !subtree(links, id, depth, x) implies #[trigger] measure_pass(
            cfgs,
            links,
            g,
            id,
            d,
            depth,
        )[slot(x)] == g[slot(x)] by {
            Id::lemma_value_injective(x, id);
            assert forall|j: int| 0 <= j < ids.len() implies !subtree(links, #[trigger] ids[j], (depth - 1) as nat, x) by {
                if subtree(links, ids[j], (depth - 1) as nat, x) {
                    assert(subtree(links, id, depth, x));
                }
            }
        }
    }
}

proof fn lemma_measure_list_frame<const ND: usize>(
    cfgs: Seq<Item<ND>>,
    links: Seq<Links>,
    g: Seq<(Scalar, Scalar)>,
    ids: Seq<Id>,
    d: int,
    depth: nat,
    k: int,
)
    requires
        g.len() == links.len(),
        k <= ids.len(),
        forall|j: int| 0 <= j < ids.len() ==> id_in(links.len() as int, #[trigger] ids[j]),
    ensures
        forall|i: int|
            0 <= i < g.len() ==> (#[trigger] measure_list(cfgs, links, g, ids, d, depth, k)[i]).0 == g[i].0,
        forall|x: Id|
            id_in(links.len() as int, x) && (forall|j: int|
                0 <= j < ids.len() ==> !subtree(links, #[trigger] ids[j], (depth - 1) as nat, x))
                ==> #[trigger] measure_list(cfgs, links, g, ids, d, depth, k)[slot(x)] == g[slot(x)],
    decreases depth, 0nat, k,
{
    lemma_measure_list_len(cfgs, links, g, ids, d, depth, k);
    if k > 0 && depth > 0 {
        lemma_measure_list_frame(cfgs, links, g, ids, d, depth, k - 1);
        lemma_measure_list_len(cfgs, links, g, ids, d, depth, k - 1);
        let g1 = measure_list(cfgs, links, g, ids, d, depth, k - 1);
        let r = measure_list(cfgs, links, g, ids, d, depth, k);
        assert(r == measure_pass(cfgs, links, g1, ids[k - 1], d, (depth - 1) as nat));
        lemma_measure_frame(cfgs, links, g1, ids[k - 1], d, (depth - 1) as nat);
        assert forall|i: int| 0 <= i < g.len() implies (#[trigger] r[i]).0 == g[i].0 by {
            assert(g1[i].0 == g[i].0);
        }
        assert forall|x: Id|
            id_in(links.len() as int, x) && (forall|j: int|
                0 <= j < ids.len() ==> !subtree(links, #[trigger] ids[j], (depth - 1) as nat, x)) implies #[trigger] r[slot(
            x,
        )] == g[slot(x)] by {
            assert(!subtree(links, ids[k - 1], (depth - 1) as nat, x));
            assert(g1[slot(x)] == g[slot(x)]);
        }
    }
}

/// Whatever the sizes before, the measure pass writes the same size into
/// every item of the subtree.
proof fn lemma_measure_writes<const ND: usize>(
    cfgs: Seq<Item<ND>>,
    links: Seq<Links>,
    g1: Seq<(Scalar, Scalar)>,
    g2: Seq<(Scalar, Scalar)>,
    id: Id,
    d: int,
    depth: nat,
)
    requires
        g1.len() == links.len(),
        g2.len() == links.len(),
        tree_ok(links, id, depth),
    ensures
        forall|x: Id|
            id_in(links.len() as int, x) && subtree(links, id, depth, x) ==> (#[trigger] measure_pass(
                cfgs,
                links,
                g1,
                id,
                d,
                depth,
            )[slot(x)]).1 == measure_pass(cfgs, links, g2, id, d, depth)[slot(x)].1,
    decreases depth, 1nat, 0int,
{
    let ids = children(links, id);
    lemma_children_exist(links, id);
    let n = ids.len() as int;
    lemma_measure_list_len(cfgs, links, g1, ids, d, depth, n);
    lemma_measure_list_len(cfgs, links, g2, ids, d, depth, n);
    lemma_measure_list_writes(cfgs, links, g1, g2, ids, d, depth, n);
    let h1 = measure_list(cfgs, links, g1, ids, d, depth, n);
    let h2 = measure_list(cfgs, links, g2, ids, d, depth, n);
    assert forall|j: int| 0 <= j < n implies h1[slot(#[trigger] ids[j])].1 == h2[slot(ids[j])].1 by {
        assert(tree_ok(links, ids[j], (depth - 1) as nat));
        assert(subtree(links, ids[j], (depth - 1) as nat, ids[j]));
    }
    assert(child_exts(cfgs, h1, ids, d) =~= child_exts(cfgs, h2, ids, d));
    assert forall|x: Id|
        id_in(links.len() as int, x) && subtree(links, id, depth, x) implies (#[trigger] measure_pass(
        cfgs,
        links,
        g1,
        id,
        d,
        depth,
    )[slot(x)]).1 == measure_pass(cfgs, links, g2, id, d, depth)[slot(x)].1 by {
        Id::lemma_value_injective(x, id);
        if x != id {
            let j = choose|j: int| 0 <= j < n && subtree(links, #[trigger] ids[j], (depth - 1) as nat, x);
        }
    }
}

proof fn lemma_measure_list_writes<const ND: usize>(
    cfgs: Seq<Item<ND>>,
    links: Seq<Links>,
    g1: Seq<(Scalar, Scalar)>,
    g2: Seq<(Scalar, Scalar)>,
    ids: Seq<Id>,
    d: int,
    depth: nat,
    k: int,
)
    requires
        g1.len() == links.len(),
        g2.len() == links.len(),
        depth > 0,
        k <= ids.len(),
        forall|j: int| 0 <= j < ids.len() ==> id_in(links.len() as int, #[trigger] ids[j]),
        forall|j: int| 0 <= j < ids.len() ==> tree_ok(links, #[trigger] ids[j], (depth - 1) as nat),
    ensures
        forall|x: Id|
            id_in(links.len() as int, x) && (exists|j: int|
                0 <= j < k && subtree(links, #[trigger] ids[j], (depth - 1) as nat, x)) ==> (
            #[trigger] measure_list(cfgs, links, g1, ids, d, depth, k)[slot(x)]).1 == measure_list(
                cfgs,
                links,
                g2,
                ids,
                d,
                depth,
                k,
            )[slot(x)].1,
    decreases depth, 0nat, k,
{
    if k > 0 && depth > 0 {
        lemma_measure_list_writes(cfgs, links, g1, g2, ids, d, depth, k - 1);
        lemma_measure_list_len(cfgs, links, g1, ids, d, depth, k - 1);
        lemma_measure_list_len(cfgs, links, g2, ids, d, depth, k - 1);
        let h1 = measure_list(cfgs, links, g1, ids, d, depth, k - 1);
        let h2 = measure_list(cfgs, links, g2, ids, d, depth, k - 1);
        let c = ids[k - 1];
        lemma_measure_writes(cfgs, links, h1, h2, c, d, (depth - 1) as nat);
        lemma_measure_frame(cfgs, links, h1, c, d, (depth - 1) as nat);
        lemma_measure_frame(cfgs, links, h2, c, d, (depth - 1) as nat);
        let r1 = measure_list(cfgs, links, g1, ids, d, depth, k);
        let r2 = measure_list(cfgs, links, g2, ids, d, depth, k);
        assert(r1 == measure_pass(cfgs, links, h1, c, d, (depth - 1) as nat));
        assert(r2 == measure_pass(cfgs, links, h2, c, d, (depth - 1) as nat));
        assert forall|x: Id|
            id_in(links.len() as int, x) && (exists|j: int|
                0 <= j < k && subtree(links, #[trigger] ids[j], (depth - 1) as nat, x)) implies (
        #[trigger] r1[slot(x)]).1 == r2[slot(x)].1 by {
            if !subtree(links, c, (depth - 1) as nat, x) {
                let j = choose|j: int| 0 <= j < k && subtree(links, #[trigger] ids[j], (depth - 1) as nat, x);
                assert(j < k - 1);
                assert(h1[slot(x)].1 == h2[slot(x)].1);
                assert(r1[slot(x)] == h1[slot(x)]);
                assert(r2[slot(x)] == h2[slot(x)]);
            }
        }
    }
}

/// `h1` and `h2` hold the same sizes, and the same positions except at the
/// items in `dis`.
spec fn agree_except(h1: Seq<(Scalar, Scalar)>, h2: Seq<(Scalar, Scalar)>, n: int, dis: Set<Id>) -> bool {
    &&& h1.len() == n
    &&& h2.len() == n
    &&& forall|x: Id|
        id_in(n, x) ==> (#[trigger] h1[slot(x)]).1 == h2[slot(x)].1 && (!dis.contains(x) ==> h1[slot(x)].0
            == h2[slot(x)].0)
}

proof fn lemma_agree_weaken(h1: Seq<(Scalar, Scalar)>, h2: Seq<(Scalar, Scalar)>, n: int, a: Set<Id>, b: Set<Id>)
    requires
        agree_except(h1, h2, n, a),
        forall|x: Id| #[trigger] a.contains(x) ==> b.contains(x),
    ensures
        agree_except(h1, h2, n, b),
{
}

proof fn lemma_place_along_agree(
    h1: Seq<(Scalar, Scalar)>,
    h2: Seq<(Scalar, Scalar)>,
    ids: Seq<Id>,
    e: Seq<ExtentAndMargins>,
    p: LineParams,
    k: int,
    n: int,
    dis: Set<Id>,
)
    requires
        agree_except(h1, h2, n, dis),
        k <= ids.len(),
        forall|j: int| 0 <= j < ids.len() ==> id_in(n, #[trigger] ids[j]),
    ensures
        agree_except(place_along(h1, ids, e, p, k), place_along(h2, ids, e, p, k), n, dis),
        forall|j: int|
            0 <= j < k ==> (#[trigger] place_along(h1, ids, e, p, k)[slot(ids[j])]).0 == place_along(
                h2,
                ids,
                e,
                p,
                k,
            )[slot(ids[j])].0,
    decreases k,
{
    if k > 0 {
        lemma_place_along_agree(h1, h2, ids, e, p, k - 1, n, dis);
        let c = ids[k - 1];
        let r1 = place_along(h1, ids, e, p, k);
        let r2 = place_along(h2, ids, e, p, k);
        assert forall|x: Id| id_in(n, x) implies (#[trigger] r1[slot(x)]).1 == r2[slot(x)].1 && (!dis.contains(x)
            ==> r1[slot(x)].0 == r2[slot(x)].0) by {
            Id::lemma_value_injective(x, c);
        }
        assert forall|j: int| 0 <= j < k implies (#[trigger] r1[slot(ids[j])]).0 == r2[slot(ids[j])].0 by {
            Id::lemma_value_injective(ids[j], c);
        }
    }
}

proof fn lemma_place_cross_agree(
    h1: Seq<(Scalar, Scalar)>,
    h2: Seq<(Scalar, Scalar)>,
    ids: Seq<Id>,
    e: Seq<ExtentAndMargins>,
    wrap: bool,
    space: int,
    offset: int,
    k: int,
    n: int,
    dis: Set<Id>,
)
    requires
        agree_except(h1, h2, n, dis),
        k <= ids.len(),
        forall|j: int| 0 <= j < ids.len() ==> id_in(n, #[trigger] ids[j]),
    ensures
        agree_except(
            place_cross(h1, ids, e, wrap, space, offset, k),
            place_cross(h2, ids, e, wrap, space, offset, k),
            n,
            dis,
        ),
        forall|j: int|
            0 <= j < k ==> (#[trigger] place_cross(h1, ids, e, wrap, space, offset, k)[slot(ids[j])]).0
                == place_cross(h2, ids, e, wrap, space, offset, k)[slot(ids[j])].0,
    decreases k,
{
    if k > 0 {
        lemma_place_cross_agree(h1, h2, ids, e, wrap, space, offset, k - 1, n, dis);
        let c = ids[k - 1];
        let r1 = place_cross(h1, ids, e, wrap, space, offset, k);
        let r2 = place_cross(h2, ids, e, wrap, space, offset, k);
        assert forall|x: Id| id_in(n, x) implies (#[trigger] r1[slot(x)]).1 == r2[slot(x)].1 && (!dis.contains(x)
            ==> r1[slot(x)].0 == r2[slot(x)].0) by {
            Id::lemma_value_injective(x, c);
        }
        assert forall|j: int| 0 <= j < k implies (#[trigger] r1[slot(ids[j])]).0 == r2[slot(ids[j])].0 by {
            Id::lemma_value_injective(ids[j], c);
        }
    }
}

/// Two inputs that differ only in positions of items below `id` (not in
/// `id`'s own) give arrange passes that differ at most where the pass did
/// not write.
proof fn lemma_arrange_agree<const ND: usize>(
    cfgs: Seq<Item<ND>>,
    links: Seq<Links>,
    h1: Seq<(Scalar, Scalar)>,
    h2: Seq<(Scalar, Scalar)>,
    id: Id,
    d: int,
    depth: nat,
    dis: Set<Id>,
)
    requires
        agree_except(h1, h2, links.len() as int, dis),
        id_in(links.len() as int, id),
        !dis.contains(id),
    ensures
        agree_except(
            arrange_pass(cfgs, links, h1, id, d, depth),
            arrange_pass(cfgs, links, h2, id, d, depth),
            links.len() as int,
            Set::new(|x: Id| dis.contains(x) && !below(links, id, depth, x)),
        ),
    decreases depth, 1nat, 0int,
{
    let n = links.len() as int;
    let target = Set::new(|x: Id| dis.contains(x) && !below(links, id, depth, x));
    if depth == 0 {
        lemma_agree_weaken(h1, h2, n, dis, target);
    } else {
        let ids = children(links, id);
        let k = ids.len() as int;
        lemma_children_exist(links, id);
        assert(child_exts(cfgs, h1, ids, d) =~= child_exts(cfgs, h2, ids, d));
        assert(h1[slot(id)] == h2[slot(id)]);
        let cfg = cfgs[slot(id)];
        let e = child_exts(cfgs, h1, ids, d);
        let own = h1[slot(id)];
        lemma_place_along_agree(h1, h2, ids, e, line_params(cfg, own), k, n, dis);
        lemma_place_cross_agree(h1, h2, ids, e, honours_lines(cfg), own.1 as int, own.0 as int, k, n, dis);
        let g1 = arrange_children(cfgs, links, h1, id, d);
        let g2 = arrange_children(cfgs, links, h2, id, d);
        let dis1 = Set::new(|x: Id| dis.contains(x) && !ids.contains(x));
        assert forall|x: Id| id_in(n, x) implies (#[trigger] g1[slot(x)]).1 == g2[slot(x)].1 && (!dis1.contains(
            x,
        ) ==> g1[slot(x)].0 == g2[slot(x)].0) by {
            if ids.contains(x) {
                let j = choose|j: int| 0 <= j < k && ids[j] == x;
                assert(g1[slot(ids[j])].0 == g2[slot(ids[j])].0);
            }
        }
        assert forall|j: int| 0 <= j < k implies !dis1.contains(#[trigger] ids[j]) by {
            assert(ids.contains(ids[j]));
        }
        lemma_arrange_list_agree(cfgs, links, g1, g2, ids, d, depth, k, dis1);
        let fin = Set::new(
            |x: Id|
                dis1.contains(x) && !(exists|j: int|
                    0 <= j < k && below(links, #[trigger] ids[j], (depth - 1) as nat, x)),
        );
        assert forall|x: Id| #[trigger] fin.contains(x) implies target.contains(x) by {
            if below(links, id, depth, x) {
                let j = choose|j: int|
                    0 <= j < k && (ids[j] == x || below(links, #[trigger] ids[j], (depth - 1) as nat, x));
                if ids[j] == x {
                    assert(ids.contains(x));
                }
            }
        }
        lemma_agree_weaken(
            arrange_pass(cfgs, links, h1, id, d, depth),
            arrange_pass(cfgs, links, h2, id, d, depth),
            n,
            fin,
            target,
        );
    }
}

proof fn lemma_arrange_list_agree<const ND: usize>(
    cfgs: Seq<Item<ND>>,
    links: Seq<Links>,
    h1: Seq<(Scalar, Scalar)>,
    h2: Seq<(Scalar, Scalar)>,
    ids: Seq<Id>,
    d: int,
    depth: nat,
    k: int,
    dis: Set<Id>,
)
    requires
        agree_except(h1, h2, links.len() as int, dis),
        depth > 0,
        k <= ids.len(),
        forall|j: int| 0 <= j < ids.len() ==> id_in(links.len() as int, #[trigger] ids[j]),
        forall|j: int| 0 <= j < ids.len() ==> !dis.contains(#[trigger] ids[j]),
    ensures
        agree_except(
            arrange_list(cfgs, links, h1, ids, d, depth, k),
            arrange_list(cfgs, links, h2, ids, d, depth, k),
            links.len() as int,
            Set::new(
                |x: Id|
                    dis.contains(x) && !(exists|j: int|
                        0 <= j < k && below(links, #[trigger] ids[j], (depth - 1) as nat, x)),
            ),
        ),
    decreases depth, 0nat, k,
{
    let n = links.len() as int;
    let target = Set::new(
        |x: Id| dis.contains(x) && !(exists|j: int| 0 <= j < k && below(links, #[trigger] ids[j], (depth - 1) as nat, x)),
    );
    if k <= 0 {
        lemma_agree_weaken(h1, h2, n, dis, target);
    } else {
        lemma_arrange_list_agree(cfgs, links, h1, h2, ids, d, depth, k - 1, dis);
        let m1 = arrange_list(cfgs, links, h1, ids, d, depth, k - 1);
        let m2 = arrange_list(cfgs, links, h2, ids, d, depth, k - 1);
        let dis_a = Set::new(
            |x: Id|
                dis.contains(x) && !(exists|j: int|
                    0 <= j < k - 1 && below(links, #[trigger] ids[j], (depth - 1) as nat, x)),
        );
        let c = ids[k - 1];
        lemma_arrange_agree(cfgs, links, m1, m2, c, d, (depth - 1) as nat, dis_a);
        let fin = Set::new(|x: Id| dis_a.contains(x) && !below(links, c, (depth - 1) as nat, x));
        assert forall|x: Id| #[trigger] fin.contains(x) implies target.contains(x) by {
            if exists|j: int| 0 <= j < k && below(links, #[trigger] ids[j], (depth - 1) as nat, x) {
                let j = choose|j: int| 0 <= j < k && below(links, #[trigger] ids[j], (depth - 1) as nat, x);
                if j < k - 1 {
                    assert(!dis_a.contains(x));
                }
            }
        }
        lemma_agree_weaken(
            arrange_list(cfgs, links, h1, ids, d, depth, k),
            arrange_list(cfgs, links, h2, ids, d, depth, k),
            n,
            fin,
            target,
        );
    }
}

proof fn lemma_below_in_subtree(links: Seq<Links>, id: Id, k: nat, x: Id)
    requires
        tree_ok(links, id, k),
        below(links, id, k, x),
    ensures
        subtree(links, id, k, x),
    decreases k,
{
    let ids = children(links, id);
    let j = choose|j: int| 0 <= j < ids.len() && (ids[j] == x || below(links, #[trigger] ids[j], (k - 1) as nat, x));
    assert(tree_ok(links, ids[j], (k - 1) as nat));
    if ids[j] != x {
        lemma_below_in_subtree(links, ids[j], (k - 1) as nat, x);
    }
    assert(subtree(links, ids[j], (k - 1) as nat, x));
}

/// Layout is idempotent: laying out the tree under `root` a second time,
/// with nothing changed in between, gives the same geometry.
pub proof fn lemma_layout_idempotent<const ND: usize>(
    cfgs: Seq<Item<ND>>,
    links: Seq<Links>,
    g: Seq<(Scalar, Scalar)>,
    root: Id,
    d: int,
)
    requires
        acyclic_from(links, root),
        g.len() == links.len(),
        links.len() <= u32::MAX,
    ensures
        layout_dim(cfgs, links, layout_dim(cfgs, links, g, root, d), root, d) == layout_dim(
            cfgs,
            links,
            g,
            root,
            d,
        ),
{
    let n = links.len() as nat;
    let h1 = measure_pass(cfgs, links, g, root, d, n);
    let once = arrange_pass(cfgs, links, h1, root, d, n);
    let h2 = measure_pass(cfgs, links, once, root, d, n);
    lemma_measure_len(cfgs, links, g, root, d, n);
    lemma_not_below_itself(links, root, n, n);
    lemma_arrange_frame(cfgs, links, h1, root, d, n, root);
    lemma_measure_len(cfgs, links, once, root, d, n);
    lemma_measure_frame(cfgs, links, g, root, d, n);
    lemma_measure_frame(cfgs, links, once, root, d, n);
    lemma_measure_writes(cfgs, links, g, once, root, d, n);
    let dis = Set::new(|x: Id| below(links, root, n, x));
    assert forall|x: Id| id_in(n as int, x) implies (#[trigger] h1[slot(x)]).1 == h2[slot(x)].1 && (!dis.contains(x)
        ==> h1[slot(x)].0 == h2[slot(x)].0) by {
        if !below(links, root, n, x) {
            lemma_arrange_frame(cfgs, links, h1, root, d, n, x);
        } else {
            lemma_below_in_subtree(links, root, n, x);
        }
        if !subtree(links, root, n, x) {
            if below(links, root, n, x) {
                lemma_below_in_subtree(links, root, n, x);
            }
        }
    }
    lemma_arrange_agree(cfgs, links, h1, h2, root, d, n, dis);
    let twice = arrange_pass(cfgs, links, h2, root, d, n);
    lemma_arrange_frame(cfgs, links, h2, root, d, n, root);
    assert forall|i: int| 0 <= i < once.len() implies #[trigger] twice[i] == once[i] by {
        Id::lemma_from_value((i + 1) as nat);
        let x = Id::from_value((i + 1) as nat);
        assert(slot(x) == i);
        assert(once[slot(x)].1 == twice[slot(x)].1);
    }
    assert(twice =~= once);
}

} // verus!
