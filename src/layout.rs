//! The layout solver: the Minimize Resolver and the sizing of a container's
//! children along its main and cross axis.
//!
//! The recursive definitions carry a `fuel` argument that bounds how deep
//! they look below the given nodes. Callers pass at least the distance to the
//! tree's depth bound, so in a well-formed tree the fuel never runs out.
use crate::geometry::{
    align_gap, align_offset, relative_fill_spec, relative_padding_spec, to_frame_spec,
    to_relative_frame_spec, Content, Direction, FillType, Frame, RelativeFrame,
};
use crate::tree::{ConstraintKey, Tree};
use vstd::prelude::*;

verus! {

/// The smaller of two integers.
pub open spec fn min_int(a: int, b: int) -> int {
    if a < b {
        a
    } else {
        b
    }
}

/// The larger of two integers.
pub open spec fn max_int(a: int, b: int) -> int {
    if a < b {
        b
    } else {
        a
    }
}

/// The extent of `c`'s children, resolved in `c`'s own direction and given
/// back in the terms of `direction`.
pub open spec fn nested_min(
    t: &Tree,
    c: ConstraintKey,
    direction: Direction,
    main_budget: int,
    cross_budget: int,
    fuel: nat,
) -> (int, int)
    decreases fuel, t.children_of(c).len() + 1,
{
    let own = t.value_of(c).content.direction;
    let keys = t.children_of(c);
    if own == direction {
        let s = min_fold(t, keys, keys.len() as nat, own, main_budget, cross_budget, fuel);
        (main_budget - s.0, min_int(s.1, cross_budget))
    } else {
        let s = min_fold(t, keys, keys.len() as nat, own, cross_budget, main_budget, fuel);
        (min_int(s.1, main_budget), cross_budget - s.0)
    }
}

/// The main and cross extent that sibling `c` asks for, in the terms of
/// `direction`, when `remaining` of the main budget is left.
pub open spec fn child_min(
    t: &Tree,
    c: ConstraintKey,
    direction: Direction,
    remaining: int,
    max_cross: int,
    fuel: nat,
) -> (int, int)
    decreases fuel, 0nat,
{
    let fill = relative_fill_spec(t.value_of(c).fill, direction);
    let pad = relative_padding_spec(t.value_of(c).content.padding, direction);
    let pad_main = pad.main_start + pad.main_end;
    let pad_cross = pad.cross_start + pad.cross_end;
    let sub = if fuel == 0 {
        (0int, 0int)
    } else {
        nested_min(t, c, direction, remaining, max_cross, (fuel - 1) as nat)
    };
    let main = match fill.main {
        FillType::Exact(v) => v + pad_main,
        FillType::Scale(_) => pad_main as int,
        FillType::Minimize => sub.0 + pad_main,
    };
    let cross = match fill.cross {
        FillType::Exact(v) => v + pad_cross,
        FillType::Scale(_) => pad_cross as int,
        FillType::Minimize => sub.1 + pad_cross,
    };
    (main, cross)
}

/// The Minimize Resolver over the first `n` of `keys`: the main budget left
/// and the largest cross extent asked for so far. Each sibling's main extent,
/// capped by what is left, comes off the budget before the next one asks.
pub open spec fn min_fold(
    t: &Tree,
    keys: Seq<ConstraintKey>,
    n: nat,
    direction: Direction,
    max_main: int,
    max_cross: int,
    fuel: nat,
) -> (int, int)
    decreases fuel, n,
{
    if n == 0 || n > keys.len() {
        (max_main, 0)
    } else {
        let prev = min_fold(t, keys, (n - 1) as nat, direction, max_main, max_cross, fuel);
        let ask = child_min(t, keys[n - 1], direction, prev.0, max_cross, fuel);
        (prev.0 - min_int(ask.0, prev.0), max_int(prev.1, ask.1))
    }
}

/// The extent that `keys`, laid out in `direction`, need: the main length
/// they take out of `max_main`, and the largest cross length any of them
/// asks for, capped by `max_cross`.
pub open spec fn min_extent(
    t: &Tree,
    keys: Seq<ConstraintKey>,
    direction: Direction,
    max_main: int,
    max_cross: int,
    fuel: nat,
) -> (int, int) {
    let s = min_fold(t, keys, keys.len() as nat, direction, max_main, max_cross, fuel);
    (max_main - s.0, min_int(s.1, max_cross))
}

/// Every key is in the tree, and `fuel` reaches below all of them.
pub open spec fn fueled(t: &Tree, keys: Seq<ConstraintKey>, fuel: nat) -> bool {
    forall|i: int|
        0 <= i < keys.len() ==> t.live(#[trigger] keys[i]) && t.depth(keys[i]) + fuel
            >= t.depth_bound()
}

/// The Minimize Resolver: the extent `(main, cross)` that `keys`, laid out
/// in `direction`, need within `max_main` by `max_cross`.
pub fn find_minimizing_length(
    tree: &Tree,
    keys: &Vec<ConstraintKey>,
    direction: Direction,
    max_main: u64,
    max_cross: u64,
    fuel: Ghost<nat>,
) -> (r: (u64, u64))
    requires
        tree.wf(),
        fueled(tree, keys@, fuel@),
    ensures
        r.0 == min_extent(tree, keys@, direction, max_main as int, max_cross as int, fuel@).0,
        r.1 == min_extent(tree, keys@, direction, max_main as int, max_cross as int, fuel@).1,
        r.0 <= max_main,
        r.1 <= max_cross,
    decreases fuel@, 1nat,
{
    let mut remaining: u64 = max_main;
    let mut seen: u128 = 0;
    let mut i: usize = 0;
    while i < keys.len()
        invariant
            tree.wf(),
            fueled(tree, keys@, fuel@),
            i <= keys@.len(),
            remaining <= max_main,
            remaining == min_fold(
                tree,
                keys@,
                i as nat,
                direction,
                max_main as int,
                max_cross as int,
                fuel@,
            ).0,
            seen == min_fold(
                tree,
                keys@,
                i as nat,
                direction,
                max_main as int,
                max_cross as int,
                fuel@,
            ).1,
            seen <= u64::MAX as u128 * 3,
        decreases keys@.len() - i,
    {
        let c = keys[i];
        let ask = child_extent(tree, c, direction, remaining, max_cross, fuel);
        let take: u64 = if ask.0 < remaining as u128 {
            ask.0 as u64
        } else {
            remaining
        };
        remaining = remaining - take;
        if ask.1 > seen {
            seen = ask.1;
        }
        i = i + 1;
    }
    let cross: u64 = if seen < max_cross as u128 {
        seen as u64
    } else {
        max_cross
    };
    (max_main - remaining, cross)
}

/// What sibling `c` asks for, as [`child_min`] states it.
fn child_extent(
    tree: &Tree,
    c: ConstraintKey,
    direction: Direction,
    remaining: u64,
    max_cross: u64,
    fuel: Ghost<nat>,
) -> (r: (u128, u128))
    requires
        tree.wf(),
        tree.live(c),
        tree.depth(c) + fuel@ >= tree.depth_bound(),
    ensures
        r.0 == child_min(tree, c, direction, remaining as int, max_cross as int, fuel@).0,
        r.1 == child_min(tree, c, direction, remaining as int, max_cross as int, fuel@).1,
        r.0 <= u64::MAX as u128 * 3,
        r.1 <= u64::MAX as u128 * 3,
    decreases fuel@, 0nat,
{
    let node = tree.get(c).unwrap();
    let fill = node.value.fill.to_relative_fill(direction);
    let pad = node.value.content.padding.to_relative_padding(direction);
    let pad_main: u128 = pad.main_start as u128 + pad.main_end as u128;
    let pad_cross: u128 = pad.cross_start as u128 + pad.cross_end as u128;
    let needs_sub = match fill.main {
        FillType::Minimize => true,
        _ => match fill.cross {
            FillType::Minimize => true,
            _ => false,
        },
    };
    let sub: (u64, u64) = if needs_sub {
        nested_extent(tree, c, direction, remaining, max_cross, Ghost((fuel@ - 1) as nat))
    } else {
        (0, 0)
    };
    let main: u128 = match fill.main {
        FillType::Exact(v) => v as u128 + pad_main,
        FillType::Scale(_) => pad_main,
        FillType::Minimize => sub.0 as u128 + pad_main,
    };
    let cross: u128 = match fill.cross {
        FillType::Exact(v) => v as u128 + pad_cross,
        FillType::Scale(_) => pad_cross,
        FillType::Minimize => sub.1 as u128 + pad_cross,
    };
    (main, cross)
}

/// The extent of `c`'s children, as [`nested_min`] states it.
pub fn nested_extent(
    tree: &Tree,
    c: ConstraintKey,
    direction: Direction,
    main_budget: u64,
    cross_budget: u64,
    fuel: Ghost<nat>,
) -> (r: (u64, u64))
    requires
        tree.wf(),
        tree.live(c),
        tree.depth(c) + 1 + fuel@ >= tree.depth_bound(),
    ensures
        r.0 == nested_min(tree, c, direction, main_budget as int, cross_budget as int, fuel@).0,
        r.1 == nested_min(tree, c, direction, main_budget as int, cross_budget as int, fuel@).1,
        r.0 <= main_budget,
        r.1 <= cross_budget,
    decreases fuel@, 2nat,
{
    let node = tree.get(c).unwrap();
    let own = node.value.content.direction;
    proof {
        assert forall|i: int| 0 <= i < node.child_keys@.len() implies tree.live(
            #[trigger] node.child_keys@[i],
        ) && tree.depth(node.child_keys@[i]) + fuel@ >= tree.depth_bound() by {
            let k = node.child_keys@[i];
            assert(tree.live(k) && tree.parent_of(k) == Some(c));
        }
    }
    if own == direction {
        find_minimizing_length(tree, &node.child_keys, own, main_budget, cross_budget, fuel)
    } else {
        let r = find_minimizing_length(tree, &node.child_keys, own, cross_budget, main_budget, fuel);
        (r.1, r.0)
    }
}

/// The rule of `c` along the main axis of `direction`.
pub open spec fn main_rule(t: &Tree, c: ConstraintKey, direction: Direction) -> FillType {
    relative_fill_spec(t.value_of(c).fill, direction).main
}

/// The rule of `c` along the cross axis of `direction`.
pub open spec fn cross_rule(t: &Tree, c: ConstraintKey, direction: Direction) -> FillType {
    relative_fill_spec(t.value_of(c).fill, direction).cross
}

/// The weight that `c` asks for along the main axis (zero unless it scales).
pub open spec fn weight_of(t: &Tree, c: ConstraintKey, direction: Direction) -> int {
    match main_rule(t, c, direction) {
        FillType::Scale(w) => w as int,
        _ => 0,
    }
}

/// The main length that a child takes in the first pass, from `remaining`
/// (zero for a child that scales: it is sized in the second pass).
pub open spec fn first_main(
    t: &Tree,
    c: ConstraintKey,
    direction: Direction,
    remaining: int,
    cross: int,
    fuel: nat,
) -> int {
    match main_rule(t, c, direction) {
        FillType::Exact(v) => min_int(v as int, remaining),
        FillType::Scale(_) => 0,
        FillType::Minimize => min_int(nested_min(t, c, direction, remaining, cross, fuel).0, remaining),
    }
}

/// The first pass over the first `n` children: the main length left.
pub open spec fn first_pass(
    t: &Tree,
    keys: Seq<ConstraintKey>,
    n: nat,
    direction: Direction,
    main: int,
    cross: int,
    fuel: nat,
) -> int
    decreases n,
{
    if n == 0 || n > keys.len() {
        main
    } else {
        let prev = first_pass(t, keys, (n - 1) as nat, direction, main, cross, fuel);
        prev - first_main(t, keys[n - 1], direction, prev, cross, fuel)
    }
}

/// The total weight of the first `n` children.
pub open spec fn weight_sum(t: &Tree, keys: Seq<ConstraintKey>, n: nat, direction: Direction) -> int
    decreases n,
{
    if n == 0 || n > keys.len() {
        0
    } else {
        weight_sum(t, keys, (n - 1) as nat, direction) + weight_of(t, keys[n - 1], direction)
    }
}

/// A child's share of `left` by weight, rounded down.
pub open spec fn floor_share(w: int, left: int, total: int) -> int {
    if total == 0 {
        0
    } else {
        w * left / total
    }
}

/// The rounded-down shares of the first `n` children.
pub open spec fn floor_sum(
    t: &Tree,
    keys: Seq<ConstraintKey>,
    n: nat,
    direction: Direction,
    left: int,
    total: int,
) -> int
    decreases n,
{
    if n == 0 || n > keys.len() {
        0
    } else {
        floor_sum(t, keys, (n - 1) as nat, direction, left, total) + floor_share(
            weight_of(t, keys[n - 1], direction),
            left,
            total,
        )
    }
}

/// How many of the first `n` children scale with a positive weight.
pub open spec fn positives(t: &Tree, keys: Seq<ConstraintKey>, n: nat, direction: Direction) -> int
    decreases n,
{
    if n == 0 || n > keys.len() {
        0
    } else {
        positives(t, keys, (n - 1) as nat, direction) + if weight_of(t, keys[n - 1], direction)
            > 0 {
            1int
        } else {
            0int
        }
    }
}

/// The main length of child `i` of `keys`, laid out along `main` by `cross`.
/// Children that scale share what the first pass left by weight; the units
/// that rounding down leaves over go one each to the first children with a
/// positive weight.
pub open spec fn main_length(
    t: &Tree,
    keys: Seq<ConstraintKey>,
    i: int,
    direction: Direction,
    main: int,
    cross: int,
    fuel: nat,
) -> int {
    let c = keys[i];
    let before = first_pass(t, keys, i as nat, direction, main, cross, fuel);
    let left = first_pass(t, keys, keys.len(), direction, main, cross, fuel);
    let total = weight_sum(t, keys, keys.len(), direction);
    let spare = left - floor_sum(t, keys, keys.len(), direction, left, total);
    match main_rule(t, c, direction) {
        FillType::Scale(w) => floor_share(w as int, left, total) + if total > 0 && w > 0 && positives(
            t,
            keys,
            i as nat,
            direction,
        ) < spare {
            1int
        } else {
            0int
        },
        _ => first_main(t, c, direction, before, cross, fuel),
    }
}

/// The sum of the main lengths of the first `n` children.
pub open spec fn main_prefix(
    t: &Tree,
    keys: Seq<ConstraintKey>,
    n: nat,
    direction: Direction,
    main: int,
    cross: int,
    fuel: nat,
) -> int
    decreases n,
{
    if n == 0 || n > keys.len() {
        0
    } else {
        main_prefix(t, keys, (n - 1) as nat, direction, main, cross, fuel) + main_length(
            t,
            keys,
            n - 1,
            direction,
            main,
            cross,
            fuel,
        )
    }
}

/// The cross length of child `c`, with `remaining` of the main length left
/// when its turn came in the first pass.
pub open spec fn cross_length(
    t: &Tree,
    c: ConstraintKey,
    direction: Direction,
    remaining: int,
    cross: int,
    fuel: nat,
) -> int {
    match cross_rule(t, c, direction) {
        FillType::Exact(v) => min_int(v as int, cross),
        FillType::Scale(w) => if w == 0 {
            0
        } else {
            cross
        },
        FillType::Minimize => nested_min(t, c, direction, remaining, cross, fuel).1,
    }
}

/// The rectangle of child `i` of `keys` in the main/cross terms of the
/// parent's direction, within the parent's content rectangle `area`.
pub open spec fn child_relative_frame(
    t: &Tree,
    keys: Seq<ConstraintKey>,
    i: int,
    content: Content,
    area: RelativeFrame,
    fuel: nat,
) -> RelativeFrame {
    let direction = content.direction;
    let main = area.length_main as int;
    let cross = area.length_cross as int;
    let left = first_pass(t, keys, keys.len(), direction, main, cross, fuel);
    let lead = if weight_sum(t, keys, keys.len(), direction) == 0 {
        align_offset(content.align_main, left)
    } else {
        0
    };
    let before = first_pass(t, keys, i as nat, direction, main, cross, fuel);
    let length_cross = cross_length(t, keys[i], direction, before, cross, fuel);
    RelativeFrame {
        offset_main: (area.offset_main + lead + main_prefix(
            t,
            keys,
            i as nat,
            direction,
            main,
            cross,
            fuel,
        )) as u64,
        length_main: main_length(t, keys, i, direction, main, cross, fuel) as u64,
        offset_cross: (area.offset_cross + align_offset(content.align_cross, cross - length_cross))
            as u64,
        length_cross: length_cross as u64,
    }
}

/// The frame of child `i` of `keys`, whose parent lays them out as `content`
/// says within the content rectangle `area` (in x/y terms).
pub open spec fn child_frame(
    t: &Tree,
    keys: Seq<ConstraintKey>,
    i: int,
    content: Content,
    area: Frame,
    fuel: nat,
) -> Frame {
    let relative = to_relative_frame_spec(area, content.direction);
    to_frame_spec(child_relative_frame(t, keys, i, content, relative, fuel), content.direction)
}

/// The frames of the children `keys` of a node that lays them out as
/// `content` says, within its content rectangle `area`.
pub fn layout_children(
    tree: &Tree,
    keys: &Vec<ConstraintKey>,
    content: Content,
    area: Frame,
    fuel: Ghost<nat>,
) -> (r: Vec<Frame>)
    requires
        tree.wf(),
        fueled(tree, keys@, fuel@),
        area.offset_x + area.length_x <= u64::MAX,
        area.offset_y + area.length_y <= u64::MAX,
    ensures
        r@.len() == keys@.len(),
        forall|i: int|
            0 <= i < keys@.len() ==> r@[i] == child_frame(tree, keys@, i, content, area, fuel@),
{
    let direction = content.direction;
    let rel = area.to_relative_frame(direction);
    let main = rel.length_main;
    let cross = rel.length_cross;
    let ghost n = keys@.len();
    let ghost m = main as int;
    let ghost x = cross as int;
    // First pass: exact and shrinking children take their length in order.
    let mut remaining: u64 = main;
    let mut total: u128 = 0;
    let mut firsts: Vec<u64> = Vec::new();
    let mut crosses: Vec<u64> = Vec::new();
    let mut i: usize = 0;
    while i < keys.len()
        invariant
            tree.wf(),
            fueled(tree, keys@, fuel@),
            n == keys@.len(),
            m == main as int,
            x == cross as int,
            i <= n,
            remaining <= main,
            remaining == first_pass(tree, keys@, i as nat, direction, m, x, fuel@),
            total == weight_sum(tree, keys@, i as nat, direction),
            total <= i * (usize::MAX as int),
            firsts@.len() == i,
            crosses@.len() == i,
            forall|j: int|
                0 <= j < i ==> #[trigger] firsts@[j] == first_main(
                    tree,
                    keys@[j],
                    direction,
                    first_pass(tree, keys@, j as nat, direction, m, x, fuel@),
                    x,
                    fuel@,
                ),
            forall|j: int|
                0 <= j < i ==> #[trigger] crosses@[j] == cross_length(
                    tree,
                    keys@[j],
                    direction,
                    first_pass(tree, keys@, j as nat, direction, m, x, fuel@),
                    x,
                    fuel@,
                ),
            forall|j: int| 0 <= j < i ==> #[trigger] crosses@[j] <= cross,
            forall|j: int|
                0 <= j <= i ==> #[trigger] first_pass(tree, keys@, j as nat, direction, m, x, fuel@)
                    >= remaining,
            forall|j: int|
                0 <= j <= i ==> #[trigger] weight_sum(tree, keys@, j as nat, direction) <= total,
            forall|j: int|
                0 <= j <= i ==> #[trigger] weight_sum(tree, keys@, j as nat, direction) >= 0,
        decreases n - i,
    {
        let c = keys[i];
        assert(tree.live(keys@[i as int]));
        let node = tree.get(c).unwrap();
        let fill = node.value.fill.to_relative_fill(direction);
        assert(fill.main == main_rule(tree, c, direction));
        assert(fill.cross == cross_rule(tree, c, direction));
        let ghost rem0 = remaining;
        let mut cache: Option<u64> = None;
        let take: u64 = match fill.main {
            FillType::Exact(v) => if v < remaining {
                v
            } else {
                remaining
            },
            FillType::Scale(w) => {
                assert(total + w <= (i + 1) * (usize::MAX as int)) by (nonlinear_arith)
                    requires
                        total <= i * (usize::MAX as int),
                        w <= usize::MAX,
                ;
                assert((i + 1) * (usize::MAX as int) <= u128::MAX) by (nonlinear_arith)
                    requires
                        i < usize::MAX,
                ;
                total = total + w as u128;
                0
            },
            FillType::Minimize => {
                let extent = nested_extent(tree, c, direction, remaining, cross, fuel);
                cache = Some(extent.1);
                extent.0
            },
        };
        let length_cross: u64 = match fill.cross {
            FillType::Exact(v) => if v < cross {
                v
            } else {
                cross
            },
            FillType::Scale(w) => if w == 0 {
                0
            } else {
                cross
            },
            FillType::Minimize => match cache {
                Some(extent) => extent,
                None => nested_extent(tree, c, direction, remaining, cross, fuel).1,
            },
        };
        assert(i * (usize::MAX as int) <= (i + 1) * (usize::MAX as int)) by (nonlinear_arith);
        assert(take == first_main(tree, c, direction, rem0 as int, x, fuel@));
        assert(length_cross == cross_length(tree, c, direction, rem0 as int, x, fuel@));
        firsts.push(take);
        crosses.push(length_cross);
        remaining = remaining - take;
        i = i + 1;
        proof {
            assert(firsts@[i - 1] == take);
            assert(crosses@[i - 1] == length_cross);
            assert(first_pass(tree, keys@, i as nat, direction, m, x, fuel@) == rem0 - take);
        }
    }
    let left = remaining;
    // Second pass: the children that scale share what is left by weight.
    let mut floor_total: u128 = 0;
    i = 0;
    while i < keys.len()
        invariant
            tree.wf(),
            fueled(tree, keys@, fuel@),
            n == keys@.len(),
            m == main as int,
            x == cross as int,
            i <= n,
            left <= main,
            total == weight_sum(tree, keys@, n, direction),
            forall|j: int|
                0 <= j <= n ==> #[trigger] weight_sum(tree, keys@, j as nat, direction) <= total,
            forall|j: int|
                0 <= j <= n ==> #[trigger] weight_sum(tree, keys@, j as nat, direction) >= 0,
            floor_total == floor_sum(tree, keys@, i as nat, direction, left as int, total as int),
            floor_total * total <= weight_sum(tree, keys@, i as nat, direction) * left,
            floor_total <= left,
            forall|j: int|
                0 <= j <= i ==> #[trigger] floor_sum(
                    tree,
                    keys@,
                    j as nat,
                    direction,
                    left as int,
                    total as int,
                ) <= floor_total,
            forall|j: int|
                0 <= j <= i ==> #[trigger] floor_sum(
                    tree,
                    keys@,
                    j as nat,
                    direction,
                    left as int,
                    total as int,
                ) >= 0,
        decreases n - i,
    {
        let c = keys[i];
        assert(tree.live(keys@[i as int]));
        let node = tree.get(c).unwrap();
        let fill = node.value.fill.to_relative_fill(direction);
        assert(fill.main == main_rule(tree, c, direction));
        let ghost ws = weight_sum(tree, keys@, i as nat, direction);
        proof {
            assert(weight_sum(tree, keys@, (i + 1) as nat, direction) <= total);
        }
        match fill.main {
            FillType::Scale(w) => {
                if total > 0 {
                    assert(w as int * left as int <= u128::MAX) by (nonlinear_arith)
                        requires
                            w <= u64::MAX,
                            left <= u64::MAX,
                    ;
                    let wide: u128 = w as u128 * left as u128;
                    let share: u128 = wide / total;
                    proof {
                        let wi = w as int;
                        let li = left as int;
                        let ti = total as int;
                        assert(share * ti <= wi * li) by (nonlinear_arith)
                            requires
                                share == (wi * li) / ti,
                                ti > 0,
                                wi * li >= 0,
                        ;
                        assert((floor_total + share) * ti <= (ws + wi) * li) by (nonlinear_arith)
                            requires
                                floor_total * ti <= ws * li,
                                share * ti <= wi * li,
                        ;
                        assert(ws + wi <= ti);
                        assert((floor_total + share) <= li) by (nonlinear_arith)
                            requires
                                (floor_total + share) * ti <= (ws + wi) * li,
                                ws + wi <= ti,
                                ti > 0,
                                li >= 0,
                        ;
                    }
                    floor_total = floor_total + share;
                } else {
                    let ghost ws1 = weight_sum(tree, keys@, (i + 1) as nat, direction);
                    assert(ws1 >= 0);
                    assert(0 <= ws1 * left) by (nonlinear_arith)
                        requires
                            ws1 >= 0,
                    ;
                    assert(floor_total * total == 0);
                }
            },
            _ => {
                proof {
                    assert(floor_share(0, left as int, total as int) == 0);
                }
            },
        }
        proof {
            assert(weight_sum(tree, keys@, (i + 1) as nat, direction) == ws + weight_of(tree, c, direction));
        }
        i = i + 1;
    }
    let spare: u64 = (left as u128 - floor_total) as u64;
    let lead: u64 = if total == 0 {
        align_gap(content.align_main, left)
    } else {
        0
    };
    // Placement: children follow each other along the main axis.
    let mut acc: u64 = 0;
    let mut seen_positive: u64 = 0;
    let mut frames: Vec<Frame> = Vec::new();
    i = 0;
    while i < keys.len()
        invariant
            tree.wf(),
            fueled(tree, keys@, fuel@),
            n == keys@.len(),
            m == main as int,
            x == cross as int,
            i <= n,
            rel == to_relative_frame_spec(area, direction),
            rel.offset_main + rel.length_main <= u64::MAX,
            rel.offset_cross + rel.length_cross <= u64::MAX,
            main == rel.length_main,
            cross == rel.length_cross,
            direction == content.direction,
            left == first_pass(tree, keys@, n, direction, m, x, fuel@),
            total == weight_sum(tree, keys@, n, direction),
            floor_total == floor_sum(tree, keys@, n, direction, left as int, total as int),
            floor_total <= left,
            spare == left - floor_total,
            lead == (if total == 0 {
                align_offset(content.align_main, left as int)
            } else {
                0
            }),
            lead <= left,
            firsts@.len() == n,
            crosses@.len() == n,
            forall|j: int|
                0 <= j < n ==> #[trigger] firsts@[j] == first_main(
                    tree,
                    keys@[j],
                    direction,
                    first_pass(tree, keys@, j as nat, direction, m, x, fuel@),
                    x,
                    fuel@,
                ),
            forall|j: int|
                0 <= j < n ==> #[trigger] crosses@[j] == cross_length(
                    tree,
                    keys@[j],
                    direction,
                    first_pass(tree, keys@, j as nat, direction, m, x, fuel@),
                    x,
                    fuel@,
                ),
            forall|j: int| 0 <= j < n ==> #[trigger] crosses@[j] <= cross,
            forall|j: int|
                0 <= j <= n ==> #[trigger] first_pass(tree, keys@, j as nat, direction, m, x, fuel@)
                    >= left,
            forall|j: int|
                0 <= j <= n ==> #[trigger] floor_sum(
                    tree,
                    keys@,
                    j as nat,
                    direction,
                    left as int,
                    total as int,
                ) <= floor_total,
            forall|j: int|
                0 <= j <= n ==> #[trigger] floor_sum(
                    tree,
                    keys@,
                    j as nat,
                    direction,
                    left as int,
                    total as int,
                ) >= 0,
            acc == main_prefix(tree, keys@, i as nat, direction, m, x, fuel@),
            seen_positive == positives(tree, keys@, i as nat, direction),
            seen_positive <= i,
            total > 0 ==> acc == (m - first_pass(tree, keys@, i as nat, direction, m, x, fuel@))
                + floor_sum(tree, keys@, i as nat, direction, left as int, total as int) + min_int(
                seen_positive as int,
                spare as int,
            ),
            total == 0 ==> acc == m - first_pass(tree, keys@, i as nat, direction, m, x, fuel@),
            frames@.len() == i,
            forall|j: int|
                0 <= j < i ==> #[trigger] frames@[j] == child_frame(
                    tree,
                    keys@,
                    j,
                    content,
                    area,
                    fuel@,
                ),
        decreases n - i,
    {
        let c = keys[i];
        assert(tree.live(keys@[i as int]));
        let node = tree.get(c).unwrap();
        let fill = node.value.fill.to_relative_fill(direction);
        assert(fill.main == main_rule(tree, c, direction));
        let ghost before = first_pass(tree, keys@, i as nat, direction, m, x, fuel@);
        let ghost fs = floor_sum(tree, keys@, i as nat, direction, left as int, total as int);
        let ghost pos0 = seen_positive as int;
        let ghost k = i as int;
        proof {
            assert(first_pass(tree, keys@, (i + 1) as nat, direction, m, x, fuel@) >= left);
            assert(floor_sum(tree, keys@, (i + 1) as nat, direction, left as int, total as int)
                <= floor_total);
            assert(fs >= 0);
        }
        let length_main: u64 = match fill.main {
            FillType::Scale(w) => {
                let share: u64 = if total > 0 {
                    assert(w as int * left as int <= u128::MAX) by (nonlinear_arith)
                        requires
                            w <= u64::MAX,
                            left <= u64::MAX,
                    ;
                    let s = (w as u128 * left as u128) / total;
                    proof {
                        assert(floor_sum(tree, keys@, (i + 1) as nat, direction, left as int, total as int) == fs + s);
                        assert(fs >= 0);
                    }
                    s as u64
                } else {
                    0
                };
                let extra: u64 = if total > 0 && w > 0 && seen_positive < spare {
                    1
                } else {
                    0
                };
                if w > 0 {
                    seen_positive = seen_positive + 1;
                }
                share + extra
            },
            _ => firsts[i],
        };
        proof {
            let c0 = keys@[k];
            assert(first_pass(tree, keys@, (k + 1) as nat, direction, m, x, fuel@) == before
                - first_main(tree, c0, direction, before, x, fuel@));
            assert(floor_sum(tree, keys@, (k + 1) as nat, direction, left as int, total as int) == fs
                + floor_share(weight_of(tree, c0, direction), left as int, total as int));
            assert(positives(tree, keys@, (k + 1) as nat, direction) == pos0 + if weight_of(
                tree,
                c0,
                direction,
            ) > 0 {
                1int
            } else {
                0int
            });
            if !(main_rule(tree, c0, direction) is Scale) {
                assert(0 * (left as int) == 0);
                if total > 0 {
                    assert(0int / (total as int) == 0);
                }
                assert(floor_share(0, left as int, total as int) == 0);
            }
            assert(main_length(tree, keys@, k, direction, m, x, fuel@) == length_main);
            assert(main_prefix(tree, keys@, (k + 1) as nat, direction, m, x, fuel@) == acc
                + length_main);
        }
        let offset_main: u64 = rel.offset_main + lead + acc;
        let length_cross = crosses[i];
        let offset_cross: u64 = rel.offset_cross + align_gap(content.align_cross, cross - length_cross);
        let frame = RelativeFrame { offset_main, length_main, offset_cross, length_cross }.to_frame(
            direction,
        );
        frames.push(frame);
        acc = acc + length_main;
        i = i + 1;
    }
    frames
}

/// A child whose rule on an axis is a weight of zero gets length zero on that
/// axis, whatever the space available.
pub proof fn zero_weight_gets_zero(
    t: &Tree,
    keys: Seq<ConstraintKey>,
    i: int,
    content: Content,
    area: RelativeFrame,
    fuel: nat,
)
    requires
        0 <= i < keys.len(),
    ensures
        main_rule(t, keys[i], content.direction) == FillType::Scale(0) ==> child_relative_frame(
            t,
            keys,
            i,
            content,
            area,
            fuel,
        ).length_main == 0,
        cross_rule(t, keys[i], content.direction) == FillType::Scale(0) ==> child_relative_frame(
            t,
            keys,
            i,
            content,
            area,
            fuel,
        ).length_cross == 0,
{
    let left = first_pass(
        t,
        keys,
        keys.len(),
        content.direction,
        area.length_main as int,
        area.length_cross as int,
        fuel,
    );
    let total = weight_sum(t, keys, keys.len(), content.direction);
    assert(0 * left == 0);
    if total != 0 {
        assert(0int / total == 0);
    }
    assert(floor_share(0, left, total) == 0);
}

/// The main lengths of the first `n` children: what the first pass took,
/// the rounded-down shares, and one unit for each of the first children
/// with a positive weight while units are left over.
proof fn lemma_main_prefix(
    t: &Tree,
    keys: Seq<ConstraintKey>,
    n: nat,
    direction: Direction,
    main: int,
    cross: int,
    fuel: nat,
)
    requires
        n <= keys.len(),
        weight_sum(t, keys, keys.len(), direction) > 0,
        first_pass(t, keys, keys.len(), direction, main, cross, fuel) >= floor_sum(
            t,
            keys,
            keys.len(),
            direction,
            first_pass(t, keys, keys.len(), direction, main, cross, fuel),
            weight_sum(t, keys, keys.len(), direction),
        ),
    ensures
        ({
            let left = first_pass(t, keys, keys.len(), direction, main, cross, fuel);
            let total = weight_sum(t, keys, keys.len(), direction);
            let spare = left - floor_sum(t, keys, keys.len(), direction, left, total);
            main_prefix(t, keys, n, direction, main, cross, fuel) == main - first_pass(
                t,
                keys,
                n,
                direction,
                main,
                cross,
                fuel,
            ) + floor_sum(t, keys, n, direction, left, total) + min_int(
                positives(t, keys, n, direction),
                spare,
            )
        }),
    decreases n,
{
    if n > 0 {
        let m = (n - 1) as nat;
        lemma_main_prefix(t, keys, m, direction, main, cross, fuel);
        let left = first_pass(t, keys, keys.len(), direction, main, cross, fuel);
        let total = weight_sum(t, keys, keys.len(), direction);
        let spare = left - floor_sum(t, keys, keys.len(), direction, left, total);
        let c = keys[n - 1];
        let before = first_pass(t, keys, m, direction, main, cross, fuel);
        let p = positives(t, keys, m, direction);
        assert(first_pass(t, keys, n, direction, main, cross, fuel) == before - first_main(
            t,
            c,
            direction,
            before,
            cross,
            fuel,
        ));
        assert(floor_sum(t, keys, n, direction, left, total) == floor_sum(
            t,
            keys,
            m,
            direction,
            left,
            total,
        ) + floor_share(weight_of(t, c, direction), left, total));
        assert(positives(t, keys, n, direction) == p + if weight_of(t, c, direction) > 0 {
            1int
        } else {
            0int
        });
        assert(main_prefix(t, keys, n, direction, main, cross, fuel) == main_prefix(
            t,
            keys,
            m,
            direction,
            main,
            cross,
            fuel,
        ) + main_length(t, keys, m as int, direction, main, cross, fuel));
        match main_rule(t, c, direction) {
            FillType::Scale(w) => {
                assert(weight_of(t, c, direction) == w);
                assert(first_main(t, c, direction, before, cross, fuel) == 0);
                if w > 0 && p < spare {
                    assert(min_int(p + 1, spare) == min_int(p, spare) + 1);
                } else if w > 0 {
                    assert(min_int(p + 1, spare) == min_int(p, spare));
                }
            },
            _ => {
                assert(weight_of(t, c, direction) == 0);
                assert(0 * left == 0);
                assert(0int / total == 0);
                assert(floor_share(0, left, total) == 0);
            },
        }
    }
}

/// The rounded-down shares lose less than one unit for each child with a
/// positive weight.
proof fn lemma_floor_sum_loss(
    t: &Tree,
    keys: Seq<ConstraintKey>,
    n: nat,
    direction: Direction,
    left: int,
    total: int,
)
    requires
        n <= keys.len(),
        total > 0,
    ensures
        floor_sum(t, keys, n, direction, left, total) * total >= weight_sum(t, keys, n, direction)
            * left - positives(t, keys, n, direction) * (total - 1),
        floor_sum(t, keys, n, direction, left, total) * total <= weight_sum(t, keys, n, direction)
            * left,
    decreases n,
{
    if n > 0 {
        lemma_floor_sum_loss(t, keys, (n - 1) as nat, direction, left, total);
        let w = weight_of(t, keys[n - 1], direction);
        let fs = floor_sum(t, keys, (n - 1) as nat, direction, left, total);
        let ws = weight_sum(t, keys, (n - 1) as nat, direction);
        let ps = positives(t, keys, (n - 1) as nat, direction);
        let share = floor_share(w, left, total);
        assert(share == w * left / total);
        assert(share * total >= w * left - (total - 1)) by (nonlinear_arith)
            requires
                share == w * left / total,
                total > 0,
        ;
        assert(share * total <= w * left) by (nonlinear_arith)
            requires
                share == w * left / total,
                total > 0,
        ;
        assert((fs + share) * total <= (ws + w) * left) by (nonlinear_arith)
            requires
                fs * total <= ws * left,
                share * total <= w * left,
        ;
        if w > 0 {
            assert((fs + share) * total >= (ws + w) * left - (ps + 1) * (total - 1)) by (nonlinear_arith)
                requires
                    fs * total >= ws * left - ps * (total - 1),
                    share * total >= w * left - (total - 1),
            ;
        } else {
            assert(w == 0);
            assert(w * left == 0) by (nonlinear_arith)
                requires
                    w == 0,
            ;
            assert(share == 0);
            assert((fs + share) * total >= (ws + w) * left - ps * (total - 1)) by (nonlinear_arith)
                requires
                    fs * total >= ws * left - ps * (total - 1),
                    share == 0,
                    w == 0,
            ;
        }
    }
}

proof fn lemma_positives_nonnegative(t: &Tree, keys: Seq<ConstraintKey>, n: nat, direction: Direction)
    ensures
        positives(t, keys, n, direction) >= 0,
    decreases n,
{
    if n > 0 && n <= keys.len() {
        lemma_positives_nonnegative(t, keys, (n - 1) as nat, direction);
    }
}

/// When some child scales with a positive weight, the children's main
/// lengths add up to exactly the main length of the content area: exact and
/// shrinking children take theirs first, and the children that scale share
/// the rest without a unit lost to rounding.
pub proof fn weights_fill_the_main_axis(
    t: &Tree,
    keys: Seq<ConstraintKey>,
    direction: Direction,
    main: int,
    cross: int,
    fuel: nat,
)
    requires
        weight_sum(t, keys, keys.len(), direction) > 0,
    ensures
        main_prefix(t, keys, keys.len(), direction, main, cross, fuel) == main,
{
    let n = keys.len();
    let left = first_pass(t, keys, n, direction, main, cross, fuel);
    let total = weight_sum(t, keys, n, direction);
    let fs = floor_sum(t, keys, n, direction, left, total);
    let k = positives(t, keys, n, direction);
    lemma_floor_sum_loss(t, keys, n, direction, left, total);
    lemma_positives_nonnegative(t, keys, n, direction);
    assert(fs <= left) by (nonlinear_arith)
        requires
            fs * total <= total * left,
            total > 0,
    ;
    lemma_main_prefix(t, keys, n, direction, main, cross, fuel);
    assert(left - fs <= k) by (nonlinear_arith)
        requires
            fs * total >= total * left - k * (total - 1),
            total > 0,
            k >= 0,
    ;
}

} // verus!
