//! Placing one screen beside another: the whole row along the axis is laid out edge to edge,
//! which is what makes an overlap impossible, and every screen is centered on the other axis so
//! the shared border is always the full `min(size)`.
use vstd::prelude::*;

use crate::sort::strings_view;
use crate::engine::map_screens;
use crate::error::UserError;
use crate::layout::{has_key, key_index, lemma_lookup_at, logical_size_of, lookup, side_axis,
    side_before, sorted_keys, Axis, Entries, Layout, LayoutView, Placement, Point, Position, Screen, ScreenView, Side};
use crate::resolution::Size;
use crate::text::{lemma_seq_lt_asymmetric, lemma_seq_lt_irreflexive, lemma_seq_lt_total,
    lemma_seq_lt_transitive, push_str, seq_lt, str_eq, str_lt};

verus! {

/// A description and a coordinate along the axis.
pub type Coord = (Seq<char>, int);

/// Ordered by coordinate, ties broken by description (the order a stable sort of key-ordered
/// screens gives).
pub open spec fn coord_lt(a: Coord, b: Coord) -> bool {
    a.1 < b.1 || (a.1 == b.1 && seq_lt(a.0, b.0))
}

pub open spec fn strictly_sorted(s: Seq<Coord>) -> bool {
    forall|i: int, j: int| 0 <= i < j < s.len() ==> coord_lt(#[trigger] s[i], #[trigger] s[j])
}

pub open spec fn along_coord(p: Point, axis: Axis) -> int {
    if axis == Axis::Horizontal {
        p.x as int
    } else {
        p.y as int
    }
}

/// A screen already on the row: lit, placed at a point, and not the one being moved.
pub open spec fn in_rest(e: (Seq<char>, ScreenView), moving: Seq<char>) -> bool {
    e.0 != moving && e.1.on() && e.1.placement.position is At
}

pub open spec fn rest_coord(e: (Seq<char>, ScreenView), axis: Axis) -> Coord {
    match e.1.placement.position {
        Position::At(p) => (e.0, along_coord(p, axis)),
        _ => (e.0, 0),
    }
}

pub open spec fn is_rest(es: Entries, axis: Axis, moving: Seq<char>, s: Seq<Coord>) -> bool {
    &&& strictly_sorted(s)
    &&& forall|x: Coord|
        s.contains(x) <==> exists|i: int|
            0 <= i < es.len() && in_rest(#[trigger] es[i], moving) && rest_coord(es[i], axis) == x
}

/// The screens already on the row, ordered along the axis.
pub open spec fn sorted_rest(es: Entries, axis: Axis, moving: Seq<char>) -> Seq<Coord> {
    choose|s: Seq<Coord>| is_rest(es, axis, moving, s)
}

/// A row member, with the moving screen beside it when it is the reference.
pub open spec fn woven(c: Coord, moving: Seq<char>, reference: Seq<char>, before: bool) -> Seq<Seq<char>> {
    if c.0 == reference {
        if before {
            seq![moving, c.0]
        } else {
            seq![c.0, moving]
        }
    } else {
        seq![c.0]
    }
}

/// The row's descriptions in order, the moving screen beside the reference.
pub open spec fn weave(s: Seq<Coord>, moving: Seq<char>, reference: Seq<char>, before: bool) -> Seq<Seq<char>>
    decreases s.len(),
{
    if s.len() == 0 {
        Seq::empty()
    } else {
        weave(s.drop_last(), moving, reference, before) + woven(s.last(), moving, reference, before)
    }
}

/// The logical size of a lit screen that has one.
pub open spec fn sized(es: Entries, k: Seq<char>) -> Option<Size> {
    match lookup(es, k) {
        Some(s) => if s.on() {
            logical_size_of(s.placement)
        } else {
            None
        },
        None => None,
    }
}

/// The row's sized screens, in order: a screen with no resolved size takes no part.
pub open spec fn sized_row(order: Seq<Seq<char>>, es: Entries) -> Seq<(Seq<char>, Size)>
    decreases order.len(),
{
    if order.len() == 0 {
        Seq::empty()
    } else {
        sized_row(order.drop_last(), es) + match sized(es, order.last()) {
            Some(size) => seq![(order.last(), size)],
            None => Seq::empty(),
        }
    }
}

pub open spec fn along(s: Size, axis: Axis) -> int {
    if axis == Axis::Horizontal {
        s.width as int
    } else {
        s.height as int
    }
}

pub open spec fn across(s: Size, axis: Axis) -> int {
    if axis == Axis::Horizontal {
        s.height as int
    } else {
        s.width as int
    }
}

/// Where the `k`-th screen starts along the axis: the sum of the screens before it.
pub open spec fn offset(row: Seq<(Seq<char>, Size)>, axis: Axis, k: int) -> int
    decreases k,
{
    if k <= 0 {
        0
    } else {
        offset(row, axis, k - 1) + along(row[k - 1].1, axis)
    }
}

/// The largest size across the axis among the first `n` screens; 0 for none.
pub open spec fn extent(row: Seq<(Seq<char>, Size)>, axis: Axis, n: int) -> int
    decreases n,
{
    if n <= 0 {
        0
    } else if n == 1 {
        across(row[0].1, axis)
    } else {
        let e = extent(row, axis, n - 1);
        let a = across(row[n - 1].1, axis);
        if a > e {
            a
        } else {
            e
        }
    }
}

/// Where the `k`-th screen of the row lands.
pub open spec fn row_point(row: Seq<(Seq<char>, Size)>, axis: Axis, k: int) -> (int, int) {
    let centered = (extent(row, axis, row.len() as int) - across(row[k].1, axis)) / 2;
    if axis == Axis::Horizontal {
        (offset(row, axis, k), centered)
    } else {
        (centered, offset(row, axis, k))
    }
}

/// Every coordinate the row needs fits an `i64`.
pub open spec fn row_fits(row: Seq<(Seq<char>, Size)>, axis: Axis) -> bool {
    &&& forall|k: int| 0 <= k <= row.len() ==> i64::MIN <= #[trigger] offset(row, axis, k) <= i64::MAX
    &&& forall|k: int|
        0 <= k < row.len() ==> i64::MIN <= extent(row, axis, row.len() as int) - across(
            #[trigger] row[k].1,
            axis,
        ) <= i64::MAX
}

/// The row a placement lays out.
pub open spec fn placement_row(l: LayoutView, moving: Seq<char>, side: Side, reference: Seq<char>) -> Seq<(Seq<char>, Size)> {
    let axis = side_axis(side);
    sized_row(
        weave(sorted_rest(l.screens, axis, moving), moving, reference, side_before(side)),
        l.screens,
    )
}

/// The first index of a description in the row.
pub open spec fn row_index(row: Seq<(Seq<char>, Size)>, k: Seq<char>) -> Option<int> {
    if exists|j: int| 0 <= j < row.len() && #[trigger] row[j].0 == k {
        Some(
            choose|j: int|
                0 <= j < row.len() && #[trigger] row[j].0 == k && forall|i: int|
                    0 <= i < j ==> row[i].0 != k,
        )
    } else {
        None
    }
}

/// A screen as a placement leaves it: moved to its place when it is on the row.
pub open spec fn placed_screen(row: Seq<(Seq<char>, Size)>, axis: Axis, k: Seq<char>, s: ScreenView) -> ScreenView {
    match row_index(row, k) {
        Some(j) => ScreenView {
            placement: Placement {
                position: Position::At(
                    Point { x: row_point(row, axis, j).0 as i64, y: row_point(row, axis, j).1 as i64 },
                ),
                ..s.placement
            },
            ..s
        },
        None => s,
    }
}

/// Every screen of the row moved to its place; every other screen where it was.
pub open spec fn placed(l: LayoutView, moving: Seq<char>, side: Side, reference: Seq<char>) -> LayoutView {
    let row = placement_row(l, moving, side, reference);
    let axis = side_axis(side);
    LayoutView {
        anchor: l.anchor,
        screens: map_screens(l.screens, |k: Seq<char>, s: ScreenView| placed_screen(row, axis, k, s)),
    }
}

/// Whether a placement is one the layout can make at all.
pub open spec fn can_place(l: LayoutView, moving: Seq<char>, reference: Seq<char>) -> bool {
    moving != reference && sized(l.screens, moving) is Some && sized(l.screens, reference) is Some
}

// ---------------------------------------------------------------------------------------------
// Lemmas
// ---------------------------------------------------------------------------------------------

proof fn lemma_coord_lt_irreflexive(a: Coord)
    ensures
        !coord_lt(a, a),
{
    lemma_seq_lt_irreflexive(a.0);
}

proof fn lemma_coord_lt_asymmetric(a: Coord, b: Coord)
    requires
        coord_lt(a, b),
    ensures
        !coord_lt(b, a),
{
    if a.1 == b.1 {
        lemma_seq_lt_asymmetric(a.0, b.0);
    }
}

proof fn lemma_coord_lt_transitive(a: Coord, b: Coord, c: Coord)
    requires
        coord_lt(a, b),
        coord_lt(b, c),
    ensures
        coord_lt(a, c),
{
    if a.1 == b.1 && b.1 == c.1 {
        lemma_seq_lt_transitive(a.0, b.0, c.0);
    }
}

proof fn lemma_coord_lt_total(a: Coord, b: Coord)
    requires
        a.0 != b.0,
    ensures
        coord_lt(a, b) || coord_lt(b, a),
{
    lemma_seq_lt_total(a.0, b.0);
}

/// A strictly sorted sequence is determined by what it contains.
pub proof fn lemma_sorted_unique(s1: Seq<Coord>, s2: Seq<Coord>)
    requires
        strictly_sorted(s1),
        strictly_sorted(s2),
        forall|x: Coord| s1.contains(x) <==> s2.contains(x),
    ensures
        s1 == s2,
    decreases s1.len(),
{
    if s1.len() == 0 {
        if s2.len() > 0 {
            assert(s2.contains(s2[0]));
        }
        assert(s1 =~= s2);
    } else {
        assert(s1.contains(s1[0]));
        assert(s2.len() > 0);
        let x = s1[0];
        let y = s2[0];
        assert(s2.contains(x));
        let k = choose|k: int| 0 <= k < s2.len() && s2[k] == x;
        assert(s2.contains(y));
        assert(s1.contains(y));
        let m = choose|m: int| 0 <= m < s1.len() && s1[m] == y;
        if k > 0 {
            assert(coord_lt(s2[0], s2[k]));
            if m > 0 {
                assert(coord_lt(s1[0], s1[m]));
                lemma_coord_lt_asymmetric(x, y);
            } else {
                lemma_coord_lt_irreflexive(x);
            }
        } else if m > 0 {
            assert(coord_lt(s1[0], s1[m]));
            lemma_coord_lt_irreflexive(x);
        }
        assert(x == y);
        let t1 = s1.drop_first();
        let t2 = s2.drop_first();
        assert forall|z: Coord| t1.contains(z) <==> t2.contains(z) by {
            if t1.contains(z) {
                let i = choose|i: int| 0 <= i < t1.len() && t1[i] == z;
                assert(s1[i + 1] == z);
                assert(coord_lt(s1[0], s1[i + 1]));
                assert(s2.contains(z));
                let j = choose|j: int| 0 <= j < s2.len() && s2[j] == z;
                if j == 0 {
                    lemma_coord_lt_irreflexive(z);
                }
                assert(t2[j - 1] == z);
            }
            if t2.contains(z) {
                let i = choose|i: int| 0 <= i < t2.len() && t2[i] == z;
                assert(s2[i + 1] == z);
                assert(coord_lt(s2[0], s2[i + 1]));
                assert(s1.contains(z));
                let j = choose|j: int| 0 <= j < s1.len() && s1[j] == z;
                if j == 0 {
                    lemma_coord_lt_irreflexive(z);
                }
                assert(t1[j - 1] == z);
            }
        }
        assert forall|i: int, j: int| 0 <= i < j < t1.len() implies coord_lt(
            #[trigger] t1[i],
            #[trigger] t1[j],
        ) by {
            assert(coord_lt(s1[i + 1], s1[j + 1]));
        }
        assert forall|i: int, j: int| 0 <= i < j < t2.len() implies coord_lt(
            #[trigger] t2[i],
            #[trigger] t2[j],
        ) by {
            assert(coord_lt(s2[i + 1], s2[j + 1]));
        }
        lemma_sorted_unique(t1, t2);
        assert(s1 =~= seq![x] + t1);
        assert(s2 =~= seq![y] + t2);
    }
}

// ---------------------------------------------------------------------------------------------
// Executable
// ---------------------------------------------------------------------------------------------

pub open spec fn coords_view(v: Seq<(String, i64)>) -> Seq<Coord> {
    Seq::new(v.len(), |i: int| (v[i].0@, v[i].1 as int))
}

fn coord_less(a: &(String, i64), b: &(String, i64)) -> (r: bool)
    ensures
        r == coord_lt((a.0@, a.1 as int), (b.0@, b.1 as int)),
{
    if a.1 < b.1 {
        true
    } else if a.1 == b.1 {
        str_lt(a.0.as_str(), b.0.as_str())
    } else {
        false
    }
}

/// The screens already on the row, sorted along the axis.
fn collect_rest(layout: &Layout, axis: Axis, moving: &str) -> (r: Vec<(String, i64)>)
    requires
        layout@.wf(),
    ensures
        coords_view(r@) == sorted_rest(layout@.screens, axis, moving@),
{
    let ghost es = layout@.screens;
    let mut sorted: Vec<(String, i64)> = Vec::new();
    let mut i: usize = 0;
    while i < layout.screens.len()
        invariant
            i <= layout.screens.len(),
            es == layout@.screens,
            layout@.wf(),
            strictly_sorted(coords_view(sorted@)),
            forall|x: Coord|
                coords_view(sorted@).contains(x) <==> exists|j: int|
                    0 <= j < i && in_rest(#[trigger] es[j], moving@) && rest_coord(es[j], axis) == x,
        decreases layout.screens.len() - i,
    {
        let (desc, screen) = layout.entry(i);
        let lit = screen.is_on();
        let is_moving = str_eq(desc.as_str(), moving);
        match screen.placement.position {
            Position::At(p) => {
                if lit && !is_moving {
                    let c = if axis == Axis::Horizontal {
                        p.x
                    } else {
                        p.y
                    };
                    let item = (desc.clone(), c);
                    let ghost x = (desc@, c as int);
                    assert(x == rest_coord(es[i as int], axis));
                    let ghost old_s = coords_view(sorted@);
                    // every member came from an earlier screen, whose description differs
                    proof {
                        assert forall|t: int| 0 <= t < old_s.len() implies (#[trigger] old_s[t]).0
                            != x.0 by {
                            assert(old_s.contains(old_s[t]));
                            let j = choose|j: int|
                                0 <= j < i && in_rest(#[trigger] es[j], moving@) && rest_coord(
                                    es[j],
                                    axis,
                                ) == old_s[t];
                            assert(seq_lt(es[j].0, es[i as int].0));
                            lemma_seq_lt_irreflexive(es[j].0);
                        }
                    }
                    let mut pos: usize = 0;
                    while pos < sorted.len() && coord_less(&sorted[pos], &item)
                        invariant
                            pos <= sorted.len(),
                            old_s == coords_view(sorted@),
                            item.0@ == x.0,
                            item.1 as int == x.1,
                            forall|t: int| 0 <= t < pos ==> coord_lt(#[trigger] old_s[t], x),
                        decreases sorted.len() - pos,
                    {
                        assert(old_s[pos as int] == (sorted@[pos as int].0@, sorted@[pos as int].1 as int));
                        pos = pos + 1;
                    }
                    proof {
                        if pos < sorted.len() {
                            lemma_coord_lt_total(old_s[pos as int], x);
                        }
                    }
                    sorted.insert(pos, item);
                    proof {
                        let ns = coords_view(sorted@);
                        assert(ns =~= old_s.insert(pos as int, x));
                        assert forall|a: int, b: int| 0 <= a < b < ns.len() implies coord_lt(
                            #[trigger] ns[a],
                            #[trigger] ns[b],
                        ) by {
                            if b < pos {
                            } else if b == pos {
                            } else {
                                assert(ns[b] == old_s[b - 1]);
                                if b - 1 > pos {
                                    assert(coord_lt(old_s[pos as int], old_s[b - 1]));
                                    lemma_coord_lt_transitive(x, old_s[pos as int], old_s[b - 1]);
                                }
                                if a < pos {
                                    lemma_coord_lt_transitive(old_s[a], x, old_s[b - 1]);
                                } else if a > pos {
                                    assert(ns[a] == old_s[a - 1]);
                                }
                            }
                        }
                        assert forall|y: Coord|
                            ns.contains(y) <==> exists|j: int|
                                0 <= j < i + 1 && in_rest(#[trigger] es[j], moving@) && rest_coord(
                                    es[j],
                                    axis,
                                ) == y by {
                            if ns.contains(y) {
                                let t = choose|t: int| 0 <= t < ns.len() && ns[t] == y;
                                if t < pos {
                                    assert(old_s.contains(old_s[t]));
                                } else if t > pos {
                                    assert(old_s.contains(old_s[t - 1]));
                                } else {
                                    assert(in_rest(es[i as int], moving@));
                                }
                            }
                            if exists|j: int|
                                0 <= j < i + 1 && in_rest(#[trigger] es[j], moving@) && rest_coord(
                                    es[j],
                                    axis,
                                ) == y {
                                let j = choose|j: int|
                                    0 <= j < i + 1 && in_rest(#[trigger] es[j], moving@)
                                        && rest_coord(es[j], axis) == y;
                                if j < i {
                                    assert(old_s.contains(y));
                                    let t = choose|t: int| 0 <= t < old_s.len() && old_s[t] == y;
                                    if t < pos {
                                        assert(ns[t] == y);
                                    } else {
                                        assert(ns[t + 1] == y);
                                    }
                                } else {
                                    assert(ns[pos as int] == y);
                                }
                            }
                        }
                    }
                } else {
                    proof {
                        assert(!in_rest(es[i as int], moving@));
                        assert forall|y: Coord|
                            coords_view(sorted@).contains(y) <==> exists|j: int|
                                0 <= j < i + 1 && in_rest(#[trigger] es[j], moving@) && rest_coord(
                                    es[j],
                                    axis,
                                ) == y by {
                            if exists|j: int|
                                0 <= j < i + 1 && in_rest(#[trigger] es[j], moving@) && rest_coord(
                                    es[j],
                                    axis,
                                ) == y {
                                let j = choose|j: int|
                                    0 <= j < i + 1 && in_rest(#[trigger] es[j], moving@)
                                        && rest_coord(es[j], axis) == y;
                                assert(j < i);
                            }
                        }
                    }
                }
            },
            _ => {
                proof {
                    assert(!in_rest(es[i as int], moving@));
                    assert forall|y: Coord|
                        coords_view(sorted@).contains(y) <==> exists|j: int|
                            0 <= j < i + 1 && in_rest(#[trigger] es[j], moving@) && rest_coord(
                                es[j],
                                axis,
                            ) == y by {
                        if exists|j: int|
                            0 <= j < i + 1 && in_rest(#[trigger] es[j], moving@) && rest_coord(
                                es[j],
                                axis,
                            ) == y {
                            let j = choose|j: int|
                                0 <= j < i + 1 && in_rest(#[trigger] es[j], moving@) && rest_coord(
                                    es[j],
                                    axis,
                                ) == y;
                            assert(j < i);
                        }
                    }
                }
            },
        }
        i = i + 1;
    }
    proof {
        let s = coords_view(sorted@);
        assert(is_rest(es, axis, moving@, s));
        let c = sorted_rest(es, axis, moving@);
        assert(is_rest(es, axis, moving@, c));
        lemma_sorted_unique(s, c);
    }
    sorted
}


fn copy_str(s: &str) -> (r: String)
    ensures
        r@ == s@,
{
    let mut r = String::new();
    push_str(&mut r, s);
    r
}

/// The row's descriptions in order.
fn weave_order(rest: &Vec<(String, i64)>, moving: &str, reference: &str, before: bool) -> (r: Vec<String>)
    ensures
        strings_view(r@) == weave(coords_view(rest@), moving@, reference@, before),
{
    let ghost cs = coords_view(rest@);
    let mut order: Vec<String> = Vec::new();
    let mut t: usize = 0;
    while t < rest.len()
        invariant
            t <= rest.len(),
            cs == coords_view(rest@),
            strings_view(order@) == weave(cs.take(t as int), moving@, reference@, before),
        decreases rest.len() - t,
    {
        let ghost prev = order@;
        let desc = &rest[t].0;
        let is_ref = str_eq(desc.as_str(), reference);
        if is_ref && before {
            order.push(copy_str(moving));
        }
        order.push(desc.clone());
        if is_ref && !before {
            order.push(copy_str(moving));
        }
        proof {
            let tk = cs.take(t + 1);
            assert(tk.drop_last() =~= cs.take(t as int));
            assert(tk.last() == cs[t as int]);
            assert(strings_view(order@) =~= strings_view(prev) + woven(
                cs[t as int],
                moving@,
                reference@,
                before,
            ));
        }
        t = t + 1;
    }
    assert(cs.take(rest.len() as int) =~= cs);
    order
}

pub open spec fn row_view(v: Seq<(String, Size)>) -> Seq<(Seq<char>, Size)> {
    Seq::new(v.len(), |i: int| (v[i].0@, v[i].1))
}

/// The logical size of a lit screen stored under `desc`.
fn sized_exec(layout: &Layout, desc: &str) -> (r: Option<Size>)
    requires
        layout@.wf(),
    ensures
        r == sized(layout@.screens, desc@),
{
    match layout.get(desc) {
        Some(s) => if s.is_on() {
            s.placement.logical_size()
        } else {
            None
        },
        None => None,
    }
}

fn sized_row_exec(layout: &Layout, order: &Vec<String>) -> (r: Vec<(String, Size)>)
    requires
        layout@.wf(),
    ensures
        row_view(r@) == sized_row(strings_view(order@), layout@.screens),
{
    let ghost os = strings_view(order@);
    let mut row: Vec<(String, Size)> = Vec::new();
    let mut k: usize = 0;
    while k < order.len()
        invariant
            k <= order.len(),
            layout@.wf(),
            os == strings_view(order@),
            row_view(row@) == sized_row(os.take(k as int), layout@.screens),
        decreases order.len() - k,
    {
        let ghost prev = row@;
        let desc = &order[k];
        let size = sized_exec(layout, desc.as_str());
        match size {
            Some(sz) => {
                row.push((desc.clone(), sz));
            },
            None => {},
        }
        proof {
            let tk = os.take(k + 1);
            assert(tk.drop_last() =~= os.take(k as int));
            assert(tk.last() == os[k as int]);
            assert(row_view(row@) =~= sized_row(tk, layout@.screens));
        }
        k = k + 1;
    }
    assert(os.take(order.len() as int) =~= os);
    row
}

fn along_of(s: Size, axis: Axis) -> (r: i64)
    ensures
        r == along(s, axis),
{
    if axis == Axis::Horizontal {
        s.width
    } else {
        s.height
    }
}

fn across_of(s: Size, axis: Axis) -> (r: i64)
    ensures
        r == across(s, axis),
{
    if axis == Axis::Horizontal {
        s.height
    } else {
        s.width
    }
}

proof fn lemma_extent_is_max(row: Seq<(Seq<char>, Size)>, axis: Axis, n: int)
    requires
        1 <= n <= row.len(),
    ensures
        forall|k: int| 0 <= k < n ==> across(#[trigger] row[k].1, axis) <= extent(row, axis, n),
        exists|k: int| 0 <= k < n && across(#[trigger] row[k].1, axis) == extent(row, axis, n),
    decreases n,
{
    if n > 1 {
        lemma_extent_is_max(row, axis, n - 1);
        let e = extent(row, axis, n - 1);
        let a = across(row[n - 1].1, axis);
        if a > e {
            assert(across(row[n - 1].1, axis) == extent(row, axis, n));
        } else {
            let k = choose|k: int| 0 <= k < n - 1 && across(#[trigger] row[k].1, axis) == e;
            assert(across(row[k].1, axis) == extent(row, axis, n));
        }
    } else {
        assert(across(row[0].1, axis) == extent(row, axis, n));
    }
}

/// The points the row's screens land on, or `None` when a coordinate would not fit an `i64`.
fn pack(row: &Vec<(String, Size)>, axis: Axis) -> (r: Option<Vec<Point>>)
    ensures
        match r {
            Some(points) => row_fits(row_view(row@), axis) && points@.len() == row@.len() && forall|
                k: int,
            |
                0 <= k < row@.len() ==> (#[trigger] points@[k]).x == row_point(
                    row_view(row@),
                    axis,
                    k,
                ).0 && points@[k].y == row_point(row_view(row@), axis, k).1,
            None => !row_fits(row_view(row@), axis),
        },
{
    let ghost rv = row_view(row@);
    let n = row.len();
    let mut ext: i64 = 0;
    let mut i: usize = 0;
    while i < n
        invariant
            i <= n == row.len(),
            rv == row_view(row@),
            ext == extent(rv, axis, i as int),
        decreases n - i,
    {
        let a = across_of(row[i].1, axis);
        assert(a == across(rv[i as int].1, axis));
        if i == 0 || a > ext {
            ext = a;
        }
        i = i + 1;
    }
    proof {
        if n > 0 {
            lemma_extent_is_max(rv, axis, n as int);
        }
    }
    let mut points: Vec<Point> = Vec::new();
    let mut off: i64 = 0;
    let mut k: usize = 0;
    while k < n
        invariant
            k <= n == row.len(),
            rv == row_view(row@),
            ext == extent(rv, axis, n as int),
            n > 0 ==> forall|t: int| 0 <= t < n ==> across(#[trigger] rv[t].1, axis) <= ext,
            off == offset(rv, axis, k as int),
            points@.len() == k,
            forall|t: int| 0 <= t <= k ==> i64::MIN <= #[trigger] offset(rv, axis, t) <= i64::MAX,
            forall|t: int|
                0 <= t < k ==> i64::MIN <= ext - across(#[trigger] rv[t].1, axis) <= i64::MAX,
            forall|t: int|
                0 <= t < k ==> (#[trigger] points@[t]).x == row_point(rv, axis, t).0
                    && points@[t].y == row_point(rv, axis, t).1,
        decreases n - k,
    {
        let s = row[k].1;
        assert(s == rv[k as int].1);
        let a = across_of(s, axis);
        let gap: i128 = ext as i128 - a as i128;
        if gap > i64::MAX as i128 {
            return None;
        }
        let centered = (gap / 2) as i64;
        let next: i128 = off as i128 + along_of(s, axis) as i128;
        if next > i64::MAX as i128 || next < i64::MIN as i128 {
            proof {
                assert(offset(rv, axis, k + 1) == next);
            }
            return None;
        }
        let p = if axis == Axis::Horizontal {
            Point { x: off, y: centered }
        } else {
            Point { x: centered, y: off }
        };
        points.push(p);
        off = next as i64;
        k = k + 1;
    }
    Some(points)
}

/// Every coordinate a placement needs fits an `i64`.
pub open spec fn place_fits(l: LayoutView, moving: Seq<char>, side: Side, reference: Seq<char>) -> bool {
    row_fits(placement_row(l, moving, side, reference), side_axis(side))
}

/// The row a placement lays out, and the points it lands on.
fn plan(layout: &Layout, moving: &str, side: Side, reference: &str) -> (r: (
    Vec<(String, Size)>,
    Option<Vec<Point>>,
))
    requires
        layout@.wf(),
    ensures
        row_view(r.0@) == placement_row(layout@, moving@, side, reference@),
        match r.1 {
            Some(points) => place_fits(layout@, moving@, side, reference@) && points@.len()
                == r.0@.len() && forall|k: int|
                0 <= k < r.0@.len() ==> (#[trigger] points@[k]).x == row_point(
                    row_view(r.0@),
                    side_axis(side),
                    k,
                ).0 && points@[k].y == row_point(row_view(r.0@), side_axis(side), k).1,
            None => !place_fits(layout@, moving@, side, reference@),
        },
{
    let axis = side.axis();
    let rest = collect_rest(layout, axis, moving);
    let order = weave_order(&rest, moving, reference, side.before_reference());
    let row = sized_row_exec(layout, &order);
    let points = pack(&row, axis);
    (row, points)
}

/// Whether a placement's coordinates fit, so that `place` can make it.
pub fn fits(layout: &Layout, moving: &str, side: Side, reference: &str) -> (b: bool)
    requires
        layout@.wf(),
    ensures
        b == place_fits(layout@, moving@, side, reference@),
{
    let (_, points) = plan(layout, moving, side, reference);
    points.is_some()
}

/// The first index of a description in the planned row.
fn find_in_row(row: &Vec<(String, Size)>, k: &str) -> (r: Option<usize>)
    ensures
        match r {
            Some(j) => row_index(row_view(row@), k@) == Some(j as int) && j < row@.len(),
            None => row_index(row_view(row@), k@) is None,
        },
{
    let ghost rv = row_view(row@);
    let mut j: usize = 0;
    while j < row.len()
        invariant
            j <= row.len(),
            rv == row_view(row@),
            forall|i: int| 0 <= i < j ==> rv[i].0 != k@,
        decreases row.len() - j,
    {
        if str_eq(row[j].0.as_str(), k) {
            proof {
                assert(rv[j as int].0 == k@);
                let w = choose|w: int|
                    0 <= w < rv.len() && #[trigger] rv[w].0 == k@ && forall|i: int|
                        0 <= i < w ==> rv[i].0 != k@;
                if w < j {
                } else if w > j {
                    assert(rv[j as int].0 != k@);
                }
            }
            return Some(j);
        }
        j = j + 1;
    }
    proof {
        if exists|w: int| 0 <= w < rv.len() && #[trigger] rv[w].0 == k@ {
            let w = choose|w: int| 0 <= w < rv.len() && #[trigger] rv[w].0 == k@;
            assert(rv[w].0 != k@);
        }
    }
    None
}

/// Places `moving_desc` on `side` of `reference_desc`, laying the whole row out edge to edge.
pub fn place(layout: &mut Layout, moving_desc: &str, side: Side, reference_desc: &str) -> (r: Result<
    (),
    UserError,
>)
    requires
        old(layout)@.wf(),
        can_place(old(layout)@, moving_desc@, reference_desc@) ==> place_fits(
            old(layout)@,
            moving_desc@,
            side,
            reference_desc@,
        ),
    ensures
        final(layout)@.wf(),
        moving_desc@ == reference_desc@ ==> final(layout)@ == old(layout)@ && r matches Err(
            UserError::CannotPlaceSelfRelative,
        ),
        moving_desc@ != reference_desc@ && !can_place(old(layout)@, moving_desc@, reference_desc@)
            ==> final(layout)@ == old(layout)@ && (r matches Err(
            UserError::CannotPlace { name, side: s, reference },
        ) && name@ == moving_desc@ && s == side && reference@ == reference_desc@),
        can_place(old(layout)@, moving_desc@, reference_desc@) ==> r is Ok && final(layout)@
            == placed(old(layout)@, moving_desc@, side, reference_desc@),
{
    if str_eq(moving_desc, reference_desc) {
        return Err(UserError::CannotPlaceSelfRelative);
    }
    if sized_exec(layout, moving_desc).is_none() || sized_exec(layout, reference_desc).is_none() {
        return Err(
            UserError::CannotPlace {
                name: copy_str(moving_desc),
                side,
                reference: copy_str(reference_desc),
            },
        );
    }
    let (row, points) = plan(layout, moving_desc, side, reference_desc);
    let points = match points {
        Some(p) => p,
        None => return Ok(()),
    };
    let ghost rv = row_view(row@);
    let ghost axis = side_axis(side);
    let ghost target = placed(layout@, moving_desc@, side, reference_desc@);
    let mut fresh: Vec<(String, Screen)> = Vec::new();
    let mut i: usize = 0;
    while i < layout.screens.len()
        invariant
            i <= layout.screens.len(),
            fresh@.len() == i,
            rv == row_view(row@),
            rv == placement_row(layout@, moving_desc@, side, reference_desc@),
            axis == side_axis(side),
            points@.len() == row@.len(),
            forall|k: int|
                0 <= k < row@.len() ==> (#[trigger] points@[k]).x == row_point(rv, axis, k).0
                    && points@[k].y == row_point(rv, axis, k).1,
            target == placed(layout@, moving_desc@, side, reference_desc@),
            forall|j: int| 0 <= j < i ==> (#[trigger] fresh@[j]).0@ == target.screens[j].0
                && fresh@[j].1@ == target.screens[j].1,
        decreases layout.screens.len() - i,
    {
        let (desc, screen) = layout.entry(i);
        let s = match find_in_row(&row, desc.as_str()) {
            Some(j) => Screen {
                state: screen.state.duplicate(),
                placement: Placement { position: Position::At(points[j]), ..screen.placement },
            },
            None => screen.duplicate(),
        };
        fresh.push((desc.clone(), s));
        i = i + 1;
    }
    layout.screens = fresh;
    proof {
        assert(layout@.screens =~= target.screens);
        crate::engine::lemma_same_keys_sorted(old(layout)@.screens, layout@.screens);
    }
    Ok(())
}


// ---------------------------------------------------------------------------------------------
// Laws of a placement
// ---------------------------------------------------------------------------------------------

/// A coordinate inserted into a sorted sequence at its place.
pub open spec fn insert_coord(s: Seq<Coord>, x: Coord) -> Seq<Coord>
    decreases s.len(),
{
    if s.len() == 0 {
        seq![x]
    } else if coord_lt(s.last(), x) {
        s.push(x)
    } else {
        insert_coord(s.drop_last(), x).push(s.last())
    }
}

#[verifier::spinoff_prover]
proof fn lemma_insert_coord(s: Seq<Coord>, x: Coord)
    requires
        strictly_sorted(s),
        forall|t: int| 0 <= t < s.len() ==> (#[trigger] s[t]).0 != x.0,
    ensures
        strictly_sorted(insert_coord(s, x)),
        forall|y: Coord| #[trigger] insert_coord(s, x).contains(y) <==> (s.contains(y) || y == x),
    decreases s.len(),
{
    let r = insert_coord(s, x);
    if s.len() == 0 {
        assert(r =~= seq![x]);
        assert forall|y: Coord| r.contains(y) <==> (s.contains(y) || y == x) by {
            if r.contains(y) {
                let t = choose|t: int| 0 <= t < r.len() && r[t] == y;
                assert(t == 0);
            }
            if y == x {
                assert(r[0] == x);
            }
        }
    } else if coord_lt(s.last(), x) {
        assert(r =~= s.push(x));
        assert forall|a: int, b: int| 0 <= a < b < r.len() implies coord_lt(
            #[trigger] r[a],
            #[trigger] r[b],
        ) by {
            if b == s.len() {
                if a < s.len() - 1 {
                    assert(coord_lt(s[a], s[s.len() - 1]));
                    lemma_coord_lt_transitive(s[a], s.last(), x);
                }
            } else {
                assert(r[a] == s[a] && r[b] == s[b]);
            }
        }
        assert forall|y: Coord| r.contains(y) <==> (s.contains(y) || y == x) by {
            if r.contains(y) {
                let t = choose|t: int| 0 <= t < r.len() && r[t] == y;
                if t < s.len() {
                    assert(s[t] == y);
                }
            }
            if s.contains(y) {
                let t = choose|t: int| 0 <= t < s.len() && s[t] == y;
                assert(r[t] == y);
            }
            if y == x {
                assert(r[s.len() as int] == x);
            }
        }
    } else {
        let d = s.drop_last();
        let m = s.last();
        assert forall|a: int, b: int| 0 <= a < b < d.len() implies coord_lt(
            #[trigger] d[a],
            #[trigger] d[b],
        ) by {
            assert(d[a] == s[a] && d[b] == s[b]);
        }
        assert forall|t: int| 0 <= t < d.len() implies (#[trigger] d[t]).0 != x.0 by {
            assert(d[t] == s[t]);
        }
        lemma_insert_coord(d, x);
        assert(m.0 != x.0);
        lemma_coord_lt_total(m, x);
        let q = insert_coord(d, x);
        assert(r =~= q.push(m));
        assert forall|t: int| 0 <= t < q.len() implies coord_lt(#[trigger] q[t], m) by {
            assert(q.contains(q[t]));
            if q[t] != x {
                assert(d.contains(q[t]));
                let u = choose|u: int| 0 <= u < d.len() && d[u] == q[t];
                assert(s[u] == d[u]);
                assert(coord_lt(s[u], s[s.len() - 1]));
            }
        }
        assert forall|a: int, b: int| 0 <= a < b < r.len() implies coord_lt(
            #[trigger] r[a],
            #[trigger] r[b],
        ) by {
            if b == q.len() {
                assert(r[a] == q[a]);
            } else {
                assert(r[a] == q[a] && r[b] == q[b]);
            }
        }
        assert forall|y: Coord| r.contains(y) <==> (s.contains(y) || y == x) by {
            if r.contains(y) {
                let t = choose|t: int| 0 <= t < r.len() && r[t] == y;
                if t < q.len() {
                    assert(q[t] == y);
                    assert(q.contains(y));
                    if y != x {
                        assert(d.contains(y));
                        let u = choose|u: int| 0 <= u < d.len() && d[u] == y;
                        assert(s[u] == y);
                    }
                } else {
                    assert(s[s.len() - 1] == y);
                }
            }
            if s.contains(y) {
                let t = choose|t: int| 0 <= t < s.len() && s[t] == y;
                if t < s.len() - 1 {
                    assert(d[t] == y);
                    assert(d.contains(y));
                    assert(q.contains(y));
                    let u = choose|u: int| 0 <= u < q.len() && q[u] == y;
                    assert(r[u] == y);
                } else {
                    assert(r[q.len() as int] == y);
                }
            }
            if y == x {
                assert(q.contains(x));
                let u = choose|u: int| 0 <= u < q.len() && q[u] == x;
                assert(r[u] == x);
            }
        }
    }
}

/// The rest of the row among the first `n` entries, built by insertion.
pub open spec fn rest_upto(es: Entries, axis: Axis, moving: Seq<char>, n: int) -> Seq<Coord>
    decreases n,
{
    if n <= 0 {
        Seq::empty()
    } else {
        let p = rest_upto(es, axis, moving, n - 1);
        if in_rest(es[n - 1], moving) {
            insert_coord(p, rest_coord(es[n - 1], axis))
        } else {
            p
        }
    }
}

#[verifier::spinoff_prover]
proof fn lemma_rest_upto(es: Entries, axis: Axis, moving: Seq<char>, n: int)
    requires
        sorted_keys(es),
        0 <= n <= es.len(),
    ensures
        strictly_sorted(rest_upto(es, axis, moving, n)),
        forall|x: Coord|
            #[trigger] rest_upto(es, axis, moving, n).contains(x) <==> exists|j: int|
                0 <= j < n && in_rest(#[trigger] es[j], moving) && rest_coord(es[j], axis) == x,
    decreases n,
{
    if n > 0 {
        lemma_rest_upto(es, axis, moving, n - 1);
        let p = rest_upto(es, axis, moving, n - 1);
        let r = rest_upto(es, axis, moving, n);
        if in_rest(es[n - 1], moving) {
            let x = rest_coord(es[n - 1], axis);
            assert(x.0 == es[n - 1].0);
            assert forall|t: int| 0 <= t < p.len() implies (#[trigger] p[t]).0 != x.0 by {
                assert(p.contains(p[t]));
                let j = choose|j: int|
                    0 <= j < n - 1 && in_rest(#[trigger] es[j], moving) && rest_coord(es[j], axis)
                        == p[t];
                assert(seq_lt(es[j].0, es[n - 1].0));
                lemma_seq_lt_irreflexive(es[j].0);
            }
            lemma_insert_coord(p, x);
            assert forall|y: Coord|
                r.contains(y) <==> exists|j: int|
                    0 <= j < n && in_rest(#[trigger] es[j], moving) && rest_coord(es[j], axis)
                        == y by {
                if exists|j: int|
                    0 <= j < n && in_rest(#[trigger] es[j], moving) && rest_coord(es[j], axis) == y {
                    let j = choose|j: int|
                        0 <= j < n && in_rest(#[trigger] es[j], moving) && rest_coord(es[j], axis)
                            == y;
                    if j < n - 1 {
                        assert(p.contains(y));
                    }
                }
            }
        } else {
            assert forall|y: Coord|
                r.contains(y) <==> exists|j: int|
                    0 <= j < n && in_rest(#[trigger] es[j], moving) && rest_coord(es[j], axis)
                        == y by {
                if exists|j: int|
                    0 <= j < n && in_rest(#[trigger] es[j], moving) && rest_coord(es[j], axis) == y {
                    let j = choose|j: int|
                        0 <= j < n && in_rest(#[trigger] es[j], moving) && rest_coord(es[j], axis)
                            == y;
                    assert(j < n - 1);
                }
            }
        }
    }
}

/// The screens on the row, sorted along the axis, always exist.
pub proof fn lemma_sorted_rest(es: Entries, axis: Axis, moving: Seq<char>)
    requires
        sorted_keys(es),
    ensures
        is_rest(es, axis, moving, sorted_rest(es, axis, moving)),
{
    lemma_rest_upto(es, axis, moving, es.len() as int);
    assert(is_rest(es, axis, moving, rest_upto(es, axis, moving, es.len() as int)));
}

/// Each description occurs once.
pub open spec fn distinct_keys(s: Seq<Seq<char>>) -> bool {
    forall|i: int, j: int| 0 <= i < j < s.len() ==> s[i] != s[j]
}

pub open spec fn row_keys(row: Seq<(Seq<char>, Size)>) -> Seq<Seq<char>> {
    Seq::new(row.len(), |i: int| row[i].0)
}

/// The rest of the row names each screen once, and never the one being moved.
proof fn lemma_rest_keys(es: Entries, axis: Axis, moving: Seq<char>)
    requires
        sorted_keys(es),
    ensures
        forall|i: int, j: int|
            0 <= i < j < sorted_rest(es, axis, moving).len() ==> (#[trigger] sorted_rest(
                es,
                axis,
                moving,
            )[i]).0 != (#[trigger] sorted_rest(es, axis, moving)[j]).0,
        forall|i: int|
            0 <= i < sorted_rest(es, axis, moving).len() ==> (#[trigger] sorted_rest(
                es,
                axis,
                moving,
            )[i]).0 != moving,
{
    lemma_sorted_rest(es, axis, moving);
    let s = sorted_rest(es, axis, moving);
    assert forall|i: int| 0 <= i < s.len() implies (#[trigger] s[i]).0 != moving by {
        assert(s.contains(s[i]));
    }
    assert forall|i: int, j: int| 0 <= i < j < s.len() implies (#[trigger] s[i]).0 != (
    #[trigger] s[j]).0 by {
        assert(s.contains(s[i]));
        assert(s.contains(s[j]));
        let a = choose|a: int|
            0 <= a < es.len() && in_rest(#[trigger] es[a], moving) && rest_coord(es[a], axis)
                == s[i];
        let b = choose|b: int|
            0 <= b < es.len() && in_rest(#[trigger] es[b], moving) && rest_coord(es[b], axis)
                == s[j];
        if s[i].0 == s[j].0 {
            crate::layout::lemma_sorted_unique(es, a, b);
            assert(coord_lt(s[i], s[j]));
            lemma_coord_lt_irreflexive(s[i]);
        }
    }
}

proof fn lemma_weave_members(s: Seq<Coord>, moving: Seq<char>, reference: Seq<char>, before: bool)
    ensures
        forall|t: int|
            0 <= t < weave(s, moving, reference, before).len() ==> (#[trigger] weave(
                s,
                moving,
                reference,
                before,
            )[t] == moving && exists|u: int| 0 <= u < s.len() && s[u].0 == reference) || exists|
                u: int,
            |
                0 <= u < s.len() && s[u].0 == weave(s, moving, reference, before)[t],
    decreases s.len(),
{
    if s.len() > 0 {
        let d = s.drop_last();
        lemma_weave_members(d, moving, reference, before);
        let w = weave(s, moving, reference, before);
        let wd = weave(d, moving, reference, before);
        let last = woven(s.last(), moving, reference, before);
        assert(w =~= wd + last);
        assert forall|t: int| 0 <= t < w.len() implies (#[trigger] w[t] == moving && exists|u: int|
            0 <= u < s.len() && s[u].0 == reference) || exists|u: int|
            0 <= u < s.len() && s[u].0 == w[t] by {
            if t < wd.len() {
                assert(w[t] == wd[t]);
                if exists|u: int| 0 <= u < d.len() && d[u].0 == wd[t] {
                    let u = choose|u: int| 0 <= u < d.len() && d[u].0 == wd[t];
                    assert(s[u] == d[u]);
                } else {
                    let u = choose|u: int| 0 <= u < d.len() && d[u].0 == reference;
                    assert(s[u] == d[u]);
                }
            } else {
                assert(w[t] == last[t - wd.len()]);
                assert(s[s.len() - 1] == s.last());
            }
        }
    }
}

/// The row's order names each screen once, given a rest that does.
#[verifier::spinoff_prover]
#[verifier::rlimit(40)]
proof fn lemma_weave_distinct(s: Seq<Coord>, moving: Seq<char>, reference: Seq<char>, before: bool)
    requires
        forall|i: int, j: int| 0 <= i < j < s.len() ==> (#[trigger] s[i]).0 != (#[trigger] s[j]).0,
        forall|i: int| 0 <= i < s.len() ==> (#[trigger] s[i]).0 != moving,
    ensures
        distinct_keys(weave(s, moving, reference, before)),
    decreases s.len(),
{
    if s.len() > 0 {
        let d = s.drop_last();
        let m = s.last();
        assert forall|i: int, j: int| 0 <= i < j < d.len() implies (#[trigger] d[i]).0 != (
        #[trigger] d[j]).0 by {
            assert(d[i] == s[i] && d[j] == s[j]);
        }
        assert forall|i: int| 0 <= i < d.len() implies (#[trigger] d[i]).0 != moving by {
            assert(d[i] == s[i]);
        }
        lemma_weave_distinct(d, moving, reference, before);
        lemma_weave_members(d, moving, reference, before);
        let wd = weave(d, moving, reference, before);
        let last = woven(m, moving, reference, before);
        let w = weave(s, moving, reference, before);
        assert(w =~= wd + last);
        assert(m.0 != moving) by {
            assert(s[s.len() - 1] == m);
        }
        assert forall|t: int| 0 <= t < wd.len() implies #[trigger] wd[t] != m.0 by {
            if wd[t] == m.0 {
                if exists|u: int| 0 <= u < d.len() && d[u].0 == wd[t] {
                    let u = choose|u: int| 0 <= u < d.len() && d[u].0 == wd[t];
                    assert(s[u] == d[u]);
                    assert(s[s.len() - 1] == m);
                }
            }
        }
        assert forall|t: int| 0 <= t < wd.len() && m.0 == reference implies #[trigger] wd[t]
            != moving by {
            if wd[t] == moving {
                if !exists|u: int| 0 <= u < d.len() && d[u].0 == wd[t] {
                    let u = choose|u: int| 0 <= u < d.len() && d[u].0 == reference;
                    assert(s[u] == d[u]);
                    assert(s[s.len() - 1] == m);
                } else {
                    let u = choose|u: int| 0 <= u < d.len() && d[u].0 == wd[t];
                    assert(s[u] == d[u]);
                }
            }
        }
        assert forall|i: int, j: int| 0 <= i < j < w.len() implies w[i] != w[j] by {
            if j < wd.len() {
                assert(w[i] == wd[i] && w[j] == wd[j]);
            } else if i < wd.len() {
                assert(w[i] == wd[i]);
                assert(w[j] == last[j - wd.len()]);
            } else {
                assert(w[i] == last[i - wd.len()] && w[j] == last[j - wd.len()]);
            }
        }
    }
}

/// The sized row keeps the order's descriptions, in order, with the sizes they are stored with.
proof fn lemma_sized_row(order: Seq<Seq<char>>, es: Entries)
    ensures
        forall|k: int|
            0 <= k < sized_row(order, es).len() ==> sized(es, (#[trigger] sized_row(order, es)[k]).0)
                == Some(sized_row(order, es)[k].1),
        forall|k: int|
            0 <= k < sized_row(order, es).len() ==> exists|t: int|
                0 <= t < order.len() && order[t] == (#[trigger] sized_row(order, es)[k]).0,
        distinct_keys(order) ==> distinct_keys(row_keys(sized_row(order, es))),
    decreases order.len(),
{
    if order.len() > 0 {
        let d = order.drop_last();
        lemma_sized_row(d, es);
        let rd = sized_row(d, es);
        let r = sized_row(order, es);
        assert forall|k: int| 0 <= k < r.len() implies exists|t: int|
            0 <= t < order.len() && order[t] == (#[trigger] r[k]).0 by {
            if k < rd.len() {
                assert(r[k] == rd[k]);
                let t = choose|t: int| 0 <= t < d.len() && d[t] == rd[k].0;
                assert(order[t] == d[t]);
            } else {
                assert(order[order.len() - 1] == r[k].0);
            }
        }
        assert forall|k: int| 0 <= k < r.len() implies sized(es, (#[trigger] r[k]).0) == Some(
            r[k].1,
        ) by {
            if k < rd.len() {
                assert(r[k] == rd[k]);
            }
        }
        if distinct_keys(order) {
            assert forall|i: int, j: int| 0 <= i < j < d.len() implies d[i] != d[j] by {
                assert(d[i] == order[i] && d[j] == order[j]);
            }
            let keys = row_keys(r);
            assert forall|i: int, j: int| 0 <= i < j < keys.len() implies keys[i] != keys[j] by {
                if j >= rd.len() {
                    assert(r[j].0 == order.last());
                    assert(r[i] == rd[i]);
                    let t = choose|t: int| 0 <= t < d.len() && d[t] == rd[i].0;
                    assert(order[t] == d[t]);
                } else {
                    assert(r[i] == rd[i] && r[j] == rd[j]);
                    assert(row_keys(rd)[i] == rd[i].0 && row_keys(rd)[j] == rd[j].0);
                }
            }
        }
    }
}

/// Where a screen starts along the axis, if it stands at a point.
pub open spec fn start_along(l: LayoutView, k: Seq<char>, axis: Axis) -> Option<int> {
    match lookup(l.screens, k) {
        Some(s) => match s.placement.position {
            Position::At(p) => Some(along_coord(p, axis)),
            _ => None,
        },
        None => None,
    }
}

proof fn lemma_lookup_mapped(es: Entries, f: spec_fn(Seq<char>, ScreenView) -> ScreenView, k: Seq<char>)
    requires
        sorted_keys(es),
    ensures
        sorted_keys(map_screens(es, f)),
        lookup(map_screens(es, f), k) == match lookup(es, k) {
            Some(s) => Some(f(k, s)),
            None => None,
        },
{
    let m = map_screens(es, f);
    assert forall|i: int, j: int| 0 <= i < j < m.len() implies seq_lt(
        #[trigger] m[i].0,
        #[trigger] m[j].0,
    ) by {
        assert(m[i].0 == es[i].0 && m[j].0 == es[j].0);
    }
    if has_key(es, k) {
        let i = key_index(es, k);
        lemma_lookup_at(es, i);
        assert(m[i].0 == k);
        lemma_lookup_at(m, i);
    } else {
        if has_key(m, k) {
            let i = choose|i: int| 0 <= i < m.len() && #[trigger] m[i].0 == k;
            assert(es[i].0 == k);
        }
    }
}

/// The row a placement lays out names each screen once, each with the size it has.
pub proof fn lemma_placement_row(l: LayoutView, moving: Seq<char>, side: Side, reference: Seq<char>)
    requires
        l.wf(),
    ensures
        distinct_keys(row_keys(placement_row(l, moving, side, reference))),
        forall|k: int|
            0 <= k < placement_row(l, moving, side, reference).len() ==> sized(
                l.screens,
                (#[trigger] placement_row(l, moving, side, reference)[k]).0,
            ) == Some(placement_row(l, moving, side, reference)[k].1),
{
    let axis = side_axis(side);
    let rest = sorted_rest(l.screens, axis, moving);
    lemma_rest_keys(l.screens, axis, moving);
    lemma_weave_distinct(rest, moving, reference, side_before(side));
    lemma_sized_row(weave(rest, moving, reference, side_before(side)), l.screens);
}

proof fn lemma_offset_step(row: Seq<(Seq<char>, Size)>, axis: Axis, i: int, j: int)
    requires
        0 <= i < j <= row.len(),
        forall|k: int| 0 <= k < row.len() ==> along(#[trigger] row[k].1, axis) >= 0,
    ensures
        offset(row, axis, i) + along(row[i].1, axis) <= offset(row, axis, j),
    decreases j - i,
{
    if j > i + 1 {
        lemma_offset_step(row, axis, i, j - 1);
        assert(along(row[j - 1].1, axis) >= 0);
    }
}

/// Moving a screen keeps its mode and scale, and so its logical size.
proof fn lemma_same_size(a: ScreenView, b: ScreenView)
    requires
        a.state == b.state,
        a.placement.mode == b.placement.mode,
        a.placement.scale == b.placement.scale,
    ensures
        a.on() == b.on(),
        logical_size_of(a.placement) == logical_size_of(b.placement),
{
    assert(a.placement == Placement { position: a.placement.position, ..b.placement });
}

/// The description a row holds at `k` is found there first.
proof fn lemma_row_index_at(row: Seq<(Seq<char>, Size)>, k: int)
    requires
        distinct_keys(row_keys(row)),
        0 <= k < row.len(),
    ensures
        row_index(row, row[k].0) == Some(k),
{
    let key = row[k].0;
    assert forall|i: int| 0 <= i < k implies row[i].0 != key by {
        assert(row_keys(row)[i] == row[i].0 && row_keys(row)[k] == row[k].0);
    }
    assert(row[k].0 == key);
    let w = choose|w: int|
        0 <= w < row.len() && #[trigger] row[w].0 == key && forall|i: int|
            0 <= i < w ==> row[i].0 != key;
    if w < k {
        assert(row_keys(row)[w] == row[w].0 && row_keys(row)[k] == row[k].0);
    } else if w > k {
        assert(row[k].0 != key);
    }
}

/// A screen of a row stands, once the row is laid out, where the row puts it, with its size
/// unchanged.
#[verifier::spinoff_prover]
proof fn lemma_row_member_placed(es: Entries, row: Seq<(Seq<char>, Size)>, axis: Axis, k: int)
    requires
        sorted_keys(es),
        distinct_keys(row_keys(row)),
        row_fits(row, axis),
        0 <= k < row.len(),
        sized(es, row[k].0) == Some(row[k].1),
    ensures
        ({
            let moved = map_screens(es, |kk: Seq<char>, s: ScreenView| placed_screen(row, axis, kk, s));
            &&& sized(moved, row[k].0) == Some(row[k].1)
            &&& lookup(moved, row[k].0) matches Some(s) && s.placement.position matches Position::At(p)
                && along_coord(p, axis) == offset(row, axis, k)
        }),
{
    let key = row[k].0;
    lemma_row_index_at(row, k);
    let f = |kk: Seq<char>, s: ScreenView| placed_screen(row, axis, kk, s);
    lemma_lookup_mapped(es, f, key);
    let old_s = lookup(es, key)->0;
    let new_s = placed_screen(row, axis, key, old_s);
    lemma_same_size(new_s, old_s);
    assert(i64::MIN <= offset(row, axis, k) <= i64::MAX);
}

/// A placed screen of the row stands where the row puts it, with its size unchanged.
proof fn lemma_placed_at(l: LayoutView, moving: Seq<char>, side: Side, reference: Seq<char>, k: int)
    requires
        l.wf(),
        place_fits(l, moving, side, reference),
        0 <= k < placement_row(l, moving, side, reference).len(),
    ensures
        start_along(placed(l, moving, side, reference), placement_row(l, moving, side, reference)[k].0, side_axis(side))
            == Some(offset(placement_row(l, moving, side, reference), side_axis(side), k)),
        sized(placed(l, moving, side, reference).screens, placement_row(l, moving, side, reference)[k].0)
            == Some(placement_row(l, moving, side, reference)[k].1),
{
    let row = placement_row(l, moving, side, reference);
    let axis = side_axis(side);
    lemma_placement_row(l, moving, side, reference);
    lemma_row_member_placed(l.screens, row, axis, k);
}

/// A placement lays the row out edge to edge along the axis: the first screen starts at the
/// origin and each next screen starts where the one before it ends. Every screen of the row
/// keeps its size, and each is named once.
pub proof fn lemma_place_edge_to_edge(l: LayoutView, moving: Seq<char>, side: Side, reference: Seq<char>)
    requires
        l.wf(),
        can_place(l, moving, reference),
        place_fits(l, moving, side, reference),
    ensures
        ({
            let row = placement_row(l, moving, side, reference);
            let after = placed(l, moving, side, reference);
            let axis = side_axis(side);
            &&& distinct_keys(row_keys(row))
            &&& forall|k: int|
                0 <= k < row.len() ==> sized(after.screens, (#[trigger] row[k]).0) == Some(row[k].1)
            &&& row.len() > 0 ==> start_along(after, row[0].0, axis) == Some(0int)
            &&& forall|k: int|
                0 <= k < row.len() - 1 ==> start_along(after, (#[trigger] row[k + 1]).0, axis)
                    == Some(start_along(after, row[k].0, axis)->0 + along(row[k].1, axis))
        }),
{
    let row = placement_row(l, moving, side, reference);
    let axis = side_axis(side);
    let after = placed(l, moving, side, reference);
    lemma_placement_row(l, moving, side, reference);
    assert forall|k: int| 0 <= k < row.len() implies sized(after.screens, (#[trigger] row[k]).0)
        == Some(row[k].1) by {
        lemma_placed_at(l, moving, side, reference, k);
    }
    if row.len() > 0 {
        lemma_placed_at(l, moving, side, reference, 0);
    }
    assert forall|k: int| 0 <= k < row.len() - 1 implies start_along(
        after,
        (#[trigger] row[k + 1]).0,
        axis,
    ) == Some(start_along(after, row[k].0, axis)->0 + along(row[k].1, axis)) by {
        lemma_placed_at(l, moving, side, reference, k);
        lemma_placed_at(l, moving, side, reference, k + 1);
    }
}

/// Along the axis, the spans of a row with no negative size are disjoint.
proof fn lemma_offsets_disjoint(row: Seq<(Seq<char>, Size)>, axis: Axis)
    requires
        forall|k: int| 0 <= k < row.len() ==> along(#[trigger] row[k].1, axis) >= 0,
    ensures
        forall|i: int, j: int|
            0 <= i < row.len() && 0 <= j < row.len() && i != j ==> offset(row, axis, i) + along(
                #[trigger] row[i].1,
                axis,
            ) <= offset(row, axis, j) || offset(row, axis, j) + along(#[trigger] row[j].1, axis)
                <= offset(row, axis, i),
{
    assert forall|i: int, j: int| 0 <= i < row.len() && 0 <= j < row.len() && i != j implies offset(
        row,
        axis,
        i,
    ) + along(#[trigger] row[i].1, axis) <= offset(row, axis, j) || offset(row, axis, j) + along(
        #[trigger] row[j].1,
        axis,
    ) <= offset(row, axis, i) by {
        if i < j {
            lemma_offset_step(row, axis, i, j);
        } else {
            lemma_offset_step(row, axis, j, i);
        }
    }
}

/// Where each screen of a placed row starts along the axis.
proof fn lemma_placed_starts(l: LayoutView, moving: Seq<char>, side: Side, reference: Seq<char>)
    requires
        l.wf(),
        place_fits(l, moving, side, reference),
    ensures
        forall|k: int|
            0 <= k < placement_row(l, moving, side, reference).len() ==> start_along(
                placed(l, moving, side, reference),
                (#[trigger] placement_row(l, moving, side, reference)[k]).0,
                side_axis(side),
            ) == Some(offset(placement_row(l, moving, side, reference), side_axis(side), k)),
{
    let row = placement_row(l, moving, side, reference);
    assert forall|k: int| 0 <= k < row.len() implies start_along(
        placed(l, moving, side, reference),
        (#[trigger] row[k]).0,
        side_axis(side),
    ) == Some(offset(row, side_axis(side), k)) by {
        lemma_placed_at(l, moving, side, reference, k);
    }
}

/// Whatever the order, no two screens of a placed row overlap: along the axis each ends before
/// the other begins. Screens of negative size, which no mode has, are left out.
pub proof fn lemma_place_never_overlaps(l: LayoutView, moving: Seq<char>, side: Side, reference: Seq<char>)
    requires
        l.wf(),
        can_place(l, moving, reference),
        place_fits(l, moving, side, reference),
        forall|k: int|
            0 <= k < placement_row(l, moving, side, reference).len() ==> along(
                (#[trigger] placement_row(l, moving, side, reference)[k]).1,
                side_axis(side),
            ) >= 0,
    ensures
        ({
            let row = placement_row(l, moving, side, reference);
            let after = placed(l, moving, side, reference);
            let axis = side_axis(side);
            forall|i: int, j: int|
                0 <= i < row.len() && 0 <= j < row.len() && i != j ==> start_along(
                    after,
                    (#[trigger] row[i]).0,
                    axis,
                )->0 + along(row[i].1, axis) <= start_along(after, row[j].0, axis)->0
                    || start_along(after, (#[trigger] row[j]).0, axis)->0 + along(row[j].1, axis)
                    <= start_along(after, row[i].0, axis)->0
        }),
{
    let row = placement_row(l, moving, side, reference);
    let axis = side_axis(side);
    lemma_placed_starts(l, moving, side, reference);
    lemma_offsets_disjoint(row, axis);
}


// ---------------------------------------------------------------------------------------------
// Placing again changes nothing
// ---------------------------------------------------------------------------------------------

proof fn lemma_sized_row_concat(a: Seq<Seq<char>>, b: Seq<Seq<char>>, es: Entries)
    ensures
        sized_row(a + b, es) == sized_row(a, es) + sized_row(b, es),
    decreases b.len(),
{
    if b.len() == 0 {
        assert(a + b =~= a);
        assert(sized_row(b, es) =~= Seq::<(Seq<char>, Size)>::empty());
        assert(sized_row(a, es) + sized_row(b, es) =~= sized_row(a, es));
    } else {
        lemma_sized_row_concat(a, b.drop_last(), es);
        assert((a + b).drop_last() =~= a + b.drop_last());
        assert((a + b).last() == b.last());
    }
}

/// The members of a rest that have a size.
pub open spec fn sized_part(s: Seq<Coord>, es: Entries) -> Seq<Coord>
    decreases s.len(),
{
    if s.len() == 0 {
        Seq::empty()
    } else {
        sized_part(s.drop_last(), es) + if sized(es, s.last().0) is Some {
            seq![s.last()]
        } else {
            Seq::empty()
        }
    }
}

/// Screens with no size take no part in the row, whatever their place in the order.
proof fn lemma_row_of_sized_part(s: Seq<Coord>, es: Entries, moving: Seq<char>, reference: Seq<char>, before: bool)
    requires
        sized(es, reference) is Some,
    ensures
        sized_row(weave(s, moving, reference, before), es) == sized_row(
            weave(sized_part(s, es), moving, reference, before),
            es,
        ),
    decreases s.len(),
{
    if s.len() > 0 {
        let d = s.drop_last();
        let m = s.last();
        lemma_row_of_sized_part(d, es, moving, reference, before);
        lemma_sized_row_concat(weave(d, moving, reference, before), woven(m, moving, reference, before), es);
        let pd = sized_part(d, es);
        if sized(es, m.0) is Some {
            let ps = sized_part(s, es);
            assert(ps =~= pd.push(m));
            assert(ps.drop_last() =~= pd);
            assert(ps.last() == m);
            lemma_sized_row_concat(weave(pd, moving, reference, before), woven(m, moving, reference, before), es);
        } else {
            assert(sized_part(s, es) =~= pd);
            assert(m.0 != reference);
            let w = woven(m, moving, reference, before);
            assert(w =~= seq![m.0]);
            assert(w.drop_last() =~= Seq::<Seq<char>>::empty());
            assert(w.last() == m.0);
            assert(sized_row(w.drop_last(), es) =~= Seq::<(Seq<char>, Size)>::empty());
            assert(sized(es, w.last()) is None);
            assert(sized_row(w, es) =~= Seq::<(Seq<char>, Size)>::empty());
            assert(sized_row(weave(d, moving, reference, before), es) + sized_row(w, es) =~= sized_row(
                weave(d, moving, reference, before),
                es,
            ));
        }
    }
}

pub open spec fn coord_keys(s: Seq<Coord>) -> Seq<Seq<char>> {
    Seq::new(s.len(), |i: int| s[i].0)
}

/// The order of a row depends on the descriptions of its rest alone, not on their coordinates.
proof fn lemma_weave_keys(a: Seq<Coord>, b: Seq<Coord>, moving: Seq<char>, reference: Seq<char>, before: bool)
    requires
        coord_keys(a) == coord_keys(b),
    ensures
        weave(a, moving, reference, before) == weave(b, moving, reference, before),
    decreases a.len(),
{
    assert(a.len() == coord_keys(a).len() && b.len() == coord_keys(b).len());
    if a.len() > 0 {
        assert(coord_keys(a.drop_last()) =~= coord_keys(b.drop_last())) by {
            assert forall|i: int| 0 <= i < a.len() - 1 implies a.drop_last()[i].0 == b.drop_last()[i].0 by {
                assert(coord_keys(a)[i] == coord_keys(b)[i]);
            }
        }
        lemma_weave_keys(a.drop_last(), b.drop_last(), moving, reference, before);
        assert(coord_keys(a)[a.len() - 1] == coord_keys(b)[b.len() - 1]);
    }
}

/// An order all of whose screens have a size is kept whole.
proof fn lemma_sized_row_whole(order: Seq<Seq<char>>, es: Entries)
    requires
        forall|t: int| 0 <= t < order.len() ==> sized(es, #[trigger] order[t]) is Some,
    ensures
        row_keys(sized_row(order, es)) == order,
    decreases order.len(),
{
    if order.len() > 0 {
        let d = order.drop_last();
        assert forall|t: int| 0 <= t < d.len() implies sized(es, #[trigger] d[t]) is Some by {
            assert(d[t] == order[t]);
        }
        lemma_sized_row_whole(d, es);
        assert(sized(es, order[order.len() - 1]) is Some);
        assert(row_keys(sized_row(order, es)) =~= order) by {
            let r = sized_row(order, es);
            let rd = sized_row(d, es);
            assert(r =~= rd.push((order.last(), sized(es, order.last())->0)));
            assert forall|t: int| 0 <= t < order.len() implies row_keys(r)[t] == order[t] by {
                if t < d.len() {
                    assert(row_keys(rd)[t] == d[t]);
                }
            }
        }
    }
}

/// Two entry lists that agree on every size give every order the same row.
proof fn lemma_sized_row_same_sizes(order: Seq<Seq<char>>, a: Entries, b: Entries)
    requires
        forall|k: Seq<char>| #[trigger] sized(a, k) == sized(b, k),
    ensures
        sized_row(order, a) == sized_row(order, b),
    decreases order.len(),
{
    if order.len() > 0 {
        lemma_sized_row_same_sizes(order.drop_last(), a, b);
        assert(sized(a, order.last()) == sized(b, order.last()));
    }
}


proof fn lemma_sized_part(s: Seq<Coord>, es: Entries)
    ensures
        forall|x: Coord| #[trigger] sized_part(s, es).contains(x) <==> s.contains(x) && sized(es, x.0) is Some,
        strictly_sorted(s) ==> strictly_sorted(sized_part(s, es)),
    decreases s.len(),
{
    if s.len() > 0 {
        let d = s.drop_last();
        let m = s.last();
        lemma_sized_part(d, es);
        let pd = sized_part(d, es);
        let ps = sized_part(s, es);
        assert forall|x: Coord| #[trigger] ps.contains(x) <==> s.contains(x) && sized(es, x.0) is Some by {
            if ps.contains(x) {
                let t = choose|t: int| 0 <= t < ps.len() && ps[t] == x;
                if t < pd.len() {
                    assert(pd[t] == x);
                    assert(pd.contains(x));
                    let u = choose|u: int| 0 <= u < d.len() && d[u] == x;
                    assert(s[u] == x);
                } else {
                    assert(s[s.len() - 1] == x);
                }
            }
            if s.contains(x) && sized(es, x.0) is Some {
                let t = choose|t: int| 0 <= t < s.len() && s[t] == x;
                if t < s.len() - 1 {
                    assert(d[t] == x);
                    assert(pd.contains(x));
                    let u = choose|u: int| 0 <= u < pd.len() && pd[u] == x;
                    assert(ps[u] == x);
                } else {
                    assert(ps[pd.len() as int] == x);
                }
            }
        }
        if strictly_sorted(s) {
            assert forall|a: int, b: int| 0 <= a < b < d.len() implies coord_lt(
                #[trigger] d[a],
                #[trigger] d[b],
            ) by {
                assert(d[a] == s[a] && d[b] == s[b]);
            }
            assert forall|a: int, b: int| 0 <= a < b < ps.len() implies coord_lt(
                #[trigger] ps[a],
                #[trigger] ps[b],
            ) by {
                if b < pd.len() {
                    assert(ps[a] == pd[a] && ps[b] == pd[b]);
                } else {
                    assert(ps[a] == pd[a]);
                    assert(pd.contains(pd[a]));
                    let u = choose|u: int| 0 <= u < d.len() && d[u] == pd[a];
                    assert(s[u] == d[u]);
                    assert(ps[b] == s[s.len() - 1]);
                }
            }
        }
    }
}

/// A sequence of descriptions without one of them.
pub open spec fn drop_key(s: Seq<Seq<char>>, m: Seq<char>) -> Seq<Seq<char>>
    decreases s.len(),
{
    if s.len() == 0 {
        Seq::empty()
    } else {
        drop_key(s.drop_last(), m) + if s.last() != m {
            seq![s.last()]
        } else {
            Seq::empty()
        }
    }
}

proof fn lemma_drop_key_concat(a: Seq<Seq<char>>, b: Seq<Seq<char>>, m: Seq<char>)
    ensures
        drop_key(a + b, m) == drop_key(a, m) + drop_key(b, m),
    decreases b.len(),
{
    if b.len() == 0 {
        assert(a + b =~= a);
        assert(drop_key(a, m) + drop_key(b, m) =~= drop_key(a, m));
    } else {
        lemma_drop_key_concat(a, b.drop_last(), m);
        assert((a + b).drop_last() =~= a + b.drop_last());
        assert((a + b).last() == b.last());
    }
}

/// Taking the moving screen out of the row's order leaves the rest's descriptions.
proof fn lemma_drop_moving(u: Seq<Coord>, moving: Seq<char>, reference: Seq<char>, before: bool)
    requires
        forall|i: int| 0 <= i < u.len() ==> (#[trigger] u[i]).0 != moving,
    ensures
        drop_key(weave(u, moving, reference, before), moving) == coord_keys(u),
    decreases u.len(),
{
    if u.len() > 0 {
        let d = u.drop_last();
        let m = u.last();
        assert forall|i: int| 0 <= i < d.len() implies (#[trigger] d[i]).0 != moving by {
            assert(d[i] == u[i]);
        }
        lemma_drop_moving(d, moving, reference, before);
        let w = woven(m, moving, reference, before);
        lemma_drop_key_concat(weave(d, moving, reference, before), w, moving);
        assert(m.0 != moving) by {
            assert(u[u.len() - 1] == m);
        }
        assert(drop_key(w, moving) =~= seq![m.0]) by {
            let e = Seq::<Seq<char>>::empty();
            assert(drop_key(e, moving) =~= e);
            if m.0 == reference {
                if before {
                    assert(w =~= seq![moving, m.0]);
                    assert(w.drop_last() =~= seq![moving]);
                    assert(w.drop_last().drop_last() =~= e);
                    assert(drop_key(w.drop_last(), moving) =~= e);
                } else {
                    assert(w =~= seq![m.0, moving]);
                    assert(w.drop_last() =~= seq![m.0]);
                    assert(w.drop_last().drop_last() =~= e);
                    assert(drop_key(w.drop_last(), moving) =~= seq![m.0]);
                }
            } else {
                assert(w =~= seq![m.0]);
                assert(w.drop_last() =~= e);
            }
        }
        assert(coord_keys(u) =~= coord_keys(d).push(m.0));
    }
}

/// The row's screens other than the moving one, at the coordinates the row gives them.
pub open spec fn rest_of_row(row: Seq<(Seq<char>, Size)>, axis: Axis, moving: Seq<char>, n: int) -> Seq<Coord>
    decreases n,
{
    if n <= 0 {
        Seq::empty()
    } else {
        rest_of_row(row, axis, moving, n - 1) + if row[n - 1].0 != moving {
            seq![(row[n - 1].0, offset(row, axis, n - 1))]
        } else {
            Seq::empty()
        }
    }
}

proof fn lemma_rest_of_row(row: Seq<(Seq<char>, Size)>, axis: Axis, moving: Seq<char>, n: int)
    requires
        0 <= n <= row.len(),
        forall|k: int| 0 <= k < row.len() ==> along(#[trigger] row[k].1, axis) > 0,
    ensures
        coord_keys(rest_of_row(row, axis, moving, n)) == drop_key(row_keys(row).take(n), moving),
        forall|x: Coord|
            #[trigger] rest_of_row(row, axis, moving, n).contains(x) <==> exists|k: int|
                0 <= k < n && (#[trigger] row[k]).0 != moving && x == (row[k].0, offset(row, axis, k)),
        strictly_sorted(rest_of_row(row, axis, moving, n)),
    decreases n,
{
    if n > 0 {
        lemma_rest_of_row(row, axis, moving, n - 1);
        let p = rest_of_row(row, axis, moving, n - 1);
        let r = rest_of_row(row, axis, moving, n);
        let tk = row_keys(row).take(n);
        assert(tk.drop_last() =~= row_keys(row).take(n - 1));
        assert(tk.last() == row[n - 1].0);
        if row[n - 1].0 != moving {
            let x = (row[n - 1].0, offset(row, axis, n - 1));
            assert(r =~= p.push(x));
            assert(coord_keys(r) =~= coord_keys(p).push(x.0));
            assert forall|t: int| 0 <= t < p.len() implies coord_lt(#[trigger] p[t], x) by {
                assert(p.contains(p[t]));
                let k = choose|k: int|
                    0 <= k < n - 1 && (#[trigger] row[k]).0 != moving && p[t] == (row[k].0, offset(row, axis, k));
                lemma_offset_step(row, axis, k, n - 1);
                assert(along(row[k].1, axis) > 0);
            }
            assert forall|a: int, b: int| 0 <= a < b < r.len() implies coord_lt(
                #[trigger] r[a],
                #[trigger] r[b],
            ) by {
                if b < p.len() {
                    assert(r[a] == p[a] && r[b] == p[b]);
                } else {
                    assert(r[a] == p[a]);
                }
            }
            assert forall|y: Coord| #[trigger] r.contains(y) <==> exists|k: int|
                0 <= k < n && (#[trigger] row[k]).0 != moving && y == (row[k].0, offset(row, axis, k)) by {
                if r.contains(y) {
                    let t = choose|t: int| 0 <= t < r.len() && r[t] == y;
                    if t < p.len() {
                        assert(p[t] == y);
                        assert(p.contains(y));
                    } else {
                        assert(row[n - 1].0 != moving);
                    }
                }
                if exists|k: int| 0 <= k < n && (#[trigger] row[k]).0 != moving && y == (row[k].0, offset(row, axis, k)) {
                    let k = choose|k: int| 0 <= k < n && (#[trigger] row[k]).0 != moving && y == (row[k].0, offset(row, axis, k));
                    if k < n - 1 {
                        assert(p.contains(y));
                        let t = choose|t: int| 0 <= t < p.len() && p[t] == y;
                        assert(r[t] == y);
                    } else {
                        assert(r[p.len() as int] == y);
                    }
                }
            }
        } else {
            assert(r =~= p);
            assert forall|y: Coord| #[trigger] r.contains(y) <==> exists|k: int|
                0 <= k < n && (#[trigger] row[k]).0 != moving && y == (row[k].0, offset(row, axis, k)) by {
                if exists|k: int| 0 <= k < n && (#[trigger] row[k]).0 != moving && y == (row[k].0, offset(row, axis, k)) {
                    let k = choose|k: int| 0 <= k < n && (#[trigger] row[k]).0 != moving && y == (row[k].0, offset(row, axis, k));
                    assert(k < n - 1);
                    assert(p.contains(y));
                }
            }
        }
    }
}


proof fn lemma_weave_contains(u: Seq<Coord>, moving: Seq<char>, reference: Seq<char>, before: bool)
    ensures
        forall|t: int|
            0 <= t < u.len() ==> exists|w: int|
                0 <= w < weave(u, moving, reference, before).len() && weave(u, moving, reference, before)[w]
                    == (#[trigger] u[t]).0,
    decreases u.len(),
{
    if u.len() > 0 {
        let d = u.drop_last();
        lemma_weave_contains(d, moving, reference, before);
        let wd = weave(d, moving, reference, before);
        let last = woven(u.last(), moving, reference, before);
        let w = weave(u, moving, reference, before);
        assert(w =~= wd + last);
        assert forall|t: int| 0 <= t < u.len() implies exists|v: int|
            0 <= v < w.len() && w[v] == (#[trigger] u[t]).0 by {
            if t < d.len() {
                assert(d[t] == u[t]);
                let v = choose|v: int| 0 <= v < wd.len() && wd[v] == (#[trigger] d[t]).0;
                assert(w[v] == wd[v]);
            } else if u.last().0 == reference && before {
                assert(w[wd.len() as int + 1] == last[1]);
            } else {
                assert(w[wd.len() as int] == last[0]);
            }
        }
    }
}

/// Placing keeps every screen's state, mode and scale, so every size stays what it was.
proof fn lemma_placed_sizes(l: LayoutView, moving: Seq<char>, side: Side, reference: Seq<char>)
    requires
        l.wf(),
    ensures
        placed(l, moving, side, reference).wf(),
        forall|k: Seq<char>| #[trigger] sized(placed(l, moving, side, reference).screens, k) == sized(l.screens, k),
        forall|k: Seq<char>| #[trigger] has_key(placed(l, moving, side, reference).screens, k) == has_key(l.screens, k),
{
    let row = placement_row(l, moving, side, reference);
    let axis = side_axis(side);
    let f = |kk: Seq<char>, s: ScreenView| placed_screen(row, axis, kk, s);
    let es2 = placed(l, moving, side, reference).screens;
    assert(es2 == map_screens(l.screens, f));
    lemma_lookup_mapped(l.screens, f, Seq::empty());
    assert forall|k: Seq<char>| #[trigger] sized(es2, k) == sized(l.screens, k) by {
        lemma_lookup_mapped(l.screens, f, k);
        if lookup(l.screens, k) is Some {
            let s0 = lookup(l.screens, k)->0;
            lemma_same_size(placed_screen(row, axis, k, s0), s0);
        }
    }
    assert forall|k: Seq<char>| #[trigger] has_key(es2, k) == has_key(l.screens, k) by {
        if has_key(es2, k) {
            let i = choose|i: int| 0 <= i < es2.len() && #[trigger] es2[i].0 == k;
            assert(l.screens[i].0 == k);
        }
        if has_key(l.screens, k) {
            let i = choose|i: int| 0 <= i < l.screens.len() && #[trigger] l.screens[i].0 == k;
            assert(es2[i].0 == k);
        }
    }
}

/// The row is the rest's sized screens with the moving one woven in, each of them sized.
proof fn lemma_row_from_sized_part(l: LayoutView, moving: Seq<char>, side: Side, reference: Seq<char>)
    requires
        l.wf(),
        can_place(l, moving, reference),
    ensures
        ({
            let s1 = sorted_rest(l.screens, side_axis(side), moving);
            let p1 = sized_part(s1, l.screens);
            let row = placement_row(l, moving, side, reference);
            &&& row == sized_row(weave(p1, moving, reference, side_before(side)), l.screens)
            &&& row_keys(row) == weave(p1, moving, reference, side_before(side))
            &&& forall|i: int| 0 <= i < p1.len() ==> (#[trigger] p1[i]).0 != moving && s1.contains(p1[i])
        }),
{
    let axis = side_axis(side);
    let before = side_before(side);
    let s1 = sorted_rest(l.screens, axis, moving);
    let p1 = sized_part(s1, l.screens);
    lemma_row_of_sized_part(s1, l.screens, moving, reference, before);
    lemma_sized_part(s1, l.screens);
    lemma_rest_keys(l.screens, axis, moving);
    assert forall|i: int| 0 <= i < p1.len() implies (#[trigger] p1[i]).0 != moving && s1.contains(p1[i]) by {
        assert(p1.contains(p1[i]));
        let t = choose|t: int| 0 <= t < s1.len() && s1[t] == p1[i];
        assert(s1[t].0 != moving);
    }
    let w = weave(p1, moving, reference, before);
    lemma_weave_members(p1, moving, reference, before);
    assert forall|t: int| 0 <= t < w.len() implies sized(l.screens, #[trigger] w[t]) is Some by {
        if w[t] != moving {
            let u = choose|u: int| 0 <= u < p1.len() && p1[u].0 == w[t];
            assert(p1.contains(p1[u]));
        }
    }
    lemma_sized_row_whole(w, l.screens);
}

/// What a placement requires of the layout, and of the row it lays out, for the rest it leaves
/// to be read back.
pub open spec fn replaceable(l: LayoutView, moving: Seq<char>, side: Side, reference: Seq<char>) -> bool {
    &&& l.wf()
    &&& can_place(l, moving, reference)
    &&& place_fits(l, moving, side, reference)
    &&& forall|k: int|
        0 <= k < placement_row(l, moving, side, reference).len() ==> along(
            (#[trigger] placement_row(l, moving, side, reference)[k]).1,
            side_axis(side),
        ) > 0
}

/// A sized screen of the rest after a placement is one of the row's other screens.
#[verifier::spinoff_prover]
proof fn lemma_rest_after_member(l: LayoutView, moving: Seq<char>, side: Side, reference: Seq<char>, x: Coord)
    requires
        replaceable(l, moving, side, reference),
        sized_part(
            sorted_rest(placed(l, moving, side, reference).screens, side_axis(side), moving),
            placed(l, moving, side, reference).screens,
        ).contains(x),
    ensures
        rest_of_row(
            placement_row(l, moving, side, reference),
            side_axis(side),
            moving,
            placement_row(l, moving, side, reference).len() as int,
        ).contains(x),
{
    let axis = side_axis(side);
    let before = side_before(side);
    let es1 = l.screens;
    let row = placement_row(l, moving, side, reference);
    let es2 = placed(l, moving, side, reference).screens;
    let s1 = sorted_rest(es1, axis, moving);
    let p1 = sized_part(s1, es1);
    let s2 = sorted_rest(es2, axis, moving);
    lemma_placed_sizes(l, moving, side, reference);
    lemma_sorted_rest(es1, axis, moving);
    lemma_sorted_rest(es2, axis, moving);
    lemma_sized_part(s1, es1);
    lemma_sized_part(s2, es2);
    lemma_rest_of_row(row, axis, moving, row.len() as int);
    assert(s2.contains(x) && sized(es2, x.0) is Some);
    let i = choose|i: int|
        0 <= i < es2.len() && in_rest(#[trigger] es2[i], moving) && rest_coord(es2[i], axis) == x;
    let key = es1[i].0;
    let f = |kk: Seq<char>, s: ScreenView| placed_screen(row, axis, kk, s);
    assert(es2 == map_screens(es1, f));
    assert(es2[i].0 == key);
    assert(es2[i].1 == placed_screen(row, axis, key, es1[i].1));
    match row_index(row, key) {
        Some(k) => {
            lemma_placement_row(l, moving, side, reference);
            let j = choose|j: int| 0 <= j < row.len() && #[trigger] row[j].0 == key;
            lemma_row_index_at(row, j);
            assert(k == j);
            assert(row[k].0 == key);
            assert(i64::MIN <= offset(row, axis, k) <= i64::MAX);
            assert(x == (row[k].0, offset(row, axis, k)));
        },
        None => {
            lemma_row_from_sized_part(l, moving, side, reference);
            lemma_weave_contains(p1, moving, reference, before);
            assert(es2[i].1 == es1[i].1);
            assert(in_rest(es1[i], moving));
            assert(s1.contains(rest_coord(es1[i], axis)));
            assert(p1.contains(x));
            let u = choose|u: int| 0 <= u < p1.len() && p1[u] == x;
            let w = choose|w: int|
                0 <= w < weave(p1, moving, reference, before).len() && weave(p1, moving, reference, before)[w]
                    == (#[trigger] p1[u]).0;
            assert(row_keys(row)[w] == row[w].0);
            assert(row[w].0 == key);
            assert(false);
        },
    }
}

/// Each of the row's other screens is, after a placement, a sized screen of the rest.
#[verifier::spinoff_prover]
proof fn lemma_rest_after_covers(l: LayoutView, moving: Seq<char>, side: Side, reference: Seq<char>, x: Coord)
    requires
        replaceable(l, moving, side, reference),
        rest_of_row(
            placement_row(l, moving, side, reference),
            side_axis(side),
            moving,
            placement_row(l, moving, side, reference).len() as int,
        ).contains(x),
    ensures
        sized_part(
            sorted_rest(placed(l, moving, side, reference).screens, side_axis(side), moving),
            placed(l, moving, side, reference).screens,
        ).contains(x),
{
    let axis = side_axis(side);
    let before = side_before(side);
    let es1 = l.screens;
    let row = placement_row(l, moving, side, reference);
    let es2 = placed(l, moving, side, reference).screens;
    let s1 = sorted_rest(es1, axis, moving);
    let p1 = sized_part(s1, es1);
    let s2 = sorted_rest(es2, axis, moving);
    lemma_placed_sizes(l, moving, side, reference);
    lemma_sorted_rest(es1, axis, moving);
    lemma_sorted_rest(es2, axis, moving);
    lemma_sized_part(s2, es2);
    lemma_rest_of_row(row, axis, moving, row.len() as int);
    lemma_row_from_sized_part(l, moving, side, reference);
    lemma_placement_row(l, moving, side, reference);
    lemma_weave_members(p1, moving, reference, before);
    let k = choose|k: int| 0 <= k < row.len() && (#[trigger] row[k]).0 != moving && x == (row[k].0, offset(row, axis, k));
    let key = row[k].0;
    assert(row_keys(row)[k] == key);
    let u = choose|u: int| 0 <= u < p1.len() && p1[u].0 == weave(p1, moving, reference, before)[k];
    assert(s1.contains(p1[u]));
    let i = choose|i: int|
        0 <= i < es1.len() && in_rest(#[trigger] es1[i], moving) && rest_coord(es1[i], axis) == p1[u];
    assert(es1[i].0 == key);
    lemma_row_index_at(row, k);
    let f = |kk: Seq<char>, s: ScreenView| placed_screen(row, axis, kk, s);
    assert(es2 == map_screens(es1, f));
    assert(es2[i].1 == placed_screen(row, axis, key, es1[i].1));
    assert(i64::MIN <= offset(row, axis, k) <= i64::MAX);
    assert(in_rest(es2[i], moving));
    assert(rest_coord(es2[i], axis) == x);
    assert(s2.contains(x));
    assert(sized(es1, key) == Some(row[k].1));
    assert(sized(es2, x.0) is Some);
}

/// After a placement, the sized screens of the rest are the row's other screens, at the
/// coordinates the row gave them.
proof fn lemma_rest_after_placing(l: LayoutView, moving: Seq<char>, side: Side, reference: Seq<char>)
    requires
        replaceable(l, moving, side, reference),
    ensures
        sized_part(
            sorted_rest(placed(l, moving, side, reference).screens, side_axis(side), moving),
            placed(l, moving, side, reference).screens,
        ) == rest_of_row(
            placement_row(l, moving, side, reference),
            side_axis(side),
            moving,
            placement_row(l, moving, side, reference).len() as int,
        ),
{
    let axis = side_axis(side);
    let row = placement_row(l, moving, side, reference);
    let es2 = placed(l, moving, side, reference).screens;
    let s2 = sorted_rest(es2, axis, moving);
    let q = sized_part(s2, es2);
    let r = rest_of_row(row, axis, moving, row.len() as int);
    lemma_placed_sizes(l, moving, side, reference);
    lemma_sorted_rest(es2, axis, moving);
    lemma_sized_part(s2, es2);
    lemma_rest_of_row(row, axis, moving, row.len() as int);
    assert forall|x: Coord| q.contains(x) <==> r.contains(x) by {
        if q.contains(x) {
            lemma_rest_after_member(l, moving, side, reference, x);
        }
        if r.contains(x) {
            lemma_rest_after_covers(l, moving, side, reference, x);
        }
    }
    lemma_sorted_unique(q, r);
}

/// Placing a screen a second time, the same way, changes nothing: the row the first placement
/// laid out is found again, at the places it was given. Rows with a screen of no width along the
/// axis are left out: two screens at one coordinate are ordered by description, not by where
/// they were.
#[verifier::spinoff_prover]
pub proof fn lemma_place_is_idempotent(l: LayoutView, moving: Seq<char>, side: Side, reference: Seq<char>)
    requires
        l.wf(),
        can_place(l, moving, reference),
        place_fits(l, moving, side, reference),
        forall|k: int|
            0 <= k < placement_row(l, moving, side, reference).len() ==> along(
                (#[trigger] placement_row(l, moving, side, reference)[k]).1,
                side_axis(side),
            ) > 0,
    ensures
        placed(l, moving, side, reference).wf(),
        can_place(placed(l, moving, side, reference), moving, reference),
        place_fits(placed(l, moving, side, reference), moving, side, reference),
        placed(placed(l, moving, side, reference), moving, side, reference) == placed(l, moving, side, reference),
{
    let axis = side_axis(side);
    let before = side_before(side);
    let es1 = l.screens;
    let row = placement_row(l, moving, side, reference);
    let l1 = placed(l, moving, side, reference);
    let es2 = l1.screens;
    let s1 = sorted_rest(es1, axis, moving);
    let p1 = sized_part(s1, es1);
    let s2 = sorted_rest(es2, axis, moving);
    let q = sized_part(s2, es2);
    lemma_placed_sizes(l, moving, side, reference);
    lemma_rest_after_placing(l, moving, side, reference);
    lemma_row_from_sized_part(l, moving, side, reference);
    lemma_rest_of_row(row, axis, moving, row.len() as int);
    assert(row_keys(row).take(row.len() as int) =~= row_keys(row));
    lemma_drop_moving(p1, moving, reference, before);
    lemma_weave_keys(q, p1, moving, reference, before);
    lemma_row_of_sized_part(s2, es2, moving, reference, before);
    lemma_sized_row_same_sizes(weave(p1, moving, reference, before), es2, es1);
    let row2 = placement_row(l1, moving, side, reference);
    assert(row2 == row);
    let f = |kk: Seq<char>, s: ScreenView| placed_screen(row, axis, kk, s);
    assert(es2 == map_screens(es1, f));
    assert(placed(l1, moving, side, reference).screens =~= es2) by {
        assert forall|i: int| 0 <= i < es2.len() implies placed_screen(row, axis, es2[i].0, es2[i].1)
            == es2[i].1 by {
            assert(es2[i].1 == placed_screen(row, axis, es1[i].0, es1[i].1));
        }
    }
}

} // verus!
