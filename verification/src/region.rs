//! The areas that the walls of a side enclose.
use crate::field::{
    blank, board_sum, lemma_grid_count_bounds, lemma_grid_sum_update, table_of, PointUsize, State,
    Tile,
};
use std::collections::VecDeque;
use vstd::prelude::*;

verus! {

/// The cell lies on the board and holds no wall of `side`.
pub open spec fn cell_open(tiles: Seq<Seq<Tile>>, side: bool, c: (int, int)) -> bool {
    &&& 0 <= c.0 < tiles.len()
    &&& 0 <= c.1 < tiles[c.0].len()
    &&& tiles[c.0][c.1].state != State::Wall(side)
}

/// The two cells share an edge.
pub open spec fn touching(a: (int, int), b: (int, int)) -> bool {
    ||| a.0 == b.0 && (a.1 == b.1 + 1 || a.1 + 1 == b.1)
    ||| a.1 == b.1 && (a.0 == b.0 + 1 || a.0 + 1 == b.0)
}

/// The cells are a way: each is open and shares an edge with the next.
pub open spec fn is_way(tiles: Seq<Seq<Tile>>, side: bool, way: Seq<(int, int)>) -> bool {
    &&& way.len() >= 1
    &&& forall|k: int| 0 <= k < way.len() ==> cell_open(tiles, side, #[trigger] way[k])
    &&& forall|k: int| 0 <= k < way.len() - 1 ==> touching(#[trigger] way[k], way[k + 1])
}

/// The cells are a way from `a` to `b`.
pub open spec fn leads(
    tiles: Seq<Seq<Tile>>,
    side: bool,
    a: (int, int),
    b: (int, int),
    way: Seq<(int, int)>,
) -> bool {
    is_way(tiles, side, way) && way[0] == a && way[way.len() - 1] == b
}

/// There is a way from `a` to `b` over open cells.
pub open spec fn connected(tiles: Seq<Seq<Tile>>, side: bool, a: (int, int), b: (int, int)) -> bool {
    exists|way: Seq<(int, int)>| #[trigger] leads(tiles, side, a, b, way)
}

/// The cell lies at the edge of the board.
pub open spec fn on_edge(tiles: Seq<Seq<Tile>>, c: (int, int)) -> bool {
    c.0 == 0 || c.1 == 0 || c.0 == tiles.len() - 1 || c.1 == tiles[0].len() - 1
}

/// The cells that can be reached from `a` over open cells.
pub open spec fn area(tiles: Seq<Seq<Tile>>, side: bool, a: (int, int)) -> Set<(int, int)> {
    Set::new(|b: (int, int)| connected(tiles, side, a, b))
}

/// From `a` the edge of the board can be reached over open cells.
pub open spec fn escapes(tiles: Seq<Seq<Tile>>, side: bool, a: (int, int)) -> bool {
    exists|b: (int, int)| #[trigger] connected(tiles, side, a, b) && on_edge(tiles, b)
}

/// The size of the area around a cell that the walls of `side` enclose:
/// the number of cells that can be reached from it over open cells. A wall
/// of `side`, and a cell from which the edge of the board can be reached,
/// gets the size of the board.
pub open spec fn region_size(tiles: Seq<Seq<Tile>>, side: bool, x: int, y: int) -> int {
    if !cell_open(tiles, side, (x, y)) || escapes(tiles, side, (x, y)) {
        (tiles.len() * tiles[0].len()) as int
    } else {
        area(tiles, side, (x, y)).len() as int
    }
}

/// The size of the enclosed area around every cell of the board.
pub open spec fn region_table(tiles: Seq<Seq<Tile>>, side: bool) -> Seq<Seq<usize>> {
    Seq::new(
        tiles.len(),
        |x: int| Seq::new(tiles[x].len(), |y: int| region_size(tiles, side, x, y) as usize),
    )
}

/// Two ways, one after the other, are a way.
pub proof fn lemma_connected_join(
    tiles: Seq<Seq<Tile>>,
    side: bool,
    a: (int, int),
    b: (int, int),
    c: (int, int),
)
    requires
        connected(tiles, side, a, b),
        connected(tiles, side, b, c),
    ensures
        connected(tiles, side, a, c),
{
    let first = choose|way: Seq<(int, int)>| #[trigger] leads(tiles, side, a, b, way);
    let second = choose|way: Seq<(int, int)>| #[trigger] leads(tiles, side, b, c, way);
    let way = first + second.subrange(1, second.len() as int);
    assert forall|k: int| 0 <= k < way.len() implies cell_open(tiles, side, #[trigger] way[k]) by {
        if k < first.len() {
            assert(way[k] == first[k]);
        } else {
            assert(way[k] == second[k - first.len() + 1]);
        }
    }
    assert forall|k: int| 0 <= k < way.len() - 1 implies touching(#[trigger] way[k], way[k + 1]) by {
        if k < first.len() - 1 {
            assert(way[k] == first[k]);
            assert(way[k + 1] == first[k + 1]);
        } else if k == first.len() - 1 {
            assert(way[k] == second[0]);
            assert(way[k + 1] == second[1]);
        } else {
            assert(way[k] == second[k - first.len() + 1]);
            assert(way[k + 1] == second[k - first.len() + 2]);
        }
    }
    assert(way[0] == first[0]);
    if second.len() == 1 {
        assert(way[way.len() - 1] == first[first.len() - 1]);
    } else {
        assert(way[way.len() - 1] == second[second.len() - 1]);
    }
    assert(leads(tiles, side, a, c, way));
}

/// A way can be walked back.
pub proof fn lemma_connected_back(tiles: Seq<Seq<Tile>>, side: bool, a: (int, int), b: (int, int))
    requires
        connected(tiles, side, a, b),
    ensures
        connected(tiles, side, b, a),
{
    let way = choose|way: Seq<(int, int)>| #[trigger] leads(tiles, side, a, b, way);
    let back = Seq::new(way.len(), |k: int| way[way.len() - 1 - k]);
    assert forall|k: int| 0 <= k < back.len() - 1 implies touching(#[trigger] back[k], back[k + 1]) by {
        assert(touching(way[way.len() - 2 - k], way[way.len() - 2 - k + 1]));
    }
    assert(leads(tiles, side, b, a, back));
}

/// An open cell is connected to itself.
pub proof fn lemma_connected_self(tiles: Seq<Seq<Tile>>, side: bool, a: (int, int))
    requires
        cell_open(tiles, side, a),
    ensures
        connected(tiles, side, a, a),
{
    assert(leads(tiles, side, a, a, seq![a]));
}

/// A way can be continued by a step to an open cell that touches its end.
pub proof fn lemma_connected_step(
    tiles: Seq<Seq<Tile>>,
    side: bool,
    a: (int, int),
    b: (int, int),
    c: (int, int),
)
    requires
        connected(tiles, side, a, b),
        touching(b, c),
        cell_open(tiles, side, c),
    ensures
        connected(tiles, side, a, c),
{
    let way = choose|way: Seq<(int, int)>| #[trigger] leads(tiles, side, a, b, way);
    let longer = way.push(c);
    assert forall|k: int| 0 <= k < longer.len() implies cell_open(tiles, side, #[trigger] longer[k]) by {
        if k < way.len() {
            assert(longer[k] == way[k]);
        }
    }
    assert forall|k: int| 0 <= k < longer.len() - 1 implies touching(
        #[trigger] longer[k],
        longer[k + 1],
    ) by {
        if k < way.len() - 1 {
            assert(longer[k] == way[k]);
            assert(longer[k + 1] == way[k + 1]);
        }
    }
    assert(leads(tiles, side, a, c, longer));
}

/// Cells that are connected have the same area around them, and the edge
/// can be reached from both or from neither.
pub proof fn lemma_same_area(tiles: Seq<Seq<Tile>>, side: bool, a: (int, int), b: (int, int))
    requires
        connected(tiles, side, a, b),
    ensures
        area(tiles, side, a) == area(tiles, side, b),
        escapes(tiles, side, a) == escapes(tiles, side, b),
{
    lemma_connected_back(tiles, side, a, b);
    assert forall|c: (int, int)| connected(tiles, side, a, c) <==> connected(tiles, side, b, c) by {
        if connected(tiles, side, a, c) {
            lemma_connected_join(tiles, side, b, a, c);
        }
        if connected(tiles, side, b, c) {
            lemma_connected_join(tiles, side, a, b, c);
        }
    }
    assert(area(tiles, side, a) =~= area(tiles, side, b));
    if escapes(tiles, side, a) {
        let e = choose|e: (int, int)| #[trigger] connected(tiles, side, a, e) && on_edge(tiles, e);
        assert(connected(tiles, side, b, e));
    }
    if escapes(tiles, side, b) {
        let e = choose|e: (int, int)| #[trigger] connected(tiles, side, b, e) && on_edge(tiles, e);
        assert(connected(tiles, side, a, e));
    }
}

/// A set that holds the start of a way and, with every cell, the open
/// cells that touch it, holds every cell of the way.
pub proof fn lemma_way_within(
    tiles: Seq<Seq<Tile>>,
    side: bool,
    comp: Set<(int, int)>,
    way: Seq<(int, int)>,
    k: int,
)
    requires
        is_way(tiles, side, way),
        comp.contains(way[0]),
        forall|c: (int, int), d: (int, int)|
            comp.contains(c) && #[trigger] touching(c, d) && cell_open(tiles, side, d)
                ==> comp.contains(d),
        0 <= k < way.len(),
    ensures
        comp.contains(way[k]),
    decreases k,
{
    if k > 0 {
        lemma_way_within(tiles, side, comp, way, k - 1);
        assert(touching(way[k - 1], way[k]));
    }
}

/// The label of a cell.
pub open spec fn lab(elm: Seq<Seq<usize>>, c: (int, int)) -> usize {
    elm[c.0][c.1]
}

/// The cell lies on a board of `w` by `h` cells.
pub open spec fn in_grid(w: int, h: int, c: (int, int)) -> bool {
    0 <= c.0 < w && 0 <= c.1 < h
}

/// The grid has `w` columns of `h` entries.
pub open spec fn grid_shaped<T>(g: Seq<Seq<T>>, w: int, h: int) -> bool {
    g.len() == w && forall|x: int| 0 <= x < w ==> (#[trigger] g[x]).len() == h
}

/// Every open cell that touches `c` has a label.
pub open spec fn sealed(tiles: Seq<Seq<Tile>>, side: bool, unk: usize, elm: Seq<Seq<usize>>, c: (int, int)) -> bool {
    forall|d: (int, int)| #[trigger] touching(c, d) && cell_open(tiles, side, d) ==> lab(elm, d) != unk
}

/// Every open cell that touches `c` has the label of `c`.
pub open spec fn class_closed(tiles: Seq<Seq<Tile>>, side: bool, elm: Seq<Seq<usize>>, c: (int, int)) -> bool {
    forall|d: (int, int)|
        #[trigger] touching(c, d) && cell_open(tiles, side, d) ==> lab(elm, d) == lab(elm, c)
}

/// A cell with a label that is done is open, has the size of its area on
/// record, and is touched by open cells of its label only.
pub open spec fn label_done(
    tiles: Seq<Seq<Tile>>,
    side: bool,
    cnt: usize,
    elm: Seq<Seq<usize>>,
    siz: Seq<usize>,
    c: (int, int),
) -> bool {
    &&& lab(elm, c) < cnt
    &&& cell_open(tiles, side, c)
    &&& siz[lab(elm, c) as int] == region_size(tiles, side, c.0, c.1)
    &&& class_closed(tiles, side, elm, c)
}

/// All labels but `unk` and `now` are done.
pub open spec fn labels_done(
    tiles: Seq<Seq<Tile>>,
    side: bool,
    w: int,
    h: int,
    unk: usize,
    cnt: usize,
    now: usize,
    elm: Seq<Seq<usize>>,
    siz: Seq<usize>,
) -> bool {
    forall|c: (int, int)|
        in_grid(w, h, c) && #[trigger] lab(elm, c) != unk && lab(elm, c) != now ==> label_done(
            tiles,
            side,
            cnt,
            elm,
            siz,
            c,
        )
}

/// The cell of a queue entry.
pub open spec fn cell_of(p: PointUsize) -> (int, int) {
    (p.x as int, p.y as int)
}

/// The queue holds the cell.
pub open spec fn waiting(que: Seq<PointUsize>, c: (int, int)) -> bool {
    exists|k: int| 0 <= k < que.len() && cell_of(#[trigger] que[k]) == c
}

/// All that holds while the area around `a` is flooded with label `cnt`:
/// `comp` holds the cells labelled so far, all connected to `a`; `done`
/// those whose neighbours have been looked at; the others wait in the
/// queue or are `top`.
pub open spec fn flooding(
    tiles: Seq<Seq<Tile>>,
    side: bool,
    w: int,
    h: int,
    unk: usize,
    cnt: usize,
    a: (int, int),
    elm: Seq<Seq<usize>>,
    comp: Set<(int, int)>,
    done: Set<(int, int)>,
    que: Seq<PointUsize>,
    top: Option<(int, int)>,
) -> bool {
    &&& comp.finite()
    &&& forall|c: (int, int)|
        #[trigger] comp.contains(c) ==> in_grid(w, h, c) && lab(elm, c) == cnt && connected(
            tiles,
            side,
            a,
            c,
        )
    &&& forall|c: (int, int)| in_grid(w, h, c) && #[trigger] lab(elm, c) == cnt ==> comp.contains(c)
    &&& forall|c: (int, int)| #[trigger] done.contains(c) ==> comp.contains(c) && sealed(tiles, side, unk, elm, c)
    &&& forall|k: int| 0 <= k < que.len() ==> comp.contains(cell_of(#[trigger] que[k]))
    &&& forall|c: (int, int)|
        #[trigger] comp.contains(c) ==> done.contains(c) || top == Some(c) || waiting(que, c)
}

/// Giving an unlabelled open cell `d` that touches the labelled cell `c`
/// the label keeps the flooding in order.
proof fn lemma_flood_label(
    tiles: Seq<Seq<Tile>>,
    side: bool,
    w: int,
    h: int,
    unk: usize,
    cnt: usize,
    a: (int, int),
    elm: Seq<Seq<usize>>,
    comp: Set<(int, int)>,
    done: Set<(int, int)>,
    que: Seq<PointUsize>,
    top: Option<(int, int)>,
    siz: Seq<usize>,
    c: (int, int),
    d: PointUsize,
)
    requires
        grid_shaped(tiles, w, h),
        grid_shaped(elm, w, h),
        cnt != unk,
        flooding(tiles, side, w, h, unk, cnt, a, elm, comp, done, que, top),
        labels_done(tiles, side, w, h, unk, cnt, cnt, elm, siz),
        comp.contains(c),
        touching(c, cell_of(d)),
        cell_open(tiles, side, cell_of(d)),
        lab(elm, cell_of(d)) == unk,
    ensures
        flooding(
            tiles,
            side,
            w,
            h,
            unk,
            cnt,
            a,
            elm.update(d.x as int, elm[d.x as int].update(d.y as int, cnt)),
            comp.insert(cell_of(d)),
            done,
            que.push(d),
            top,
        ),
        labels_done(
            tiles,
            side,
            w,
            h,
            unk,
            cnt,
            cnt,
            elm.update(d.x as int, elm[d.x as int].update(d.y as int, cnt)),
            siz,
        ),
        comp.insert(cell_of(d)).len() == comp.len() + 1,
{
    let dc = cell_of(d);
    let elm2 = elm.update(d.x as int, elm[d.x as int].update(d.y as int, cnt));
    let comp2 = comp.insert(dc);
    let que2 = que.push(d);
    assert(!comp.contains(dc));
    assert forall|e: (int, int)| in_grid(w, h, e) implies lab(elm2, e) == (if e == dc {
        cnt
    } else {
        lab(elm, e)
    }) by {}
    lemma_connected_step(tiles, side, a, c, dc);
    assert forall|e: (int, int)| #[trigger] comp2.contains(e) implies in_grid(w, h, e) && lab(elm2, e)
        == cnt && connected(tiles, side, a, e) by {
        if e != dc {
            assert(comp.contains(e));
        }
    }
    assert forall|e: (int, int)| in_grid(w, h, e) && #[trigger] lab(elm2, e) == cnt implies comp2.contains(
        e,
    ) by {
        if e != dc {
            assert(lab(elm, e) == cnt);
        }
    }
    assert forall|e: (int, int)| #[trigger] done.contains(e) implies comp2.contains(e) && sealed(
        tiles,
        side,
        unk,
        elm2,
        e,
    ) by {
        assert(comp.contains(e) && sealed(tiles, side, unk, elm, e));
        assert forall|f: (int, int)| #[trigger] touching(e, f) && cell_open(tiles, side, f) implies lab(
            elm2,
            f,
        ) != unk by {
            assert(lab(elm, f) != unk);
        }
    }
    assert forall|k: int| 0 <= k < que2.len() implies comp2.contains(cell_of(#[trigger] que2[k])) by {
        if k < que.len() {
            assert(que2[k] == que[k]);
            assert(comp.contains(cell_of(que[k])));
        }
    }
    assert forall|e: (int, int)| #[trigger] comp2.contains(e) implies done.contains(e) || top == Some(e)
        || waiting(que2, e) by {
        if e == dc {
            assert(cell_of(que2[que.len() as int]) == e);
        } else {
            assert(comp.contains(e));
            if waiting(que, e) {
                let k = choose|k: int| 0 <= k < que.len() && cell_of(#[trigger] que[k]) == e;
                assert(cell_of(que2[k]) == e);
            }
        }
    }
    assert forall|e: (int, int)|
        in_grid(w, h, e) && #[trigger] lab(elm2, e) != unk && lab(elm2, e) != cnt implies label_done(
        tiles,
        side,
        cnt,
        elm2,
        siz,
        e,
    ) by {
        assert(e != dc);
        assert(label_done(tiles, side, cnt, elm, siz, e));
        assert forall|f: (int, int)| #[trigger] touching(e, f) && cell_open(tiles, side, f) implies lab(
            elm2,
            f,
        ) == lab(elm2, e) by {
            assert(lab(elm, f) == lab(elm, e));
            assert(f != dc);
        }
    }
}

/// Once its four neighbours have been looked at, `c` is done.
proof fn lemma_flood_seal(
    tiles: Seq<Seq<Tile>>,
    side: bool,
    w: int,
    h: int,
    unk: usize,
    cnt: usize,
    a: (int, int),
    elm: Seq<Seq<usize>>,
    comp: Set<(int, int)>,
    done: Set<(int, int)>,
    que: Seq<PointUsize>,
    c: (int, int),
)
    requires
        grid_shaped(tiles, w, h),
        grid_shaped(elm, w, h),
        flooding(tiles, side, w, h, unk, cnt, a, elm, comp, done, que, Some(c)),
        comp.contains(c),
        cell_open(tiles, side, (c.0, c.1 + 1)) ==> lab(elm, (c.0, c.1 + 1)) != unk,
        cell_open(tiles, side, (c.0, c.1 - 1)) ==> lab(elm, (c.0, c.1 - 1)) != unk,
        cell_open(tiles, side, (c.0 + 1, c.1)) ==> lab(elm, (c.0 + 1, c.1)) != unk,
        cell_open(tiles, side, (c.0 - 1, c.1)) ==> lab(elm, (c.0 - 1, c.1)) != unk,
    ensures
        flooding(tiles, side, w, h, unk, cnt, a, elm, comp, done.insert(c), que, None),
{
    let done2 = done.insert(c);
    assert forall|d: (int, int)| #[trigger] touching(c, d) && cell_open(tiles, side, d) implies lab(
        elm,
        d,
    ) != unk by {
        assert(d == (c.0, c.1 + 1) || d == (c.0, c.1 - 1) || d == (c.0 + 1, c.1) || d == (
            c.0 - 1,
            c.1,
        ));
    }
    assert forall|e: (int, int)| #[trigger] done2.contains(e) implies comp.contains(e) && sealed(
        tiles,
        side,
        unk,
        elm,
        e,
    ) by {
        if e != c {
            assert(done.contains(e));
        }
    }
    assert forall|e: (int, int)| #[trigger] comp.contains(e) implies done2.contains(e) || waiting(
        que,
        e,
    ) by {}
}

/// Taking the first cell from the queue keeps the flooding in order.
proof fn lemma_flood_pop(
    tiles: Seq<Seq<Tile>>,
    side: bool,
    w: int,
    h: int,
    unk: usize,
    cnt: usize,
    a: (int, int),
    elm: Seq<Seq<usize>>,
    comp: Set<(int, int)>,
    done: Set<(int, int)>,
    que: Seq<PointUsize>,
)
    requires
        flooding(tiles, side, w, h, unk, cnt, a, elm, comp, done, que, None),
        que.len() >= 1,
    ensures
        flooding(
            tiles,
            side,
            w,
            h,
            unk,
            cnt,
            a,
            elm,
            comp,
            done,
            que.subrange(1, que.len() as int),
            Some(cell_of(que[0])),
        ),
        comp.contains(cell_of(que[0])),
{
    let rest = que.subrange(1, que.len() as int);
    assert forall|k: int| 0 <= k < rest.len() implies comp.contains(cell_of(#[trigger] rest[k])) by {
        assert(rest[k] == que[k + 1]);
    }
    assert forall|e: (int, int)| #[trigger] comp.contains(e) implies done.contains(e) || Some(
        cell_of(que[0]),
    ) == Some(e) || waiting(rest, e) by {
        if waiting(que, e) {
            let k = choose|k: int| 0 <= k < que.len() && cell_of(#[trigger] que[k]) == e;
            if k > 0 {
                assert(cell_of(rest[k - 1]) == e);
            }
        }
    }
}

/// When the queue is empty, the cells labelled are the area around `a`,
/// and every one of them has the region size that `value` stands for.
proof fn lemma_flood_end(
    tiles: Seq<Seq<Tile>>,
    side: bool,
    w: int,
    h: int,
    unk: usize,
    cnt: usize,
    a: (int, int),
    elm: Seq<Seq<usize>>,
    comp: Set<(int, int)>,
    done: Set<(int, int)>,
    siz: Seq<usize>,
    out_flag: bool,
    value: usize,
)
    requires
        w >= 1,
        grid_shaped(tiles, w, h),
        grid_shaped(elm, w, h),
        unk == w * h,
        cnt < unk,
        siz.len() == cnt,
        flooding(tiles, side, w, h, unk, cnt, a, elm, comp, done, Seq::empty(), None),
        labels_done(tiles, side, w, h, unk, cnt, cnt, elm, siz),
        comp.contains(a),
        out_flag <==> exists|c: (int, int)| #[trigger] done.contains(c) && on_edge(tiles, c),
        value == (if out_flag {
            unk
        } else {
            comp.len() as usize
        }),
        comp.len() <= unk,
    ensures
        labels_done(tiles, side, w, h, unk, (cnt + 1) as usize, unk, elm, siz.push(value)),
{
    let siz2 = siz.push(value);
    assert forall|c: (int, int)| #[trigger] comp.contains(c) implies done.contains(c) by {
        assert(!waiting(Seq::<PointUsize>::empty(), c));
    }
    // the cells labelled are closed under stepping to open cells
    assert forall|c: (int, int), d: (int, int)|
        comp.contains(c) && #[trigger] touching(c, d) && cell_open(tiles, side, d) implies comp.contains(
        d,
    ) by {
        assert(done.contains(c));
        assert(sealed(tiles, side, unk, elm, c));
        assert(lab(elm, d) != unk);
        assert(in_grid(w, h, d));
        if lab(elm, d) != cnt {
            assert(label_done(tiles, side, cnt, elm, siz, d));
            assert(touching(d, c));
            lemma_connected_open(tiles, side, a, c);
        }
    }
    assert forall|b: (int, int)| connected(tiles, side, a, b) implies comp.contains(b) by {
        let way = choose|way: Seq<(int, int)>| #[trigger] leads(tiles, side, a, b, way);
        lemma_way_within(tiles, side, comp, way, way.len() - 1);
    }
    assert(comp =~= area(tiles, side, a));
    assert(out_flag == escapes(tiles, side, a)) by {
        if out_flag {
            let c = choose|c: (int, int)| #[trigger] done.contains(c) && on_edge(tiles, c);
            assert(comp.contains(c));
            assert(connected(tiles, side, a, c) && on_edge(tiles, c));
        }
        if escapes(tiles, side, a) {
            let b = choose|b: (int, int)| #[trigger] connected(tiles, side, a, b) && on_edge(tiles, b);
            assert(comp.contains(b));
            assert(done.contains(b) && on_edge(tiles, b));
        }
    }
    assert forall|c: (int, int)|
        in_grid(w, h, c) && #[trigger] lab(elm, c) != unk && lab(elm, c) != unk implies label_done(
        tiles,
        side,
        (cnt + 1) as usize,
        elm,
        siz2,
        c,
    ) by {
        if lab(elm, c) == cnt {
            assert(comp.contains(c));
            lemma_same_area(tiles, side, a, c);
            lemma_connected_open(tiles, side, a, c);
            assert(tiles[0].len() == h);
            assert forall|d: (int, int)| #[trigger] touching(c, d) && cell_open(tiles, side, d) implies lab(
                elm,
                d,
            ) == lab(elm, c) by {
                assert(comp.contains(d));
            }
        } else {
            assert(label_done(tiles, side, cnt, elm, siz, c));
        }
    }
}

/// Both ends of a way are open.
pub proof fn lemma_connected_open(tiles: Seq<Seq<Tile>>, side: bool, a: (int, int), b: (int, int))
    requires
        connected(tiles, side, a, b),
    ensures
        cell_open(tiles, side, a),
        cell_open(tiles, side, b),
{
    let way = choose|way: Seq<(int, int)>| #[trigger] leads(tiles, side, a, b, way);
    assert(cell_open(tiles, side, way[0]));
    assert(cell_open(tiles, side, way[way.len() - 1]));
}

/// Looks at the cell next to `(x, y)` in direction `(dx, dy)`: if it lies
/// on the board, is open and has no label, it gets the label `cnt` and
/// joins the queue. Returns whether the cell lies off the board, and
/// whether it got the label.
fn flood_step(
    tiles: &Vec<Vec<Tile>>,
    side: bool,
    elm: &mut Vec<Vec<usize>>,
    que: &mut VecDeque<PointUsize>,
    cnt: usize,
    x: usize,
    y: usize,
    dx: i8,
    dy: i8,
) -> (r: (bool, bool))
    requires
        1 <= tiles.len() <= 127,
        tiles[0].len() <= 127,
        grid_shaped(table_of(*tiles), tiles.len() as int, tiles[0].len() as int),
        grid_shaped(table_of(*old(elm)), tiles.len() as int, tiles[0].len() as int),
        x < tiles.len(),
        y < tiles[0].len(),
        -1 <= dx <= 1,
        -1 <= dy <= 1,
    ensures
        r.0 == !in_grid(tiles.len() as int, tiles[0].len() as int, (x + dx, y + dy)),
        r.1 ==> {
            &&& cell_open(table_of(*tiles), side, (x + dx, y + dy))
            &&& lab(table_of(*old(elm)), (x + dx, y + dy)) == tiles.len() * tiles[0].len()
            &&& table_of(*final(elm)) == table_of(*old(elm)).update(
                x + dx,
                table_of(*old(elm))[x + dx].update(y + dy, cnt),
            )
            &&& final(que)@ == old(que)@.push(PointUsize { x: (x + dx) as usize, y: (y + dy) as usize })
        },
        !r.1 ==> {
            &&& table_of(*final(elm)) == table_of(*old(elm))
            &&& final(que)@ == old(que)@
            &&& cell_open(table_of(*tiles), side, (x + dx, y + dy)) ==> lab(
                table_of(*old(elm)),
                (x + dx, y + dy),
            ) != tiles.len() * tiles[0].len()
        },
{
    let width = tiles.len();
    let height = tiles[0].len();
    let nx: i16 = x as i16 + dx as i16;
    let ny: i16 = y as i16 + dy as i16;
    if nx < 0 || ny < 0 || nx as usize >= width || ny as usize >= height {
        return (true, false);
    }
    let ux = nx as usize;
    let uy = ny as usize;
    assert(table_of(*tiles)[ux as int] == tiles[ux as int]@);
    assert(table_of(*elm)[ux as int] == elm[ux as int]@);
    if let State::Wall(owner) = tiles[ux][uy].state {
        if owner == side {
            return (false, false);
        }
    }
    assert(width * height <= 127 * 127) by (nonlinear_arith)
        requires
            0 <= height <= 127,
            0 <= width <= 127,
    ;
    if elm[ux][uy] != width * height {
        return (false, false);
    }
    let ghost before = table_of(*elm);
    elm[ux][uy] = cnt;
    que.push_back(PointUsize { x: ux, y: uy });
    assert(table_of(*elm) =~~= before.update(ux as int, before[ux as int].update(uy as int, cnt)));
    (false, true)
}

/// Looks at the four cells next to `top`, which has the label `cnt`, gives
/// the label to those that are open and have none, and queues them.
/// Returns whether `top` lies at the edge of the board, and the cells that
/// have the label afterwards.
fn flood_cell(
    tiles: &Vec<Vec<Tile>>,
    side: bool,
    elm: &mut Vec<Vec<usize>>,
    que: &mut VecDeque<PointUsize>,
    cnt: usize,
    top: PointUsize,
    Ghost(a): Ghost<(int, int)>,
    Ghost(comp): Ghost<Set<(int, int)>>,
    Ghost(done): Ghost<Set<(int, int)>>,
    Ghost(siz): Ghost<Seq<usize>>,
) -> (r: (bool, Ghost<Set<(int, int)>>))
    requires
        1 <= tiles.len() <= 127,
        tiles[0].len() <= 127,
        grid_shaped(table_of(*tiles), tiles.len() as int, tiles[0].len() as int),
        grid_shaped(table_of(*old(elm)), tiles.len() as int, tiles[0].len() as int),
        top.x < tiles.len(),
        top.y < tiles[0].len(),
        cnt < tiles.len() * tiles[0].len(),
        comp.contains(cell_of(top)),
        flooding(
            table_of(*tiles),
            side,
            tiles.len() as int,
            tiles[0].len() as int,
            (tiles.len() * tiles[0].len()) as usize,
            cnt,
            a,
            table_of(*old(elm)),
            comp,
            done,
            old(que)@,
            Some(cell_of(top)),
        ),
        labels_done(
            table_of(*tiles),
            side,
            tiles.len() as int,
            tiles[0].len() as int,
            (tiles.len() * tiles[0].len()) as usize,
            cnt,
            cnt,
            table_of(*old(elm)),
            siz,
        ),
    ensures
        grid_shaped(table_of(*final(elm)), tiles.len() as int, tiles[0].len() as int),
        r.0 == on_edge(table_of(*tiles), cell_of(top)),
        flooding(
            table_of(*tiles),
            side,
            tiles.len() as int,
            tiles[0].len() as int,
            (tiles.len() * tiles[0].len()) as usize,
            cnt,
            a,
            table_of(*final(elm)),
            r.1@,
            done.insert(cell_of(top)),
            final(que)@,
            None,
        ),
        labels_done(
            table_of(*tiles),
            side,
            tiles.len() as int,
            tiles[0].len() as int,
            (tiles.len() * tiles[0].len()) as usize,
            cnt,
            cnt,
            table_of(*final(elm)),
            siz,
        ),
        r.1@.contains(a) || !comp.contains(a),
        final(que)@.len() >= old(que)@.len(),
        r.1@.len() - comp.len() == final(que)@.len() - old(que)@.len(),
        final(que)@.len() - old(que)@.len() == board_sum(
            table_of(*old(elm)),
            blank((tiles.len() * tiles[0].len()) as usize),
        ) - board_sum(table_of(*final(elm)), blank((tiles.len() * tiles[0].len()) as usize)),
        forall|c: (int, int)|
            in_grid(tiles.len() as int, tiles[0].len() as int, c) && lab(table_of(*old(elm)), c)
                != tiles.len() * tiles[0].len() ==> #[trigger] lab(table_of(*final(elm)), c)
                != tiles.len() * tiles[0].len(),
        forall|k: int|
            0 <= k < final(que)@.len() ==> (#[trigger] final(que)@[k]).x < tiles.len()
                && final(que)@[k].y < tiles[0].len(),
{
    let ghost grid = table_of(*tiles);
    let ghost w = tiles.len() as int;
    let ghost h = tiles[0].len() as int;
    assert(w * h <= 127 * 127) by (nonlinear_arith)
        requires
            0 <= h <= 127,
            0 <= w <= 127,
    ;
    let ghost unk = (tiles.len() * tiles[0].len()) as usize;
    let ghost tc = cell_of(top);
    let ghost mut comp = comp;
    let ghost e_a = table_of(*elm);
    let ghost q_a = que@;
    let (off_a, lab_a) = flood_step(tiles, side, elm, que, cnt, top.x, top.y, 0, 1);
    proof {
        if lab_a {
            let d = PointUsize { x: top.x, y: (top.y + 1) as usize };
            lemma_flood_label(grid, side, w, h, unk, cnt, a, e_a, comp, done, q_a, Some(tc), siz, tc, d);
            lemma_grid_sum_update(e_a, blank(unk), d.x as int, d.y as int, cnt, w);
            comp = comp.insert(cell_of(d));
        }
    }
    let ghost e_b = table_of(*elm);
    let ghost q_b = que@;
    let (off_b, lab_b) = flood_step(tiles, side, elm, que, cnt, top.x, top.y, 0, -1);
    proof {
        if lab_b {
            let d = PointUsize { x: top.x, y: (top.y - 1) as usize };
            lemma_flood_label(grid, side, w, h, unk, cnt, a, e_b, comp, done, q_b, Some(tc), siz, tc, d);
            lemma_grid_sum_update(e_b, blank(unk), d.x as int, d.y as int, cnt, w);
            comp = comp.insert(cell_of(d));
        }
    }
    let ghost e_c = table_of(*elm);
    let ghost q_c = que@;
    let (off_c, lab_c) = flood_step(tiles, side, elm, que, cnt, top.x, top.y, 1, 0);
    proof {
        if lab_c {
            let d = PointUsize { x: (top.x + 1) as usize, y: top.y };
            lemma_flood_label(grid, side, w, h, unk, cnt, a, e_c, comp, done, q_c, Some(tc), siz, tc, d);
            lemma_grid_sum_update(e_c, blank(unk), d.x as int, d.y as int, cnt, w);
            comp = comp.insert(cell_of(d));
        }
    }
    let ghost e_d = table_of(*elm);
    let ghost q_d = que@;
    let (off_d, lab_d) = flood_step(tiles, side, elm, que, cnt, top.x, top.y, -1, 0);
    proof {
        if lab_d {
            let d = PointUsize { x: (top.x - 1) as usize, y: top.y };
            lemma_flood_label(grid, side, w, h, unk, cnt, a, e_d, comp, done, q_d, Some(tc), siz, tc, d);
            lemma_grid_sum_update(e_d, blank(unk), d.x as int, d.y as int, cnt, w);
            comp = comp.insert(cell_of(d));
        }
    }
    proof {
        let e = table_of(*elm);
        assert forall|c: (int, int)| in_grid(w, h, c) && lab(e_a, c) != unk implies #[trigger] lab(
            e,
            c,
        ) != unk by {
            assert(lab(e_b, c) != unk);
            assert(lab(e_c, c) != unk);
            assert(lab(e_d, c) != unk);
        }
        assert(cell_open(grid, side, (tc.0, tc.1 + 1)) ==> lab(e, (tc.0, tc.1 + 1)) != unk) by {
            if cell_open(grid, side, (tc.0, tc.1 + 1)) {
                assert(lab(e_b, (tc.0, tc.1 + 1)) != unk);
                assert(lab(e_c, (tc.0, tc.1 + 1)) != unk);
                assert(lab(e_d, (tc.0, tc.1 + 1)) != unk);
            }
        }
        assert(cell_open(grid, side, (tc.0, tc.1 - 1)) ==> lab(e, (tc.0, tc.1 - 1)) != unk) by {
            if cell_open(grid, side, (tc.0, tc.1 - 1)) {
                assert(lab(e_c, (tc.0, tc.1 - 1)) != unk);
                assert(lab(e_d, (tc.0, tc.1 - 1)) != unk);
            }
        }
        assert(cell_open(grid, side, (tc.0 + 1, tc.1)) ==> lab(e, (tc.0 + 1, tc.1)) != unk) by {
            if cell_open(grid, side, (tc.0 + 1, tc.1)) {
                assert(lab(e_d, (tc.0 + 1, tc.1)) != unk);
            }
        }
        lemma_flood_seal(grid, side, w, h, unk, cnt, a, e, comp, done, que@, tc);
        assert((off_a || off_b || off_c || off_d) == on_edge(grid, tc)) by {
            assert(grid[0].len() == h);
        }
        assert forall|k: int| 0 <= k < que@.len() implies (#[trigger] que@[k]).x < tiles.len()
            && que@[k].y < tiles[0].len() by {
            assert(comp.contains(cell_of(que@[k])));
        }
    }
    (off_a || off_b || off_c || off_d, Ghost(comp))
}

/// For every cell of the board the size of the area around it that the
/// walls of `side` enclose.
///
/// The board is gone through column by column. From every open cell that
/// has no label yet, the area around it is flooded with a new label, cell
/// by cell over shared edges, and counted; an area that reaches the edge
/// of the board counts as the whole board.
pub fn flood(tiles: &Vec<Vec<Tile>>, side: bool) -> (table: Vec<Vec<usize>>)
    requires
        1 <= tiles.len() <= 127,
        tiles[0].len() <= 127,
        grid_shaped(table_of(*tiles), tiles.len() as int, tiles[0].len() as int),
    ensures
        table_of(table) == region_table(table_of(*tiles), side),
{
    let width = tiles.len();
    let height = tiles[0].len();
    let ghost w = width as int;
    let ghost h = height as int;
    let ghost grid = table_of(*tiles);
    assert(width * height <= 127 * 127) by (nonlinear_arith)
        requires
            0 <= height <= 127,
            0 <= width <= 127,
    ;
    let unk: usize = width * height;
    let mut elm: Vec<Vec<usize>> = Vec::new();
    let mut x: usize = 0;
    while x < width
        invariant
            x <= width,
            elm.len() == x,
            forall|i: int| 0 <= i < x ==> (#[trigger] elm[i]).len() == height,
            forall|i: int, j: int| 0 <= i < x && 0 <= j < height ==> (#[trigger] elm[i][j]) == unk,
        decreases width - x,
    {
        let mut col: Vec<usize> = Vec::new();
        let mut y: usize = 0;
        while y < height
            invariant
                y <= height,
                col.len() == y,
                forall|j: int| 0 <= j < y ==> (#[trigger] col[j]) == unk,
            decreases height - y,
        {
            col.push(unk);
            y += 1;
        }
        elm.push(col);
        x += 1;
    }
    let mut cnt: usize = 0;
    let mut siz: Vec<usize> = Vec::new();
    proof {
        let e = table_of(elm);
        assert forall|a: int| 0 <= a < w implies (#[trigger] e[a]).len() == h by {
            assert(e[a] == elm[a]@);
        }
        assert forall|c: (int, int)| in_grid(w, h, c) implies #[trigger] lab(e, c) == unk by {
            assert(e[c.0] == elm[c.0]@);
        }
        assert forall|a: int, b: int| 0 <= a < e.len() && 0 <= b < e[a].len() implies 0 <= (
        #[trigger] blank(unk)(e[a][b])) <= 1 by {}
        lemma_grid_count_bounds(e, blank(unk), w, h);
    }
    let mut i: usize = 0;
    while i < width
        invariant
            grid == table_of(*tiles),
            width == tiles.len(),
            height == tiles[0].len(),
            w == width,
            h == height,
            1 <= width <= 127,
            height <= 127,
            unk == width * height,
            grid_shaped(grid, w, h),
            grid_shaped(table_of(elm), w, h),
            i <= width,
            cnt == siz.len(),
            cnt + board_sum(table_of(elm), blank(unk)) <= unk,
            0 <= board_sum(table_of(elm), blank(unk)),
            labels_done(grid, side, w, h, unk, cnt, unk, table_of(elm), siz@),
            forall|c: (int, int)|
                in_grid(w, h, c) && cell_open(grid, side, c) && c.0 < i ==> #[trigger] lab(
                    table_of(elm),
                    c,
                ) != unk,
        decreases width - i,
    {
        let mut j: usize = 0;
        while j < height
            invariant
                grid == table_of(*tiles),
                width == tiles.len(),
                height == tiles[0].len(),
                w == width,
                h == height,
                1 <= width <= 127,
                height <= 127,
                unk == width * height,
                grid_shaped(grid, w, h),
                grid_shaped(table_of(elm), w, h),
                i < width,
                j <= height,
                cnt == siz.len(),
                cnt + board_sum(table_of(elm), blank(unk)) <= unk,
                0 <= board_sum(table_of(elm), blank(unk)),
                labels_done(grid, side, w, h, unk, cnt, unk, table_of(elm), siz@),
                forall|c: (int, int)|
                    in_grid(w, h, c) && cell_open(grid, side, c) && (c.0 < i || (c.0 == i && c.1
                        < j)) ==> #[trigger] lab(table_of(elm), c) != unk,
            decreases height - j,
        {
            assert(grid[i as int] == tiles[i as int]@);
            assert(table_of(elm)[i as int] == elm[i as int]@);
            let closed = match tiles[i][j].state {
                State::Wall(owner) => owner == side,
                _ => false,
            };
            assert(closed == !cell_open(grid, side, (i as int, j as int)));
            if !closed && elm[i][j] == unk {
                let ghost a = (i as int, j as int);
                let ghost e0 = table_of(elm);
                proof {
                    assert forall|p: int, q: int| 0 <= p < e0.len() && 0 <= q < e0[p].len() implies 0
                        <= (#[trigger] blank(unk)(e0[p][q])) <= 1 by {}
                    lemma_grid_count_bounds(e0, blank(unk), w, h);
                    assert(blank(unk)(e0[i as int][j as int]) == 1);
                    lemma_grid_sum_update(e0, blank(unk), i as int, j as int, cnt, w);
                }
                elm[i][j] = cnt;
                let ghost e1 = e0.update(i as int, e0[i as int].update(j as int, cnt));
                assert(table_of(elm) =~~= e1);
                let mut elm_cnt: usize = 0;
                let mut que: VecDeque<PointUsize> = VecDeque::new();
                que.push_back(PointUsize { x: i, y: j });
                let mut out_flag = false;
                let ghost mut comp: Set<(int, int)> = Set::empty().insert(a);
                let ghost mut done: Set<(int, int)> = Set::empty();
                proof {
                    lemma_connected_self(grid, side, a);
                    assert(que@[0] == (PointUsize { x: i, y: j }));
                    assert(cell_of(que@[0]) == a);
                    assert(waiting(que@, a));
                    assert forall|c: (int, int)| in_grid(w, h, c) implies lab(e1, c) == (if c == a {
                        cnt
                    } else {
                        lab(e0, c)
                    }) by {}
                    assert forall|c: (int, int)|
                        in_grid(w, h, c) && #[trigger] lab(e1, c) != unk && lab(e1, c)
                            != cnt implies label_done(grid, side, cnt, e1, siz@, c) by {
                        assert(c != a);
                        assert(label_done(grid, side, cnt, e0, siz@, c));
                        assert forall|d: (int, int)|
                            #[trigger] touching(c, d) && cell_open(grid, side, d) implies lab(e1, d)
                            == lab(e1, c) by {
                            assert(lab(e0, d) == lab(e0, c));
                            assert(d != a);
                        }
                    }
                    assert(flooding(grid, side, w, h, unk, cnt, a, e1, comp, done, que@, None));
                }
                while que.len() > 0
                    invariant
                        grid == table_of(*tiles),
                        width == tiles.len(),
                        height == tiles[0].len(),
                        w == width,
                        h == height,
                        1 <= width <= 127,
                        height <= 127,
                        unk == width * height,
                        cnt < unk,
                        cnt == siz.len(),
                        grid_shaped(grid, w, h),
                        grid_shaped(table_of(elm), w, h),
                        a == (i as int, j as int),
                        comp.contains(a),
                        flooding(grid, side, w, h, unk, cnt, a, table_of(elm), comp, done, que@, None),
                        labels_done(grid, side, w, h, unk, cnt, cnt, table_of(elm), siz@),
                        forall|k: int|
                            0 <= k < que@.len() ==> (#[trigger] que@[k]).x < width && que@[k].y < height,
                        comp.len() == elm_cnt + que@.len(),
                        0 <= board_sum(table_of(elm), blank(unk)),
                        cnt + elm_cnt + que@.len() + board_sum(table_of(elm), blank(unk)) <= unk,
                        elm_cnt + que@.len() >= 1,
                        out_flag <==> exists|c: (int, int)| #[trigger] done.contains(c) && on_edge(grid, c),
                        forall|c: (int, int)|
                            in_grid(w, h, c) && cell_open(grid, side, c) && (c.0 < i || (c.0 == i
                                && c.1 <= j)) ==> #[trigger] lab(table_of(elm), c) != unk,
                    decreases 2 * board_sum(table_of(elm), blank(unk)) + que@.len(),
                {
                    elm_cnt += 1;
                    let ghost que0 = que@;
                    let top = que.pop_front().unwrap();
                    let ghost tc = cell_of(top);
                    proof {
                        lemma_flood_pop(grid, side, w, h, unk, cnt, a, table_of(elm), comp, done, que0);
                        assert(top == que0[0]);
                    }
                    let ghost e_a = table_of(elm);
                    let ghost q_a = que@;
                    let ghost done0 = done;
                    let (edge, Ghost(comp2)) = flood_cell(
                        tiles,
                        side,
                        &mut elm,
                        &mut que,
                        cnt,
                        top,
                        Ghost(a),
                        Ghost(comp),
                        Ghost(done),
                        Ghost(siz@),
                    );
                    if edge {
                        out_flag = true;
                    }
                    proof {
                        let e = table_of(elm);
                        comp = comp2;
                        done = done.insert(tc);
                        assert(out_flag <==> exists|c: (int, int)|
                            #[trigger] done.contains(c) && on_edge(grid, c)) by {
                            if exists|c: (int, int)| #[trigger] done.contains(c) && on_edge(grid, c) {
                                let c = choose|c: (int, int)|
                                    #[trigger] done.contains(c) && on_edge(grid, c);
                                if c != tc {
                                    assert(done0.contains(c) && on_edge(grid, c));
                                }
                            }
                            if exists|c: (int, int)| #[trigger] done0.contains(c) && on_edge(grid, c) {
                                let c = choose|c: (int, int)|
                                    #[trigger] done0.contains(c) && on_edge(grid, c);
                                assert(done.contains(c) && on_edge(grid, c));
                            }
                            if on_edge(grid, tc) {
                                assert(done.contains(tc) && on_edge(grid, tc));
                            }
                        }
                        assert forall|p: int, q: int| 0 <= p < e.len() && 0 <= q < e[p].len() implies 0
                            <= (#[trigger] blank(unk)(e[p][q])) <= 1 by {}
                        lemma_grid_count_bounds(e, blank(unk), w, h);
                    }
                }
                let value = if out_flag {
                    unk
                } else {
                    elm_cnt
                };
                proof {
                    assert(que@ =~= Seq::<PointUsize>::empty());
                    lemma_flood_end(grid, side, w, h, unk, cnt, a, table_of(elm), comp, done, siz@, out_flag, value);
                }
                siz.push(value);
                cnt += 1;
            }
            j += 1;
        }
        i += 1;
    }
    let mut table: Vec<Vec<usize>> = Vec::new();
    let mut x: usize = 0;
    while x < width
        invariant
            grid == table_of(*tiles),
            w == width,
            h == height,
            unk == width * height,
            grid_shaped(grid, w, h),
            grid_shaped(table_of(elm), w, h),
            cnt == siz.len(),
            labels_done(grid, side, w, h, unk, cnt, unk, table_of(elm), siz@),
            forall|c: (int, int)|
                in_grid(w, h, c) && cell_open(grid, side, c) ==> #[trigger] lab(table_of(elm), c) != unk,
            x <= width,
            table.len() == x,
            forall|a: int| 0 <= a < x ==> (#[trigger] table[a]).len() == height,
            forall|a: int, b: int|
                0 <= a < x && 0 <= b < height ==> (#[trigger] table[a][b]) == region_size(grid, side, a, b),
        decreases width - x,
    {
        assert(table_of(elm)[x as int] == elm[x as int]@);
        let mut col: Vec<usize> = Vec::new();
        let mut y: usize = 0;
        while y < height
            invariant
                grid == table_of(*tiles),
                w == width,
                h == height,
                unk == width * height,
                grid_shaped(grid, w, h),
                grid_shaped(table_of(elm), w, h),
                cnt == siz.len(),
                labels_done(grid, side, w, h, unk, cnt, unk, table_of(elm), siz@),
                forall|c: (int, int)|
                    in_grid(w, h, c) && cell_open(grid, side, c) ==> #[trigger] lab(table_of(elm), c)
                        != unk,
                x < width,
                y <= height,
                elm.len() == width,
                table_of(elm)[x as int] == elm[x as int]@,
                col.len() == y,
                forall|b: int| 0 <= b < y ==> (#[trigger] col[b]) == region_size(grid, side, x as int, b),
            decreases height - y,
        {
            let c = elm[x][y];
            proof {
                let cell = (x as int, y as int);
                assert(in_grid(w, h, cell));
                assert(c == lab(table_of(elm), cell));
                if c != unk {
                    assert(label_done(grid, side, cnt, table_of(elm), siz@, cell));
                } else {
                    assert(!cell_open(grid, side, cell));
                    assert(grid[0].len() == h);
                }
            }
            col.push(
                if c == unk {
                    unk
                } else {
                    siz[c]
                },
            );
            y += 1;
        }
        table.push(col);
        x += 1;
    }
    proof {
        let t = table_of(table);
        let goal = region_table(grid, side);
        assert(t.len() == goal.len());
        assert forall|a: int| 0 <= a < t.len() implies #[trigger] t[a] == goal[a] by {
            assert(t[a] == table[a]@);
            assert(grid[a].len() == h);
            assert(t[a] =~= goal[a]);
        }
        assert(t =~= goal);
    }
    table
}

} // verus!
