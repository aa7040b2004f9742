use vstd::prelude::*;

use crate::parsing::{CrossBox, Crossing, Direction};
use vstd::slice::SliceAdditionalExecFns;

verus! {

/// The box runs up or down.
pub open spec fn vertical(d: Direction) -> bool {
    d == Direction::Up || d == Direction::Down
}

/// Two boxes can cross when one runs vertically and the other horizontally.
pub open spec fn can_cross(a: Direction, b: Direction) -> bool {
    vertical(a) != vertical(b)
}

/// Where cell `i` of a box starting at `(x, y)` in direction `d` lies.
pub open spec fn cell_at(x: int, y: int, d: Direction, i: int) -> (int, int) {
    match d {
        Direction::Left => (x - i, y),
        Direction::Right => (x + i, y),
        Direction::Up => (x, y - i),
        Direction::Down => (x, y + i),
    }
}

/// The first cell of a box in direction `b_dir` whose cell `c_b` is cell `c_a` of box `a`.
pub open spec fn box_position(a: CrossBox, b_dir: Direction, c_a: int, c_b: int) -> (int, int) {
    match (a.dir, b_dir) {
        (Direction::Down, Direction::Left) => (a.x + c_b, a.y + c_a),
        (Direction::Down, Direction::Right) => (a.x - c_b, a.y + c_a),
        (Direction::Up, Direction::Left) => (a.x + c_b, a.y - c_a),
        (Direction::Up, Direction::Right) => (a.x - c_b, a.y - c_a),
        (Direction::Left, Direction::Up) => (a.x - c_a, a.y + c_b),
        (Direction::Left, Direction::Down) => (a.x - c_a, a.y - c_b),
        (Direction::Right, Direction::Up) => (a.x + c_a, a.y + c_b),
        (Direction::Right, Direction::Down) => (a.x + c_a, a.y - c_b),
        _ => (a.x as int, a.y as int),
    }
}

pub open spec fn fits_i32(v: int) -> bool {
    i32::MIN <= v <= i32::MAX
}

/// Where box `b` starts when its cell `c_b` is cell `c_a` of box `a`.
pub fn compute_box_position(box_a: &CrossBox, box_b: &CrossBox, c_a: i32, c_b: i32) -> (r: (i32, i32))
    requires
        can_cross(box_a.dir, box_b.dir),
        fits_i32(box_position(*box_a, box_b.dir, c_a as int, c_b as int).0),
        fits_i32(box_position(*box_a, box_b.dir, c_a as int, c_b as int).1),
    ensures
        r.0 == box_position(*box_a, box_b.dir, c_a as int, c_b as int).0,
        r.1 == box_position(*box_a, box_b.dir, c_a as int, c_b as int).1,
{
    match (box_a.dir, box_b.dir) {
        (Direction::Down, Direction::Left) => (box_a.x + c_b, box_a.y + c_a),
        (Direction::Down, Direction::Right) => (box_a.x - c_b, box_a.y + c_a),
        (Direction::Up, Direction::Left) => (box_a.x + c_b, box_a.y - c_a),
        (Direction::Up, Direction::Right) => (box_a.x - c_b, box_a.y - c_a),
        (Direction::Left, Direction::Up) => (box_a.x - c_a, box_a.y + c_b),
        (Direction::Left, Direction::Down) => (box_a.x - c_a, box_a.y - c_b),
        (Direction::Right, Direction::Up) => (box_a.x + c_a, box_a.y + c_b),
        (Direction::Right, Direction::Down) => (box_a.x + c_a, box_a.y - c_b),
        _ => (box_a.x, box_a.y),
    }
}

/// The state of the layout walk: the boxes, which boxes are placed, the
/// boxes still to visit, and whether the walk is still going without fault.
pub type Walk = (Seq<CrossBox>, Seq<bool>, Seq<usize>, bool);

/// A walk that stopped on a fault.
pub open spec fn fault(s: Walk) -> Walk {
    (s.0, s.1, s.2, false)
}

/// The crossings `cs[k..]` seen from the visited box `id`: each one joining
/// `id` to a box not yet placed places that box and queues it.  A crossing
/// that names a missing box, joins two boxes that cannot cross, or puts a box
/// outside the `i32` range is a fault.
pub open spec fn scan(s: Walk, id: usize, cs: Seq<Crossing>, k: nat) -> Walk
    decreases cs.len() - k,
{
    if k >= cs.len() || !s.3 {
        s
    } else {
        let c = cs[k as int];
        if c.id_a == id || c.id_b == id {
            let other = if c.id_a == id { c.id_b } else { c.id_a };
            if other >= s.0.len() {
                fault(s)
            } else if s.1[other as int] {
                scan(s, id, cs, k + 1)
            } else {
                let ca = if c.id_a == id { c.c_a } else { c.c_b };
                let cb = if c.id_a == id { c.c_b } else { c.c_a };
                let a = s.0[id as int];
                let b = s.0[other as int];
                let p = box_position(a, b.dir, ca as int, cb as int);
                if !can_cross(a.dir, b.dir) || !fits_i32(p.0) || !fits_i32(p.1) {
                    fault(s)
                } else {
                    let nb = CrossBox { x: p.0 as i32, y: p.1 as i32, id: b.id, len: b.len, dir: b.dir };
                    scan(
                        (s.0.update(other as int, nb), s.1.update(other as int, true), s.2.push(other), true),
                        id,
                        cs,
                        k + 1,
                    )
                }
            }
        } else {
            scan(s, id, cs, k + 1)
        }
    }
}

/// Visits the queued boxes, the last queued first, for at most `fuel` visits.
pub open spec fn walk(s: Walk, cs: Seq<Crossing>, fuel: nat) -> Walk
    decreases fuel,
{
    if !s.3 || s.2.len() == 0 || fuel == 0 {
        s
    } else {
        let id = s.2.last();
        walk(scan((s.0, s.1.update(id as int, true), s.2.drop_last(), true), id, cs, 0), cs, (fuel - 1) as nat)
    }
}

/// The walk from box 0 through the crossings, placing each box it reaches.
pub open spec fn placed_walk(boxes: Seq<CrossBox>, cs: Seq<Crossing>) -> Walk {
    walk((boxes, Seq::new(boxes.len(), |i: int| false), seq![0usize], true), cs, 2 * boxes.len() + 1)
}

/// The least `y` of the boxes, 0 when there is none.
pub open spec fn min_y(bs: Seq<CrossBox>) -> int
    decreases bs.len(),
{
    if bs.len() == 0 {
        0
    } else if bs.len() == 1 || bs.last().y < min_y(bs.drop_last()) {
        bs.last().y as int
    } else {
        min_y(bs.drop_last())
    }
}

/// The least `x` of the boxes, 0 when there is none.
pub open spec fn min_x(bs: Seq<CrossBox>) -> int
    decreases bs.len(),
{
    if bs.len() == 0 {
        0
    } else if bs.len() == 1 || bs.last().x < min_x(bs.drop_last()) {
        bs.last().x as int
    } else {
        min_x(bs.drop_last())
    }
}

/// The boxes moved down so that the least `y` is 0, when it is negative.
pub open spec fn shift_y(bs: Seq<CrossBox>) -> Seq<CrossBox> {
    let m = min_y(bs);
    if m < 0 {
        Seq::new(bs.len(), |i: int| CrossBox { x: bs[i].x, y: (bs[i].y - m) as i32, id: bs[i].id, len: bs[i].len, dir: bs[i].dir })
    } else {
        bs
    }
}

/// The boxes moved right so that the least `x` is 0, when it is negative.
pub open spec fn shift_x(bs: Seq<CrossBox>) -> Seq<CrossBox> {
    let m = min_x(bs);
    if m < 0 {
        Seq::new(bs.len(), |i: int| CrossBox { x: (bs[i].x - m) as i32, y: bs[i].y, id: bs[i].id, len: bs[i].len, dir: bs[i].dir })
    } else {
        bs
    }
}

/// The boxes after the layout: placed by the walk, then moved so that no
/// coordinate is negative.
pub open spec fn spec_layout(boxes: Seq<CrossBox>, cs: Seq<Crossing>) -> Seq<CrossBox> {
    shift_x(shift_y(placed_walk(boxes, cs).0))
}

/// The layout can be done: there is a box to start from, the walk meets no
/// fault, and moving the boxes keeps every coordinate in the `i32` range.
pub open spec fn layout_ok(boxes: Seq<CrossBox>, cs: Seq<Crossing>) -> bool {
    let placed = placed_walk(boxes, cs).0;
    let ys = shift_y(placed);
    &&& boxes.len() > 0
    &&& placed_walk(boxes, cs).3
    &&& forall|i: int| 0 <= i < placed.len() ==> fits_i32(#[trigger] placed[i].y - min_y(placed))
    &&& forall|i: int| 0 <= i < ys.len() ==> fits_i32(#[trigger] ys[i].x - min_x(ys))
}

/// Number of boxes not yet placed.
pub open spec fn count_unplaced(p: Seq<bool>) -> nat
    decreases p.len(),
{
    if p.len() == 0 {
        0
    } else {
        count_unplaced(p.drop_last()) + if p.last() {
            0nat
        } else {
            1nat
        }
    }
}

/// An upper bound of the visits left in a walk.
pub open spec fn walk_measure(s: Walk) -> nat {
    2 * count_unplaced(s.1) + s.2.len()
}

proof fn lemma_count_unplaced_set(p: Seq<bool>, i: int)
    requires
        0 <= i < p.len(),
    ensures
        count_unplaced(p.update(i, true)) + (if p[i] { 0nat } else { 1nat }) == count_unplaced(p),
    decreases p.len(),
{
    let u = p.update(i, true);
    if i == p.len() - 1 {
        assert(u.drop_last() == p.drop_last());
    } else {
        assert(u.drop_last() == p.drop_last().update(i, true));
        lemma_count_unplaced_set(p.drop_last(), i);
    }
}

proof fn lemma_count_unplaced_le(p: Seq<bool>)
    ensures
        count_unplaced(p) <= p.len(),
    decreases p.len(),
{
    if p.len() > 0 {
        lemma_count_unplaced_le(p.drop_last());
    }
}

proof fn lemma_count_unplaced_all(n: nat)
    ensures
        count_unplaced(Seq::new(n, |i: int| false)) == n,
    decreases n,
{
    if n > 0 {
        assert(Seq::new(n, |i: int| false).drop_last() == Seq::new((n - 1) as nat, |i: int| false));
        lemma_count_unplaced_all((n - 1) as nat);
    }
}

/// The least `y` of the boxes.
fn least_y(boxes: &[CrossBox]) -> (r: i32)
    ensures
        r == min_y(boxes@),
{
    if boxes.len() == 0 {
        return 0;
    }
    let mut m = boxes[0].y;
    let mut i: usize = 1;
    assert(boxes@.take(1).drop_last().len() == 0);
    while i < boxes.len()
        invariant
            1 <= i <= boxes@.len(),
            m == min_y(boxes@.take(i as int)),
        decreases boxes@.len() - i,
    {
        assert(boxes@.take(i + 1).drop_last() == boxes@.take(i as int));
        if boxes[i].y < m {
            m = boxes[i].y;
        }
        i = i + 1;
    }
    assert(boxes@.take(boxes@.len() as int) == boxes@);
    m
}

/// The least `x` of the boxes.
fn least_x(boxes: &[CrossBox]) -> (r: i32)
    ensures
        r == min_x(boxes@),
{
    if boxes.len() == 0 {
        return 0;
    }
    let mut m = boxes[0].x;
    let mut i: usize = 1;
    assert(boxes@.take(1).drop_last().len() == 0);
    while i < boxes.len()
        invariant
            1 <= i <= boxes@.len(),
            m == min_x(boxes@.take(i as int)),
        decreases boxes@.len() - i,
    {
        assert(boxes@.take(i + 1).drop_last() == boxes@.take(i as int));
        if boxes[i].x < m {
            m = boxes[i].x;
        }
        i = i + 1;
    }
    assert(boxes@.take(boxes@.len() as int) == boxes@);
    m
}

/// `box_position` computed without overflow.
fn position_wide(a: &CrossBox, b_dir: Direction, c_a: i32, c_b: i32) -> (r: (i64, i64))
    ensures
        r.0 == box_position(*a, b_dir, c_a as int, c_b as int).0,
        r.1 == box_position(*a, b_dir, c_a as int, c_b as int).1,
{
    let x = a.x as i64;
    let y = a.y as i64;
    let ca = c_a as i64;
    let cb = c_b as i64;
    match (a.dir, b_dir) {
        (Direction::Down, Direction::Left) => (x + cb, y + ca),
        (Direction::Down, Direction::Right) => (x - cb, y + ca),
        (Direction::Up, Direction::Left) => (x + cb, y - ca),
        (Direction::Up, Direction::Right) => (x - cb, y - ca),
        (Direction::Left, Direction::Up) => (x - ca, y + cb),
        (Direction::Left, Direction::Down) => (x - ca, y - cb),
        (Direction::Right, Direction::Up) => (x + ca, y + cb),
        (Direction::Right, Direction::Down) => (x + ca, y - cb),
        _ => (x, y),
    }
}

fn crossable(a: Direction, b: Direction) -> (r: bool)
    ensures
        r == can_cross(a, b),
{
    let va = match a {
        Direction::Up | Direction::Down => true,
        _ => false,
    };
    let vb = match b {
        Direction::Up | Direction::Down => true,
        _ => false,
    };
    va != vb
}

fn fits(v: i64) -> (r: bool)
    ensures
        r == fits_i32(v as int),
{
    i32::MIN as i64 <= v && v <= i32::MAX as i64
}

/// Lays the boxes out as `compute_layout` does when the layout can be done,
/// and says whether it can: `false` when there is no box, when the walk meets
/// a crossing that names a missing box, joins two boxes that cannot cross or
/// puts a box outside the `i32` range, or when moving the boxes would leave
/// that range (the boxes are then left partly placed).
pub fn try_compute_layout(boxes: &mut [CrossBox], crossings: &[Crossing]) -> (ok: bool)
    ensures
        ok == layout_ok(old(boxes)@, crossings@),
        ok ==> final(boxes)@ == spec_layout(old(boxes)@, crossings@),
        ok ==> forall|i: int| 0 <= i < final(boxes)@.len() ==> 0 <= #[trigger] final(boxes)@[i].x && 0 <= final(boxes)@[i].y,
        ok ==> reach_closed(final(boxes)@.len(), placed_walk(old(boxes)@, crossings@).1, crossings@),
        ok ==> tied(final(boxes)@, placed_walk(old(boxes)@, crossings@).1, crossings@),
{
    let n = boxes.len();
    if n == 0 {
        return false;
    }
    let ghost cs = crossings@;
    let ghost init: Walk = (old(boxes)@, Seq::new(n as nat, |i: int| false), seq![0usize], true);
    let ghost total: nat = (2 * n + 1) as nat;
    let mut placed: Vec<bool> = Vec::new();
    let mut i: usize = 0;
    while i < n
        invariant
            i <= n,
            placed@ == Seq::new(i as nat, |k: int| false),
        decreases n - i,
    {
        placed.push(false);
        i = i + 1;
    }
    let mut box_queue: Vec<usize> = Vec::new();
    box_queue.push(0);
    let ghost mut fuel: nat = total;
    proof {
        lemma_count_unplaced_all(n as nat);
        assert((boxes@, placed@, box_queue@, true) == init);
    }
    while box_queue.len() > 0
        invariant
            n == boxes@.len(),
            n > 0,
            cs == crossings@,
            old(boxes)@.len() == n,
            placed@.len() == n,
            forall|j: int| 0 <= j < box_queue@.len() ==> #[trigger] box_queue@[j] < n,
            walk((boxes@, placed@, box_queue@, true), cs, fuel) == walk(init, cs, total),
            init == (old(boxes)@, Seq::new(n as nat, |i: int| false), seq![0usize], true),
            total == 2 * n + 1,
            walk_measure((boxes@, placed@, box_queue@, true)) <= fuel,
        decreases fuel,
    {
        let ghost s0: Walk = (boxes@, placed@, box_queue@, true);
        let box_id = box_queue.pop().unwrap();
        assert(box_id == s0.2.last());
        assert(box_queue@ == s0.2.drop_last());
        placed.set(box_id, true);
        let ghost s1: Walk = (boxes@, placed@, box_queue@, true);
        proof {
            lemma_count_unplaced_set(s0.1, box_id as int);
            assert(fuel > 0);
            assert(walk(s0, cs, fuel) == walk(scan(s1, box_id, cs, 0), cs, (fuel - 1) as nat));
        }
        let mut k: usize = 0;
        while k < crossings.len()
            invariant
                n == boxes@.len(),
                old(boxes)@.len() == n,
                cs == crossings@,
                box_id < n,
                placed@.len() == n,
                placed@[box_id as int],
                fuel > 0,
                k <= cs.len(),
                forall|j: int| 0 <= j < box_queue@.len() ==> #[trigger] box_queue@[j] < n,
                scan((boxes@, placed@, box_queue@, true), box_id, cs, k as nat) == scan(s1, box_id, cs, 0),
                walk(scan(s1, box_id, cs, 0), cs, (fuel - 1) as nat) == walk(init, cs, total),
                init == (old(boxes)@, Seq::new(n as nat, |i: int| false), seq![0usize], true),
                total == 2 * n + 1,
                walk_measure((boxes@, placed@, box_queue@, true)) <= walk_measure(s1),
                walk_measure(s1) + 1 <= fuel,
            decreases cs.len() - k,
        {
            let c = crossings[k];
            let ghost cur: Walk = (boxes@, placed@, box_queue@, true);
            if c.id_a == box_id || c.id_b == box_id {
                let other = if c.id_a == box_id { c.id_b } else { c.id_a };
                if other >= n {
                    proof {
                        assert(scan(cur, box_id, cs, k as nat) == fault(cur));
                        lemma_walk_fault(fault(cur), cs, (fuel - 1) as nat);
                    }
                    return false;
                }
                if !placed[other] {
                    let ca = if c.id_a == box_id { c.c_a } else { c.c_b };
                    let cb = if c.id_a == box_id { c.c_b } else { c.c_a };
                    let a = boxes[box_id];
                    let b = boxes[other];
                    let (px, py) = position_wide(&a, b.dir, ca, cb);
                    if !crossable(a.dir, b.dir) || !fits(px) || !fits(py) {
                        proof {
                            assert(scan(cur, box_id, cs, k as nat) == fault(cur));
                            lemma_walk_fault(fault(cur), cs, (fuel - 1) as nat);
                        }
                        return false;
                    }
                    let (x, y) = compute_box_position(&a, &b, ca, cb);
                    let nb = CrossBox { x, y, id: b.id, len: b.len, dir: b.dir };
                    boxes[other] = nb;
                    placed.set(other, true);
                    box_queue.push(other);
                    proof {
                        lemma_count_unplaced_set(cur.1, other as int);
                        assert(scan(cur, box_id, cs, k as nat) == scan((boxes@, placed@, box_queue@, true), box_id, cs, (k + 1) as nat));
                    }
                } else {
                    assert(scan(cur, box_id, cs, k as nat) == scan(cur, box_id, cs, (k + 1) as nat));
                }
            } else {
                assert(scan(cur, box_id, cs, k as nat) == scan(cur, box_id, cs, (k + 1) as nat));
            }
            k = k + 1;
        }
        proof {
            let cur: Walk = (boxes@, placed@, box_queue@, true);
            assert(scan(cur, box_id, cs, k as nat) == cur);
            fuel = (fuel - 1) as nat;
        }
    }
    proof {
        let cur: Walk = (boxes@, placed@, box_queue@, true);
        assert(walk(cur, cs, fuel) == cur);
    }
    let ghost walked = boxes@;
    assert(walked == placed_walk(old(boxes)@, cs).0);
    let low_y = least_y(boxes);
    let mut i: usize = 0;
    while i < n
        invariant
            n == boxes@.len(),
            boxes@ == walked,
            walked == placed_walk(old(boxes)@, crossings@).0,
            low_y == min_y(walked),
            i <= n,
            forall|j: int| 0 <= j < i ==> fits_i32(#[trigger] walked[j].y - min_y(walked)),
        decreases n - i,
    {
        if !fits(boxes[i].y as i64 - low_y as i64) {
            assert(!fits_i32(walked[i as int].y - min_y(walked)));
            assert(!layout_ok(old(boxes)@, crossings@));
            return false;
        }
        i = i + 1;
    }
    if low_y < 0 {
        let mut i: usize = 0;
        while i < n
            invariant
                n == boxes@.len(),
                walked.len() == n,
                low_y == min_y(walked),
                low_y < 0,
                forall|j: int| 0 <= j < n ==> fits_i32(#[trigger] walked[j].y - min_y(walked)),
                i <= n,
                forall|j: int| 0 <= j < i ==> #[trigger] boxes@[j] == shift_y(walked)[j],
                forall|j: int| i <= j < n ==> #[trigger] boxes@[j] == walked[j],
            decreases n - i,
        {
            let b = boxes[i];
            assert(fits_i32(walked[i as int].y - min_y(walked)));
            let nb = CrossBox { x: b.x, y: b.y - low_y, id: b.id, len: b.len, dir: b.dir };
            boxes[i] = nb;
            i = i + 1;
        }
    }
    assert(boxes@ == shift_y(walked));
    let ghost ys = boxes@;
    let low_x = least_x(boxes);
    let mut i: usize = 0;
    while i < n
        invariant
            n == boxes@.len(),
            boxes@ == ys,
            walked == placed_walk(old(boxes)@, crossings@).0,
            ys == shift_y(walked),
            low_x == min_x(ys),
            i <= n,
            forall|j: int| 0 <= j < i ==> fits_i32(#[trigger] ys[j].x - min_x(ys)),
        decreases n - i,
    {
        if !fits(boxes[i].x as i64 - low_x as i64) {
            assert(!fits_i32(ys[i as int].x - min_x(ys)));
            assert(ys == shift_y(placed_walk(old(boxes)@, crossings@).0));
            assert(!layout_ok(old(boxes)@, crossings@));
            return false;
        }
        i = i + 1;
    }
    if low_x < 0 {
        let mut i: usize = 0;
        while i < n
            invariant
                n == boxes@.len(),
                ys.len() == n,
                low_x == min_x(ys),
                low_x < 0,
                forall|j: int| 0 <= j < n ==> fits_i32(#[trigger] ys[j].x - min_x(ys)),
                i <= n,
                forall|j: int| 0 <= j < i ==> #[trigger] boxes@[j] == shift_x(ys)[j],
                forall|j: int| i <= j < n ==> #[trigger] boxes@[j] == ys[j],
            decreases n - i,
        {
            let b = boxes[i];
            assert(fits_i32(ys[i as int].x - min_x(ys)));
            let nb = CrossBox { x: b.x - low_x, y: b.y, id: b.id, len: b.len, dir: b.dir };
            boxes[i] = nb;
            i = i + 1;
        }
    }
    assert(boxes@ == shift_x(ys));
    proof {
        lemma_layout_nonnegative(walked);
        lemma_layout_ties_boxes(old(boxes)@, crossings@);
        lemma_layout_places_connected(old(boxes)@, crossings@);
    }
    true
}

/// Places the boxes: starting from box 0, each box reached through a
/// crossing from a placed box is put where its crossing cell meets that of
/// the placed box; then all boxes are moved so that no coordinate is negative.
pub fn compute_layout(boxes: &mut [CrossBox], crossings: &[Crossing])
    requires
        layout_ok(old(boxes)@, crossings@),
    ensures
        final(boxes)@ == spec_layout(old(boxes)@, crossings@),
        forall|i: int| 0 <= i < final(boxes)@.len() ==> 0 <= #[trigger] final(boxes)@[i].x && 0 <= final(boxes)@[i].y,
        tied(final(boxes)@, placed_walk(old(boxes)@, crossings@).1, crossings@),
        reach_closed(final(boxes)@.len(), placed_walk(old(boxes)@, crossings@).1, crossings@),
{
    let ok = try_compute_layout(boxes, crossings);
    assert(ok);
}

/// Moving the boxes leaves no coordinate negative.
proof fn lemma_layout_nonnegative(bs: Seq<CrossBox>)
    requires
        forall|i: int| 0 <= i < bs.len() ==> fits_i32(#[trigger] bs[i].y - min_y(bs)),
        forall|i: int| 0 <= i < shift_y(bs).len() ==> fits_i32(#[trigger] shift_y(bs)[i].x - min_x(shift_y(bs))),
    ensures
        forall|i: int| 0 <= i < shift_x(shift_y(bs)).len() ==> 0 <= #[trigger] shift_x(shift_y(bs))[i].x && 0 <= shift_x(shift_y(bs))[i].y,
{
    let ys = shift_y(bs);
    lemma_min_y(bs);
    lemma_min_x(ys);
    assert forall|i: int| 0 <= i < ys.len() implies 0 <= #[trigger] ys[i].y by {
        if min_y(bs) < 0 {
            assert(fits_i32(bs[i].y - min_y(bs)));
        }
    }
    assert forall|i: int| 0 <= i < shift_x(ys).len() implies 0 <= #[trigger] shift_x(ys)[i].x && 0 <= shift_x(ys)[i].y by {
        if min_x(ys) < 0 {
            assert(fits_i32(ys[i].x - min_x(ys)));
        }
    }
}

/// No box lies above the least `y`, and the least `y` is that of some box or 0.
proof fn lemma_min_y(bs: Seq<CrossBox>)
    ensures
        forall|i: int| 0 <= i < bs.len() ==> min_y(bs) <= #[trigger] bs[i].y,
        bs.len() == 0 ==> min_y(bs) == 0,
        bs.len() > 0 ==> exists|i: int| 0 <= i < bs.len() && #[trigger] bs[i].y == min_y(bs),
    decreases bs.len(),
{
    if bs.len() > 0 {
        lemma_min_y(bs.drop_last());
        assert forall|i: int| 0 <= i < bs.len() implies min_y(bs) <= #[trigger] bs[i].y by {
            if i < bs.len() - 1 {
                assert(bs.drop_last()[i] == bs[i]);
            }
        }
        if bs.len() == 1 || bs.last().y < min_y(bs.drop_last()) {
            assert(bs[bs.len() - 1].y == min_y(bs));
        } else {
            let i = choose|i: int| 0 <= i < bs.drop_last().len() && #[trigger] bs.drop_last()[i].y == min_y(bs.drop_last());
            assert(bs[i] == bs.drop_last()[i]);
        }
    }
}

/// No box lies left of the least `x`, and the least `x` is that of some box or 0.
proof fn lemma_min_x(bs: Seq<CrossBox>)
    ensures
        forall|i: int| 0 <= i < bs.len() ==> min_x(bs) <= #[trigger] bs[i].x,
        bs.len() == 0 ==> min_x(bs) == 0,
        bs.len() > 0 ==> exists|i: int| 0 <= i < bs.len() && #[trigger] bs[i].x == min_x(bs),
    decreases bs.len(),
{
    if bs.len() > 0 {
        lemma_min_x(bs.drop_last());
        assert forall|i: int| 0 <= i < bs.len() implies min_x(bs) <= #[trigger] bs[i].x by {
            if i < bs.len() - 1 {
                assert(bs.drop_last()[i] == bs[i]);
            }
        }
        if bs.len() == 1 || bs.last().x < min_x(bs.drop_last()) {
            assert(bs[bs.len() - 1].x == min_x(bs));
        } else {
            let i = choose|i: int| 0 <= i < bs.drop_last().len() && #[trigger] bs.drop_last()[i].x == min_x(bs.drop_last());
            assert(bs[i] == bs.drop_last()[i]);
        }
    }
}

/// A walk that stopped on a fault stays stopped.
proof fn lemma_walk_fault(s: Walk, cs: Seq<Crossing>, fuel: nat)
    requires
        !s.3,
    ensures
        walk(s, cs, fuel) == s,
{
}

/// The two cells that crossing `c` names, cell `c_a` of box `id_a` and cell
/// `c_b` of box `id_b`, lie on the same square of the boxes `bs`.
pub open spec fn crossing_joined(bs: Seq<CrossBox>, c: Crossing) -> bool {
    let a = bs[c.id_a as int];
    let b = bs[c.id_b as int];
    cell_at(a.x as int, a.y as int, a.dir, c.c_a as int) == cell_at(b.x as int, b.y as int, b.dir, c.c_b as int)
}

/// Crossing `c` joins box `j` to another placed box, and its two cells lie
/// on the same square.
pub open spec fn ties(bs: Seq<CrossBox>, placed: Seq<bool>, c: Crossing, j: int) -> bool {
    &&& c.id_a == j || c.id_b == j
    &&& c.id_a != c.id_b
    &&& c.id_a < bs.len()
    &&& c.id_b < bs.len()
    &&& placed[c.id_a as int]
    &&& placed[c.id_b as int]
    &&& crossing_joined(bs, c)
}

/// Every placed box but the first is tied to another placed box by one of
/// the crossings `cs`.
pub open spec fn tied(bs: Seq<CrossBox>, placed: Seq<bool>, cs: Seq<Crossing>) -> bool {
    forall|j: int|
        0 < j < bs.len() && #[trigger] placed[j] ==> exists|k: int| 0 <= k < cs.len() && #[trigger] ties(bs, placed, cs[k], j)
}

/// What the layout walk keeps: a mark for each box, queued boxes that are
/// boxes and placed (but the first), and placed boxes tied to each other.
pub open spec fn walk_tied(s: Walk, cs: Seq<Crossing>) -> bool {
    &&& s.1.len() == s.0.len()
    &&& forall|q: int| 0 <= q < s.2.len() ==> (#[trigger] s.2[q]) < s.0.len() && (s.2[q] == 0 || s.1[s.2[q] as int])
    &&& tied(s.0, s.1, cs)
}

proof fn lemma_scan_tied(s: Walk, id: usize, cs: Seq<Crossing>, k: nat)
    requires
        walk_tied(s, cs),
        s.3 ==> id < s.0.len() && s.1[id as int],
    ensures
        walk_tied(scan(s, id, cs, k), cs),
    decreases cs.len() - k,
{
    if k < cs.len() && s.3 {
        let c = cs[k as int];
        if c.id_a == id || c.id_b == id {
            let other = if c.id_a == id { c.id_b } else { c.id_a };
            if other >= s.0.len() {
            } else if s.1[other as int] {
                lemma_scan_tied(s, id, cs, k + 1);
            } else {
                let ca = if c.id_a == id { c.c_a } else { c.c_b };
                let cb = if c.id_a == id { c.c_b } else { c.c_a };
                let a = s.0[id as int];
                let b = s.0[other as int];
                let p = box_position(a, b.dir, ca as int, cb as int);
                if can_cross(a.dir, b.dir) && fits_i32(p.0) && fits_i32(p.1) {
                    let nb = CrossBox { x: p.0 as i32, y: p.1 as i32, id: b.id, len: b.len, dir: b.dir };
                    let s2: Walk = (s.0.update(other as int, nb), s.1.update(other as int, true), s.2.push(other), true);
                    assert(other != id);
                    lemma_box_position_joins_cells(a, b.dir, ca as int, cb as int);
                    assert(s2.0[id as int] == a);
                    assert(s2.0[other as int] == nb);
                    assert(crossing_joined(s2.0, c));
                    assert forall|j: int| 0 < j < s2.0.len() && #[trigger] s2.1[j] implies exists|k2: int|
                        0 <= k2 < cs.len() && #[trigger] ties(s2.0, s2.1, cs[k2], j) by {
                        if j == other {
                            assert(ties(s2.0, s2.1, cs[k as int], j));
                        } else {
                            assert(s.1[j]);
                            let k2 = choose|k2: int| 0 <= k2 < cs.len() && #[trigger] ties(s.0, s.1, cs[k2], j);
                            let d = cs[k2];
                            assert(d.id_a != other && d.id_b != other);
                            assert(s2.0[d.id_a as int] == s.0[d.id_a as int]);
                            assert(s2.0[d.id_b as int] == s.0[d.id_b as int]);
                            assert(ties(s2.0, s2.1, cs[k2], j));
                        }
                    }
                    assert forall|q: int| 0 <= q < s2.2.len() implies (#[trigger] s2.2[q]) < s2.0.len() && (s2.2[q] == 0
                        || s2.1[s2.2[q] as int]) by {
                        if q < s.2.len() {
                            assert(s2.2[q] == s.2[q]);
                        }
                    }
                    lemma_scan_tied(s2, id, cs, k + 1);
                }
            }
        } else {
            lemma_scan_tied(s, id, cs, k + 1);
        }
    }
}

proof fn lemma_walk_tied(s: Walk, cs: Seq<Crossing>, fuel: nat)
    requires
        walk_tied(s, cs),
    ensures
        walk_tied(walk(s, cs, fuel), cs),
    decreases fuel,
{
    if s.3 && s.2.len() > 0 && fuel > 0 {
        let id = s.2.last();
        assert(s.2[s.2.len() - 1] == id);
        let s1: Walk = (s.0, s.1.update(id as int, true), s.2.drop_last(), true);
        assert forall|j: int| 0 < j < s1.0.len() && #[trigger] s1.1[j] implies exists|k: int|
            0 <= k < cs.len() && #[trigger] ties(s1.0, s1.1, cs[k], j) by {
            assert(s.1[j]);
            let k = choose|k: int| 0 <= k < cs.len() && #[trigger] ties(s.0, s.1, cs[k], j);
            assert(ties(s1.0, s1.1, cs[k], j));
        }
        assert forall|q: int| 0 <= q < s1.2.len() implies (#[trigger] s1.2[q]) < s1.0.len() && (s1.2[q] == 0
            || s1.1[s1.2[q] as int]) by {
            assert(s1.2[q] == s.2[q]);
        }
        lemma_scan_tied(s1, id, cs, 0);
        lemma_walk_tied(scan(s1, id, cs, 0), cs, (fuel - 1) as nat);
    }
}

/// Moving the boxes down keeps the cells of each crossing together.
proof fn lemma_shift_y_tied(bs: Seq<CrossBox>, placed: Seq<bool>, cs: Seq<Crossing>)
    requires
        tied(bs, placed, cs),
        forall|i: int| 0 <= i < bs.len() ==> fits_i32(#[trigger] bs[i].y - min_y(bs)),
    ensures
        tied(shift_y(bs), placed, cs),
{
    let m = min_y(bs);
    let t = shift_y(bs);
    assert forall|j: int| 0 < j < t.len() && #[trigger] placed[j] implies exists|k: int|
        0 <= k < cs.len() && #[trigger] ties(t, placed, cs[k], j) by {
        let k = choose|k: int| 0 <= k < cs.len() && #[trigger] ties(bs, placed, cs[k], j);
        let c = cs[k];
        if m < 0 {
            let a = c.id_a as int;
            let b = c.id_b as int;
            assert(fits_i32(bs[a].y - m));
            assert(fits_i32(bs[b].y - m));
            assert(t[a].y == bs[a].y - m);
            assert(t[b].y == bs[b].y - m);
        }
        assert(ties(t, placed, cs[k], j));
    }
}

/// Moving the boxes right keeps the cells of each crossing together.
proof fn lemma_shift_x_tied(bs: Seq<CrossBox>, placed: Seq<bool>, cs: Seq<Crossing>)
    requires
        tied(bs, placed, cs),
        forall|i: int| 0 <= i < bs.len() ==> fits_i32(#[trigger] bs[i].x - min_x(bs)),
    ensures
        tied(shift_x(bs), placed, cs),
{
    let m = min_x(bs);
    let t = shift_x(bs);
    assert forall|j: int| 0 < j < t.len() && #[trigger] placed[j] implies exists|k: int|
        0 <= k < cs.len() && #[trigger] ties(t, placed, cs[k], j) by {
        let k = choose|k: int| 0 <= k < cs.len() && #[trigger] ties(bs, placed, cs[k], j);
        let c = cs[k];
        if m < 0 {
            let a = c.id_a as int;
            let b = c.id_b as int;
            assert(fits_i32(bs[a].x - m));
            assert(fits_i32(bs[b].x - m));
            assert(t[a].x == bs[a].x - m);
            assert(t[b].x == bs[b].x - m);
        }
        assert(ties(t, placed, cs[k], j));
    }
}

/// Every box of a crossing whose other box the walk is done with (placed and
/// no longer queued; `skip` aside) is placed as well.
pub open spec fn closed(s: Walk, cs: Seq<Crossing>, skip: int) -> bool {
    forall|k: int|
        0 <= k < cs.len() && (#[trigger] cs[k]).id_a < s.0.len() && cs[k].id_b < s.0.len() ==> {
            &&& (s.1[cs[k].id_a as int] && !s.2.contains(cs[k].id_a) && cs[k].id_a != skip ==> s.1[cs[k].id_b as int])
            &&& (s.1[cs[k].id_b as int] && !s.2.contains(cs[k].id_b) && cs[k].id_b != skip ==> s.1[cs[k].id_a as int])
        }
}

/// The crossings `cs[..k]` of box `id` join two placed boxes.
pub open spec fn scanned(s: Walk, cs: Seq<Crossing>, id: usize, k: int) -> bool {
    forall|j: int|
        0 <= j < k && (#[trigger] cs[j]).id_a < s.0.len() && cs[j].id_b < s.0.len() && (cs[j].id_a == id || cs[j].id_b
            == id) ==> s.1[cs[j].id_a as int] && s.1[cs[j].id_b as int]
}

/// What the walk keeps to reach every box joined to the first one: a mark
/// for each box, queued boxes that are boxes, the first box placed or queued,
/// and every box joined to one it is done with placed.
pub open spec fn walk_reaches(s: Walk, cs: Seq<Crossing>) -> bool {
    &&& s.1.len() == s.0.len()
    &&& forall|q: int| 0 <= q < s.2.len() ==> (#[trigger] s.2[q]) < s.0.len()
    &&& s.0.len() > 0 ==> (s.1[0] || s.2.contains(0usize))
    &&& closed(s, cs, -1)
}

proof fn lemma_scan_reaches(s: Walk, id: usize, cs: Seq<Crossing>, k: nat)
    requires
        s.3,
        s.1.len() == s.0.len(),
        forall|q: int| 0 <= q < s.2.len() ==> (#[trigger] s.2[q]) < s.0.len(),
        s.0.len() > 0 ==> (s.1[0] || s.2.contains(0usize)),
        closed(s, cs, id as int),
        scanned(s, cs, id, k as int),
        id < s.0.len(),
        s.1[id as int],
    ensures
        scan(s, id, cs, k).0.len() == s.0.len(),
        walk_measure(scan(s, id, cs, k)) <= walk_measure(s),
        scan(s, id, cs, k).3 ==> walk_reaches(scan(s, id, cs, k), cs),
    decreases cs.len() - k,
{
    if k >= cs.len() {
        assert forall|j: int|
            0 <= j < cs.len() && (#[trigger] cs[j]).id_a < s.0.len() && cs[j].id_b < s.0.len() implies {
                &&& (s.1[cs[j].id_a as int] && !s.2.contains(cs[j].id_a) && cs[j].id_a != -1 ==> s.1[cs[j].id_b as int])
                &&& (s.1[cs[j].id_b as int] && !s.2.contains(cs[j].id_b) && cs[j].id_b != -1 ==> s.1[cs[j].id_a as int])
            } by {
            if cs[j].id_a == id || cs[j].id_b == id {
                assert(s.1[cs[j].id_a as int] && s.1[cs[j].id_b as int]);
            }
        }
    } else {
        let c = cs[k as int];
        if c.id_a == id || c.id_b == id {
            let other = if c.id_a == id { c.id_b } else { c.id_a };
            if other >= s.0.len() {
            } else if s.1[other as int] {
                assert forall|j: int|
                    0 <= j < k + 1 && (#[trigger] cs[j]).id_a < s.0.len() && cs[j].id_b < s.0.len() && (cs[j].id_a == id
                        || cs[j].id_b == id) implies s.1[cs[j].id_a as int] && s.1[cs[j].id_b as int] by {
                    if j < k {
                        assert(scanned(s, cs, id, k as int));
                    }
                }
                lemma_scan_reaches(s, id, cs, k + 1);
            } else {
                let ca = if c.id_a == id { c.c_a } else { c.c_b };
                let cb = if c.id_a == id { c.c_b } else { c.c_a };
                let a = s.0[id as int];
                let b = s.0[other as int];
                let p = box_position(a, b.dir, ca as int, cb as int);
                if can_cross(a.dir, b.dir) && fits_i32(p.0) && fits_i32(p.1) {
                    let nb = CrossBox { x: p.0 as i32, y: p.1 as i32, id: b.id, len: b.len, dir: b.dir };
                    let s2: Walk = (s.0.update(other as int, nb), s.1.update(other as int, true), s.2.push(other), true);
                    lemma_count_unplaced_set(s.1, other as int);
                    assert(walk_measure(s2) + 1 == walk_measure(s));
                    assert forall|q: int| 0 <= q < s2.2.len() implies (#[trigger] s2.2[q]) < s2.0.len() by {
                        if q < s.2.len() {
                            assert(s2.2[q] == s.2[q]);
                        }
                    }
                    assert(s2.0.len() > 0 ==> (s2.1[0] || s2.2.contains(0usize))) by {
                        if !s.1[0] {
                            let q = choose|q: int| 0 <= q < s.2.len() && s.2[q] == 0usize;
                            assert(s2.2[q] == 0usize);
                        }
                    }
                    assert forall|j: int|
                        0 <= j < cs.len() && (#[trigger] cs[j]).id_a < s2.0.len() && cs[j].id_b < s2.0.len() implies {
                            &&& (s2.1[cs[j].id_a as int] && !s2.2.contains(cs[j].id_a) && cs[j].id_a != id ==> s2.1[cs[j].id_b as int])
                            &&& (s2.1[cs[j].id_b as int] && !s2.2.contains(cs[j].id_b) && cs[j].id_b != id ==> s2.1[cs[j].id_a as int])
                        } by {
                        let d = cs[j];
                        assert(s2.2[s.2.len() as int] == other);
                        if s2.1[d.id_a as int] && !s2.2.contains(d.id_a) && d.id_a != id {
                            assert(d.id_a != other);
                            if s.2.contains(d.id_a) {
                                let q = choose|q: int| 0 <= q < s.2.len() && s.2[q] == d.id_a;
                                assert(s2.2[q] == d.id_a);
                            }
                        }
                        if s2.1[d.id_b as int] && !s2.2.contains(d.id_b) && d.id_b != id {
                            assert(d.id_b != other);
                            if s.2.contains(d.id_b) {
                                let q = choose|q: int| 0 <= q < s.2.len() && s.2[q] == d.id_b;
                                assert(s2.2[q] == d.id_b);
                            }
                        }
                    }
                    assert forall|j: int|
                        0 <= j < k + 1 && (#[trigger] cs[j]).id_a < s2.0.len() && cs[j].id_b < s2.0.len() && (cs[j].id_a
                            == id || cs[j].id_b == id) implies s2.1[cs[j].id_a as int] && s2.1[cs[j].id_b as int] by {
                        if j < k {
                            assert(scanned(s, cs, id, k as int));
                        }
                    }
                    lemma_scan_reaches(s2, id, cs, k + 1);
                }
            }
        } else {
            assert forall|j: int|
                0 <= j < k + 1 && (#[trigger] cs[j]).id_a < s.0.len() && cs[j].id_b < s.0.len() && (cs[j].id_a == id
                    || cs[j].id_b == id) implies s.1[cs[j].id_a as int] && s.1[cs[j].id_b as int] by {
                if j < k {
                    assert(scanned(s, cs, id, k as int));
                }
            }
            lemma_scan_reaches(s, id, cs, k + 1);
        }
    }
}

proof fn lemma_walk_reaches(s: Walk, cs: Seq<Crossing>, fuel: nat)
    requires
        walk_reaches(s, cs),
        walk_measure(s) <= fuel,
    ensures
        walk(s, cs, fuel).0.len() == s.0.len(),
        walk(s, cs, fuel).3 ==> walk_reaches(walk(s, cs, fuel), cs) && walk(s, cs, fuel).2.len() == 0,
    decreases fuel,
{
    if s.3 && s.2.len() > 0 && fuel > 0 {
        let id = s.2.last();
        assert(s.2[s.2.len() - 1] == id);
        let s1: Walk = (s.0, s.1.update(id as int, true), s.2.drop_last(), true);
        assert(s.2 == s1.2.push(id));
        lemma_count_unplaced_set(s.1, id as int);
        assert(walk_measure(s1) + 1 <= walk_measure(s));
        assert forall|q: int| 0 <= q < s1.2.len() implies (#[trigger] s1.2[q]) < s1.0.len() by {
            assert(s1.2[q] == s.2[q]);
        }
        assert(s1.0.len() > 0 ==> (s1.1[0] || s1.2.contains(0usize))) by {
            if !s.1[0] && id != 0 {
                let q = choose|q: int| 0 <= q < s.2.len() && s.2[q] == 0usize;
                assert(q != s.2.len() - 1);
                assert(s1.2[q] == 0usize);
            }
        }
        assert forall|j: int|
            0 <= j < cs.len() && (#[trigger] cs[j]).id_a < s1.0.len() && cs[j].id_b < s1.0.len() implies {
                &&& (s1.1[cs[j].id_a as int] && !s1.2.contains(cs[j].id_a) && cs[j].id_a != id ==> s1.1[cs[j].id_b as int])
                &&& (s1.1[cs[j].id_b as int] && !s1.2.contains(cs[j].id_b) && cs[j].id_b != id ==> s1.1[cs[j].id_a as int])
            } by {
            let d = cs[j];
            if s1.1[d.id_a as int] && !s1.2.contains(d.id_a) && d.id_a != id {
                if s.2.contains(d.id_a) {
                    let q = choose|q: int| 0 <= q < s.2.len() && s.2[q] == d.id_a;
                    assert(q != s.2.len() - 1);
                    assert(s1.2[q] == d.id_a);
                }
            }
            if s1.1[d.id_b as int] && !s1.2.contains(d.id_b) && d.id_b != id {
                if s.2.contains(d.id_b) {
                    let q = choose|q: int| 0 <= q < s.2.len() && s.2[q] == d.id_b;
                    assert(q != s.2.len() - 1);
                    assert(s1.2[q] == d.id_b);
                }
            }
        }
        lemma_scan_reaches(s1, id, cs, 0);
        let r1 = scan(s1, id, cs, 0);
        if r1.3 {
            lemma_walk_reaches(r1, cs, (fuel - 1) as nat);
        } else {
            lemma_walk_fault(r1, cs, (fuel - 1) as nat);
        }
    } else if s.3 && s.2.len() > 0 {
        assert(walk_measure(s) >= s.2.len());
    }
}

/// The walk reaches every box joined to the first one through crossings:
/// when the layout can be done, the first box is placed, and of the two
/// boxes of any crossing either both are placed or neither is.
pub proof fn lemma_layout_places_connected(boxes: Seq<CrossBox>, cs: Seq<Crossing>)
    requires
        layout_ok(boxes, cs),
    ensures
        reach_closed(boxes.len(), placed_walk(boxes, cs).1, cs),
{
    let n = boxes.len();
    let init: Walk = (boxes, Seq::new(n, |i: int| false), seq![0usize], true);
    lemma_count_unplaced_all(n);
    assert(init.2[0] == 0usize);
    assert(walk_reaches(init, cs));
    lemma_walk_reaches(init, cs, 2 * n + 1);
    let w = placed_walk(boxes, cs);
    assert(w.3);
    assert(w.0.len() == n);
    assert(w.2.len() == 0);
    assert(!w.2.contains(0usize));
    assert forall|k: int|
        0 <= k < cs.len() && (#[trigger] cs[k]).id_a < n && cs[k].id_b < n implies (w.1[cs[k].id_a as int]
            <==> w.1[cs[k].id_b as int]) by {
        assert(!w.2.contains(cs[k].id_a));
        assert(!w.2.contains(cs[k].id_b));
        assert(closed(w, cs, -1));
    }
}

/// The first of `n` boxes is placed, and of the two boxes of any crossing
/// either both are placed or neither is: every box joined to the first one
/// through crossings is placed.
pub open spec fn reach_closed(n: nat, placed: Seq<bool>, cs: Seq<Crossing>) -> bool {
    &&& placed.len() == n
    &&& n > 0 ==> placed[0]
    &&& forall|k: int|
        0 <= k < cs.len() && (#[trigger] cs[k]).id_a < n && cs[k].id_b < n ==> (placed[cs[k].id_a as int]
            <==> placed[cs[k].id_b as int])
}

/// After the layout, every box that the walk from the first box reached,
/// other than the first, shares a square with another reached box: some
/// crossing joins the two, and the two cells it names lie on the same square.
pub proof fn lemma_layout_ties_boxes(boxes: Seq<CrossBox>, cs: Seq<Crossing>)
    requires
        layout_ok(boxes, cs),
    ensures
        tied(spec_layout(boxes, cs), placed_walk(boxes, cs).1, cs),
{
    let init: Walk = (boxes, Seq::new(boxes.len(), |i: int| false), seq![0usize], true);
    lemma_walk_tied(init, cs, 2 * boxes.len() + 1);
    let w = placed_walk(boxes, cs);
    lemma_shift_y_tied(w.0, w.1, cs);
    lemma_shift_x_tied(shift_y(w.0), w.1, cs);
}

/// Placing box `a` back from a box `b` that was placed from `a` gives the
/// position `a` already has.
pub proof fn lemma_box_position_round_trip(a: CrossBox, b: CrossBox, c_a: int, c_b: int)
    requires
        can_cross(a.dir, b.dir),
        b.x == box_position(a, b.dir, c_a, c_b).0,
        b.y == box_position(a, b.dir, c_a, c_b).1,
    ensures
        box_position(b, a.dir, c_b, c_a) == (a.x as int, a.y as int),
{
}

/// Placing box `b` where `box_position` says makes its cell `c_b` the same
/// cell as cell `c_a` of box `a`.
pub proof fn lemma_box_position_joins_cells(a: CrossBox, b_dir: Direction, c_a: int, c_b: int)
    requires
        can_cross(a.dir, b_dir),
    ensures
        ({
            let p = box_position(a, b_dir, c_a, c_b);
            cell_at(p.0, p.1, b_dir, c_b) == cell_at(a.x as int, a.y as int, a.dir, c_a)
        }),
{
}

} // verus!
