use vstd::prelude::*;

use crate::text::{
    ascii_lower, dec_nat, lemma_dec_nat_digits, lemma_tokens_of_four, char_views, chars_of, is_unicode_ws, lines, parse_i32, parse_u32, parse_usize,
    spec_ascii_lower, spec_parse_i32, spec_parse_u32, spec_parse_usize, split_lines, split_tokens,
    string_from_chars, tokens,
};

verus! {

/// The direction in which a box runs from its first cell.
#[derive(Clone, Copy, Debug, PartialEq, Eq, Structural)]
pub enum Direction {
    Left,
    Right,
    Up,
    Down,
}

/// A crossing of two boxes: cell `c_a` of box `id_a` is cell `c_b` of box `id_b`
/// (ids and cells counted from zero).
#[derive(Clone, Copy, Debug, PartialEq, Eq, Structural)]
pub struct Crossing {
    pub id_a: usize,
    pub id_b: usize,
    pub c_a: i32,
    pub c_b: i32,
}

impl Crossing {
    /// The same crossing seen from the other box.
    pub open spec fn spec_reverse(self) -> Crossing {
        Crossing { id_a: self.id_b, id_b: self.id_a, c_a: self.c_b, c_b: self.c_a }
    }

    pub fn reverse(self) -> (r: Self)
        ensures
            r == self.spec_reverse(),
    {
        Crossing { id_a: self.id_b, id_b: self.id_a, c_a: self.c_b, c_b: self.c_a }
    }
}

/// Reversing a crossing twice gives the crossing back.
pub proof fn lemma_reverse_involution(c: Crossing)
    ensures
        c.spec_reverse().spec_reverse() == c,
{
}

/// A box of the puzzle: its first cell, its number (from zero), its length and direction.
#[derive(Clone, Copy, Debug, PartialEq, Eq, Structural)]
pub struct CrossBox {
    pub x: i32,
    pub y: i32,
    pub id: usize,
    pub len: usize,
    pub dir: Direction,
}

/// Drops Unicode white space from the front.
pub open spec fn trim_start(t: Seq<char>) -> Seq<char>
    decreases t.len(),
{
    if t.len() > 0 && is_unicode_ws(t[0]) {
        trim_start(t.drop_first())
    } else {
        t
    }
}

/// Drops Unicode white space from the back.
pub open spec fn trim_end(t: Seq<char>) -> Seq<char>
    decreases t.len(),
{
    if t.len() > 0 && is_unicode_ws(t.last()) {
        trim_end(t.drop_last())
    } else {
        t
    }
}

/// `t` without white space at either end, as Rust's `str::trim` gives it.
pub open spec fn trim(t: Seq<char>) -> Seq<char> {
    trim_end(trim_start(t))
}

/// The direction named by `t`: `d`, `r`, `u` or `l`, with white space around it allowed.
pub open spec fn spec_direction(t: Seq<char>) -> Option<Direction> {
    let u = trim(t);
    if u == seq!['d'] {
        Some(Direction::Down)
    } else if u == seq!['r'] {
        Some(Direction::Right)
    } else if u == seq!['u'] {
        Some(Direction::Up)
    } else if u == seq!['l'] {
        Some(Direction::Left)
    } else {
        None
    }
}

/// The box a line describes: its number (from 1), its length and its
/// direction, separated by white space; further words are ignored.
pub open spec fn spec_box_line(l: Seq<char>) -> Option<CrossBox> {
    let t = tokens(l);
    if t.len() < 3 {
        None
    } else {
        match (spec_parse_usize(t[0]), spec_parse_usize(t[1]), spec_direction(t[2])) {
            (Some(id), Some(len), Some(dir)) => if id >= 1 {
                Some(CrossBox { x: 0, y: 0, id: (id - 1) as usize, len, dir })
            } else {
                None
            },
            _ => None,
        }
    }
}

/// The crossing a line describes: the two box numbers and the two cell
/// numbers (all from 1); further words are ignored.
pub open spec fn spec_crossing_line(l: Seq<char>) -> Option<Crossing> {
    let t = tokens(l);
    if t.len() < 4 {
        None
    } else {
        match (spec_parse_usize(t[0]), spec_parse_usize(t[1]), spec_parse_i32(t[2]), spec_parse_i32(t[3])) {
            (Some(a), Some(b), Some(ca), Some(cb)) => if a >= 1 && b >= 1 && ca > i32::MIN && cb > i32::MIN {
                Some(Crossing { id_a: (a - 1) as usize, id_b: (b - 1) as usize, c_a: (ca - 1) as i32, c_b: (cb - 1) as i32 })
            } else {
                None
            },
            _ => None,
        }
    }
}

/// The solution cell a line names: a box number and a cell number, as written.
pub open spec fn spec_cell_line(l: Seq<char>) -> Option<(u32, u32)> {
    let t = tokens(l);
    if t.len() < 2 {
        None
    } else {
        match (spec_parse_u32(t[0]), spec_parse_u32(t[1])) {
            (Some(a), Some(b)) => Some((a, b)),
            _ => None,
        }
    }
}

/// A line that carries data: not empty and not a `//` comment.
pub open spec fn content_line(l: Seq<char>) -> bool {
    !(l.len() == 0 || (l.len() >= 2 && l[0] == '/' && l[1] == '/'))
}

/// The boxes of the content lines.
pub open spec fn box_lines(ls: Seq<Seq<char>>) -> Seq<CrossBox>
    decreases ls.len(),
{
    if ls.len() == 0 {
        seq![]
    } else {
        box_lines(ls.drop_last()) + if content_line(ls.last()) && spec_box_line(ls.last()) is Some {
            seq![spec_box_line(ls.last())->0]
        } else {
            seq![]
        }
    }
}

/// The crossings of the content lines.
pub open spec fn crossing_lines(ls: Seq<Seq<char>>) -> Seq<Crossing>
    decreases ls.len(),
{
    if ls.len() == 0 {
        seq![]
    } else {
        crossing_lines(ls.drop_last()) + if content_line(ls.last()) && spec_crossing_line(ls.last()) is Some {
            seq![spec_crossing_line(ls.last())->0]
        } else {
            seq![]
        }
    }
}

/// The solution cells of the content lines.
pub open spec fn cell_lines(ls: Seq<Seq<char>>) -> Seq<(u32, u32)>
    decreases ls.len(),
{
    if ls.len() == 0 {
        seq![]
    } else {
        cell_lines(ls.drop_last()) + if content_line(ls.last()) && spec_cell_line(ls.last()) is Some {
            seq![spec_cell_line(ls.last())->0]
        } else {
            seq![]
        }
    }
}

/// Every content line of the three sections reads as a box, a crossing and
/// a solution cell respectively.
pub open spec fn file_ok(b: Seq<char>, c: Seq<char>, s: Seq<char>) -> bool {
    &&& forall|i: int| 0 <= i < lines(b).len() && content_line(#[trigger] lines(b)[i]) ==> spec_box_line(lines(b)[i]) is Some
    &&& forall|i: int| 0 <= i < lines(c).len() && content_line(#[trigger] lines(c)[i]) ==> spec_crossing_line(lines(c)[i]) is Some
    &&& forall|i: int| 0 <= i < lines(s).len() && content_line(#[trigger] lines(s)[i]) ==> spec_cell_line(lines(s)[i]) is Some
}

/// The boxes are ordered by number.
pub open spec fn sorted_by_id(bs: Seq<CrossBox>) -> bool {
    forall|i: int, j: int| 0 <= i < j < bs.len() ==> #[trigger] bs[i].id <= #[trigger] bs[j].id
}

/// Boxes ordered by number with distinct numbers are fixed by which boxes
/// they are: the box list of `parse_file` does not depend on the order of
/// the box lines when the numbers are distinct.
pub proof fn lemma_box_order_irrelevant(x: Seq<CrossBox>, y: Seq<CrossBox>)
    requires
        sorted_by_id(x),
        sorted_by_id(y),
        x.to_multiset() == y.to_multiset(),
        forall|i: int, j: int| 0 <= i < x.len() && 0 <= j < x.len() && i != j ==> #[trigger] x[i].id != #[trigger] x[j].id,
    ensures
        x == y,
    decreases x.len(),
{
    vstd::seq_lib::to_multiset_len(x);
    vstd::seq_lib::to_multiset_len(y);
    if x.len() > 0 {
        let n = x.len() - 1;
        let xl = x[n];
        let yl = y[n];
        vstd::seq_lib::to_multiset_contains(x, yl);
        vstd::seq_lib::to_multiset_contains(y, yl);
        vstd::seq_lib::to_multiset_contains(x, xl);
        vstd::seq_lib::to_multiset_contains(y, xl);
        assert(y[n] == yl);
        assert(x[n] == xl);
        assert(x.contains(yl));
        assert(y.contains(xl));
        let k = choose|k: int| 0 <= k < x.len() && x[k] == yl;
        let m = choose|m: int| 0 <= m < y.len() && y[m] == xl;
        if k != n {
            assert(x[k].id <= x[n].id);
        }
        if m != n {
            assert(y[m].id <= y[n].id);
        }
        assert(k == n);
        vstd::seq_lib::to_multiset_remove(x, n);
        vstd::seq_lib::to_multiset_remove(y, n);
        assert(x.remove(n) == x.drop_last());
        assert(y.remove(n) == y.drop_last());
        lemma_box_order_irrelevant(x.drop_last(), y.drop_last());
        assert(x == x.drop_last().push(xl));
        assert(y == y.drop_last().push(yl));
    }
}

/// The crossing read from a line whose two box numbers and two cell
/// numbers are those of another line, swapped, is the reverse of the
/// crossing read from that line.
pub proof fn lemma_reverse_reads_swapped(l: Seq<char>, l2: Seq<char>)
    requires
        tokens(l).len() >= 4,
        tokens(l2).len() >= 4,
        tokens(l2)[0] == tokens(l)[1],
        tokens(l2)[1] == tokens(l)[0],
        tokens(l2)[2] == tokens(l)[3],
        tokens(l2)[3] == tokens(l)[2],
    ensures
        spec_crossing_line(l2) == (match spec_crossing_line(l) {
            Some(c) => Some(c.spec_reverse()),
            None => None,
        }),
{
}

/// The line that names boxes `a` and `b` and cells `p` and `q` in decimal.
pub open spec fn crossing_text(a: nat, b: nat, p: nat, q: nat) -> Seq<char> {
    dec_nat(a) + seq![' '] + dec_nat(b) + seq![' '] + dec_nat(p) + seq![' '] + dec_nat(q)
}

/// Reversing the crossing read from the line `a b p q` gives the crossing
/// read from the line `b a q p`: the same crossing seen from the other box.
pub proof fn lemma_reverse_reads_swapped_text(a: nat, b: nat, p: nat, q: nat)
    ensures
        spec_crossing_line(crossing_text(b, a, q, p)) == (match spec_crossing_line(crossing_text(a, b, p, q)) {
            Some(c) => Some(c.spec_reverse()),
            None => None,
        }),
{
    lemma_dec_nat_digits(a);
    lemma_dec_nat_digits(b);
    lemma_dec_nat_digits(p);
    lemma_dec_nat_digits(q);
    lemma_tokens_of_four(dec_nat(a), dec_nat(b), dec_nat(p), dec_nat(q));
    lemma_tokens_of_four(dec_nat(b), dec_nat(a), dec_nat(q), dec_nat(p));
    lemma_reverse_reads_swapped(crossing_text(a, b, p, q), crossing_text(b, a, q, p));
}

fn is_unicode_space(c: char) -> (r: bool)
    ensures
        r == is_unicode_ws(c),
{
    ('\t' <= c && c <= '\r') || c == ' ' || c == '\u{85}' || c == '\u{A0}' || c == '\u{1680}'
        || ('\u{2000}' <= c && c <= '\u{200A}') || c == '\u{2028}' || c == '\u{2029}' || c == '\u{202F}'
        || c == '\u{205F}' || c == '\u{3000}'
}

/// `t` without white space at either end.
fn trimmed(t: &Vec<char>) -> (r: Vec<char>)
    ensures
        r@ == trim(t@),
{
    let mut v: Vec<char> = Vec::new();
    let mut i: usize = 0;
    assert(t@.skip(0) == t@);
    while i < t.len() && is_unicode_space(t[i])
        invariant
            i <= t@.len(),
            trim_start(t@.skip(i as int)) == trim_start(t@),
        decreases t@.len() - i,
    {
        assert(t@.skip(i as int).drop_first() == t@.skip(i + 1));
        i = i + 1;
    }
    assert(trim_start(t@.skip(i as int)) == t@.skip(i as int));
    while i < t.len()
        invariant
            i <= t@.len(),
            v@ + t@.skip(i as int) == trim_start(t@),
        decreases t@.len() - i,
    {
        assert(t@.skip(i as int) == seq![t@[i as int]] + t@.skip(i + 1));
        v.push(t[i]);
        i = i + 1;
    }
    assert(v@ == trim_start(t@));
    while v.len() > 0 && is_unicode_space(v[v.len() - 1])
        invariant
            trim_end(v@) == trim(t@),
        decreases v@.len(),
    {
        v.pop();
    }
    v
}

/// The direction named by `t`.
fn direction_of(t: &Vec<char>) -> (r: Option<Direction>)
    ensures
        r == spec_direction(t@),
{
    let u = trimmed(t);
    if u.len() != 1 {
        proof {
            assert(u@ != seq!['d']);
            assert(u@ != seq!['r']);
            assert(u@ != seq!['u']);
            assert(u@ != seq!['l']);
        }
        return None;
    }
    let c = u[0];
    if c == 'd' {
        assert(u@ == seq!['d']);
        Some(Direction::Down)
    } else if c == 'r' {
        assert(u@ == seq!['r']);
        Some(Direction::Right)
    } else if c == 'u' {
        assert(u@ == seq!['u']);
        Some(Direction::Up)
    } else if c == 'l' {
        assert(u@ == seq!['l']);
        Some(Direction::Left)
    } else {
        None
    }
}

impl Direction {
    /// Reads a direction: `d`, `r`, `u` or `l`, with white space around it
    /// allowed; anything else is an error.
    pub fn from_str(s: &str) -> (r: Result<Direction, ()>)
        ensures
            r == match spec_direction(s@) {
                Some(d) => Ok::<Direction, ()>(d),
                None => Err(()),
            },
    {
        let t = chars_of(s);
        match direction_of(&t) {
            Some(d) => Ok(d),
            None => Err(()),
        }
    }
}

/// The box described by line `l`.
fn box_of_line(l: &Vec<char>) -> (r: Option<CrossBox>)
    ensures
        r == spec_box_line(l@),
{
    let t = split_tokens(l);
    if t.len() < 3 {
        return None;
    }
    assert(t@[0]@ == tokens(l@)[0] && t@[1]@ == tokens(l@)[1] && t@[2]@ == tokens(l@)[2]);
    let id = parse_usize(&t[0]);
    let len = parse_usize(&t[1]);
    let dir = direction_of(&t[2]);
    match (id, len, dir) {
        (Some(id), Some(len), Some(dir)) => if id >= 1 {
            Some(CrossBox { x: 0, y: 0, id: id - 1, len, dir })
        } else {
            None
        },
        _ => None,
    }
}

/// The crossing described by line `l`.
fn crossing_of_line(l: &Vec<char>) -> (r: Option<Crossing>)
    ensures
        r == spec_crossing_line(l@),
{
    let t = split_tokens(l);
    if t.len() < 4 {
        return None;
    }
    assert(t@[0]@ == tokens(l@)[0] && t@[1]@ == tokens(l@)[1] && t@[2]@ == tokens(l@)[2] && t@[3]@ == tokens(l@)[3]);
    let a = parse_usize(&t[0]);
    let b = parse_usize(&t[1]);
    let ca = parse_i32(&t[2]);
    let cb = parse_i32(&t[3]);
    match (a, b, ca, cb) {
        (Some(a), Some(b), Some(ca), Some(cb)) => if a >= 1 && b >= 1 && ca > i32::MIN && cb > i32::MIN {
            Some(Crossing { id_a: a - 1, id_b: b - 1, c_a: ca - 1, c_b: cb - 1 })
        } else {
            None
        },
        _ => None,
    }
}

/// The solution cell named by line `l`.
fn cell_of_line(l: &Vec<char>) -> (r: Option<(u32, u32)>)
    ensures
        r == spec_cell_line(l@),
{
    let t = split_tokens(l);
    if t.len() < 2 {
        return None;
    }
    assert(t@[0]@ == tokens(l@)[0] && t@[1]@ == tokens(l@)[1]);
    match (parse_u32(&t[0]), parse_u32(&t[1])) {
        (Some(a), Some(b)) => Some((a, b)),
        _ => None,
    }
}

fn is_content_line(l: &Vec<char>) -> (r: bool)
    ensures
        r == content_line(l@),
{
    !(l.len() == 0 || (l.len() >= 2 && l[0] == '/' && l[1] == '/'))
}

impl CrossBox {
    /// Reads a box line: its number (from 1), length and direction.
    pub fn from_str(s: &str) -> (r: CrossBox)
        requires
            spec_box_line(s@) is Some,
        ensures
            r == spec_box_line(s@)->0,
    {
        let l = chars_of(s);
        box_of_line(&l).unwrap()
    }
}

impl Crossing {
    /// Reads a crossing line: two box numbers and two cell numbers (from 1).
    pub fn from_str(s: &str) -> (r: Crossing)
        requires
            spec_crossing_line(s@) is Some,
        ensures
            r == spec_crossing_line(s@)->0,
    {
        let l = chars_of(s);
        crossing_of_line(&l).unwrap()
    }
}

/// Whether the three sections can be read: every content line of the boxes,
/// crossings and solution cells has the expected form.
pub fn file_is_well_formed(b: &str, c: &str, s: &str) -> (r: bool)
    ensures
        r == file_ok(b@, c@, s@),
{
    let bl = split_lines(&chars_of(b));
    let cl = split_lines(&chars_of(c));
    let sl = split_lines(&chars_of(s));
    let mut i: usize = 0;
    while i < bl.len()
        invariant
            i <= bl@.len(),
            char_views(bl@) == lines(b@),
            forall|j: int| 0 <= j < i && content_line(#[trigger] lines(b@)[j]) ==> spec_box_line(lines(b@)[j]) is Some,
        decreases bl@.len() - i,
    {
        assert(bl@[i as int]@ == lines(b@)[i as int]);
        if is_content_line(&bl[i]) && box_of_line(&bl[i]).is_none() {
            return false;
        }
        i = i + 1;
    }
    let mut i: usize = 0;
    while i < cl.len()
        invariant
            i <= cl@.len(),
            char_views(cl@) == lines(c@),
            forall|j: int| 0 <= j < i && content_line(#[trigger] lines(c@)[j]) ==> spec_crossing_line(lines(c@)[j]) is Some,
        decreases cl@.len() - i,
    {
        assert(cl@[i as int]@ == lines(c@)[i as int]);
        if is_content_line(&cl[i]) && crossing_of_line(&cl[i]).is_none() {
            return false;
        }
        i = i + 1;
    }
    let mut i: usize = 0;
    while i < sl.len()
        invariant
            i <= sl@.len(),
            char_views(sl@) == lines(s@),
            forall|j: int| 0 <= j < i && content_line(#[trigger] lines(s@)[j]) ==> spec_cell_line(lines(s@)[j]) is Some,
        decreases sl@.len() - i,
    {
        assert(sl@[i as int]@ == lines(s@)[i as int]);
        if is_content_line(&sl[i]) && cell_of_line(&sl[i]).is_none() {
            return false;
        }
        i = i + 1;
    }
    true
}

/// Inserts `x` after the boxes with a number up to its own.
fn insert_by_id(sorted: &mut Vec<CrossBox>, x: CrossBox)
    requires
        sorted_by_id(old(sorted)@),
    ensures
        sorted_by_id(final(sorted)@),
        final(sorted)@.to_multiset() == old(sorted)@.to_multiset().insert(x),
{
    let mut j: usize = 0;
    while j < sorted.len() && sorted[j].id <= x.id
        invariant
            j <= sorted@.len(),
            forall|k: int| 0 <= k < j ==> #[trigger] sorted@[k].id <= x.id,
        decreases sorted@.len() - j,
    {
        j = j + 1;
    }
    let ghost before = sorted@;
    proof {
        vstd::seq_lib::to_multiset_insert(before, j as int, x);
    }
    sorted.insert(j, x);
    assert(sorted@ == before.insert(j as int, x));
    assert forall|a: int, b: int| 0 <= a < b < sorted@.len() implies #[trigger] sorted@[a].id <= #[trigger] sorted@[b].id by {
        if b < j {
        } else if b == j {
            assert(sorted@[a] == before[a]);
        } else if a < j {
            assert(sorted@[b] == before[b - 1]);
            assert(before[j as int].id > x.id);
            if b - 1 > j {
                assert(before[j as int].id <= before[b - 1].id);
            }
        } else if a == j {
            assert(sorted@[b] == before[b - 1]);
            assert(before[j as int].id > x.id);
            if b - 1 > j {
                assert(before[j as int].id <= before[b - 1].id);
            }
        } else {
            assert(sorted@[a] == before[a - 1]);
            assert(sorted@[b] == before[b - 1]);
        }
    }
}

/// Reads the three sections of a puzzle: the boxes (ordered by number), the
/// crossings and the solution cells, each from its content lines in order.
pub fn parse_file(b: &str, c: &str, s: &str) -> (r: (Vec<CrossBox>, Vec<Crossing>, Vec<(u32, u32)>))
    requires
        file_ok(b@, c@, s@),
    ensures
        sorted_by_id(r.0@),
        r.0@.to_multiset() == box_lines(lines(b@)).to_multiset(),
        r.1@ == crossing_lines(lines(c@)),
        r.2@ == cell_lines(lines(s@)),
{
    let mut boxes: Vec<CrossBox> = Vec::new();
    let mut crossings: Vec<Crossing> = Vec::new();
    let mut solution_cells: Vec<(u32, u32)> = Vec::new();
    let bl = split_lines(&chars_of(b));
    let ghost lb = lines(b@);
    let mut i: usize = 0;
    proof {
        assert(lb.take(0) == Seq::<Seq<char>>::empty());
        assert(boxes@ == box_lines(lb.take(0)));
    }
    while i < bl.len()
        invariant
            i <= bl@.len(),
            lb == lines(b@),
            char_views(bl@) == lb,
            file_ok(b@, c@, s@),
            sorted_by_id(boxes@),
            boxes@.to_multiset() == box_lines(lb.take(i as int)).to_multiset(),
        decreases bl@.len() - i,
    {
        assert(bl@[i as int]@ == lb[i as int]);
        assert(lb.take(i + 1).drop_last() == lb.take(i as int));
        assert(lb.take(i + 1).last() == lb[i as int]);
        if is_content_line(&bl[i]) {
            let x = box_of_line(&bl[i]).unwrap();
            proof {
                vstd::seq_lib::to_multiset_build(box_lines(lb.take(i as int)), x);
                assert(box_lines(lb.take(i + 1)) == box_lines(lb.take(i as int)).push(x));
            }
            insert_by_id(&mut boxes, x);
        } else {
            assert(box_lines(lb.take(i + 1)) == box_lines(lb.take(i as int)));
        }
        i = i + 1;
    }
    assert(lb.take(bl@.len() as int) == lb);
    let cl = split_lines(&chars_of(c));
    let ghost lc = lines(c@);
    let mut i: usize = 0;
    while i < cl.len()
        invariant
            i <= cl@.len(),
            lc == lines(c@),
            char_views(cl@) == lc,
            file_ok(b@, c@, s@),
            crossings@ == crossing_lines(lc.take(i as int)),
        decreases cl@.len() - i,
    {
        assert(cl@[i as int]@ == lc[i as int]);
        assert(lc.take(i + 1).drop_last() == lc.take(i as int));
        assert(lc.take(i + 1).last() == lc[i as int]);
        if is_content_line(&cl[i]) {
            let x = crossing_of_line(&cl[i]).unwrap();
            crossings.push(x);
        }
        i = i + 1;
    }
    assert(lc.take(cl@.len() as int) == lc);
    let sl = split_lines(&chars_of(s));
    let ghost ls = lines(s@);
    let mut i: usize = 0;
    while i < sl.len()
        invariant
            i <= sl@.len(),
            ls == lines(s@),
            char_views(sl@) == ls,
            file_ok(b@, c@, s@),
            solution_cells@ == cell_lines(ls.take(i as int)),
        decreases sl@.len() - i,
    {
        assert(sl@[i as int]@ == ls[i as int]);
        assert(ls.take(i + 1).drop_last() == ls.take(i as int));
        assert(ls.take(i + 1).last() == ls[i as int]);
        if is_content_line(&sl[i]) {
            let x = cell_of_line(&sl[i]).unwrap();
            solution_cells.push(x);
        }
        i = i + 1;
    }
    assert(ls.take(sl@.len() as int) == ls);
    (boxes, crossings, solution_cells)
}

/// What `umlaut` makes of one character: an ASCII letter lower-cased, and
/// `ä`, `ö`, `ü` (either case) and `ß` spelled `ae`, `oe`, `ue`, `ss`.
pub open spec fn fold_char(c: char) -> Seq<char> {
    let l = spec_ascii_lower(c);
    if l == 'ä' || l == 'Ä' {
        seq!['a', 'e']
    } else if l == 'ö' || l == 'Ö' {
        seq!['o', 'e']
    } else if l == 'ü' || l == 'Ü' {
        seq!['u', 'e']
    } else if l == 'ß' {
        seq!['s', 's']
    } else {
        seq![l]
    }
}

/// A text with each character folded.
pub open spec fn spec_umlaut(s: Seq<char>) -> Seq<char>
    decreases s.len(),
{
    if s.len() == 0 {
        seq![]
    } else {
        spec_umlaut(s.drop_last()) + fold_char(s.last())
    }
}

/// The words of a word list: each line folded, dropping lines that become
/// empty or a single space.
pub open spec fn word_list(ls: Seq<Seq<char>>) -> Seq<Seq<char>>
    decreases ls.len(),
{
    if ls.len() == 0 {
        seq![]
    } else {
        let w = spec_umlaut(ls.last());
        word_list(ls.drop_last()) + if w.len() != 0 && w != seq![' '] {
            seq![w]
        } else {
            seq![]
        }
    }
}

fn fold_chars(s: &Vec<char>) -> (r: Vec<char>)
    ensures
        r@ == spec_umlaut(s@),
{
    let mut r: Vec<char> = Vec::new();
    let mut i: usize = 0;
    while i < s.len()
        invariant
            i <= s@.len(),
            r@ == spec_umlaut(s@.take(i as int)),
        decreases s@.len() - i,
    {
        assert(s@.take(i + 1).drop_last() == s@.take(i as int));
        let l = ascii_lower(s[i]);
        let ghost before = r@;
        if l == 'ä' || l == 'Ä' {
            r.push('a');
            r.push('e');
        } else if l == 'ö' || l == 'Ö' {
            r.push('o');
            r.push('e');
        } else if l == 'ü' || l == 'Ü' {
            r.push('u');
            r.push('e');
        } else if l == 'ß' {
            r.push('s');
            r.push('s');
        } else {
            r.push(l);
        }
        assert(r@ == before + fold_char(s@[i as int]));
        i = i + 1;
    }
    assert(s@.take(s@.len() as int) == s@);
    r
}

/// Folds a word down to ASCII: lower-cases its ASCII letters and spells
/// `ä`, `ö`, `ü` (either case) and `ß` as `ae`, `oe`, `ue`, `ss`.
pub fn umlaut(input: &str) -> (r: String)
    ensures
        r@ == spec_umlaut(input@),
        forall|i: int| 0 <= i < r@.len() ==> !#[trigger] folded_away(r@[i]),
        (forall|i: int| 0 <= i < input@.len() ==> #[trigger] foldable(input@[i])) ==> forall|i: int|
            0 <= i < r@.len() ==> #[trigger] is_ascii_char(r@[i]),
{
    let v = fold_chars(&chars_of(input));
    proof {
        lemma_umlaut_folds(input@);
    }
    string_from_chars(&v)
}

/// The characters that `umlaut` never leaves in a word: ASCII upper-case
/// letters, `ä`, `ö`, `ü` in either case, and `ß`.
pub open spec fn folded_away(c: char) -> bool {
    ||| ('A' <= c && c <= 'Z')
    ||| c == 'ä' || c == 'ö' || c == 'ü' || c == 'ß'
    ||| c == 'Ä' || c == 'Ö' || c == 'Ü'
}

/// An ASCII character.
pub open spec fn is_ascii_char(c: char) -> bool {
    (c as u32) < 128
}

/// The characters that words are written in: ASCII, `ä`, `ö`, `ü` in
/// either case, and `ß`.
pub open spec fn foldable(c: char) -> bool {
    is_ascii_char(c) || c == 'ä' || c == 'ö' || c == 'ü' || c == 'ß' || c == 'Ä' || c == 'Ö' || c == 'Ü'
}

/// A folded word holds no ASCII upper-case letter and none of `ä`, `ö`,
/// `ü` (either case) and `ß`; folding a word written in ASCII and those
/// letters gives plain ASCII.
pub proof fn lemma_umlaut_folds(s: Seq<char>)
    ensures
        forall|i: int| 0 <= i < spec_umlaut(s).len() ==> !#[trigger] folded_away(spec_umlaut(s)[i]),
        (forall|i: int| 0 <= i < s.len() ==> #[trigger] foldable(s[i])) ==> forall|i: int|
            0 <= i < spec_umlaut(s).len() ==> #[trigger] is_ascii_char(spec_umlaut(s)[i]),
    decreases s.len(),
{
    if s.len() > 0 {
        lemma_umlaut_folds(s.drop_last());
        let front = spec_umlaut(s.drop_last());
        let tail = fold_char(s.last());
        assert(spec_umlaut(s) == front + tail);
        let all_foldable = forall|i: int| 0 <= i < s.len() ==> #[trigger] foldable(s[i]);
        if all_foldable {
            assert forall|i: int| 0 <= i < s.drop_last().len() implies #[trigger] foldable(s.drop_last()[i]) by {
                assert(s.drop_last()[i] == s[i]);
            }
            assert(foldable(s[s.len() - 1]));
        }
        assert forall|i: int| 0 <= i < spec_umlaut(s).len() implies {
            &&& !#[trigger] folded_away(spec_umlaut(s)[i])
            &&& (all_foldable ==> is_ascii_char(spec_umlaut(s)[i]))
        } by {
            if i < front.len() {
                assert(spec_umlaut(s)[i] == front[i]);
            } else {
                assert(spec_umlaut(s)[i] == tail[i - front.len()]);
                let c = s.last();
                if 'A' <= c && c <= 'Z' {
                    assert(spec_ascii_lower(c) == ((c as u32) + 32) as char);
                }
            }
        }
    }
}

/// The words of a word list, one per line, folded by `umlaut`; lines that
/// become empty or a single space are dropped.
pub fn prepare_words(text: &str) -> (r: Vec<String>)
    ensures
        r@.map_values(|w: String| w@) == word_list(lines(text@)),
{
    let ls = split_lines(&chars_of(text));
    let ghost lt = lines(text@);
    let mut words: Vec<String> = Vec::new();
    let mut i: usize = 0;
    assert(lt.take(0) == Seq::<Seq<char>>::empty());
    assert(words@.map_values(|w: String| w@) == Seq::<Seq<char>>::empty());
    while i < ls.len()
        invariant
            i <= ls@.len(),
            lt == lines(text@),
            char_views(ls@) == lt,
            words@.map_values(|w: String| w@) == word_list(lt.take(i as int)),
        decreases ls@.len() - i,
    {
        assert(ls@[i as int]@ == lt[i as int]);
        assert(lt.take(i + 1).drop_last() == lt.take(i as int));
        assert(lt.take(i + 1).last() == lt[i as int]);
        let w = fold_chars(&ls[i]);
        let ghost before = words@;
        if w.len() != 0 && !(w.len() == 1 && w[0] == ' ') {
            let s = string_from_chars(&w);
            words.push(s);
            assert(words@.map_values(|w: String| w@) == before.map_values(|w: String| w@).push(s@));
        } else {
            assert(w@ == seq![' '] || w@.len() == 0);
        }
        i = i + 1;
    }
    assert(lt.take(ls@.len() as int) == lt);
    words
}

/// `---` starts at position `i` of `s`.
pub open spec fn separator_at(s: Seq<char>, i: int) -> bool {
    i + 3 <= s.len() && s[i] == '-' && s[i + 1] == '-' && s[i + 2] == '-'
}

/// Splits `s[i..]` at each `---`, left to right, given where the current part
/// starts and the parts before it.
pub open spec fn sections_scan(s: Seq<char>, i: nat, start: nat, acc: Seq<Seq<char>>) -> Seq<Seq<char>>
    decreases s.len() - i,
{
    if i >= s.len() {
        acc.push(s.subrange(start as int, s.len() as int))
    } else if separator_at(s, i as int) {
        sections_scan(s, i + 3, i + 3, acc.push(s.subrange(start as int, i as int)))
    } else {
        sections_scan(s, i + 1, start, acc)
    }
}

/// The parts of `s` between the separators `---`, as Rust's `str::split` gives them.
pub open spec fn sections(s: Seq<char>) -> Seq<Seq<char>> {
    sections_scan(s, 0, 0, seq![])
}

fn chars_between(s: &Vec<char>, from: usize, to: usize) -> (r: Vec<char>)
    requires
        from <= to <= s@.len(),
    ensures
        r@ == s@.subrange(from as int, to as int),
{
    let mut r: Vec<char> = Vec::new();
    let mut i: usize = from;
    while i < to
        invariant
            from <= i <= to <= s@.len(),
            r@ == s@.subrange(from as int, i as int),
        decreases to - i,
    {
        r.push(s[i]);
        i = i + 1;
    }
    r
}

/// The three sections of a puzzle file, separated by `---`: boxes,
/// crossings and solution cells; `None` when there are not exactly three.
pub fn split_sections(input: &str) -> (r: Option<(String, String, String)>)
    ensures
        r is Some <==> sections(input@).len() == 3,
        r matches Some(t) ==> t.0@ == sections(input@)[0] && t.1@ == sections(input@)[1] && t.2@ == sections(input@)[2],
{
    let s = chars_of(input);
    let mut parts: Vec<Vec<char>> = Vec::new();
    let mut start: usize = 0;
    let mut i: usize = 0;
    assert(char_views(parts@) == Seq::<Seq<char>>::empty());
    while i < s.len()
        invariant
            start <= i <= s@.len(),
            sections_scan(s@, i as nat, start as nat, char_views(parts@)) == sections(input@),
            s@ == input@,
        decreases s@.len() - i,
    {
        if 3 <= s.len() - i && s[i] == '-' && s[i + 1] == '-' && s[i + 2] == '-' {
            let p = chars_between(&s, start, i);
            let ghost before = char_views(parts@);
            parts.push(p);
            assert(char_views(parts@) == before.push(p@));
            i = i + 3;
            start = i;
        } else {
            i = i + 1;
        }
    }
    let p = chars_between(&s, start, s.len());
    let ghost before = char_views(parts@);
    parts.push(p);
    assert(char_views(parts@) == before.push(p@));
    assert(char_views(parts@) == sections(input@));
    if parts.len() != 3 {
        return None;
    }
    assert(parts@[0]@ == sections(input@)[0] && parts@[1]@ == sections(input@)[1] && parts@[2]@ == sections(input@)[2]);
    Some((string_from_chars(&parts[0]), string_from_chars(&parts[1]), string_from_chars(&parts[2])))
}

} // verus!
