use vstd::prelude::*;

use crate::parsing::Direction;
use crate::text::{chars_of, dec_int, push_decimal, push_str, string_from_chars};

verus! {

/// One cell of the drawn grid: its position, the letter in it, and for the
/// first cell of a box the box's direction and length.
pub struct Square {
    pub x: i32,
    pub y: i32,
    pub char: String,
    pub dir: Option<Direction>,
    pub len: Option<usize>,
}

/// What a square holds, with its text as characters.
pub type SquareView = (i32, i32, Seq<char>, Option<Direction>, Option<usize>);

impl View for Square {
    type V = SquareView;

    open spec fn view(&self) -> SquareView {
        (self.x, self.y, self.char@, self.dir, self.len)
    }
}

/// Side of a drawn square.
pub const WIDTH: i32 = 25;

/// Space around the drawing.
pub const MARGIN: i32 = 5;

/// `a` comes before `b` in the order of `str`: character by character, a
/// proper prefix first.
pub open spec fn text_lt(a: Seq<char>, b: Seq<char>) -> bool
    decreases a.len(),
{
    if a.len() == 0 {
        b.len() > 0
    } else if b.len() == 0 {
        false
    } else if a[0] != b[0] {
        a[0] < b[0]
    } else {
        text_lt(a.drop_first(), b.drop_first())
    }
}

/// Inserts `x` into `s` after the squares whose text is not after that of `x`.
pub open spec fn insert_square(s: Seq<SquareView>, x: SquareView) -> Seq<SquareView>
    decreases s.len(),
{
    if s.len() == 0 {
        seq![x]
    } else if text_lt(x.2, s.last().2) {
        insert_square(s.drop_last(), x).push(s.last())
    } else {
        s.push(x)
    }
}

/// The squares ordered by their text; squares with the same text keep their order.
pub open spec fn sort_squares(s: Seq<SquareView>) -> Seq<SquareView>
    decreases s.len(),
{
    if s.len() == 0 {
        seq![]
    } else {
        insert_square(sort_squares(s.drop_last()), s.last())
    }
}

/// The largest `x` of the squares, 0 when there is none.
pub open spec fn max_x(s: Seq<SquareView>) -> int
    decreases s.len(),
{
    if s.len() == 0 {
        0
    } else if s.len() == 1 || s.last().0 > max_x(s.drop_last()) {
        s.last().0 as int
    } else {
        max_x(s.drop_last())
    }
}

/// The largest `y` of the squares, 0 when there is none.
pub open spec fn max_y(s: Seq<SquareView>) -> int
    decreases s.len(),
{
    if s.len() == 0 {
        0
    } else if s.len() == 1 || s.last().1 > max_y(s.drop_last()) {
        s.last().1 as int
    } else {
        max_y(s.drop_last())
    }
}

/// The drawing of one square: its frame and its letter.
pub open spec fn square_svg(q: SquareView) -> Seq<char> {
    let x = q.0 * WIDTH + MARGIN;
    let y = q.1 * WIDTH + MARGIN;
    "\n                <rect x=\""@ + dec_int(x) + "\" y=\""@ + dec_int(y) + "\" width=\""@ + dec_int(WIDTH as int)
        + "\" height=\""@ + dec_int(WIDTH as int)
        + "\" stroke=\"black\" fill=\"#fcfcfc\" stroke-width=\"5\"/>\n                <text x=\""@ + dec_int(
        x + WIDTH / 2,
    ) + "\" y=\""@ + dec_int(y + WIDTH * 3 / 5)
        + "\" font-family=\"sans-serif\" font-weight=\"bold\" font-size=\""@ + dec_int(WIDTH * 3 / 5)
        + "\" text-anchor=\"middle\" dominant-baseline=\"middle\">"@ + q.2 + "</text>"@
}

/// The drawings of the squares, one after the other.
pub open spec fn squares_svg(s: Seq<SquareView>) -> Seq<char>
    decreases s.len(),
{
    if s.len() == 0 {
        seq![]
    } else {
        squares_svg(s.drop_last()) + square_svg(s.last())
    }
}

/// The SVG image of the squares: a picture as wide and high as the squares
/// reach, a background, then the squares ordered by their text.
pub open spec fn svg_of(s: Seq<SquareView>) -> Seq<char> {
    let w = (max_x(s) + 1) * WIDTH + 2 * MARGIN;
    let h = (max_y(s) + 1) * WIDTH + 2 * MARGIN;
    "<svg width=\""@ + dec_int(w) + "\" height=\""@ + dec_int(h) + "\" xmlns=\"http://www.w3.org/2000/svg\">"@
        + "<rect x=\"0\" y=\"0\" width=\""@ + dec_int(w) + "\" height=\""@ + dec_int(h)
        + "\" fill=\"#9dd3e3\"/>"@ + squares_svg(sort_squares(s)) + "</svg>"@
}

/// The coordinates of a square can be drawn within `i32`.
pub open spec fn square_fits(q: SquareView) -> bool {
    &&& i32::MIN <= q.0 * WIDTH
    &&& q.0 * WIDTH + MARGIN + WIDTH / 2 <= i32::MAX
    &&& i32::MIN <= q.1 * WIDTH
    &&& q.1 * WIDTH + MARGIN + WIDTH * 3 / 5 <= i32::MAX
}

/// The whole picture can be drawn within `i32`.
pub open spec fn svg_fits(s: Seq<SquareView>) -> bool {
    &&& forall|i: int| 0 <= i < s.len() ==> square_fits(#[trigger] s[i])
    &&& i32::MIN <= (max_x(s) + 1) * WIDTH
    &&& (max_x(s) + 1) * WIDTH + 2 * MARGIN <= i32::MAX
    &&& i32::MIN <= (max_y(s) + 1) * WIDTH
    &&& (max_y(s) + 1) * WIDTH + 2 * MARGIN <= i32::MAX
}

fn text_less(a: &Vec<char>, b: &Vec<char>) -> (r: bool)
    ensures
        r == text_lt(a@, b@),
{
    let mut i: usize = 0;
    assert(a@.skip(0) == a@ && b@.skip(0) == b@);
    while i < a.len() && i < b.len() && a[i] == b[i]
        invariant
            i <= a@.len(),
            i <= b@.len(),
            text_lt(a@.skip(i as int), b@.skip(i as int)) == text_lt(a@, b@),
        decreases a@.len() - i,
    {
        assert(a@.skip(i as int).drop_first() == a@.skip(i + 1));
        assert(b@.skip(i as int).drop_first() == b@.skip(i + 1));
        i = i + 1;
    }
    if i == a.len() {
        i < b.len()
    } else if i == b.len() {
        false
    } else {
        assert(a@.skip(i as int)[0] == a@[i as int] && b@.skip(i as int)[0] == b@[i as int]);
        a[i] < b[i]
    }
}

impl Square {
    /// The SVG text of the square: its frame and its letter.
    pub fn format(&self) -> (r: String)
        requires
            square_fits(self@),
        ensures
            r@ == square_svg(self@),
    {
        let x = self.x * WIDTH + MARGIN;
        let y = self.y * WIDTH + MARGIN;
        let mut out: Vec<char> = Vec::new();
        push_str(&mut out, "\n                <rect x=\"");
        push_decimal(&mut out, x as i64);
        push_str(&mut out, "\" y=\"");
        push_decimal(&mut out, y as i64);
        push_str(&mut out, "\" width=\"");
        push_decimal(&mut out, WIDTH as i64);
        push_str(&mut out, "\" height=\"");
        push_decimal(&mut out, WIDTH as i64);
        push_str(&mut out, "\" stroke=\"black\" fill=\"#fcfcfc\" stroke-width=\"5\"/>\n                <text x=\"");
        push_decimal(&mut out, (x + WIDTH / 2) as i64);
        push_str(&mut out, "\" y=\"");
        push_decimal(&mut out, (y + WIDTH * 3 / 5) as i64);
        push_str(&mut out, "\" font-family=\"sans-serif\" font-weight=\"bold\" font-size=\"");
        push_decimal(&mut out, (WIDTH * 3 / 5) as i64);
        push_str(&mut out, "\" text-anchor=\"middle\" dominant-baseline=\"middle\">");
        push_str(&mut out, self.char.as_str());
        push_str(&mut out, "</text>");
        string_from_chars(&out)
    }
}

/// Whether the picture of the squares can be drawn within `i32` (`svg_fits`).
pub fn squares_drawable(squares: &Vec<Square>) -> (r: bool)
    ensures
        r == svg_fits(square_views(squares@)),
{
    let ghost sv = square_views(squares@);
    let mut i: usize = 0;
    while i < squares.len()
        invariant
            i <= squares@.len(),
            sv == square_views(squares@),
            forall|j: int| 0 <= j < i ==> square_fits(#[trigger] sv[j]),
        decreases squares@.len() - i,
    {
        let x = squares[i].x as i64;
        let y = squares[i].y as i64;
        assert(sv[i as int] == squares@[i as int]@);
        if x * 25 < i32::MIN as i64 || x * 25 + 5 + 12 > i32::MAX as i64 || y * 25 < i32::MIN as i64 || y * 25 + 5 + 15
            > i32::MAX as i64 {
            return false;
        }
        i = i + 1;
    }
    let (mx, my) = extent(squares);
    let w = (mx as i64 + 1) * 25;
    let h = (my as i64 + 1) * 25;
    w >= i32::MIN as i64 && w + 10 <= i32::MAX as i64 && h >= i32::MIN as i64 && h + 10 <= i32::MAX as i64
}

/// The largest `x` and `y` of the squares, 0 when there is none.
fn extent(boxes: &Vec<Square>) -> (r: (i32, i32))
    ensures
        r.0 == max_x(boxes@.map_values(|q: Square| q@)),
        r.1 == max_y(boxes@.map_values(|q: Square| q@)),
{
    let ghost s = boxes@.map_values(|q: Square| q@);
    if boxes.len() == 0 {
        return (0, 0);
    }
    let mut mx = boxes[0].x;
    let mut my = boxes[0].y;
    let mut i: usize = 1;
    assert(s.take(1).drop_last().len() == 0);
    while i < boxes.len()
        invariant
            1 <= i <= boxes@.len(),
            s == boxes@.map_values(|q: Square| q@),
            mx == max_x(s.take(i as int)),
            my == max_y(s.take(i as int)),
        decreases boxes@.len() - i,
    {
        assert(s.take(i + 1).drop_last() == s.take(i as int));
        assert(s[i as int] == boxes@[i as int]@);
        if boxes[i].x > mx {
            mx = boxes[i].x;
        }
        if boxes[i].y > my {
            my = boxes[i].y;
        }
        i = i + 1;
    }
    assert(s.take(boxes@.len() as int) == s);
    (mx, my)
}

/// The views of a list of squares.
pub open spec fn square_views(s: Seq<Square>) -> Seq<SquareView> {
    s.map_values(|q: Square| q@)
}

/// Inserting `x` at the index `j` that the backwards scan of `s` stops at is `insert_square`.
proof fn lemma_insert_square_at(s: Seq<SquareView>, x: SquareView, j: int)
    requires
        0 <= j <= s.len(),
        forall|k: int| j <= k < s.len() ==> text_lt(x.2, #[trigger] s[k].2),
        j > 0 ==> !text_lt(x.2, s[j - 1].2),
    ensures
        insert_square(s, x) == s.insert(j, x),
    decreases s.len(),
{
    if s.len() == 0 {
        assert(s.insert(j, x) == seq![x]);
    } else if j < s.len() {
        assert(text_lt(x.2, s[s.len() - 1].2));
        assert forall|k: int| j <= k < s.drop_last().len() implies text_lt(x.2, #[trigger] s.drop_last()[k].2) by {
            assert(s.drop_last()[k] == s[k]);
        }
        if j > 0 {
            assert(s.drop_last()[j - 1] == s[j - 1]);
        }
        lemma_insert_square_at(s.drop_last(), x, j);
        assert(s.drop_last().insert(j, x).push(s.last()) == s.insert(j, x));
    } else {
        assert(!text_lt(x.2, s.last().2));
        assert(s.push(x) == s.insert(j, x));
    }
}

/// The squares after sorting are squares of the list.
proof fn lemma_sort_squares_fit(s: Seq<SquareView>)
    requires
        forall|i: int| 0 <= i < s.len() ==> square_fits(#[trigger] s[i]),
    ensures
        forall|i: int| 0 <= i < sort_squares(s).len() ==> square_fits(#[trigger] sort_squares(s)[i]),
        sort_squares(s).len() == s.len(),
    decreases s.len(),
{
    if s.len() > 0 {
        assert forall|i: int| 0 <= i < s.drop_last().len() implies square_fits(#[trigger] s.drop_last()[i]) by {
            assert(s.drop_last()[i] == s[i]);
        }
        lemma_sort_squares_fit(s.drop_last());
        assert(square_fits(s[s.len() - 1]));
        lemma_insert_square_fit(sort_squares(s.drop_last()), s.last());
    }
}

proof fn lemma_insert_square_fit(s: Seq<SquareView>, x: SquareView)
    requires
        square_fits(x),
        forall|i: int| 0 <= i < s.len() ==> square_fits(#[trigger] s[i]),
    ensures
        forall|i: int| 0 <= i < insert_square(s, x).len() ==> square_fits(#[trigger] insert_square(s, x)[i]),
        insert_square(s, x).len() == s.len() + 1,
    decreases s.len(),
{
    if s.len() > 0 && text_lt(x.2, s.last().2) {
        assert forall|i: int| 0 <= i < s.drop_last().len() implies square_fits(#[trigger] s.drop_last()[i]) by {
            assert(s.drop_last()[i] == s[i]);
        }
        lemma_insert_square_fit(s.drop_last(), x);
        let r = insert_square(s.drop_last(), x);
        assert forall|i: int| 0 <= i < insert_square(s, x).len() implies square_fits(#[trigger] insert_square(s, x)[i]) by {
            if i < r.len() {
                assert(insert_square(s, x)[i] == r[i]);
            } else {
                assert(insert_square(s, x)[i] == s[s.len() - 1]);
            }
        }
    }
}

/// The squares ordered by their text, keeping the order of equal texts.
fn sort_by_text(boxes: Vec<Square>) -> (r: Vec<Square>)
    ensures
        square_views(r@) == sort_squares(square_views(boxes@)),
{
    let ghost sv = square_views(boxes@);
    let mut rest = boxes;
    let mut sorted: Vec<Square> = Vec::new();
    let mut keys: Vec<Vec<char>> = Vec::new();
    let ghost mut i: int = 0;
    assert(sv.take(0) == Seq::<SquareView>::empty());
    assert(square_views(sorted@) == Seq::<SquareView>::empty());
    assert(sv.skip(0) == sv);
    while rest.len() > 0
        invariant
            0 <= i <= sv.len(),
            square_views(rest@) == sv.skip(i),
            square_views(sorted@) == sort_squares(sv.take(i)),
            keys@.len() == sorted@.len(),
            forall|k: int| 0 <= k < keys@.len() ==> #[trigger] keys@[k]@ == sorted@[k].char@,
        decreases rest@.len(),
    {
        assert(square_views(rest@).len() == rest@.len());
        assert(i < sv.len());
        let ghost before = square_views(sorted@);
        let ghost rest_before = rest@;
        let sq = rest.remove(0);
        let ghost x = sq@;
        assert(rest_before[0] == sq);
        assert(sv.skip(i)[0] == x);
        assert(rest@ == rest_before.drop_first());
        assert(square_views(rest@) == square_views(rest_before).drop_first());
        assert(sv.skip(i).drop_first() == sv.skip(i + 1));
        assert(square_views(rest@) == sv.skip(i + 1));
        let key = chars_of(sq.char.as_str());
        let mut j = sorted.len();
        while j > 0 && text_less(&key, &keys[j - 1])
            invariant
                j <= sorted@.len(),
                keys@.len() == sorted@.len(),
                forall|k: int| 0 <= k < keys@.len() ==> #[trigger] keys@[k]@ == sorted@[k].char@,
                square_views(sorted@) == before,
                key@ == x.2,
                forall|k: int| j <= k < before.len() ==> text_lt(x.2, #[trigger] before[k].2),
            decreases j,
        {
            assert(before[j - 1] == sorted@[j - 1]@);
            j = j - 1;
        }
        proof {
            if j > 0 {
                assert(before[j - 1] == sorted@[j - 1]@);
            }
            lemma_insert_square_at(before, x, j as int);
            assert(sv.take(i + 1).drop_last() == sv.take(i));
            assert(sv.take(i + 1).last() == x);
        }
        let ghost sorted_before = sorted@;
        let ghost keys_before = keys@;
        sorted.insert(j, sq);
        keys.insert(j, key);
        proof {
            assert(square_views(sorted@) == before.insert(j as int, x));
            assert forall|k: int| 0 <= k < keys@.len() implies #[trigger] keys@[k]@ == sorted@[k].char@ by {
                if k < j {
                    assert(keys@[k] == keys_before[k] && sorted@[k] == sorted_before[k]);
                } else if k > j {
                    assert(keys@[k] == keys_before[k - 1] && sorted@[k] == sorted_before[k - 1]);
                }
            }
            i = i + 1;
        }
    }
    proof {
        assert(sv.skip(i).len() == 0);
        assert(sv.take(i) == sv);
    }
    sorted
}

/// The SVG image of the squares: the picture's size from the largest
/// coordinates, a background, then the squares, those with a smaller text
/// first (so blank squares lie below letters).
pub fn format_svg(boxes: Vec<Square>) -> (r: String)
    requires
        svg_fits(square_views(boxes@)),
    ensures
        r@ == svg_of(square_views(boxes@)),
{
    let ghost sv = square_views(boxes@);
    let (mx, my) = extent(&boxes);
    let sorted = sort_by_text(boxes);
    proof {
        lemma_sort_squares_fit(sv);
    }
    let ghost ordered = sort_squares(sv);
    let w = (mx + 1) * WIDTH + 2 * MARGIN;
    let h = (my + 1) * WIDTH + 2 * MARGIN;
    let mut out: Vec<char> = Vec::new();
    push_str(&mut out, "<svg width=\"");
    push_decimal(&mut out, w as i64);
    push_str(&mut out, "\" height=\"");
    push_decimal(&mut out, h as i64);
    push_str(&mut out, "\" xmlns=\"http://www.w3.org/2000/svg\">");
    push_str(&mut out, "<rect x=\"0\" y=\"0\" width=\"");
    push_decimal(&mut out, w as i64);
    push_str(&mut out, "\" height=\"");
    push_decimal(&mut out, h as i64);
    push_str(&mut out, "\" fill=\"#9dd3e3\"/>");
    let ghost head = out@;
    let mut k: usize = 0;
    assert(ordered.take(0) == Seq::<SquareView>::empty());
    while k < sorted.len()
        invariant
            k <= sorted@.len(),
            square_views(sorted@) == ordered,
            forall|t: int| 0 <= t < ordered.len() ==> square_fits(#[trigger] ordered[t]),
            out@ == head + squares_svg(ordered.take(k as int)),
        decreases sorted@.len() - k,
    {
        assert(ordered[k as int] == sorted@[k as int]@);
        let text = sorted[k].format();
        push_str(&mut out, text.as_str());
        assert(ordered.take(k + 1).drop_last() == ordered.take(k as int));
        k = k + 1;
    }
    assert(ordered.take(sorted@.len() as int) == ordered);
    push_str(&mut out, "</svg>");
    string_from_chars(&out)
}

/// Each square's text is not before that of the squares before it.
pub open spec fn text_sorted(s: Seq<SquareView>) -> bool {
    forall|i: int, j: int| 0 <= i < j < s.len() ==> !text_lt(#[trigger] s[j].2, #[trigger] s[i].2)
}

proof fn lemma_text_lt_asym(a: Seq<char>, b: Seq<char>)
    ensures
        !(text_lt(a, b) && text_lt(b, a)),
    decreases a.len(),
{
    if a.len() > 0 && b.len() > 0 && a[0] == b[0] {
        lemma_text_lt_asym(a.drop_first(), b.drop_first());
    }
}

proof fn lemma_text_lt_trans(a: Seq<char>, b: Seq<char>, c: Seq<char>)
    requires
        text_lt(a, b),
        text_lt(b, c),
    ensures
        text_lt(a, c),
    decreases a.len(),
{
    if a.len() > 0 && a[0] == b[0] && b[0] == c[0] {
        lemma_text_lt_trans(a.drop_first(), b.drop_first(), c.drop_first());
    }
}

proof fn lemma_text_lt_total(a: Seq<char>, b: Seq<char>)
    requires
        a != b,
    ensures
        text_lt(a, b) || text_lt(b, a),
    decreases a.len(),
{
    if a.len() > 0 && b.len() > 0 && a[0] == b[0] {
        if a.drop_first() == b.drop_first() {
            assert(a =~= seq![a[0]] + a.drop_first());
            assert(b =~= seq![b[0]] + b.drop_first());
        }
        lemma_text_lt_total(a.drop_first(), b.drop_first());
    } else if a.len() == 0 && b.len() == 0 {
        assert(a =~= b);
    }
}

/// Not after, twice, is not after.
proof fn lemma_text_le_trans(a: Seq<char>, b: Seq<char>, c: Seq<char>)
    requires
        !text_lt(b, a),
        !text_lt(c, b),
    ensures
        !text_lt(c, a),
{
    if text_lt(c, a) {
        if a == b {
        } else {
            lemma_text_lt_total(a, b);
            lemma_text_lt_trans(c, a, b);
        }
    }
}

/// What holds of `x` and of every square of `s` holds of every square of `insert_square(s, x)`.
proof fn lemma_insert_square_all(s: Seq<SquareView>, x: SquareView, p: spec_fn(SquareView) -> bool)
    requires
        p(x),
        forall|i: int| 0 <= i < s.len() ==> p(#[trigger] s[i]),
    ensures
        forall|k: int| 0 <= k < insert_square(s, x).len() ==> p(#[trigger] insert_square(s, x)[k]),
    decreases s.len(),
{
    if s.len() > 0 {
        assert(p(s[s.len() - 1]));
        if text_lt(x.2, s.last().2) {
            assert forall|i: int| 0 <= i < s.drop_last().len() implies p(#[trigger] s.drop_last()[i]) by {
                assert(s.drop_last()[i] == s[i]);
            }
            lemma_insert_square_all(s.drop_last(), x, p);
            let r = insert_square(s.drop_last(), x);
            assert forall|k: int| 0 <= k < insert_square(s, x).len() implies p(#[trigger] insert_square(s, x)[k]) by {
                if k < r.len() {
                    assert(insert_square(s, x)[k] == r[k]);
                } else {
                    assert(insert_square(s, x)[k] == s.last());
                }
            }
        } else {
            assert forall|k: int| 0 <= k < insert_square(s, x).len() implies p(#[trigger] insert_square(s, x)[k]) by {
                if k < s.len() {
                    assert(insert_square(s, x)[k] == s[k]);
                }
            }
        }
    }
}

proof fn lemma_insert_square_sorted(s: Seq<SquareView>, x: SquareView)
    requires
        text_sorted(s),
    ensures
        text_sorted(insert_square(s, x)),
        insert_square(s, x).to_multiset() == s.to_multiset().insert(x),
    decreases s.len(),
{
    broadcast use vstd::seq_lib::to_multiset_build, vstd::multiset::group_multiset_axioms;

    if s.len() == 0 {
        assert(insert_square(s, x) == seq![x]);
        assert(seq![x] == Seq::<SquareView>::empty().push(x));
        assert(s == Seq::<SquareView>::empty());
    } else {
        let last = s.last();
        let d = s.drop_last();
        assert(s == d.push(last));
        assert(text_sorted(d)) by {
            assert forall|i: int, j: int| 0 <= i < j < d.len() implies !text_lt(#[trigger] d[j].2, #[trigger] d[i].2) by {
                assert(d[i] == s[i] && d[j] == s[j]);
            }
        }
        if text_lt(x.2, last.2) {
            lemma_insert_square_sorted(d, x);
            let r = insert_square(d, x);
            lemma_text_lt_asym(x.2, last.2);
            let p = |e: SquareView| !text_lt(last.2, e.2);
            assert forall|i: int| 0 <= i < d.len() implies p(#[trigger] d[i]) by {
                assert(d[i] == s[i]);
                assert(s[s.len() - 1] == last);
            }
            lemma_insert_square_all(d, x, p);
            assert(insert_square(s, x) == r.push(last));
            assert forall|i: int, j: int| 0 <= i < j < r.push(last).len() implies !text_lt(#[trigger] r.push(last)[j].2, #[trigger] r.push(last)[i].2) by {
                if j < r.len() {
                    assert(r.push(last)[j] == r[j] && r.push(last)[i] == r[i]);
                } else {
                    assert(r.push(last)[i] == r[i]);
                    assert(p(r[i]));
                }
            }
            assert(r.push(last).to_multiset() =~= s.to_multiset().insert(x));
        } else {
            assert(insert_square(s, x) == s.push(x));
            assert forall|i: int, j: int| 0 <= i < j < s.push(x).len() implies !text_lt(#[trigger] s.push(x)[j].2, #[trigger] s.push(x)[i].2) by {
                if j < s.len() {
                    assert(s.push(x)[j] == s[j] && s.push(x)[i] == s[i]);
                } else {
                    assert(s.push(x)[i] == s[i]);
                    if i < s.len() - 1 {
                        assert(!text_lt(s[s.len() - 1].2, s[i].2));
                    } else {
                        lemma_text_lt_asym(s[i].2, s[i].2);
                    }
                    lemma_text_le_trans(s[i].2, last.2, x.2);
                }
            }
        }
    }
}

/// Sorting the squares puts them in text order and keeps every square: the

/// The width of the picture comes from the largest `x`: no square lies
/// right of `max_x`, and some square lies at it (0 when there is none).
pub proof fn lemma_max_x(s: Seq<SquareView>)
    ensures
        s.len() == 0 ==> max_x(s) == 0,
        forall|i: int| 0 <= i < s.len() ==> (#[trigger] s[i]).0 <= max_x(s),
        s.len() > 0 ==> exists|j: int| 0 <= j < s.len() && (#[trigger] s[j]).0 == max_x(s),
    decreases s.len(),
{
    if s.len() > 0 {
        let d = s.drop_last();
        lemma_max_x(d);
        assert forall|i: int| 0 <= i < s.len() implies (#[trigger] s[i]).0 <= max_x(s) by {
            if i < d.len() {
                assert(s[i] == d[i]);
            }
        }
        if s.len() == 1 || s.last().0 > max_x(d) {
            assert(s[s.len() - 1].0 == max_x(s));
        } else {
            let j = choose|j: int| 0 <= j < d.len() && (#[trigger] d[j]).0 == max_x(d);
            assert(s[j] == d[j]);
        }
    }
}

/// The height of the picture comes from the largest `y`: no square lies
/// below `max_y`, and some square lies at it (0 when there is none).
pub proof fn lemma_max_y(s: Seq<SquareView>)
    ensures
        s.len() == 0 ==> max_y(s) == 0,
        forall|i: int| 0 <= i < s.len() ==> (#[trigger] s[i]).1 <= max_y(s),
        s.len() > 0 ==> exists|j: int| 0 <= j < s.len() && (#[trigger] s[j]).1 == max_y(s),
    decreases s.len(),
{
    if s.len() > 0 {
        let d = s.drop_last();
        lemma_max_y(d);
        assert forall|i: int| 0 <= i < s.len() implies (#[trigger] s[i]).1 <= max_y(s) by {
            if i < d.len() {
                assert(s[i] == d[i]);
            }
        }
        if s.len() == 1 || s.last().1 > max_y(d) {
            assert(s[s.len() - 1].1 == max_y(s));
        } else {
            let j = choose|j: int| 0 <= j < d.len() && (#[trigger] d[j]).1 == max_y(d);
            assert(s[j] == d[j]);
        }
    }
}

/// squares with a smaller text are drawn first.
pub proof fn lemma_sort_squares_ordered(s: Seq<SquareView>)
    ensures
        text_sorted(sort_squares(s)),
        sort_squares(s).to_multiset() == s.to_multiset(),
    decreases s.len(),
{
    broadcast use vstd::seq_lib::to_multiset_build;

    if s.len() > 0 {
        lemma_sort_squares_ordered(s.drop_last());
        lemma_insert_square_sorted(sort_squares(s.drop_last()), s.last());
        assert(s == s.drop_last().push(s.last()));
    } else {
        assert(sort_squares(s) == s);
    }
}

} // verus!
