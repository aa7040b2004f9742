use vstd::multiset::Multiset;
use vstd::prelude::*;

use crate::layout::cell_at;
use crate::output::{Square, SquareView};
use crate::parsing::{CrossBox, Crossing, Direction};
use crate::text::{ascii_upper, spec_ascii_upper, string_from_chars};

verus! {

/// A puzzle: its boxes, the crossings between them, the words to place and
/// the cells that spell the solution word.
#[derive(Debug)]
pub struct Instance {
    pub boxes: Vec<CrossBox>,
    pub crossings: Vec<Crossing>,
    pub words: Vec<String>,
    pub solution_cells: Vec<(u32, u32)>,
}

/// A partial placement: for each box the word in it (by its index in the
/// solver's word list), and the set of words placed so far as a bit mask.
#[derive(Clone, Debug)]
pub struct State {
    assignments: Vec<Option<u8>>,
    placed_words: u64,
}

/// What a state holds: the word of each box and the mask of placed words.
pub type StateView = (Seq<Option<u8>>, u64);

impl View for State {
    type V = StateView;

    closed spec fn view(&self) -> StateView {
        (self.assignments@, self.placed_words)
    }
}

/// Whether word `w` is not yet placed in the mask `placed`.
pub open spec fn is_free(placed: u64, w: usize) -> bool {
    placed & (1u64 << w) == 0
}

/// Number of set bits among the lowest `n` bits of `x`.
pub open spec fn bits_set(x: u64, n: nat) -> nat
    decreases n,
{
    if n == 0 {
        0
    } else {
        bits_set(x, (n - 1) as nat) + if is_free(x, (n - 1) as usize) {
            0nat
        } else {
            1nat
        }
    }
}

/// The number of ways to put `k` of `n` distinct items in a row:
/// `n * (n - 1) * ... * (n - k + 1)`.
pub open spec fn falling(n: nat, k: nat) -> nat
    decreases k,
{
    if k == 0 {
        1
    } else {
        falling(n, (k - 1) as nat) * ((n + 1 - k) as nat)
    }
}

/// Number of the words `ws` that are not placed in `placed`.
pub open spec fn count_free_words(ws: Seq<usize>, placed: u64) -> nat
    decreases ws.len(),
{
    if ws.len() == 0 {
        0
    } else {
        count_free_words(ws.drop_last(), placed) + if is_free(placed, ws.last()) {
            1nat
        } else {
            0nat
        }
    }
}

/// Number of the boxes `bs` that hold no word in `assignments`.
pub open spec fn count_free_boxes(bs: Seq<usize>, assignments: Seq<Option<u8>>) -> nat
    decreases bs.len(),
{
    if bs.len() == 0 {
        0
    } else {
        count_free_boxes(bs.drop_last(), assignments) + if assignments[bs.last() as int] is None {
            1nat
        } else {
            0nat
        }
    }
}

/// The first of the words `ws` that is not placed.
pub open spec fn first_free_word(ws: Seq<usize>, placed: u64) -> Option<usize>
    decreases ws.len(),
{
    if ws.len() == 0 {
        None
    } else if is_free(placed, ws[0]) {
        Some(ws[0])
    } else {
        first_free_word(ws.drop_first(), placed)
    }
}

/// Number of empty entries of `a`.
pub open spec fn count_none(a: Seq<Option<u8>>) -> nat
    decreases a.len(),
{
    if a.len() == 0 {
        0
    } else {
        count_none(a.drop_last()) + if a.last() is None {
            1nat
        } else {
            0nat
        }
    }
}

/// The state with word `w` put into box `b`.
pub open spec fn child(st: StateView, b: usize, w: usize) -> StateView {
    (st.0.update(b as int, Some(w as u8)), st.1 | (1u64 << w))
}

/// Length of a word in UTF-8 bytes.
pub open spec fn byte_len(s: String) -> nat {
    vstd::utf8::encode_utf8(s@).len()
}

/// The words of `ws` that are `l` bytes long, in their order.
pub open spec fn with_len(ws: Seq<String>, l: nat) -> Seq<String>
    decreases ws.len(),
{
    if ws.len() == 0 {
        seq![]
    } else {
        with_len(ws.drop_last(), l) + if byte_len(ws.last()) == l {
            seq![ws.last()]
        } else {
            seq![]
        }
    }
}

/// The words of `ws` shorter than `bound` bytes, ordered by length; words of
/// the same length keep their order.
pub open spec fn sort_by_len(ws: Seq<String>, bound: nat) -> Seq<String>
    decreases bound,
{
    if bound == 0 {
        seq![]
    } else {
        sort_by_len(ws, (bound - 1) as nat) + with_len(ws, (bound - 1) as nat)
    }
}

/// The indices of the words of `ws` that are `l` bytes long, ascending.
pub open spec fn word_indices(ws: Seq<Seq<u8>>, l: nat) -> Seq<usize>
    decreases ws.len(),
{
    if ws.len() == 0 {
        seq![]
    } else {
        word_indices(ws.drop_last(), l) + if ws.last().len() == l {
            seq![(ws.len() - 1) as usize]
        } else {
            seq![]
        }
    }
}

/// The indices of the boxes of `bs` that are `l` cells long, ascending.
pub open spec fn box_indices(bs: Seq<CrossBox>, l: nat) -> Seq<usize>
    decreases bs.len(),
{
    if bs.len() == 0 {
        seq![]
    } else {
        box_indices(bs.drop_last(), l) + if bs.last().len == l {
            seq![(bs.len() - 1) as usize]
        } else {
            seq![]
        }
    }
}

/// The crossings of `cs` that box `b` takes part in, each seen from `b`, in
/// the order of `cs` (a crossing of `b` with itself counts twice).
pub open spec fn crossings_of(cs: Seq<Crossing>, b: usize) -> Seq<Crossing>
    decreases cs.len(),
{
    if cs.len() == 0 {
        seq![]
    } else {
        let c = cs.last();
        crossings_of(cs.drop_last(), b) + (if c.id_a == b {
            seq![c]
        } else {
            seq![]
        }) + (if c.id_b == b {
            seq![c.spec_reverse()]
        } else {
            seq![]
        })
    }
}

/// The length of the longest box, 0 when there is none.
pub open spec fn max_box_len(bs: Seq<CrossBox>) -> nat
    decreases bs.len(),
{
    if bs.len() == 0 {
        0
    } else {
        let m = max_box_len(bs.drop_last());
        if bs.last().len > m {
            bs.last().len as nat
        } else {
            m
        }
    }
}

/// The instance is one the solver can be built for: no box is `usize::MAX`
/// long, no word is longer than the longest box, and every crossing names
/// two boxes of the instance.
pub open spec fn instance_ok(inst: Instance) -> bool {
    &&& forall|i: int| 0 <= i < inst.boxes@.len() ==> #[trigger] inst.boxes@[i].len < usize::MAX
    &&& forall|i: int| 0 <= i < inst.words@.len() ==> byte_len(#[trigger] inst.words@[i]) <= max_box_len(inst.boxes@)
    &&& forall|i: int| 0 <= i < inst.crossings@.len() ==> {
        &&& (#[trigger] inst.crossings@[i]).id_a < inst.boxes@.len()
        &&& inst.crossings@[i].id_b < inst.boxes@.len()
    }
}

/// The entries of `solutions[0]` on which all solutions agree; the others empty.
pub open spec fn spec_consensus(solutions: Seq<StateView>) -> Seq<Option<u8>> {
    Seq::new(
        solutions[0].0.len(),
        |i: int|
            if forall|s: int| 0 <= s < solutions.len() ==> #[trigger] solutions[s].0[i] == solutions[0].0[i] {
                solutions[0].0[i]
            } else {
                None
            },
    )
}

/// Where cell `i` of box `b` lies.
pub open spec fn cell_position(b: CrossBox, i: int) -> (int, int) {
    let d = (i as i32) as int;
    match b.dir {
        Direction::Left => (b.x - d, b.y as int),
        Direction::Right => (b.x + d, b.y as int),
        Direction::Up => (b.x as int, b.y - d),
        Direction::Down => (b.x as int, b.y + d),
    }
}

/// Every cell of every box lies where an `i32` can say.
pub open spec fn positions_fit(boxes: Seq<CrossBox>) -> bool {
    forall|b: int, i: int|
        0 <= b < boxes.len() && 0 <= i < boxes[b].len ==> {
            let p = #[trigger] cell_position(boxes[b], i);
            &&& i32::MIN <= p.0 <= i32::MAX
            &&& i32::MIN <= p.1 <= i32::MAX
        }
}

/// The letter shown in cell `i` of box `bi`: the `i`-th character of its
/// word, or a blank when the box is empty or the word has no such character.
pub open spec fn cell_char(words: Seq<String>, a: Seq<Option<u8>>, bi: int, i: int) -> char {
    match a[bi] {
        None => ' ',
        Some(w) => if i < words[w as int]@.len() {
            words[w as int]@[i]
        } else {
            ' '
        },
    }
}

/// The square drawn for cell `i` of box `bi`.
pub open spec fn cell_square(words: Seq<String>, a: Seq<Option<u8>>, boxes: Seq<CrossBox>, bi: int, i: int) -> SquareView {
    let b = boxes[bi];
    let p = cell_position(b, i);
    (
        p.0 as i32,
        p.1 as i32,
        seq![spec_ascii_upper(cell_char(words, a, bi, i))],
        if (i as i32) == 0 { Some(b.dir) } else { None },
        if (i as i32) == 0 { Some(b.len) } else { None },
    )
}

/// The squares of the first `n` boxes, box by box, each from its first cell on.
pub open spec fn state_squares(words: Seq<String>, a: Seq<Option<u8>>, boxes: Seq<CrossBox>, n: nat) -> Seq<SquareView>
    decreases n,
{
    if n == 0 {
        seq![]
    } else {
        state_squares(words, a, boxes, (n - 1) as nat) + Seq::new(
            boxes[n - 1].len as nat,
            |i: int| cell_square(words, a, boxes, n - 1, i),
        )
    }
}

/// The views of a sequence of states.
pub open spec fn views(s: Seq<State>) -> Seq<StateView> {
    s.map_values(|x: State| x@)
}

/// Searches solutions of a puzzle.
pub struct Solver {
    instance: Instance,
    word_lens: Vec<Vec<usize>>,
    box_lens: Vec<Vec<usize>>,
    box_crossings: Vec<Vec<Crossing>>,
}

impl Solver {
    /// The words of the puzzle, ordered by length, as UTF-8 bytes.
    pub closed spec fn spec_words(self) -> Seq<Seq<u8>> {
        self.instance.words@.map_values(|s: String| vstd::utf8::encode_utf8(s@))
    }

    /// The boxes of the puzzle.
    pub closed spec fn spec_boxes(self) -> Seq<CrossBox> {
        self.instance.boxes@
    }

    /// The puzzle the solver was made for, with its words ordered by length.
    pub closed spec fn spec_instance(self) -> Instance {
        self.instance
    }

    /// For each length, the indices of the words of that length, ascending.
    pub closed spec fn spec_word_lens(self) -> Seq<Seq<usize>> {
        self.word_lens@.map_values(|v: Vec<usize>| v@)
    }

    /// For each length, the indices of the boxes of that length, ascending.
    pub closed spec fn spec_box_lens(self) -> Seq<Seq<usize>> {
        self.box_lens@.map_values(|v: Vec<usize>| v@)
    }

    /// For each box, the crossings it takes part in, each seen from that box.
    pub closed spec fn spec_box_crossings(self) -> Seq<Seq<Crossing>> {
        self.box_crossings@.map_values(|v: Vec<Crossing>| v@)
    }

    /// Number of length groups.
    pub open spec fn groups(self) -> nat {
        self.spec_word_lens().len()
    }

    #[verifier::type_invariant]
    closed spec fn inv(self) -> bool {
        let words = self.spec_words();
        let boxes = self.spec_boxes();
        &&& self.word_lens@.len() == self.box_lens@.len()
        &&& self.box_crossings@.len() == boxes.len()
        &&& boxes.len() <= usize::MAX
        &&& forall|g: int, k: int|
            0 <= g < self.word_lens@.len() && 0 <= k < self.word_lens@[g]@.len() ==> {
                let w = #[trigger] self.word_lens@[g]@[k];
                w < words.len() && words[w as int].len() == g
            }
        &&& forall|g: int, k: int|
            0 <= g < self.box_lens@.len() && 0 <= k < self.box_lens@[g]@.len() ==> {
                let b = #[trigger] self.box_lens@[g]@[k];
                b < boxes.len() && boxes[b as int].len == g
            }
        &&& forall|b: int, k: int|
            0 <= b < self.box_crossings@.len() && 0 <= k < self.box_crossings@[b]@.len() ==> {
                let c = #[trigger] self.box_crossings@[b]@[k];
                &&& c.id_a == b
                &&& c.id_b < boxes.len()
                &&& self.box_crossings@[c.id_b as int]@.contains(c.spec_reverse())
            }
        &&& forall|w: int|
            0 <= w < words.len() ==> {
                &&& #[trigger] words[w].len() < self.word_lens@.len()
                &&& self.word_lens@[words[w].len() as int]@.contains(w as usize)
            }
        &&& forall|b: int|
            0 <= b < boxes.len() ==> {
                &&& #[trigger] boxes[b].len < self.box_lens@.len()
                &&& self.box_lens@[boxes[b].len as int]@.contains(b as usize)
            }
        &&& forall|g: int| 0 <= g < self.word_lens@.len() ==> (#[trigger] self.word_lens@[g]@).no_duplicates()
        &&& forall|g: int| 0 <= g < self.box_lens@.len() ==> (#[trigger] self.box_lens@[g]@).no_duplicates()
    }

    /// A state fits the solver: one entry per box, and each word placed is a
    /// word of the puzzle as long as its box.
    pub open spec fn state_ok(self, st: StateView) -> bool {
        &&& st.0.len() == self.spec_boxes().len()
        &&& forall|b: int|
            0 <= b < st.0.len() ==> (#[trigger] st.0[b] matches Some(w) ==> {
                &&& w < self.spec_words().len()
                &&& self.spec_words()[w as int].len() == self.spec_boxes()[b].len
            })
    }

    /// The state has an entry for every box, and each word in a box is a word of the puzzle.
    pub open spec fn words_in_range(self, st: StateView) -> bool {
        &&& self.spec_boxes().len() <= st.0.len()
        &&& forall|b: int|
            0 <= b < self.spec_boxes().len() ==> (#[trigger] st.0[b] matches Some(w) ==> w < self.spec_words().len())
    }

    /// Words of group `g` that are still to be placed.
    pub open spec fn remaining_words(self, st: StateView, g: int) -> nat {
        count_free_words(self.spec_word_lens()[g], st.1)
    }

    /// Boxes of group `g` that are still empty.
    pub open spec fn remaining_boxes(self, st: StateView, g: int) -> nat {
        count_free_boxes(self.spec_box_lens()[g], st.0)
    }

    /// Group `g` still has words to place.
    pub open spec fn open_group(self, st: StateView, g: int) -> bool {
        self.remaining_words(st, g) > 0
    }

    /// Group `g` has more words left than empty boxes: the state cannot be completed.
    pub open spec fn overfull(self, st: StateView, g: int) -> bool {
        self.open_group(st, g) && self.remaining_words(st, g) > self.remaining_boxes(st, g)
    }

    /// Some group of the state is overfull.
    pub open spec fn blocked(self, st: StateView) -> bool {
        exists|g: int| 0 <= g < self.groups() && #[trigger] self.overfull(st, g)
    }

    /// The number of ways to fill the empty boxes of group `g` with its remaining words.
    pub open spec fn group_options(self, st: StateView, g: int) -> nat {
        falling(self.remaining_boxes(st, g), self.remaining_words(st, g))
    }

    /// Group `g` is the first open group with the fewest options, below `usize::MAX`.
    pub open spec fn best_at(self, st: StateView, g: int) -> bool {
        &&& 0 <= g < self.groups()
        &&& self.open_group(st, g)
        &&& self.group_options(st, g) < usize::MAX
        &&& forall|h: int|
            0 <= h < self.groups() && #[trigger] self.open_group(st, h) ==> {
                &&& self.group_options(st, g) <= self.group_options(st, h)
                &&& (h < g ==> self.group_options(st, g) < self.group_options(st, h))
            }
    }

    /// The group the search fills next: none when the state is blocked or no
    /// group is left, else the first open group with the fewest options.
    pub open spec fn spec_best_group(self, st: StateView) -> Option<usize> {
        if self.blocked(st) {
            None
        } else if exists|g: int| self.best_at(st, g) {
            Some((choose|g: int| self.best_at(st, g)) as usize)
        } else {
            None
        }
    }


    /// Crossing `c` of a box agrees with putting word `w` in that box: the other
    /// box is empty, or its word has the same byte at the crossing cell.
    pub open spec fn crossing_ok(self, st: StateView, w: usize, c: Crossing) -> bool {
        match st.0[c.id_b as int] {
            None => true,
            Some(o) => self.spec_words()[w as int][c.c_a as int] == self.spec_words()[o as int][c.c_b as int],
        }
    }

    /// Word `w` may go into box `b`: it agrees with every crossing of `b`.
    pub open spec fn spec_valid_move(self, st: StateView, w: usize, b: usize) -> bool {
        forall|k: int|
            0 <= k < self.spec_box_crossings()[b as int].len() ==> self.crossing_ok(
                st,
                w,
                #[trigger] self.spec_box_crossings()[b as int][k],
            )
    }

    /// Checking word `w` for box `b` against the crossings `cs`, from the
    /// first on until one disagrees, reads only inside the words: at each
    /// crossing whose other box holds a word, `w` is as long as `b` and both
    /// crossing cells lie inside their words.
    pub open spec fn reads_from(self, st: StateView, w: usize, b: usize, cs: Seq<Crossing>) -> bool
        decreases cs.len(),
    {
        if cs.len() == 0 {
            true
        } else {
            let c = cs[0];
            match st.0[c.id_b as int] {
                None => self.reads_from(st, w, b, cs.drop_first()),
                Some(o) => {
                    &&& self.spec_words()[w as int].len() == self.spec_boxes()[b as int].len
                    &&& 0 <= c.c_a < self.spec_words()[w as int].len()
                    &&& 0 <= c.c_b < self.spec_words()[o as int].len()
                    &&& (self.crossing_ok(st, w, c) ==> self.reads_from(st, w, b, cs.drop_first()))
                },
            }
        }
    }

    /// Checking whether word `w` may go into box `b` reads only inside the words.
    pub open spec fn move_reads_ok(self, st: StateView, w: usize, b: usize) -> bool {
        self.reads_from(st, w, b, self.spec_box_crossings()[b as int])
    }

    /// Trying word `w` in each empty box of `slots` reads only inside the words.
    pub open spec fn slots_read_ok(self, st: StateView, w: usize, slots: Seq<usize>) -> bool {
        forall|i: int| 0 <= i < slots.len() && st.0[slots[i] as int] is None ==> self.move_reads_ok(st, w, #[trigger] slots[i])
    }

    /// The search from `st`, with `fuel` bounding its depth, reads only
    /// inside the words whenever it makes successors.
    pub open spec fn search_reads_ok(self, st: StateView, fuel: nat) -> bool
        decreases fuel, 0nat,
    {
        if self.complete(st) || fuel == 0 {
            true
        } else {
            self.next_reads_ok(st) && self.search_all_reads_ok(self.spec_next_states(st), (fuel - 1) as nat)
        }
    }

    /// The searches from `kids` read only inside the words.
    pub open spec fn search_all_reads_ok(self, kids: Seq<StateView>, fuel: nat) -> bool
        decreases fuel, kids.len(),
    {
        if kids.len() == 0 {
            true
        } else {
            self.search_reads_ok(kids.last(), fuel) && self.search_all_reads_ok(kids.drop_last(), fuel)
        }
    }

    /// Making the successors of `st` reads only inside the words.
    pub open spec fn next_reads_ok(self, st: StateView) -> bool {
        match self.spec_best_group(st) {
            None => true,
            Some(g) => match first_free_word(self.spec_word_lens()[g as int], st.1) {
                None => true,
                Some(w) => self.slots_read_ok(st, w, self.spec_box_lens()[g as int]),
            },
        }
    }

    /// The states made by putting word `w` into each of the boxes `slots` that
    /// is empty and agrees with it, in the order of `slots`.
    pub open spec fn kids(self, st: StateView, w: usize, slots: Seq<usize>) -> Seq<StateView>
        decreases slots.len(),
    {
        if slots.len() == 0 {
            seq![]
        } else {
            let b = slots.last();
            self.kids(st, w, slots.drop_last()) + if st.0[b as int] is None
                && self.spec_valid_move(st, w, b) {
                seq![child(st, b, w)]
            } else {
                seq![]
            }
        }
    }

    /// The successors of a state: the first word left in the best group, put
    /// into each empty box of that group where it agrees with the crossings.
    pub open spec fn spec_next_states(self, st: StateView) -> Seq<StateView> {
        match self.spec_best_group(st) {
            None => seq![],
            Some(g) => match first_free_word(self.spec_word_lens()[g as int], st.1) {
                None => seq![],
                Some(w) => self.kids(st, w, self.spec_box_lens()[g as int]),
            },
        }
    }

    /// All words are placed.
    pub open spec fn complete(self, st: StateView) -> bool {
        bits_set(st.1, 64) == self.spec_words().len()
    }

    /// The state the search starts from: all boxes empty, no word placed.
    pub open spec fn initial(self) -> StateView {
        (Seq::new(self.spec_boxes().len(), |i: int| None::<u8>), 0u64)
    }

    /// The complete states found by a depth-first search from `st` that
    /// explores the successors of a state last one first; `fuel` bounds the depth.
    pub open spec fn search(self, st: StateView, fuel: nat) -> Seq<StateView>
        decreases fuel, 0nat,
    {
        if self.complete(st) {
            seq![st]
        } else if fuel == 0 {
            seq![]
        } else {
            self.search_all(self.spec_next_states(st), (fuel - 1) as nat)
        }
    }

    /// The searches from `kids`, the last one first.
    pub open spec fn search_all(self, kids: Seq<StateView>, fuel: nat) -> Seq<StateView>
        decreases fuel, kids.len(),
    {
        if kids.len() == 0 {
            seq![]
        } else {
            self.search(kids.last(), fuel) + self.search_all(kids.drop_last(), fuel)
        }
    }

    /// The search from each state of a stack, from its top down, each with
    /// as much depth as it has empty boxes.
    pub open spec fn pending(self, stack: Seq<StateView>) -> Seq<StateView>
        decreases stack.len(),
    {
        if stack.len() == 0 {
            seq![]
        } else {
            self.search(stack.last(), count_none(stack.last().0)) + self.pending(stack.drop_last())
        }
    }

    /// Number of states a search from `st` visits.
    pub open spec fn work(self, st: StateView, fuel: nat) -> nat
        decreases fuel, 0nat,
    {
        if self.complete(st) || fuel == 0 {
            1
        } else {
            1 + self.work_all(self.spec_next_states(st), (fuel - 1) as nat)
        }
    }

    /// Number of states the searches from `kids` visit.
    pub open spec fn work_all(self, kids: Seq<StateView>, fuel: nat) -> nat
        decreases fuel, kids.len(),
    {
        if kids.len() == 0 {
            0
        } else {
            self.work(kids.last(), fuel) + self.work_all(kids.drop_last(), fuel)
        }
    }

    /// Number of states the searches from a stack visit.
    pub open spec fn pending_work(self, stack: Seq<StateView>) -> nat
        decreases stack.len(),
    {
        if stack.len() == 0 {
            0
        } else {
            self.work(stack.last(), count_none(stack.last().0)) + self.pending_work(stack.drop_last())
        }
    }

    /// Every group has no more words than boxes, and the ways to fill it fit in `usize`.
    pub open spec fn groups_fit(self) -> bool {
        forall|g: int|
            0 <= g < self.groups() ==> {
                &&& #[trigger] self.spec_word_lens()[g].len() <= self.spec_box_lens()[g].len()
                &&& falling(self.spec_box_lens()[g].len(), self.spec_word_lens()[g].len()) <= usize::MAX
            }
    }

    /// Every crossing of a filled box agrees with the word in the other box.
    pub open spec fn consistent(self, st: StateView) -> bool {
        forall|b: int, k: int|
            0 <= b < st.0.len() && 0 <= k < self.spec_box_crossings()[b].len() && st.0[b] is Some
                ==> self.crossing_ok(st, (st.0[b]->0) as usize, #[trigger] self.spec_box_crossings()[b][k])
    }

    /// No word stands in two boxes.
    pub open spec fn words_distinct(self, st: StateView) -> bool {
        forall|b1: int, b2: int|
            0 <= b1 < st.0.len() && 0 <= b2 < st.0.len() && b1 != b2 && #[trigger] st.0[b1] is Some
                ==> st.0[b1] != #[trigger] st.0[b2]
    }

    /// Word `w` stands in some box.
    pub open spec fn word_in_box(self, st: StateView, w: usize) -> bool {
        exists|b: int| 0 <= b < st.0.len() && #[trigger] st.0[b] == Some(w as u8)
    }

    /// The mask marks exactly the words that stand in a box.
    pub open spec fn mask_matches(self, st: StateView) -> bool {
        forall|w: usize| w < 64 ==> (!#[trigger] is_free(st.1, w) <==> self.word_in_box(st, w))
    }

    /// Each word stands in exactly one box as long as the word; the crossings
    /// are not looked at.
    pub open spec fn full_placement(self, st: StateView) -> bool {
        &&& self.state_ok(st)
        &&& self.words_distinct(st)
        &&& forall|w: usize| w < self.spec_words().len() ==> #[trigger] self.word_in_box(st, w)
    }

    /// A solution of the puzzle: each word stands in exactly one box as long as
    /// the word, and the letters of every two crossing cells are the same.
    pub open spec fn is_solution(self, st: StateView) -> bool {
        &&& self.state_ok(st)
        &&& self.consistent(st)
        &&& self.words_distinct(st)
        &&& forall|w: usize| w < self.spec_words().len() ==> #[trigger] self.word_in_box(st, w)
    }

    /// Every crossing of a box with itself names the same cell twice.
    pub open spec fn self_crossings_aligned(self) -> bool {
        forall|b: int, k: int|
            0 <= b < self.spec_box_crossings().len() && 0 <= k < self.spec_box_crossings()[b].len()
                && (#[trigger] self.spec_box_crossings()[b][k]).id_b == b ==> self.spec_box_crossings()[b][k].c_a
                == self.spec_box_crossings()[b][k].c_b
    }

    /// `nx` is `st` with one free word put into an empty box of its length
    /// where it agrees with the crossings.
    pub open spec fn step(self, st: StateView, nx: StateView) -> bool {
        exists|b: usize, w: usize|
            #![trigger child(st, b, w)]
            b < st.0.len() && st.0[b as int] is None && w < self.spec_words().len() && is_free(st.1, w)
                && self.spec_words()[w as int].len() == self.spec_boxes()[b as int].len
                && self.spec_valid_move(st, w, b) && nx == child(st, b, w)
    }

    /// The invariant of the states the search visits.
    pub open spec fn reachable_ok(self, st: StateView) -> bool {
        &&& self.state_ok(st)
        &&& self.consistent(st)
        &&& self.words_distinct(st)
        &&& self.mask_matches(st)
    }

    /// Counting the options of the groups up to the first overfull one stays
    /// within `usize`.
    pub open spec fn options_fit(self, st: StateView) -> bool {
        forall|g: int|
            0 <= g < self.groups() && #[trigger] self.open_group(st, g) && !self.overfull(st, g)
                && (forall|h: int| 0 <= h < g ==> !#[trigger] self.overfull(st, h)) ==> self.group_options(
                st,
                g,
            ) <= usize::MAX
    }
}

impl Solver {
    /// Builds a solver: the words are ordered by their length in bytes (words
    /// of equal length keep their order), and the words and boxes are grouped
    /// by length, and the crossings by box.
    pub fn new(instance: Instance) -> (r: Self)
        requires
            instance_ok(instance),
        ensures
            ({
                let max_len = max_box_len(instance.boxes@) + 1;
                &&& r.spec_instance().boxes@ == instance.boxes@
                &&& r.spec_instance().crossings@ == instance.crossings@
                &&& r.spec_instance().solution_cells@ == instance.solution_cells@
                &&& r.spec_instance().words@ == sort_by_len(instance.words@, max_len)
                &&& r.spec_instance().words@.to_multiset() == instance.words@.to_multiset()
                &&& forall|i: int, j: int|
                    0 <= i < j < r.spec_instance().words@.len() ==> byte_len(#[trigger] r.spec_instance().words@[i])
                        <= byte_len(#[trigger] r.spec_instance().words@[j])
                &&& r.spec_word_lens() == Seq::new(max_len, |l: int| word_indices(r.spec_words(), l as nat))
                &&& r.spec_box_lens() == Seq::new(max_len, |l: int| box_indices(instance.boxes@, l as nat))
                &&& r.spec_box_crossings() == Seq::new(
                    instance.boxes@.len(),
                    |b: int| crossings_of(instance.crossings@, b as usize),
                )
            }),
            r.checks_every_crossing(),
    {
        let Instance { boxes, crossings, words, solution_cells } = instance;
        let ghost max_len = max_box_len(boxes@) + 1;
        let mut longest: usize = 0;
        let mut i: usize = 0;
        while i < boxes.len()
            invariant
                i <= boxes@.len(),
                longest == max_box_len(boxes@.take(i as int)),
                forall|j: int| 0 <= j < boxes@.len() ==> #[trigger] boxes@[j].len < usize::MAX,
            decreases boxes@.len() - i,
        {
            assert(boxes@.take(i + 1).drop_last() == boxes@.take(i as int));
            if boxes[i].len > longest {
                longest = boxes[i].len;
            }
            i = i + 1;
        }
        assert(boxes@.take(boxes@.len() as int) == boxes@);
        proof {
            lemma_max_box_len(boxes@);
        }
        let max_len = longest + 1;
        // words ordered by length
        let mut sorted: Vec<String> = Vec::new();
        let mut l: usize = 0;
        while l < max_len
            invariant
                l <= max_len,
                max_len == max_box_len(boxes@) + 1,
                sorted@ == sort_by_len(words@, l as nat),
            decreases max_len - l,
        {
            let mut k: usize = 0;
            while k < words.len()
                invariant
                    l < max_len,
                    k <= words@.len(),
                    sorted@ == sort_by_len(words@, l as nat) + with_len(words@.take(k as int), l as nat),
                decreases words@.len() - k,
            {
                assert(words@.take(k + 1).drop_last() == words@.take(k as int));
                let bytes = words[k].as_str().as_bytes();
                assert(bytes@ == vstd::utf8::encode_utf8(words@[k as int]@));
                if bytes.len() == l {
                    let w = words[k].clone();
                    assert(w == words@[k as int]);
                    let ghost before = sorted@;
                    sorted.push(w);
                    assert(with_len(words@.take(k + 1), l as nat) == with_len(words@.take(k as int), l as nat).push(w));
                    assert(sorted@ == before.push(w));
                } else {
                    assert(with_len(words@.take(k + 1), l as nat) == with_len(words@.take(k as int), l as nat));
                }
                k = k + 1;
            }
            assert(words@.take(words@.len() as int) == words@);
            l = l + 1;
        }
        let ghost sorted_bytes = sorted@.map_values(|s: String| vstd::utf8::encode_utf8(s@));
        proof {
            lemma_sort_by_len_bound(words@, max_len as nat);
            lemma_sort_by_len(words@, max_len as nat);
        }
        // words and boxes grouped by length
        let mut word_lens: Vec<Vec<usize>> = Vec::new();
        let mut box_lens: Vec<Vec<usize>> = Vec::new();
        let mut l: usize = 0;
        while l < max_len
            invariant
                l <= max_len,
                word_lens@.len() == l,
                box_lens@.len() == l,
                forall|j: int| 0 <= j < l ==> #[trigger] word_lens@[j]@ == Seq::<usize>::empty(),
                forall|j: int| 0 <= j < l ==> #[trigger] box_lens@[j]@ == Seq::<usize>::empty(),
            decreases max_len - l,
        {
            word_lens.push(Vec::new());
            box_lens.push(Vec::new());
            l = l + 1;
        }
        let mut i: usize = 0;
        while i < sorted.len()
            invariant
                i <= sorted@.len(),
                sorted_bytes == sorted@.map_values(|s: String| vstd::utf8::encode_utf8(s@)),
                word_lens@.len() == max_len,
                max_len == max_box_len(boxes@) + 1,
                forall|j: int| 0 <= j < sorted@.len() ==> byte_len(#[trigger] sorted@[j]) < max_len,
                forall|j: int| 0 <= j < max_len ==> #[trigger] word_lens@[j]@ == word_indices(sorted_bytes.take(i as int), j as nat),
            decreases sorted@.len() - i,
        {
            assert(sorted_bytes.take(i + 1).drop_last() == sorted_bytes.take(i as int));
            let len = sorted[i].as_str().as_bytes().len();
            assert(len == byte_len(sorted@[i as int]));
            word_lens[len].push(i);
            i = i + 1;
        }
        assert(sorted_bytes.take(sorted@.len() as int) == sorted_bytes);
        let mut i: usize = 0;
        while i < boxes.len()
            invariant
                i <= boxes@.len(),
                box_lens@.len() == max_len,
                max_len == max_box_len(boxes@) + 1,
                forall|j: int| 0 <= j < boxes@.len() ==> (#[trigger] boxes@[j]).len < max_len,
                forall|j: int| 0 <= j < max_len ==> #[trigger] box_lens@[j]@ == box_indices(boxes@.take(i as int), j as nat),
            decreases boxes@.len() - i,
        {
            assert(boxes@.take(i + 1).drop_last() == boxes@.take(i as int));
            let len = boxes[i].len;
            box_lens[len].push(i);
            i = i + 1;
        }
        assert(boxes@.take(boxes@.len() as int) == boxes@);
        // crossings grouped by box
        let mut box_crossings: Vec<Vec<Crossing>> = Vec::new();
        let mut b: usize = 0;
        while b < boxes.len()
            invariant
                b <= boxes@.len(),
                box_crossings@.len() == b,
                forall|j: int| 0 <= j < b ==> #[trigger] box_crossings@[j]@ == Seq::<Crossing>::empty(),
            decreases boxes@.len() - b,
        {
            box_crossings.push(Vec::new());
            b = b + 1;
        }
        let nb = boxes.len();
        let mut k: usize = 0;
        while k < crossings.len()
            invariant
                nb == boxes@.len(),
                k <= crossings@.len(),
                box_crossings@.len() == boxes@.len(),
                forall|j: int| 0 <= j < crossings@.len() ==> {
                    &&& (#[trigger] crossings@[j]).id_a < boxes@.len()
                    &&& crossings@[j].id_b < boxes@.len()
                },
                forall|j: int| 0 <= j < boxes@.len() ==> #[trigger] box_crossings@[j]@ == crossings_of(crossings@.take(k as int), j as usize),
            decreases crossings@.len() - k,
        {
            assert(crossings@.take(k + 1).drop_last() == crossings@.take(k as int));
            let c = crossings[k];
            let ghost bc0 = box_crossings@;
            box_crossings[c.id_a].push(c);
            let ghost bc1 = box_crossings@;
            let rc = c.reverse();
            box_crossings[c.id_b].push(rc);
            assert forall|j: int| 0 <= j < boxes@.len() implies #[trigger] box_crossings@[j]@ == crossings_of(crossings@.take(k + 1), j as usize) by {
                let cs = crossings@.take(k + 1);
                assert(j as usize == j);
                assert(cs.last() == c);
                assert(cs.drop_last() == crossings@.take(k as int));
                let prev = crossings_of(crossings@.take(k as int), j as usize);
                assert(bc0[j]@ == prev);
                let a: Seq<Crossing> = if c.id_a == j as usize { seq![c] } else { seq![] };
                let r: Seq<Crossing> = if c.id_b == j as usize { seq![c.spec_reverse()] } else { seq![] };
                assert(crossings_of(cs, j as usize) == prev + a + r);
                if j == c.id_a {
                    assert(bc1[j]@ == bc0[j]@.push(c));
                    assert(bc1[j]@ =~= prev + a);
                } else {
                    assert(bc1[j]@ == bc0[j]@);
                    assert(bc1[j]@ =~= prev + a);
                }
                if j == c.id_b {
                    assert(box_crossings@[j]@ == bc1[j]@.push(rc));
                    assert(box_crossings@[j]@ =~= prev + a + r);
                } else {
                    assert(box_crossings@[j]@ == bc1[j]@);
                    assert(box_crossings@[j]@ =~= prev + a + r);
                }
            }
            k = k + 1;
        }
        assert(crossings@.take(crossings@.len() as int) == crossings@);
        proof {
            assert forall|g: int, k: int|
                0 <= g < word_lens@.len() && 0 <= k < word_lens@[g]@.len() implies {
                    let w = #[trigger] word_lens@[g]@[k];
                    w < sorted_bytes.len() && sorted_bytes[w as int].len() == g
                } by {
                lemma_word_indices(sorted_bytes, g as nat);
                assert(word_lens@[g]@ == word_indices(sorted_bytes, g as nat));
            }
            assert forall|g: int, k: int|
                0 <= g < box_lens@.len() && 0 <= k < box_lens@[g]@.len() implies {
                    let b = #[trigger] box_lens@[g]@[k];
                    b < boxes@.len() && boxes@[b as int].len == g
                } by {
                lemma_box_indices(boxes@, g as nat);
                assert(box_lens@[g]@ == box_indices(boxes@, g as nat));
            }
            assert forall|w: int|
                0 <= w < sorted_bytes.len() implies {
                    &&& #[trigger] sorted_bytes[w].len() < word_lens@.len()
                    &&& word_lens@[sorted_bytes[w].len() as int]@.contains(w as usize)
                } by {
                assert(byte_len(sorted@[w]) < max_len);
                lemma_word_indices_complete(sorted_bytes, sorted_bytes[w].len(), w);
                assert(word_lens@[sorted_bytes[w].len() as int]@ == word_indices(sorted_bytes, sorted_bytes[w].len()));
            }
            assert forall|b: int|
                0 <= b < boxes@.len() implies {
                    &&& #[trigger] boxes@[b].len < box_lens@.len()
                    &&& box_lens@[boxes@[b].len as int]@.contains(b as usize)
                } by {
                lemma_max_box_len(boxes@);
                lemma_box_indices_complete(boxes@, boxes@[b].len as nat, b);
                assert(box_lens@[boxes@[b].len as int]@ == box_indices(boxes@, boxes@[b].len as nat));
            }
            assert forall|g: int| 0 <= g < word_lens@.len() implies (#[trigger] word_lens@[g]@).no_duplicates() by {
                lemma_word_indices_increasing(sorted_bytes, g as nat);
                assert(word_lens@[g]@ == word_indices(sorted_bytes, g as nat));
            }
            assert forall|g: int| 0 <= g < box_lens@.len() implies (#[trigger] box_lens@[g]@).no_duplicates() by {
                lemma_box_indices_increasing(boxes@, g as nat);
                assert(box_lens@[g]@ == box_indices(boxes@, g as nat));
            }
            assert forall|b: int, k: int|
                0 <= b < box_crossings@.len() && 0 <= k < box_crossings@[b]@.len() implies {
                    let c = #[trigger] box_crossings@[b]@[k];
                    &&& c.id_a == b
                    &&& c.id_b < boxes@.len()
                    &&& box_crossings@[c.id_b as int]@.contains(c.spec_reverse())
                } by {
                lemma_crossings_of(crossings@, b as usize, boxes@.len());
                lemma_crossings_of_symmetric(crossings@, b as usize);
                assert(box_crossings@[b]@ == crossings_of(crossings@, b as usize));
                let c = box_crossings@[b]@[k];
                assert(box_crossings@[c.id_b as int]@ == crossings_of(crossings@, c.id_b));
            }
        }
        let r = Solver {
            instance: Instance { boxes, crossings, words: sorted, solution_cells },
            word_lens,
            box_lens,
            box_crossings,
        };
        proof {
            assert(r.spec_box_crossings() == Seq::new(
                r.spec_boxes().len(),
                |b: int| crossings_of(r.spec_instance().crossings@, b as usize),
            ));
            lemma_checks_every_crossing(r.spec_instance().crossings@, r.spec_box_crossings(), r.spec_boxes().len());
        }
        r
    }

    /// The placement that all `solutions` agree on: each box keeps the word of
    /// the first solution when every solution has that word there, and is
    /// empty otherwise.
    pub fn consensus(&self, solutions: &[State]) -> (r: State)
        requires
            solutions@.len() > 0,
            forall|s: int| 0 <= s < solutions@.len() ==> (#[trigger] solutions@[s])@.0.len() >= solutions@[0]@.0.len(),
        ensures
            r@.1 == solutions@[0]@.1,
            r@.0 == spec_consensus(views(solutions@)),
            self.state_ok(solutions@[0]@) ==> self.state_ok(r@),
    {
        let ghost sv = views(solutions@);
        let first = &solutions[0];
        let mut assignments: Vec<Option<u8>> = Vec::new();
        let mut i: usize = 0;
        while i < first.assignments.len()
            invariant
                sv == views(solutions@),
                first == &solutions@[0],
                solutions@.len() > 0,
                forall|s: int| 0 <= s < solutions@.len() ==> (#[trigger] solutions@[s])@.0.len() >= solutions@[0]@.0.len(),
                i <= first.assignments@.len(),
                assignments@ == spec_consensus(sv).take(i as int),
            decreases first.assignments@.len() - i,
        {
            let block = first.assignments[i];
            let mut agree = true;
            let mut s: usize = 0;
            while s < solutions.len()
                invariant
                    sv == views(solutions@),
                    first == &solutions@[0],
                    i < first.assignments@.len(),
                    block == sv[0].0[i as int],
                    forall|t: int| 0 <= t < solutions@.len() ==> (#[trigger] solutions@[t])@.0.len() >= solutions@[0]@.0.len(),
                    s <= solutions@.len(),
                    agree == forall|t: int| 0 <= t < s ==> #[trigger] sv[t].0[i as int] == block,
                decreases solutions@.len() - s,
            {
                assert(sv[s as int] == solutions@[s as int]@);
                assert(solutions@[s as int]@.0.len() >= solutions@[0]@.0.len());
                if solutions[s].assignments[i] != block {
                    agree = false;
                }
                s = s + 1;
            }
            if agree {
                assignments.push(block);
            } else {
                assignments.push(None);
            }
            assert(spec_consensus(sv).take(i + 1) == spec_consensus(sv).take(i as int).push(spec_consensus(sv)[i as int]));
            i = i + 1;
        }
        assert(spec_consensus(sv).take(i as int) == spec_consensus(sv));
        let r = State { assignments, placed_words: first.placed_words };
        proof {
            if self.state_ok(solutions@[0]@) {
                assert(sv[0] == solutions@[0]@);
                assert forall|b: int| 0 <= b < r@.0.len() implies (#[trigger] r@.0[b] matches Some(w) ==> {
                    &&& w < self.spec_words().len()
                    &&& self.spec_words()[w as int].len() == self.spec_boxes()[b].len
                }) by {
                    assert(r@.0[b] is None || r@.0[b] == sv[0].0[b]);
                }
            }
        }
        r
    }

    /// The squares to draw for a state: for each box, in order, one square
    /// per cell from its first cell on, with the upper-cased letter of the
    /// box's word at that cell, or a blank.
    pub fn format_state(&self, state: &State) -> (r: Vec<Square>)
        requires
            self.words_in_range(state@),
            positions_fit(self.spec_boxes()),
        ensures
            r@.map_values(|q: Square| q@) == state_squares(
                self.spec_instance().words@,
                state@.0,
                self.spec_boxes(),
                self.spec_boxes().len(),
            ),
    {
        let boxes = &self.instance.boxes;
        let words = &self.instance.words;
        let ghost a = state@.0;
        let mut out: Vec<Square> = Vec::new();
        let mut bi: usize = 0;
        while bi < boxes.len()
            invariant
                boxes == &self.instance.boxes,
                words == &self.instance.words,
                a == state@.0,
                self.words_in_range(state@),
                positions_fit(boxes@),
                bi <= boxes@.len(),
                out@.map_values(|q: Square| q@) == state_squares(words@, a, boxes@, bi as nat),
            decreases boxes@.len() - bi,
        {
            let b = boxes[bi];
            let ghost prev = out@.map_values(|q: Square| q@);
            let mut i: usize = 0;
            while i < b.len
                invariant
                    boxes == &self.instance.boxes,
                    words == &self.instance.words,
                    a == state@.0,
                    self.words_in_range(state@),
                    positions_fit(boxes@),
                    bi < boxes@.len(),
                    b == boxes@[bi as int],
                    i <= b.len,
                    out@.map_values(|q: Square| q@) == prev + Seq::new(i as nat, |k: int| cell_square(words@, a, boxes@, bi as int, k)),
                decreases b.len - i,
            {
                let c = match state.assignments[bi] {
                    None => ' ',
                    Some(w) => {
                        let word = words[w as usize].as_str();
                        if i < word.unicode_len() {
                            word.get_char(i)
                        } else {
                            ' '
                        }
                    },
                };
                assert(c == cell_char(words@, a, bi as int, i as int));
                let d = #[verifier::truncate] (i as i32);
                assert(cell_position(b, i as int) == cell_position(boxes@[bi as int], i as int));
                let (x, y) = match b.dir {
                    Direction::Left => (b.x - d, b.y),
                    Direction::Right => (b.x + d, b.y),
                    Direction::Up => (b.x, b.y - d),
                    Direction::Down => (b.x, b.y + d),
                };
                let mut text: Vec<char> = Vec::new();
                text.push(ascii_upper(c));
                let sq = Square {
                    x,
                    y,
                    char: string_from_chars(&text),
                    dir: if d == 0 { Some(b.dir) } else { None },
                    len: if d == 0 { Some(b.len) } else { None },
                };
                assert(sq@ == cell_square(words@, a, boxes@, bi as int, i as int));
                let ghost before = out@;
                out.push(sq);
                assert(out@.map_values(|q: Square| q@) == before.map_values(|q: Square| q@).push(sq@));
                assert(Seq::new((i + 1) as nat, |k: int| cell_square(words@, a, boxes@, bi as int, k)) == Seq::new(i as nat, |k: int| cell_square(words@, a, boxes@, bi as int, k)).push(sq@));
                i = i + 1;
            }
            i = 0;
            bi = bi + 1;
        }
        out
    }

    /// The length group to fill next: `None` when some group has more words
    /// left than empty boxes, or when no group has words left; otherwise the
    /// first group with the fewest ways to fill its empty boxes.  A state of
    /// the search that still has words to place and gets `None` cannot be
    /// completed to a solution.
    pub fn best_group(&self, state: &State) -> (r: Option<usize>)
        requires
            self.spec_boxes().len() <= state@.0.len(),
            self.spec_words().len() <= 64,
            self.options_fit(state@),
        ensures
            r == self.spec_best_group(state@),
            r is None && self.groups_countable() && self.tracked_ok(state@) && !self.complete(state@)
                ==> self.cannot_complete(state@),
    {
        proof {
            use_type_invariant(self);
            self.lemma_no_best_group(state@);
        }
        let ghost st = state@;
        let mut min_i: Option<usize> = None;
        let mut min_perms: usize = usize::MAX;
        let n = self.word_lens.len();
        let mut i: usize = 0;
        while i < n
            invariant
                self.inv(),
                st == state@,
                self.spec_boxes().len() <= st.0.len(),
                self.spec_words().len() <= 64,
                self.options_fit(st),
                (self.groups_countable() && self.tracked_ok(st) && !self.complete(st) && self.spec_best_group(st) is None)
                    ==> self.cannot_complete(st),
                n == self.groups(),
                n == self.word_lens@.len(),
                i <= n,
                forall|h: int| 0 <= h < i ==> !#[trigger] self.overfull(st, h),
                forall|h: int|
                    0 <= h < i && #[trigger] self.open_group(st, h) ==> self.group_options(st, h)
                        >= min_perms,
                min_i matches Some(m) ==> {
                    &&& m < i
                    &&& self.open_group(st, m as int)
                    &&& self.group_options(st, m as int) == min_perms
                    &&& min_perms < usize::MAX
                    &&& forall|h: int|
                        0 <= h < m && #[trigger] self.open_group(st, h) ==> self.group_options(st, h)
                            > min_perms
                },
                min_i is None ==> min_perms == usize::MAX,
            decreases n - i,
        {
            assert(self.spec_word_lens()[i as int] == self.word_lens@[i as int]@);
            assert(self.spec_box_lens()[i as int] == self.box_lens@[i as int]@);
            assert forall|k: int| 0 <= k < self.word_lens@[i as int]@.len() implies #[trigger] self.word_lens@[i as int]@[k] < 64 by {
                assert(self.word_lens@[i as int]@[k] < self.spec_words().len());
            }
            assert forall|k: int| 0 <= k < self.box_lens@[i as int]@.len() implies #[trigger] self.box_lens@[i as int]@[k] < state.assignments@.len() by {
                assert(self.box_lens@[i as int]@[k] < self.spec_boxes().len());
            }
            let remaining_words = count_remaining_words(&self.word_lens[i], state.placed_words);
            let remaining_boxes = count_remaining_boxes(&self.box_lens[i], &state.assignments);
            if remaining_words == 0 {
                i = i + 1;
                continue;
            }
            if remaining_words > remaining_boxes {
                assert(self.overfull(st, i as int));
                return None;
            }
            assert(remaining_words == self.remaining_words(st, i as int));
            assert(remaining_boxes == self.remaining_boxes(st, i as int));
            assert(self.open_group(st, i as int));
            assert(!self.overfull(st, i as int));
            assert(forall|h: int| 0 <= h < i ==> !#[trigger] self.overfull(st, h));
            assert(self.group_options(st, i as int) <= usize::MAX);
            let ops = options(remaining_boxes, remaining_words);
            if ops < min_perms {
                min_perms = ops;
                min_i = Some(i);
            }
            i = i + 1;
        }
        assert(!self.blocked(st));
        match min_i {
            Some(m) => {
                assert(self.best_at(st, m as int));
                let ghost g = choose|g: int| self.best_at(st, g);
                assert(g == m) by {
                    if g < m {
                        assert(self.open_group(st, g));
                    } else if g > m {
                        assert(self.open_group(st, m as int));
                    }
                }
            },
            None => {
                assert forall|g: int| !self.best_at(st, g) by {
                    if 0 <= g < self.groups() && self.open_group(st, g) {
                        assert(self.group_options(st, g) >= usize::MAX);
                    }
                }
            },
        }
        min_i
    }

    /// Word `new_word` agrees with every crossing of box `new_box`.
    fn valid_move(&self, state: &State, new_word: usize, new_box: usize) -> (r: bool)
        requires
            self.words_in_range(state@),
            new_box < self.spec_boxes().len(),
            new_word < self.spec_words().len(),
            self.move_reads_ok(state@, new_word, new_box),
        ensures
            r == self.spec_valid_move(state@, new_word, new_box),
    {
        proof {
            use_type_invariant(self);
        }
        let crossings = &self.box_crossings[new_box];
        assert(self.spec_box_crossings()[new_box as int] == crossings@);
        assert(crossings@.subrange(0, crossings@.len() as int) == crossings@);
        let mut k: usize = 0;
        while k < crossings.len()
            invariant
                self.inv(),
                self.words_in_range(state@),
                new_box < self.spec_boxes().len(),
                new_word < self.spec_words().len(),
                crossings == &self.box_crossings@[new_box as int],
                self.spec_box_crossings()[new_box as int] == crossings@,
                k <= crossings@.len(),
                self.reads_from(state@, new_word, new_box, crossings@.subrange(k as int, crossings@.len() as int)),
                forall|j: int| 0 <= j < k ==> self.crossing_ok(state@, new_word, #[trigger] crossings@[j]),
            decreases crossings@.len() - k,
        {
            let c = crossings[k];
            assert(c == self.box_crossings@[new_box as int]@[k as int]);
            assert(c == self.spec_box_crossings()[new_box as int][k as int]);
            let ghost rest = crossings@.subrange(k as int, crossings@.len() as int);
            assert(rest[0] == c);
            assert(rest.drop_first() == crossings@.subrange(k + 1, crossings@.len() as int));
            match state.assignments[c.id_b] {
                None => {},
                Some(other_word) => {
                    let ow = other_word as usize;
                    assert(state@.0[c.id_b as int] == Some(other_word));
                    let a = self.instance.words[new_word].as_str().as_bytes();
                    let o = self.instance.words[ow].as_str().as_bytes();
                    assert(a@ == self.spec_words()[new_word as int]);
                    assert(o@ == self.spec_words()[ow as int]);
                    if a[c.c_a as usize] != o[c.c_b as usize] {
                        assert(!self.crossing_ok(state@, new_word, crossings@[k as int]));
                        return false;
                    }
                },
            }
            k = k + 1;
        }
        true
    }

    /// Puts `word` into each empty box of group `group` where it agrees with
    /// the crossings, and pushes the resulting states onto `queue`.
    fn place_word(&self, state: &State, group: usize, word: usize, queue: &mut Vec<State>)
        requires
            self.words_in_range(state@),
            self.slots_read_ok(state@, word, self.spec_box_lens()[group as int]),
            group < self.groups(),
            word < self.spec_words().len(),
            self.spec_words().len() <= 64,
            self.spec_words()[word as int].len() == group,
        ensures
            views(final(queue)@) == views(old(queue)@) + self.kids(
                state@,
                word,
                self.spec_box_lens()[group as int],
            ),
    {
        proof {
            use_type_invariant(self);
        }
        let slots = &self.box_lens[group];
        assert(self.spec_box_lens()[group as int] == slots@);
        let ghost q0 = views(queue@);
        let mut i: usize = 0;
        while i < slots.len()
            invariant
                self.inv(),
                self.words_in_range(state@),
                self.slots_read_ok(state@, word, slots@),
                group < self.groups(),
                word < self.spec_words().len(),
                self.spec_words().len() <= 64,
                self.spec_words()[word as int].len() == group,
                slots == &self.box_lens@[group as int],
                i <= slots@.len(),
                views(queue@) == q0 + self.kids(state@, word, slots@.take(i as int)),
            decreases slots@.len() - i,
        {
            assert(slots@.take(i + 1).drop_last() == slots@.take(i as int));
            let slot = slots[i];
            assert(slot == self.box_lens@[group as int]@[i as int]);
            assert(slot == slots@[i as int]);
            if state.assignments[slot].is_none() && self.valid_move(state, word, slot) {
                let mut assignments = copy_assignments(&state.assignments);
                assignments.set(slot, Some(word as u8));
                let new_state = State { assignments, placed_words: state.placed_words | (1u64 << word) };
                assert(new_state@ == child(state@, slot, word));
                let ghost before = queue@;
                queue.push(new_state);
                assert(views(queue@) == views(before).push(new_state@));
            }
            i = i + 1;
        }
        assert(slots@.take(slots@.len() as int) == slots@);
    }

    /// All complete placements found by a depth-first search from the empty
    /// state, in the order the search meets them, each one once.
    pub fn solve(&self) -> (r: Vec<State>)
        requires
            self.search_reads_ok(self.initial(), self.spec_boxes().len() as nat),
            self.spec_words().len() <= 64,
            self.options_fit(self.initial()),
        ensures
            views(r@) == self.search(self.initial(), self.spec_boxes().len() as nat),
            forall|j: int| 0 <= j < r@.len() ==> self.state_ok(#[trigger] r@[j]@),
            forall|j: int| 0 <= j < r@.len() ==> {
                &&& self.full_placement(#[trigger] r@[j]@)
                &&& self.mask_matches(r@[j]@)
            },
            self.self_crossings_aligned() ==> forall|j: int| 0 <= j < r@.len() ==> self.is_solution(#[trigger] r@[j]@),
            self.groups_countable() ==> forall|sol: StateView|
                #[trigger] self.is_solution(sol) ==> exists|j: int| 0 <= j < r@.len() && r@[j]@.0 == sol.0,
            forall|i: int, j: int|
                0 <= i < r@.len() && 0 <= j < r@.len() && i != j ==> (#[trigger] r@[i]@).0 != (#[trigger] r@[j]@).0,
    {
        proof {
            use_type_invariant(self);
        }
        let found = self.search_checked();
        let v = found.unwrap();
        proof {
            self.lemma_results(v@);
        }
        v
    }

    /// What the search from the empty state reports: placements of every
    /// word, solutions where boxes cross themselves only at one cell, every
    /// solution when the ways to fill the groups are countable, none twice.
    proof fn lemma_results(self, v: Seq<State>)
        requires
            self.inv(),
            self.spec_words().len() <= 64,
            views(v) == self.search(self.initial(), self.spec_boxes().len() as nat),
        ensures
            forall|j: int| 0 <= j < v.len() ==> self.state_ok(#[trigger] v[j]@),
            forall|j: int| 0 <= j < v.len() ==> {
                &&& self.full_placement(#[trigger] v[j]@)
                &&& self.mask_matches(v[j]@)
            },
            self.self_crossings_aligned() ==> forall|j: int| 0 <= j < v.len() ==> self.is_solution(#[trigger] v[j]@),
            self.groups_countable() ==> forall|sol: StateView|
                #[trigger] self.is_solution(sol) ==> exists|j: int| 0 <= j < v.len() && v[j]@.0 == sol.0,
            forall|i: int, j: int|
                0 <= i < v.len() && 0 <= j < v.len() && i != j ==> (#[trigger] v[i]@).0 != (#[trigger] v[j]@).0,
    {
        let init_v = self.initial();
        let n = self.spec_boxes().len();
        self.lemma_initial_tracked();
        if self.groups_countable() {
            assert forall|sol: StateView| #[trigger] self.is_solution(sol) implies exists|j: int|
                0 <= j < v.len() && v[j]@.0 == sol.0 by {
                self.lemma_search_finds(init_v, n as nat, sol);
                let f = choose|f: StateView| #[trigger] self.search(init_v, n as nat).contains(f) && f.0 == sol.0;
                let j = choose|j: int| 0 <= j < views(v).len() && views(v)[j] == f;
                assert(v[j]@ == f);
            }
        }
        self.lemma_search_distinct(init_v, n as nat);
        self.lemma_search_agrees(init_v, n as nat);
        self.lemma_search_complete(init_v, n as nat);
        assert forall|j: int| 0 <= j < v.len() implies {
            &&& self.state_ok(#[trigger] v[j]@)
            &&& self.full_placement(v[j]@)
            &&& self.mask_matches(v[j]@)
        } by {
            assert(views(v)[j] == v[j]@);
            self.lemma_complete_places_all(v[j]@);
        }
        assert forall|i: int, j: int|
            0 <= i < v.len() && 0 <= j < v.len() && i != j implies (#[trigger] v[i]@).0 != (#[trigger] v[j]@).0 by {
            assert(views(v)[i] == v[i]@);
            assert(views(v)[j] == v[j]@);
        }
        if self.self_crossings_aligned() {
            assert forall|j: int| 0 <= j < v.len() implies self.is_solution(#[trigger] v[j]@) by {
                assert(views(v)[j] == v[j]@);
                assert(self.search(init_v, n as nat).contains(v[j]@));
                self.lemma_solutions_are_solutions(v[j]@);
            }
        }
    }

    /// Every state of `q` has a search, as deep as its empty boxes, that
    /// reads only inside the words.
    pub open spec fn all_reads_ok(self, q: Seq<StateView>) -> bool {
        forall|j: int| 0 <= j < q.len() ==> self.search_reads_ok(#[trigger] q[j], count_none(q[j].0))
    }

    /// The depth-first search from the empty state, stopping with `None` when
    /// it would read outside a word.
    #[verifier::rlimit(60)]
    fn search_checked(&self) -> (r: Option<Vec<State>>)
        requires
            self.spec_words().len() <= 64,
            self.options_fit(self.initial()),
        ensures
            r is Some <==> self.search_reads_ok(self.initial(), self.spec_boxes().len() as nat),
            r matches Some(v) ==> views(v@) == self.search(self.initial(), self.spec_boxes().len() as nat),
    {
        proof {
            use_type_invariant(self);
        }
        let n = self.instance.boxes.len();
        let init = self.initial_state();
        let ghost init_v = self.initial();
        assert(init@ == init_v);
        proof {
            lemma_count_none_all(init_v.0);
            if !self.blocked(init_v) {
                self.lemma_groups_fit(init_v);
            }
        }
        let mut queue: Vec<State> = Vec::new();
        queue.push(init);
        let mut solutions: Vec<State> = Vec::new();
        proof {
            assert(views(queue@) == seq![init_v]);
            assert(views(queue@).drop_last() == Seq::<StateView>::empty());
            assert(views(solutions@) == Seq::<StateView>::empty());
            assert(self.pending(views(queue@)) == self.search(init_v, count_none(init_v.0)) + self.pending(Seq::<StateView>::empty()));
            assert(views(queue@)[0] == init_v);
        }
        while queue.len() > 0
            invariant
                self.inv(),
                self.spec_words().len() <= 64,
                n == self.spec_boxes().len(),
                init_v == self.initial(),
                views(solutions@) + self.pending(views(queue@)) == self.search(init_v, n as nat),
                self.search_reads_ok(init_v, n as nat) <==> self.all_reads_ok(views(queue@)),
                forall|j: int| 0 <= j < queue@.len() ==> {
                    &&& self.state_ok(#[trigger] queue@[j]@)
                    &&& self.options_fit(queue@[j]@)
                },
                self.groups_fit() || (queue@.len() <= 1 && forall|j: int| 0 <= j < queue@.len() ==> #[trigger] queue@[j]@ == init_v),
                self.groups_fit() || self.blocked(init_v),
            decreases self.pending_work(views(queue@)),
        {
            let ghost before = views(queue@);
            let ghost q0 = queue@;
            let state = queue.pop().unwrap();
            let ghost t = state@;
            let ghost rest = views(queue@);
            assert(before == rest.push(t));
            assert(before.last() == t);
            assert(before.drop_last() == rest);
            let ghost f = count_none(t.0);
            assert(self.state_ok(t)) by { assert(t == before[before.len() - 1]); }
            proof {
                self.lemma_all_reads_push(rest, t);
            }
            if count_ones(state.placed_words) as usize == self.instance.words.len() {
                assert(self.complete(t));
                let ghost sols = views(solutions@);
                solutions.push(state);
                assert(views(solutions@) == sols.push(t));
                assert(self.search(t, f) == seq![t]);
            } else {
                assert(!self.complete(t));
                let ghost q1 = queue@;
                proof {
                    if f == 0 {
                        self.lemma_full_has_no_next(t);
                        assert(self.next_reads_ok(t));
                    }
                }
                assert(self.options_fit(t)) by { assert(t == before[before.len() - 1]); }
                if !self.next_reads_fit(&state) {
                    assert(f > 0);
                    assert(!self.search_reads_ok(t, f));
                    assert(!self.all_reads_ok(before));
                    return None;
                }
                self.next_states(&state, &mut queue);
                let ghost kids = self.spec_next_states(t);
                assert(views(queue@) == rest + kids);
                proof {
                    self.lemma_pending_append(rest, kids);
                    self.lemma_all_reads_append(rest, kids);
                    if f == 0 {
                        self.lemma_full_has_no_next(t);
                        assert(kids.len() == 0);
                        assert(self.all_reads_ok(kids));
                    } else {
                        self.lemma_next_states_props(t);
                        self.lemma_pending_kids(kids, (f - 1) as nat);
                        self.lemma_search_all_reads(kids, (f - 1) as nat);
                        assert(self.all_reads_ok(kids) == self.search_all_reads_ok(kids, (f - 1) as nat));
                    }
                    if self.groups_fit() {
                        assert forall|j: int| 0 <= j < queue@.len() implies {
                            &&& self.state_ok(#[trigger] queue@[j]@)
                            &&& self.options_fit(queue@[j]@)
                        } by {
                            assert(queue@[j]@ == views(queue@)[j]);
                            if j >= q1.len() {
                                assert(queue@[j]@ == kids[j - q1.len()]);
                            } else {
                                assert(q1[j] == q0[j]);
                                assert(queue@[j]@ == q1[j]@);
                            }
                            self.lemma_options_fit(queue@[j]@);
                        }
                    } else {
                        assert(t == init_v);
                        assert(kids.len() == 0);
                        assert(queue@.len() == 0);
                    }
                }
            }
        }
        assert(views(queue@) == Seq::<StateView>::empty());
        Some(solutions)
    }

    /// A stack with a state pushed has good reads exactly when the stack and the state do.
    proof fn lemma_all_reads_push(self, q: Seq<StateView>, t: StateView)
        ensures
            self.all_reads_ok(q.push(t)) == (self.all_reads_ok(q) && self.search_reads_ok(t, count_none(t.0))),
    {
        let p = q.push(t);
        assert(p[q.len() as int] == t);
        if self.all_reads_ok(q) && self.search_reads_ok(t, count_none(t.0)) {
            assert forall|j: int| 0 <= j < p.len() implies self.search_reads_ok(#[trigger] p[j], count_none(p[j].0)) by {
                if j < q.len() {
                    assert(p[j] == q[j]);
                }
            }
        }
        if self.all_reads_ok(p) {
            assert forall|j: int| 0 <= j < q.len() implies self.search_reads_ok(#[trigger] q[j], count_none(q[j].0)) by {
                assert(p[j] == q[j]);
            }
        }
    }

    /// Two stacks one on the other have good reads exactly when each has.
    proof fn lemma_all_reads_append(self, a: Seq<StateView>, b: Seq<StateView>)
        ensures
            self.all_reads_ok(a + b) == (self.all_reads_ok(a) && self.all_reads_ok(b)),
    {
        let p = a + b;
        if self.all_reads_ok(a) && self.all_reads_ok(b) {
            assert forall|j: int| 0 <= j < p.len() implies self.search_reads_ok(#[trigger] p[j], count_none(p[j].0)) by {
                if j < a.len() {
                    assert(p[j] == a[j]);
                } else {
                    assert(p[j] == b[j - a.len()]);
                }
            }
        }
        if self.all_reads_ok(p) {
            assert forall|j: int| 0 <= j < a.len() implies self.search_reads_ok(#[trigger] a[j], count_none(a[j].0)) by {
                assert(p[j] == a[j]);
            }
            assert forall|j: int| 0 <= j < b.len() implies self.search_reads_ok(#[trigger] b[j], count_none(b[j].0)) by {
                assert(p[j + a.len()] == b[j]);
            }
        }
    }

    /// Pushes onto `queue` the successors of `state`.
    pub fn next_states(&self, state: &State, queue: &mut Vec<State>)
        requires
            self.words_in_range(state@),
            self.next_reads_ok(state@),
            self.spec_words().len() <= 64,
            self.options_fit(state@),
        ensures
            views(final(queue)@) == views(old(queue)@) + self.spec_next_states(state@),
    {
        proof {
            use_type_invariant(self);
        }
        let group = match self.best_group(state) {
            Some(g) => g,
            None => {
                assert(views(queue@) == views(queue@) + Seq::<StateView>::empty());
                return;
            },
        };
        proof {
            let g = choose|g: int| self.best_at(state@, g);
            assert(self.best_at(state@, g));
        }
        let ws = &self.word_lens[group];
        assert(self.spec_word_lens()[group as int] == ws@);
        let ghost q0 = queue@;
        let mut k: usize = 0;
        while k < ws.len()
            invariant
                self.inv(),
                self.words_in_range(state@),
                self.next_reads_ok(state@),
                queue@ == q0,
                q0 == old(queue)@,
                self.spec_best_group(state@) == Some(group),
                self.spec_word_lens()[group as int] == ws@,
                group < self.groups(),
                ws == &self.word_lens@[group as int],
                self.spec_words().len() <= 64,
                k <= ws@.len(),
                forall|j: int| 0 <= j < k ==> !is_free(state@.1, #[trigger] ws@[j]),
            decreases ws@.len() - k,
        {
            let w = ws[k];
            assert(w == self.word_lens@[group as int]@[k as int]);
            if state.placed_words & (1u64 << w) == 0 {
                proof {
                    lemma_first_free_word(ws@, state@.1, k as int);
                }
                self.place_word(state, group, w, queue);
                return;
            }
            k = k + 1;
        }
        proof {
            lemma_first_free_word_none(ws@, state@.1);
        }
        assert(views(queue@) == views(queue@) + Seq::<StateView>::empty());
    }
}

impl Solver {
    /// Whether checking word `w` for box `b` reads only inside the words.
    fn move_reads_fit(&self, state: &State, w: usize, b: usize) -> (r: bool)
        requires
            self.words_in_range(state@),
            b < self.spec_boxes().len(),
            w < self.spec_words().len(),
        ensures
            r == self.move_reads_ok(state@, w, b),
    {
        proof {
            use_type_invariant(self);
        }
        let crossings = &self.box_crossings[b];
        assert(self.spec_box_crossings()[b as int] == crossings@);
        assert(crossings@.subrange(0, crossings@.len() as int) == crossings@);
        let word = self.instance.words[w].as_str().as_bytes();
        assert(word@ == self.spec_words()[w as int]);
        let mut k: usize = 0;
        while k < crossings.len()
            invariant
                self.inv(),
                self.words_in_range(state@),
                b < self.spec_boxes().len(),
                w < self.spec_words().len(),
                word@ == self.spec_words()[w as int],
                crossings == &self.box_crossings@[b as int],
                self.spec_box_crossings()[b as int] == crossings@,
                k <= crossings@.len(),
                self.move_reads_ok(state@, w, b) == self.reads_from(
                    state@,
                    w,
                    b,
                    crossings@.subrange(k as int, crossings@.len() as int),
                ),
            decreases crossings@.len() - k,
        {
            let c = crossings[k];
            assert(c == self.box_crossings@[b as int]@[k as int]);
            let ghost rest = crossings@.subrange(k as int, crossings@.len() as int);
            assert(rest[0] == c);
            assert(rest.drop_first() == crossings@.subrange(k + 1, crossings@.len() as int));
            match state.assignments[c.id_b] {
                None => {},
                Some(other_word) => {
                    let ow = other_word as usize;
                    assert(state@.0[c.id_b as int] == Some(other_word));
                    let o = self.instance.words[ow].as_str().as_bytes();
                    assert(o@ == self.spec_words()[ow as int]);
                    if word.len() != self.instance.boxes[b].len || c.c_a < 0 || c.c_b < 0 || c.c_a as usize >= word.len()
                        || c.c_b as usize >= o.len() {
                        return false;
                    }
                    if word[c.c_a as usize] != o[c.c_b as usize] {
                        return true;
                    }
                },
            }
            k = k + 1;
        }
        true
    }

    /// Whether trying word `w` in each empty box of `slots` reads only inside the words.
    fn slots_fit(&self, state: &State, w: usize, slots: &Vec<usize>) -> (r: bool)
        requires
            self.words_in_range(state@),
            w < self.spec_words().len(),
            forall|i: int| 0 <= i < slots@.len() ==> #[trigger] slots@[i] < self.spec_boxes().len(),
        ensures
            r == self.slots_read_ok(state@, w, slots@),
    {
        let mut i: usize = 0;
        while i < slots.len()
            invariant
                self.words_in_range(state@),
                w < self.spec_words().len(),
                forall|j: int| 0 <= j < slots@.len() ==> #[trigger] slots@[j] < self.spec_boxes().len(),
                i <= slots@.len(),
                forall|j: int| 0 <= j < i && state@.0[slots@[j] as int] is None ==> self.move_reads_ok(state@, w, #[trigger] slots@[j]),
            decreases slots@.len() - i,
        {
            let slot = slots[i];
            if state.assignments[slot].is_none() && !self.move_reads_fit(state, w, slot) {
                return false;
            }
            i = i + 1;
        }
        true
    }

    /// Whether making the successors of `state` reads only inside the words.
    fn next_reads_fit(&self, state: &State) -> (r: bool)
        requires
            self.words_in_range(state@),
            self.spec_words().len() <= 64,
            self.options_fit(state@),
        ensures
            r == self.next_reads_ok(state@),
    {
        proof {
            use_type_invariant(self);
        }
        let group = match self.best_group(state) {
            Some(g) => g,
            None => {
                return true;
            },
        };
        proof {
            let g = choose|g: int| self.best_at(state@, g);
            assert(self.best_at(state@, g));
        }
        let ws = &self.word_lens[group];
        assert(self.spec_word_lens()[group as int] == ws@);
        let mut k: usize = 0;
        while k < ws.len()
            invariant
                self.inv(),
                self.words_in_range(state@),
                self.spec_best_group(state@) == Some(group),
                self.spec_word_lens()[group as int] == ws@,
                group < self.groups(),
                ws == &self.word_lens@[group as int],
                self.spec_words().len() <= 64,
                k <= ws@.len(),
                forall|j: int| 0 <= j < k ==> !is_free(state@.1, #[trigger] ws@[j]),
            decreases ws@.len() - k,
        {
            let w = ws[k];
            assert(w == self.word_lens@[group as int]@[k as int]);
            if state.placed_words & (1u64 << w) == 0 {
                proof {
                    lemma_first_free_word(ws@, state@.1, k as int);
                }
                let slots = &self.box_lens[group];
                assert(self.spec_box_lens()[group as int] == slots@);
                assert forall|i: int| 0 <= i < slots@.len() implies #[trigger] slots@[i] < self.spec_boxes().len() by {
                    assert(self.box_lens@[group as int]@[i] == slots@[i]);
                }
                return self.slots_fit(state, w, slots);
            }
            k = k + 1;
        }
        proof {
            lemma_first_free_word_none(ws@, state@.1);
        }
        true
    }
}

impl Solver {
    proof fn lemma_pending_append(self, a: Seq<StateView>, b: Seq<StateView>)
        ensures
            self.pending(a + b) == self.pending(b) + self.pending(a),
            self.pending_work(a + b) == self.pending_work(a) + self.pending_work(b),
        decreases b.len(),
    {
        if b.len() == 0 {
            assert(a + b == a);
        } else {
            assert((a + b).last() == b.last());
            assert((a + b).drop_last() == a + b.drop_last());
            self.lemma_pending_append(a, b.drop_last());
        }
    }

    /// Searching a stack of states that each have `f` empty boxes is searching them with depth `f`.
    proof fn lemma_pending_kids(self, kids: Seq<StateView>, f: nat)
        requires
            forall|j: int| 0 <= j < kids.len() ==> count_none(#[trigger] kids[j].0) == f,
        ensures
            self.pending(kids) == self.search_all(kids, f),
            self.pending_work(kids) == self.work_all(kids, f),
        decreases kids.len(),
    {
        if kids.len() > 0 {
            assert(count_none(kids[kids.len() - 1].0) == f);
            assert forall|j: int| 0 <= j < kids.drop_last().len() implies count_none(#[trigger] kids.drop_last()[j].0) == f by {
                assert(kids.drop_last()[j] == kids[j]);
            }
            self.lemma_pending_kids(kids.drop_last(), f);
        }
    }

    /// The successors of a state fit the solver and have one empty box less.
    proof fn lemma_next_states_props(self, st: StateView)
        requires
            self.inv(),
            self.state_ok(st),
            self.spec_words().len() <= 64,
        ensures
            forall|j: int| 0 <= j < self.spec_next_states(st).len() ==> {
                &&& count_none(#[trigger] self.spec_next_states(st)[j].0) + 1 == count_none(st.0)
                &&& self.state_ok(self.spec_next_states(st)[j])
            },
    {
        match self.spec_best_group(st) {
            None => {},
            Some(g) => {
                let gi = choose|g: int| self.best_at(st, g);
                assert(self.best_at(st, gi));
                let ws = self.spec_word_lens()[g as int];
                assert(ws == self.word_lens@[g as int]@);
                let bs = self.spec_box_lens()[g as int];
                assert(bs == self.box_lens@[g as int]@);
                match first_free_word(ws, st.1) {
                    None => {},
                    Some(w) => {
                        lemma_first_free_word_in(ws, st.1);
                        let k = choose|k: int| 0 <= k < ws.len() && ws[k] == w;
                        assert(self.word_lens@[g as int]@[k] == w);
                        assert forall|i: int| 0 <= i < bs.len() implies {
                            let b = #[trigger] bs[i];
                            b < self.spec_boxes().len() && self.spec_boxes()[b as int].len == g
                        } by {
                            assert(self.box_lens@[g as int]@[i] == bs[i]);
                        }
                        self.lemma_kids_props(st, w, bs);
                    },
                }
            },
        }
    }

    proof fn lemma_kids_props(self, st: StateView, w: usize, slots: Seq<usize>)
        requires
            self.state_ok(st),
            w < self.spec_words().len(),
            self.spec_words().len() <= 64,
            forall|i: int| 0 <= i < slots.len() ==> {
                let b = #[trigger] slots[i];
                b < self.spec_boxes().len() && self.spec_boxes()[b as int].len == self.spec_words()[w as int].len()
            },
        ensures
            forall|j: int| 0 <= j < self.kids(st, w, slots).len() ==> {
                &&& count_none(#[trigger] self.kids(st, w, slots)[j].0) + 1 == count_none(st.0)
                &&& self.state_ok(self.kids(st, w, slots)[j])
            },
        decreases slots.len(),
    {
        if slots.len() > 0 {
            let b = slots.last();
            assert(slots[slots.len() - 1] == b);
            assert forall|i: int| 0 <= i < slots.drop_last().len() implies {
                let b = #[trigger] slots.drop_last()[i];
                b < self.spec_boxes().len() && self.spec_boxes()[b as int].len == self.spec_words()[w as int].len()
            } by {
                assert(slots.drop_last()[i] == slots[i]);
            }
            self.lemma_kids_props(st, w, slots.drop_last());
            let front = self.kids(st, w, slots.drop_last());
            if st.0[b as int] is None && self.spec_valid_move(st, w, b) {
                let c = child(st, b, w);
                lemma_count_none_update(st.0, b as int, Some(w as u8));
                assert(self.kids(st, w, slots) == front.push(c));
                assert(self.state_ok(c)) by {
                    assert forall|x: int| 0 <= x < c.0.len() implies (#[trigger] c.0[x] matches Some(v) ==> {
                        &&& v < self.spec_words().len()
                        &&& self.spec_words()[v as int].len() == self.spec_boxes()[x].len
                    }) by {
                        if x != b {
                            assert(c.0[x] == st.0[x]);
                        } else {
                            assert(c.0[x] == Some(w as u8));
                            assert((w as u8) as usize == w);
                        }
                    }
                }
                assert forall|j: int| 0 <= j < self.kids(st, w, slots).len() implies {
                    &&& count_none(#[trigger] self.kids(st, w, slots)[j].0) + 1 == count_none(st.0)
                    &&& self.state_ok(self.kids(st, w, slots)[j])
                } by {
                    if j < front.len() {
                        assert(self.kids(st, w, slots)[j] == front[j]);
                    }
                }
            } else {
                assert(self.kids(st, w, slots) == front);
            }
        }
    }

    /// A state with no empty box has no successors.
    proof fn lemma_full_has_no_next(self, st: StateView)
        requires
            self.inv(),
            self.state_ok(st),
            count_none(st.0) == 0,
        ensures
            self.spec_next_states(st) == Seq::<StateView>::empty(),
            self.spec_best_group(st) is None,
    {
        lemma_count_none_zero(st.0);
        assert forall|g: int| 0 <= g < self.groups() implies #[trigger] self.remaining_boxes(st, g) == 0 by {
            let bs = self.spec_box_lens()[g];
            assert(bs == self.box_lens@[g]@);
            assert forall|i: int| 0 <= i < bs.len() implies #[trigger] st.0[bs[i] as int] is Some by {
                assert(self.box_lens@[g]@[i] == bs[i]);
            }
            lemma_count_free_boxes_zero(bs, st.0);
        }
        if exists|g: int| self.best_at(st, g) {
            let g = choose|g: int| self.best_at(st, g);
            assert(self.overfull(st, g));
        }
    }

    /// When no group is overfull at the start, every group has no more words
    /// than boxes and the ways to fill it fit in `usize`.
    proof fn lemma_groups_fit(self, init: StateView)
        requires
            self.inv(),
            init == self.initial(),
            self.spec_words().len() <= 64,
            !self.blocked(init),
            self.options_fit(init),
        ensures
            self.groups_fit(),
    {
        assert forall|g: int| 0 <= g < self.groups() implies {
            &&& #[trigger] self.spec_word_lens()[g].len() <= self.spec_box_lens()[g].len()
            &&& falling(self.spec_box_lens()[g].len(), self.spec_word_lens()[g].len()) <= usize::MAX
        } by {
            let ws = self.spec_word_lens()[g];
            let bs = self.spec_box_lens()[g];
            assert(ws == self.word_lens@[g]@);
            assert(bs == self.box_lens@[g]@);
            assert forall|i: int| 0 <= i < ws.len() implies is_free(0u64, #[trigger] ws[i]) by {
                let w = ws[i];
                assert(self.word_lens@[g]@[i] == w);
                lemma_zero_is_free(w);
            }
            lemma_count_free_words_all(ws, 0u64);
            assert forall|i: int| 0 <= i < bs.len() implies #[trigger] init.0[bs[i] as int] is None by {
                assert(self.box_lens@[g]@[i] == bs[i]);
            }
            lemma_count_free_boxes_all(bs, init.0);
            assert(!self.overfull(init, g));
            if ws.len() > 0 {
                assert(self.open_group(init, g));
                assert forall|h: int| 0 <= h < g implies !#[trigger] self.overfull(init, h) by {}
            }
        }
    }

    /// Once all groups fit, the options of every state fit in `usize`.
    proof fn lemma_options_fit(self, st: StateView)
        requires
            self.inv(),
            self.groups_fit(),
        ensures
            self.options_fit(st),
    {
        assert forall|g: int|
            0 <= g < self.groups() && #[trigger] self.open_group(st, g) && !self.overfull(st, g)
                && (forall|h: int| 0 <= h < g ==> !#[trigger] self.overfull(st, h)) implies self.group_options(st, g) <= usize::MAX by {
            let ws = self.spec_word_lens()[g];
            let bs = self.spec_box_lens()[g];
            lemma_count_free_words_le(ws, st.1);
            lemma_count_free_boxes_le(bs, st.0);
            let rw = self.remaining_words(st, g);
            let rb = self.remaining_boxes(st, g);
            lemma_falling_mono(rb, bs.len(), rw);
            lemma_falling_le(bs.len(), rw, ws.len());
        }
    }
}

impl Solver {
    /// Every state the search finds is a solution of the puzzle, when no box
    /// crosses itself.
    proof fn lemma_solutions_are_solutions(self, st: StateView)
        requires
            self.inv(),
            self.spec_words().len() <= 64,
            self.self_crossings_aligned(),
            self.search(self.initial(), self.spec_boxes().len() as nat).contains(st),
        ensures
            self.is_solution(st),
    {
        let init = self.initial();
        assert(self.reachable_ok(init)) by {
            assert forall|w: usize| w < 64 implies (!#[trigger] is_free(init.1, w) <==> self.word_in_box(init, w)) by {
                lemma_zero_is_free(w);
            }
        }
        self.lemma_search_ok(init, self.spec_boxes().len() as nat);
        let j = choose|j: int| 0 <= j < self.search(init, self.spec_boxes().len() as nat).len()
            && self.search(init, self.spec_boxes().len() as nat)[j] == st;
        self.lemma_complete_places_all(st);
    }

    proof fn lemma_search_ok(self, st: StateView, fuel: nat)
        requires
            self.inv(),
            self.spec_words().len() <= 64,
            self.self_crossings_aligned(),
            self.reachable_ok(st),
        ensures
            forall|j: int| 0 <= j < self.search(st, fuel).len() ==> {
                &&& self.reachable_ok(#[trigger] self.search(st, fuel)[j])
                &&& self.complete(self.search(st, fuel)[j])
            },
        decreases fuel, 0nat,
    {
        if self.complete(st) {
            assert(self.search(st, fuel) == seq![st]);
        } else if fuel > 0 {
            let kids = self.spec_next_states(st);
            self.lemma_next_states_steps(st);
            assert forall|j: int| 0 <= j < kids.len() implies self.reachable_ok(#[trigger] kids[j]) by {
                self.lemma_step_ok(st, kids[j]);
            }
            self.lemma_search_all_ok(kids, (fuel - 1) as nat);
            assert(self.search(st, fuel) == self.search_all(kids, (fuel - 1) as nat));
        } else {
            assert(self.search(st, fuel) == Seq::<StateView>::empty());
        }
    }

    proof fn lemma_search_all_ok(self, kids: Seq<StateView>, fuel: nat)
        requires
            self.inv(),
            self.spec_words().len() <= 64,
            self.self_crossings_aligned(),
            forall|j: int| 0 <= j < kids.len() ==> self.reachable_ok(#[trigger] kids[j]),
        ensures
            forall|j: int| 0 <= j < self.search_all(kids, fuel).len() ==> {
                &&& self.reachable_ok(#[trigger] self.search_all(kids, fuel)[j])
                &&& self.complete(self.search_all(kids, fuel)[j])
            },
        decreases fuel, kids.len(),
    {
        if kids.len() > 0 {
            assert(self.reachable_ok(kids[kids.len() - 1]));
            self.lemma_search_ok(kids.last(), fuel);
            assert forall|j: int| 0 <= j < kids.drop_last().len() implies self.reachable_ok(#[trigger] kids.drop_last()[j]) by {
                assert(kids.drop_last()[j] == kids[j]);
            }
            self.lemma_search_all_ok(kids.drop_last(), fuel);
            let a = self.search(kids.last(), fuel);
            let b = self.search_all(kids.drop_last(), fuel);
            assert forall|j: int| 0 <= j < self.search_all(kids, fuel).len() implies {
                &&& self.reachable_ok(#[trigger] self.search_all(kids, fuel)[j])
                &&& self.complete(self.search_all(kids, fuel)[j])
            } by {
                if j < a.len() {
                    assert(self.search_all(kids, fuel)[j] == a[j]);
                } else {
                    assert(self.search_all(kids, fuel)[j] == b[j - a.len()]);
                }
            }
        }
    }

    /// The searches from `kids` read only inside the words exactly when each does.
    proof fn lemma_search_all_reads(self, kids: Seq<StateView>, fuel: nat)
        ensures
            self.search_all_reads_ok(kids, fuel) == forall|j: int| 0 <= j < kids.len() ==> self.search_reads_ok(#[trigger] kids[j], fuel),
        decreases kids.len(),
    {
        if kids.len() > 0 {
            self.lemma_search_all_reads(kids.drop_last(), fuel);
            if self.search_all_reads_ok(kids, fuel) {
                assert forall|j: int| 0 <= j < kids.len() implies self.search_reads_ok(#[trigger] kids[j], fuel) by {
                    if j < kids.len() - 1 {
                        assert(kids[j] == kids.drop_last()[j]);
                    }
                }
            }
            if forall|j: int| 0 <= j < kids.len() ==> self.search_reads_ok(#[trigger] kids[j], fuel) {
                assert(self.search_reads_ok(kids[kids.len() - 1], fuel));
                assert forall|j: int| 0 <= j < kids.drop_last().len() implies self.search_reads_ok(#[trigger] kids.drop_last()[j], fuel) by {
                    assert(kids[j] == kids.drop_last()[j]);
                }
            }
        }
    }

    /// Each successor of a state is a step from it.
    proof fn lemma_next_states_steps(self, st: StateView)
        requires
            self.inv(),
            self.state_ok(st),
            self.spec_words().len() <= 64,
        ensures
            forall|j: int| 0 <= j < self.spec_next_states(st).len() ==> self.step(st, #[trigger] self.spec_next_states(st)[j]),
    {
        match self.spec_best_group(st) {
            None => {},
            Some(g) => {
                let gi = choose|g: int| self.best_at(st, g);
                assert(self.best_at(st, gi));
                let ws = self.spec_word_lens()[g as int];
                assert(ws == self.word_lens@[g as int]@);
                let bs = self.spec_box_lens()[g as int];
                assert(bs == self.box_lens@[g as int]@);
                match first_free_word(ws, st.1) {
                    None => {},
                    Some(w) => {
                        lemma_first_free_word_in(ws, st.1);
                        lemma_first_free_word_free(ws, st.1);
                        let k = choose|k: int| 0 <= k < ws.len() && ws[k] == w;
                        assert(self.word_lens@[g as int]@[k] == w);
                        assert forall|i: int| 0 <= i < bs.len() implies {
                            let b = #[trigger] bs[i];
                            b < self.spec_boxes().len() && self.spec_boxes()[b as int].len == g
                        } by {
                            assert(self.box_lens@[g as int]@[i] == bs[i]);
                        }
                        self.lemma_kids_steps(st, w, bs);
                    },
                }
            },
        }
    }

    proof fn lemma_kids_steps(self, st: StateView, w: usize, slots: Seq<usize>)
        requires
            self.state_ok(st),
            w < self.spec_words().len(),
            is_free(st.1, w),
            forall|i: int| 0 <= i < slots.len() ==> {
                let b = #[trigger] slots[i];
                b < self.spec_boxes().len() && self.spec_boxes()[b as int].len == self.spec_words()[w as int].len()
            },
        ensures
            forall|j: int| 0 <= j < self.kids(st, w, slots).len() ==> self.step(st, #[trigger] self.kids(st, w, slots)[j]),
        decreases slots.len(),
    {
        if slots.len() > 0 {
            let b = slots.last();
            assert(slots[slots.len() - 1] == b);
            assert forall|i: int| 0 <= i < slots.drop_last().len() implies {
                let b = #[trigger] slots.drop_last()[i];
                b < self.spec_boxes().len() && self.spec_boxes()[b as int].len == self.spec_words()[w as int].len()
            } by {
                assert(slots.drop_last()[i] == slots[i]);
            }
            self.lemma_kids_steps(st, w, slots.drop_last());
            let front = self.kids(st, w, slots.drop_last());
            if st.0[b as int] is None && self.spec_valid_move(st, w, b) {
                let c = child(st, b, w);
                assert(self.step(st, c));
                assert(self.kids(st, w, slots) == front.push(c));
                assert forall|j: int| 0 <= j < self.kids(st, w, slots).len() implies self.step(st, #[trigger] self.kids(st, w, slots)[j]) by {
                    if j < front.len() {
                        assert(self.kids(st, w, slots)[j] == front[j]);
                    }
                }
            } else {
                assert(self.kids(st, w, slots) == front);
            }
        }
    }

    /// A step keeps the words in the boxes and the mask in step.
    proof fn lemma_step_tracked(self, st: StateView, nx: StateView)
        requires
            self.inv(),
            self.spec_words().len() <= 64,
            self.state_ok(st),
            self.mask_matches(st),
            self.words_distinct(st),
            self.step(st, nx),
        ensures
            self.state_ok(nx),
            self.mask_matches(nx),
            self.words_distinct(nx),
    {
        let (b, w) = choose|b: usize, w: usize|
            #![trigger child(st, b, w)]
            b < st.0.len() && st.0[b as int] is None && w < self.spec_words().len() && is_free(st.1, w)
                && self.spec_words()[w as int].len() == self.spec_boxes()[b as int].len
                && self.spec_valid_move(st, w, b) && nx == child(st, b, w);
        let wb = w as u8;
        assert(wb as usize == w);
        // the word of the new box
        assert(self.state_ok(nx)) by {
            assert forall|x: int| 0 <= x < nx.0.len() implies (#[trigger] nx.0[x] matches Some(v) ==> {
                &&& v < self.spec_words().len()
                &&& self.spec_words()[v as int].len() == self.spec_boxes()[x].len
            }) by {
                if x != b {
                    assert(nx.0[x] == st.0[x]);
                }
            }
        }
        // the mask
        assert forall|v: usize| v < 64 implies (!#[trigger] is_free(nx.1, v) <==> self.word_in_box(nx, v)) by {
            lemma_set_bit(st.1, w, v);
            if v == w {
                assert(nx.0[b as int] == Some(v as u8));
            } else {
                assert((v as u8) != wb);
                if self.word_in_box(st, v) {
                    let x = choose|x: int| 0 <= x < st.0.len() && #[trigger] st.0[x] == Some(v as u8);
                    assert(nx.0[x] == Some(v as u8));
                }
                if self.word_in_box(nx, v) {
                    let x = choose|x: int| 0 <= x < nx.0.len() && #[trigger] nx.0[x] == Some(v as u8);
                    assert(x != b);
                    assert(st.0[x] == Some(v as u8));
                }
            }
        }
        // distinct words
        assert forall|b1: int, b2: int|
            0 <= b1 < nx.0.len() && 0 <= b2 < nx.0.len() && b1 != b2 && #[trigger] nx.0[b1] is Some
                implies nx.0[b1] != #[trigger] nx.0[b2] by {
            if b1 == b {
                if nx.0[b2] == Some(wb) {
                    assert(st.0[b2] == Some(w as u8));
                    assert(self.word_in_box(st, w));
                }
            } else if b2 == b {
                if nx.0[b1] == Some(wb) {
                    assert(st.0[b1] == Some(w as u8));
                    assert(self.word_in_box(st, w));
                }
            } else {
                assert(nx.0[b1] == st.0[b1]);
                assert(nx.0[b2] == st.0[b2]);
            }
        }
    }

    /// A step keeps the invariant of the search.
    proof fn lemma_step_ok(self, st: StateView, nx: StateView)
        requires
            self.inv(),
            self.spec_words().len() <= 64,
            self.self_crossings_aligned(),
            self.reachable_ok(st),
            self.step(st, nx),
        ensures
            self.reachable_ok(nx),
    {
        let (b, w) = choose|b: usize, w: usize|
            #![trigger child(st, b, w)]
            b < st.0.len() && st.0[b as int] is None && w < self.spec_words().len() && is_free(st.1, w)
                && self.spec_words()[w as int].len() == self.spec_boxes()[b as int].len
                && self.spec_valid_move(st, w, b) && nx == child(st, b, w);
        let wb = w as u8;
        assert(wb as usize == w);
        self.lemma_step_tracked(st, nx);
        // crossings
        let bc = self.spec_box_crossings();
        assert forall|b1: int, k: int|
            0 <= b1 < nx.0.len() && 0 <= k < bc[b1].len() && nx.0[b1] is Some
                implies self.crossing_ok(nx, (nx.0[b1]->0) as usize, #[trigger] bc[b1][k]) by {
            let c = bc[b1][k];
            assert(c == self.box_crossings@[b1]@[k]);
            assert(c.id_a == b1 && c.id_b < self.spec_boxes().len());
            if c.id_b == b1 {
                // a box crossing itself names one cell twice
                assert(c.c_a == c.c_b);
                assert(nx.0[c.id_b as int] == nx.0[b1]);
            } else if b1 == b {
                assert(nx.0[b1]->0 == wb);
                assert(self.crossing_ok(st, w, c));
                assert(nx.0[c.id_b as int] == st.0[c.id_b as int]);
            } else {
                assert(nx.0[b1] == st.0[b1]);
                let w1 = (st.0[b1]->0) as usize;
                assert(self.crossing_ok(st, w1, c));
                if c.id_b == b {
                    let rc = c.spec_reverse();
                    assert(self.box_crossings@[b as int]@.contains(rc));
                    let k2 = choose|k2: int| 0 <= k2 < self.box_crossings@[b as int]@.len() && self.box_crossings@[b as int]@[k2] == rc;
                    assert(bc[b as int][k2] == rc);
                    assert(self.crossing_ok(st, w, rc));
                    assert(st.0[b1] == Some(w1 as u8));
                } else {
                    assert(nx.0[c.id_b as int] == st.0[c.id_b as int]);
                }
            }
        }
    }

    /// A complete state of the search holds every word.
    proof fn lemma_complete_places_all(self, st: StateView)
        requires
            self.spec_words().len() <= 64,
            self.state_ok(st),
            self.mask_matches(st),
            self.complete(st),
        ensures
            forall|w: usize| w < self.spec_words().len() ==> #[trigger] self.word_in_box(st, w),
    {
        let n = self.spec_words().len();
        assert forall|v: usize| n <= v < 64 implies #[trigger] is_free(st.1, v) by {
            if !is_free(st.1, v) {
                assert(self.word_in_box(st, v));
                let x = choose|x: int| 0 <= x < st.0.len() && #[trigger] st.0[x] == Some(v as u8);
                assert((v as u8) as usize == v);
            }
        }
        lemma_bits_set_high_clear(st.1, n, 64);
        lemma_bits_set_full(st.1, n);
        assert forall|w: usize| w < n implies #[trigger] self.word_in_box(st, w) by {
            assert(!is_free(st.1, w));
        }
    }
}

/// Setting bit `w` marks `w` and leaves the other bits.
proof fn lemma_set_bit(x: u64, w: usize, v: usize)
    requires
        w < 64,
        v < 64,
    ensures
        is_free(x | (1u64 << w), v) == (is_free(x, v) && v != w),
{
    assert(((x | (1u64 << w)) & (1u64 << v) == 0) == ((x & (1u64 << v) == 0) && v != w)) by (bit_vector)
        requires
            w < 64,
            v < 64,
    ;
}

/// Clear bits from `n` up to `m` add nothing to the count.
proof fn lemma_bits_set_high_clear(x: u64, n: nat, m: nat)
    requires
        n <= m <= 64,
        forall|v: usize| n <= v < 64 ==> #[trigger] is_free(x, v),
    ensures
        bits_set(x, m) == bits_set(x, n),
    decreases m - n,
{
    if m > n {
        lemma_bits_set_high_clear(x, n, (m - 1) as nat);
        assert(is_free(x, (m - 1) as usize));
    }
}

/// When the lowest `n` bits hold `n` set bits, they are all set.
proof fn lemma_bits_set_full(x: u64, n: nat)
    requires
        bits_set(x, n) == n,
    ensures
        forall|v: usize| v < n ==> !#[trigger] is_free(x, v),
    decreases n,
{
    if n > 0 {
        lemma_bits_set_le(x, (n - 1) as nat);
        lemma_bits_set_full(x, (n - 1) as nat);
        assert forall|v: usize| v < n implies !#[trigger] is_free(x, v) by {
            if v < n - 1 {
            } else {
                assert(v == (n - 1) as usize);
            }
        }
    }
}

proof fn lemma_bits_set_le(x: u64, n: nat)
    ensures
        bits_set(x, n) <= n,
    decreases n,
{
    if n > 0 {
        lemma_bits_set_le(x, (n - 1) as nat);
    }
}

/// The first free word is free.
proof fn lemma_first_free_word_free(ws: Seq<usize>, placed: u64)
    requires
        first_free_word(ws, placed) is Some,
    ensures
        is_free(placed, first_free_word(ws, placed)->0),
    decreases ws.len(),
{
    if !is_free(placed, ws[0]) {
        lemma_first_free_word_free(ws.drop_first(), placed);
    }
}

impl Solver {
    /// The filled boxes of `st` hold the words that `sol` has there.
    pub open spec fn agrees(self, st: StateView, sol: StateView) -> bool {
        &&& st.0.len() == sol.0.len()
        &&& forall|b: int| 0 <= b < st.0.len() && #[trigger] st.0[b] is Some ==> st.0[b] == sol.0[b]
    }

    /// The ways to fill every group, counted from the start, stay below `usize::MAX`.
    pub open spec fn groups_countable(self) -> bool {
        forall|g: int|
            0 <= g < self.groups() ==> falling(
                #[trigger] self.spec_box_lens()[g].len(),
                self.spec_word_lens()[g].len(),
            ) < usize::MAX
    }

    /// Group `g` is the first open group below `m` with the fewest options.
    pub open spec fn best_upto(self, st: StateView, g: int, m: int) -> bool {
        &&& 0 <= g < m
        &&& self.open_group(st, g)
        &&& forall|h: int|
            0 <= h < m && #[trigger] self.open_group(st, h) ==> {
                &&& self.group_options(st, g) <= self.group_options(st, h)
                &&& (h < g ==> self.group_options(st, g) < self.group_options(st, h))
            }
    }

    proof fn lemma_best_upto_exists(self, st: StateView, m: int)
        requires
            0 <= m,
            exists|g: int| 0 <= g < m && #[trigger] self.open_group(st, g),
        ensures
            exists|g: int| #[trigger] self.best_upto(st, g, m),
        decreases m,
    {
        let last = m - 1;
        if exists|g: int| 0 <= g < last && #[trigger] self.open_group(st, g) {
            self.lemma_best_upto_exists(st, last);
            let g = choose|g: int| #[trigger] self.best_upto(st, g, last);
            if self.open_group(st, last) && self.group_options(st, last) < self.group_options(st, g) {
                assert(self.best_upto(st, last, m));
            } else {
                assert(self.best_upto(st, g, m));
            }
        } else {
            assert(self.open_group(st, last));
            assert(self.best_upto(st, last, m));
        }
    }

    /// In a state that `sol` completes, no group has more words left than empty boxes.
    proof fn lemma_pigeonhole(self, st: StateView, sol: StateView, g: int)
        requires
            self.inv(),
            self.spec_words().len() <= 64,
            self.state_ok(st),
            self.mask_matches(st),
            self.full_placement(sol),
            self.agrees(st, sol),
            0 <= g < self.groups(),
        ensures
            self.remaining_words(st, g) <= self.remaining_boxes(st, g),
    {
        let ws = self.spec_word_lens()[g];
        let bs = self.spec_box_lens()[g];
        assert(ws == self.word_lens@[g]@);
        assert(bs == self.box_lens@[g]@);
        let fw = |w: usize| is_free(st.1, w);
        let fb = |b: usize| st.0[b as int] is None;
        let a = ws.to_set().filter(fw);
        let bset = bs.to_set().filter(fb);
        lemma_count_free_words_set(ws, st.1);
        lemma_count_free_boxes_set(bs, st.0);
        let f = |w: usize| choose|b: usize| b < sol.0.len() && sol.0[b as int] == Some(w as u8);
        assert forall|w: usize| a.contains(w) implies bset.contains(#[trigger] f(w)) && sol.0[f(w) as int] == Some(w as u8) by {
            let k = choose|k: int| 0 <= k < ws.len() && ws[k] == w;
            assert(self.word_lens@[g]@[k] == w);
            assert(w < self.spec_words().len());
            assert(self.word_in_box(sol, w));
            let x = choose|x: int| 0 <= x < sol.0.len() && #[trigger] sol.0[x] == Some(w as u8);
            assert(x as usize == x);
            assert(sol.0[(x as usize) as int] == Some(w as u8));
            let b = f(w);
            assert(b < sol.0.len() && sol.0[b as int] == Some(w as u8));
            assert((w as u8) as usize == w);
            assert(self.spec_boxes()[b as int].len == g);
            assert(self.box_lens@[self.spec_boxes()[b as int].len as int]@.contains(b));
            if st.0[b as int] is Some {
                assert(st.0[b as int] == sol.0[b as int]);
                assert(self.word_in_box(st, w));
            }
        }
        assert(vstd::relations::injective_on(f, a)) by {
            assert forall|x: usize, y: usize| a.contains(x) && a.contains(y) && #[trigger] f(x) == #[trigger] f(y) implies x == y by {
                assert(sol.0[f(x) as int] == Some(x as u8));
                assert(sol.0[f(y) as int] == Some(y as u8));
                let kx = choose|k: int| 0 <= k < ws.len() && ws[k] == x;
                let ky = choose|k: int| 0 <= k < ws.len() && ws[k] == y;
                assert(self.word_lens@[g]@[kx] == x);
                assert(self.word_lens@[g]@[ky] == y);
                assert((x as u8) as usize == x);
                assert((y as u8) as usize == y);
            }
        }
        let img = a.map(f);
        vstd::set_lib::lemma_map_size(a, img, f);
        assert(img.subset_of(bset));
        vstd::set_lib::lemma_len_subset(img, bset);
    }
}

proof fn lemma_count_free_words_set(ws: Seq<usize>, placed: u64)
    requires
        ws.no_duplicates(),
    ensures
        ws.to_set().filter(|w: usize| is_free(placed, w)).finite(),
        count_free_words(ws, placed) == ws.to_set().filter(|w: usize| is_free(placed, w)).len(),
    decreases ws.len(),
{
    broadcast use vstd::set::group_set_axioms, vstd::seq_lib::seq_to_set_is_finite, vstd::set_lib::group_set_properties;

    let p = |w: usize| is_free(placed, w);
    if ws.len() == 0 {
        assert(ws.to_set().filter(p) =~= Set::<usize>::empty());
    } else {
        let d = ws.drop_last();
        assert(d.no_duplicates());
        lemma_count_free_words_set(d, placed);
        assert forall|e: usize| ws.to_set().contains(e) <==> d.to_set().insert(ws.last()).contains(e) by {
            if ws.contains(e) {
                let k = choose|k: int| 0 <= k < ws.len() && ws[k] == e;
                if k < ws.len() - 1 {
                    assert(d[k] == e);
                }
            }
            if d.contains(e) {
                let k = choose|k: int| 0 <= k < d.len() && d[k] == e;
                assert(ws[k] == e);
            }
            if e == ws.last() {
                assert(ws[ws.len() - 1] == e);
            }
        }
        assert(ws.to_set() =~= d.to_set().insert(ws.last()));
        assert(!d.to_set().contains(ws.last())) by {
            if d.contains(ws.last()) {
                let k = choose|k: int| 0 <= k < d.len() && d[k] == ws.last();
                assert(ws[k] == ws[ws.len() - 1]);
            }
        }
        if p(ws.last()) {
            assert(ws.to_set().filter(p) =~= d.to_set().filter(p).insert(ws.last()));
        } else {
            assert(ws.to_set().filter(p) =~= d.to_set().filter(p));
        }
    }
}

proof fn lemma_count_free_boxes_set(bs: Seq<usize>, a: Seq<Option<u8>>)
    ensures
        bs.to_set().filter(|b: usize| a[b as int] is None).finite(),
        count_free_boxes(bs, a) >= bs.to_set().filter(|b: usize| a[b as int] is None).len(),
    decreases bs.len(),
{
    broadcast use vstd::set::group_set_axioms, vstd::seq_lib::seq_to_set_is_finite, vstd::set_lib::group_set_properties;

    let p = |b: usize| a[b as int] is None;
    if bs.len() == 0 {
        assert(bs.to_set().filter(p) =~= Set::<usize>::empty());
    } else {
        let d = bs.drop_last();
        lemma_count_free_boxes_set(d, a);
        assert forall|e: usize| bs.to_set().contains(e) <==> d.to_set().insert(bs.last()).contains(e) by {
            if bs.contains(e) {
                let k = choose|k: int| 0 <= k < bs.len() && bs[k] == e;
                if k < bs.len() - 1 {
                    assert(d[k] == e);
                }
            }
            if d.contains(e) {
                let k = choose|k: int| 0 <= k < d.len() && d[k] == e;
                assert(bs[k] == e);
            }
            if e == bs.last() {
                assert(bs[bs.len() - 1] == e);
            }
        }
        assert(bs.to_set() =~= d.to_set().insert(bs.last()));
        if p(bs.last()) {
            assert(bs.to_set().filter(p) =~= d.to_set().filter(p).insert(bs.last()));
        } else {
            assert(bs.to_set().filter(p) =~= d.to_set().filter(p));
        }
    }
}

impl Solver {
    proof fn lemma_kids_contain(self, st: StateView, w: usize, slots: Seq<usize>, i: int)
        requires
            0 <= i < slots.len(),
            st.0[slots[i] as int] is None,
            self.spec_valid_move(st, w, slots[i]),
        ensures
            self.kids(st, w, slots).contains(child(st, slots[i], w)),
        decreases slots.len(),
    {
        let front = self.kids(st, w, slots.drop_last());
        let c = child(st, slots[i], w);
        if i == slots.len() - 1 {
            assert(slots.last() == slots[i]);
            assert(self.kids(st, w, slots) == front.push(c));
            assert(self.kids(st, w, slots)[front.len() as int] == c);
        } else {
            assert(slots.drop_last()[i] == slots[i]);
            self.lemma_kids_contain(st, w, slots.drop_last(), i);
            let k = choose|k: int| 0 <= k < front.len() && front[k] == c;
            let b = slots.last();
            let tail: Seq<StateView> = if st.0[b as int] is None && self.spec_valid_move(st, w, b) {
                seq![child(st, b, w)]
            } else {
                seq![]
            };
            assert(self.kids(st, w, slots) == front + tail);
            assert(self.kids(st, w, slots)[k] == c);
        }
    }

    proof fn lemma_search_all_contains(self, kids: Seq<StateView>, fuel: nat, j: int, f: StateView)
        requires
            0 <= j < kids.len(),
            self.search(kids[j], fuel).contains(f),
        ensures
            self.search_all(kids, fuel).contains(f),
        decreases kids.len(),
    {
        let a = self.search(kids.last(), fuel);
        let b = self.search_all(kids.drop_last(), fuel);
        assert(self.search_all(kids, fuel) == a + b);
        if j == kids.len() - 1 {
            let k = choose|k: int| 0 <= k < a.len() && a[k] == f;
            assert((a + b)[k] == f);
        } else {
            assert(kids.drop_last()[j] == kids[j]);
            self.lemma_search_all_contains(kids.drop_last(), fuel, j, f);
            let k = choose|k: int| 0 <= k < b.len() && b[k] == f;
            assert((a + b)[a.len() + k] == f);
        }
    }

    /// A search from a state that the solution `sol` completes finds `sol`'s placement.
    proof fn lemma_search_finds(self, st: StateView, fuel: nat, sol: StateView)
        requires
            self.inv(),
            self.spec_words().len() <= 64,
            self.groups_countable(),
            self.is_solution(sol),
            self.state_ok(st),
            self.mask_matches(st),
            self.words_distinct(st),
            self.agrees(st, sol),
            fuel >= count_none(st.0),
        ensures
            exists|f: StateView| #[trigger] self.search(st, fuel).contains(f) && f.0 == sol.0,
        decreases fuel,
    {
        let n = self.spec_words().len();
        if self.complete(st) {
            self.lemma_complete_places_all(st);
            assert forall|b: int| 0 <= b < st.0.len() implies #[trigger] st.0[b] == sol.0[b] by {
                if st.0[b] is None && sol.0[b] is Some {
                    let w = (sol.0[b]->0) as usize;
                    assert(w < n);
                    assert(self.word_in_box(st, w));
                    let x = choose|x: int| 0 <= x < st.0.len() && #[trigger] st.0[x] == Some(w as u8);
                    assert(st.0[x] == sol.0[x]);
                    assert(x != b);
                }
            }
            assert(st.0 =~= sol.0);
            assert(self.search(st, fuel) == seq![st]);
            assert(self.search(st, fuel)[0] == st);
            assert(self.search(st, fuel).contains(st) && st.0 == sol.0);
        } else {
            // some word is still to place
            let w0 = self.lemma_a_word_is_free(st);
            assert(self.word_in_box(sol, w0));
            let b0 = choose|x: int| 0 <= x < sol.0.len() && #[trigger] sol.0[x] == Some(w0 as u8);
            if st.0[b0] is Some {
                assert(st.0[b0] == sol.0[b0]);
                assert(self.word_in_box(st, w0));
            }
            lemma_count_none_some(st.0, b0);
            assert(fuel > 0);
            // no group is overfull
            assert forall|g: int| 0 <= g < self.groups() implies !#[trigger] self.overfull(st, g) by {
                self.lemma_pigeonhole(st, sol, g);
            }
            // the group of the free word is open
            let g0 = self.spec_words()[w0 as int].len() as int;
            let ws0 = self.spec_word_lens()[g0];
            assert(ws0 == self.word_lens@[g0]@);
            assert(ws0.contains(w0));
            lemma_count_free_words_set(ws0, st.1);
            lemma_set_contains_len(ws0.to_set().filter(|w: usize| is_free(st.1, w)), w0);
            assert(self.open_group(st, g0));
            self.lemma_best_upto_exists(st, self.groups() as int);
            let g = choose|g: int| #[trigger] self.best_upto(st, g, self.groups() as int);
            self.lemma_group_options_below_max(st, sol, g);
            assert(self.best_at(st, g));
            let gb = choose|g: int| self.best_at(st, g);
            assert(self.best_at(st, gb));
            assert(gb == g) by {
                if gb < g {
                    assert(self.open_group(st, gb));
                } else if gb > g {
                    assert(self.open_group(st, g));
                }
            }
            assert(self.spec_best_group(st) == Some(g as usize));
            let ws = self.spec_word_lens()[g];
            let bs = self.spec_box_lens()[g];
            assert(ws == self.word_lens@[g]@);
            assert(bs == self.box_lens@[g]@);
            lemma_first_free_word_some(ws, st.1);
            let w = first_free_word(ws, st.1)->0;
            lemma_first_free_word_in(ws, st.1);
            lemma_first_free_word_free(ws, st.1);
            let kw = choose|k: int| 0 <= k < ws.len() && ws[k] == w;
            assert(self.word_lens@[g]@[kw] == w);
            assert(w < n && self.spec_words()[w as int].len() == g);
            assert((w as u8) as usize == w);
            // where the solution puts that word
            assert(self.word_in_box(sol, w));
            let bx = choose|x: int| 0 <= x < sol.0.len() && #[trigger] sol.0[x] == Some(w as u8);
            let b = bx as usize;
            assert(b as int == bx);
            assert(self.spec_boxes()[bx].len == g);
            assert(self.box_lens@[g]@.contains(b));
            let i = choose|i: int| 0 <= i < bs.len() && bs[i] == b;
            if st.0[bx] is Some {
                assert(st.0[bx] == sol.0[bx]);
                assert(self.word_in_box(st, w));
            }
            assert(self.spec_valid_move(st, w, b)) by {
                assert forall|k: int| 0 <= k < self.spec_box_crossings()[b as int].len() implies self.crossing_ok(
                    st,
                    w,
                    #[trigger] self.spec_box_crossings()[b as int][k],
                ) by {
                    let c = self.spec_box_crossings()[b as int][k];
                    assert(c == self.box_crossings@[bx]@[k]);
                    assert(c.id_a == b && c.id_b < self.spec_boxes().len());
                    assert(self.crossing_ok(sol, (sol.0[bx]->0) as usize, c));
                    if st.0[c.id_b as int] is Some {
                        assert(st.0[c.id_b as int] == sol.0[c.id_b as int]);
                    }
                }
            }
            let kids = self.spec_next_states(st);
            assert(kids == self.kids(st, w, bs));
            self.lemma_kids_contain(st, w, bs, i);
            let c = child(st, b, w);
            assert(self.step(st, c));
            self.lemma_step_tracked(st, c);
            lemma_count_none_update(st.0, bx, Some(w as u8));
            assert(self.agrees(c, sol)) by {
                assert forall|x: int| 0 <= x < c.0.len() && #[trigger] c.0[x] is Some implies c.0[x] == sol.0[x] by {
                    if x != bx {
                        assert(c.0[x] == st.0[x]);
                    }
                }
            }
            self.lemma_search_finds(c, (fuel - 1) as nat, sol);
            let f = choose|f: StateView| #[trigger] self.search(c, (fuel - 1) as nat).contains(f) && f.0 == sol.0;
            let j = choose|j: int| 0 <= j < kids.len() && kids[j] == c;
            self.lemma_search_all_contains(kids, (fuel - 1) as nat, j, f);
            assert(self.search(st, fuel) == self.search_all(kids, (fuel - 1) as nat));
            assert(self.search(st, fuel).contains(f) && f.0 == sol.0);
        }
    }

    /// No placement of every word into boxes of its length, crossings agreeing
    /// or not, fills the boxes that `st` fills with the same words.
    pub open spec fn cannot_complete(self, st: StateView) -> bool {
        forall|sol: StateView| #[trigger] self.full_placement(sol) ==> !self.agrees(st, sol)
    }

    /// A state for which no full placement can be completed is extended by
    /// none of the states a search reports: a state of the search that still
    /// has words to place and for which `best_group` finds no group is
    /// extended by no result of `solve`.
    pub proof fn lemma_dead_end_unreached(self, st: StateView, results: Seq<StateView>)
        requires
            self.cannot_complete(st),
            forall|j: int| 0 <= j < results.len() ==> self.full_placement(#[trigger] results[j]),
        ensures
            forall|j: int| 0 <= j < results.len() ==> !self.agrees(st, #[trigger] results[j]),
    {
    }

    /// A state of the search that is not complete and has no group to fill
    /// next cannot be completed.
    proof fn lemma_no_best_group(self, st: StateView)
        requires
            self.inv(),
            self.spec_words().len() <= 64,
        ensures
            (self.groups_countable() && self.tracked_ok(st) && !self.complete(st) && self.spec_best_group(st) is None)
                ==> self.cannot_complete(st),
    {
        if self.groups_countable() && self.tracked_ok(st) && !self.complete(st) && self.spec_best_group(st) is None {
            assert forall|sol: StateView| #[trigger] self.full_placement(sol) implies !self.agrees(st, sol) by {
                if self.agrees(st, sol) {
                    let w0 = self.lemma_a_word_is_free(st);
                    assert forall|g: int| 0 <= g < self.groups() implies !#[trigger] self.overfull(st, g) by {
                        self.lemma_pigeonhole(st, sol, g);
                    }
                    let g0 = self.spec_words()[w0 as int].len() as int;
                    let ws0 = self.spec_word_lens()[g0];
                    assert(ws0 == self.word_lens@[g0]@);
                    assert(ws0.contains(w0));
                    lemma_count_free_words_set(ws0, st.1);
                    lemma_set_contains_len(ws0.to_set().filter(|w: usize| is_free(st.1, w)), w0);
                    assert(self.open_group(st, g0));
                    self.lemma_best_upto_exists(st, self.groups() as int);
                    let g = choose|g: int| #[trigger] self.best_upto(st, g, self.groups() as int);
                    self.lemma_group_options_below_max(st, sol, g);
                    assert(self.best_at(st, g));
                }
            }
        }
    }

    /// A state that is not complete leaves some word of the puzzle unplaced.
    proof fn lemma_a_word_is_free(self, st: StateView) -> (w: usize)
        requires
            self.spec_words().len() <= 64,
            self.state_ok(st),
            self.mask_matches(st),
            !self.complete(st),
        ensures
            w < self.spec_words().len(),
            is_free(st.1, w),
            !self.word_in_box(st, w),
    {
        let n = self.spec_words().len();
        if forall|v: usize| v < n ==> !#[trigger] is_free(st.1, v) {
            assert forall|v: usize| n <= v < 64 implies #[trigger] is_free(st.1, v) by {
                if !is_free(st.1, v) {
                    assert(self.word_in_box(st, v));
                    let x = choose|x: int| 0 <= x < st.0.len() && #[trigger] st.0[x] == Some(v as u8);
                    assert((v as u8) as usize == v);
                }
            }
            lemma_bits_set_high_clear(st.1, n, 64);
            lemma_bits_set_all(st.1, n);
            assert(false);
        }
        let w = choose|v: usize| v < n && #[trigger] is_free(st.1, v);
        w
    }

    /// The options of the best group of a state that a solution completes stay below `usize::MAX`.
    proof fn lemma_group_options_below_max(self, st: StateView, sol: StateView, g: int)
        requires
            self.inv(),
            self.spec_words().len() <= 64,
            self.groups_countable(),
            self.full_placement(sol),
            self.state_ok(st),
            self.mask_matches(st),
            self.agrees(st, sol),
            0 <= g < self.groups(),
        ensures
            self.group_options(st, g) < usize::MAX,
    {
        let ws = self.spec_word_lens()[g];
        let bs = self.spec_box_lens()[g];
        let init = self.initial();
        assert(ws == self.word_lens@[g]@);
        assert(bs == self.box_lens@[g]@);
        assert(self.mask_matches(init)) by {
            assert forall|w: usize| w < 64 implies (!#[trigger] is_free(init.1, w) <==> self.word_in_box(init, w)) by {
                lemma_zero_is_free(w);
            }
        }
        self.lemma_pigeonhole(init, sol, g);
        assert forall|i: int| 0 <= i < ws.len() implies is_free(0u64, #[trigger] ws[i]) by {
            assert(self.word_lens@[g]@[i] == ws[i]);
            lemma_zero_is_free(ws[i]);
        }
        lemma_count_free_words_all(ws, 0u64);
        assert forall|i: int| 0 <= i < bs.len() implies #[trigger] init.0[bs[i] as int] is None by {
            assert(self.box_lens@[g]@[i] == bs[i]);
        }
        lemma_count_free_boxes_all(bs, init.0);
        self.lemma_pigeonhole(st, sol, g);
        lemma_count_free_words_le(ws, st.1);
        lemma_count_free_boxes_le(bs, st.0);
        let rw = self.remaining_words(st, g);
        let rb = self.remaining_boxes(st, g);
        lemma_falling_mono(rb, bs.len(), rw);
        lemma_falling_le(bs.len(), rw, ws.len());
    }
}

/// A set holding `a` is not empty.
proof fn lemma_set_contains_len(s: Set<usize>, a: usize)
    requires
        s.finite(),
        s.contains(a),
    ensures
        s.len() >= 1,
{
    broadcast use vstd::set::group_set_axioms;

    assert(s.remove(a).len() + 1 == s.len());
}

/// When every one of the lowest `n` bits is set, there are `n` of them.
proof fn lemma_bits_set_all(x: u64, n: nat)
    requires
        n <= 64,
        forall|v: usize| v < n ==> !#[trigger] is_free(x, v),
    ensures
        bits_set(x, n) == n,
    decreases n,
{
    if n > 0 {
        lemma_bits_set_all(x, (n - 1) as nat);
        assert(!is_free(x, (n - 1) as usize));
    }
}

/// An entry that holds a word makes the count of empty entries smaller than the length.
proof fn lemma_count_none_some(a: Seq<Option<u8>>, b: int)
    requires
        0 <= b < a.len(),
        a[b] is None,
    ensures
        count_none(a) >= 1,
    decreases a.len(),
{
    if b < a.len() - 1 {
        assert(a.drop_last()[b] == a[b]);
        lemma_count_none_some(a.drop_last(), b);
    }
}

/// Words left to place in a group give a first free word.
proof fn lemma_first_free_word_some(ws: Seq<usize>, placed: u64)
    requires
        count_free_words(ws, placed) > 0,
    ensures
        first_free_word(ws, placed) is Some,
{
    if first_free_word(ws, placed) is None {
        lemma_first_free_word_none_all(ws, placed);
        lemma_count_free_words_none(ws, placed);
    }
}

proof fn lemma_first_free_word_none_all(ws: Seq<usize>, placed: u64)
    requires
        first_free_word(ws, placed) is None,
    ensures
        forall|j: int| 0 <= j < ws.len() ==> !is_free(placed, #[trigger] ws[j]),
    decreases ws.len(),
{
    if ws.len() > 0 {
        lemma_first_free_word_none_all(ws.drop_first(), placed);
        assert forall|j: int| 0 <= j < ws.len() implies !is_free(placed, #[trigger] ws[j]) by {
            if j > 0 {
                assert(ws.drop_first()[j - 1] == ws[j]);
            }
        }
    }
}

proof fn lemma_count_free_words_none(ws: Seq<usize>, placed: u64)
    requires
        forall|j: int| 0 <= j < ws.len() ==> !is_free(placed, #[trigger] ws[j]),
    ensures
        count_free_words(ws, placed) == 0,
    decreases ws.len(),
{
    if ws.len() > 0 {
        assert(!is_free(placed, ws[ws.len() - 1]));
        assert forall|j: int| 0 <= j < ws.drop_last().len() implies !is_free(placed, #[trigger] ws.drop_last()[j]) by {
            assert(ws.drop_last()[j] == ws[j]);
        }
        lemma_count_free_words_none(ws.drop_last(), placed);
    }
}

impl Solver {
    /// The search starts from a state with nothing placed.
    proof fn lemma_initial_tracked(self)
        requires
            self.spec_words().len() <= 64,
        ensures
            self.state_ok(self.initial()),
            self.mask_matches(self.initial()),
            self.words_distinct(self.initial()),
            count_none(self.initial().0) == self.spec_boxes().len(),
            forall|sol: StateView| #[trigger] self.state_ok(sol) ==> self.agrees(self.initial(), sol),
    {
        let init = self.initial();
        assert forall|w: usize| w < 64 implies (!#[trigger] is_free(init.1, w) <==> self.word_in_box(init, w)) by {
            lemma_zero_is_free(w);
        }
        lemma_count_none_all(init.0);
    }
}

impl Solver {
    /// The words and boxes the solver works on are those of its instance.
    pub proof fn lemma_instance_views(self)
        ensures
            self.spec_words() == self.spec_instance().words@.map_values(|s: String| vstd::utf8::encode_utf8(s@)),
            self.spec_boxes() == self.spec_instance().boxes@,
    {
    }
}

/// The consensus of some solutions does not depend on their order.
pub proof fn lemma_consensus_order(sols: Seq<StateView>, p: Seq<StateView>)
    requires
        sols.len() > 0,
        p.to_multiset() == sols.to_multiset(),
        forall|j: int| 0 <= j < sols.len() ==> (#[trigger] sols[j]).0.len() == sols[0].0.len(),
    ensures
        spec_consensus(p) == spec_consensus(sols),
{
    vstd::seq_lib::to_multiset_len(p);
    vstd::seq_lib::to_multiset_len(sols);
    assert forall|x: StateView| p.contains(x) <==> sols.contains(x) by {
        vstd::seq_lib::to_multiset_contains(p, x);
        vstd::seq_lib::to_multiset_contains(sols, x);
    }
    assert(p.contains(p[0]));
    assert(sols.contains(sols[0]));
    let k0 = choose|k: int| 0 <= k < sols.len() && sols[k] == p[0];
    let q0 = choose|k: int| 0 <= k < p.len() && p[k] == sols[0];
    assert(p[0].0.len() == sols[0].0.len()) by {
        assert(sols[k0].0.len() == sols[0].0.len());
    }
    assert forall|i: int| 0 <= i < sols[0].0.len() implies spec_consensus(p)[i] == spec_consensus(sols)[i] by {
        let v = sols[0].0[i];
        if forall|s: int| 0 <= s < sols.len() ==> #[trigger] sols[s].0[i] == sols[0].0[i] {
            assert(sols[k0].0[i] == v);
            assert forall|t: int| 0 <= t < p.len() implies #[trigger] p[t].0[i] == p[0].0[i] by {
                assert(sols.contains(p[t]));
                let k = choose|k: int| 0 <= k < sols.len() && sols[k] == p[t];
                assert(sols[k].0[i] == v);
            }
        } else {
            let s0 = choose|s: int| !(0 <= s < sols.len() ==> #[trigger] sols[s].0[i] == sols[0].0[i]);
            if forall|t: int| 0 <= t < p.len() ==> #[trigger] p[t].0[i] == p[0].0[i] {
                assert(p[q0].0[i] == p[0].0[i]);
                assert(p.contains(sols[s0]));
                let t = choose|t: int| 0 <= t < p.len() && p[t] == sols[s0];
                assert(p[t].0[i] == p[0].0[i]);
                assert(false);
            }
        }
    }
    assert(spec_consensus(p) =~= spec_consensus(sols));
}

/// Each square drawn for the first `n` boxes is the square of one of their cells.
proof fn lemma_square_cell(words: Seq<String>, a: Seq<Option<u8>>, boxes: Seq<CrossBox>, n: nat, p: int)
    requires
        n <= boxes.len(),
        0 <= p < state_squares(words, a, boxes, n).len(),
    ensures
        exists|b: int, i: int|
            0 <= b < n && 0 <= i < boxes[b].len && #[trigger] cell_square(words, a, boxes, b, i) == state_squares(
                words,
                a,
                boxes,
                n,
            )[p],
    decreases n,
{
    let front = state_squares(words, a, boxes, (n - 1) as nat);
    let tail = Seq::new(boxes[n - 1].len as nat, |i: int| cell_square(words, a, boxes, n - 1, i));
    assert(state_squares(words, a, boxes, n) == front + tail);
    if p < front.len() {
        lemma_square_cell(words, a, boxes, (n - 1) as nat, p);
        let (b, i) = choose|b: int, i: int|
            0 <= b < n - 1 && 0 <= i < boxes[b].len && #[trigger] cell_square(words, a, boxes, b, i) == front[p];
        assert(state_squares(words, a, boxes, n)[p] == front[p]);
        assert(cell_square(words, a, boxes, b, i) == state_squares(words, a, boxes, n)[p]);
    } else {
        let i = p - front.len();
        assert(state_squares(words, a, boxes, n)[p] == tail[i]);
        assert(cell_square(words, a, boxes, n - 1, i) == state_squares(words, a, boxes, n)[p]);
    }
}

/// Cell `i` of a box, counted as `format_state` counts it, is the cell the
/// layout gives it: `i` steps from the first cell in the box's direction.
pub proof fn lemma_cell_position_is_layout_cell(b: CrossBox, i: int)
    requires
        0 <= i <= i32::MAX,
    ensures
        cell_position(b, i) == cell_at(b.x as int, b.y as int, b.dir, i),
{
}

/// Every square drawn for the first `n` boxes lies on a cell of one of
/// them, as the layout places that cell.
pub proof fn lemma_squares_on_cells(words: Seq<String>, a: Seq<Option<u8>>, boxes: Seq<CrossBox>, n: nat, p: int)
    requires
        n <= boxes.len(),
        0 <= p < state_squares(words, a, boxes, n).len(),
        positions_fit(boxes),
        forall|b: int| 0 <= b < boxes.len() ==> (#[trigger] boxes[b]).len <= i32::MAX + 1,
    ensures
        exists|b: int, i: int|
            0 <= b < n && 0 <= i < boxes[b].len && (
            state_squares(words, a, boxes, n)[p].0 as int,
            state_squares(words, a, boxes, n)[p].1 as int,
        ) == #[trigger] cell_at(boxes[b].x as int, boxes[b].y as int, boxes[b].dir, i),
{
    lemma_square_cell(words, a, boxes, n, p);
    let (b, i) = choose|b: int, i: int|
        0 <= b < n && 0 <= i < boxes[b].len && #[trigger] cell_square(words, a, boxes, b, i) == state_squares(
            words,
            a,
            boxes,
            n,
        )[p];
    lemma_cell_position_is_layout_cell(boxes[b], i);
    let q = cell_position(boxes[b], i);
    assert(i32::MIN <= q.0 <= i32::MAX && i32::MIN <= q.1 <= i32::MAX);
    assert(state_squares(words, a, boxes, n)[p].0 as int == q.0);
    assert(state_squares(words, a, boxes, n)[p].1 as int == q.1);
}

impl Solver {
    /// The crossings the solver checks for each box are exactly the
    /// crossings of the puzzle that the box takes part in, each seen from
    /// that box: every crossing of the puzzle is checked from both its boxes.
    pub open spec fn checks_every_crossing(self) -> bool {
        let cs = self.spec_instance().crossings@;
        let bc = self.spec_box_crossings();
        &&& bc.len() == self.spec_boxes().len()
        &&& forall|k: int| 0 <= k < cs.len() ==> {
            &&& (#[trigger] cs[k]).id_a < bc.len()
            &&& cs[k].id_b < bc.len()
            &&& bc[cs[k].id_a as int].contains(cs[k])
            &&& bc[cs[k].id_b as int].contains(cs[k].spec_reverse())
        }
        &&& forall|b: int, m: int|
            #![trigger bc[b][m]]
            0 <= b < bc.len() && 0 <= m < bc[b].len() ==> comes_from(cs, b, bc[b][m])
    }

    /// In a solution, the two cells of every crossing of the puzzle hold the
    /// same letter.
    pub proof fn lemma_solution_meets_crossings(self, st: StateView)
        requires
            self.checks_every_crossing(),
            self.is_solution(st),
        ensures
            forall|k: int| 0 <= k < self.spec_instance().crossings@.len() ==> {
                let c = #[trigger] self.spec_instance().crossings@[k];
                match (st.0[c.id_a as int], st.0[c.id_b as int]) {
                    (Some(wa), Some(wb)) => self.spec_words()[wa as int][c.c_a as int] == self.spec_words()[wb as int][c.c_b as int],
                    _ => true,
                }
            },
    {
        let cs = self.spec_instance().crossings@;
        let bc = self.spec_box_crossings();
        assert forall|k: int| 0 <= k < cs.len() implies {
            let c = #[trigger] cs[k];
            match (st.0[c.id_a as int], st.0[c.id_b as int]) {
                (Some(wa), Some(wb)) => self.spec_words()[wa as int][c.c_a as int] == self.spec_words()[wb as int][c.c_b as int],
                _ => true,
            }
        } by {
            let c = cs[k];
            let m = choose|m: int| 0 <= m < bc[c.id_a as int].len() && bc[c.id_a as int][m] == c;
            if st.0[c.id_a as int] is Some {
                assert(self.crossing_ok(st, (st.0[c.id_a as int]->0) as usize, bc[c.id_a as int][m]));
            }
        }
    }
}

impl Solver {
    /// Every two cells of the boxes that lie on the same square are named by
    /// a crossing, seen from the first of the two boxes.
    pub open spec fn crossings_cover(self) -> bool {
        forall|b1: int, i1: int, b2: int, i2: int|
            0 <= b1 < self.spec_boxes().len() && 0 <= i1 < self.spec_boxes()[b1].len && 0 <= b2
                < self.spec_boxes().len() && 0 <= i2 < self.spec_boxes()[b2].len && (b1 != b2 || i1 != i2)
                && #[trigger] cell_position(self.spec_boxes()[b1], i1) == #[trigger] cell_position(
                self.spec_boxes()[b2],
                i2,
            ) ==> exists|k: int|
                0 <= k < self.spec_box_crossings()[b1].len() && {
                    let c = #[trigger] self.spec_box_crossings()[b1][k];
                    c.id_b == b2 && c.c_a == i1 && c.c_b == i2
                }
    }

    /// Every word is written in ASCII characters other than the blank.
    pub open spec fn words_ascii(self) -> bool {
        forall|w: int|
            0 <= w < self.spec_instance().words@.len() ==> {
                &&& vstd::utf8::is_ascii_chars(#[trigger] self.spec_instance().words@[w]@)
                &&& !self.spec_instance().words@[w]@.contains(' ')
            }
    }

    /// The grid drawn for a solution that fills every box, when the words are
    /// written in ASCII and every square that two cells share is named by a
    /// crossing, never shows two letters on one square, and shows no blank.
    pub proof fn lemma_grid_consistent(self, st: StateView)
        requires
            self.is_solution(st),
            forall|b: int| 0 <= b < st.0.len() ==> #[trigger] st.0[b] is Some,
            self.words_ascii(),
            self.crossings_cover(),
            positions_fit(self.spec_boxes()),
        ensures
            ({
                let sq = state_squares(self.spec_instance().words@, st.0, self.spec_boxes(), self.spec_boxes().len());
                &&& forall|p: int, q: int|
                    0 <= p < sq.len() && 0 <= q < sq.len() && (#[trigger] sq[p]).0 == (#[trigger] sq[q]).0 && sq[p].1
                        == sq[q].1 ==> sq[p].2 == sq[q].2
                &&& forall|p: int| 0 <= p < sq.len() ==> (#[trigger] sq[p]).2 != seq![' ']
            }),
    {
        let words = self.spec_instance().words@;
        let boxes = self.spec_boxes();
        let n = boxes.len();
        let sq = state_squares(words, st.0, boxes, n);
        // the letter of a filled cell
        assert forall|b: int, i: int| 0 <= b < n && 0 <= i < boxes[b].len implies {
            let w = (st.0[b]->0) as int;
            &&& 0 <= w < words.len()
            &&& i < words[w]@.len()
            &&& #[trigger] cell_char(words, st.0, b, i) == words[w]@[i]
            &&& self.spec_words()[w][i] == words[w]@[i] as u8
            &&& words[w]@[i] != ' '
            &&& words[w]@[i] <= '\u{7f}'
        } by {
            assert(st.0[b] is Some);
            let w = (st.0[b]->0) as int;
            assert(self.spec_words()[w] == vstd::utf8::encode_utf8(words[w]@));
            assert(vstd::utf8::is_ascii_chars(words[w]@));
            vstd::utf8::is_ascii_chars_encode_utf8(words[w]@);
            if words[w]@[i] == ' ' {
                assert(words[w]@.contains(' '));
            }
        }
        assert forall|p: int| 0 <= p < sq.len() implies (#[trigger] sq[p]).2 != seq![' '] by {
            lemma_square_cell(words, st.0, boxes, n, p);
            let (b, i) = choose|b: int, i: int|
                0 <= b < n && 0 <= i < boxes[b].len && #[trigger] cell_square(words, st.0, boxes, b, i) == sq[p];
            let ch = cell_char(words, st.0, b, i);
            assert(ch != ' ');
            assert(spec_ascii_upper(ch) != ' ');
            assert(sq[p].2[0] == spec_ascii_upper(ch));
        }
        assert forall|p: int, q: int|
            0 <= p < sq.len() && 0 <= q < sq.len() && (#[trigger] sq[p]).0 == (#[trigger] sq[q]).0 && sq[p].1 == sq[q].1
                implies sq[p].2 == sq[q].2 by {
            lemma_square_cell(words, st.0, boxes, n, p);
            lemma_square_cell(words, st.0, boxes, n, q);
            let (b1, i1) = choose|b: int, i: int|
                0 <= b < n && 0 <= i < boxes[b].len && #[trigger] cell_square(words, st.0, boxes, b, i) == sq[p];
            let (b2, i2) = choose|b: int, i: int|
                0 <= b < n && 0 <= i < boxes[b].len && #[trigger] cell_square(words, st.0, boxes, b, i) == sq[q];
            let p1 = cell_position(boxes[b1], i1);
            let p2 = cell_position(boxes[b2], i2);
            assert(p1 == p2);
            if b1 != b2 || i1 != i2 {
                let k = choose|k: int|
                    0 <= k < self.spec_box_crossings()[b1].len() && {
                        let c = #[trigger] self.spec_box_crossings()[b1][k];
                        c.id_b == b2 && c.c_a == i1 && c.c_b == i2
                    };
                let c = self.spec_box_crossings()[b1][k];
                let w1 = (st.0[b1]->0) as usize;
                let w2 = (st.0[b2]->0) as usize;
                assert(self.crossing_ok(st, w1, c));
                let x1 = cell_char(words, st.0, b1, i1);
                let x2 = cell_char(words, st.0, b2, i2);
                assert(x1 as u8 == x2 as u8);
                assert(x1 == x2);
            }
        }
    }
}

/// Some word stands in `x` in one box and in `y` in another box.
pub open spec fn apart(x: StateView, y: StateView) -> bool {
    exists|b1: int, b2: int|
        #![trigger x.0[b1], y.0[b2]]
        0 <= b1 < x.0.len() && 0 <= b2 < y.0.len() && b1 != b2 && x.0[b1] is Some && x.0[b1] == y.0[b2]
}

impl Solver {
    /// The words kept in the boxes and the mask of a state agree with each other.
    pub open spec fn tracked_ok(self, st: StateView) -> bool {
        &&& self.state_ok(st)
        &&& self.mask_matches(st)
        &&& self.words_distinct(st)
    }

    /// Two states of which one holds a word in a box where the other, with
    /// no word twice, holds it elsewhere differ.
    proof fn lemma_apart_differ(self, x: StateView, y: StateView)
        requires
            apart(x, y),
            self.words_distinct(y),
            x.0.len() == y.0.len(),
        ensures
            x.0 != y.0,
    {
        let (b1, b2) = choose|b1: int, b2: int|
            #![trigger x.0[b1], y.0[b2]]
            0 <= b1 < x.0.len() && 0 <= b2 < y.0.len() && b1 != b2 && x.0[b1] is Some && x.0[b1] == y.0[b2];
        if x.0 == y.0 {
            assert(y.0[b1] is Some);
            assert(y.0[b1] != y.0[b2]);
        }
    }

    /// Filling more boxes keeps two states apart.
    proof fn lemma_apart_agrees(self, x: StateView, y: StateView, x2: StateView, y2: StateView)
        requires
            apart(x, y),
            self.agrees(x, x2),
            self.agrees(y, y2),
        ensures
            apart(x2, y2),
    {
        let (b1, b2) = choose|b1: int, b2: int|
            #![trigger x.0[b1], y.0[b2]]
            0 <= b1 < x.0.len() && 0 <= b2 < y.0.len() && b1 != b2 && x.0[b1] is Some && x.0[b1] == y.0[b2];
        assert(x2.0[b1] == x.0[b1]);
        assert(y2.0[b2] == y.0[b2]);
    }

    /// A step fills one more box and keeps the others.
    proof fn lemma_step_agrees(self, st: StateView, nx: StateView)
        requires
            self.step(st, nx),
        ensures
            self.agrees(st, nx),
    {
        let (b, w) = choose|b: usize, w: usize|
            #![trigger child(st, b, w)]
            b < st.0.len() && st.0[b as int] is None && w < self.spec_words().len() && is_free(st.1, w)
                && self.spec_words()[w as int].len() == self.spec_boxes()[b as int].len
                && self.spec_valid_move(st, w, b) && nx == child(st, b, w);
        assert forall|x: int| 0 <= x < st.0.len() && #[trigger] st.0[x] is Some implies st.0[x] == nx.0[x] by {
            assert(x != b);
        }
    }

    /// The search reports complete states only.
    proof fn lemma_search_complete(self, st: StateView, fuel: nat)
        ensures
            forall|j: int| 0 <= j < self.search(st, fuel).len() ==> self.complete(#[trigger] self.search(st, fuel)[j]),
        decreases fuel, 0nat,
    {
        if self.complete(st) {
            assert(self.search(st, fuel) == seq![st]);
        } else if fuel > 0 {
            self.lemma_search_all_complete(self.spec_next_states(st), (fuel - 1) as nat);
            assert(self.search(st, fuel) == self.search_all(self.spec_next_states(st), (fuel - 1) as nat));
        } else {
            assert(self.search(st, fuel) == Seq::<StateView>::empty());
        }
    }

    /// The searches from `kids` report complete states only.
    proof fn lemma_search_all_complete(self, kids: Seq<StateView>, fuel: nat)
        ensures
            forall|j: int| 0 <= j < self.search_all(kids, fuel).len() ==> self.complete(#[trigger] self.search_all(kids, fuel)[j]),
        decreases fuel, kids.len(),
    {
        if kids.len() > 0 {
            self.lemma_search_complete(kids.last(), fuel);
            self.lemma_search_all_complete(kids.drop_last(), fuel);
            let a = self.search(kids.last(), fuel);
            let b = self.search_all(kids.drop_last(), fuel);
            let all = self.search_all(kids, fuel);
            assert(all == a + b);
            assert forall|j: int| 0 <= j < all.len() implies self.complete(#[trigger] all[j]) by {
                if j < a.len() {
                    assert(all[j] == a[j]);
                } else {
                    assert(all[j] == b[j - a.len()]);
                }
            }
        }
    }

    /// Every state the search from `st` reports keeps the words of `st`.
    proof fn lemma_search_agrees(self, st: StateView, fuel: nat)
        requires
            self.inv(),
            self.spec_words().len() <= 64,
            self.tracked_ok(st),
        ensures
            forall|j: int| 0 <= j < self.search(st, fuel).len() ==> {
                &&& self.agrees(st, #[trigger] self.search(st, fuel)[j])
                &&& self.tracked_ok(self.search(st, fuel)[j])
            },
        decreases fuel, 0nat,
    {
        if self.complete(st) {
            assert(self.search(st, fuel) == seq![st]);
        } else if fuel > 0 {
            let kids = self.spec_next_states(st);
            self.lemma_next_states_steps(st);
            assert forall|j: int| 0 <= j < kids.len() implies {
                &&& self.tracked_ok(#[trigger] kids[j])
                &&& self.agrees(st, kids[j])
            } by {
                self.lemma_step_tracked(st, kids[j]);
                self.lemma_step_agrees(st, kids[j]);
            }
            self.lemma_search_all_agrees(kids, (fuel - 1) as nat);
            let all = self.search(st, fuel);
            assert(all == self.search_all(kids, (fuel - 1) as nat));
            assert forall|j: int| 0 <= j < all.len() implies {
                &&& self.agrees(st, #[trigger] all[j])
                &&& self.tracked_ok(all[j])
            } by {
                let i = choose|i: int| 0 <= i < kids.len() && #[trigger] self.agrees(kids[i], all[j]);
                assert(self.agrees(st, kids[i]));
                assert forall|x: int| 0 <= x < st.0.len() && #[trigger] st.0[x] is Some implies st.0[x] == all[j].0[x] by {
                    assert(kids[i].0[x] == st.0[x]);
                }
            }
        } else {
            assert(self.search(st, fuel) == Seq::<StateView>::empty());
        }
    }

    /// Every state the searches from `kids` report keeps the words of one of them.
    proof fn lemma_search_all_agrees(self, kids: Seq<StateView>, fuel: nat)
        requires
            self.inv(),
            self.spec_words().len() <= 64,
            forall|j: int| 0 <= j < kids.len() ==> self.tracked_ok(#[trigger] kids[j]),
        ensures
            forall|j: int| 0 <= j < self.search_all(kids, fuel).len() ==> {
                &&& exists|i: int| 0 <= i < kids.len() && #[trigger] self.agrees(kids[i], self.search_all(kids, fuel)[j])
                &&& self.tracked_ok(#[trigger] self.search_all(kids, fuel)[j])
            },
        decreases fuel, kids.len(),
    {
        if kids.len() > 0 {
            let last = kids.len() - 1;
            assert(self.tracked_ok(kids[last]));
            self.lemma_search_agrees(kids.last(), fuel);
            assert forall|j: int| 0 <= j < kids.drop_last().len() implies self.tracked_ok(#[trigger] kids.drop_last()[j]) by {
                assert(kids.drop_last()[j] == kids[j]);
            }
            self.lemma_search_all_agrees(kids.drop_last(), fuel);
            let a = self.search(kids.last(), fuel);
            let b = self.search_all(kids.drop_last(), fuel);
            let all = self.search_all(kids, fuel);
            assert(all == a + b);
            assert forall|j: int| 0 <= j < all.len() implies {
                &&& exists|i: int| 0 <= i < kids.len() && #[trigger] self.agrees(kids[i], all[j])
                &&& self.tracked_ok(#[trigger] all[j])
            } by {
                if j < a.len() {
                    assert(all[j] == a[j]);
                    assert(self.agrees(kids[last], all[j]));
                } else {
                    assert(all[j] == b[j - a.len()]);
                    let i = choose|i: int| 0 <= i < kids.drop_last().len() && #[trigger] self.agrees(kids.drop_last()[i], b[j - a.len()]);
                    assert(kids.drop_last()[i] == kids[i]);
                    assert(self.agrees(kids[i], all[j]));
                }
            }
        }
    }
}

impl Solver {
    /// Each state made by putting `w` into one of `slots` is that word in one of the slots.
    proof fn lemma_kids_from(self, st: StateView, w: usize, slots: Seq<usize>)
        ensures
            forall|i: int| #![trigger self.kids(st, w, slots)[i]] 0 <= i < self.kids(st, w, slots).len() ==> exists|k: int|
                0 <= k < slots.len() && #[trigger] child(st, slots[k], w) == self.kids(st, w, slots)[i],
        decreases slots.len(),
    {
        if slots.len() > 0 {
            self.lemma_kids_from(st, w, slots.drop_last());
            let front = self.kids(st, w, slots.drop_last());
            let all = self.kids(st, w, slots);
            let b = slots.last();
            assert forall|i: int| #![trigger all[i]] 0 <= i < all.len() implies exists|k: int|
                0 <= k < slots.len() && #[trigger] child(st, slots[k], w) == all[i] by {
                if i < front.len() {
                    assert(all[i] == front[i]);
                    let k = choose|k: int| 0 <= k < slots.drop_last().len() && #[trigger] child(st, slots.drop_last()[k], w) == front[i];
                    assert(slots.drop_last()[k] == slots[k]);
                } else {
                    assert(all[i] == child(st, b, w));
                    assert(slots[slots.len() - 1] == b);
                }
            }
        }
    }

    /// Putting one word into two different boxes gives states apart.
    proof fn lemma_children_apart(self, st: StateView, w: usize, b1: usize, b2: usize)
        requires
            b1 < st.0.len(),
            b2 < st.0.len(),
            b1 != b2,
        ensures
            apart(child(st, b1, w), child(st, b2, w)),
    {
        let x = child(st, b1, w);
        let y = child(st, b2, w);
        assert(x.0[b1 as int] == Some(w as u8));
        assert(y.0[b2 as int] == Some(w as u8));
    }

    /// The states made by putting `w` into each of the distinct boxes `slots`
    /// are pairwise apart.
    proof fn lemma_kids_apart(self, st: StateView, w: usize, slots: Seq<usize>)
        requires
            slots.no_duplicates(),
            forall|k: int| 0 <= k < slots.len() ==> #[trigger] slots[k] < st.0.len(),
        ensures
            forall|i: int, j: int|
                0 <= i < self.kids(st, w, slots).len() && 0 <= j < self.kids(st, w, slots).len() && i != j
                    ==> apart(#[trigger] self.kids(st, w, slots)[i], #[trigger] self.kids(st, w, slots)[j]),
        decreases slots.len(),
    {
        if slots.len() > 0 {
            let sd = slots.drop_last();
            assert forall|k: int| 0 <= k < sd.len() implies #[trigger] sd[k] < st.0.len() by {
                assert(sd[k] == slots[k]);
            }
            assert(sd.no_duplicates()) by {
                assert forall|a: int, c: int| 0 <= a < sd.len() && 0 <= c < sd.len() && a != c implies sd[a] != sd[c] by {
                    assert(sd[a] == slots[a]);
                    assert(sd[c] == slots[c]);
                }
            }
            self.lemma_kids_apart(st, w, sd);
            self.lemma_kids_from(st, w, sd);
            let front = self.kids(st, w, sd);
            let all = self.kids(st, w, slots);
            let b = slots.last();
            assert(slots[slots.len() - 1] == b);
            if st.0[b as int] is None && self.spec_valid_move(st, w, b) {
                assert(all == front.push(child(st, b, w)));
                assert forall|i: int, j: int|
                    0 <= i < all.len() && 0 <= j < all.len() && i != j implies apart(#[trigger] all[i], #[trigger] all[j]) by {
                    if i < front.len() && j < front.len() {
                        assert(all[i] == front[i]);
                        assert(all[j] == front[j]);
                    } else if i < front.len() {
                        assert(all[i] == front[i]);
                        let k = choose|k: int| 0 <= k < sd.len() && #[trigger] child(st, sd[k], w) == front[i];
                        assert(sd[k] == slots[k]);
                        assert(slots[k] != b);
                        self.lemma_children_apart(st, w, sd[k], b);
                    } else {
                        assert(all[j] == front[j]);
                        let k = choose|k: int| 0 <= k < sd.len() && #[trigger] child(st, sd[k], w) == front[j];
                        assert(sd[k] == slots[k]);
                        assert(slots[k] != b);
                        self.lemma_children_apart(st, w, b, sd[k]);
                    }
                }
            } else {
                assert(all == front);
            }
        }
    }

    /// The successors of a state are pairwise apart.
    proof fn lemma_next_states_apart(self, st: StateView)
        requires
            self.inv(),
            self.state_ok(st),
        ensures
            forall|i: int, j: int|
                0 <= i < self.spec_next_states(st).len() && 0 <= j < self.spec_next_states(st).len() && i != j
                    ==> apart(#[trigger] self.spec_next_states(st)[i], #[trigger] self.spec_next_states(st)[j]),
    {
        match self.spec_best_group(st) {
            None => {},
            Some(g) => {
                let gi = choose|g: int| self.best_at(st, g);
                assert(self.best_at(st, gi));
                let bs = self.spec_box_lens()[g as int];
                assert(bs == self.box_lens@[g as int]@);
                match first_free_word(self.spec_word_lens()[g as int], st.1) {
                    None => {},
                    Some(w) => {
                        assert forall|k: int| 0 <= k < bs.len() implies #[trigger] bs[k] < st.0.len() by {
                            assert(self.box_lens@[g as int]@[k] == bs[k]);
                        }
                        self.lemma_kids_apart(st, w, bs);
                    },
                }
            },
        }
    }

    /// No placement is reported twice by the search from `st`.
    proof fn lemma_search_distinct(self, st: StateView, fuel: nat)
        requires
            self.inv(),
            self.spec_words().len() <= 64,
            self.tracked_ok(st),
        ensures
            forall|i: int, j: int|
                0 <= i < self.search(st, fuel).len() && 0 <= j < self.search(st, fuel).len() && i != j
                    ==> (#[trigger] self.search(st, fuel)[i]).0 != (#[trigger] self.search(st, fuel)[j]).0,
        decreases fuel, 0nat,
    {
        if self.complete(st) {
            assert(self.search(st, fuel) == seq![st]);
        } else if fuel > 0 {
            let kids = self.spec_next_states(st);
            self.lemma_next_states_steps(st);
            self.lemma_next_states_apart(st);
            assert forall|j: int| 0 <= j < kids.len() implies self.tracked_ok(#[trigger] kids[j]) by {
                self.lemma_step_tracked(st, kids[j]);
            }
            self.lemma_search_all_distinct(kids, (fuel - 1) as nat);
            assert(self.search(st, fuel) == self.search_all(kids, (fuel - 1) as nat));
        } else {
            assert(self.search(st, fuel) == Seq::<StateView>::empty());
        }
    }

    /// No placement is reported twice by the searches from states pairwise apart.
    proof fn lemma_search_all_distinct(self, kids: Seq<StateView>, fuel: nat)
        requires
            self.inv(),
            self.spec_words().len() <= 64,
            forall|j: int| 0 <= j < kids.len() ==> self.tracked_ok(#[trigger] kids[j]),
            forall|i: int, j: int| 0 <= i < kids.len() && 0 <= j < kids.len() && i != j ==> apart(#[trigger] kids[i], #[trigger] kids[j]),
        ensures
            forall|i: int, j: int|
                0 <= i < self.search_all(kids, fuel).len() && 0 <= j < self.search_all(kids, fuel).len() && i != j
                    ==> (#[trigger] self.search_all(kids, fuel)[i]).0 != (#[trigger] self.search_all(kids, fuel)[j]).0,
        decreases fuel, kids.len(),
    {
        if kids.len() > 0 {
            let last = kids.len() - 1;
            let kd = kids.drop_last();
            assert(self.tracked_ok(kids[last]));
            self.lemma_search_distinct(kids.last(), fuel);
            self.lemma_search_agrees(kids.last(), fuel);
            assert forall|j: int| 0 <= j < kd.len() implies self.tracked_ok(#[trigger] kd[j]) by {
                assert(kd[j] == kids[j]);
            }
            assert forall|i: int, j: int| 0 <= i < kd.len() && 0 <= j < kd.len() && i != j implies apart(#[trigger] kd[i], #[trigger] kd[j]) by {
                assert(kd[i] == kids[i]);
                assert(kd[j] == kids[j]);
            }
            self.lemma_search_all_distinct(kd, fuel);
            self.lemma_search_all_agrees(kd, fuel);
            let a = self.search(kids.last(), fuel);
            let b = self.search_all(kd, fuel);
            let all = self.search_all(kids, fuel);
            assert(all == a + b);
            // a state from the last kid and one from an earlier kid differ
            assert forall|p: int, q: int| 0 <= p < a.len() && 0 <= q < b.len() implies (#[trigger] a[p]).0 != (#[trigger] b[q]).0 by {
                let i = choose|i: int| 0 <= i < kd.len() && #[trigger] self.agrees(kd[i], b[q]);
                assert(kd[i] == kids[i]);
                assert(apart(kids[last], kids[i]));
                assert(self.agrees(kids[last], a[p]));
                self.lemma_apart_agrees(kids[last], kids[i], a[p], b[q]);
                self.lemma_apart_differ(a[p], b[q]);
            }
            assert forall|i: int, j: int|
                0 <= i < all.len() && 0 <= j < all.len() && i != j implies (#[trigger] all[i]).0 != (#[trigger] all[j]).0 by {
                if i < a.len() && j < a.len() {
                    assert(all[i] == a[i]);
                    assert(all[j] == a[j]);
                } else if i < a.len() {
                    assert(all[i] == a[i]);
                    assert(all[j] == b[j - a.len()]);
                } else if j < a.len() {
                    assert(all[j] == a[j]);
                    assert(all[i] == b[i - a.len()]);
                } else {
                    assert(all[i] == b[i - a.len()]);
                    assert(all[j] == b[j - a.len()]);
                }
            }
        }
    }
}

/// `falling(n, k) <= falling(m, k)` for `k <= n <= m`.
pub proof fn lemma_falling_mono(n: nat, m: nat, k: nat)
    requires
        k <= n <= m,
    ensures
        falling(n, k) <= falling(m, k),
    decreases k,
{
    if k > 0 {
        lemma_falling_mono(n, m, (k - 1) as nat);
        let a = falling(n, (k - 1) as nat);
        let b = falling(m, (k - 1) as nat);
        assert(a * ((n + 1 - k) as nat) <= b * ((m + 1 - k) as nat)) by (nonlinear_arith)
            requires
                a <= b,
                0 <= n + 1 - k <= m + 1 - k,
        ;
    }
}

proof fn lemma_zero_is_free(w: usize)
    requires
        w < 64,
    ensures
        is_free(0u64, w),
{
    assert(0u64 & (1u64 << w) == 0) by (bit_vector)
        requires
            w < 64,
    ;
}

proof fn lemma_count_free_words_all(ws: Seq<usize>, placed: u64)
    requires
        forall|i: int| 0 <= i < ws.len() ==> is_free(placed, #[trigger] ws[i]),
    ensures
        count_free_words(ws, placed) == ws.len(),
    decreases ws.len(),
{
    if ws.len() > 0 {
        assert(is_free(placed, ws[ws.len() - 1]));
        assert forall|i: int| 0 <= i < ws.drop_last().len() implies is_free(placed, #[trigger] ws.drop_last()[i]) by {
            assert(ws.drop_last()[i] == ws[i]);
        }
        lemma_count_free_words_all(ws.drop_last(), placed);
    }
}

proof fn lemma_count_free_words_le(ws: Seq<usize>, placed: u64)
    ensures
        count_free_words(ws, placed) <= ws.len(),
    decreases ws.len(),
{
    if ws.len() > 0 {
        lemma_count_free_words_le(ws.drop_last(), placed);
    }
}

proof fn lemma_count_free_boxes_le(bs: Seq<usize>, a: Seq<Option<u8>>)
    ensures
        count_free_boxes(bs, a) <= bs.len(),
    decreases bs.len(),
{
    if bs.len() > 0 {
        lemma_count_free_boxes_le(bs.drop_last(), a);
    }
}

proof fn lemma_count_free_boxes_all(bs: Seq<usize>, a: Seq<Option<u8>>)
    requires
        forall|i: int| 0 <= i < bs.len() ==> #[trigger] a[bs[i] as int] is None,
    ensures
        count_free_boxes(bs, a) == bs.len(),
    decreases bs.len(),
{
    if bs.len() > 0 {
        assert(a[bs[bs.len() - 1] as int] is None);
        assert forall|i: int| 0 <= i < bs.drop_last().len() implies #[trigger] a[bs.drop_last()[i] as int] is None by {
            assert(bs.drop_last()[i] == bs[i]);
        }
        lemma_count_free_boxes_all(bs.drop_last(), a);
    }
}

proof fn lemma_count_free_boxes_zero(bs: Seq<usize>, a: Seq<Option<u8>>)
    requires
        forall|i: int| 0 <= i < bs.len() ==> #[trigger] a[bs[i] as int] is Some,
    ensures
        count_free_boxes(bs, a) == 0,
    decreases bs.len(),
{
    if bs.len() > 0 {
        assert(a[bs[bs.len() - 1] as int] is Some);
        assert forall|i: int| 0 <= i < bs.drop_last().len() implies #[trigger] a[bs.drop_last()[i] as int] is Some by {
            assert(bs.drop_last()[i] == bs[i]);
        }
        lemma_count_free_boxes_zero(bs.drop_last(), a);
    }
}

proof fn lemma_count_none_all(a: Seq<Option<u8>>)
    requires
        forall|i: int| 0 <= i < a.len() ==> #[trigger] a[i] is None,
    ensures
        count_none(a) == a.len(),
    decreases a.len(),
{
    if a.len() > 0 {
        assert(a[a.len() - 1] is None);
        assert forall|i: int| 0 <= i < a.drop_last().len() implies #[trigger] a.drop_last()[i] is None by {
            assert(a.drop_last()[i] == a[i]);
        }
        lemma_count_none_all(a.drop_last());
    }
}

proof fn lemma_count_none_zero(a: Seq<Option<u8>>)
    requires
        count_none(a) == 0,
    ensures
        forall|i: int| 0 <= i < a.len() ==> #[trigger] a[i] is Some,
    decreases a.len(),
{
    if a.len() > 0 {
        lemma_count_none_zero(a.drop_last());
        assert forall|i: int| 0 <= i < a.len() implies #[trigger] a[i] is Some by {
            if i < a.len() - 1 {
                assert(a.drop_last()[i] == a[i]);
            }
        }
    }
}

proof fn lemma_count_none_update(a: Seq<Option<u8>>, b: int, v: Option<u8>)
    requires
        0 <= b < a.len(),
        a[b] is None,
        v is Some,
    ensures
        count_none(a.update(b, v)) + 1 == count_none(a),
    decreases a.len(),
{
    let u = a.update(b, v);
    if b == a.len() - 1 {
        assert(u.drop_last() == a.drop_last());
    } else {
        assert(u.drop_last() == a.drop_last().update(b, v));
        lemma_count_none_update(a.drop_last(), b, v);
    }
}

proof fn lemma_first_free_word_in(ws: Seq<usize>, placed: u64)
    requires
        first_free_word(ws, placed) is Some,
    ensures
        exists|k: int| 0 <= k < ws.len() && ws[k] == first_free_word(ws, placed)->0,
    decreases ws.len(),
{
    if !is_free(placed, ws[0]) {
        lemma_first_free_word_in(ws.drop_first(), placed);
        let k = choose|k: int| 0 <= k < ws.drop_first().len() && ws.drop_first()[k] == first_free_word(ws.drop_first(), placed)->0;
        assert(ws[k + 1] == ws.drop_first()[k]);
    } else {
        assert(ws[0] == first_free_word(ws, placed)->0);
    }
}

/// A state entry for each of `n` boxes, all empty.
fn empty_assignments(n: usize) -> (r: Vec<Option<u8>>)
    ensures
        r@ == Seq::new(n as nat, |i: int| None::<u8>),
{
    let mut r: Vec<Option<u8>> = Vec::new();
    let mut i: usize = 0;
    while i < n
        invariant
            i <= n,
            r@ == Seq::new(i as nat, |k: int| None::<u8>),
        decreases n - i,
    {
        r.push(None);
        i = i + 1;
    }
    r
}

/// Number of set bits of `x`.
fn count_ones(x: u64) -> (r: u32)
    ensures
        r == bits_set(x, 64),
{
    let mut r: u32 = 0;
    let mut i: usize = 0;
    while i < 64
        invariant
            i <= 64,
            r == bits_set(x, i as nat),
            r <= i,
        decreases 64 - i,
    {
        if x & (1u64 << i) != 0 {
            r = r + 1;
        }
        i = i + 1;
    }
    r
}

/// The longest box is 0 long or as long as some box, and no box is longer.
proof fn lemma_max_box_len(bs: Seq<CrossBox>)
    ensures
        max_box_len(bs) == 0 || exists|i: int| 0 <= i < bs.len() && #[trigger] bs[i].len == max_box_len(bs),
        forall|i: int| 0 <= i < bs.len() ==> #[trigger] bs[i].len <= max_box_len(bs),
    decreases bs.len(),
{
    if bs.len() > 0 {
        lemma_max_box_len(bs.drop_last());
        assert forall|i: int| 0 <= i < bs.len() implies #[trigger] bs[i].len <= max_box_len(bs) by {
            if i < bs.len() - 1 {
                assert(bs.drop_last()[i] == bs[i]);
            }
        }
        if max_box_len(bs) != 0 {
            if bs.last().len > max_box_len(bs.drop_last()) {
                assert(bs[bs.len() - 1].len == max_box_len(bs));
            } else {
                let i = choose|i: int| 0 <= i < bs.drop_last().len() && #[trigger] bs.drop_last()[i].len == max_box_len(bs.drop_last());
                assert(bs[i] == bs.drop_last()[i]);
            }
        }
    }
}

proof fn lemma_no_words_multiset(s: Seq<String>)
    requires
        s.len() == 0,
    ensures
        s.to_multiset() == Multiset::<String>::empty(),
{
    vstd::seq_lib::to_multiset_len(s);
    vstd::multiset::lemma_multiset_empty_len(s.to_multiset());
}

proof fn lemma_with_len_push(ws: Seq<String>, x: String, l: nat)
    ensures
        with_len(ws.push(x), l) == with_len(ws, l) + if byte_len(x) == l { seq![x] } else { Seq::<String>::empty() },
{
    assert(ws.push(x).drop_last() == ws);
    assert(ws.push(x).last() == x);
}

proof fn lemma_sort_by_len_push(ws: Seq<String>, x: String, bound: nat)
    ensures
        sort_by_len(ws.push(x), bound).to_multiset() == if byte_len(x) < bound {
            sort_by_len(ws, bound).to_multiset().insert(x)
        } else {
            sort_by_len(ws, bound).to_multiset()
        },
    decreases bound,
{
    broadcast use vstd::seq_lib::lemma_multiset_commutative, vstd::seq_lib::to_multiset_build, vstd::multiset::group_multiset_axioms;

    if bound > 0 {
        let b1 = (bound - 1) as nat;
        lemma_sort_by_len_push(ws, x, b1);
        lemma_with_len_push(ws, x, b1);
        let t: Seq<String> = if byte_len(x) == b1 { seq![x] } else { Seq::<String>::empty() };
        assert(with_len(ws, b1) + t == with_len(ws.push(x), b1));
        lemma_no_words_multiset(Seq::<String>::empty());
        if byte_len(x) == b1 {
            assert(t == Seq::<String>::empty().push(x));
            assert(t.to_multiset() =~= Multiset::<String>::empty().insert(x));
        } else {
            lemma_no_words_multiset(t);
        }
        assert((with_len(ws, b1) + t).to_multiset() =~= with_len(ws, b1).to_multiset().add(t.to_multiset()));
        assert(sort_by_len(ws.push(x), bound).to_multiset() =~= sort_by_len(ws.push(x), b1).to_multiset().add(
            with_len(ws.push(x), b1).to_multiset(),
        ));
        assert(sort_by_len(ws, bound).to_multiset() =~= sort_by_len(ws, b1).to_multiset().add(with_len(ws, b1).to_multiset()));
    } else {
        assert(sort_by_len(ws.push(x), bound) == Seq::<String>::empty());
        assert(sort_by_len(ws, bound) == Seq::<String>::empty());
    }
}

/// Ordering the words by length keeps every word, and puts shorter words first.
pub proof fn lemma_sort_by_len(ws: Seq<String>, bound: nat)
    requires
        forall|i: int| 0 <= i < ws.len() ==> byte_len(#[trigger] ws[i]) < bound,
    ensures
        sort_by_len(ws, bound).to_multiset() == ws.to_multiset(),
        forall|i: int, j: int|
            0 <= i < j < sort_by_len(ws, bound).len() ==> byte_len(#[trigger] sort_by_len(ws, bound)[i]) <= byte_len(
                #[trigger] sort_by_len(ws, bound)[j],
            ),
    decreases ws.len(),
{
    broadcast use vstd::seq_lib::to_multiset_build, vstd::multiset::group_multiset_axioms;

    if ws.len() == 0 {
        lemma_sort_by_len_empty(ws, bound);
        lemma_no_words_multiset(ws);
        lemma_no_words_multiset(sort_by_len(ws, bound));
    } else {
        let d = ws.drop_last();
        assert forall|i: int| 0 <= i < d.len() implies byte_len(#[trigger] d[i]) < bound by {
            assert(d[i] == ws[i]);
        }
        lemma_sort_by_len(d, bound);
        assert(ws == d.push(ws.last()));
        assert(byte_len(ws[ws.len() - 1]) < bound);
        lemma_sort_by_len_push(d, ws.last(), bound);
    }
    lemma_sort_by_len_ordered(ws, bound);
}

proof fn lemma_sort_by_len_empty(ws: Seq<String>, bound: nat)
    requires
        ws.len() == 0,
    ensures
        sort_by_len(ws, bound) == Seq::<String>::empty(),
    decreases bound,
{
    if bound > 0 {
        lemma_sort_by_len_empty(ws, (bound - 1) as nat);
        assert(with_len(ws, (bound - 1) as nat) == Seq::<String>::empty());
    }
}

proof fn lemma_sort_by_len_ordered(ws: Seq<String>, bound: nat)
    ensures
        forall|i: int, j: int|
            0 <= i < j < sort_by_len(ws, bound).len() ==> byte_len(#[trigger] sort_by_len(ws, bound)[i]) <= byte_len(
                #[trigger] sort_by_len(ws, bound)[j],
            ),
    decreases bound,
{
    if bound > 0 {
        let b1 = (bound - 1) as nat;
        lemma_sort_by_len_ordered(ws, b1);
        lemma_sort_by_len_bound(ws, b1);
        lemma_with_len(ws, b1);
        let front = sort_by_len(ws, b1);
        let back = with_len(ws, b1);
        let all = sort_by_len(ws, bound);
        assert(all == front + back);
        assert forall|i: int, j: int| 0 <= i < j < all.len() implies byte_len(#[trigger] all[i]) <= byte_len(#[trigger] all[j]) by {
            if j < front.len() {
                assert(all[i] == front[i] && all[j] == front[j]);
            } else if i < front.len() {
                assert(all[i] == front[i] && all[j] == back[j - front.len()]);
            } else {
                assert(all[i] == back[i - front.len()] && all[j] == back[j - front.len()]);
            }
        }
    }
}

/// The words of a length group have that length.
proof fn lemma_with_len(ws: Seq<String>, l: nat)
    ensures
        forall|i: int| 0 <= i < with_len(ws, l).len() ==> byte_len(#[trigger] with_len(ws, l)[i]) == l,
    decreases ws.len(),
{
    if ws.len() > 0 {
        lemma_with_len(ws.drop_last(), l);
        let front = with_len(ws.drop_last(), l);
        assert forall|i: int| 0 <= i < with_len(ws, l).len() implies byte_len(#[trigger] with_len(ws, l)[i]) == l by {
            if i < front.len() {
                assert(with_len(ws, l)[i] == front[i]);
            }
        }
    }
}

/// The sorted words are all shorter than the bound.
proof fn lemma_sort_by_len_bound(ws: Seq<String>, bound: nat)
    ensures
        forall|i: int| 0 <= i < sort_by_len(ws, bound).len() ==> byte_len(#[trigger] sort_by_len(ws, bound)[i]) < bound,
    decreases bound,
{
    if bound > 0 {
        let b1 = (bound - 1) as nat;
        lemma_sort_by_len_bound(ws, b1);
        lemma_with_len(ws, b1);
        let front = sort_by_len(ws, b1);
        assert forall|i: int| 0 <= i < sort_by_len(ws, bound).len() implies byte_len(#[trigger] sort_by_len(ws, bound)[i]) < bound by {
            if i < front.len() {
                assert(sort_by_len(ws, bound)[i] == front[i]);
            } else {
                assert(sort_by_len(ws, bound)[i] == with_len(ws, b1)[i - front.len()]);
            }
        }
    }
}

proof fn lemma_word_indices(ws: Seq<Seq<u8>>, l: nat)
    requires
        ws.len() <= usize::MAX,
    ensures
        forall|k: int| 0 <= k < word_indices(ws, l).len() ==> {
            let w = #[trigger] word_indices(ws, l)[k];
            w < ws.len() && ws[w as int].len() == l
        },
    decreases ws.len(),
{
    if ws.len() > 0 {
        lemma_word_indices(ws.drop_last(), l);
        let front = word_indices(ws.drop_last(), l);
        assert forall|k: int| 0 <= k < word_indices(ws, l).len() implies {
            let w = #[trigger] word_indices(ws, l)[k];
            w < ws.len() && ws[w as int].len() == l
        } by {
            if k < front.len() {
                assert(word_indices(ws, l)[k] == front[k]);
                assert(ws.drop_last()[front[k] as int] == ws[front[k] as int]);
            }
        }
    }
}

proof fn lemma_box_indices(bs: Seq<CrossBox>, l: nat)
    requires
        bs.len() <= usize::MAX,
    ensures
        forall|k: int| 0 <= k < box_indices(bs, l).len() ==> {
            let b = #[trigger] box_indices(bs, l)[k];
            b < bs.len() && bs[b as int].len == l
        },
    decreases bs.len(),
{
    if bs.len() > 0 {
        lemma_box_indices(bs.drop_last(), l);
        let front = box_indices(bs.drop_last(), l);
        assert forall|k: int| 0 <= k < box_indices(bs, l).len() implies {
            let b = #[trigger] box_indices(bs, l)[k];
            b < bs.len() && bs[b as int].len == l
        } by {
            if k < front.len() {
                assert(box_indices(bs, l)[k] == front[k]);
                assert(bs.drop_last()[front[k] as int] == bs[front[k] as int]);
            }
        }
    }
}

proof fn lemma_crossings_of(cs: Seq<Crossing>, b: usize, n: nat)
    requires
        forall|j: int| 0 <= j < cs.len() ==> (#[trigger] cs[j]).id_a < n && cs[j].id_b < n,
    ensures
        forall|k: int| 0 <= k < crossings_of(cs, b).len() ==> {
            let c = #[trigger] crossings_of(cs, b)[k];
            c.id_a == b && c.id_b < n
        },
    decreases cs.len(),
{
    if cs.len() > 0 {
        assert forall|j: int| 0 <= j < cs.drop_last().len() implies (#[trigger] cs.drop_last()[j]).id_a < n && cs.drop_last()[j].id_b < n by {
            assert(cs.drop_last()[j] == cs[j]);
        }
        lemma_crossings_of(cs.drop_last(), b, n);
        let c = cs.last();
        assert(cs[cs.len() - 1] == c);
        let front = crossings_of(cs.drop_last(), b);
        let a: Seq<Crossing> = if c.id_a == b { seq![c] } else { seq![] };
        let r: Seq<Crossing> = if c.id_b == b { seq![c.spec_reverse()] } else { seq![] };
        assert forall|k: int| 0 <= k < crossings_of(cs, b).len() implies {
            let x = #[trigger] crossings_of(cs, b)[k];
            x.id_a == b && x.id_b < n
        } by {
            let all = crossings_of(cs, b);
            assert(all == front + a + r);
            if k < front.len() {
                assert(all[k] == front[k]);
            } else if k < front.len() + a.len() {
                assert(all[k] == a[k - front.len()]);
            } else {
                assert(all[k] == r[k - front.len() - a.len()]);
            }
        }
    }
}

proof fn lemma_word_indices_complete(ws: Seq<Seq<u8>>, l: nat, w: int)
    requires
        ws.len() <= usize::MAX,
        0 <= w < ws.len(),
        ws[w].len() == l,
    ensures
        word_indices(ws, l).contains(w as usize),
    decreases ws.len(),
{
    let front = word_indices(ws.drop_last(), l);
    if w == ws.len() - 1 {
        assert(word_indices(ws, l) == front.push((ws.len() - 1) as usize));
        assert(word_indices(ws, l)[front.len() as int] == w as usize);
    } else {
        assert(ws.drop_last()[w] == ws[w]);
        lemma_word_indices_complete(ws.drop_last(), l, w);
        let k = choose|k: int| 0 <= k < front.len() && front[k] == w as usize;
        assert(word_indices(ws, l)[k] == front[k]);
    }
}

proof fn lemma_word_indices_increasing(ws: Seq<Seq<u8>>, l: nat)
    requires
        ws.len() <= usize::MAX,
    ensures
        word_indices(ws, l).no_duplicates(),
        forall|k: int| 0 <= k < word_indices(ws, l).len() ==> #[trigger] word_indices(ws, l)[k] < ws.len(),
    decreases ws.len(),
{
    if ws.len() > 0 {
        lemma_word_indices_increasing(ws.drop_last(), l);
        let front = word_indices(ws.drop_last(), l);
        assert forall|k: int| 0 <= k < word_indices(ws, l).len() implies #[trigger] word_indices(ws, l)[k] < ws.len() by {
            if k < front.len() {
                assert(word_indices(ws, l)[k] == front[k]);
            }
        }
        assert forall|a: int, b: int|
            0 <= a < word_indices(ws, l).len() && 0 <= b < word_indices(ws, l).len() && a != b
                implies word_indices(ws, l)[a] != word_indices(ws, l)[b] by {
            if a < front.len() {
                assert(word_indices(ws, l)[a] == front[a]);
            }
            if b < front.len() {
                assert(word_indices(ws, l)[b] == front[b]);
            }
        }
    }
}

proof fn lemma_box_indices_increasing(bs: Seq<CrossBox>, l: nat)
    requires
        bs.len() <= usize::MAX,
    ensures
        box_indices(bs, l).no_duplicates(),
        forall|k: int| 0 <= k < box_indices(bs, l).len() ==> #[trigger] box_indices(bs, l)[k] < bs.len(),
    decreases bs.len(),
{
    if bs.len() > 0 {
        lemma_box_indices_increasing(bs.drop_last(), l);
        let front = box_indices(bs.drop_last(), l);
        assert forall|k: int| 0 <= k < box_indices(bs, l).len() implies #[trigger] box_indices(bs, l)[k] < bs.len() by {
            if k < front.len() {
                assert(box_indices(bs, l)[k] == front[k]);
            }
        }
        assert forall|a: int, b: int|
            0 <= a < box_indices(bs, l).len() && 0 <= b < box_indices(bs, l).len() && a != b
                implies box_indices(bs, l)[a] != box_indices(bs, l)[b] by {
            if a < front.len() {
                assert(box_indices(bs, l)[a] == front[a]);
            }
            if b < front.len() {
                assert(box_indices(bs, l)[b] == front[b]);
            }
        }
    }
}

proof fn lemma_box_indices_complete(bs: Seq<CrossBox>, l: nat, b: int)
    requires
        bs.len() <= usize::MAX,
        0 <= b < bs.len(),
        bs[b].len == l,
    ensures
        box_indices(bs, l).contains(b as usize),
    decreases bs.len(),
{
    let front = box_indices(bs.drop_last(), l);
    if b == bs.len() - 1 {
        assert(box_indices(bs, l) == front.push((bs.len() - 1) as usize));
        assert(box_indices(bs, l)[front.len() as int] == b as usize);
    } else {
        assert(bs.drop_last()[b] == bs[b]);
        lemma_box_indices_complete(bs.drop_last(), l, b);
        let k = choose|k: int| 0 <= k < front.len() && front[k] == b as usize;
        assert(box_indices(bs, l)[k] == front[k]);
    }
}

/// Crossing `x` of box `b` is a crossing of `cs` that starts at `b`, or the
/// reverse of one that ends at `b`.
pub open spec fn comes_from(cs: Seq<Crossing>, b: int, x: Crossing) -> bool {
    exists|k: int|
        0 <= k < cs.len() && ((#[trigger] cs[k] == x && cs[k].id_a == b) || (cs[k].spec_reverse() == x && cs[k].id_b == b))
}

/// Each crossing of `cs` is among the crossings of its first box, and its
/// reverse among those of its second box.
proof fn lemma_crossings_of_contains(cs: Seq<Crossing>, k: int)
    requires
        0 <= k < cs.len(),
    ensures
        crossings_of(cs, cs[k].id_a).contains(cs[k]),
        crossings_of(cs, cs[k].id_b).contains(cs[k].spec_reverse()),
    decreases cs.len(),
{
    let c = cs[k];
    let d = cs.drop_last();
    if k == cs.len() - 1 {
        let fa = crossings_of(d, c.id_a);
        assert(crossings_of(cs, c.id_a)[fa.len() as int] == c);
        let fb = crossings_of(d, c.id_b);
        let ab: Seq<Crossing> = if c.id_a == c.id_b { seq![c] } else { seq![] };
        assert(crossings_of(cs, c.id_b) == fb + ab + seq![c.spec_reverse()]);
        assert(crossings_of(cs, c.id_b)[(fb.len() + ab.len()) as int] == c.spec_reverse());
    } else {
        assert(d[k] == c);
        lemma_crossings_of_contains(d, k);
        let fa = crossings_of(d, c.id_a);
        let i = choose|i: int| 0 <= i < fa.len() && fa[i] == c;
        assert(crossings_of(cs, c.id_a)[i] == c);
        let fb = crossings_of(d, c.id_b);
        let j = choose|j: int| 0 <= j < fb.len() && fb[j] == c.spec_reverse();
        assert(crossings_of(cs, c.id_b)[j] == c.spec_reverse());
    }
}

/// Each crossing of box `b` is a crossing of `cs` that starts at `b`, or the
/// reverse of one that ends at `b`.
proof fn lemma_crossings_of_from(cs: Seq<Crossing>, b: usize, m: int)
    requires
        0 <= m < crossings_of(cs, b).len(),
    ensures
        exists|k: int|
            0 <= k < cs.len() && ((#[trigger] cs[k] == crossings_of(cs, b)[m] && cs[k].id_a == b) || (
            cs[k].spec_reverse() == crossings_of(cs, b)[m] && cs[k].id_b == b)),
    decreases cs.len(),
{
    let d = cs.drop_last();
    let c = cs.last();
    let f = crossings_of(d, b);
    let a: Seq<Crossing> = if c.id_a == b { seq![c] } else { seq![] };
    let r: Seq<Crossing> = if c.id_b == b { seq![c.spec_reverse()] } else { seq![] };
    assert(crossings_of(cs, b) == f + a + r);
    let k = cs.len() - 1;
    assert(cs[k] == c);
    if m < f.len() {
        assert(crossings_of(cs, b)[m] == f[m]);
        lemma_crossings_of_from(d, b, m);
        let k2 = choose|k2: int|
            0 <= k2 < d.len() && ((#[trigger] d[k2] == f[m] && d[k2].id_a == b) || (d[k2].spec_reverse() == f[m]
                && d[k2].id_b == b));
        assert(cs[k2] == d[k2]);
    } else if m < f.len() + a.len() {
        assert(crossings_of(cs, b)[m] == c);
    } else {
        assert(crossings_of(cs, b)[m] == c.spec_reverse());
    }
}

/// Grouping the crossings `cs` by box with `crossings_of` checks every one
/// of them from both its boxes, and nothing else.
proof fn lemma_checks_every_crossing(cs: Seq<Crossing>, bc: Seq<Seq<Crossing>>, n: nat)
    requires
        bc == Seq::new(n, |b: int| crossings_of(cs, b as usize)),
        n <= usize::MAX,
        forall|k: int| 0 <= k < cs.len() ==> (#[trigger] cs[k]).id_a < n && cs[k].id_b < n,
    ensures
        forall|k: int| 0 <= k < cs.len() ==> {
            &&& (#[trigger] cs[k]).id_a < bc.len()
            &&& cs[k].id_b < bc.len()
            &&& bc[cs[k].id_a as int].contains(cs[k])
            &&& bc[cs[k].id_b as int].contains(cs[k].spec_reverse())
        },
        forall|b: int, m: int|
            #![trigger bc[b][m]]
            0 <= b < bc.len() && 0 <= m < bc[b].len() ==> comes_from(cs, b, bc[b][m]),
{
    assert forall|k: int| 0 <= k < cs.len() implies {
        &&& (#[trigger] cs[k]).id_a < bc.len()
        &&& cs[k].id_b < bc.len()
        &&& bc[cs[k].id_a as int].contains(cs[k])
        &&& bc[cs[k].id_b as int].contains(cs[k].spec_reverse())
    } by {
        lemma_crossings_of_contains(cs, k);
    }
    assert forall|b: int, m: int|
        #![trigger bc[b][m]]
        0 <= b < bc.len() && 0 <= m < bc[b].len() ==> comes_from(cs, b, bc[b][m]) by {
        if 0 <= b < bc.len() && 0 <= m < bc[b].len() {
            assert(bc[b] == crossings_of(cs, b as usize));
            lemma_crossings_of_from(cs, b as usize, m);
            let k = choose|k: int|
                0 <= k < cs.len() && ((#[trigger] cs[k] == crossings_of(cs, b as usize)[m] && cs[k].id_a == b as usize) || (
                cs[k].spec_reverse() == crossings_of(cs, b as usize)[m] && cs[k].id_b == b as usize));
            assert(0 <= k < cs.len() && ((cs[k] == bc[b][m] && cs[k].id_a == b) || (cs[k].spec_reverse() == bc[b][m]
                && cs[k].id_b == b)));
            assert(comes_from(cs, b, bc[b][m]));
        }
    }
}

/// Each crossing of box `b` appears, reversed, among the crossings of the other box.
proof fn lemma_crossings_of_symmetric(cs: Seq<Crossing>, b: usize)
    ensures
        forall|k: int| 0 <= k < crossings_of(cs, b).len() ==> {
            let c = #[trigger] crossings_of(cs, b)[k];
            crossings_of(cs, c.id_b).contains(c.spec_reverse())
        },
    decreases cs.len(),
{
    if cs.len() > 0 {
        let x = cs.last();
        let fr = cs.drop_last();
        lemma_crossings_of_symmetric(fr, b);
        let front = crossings_of(fr, b);
        let a: Seq<Crossing> = if x.id_a == b { seq![x] } else { seq![] };
        let r: Seq<Crossing> = if x.id_b == b { seq![x.spec_reverse()] } else { seq![] };
        assert(crossings_of(cs, b) == front + a + r);
        assert forall|k: int| 0 <= k < crossings_of(cs, b).len() implies {
            let c = #[trigger] crossings_of(cs, b)[k];
            crossings_of(cs, c.id_b).contains(c.spec_reverse())
        } by {
            let all = crossings_of(cs, b);
            let c = all[k];
            let o = c.id_b;
            let fo = crossings_of(fr, o);
            let ao: Seq<Crossing> = if x.id_a == o { seq![x] } else { seq![] };
            let ro: Seq<Crossing> = if x.id_b == o { seq![x.spec_reverse()] } else { seq![] };
            assert(crossings_of(cs, o) == fo + ao + ro);
            if k < front.len() {
                assert(all[k] == front[k]);
                let j = choose|j: int| 0 <= j < fo.len() && fo[j] == c.spec_reverse();
                assert((fo + ao + ro)[j] == fo[j]);
            } else if k < front.len() + a.len() {
                assert(all[k] == a[k - front.len()]);
                assert(c == x);
                assert((fo + ao + ro)[(fo.len() + ao.len()) as int] == x.spec_reverse());
            } else {
                assert(all[k] == r[k - front.len() - a.len()]);
                assert(c == x.spec_reverse());
                assert(c.spec_reverse() == x);
                assert((fo + ao + ro)[fo.len() as int] == x);
            }
        }
    }
}

impl State {
    /// Number of boxes the state has an entry for.
    pub fn box_count(&self) -> (r: usize)
        ensures
            r == self@.0.len(),
    {
        self.assignments.len()
    }

    /// The word in box `b`, by its index in the solver's word list.
    pub fn assignment(&self, b: usize) -> (r: Option<usize>)
        requires
            b < self@.0.len(),
        ensures
            r == match self@.0[b as int] {
                Some(w) => Some(w as usize),
                None => None::<usize>,
            },
    {
        match self.assignments[b] {
            Some(w) => Some(w as usize),
            None => None,
        }
    }

    /// The mask of the words placed.
    pub fn placed_words(&self) -> (r: u64)
        ensures
            r == self@.1,
    {
        self.placed_words
    }
}

impl Solver {
    /// Whether counting the ways to fill each group stays within `usize` for
    /// `state` (`options_fit`).
    pub fn options_fit_for(&self, state: &State) -> (r: bool)
        requires
            self.spec_boxes().len() <= state@.0.len(),
            self.spec_words().len() <= 64,
        ensures
            r == self.options_fit(state@),
    {
        proof {
            use_type_invariant(self);
        }
        let ghost st = state@;
        let n = self.word_lens.len();
        let mut i: usize = 0;
        while i < n
            invariant
                self.inv(),
                st == state@,
                self.spec_boxes().len() <= st.0.len(),
                self.spec_words().len() <= 64,
                n == self.groups(),
                n == self.word_lens@.len(),
                i <= n,
                forall|h: int| 0 <= h < i ==> !#[trigger] self.overfull(st, h),
                forall|g: int| 0 <= g < i && #[trigger] self.open_group(st, g) ==> self.group_options(st, g) <= usize::MAX,
            decreases n - i,
        {
            assert(self.spec_word_lens()[i as int] == self.word_lens@[i as int]@);
            assert(self.spec_box_lens()[i as int] == self.box_lens@[i as int]@);
            assert forall|k: int| 0 <= k < self.word_lens@[i as int]@.len() implies #[trigger] self.word_lens@[i as int]@[k] < 64 by {
                assert(self.word_lens@[i as int]@[k] < self.spec_words().len());
            }
            assert forall|k: int| 0 <= k < self.box_lens@[i as int]@.len() implies #[trigger] self.box_lens@[i as int]@[k] < state.assignments@.len() by {
                assert(self.box_lens@[i as int]@[k] < self.spec_boxes().len());
            }
            let rw = count_remaining_words(&self.word_lens[i], state.placed_words);
            let rb = count_remaining_boxes(&self.box_lens[i], &state.assignments);
            assert(rw == self.remaining_words(st, i as int));
            assert(rb == self.remaining_boxes(st, i as int));
            if rw > 0 {
                if rw > rb {
                    assert(self.overfull(st, i as int));
                    assert forall|g: int|
                        0 <= g < self.groups() && #[trigger] self.open_group(st, g) && !self.overfull(st, g)
                            && (forall|h: int| 0 <= h < g ==> !#[trigger] self.overfull(st, h)) implies self.group_options(st, g) <= usize::MAX by {
                        if g > i {
                            assert(self.overfull(st, i as int));
                        }
                    }
                    return true;
                }
                if checked_options(rb, rw).is_none() {
                    assert(self.open_group(st, i as int));
                    assert(!self.options_fit(st));
                    return false;
                }
            }
            i = i + 1;
        }
        true
    }

    /// All complete placements found by the search, when the puzzle is
    /// within the search's limits: at most 64 words, the ways to fill the
    /// groups countable in `usize`, and no check of a crossing reading outside
    /// a word; `None` otherwise.
    #[verifier::rlimit(30)]
    pub fn try_solve(&self) -> (r: Option<Vec<State>>)
        ensures
            r is Some <==> (self.spec_words().len() <= 64 && self.options_fit(self.initial())
                && self.search_reads_ok(self.initial(), self.spec_boxes().len() as nat)),
            r matches Some(v) ==> views(v@) == self.search(self.initial(), self.spec_boxes().len() as nat),
            r matches Some(v) ==> forall|j: int| 0 <= j < v@.len() ==> self.state_ok(#[trigger] v@[j]@),
            r matches Some(v) ==> forall|j: int| 0 <= j < v@.len() ==> {
                &&& self.full_placement(#[trigger] v@[j]@)
                &&& self.mask_matches(v@[j]@)
            },
            r matches Some(v) ==> (self.self_crossings_aligned() ==> forall|j: int| 0 <= j < v@.len() ==> self.is_solution(#[trigger] v@[j]@)),
            r matches Some(v) ==> (self.groups_countable() ==> forall|sol: StateView|
                #[trigger] self.is_solution(sol) ==> exists|j: int| 0 <= j < v@.len() && v@[j]@.0 == sol.0),
            r matches Some(v) ==> forall|i: int, j: int|
                0 <= i < v@.len() && 0 <= j < v@.len() && i != j ==> (#[trigger] v@[i]@).0 != (#[trigger] v@[j]@).0,
    {
        proof {
            use_type_invariant(self);
        }
        if self.instance.words.len() > 64 {
            return None;
        }
        let init = self.initial_state();
        assert(self.state_ok(init@));
        if !self.options_fit_for(&init) {
            return None;
        }
        match self.search_checked() {
            None => None,
            Some(found) => {
                proof {
                    self.lemma_results(found@);
                }
                Some(found)
            },
        }
    }

    /// The puzzle, with its words ordered by length.
    pub fn instance(&self) -> (r: &Instance)
        ensures
            *r == self.spec_instance(),
    {
        &self.instance
    }

    /// The state the search starts from: every box empty, no word placed.
    pub fn initial_state(&self) -> (r: State)
        ensures
            r@ == self.initial(),
    {
        State { assignments: empty_assignments(self.instance.boxes.len()), placed_words: 0 }
    }
}

/// A copy of the word entries of a state.
fn copy_assignments(a: &Vec<Option<u8>>) -> (r: Vec<Option<u8>>)
    ensures
        r@ == a@,
{
    let mut r: Vec<Option<u8>> = Vec::new();
    let mut i: usize = 0;
    while i < a.len()
        invariant
            i <= a@.len(),
            r@ == a@.take(i as int),
        decreases a@.len() - i,
    {
        r.push(a[i]);
        i = i + 1;
    }
    assert(a@.take(a@.len() as int) == a@);
    r
}

/// The first free word of `ws` is `ws[i]` when `ws[i]` is free and no word before it is.
proof fn lemma_first_free_word(ws: Seq<usize>, placed: u64, i: int)
    requires
        0 <= i < ws.len(),
        is_free(placed, ws[i]),
        forall|j: int| 0 <= j < i ==> !is_free(placed, #[trigger] ws[j]),
    ensures
        first_free_word(ws, placed) == Some(ws[i]),
    decreases i,
{
    if i > 0 {
        assert forall|j: int| 0 <= j < i - 1 implies !is_free(placed, #[trigger] ws.drop_first()[j]) by {
            assert(ws.drop_first()[j] == ws[j + 1]);
        }
        lemma_first_free_word(ws.drop_first(), placed, i - 1);
    }
}

/// No word of `ws` is free, so there is no first free word.
proof fn lemma_first_free_word_none(ws: Seq<usize>, placed: u64)
    requires
        forall|j: int| 0 <= j < ws.len() ==> !is_free(placed, #[trigger] ws[j]),
    ensures
        first_free_word(ws, placed) is None,
    decreases ws.len(),
{
    if ws.len() > 0 {
        assert forall|j: int| 0 <= j < ws.len() - 1 implies !is_free(placed, #[trigger] ws.drop_first()[j]) by {
            assert(ws.drop_first()[j] == ws[j + 1]);
        }
        lemma_first_free_word_none(ws.drop_first(), placed);
    }
}

/// Whether every cell of every box lies where an `i32` can say (`positions_fit`).
pub fn cells_drawable(boxes: &Vec<CrossBox>) -> (r: bool)
    ensures
        r == positions_fit(boxes@),
{
    let mut b: usize = 0;
    while b < boxes.len()
        invariant
            b <= boxes@.len(),
            forall|x: int, i: int|
                0 <= x < b && 0 <= i < boxes@[x].len ==> {
                    let p = #[trigger] cell_position(boxes@[x], i);
                    &&& i32::MIN <= p.0 <= i32::MAX
                    &&& i32::MIN <= p.1 <= i32::MAX
                },
        decreases boxes@.len() - b,
    {
        let bx = boxes[b];
        let mut i: usize = 0;
        while i < bx.len
            invariant
                b < boxes@.len(),
                bx == boxes@[b as int],
                i <= bx.len,
                forall|x: int, j: int|
                    0 <= x < b && 0 <= j < boxes@[x].len ==> {
                        let p = #[trigger] cell_position(boxes@[x], j);
                        &&& i32::MIN <= p.0 <= i32::MAX
                        &&& i32::MIN <= p.1 <= i32::MAX
                    },
                forall|j: int|
                    0 <= j < i ==> {
                        let p = #[trigger] cell_position(bx, j);
                        &&& i32::MIN <= p.0 <= i32::MAX
                        &&& i32::MIN <= p.1 <= i32::MAX
                    },
            decreases bx.len - i,
        {
            let d = (#[verifier::truncate] (i as i32)) as i64;
            let (x, y) = match bx.dir {
                Direction::Left => (bx.x as i64 - d, bx.y as i64),
                Direction::Right => (bx.x as i64 + d, bx.y as i64),
                Direction::Up => (bx.x as i64, bx.y as i64 - d),
                Direction::Down => (bx.x as i64, bx.y as i64 + d),
            };
            assert(x == cell_position(bx, i as int).0 && y == cell_position(bx, i as int).1);
            if x < i32::MIN as i64 || x > i32::MAX as i64 || y < i32::MIN as i64 || y > i32::MAX as i64 {
                assert(!positions_fit(boxes@)) by {
                    assert(cell_position(boxes@[b as int], i as int) == cell_position(bx, i as int));
                }
                return false;
            }
            i = i + 1;
        }
        b = b + 1;
    }
    true
}

/// Whether a solver can be built for the instance (`instance_ok`).
pub fn instance_fits(inst: &Instance) -> (r: bool)
    ensures
        r == instance_ok(*inst),
{
    let boxes = &inst.boxes;
    let mut longest: usize = 0;
    let mut i: usize = 0;
    while i < boxes.len()
        invariant
            i <= boxes@.len(),
            boxes == &inst.boxes,
            longest == max_box_len(boxes@.take(i as int)),
            forall|j: int| 0 <= j < i ==> #[trigger] boxes@[j].len < usize::MAX,
        decreases boxes@.len() - i,
    {
        assert(boxes@.take(i + 1).drop_last() == boxes@.take(i as int));
        if boxes[i].len == usize::MAX {
            return false;
        }
        if boxes[i].len > longest {
            longest = boxes[i].len;
        }
        i = i + 1;
    }
    assert(boxes@.take(boxes@.len() as int) == boxes@);
    let words = &inst.words;
    let mut i: usize = 0;
    while i < words.len()
        invariant
            i <= words@.len(),
            words == &inst.words,
            longest == max_box_len(inst.boxes@),
            forall|j: int| 0 <= j < i ==> byte_len(#[trigger] words@[j]) <= longest,
        decreases words@.len() - i,
    {
        let bytes = words[i].as_str().as_bytes();
        assert(bytes@ == vstd::utf8::encode_utf8(words@[i as int]@));
        if bytes.len() > longest {
            return false;
        }
        i = i + 1;
    }
    let cs = &inst.crossings;
    let mut i: usize = 0;
    while i < cs.len()
        invariant
            i <= cs@.len(),
            cs == &inst.crossings,
            forall|j: int| 0 <= j < i ==> (#[trigger] cs@[j]).id_a < inst.boxes@.len() && cs@[j].id_b < inst.boxes@.len(),
        decreases cs@.len() - i,
    {
        if cs[i].id_a >= inst.boxes.len() || cs[i].id_b >= inst.boxes.len() {
            return false;
        }
        i = i + 1;
    }
    true
}

/// `falling(n, k)` when it fits in `usize`.
fn checked_options(n: usize, k: usize) -> (r: Option<usize>)
    requires
        k <= n,
    ensures
        r matches Some(v) ==> v == falling(n as nat, k as nat),
        r is None <==> falling(n as nat, k as nat) > usize::MAX,
{
    let mut p: usize = 1;
    let mut j: usize = 0;
    while j < k
        invariant
            j <= k <= n,
            p == falling(n as nat, j as nat),
        decreases k - j,
    {
        match p.checked_mul(n - j) {
            Some(q) => {
                p = q;
            },
            None => {
                proof {
                    lemma_falling_le(n as nat, (j + 1) as nat, k as nat);
                }
                return None;
            },
        }
        j = j + 1;
    }
    Some(p)
}

/// Words of `ws` that are not placed, counted.
fn count_remaining_words(ws: &Vec<usize>, placed: u64) -> (r: usize)
    requires
        forall|k: int| 0 <= k < ws@.len() ==> #[trigger] ws@[k] < 64,
    ensures
        r == count_free_words(ws@, placed),
{
    let mut n: usize = 0;
    let mut i: usize = 0;
    while i < ws.len()
        invariant
            i <= ws@.len(),
            n <= i,
            n == count_free_words(ws@.take(i as int), placed),
            forall|k: int| 0 <= k < ws@.len() ==> #[trigger] ws@[k] < 64,
        decreases ws@.len() - i,
    {
        assert(ws@.take(i + 1).drop_last() == ws@.take(i as int));
        let w = ws[i];
        if placed & (1u64 << w) == 0 {
            n = n + 1;
        }
        i = i + 1;
    }
    assert(ws@.take(ws@.len() as int) == ws@);
    n
}

/// Boxes of `bs` that hold no word, counted.
fn count_remaining_boxes(bs: &Vec<usize>, assignments: &Vec<Option<u8>>) -> (r: usize)
    requires
        forall|k: int| 0 <= k < bs@.len() ==> #[trigger] bs@[k] < assignments@.len(),
    ensures
        r == count_free_boxes(bs@, assignments@),
{
    let mut n: usize = 0;
    let mut i: usize = 0;
    while i < bs.len()
        invariant
            i <= bs@.len(),
            n <= i,
            n == count_free_boxes(bs@.take(i as int), assignments@),
            forall|k: int| 0 <= k < bs@.len() ==> #[trigger] bs@[k] < assignments@.len(),
        decreases bs@.len() - i,
    {
        assert(bs@.take(i + 1).drop_last() == bs@.take(i as int));
        let b = bs[i];
        if assignments[b].is_none() {
            n = n + 1;
        }
        i = i + 1;
    }
    assert(bs@.take(bs@.len() as int) == bs@);
    n
}

/// `n * (n - 1) * ... * (n - k + 1)`.
fn options(n: usize, k: usize) -> (r: usize)
    requires
        k <= n,
        falling(n as nat, k as nat) <= usize::MAX,
    ensures
        r == falling(n as nat, k as nat),
{
    let mut p: usize = 1;
    let mut j: usize = 0;
    while j < k
        invariant
            j <= k <= n,
            p == falling(n as nat, j as nat),
            falling(n as nat, k as nat) <= usize::MAX,
        decreases k - j,
    {
        proof {
            lemma_falling_le(n as nat, (j + 1) as nat, k as nat);
        }
        p = p * (n - j);
        j = j + 1;
    }
    p
}

/// `falling(n, i) <= falling(n, k)` for `i <= k <= n`.
pub proof fn lemma_falling_le(n: nat, i: nat, k: nat)
    requires
        i <= k <= n,
    ensures
        falling(n, i) <= falling(n, k),
    decreases k - i,
{
    if i < k {
        lemma_falling_le(n, i, (k - 1) as nat);
        let f = falling(n, (k - 1) as nat);
        assert(f * ((n + 1 - k) as nat) >= f) by (nonlinear_arith)
            requires
                n + 1 - k >= 1,
        ;
    }
}

} // verus!
