use kombilib::layout::{compute_box_position, compute_layout};
use kombilib::output::{format_svg, Square};
use kombilib::parsing::{
    file_is_well_formed, parse_file, prepare_words, split_sections, umlaut, CrossBox, Crossing, Direction,
};
use kombilib::solver::{Instance, Solver};

fn cross_box(id: usize, len: usize, dir: Direction) -> CrossBox {
    CrossBox { x: 0, y: 0, id, len, dir }
}

fn two_box_instance(words: &[&str]) -> Instance {
    Instance {
        boxes: vec![cross_box(0, 3, Direction::Right), cross_box(1, 3, Direction::Down)],
        crossings: vec![Crossing { id_a: 0, id_b: 1, c_a: 0, c_b: 0 }],
        words: words.iter().map(|w| w.to_string()).collect(),
        solution_cells: vec![],
    }
}

#[test]
fn reverse_swaps_the_two_boxes() {
    let c = Crossing { id_a: 1, id_b: 4, c_a: 2, c_b: -3 };
    let r = c.reverse();
    assert_eq!(r, Crossing { id_a: 4, id_b: 1, c_a: -3, c_b: 2 });
    assert_eq!(r.reverse(), c);
}

#[test]
fn direction_from_str_reads_the_four_letters() {
    assert_eq!(Direction::from_str("d"), Ok(Direction::Down));
    assert_eq!(Direction::from_str(" r "), Ok(Direction::Right));
    assert_eq!(Direction::from_str("u"), Ok(Direction::Up));
    assert_eq!(Direction::from_str("l\u{A0}"), Ok(Direction::Left));
    assert_eq!(Direction::from_str("x"), Err(()));
    assert_eq!(Direction::from_str("dd"), Err(()));
    assert_eq!(Direction::from_str(""), Err(()));
}

#[test]
fn box_and_crossing_lines() {
    assert_eq!(CrossBox::from_str("3 7 d"), CrossBox { x: 0, y: 0, id: 2, len: 7, dir: Direction::Down });
    assert_eq!(CrossBox::from_str("  +1\t5   l  extra"), CrossBox { x: 0, y: 0, id: 0, len: 5, dir: Direction::Left });
    assert_eq!(Crossing::from_str("1 2 3 4"), Crossing { id_a: 0, id_b: 1, c_a: 2, c_b: 3 });
    assert_eq!(Crossing::from_str("5 6 -1 0"), Crossing { id_a: 4, id_b: 5, c_a: -2, c_b: -1 });
}

#[test]
fn parse_file_reads_all_three_sections() {
    let b = "// boxes\n2 3 d\n\n1 3 r\r\n";
    let c = "// crossings\n1 2 1 1\n2 1 3 2";
    let s = "1 1\n2 3\n";
    assert!(file_is_well_formed(b, c, s));
    let (boxes, crossings, cells) = parse_file(b, c, s);
    assert_eq!(boxes, vec![cross_box(0, 3, Direction::Right), cross_box(1, 3, Direction::Down)]);
    assert_eq!(
        crossings,
        vec![Crossing { id_a: 0, id_b: 1, c_a: 0, c_b: 0 }, Crossing { id_a: 1, id_b: 0, c_a: 2, c_b: 1 }]
    );
    assert_eq!(cells, vec![(1, 1), (2, 3)]);
}

#[test]
fn malformed_lines_are_reported() {
    assert!(!file_is_well_formed("1 x r", "", ""));
    assert!(!file_is_well_formed("0 3 r", "", ""));
    assert!(!file_is_well_formed("1 3 q", "", ""));
    assert!(!file_is_well_formed("1 3", "", ""));
    assert!(!file_is_well_formed("", "1 2 3", ""));
    assert!(!file_is_well_formed("", "1 2 -2147483648 1", ""));
    assert!(!file_is_well_formed("", "", "1 -1"));
    assert!(!file_is_well_formed("", "", " "));
    assert!(file_is_well_formed("// 1 x r", "//", ""));
}

#[test]
fn umlaut_folds_words() {
    assert_eq!(umlaut("Müller"), "mueller");
    assert_eq!(umlaut("STRAßE"), "strasse");
    assert_eq!(umlaut("Öl"), "oel");
    assert_eq!(umlaut("Äpfel"), "aepfel");
    assert_eq!(umlaut("ÜBER"), "ueber");
    assert!(umlaut("Größe ÄÖÜ äöü ß").is_ascii());
    assert_eq!(umlaut("größer"), "groesser");
    assert_eq!(umlaut("Käse"), "kaese");
}

#[test]
fn prepare_words_drops_blank_lines() {
    let words = prepare_words("Müller\n \n\nHaus\r\nÜber\n");
    assert_eq!(words, vec!["mueller".to_string(), "haus".to_string(), "ueber".to_string()]);
}

#[test]
fn split_sections_needs_three_parts() {
    assert_eq!(
        split_sections("a\n---\nb\n---\nc"),
        Some(("a\n".to_string(), "\nb\n".to_string(), "\nc".to_string()))
    );
    assert_eq!(split_sections("a---b"), None);
    assert_eq!(split_sections("a---b---c---d"), None);
    assert_eq!(split_sections("------"), Some(("".to_string(), "".to_string(), "".to_string())));
}

#[test]
fn box_position_formulas() {
    let a = CrossBox { x: 10, y: 20, id: 0, len: 5, dir: Direction::Down };
    let left = cross_box(1, 4, Direction::Left);
    let right = cross_box(1, 4, Direction::Right);
    assert_eq!(compute_box_position(&a, &left, 2, 3), (13, 22));
    assert_eq!(compute_box_position(&a, &right, 2, 3), (7, 22));
    let a = CrossBox { x: 10, y: 20, id: 0, len: 5, dir: Direction::Right };
    let up = cross_box(1, 4, Direction::Up);
    let down = cross_box(1, 4, Direction::Down);
    assert_eq!(compute_box_position(&a, &up, 2, 3), (12, 23));
    assert_eq!(compute_box_position(&a, &down, 2, 3), (12, 17));
}

#[test]
fn layout_places_crossing_boxes_and_shifts() {
    let mut boxes = vec![cross_box(0, 3, Direction::Right), cross_box(1, 3, Direction::Down)];
    let crossings = vec![Crossing { id_a: 0, id_b: 1, c_a: 1, c_b: 2 }];
    compute_layout(&mut boxes, &crossings);
    // box 1 starts at (1, -2) before the shift by 2 downwards
    assert_eq!((boxes[0].x, boxes[0].y), (0, 2));
    assert_eq!((boxes[1].x, boxes[1].y), (1, 0));
}

#[test]
fn solver_finds_both_placements() {
    let solver = Solver::new(two_box_instance(&["cat", "cow"]));
    let solutions = solver.solve();
    assert_eq!(solutions.len(), 2);
    assert_eq!(solutions[0].assignment(0), Some(1));
    assert_eq!(solutions[0].assignment(1), Some(0));
    assert_eq!(solutions[1].assignment(0), Some(0));
    assert_eq!(solutions[1].assignment(1), Some(1));
    assert_eq!(solutions[0].placed_words(), 3);
    let consensus = solver.consensus(&solutions);
    assert_eq!(consensus.assignment(0), None);
    assert_eq!(consensus.assignment(1), None);
    let one = solver.consensus(&solutions[1..]);
    assert_eq!(one.assignment(0), Some(0));
    assert_eq!(one.assignment(1), Some(1));
}

#[test]
fn solver_finds_nothing_when_letters_clash() {
    let solver = Solver::new(two_box_instance(&["cat", "dog"]));
    assert_eq!(solver.solve().len(), 0);
}

#[test]
fn words_are_ordered_by_length() {
    let mut inst = two_box_instance(&["cow", "ox", "cat", "a"]);
    inst.boxes[0].len = 2;
    let solver = Solver::new(inst);
    assert_eq!(solver.instance().words, vec!["a".to_string(), "ox".to_string(), "cow".to_string(), "cat".to_string()]);
}

#[test]
fn best_group_and_next_states() {
    let solver = Solver::new(two_box_instance(&["cat", "cow"]));
    let start = solver.initial_state();
    assert_eq!(solver.best_group(&start), Some(3));
    let mut queue = Vec::new();
    solver.next_states(&start, &mut queue);
    assert_eq!(queue.len(), 2);
    assert_eq!(queue[0].assignment(0), Some(0));
    assert_eq!(queue[1].assignment(1), Some(0));
    // more words than boxes of their length: nothing to choose
    let solver = Solver::new(two_box_instance(&["cat", "cow", "car"]));
    assert_eq!(solver.best_group(&solver.initial_state()), None);
}

#[test]
fn format_state_lists_every_cell() {
    let mut inst = two_box_instance(&["cat", "cow"]);
    compute_layout(&mut inst.boxes, &inst.crossings);
    let solver = Solver::new(inst);
    let solutions = solver.solve();
    let squares = solver.format_state(&solutions[1]);
    let cells: Vec<(i32, i32, String)> = squares.iter().map(|s| (s.x, s.y, s.char.clone())).collect();
    assert_eq!(
        cells,
        vec![
            (0, 0, "C".to_string()),
            (1, 0, "A".to_string()),
            (2, 0, "T".to_string()),
            (0, 0, "C".to_string()),
            (0, 1, "O".to_string()),
            (0, 2, "W".to_string()),
        ]
    );
    assert_eq!(squares[0].dir, Some(Direction::Right));
    assert_eq!(squares[0].len, Some(3));
    assert_eq!(squares[1].dir, None);
    let empty = solver.format_state(&solver.initial_state());
    assert!(empty.iter().all(|s| s.char == " "));
}

#[test]
fn svg_of_one_square() {
    let sq = Square { x: 0, y: 0, char: "A".to_string(), dir: None, len: None };
    let svg = format_svg(vec![sq]);
    let expected = "<svg width=\"35\" height=\"35\" xmlns=\"http://www.w3.org/2000/svg\">\
<rect x=\"0\" y=\"0\" width=\"35\" height=\"35\" fill=\"#9dd3e3\"/>\n                \
<rect x=\"5\" y=\"5\" width=\"25\" height=\"25\" stroke=\"black\" fill=\"#fcfcfc\" stroke-width=\"5\"/>\n                \
<text x=\"17\" y=\"20\" font-family=\"sans-serif\" font-weight=\"bold\" font-size=\"15\" text-anchor=\"middle\" dominant-baseline=\"middle\">A</text>\
</svg>";
    assert_eq!(svg, expected);
}

#[test]
fn svg_draws_blank_squares_first() {
    let sq = |x: i32, c: &str| Square { x, y: 1, char: c.to_string(), dir: None, len: None };
    let svg = format_svg(vec![sq(0, "B"), sq(1, "A"), sq(2, " "), sq(3, "A")]);
    assert!(svg.starts_with("<svg width=\"110\" height=\"60\""));
    let blank = svg.find("> </text>").unwrap();
    let a = svg.find(">A</text>").unwrap();
    let b = svg.find(">B</text>").unwrap();
    assert!(blank < a && a < b);
    // the two A squares keep their order
    assert!(svg.find("x=\"30\"").unwrap() < svg.find("x=\"80\"").unwrap());
    assert_eq!(format_svg(vec![]), "<svg width=\"35\" height=\"35\" xmlns=\"http://www.w3.org/2000/svg\"><rect x=\"0\" y=\"0\" width=\"35\" height=\"35\" fill=\"#9dd3e3\"/></svg>");
}

#[test]
fn square_format_text() {
    let sq = Square { x: 2, y: 3, char: "Q".to_string(), dir: None, len: None };
    assert_eq!(
        sq.format(),
        "\n                <rect x=\"55\" y=\"80\" width=\"25\" height=\"25\" stroke=\"black\" fill=\"#fcfcfc\" stroke-width=\"5\"/>\n                <text x=\"67\" y=\"95\" font-family=\"sans-serif\" font-weight=\"bold\" font-size=\"15\" text-anchor=\"middle\" dominant-baseline=\"middle\">Q</text>"
    );
}

#[test]
fn solver_reports_each_placement_once() {
    let inst = Instance {
        boxes: vec![
            cross_box(0, 2, Direction::Right),
            cross_box(1, 2, Direction::Right),
            cross_box(2, 2, Direction::Down),
        ],
        crossings: vec![],
        words: vec!["ab".to_string(), "cd".to_string(), "ef".to_string()],
        solution_cells: vec![],
    };
    let solver = Solver::new(inst);
    let solutions = solver.solve();
    assert_eq!(solutions.len(), 6);
    let placements: Vec<Vec<Option<usize>>> =
        solutions.iter().map(|s| (0..3).map(|b| s.assignment(b)).collect()).collect();
    for i in 0..placements.len() {
        for j in 0..placements.len() {
            if i != j {
                assert_ne!(placements[i], placements[j]);
            }
        }
    }
}

#[test]
fn reversed_crossing_reads_as_swapped_line() {
    let c = Crossing::from_str("2 5 3 1");
    assert_eq!(c.reverse(), Crossing::from_str("5 2 1 3"));
}

#[test]
fn box_line_order_does_not_matter() {
    let (a, _, _) = parse_file("2 3 d\n1 3 r\n3 4 l", "", "");
    let (b, _, _) = parse_file("3 4 l\n1 3 r\n2 3 d", "", "");
    assert_eq!(a, b);
    assert_eq!(a.iter().map(|x| x.id).collect::<Vec<_>>(), vec![0, 1, 2]);
}

#[test]
fn consensus_ignores_solution_order() {
    let solver = Solver::new(two_box_instance(&["cat", "cow"]));
    let mut solutions = solver.solve();
    let first = solver.consensus(&solutions);
    solutions.reverse();
    let second = solver.consensus(&solutions);
    for b in 0..2 {
        assert_eq!(first.assignment(b), second.assignment(b));
    }
}

#[test]
fn blocked_state_has_no_solution() {
    let solver = Solver::new(two_box_instance(&["cat", "cow", "car"]));
    assert_eq!(solver.best_group(&solver.initial_state()), None);
    assert!(solver.solve().is_empty());
}

#[test]
fn layout_puts_crossing_cells_on_one_square() {
    let mut boxes = vec![
        cross_box(0, 3, Direction::Right),
        cross_box(1, 4, Direction::Up),
        cross_box(2, 3, Direction::Left),
    ];
    let crossings = vec![
        Crossing { id_a: 0, id_b: 1, c_a: 2, c_b: 1 },
        Crossing { id_a: 2, id_b: 1, c_a: 0, c_b: 3 },
    ];
    compute_layout(&mut boxes, &crossings);
    let cell = |b: &CrossBox, i: i32| match b.dir {
        Direction::Left => (b.x - i, b.y),
        Direction::Right => (b.x + i, b.y),
        Direction::Up => (b.x, b.y - i),
        Direction::Down => (b.x, b.y + i),
    };
    for c in &crossings {
        assert_eq!(cell(&boxes[c.id_a], c.c_a), cell(&boxes[c.id_b], c.c_b));
    }
    assert!(boxes.iter().all(|b| b.x >= 0 && b.y >= 0));
}

#[test]
fn grid_shows_one_letter_per_square() {
    let mut inst = two_box_instance(&["cat", "cow"]);
    compute_layout(&mut inst.boxes, &inst.crossings);
    let solver = Solver::new(inst);
    for state in solver.solve() {
        let squares = solver.format_state(&state);
        for p in &squares {
            assert_ne!(p.char, " ");
            for q in &squares {
                if (p.x, p.y) == (q.x, q.y) {
                    assert_eq!(p.char, q.char);
                }
            }
        }
    }
}

#[test]
fn cell_outside_a_box_matters_only_when_read() {
    let mut inst = two_box_instance(&["cat"]);
    inst.crossings[0].c_a = 5;
    let solver = Solver::new(inst);
    let found = solver.try_solve().unwrap();
    assert_eq!(found.len(), 2);
    let mut inst = two_box_instance(&["cat", "cow"]);
    inst.crossings[0].c_a = 5;
    let solver = Solver::new(inst);
    assert!(solver.try_solve().is_none());
}

#[test]
fn solutions_place_every_word_once() {
    let solver = Solver::new(two_box_instance(&["cat", "cow"]));
    for s in solver.solve() {
        assert_eq!(s.placed_words(), 3);
        let mut words: Vec<usize> = (0..2).map(|b| s.assignment(b).unwrap()).collect();
        words.sort();
        assert_eq!(words, vec![0, 1]);
    }
}
