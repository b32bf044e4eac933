use diff::grid::Grid;
use diff::lcs::{choose_move, diff, diff_lines, lcs, reconstruct};
use diff::script::{render, DiffLine, Move};

fn lines(items: &[&str]) -> Vec<String> {
    items.iter().map(|item| item.to_string()).collect()
}

fn common(text: &str) -> DiffLine<String> {
    DiffLine::Common(text.to_string())
}

fn inserted(text: &str) -> DiffLine<String> {
    DiffLine::OnlyInSecond(text.to_string())
}

fn removed(text: &str) -> DiffLine<String> {
    DiffLine::OnlyInFirst(text.to_string())
}

/// Length of a longest common subsequence by trying every subset of `a`.
fn longest_by_enumeration(a: &[String], b: &[String]) -> usize {
    let mut best = 0;
    for mask in 0u32..(1u32 << a.len()) {
        let chosen: Vec<&String> =
            (0..a.len()).filter(|k| mask & (1 << k) != 0).map(|k| &a[k]).collect();
        let mut next = 0;
        for item in b {
            if next < chosen.len() && chosen[next] == item {
                next += 1;
            }
        }
        if next == chosen.len() && chosen.len() > best {
            best = chosen.len();
        }
    }
    best
}

fn first_side(script: &[DiffLine<String>]) -> Vec<String> {
    let mut side = Vec::new();
    for line in script {
        match line {
            DiffLine::Common(text) | DiffLine::OnlyInFirst(text) => side.push(text.clone()),
            DiffLine::OnlyInSecond(_) => {}
        }
    }
    side
}

fn second_side(script: &[DiffLine<String>]) -> Vec<String> {
    let mut side = Vec::new();
    for line in script {
        match line {
            DiffLine::Common(text) | DiffLine::OnlyInSecond(text) => side.push(text.clone()),
            DiffLine::OnlyInFirst(_) => {}
        }
    }
    side
}

fn swapped(script: &[DiffLine<String>]) -> Vec<DiffLine<String>> {
    script
        .iter()
        .map(|line| match line {
            DiffLine::Common(text) => DiffLine::Common(text.clone()),
            DiffLine::OnlyInFirst(text) => DiffLine::OnlyInSecond(text.clone()),
            DiffLine::OnlyInSecond(text) => DiffLine::OnlyInFirst(text.clone()),
        })
        .collect()
}

#[test]
fn table_of_three_lines() {
    let a = lines(&["a", "b", "c"]);
    let b = lines(&["a", "c", "b"]);
    let grid = lcs(&a, &b);
    let expected = [[0, 0, 0, 0], [0, 1, 1, 1], [0, 1, 1, 2], [0, 1, 2, 2]];
    for i in 0..4 {
        for j in 0..4 {
            assert_eq!(grid.get(i, j), expected[i][j], "cell ({}, {})", i, j);
        }
    }
}

#[test]
fn three_lines_with_two_swapped() {
    let a = lines(&["a", "b", "c"]);
    let b = lines(&["a", "c", "b"]);
    assert_eq!(diff_lines(&a, &b), vec![common("a"), removed("b"), common("c"), inserted("b")]);
    assert_eq!(diff(&a, &b), lines(&["", "a", "< b", "c", "> b"]));
}

#[test]
fn empty_first_sequence() {
    let a = lines(&[]);
    let b = lines(&["x", "y"]);
    assert_eq!(diff_lines(&a, &b), vec![inserted("x"), inserted("y")]);
    assert_eq!(diff(&a, &b), lines(&["", "> x", "> y"]));
}

#[test]
fn empty_second_sequence() {
    let a = lines(&["x", "y"]);
    let b = lines(&[]);
    assert_eq!(diff_lines(&a, &b), vec![removed("x"), removed("y")]);
    assert_eq!(diff(&a, &b), lines(&["", "< x", "< y"]));
}

#[test]
fn both_sequences_empty() {
    let a = lines(&[]);
    let b = lines(&[]);
    assert_eq!(diff_lines(&a, &b), Vec::<DiffLine<String>>::new());
    assert_eq!(diff(&a, &b), lines(&[""]));
}

#[test]
fn six_lines_against_five() {
    let a = lines(&["a", "b", "c", "d", "a", "f"]);
    let b = lines(&["a", "c", "b", "c", "f"]);
    let grid = lcs(&a, &b);
    assert_eq!(grid.get(6, 5), 4);
    let script = diff_lines(&a, &b);
    assert_eq!(first_side(&script), a);
    assert_eq!(second_side(&script), b);
    let kept = script.iter().filter(|line| matches!(line, DiffLine::Common(_))).count();
    assert_eq!(kept, 4);
    assert_eq!(script.len(), a.len() + b.len() - kept);
    assert_eq!(
        script,
        vec![
            common("a"),
            inserted("c"),
            common("b"),
            common("c"),
            removed("d"),
            removed("a"),
            common("f"),
        ]
    );
}

#[test]
fn corner_is_longest_common_length() {
    let alphabet = ["a", "b", "c"];
    let mut cases: Vec<Vec<String>> = vec![vec![]];
    let mut start = 0;
    for _ in 0..4 {
        let end = cases.len();
        for k in start..end {
            for letter in alphabet {
                let mut longer = cases[k].clone();
                longer.push(letter.to_string());
                cases.push(longer);
            }
        }
        start = end;
    }
    for a in &cases {
        for b in &cases {
            let grid = lcs(a, b);
            assert_eq!(grid.get(a.len(), b.len()), longest_by_enumeration(a, b));
        }
    }
}

#[test]
fn table_grows_to_the_right_and_down() {
    let a = lines(&["a", "b", "c", "d", "a", "f"]);
    let b = lines(&["a", "c", "b", "c", "f"]);
    let grid = lcs(&a, &b);
    for i in 0..=a.len() {
        assert_eq!(grid.get(i, 0), 0);
    }
    for j in 0..=b.len() {
        assert_eq!(grid.get(0, j), 0);
    }
    for i in 1..=a.len() {
        for j in 1..=b.len() {
            assert!(grid.get(i, j) >= grid.get(i - 1, j));
            assert!(grid.get(i, j) >= grid.get(i, j - 1));
            if a[i - 1] == b[j - 1] {
                assert_eq!(grid.get(i, j), grid.get(i - 1, j - 1) + 1);
            } else {
                assert_eq!(grid.get(i, j), grid.get(i - 1, j).max(grid.get(i, j - 1)));
            }
        }
    }
}

#[test]
fn sequence_against_itself() {
    let a = lines(&["one", "two", "two", "three"]);
    assert_eq!(diff_lines(&a, &a), vec![common("one"), common("two"), common("two"), common("three")]);
    assert_eq!(diff(&a, &a), lines(&["", "one", "two", "two", "three"]));
}

#[test]
fn swapped_roles_without_a_tie() {
    let a = lines(&["a", "b", "c", "d"]);
    let b = lines(&["a", "c"]);
    let forth = diff_lines(&a, &b);
    let back = diff_lines(&b, &a);
    assert_eq!(forth, vec![common("a"), removed("b"), common("c"), removed("d")]);
    assert_eq!(back, vec![common("a"), inserted("b"), common("c"), inserted("d")]);
    assert_eq!(swapped(&forth), back);
}

#[test]
fn swapped_roles_keep_the_counts() {
    let a = lines(&["a", "b"]);
    let b = lines(&["b", "a"]);
    let forth = diff_lines(&a, &b);
    let back = diff_lines(&b, &a);
    assert_eq!(forth, vec![removed("a"), common("b"), inserted("a")]);
    assert_eq!(back, vec![removed("b"), common("a"), inserted("b")]);
    assert_ne!(swapped(&forth), back);
    assert_eq!(forth.len(), back.len());
}

#[test]
fn tie_prefers_the_second_sequence() {
    let a = lines(&["x"]);
    let b = lines(&["y"]);
    let grid = lcs(&a, &b);
    assert_eq!(choose_move(&grid, &a, &b, 1, 1), Move::Second);
    assert_eq!(choose_move(&grid, &a, &b, 1, 0), Move::First);
    assert_eq!(choose_move(&grid, &a, &b, 0, 1), Move::Second);
    assert_eq!(choose_move(&grid, &a, &b, 0, 0), Move::Done);
    assert_eq!(diff_lines(&a, &b), vec![removed("x"), inserted("y")]);
}

#[test]
fn equal_last_lines_leave_together() {
    let a = lines(&["p", "q"]);
    let b = lines(&["q"]);
    let grid = lcs(&a, &b);
    assert_eq!(choose_move(&grid, &a, &b, 2, 1), Move::Both);
    assert_eq!(choose_move(&grid, &a, &b, 1, 1), Move::Second);
}

#[test]
fn larger_cell_above_removes_first() {
    let a = lines(&["a", "b"]);
    let b = lines(&["a", "c"]);
    let grid = lcs(&a, &b);
    assert_eq!(grid.get(2, 1), 1);
    assert_eq!(grid.get(1, 2), 1);
    assert_eq!(choose_move(&grid, &a, &b, 2, 2), Move::Second);
    assert_eq!(grid.get(2, 0), 0);
    assert_eq!(grid.get(1, 1), 1);
    assert_eq!(choose_move(&grid, &a, &b, 2, 1), Move::First);
}

#[test]
fn reconstruct_follows_the_table_it_is_given() {
    let a = lines(&["x"]);
    let b = lines(&["y"]);
    let mut grid = lcs(&a, &b);
    assert_eq!(reconstruct(&grid, &a, &b), vec![removed("x"), inserted("y")]);
    grid.insert(0, 1, 1);
    assert_eq!(reconstruct(&grid, &a, &b), vec![inserted("y"), removed("x")]);
}

#[test]
fn render_marks_each_tag() {
    assert_eq!(common("same").render(), "same");
    assert_eq!(inserted("new").render(), "> new");
    assert_eq!(removed("old").render(), "< old");
    assert_eq!(inserted("").render(), "> ");
    let script = vec![common("same"), inserted("new"), removed("old")];
    assert_eq!(render(&script), lines(&["", "same", "> new", "< old"]));
    assert_eq!(render(&Vec::new()), lines(&[""]));
}

#[test]
fn lines_are_compared_exactly() {
    let a = lines(&["a ", "B"]);
    let b = lines(&["a", "b"]);
    assert_eq!(
        diff_lines(&a, &b),
        vec![removed("a "), removed("B"), inserted("a"), inserted("b")]
    );
}

#[test]
fn cells_outside_the_rectangle_are_not_read() {
    let a = lines(&["a", "b", "c", "d", "a", "f"]);
    let b = lines(&["a", "c", "b", "c", "f"]);
    let exact = lcs(&a, &b);
    let mut wide = Grid::new(a.len() + 3, b.len() + 4);
    for i in 0..a.len() + 3 {
        for j in 0..b.len() + 4 {
            let value = if i <= a.len() && j <= b.len() { exact.get(i, j) } else { 1000 + i + j };
            wide.insert(i, j, value);
        }
    }
    assert_eq!(reconstruct(&wide, &a, &b), reconstruct(&exact, &a, &b));
    assert_eq!(reconstruct(&wide, &a, &b), diff_lines(&a, &b));
}

#[test]
fn reconstruct_needs_no_table_for_an_empty_side() {
    let none = Grid::new(0, 0);
    let a = lines(&["x", "y"]);
    let empty = lines(&[]);
    assert_eq!(reconstruct(&none, &a, &empty), vec![removed("x"), removed("y")]);
    assert_eq!(reconstruct(&none, &empty, &a), vec![inserted("x"), inserted("y")]);
    assert_eq!(reconstruct(&none, &empty, &empty), Vec::<DiffLine<String>>::new());
}

#[test]
fn common_lines_are_a_longest_common_subsequence() {
    let a = lines(&["a", "b", "c", "d", "a", "f"]);
    let b = lines(&["a", "c", "b", "c", "f"]);
    let script = diff_lines(&a, &b);
    let kept: Vec<String> = script
        .iter()
        .filter_map(|line| match line {
            DiffLine::Common(text) => Some(text.clone()),
            _ => None,
        })
        .collect();
    assert_eq!(kept, lines(&["a", "b", "c", "f"]));
    assert_eq!(kept.len(), longest_by_enumeration(&a, &b));
    assert_eq!(script.len() + kept.len(), a.len() + b.len());
}

#[test]
fn clone_keeps_tag_and_text() {
    assert_eq!(common("same").clone(), common("same"));
    assert_eq!(inserted("new").clone(), inserted("new"));
    assert_eq!(removed("old").clone(), removed("old"));
}
