use rusty_combinatorial::backtrack::nqueens::solve_nqueens;
use rusty_combinatorial::viz::drawing::{Content, Drawing, Shape};
use rusty_combinatorial::viz::gray_svg::draw_gray_code;
use rusty_combinatorial::viz::nqueens_svg::draw_nqueens;
use rusty_combinatorial::viz::young_svg::draw_young_tableau;

fn square(x: usize, y: usize, size: usize, fill: &'static str) -> Shape {
    Shape::Rect { x, y, width: size, height: size, fill, stroke: None }
}

fn queen(x: usize, y: usize, font_size: usize) -> Shape {
    Shape::Label {
        x,
        y,
        font_size,
        fill: "red",
        centred: true,
        family: None,
        content: Content::Text("\u{265b}".to_string()),
    }
}

#[test]
fn nqueens_board_of_two_rows() {
    let d = draw_nqueens(&[1, 0], 10);
    let expected = Drawing {
        width: 20,
        height: 20,
        shapes: vec![
            square(0, 0, 10, "#EEE"),
            square(10, 0, 10, "#666"),
            square(0, 10, 10, "#666"),
            square(10, 10, 10, "#EEE"),
            queen(15, 5, 5),
            queen(5, 15, 5),
        ],
    };
    assert_eq!(d, expected);
}

#[test]
fn nqueens_empty_board_and_flat_squares() {
    let d = draw_nqueens(&[], 40);
    assert_eq!(d, Drawing { width: 0, height: 0, shapes: vec![] });
    let flat = draw_nqueens(&[0], 0);
    assert_eq!(
        flat,
        Drawing { width: 0, height: 0, shapes: vec![square(0, 0, 0, "#EEE"), queen(0, 0, 0)] }
    );
}

#[test]
fn nqueens_drawing_of_a_solution() {
    let solutions = solve_nqueens(4);
    let d = draw_nqueens(&solutions[0], 7);
    assert_eq!(d.width, 28);
    assert_eq!(d.height, 28);
    assert_eq!(d.shapes.len(), 16 + 4);
    assert_eq!(d.shapes[5], square(7, 7, 7, "#EEE"));
    assert_eq!(d.shapes[6], square(14, 7, 7, "#666"));
    // the first solution is [1, 3, 0, 2]
    assert_eq!(d.shapes[16], queen(7 + 3, 3, 3));
    assert_eq!(d.shapes[17], queen(21 + 3, 7 + 3, 3));
    assert_eq!(d.shapes[18], queen(3, 14 + 3, 3));
    assert_eq!(d.shapes[19], queen(14 + 3, 21 + 3, 3));
}

fn frame(x: usize, y: usize, size: usize) -> Shape {
    Shape::Rect { x, y, width: size, height: size, fill: "white", stroke: Some("black") }
}

fn entry(x: usize, y: usize, font_size: usize, value: usize) -> Shape {
    Shape::Label {
        x,
        y,
        font_size,
        fill: "black",
        centred: true,
        family: None,
        content: Content::Number(value),
    }
}

#[test]
fn young_tableau_of_three_cells() {
    let d = draw_young_tableau(&[vec![1, 3], vec![2]], 20);
    let expected = Drawing {
        width: 40,
        height: 40,
        shapes: vec![
            frame(0, 0, 20),
            entry(10, 10, 10, 1),
            frame(20, 0, 20),
            entry(30, 10, 10, 3),
            frame(0, 20, 20),
            entry(10, 30, 10, 2),
        ],
    };
    assert_eq!(d, expected);
}

#[test]
fn young_tableau_width_is_that_of_the_longest_row() {
    let d = draw_young_tableau(&[vec![1], vec![2, 3, 4], vec![]], 5);
    assert_eq!(d.width, 15);
    assert_eq!(d.height, 15);
    assert_eq!(d.shapes.len(), 8);
    assert_eq!(d.shapes[6], frame(10, 5, 5));
    assert_eq!(d.shapes[7], entry(12, 7, 2, 4));
    let none = draw_young_tableau(&[], 5);
    assert_eq!(none, Drawing { width: 0, height: 0, shapes: vec![] });
}

fn line(y: usize, font_size: usize, word: &str) -> Shape {
    Shape::Label {
        x: 0,
        y,
        font_size,
        fill: "black",
        centred: false,
        family: Some("monospace"),
        content: Content::Text(word.to_string()),
    }
}

#[test]
fn gray_code_lines() {
    let codes = vec!["00".to_string(), "01".to_string(), "11".to_string(), "10".to_string()];
    let d = draw_gray_code(&codes, 12, 16);
    let expected = Drawing {
        width: 24,
        height: 64,
        shapes: vec![line(12, 12, "00"), line(28, 12, "01"), line(44, 12, "11"), line(60, 12, "10")],
    };
    assert_eq!(d, expected);
}

#[test]
fn gray_code_width_counts_bytes_of_the_longest_word() {
    let codes = vec!["a".to_string(), "\u{e9}\u{e9}".to_string(), "abc".to_string()];
    let d = draw_gray_code(&codes, 10, 3);
    assert_eq!(d.width, 40);
    assert_eq!(d.height, 9);
    assert_eq!(d.shapes[1], line(13, 10, "\u{e9}\u{e9}"));
    let none = draw_gray_code(&[], 10, 3);
    assert_eq!(none, Drawing { width: 0, height: 0, shapes: vec![] });
}
