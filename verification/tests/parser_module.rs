use czor::layout::{Direction, Layout};
use czor::parser::parse;

#[test]
fn parser_test_parse_simple_vertical() {
    let layout = parse("v(2,1)").unwrap();
    assert_eq!(
        layout,
        Layout::Split {
            direction: Direction::Vertical,
            children: vec![(2, Layout::Pane), (1, Layout::Pane)],
        }
    );
}

#[test]
fn parser_test_parse_simple_horizontal() {
    let layout = parse("h(1,1,1)").unwrap();
    assert_eq!(
        layout,
        Layout::Split {
            direction: Direction::Horizontal,
            children: vec![(1, Layout::Pane), (1, Layout::Pane), (1, Layout::Pane)],
        }
    );
}

#[test]
fn parser_test_parse_nested() {
    let layout = parse("v(2,h(1,1))").unwrap();
    assert_eq!(
        layout,
        Layout::Split {
            direction: Direction::Vertical,
            children: vec![
                (2, Layout::Pane),
                (
                    1,
                    Layout::Split {
                        direction: Direction::Horizontal,
                        children: vec![(1, Layout::Pane), (1, Layout::Pane)],
                    }
                ),
            ],
        }
    );
}

#[test]
fn parser_test_parse_deeply_nested() {
    let layout = parse("v(1,v(1,1))").unwrap();
    assert_eq!(
        layout,
        Layout::Split {
            direction: Direction::Vertical,
            children: vec![
                (1, Layout::Pane),
                (
                    1,
                    Layout::Split {
                        direction: Direction::Vertical,
                        children: vec![(1, Layout::Pane), (1, Layout::Pane)],
                    }
                ),
            ],
        }
    );
}

#[test]
fn parser_test_parse_with_whitespace() {
    let layout = parse("v( 2 , h( 1 , 1 ) )").unwrap();
    assert_eq!(
        layout,
        Layout::Split {
            direction: Direction::Vertical,
            children: vec![
                (2, Layout::Pane),
                (
                    1,
                    Layout::Split {
                        direction: Direction::Horizontal,
                        children: vec![(1, Layout::Pane), (1, Layout::Pane)],
                    }
                ),
            ],
        }
    );
}

#[test]
fn parser_test_parse_error_missing_paren() {
    assert!(parse("v(2,h(1,1)").is_err());
}

#[test]
fn parser_test_parse_error_empty() {
    assert!(parse("").is_err());
}

#[test]
fn parser_test_parse_error_invalid_char() {
    assert!(parse("x(1,1)").is_err());
}
