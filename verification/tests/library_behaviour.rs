use czor::args::{parse_direction, parse_grid_dimensions, parse_ratio, ArgError};
use czor::file::{formats_for_extension, FileDirection, FileFormat, FileLayout};
use czor::layout::{grid, split_layout, weights_to_split_percentages, Direction, Layout};
use czor::lexer::{Lexer, ParseError, Token};
use czor::parser::{parse, Parser};
use czor::plan::{is_executable, percentages_ok, split_plan, SplitStep};
use czor::text::is_whitespace;

fn panes(n: usize) -> Vec<(u32, Layout)> {
    (0..n).map(|_| (1, Layout::Pane)).collect()
}

// ---------------------------------------------------------------- file layouts

#[test]
fn file_layout_simple_into_layout() {
    let file = FileLayout::Split {
        weight: 1,
        direction: FileDirection::Vertical,
        children: vec![
            FileLayout::Pane { weight: 2, pane: true },
            FileLayout::Pane { weight: 1, pane: true },
        ],
    };
    assert_eq!(
        file.into_layout(),
        Layout::Split {
            direction: Direction::Vertical,
            children: vec![(2, Layout::Pane), (1, Layout::Pane)],
        }
    );
}

#[test]
fn file_layout_nested_into_layout_matches_dsl() {
    let file = FileLayout::Split {
        weight: 1,
        direction: FileDirection::Vertical,
        children: vec![
            FileLayout::Pane { weight: 2, pane: true },
            FileLayout::Split {
                weight: 1,
                direction: FileDirection::Horizontal,
                children: vec![
                    FileLayout::Pane { weight: 1, pane: true },
                    FileLayout::Pane { weight: 1, pane: true },
                ],
            },
        ],
    };
    assert_eq!(file.into_layout(), parse("v(2,h(1,1))").unwrap());
}

#[test]
fn file_layout_keeps_weights_of_split_children_and_drops_own() {
    let file = FileLayout::Split {
        weight: 9,
        direction: FileDirection::Horizontal,
        children: vec![
            FileLayout::Split {
                weight: 3,
                direction: FileDirection::Vertical,
                children: vec![FileLayout::Pane { weight: 5, pane: false }],
            },
            FileLayout::Pane { weight: 7, pane: true },
        ],
    };
    assert_eq!(
        file.into_layout(),
        Layout::Split {
            direction: Direction::Horizontal,
            children: vec![
                (
                    3,
                    Layout::Split {
                        direction: Direction::Vertical,
                        children: vec![(5, Layout::Pane)],
                    }
                ),
                (7, Layout::Pane),
            ],
        }
    );
    assert_eq!(FileLayout::Pane { weight: 4, pane: false }.into_layout(), Layout::Pane);
}

#[test]
fn file_direction_conversions() {
    assert_eq!(Direction::from(FileDirection::Horizontal), Direction::Horizontal);
    assert_eq!(Direction::from(FileDirection::Vertical), Direction::Vertical);
    assert_eq!(FileDirection::from(Direction::Horizontal), FileDirection::Horizontal);
    assert_eq!(FileDirection::from(Direction::Vertical), FileDirection::Vertical);
}

// ---------------------------------------------------------------- percentages

#[test]
fn percentages_are_scale_invariant() {
    let a = weights_to_split_percentages(&[2, 1]);
    assert_eq!(a, weights_to_split_percentages(&[4, 2]));
    assert_eq!(a, weights_to_split_percentages(&[200, 100]));
    assert_eq!(
        weights_to_split_percentages(&[3, 1, 2]),
        weights_to_split_percentages(&[30, 10, 20])
    );
}

#[test]
fn percentages_exact_values() {
    // share of w[i..] in w[i-1..], rounded half up
    assert_eq!(weights_to_split_percentages(&[1, 1, 2]), vec![75, 67]);
    assert_eq!(weights_to_split_percentages(&[1, 7]), vec![88]);
    assert_eq!(weights_to_split_percentages(&[0, 5]), vec![100]);
    assert_eq!(weights_to_split_percentages(&[5, 0]), vec![0]);
    assert_eq!(weights_to_split_percentages(&[u32::MAX]), Vec::<u8>::new());
}

#[test]
fn percentages_ok_matches_panics_of_conversion() {
    assert!(percentages_ok(&vec![]));
    assert!(percentages_ok(&vec![0]));
    assert!(percentages_ok(&vec![1, 1]));
    assert!(!percentages_ok(&vec![0, 0]));
    assert!(!percentages_ok(&vec![1, 0, 0]));
    assert!(!percentages_ok(&vec![u32::MAX, 1]));
    assert!(!percentages_ok(&vec![1, 50_000_000]));
    assert!(percentages_ok(&vec![1, 40_000_000]));
}

// ---------------------------------------------------------------- plans

#[test]
fn plan_of_nested_layout() {
    let layout = parse("v(2,h(1,1))").unwrap();
    assert!(is_executable(&layout));
    assert_eq!(
        split_plan(&layout),
        vec![
            SplitStep { target: 0, direction: Direction::Vertical, percentage: 33 },
            SplitStep { target: 1, direction: Direction::Horizontal, percentage: 50 },
        ]
    );
}

#[test]
fn plan_splits_each_new_pane_then_children_in_order() {
    let layout = parse("h(1,v(1,1),1)").unwrap();
    assert_eq!(
        split_plan(&layout),
        vec![
            SplitStep { target: 0, direction: Direction::Horizontal, percentage: 67 },
            SplitStep { target: 1, direction: Direction::Horizontal, percentage: 50 },
            SplitStep { target: 1, direction: Direction::Vertical, percentage: 50 },
        ]
    );
}

#[test]
fn plan_of_grid_has_one_split_per_extra_pane() {
    assert_eq!(split_plan(&grid(2, 3)).len(), 5);
    assert_eq!(split_plan(&grid(1, 1)).len(), 0);
    assert_eq!(split_plan(&grid(4, 4)).len(), 15);
    let steps = split_plan(&grid(3, 2));
    for (k, step) in steps.iter().enumerate() {
        assert!(step.target <= k);
        assert!(step.percentage <= 100);
    }
}

#[test]
fn plan_of_single_child_and_empty_split() {
    let single = Layout::Split { direction: Direction::Vertical, children: vec![(5, parse("h(1,1)").unwrap())] };
    assert_eq!(
        split_plan(&single),
        vec![SplitStep { target: 0, direction: Direction::Horizontal, percentage: 50 }]
    );
    let empty = Layout::Split { direction: Direction::Vertical, children: vec![] };
    assert!(split_plan(&empty).is_empty());
}

#[test]
fn executable_layouts() {
    assert!(is_executable(&Layout::Pane));
    assert!(!is_executable(&parse("v(0,0)").unwrap()));
    assert!(!is_executable(&parse("v(1,h(0,0))").unwrap()));
    assert!(is_executable(&parse("v(0,1)").unwrap()));
    assert!(!is_executable(&parse("h(4294967295,1)").unwrap()));
    assert!(is_executable(&Layout::Split { direction: Direction::Vertical, children: vec![(0, Layout::Pane)] }));
}

// ---------------------------------------------------------------- grids

#[test]
fn grid_degenerate_dimensions() {
    assert_eq!(grid(1, 0), Layout::Split { direction: Direction::Horizontal, children: vec![] });
    assert_eq!(grid(0, 1), Layout::Split { direction: Direction::Vertical, children: vec![] });
    assert_eq!(
        grid(3, 1),
        Layout::Split { direction: Direction::Vertical, children: panes(3) }
    );
}

// ---------------------------------------------------------------- DSL errors

#[test]
fn parse_errors_name_what_went_wrong() {
    assert_eq!(parse("x(1,1)"), Err(ParseError::UnexpectedChar { ch: 'x', pos: 0 }));
    assert_eq!(parse("v(99999999999,1)"), Err(ParseError::InvalidNumber { start: 2, end: 13 }));
    assert_eq!(parse("v(2,h(1,1)"), Err(ParseError::ExpectedAtEnd { expected: Token::RParen }));
    assert_eq!(parse(""), Err(ParseError::UnexpectedEnd));
    assert_eq!(parse("   "), Err(ParseError::UnexpectedEnd));
    assert_eq!(
        parse("v(1,1))"),
        Err(ParseError::TrailingToken { found: Token::RParen, pos: 7 })
    );
    assert_eq!(
        parse("v(1 1)"),
        Err(ParseError::ExpectedFound { expected: Token::RParen, found: Token::Number(1), pos: 5 })
    );
    assert_eq!(
        parse("v1"),
        Err(ParseError::ExpectedFound { expected: Token::LParen, found: Token::Number(1), pos: 2 })
    );
    assert_eq!(parse("v(,)"), Err(ParseError::UnexpectedToken { found: Token::Comma, pos: 3 }));
    assert_eq!(parse("v"), Err(ParseError::ExpectedAtEnd { expected: Token::LParen }));
    // the lexer stops the parse where the parser asks for the bad token
    assert_eq!(parse("v(1)x"), Err(ParseError::UnexpectedChar { ch: 'x', pos: 4 }));
}

#[test]
fn parse_positions_count_bytes() {
    // U+00A0 is whitespace and takes two bytes
    assert_eq!(parse("\u{a0}x"), Err(ParseError::UnexpectedChar { ch: 'x', pos: 2 }));
    assert_eq!(parse("é"), Err(ParseError::UnexpectedChar { ch: 'é', pos: 0 }));
    assert_eq!(
        parse("v(1)\u{3000})"),
        Err(ParseError::TrailingToken { found: Token::RParen, pos: 8 })
    );
}

#[test]
fn parse_bare_number_and_case() {
    assert_eq!(parse("5"), Ok(Layout::Pane));
    assert_eq!(parse(" 007 "), Ok(Layout::Pane));
    assert_eq!(
        parse("V(1,H(2,3))"),
        parse("v(1,h(2,3))")
    );
    assert_eq!(
        parse("\tv(\n4294967295 ,1)"),
        Ok(Layout::Split {
            direction: Direction::Vertical,
            children: vec![(4294967295, Layout::Pane), (1, Layout::Pane)],
        })
    );
    // a split child always has weight 1
    assert_eq!(
        parse("h(h(1))"),
        Ok(Layout::Split {
            direction: Direction::Horizontal,
            children: vec![(1, Layout::Split { direction: Direction::Horizontal, children: vec![(1, Layout::Pane)] })],
        })
    );
}

#[test]
fn lexer_tokens_and_positions() {
    let mut lexer = Lexer::new(" v( 12 ,h)");
    assert_eq!(lexer.position(), 0);
    assert_eq!(lexer.next_token(), Ok(Some(Token::V)));
    assert_eq!(lexer.position(), 2);
    assert_eq!(lexer.next_token(), Ok(Some(Token::LParen)));
    assert_eq!(lexer.next_token(), Ok(Some(Token::Number(12))));
    assert_eq!(lexer.position(), 6);
    assert_eq!(lexer.next_token(), Ok(Some(Token::Comma)));
    assert_eq!(lexer.next_token(), Ok(Some(Token::H)));
    assert_eq!(lexer.next_token(), Ok(Some(Token::RParen)));
    assert_eq!(lexer.next_token(), Ok(None));
    assert_eq!(lexer.position(), 10);
    assert_eq!(lexer.next_token(), Ok(None));
}

#[test]
fn parser_state_accessors() {
    let parser = Parser::new("  h(1)").unwrap();
    assert!(parser.has_remaining());
    assert_eq!(parser.current_token(), Some(&Token::H));
    assert_eq!(parser.position(), 3);
    let parser = Parser::new("  ").unwrap();
    assert!(!parser.has_remaining());
    assert_eq!(parser.current_token(), None);
    assert_eq!(parser.position(), 2);
    assert!(matches!(Parser::new("?"), Err(ParseError::UnexpectedChar { ch: '?', pos: 0 })));
}

#[test]
fn lexer_stays_on_rejected_character() {
    let mut lexer = Lexer::new(" x(1)");
    assert_eq!(lexer.next_token(), Err(ParseError::UnexpectedChar { ch: 'x', pos: 1 }));
    assert_eq!(lexer.position(), 1);
    // asking again reports the same character: nothing was consumed
    assert_eq!(lexer.next_token(), Err(ParseError::UnexpectedChar { ch: 'x', pos: 1 }));
    assert_eq!(lexer.position(), 1);
}

#[test]
fn lexer_after_invalid_number_is_past_the_digits() {
    let mut lexer = Lexer::new("  99999999999 )");
    assert_eq!(lexer.next_token(), Err(ParseError::InvalidNumber { start: 2, end: 13 }));
    assert_eq!(lexer.position(), 13);
    assert_eq!(lexer.next_token(), Ok(Some(Token::RParen)));
}

#[test]
fn lexer_position_counts_multibyte_whitespace() {
    // U+3000 IDEOGRAPHIC SPACE is three bytes of UTF-8
    let mut lexer = Lexer::new("\u{3000}?");
    assert_eq!(lexer.next_token(), Err(ParseError::UnexpectedChar { ch: '?', pos: 3 }));
    assert_eq!(lexer.position(), 3);
}

#[test]
fn parser_lookahead_is_first_token() {
    let parser = Parser::new(" (12").unwrap();
    assert_eq!(parser.current_token(), Some(&Token::LParen));
    assert_eq!(parser.position(), 2);
    let parser = Parser::new(" \t").unwrap();
    assert!(!parser.has_remaining());
    assert_eq!(parser.current_token(), None);
    let parser = Parser::new("v(1)").unwrap();
    assert!(parser.has_remaining());
    assert_eq!(parser.current_token(), Some(&Token::V));
    let parser = Parser::new("").unwrap();
    assert!(!parser.has_remaining());
    assert!(matches!(Parser::new("x(1)"), Err(ParseError::UnexpectedChar { ch: 'x', pos: 0 })));
}

#[test]
fn spelling_does_not_change_the_parse() {
    let plain = parse("v(2,h(1,1))");
    assert!(plain.is_ok());
    assert_eq!(parse("V(2,H(1,1))"), plain);
    assert_eq!(parse("v( 2 , h( 1 , 1 ) )"), plain);
    assert_eq!(parse("\t v(2,\nH(1,1)) "), plain);
    // a refused input stays refused whatever its spelling
    assert!(parse("v(1 1)").is_err());
    assert!(parse("V( 1  1 )").is_err());
}

#[test]
fn spelling_does_not_change_a_lexing_rejection() {
    for input in ["v(1,x)", "V( 1 , x)", " v(1,\tx ) "] {
        assert!(matches!(parse(input), Err(ParseError::UnexpectedChar { ch: 'x', .. })));
    }
    for input in ["h(1,99999999999)", "H ( 1 ,99999999999 )"] {
        assert!(matches!(parse(input), Err(ParseError::InvalidNumber { .. })));
    }
    // a rejected character after a complete layout still rejects the input
    assert!(matches!(parse("v(1)x"), Err(ParseError::UnexpectedChar { ch: 'x', pos: 4 })));
    assert!(matches!(parse("V( 1 ) x"), Err(ParseError::UnexpectedChar { ch: 'x', pos: 7 })));
}

#[test]
fn split_layout_builds_one_pane_per_weight() {
    assert_eq!(
        split_layout(Direction::Horizontal, vec![2, 1, 3]),
        Layout::Split {
            direction: Direction::Horizontal,
            children: vec![(2, Layout::Pane), (1, Layout::Pane), (3, Layout::Pane)],
        }
    );
    assert_eq!(
        split_layout(Direction::Vertical, vec![]),
        Layout::Split { direction: Direction::Vertical, children: vec![] }
    );
}

#[test]
fn formats_follow_the_extension() {
    assert_eq!(formats_for_extension("json"), vec![FileFormat::Json]);
    assert_eq!(formats_for_extension("JSON"), vec![FileFormat::Json]);
    assert_eq!(formats_for_extension("yaml"), vec![FileFormat::Yaml]);
    assert_eq!(formats_for_extension("YmL"), vec![FileFormat::Yaml]);
    assert_eq!(formats_for_extension(""), vec![FileFormat::Yaml, FileFormat::Json]);
    assert_eq!(formats_for_extension("txt"), vec![FileFormat::Yaml, FileFormat::Json]);
    assert_eq!(formats_for_extension("jsonl"), vec![FileFormat::Yaml, FileFormat::Json]);
}

// ---------------------------------------------------------------- characters

#[test]
fn whitespace_matches_std() {
    for u in 0u32..=0x10FFFF {
        if let Some(c) = char::from_u32(u) {
            assert_eq!(is_whitespace(c), c.is_whitespace(), "U+{:04X}", u);
        }
    }
}

// ---------------------------------------------------------------- arguments

#[test]
fn ratio_parts_read_like_std() {
    for s in ["7", " 7 ", "+7", "\u{2003}12\t", "007", "4294967295", "4294967296", "-1", "+", "", "1 2", "++1", "0"] {
        let expected = s.trim().parse::<u32>();
        match (parse_ratio(s), expected) {
            (Ok(w), Ok(v)) => assert_eq!(w, vec![v], "{:?}", s),
            (Err(ArgError::ZeroWeight), Ok(0)) => {}
            (Err(ArgError::InvalidRatio), Err(_)) => {}
            (got, want) => panic!("{:?}: {:?} vs {:?}", s, got, want),
        }
    }
}

#[test]
fn ratio_errors() {
    assert_eq!(parse_ratio(" 2 : +3 "), Ok(vec![2, 3]));
    assert_eq!(parse_ratio("1:"), Err(ArgError::InvalidRatio));
    assert_eq!(parse_ratio(":"), Err(ArgError::InvalidRatio));
    assert_eq!(parse_ratio("0:x"), Err(ArgError::InvalidRatio));
    assert_eq!(parse_ratio("3:0:1"), Err(ArgError::ZeroWeight));
    assert_eq!(parse_ratio("4294967296:1"), Err(ArgError::InvalidRatio));
}

#[test]
fn grid_dimension_errors() {
    assert_eq!(parse_grid_dimensions("+2x3"), Ok((2, 3)));
    assert_eq!(parse_grid_dimensions("255x255"), Ok((255, 255)));
    assert_eq!(parse_grid_dimensions("256x1"), Err(ArgError::InvalidRowCount));
    assert_eq!(parse_grid_dimensions("1x256"), Err(ArgError::InvalidColumnCount));
    assert_eq!(parse_grid_dimensions("2x3x4"), Err(ArgError::InvalidGridFormat));
    assert_eq!(parse_grid_dimensions("2X3"), Err(ArgError::InvalidGridFormat));
    assert_eq!(parse_grid_dimensions(" 2x3"), Err(ArgError::InvalidRowCount));
    assert_eq!(parse_grid_dimensions("2x0"), Err(ArgError::ZeroGridDimension));
    assert_eq!(parse_grid_dimensions("x"), Err(ArgError::InvalidRowCount));
}

#[test]
fn direction_case_folding_matches_std() {
    for s in ["v", "V", "vertical", "VeRtIcAl", "h", "H", "horizontal", "HORIZONTAL", "x", "", "vert", " v", "\u{212A}", "verticaL\u{0130}"] {
        let lower = s.to_lowercase();
        let expected = match lower.as_str() {
            "v" | "vertical" => Ok(Direction::Vertical),
            "h" | "horizontal" => Ok(Direction::Horizontal),
            _ => Err(ArgError::InvalidDirection),
        };
        assert_eq!(parse_direction(s), expected, "{:?}", s);
    }
}
