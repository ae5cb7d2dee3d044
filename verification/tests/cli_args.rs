use czor::args::{parse_direction, parse_grid_dimensions, parse_ratio};
use czor::layout::Direction;

#[test]
fn test_parse_ratio() {
    assert_eq!(parse_ratio("2:1").unwrap(), vec![2, 1]);
    assert_eq!(parse_ratio("1:1:1").unwrap(), vec![1, 1, 1]);
    assert_eq!(parse_ratio("1:2:1").unwrap(), vec![1, 2, 1]);
    assert!(parse_ratio("").is_err());
    assert!(parse_ratio("0:1").is_err());
    assert!(parse_ratio("a:b").is_err());
}

#[test]
fn test_parse_direction() {
    assert!(matches!(parse_direction("v").unwrap(), Direction::Vertical));
    assert!(matches!(parse_direction("V").unwrap(), Direction::Vertical));
    assert!(matches!(parse_direction("vertical").unwrap(), Direction::Vertical));
    assert!(matches!(parse_direction("h").unwrap(), Direction::Horizontal));
    assert!(matches!(parse_direction("H").unwrap(), Direction::Horizontal));
    assert!(matches!(parse_direction("horizontal").unwrap(), Direction::Horizontal));
    assert!(parse_direction("x").is_err());
}

#[test]
fn test_parse_grid_dimensions() {
    assert_eq!(parse_grid_dimensions("2x3").unwrap(), (2, 3));
    assert_eq!(parse_grid_dimensions("1x1").unwrap(), (1, 1));
    assert!(parse_grid_dimensions("0x1").is_err());
    assert!(parse_grid_dimensions("2").is_err());
    assert!(parse_grid_dimensions("axb").is_err());
}
