use scip_cli::columns::{utf16_column, PositionEncoding};
use scip_cli::render::consolidate_render_occurrences;

const ALL: [PositionEncoding; 4] = [
    PositionEncoding::UnspecifiedPositionEncoding,
    PositionEncoding::UTF8CodeUnitOffsetFromLineStart,
    PositionEncoding::UTF16CodeUnitOffsetFromLineStart,
    PositionEncoding::UTF32CodeUnitOffsetFromLineStart,
];

#[test]
fn ascii_columns_are_the_same_in_every_encoding() {
    let line: Vec<char> = "int main(void)".chars().collect();
    for encoding in ALL {
        assert_eq!(utf16_column(&line, 4, encoding), 4);
        assert_eq!(utf16_column(&line, 100, encoding), 14);
    }
}

#[test]
fn columns_stay_within_the_line() {
    let line: Vec<char> = "é🚀x".chars().collect();
    for encoding in ALL {
        for column in 0..12 {
            assert!(utf16_column(&line, column, encoding) <= 4);
        }
    }
    assert_eq!(utf16_column(&line, 1, PositionEncoding::UTF8CodeUnitOffsetFromLineStart), 0);
    assert_eq!(utf16_column(&line, 2, PositionEncoding::UnspecifiedPositionEncoding), 1);
}

#[test]
fn consolidation_is_idempotent_and_sorted() {
    let rows = vec![
        [5, 0, 5, 3, -1, -1, -1, -1, 0, 4],
        [1, 2, 1, 4, 0, 0, 1, 1, 1, 0],
        [1, 2, 1, 4, -1, -1, -1, -1, 0, 9],
        [1, 0, 1, 1, -1, -1, -1, -1, 0, 2],
    ];
    let once = consolidate_render_occurrences(rows);
    assert_eq!(
        once,
        vec![
            [1, 0, 1, 1, -1, -1, -1, -1, 0, 2],
            [1, 2, 1, 4, 0, 0, 1, 1, 1, 9],
            [5, 0, 5, 3, -1, -1, -1, -1, 0, 4],
        ]
    );
    let twice = consolidate_render_occurrences(once.clone());
    assert_eq!(twice, once);
}
