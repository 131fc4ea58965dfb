use game_of_life::cell::Cell;
use game_of_life::initial_cells::{parse_cell_line, read_initial_cells, CellLine, InputError};

fn lines(text: &[&str]) -> Vec<String> {
    text.iter().map(|l| l.to_string()).collect()
}

#[test]
fn parses_a_cell() {
    assert_eq!(parse_cell_line("3,4", 10), Ok(CellLine::Alive(Cell::new(3, 4))));
    assert_eq!(parse_cell_line("  +7,0 \r\n", 10), Ok(CellLine::Alive(Cell::new(7, 0))));
    assert_eq!(parse_cell_line("4294967294,0", u32::MAX), Ok(CellLine::Alive(Cell::new(4294967294, 0))));
}

#[test]
fn recognises_the_closing_line() {
    assert_eq!(parse_cell_line("END", 10), Ok(CellLine::End));
    assert_eq!(parse_cell_line(" end\n", 10), Ok(CellLine::End));
    assert_eq!(parse_cell_line("eNd", 10), Ok(CellLine::End));
    assert_eq!(parse_cell_line("ENDS", 10), Err(InputError::InvalidFormat));
}

#[test]
fn refuses_malformed_lines() {
    for bad in ["", "12", "1,2,3", "a,1", "1,", ",1", "1 ,2", "-1,2", "+,2", "4294967296,1", "1,\u{a0}2"] {
        assert_eq!(parse_cell_line(bad, 10), Err(InputError::InvalidFormat), "{:?}", bad);
    }
}

#[test]
fn refuses_cells_outside_the_grid() {
    assert_eq!(parse_cell_line("10,1", 10), Err(InputError::InvalidPosition(10, 1)));
    assert_eq!(parse_cell_line("1,12", 10), Err(InputError::InvalidPosition(1, 12)));
}

#[test]
fn reads_until_the_closing_line() {
    let r = read_initial_cells(10, &lines(&["1,1", "2,3", "END", "garbage"]));
    assert_eq!(r, Ok(vec![Cell::new(1, 1), Cell::new(2, 3)]));
}

#[test]
fn reads_until_the_end_of_input() {
    let r = read_initial_cells(10, &lines(&["1,1", "9,9"]));
    assert_eq!(r, Ok(vec![Cell::new(1, 1), Cell::new(9, 9)]));
    assert_eq!(read_initial_cells(10, &Vec::new()), Ok(vec![]));
}

#[test]
fn stops_at_the_first_bad_line() {
    assert_eq!(read_initial_cells(10, &lines(&["1,1", "x", "END"])), Err(InputError::InvalidFormat));
    assert_eq!(
        read_initial_cells(10, &lines(&["1,1", "11,1", "y"])),
        Err(InputError::InvalidPosition(11, 1))
    );
}

#[test]
fn trims_unicode_whitespace() {
    assert_eq!(parse_cell_line("\u{a0}3,4\u{2003}", 10), Ok(CellLine::Alive(Cell::new(3, 4))));
    assert_eq!(parse_cell_line("\u{3000}END\u{85}", 10), Ok(CellLine::End));
    assert_eq!(parse_cell_line("\u{a0}12,4\u{2028}", 10), Err(InputError::InvalidPosition(12, 4)));
    assert_eq!(parse_cell_line("\u{200b}3,4", 10), Err(InputError::InvalidFormat));
}
