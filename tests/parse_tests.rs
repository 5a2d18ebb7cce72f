use tiler::grid::GridError;
use tiler::parse::{parse_tasks, ParseError};

fn lines(text: &str) -> Vec<String> {
    text.lines().map(|l| l.to_string()).collect()
}

#[test]
fn reads_two_tasks() {
    let text = "= ЗАДАЧА 1\nПоле:\n10\n11\n\nФигура 1\n1\nФигура 2\n1\n1\n= ЗАДАЧА 2\nПоле:\n1\nФигура A\n1\n";
    let tasks = parse_tasks(&lines(text)).unwrap();
    assert_eq!(tasks.len(), 2);
    assert_eq!(tasks[0].id, "= ЗАДАЧА 1");
    assert_eq!(tasks[0].field.rows, 2);
    assert_eq!(tasks[0].field.cols, 2);
    assert_eq!(tasks[0].field.bits, 0b1101);
    assert_eq!(tasks[0].tiles.len(), 2);
    assert_eq!(tasks[0].tiles[1].area.rows, 2);
    assert_eq!(tasks[0].tiles[1].area.bits, 0b11);
    assert_eq!(tasks[1].id, "= ЗАДАЧА 2");
    assert_eq!(tasks[1].tiles.len(), 1);
}

#[test]
fn surrounding_whitespace_is_ignored() {
    let text = "  = ЗАДАЧА x  \n\t Поле: \n  11 \nФигура\n 11\n";
    let tasks = parse_tasks(&lines(text)).unwrap();
    assert_eq!(tasks.len(), 1);
    assert_eq!(tasks[0].id, "= ЗАДАЧА x");
    assert_eq!(tasks[0].field.bits, 0b11);
    assert_eq!(tasks[0].tiles[0].area.cols, 2);
}

#[test]
fn lines_before_a_task_are_skipped() {
    let text = "notes\n\n= ЗАДАЧА\nremark\nПоле:\n1\nremark\nФигура\n1\n";
    let tasks = parse_tasks(&lines(text)).unwrap();
    assert_eq!(tasks.len(), 1);
    assert_eq!(tasks[0].tiles.len(), 1);
}

#[test]
fn empty_file_has_no_tasks() {
    assert_eq!(parse_tasks(&Vec::new()).unwrap().len(), 0);
}

#[test]
fn missing_field_is_reported() {
    let r = parse_tasks(&lines("= ЗАДАЧА 7\nФигура\n1\n"));
    assert_eq!(r.unwrap_err(), ParseError::MissingField("= ЗАДАЧА 7".to_string()));
}

#[test]
fn missing_tiles_are_reported() {
    let r = parse_tasks(&lines("= ЗАДАЧА 1\nПоле:\n1\n"));
    assert_eq!(r.unwrap_err(), ParseError::MissingTiles("= ЗАДАЧА 1".to_string()));
    let r2 = parse_tasks(&lines("= ЗАДАЧА 1\nПоле:\n1\n= ЗАДАЧА 2\nПоле:\n1\nФигура\n1\n"));
    assert_eq!(r2.unwrap_err(), ParseError::MissingTiles("= ЗАДАЧА 1".to_string()));
}

#[test]
fn bad_field_is_reported() {
    let r = parse_tasks(&lines("= ЗАДАЧА 1\nПоле:\n1\n11\nФигура\n1\n"));
    assert_eq!(
        r.unwrap_err(),
        ParseError::BadField("= ЗАДАЧА 1".to_string(), GridError::NotSquare)
    );
    let r2 = parse_tasks(&lines("= ЗАДАЧА 1\nПоле:\nФигура\n1\n"));
    assert_eq!(r2.unwrap_err(), ParseError::BadField("= ЗАДАЧА 1".to_string(), GridError::Empty));
}

#[test]
fn bad_tile_is_reported() {
    let text = "= ЗАДАЧА 1\nПоле:\n1\nФигура 3\n1\n1\n1\n1\n1\n1\n1\n1\n1\n";
    let r = parse_tasks(&lines(text));
    assert_eq!(
        r.unwrap_err(),
        ParseError::BadTile(
            "= ЗАДАЧА 1".to_string(),
            "Фигура 3".to_string(),
            GridError::RowsCountGreaterThan8
        )
    );
}

#[test]
fn unicode_white_space_is_trimmed() {
    let text = "\u{3000}= ЗАДАЧА u\u{a0}\n\u{2003}Поле:\u{85}\n1\u{2028}\nФигура\n\u{205f}1\n";
    let tasks = parse_tasks(&lines(text)).unwrap();
    assert_eq!(tasks.len(), 1);
    assert_eq!(tasks[0].id, "= ЗАДАЧА u");
    assert_eq!(tasks[0].field.bits, 1);
    assert_eq!(tasks[0].tiles.len(), 1);
}
