use chrono::{DateTime, Local, NaiveDate};
use notes::parser::{Block, NoteParser};

fn triples(blocks: &[Block]) -> Vec<(String, String, String)> {
    blocks.iter().map(|b| (b.id.clone(), b.date.clone(), b.content.clone())).collect()
}

fn triple(id: &str, date: &str, content: &str) -> (String, String, String) {
    (id.to_string(), date.to_string(), content.to_string())
}

#[test]
fn scan_reads_one_block() {
    let blocks = NoteParser::scan_blocks("#a1b2 2024-01-15T10:30:00+00:00\nhello\n");
    assert_eq!(triples(&blocks), vec![triple("a1b2", "2024-01-15T10:30:00+00:00", "hello")]);
}

#[test]
fn scan_reads_blocks_in_file_order() {
    let text = "#b 2024-01-16\nsecond\nline\n\n#a 2024-01-15\nfirst\n";
    let blocks = NoteParser::scan_blocks(text);
    assert_eq!(
        triples(&blocks),
        vec![triple("b", "2024-01-16", "second\nline"), triple("a", "2024-01-15", "first")]
    );
}

#[test]
fn scan_rejoins_the_date_with_single_spaces() {
    let blocks = NoteParser::scan_blocks("  #id   2024-01-15 \t 10:30:00   +0200  \nbody");
    assert_eq!(triples(&blocks), vec![triple("id", "2024-01-15 10:30:00 +0200", "body")]);
}

#[test]
fn scan_skips_a_header_of_one_word() {
    let blocks = NoteParser::scan_blocks("#lonely\ntext\n#ok 2024-01-15\nkept");
    assert_eq!(triples(&blocks), vec![triple("ok", "2024-01-15", "kept")]);
    assert_eq!(NoteParser::scan_blocks("#\nx").len(), 0);
}

#[test]
fn scan_skips_lines_before_the_first_header() {
    let blocks = NoteParser::scan_blocks("stray\n\n  \nmore\n#ok 2024-01-15\nkept");
    assert_eq!(triples(&blocks), vec![triple("ok", "2024-01-15", "kept")]);
}

#[test]
fn scan_drops_a_block_without_content() {
    let blocks = NoteParser::scan_blocks("#a 2024-01-15\n\n  \n#b 2024-01-16\nx\n#c 2024-01-17");
    assert_eq!(triples(&blocks), vec![triple("b", "2024-01-16", "x")]);
}

#[test]
fn scan_unescapes_and_trims_the_content() {
    let text = "#a 2024-01-15\n\n  first  \n\\#not a header\n  \\#indented\n\\\\#twice\n\n\n";
    let blocks = NoteParser::scan_blocks(text);
    assert_eq!(
        triples(&blocks),
        vec![triple("a", "2024-01-15", "first  \n#not a header\n  #indented\n\\\\#twice")]
    );
}

#[test]
fn scan_ends_a_block_at_an_indented_header() {
    let blocks = NoteParser::scan_blocks("#a 2024-01-15\nx\n   #b 2024-01-16\ny");
    assert_eq!(triples(&blocks), vec![triple("a", "2024-01-15", "x"), triple("b", "2024-01-16", "y")]);
}

#[test]
fn scan_takes_an_empty_identifier() {
    let blocks = NoteParser::scan_blocks("# 2024-01-15\nx");
    assert_eq!(triples(&blocks), vec![triple("", "2024-01-15", "x")]);
}

#[test]
fn scan_reads_carriage_returns_as_line_ends() {
    let blocks = NoteParser::scan_blocks("#a 2024-01-15\r\nx\r\ny\r\n");
    assert_eq!(triples(&blocks), vec![triple("a", "2024-01-15", "x\ny")]);
}

#[test]
fn empty_text_holds_no_blocks() {
    assert_eq!(NoteParser::scan_blocks("").len(), 0);
    assert_eq!(NoteParser::scan_blocks("\n\n").len(), 0);
    assert_eq!(NoteParser::scan_blocks("  \t \n ").len(), 0);
    assert_eq!(NoteParser::parse_notes_from_text("").len(), 0);
    assert_eq!(NoteParser::parse_notes_from_text(" \n ").len(), 0);
}

#[test]
fn write_blocks_separates_blocks_by_one_empty_line() {
    let blocks = vec![
        Block { id: "b".to_string(), date: "D2".to_string(), content: "second\n#x".to_string() },
        Block { id: "a".to_string(), date: "D1".to_string(), content: "first".to_string() },
    ];
    assert_eq!(NoteParser::write_blocks(&blocks), "#b D2\nsecond\n\\#x\n\n#a D1\nfirst\n");
    let one = vec![Block { id: "b".to_string(), date: "D2".to_string(), content: "second\n#x".to_string() }];
    assert_eq!(NoteParser::write_blocks(&one), "#b D2\nsecond\n\\#x\n");
    assert_eq!(NoteParser::write_blocks(&Vec::new()), "");
}

#[test]
fn what_is_written_is_read_back() {
    let blocks = vec![
        Block { id: "a1b2".to_string(), date: "2024-01-16T10:00:00+00:00".to_string(), content: "#title\nbody\n\n## more".to_string() },
        Block { id: "ffff".to_string(), date: "2024-01-15".to_string(), content: "x".to_string() },
        Block { id: "0".to_string(), date: "d".to_string(), content: "a #b\n\\ c".to_string() },
    ];
    let text = NoteParser::write_blocks(&blocks);
    assert_eq!(triples(&NoteParser::scan_blocks(&text)), triples(&blocks));
}

#[test]
fn parse_reads_rfc3339_and_shows_it_in_the_local_zone() {
    let notes = NoteParser::parse_notes_from_text("#a1b2 2024-01-15T10:30:00.25+02:00\nhello\n");
    assert_eq!(notes.len(), 1);
    assert_eq!(notes[0].id, "a1b2");
    assert_eq!(notes[0].content, "hello");
    let expected =
        DateTime::parse_from_rfc3339("2024-01-15T10:30:00.25+02:00").unwrap().with_timezone(&Local);
    assert_eq!(notes[0].timestamp.secs, 1_705_307_400);
    assert_eq!(notes[0].timestamp.nanos, 250_000_000);
    assert_eq!(notes[0].timestamp.offset, expected.offset().local_minus_utc());
}

#[test]
fn parse_reads_a_date_and_time_with_offset() {
    let notes = NoteParser::parse_notes_from_text("#a1b2 2024-01-15 10:30:00 +0200\nhello\n");
    assert_eq!(notes.len(), 1);
    assert_eq!(notes[0].timestamp.secs, 1_705_307_400);
    assert_eq!(notes[0].timestamp.nanos, 0);
}

#[test]
fn parse_reads_a_date_and_time_without_zone_as_local_time() {
    let notes = NoteParser::parse_notes_from_text("#a1b2 2024-01-15 10:30:00\nhello");
    assert_eq!(notes.len(), 1);
    assert_eq!(notes[0].id, "a1b2");
    assert_eq!(notes[0].content, "hello");
    let wall = NaiveDate::from_ymd_opt(2024, 1, 15).unwrap().and_hms_opt(10, 30, 0).unwrap();
    if let Some(expected) = wall.and_local_timezone(Local).single() {
        assert_eq!(notes[0].timestamp.secs, expected.timestamp());
        assert_eq!(notes[0].timestamp.nanos, 0);
        assert_eq!(notes[0].timestamp.offset, expected.offset().local_minus_utc());
    }
}

#[test]
fn parse_reads_a_bare_date_as_local_midnight() {
    let notes = NoteParser::parse_notes_from_text("#x9 2024/3/5\nhello");
    assert_eq!(notes.len(), 1);
    assert_eq!(notes[0].id, "x9");
    let wall = NaiveDate::from_ymd_opt(2024, 3, 5).unwrap().and_hms_opt(0, 0, 0).unwrap();
    if let Some(expected) = wall.and_local_timezone(Local).single() {
        assert_eq!(notes[0].timestamp.secs, expected.timestamp());
        assert_eq!(notes[0].timestamp.nanos, 0);
        assert_eq!(notes[0].timestamp.offset, expected.offset().local_minus_utc());
    }
}

#[test]
fn parse_falls_back_to_the_current_time() {
    let before = Local::now().timestamp();
    let notes = NoteParser::parse_notes_from_text("#a1b2 some day\nhello");
    let after = Local::now().timestamp();
    assert_eq!(notes.len(), 1);
    assert_eq!(notes[0].id, "a1b2");
    assert_eq!(notes[0].content, "hello");
    assert!(before <= notes[0].timestamp.secs && notes[0].timestamp.secs <= after);
}

#[test]
fn parse_keeps_the_order_of_the_file() {
    let text = "#old 2020-01-01T00:00:00Z\none\n\n#new 2024-01-01T00:00:00Z\ntwo\n";
    let notes = NoteParser::parse_notes_from_text(text);
    assert_eq!(notes.len(), 2);
    assert_eq!(notes[0].id, "old");
    assert_eq!(notes[1].id, "new");
    assert_eq!(notes[0].timestamp.secs, 1_577_836_800);
    assert_eq!(notes[1].timestamp.secs, 1_704_067_200);
}
