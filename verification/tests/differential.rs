use notes::dates::{parse_i32, parse_u32, split_at_char};
use notes::manager::starts_with;
use notes::parser::NoteParser;
use notes::text::{split_lines, split_tokens, trimmed};

const ALPHABET: [char; 14] =
    ['#', '\\', ' ', '\n', '\r', 'a', 'b', '\t', '1', '-', '/', '\u{a0}', 'é', '#'];

const DIGITS: [char; 8] = ['0', '1', '9', '+', '-', '4', ' ', '2'];

struct Sequence {
    state: u64,
}

impl Sequence {
    fn next(&mut self) -> u64 {
        self.state = self.state.wrapping_mul(6_364_136_223_846_793_005).wrapping_add(1_442_695_040_888_963_407);
        self.state >> 33
    }

    fn text(&mut self, alphabet: &[char], longest: u64) -> String {
        let len = self.next() % (longest + 1);
        (0..len).map(|_| alphabet[(self.next() % alphabet.len() as u64) as usize]).collect()
    }
}

fn chars(s: &str) -> Vec<char> {
    s.chars().collect()
}

fn strings(v: &[Vec<char>]) -> Vec<String> {
    v.iter().map(|l| l.iter().collect::<String>()).collect()
}

fn unescape_by_std(content: &str) -> String {
    content
        .lines()
        .map(|line| {
            if line.trim_start().starts_with("\\#") {
                let at = line.find("\\#").unwrap();
                format!("{}{}", &line[..at], &line[at + 1..])
            } else {
                line.to_string()
            }
        })
        .collect::<Vec<_>>()
        .join("\n")
}

fn escape_by_std(content: &str) -> String {
    content
        .lines()
        .map(|line| {
            if line.trim_start().starts_with('#') {
                format!("\\{}", line)
            } else {
                line.to_string()
            }
        })
        .collect::<Vec<_>>()
        .join("\n")
}

fn blocks_by_std(content: &str) -> Vec<(String, String, String)> {
    let lines: Vec<&str> = content.lines().collect();
    let mut out = Vec::new();
    let mut i = 0;
    while i < lines.len() {
        let line = lines[i].trim();
        let parts: Vec<&str> = line.split_whitespace().collect();
        if line.starts_with('#') && parts.len() >= 2 {
            let id = parts[0][1..].to_string();
            let date = parts[1..].join(" ");
            let mut body = Vec::new();
            i += 1;
            while i < lines.len() && !lines[i].trim().starts_with('#') {
                body.push(lines[i]);
                i += 1;
            }
            let content = unescape_by_std(&body.join("\n")).trim().to_string();
            if !content.is_empty() {
                out.push((id, date, content));
            }
        } else {
            i += 1;
        }
    }
    out
}

#[test]
fn text_primitives_agree_with_std() {
    let mut seq = Sequence { state: 1 };
    for _ in 0..4000 {
        let s = seq.text(&ALPHABET, 30);
        let lines: Vec<String> = s.lines().map(|l| l.to_string()).collect();
        assert_eq!(strings(&split_lines(&chars(&s))), lines, "{:?}", s);
        let words: Vec<String> = s.split_whitespace().map(|l| l.to_string()).collect();
        assert_eq!(strings(&split_tokens(&chars(&s))), words, "{:?}", s);
        assert_eq!(trimmed(&chars(&s)), chars(s.trim()), "{:?}", s);
        let pieces: Vec<String> = s.split('/').map(|l| l.to_string()).collect();
        assert_eq!(strings(&split_at_char(&chars(&s), '/')), pieces, "{:?}", s);
    }
}

#[test]
fn escaping_agrees_with_std() {
    let mut seq = Sequence { state: 2 };
    for _ in 0..4000 {
        let s = seq.text(&ALPHABET, 30);
        assert_eq!(NoteParser::escape_content(&s), escape_by_std(&s), "{:?}", s);
        assert_eq!(NoteParser::unescape_content(&s), unescape_by_std(&s), "{:?}", s);
    }
}

#[test]
fn scanning_agrees_with_std() {
    let mut seq = Sequence { state: 3 };
    for _ in 0..6000 {
        let s = seq.text(&ALPHABET, 60);
        let blocks: Vec<(String, String, String)> = NoteParser::scan_blocks(&s)
            .iter()
            .map(|b| (b.id.clone(), b.date.clone(), b.content.clone()))
            .collect();
        assert_eq!(blocks, blocks_by_std(&s), "{:?}", s);
    }
}

#[test]
fn numbers_agree_with_std() {
    let mut seq = Sequence { state: 4 };
    for _ in 0..4000 {
        let s = seq.text(&DIGITS, 12);
        assert_eq!(parse_u32(&chars(&s)), s.parse::<u32>().ok(), "{:?}", s);
        assert_eq!(parse_i32(&chars(&s)), s.parse::<i32>().ok(), "{:?}", s);
    }
}

#[test]
fn prefixes_agree_with_std() {
    let mut seq = Sequence { state: 5 };
    for _ in 0..4000 {
        let s = seq.text(&['a', 'b', 'é'], 6);
        let p = seq.text(&['a', 'b', 'é'], 3);
        assert_eq!(starts_with(&s, &p), s.starts_with(&p), "{:?} {:?}", s, p);
    }
}
