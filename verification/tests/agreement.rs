use hanumail::engine::reformat;
use hanumail::quote::parse_line;
use hanumail::segment::reformat_entire_doc;
use hanumail::text::lines;
use hanumail::wrap::{do_wrap, wrap};

// The same results worked out with the string functions of std, on texts
// drawn from a small alphabet that is rich in markers and whitespace.

struct Draw(u64);

impl Draw {
    fn next(&mut self, bound: usize) -> usize {
        self.0 = self.0.wrapping_mul(6364136223846793005).wrapping_add(1442695040888963407);
        ((self.0 >> 33) as usize) % bound
    }

    fn text(&mut self, alphabet: &[&str], max: usize) -> String {
        let n = self.next(max + 1);
        (0..n).map(|_| alphabet[self.next(alphabet.len())]).collect()
    }
}

const LINE_ALPHABET: [&str; 14] = [
    " ",
    " ",
    " ",
    ">",
    ">",
    "a",
    "bc",
    "def",
    "\t",
    "\u{a0}",
    "\u{b}",
    "\u{e9}",
    "-",
    "ghijklmnopqrstuvwxyz",
];

fn std_wrap(text: &str, depth: usize, budget: usize) -> Vec<String> {
    let marks = "> ".repeat(depth);
    let mut done = Vec::new();
    let mut line = marks.clone();
    for word in text.trim().split_ascii_whitespace() {
        if line.len() > marks.len() && line.len() + word.len() > budget {
            done.push(line.trim().to_string());
            line = marks.clone();
        }
        line += word;
        line += " ";
    }
    done.push(line.trim().to_string());
    done
}

fn std_parse(line: &str) -> (usize, String) {
    let marks: String = line.chars().take_while(|c| *c == ' ' || *c == '>').collect();
    let depth = marks.matches('>').count();
    (depth, line[marks.len()..].trim().to_string())
}

fn std_reformat(input: &[&str]) -> String {
    let mut out: Vec<String> = Vec::new();
    let mut open: Option<(usize, String)> = None;
    for line in input {
        let (depth, said) = std_parse(line);
        open = match open.take() {
            Some((d, text)) if !said.is_empty() && d == depth => Some((d, text + " " + &said)),
            before => {
                if let Some((d, text)) = before {
                    out.extend(std_wrap(&text, d, 78));
                }
                if said.is_empty() {
                    out.extend(std_wrap("", depth, 78));
                    None
                } else {
                    Some((depth, said))
                }
            }
        };
    }
    if let Some((d, text)) = open {
        out.extend(std_wrap(&text, d, 78));
    }
    out.iter().map(|l| format!("{}\n", l)).collect()
}

fn std_document(doc: &str) -> String {
    let all: Vec<&str> = doc.lines().collect();
    let header_end = all.iter().position(|l| l.is_empty()).map_or(all.len(), |i| i + 1);
    let body_end = all[header_end..]
        .iter()
        .position(|l| *l == "--" || *l == "-- ")
        .map_or(all.len(), |i| header_end + i);
    format!(
        "{}\n{}{}\n",
        all[..header_end].join("\n"),
        std_reformat(&all[header_end..body_end]),
        all[body_end..].join("\n")
    )
}

#[test]
fn parse_line_agrees_with_std() {
    let mut draw = Draw(1);
    for _ in 0..2000 {
        let line = draw.text(&LINE_ALPHABET, 12);
        assert_eq!(parse_line(&line), std_parse(&line), "{:?}", line);
    }
}

#[test]
fn wrap_agrees_with_std() {
    let mut draw = Draw(2);
    for _ in 0..1500 {
        let text = draw.text(&LINE_ALPHABET, 60);
        let depth = draw.next(5);
        let budget = [0, 1, 5, 10, 20, 78][draw.next(6)];
        assert_eq!(wrap(&text, depth, budget), std_wrap(&text, depth, budget), "{:?}", text);
    }
}

#[test]
fn do_wrap_agrees_with_std() {
    let mut draw = Draw(3);
    for _ in 0..300 {
        let text = draw.text(&LINE_ALPHABET, 200);
        let depth = draw.next(4);
        let mut got = String::from("x");
        do_wrap(&mut got, &text, depth);
        let expected: String =
            std_wrap(&text, depth, 78).iter().map(|l| format!("{}\n", l)).collect();
        assert_eq!(got, format!("x{}", expected), "{:?}", text);
    }
}

#[test]
fn reformat_agrees_with_std() {
    let mut draw = Draw(4);
    for _ in 0..400 {
        let count = draw.next(8);
        let owned: Vec<String> = (0..count).map(|_| draw.text(&LINE_ALPHABET, 50)).collect();
        let input: Vec<&str> = owned.iter().map(|l| l.as_str()).collect();
        assert_eq!(reformat(&input), std_reformat(&input), "{:?}", input);
    }
}

#[test]
fn lines_agree_with_std() {
    let alphabet = ["a", "b", "\n", "\n", "\r", "\r\n", " ", "-"];
    let mut draw = Draw(5);
    for _ in 0..2000 {
        let text = draw.text(&alphabet, 12);
        let expected: Vec<String> = text.lines().map(|l| l.to_string()).collect();
        assert_eq!(lines(&text), expected, "{:?}", text);
    }
}

#[test]
fn whole_document_agrees_with_std() {
    let alphabet = ["a", "> b", "\n", "\n", "\n\n", "--", "-- ", " ", "\r\n", "word ", ">"];
    let mut draw = Draw(6);
    for _ in 0..1500 {
        let doc = draw.text(&alphabet, 30);
        assert_eq!(reformat_entire_doc(&doc), std_document(&doc), "{:?}", doc);
    }
}
