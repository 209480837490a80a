use css_engine::format::format_node;
use css_engine::format::leading_len;
use css_engine::options::FormatOptions;
use css_engine::options::IndentStyle;
use css_engine::options::LineEnding;
use css_engine::range::format_range;
use css_engine::syntax::parse;
use css_engine::tree::SyntaxElement;

struct Texts {
    seed: u64,
}

impl Texts {
    fn next(&mut self, bound: usize) -> usize {
        self.seed = self.seed.wrapping_mul(6364136223846793005).wrapping_add(1442695040888963407);
        ((self.seed >> 33) % bound as u64) as usize
    }

    fn text(&mut self, longest: usize) -> Vec<u8> {
        let bytes: &[u8] = b"a@{};:,/*\"'\\ \n\r1.m-\t()%0B>\x0c\xc3\xa9~";
        let words: [&[u8]; 9] = [
            b"media", b"charset", b"font-face", b"/*", b"*/", b"keyframes", b"\r\n", b"{}", b"@media x",
        ];
        let mut text = Vec::new();
        let len = self.next(longest);
        for _ in 0..len {
            let pick = self.next(bytes.len() + words.len());
            if pick < bytes.len() {
                text.push(bytes[pick]);
            } else {
                text.extend_from_slice(words[pick - bytes.len()]);
            }
        }
        text
    }

    fn options(&mut self) -> FormatOptions {
        let endings = [LineEnding::Lf, LineEnding::Crlf, LineEnding::Cr];
        let styles = [IndentStyle::Space, IndentStyle::Tab];
        FormatOptions::new(
            styles[self.next(2)],
            [1u8, 2, 4][self.next(3)],
            endings[self.next(3)],
            [1u16, 6, 20, 80][self.next(4)],
        )
        .unwrap()
    }
}

#[test]
fn random_texts_are_kept_byte_for_byte() {
    let mut texts = Texts { seed: 7 };
    for _ in 0..100000 {
        let source = texts.text(40);
        let parsed = parse(&source);
        assert_eq!(parsed.tree.text(), source);
        assert!(parsed.tree.is_well_formed());
    }
}

#[test]
fn random_texts_are_formatted_to_a_fixed_point() {
    let mut texts = Texts { seed: 0x2545f4914f6cdd1d };
    for _ in 0..100000 {
        let source = texts.text(30);
        let options = texts.options();
        let once = format_node(&options, &parse(&source).tree).unwrap().text;
        let twice = format_node(&options, &parse(&once).tree).unwrap().text;
        assert_eq!(
            String::from_utf8_lossy(&twice),
            String::from_utf8_lossy(&once),
            "from {:?}",
            String::from_utf8_lossy(&source)
        );
    }
}

#[test]
fn random_texts_are_formatted_the_same_every_time() {
    let mut texts = Texts { seed: 99 };
    for _ in 0..50000 {
        let source = texts.text(30);
        let options = texts.options();
        let first = format_node(&options, &parse(&source).tree).unwrap();
        let second = format_node(&options, &parse(&source).tree).unwrap();
        assert_eq!(first, second);
    }
}

#[test]
fn random_formatted_texts_are_made_of_their_pieces() {
    let mut texts = Texts { seed: 12345 };
    for _ in 0..50000 {
        let source = texts.text(30);
        let options = texts.options();
        let whole = format_node(&options, &parse(&source).tree).unwrap().text;
        let tree = parse(&whole).tree;
        let mut offset = 0;
        for child in tree.children.iter() {
            if let SyntaxElement::Node(node) = child {
                let start = offset + leading_len(child);
                let end = offset + node.text_len();
                let done = format_range(&options, &tree, start, end).unwrap();
                assert!(done.start <= start && end <= done.end);
                assert_eq!(
                    String::from_utf8_lossy(&done.text),
                    String::from_utf8_lossy(&whole),
                    "range {}..{}",
                    start,
                    end
                );
            }
            offset += child.text_len();
        }
    }
}
