//! Pseudo-random inputs, biased toward the language's own tokens, through
//! `lexer -> parser`: every input must come back as `Ok` or `Err`; a panic
//! fails the test.

use rach::{lexer, parser};

/// A small deterministic generator (xorshift64*), so a failure can be replayed.
struct Rng(u64);

impl Rng {
    fn next_u64(&mut self) -> u64 {
        let mut x = self.0;
        x ^= x >> 12;
        x ^= x << 25;
        x ^= x >> 27;
        self.0 = x;
        x.wrapping_mul(0x2545_F491_4F6C_DD1D)
    }

    fn below(&mut self, n: usize) -> usize {
        (self.next_u64() % n as u64) as usize
    }
}

const FRAGMENTS: &[&str] = &[
    "rach ", "main", "(", ")", "0", ":", "\n", "  ", "set ", "x", " = ", "+", "-", "*", "/",
    "[", "]", "{", "}", ",", ".", "..", "..=", "if ", "else", "for ", "in ", "while ", "match ",
    "return", "end", "(end0)", "true", "false", "\"", "'", "\\", "?", "~", "&", "|", "^", "%",
    "not ", "and ", "or ", "import ", "struct ", "=>", "->", "::", "123", "9999999999999999999",
    "💥", " \u{0} ", "#", "_", " ", "\t", "<", ">", "==", "<=", ">=", "!=",
];

fn front_end(src: &str) {
    if let Ok(tokens) = lexer::tokenize(src) {
        let _ = parser::parse(tokens);
    }
}

#[test]
fn fuzz_random_fragment_programs() {
    let mut rng = Rng(0x9E37_79B9_7F4A_7C15);
    for _ in 0..20_000 {
        let pieces = 1 + rng.below(40);
        let mut src = String::new();
        for _ in 0..pieces {
            src.push_str(FRAGMENTS[rng.below(FRAGMENTS.len())]);
        }
        front_end(&src);
    }
}

#[test]
fn fuzz_random_raw_bytes() {
    let mut rng = Rng(0xDEAD_BEEF_CAFE_F00D);
    for _ in 0..20_000 {
        let len = rng.below(64);
        let mut src = String::new();
        for _ in 0..len {
            let c = match rng.below(10) {
                0 => char::from(rng.below(0x20) as u8),
                1 => char::from_u32(0x80 + rng.below(0x3000) as u32).unwrap_or('?'),
                _ => char::from(0x20 + rng.below(0x5f) as u8),
            };
            src.push(c);
        }
        front_end(&src);
    }
}
