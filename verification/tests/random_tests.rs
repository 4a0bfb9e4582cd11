use frontend::grammar::PrefixEntryPoint;
use frontend::hir::Expr;
use frontend::module::Module;
use frontend::parse_internal;
use frontend::syntax_kind::SyntaxKind;

struct Random {
    state: u64,
}

impl Random {
    fn next(&mut self) -> u64 {
        self.state ^= self.state << 13;
        self.state ^= self.state >> 7;
        self.state ^= self.state << 17;
        self.state
    }

    fn below(&mut self, bound: usize) -> usize {
        (self.next() % bound as u64) as usize
    }
}

const PIECES: [&str; 36] = [
    "def", "type", "open", "let", "x", "y1", "_z", "Int", "0", "42", "99999999999999999999", "(",
    ")", "{", "}", ":", ";", "=", "->", "\\", "+", "-", "*", "/", " ", "\n", "\t", "# note\n", "#",
    "?", "é", "->>", "--", "\r\n", "def f x = x;", "{ let a = 1; a }",
];

fn random_text(random: &mut Random) -> String {
    let mut text = String::new();
    for _ in 0..random.below(40) {
        text.push_str(PIECES[random.below(PIECES.len())]);
        if random.below(3) == 0 {
            text.push(' ');
        }
    }
    text
}

#[test]
fn any_text_parses_without_loss() {
    let mut random = Random { state: 0x2545_f491_4f6c_dd1d };
    for round in 0..3000 {
        let text = random_text(&mut random);
        let entry = match round % 3 {
            0 => PrefixEntryPoint::Module,
            1 => PrefixEntryPoint::Expr,
            _ => PrefixEntryPoint::TypeExpr,
        };
        let parsed = parse_internal(&text, entry);
        assert_eq!(parsed.syntax().to_text(), text);
        let green = parsed.green().unwrap();
        assert_eq!(green.to_string(), text);
        assert_eq!(u32::from(green.text_len()) as usize, text.len());
        let rendered = parsed.debug_tree();
        assert!(rendered.ends_with('\n'));
        for error in &parsed.errors {
            assert!(error.range.start <= error.range.end);
            assert!(error.range.end <= text.len());
        }
        if round % 3 == 0 {
            assert_eq!(parsed.syntax().kind(), SyntaxKind::MODULE);
            assert_eq!(green.kind().0, SyntaxKind::MODULE.index());
        }
    }
}

#[test]
fn any_module_lowers_or_is_unsupported() {
    let mut random = Random { state: 0x9e37_79b9_7f4a_7c15 };
    let mut lowered = 0;
    for _ in 0..3000 {
        let text = random_text(&mut random);
        let has_operator = text.contains(['+', '*', '/']) || text.contains('-');
        let parsed = parse_internal(&text, PrefixEntryPoint::Module);
        let mut module = Module::new();
        match module.lower_module(&parsed.module()) {
            Ok(()) => lowered += 1,
            Err(_) => assert!(has_operator, "{}", text),
        }
        for (idx, expr) in module.expressions().iter() {
            assert_eq!(*expr == Expr::Missing, idx.into_raw().into_u32() == 0);
        }
        let mut again = Module::new();
        let second = parse_internal(&text, PrefixEntryPoint::Module);
        let _ = again.lower_module(&second.module());
        assert_eq!(module, again);
    }
    assert!(lowered > 1000);
}
