use calculator::{calculate, CalcError, Expr, Parser, Token};

/// A small deterministic generator of pseudo-random numbers.
struct Lcg(u64);

impl Lcg {
    fn next(&mut self) -> u64 {
        self.0 = self.0.wrapping_mul(6364136223846793005).wrapping_add(1442695040888963407);
        self.0 >> 33
    }

    fn below(&mut self, bound: u64) -> u64 {
        self.next() % bound
    }
}

/// A tree of the test's own, to compare the library's trees and values with.
enum Tree {
    Leaf(isize),
    Node(Box<Tree>, char, Box<Tree>),
}

fn random_tree(rng: &mut Lcg, depth: u32) -> Tree {
    if depth == 0 || rng.below(4) == 0 {
        let n = match rng.below(8) {
            0 => 0,
            1 => isize::MAX,
            2 => (rng.next() as isize) & isize::MAX,
            _ => rng.below(20) as isize,
        };
        Tree::Leaf(n)
    } else {
        let op = ['+', '-', '*', '/'][rng.below(4) as usize];
        Tree::Node(
            Box::new(random_tree(rng, depth - 1)),
            op,
            Box::new(random_tree(rng, depth - 1)),
        )
    }
}

fn tier(tree: &Tree) -> u32 {
    match tree {
        Tree::Leaf(_) => 2,
        Tree::Node(_, '+', _) | Tree::Node(_, '-', _) => 0,
        Tree::Node(..) => 1,
    }
}

fn blanks(rng: &mut Lcg, out: &mut String) {
    for _ in 0..rng.below(3) {
        out.push(if rng.below(2) == 0 { ' ' } else { '\t' });
    }
}

/// Writes `tree` with the parentheses that it needs where `least` is the
/// lowest tier that may stand bare, and now and then with more.
fn render(tree: &Tree, least: u32, rng: &mut Lcg, out: &mut String) {
    let grouped = tier(tree) < least || rng.below(5) == 0;
    blanks(rng, out);
    if grouped {
        out.push('(');
        render(tree, 0, rng, out);
        blanks(rng, out);
        out.push(')');
    } else {
        match tree {
            Tree::Leaf(n) => out.push_str(&n.to_string()),
            Tree::Node(left, op, right) => {
                render(left, tier(tree), rng, out);
                blanks(rng, out);
                out.push(*op);
                render(right, tier(tree) + 1, rng, out);
            }
        }
    }
    blanks(rng, out);
}

fn expected_tree(tree: &Tree) -> Expr {
    match tree {
        Tree::Leaf(n) => Expr::Number(*n),
        Tree::Node(left, op, right) => {
            let token = match op {
                '+' => Token::Add,
                '-' => Token::Sub,
                '*' => Token::Mul,
                _ => Token::Div,
            };
            Expr::BinaryOp(
                Box::new(expected_tree(left)),
                token,
                Box::new(expected_tree(right)),
            )
        }
    }
}

fn expected_value(tree: &Tree) -> Result<isize, CalcError> {
    match tree {
        Tree::Leaf(n) => Ok(*n),
        Tree::Node(left, op, right) => {
            let a = expected_value(left)? as i128;
            let b = expected_value(right)? as i128;
            let wide = match op {
                '+' => a + b,
                '-' => a - b,
                '*' => a * b,
                _ => {
                    if b == 0 {
                        return Err(CalcError::DivisionByZero);
                    }
                    let magnitude = (a.unsigned_abs() / b.unsigned_abs()) as i128;
                    if (a < 0) == (b < 0) {
                        magnitude
                    } else {
                        -magnitude
                    }
                }
            };
            if wide < isize::MIN as i128 || wide > isize::MAX as i128 {
                Err(CalcError::Overflow)
            } else {
                Ok(wide as isize)
            }
        }
    }
}

#[test]
fn generated_expressions_parse_to_their_trees() {
    let mut rng = Lcg(0x5eed);
    for _ in 0..2000 {
        let tree = random_tree(&mut rng, 5);
        let mut text = String::new();
        render(&tree, 0, &mut rng, &mut text);
        let mut parser = Parser::new(&text);
        assert_eq!(parser.parse_expr(), Ok(expected_tree(&tree)), "{:?}", text);
        assert_eq!(parser.peek(), None, "{:?}", text);
    }
}

#[test]
fn generated_expressions_have_their_values() {
    let mut rng = Lcg(0xca1c);
    let mut values = 0;
    let mut by_zero = 0;
    let mut overflows = 0;
    for _ in 0..2000 {
        let tree = random_tree(&mut rng, 5);
        let mut text = String::new();
        render(&tree, 0, &mut rng, &mut text);
        let expected = expected_value(&tree);
        match expected {
            Ok(_) => values += 1,
            Err(CalcError::DivisionByZero) => by_zero += 1,
            _ => overflows += 1,
        }
        assert_eq!(calculate(&text), expected, "{:?}", text);
        assert_eq!(Parser::solve(expected_tree(&tree)), expected, "{:?}", text);
    }
    assert!(values > 100 && by_zero > 100 && overflows > 100);
}

#[test]
fn generated_texts_with_a_stray_character_fail() {
    let mut rng = Lcg(0xbad);
    let strays = ['&', 'x', '\n', '.', '^', '%', '=', '!', 'é', '\u{a0}'];
    for _ in 0..500 {
        let tree = random_tree(&mut rng, 4);
        let mut text = String::new();
        render(&tree, 0, &mut rng, &mut text);
        let places: Vec<usize> = text.char_indices().map(|(at, _)| at).collect();
        let at = if places.is_empty() { 0 } else { places[rng.below(places.len() as u64) as usize] };
        let stray = strays[rng.below(strays.len() as u64) as usize];
        text.insert(at, stray);
        assert_eq!(calculate(&text), Err(CalcError::UnknownToken), "{:?}", text);
    }
}
