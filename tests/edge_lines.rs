use forceatlas2::coord::Coord;
use forceatlas2::edge_list::{parse_edge_line, read_edge_list, EdgeLine, LineIssue};

#[derive(Clone, Copy, Debug, PartialEq)]
struct W(f64);

impl Coord for W {
    fn spec_zero() -> Self {
        Self::zero()
    }
    fn spec_one() -> Self {
        Self::one()
    }
    fn spec_from_count(n: usize) -> Self {
        Self::from_count(n)
    }
    fn spec_add(self, o: Self) -> Self {
        self.add(o)
    }
    fn spec_sub(self, o: Self) -> Self {
        self.sub(o)
    }
    fn spec_mul(self, o: Self) -> Self {
        self.mul(o)
    }
    fn spec_div(self, o: Self) -> Self {
        self.div(o)
    }
    fn spec_sqrt(self) -> Self {
        self.sqrt()
    }
    fn spec_ln_1p(self) -> Self {
        self.ln_1p()
    }
    fn spec_is_zero(self) -> bool {
        self.is_zero()
    }
    fn spec_positive(self) -> bool {
        self.positive()
    }
    fn zero() -> Self {
        W(0.0)
    }
    fn one() -> Self {
        W(1.0)
    }
    fn from_count(n: usize) -> Self {
        W(n as f64)
    }
    fn add(self, o: Self) -> Self {
        W(self.0 + o.0)
    }
    fn sub(self, o: Self) -> Self {
        W(self.0 - o.0)
    }
    fn mul(self, o: Self) -> Self {
        W(self.0 * o.0)
    }
    fn div(self, o: Self) -> Self {
        W(self.0 / o.0)
    }
    fn sqrt(self) -> Self {
        W(self.0.sqrt())
    }
    fn ln_1p(self) -> Self {
        W(self.0.ln_1p())
    }
    fn is_zero(self) -> bool {
        self.0 == 0.0
    }
    fn positive(self) -> bool {
        self.0 > 0.0
    }
    fn parse(text: &[u8]) -> Option<Self> {
        std::str::from_utf8(text).ok()?.parse().ok().map(W)
    }
}

fn line(s: &str) -> EdgeLine {
    parse_edge_line(&s.as_bytes().to_vec())
}

fn edge(s: &str) -> Option<(usize, usize, Option<String>)> {
    match line(s) {
        EdgeLine::Edge { u, v, weight } => Some((u, v, weight.map(|w| String::from_utf8(w).unwrap()))),
        _ => None,
    }
}

#[test]
fn self_loop_line_is_skipped() {
    assert!(matches!(line("5 5"), EdgeLine::SelfLoop));
    let list = read_edge_list::<W>(&b"0 1\n5 5\n1 2\n".to_vec());
    assert_eq!(list.edges, vec![(0, 1), (1, 2)]);
    assert_eq!(list.nodes, 3);
    assert_eq!(list.issues, vec![(1, LineIssue::SelfLoop)]);
    let list = read_edge_list::<W>(&b"0 1\n5 5\n3 5\n".to_vec());
    assert_eq!(list.nodes, 6);
}

#[test]
fn unreadable_weight_falls_back_to_one() {
    assert_eq!(edge("0 1 abc"), Some((0, 1, Some("abc".to_string()))));
    let list = read_edge_list::<W>(&b"0 1 abc".to_vec());
    assert_eq!(list.edges, vec![(0, 1)]);
    assert_eq!(list.weights, vec![W(1.0)]);
    assert_eq!(list.issues, vec![(0, LineIssue::BadWeight)]);
}

#[test]
fn weights_are_read_and_missing_ones_are_one() {
    let list = read_edge_list::<W>(&b"0,1,2.5\r\n2;1\n3\t0\t0.25\n".to_vec());
    assert_eq!(list.edges, vec![(0, 1), (1, 2), (0, 3)]);
    assert_eq!(list.weights, vec![W(2.5), W(1.0), W(0.25)]);
    assert_eq!(list.nodes, 4);
    assert!(list.issues.is_empty());
}

#[test]
fn separators_and_columns() {
    assert_eq!(edge("3 1"), Some((1, 3, None)));
    assert_eq!(edge("+7\t2"), Some((2, 7, None)));
    assert_eq!(edge("0 1 2 3"), Some((0, 1, Some("2".to_string()))));
    assert_eq!(edge("0 1 "), Some((0, 1, Some(String::new()))));
    assert!(matches!(line("0  1"), EdgeLine::BadNumber));
    assert!(matches!(line("0 x"), EdgeLine::BadNumber));
    assert!(matches!(line("-1 2"), EdgeLine::BadNumber));
    assert!(matches!(line("+ 2"), EdgeLine::BadNumber));
    assert!(matches!(line("18446744073709551615 2"), EdgeLine::BadNumber));
    assert!(matches!(line("99999999999999999999 2"), EdgeLine::BadNumber));
    assert_eq!(edge("18446744073709551614 2"), Some((2, 18446744073709551614, None)));
    assert!(matches!(line("12"), EdgeLine::FewColumns));
    assert!(matches!(line(""), EdgeLine::FewColumns));
}

#[test]
fn bad_lines_are_reported_by_index() {
    let list = read_edge_list::<W>(&b"0 1\n\nfoo bar\n4\n1 2\n".to_vec());
    assert_eq!(list.edges, vec![(0, 1), (1, 2)]);
    assert_eq!(
        list.issues,
        vec![(1, LineIssue::FewColumns), (2, LineIssue::BadNumber), (3, LineIssue::FewColumns)]
    );
}

#[test]
fn empty_input_has_one_node() {
    let list = read_edge_list::<W>(&Vec::new());
    assert_eq!(list.nodes, 1);
    assert!(list.edges.is_empty());
}
