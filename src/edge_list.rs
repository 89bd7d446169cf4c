use crate::coord::Coord;
use vstd::prelude::*;

verus! {

/// Column separators of an edge line: space, tab, comma, semicolon.
pub open spec fn is_sep(b: u8) -> bool {
    b == 32 || b == 9 || b == 44 || b == 59
}

/// The columns of a line: the runs between separators, an empty column
/// standing between two adjacent separators. A line always has one column
/// at least.
pub open spec fn columns(s: Seq<u8>) -> Seq<Seq<u8>>
    decreases s.len(),
{
    if s.len() == 0 {
        seq![Seq::empty()]
    } else {
        let rest = columns(s.drop_last());
        if is_sep(s.last()) {
            rest.push(Seq::empty())
        } else {
            rest.update(rest.len() - 1, rest.last().push(s.last()))
        }
    }
}

pub open spec fn is_digit(b: u8) -> bool {
    48 <= b <= 57
}

/// The value of a run of decimal digits.
pub open spec fn digits_value(s: Seq<u8>) -> nat
    decreases s.len(),
{
    if s.len() == 0 {
        0
    } else {
        digits_value(s.drop_last()) * 10 + (s.last() - 48) as nat
    }
}

/// The column without its leading `+`, if it has one.
pub open spec fn unsigned_part(s: Seq<u8>) -> Seq<u8> {
    if s.len() > 0 && s[0] == 43 {
        s.drop_first()
    } else {
        s
    }
}

/// The value of a run of one decimal digit or more.
pub open spec fn decimal(t: Seq<u8>) -> Option<nat> {
    if t.len() > 0 && (forall|i: int| 0 <= i < t.len() ==> is_digit(#[trigger] t[i])) {
        Some(digits_value(t))
    } else {
        None
    }
}

/// The unsigned integer a column writes: an optional `+` and one digit or
/// more.
pub open spec fn uint_of(s: Seq<u8>) -> Option<nat> {
    decimal(unsigned_part(s))
}

/// A node id written in a column: an unsigned integer below `usize::MAX`,
/// so that the node count `id + 1` is a `usize` too.
pub open spec fn node_id(s: Seq<u8>) -> Option<nat> {
    match uint_of(s) {
        Some(v) if v < usize::MAX => Some(v),
        _ => None,
    }
}

/// What one line of an edge list holds.
pub enum EdgeLine {
    /// An edge `u < v`, with the text of its weight column if there is one.
    Edge { u: usize, v: usize, weight: Option<Vec<u8>> },
    /// Both ends name the same node.
    SelfLoop,
    /// One of the two first columns is not a node id.
    BadNumber,
    /// The line has fewer than two columns.
    FewColumns,
}

/// Adding a digit never lowers the value.
proof fn lemma_digits_grow(s: Seq<u8>, i: int)
    requires
        0 <= i <= s.len(),
        forall|j: int| 0 <= j < s.len() ==> is_digit(#[trigger] s[j]),
    ensures
        digits_value(s.take(i)) <= digits_value(s),
    decreases s.len() - i,
{
    if i < s.len() {
        lemma_digits_grow(s, i + 1);
        assert(s.take(i + 1).drop_last() =~= s.take(i));
    } else {
        assert(s.take(i) =~= s);
    }
}

/// Reads a node id from `s[start..end]`, as `node_id` says.
fn parse_id(s: &Vec<u8>, start: usize, end: usize) -> (r: Option<usize>)
    requires
        start <= end <= s.len(),
    ensures
        r matches Some(v) <==> node_id(s@.subrange(start as int, end as int)) is Some,
        r matches Some(v) ==> node_id(s@.subrange(start as int, end as int)) == Some(v as nat),
{
    let ghost col = s@.subrange(start as int, end as int);
    let mut i = start;
    if i < end && s[i] == 43 {
        i += 1;
    }
    let ghost t = s@.subrange(i as int, end as int);
    proof {
        if col.len() > 0 && col[0] == 43 {
            assert(t =~= col.drop_first());
        } else {
            assert(t =~= col);
        }
    }
    assert(uint_of(col) == decimal(t));
    if i == end {
        return None;
    }
    let first = i;
    let mut v: usize = 0;
    while i < end
        invariant
            first <= i <= end <= s.len(),
            t == s@.subrange(first as int, end as int),
            col == s@.subrange(start as int, end as int),
            uint_of(col) == decimal(t),
            forall|j: int| first <= j < i ==> is_digit(#[trigger] s@[j]),
            v == digits_value(s@.subrange(first as int, i as int)),
            v < usize::MAX,
        decreases end - i,
    {
        let b = s[i];
        if b < 48 || b > 57 {
            proof {
                assert(t[i - first] == b);
                assert(!is_digit(t[i - first]));
            }
            return None;
        }
        let digit = (b - 48) as usize;
        proof {
            assert(s@.subrange(first as int, i as int + 1).drop_last() =~= s@.subrange(first as int, i as int));
        }
        if v > (usize::MAX - 1 - digit) / 10 {
            proof {
                assert(v * 10 + digit >= usize::MAX) by (nonlinear_arith)
                    requires
                        v > (usize::MAX - 1 - digit) / 10,
                        digit <= 9,
                ;
                let rest = s@.subrange(first as int, end as int);
                let upto = s@.subrange(first as int, i as int + 1);
                assert(rest == t);
                assert(upto.drop_last() =~= s@.subrange(first as int, i as int));
                assert(upto.last() == b);
                assert(digits_value(upto) == v * 10 + digit);
                if forall|j: int| 0 <= j < rest.len() ==> is_digit(#[trigger] rest[j]) {
                    lemma_digits_grow(rest, i - first + 1);
                    assert(rest.take(i - first + 1) =~= upto);
                }
            }
            return None;
        }
        v = v * 10 + digit;
        i += 1;
    }
    proof {
        assert(t =~= s@.subrange(first as int, i as int));
        assert forall|j: int| 0 <= j < t.len() implies is_digit(#[trigger] t[j]) by {
            assert(t[j] == s@[first + j]);
        }
    }
    Some(v)
}

/// `columns` of a prefix one byte longer.
proof fn lemma_columns_step(s: Seq<u8>, i: int)
    requires
        0 <= i < s.len(),
    ensures
        columns(s.take(i + 1)) == if is_sep(s[i]) {
            columns(s.take(i)).push(Seq::empty())
        } else {
            columns(s.take(i)).update(
                columns(s.take(i)).len() - 1,
                columns(s.take(i)).last().push(s[i]),
            )
        },
{
    assert(s.take(i + 1).drop_last() =~= s.take(i));
    assert(s.take(i + 1).last() == s[i]);
}

/// Column `j` of `cols` is the run `bounds[j]` of `line`, for every bound.
pub open spec fn bounds_match(bounds: Seq<(usize, usize)>, cols: Seq<Seq<u8>>, line: Seq<u8>, upto: int) -> bool {
    forall|j: int|
        0 <= j < bounds.len() ==> #[trigger] bounds[j].0 <= bounds[j].1 && bounds[j].1 <= upto && cols[j]
            == line.subrange(bounds[j].0 as int, bounds[j].1 as int)
}

/// The bounds of the first three columns of `line` (fewer where it has
/// fewer), and its number of separators, one less than its columns.
fn first_columns(line: &Vec<u8>, bounds: &mut Vec<(usize, usize)>) -> (seps: usize)
    requires
        old(bounds).len() == 0,
    ensures
        seps + 1 == columns(line@).len(),
        final(bounds).len() == if seps < 2 {
            seps + 1
        } else {
            3
        },
        bounds_match(final(bounds)@, columns(line@), line@, line.len() as int),
{
    let mut seps: usize = 0;
    let mut cur: usize = 0;
    let mut i: usize = 0;
    assert(line@.take(0) =~= Seq::<u8>::empty());
    assert(columns(Seq::<u8>::empty()).last() =~= line@.subrange(0, 0));
    while i < line.len()
        invariant
            cur <= i <= line.len(),
            seps <= i,
            seps + 1 == columns(line@.take(i as int)).len(),
            columns(line@.take(i as int)).last() == line@.subrange(cur as int, i as int),
            bounds.len() == if seps < 3 {
                seps
            } else {
                3
            },
            bounds_match(bounds@, columns(line@.take(i as int)), line@, i as int),
        decreases line.len() - i,
    {
        let b = line[i];
        let ghost before = columns(line@.take(i as int));
        let ghost old_bounds = bounds@;
        let ghost old_seps = seps;
        let ghost old_cur = cur;
        let ghost old_i = i;
        proof {
            lemma_columns_step(line@, i as int);
        }
        let sep = b == 32 || b == 9 || b == 44 || b == 59;
        if sep {
            if bounds.len() < 3 {
                bounds.push((cur, i));
            }
            seps += 1;
            cur = i + 1;
        }
        i += 1;
        proof {
            let after = columns(line@.take(i as int));
            assert(i as int == old_i + 1);
            assert(after.last() =~= line@.subrange(cur as int, i as int));
            assert forall|j: int| 0 <= j < bounds.len() implies #[trigger] bounds[j].0 <= bounds[j].1
                && bounds[j].1 <= i && after[j] == line@.subrange(bounds[j].0 as int, bounds[j].1 as int) by {
                if j < old_bounds.len() {
                    assert(bounds[j] == old_bounds[j]);
                    assert(old_bounds[j].0 <= old_bounds[j].1 && old_bounds[j].1 <= old_i);
                    assert(before[j] == line@.subrange(old_bounds[j].0 as int, old_bounds[j].1 as int));
                    assert(j < before.len() - 1);
                    assert(after[j] == before[j]);
                } else {
                    assert(sep && j == old_seps);
                    assert(bounds[j] == (old_cur, old_i));
                    assert(after[j] == before[j]);
                    assert(before[j] == before.last());
                }
            }
            assert(bounds_match(bounds@, after, line@, i as int));
        }
    }
    assert(line@.take(i as int) =~= line@);
    let ghost cols = columns(line@);
    let ghost old_bounds = bounds@;
    if bounds.len() < 3 {
        bounds.push((cur, i));
    }
    assert forall|j: int| 0 <= j < bounds.len() implies #[trigger] bounds[j].0 <= bounds[j].1 && bounds[j].1
        <= line.len() && cols[j] == line@.subrange(bounds[j].0 as int, bounds[j].1 as int) by {
        if j < old_bounds.len() {
            assert(bounds[j] == old_bounds[j]);
            assert(old_bounds[j].0 <= old_bounds[j].1 && old_bounds[j].1 <= i);
            assert(cols[j] == line@.subrange(old_bounds[j].0 as int, old_bounds[j].1 as int));
        } else {
            assert(j == seps);
            assert(bounds[j] == (cur, i));
            assert(cols[j] == cols.last());
        }
    }
    assert(bounds_match(bounds@, cols, line@, line.len() as int));
    seps
}

/// Reads one line of an edge list: two node ids and an optional weight
/// column, separated by spaces, tabs, commas or semicolons. The edge is
/// given with its smaller end first; a line whose ends agree is a self-loop.
pub fn parse_edge_line(line: &Vec<u8>) -> (r: EdgeLine)
    ensures
        ({
            let c = columns(line@);
            match r {
                EdgeLine::FewColumns => c.len() < 2,
                EdgeLine::BadNumber => c.len() >= 2 && (node_id(c[0]) is None || node_id(c[1]) is None),
                EdgeLine::SelfLoop => c.len() >= 2 && node_id(c[0]) is Some && node_id(c[0]) == node_id(c[1]),
                EdgeLine::Edge { u, v, weight } => {
                    &&& c.len() >= 2
                    &&& node_id(c[0]) is Some
                    &&& node_id(c[1]) is Some
                    &&& u < v
                    &&& ((node_id(c[0]) == Some(u as nat) && node_id(c[1]) == Some(v as nat)) || (
                    node_id(c[0]) == Some(v as nat) && node_id(c[1]) == Some(u as nat)))
                    &&& (weight is Some <==> c.len() >= 3)
                    &&& (weight matches Some(w) ==> w@ == c[2])
                },
            }
        }),
{
    let mut bounds: Vec<(usize, usize)> = Vec::new();
    let seps = first_columns(line, &mut bounds);
    if seps < 1 {
        return EdgeLine::FewColumns;
    }
    let a = parse_id(line, bounds[0].0, bounds[0].1);
    let b = parse_id(line, bounds[1].0, bounds[1].1);
    match (a, b) {
        (Some(a), Some(b)) => {
            if a == b {
                EdgeLine::SelfLoop
            } else {
                let weight = if seps >= 2 {
                    let start = bounds[2].0;
                    let end = bounds[2].1;
                    assert(start <= end <= line.len());
                    let mut w: Vec<u8> = Vec::new();
                    let mut k = start;
                    while k < end
                        invariant
                            start <= k <= end <= line.len(),
                            w@ == line@.subrange(start as int, k as int),
                        decreases end - k,
                    {
                        w.push(line[k]);
                        k += 1;
                        assert(w@ =~= line@.subrange(start as int, k as int));
                    }
                    Some(w)
                } else {
                    None
                };
                if a < b {
                    EdgeLine::Edge { u: a, v: b, weight }
                } else {
                    EdgeLine::Edge { u: b, v: a, weight }
                }
            }
        },
        _ => EdgeLine::BadNumber,
    }
}

/// Why a line of an edge list was skipped or read only in part.
#[derive(Debug, Clone, Copy, PartialEq, Eq)]
pub enum LineIssue {
    /// Fewer than two columns: skipped.
    FewColumns,
    /// A node id that does not read as one: skipped.
    BadNumber,
    /// Both ends name the same node: skipped.
    SelfLoop,
    /// The weight column does not read as a number: weight 1 taken.
    BadWeight,
}

/// A graph read from an edge list.
pub struct EdgeList<T> {
    /// One more than the largest node id of an edge read, and 1 where no
    /// edge was read.
    pub nodes: usize,
    pub edges: Vec<(usize, usize)>,
    /// One weight per edge; 1 where the line gives none or an unreadable one.
    pub weights: Vec<T>,
    /// The lines, counted from 0, that were skipped or read in part, and why.
    pub issues: Vec<(usize, LineIssue)>,
}

/// What one line of an edge list gives: its edge, smaller end first, or
/// why it is skipped.
pub open spec fn line_outcome(line: Seq<u8>) -> Result<(usize, usize), LineIssue> {
    let c = columns(line);
    if c.len() < 2 {
        Err(LineIssue::FewColumns)
    } else if node_id(c[0]) is None || node_id(c[1]) is None {
        Err(LineIssue::BadNumber)
    } else {
        let a = node_id(c[0]).unwrap();
        let b = node_id(c[1]).unwrap();
        if a == b {
            Err(LineIssue::SelfLoop)
        } else if a < b {
            Ok((a as usize, b as usize))
        } else {
            Ok((b as usize, a as usize))
        }
    }
}

/// The edges of `lines`, in order.
pub open spec fn edges_of(lines: Seq<Seq<u8>>) -> Seq<(usize, usize)>
    decreases lines.len(),
{
    if lines.len() == 0 {
        Seq::empty()
    } else {
        let p = edges_of(lines.drop_last());
        match line_outcome(lines.last()) {
            Ok(e) => p.push(e),
            Err(_) => p,
        }
    }
}

/// For each edge of `lines`, in order, whether its line has a weight column.
pub open spec fn weighted_of(lines: Seq<Seq<u8>>) -> Seq<bool>
    decreases lines.len(),
{
    if lines.len() == 0 {
        Seq::empty()
    } else {
        let p = weighted_of(lines.drop_last());
        match line_outcome(lines.last()) {
            Ok(_) => p.push(columns(lines.last()).len() >= 3),
            Err(_) => p,
        }
    }
}

/// The lines of `lines` that are skipped, counted from 0, and why.
pub open spec fn skips_of(lines: Seq<Seq<u8>>) -> Seq<(usize, LineIssue)>
    decreases lines.len(),
{
    if lines.len() == 0 {
        Seq::empty()
    } else {
        let p = skips_of(lines.drop_last());
        match line_outcome(lines.last()) {
            Ok(_) => p,
            Err(k) => p.push(((lines.len() - 1) as usize, k)),
        }
    }
}

/// The issues of `issues` other than unreadable weights.
pub open spec fn skip_issues(issues: Seq<(usize, LineIssue)>) -> Seq<(usize, LineIssue)> {
    issues.filter(|x: (usize, LineIssue)| x.1 != LineIssue::BadWeight)
}

proof fn lemma_skip_issues_push(issues: Seq<(usize, LineIssue)>, x: (usize, LineIssue))
    ensures
        skip_issues(issues.push(x)) == if x.1 != LineIssue::BadWeight {
            skip_issues(issues).push(x)
        } else {
            skip_issues(issues)
        },
{
    reveal(Seq::filter);
    assert(issues.push(x).drop_last() =~= issues);
}

/// The pieces of `t` between line feeds; there is one more than there are
/// line feeds.
pub open spec fn pieces(t: Seq<u8>) -> Seq<Seq<u8>>
    decreases t.len(),
{
    if t.len() == 0 {
        seq![Seq::empty()]
    } else {
        let r = pieces(t.drop_last());
        if t.last() == 10 {
            r.push(Seq::empty())
        } else {
            r.update(r.len() - 1, r.last().push(t.last()))
        }
    }
}

proof fn lemma_pieces_nonempty(t: Seq<u8>)
    ensures
        pieces(t).len() >= 1,
    decreases t.len(),
{
    if t.len() > 0 {
        lemma_pieces_nonempty(t.drop_last());
    }
}

/// A line without the carriage return it ends with, if it has one.
pub open spec fn strip_cr(l: Seq<u8>) -> Seq<u8> {
    if l.len() > 0 && l.last() == 13 {
        l.drop_last()
    } else {
        l
    }
}

/// The lines of a text: its pieces between line feeds, each without a
/// final carriage return, and no line after a final line feed.
pub open spec fn lines_of(t: Seq<u8>) -> Seq<Seq<u8>> {
    let p = pieces(t);
    let q = if p.last().len() == 0 {
        p.drop_last()
    } else {
        p
    };
    q.map_values(|l: Seq<u8>| strip_cr(l))
}

impl<T: Coord> EdgeList<T> {
    /// Every edge names two nodes below `nodes`, the smaller first, and has
    /// one weight.
    pub open spec fn wf(&self) -> bool {
        &&& self.nodes >= 1
        &&& crate::layout::edges_valid(self.edges@, self.nodes as nat)
        &&& self.weights.len() == self.edges.len()
        &&& (self.edges.len() == 0 ==> self.nodes == 1)
        &&& (self.edges.len() > 0 ==> exists|e: int|
            0 <= e < self.edges.len() && #[trigger] self.edges[e].1 + 1 == self.nodes)
    }

    /// The list is what `lines` give: their edges in order, weight 1 for an
    /// edge whose line has no weight column, and the skipped lines with why.
    pub open spec fn reads(&self, lines: Seq<Seq<u8>>) -> bool {
        &&& self.edges@ == edges_of(lines)
        &&& weighted_of(lines).len() == self.edges@.len()
        &&& forall|e: int|
            0 <= e < self.edges@.len() && !weighted_of(lines)[e] ==> #[trigger] self.weights@[e] == T::spec_one()
        &&& skip_issues(self.issues@) == skips_of(lines)
    }

    /// Reads one more line into the list.
    fn add_line(&mut self, line: &Vec<u8>, index: usize, Ghost(done): Ghost<Seq<Seq<u8>>>)
        requires
            old(self).wf(),
            old(self).reads(done),
            index == done.len(),
        ensures
            final(self).wf(),
            final(self).reads(done.push(line@)),
    {
        let ghost lines = done.push(line@);
        proof {
            assert(lines.drop_last() =~= done);
        }
        match parse_edge_line(line) {
            EdgeLine::Edge { u, v, weight } => {
                let ghost old_issues = self.issues@;
                let ghost has_weight = weight is Some;
                let w = match weight {
                    Some(text) => match T::parse(text.as_slice()) {
                        Some(x) => x,
                        None => {
                            self.issues.push((index, LineIssue::BadWeight));
                            proof {
                                lemma_skip_issues_push(old_issues, (index, LineIssue::BadWeight));
                            }
                            T::one()
                        },
                    },
                    None => T::one(),
                };
                let ghost prev = self.edges@;
                let ghost prev_w = self.weights@;
                assert(v < usize::MAX);
                self.edges.push((u, v));
                self.weights.push(w);
                if v >= self.nodes {
                    self.nodes = v + 1;
                }
                proof {
                    assert(line_outcome(line@) == Ok::<(usize, usize), LineIssue>((u, v)));
                    assert(self.edges@ =~= edges_of(lines));
                    assert(weighted_of(lines) == weighted_of(done).push(has_weight));
                    assert forall|e: int|
                        0 <= e < self.edges@.len() && !weighted_of(lines)[e] implies #[trigger] self.weights@[e] == T::spec_one() by {
                        if e < prev.len() {
                            assert(self.weights@[e] == prev_w[e]);
                            assert(weighted_of(lines)[e] == weighted_of(done)[e]);
                        }
                    }
                    assert(self.edges@.subrange(0, prev.len() as int) =~= prev);
                    assert(self.edges[prev.len() as int] == (u, v));
                    assert forall|e: int| 0 <= e < self.edges@.len() implies self.edges@[e].0 < self.edges@[e].1
                        && self.edges@[e].1 < self.nodes by {
                        if e < prev.len() {
                            assert(self.edges@[e] == prev[e]);
                        }
                    }
                    if !(v + 1 == self.nodes) {
                        let e = choose|e: int| 0 <= e < prev.len() && #[trigger] prev[e].1 + 1 == self.nodes;
                        assert(self.edges[e] == prev[e]);
                    }
                }
            },
            EdgeLine::SelfLoop => {
                let ghost old_issues = self.issues@;
                self.issues.push((index, LineIssue::SelfLoop));
                proof {
                    lemma_skip_issues_push(old_issues, (index, LineIssue::SelfLoop));
                }
            },
            EdgeLine::BadNumber => {
                let ghost old_issues = self.issues@;
                self.issues.push((index, LineIssue::BadNumber));
                proof {
                    lemma_skip_issues_push(old_issues, (index, LineIssue::BadNumber));
                }
            },
            EdgeLine::FewColumns => {
                let ghost old_issues = self.issues@;
                self.issues.push((index, LineIssue::FewColumns));
                proof {
                    lemma_skip_issues_push(old_issues, (index, LineIssue::FewColumns));
                }
            },
        }
    }
}

/// Drops the carriage return that ends `line`, if it has one.
fn drop_cr(line: &mut Vec<u8>)
    ensures
        final(line)@ == strip_cr(old(line)@),
{
    if line.len() > 0 && line[line.len() - 1] == 13 {
        line.pop();
    }
}

/// Reads an edge list, one edge a line, as `parse_edge_line` reads each
/// line. Lines end at a line feed, a carriage return before it is dropped,
/// and no line follows a final line feed.
pub fn read_edge_list<T: Coord>(text: &Vec<u8>) -> (r: EdgeList<T>)
    ensures
        r.wf(),
        r.reads(lines_of(text@)),
{
    let mut list = EdgeList { nodes: 1, edges: Vec::new(), weights: Vec::new(), issues: Vec::new() };
    let mut line: Vec<u8> = Vec::new();
    let mut index: usize = 0;
    let mut i: usize = 0;
    let ghost mut done: Seq<Seq<u8>> = Seq::empty();
    proof {
        assert(text@.take(0) =~= Seq::<u8>::empty());
        reveal(Seq::filter);
        assert(skip_issues(list.issues@) =~= Seq::empty());
        assert(pieces(text@.take(0)).drop_last() =~= Seq::<Seq<u8>>::empty());
        assert(done =~= pieces(text@.take(0)).drop_last().map_values(|l: Seq<u8>| strip_cr(l)));
        assert(line@ =~= pieces(text@.take(0)).last());
    }
    while i < text.len()
        invariant
            list.wf(),
            list.reads(done),
            i <= text.len(),
            index == done.len(),
            index <= i,
            done == pieces(text@.take(i as int)).drop_last().map_values(|l: Seq<u8>| strip_cr(l)),
            line@ == pieces(text@.take(i as int)).last(),
        decreases text.len() - i,
    {
        let b = text[i];
        let ghost before = pieces(text@.take(i as int));
        proof {
            assert(text@.take(i as int + 1).drop_last() =~= text@.take(i as int));
            assert(text@.take(i as int + 1).last() == b);
            lemma_pieces_nonempty(text@.take(i as int));
            lemma_pieces_nonempty(text@.take(i as int + 1));
        }
        if b == 10 {
            let ghost piece = line@;
            drop_cr(&mut line);
            list.add_line(&line, index, Ghost(done));
            proof {
                let after = pieces(text@.take(i as int + 1));
                assert(after == before.push(Seq::empty()));
                assert(after.drop_last() == before);
                assert(before =~= before.drop_last().push(piece));
                assert(before.map_values(|l: Seq<u8>| strip_cr(l)) =~= done.push(strip_cr(piece)));
                done = done.push(line@);
            }
            line = Vec::new();
            index += 1;
            proof {
                assert(line@ =~= pieces(text@.take(i as int + 1)).last());
            }
        } else {
            line.push(b);
            proof {
                let after = pieces(text@.take(i as int + 1));
                assert(after == before.update(before.len() - 1, before.last().push(b)));
                assert(after.drop_last() =~= before.drop_last());
            }
        }
        i += 1;
    }
    proof {
        assert(text@.take(i as int) =~= text@);
    }
    let ghost p = pieces(text@);
    proof {
        lemma_pieces_nonempty(text@);
    }
    if line.len() > 0 {
        let ghost piece = line@;
        drop_cr(&mut line);
        list.add_line(&line, index, Ghost(done));
        proof {
            assert(p =~= p.drop_last().push(piece));
            assert(lines_of(text@) =~= done.push(strip_cr(piece)));
        }
    } else {
        proof {
            assert(lines_of(text@) =~= done);
        }
    }
    list
}

/// What `read_edge_list` returns can always be built into a layout: with
/// valid settings and `nodes * dimensions` initial positions, `from_graph`
/// finds nothing wrong with its edges and weights.
pub proof fn lemma_edge_list_builds<T: Coord>(
    list: EdgeList<T>,
    settings: crate::layout::Settings<T>,
    positions: nat,
)
    requires
        list.wf(),
        2 <= settings.dimensions <= 3,
        settings.chunk_size != Some(0usize),
        positions == list.nodes * settings.dimensions,
    ensures
        crate::layout::build_error(
            list.edges@,
            list.nodes as nat,
            Some(list.weights),
            settings,
            positions,
        ) is None,
{
}

} // verus!
