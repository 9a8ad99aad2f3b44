//! Graphs as text: edge lists that are read, and the text that is written.

use crate::compact_edges::upper_edges;
use crate::decimal::{decimal, push_decimal};
use crate::general_graph::{canonical, edge_order, enumerates, GeneralUndiGraph};
use crate::normal_graph::NormalUndiGraph;
use vstd::prelude::*;
use vstd::slice::slice_subrange;
use vstd::string::StringExecFns;

verus! {

/// What is wrong with a line of an edge list.
#[derive(Debug, Clone, Copy, PartialEq, Eq, Structural)]
pub enum LineFault {
    /// One of the first two tokens is no number that fits.
    BadNumber,
    /// The line has one token only.
    MissingToken,
}

/// The first line of an edge list that is no edge and no comment.
#[derive(Debug, Clone, Copy, PartialEq, Eq, Structural)]
pub struct EdgeListError {
    /// The number of lines before it.
    pub line: usize,
    pub fault: LineFault,
}

/// A decimal digit.
pub open spec fn is_digit(b: u8) -> bool {
    48 <= b && b <= 57
}

/// A space or a tab.
pub open spec fn is_separator(b: u8) -> bool {
    b == 32 || b == 9
}

/// Digits only.
pub open spec fn all_digits(s: Seq<u8>) -> bool {
    forall|i: int| 0 <= i < s.len() ==> is_digit(#[trigger] s[i])
}

/// The number that the digits write.
pub open spec fn digits_value(s: Seq<u8>) -> nat
    decreases s.len(),
{
    if s.len() == 0 {
        0
    } else {
        10 * digits_value(s.drop_last()) + (s.last() - 48) as nat
    }
}

/// The token without a plus sign in front.
pub open spec fn unsigned_part(token: Seq<u8>) -> Seq<u8> {
    if token.len() > 0 && token[0] == 43 {
        token.drop_first()
    } else {
        token
    }
}

/// The number that a token writes: digits, at least one, after at most one plus sign, with a
/// value that fits.
pub open spec fn number_of(token: Seq<u8>) -> Option<usize> {
    let digits = unsigned_part(token);
    if digits.len() > 0 && all_digits(digits) && digits_value(digits) <= usize::MAX {
        Some(digits_value(digits) as usize)
    } else {
        None
    }
}

/// Where the token ends that begins at `from`: at the next separator, or with the line.
pub open spec fn token_end(line: Seq<u8>, from: int) -> int
    decreases line.len() - from,
{
    if from >= line.len() {
        line.len() as int
    } else if is_separator(line[from]) {
        from
    } else {
        token_end(line, from + 1)
    }
}

/// A line that begins with `#` or `%`.
pub open spec fn is_comment(line: Seq<u8>) -> bool {
    line.len() > 0 && (line[0] == 35 || line[0] == 37)
}

/// What a line of an edge list says: nothing, if it is a comment; else the edge between the
/// numbers of its first two tokens. Every space and every tab ends a token, and what follows
/// the second token is ignored.
pub open spec fn edge_of(line: Seq<u8>) -> Result<Option<(usize, usize)>, LineFault> {
    if is_comment(line) {
        Ok(None)
    } else {
        let first_end = token_end(line, 0);
        match number_of(line.subrange(0, first_end)) {
            None => Err(LineFault::BadNumber),
            Some(u) => if first_end >= line.len() {
                Err(LineFault::MissingToken)
            } else {
                let second_end = token_end(line, first_end + 1);
                match number_of(line.subrange(first_end + 1, second_end)) {
                    None => Err(LineFault::BadNumber),
                    Some(v) => Ok(Some((u, v))),
                }
            },
        }
    }
}

/// Where the line ends that begins at `from`: at the next line feed, or with the text.
pub open spec fn line_end(text: Seq<u8>, from: int) -> int
    decreases text.len() - from,
{
    if from >= text.len() {
        text.len() as int
    } else if text[from] == 10 {
        from
    } else {
        line_end(text, from + 1)
    }
}

/// The line that begins at `from`, without the line feed that ends it and without a carriage
/// return before that line feed.
pub open spec fn line_at(text: Seq<u8>, from: int) -> Seq<u8> {
    let end = line_end(text, from);
    if end < text.len() && from < end && text[end - 1] == 13 {
        text.subrange(from, end - 1)
    } else {
        text.subrange(from, end)
    }
}

/// The lines of the text from `from` on. A line feed ends a line; what follows the last line
/// feed is a line if it is not empty.
pub open spec fn lines_from(text: Seq<u8>, from: int) -> Seq<Seq<u8>>
    decreases text.len() + 1 - from,
    via lines_from_ends
{
    if from < 0 || from >= text.len() {
        Seq::empty()
    } else {
        seq![line_at(text, from)] + lines_from(text, line_end(text, from) + 1)
    }
}

/// The lines end: each begins after the end of the one before.
#[via_fn]
proof fn lines_from_ends(text: Seq<u8>, from: int) {
    if 0 <= from < text.len() {
        lemma_line_end(text, from);
    }
}

/// The lines of the text.
pub open spec fn lines_of(text: Seq<u8>) -> Seq<Seq<u8>> {
    lines_from(text, 0)
}

/// The first line that is no edge and no comment, if there is one.
pub open spec fn first_fault(lines: Seq<Seq<u8>>) -> Option<EdgeListError>
    decreases lines.len(),
{
    if lines.len() == 0 {
        None
    } else {
        match first_fault(lines.drop_last()) {
            Some(e) => Some(e),
            None => match edge_of(lines.last()) {
                Err(fault) => Some(EdgeListError { line: (lines.len() - 1) as usize, fault }),
                Ok(_) => None,
            },
        }
    }
}

/// The pairs that the lines give, in order.
pub open spec fn pairs_of(lines: Seq<Seq<u8>>) -> Seq<(usize, usize)>
    decreases lines.len(),
{
    if lines.len() == 0 {
        Seq::empty()
    } else {
        match edge_of(lines.last()) {
            Ok(Some(pair)) => pairs_of(lines.drop_last()).push(pair),
            _ => pairs_of(lines.drop_last()),
        }
    }
}

/// The nodes of the graph with these pairs as edges: the ends of the pairs that are no loops.
pub open spec fn nodes_of(pairs: Seq<(usize, usize)>) -> Set<usize> {
    Set::new(
        |a: usize|
            exists|i: int|
                0 <= i < pairs.len() && (#[trigger] pairs[i]).0 != pairs[i].1 && (pairs[i].0 == a
                    || pairs[i].1 == a),
    )
}

/// The edges of that graph: the pairs that are no loops, smaller end first.
pub open spec fn edges_of(pairs: Seq<(usize, usize)>) -> Set<(usize, usize)> {
    Set::new(
        |e: (usize, usize)|
            exists|i: int|
                0 <= i < pairs.len() && (#[trigger] pairs[i]).0 != pairs[i].1 && e == canonical(
                    pairs[i].0,
                    pairs[i].1,
                ),
    )
}

/// A line ends at or after its beginning, within the text, and no line feed stands before
/// its end.
pub proof fn lemma_line_end(text: Seq<u8>, from: int)
    requires
        0 <= from <= text.len(),
    ensures
        from <= line_end(text, from) <= text.len(),
        line_end(text, from) < text.len() ==> text[line_end(text, from)] == 10,
        forall|i: int| from <= i < line_end(text, from) ==> text[i] != 10,
    decreases text.len() - from,
{
    if from < text.len() && text[from] != 10 {
        lemma_line_end(text, from + 1);
    }
}

/// More digits write no smaller number.
proof fn lemma_digits_value_grows(s: Seq<u8>, k: int)
    requires
        0 <= k <= s.len(),
    ensures
        digits_value(s.take(k)) <= digits_value(s),
    decreases s.len(),
{
    if k == s.len() {
        assert(s.take(k) == s);
    } else {
        lemma_digits_value_grows(s.drop_last(), k);
        assert(s.drop_last().take(k) == s.take(k));
    }
}

/// What one more pair adds to the nodes and edges.
proof fn lemma_push_pair(pairs: Seq<(usize, usize)>, pair: (usize, usize))
    ensures
        pair.0 == pair.1 ==> nodes_of(pairs.push(pair)) == nodes_of(pairs) && edges_of(
            pairs.push(pair),
        ) == edges_of(pairs),
        pair.0 != pair.1 ==> nodes_of(pairs.push(pair)) == nodes_of(pairs).insert(pair.0).insert(
            pair.1,
        ) && edges_of(pairs.push(pair)) == edges_of(pairs).insert(canonical(pair.0, pair.1)),
{
    let more = pairs.push(pair);
    let last = pairs.len() as int;
    assert(more[last] == pair);
    assert forall|a: usize|
        nodes_of(more).contains(a) <==> nodes_of(pairs).contains(a) || (pair.0 != pair.1 && (a
            == pair.0 || a == pair.1)) by {
        if nodes_of(pairs).contains(a) {
            let i = choose|i: int|
                0 <= i < pairs.len() && (#[trigger] pairs[i]).0 != pairs[i].1 && (pairs[i].0 == a
                    || pairs[i].1 == a);
            assert(more[i] == pairs[i]);
        }
        if nodes_of(more).contains(a) {
            let i = choose|i: int|
                0 <= i < more.len() && (#[trigger] more[i]).0 != more[i].1 && (more[i].0 == a
                    || more[i].1 == a);
            if i < last {
                assert(more[i] == pairs[i]);
            }
        }
    }
    assert forall|e: (usize, usize)|
        edges_of(more).contains(e) <==> edges_of(pairs).contains(e) || (pair.0 != pair.1 && e
            == canonical(pair.0, pair.1)) by {
        if edges_of(pairs).contains(e) {
            let i = choose|i: int|
                0 <= i < pairs.len() && (#[trigger] pairs[i]).0 != pairs[i].1 && e == canonical(
                    pairs[i].0,
                    pairs[i].1,
                );
            assert(more[i] == pairs[i]);
        }
        if edges_of(more).contains(e) {
            let i = choose|i: int|
                0 <= i < more.len() && (#[trigger] more[i]).0 != more[i].1 && e == canonical(
                    more[i].0,
                    more[i].1,
                );
            if i < last {
                assert(more[i] == pairs[i]);
            }
        }
    }
    if pair.0 == pair.1 {
        assert(nodes_of(more) =~= nodes_of(pairs));
        assert(edges_of(more) =~= edges_of(pairs));
    } else {
        assert(nodes_of(more) =~= nodes_of(pairs).insert(pair.0).insert(pair.1));
        assert(edges_of(more) =~= edges_of(pairs).insert(canonical(pair.0, pair.1)));
    }
}

/// The number that the token writes.
pub fn parse_number(token: &[u8]) -> (r: Option<usize>)
    ensures
        r == number_of(token@),
{
    let len = token.len();
    let mut i: usize = 0;
    if len > 0 && token[0] == 43 {
        i = 1;
    }
    if i == len {
        return None;
    }
    let start = i;
    let ghost digits = unsigned_part(token@);
    assert(digits == token@.subrange(start as int, len as int));
    let mut value: usize = 0;
    while i < len
        invariant
            start <= i <= len,
            len == token@.len(),
            digits == token@.subrange(start as int, len as int),
            digits == unsigned_part(token@),
            all_digits(digits.take(i - start)),
            value == digits_value(digits.take(i - start)),
        decreases len - i,
    {
        let b = token[i];
        if b < 48 || b > 57 {
            assert(!is_digit(digits[i - start]));
            return None;
        }
        let d = (b - 48) as usize;
        proof {
            let longer = digits.take(i - start + 1);
            assert(longer.drop_last() == digits.take(i - start));
            assert(longer.last() == b);
            lemma_digits_value_grows(digits, i - start + 1);
            assert forall|k: int| 0 <= k < longer.len() implies is_digit(#[trigger] longer[k]) by {
                if k < i - start {
                    assert(digits.take(i - start)[k] == longer[k]);
                }
            }
        }
        if value > (usize::MAX - d) / 10 {
            return None;
        }
        value = value * 10 + d;
        i += 1;
    }
    assert(digits.take(len - start) == digits);
    Some(value)
}

/// Where the token ends that begins at `from`.
fn find_token_end(line: &[u8], from: usize) -> (end: usize)
    requires
        from <= line@.len(),
    ensures
        end == token_end(line@, from as int),
        from <= end <= line@.len(),
{
    let mut i = from;
    while i < line.len() && line[i] != 32 && line[i] != 9
        invariant
            from <= i <= line@.len(),
            token_end(line@, from as int) == token_end(line@, i as int),
        decreases line@.len() - i,
    {
        i += 1;
    }
    i
}

/// What the line says.
pub fn parse_line(line: &[u8]) -> (r: Result<Option<(usize, usize)>, LineFault>)
    ensures
        r == edge_of(line@),
{
    if line.len() > 0 && (line[0] == 35 || line[0] == 37) {
        return Ok(None);
    }
    let first_end = find_token_end(line, 0);
    let u = match parse_number(slice_subrange(line, 0, first_end)) {
        Some(u) => u,
        None => {
            return Err(LineFault::BadNumber);
        },
    };
    if first_end >= line.len() {
        return Err(LineFault::MissingToken);
    }
    let second_end = find_token_end(line, first_end + 1);
    match parse_number(slice_subrange(line, first_end + 1, second_end)) {
        Some(v) => Ok(Some((u, v))),
        None => Err(LineFault::BadNumber),
    }
}

impl GeneralUndiGraph {
    /// The graph that an edge list describes, line by line, or the first line that is neither
    /// an edge nor a comment.
    pub fn from_text(name: &str, text: &[u8]) -> (r: Result<Self, EdgeListError>)
        ensures
            match r {
                Ok(g) => first_fault(lines_of(text@)) is None && g.wf() && g.name@ == name@
                    && g.nodes@ == nodes_of(pairs_of(lines_of(text@))) && g.edges@ == edges_of(
                    pairs_of(lines_of(text@)),
                ),
                Err(e) => first_fault(lines_of(text@)) == Some(e),
            },
    {
        let mut g = GeneralUndiGraph::new(String::from_str(name));
        let len = text.len();
        let mut from: usize = 0;
        let mut count: usize = 0;
        let ghost mut done: Seq<Seq<u8>> = Seq::empty();
        proof {
            assert(nodes_of(pairs_of(done)) =~= Set::<usize>::empty());
            assert(edges_of(pairs_of(done)) =~= Set::<(usize, usize)>::empty());
        }
        while from < len
            invariant
                from <= len,
                count <= from,
                len == text@.len(),
                lines_of(text@) == done + lines_from(text@, from as int),
                count == done.len(),
                first_fault(done) is None,
                g.wf(),
                g.name@ == name@,
                g.nodes@ == nodes_of(pairs_of(done)),
                g.edges@ == edges_of(pairs_of(done)),
            decreases len - from,
        {
            let mut end = from;
            while end < len && text[end] != 10
                invariant
                    from <= end <= len,
                    len == text@.len(),
                    line_end(text@, from as int) == line_end(text@, end as int),
                decreases len - end,
            {
                end += 1;
            }
            let stop = if end < len && from < end && text[end - 1] == 13 {
                end - 1
            } else {
                end
            };
            let line = slice_subrange(text, from, stop);
            let ghost lines = done.push(line@);
            proof {
                lemma_line_end(text@, from as int);
                assert(line@ == line_at(text@, from as int));
                assert(lines.drop_last() == done);
                assert(done + lines_from(text@, from as int) =~= lines + lines_from(
                    text@,
                    end + 1,
                ));
                lemma_push_pair(pairs_of(done), (0, 0));
            }
            match parse_line(line) {
                Ok(Some((u, v))) => {
                    proof {
                        lemma_push_pair(pairs_of(done), (u, v));
                    }
                    g.add_edge(u, v);
                },
                Ok(None) => {},
                Err(fault) => {
                    proof {
                        lemma_fault_stays(lines, lines_from(text@, end + 1));
                    }
                    return Err(EdgeListError { line: count, fault });
                },
            }
            proof {
                done = lines;
            }
            count += 1;
            from = if end < len {
                end + 1
            } else {
                len
            };
        }
        proof {
            assert(lines_from(text@, from as int) =~= Seq::empty());
            assert(done + Seq::<Seq<u8>>::empty() =~= done);
        }
        Ok(g)
    }
}

/// A fault among the first lines is the first fault of all.
proof fn lemma_fault_stays(lines: Seq<Seq<u8>>, more: Seq<Seq<u8>>)
    requires
        first_fault(lines) is Some,
    ensures
        first_fault(lines + more) == first_fault(lines),
    decreases more.len(),
{
    if more.len() == 0 {
        assert(lines + more =~= lines);
    } else {
        lemma_fault_stays(lines, more.drop_last());
        assert((lines + more).drop_last() =~= lines + more.drop_last());
    }
}

/// One line for each edge: the two ends in decimal, a tab between them.
pub open spec fn edge_lines(edges: Seq<(usize, usize)>) -> Seq<char>
    decreases edges.len(),
{
    if edges.len() == 0 {
        Seq::empty()
    } else {
        edge_lines(edges.drop_last()) + decimal(edges.last().0 as nat) + "\t"@ + decimal(
            edges.last().1 as nat,
        ) + "\n"@
    }
}

/// The text of a graph: two lines with the kind of graph, its name and its counts, then the
/// edges.
pub open spec fn rendered(
    kind: Seq<char>,
    name: Seq<char>,
    n: nat,
    m: nat,
    edges: Seq<(usize, usize)>,
) -> Seq<char> {
    "# "@ + kind + ": "@ + name + "\n# Nodes: "@ + decimal(n) + " Edges: "@ + decimal(m) + "\n"@
        + edge_lines(edges)
}

/// Writes the text of a graph.
fn render(kind: &str, name: &str, n: usize, m: usize, edges: &Vec<(usize, usize)>) -> (text:
    String)
    ensures
        text@ == rendered(kind@, name@, n as nat, m as nat, edges@),
{
    let mut text = String::from_str("# ");
    text.append(kind);
    text.append(": ");
    text.append(name);
    text.append("\n# Nodes: ");
    push_decimal(&mut text, n);
    text.append(" Edges: ");
    push_decimal(&mut text, m);
    text.append("\n");
    let ghost head = text@;
    let mut i: usize = 0;
    assert(edges@.take(0) =~= Seq::empty());
    while i < edges.len()
        invariant
            i <= edges@.len(),
            text@ == head + edge_lines(edges@.take(i as int)),
        decreases edges@.len() - i,
    {
        let (u, v) = edges[i];
        proof {
            assert(edges@.take(i + 1).drop_last() == edges@.take(i as int));
            assert(edges@.take(i + 1).last() == (u, v));
        }
        push_decimal(&mut text, u);
        text.append("\t");
        push_decimal(&mut text, v);
        text.append("\n");
        assert(text@ =~= head + edge_lines(edges@.take(i + 1)));
        i += 1;
    }
    assert(edges@.take(edges@.len() as int) == edges@);
    text
}

impl GeneralUndiGraph {
    /// The text of the graph: its name and counts, then its edges in lexicographic order.
    pub fn to_string(&self) -> (text: String)
        ensures
            text@ == rendered(
                "GeneralUndiGraph"@,
                self.name@,
                self.nodes.len() as nat,
                self.edges.len() as nat,
                edge_order(self.edges@),
            ),
            enumerates(edge_order(self.edges@), self.edges@),
    {
        let edges = self.edge_list();
        render("GeneralUndiGraph", self.name.as_str(), self.num_nodes(), self.num_edges(), &edges)
    }
}

impl NormalUndiGraph {
    /// The text of the graph: its name and counts, then its edges, each once, smaller end
    /// first.
    pub fn to_string(&self) -> (text: String)
        ensures
            text@ == rendered(
                "NormalUndiGraph"@,
                self.name@,
                self.n as nat,
                self.m as nat,
                upper_edges(self.lists()),
            ),
    {
        let edges = self.edge_list();
        render("NormalUndiGraph", self.name.as_str(), self.n, self.m, &edges)
    }
}

} // verus!
