use crate::text::{lemma_first_tab_is_first, fields, first_tab, parse_line, split_line, trim, TAB};
use vstd::hash_set::StringHashSet;
use vstd::prelude::*;

verus! {

/// A directed edge as the specifications see it: source, then target.
pub type EdgeView = (Seq<char>, Seq<char>);

/// A directed edge of the graph: a hyperlink from `source` to `target`.
#[derive(Debug, Clone, PartialEq, Eq, Hash)]
pub struct GraphEdge {
    source: String,
    target: String,
}

impl View for GraphEdge {
    type V = EdgeView;

    closed spec fn view(&self) -> EdgeView {
        (self.source@, self.target@)
    }
}

impl GraphEdge {
    /// The edge from `source` to `target`.
    pub fn new(source: String, target: String) -> (e: Self)
        ensures
            e@ == (source@, target@),
    {
        GraphEdge { source, target }
    }

    /// The node the edge leaves.
    pub fn source(&self) -> (s: &str)
        ensures
            s@ == self@.0,
    {
        self.source.as_str()
    }

    /// The node the edge enters.
    pub fn target(&self) -> (t: &str)
        ensures
            t@ == self@.1,
    {
        self.target.as_str()
    }
}

/// The edges of `edges`, each by its view.
pub open spec fn edge_views(edges: Seq<GraphEdge>) -> Seq<EdgeView> {
    edges.map_values(|e: GraphEdge| e@)
}

/// The edges after one more line: a line that gives an edge not yet among
/// `edges` adds it at the end; any other line changes nothing.
pub open spec fn record(edges: Seq<EdgeView>, line: Seq<char>) -> Seq<EdgeView> {
    match parse_line(line) {
        Some(e) => if edges.contains(e) {
            edges
        } else {
            edges.push(e)
        },
        None => edges,
    }
}

/// The edges that `lines` give: each distinct edge once, in the order in
/// which the edges first occur.
pub open spec fn edge_set(lines: Seq<Seq<char>>) -> Seq<EdgeView>
    decreases lines.len(),
{
    if lines.len() == 0 {
        Seq::empty()
    } else {
        record(edge_set(lines.drop_last()), lines.last())
    }
}

/// Why ingestion gave no edges.
#[derive(Debug, Clone, Copy, PartialEq, Eq, Structural)]
pub enum IngestError {
    /// The input could not be opened.
    OpenFailure,
    /// A line of the input could not be read.
    ReadFailure,
}

/// The key under which an edge is remembered: source, tab, target.
spec fn edge_key(e: EdgeView) -> Seq<char> {
    e.0 + seq![TAB] + e.1
}

/// `seen` holds the keys of `edges` and no others, and the keys tell the
/// edges apart: no source holds a tab.
spec fn remembers(seen: Set<Seq<char>>, edges: Seq<GraphEdge>) -> bool {
    &&& edge_views(edges).no_duplicates()
    &&& forall|i: int| 0 <= i < edges.len() ==> !(#[trigger] edges[i])@.0.contains(TAB)
    &&& forall|k: Seq<char>|
        seen.contains(k) <==> exists|i: int|
            0 <= i < edges.len() && edge_key((#[trigger] edges[i])@) == k
}

/// Collects the edges of an input line by line.
pub struct EdgeIngestor {
    edges: Vec<GraphEdge>,
    seen: StringHashSet,
    failure: Option<IngestError>,
}

impl EdgeIngestor {
    #[verifier::type_invariant]
    spec fn inv(&self) -> bool {
        remembers(self.seen@, self.edges@)
    }

    /// The edges collected so far.
    pub closed spec fn edges(&self) -> Seq<EdgeView> {
        edge_views(self.edges@)
    }

    /// The failure that ended ingestion, if one did.
    pub closed spec fn failure(&self) -> Option<IngestError> {
        self.failure
    }

    /// An ingestor that has seen nothing.
    pub fn new() -> (s: Self)
        ensures
            s.edges() == Seq::<EdgeView>::empty(),
            s.failure() is None,
    {
        EdgeIngestor { edges: Vec::new(), seen: StringHashSet::new(), failure: None }
    }

    /// Takes one line of the input. While no failure has been recorded, the
    /// line's edge, if it has one and the edge is new, joins the edges; after
    /// a failure the line is ignored.
    pub fn record_line(self, line: &str) -> (next: Self)
        ensures
            next.failure() == self.failure(),
            next.edges() == if self.failure() is None {
                record(self.edges(), line@)
            } else {
                self.edges()
            },
            next.edges().no_duplicates(),
    {
        proof {
            use_type_invariant(&self);
        }
        if self.failure.is_some() {
            return self;
        }
        let ghost before = self.edges@;
        proof {
            lemma_record_no_duplicates(edge_views(before), line@);
        }
        let EdgeIngestor { mut edges, mut seen, failure } = self;
        match split_line(line) {
            None => {},
            Some((source, target)) => {
                let ghost e = (source@, target@);
                let key = source.clone().concat("\t").concat(target.as_str());
                proof {
                    reveal_strlit("\t");
                    assert("\t"@ =~= seq![TAB]);
                    assert(key@ == edge_key(e));
                    lemma_source_has_no_tab(line@);
                    assert forall|i: int| 0 <= i < before.len() implies (edge_key(
                        (#[trigger] before[i])@,
                    ) == key@ <==> before[i]@ == e) by {
                        if edge_key(before[i]@) == key@ {
                            lemma_edge_key_injective(before[i]@, e);
                        }
                    }
                    if edge_views(before).contains(e) {
                        let i = choose|i: int|
                            0 <= i < before.len() && edge_views(before)[i] == e;
                        assert(edge_key(before[i]@) == key@);
                    }
                    if seen@.contains(key@) {
                        let i = choose|i: int|
                            0 <= i < before.len() && edge_key((#[trigger] before[i])@) == key@;
                        assert(edge_views(before)[i] == e);
                    }
                }
                if seen.insert(key) {
                    edges.push(GraphEdge { source, target });
                    proof {
                        let n = before.len() as int;
                        assert(edge_views(edges@) =~= edge_views(before).push(e));
                        assert forall|k: Seq<char>|
                            seen@.contains(k) <==> exists|i: int|
                                0 <= i < edges.len() && edge_key((#[trigger] edges[i])@) == k by {
                            if seen@.contains(k) {
                                if k == key@ {
                                    assert(edge_key(edges[n]@) == k);
                                } else {
                                    let i = choose|i: int|
                                        0 <= i < n && edge_key((#[trigger] before[i])@) == k;
                                    assert(edge_key(edges[i]@) == k);
                                }
                            }
                            if exists|i: int|
                                0 <= i < edges.len() && edge_key((#[trigger] edges[i])@) == k {
                                let i = choose|i: int|
                                    0 <= i < edges.len() && edge_key((#[trigger] edges[i])@) == k;
                                if i < n {
                                    assert(edge_key(before[i]@) == k);
                                }
                            }
                        }
                    }
                }
            },
        }
        EdgeIngestor { edges, seen, failure }
    }

    /// Records that the input failed. The first failure recorded is the one
    /// that is kept; the edges collected so far stay as they are, and no
    /// later line adds to them.
    pub fn record_failure(self, failure: IngestError) -> (next: Self)
        ensures
            next.edges() == self.edges(),
            next.failure() == Some(
                match self.failure() {
                    Some(first) => first,
                    None => failure,
                },
            ),
    {
        proof {
            use_type_invariant(&self);
        }
        if self.failure.is_some() {
            return self;
        }
        let EdgeIngestor { edges, seen, failure: _ } = self;
        EdgeIngestor { edges, seen, failure: Some(failure) }
    }

    /// Whether a failure has been recorded.
    pub fn has_failed(&self) -> (b: bool)
        ensures
            b == self.failure() is Some,
    {
        self.failure.is_some()
    }

    /// Ends ingestion: the edges, or the failure if one was recorded. After
    /// a failure no edges are handed out.
    pub fn finish(self) -> (r: Result<Vec<GraphEdge>, IngestError>)
        ensures
            match self.failure() {
                Some(failure) => r == Err::<Vec<GraphEdge>, IngestError>(failure),
                None => r is Ok && edge_views(r->Ok_0@) == self.edges(),
            },
            self.edges().no_duplicates(),
    {
        proof {
            use_type_invariant(&self);
        }
        match self.failure {
            Some(failure) => Err(failure),
            None => Ok(self.edges),
        }
    }
}

/// The texts of lines that were all read.
pub open spec fn texts(lines: Seq<Option<String>>) -> Seq<Seq<char>> {
    lines.map_values(
        |l: Option<String>|
            match l {
                Some(text) => text@,
                None => Seq::empty(),
            },
    )
}

/// Reads the edges of a whole input, given line by line; `None` stands for a
/// line that could not be read. If every line was read, the result is the
/// edges of the lines, each distinct edge once, in first-seen order. If any
/// line was not, the result is a read failure and no edges.
pub fn read_lines(lines: &Vec<Option<String>>) -> (r: Result<Vec<GraphEdge>, IngestError>)
    ensures
        match r {
            Ok(edges) => {
                &&& forall|i: int| 0 <= i < lines.len() ==> lines[i] is Some
                &&& edge_views(edges@) == edge_set(texts(lines@))
                &&& edge_views(edges@).no_duplicates()
            },
            Err(failure) => {
                &&& failure == IngestError::ReadFailure
                &&& exists|i: int| 0 <= i < lines.len() && lines[i] is None
            },
        },
{
    let mut ingestor = EdgeIngestor::new();
    let mut i: usize = 0;
    while i < lines.len()
        invariant
            i <= lines.len(),
            ingestor.failure() is None,
            ingestor.edges() == edge_set(texts(lines@.take(i as int))),
            forall|j: int| 0 <= j < i ==> lines[j] is Some,
        decreases lines.len() - i,
    {
        match &lines[i] {
            Some(text) => {
                proof {
                    let done = texts(lines@.take(i + 1));
                    assert(done.drop_last() =~= texts(lines@.take(i as int)));
                    assert(done.last() == text@);
                }
                ingestor = ingestor.record_line(text.as_str());
            },
            None => {
                ingestor = ingestor.record_failure(IngestError::ReadFailure);
                return ingestor.finish();
            },
        }
        i += 1;
    }
    proof {
        assert(lines@.take(i as int) =~= lines@);
    }
    ingestor.finish()
}

/// Taking a line keeps the edges free of duplicates.
pub proof fn lemma_record_no_duplicates(edges: Seq<EdgeView>, line: Seq<char>)
    requires
        edges.no_duplicates(),
    ensures
        record(edges, line).no_duplicates(),
{
}

/// No edge occurs twice among the edges that lines give.
pub proof fn lemma_edge_set_no_duplicates(lines: Seq<Seq<char>>)
    ensures
        edge_set(lines).no_duplicates(),
    decreases lines.len(),
{
    if lines.len() > 0 {
        lemma_edge_set_no_duplicates(lines.drop_last());
        lemma_record_no_duplicates(edge_set(lines.drop_last()), lines.last());
    }
}

/// The edges that lines give are exactly the edges that some line holds,
/// with the fields as that line has them.
pub proof fn lemma_edge_set_members(lines: Seq<Seq<char>>, e: EdgeView)
    ensures
        edge_set(lines).contains(e) <==> exists|i: int|
            0 <= i < lines.len() && parse_line(#[trigger] lines[i]) == Some(e),
    decreases lines.len(),
{
    if lines.len() > 0 {
        let init = lines.drop_last();
        lemma_edge_set_members(init, e);
        if edge_set(lines).contains(e) {
            if edge_set(init).contains(e) {
                let i = choose|i: int|
                    0 <= i < init.len() && parse_line(#[trigger] init[i]) == Some(e);
                assert(parse_line(lines[i]) == Some(e));
            } else {
                let at = choose|at: int|
                    0 <= at < edge_set(lines).len() && edge_set(lines)[at] == e;
                assert(parse_line(lines[lines.len() - 1]) == Some(e));
            }
        }
        if exists|i: int| 0 <= i < lines.len() && parse_line(#[trigger] lines[i]) == Some(e) {
            let i = choose|i: int|
                0 <= i < lines.len() && parse_line(#[trigger] lines[i]) == Some(e);
            if i < init.len() {
                assert(parse_line(init[i]) == Some(e));
                let at = choose|at: int|
                    0 <= at < edge_set(init).len() && edge_set(init)[at] == e;
                assert(edge_set(lines)[at] == e);
            } else {
                if !edge_set(init).contains(e) {
                    assert(edge_set(lines).last() == e);
                }
            }
        }
    }
}

/// The edges stand in the order in which they are first seen: of two of
/// them, the earlier one is on some line before every line that holds the
/// later one.
pub proof fn lemma_edge_set_first_seen_order(lines: Seq<Seq<char>>, p: int, q: int)
    requires
        0 <= p < q < edge_set(lines).len(),
    ensures
        exists|i: int|
            0 <= i < lines.len() && parse_line(#[trigger] lines[i]) == Some(edge_set(lines)[p])
                && forall|j: int|
                0 <= j <= i ==> parse_line(#[trigger] lines[j]) != Some(edge_set(lines)[q]),
    decreases lines.len(),
{
    let init = lines.drop_last();
    let before = edge_set(init);
    let all = edge_set(lines);
    if q < before.len() {
        lemma_edge_set_first_seen_order(init, p, q);
        let i = choose|i: int|
            0 <= i < init.len() && parse_line(#[trigger] init[i]) == Some(before[p])
                && forall|j: int|
                0 <= j <= i ==> parse_line(#[trigger] init[j]) != Some(before[q]);
        assert(parse_line(lines[i]) == Some(all[p]));
        assert forall|j: int| 0 <= j <= i implies parse_line(#[trigger] lines[j]) != Some(
            all[q],
        ) by {
            assert(lines[j] == init[j]);
        }
    } else {
        lemma_edge_set_members(init, all[p]);
        lemma_edge_set_members(init, all[q]);
        assert(before.contains(all[p])) by {
            assert(before[p] == all[p]);
        }
        let i = choose|i: int|
            0 <= i < init.len() && parse_line(#[trigger] init[i]) == Some(all[p]);
        assert(parse_line(lines[i]) == Some(all[p]));
        assert forall|j: int| 0 <= j <= i implies parse_line(#[trigger] lines[j]) != Some(
            all[q],
        ) by {
            assert(lines[j] == init[j]);
        }
    }
}

/// The source of a line's edge holds no tab.
proof fn lemma_source_has_no_tab(line: Seq<char>)
    ensures
        parse_line(line) is Some ==> !parse_line(line)->Some_0.0.contains(TAB),
{
    let t = trim(line);
    lemma_first_tab_is_first(t);
    if parse_line(line) is Some {
        let source = parse_line(line)->Some_0.0;
        if first_tab(t) >= t.len() {
            assert(fields(t).len() == 1);
        }
        assert(source == t.take(first_tab(t) as int));
        if source.contains(TAB) {
            let j = choose|j: int| 0 <= j < source.len() && source[j] == TAB;
            assert(t[j] == TAB);
        }
    }
}

/// Edges whose sources hold no tab have the same key only if they are the
/// same edge.
proof fn lemma_edge_key_injective(a: EdgeView, b: EdgeView)
    requires
        !a.0.contains(TAB),
        !b.0.contains(TAB),
        edge_key(a) == edge_key(b),
    ensures
        a == b,
{
    let ka = edge_key(a);
    let kb = edge_key(b);
    let la = a.0.len() as int;
    let lb = b.0.len() as int;
    assert(ka[la] == TAB);
    assert(kb[lb] == TAB);
    if la < lb {
        assert(kb[la] == b.0[la]);
        assert(b.0.contains(TAB));
    }
    if lb < la {
        assert(ka[lb] == a.0[lb]);
        assert(a.0.contains(TAB));
    }
    assert(a.0 =~= ka.take(la));
    assert(b.0 =~= kb.take(lb));
    assert(a.1 =~= ka.skip(la + 1));
    assert(b.1 =~= kb.skip(lb + 1));
}

} // verus!
