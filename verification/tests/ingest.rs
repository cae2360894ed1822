use hyperlink_graph::text::{char_is_whitespace, split_line};
use hyperlink_graph::{read_lines, EdgeIngestor, GraphEdge, IngestError};

fn lines(texts: &[&str]) -> Vec<Option<String>> {
    texts.iter().map(|t| Some(t.to_string())).collect()
}

fn pairs(edges: &[GraphEdge]) -> Vec<(String, String)> {
    edges
        .iter()
        .map(|e| (e.source().to_string(), e.target().to_string()))
        .collect()
}

fn pair(a: &str, b: &str) -> (String, String) {
    (a.to_string(), b.to_string())
}

#[test]
fn split_line_takes_first_two_fields() {
    assert_eq!(split_line("a\tb"), Some(pair("a", "b")));
    assert_eq!(split_line("a\tb\textra\tmore"), Some(pair("a", "b")));
}

#[test]
fn split_line_rejects_short_lines() {
    assert_eq!(split_line(""), None);
    assert_eq!(split_line("z"), None);
    assert_eq!(split_line("   "), None);
    assert_eq!(split_line("no tabs here"), None);
}

#[test]
fn split_line_trims_the_whole_line_only() {
    assert_eq!(split_line("  a\tb  "), Some(pair("a", "b")));
    assert_eq!(split_line("a \t b"), Some(pair("a ", " b")));
    assert_eq!(split_line("a\tb\r\n"), Some(pair("a", "b")));
}

#[test]
fn split_line_treats_edge_tabs_as_white_space() {
    // A tab at either end of the line is trimmed away before splitting.
    assert_eq!(split_line("\ta\tb"), Some(pair("a", "b")));
    assert_eq!(split_line("a\t"), None);
    assert_eq!(split_line("a\tb\t"), Some(pair("a", "b")));
}

#[test]
fn split_line_keeps_empty_inner_fields() {
    assert_eq!(split_line("a\t\tb"), Some(pair("a", "")));
}

#[test]
fn split_line_trims_unicode_white_space() {
    assert_eq!(split_line("\u{3000}a\tb\u{a0}"), Some(pair("a", "b")));
    assert_eq!(split_line("\u{2003}é\tü\u{85}"), Some(pair("é", "ü")));
    // U+200B is no white space and stays.
    assert_eq!(split_line("\u{200b}a\tb"), Some(pair("\u{200b}a", "b")));
}

#[test]
fn split_line_agrees_with_std_on_samples() {
    let samples = [
        "a\tb",
        " a\tb\tc ",
        "\t\ta\t\tb\t\t",
        "x",
        "",
        "\u{1680}p q\tr s\u{2028}",
        "only\t",
        "\tonly",
        "a\tb c\td",
    ];
    for s in samples {
        let v: Vec<&str> = s.trim().split('\t').collect();
        let expected = if v.len() >= 2 {
            Some((v[0].to_string(), v[1].to_string()))
        } else {
            None
        };
        assert_eq!(split_line(s), expected, "line {:?}", s);
    }
}

#[test]
fn white_space_matches_std_for_every_char() {
    let mut c = 0u32;
    while c <= 0x10ffff {
        if let Some(ch) = char::from_u32(c) {
            assert_eq!(char_is_whitespace(ch), ch.is_whitespace(), "U+{:04X}", c);
        }
        c += 1;
    }
}

#[test]
fn duplicate_is_dropped_and_reverse_is_kept() {
    let edges = read_lines(&lines(&["a\tb\textra", "b\ta", "a\tb"])).unwrap();
    assert_eq!(pairs(&edges), vec![pair("a", "b"), pair("b", "a")]);
}

#[test]
fn malformed_line_is_ignored() {
    let edges = read_lines(&lines(&["x\ty", "z"])).unwrap();
    assert_eq!(pairs(&edges), vec![pair("x", "y")]);
}

#[test]
fn empty_or_malformed_input_gives_no_edges() {
    assert_eq!(read_lines(&Vec::new()), Ok(Vec::new()));
    assert_eq!(read_lines(&lines(&["z", "", "   ", "q"])), Ok(Vec::new()));
}

#[test]
fn first_occurrence_keeps_its_place() {
    let edges = read_lines(&lines(&[
        "c\td", "a\tb", "c\td", "b\ta", "a\tb", "e\tf", "c\td\tx",
    ]))
    .unwrap();
    assert_eq!(
        pairs(&edges),
        vec![pair("c", "d"), pair("a", "b"), pair("b", "a"), pair("e", "f")]
    );
}

#[test]
fn no_edge_occurs_twice() {
    let edges = read_lines(&lines(&[
        "a\tb", "a\tb", " a\tb ", "a\tb\tc", "b\ta", "a\tb", "b\ta",
    ]))
    .unwrap();
    let p = pairs(&edges);
    for i in 0..p.len() {
        for j in (i + 1)..p.len() {
            assert_ne!(p[i], p[j]);
        }
    }
    assert_eq!(p.len(), 2);
}

#[test]
fn edges_are_told_apart_by_both_fields() {
    // The same text split differently is a different edge.
    let edges = read_lines(&lines(&["ab\tc", "a\tbc", "a\t", "a\tb c", "a\tb"])).unwrap();
    assert_eq!(
        pairs(&edges),
        vec![pair("ab", "c"), pair("a", "bc"), pair("a", "b c"), pair("a", "b")]
    );
}

#[test]
fn self_loop_is_an_edge() {
    let edges = read_lines(&lines(&["a\ta", "a\ta"])).unwrap();
    assert_eq!(pairs(&edges), vec![pair("a", "a")]);
}

#[test]
fn unreadable_line_is_a_read_failure() {
    let input = vec![Some("a\tb".to_string()), None, Some("c\td".to_string())];
    assert_eq!(read_lines(&input), Err(IngestError::ReadFailure));
    assert_eq!(read_lines(&vec![None]), Err(IngestError::ReadFailure));
}

#[test]
fn ingestor_collects_line_by_line() {
    let mut ingestor = EdgeIngestor::new();
    assert!(!ingestor.has_failed());
    for l in ["a\tb\textra", "b\ta", "a\tb", "junk"] {
        ingestor = ingestor.record_line(l);
    }
    assert!(!ingestor.has_failed());
    let edges = ingestor.finish().unwrap();
    assert_eq!(pairs(&edges), vec![pair("a", "b"), pair("b", "a")]);
}

#[test]
fn ingestor_with_no_lines_gives_no_edges() {
    assert_eq!(EdgeIngestor::new().finish(), Ok(Vec::new()));
}

#[test]
fn open_failure_gives_no_edges() {
    let ingestor = EdgeIngestor::new().record_failure(IngestError::OpenFailure);
    assert!(ingestor.has_failed());
    assert_eq!(ingestor.finish(), Err(IngestError::OpenFailure));
}

#[test]
fn read_failure_discards_edges_read_so_far() {
    let ingestor = EdgeIngestor::new()
        .record_line("a\tb")
        .record_failure(IngestError::ReadFailure)
        .record_line("c\td");
    assert_eq!(ingestor.finish(), Err(IngestError::ReadFailure));
}

#[test]
fn first_failure_is_kept() {
    let ingestor = EdgeIngestor::new()
        .record_failure(IngestError::OpenFailure)
        .record_failure(IngestError::ReadFailure);
    assert_eq!(ingestor.finish(), Err(IngestError::OpenFailure));
}

#[test]
fn graph_edge_keeps_its_ends() {
    let e = GraphEdge::new("from".to_string(), "to".to_string());
    assert_eq!(e.source(), "from");
    assert_eq!(e.target(), "to");
}
