use alignment_report::segment::segment;
use alignment_report::segment::FaultKind;
use alignment_report::segment::MalformedReport;
use alignment_report::segment::Policy;
use alignment_report::segment::Scanner;
use alignment_report::text::split_lines;

const REPORT: &str = "BLASTX 2.9.0+\n\nQuery= Q1 first query\n\nLength=120\n\nSequences producing significant alignments:\n\nsp|P1|A_HUMAN  Eukaryota  x  12  y  55.1  3e-10\nsp|P2|B_MOUSE  Eukaryota  x  3  y  41.0  0.002\n\n>sp|P1|A_HUMAN details\nLength=300\n\nQuery= Q2\nSequences producing significant alignments:\ntr|X9|C_YEAST  Fungi  x  1  y  20.5  1.5\n";

#[test]
fn segment_cuts_a_report_into_blocks() {
    let s = segment(REPORT.as_bytes(), Policy::Strict).unwrap();
    assert_eq!(s.blocks.len(), 2);
    assert_eq!(s.blocks[0].name, b"Q1".to_vec());
    assert_eq!(s.blocks[0].raw_rows.len(), 2);
    assert_eq!(
        s.blocks[0].raw_rows[0],
        b"sp|P1|A_HUMAN  Eukaryota  x  12  y  55.1  3e-10".to_vec()
    );
    assert_eq!(
        s.blocks[0].raw_rows[1],
        b"sp|P2|B_MOUSE  Eukaryota  x  3  y  41.0  0.002".to_vec()
    );
    assert_eq!(s.blocks[1].name, b"Q2".to_vec());
    assert_eq!(s.blocks[1].raw_rows.len(), 1);
    assert_eq!(s.skipped_rows, 0);
    assert_eq!(s.skipped_blocks, 0);
}

#[test]
fn segment_twice_gives_the_same_blocks() {
    let a = segment(REPORT.as_bytes(), Policy::Strict).unwrap();
    let b = segment(REPORT.as_bytes(), Policy::Strict).unwrap();
    assert_eq!(a.blocks.len(), b.blocks.len());
    for i in 0..a.blocks.len() {
        assert_eq!(a.blocks[i].name, b.blocks[i].name);
        assert_eq!(a.blocks[i].raw_rows, b.blocks[i].raw_rows);
    }
}

#[test]
fn end_of_text_closes_an_open_table() {
    let text = "Query= Q9\nSequences producing significant alignments:\na b c 1 d 2.0 0.5";
    let s = segment(text.as_bytes(), Policy::Strict).unwrap();
    assert_eq!(s.blocks.len(), 1);
    assert_eq!(s.blocks[0].name, b"Q9".to_vec());
    assert_eq!(s.blocks[0].raw_rows, vec![b"a b c 1 d 2.0 0.5".to_vec()]);
}

#[test]
fn empty_table_is_recorded_as_an_empty_block() {
    let text = "Query= Q1\nSequences producing significant alignments:\n\n>first\n";
    let s = segment(text.as_bytes(), Policy::Strict).unwrap();
    assert_eq!(s.blocks.len(), 1);
    assert_eq!(s.blocks[0].name, b"Q1".to_vec());
    assert!(s.blocks[0].raw_rows.is_empty());
}

#[test]
fn strict_truncated_table_is_an_error() {
    let text = "Query= Q1\nSequences producing significant alignments:\n\n";
    let e = segment(text.as_bytes(), Policy::Strict).unwrap_err();
    assert_eq!(e, MalformedReport { line: 3, kind: FaultKind::TruncatedTable });
}

#[test]
fn lenient_truncated_table_is_dropped_and_counted() {
    let text = "Query= Q0\nSequences producing significant\na b c 1 d 2 3\n>x\nQuery= Q1\nSequences producing significant alignments:\n";
    let s = segment(text.as_bytes(), Policy::Lenient).unwrap();
    assert_eq!(s.blocks.len(), 1);
    assert_eq!(s.blocks[0].name, b"Q0".to_vec());
    assert_eq!(s.skipped_blocks, 1);
    assert_eq!(s.skipped_rows, 0);
}

#[test]
fn query_without_table_gives_no_block() {
    let text = "Query= Q1\n***** No hits found *****\nQuery= Q2\n";
    let s = segment(text.as_bytes(), Policy::Strict).unwrap();
    assert!(s.blocks.is_empty());
}

#[test]
fn empty_text_gives_no_block() {
    let s = segment(b"", Policy::Strict).unwrap();
    assert!(s.blocks.is_empty());
}

#[test]
fn name_persists_over_a_second_table() {
    let text = "Query= Q1\nSequences producing significant\na b c 1 d 2 3\n>x\nSequences producing significant\ne f g 4 h 5 6\n>y\n";
    let s = segment(text.as_bytes(), Policy::Strict).unwrap();
    assert_eq!(s.blocks.len(), 2);
    assert_eq!(s.blocks[0].name, b"Q1".to_vec());
    assert_eq!(s.blocks[1].name, b"Q1".to_vec());
    assert_eq!(s.blocks[1].raw_rows, vec![b"e f g 4 h 5 6".to_vec()]);
}

#[test]
fn carriage_returns_are_not_part_of_rows() {
    let text = "Query= Q1\r\nSequences producing significant\r\na b c 1 d 2 3\r\n>x\r\n";
    let s = segment(text.as_bytes(), Policy::Strict).unwrap();
    assert_eq!(s.blocks.len(), 1);
    assert_eq!(s.blocks[0].name, b"Q1".to_vec());
    assert_eq!(s.blocks[0].raw_rows, vec![b"a b c 1 d 2 3".to_vec()]);
}

#[test]
fn strict_header_before_query_is_an_error() {
    let text = "preamble\nSequences producing significant alignments:\na b c 1 d 2 3\n";
    let e = segment(text.as_bytes(), Policy::Strict).unwrap_err();
    assert_eq!(e, MalformedReport { line: 1, kind: FaultKind::HeaderBeforeQuery });
}

#[test]
fn lenient_header_before_query_drops_the_table() {
    let text = "Sequences producing significant alignments:\na b c 1 d 2 3\n>x\nQuery= Q2\nSequences producing significant alignments:\ne f g 4 h 5 6\n>y\n";
    let s = segment(text.as_bytes(), Policy::Lenient).unwrap();
    assert_eq!(s.skipped_blocks, 1);
    assert_eq!(s.skipped_rows, 0);
    assert_eq!(s.blocks.len(), 1);
    assert_eq!(s.blocks[0].name, b"Q2".to_vec());
    assert_eq!(s.blocks[0].raw_rows, vec![b"e f g 4 h 5 6".to_vec()]);
}

#[test]
fn strict_short_row_is_an_error() {
    let text = "Query= Q1\nSequences producing significant alignments:\na b c 1 d 2 3\ntoo short\n>x\n";
    let e = segment(text.as_bytes(), Policy::Strict).unwrap_err();
    assert_eq!(e, MalformedReport { line: 3, kind: FaultKind::ShortRow });
}

#[test]
fn lenient_short_row_is_dropped_and_counted() {
    let text = "Query= Q1\nSequences producing significant alignments:\na b c 1 d 2 3\ntoo short\nh i j 7 k 8 9\n>x\n";
    let s = segment(text.as_bytes(), Policy::Lenient).unwrap();
    assert_eq!(s.skipped_rows, 1);
    assert_eq!(s.blocks.len(), 1);
    assert_eq!(
        s.blocks[0].raw_rows,
        vec![b"a b c 1 d 2 3".to_vec(), b"h i j 7 k 8 9".to_vec()]
    );
}

#[test]
fn strict_unnamed_query_is_an_error() {
    let text = "\nQuery= \nSequences producing significant alignments:\n";
    let e = segment(text.as_bytes(), Policy::Strict).unwrap_err();
    assert_eq!(e, MalformedReport { line: 1, kind: FaultKind::UnnamedQuery });
}

#[test]
fn lenient_unnamed_query_drops_its_table() {
    let text = "Query= Q1\nQuery= \nSequences producing significant alignments:\na b c 1 d 2 3\n>x\n";
    let s = segment(text.as_bytes(), Policy::Lenient).unwrap();
    assert!(s.blocks.is_empty());
    assert_eq!(s.skipped_blocks, 1);
}

#[test]
fn query_line_inside_a_table_is_a_row() {
    let text = "Query= Q1\nSequences producing significant alignments:\nQuery= Q2 b c 1 d 2 3\n>x\n";
    let s = segment(text.as_bytes(), Policy::Strict).unwrap();
    assert_eq!(s.blocks.len(), 1);
    assert_eq!(s.blocks[0].name, b"Q1".to_vec());
    assert_eq!(s.blocks[0].raw_rows, vec![b"Query= Q2 b c 1 d 2 3".to_vec()]);
}

#[test]
fn scanner_steps_line_by_line() {
    let lines = split_lines(b"Query= A\nSequences producing significant\n1 2 3 4 5 6 7\n");
    let mut st = Scanner::new();
    assert!(!st.in_table);
    st = st.scan_line(&lines[0], Policy::Strict);
    assert_eq!(st.name, Some(b"A".to_vec()));
    assert!(!st.in_table);
    st = st.scan_line(&lines[1], Policy::Strict);
    assert!(st.in_table);
    st = st.scan_line(&lines[2], Policy::Strict);
    assert_eq!(st.rows.len(), 1);
    assert_eq!(st.seen, 3);
    assert!(st.blocks.is_empty());
    let s = st.finish(Policy::Strict).unwrap();
    assert_eq!(s.blocks.len(), 1);
    assert_eq!(s.blocks[0].raw_rows, vec![b"1 2 3 4 5 6 7".to_vec()]);
}

#[test]
fn scanner_stays_stopped_after_a_fault() {
    let mut st = Scanner::new();
    st = st.scan_line(b"Sequences producing significant", Policy::Strict);
    assert_eq!(st.fault, Some(MalformedReport { line: 0, kind: FaultKind::HeaderBeforeQuery }));
    st = st.scan_line(b"Query= Q1", Policy::Strict);
    assert_eq!(st.name, None);
    assert_eq!(st.seen, 0);
    assert!(st.finish(Policy::Strict).is_err());
}
