use alignment_report::decode::Field;
use alignment_report::report::read_inline_report;
use alignment_report::report::read_report;
use alignment_report::report::read_table_report;
use alignment_report::report::Dialect;
use alignment_report::report::Report;
use alignment_report::report::ReportError;
use alignment_report::segment::FaultKind;
use alignment_report::segment::Policy;

const INLINE_REPORT: &str = "BLASTP 2.9.0+\n\nQuery= Q1 first query\n\nLength=120\n\n>sp|P1| Protein one\n second line  \nLength=300\n\n Score = 55.1 bits (131),  Expect = 3e-10, Method: Compositional\n Identities = 5/10 (50%)\n\n>sp|P2| Protein two\nLength=45\n Score = 41.0 bits (95),  Expect = 0.002\n\nQuery= Q2\nLength=7\n>tr|X9| Third\nLength=9\n Score = -3 bits (1), Expect = 1.5\n";

#[test]
fn inline_report_is_read_whole() {
    let r = read_inline_report(INLINE_REPORT.as_bytes(), Policy::Strict).unwrap();
    assert_eq!(r.skipped_sections, 0);
    assert_eq!(r.sections.len(), 2);
    assert_eq!(r.sections[0].header.name, b"Q1".to_vec());
    assert_eq!(r.sections[0].alignments.len(), 2);
    assert_eq!(r.sections[1].header.name, b"Q2".to_vec());
    assert_eq!(r.sections[1].alignments[0].e_value, b"1.5".to_vec());
    let none = read_inline_report(b"no query here", Policy::Strict).unwrap();
    assert!(none.sections.is_empty());
}

#[test]
fn inline_report_with_a_bad_section() {
    let text = b"x\nQuery= \n>a\nLength=3\n Score = 1, Expect = 2\nQuery= Q2\n>b\nLength=3\n Score = 1, Expect = 2\n";
    let e = read_inline_report(text, Policy::Strict).unwrap_err();
    assert_eq!(e.field, Field::Name);
    let r = read_inline_report(text, Policy::Lenient).unwrap();
    assert_eq!(r.skipped_sections, 1);
    assert_eq!(r.sections.len(), 1);
    assert_eq!(r.sections[0].header.name, b"Q2".to_vec());
}

#[test]
fn table_report_is_read_whole() {
    let text = b"Query= Q1\nSequences producing significant alignments:\na t x 1 y 10 0.01\nb t x 2 y 20 0.2\n>d\nQuery= Q2\nSequences producing significant alignments:\n>d\n";
    let r = read_table_report(text, Policy::Strict).unwrap();
    assert_eq!(r.blocks.len(), 2);
    assert_eq!(r.blocks[0].name, b"Q1".to_vec());
    assert_eq!(r.blocks[0].hits.len(), 2);
    assert_eq!(r.blocks[0].hits[1].species_count, 2);
    assert_eq!(r.blocks[0].hits[1].score, b"20".to_vec());
    assert_eq!(r.blocks[1].name, b"Q2".to_vec());
    assert!(r.blocks[1].hits.is_empty());
    assert_eq!(r.skipped_rows, 0);
    assert_eq!(r.skipped_blocks, 0);
}

#[test]
fn table_report_with_faults() {
    let text = b"Sequences producing significant\n>x\nQuery= Q1\nSequences producing significant\na t x 1 y 10 0.01\nshort row\nb t x two y 20 0.2\n>d\n";
    match read_table_report(text, Policy::Strict).unwrap_err() {
        ReportError::Malformed(e) => {
            assert_eq!(e.kind, FaultKind::HeaderBeforeQuery);
            assert_eq!(e.line, 0);
        }
        ReportError::Field(_) => panic!("a field error"),
    }
    let r = read_table_report(text, Policy::Lenient).unwrap();
    assert_eq!(r.skipped_blocks, 1);
    assert_eq!(r.skipped_rows, 1);
    assert_eq!(r.blocks.len(), 1);
    assert_eq!(r.blocks[0].hits.len(), 1);
    assert_eq!(r.blocks[0].skipped_rows, 1);
    let bad_field = b"Query= Q1\nSequences producing significant\nb t x two y 20 0.2\n>d\n";
    match read_table_report(bad_field, Policy::Strict).unwrap_err() {
        ReportError::Field(e) => {
            assert_eq!(e.field, Field::SpeciesCount);
            assert_eq!(e.raw_value, b"two".to_vec());
        }
        ReportError::Malformed(_) => panic!("a structural error"),
    }
}

#[test]
fn report_is_read_by_dialect() {
    let table = b"Query= Q1\nSequences producing significant\na t x 1 y 10 0.01\n>d\n";
    match read_report(table, Dialect::Table, Policy::Strict).unwrap() {
        Report::Table(t) => assert_eq!(t.blocks.len(), 1),
        Report::Inline(_) => panic!("the other dialect"),
    }
    match read_report(INLINE_REPORT.as_bytes(), Dialect::Inline, Policy::Strict).unwrap() {
        Report::Inline(t) => assert_eq!(t.sections.len(), 2),
        Report::Table(_) => panic!("the other dialect"),
    }
    assert!(read_report(b"Query= \n", Dialect::Inline, Policy::Strict).is_err());
    assert!(read_report(b"Query= \n", Dialect::Table, Policy::Strict).is_err());
    assert!(read_report(b"Query= \n", Dialect::Table, Policy::Lenient).is_ok());
}
