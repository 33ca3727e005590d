use bed_cov::coverage::CoverageResult;
use bed_cov::index::Backend;
use bed_cov::interval::Interval;
use bed_cov::record::{parse_position, reference_record, split_record, RecordError, RecordText};
use bed_cov::registry::KeyedRegistry;
use bed_cov::report::{Row, RowError};

fn fields<'a>(key: &'a str, start: &'a str, stop: &'a str) -> RecordText<'a> {
    RecordText { key, start, stop }
}

#[test]
fn a_line_gives_its_three_leading_fields() {
    assert_eq!(split_record("chr1\t10\t20\n"), Some(fields("chr1", "10", "20")));
    assert_eq!(split_record("chr1\t10\t20\tgene\t0\t+\n"), Some(fields("chr1", "10", "20")));
    assert_eq!(split_record("\t\t\n"), Some(fields("", "", "")));
    assert_eq!(split_record("a\t\tb\n"), Some(fields("a", "", "b")));
    assert_eq!(split_record("chr\u{e9}\t1\t2\n"), Some(fields("chr\u{e9}", "1", "2")));
}

#[test]
fn the_last_character_of_a_line_belongs_to_no_field() {
    assert_eq!(split_record("chr1\t10\t205"), Some(fields("chr1", "10", "20")));
    assert_eq!(split_record("chr1\t1\t2\r\n"), Some(fields("chr1", "1", "2\r")));
    assert_eq!(split_record("a\tb\tc\t"), Some(fields("a", "b", "c")));
    assert_eq!(split_record("a\tb\t"), None);
    assert_eq!(split_record("a\tb\t\u{e9}"), Some(fields("a", "b", "")));
}

#[test]
fn a_line_with_fewer_than_three_fields_gives_none() {
    assert_eq!(split_record(""), None);
    assert_eq!(split_record("\n"), None);
    assert_eq!(split_record("chr1\n"), None);
    assert_eq!(split_record("chr1\t10\n"), None);
    assert_eq!(split_record("chr1 10 20\n"), None);
}

#[test]
fn positions_are_decimal_with_an_optional_plus() {
    assert_eq!(parse_position("0"), Some(0));
    assert_eq!(parse_position("7"), Some(7));
    assert_eq!(parse_position("007"), Some(7));
    assert_eq!(parse_position("+5"), Some(5));
    assert_eq!(parse_position("+0"), Some(0));
    assert_eq!(parse_position("1234567890"), Some(1234567890));
    assert_eq!(parse_position("4294967295"), Some(u32::MAX));
    assert_eq!(parse_position("+4294967295"), Some(u32::MAX));
    assert_eq!(parse_position("00000000004294967295"), Some(u32::MAX));
}

#[test]
fn anything_else_is_no_position() {
    for text in [
        "", "+", "-", "-5", "++5", "5+", "+-5", " 5", "5 ", "5\r", "1e3", "12a", "a12", "1 2", "0x10",
        "1_000", "1.0", "4294967296", "4294967300", "42949672950", "99999999999999999999",
        "18446744073709551616", "\u{663}", "1\u{663}", "\u{ff11}",
    ] {
        assert_eq!(parse_position(text), None, "{:?}", text);
    }
}

#[test]
fn positions_are_read_as_the_standard_library_reads_them() {
    let mut state: u64 = 0x853c49e6748fea9b;
    let mut next = move |bound: u32| -> u32 {
        state = state.wrapping_mul(6364136223846793005).wrapping_add(1442695040888963407);
        ((state >> 33) as u32) % bound
    };
    let alphabet = ['0', '1', '2', '3', '4', '5', '6', '7', '8', '9', '+', '-', ' ', 'a', '9', '0'];
    for _ in 0..5000 {
        let len = next(12) as usize;
        let mut text = String::new();
        for _ in 0..len {
            text.push(alphabet[next(16) as usize]);
        }
        assert_eq!(parse_position(&text), text.parse::<u32>().ok(), "{:?}", text);
    }
    for value in [0u32, 1, 9, 10, 99, 100, 4294967294, 4294967295, 2147483647, 2147483648] {
        assert_eq!(parse_position(&value.to_string()), Some(value));
    }
}

#[test]
fn a_reference_record_is_a_key_and_an_interval() {
    assert_eq!(
        reference_record(fields("chr1", "10", "20")),
        Ok(("chr1".to_string(), Interval::new(10, 20)))
    );
    assert_eq!(
        reference_record(fields("", "+1", "002")),
        Ok(("".to_string(), Interval::new(1, 2)))
    );
    assert_eq!(
        reference_record(fields("chr1", "20", "10")),
        Ok(("chr1".to_string(), Interval::new(20, 10)))
    );
}

#[test]
fn a_reference_record_with_a_bad_position_is_refused() {
    assert_eq!(reference_record(fields("chr1", "x", "20")), Err(RecordError::BadStart));
    assert_eq!(reference_record(fields("chr1", "10", "")), Err(RecordError::BadEnd));
    assert_eq!(reference_record(fields("chr1", "-1", "y")), Err(RecordError::BadStart));
    assert_eq!(reference_record(fields("chr1", "1", "4294967296")), Err(RecordError::BadEnd));
}

fn registry(backend: Backend) -> KeyedRegistry {
    let lines = ["chr1\t0\t10\n", "chr1\t20\t30\n", "chr2\t5\t50\n", "chr1\t25\t40\textra\n"];
    let mut records = Vec::new();
    for line in lines {
        records.push(reference_record(split_record(line).unwrap()).unwrap());
    }
    KeyedRegistry::build(backend, &records).unwrap()
}

#[test]
fn a_query_line_under_a_known_key_is_measured() {
    for backend in [Backend::Lapper, Backend::CoiTree, Backend::IITree] {
        let registry = registry(backend);
        let row = registry.row_for(split_record("chr1\t5\t+35\tname\n").unwrap());
        assert_eq!(
            row,
            Ok(Row::Measured {
                key: "chr1",
                query: Interval::new(5, 35),
                result: CoverageResult { overlap_count: 3, covered_length: 20 },
            })
        );
        let row = registry.row_for(fields("chr2", "50", "60"));
        assert_eq!(
            row,
            Ok(Row::Measured {
                key: "chr2",
                query: Interval::new(50, 60),
                result: CoverageResult { overlap_count: 0, covered_length: 0 },
            })
        );
    }
}

#[test]
fn a_query_line_under_an_unknown_key_is_handed_back_unread() {
    for backend in [Backend::Lapper, Backend::CoiTree, Backend::IITree] {
        let registry = registry(backend);
        assert_eq!(
            registry.row_for(fields("chr3", "5", "35")),
            Ok(Row::Unknown { key: "chr3", start: "5", stop: "35" })
        );
        assert_eq!(
            registry.row_for(fields("chrM", "abc", "")),
            Ok(Row::Unknown { key: "chrM", start: "abc", stop: "" })
        );
        assert_eq!(
            registry.row_for(fields("chrM", "9", "3")),
            Ok(Row::Unknown { key: "chrM", start: "9", stop: "3" })
        );
    }
}

#[test]
fn a_bad_query_line_under_a_known_key_is_refused() {
    for backend in [Backend::Lapper, Backend::CoiTree, Backend::IITree] {
        let registry = registry(backend);
        assert_eq!(registry.row_for(fields("chr1", "x", "y")), Err(RowError::BadStart));
        assert_eq!(registry.row_for(fields("chr1", "5", "y")), Err(RowError::BadEnd));
        assert_eq!(
            registry.row_for(fields("chr1", "5", "5")),
            Err(RowError::InvalidQuery { start: 5, end: 5 })
        );
        assert_eq!(
            registry.row_for(fields("chr1", "35", "5")),
            Err(RowError::InvalidQuery { start: 35, end: 5 })
        );
    }
}
