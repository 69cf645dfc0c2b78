use fsplit::engine::{
    fill_limit, line_with_newline, part_file_name, split_bytes, split_lines, u64_to_string,
    ChunkState, EndOfInput,
};
use fsplit::models::{ByteUnit, InvalidConfigDetail, SplitErrors};

fn lines(texts: &[&str]) -> Vec<String> {
    texts.iter().map(|t| String::from(*t)).collect()
}

#[test]
fn rotation_boundary_five_lines_by_two() {
    let input = lines(&["l1", "l2", "l3", "l4", "l5"]);
    let parts = split_lines(&input, 2).unwrap();
    assert_eq!(parts, vec![lines(&["l1", "l2"]), lines(&["l3", "l4"]), lines(&["l5"])]);
}

#[test]
fn line_parts_concatenate_to_input() {
    let input = lines(&["a", "b", "c", "d", "e", "f", "g"]);
    let parts = split_lines(&input, 3).unwrap();
    assert_eq!(parts.len(), 3);
    for p in &parts[..parts.len() - 1] {
        assert_eq!(p.len(), 3);
    }
    let joined: Vec<String> = parts.into_iter().flatten().collect();
    assert_eq!(joined, input);
}

#[test]
fn one_part_when_input_fits() {
    let input = lines(&["only", "two"]);
    let parts = split_lines(&input, 1000).unwrap();
    assert_eq!(parts, vec![input.clone()]);
}

#[test]
fn line_length_one_gives_one_line_per_part() {
    let input = lines(&["x", "y", "z"]);
    let parts = split_lines(&input, 1).unwrap();
    assert_eq!(parts, vec![lines(&["x"]), lines(&["y"]), lines(&["z"])]);
}

#[test]
fn short_source_fits_in_one_fill() {
    let data: Vec<u8> = vec![3, 1, 4, 1, 5];
    let parts = split_bytes(&data, 4, ByteUnit::KB).unwrap();
    assert_eq!(parts, vec![vec![3, 1, 4, 1, 5]]);
}

#[test]
fn empty_line_input_is_empty_file() {
    let input: Vec<String> = Vec::new();
    assert_eq!(split_lines(&input, 1000), Err(SplitErrors::EMPTY_FILE));
}

#[test]
fn empty_byte_input_is_empty_file() {
    let data: Vec<u8> = Vec::new();
    assert_eq!(split_bytes(&data, 1, ByteUnit::KB), Err(SplitErrors::EMPTY_FILE));
}

#[test]
fn byte_parts_concatenate_to_source() {
    let data: Vec<u8> = (0..2500u32).map(|i| (i % 251) as u8).collect();
    let parts = split_bytes(&data, 1, ByteUnit::KB).unwrap();
    assert_eq!(parts.iter().map(|p| p.len()).collect::<Vec<_>>(), vec![1024, 1024, 452]);
    let joined: Vec<u8> = parts.into_iter().flatten().collect();
    assert_eq!(joined, data);
}

#[test]
fn byte_parts_of_two_fills_each() {
    let data: Vec<u8> = vec![7u8; 2058];
    let parts = split_bytes(&data, 2, ByteUnit::KB).unwrap();
    assert_eq!(parts.iter().map(|p| p.len()).collect::<Vec<_>>(), vec![2048, 10]);
    let joined: Vec<u8> = parts.into_iter().flatten().collect();
    assert_eq!(joined, data);
}

#[test]
fn exact_multiple_of_buffer_yields_trailing_empty_part() {
    let data: Vec<u8> = vec![9u8; 1024];
    let parts = split_bytes(&data, 1, ByteUnit::KB).unwrap();
    assert_eq!(parts.iter().map(|p| p.len()).collect::<Vec<_>>(), vec![1024, 0]);
    let joined: Vec<u8> = parts.into_iter().flatten().collect();
    assert_eq!(joined, data);
}

#[test]
fn megabyte_limit_counts_thousand_fills() {
    assert_eq!(fill_limit(2, ByteUnit::MB), Some(2000));
    assert_eq!(fill_limit(2, ByteUnit::KB), Some(2));
    assert_eq!(fill_limit(u64::MAX, ByteUnit::MB), None);
    let data: Vec<u8> = vec![1u8; 10];
    let parts = split_bytes(&data, 1, ByteUnit::MB).unwrap();
    assert_eq!(parts, vec![vec![1u8; 10]]);
}

#[test]
fn byte_split_rejects_oversized_count() {
    let data: Vec<u8> = vec![1u8; 10];
    assert_eq!(
        split_bytes(&data, u64::MAX, ByteUnit::MB),
        Err(SplitErrors::InvalidConfig(InvalidConfigDetail::ByteCountTooLarge {
            byte_length: u64::MAX,
        }))
    );
}

#[test]
fn part_names_follow_index_and_suffix() {
    assert_eq!(part_file_name(0, ""), "part0");
    assert_eq!(part_file_name(12, ".txt"), "part12.txt");
    assert_eq!(part_file_name(1000, "_x"), "part1000_x");
}

#[test]
fn repeated_runs_name_and_split_identically() {
    assert_eq!(part_file_name(3, ".bak"), part_file_name(3, ".bak"));
    let input = lines(&["a", "b", "c"]);
    assert_eq!(split_lines(&input, 2), split_lines(&input, 2));
    let data: Vec<u8> = vec![5u8; 100];
    assert_eq!(split_bytes(&data, 1, ByteUnit::KB), split_bytes(&data, 1, ByteUnit::KB));
}

#[test]
fn decimal_rendering() {
    assert_eq!(u64_to_string(0), "0");
    assert_eq!(u64_to_string(9), "9");
    assert_eq!(u64_to_string(10), "10");
    assert_eq!(u64_to_string(1234567890), "1234567890");
    assert_eq!(u64_to_string(u64::MAX), "18446744073709551615");
}

#[test]
fn every_written_line_gets_a_newline() {
    assert_eq!(line_with_newline("hello"), "hello\n");
    assert_eq!(line_with_newline(""), "\n");
}

#[test]
fn line_state_rotates_before_third_and_fifth_line() {
    let mut st = ChunkState::new();
    let mut part_of_line = Vec::new();
    for _ in 0..5 {
        let rotate = st.on_line(2);
        part_of_line.push((rotate, st.part_index));
    }
    assert_eq!(
        part_of_line,
        vec![(false, 0), (false, 0), (true, 1), (false, 1), (true, 2)]
    );
}

#[test]
fn fill_state_rotates_after_limit_fills() {
    let mut st = ChunkState::new();
    let mut part_of_fill = Vec::new();
    for _ in 0..5 {
        let rotate = st.on_fill(2);
        part_of_fill.push((rotate, st.part_index));
    }
    assert_eq!(
        part_of_fill,
        vec![(false, 0), (false, 0), (true, 1), (false, 1), (true, 2)]
    );
}

#[test]
fn end_of_input_decisions() {
    let mut st = ChunkState::new();
    assert_eq!(st.at_end_of_input(), EndOfInput::Empty);
    st.note_read(0);
    assert_eq!(st.at_end_of_input(), EndOfInput::Empty);
    st.note_read(17);
    assert_eq!(st.at_end_of_input(), EndOfInput::LastChunk);
    assert_eq!(st.at_end_of_input(), EndOfInput::Finished);
}

#[test]
fn finish_reports_empty_only_without_input() {
    let mut st = ChunkState::new();
    assert_eq!(st.finish(), Err(SplitErrors::EMPTY_FILE));
    st.on_line(1000);
    assert_eq!(st.finish(), Ok(()));
}
