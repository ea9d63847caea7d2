use diffcopy::{copy_diff, copy_diff_reporting, whole_mebibytes, Counters, DiffCopy, Error};
use std::cell::RefCell;

fn totals(bytes_read: usize, bytes_written: usize) -> Counters {
    Counters { bytes_read, bytes_written }
}

#[test]
fn differing_chunk_is_copied_whole_and_equal_chunks_are_skipped() {
    let input = [1u8, 2, 3, 4, 5, 6, 7, 8, 9, 10];
    let mut output = [1u8, 2, 0, 0, 5, 6, 7, 8, 9, 10];
    let c = copy_diff(&input, &mut output, 4).unwrap();
    assert_eq!(output, [1u8, 2, 3, 4, 5, 6, 7, 8, 9, 10]);
    assert_eq!(c, totals(10, 4));
}

#[test]
fn short_output_chunk_limits_the_copy_when_it_differs() {
    let input = [10u8, 20, 30, 40, 50];
    let mut output = [10u8, 21, 30];
    let c = copy_diff(&input, &mut output, 10).unwrap();
    assert_eq!(output, [10u8, 20, 30]);
    assert_eq!(c, totals(5, 3));
}

#[test]
fn short_output_chunk_writes_nothing_when_it_agrees() {
    let input = [10u8, 20, 30, 40, 50];
    let mut output = [10u8, 20, 30];
    let c = copy_diff(&input, &mut output, 10).unwrap();
    assert_eq!(output, [10u8, 20, 30]);
    assert_eq!(c, totals(5, 0));
}

#[test]
fn zero_chunk_size_is_rejected_and_nothing_is_copied() {
    let input = [1u8, 2, 3];
    let mut output = [9u8, 9, 9];
    let e = copy_diff(&input, &mut output, 0).unwrap_err();
    assert!(e.is_invalid_config());
    assert!(!e.is_mapping_error());
    assert!(matches!(e, Error::InvalidConfig { .. }));
    assert_eq!(output, [9u8, 9, 9]);
}

#[test]
fn zero_chunk_size_is_rejected_when_a_copy_is_started() {
    assert!(matches!(DiffCopy::new(0), Err(Error::InvalidConfig { .. })));
    assert!(DiffCopy::new(1).is_ok());
}

#[test]
fn identical_regions_are_left_alone() {
    let input: Vec<u8> = (0..100u8).collect();
    for chunk in [1usize, 3, 7, 50, 100, 101, 4096] {
        let mut output = input.clone();
        let c = copy_diff(&input, &mut output, chunk).unwrap();
        assert_eq!(c, totals(100, 0));
        assert_eq!(output, input);
    }
}

#[test]
fn second_run_writes_nothing() {
    let input: Vec<u8> = (0..50u8).collect();
    let start: Vec<u8> = (0..64u8).map(|b| b.wrapping_mul(3)).collect();
    for chunk in [1usize, 4, 7, 16, 50, 64, 1000] {
        let mut output = start.clone();
        let first = copy_diff(&input, &mut output, chunk).unwrap();
        assert!(first.bytes_written > 0);
        let after_first = output.clone();
        let second = copy_diff(&input, &mut output, chunk).unwrap();
        assert_eq!(second.bytes_written, 0);
        assert_eq!(second.bytes_read, first.bytes_read);
        assert_eq!(output, after_first);
    }
}

#[test]
fn written_never_exceeds_read() {
    let input: Vec<u8> = (0..37u8).collect();
    for out_len in [0usize, 1, 5, 36, 37, 38, 80] {
        for chunk in [1usize, 2, 5, 36, 37, 38, 100] {
            let mut output = vec![255u8; out_len];
            let c = copy_diff(&input, &mut output, chunk).unwrap();
            assert!(c.bytes_written <= c.bytes_read);
            assert!(c.bytes_read <= input.len());
            assert!(c.bytes_written <= out_len);
        }
    }
}

#[test]
fn every_byte_differs_so_every_pair_is_written() {
    let input = [1u8; 10];
    let mut output = [2u8; 10];
    let c = copy_diff(&input, &mut output, 3).unwrap();
    assert_eq!(c, totals(10, 10));
    assert_eq!(output, input);
}

#[test]
fn output_shorter_than_input_over_several_chunks() {
    // Chunks of 4: the output has two, the second of 2 bytes; the input's
    // second chunk counts in full, its third chunk is never reached.
    let input = [1u8, 2, 3, 4, 5, 6, 7, 8, 9, 10];
    let mut output = [1u8, 2, 3, 4, 0, 6];
    let c = copy_diff(&input, &mut output, 4).unwrap();
    assert_eq!(output, [1u8, 2, 3, 4, 5, 6]);
    assert_eq!(c, totals(8, 2));
}

#[test]
fn input_bytes_behind_the_output_do_not_matter() {
    let a = [1u8, 2, 3, 4, 5, 6, 7, 8, 9, 10];
    let b = [1u8, 2, 3, 4, 5, 6, 70, 80, 90, 100];
    let mut out_a = [0u8, 2, 3, 4, 5, 0];
    let mut out_b = out_a;
    let ca = copy_diff(&a, &mut out_a, 4).unwrap();
    let cb = copy_diff(&b, &mut out_b, 4).unwrap();
    assert_eq!(ca, totals(8, 6));
    assert_eq!(ca, cb);
    assert_eq!(out_a, out_b);
    assert_eq!(out_a, [1u8, 2, 3, 4, 5, 6]);
}

#[test]
fn output_longer_than_input_keeps_its_tail() {
    let input = [1u8, 2, 3, 4, 5];
    let mut output = [1u8, 2, 3, 4, 0, 77, 78, 79, 80, 81, 82];
    let c = copy_diff(&input, &mut output, 4).unwrap();
    assert_eq!(output, [1u8, 2, 3, 4, 5, 77, 78, 79, 80, 81, 82]);
    assert_eq!(c, totals(5, 1));
}

#[test]
fn empty_regions_give_zero_totals() {
    let input = [1u8, 2, 3];
    let mut empty: [u8; 0] = [];
    assert_eq!(copy_diff(&input, &mut empty, 2).unwrap(), totals(0, 0));
    let mut output = [4u8, 5, 6];
    assert_eq!(copy_diff(&[], &mut output, 2).unwrap(), totals(0, 0));
    assert_eq!(output, [4u8, 5, 6]);
}

#[test]
fn chunk_size_equal_to_the_length_makes_one_pair() {
    let input = [1u8, 2, 3, 4];
    let mut output = [1u8, 2, 3, 5];
    let c = copy_diff(&input, &mut output, 4).unwrap();
    assert_eq!(c, totals(4, 4));
    assert_eq!(output, input);
}

#[test]
fn largest_chunk_size_is_accepted() {
    let input = [1u8, 2, 3, 4];
    let mut output = [0u8, 2, 3, 4];
    let c = copy_diff(&input, &mut output, usize::MAX).unwrap();
    assert_eq!(c, totals(4, 4));
    assert_eq!(output, input);
}

#[test]
fn stepping_handles_one_pair_at_a_time() {
    let input = [1u8, 2, 3, 4, 5, 6, 7, 8, 9, 10];
    let mut output = [1u8, 2, 0, 0, 5, 6, 7, 8, 9, 0];
    let mut run = DiffCopy::new(4).unwrap();
    assert_eq!(run.counters(), totals(0, 0));
    assert!(run.advance(&input, &mut output));
    assert_eq!(run.counters(), totals(4, 4));
    assert_eq!(output, [1u8, 2, 3, 4, 5, 6, 7, 8, 9, 0]);
    assert!(run.advance(&input, &mut output));
    assert_eq!(run.counters(), totals(8, 4));
    assert!(run.advance(&input, &mut output));
    assert_eq!(run.counters(), totals(10, 6));
    assert_eq!(output, input);
    assert!(!run.advance(&input, &mut output));
    assert_eq!(run.counters(), totals(10, 6));
    assert_eq!(output, input);
}

#[test]
fn progress_is_reported_after_each_pair() {
    let input = [1u8, 2, 3, 4, 5, 6, 7, 8, 9, 10];
    let mut output = [1u8, 2, 0, 0, 5, 6, 7, 8, 9, 0];
    let seen: RefCell<Vec<Counters>> = RefCell::new(Vec::new());
    let c = copy_diff_reporting(&input, &mut output, 4, |t: Counters| seen.borrow_mut().push(t))
        .unwrap();
    assert_eq!(c, totals(10, 6));
    assert_eq!(*seen.borrow(), vec![totals(4, 4), totals(8, 4), totals(10, 6)]);
}

#[test]
fn nothing_is_reported_for_a_zero_chunk_size() {
    let input = [1u8, 2];
    let mut output = [3u8, 4];
    let seen: RefCell<Vec<Counters>> = RefCell::new(Vec::new());
    let r = copy_diff_reporting(&input, &mut output, 0, |t: Counters| seen.borrow_mut().push(t));
    assert!(r.is_err());
    assert!(seen.borrow().is_empty());
    assert_eq!(output, [3u8, 4]);
}

#[test]
fn mebibytes_truncate_toward_zero() {
    assert_eq!(whole_mebibytes(0), 0);
    assert_eq!(whole_mebibytes(1_048_575), 0);
    assert_eq!(whole_mebibytes(1_048_576), 1);
    assert_eq!(whole_mebibytes(2_097_151), 1);
    assert_eq!(whole_mebibytes(5 * 1_048_576 + 17), 5);
}

#[test]
fn error_text_has_the_message_and_then_the_cause() {
    let e = Error::mapping("failed to map the input".to_string(), Some("permission denied".to_string()));
    assert!(e.is_mapping_error());
    assert!(!e.is_invalid_config());
    assert_eq!(e.describe(), "failed to map the input: caused by: permission denied");
    let bare = Error::mapping("failed to map the output".to_string(), None);
    assert_eq!(bare.describe(), "failed to map the output");
}

#[test]
fn zero_chunk_size_error_has_its_message_and_no_cause() {
    let e = copy_diff(&[], &mut [], 0).unwrap_err();
    assert_eq!(e.describe(), "chunk size must be positive");
    assert!(matches!(e, Error::InvalidConfig { cause: None, .. }));
}
