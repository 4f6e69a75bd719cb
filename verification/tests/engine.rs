use bytepiece::common::SpatialToken;
use bytepiece::segment::backtrack;
use bytepiece::segment::segment;
use bytepiece::segment::Span;
use bytepiece::utils::normalize;
use bytepiece::weight::floor_log2_of;
use bytepiece::weight::log2_fixed_of;
use bytepiece::weight::mantissa_of;
use bytepiece::weight::weight;

fn span(start: usize, end: usize, pattern: usize) -> Span {
    Span { start, end, pattern }
}

#[test]
fn lines_end_with_their_breaks() {
    assert_eq!(normalize(b"ab\ncd", 0), vec![&b"ab\n"[..], &b"cd"[..]]);
    assert_eq!(normalize(b"ab\n\n\ncd\n", 0), vec![&b"ab\n\n\n"[..], &b"cd\n"[..]]);
    assert_eq!(normalize(b"\n\nab", 0), vec![&b"\n\n"[..], &b"ab"[..]]);
    assert_eq!(normalize(b"abc", 0), vec![&b"abc"[..]]);
    assert!(normalize(b"", 0).is_empty());
    assert!(normalize(b"", 4).is_empty());
}

#[test]
fn lines_keep_bytes_that_are_no_text() {
    assert_eq!(normalize(b"\xff\xfe\n\x80", 0), vec![&b"\xff\xfe\n"[..], &b"\x80"[..]]);
}

#[test]
fn bounded_segments_divide_long_runs() {
    assert_eq!(normalize(b"abcdefg", 3), vec![&b"abc"[..], &b"def"[..], &b"g"[..]]);
    assert_eq!(normalize(b"abc\ndefg\n", 3), vec![&b"abc\n"[..], &b"def"[..], &b"g\n"[..]]);
    assert_eq!(normalize(b"ab\n\ncd", 3), vec![&b"ab\n\n"[..], &b"cd"[..]]);
}

#[test]
fn bounded_segments_divide_long_rows_of_breaks() {
    let mut text = b"ab".to_vec();
    text.extend(std::iter::repeat(b'\n').take(250));
    text.extend_from_slice(b"c");
    let lines = normalize(&text, 5);
    let lengths: Vec<usize> = lines.iter().map(|l| l.len()).collect();
    assert_eq!(lengths, vec![102, 100, 50, 1]);
    let unbounded = normalize(&text, 0);
    assert_eq!(unbounded.iter().map(|l| l.len()).collect::<Vec<usize>>(), vec![252, 1]);
}

#[test]
fn segments_join_to_the_text() {
    let text = b"one\n\ntwo three\nfour\n\n\n\nfive";
    for max_len in 0..8 {
        let joined: Vec<u8> = normalize(text, max_len).concat();
        assert_eq!(joined, text.to_vec());
    }
}

#[test]
fn logarithms_of_powers_of_two_are_whole() {
    assert_eq!(log2_fixed_of(0), 0);
    assert_eq!(log2_fixed_of(1), 0);
    assert_eq!(log2_fixed_of(2), 65536);
    assert_eq!(log2_fixed_of(1024), 10 * 65536);
    assert_eq!(log2_fixed_of(1u128 << 100), 100 * 65536);
}

#[test]
fn logarithms_have_sixteen_binary_places() {
    assert_eq!(log2_fixed_of(3), 103872);
    assert_eq!(log2_fixed_of(5), 152169);
    assert_eq!(log2_fixed_of(9), 207744);
    assert_eq!(log2_fixed_of(10), 217705);
    assert_eq!(log2_fixed_of(15), 256041);
    assert_eq!(log2_fixed_of(1000), 653117);
    assert_eq!(log2_fixed_of(12345678901234567890), 4156335);
    assert_eq!(log2_fixed_of(u64::MAX as u128), 4194303);
    assert_eq!(log2_fixed_of(u128::MAX), 8388607);
}

#[test]
fn logarithms_follow_the_float_logarithm() {
    for n in 1u64..5000 {
        let exact = (n as f64).log2() * 65536.0;
        let fixed = log2_fixed_of(n as u128) as f64;
        assert!(fixed <= exact + 1e-6 && exact < fixed + 1.0, "n = {}", n);
    }
}

#[test]
fn whole_parts_and_mantissas() {
    assert_eq!(floor_log2_of(0), 0);
    assert_eq!(floor_log2_of(1), 0);
    assert_eq!(floor_log2_of(2), 1);
    assert_eq!(floor_log2_of(3), 1);
    assert_eq!(floor_log2_of(4), 2);
    assert_eq!(floor_log2_of(u128::MAX), 127);
    assert_eq!(mantissa_of(1), 1u128 << 63);
    assert_eq!(mantissa_of(3), 3u128 << 62);
    assert_eq!(mantissa_of(1u128 << 127), 1u128 << 63);
    assert_eq!(mantissa_of(u128::MAX), (1u128 << 64) - 1);
}

#[test]
fn weights_are_logarithms_of_shares() {
    assert_eq!(weight(9, 15), Some(-48297));
    assert_eq!(weight(3, 15), Some(-152169));
    assert_eq!(weight(15, 15), Some(0));
    assert_eq!(weight(1, 2), Some(-65536));
    assert_eq!(weight(0, 15), None);
    assert_eq!(weight(0, 0), None);
}

#[test]
fn routes_are_walked_back_to_the_start() {
    assert_eq!(backtrack(&vec![0, 0, 2, 2], 4), vec![0, 2, 4]);
    assert_eq!(backtrack(&vec![0, 1, 2], 3), vec![0, 1, 2, 3]);
    assert_eq!(backtrack(&vec![], 0), vec![0]);
}

#[test]
fn routes_that_lead_nowhere_fall_back_to_single_bytes() {
    assert_eq!(backtrack(&vec![1, 2, 3], 3), vec![0, 1, 2, 3]);
    assert_eq!(backtrack(&vec![7, 9, 1], 3), vec![0, 1, 3]);
    assert_eq!(backtrack(&vec![], 2), vec![0, 1, 2]);
    assert_eq!(backtrack(&vec![0], 3), vec![0, 1, 2, 3]);
}

#[test]
fn the_pass_takes_the_heavier_way() {
    let weights = vec![Some(-10), Some(-30), Some(-30)];
    let spans = vec![span(0, 1, 1), span(0, 2, 0), span(1, 2, 2)];
    assert_eq!(segment(2, &spans, &weights), vec![0, 2]);
    let weights = vec![Some(-100), Some(-30), Some(-30)];
    assert_eq!(segment(2, &spans, &weights), vec![0, 1, 2]);
}

#[test]
fn the_first_of_two_equal_ways_stays() {
    let weights = vec![Some(-60), Some(-30), Some(-30)];
    let whole_first = vec![span(0, 1, 1), span(0, 2, 0), span(1, 2, 2)];
    assert_eq!(segment(2, &whole_first, &weights), vec![0, 2]);
    let parts_first = vec![span(0, 1, 1), span(1, 2, 2), span(0, 2, 0)];
    assert_eq!(segment(2, &parts_first, &weights), vec![0, 1, 2]);
}

#[test]
fn spans_that_cannot_be_used_are_passed_over() {
    let weights = vec![Some(-1), None];
    assert_eq!(segment(3, &vec![span(1, 3, 0)], &weights), vec![0, 1, 2, 3]);
    assert_eq!(segment(3, &vec![span(0, 3, 1)], &weights), vec![0, 1, 2, 3]);
    assert_eq!(segment(3, &vec![span(0, 4, 0)], &weights), vec![0, 1, 2, 3]);
    assert_eq!(segment(3, &vec![span(0, 3, 2)], &weights), vec![0, 1, 2, 3]);
    assert_eq!(segment(3, &vec![span(2, 2, 0), span(3, 0, 0)], &weights), vec![0, 1, 2, 3]);
    assert_eq!(segment(3, &vec![span(0, 3, 0)], &weights), vec![0, 3]);
    assert_eq!(segment(0, &vec![], &weights), vec![0]);
}

#[test]
fn extreme_weights_do_not_overflow() {
    let weights = vec![Some(i64::MIN), Some(i64::MAX)];
    let spans = vec![span(0, 1, 0), span(0, 1, 1), span(1, 2, 0), span(1, 2, 1), span(0, 2, 0)];
    assert_eq!(segment(2, &spans, &weights), vec![0, 1, 2]);
}

#[test]
fn reserved_tokens_have_fixed_ids_and_pieces() {
    assert_eq!(SpatialToken::Pad.id(), 0);
    assert_eq!(SpatialToken::Bos.id(), 1);
    assert_eq!(SpatialToken::Eos.id(), 2);
    assert_eq!(SpatialToken::Pad.piece(), b"<pad>");
    assert_eq!(SpatialToken::Bos.piece(), b"<bos>");
    assert_eq!(SpatialToken::Eos.piece(), b"<eos>");
    assert_eq!(SpatialToken::from_id(1), Some(SpatialToken::Bos));
    assert_eq!(SpatialToken::from_id(3), None);
    assert_eq!(&bytepiece::common::PAD[..], b"<pad>");
    assert_eq!(&bytepiece::common::BOS[..], b"<bos>");
    assert_eq!(&bytepiece::common::EOS[..], b"<eos>");
}
