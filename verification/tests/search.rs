use glyph_hash::attacks::preimage_attack;
use glyph_hash::cancel::{is_cancelled, request_cancel};
use glyph_hash::charset::check_alphanum;
use glyph_hash::hash::compute_glyph_hash;
use glyph_hash::search::{find_ascii_zeros, SearchError, SearchLane, SearchStep};
use std::sync::atomic::AtomicBool;

const ZERO: [u8; 16] = [0; 16];

const LINE: &[u8] = b" Hello Casey!  I hope this message finds you well.";

#[test]
fn check_alphanum_accepts_digits_and_letters() {
    assert!(check_alphanum(*b"0123456789ABCDEF"));
    assert!(check_alphanum(*b"GHIJKLMNOPQRSTUV"));
    assert!(check_alphanum(*b"WXYZabcdefghijkl"));
    assert!(check_alphanum(*b"mnopqrstuvwxyz09"));
}

#[test]
fn check_alphanum_refuses_every_other_byte() {
    let base = *b"0123456789ABCDEF";
    for b in 0..=255u8 {
        for position in [0, 7, 15] {
            let mut block = base;
            block[position] = b;
            assert_eq!(check_alphanum(block), b.is_ascii_alphanumeric());
        }
    }
    // the bytes next to the three ranges
    for b in [b'/', b':', b'@', b'[', b'`', b'{'] {
        let mut block = base;
        block[3] = b;
        assert!(!check_alphanum(block));
    }
}

#[test]
fn cancel_flag_is_set_once() {
    let flag = AtomicBool::new(false);
    assert!(!is_cancelled(&flag));
    request_cancel(&flag);
    assert!(is_cancelled(&flag));
    request_cancel(&flag);
    assert!(is_cancelled(&flag));
}

#[test]
fn try_filler_finds_known_messages() {
    let mut lane = SearchLane::new(b"", 0).unwrap();
    assert_eq!(lane.try_filler(*b"lZlFEU"), Some(b"xvD7FsaUdGy9UyjalZlFEU".to_vec()));
    assert_eq!(lane.try_filler(*b"gsn0su"), Some(b"0XXPpB0wpVszsvSxgsn0su".to_vec()));
    assert_eq!(lane.try_filler(*b"fW7vsI"), Some(b"IGNwdjol0dxLflcnfW7vsI".to_vec()));
    assert_eq!(lane.try_filler(*b"157RSz"), Some(b"jcTHx0zBJbW2tdiX157RSz".to_vec()));
}

#[test]
fn try_filler_refuses_a_block_that_is_not_of_digits_and_letters() {
    let mut lane = SearchLane::new(b"", 0).unwrap();
    assert_eq!(lane.try_filler(*b"lZlFEV"), None);
    assert_eq!(lane.try_filler(*b"000000"), None);
    let mut lane = SearchLane::new(b" Hello Casey!  I hope this message finds you well.", 3).unwrap();
    assert_eq!(lane.try_filler(*b"abcdef"), None);
}

#[test]
fn try_filler_finds_known_messages_with_a_suffix() {
    let mut lane = SearchLane::new(b" hi", 0).unwrap();
    assert_eq!(lane.try_filler(*b"TqtkXT"), Some(b"BDbqWhyfquGpu9frTqtkXT hi".to_vec()));
    assert_eq!(lane.try_filler(*b"TqtkXU"), None);
    let mut lane = SearchLane::new(LINE, 0).unwrap();
    let mut first = b"fUSqLlc0vhx2cKLURGmLUW".to_vec();
    first.extend_from_slice(LINE);
    assert_eq!(lane.try_filler(*b"RGmLUW"), Some(first));
    let mut second = b"X4UoOy6Sr1kmp6YwZHYOzs".to_vec();
    second.extend_from_slice(LINE);
    assert_eq!(lane.try_filler(*b"ZHYOzs"), Some(second));
    assert_eq!(lane.try_filler(*b"ZHYOzt"), None);
}

#[test]
fn try_filler_agrees_with_the_preimage_of_filler_and_suffix() {
    let long: Vec<u8> = (0..60).map(|i| b'a' + (i % 26)).collect();
    for len in 0..long.len() {
        let suffix = &long[..len];
        let mut lane = SearchLane::new(suffix, 1).unwrap();
        for filler in [*b"000000", *b"abcdef", *b"Zz9Aa0"] {
            let mut tail = filler.to_vec();
            tail.extend_from_slice(suffix);
            let message = preimage_attack(ZERO, &tail).unwrap();
            let block: [u8; 16] = message[..16].try_into().unwrap();
            let expected = if check_alphanum(block) { Some(message) } else { None };
            assert_eq!(lane.try_filler(filler), expected);
        }
    }
}

#[test]
fn step_with_the_flag_set_draws_nothing() {
    let mut stopped = SearchLane::new(b" suffix", 2).unwrap();
    assert!(matches!(stopped.step(true), SearchStep::Cancelled));
    assert!(matches!(stopped.step(true), SearchStep::Cancelled));
    let mut fresh = SearchLane::new(b" suffix", 2).unwrap();
    // after the cancelled turns the lane is where a fresh one is
    for _ in 0..50 {
        let a = stopped.step(false);
        let b = fresh.step(false);
        assert!(matches!(a, SearchStep::Continue));
        assert!(matches!(b, SearchStep::Continue));
    }
}

#[test]
fn search_stops_at_once_when_cancelled() {
    let flag = AtomicBool::new(true);
    assert_eq!(find_ascii_zeros(b" suffix", 0, &flag, u64::MAX), Err(SearchError::Cancelled));
    assert!(is_cancelled(&flag));
}

#[test]
fn search_is_exhausted_after_its_draws() {
    let flag = AtomicBool::new(false);
    assert_eq!(find_ascii_zeros(b" hi", 0, &flag, 0), Err(SearchError::SearchExhausted));
    assert_eq!(find_ascii_zeros(b" hi", 0, &flag, 2000), Err(SearchError::SearchExhausted));
    assert_eq!(
        find_ascii_zeros(b" Hello Casey!  I hope this message finds you well.", 7, &flag, 500),
        Err(SearchError::SearchExhausted)
    );
    // a search that found nothing leaves the flag alone
    assert!(!is_cancelled(&flag));
}

#[test]
fn search_with_no_draws_does_not_read_the_flag() {
    let flag = AtomicBool::new(true);
    assert_eq!(find_ascii_zeros(b"", 0, &flag, 0), Err(SearchError::SearchExhausted));
}

#[test]
fn search_returns_the_first_hit_of_the_worker() {
    let flag = AtomicBool::new(false);
    let found = find_ascii_zeros(b" hi", 879268, &flag, 252);
    assert_eq!(found, Ok(b"BDbqWhyfquGpu9frTqtkXT hi".to_vec()));
    // the worker that found a message tells the others to stop
    assert!(is_cancelled(&flag));
    let flag = AtomicBool::new(false);
    assert_eq!(
        find_ascii_zeros(b" hi", 879268, &flag, u64::MAX),
        Ok(b"BDbqWhyfquGpu9frTqtkXT hi".to_vec())
    );
}

#[test]
fn search_is_exhausted_one_draw_before_the_first_hit() {
    let flag = AtomicBool::new(false);
    assert_eq!(find_ascii_zeros(b" hi", 879268, &flag, 251), Err(SearchError::SearchExhausted));
    assert!(!is_cancelled(&flag));
}

#[test]
fn search_finds_messages_for_a_long_suffix() {
    let flag = AtomicBool::new(false);
    let message = find_ascii_zeros(LINE, 73236, &flag, 335).unwrap();
    let mut expected = b"fUSqLlc0vhx2cKLURGmLUW".to_vec();
    expected.extend_from_slice(LINE);
    assert_eq!(message, expected);
    assert!(is_cancelled(&flag));
    let flag = AtomicBool::new(false);
    assert_eq!(find_ascii_zeros(LINE, 73236, &flag, 334), Err(SearchError::SearchExhausted));
}

#[test]
fn search_finds_a_later_hit() {
    let flag = AtomicBool::new(false);
    let message = find_ascii_zeros(b" hi", 869581, &flag, 10_000).unwrap();
    assert_eq!(message, b"BDbqWhyfquGpu9frTqtkXT hi".to_vec());
    let flag = AtomicBool::new(false);
    assert_eq!(find_ascii_zeros(b" hi", 869581, &flag, 6769), Err(SearchError::SearchExhausted));
}

#[test]
fn found_messages_hash_to_zero_and_begin_with_digits_and_letters() {
    for (suffix, worker, draws) in [(&b" hi"[..], 879268u64, 252u64), (LINE, 73236, 335)] {
        let flag = AtomicBool::new(false);
        let message = find_ascii_zeros(suffix, worker, &flag, draws).unwrap();
        assert_eq!(compute_glyph_hash(&message), ZERO);
        assert_eq!(message.len(), 22 + suffix.len());
        assert!(message[..22].iter().all(|b| b.is_ascii_alphanumeric()));
        assert!(message.ends_with(suffix));
    }
}

#[test]
fn found_message_is_of_digits_and_letters_where_the_suffix_is() {
    let mut lane = SearchLane::new(b"", 0).unwrap();
    let message = lane.try_filler(*b"lZlFEU").unwrap();
    assert!(message.iter().all(|b| b.is_ascii_alphanumeric()));
    assert_eq!(compute_glyph_hash(&message), ZERO);
}

#[test]
fn search_finds_messages_around_the_end_of_the_first_chunk() {
    let cases: [(&[u8], u64, u64, &[u8]); 3] = [
        // the suffix ends one byte before the chunk of the filler does
        (b" 12345678", 382578, 192, b"S9aU6qKqdHvlZEZ5kATf0l 12345678"),
        // the suffix ends with that chunk
        (b" 123456789", 815943, 1170, b"mBwt52PvyICkBu0t8wkdUu 123456789"),
        // the suffix fills one more chunk
        (
            b" abcdefghijklmnopqrstuvwxy",
            406322,
            1538,
            b"oNes8Sapp6kHBS9xDzF1Wz abcdefghijklmnopqrstuvwxy",
        ),
    ];
    for (suffix, worker, draw, message) in cases {
        let flag = AtomicBool::new(false);
        assert_eq!(find_ascii_zeros(suffix, worker, &flag, draw + 1), Ok(message.to_vec()));
        assert!(is_cancelled(&flag));
        let flag = AtomicBool::new(false);
        assert_eq!(
            find_ascii_zeros(suffix, worker, &flag, draw),
            Err(SearchError::SearchExhausted)
        );
        assert_eq!(compute_glyph_hash(message), ZERO);
        let mut lane = SearchLane::new(suffix, 0).unwrap();
        let filler: [u8; 6] = message[16..22].try_into().unwrap();
        assert_eq!(lane.try_filler(filler), Some(message.to_vec()));
    }
}

#[test]
fn step_draws_the_fillers_of_the_worker_in_turn() {
    // the first hit of this worker is its draw number 192, counted from zero
    let mut lane = SearchLane::new(b" 12345678", 382578).unwrap();
    for _ in 0..192 {
        assert!(matches!(lane.step(false), SearchStep::Continue));
    }
    // a turn with the flag set draws nothing: the hit is still the next draw
    assert!(matches!(lane.step(true), SearchStep::Cancelled));
    match lane.step(false) {
        SearchStep::Found(message) => {
            assert_eq!(message, b"S9aU6qKqdHvlZEZ5kATf0l 12345678".to_vec())
        }
        other => panic!("no message at the draw of the hit: {:?}", other),
    }
    assert!(matches!(lane.step(false), SearchStep::Continue));
}
