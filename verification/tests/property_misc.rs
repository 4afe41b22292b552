use corefs::ondisk::fsck_repair::{parse_block_from_message, parse_slot_from_message};
use corefs::ondisk::property::{generate_sequence, Op, Rng};
use corefs::volume_image::align_up;

#[test]
fn rng_is_deterministic_across_identical_seeds() {
    let mut a = Rng::new(42);
    let mut b = Rng::new(42);
    for _ in 0..16 {
        assert_eq!(a.next_u64(), b.next_u64());
    }
}

#[test]
fn rng_zero_seed_does_not_get_stuck_at_zero() {
    let mut r = Rng::new(0);
    for _ in 0..8 {
        assert_ne!(r.next_u64(), 0);
    }
}

#[test]
fn rng_range_stays_below_bound() {
    let mut r = Rng::new(123);
    for _ in 0..200 {
        let v = r.next_range(10);
        assert!(v < 10);
    }
}

#[test]
fn choose_returns_an_element_from_the_slice() {
    let mut r = Rng::new(7);
    let options = ["alpha", "beta", "gamma"];
    for _ in 0..16 {
        let picked = r.pick(&options);
        assert!(options.contains(picked));
    }
}

#[test]
fn generate_sequence_is_deterministic() {
    let a = generate_sequence(99, 20);
    let b = generate_sequence(99, 20);
    assert_eq!(a, b);
}

#[test]
fn generate_sequence_differs_across_seeds() {
    let a = generate_sequence(1, 20);
    let b = generate_sequence(2, 20);
    assert_ne!(a, b);
}

#[test]
fn generate_sequence_respects_length() {
    let seq = generate_sequence(555, 50);
    assert_eq!(seq.len(), 50);
}

#[test]
fn xorshift_step_matches_the_reference_value() {
    let mut r = Rng::new(1);
    assert_eq!(r.next_u64(), 1082269761);
    assert_eq!(r.next_range(0), 0);
    assert_eq!(r.0, 1082269761);
}

#[test]
fn generated_operations_have_the_documented_shapes() {
    for op in generate_sequence(2024, 200) {
        match op {
            Op::CreateFile { path, content } | Op::OverwriteFile { path, content } => {
                assert!(path.starts_with("/f") && path.len() == 8);
                assert!(path[2..].bytes().all(|b| (b'a'..=b'p').contains(&b)));
                assert!(!content.is_empty() && content.len() <= 32);
            }
            Op::DeleteFile { path } => assert!(path.starts_with("/f")),
            Op::CreateDirectory { path } => {
                assert!(path.starts_with("/d"));
                assert!(path[2..].parse::<u64>().unwrap() < 1000);
            }
            Op::CreateSnapshot { name } => {
                assert!(name.starts_with("snap"));
                assert!(name[4..].parse::<u64>().unwrap() < 1_000_000);
            }
        }
    }
}

#[test]
fn parse_slot_from_message_recovers_slot_number() {
    assert_eq!(parse_slot_from_message("slot 42 marked allocated but record kind = Unused"), Some(42));
    assert_eq!(parse_slot_from_message("slot 0 extent block 100 not marked allocated"), Some(0));
    assert_eq!(parse_slot_from_message("no slot here"), None);
}

#[test]
fn parse_block_from_message_recovers_block_number() {
    assert_eq!(parse_block_from_message("slot 5 extent block 123 not marked allocated"), Some(123));
    assert_eq!(parse_block_from_message("slot 7 attr block 99 not marked allocated"), Some(99));
    assert_eq!(parse_block_from_message("nothing to see"), None);
}

#[test]
fn parsers_need_a_terminator_and_a_value_that_fits() {
    assert_eq!(parse_slot_from_message("slot 42"), None);
    assert_eq!(parse_slot_from_message("slot x"), None);
    assert_eq!(parse_slot_from_message("slot 99999999999999999999 x"), None);
    assert_eq!(parse_block_from_message("block 12 here"), Some(12));
    assert_eq!(parse_block_from_message("slot 3 block"), None);
}

#[test]
fn align_up_moves_offsets_to_alignment() {
    assert_eq!(align_up(64, 64), 64);
    assert_eq!(align_up(65, 64), 128);
}

#[test]
fn generate_sequence_from_seed_one_starts_as_expected() {
    let ops = generate_sequence(1, 3);
    assert_eq!(ops[0], Op::CreateSnapshot { name: "snap853505".to_string() });
    assert_eq!(ops[1], Op::CreateSnapshot { name: "snap937445".to_string() });
    assert_eq!(
        ops[2],
        Op::CreateFile {
            path: "/fbbnpoe".to_string(),
            content: vec![230, 164, 230, 126, 41, 54, 181, 99, 248, 194],
        }
    );
}
