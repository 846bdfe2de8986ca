use rust_ca::rule::{Rule, RuleError, SamplingMode};
use rust_ca::symmetry::{reverse_cols_position, reverse_rows_position, transpose_position};

#[test]
fn should_check_correct_rule_size() {
    let mut rule = Rule::new(1, 2, vec![1; 512]);
    assert!(rule.check());
    rule.table_mut().push(0);
    assert!(!rule.check());

    rule = Rule::new(1, 3, vec![1; 19683]);
    assert!(rule.check());
    rule.table_mut().push(0);
    assert!(!rule.check());
}

#[test]
fn encode_decode() {
    let rule = Rule::random(1, 3);
    let table_before = rule.table().to_vec();
    let bytes = rule.serialize().unwrap();

    let rule_after = Rule::deserialize(&bytes).unwrap();
    assert!(rule_after
        .table()
        .iter()
        .zip(table_before.iter())
        .all(|(a, b)| a == b));
    assert_eq!(rule_after.table().len(), table_before.len());
    assert_eq!(rule_after.states(), 3);
    assert_eq!(rule_after.horizon(), 1);
}

// The numbers are neighbourhoods of 2D automata and their transposes.
#[test]
fn should_transpose() {
    assert_eq!(transpose_position(86, 2, 3), 92);
    assert_eq!(transpose_position(342, 2, 3), 348);
    assert_eq!(transpose_position(70, 2, 3), 76);

    assert_eq!(transpose_position(31759728, 2, 5), 18698958);
    assert_eq!(transpose_position(14260627, 2, 5), 10049977);

    assert_eq!(transpose_position(663423371124, 3, 5), 573900715524);
}

#[test]
fn should_reverse_cols() {
    assert_eq!(reverse_cols_position(4808293, 2, 5), 4519732);
    assert_eq!(reverse_cols_position(4562286, 2, 5), 5075790);

    assert_eq!(reverse_cols_position(400932635627, 3, 5), 205325034491);
}

#[test]
fn should_reverse_rows() {
    assert_eq!(reverse_rows_position(236, 2, 3), 299);

    assert_eq!(reverse_rows_position(30692772, 2, 5), 4642077);

    assert_eq!(reverse_rows_position(642938107354, 3, 5), 621701730346);
}

#[test]
fn gol_is_symmetric() {
    let mut gol = Rule::gol();
    let table_before = gol.table().to_vec();
    gol.symmetrize();

    assert!(gol
        .table()
        .iter()
        .zip(table_before.iter())
        .all(|(a, b)| a == b));
}

#[test]
fn symmetrization_is_idempotent() {
    let mut rule = Rule::random(1, 2);
    rule.symmetrize();
    let table_before = rule.table().to_vec();
    rule.symmetrize();
    assert!(rule
        .table()
        .iter()
        .zip(table_before.iter())
        .all(|(a, b)| a == b));

    let mut rule = Rule::random(1, 3);
    rule.symmetrize();
    let table_before = rule.table().to_vec();
    rule.symmetrize();
    assert!(rule
        .table()
        .iter()
        .zip(table_before.iter())
        .all(|(a, b)| a == b));
}

#[test]
fn sampling_mode_is_read_from_its_name() {
    assert_eq!(SamplingMode::from_str("uniform"), Ok(SamplingMode::Uniform));
    assert_eq!(SamplingMode::from_str("dirichlet"), Ok(SamplingMode::Dirichlet));
    assert_eq!(SamplingMode::from_str("Uniform"), Err("no match"));
    assert_eq!(SamplingMode::from_str(""), Err("no match"));
}

#[test]
fn try_new_refuses_a_table_of_the_wrong_size() {
    assert!(Rule::try_new(1, 2, vec![0; 512]).is_ok());
    assert!(matches!(
        Rule::try_new(1, 2, vec![0; 511]),
        Err(RuleError::RuleSizeMismatch)
    ));
    assert!(matches!(
        Rule::try_new(-1, 2, vec![0; 2]),
        Err(RuleError::RuleSizeMismatch)
    ));
}

#[test]
fn random_rule_has_one_entry_for_each_neighbourhood() {
    for (horizon, states, size) in [
        (0i8, 2u8, 2usize),
        (0, 5, 5),
        (1, 2, 512),
        (1, 3, 19683),
        (2, 2, 33554432),
    ] {
        let rule = Rule::random(horizon, states);
        assert_eq!(rule.table().len(), size);
        assert!(rule.table().iter().all(|&s| s < states));
        assert!(rule.check());
        assert!(rule.is_well_formed());
        assert_eq!(rule.horizon(), horizon);
        assert_eq!(rule.states(), states);
    }
}

#[test]
fn rule_size_is_exact_or_too_large() {
    assert_eq!(Rule::rule_size(1, 2), Some(512));
    assert_eq!(Rule::rule_size(1, 3), Some(19683));
    assert_eq!(Rule::rule_size(2, 3), Some(847288609443));
    assert_eq!(Rule::rule_size(0, 255), Some(255));
    assert_eq!(Rule::rule_size(3, 2), Some(1 << 49));
    assert_eq!(Rule::rule_size(4, 2), None);
    assert_eq!(Rule::rule_size(1, 138), Some(18151468971815029248));
    assert_eq!(Rule::rule_size(1, 139), None);
    assert_eq!(Rule::rule_size(1, 1), Some(1));
    assert_eq!(Rule::rule_size(1, 0), Some(0));
    assert_eq!(Rule::rule_size(127, 1), Some(1));
}

#[test]
fn game_of_life_table() {
    let gol = Rule::gol();
    assert_eq!((gol.horizon(), gol.states()), (1, 2));
    // 1 1 1
    // 0 1 0
    // 0 0 0
    // A live cell with 3 live neighbours lives on.
    assert_eq!(gol.get(1 + 2 + 4 + 16), 1);
    // 1 1 1
    // 0 1 1
    // 0 0 0
    // A live cell with 4 live neighbours dies.
    assert_eq!(gol.get(1 + 2 + 4 + 16 + 32), 0);
    for idx in 0..512usize {
        let neighbours = (idx & !16).count_ones();
        let alive = idx & 16 != 0;
        let next = neighbours == 3 || (alive && neighbours == 2);
        assert_eq!(gol.table()[idx], next as u8);
    }
    assert!(gol.is_well_formed());
}

#[test]
fn well_formed_rules_have_entries_among_the_states() {
    let mut rule = Rule::new(1, 2, vec![1; 512]);
    assert!(rule.is_well_formed());
    rule.table_mut()[17] = 2;
    assert!(rule.check());
    assert!(!rule.is_well_formed());
}

#[test]
fn symmetrize_hands_out_the_entry_of_the_least_neighbourhood() {
    // Every neighbourhood gets its own number as entry, cut to a byte; after
    // symmetrizing, the entry of the least of the eight images.
    let table: Vec<u8> = (0..512usize).map(|i| (i % 251) as u8).collect();
    let mut rule = Rule::new(1, 2, table.clone());
    rule.symmetrize();
    let images = |p: u64| -> [u64; 8] {
        let t = transpose_position(p, 2, 3);
        let rr = reverse_rows_position(p, 2, 3);
        let r180 = reverse_cols_position(rr, 2, 3);
        [
            p,
            t,
            rr,
            reverse_cols_position(p, 2, 3),
            r180,
            reverse_rows_position(t, 2, 3),
            reverse_cols_position(t, 2, 3),
            transpose_position(r180, 2, 3),
        ]
    };
    for p in 0..512u64 {
        let least = *images(p).iter().min().unwrap();
        assert_eq!(rule.table()[p as usize], table[least as usize]);
        for q in images(p) {
            assert_eq!(rule.table()[q as usize], rule.table()[p as usize]);
        }
    }
    // 0 1 1          0 0 1
    // 0 0 0   and    0 0 1   are images of each other by the reflection in
    // 0 0 0          0 0 0   the other diagonal only; the least of their
    // class is the first of them with its columns reversed.
    assert_eq!(images(6)[7], 36);
    assert_eq!(images(6).iter().filter(|&&q| q == 36).count(), 1);
    assert_eq!(images(6)[3], 3);
    assert_eq!(rule.table()[36], 3);
    assert_eq!(rule.get(6), 3);
}

#[test]
fn position_transforms_are_their_own_inverses() {
    for (states, side, p) in [
        (2u8, 3usize, 325u64),
        (3, 3, 12345),
        (2, 5, 31759728),
        (4, 1, 3),
        (1, 9, 0),
        (2, 7, (1 << 49) - 2),
    ] {
        for f in [transpose_position, reverse_rows_position, reverse_cols_position] {
            assert_eq!(f(f(p, states, side), states, side), p);
        }
    }
    // The top digit moves to the bottom where every number still fits in 64 bits.
    assert_eq!(reverse_rows_position(137 * 138u64.pow(8), 138, 3), 137 * 138u64.pow(2));
    assert_eq!(reverse_cols_position(137 * 138u64.pow(8), 138, 3), 137 * 138u64.pow(6));
    assert_eq!(transpose_position(137 * 138u64.pow(7) + 5, 138, 3), 137 * 138u64.pow(5) + 5);
}

#[test]
fn serialized_rule_is_a_gzip_stream_of_digit_characters() {
    let rule = Rule::new(0, 3, vec![2, 0, 1]);
    assert_eq!(rule.to_digits(), Some(b"201".to_vec()));
    let bytes = rule.serialize().unwrap();
    assert!(rust_ca::codec::is_gzip(&bytes));
    assert_eq!(&bytes[..9], &[0x1f, 0x8b, 0x08, 0, 0, 0, 0, 0, 0]);
    assert_ne!(bytes, b"201".to_vec());
    let mut digits = Vec::new();
    std::io::Read::read_to_end(&mut flate2::read::GzDecoder::new(&bytes[..]), &mut digits).unwrap();
    assert_eq!(digits, b"201".to_vec());
    let back = Rule::deserialize(&bytes).unwrap();
    assert_eq!((back.horizon(), back.states()), (0, 3));
    assert_eq!(back.table(), &[2, 0, 1]);
}

#[test]
fn zlib_streams_are_read_too() {
    let mut encoder = flate2::write::ZlibEncoder::new(Vec::new(), flate2::Compression::default());
    std::io::Write::write_all(&mut encoder, &vec![b'1'; 512]).unwrap();
    let bytes = encoder.finish().unwrap();
    assert!(!rust_ca::codec::is_gzip(&bytes));
    let rule = Rule::deserialize(&bytes).unwrap();
    assert_eq!((rule.horizon(), rule.states()), (1, 2));
    assert_eq!(rule.table(), &vec![1u8; 512][..]);
}

#[test]
fn rules_are_inferred_from_the_length_alone() {
    let read = |len: usize| Rule::from_digits(vec![b'0'; len]);
    for (len, horizon, states) in [
        (2usize, 0i8, 2u8),
        (3, 0, 3),
        (29, 0, 29),
        (512, 1, 2),
        (19683, 1, 3),
        (262144, 1, 4),
        (33554432, 2, 2),
    ] {
        let rule = read(len).unwrap();
        assert_eq!((rule.horizon(), rule.states()), (horizon, states));
        assert_eq!(rule.table().len(), len);
        assert!(rule.check());
    }
    // No table has such a length, or the least number of states that has
    // one gives it a neighbourhood of even side.
    for len in [0usize, 1, 16, 30, 81, 511, 513] {
        assert!(matches!(read(len), Err(RuleError::RuleSizeMismatch)));
    }
    // Sixteen states are read as two.
    let rule = Rule::new(0, 16, vec![3; 16]);
    let bytes = rule.serialize().unwrap();
    assert!(matches!(Rule::deserialize(&bytes), Err(RuleError::RuleSizeMismatch)));
}

#[test]
fn bytes_below_the_zero_character_are_not_entries() {
    assert!(matches!(Rule::from_digits(b"0 ".to_vec()), Err(RuleError::RuleFormatError)));
    assert!(matches!(Rule::from_digits(vec![b'/']), Err(RuleError::RuleFormatError)));
    let rule = Rule::from_digits(b"0A".to_vec()).unwrap();
    assert_eq!(rule.table(), &[0, 17]);
    assert!(!rule.is_well_formed());
    let rule = Rule::new(0, 255, (0..255u8).collect());
    assert_eq!(rule.to_digits(), None);
    assert!(matches!(rule.serialize(), Err(RuleError::RuleFormatError)));
}

#[test]
fn streams_that_do_not_decode_are_file_errors() {
    for bytes in [
        &b""[..],
        b"01",
        &[0x1f, 0x8b, 0x08, 0, 0, 0, 0, 0, 0, 0xff, 1, 2, 3],
        &[0x78, 0x9c, 0xff],
    ] {
        assert!(matches!(Rule::deserialize(bytes), Err(RuleError::RuleFileError(_))));
    }
}

#[test]
fn well_known_rules_are_found_by_name() {
    let gol = Rule::well_known("GOL").unwrap();
    assert_eq!(gol.table(), Rule::gol().table());
    assert_eq!((gol.horizon(), gol.states()), (1, 2));
    assert!(Rule::well_known("gol").is_none());
    assert!(Rule::well_known("").is_none());
}

#[test]
fn clone_is_the_same_rule() {
    let rule = Rule::random(1, 3);
    let copy = rule.clone();
    assert_eq!(copy.table(), rule.table());
    assert_eq!((copy.horizon(), copy.states()), (rule.horizon(), rule.states()));
}

#[test]
fn rules_are_indexed_by_neighbourhood_number() {
    let gol_rule = Rule::gol();
    assert_eq!(
        gol_rule[1 * 2_usize.pow(0) + 1 * 2_usize.pow(1) + 1 * 2_usize.pow(2) + 1 * 2_usize.pow(4)],
        1
    );
    assert_eq!(
        gol_rule[1 * 2_usize.pow(0)
            + 1 * 2_usize.pow(1)
            + 1 * 2_usize.pow(2)
            + 1 * 2_usize.pow(4)
            + 1 * 2_usize.pow(5)],
        0
    );
}

#[test]
fn rules_tell_whether_they_read_back_as_themselves() {
    for (horizon, states) in [
        (0i8, 2u8),
        (1, 2),
        (1, 3),
        (0, 4),
        (1, 4),
        (0, 8),
        (0, 9),
        (0, 10),
        (0, 12),
        (0, 17),
        (0, 18),
        (0, 25),
        (0, 27),
        (0, 29),
    ] {
        let rule = Rule::random(horizon, states);
        assert!(rule.reads_back_as_itself());
        let back = Rule::deserialize(&rule.serialize().unwrap()).unwrap();
        assert_eq!((back.horizon(), back.states()), (horizon, states));
        assert_eq!(back.table(), rule.table());
    }
    // Sixteen states are read as two, thirty and more are not looked for, and
    // a table of the wrong size is no table.
    assert!(!Rule::new(0, 16, vec![0; 16]).reads_back_as_itself());
    assert!(!Rule::new(0, 30, vec![0; 30]).reads_back_as_itself());
    assert!(!Rule::new(0, 1, vec![0]).reads_back_as_itself());
    let mut rule = Rule::new(1, 2, vec![0; 512]);
    rule.table_mut().push(0);
    assert!(!rule.reads_back_as_itself());
}

#[test]
fn every_renderable_table_is_written() {
    for table in [vec![], vec![0u8], vec![207u8; 3], vec![1u8; 100000]] {
        let mut rule = Rule::new(0, 3, vec![0, 1, 2]);
        *rule.table_mut() = table.clone();
        let bytes = rule.serialize().unwrap();
        let mut digits = Vec::new();
        std::io::Read::read_to_end(&mut flate2::read::GzDecoder::new(&bytes[..]), &mut digits)
            .unwrap();
        assert_eq!(digits, table.iter().map(|e| e + b'0').collect::<Vec<u8>>());
    }
}
