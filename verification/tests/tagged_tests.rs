use iacc::tagged::{
    decode, encode, kind_of, tag_table, EncodeError, SchemeVal, WordKind, EMPTY_LIST, FALSE_VAL,
    FIXNUM_MAX, FIXNUM_MIN, TRUE_VAL,
};

#[test]
fn encode_fixnum_shifts_by_two() {
    assert_eq!(encode(SchemeVal::Fixnum(42)), Ok(168));
    assert_eq!(encode(SchemeVal::Fixnum(0)), Ok(0));
    assert_eq!(encode(SchemeVal::Fixnum(1)), Ok(4));
    assert_eq!(encode(SchemeVal::Fixnum(-1)), Ok(0xffff_ffff_ffff_fffc));
    assert_eq!(encode(SchemeVal::Fixnum(-2)), Ok(0xffff_ffff_ffff_fff8));
    assert_eq!(encode(SchemeVal::Fixnum(FIXNUM_MAX)), Ok(0x7fff_ffff_ffff_fffc));
    assert_eq!(encode(SchemeVal::Fixnum(FIXNUM_MIN)), Ok(0x8000_0000_0000_0000));
}

#[test]
fn encode_other_immediates() {
    assert_eq!(encode(SchemeVal::Char('A')), Ok((65 << 8) | 0x0f));
    assert_eq!(encode(SchemeVal::Char('\0')), Ok(0x0f));
    assert_eq!(encode(SchemeVal::Char('\u{10ffff}')), Ok((0x10ffff << 8) | 0x0f));
    assert_eq!(encode(SchemeVal::Bool(true)), Ok(0b1001_1111));
    assert_eq!(encode(SchemeVal::Bool(false)), Ok(0b0001_1111));
    assert_eq!(encode(SchemeVal::EmptyList), Ok(0b0010_1111));
    assert_eq!(TRUE_VAL, 159);
    assert_eq!(FALSE_VAL, 31);
    assert_eq!(EMPTY_LIST, 47);
}

#[test]
fn encode_rejects_wide_fixnums() {
    assert_eq!(
        encode(SchemeVal::Fixnum(FIXNUM_MAX + 1)),
        Err(EncodeError { literal: 1 << 61, required_bits: 63 })
    );
    assert_eq!(
        encode(SchemeVal::Fixnum(FIXNUM_MIN - 1)),
        Err(EncodeError { literal: -(1 << 61) - 1, required_bits: 63 })
    );
    assert_eq!(
        encode(SchemeVal::Fixnum((1 << 62) - 1)),
        Err(EncodeError { literal: (1 << 62) - 1, required_bits: 63 })
    );
    assert_eq!(
        encode(SchemeVal::Fixnum(1 << 62)),
        Err(EncodeError { literal: 1 << 62, required_bits: 64 })
    );
    assert_eq!(
        encode(SchemeVal::Fixnum(i64::MAX)),
        Err(EncodeError { literal: i64::MAX, required_bits: 64 })
    );
    assert_eq!(
        encode(SchemeVal::Fixnum(i64::MIN)),
        Err(EncodeError { literal: i64::MIN, required_bits: 64 })
    );
}

#[test]
fn tag_round_trip() {
    let mut values = vec![
        SchemeVal::EmptyList,
        SchemeVal::Bool(true),
        SchemeVal::Bool(false),
        SchemeVal::Fixnum(FIXNUM_MIN),
        SchemeVal::Fixnum(FIXNUM_MAX),
    ];
    for n in -1000..1000 {
        values.push(SchemeVal::Fixnum(n));
        values.push(SchemeVal::Fixnum(n * 1_000_003_000_007));
    }
    for u in (0..0x11_0000u32).step_by(97) {
        if let Some(c) = char::from_u32(u) {
            values.push(SchemeVal::Char(c));
        }
    }
    values.push(SchemeVal::Char('\u{d7ff}'));
    values.push(SchemeVal::Char('\u{e000}'));
    values.push(SchemeVal::Char('\u{10ffff}'));
    for v in values {
        let word = encode(v).unwrap();
        assert_eq!(decode(word), Some(v));
    }
}

#[test]
fn decode_known_words() {
    assert_eq!(decode(168), Some(SchemeVal::Fixnum(42)));
    assert_eq!(decode(0), Some(SchemeVal::Fixnum(0)));
    assert_eq!(decode(0xffff_ffff_ffff_fffc), Some(SchemeVal::Fixnum(-1)));
    assert_eq!(decode(0x8000_0000_0000_0000), Some(SchemeVal::Fixnum(FIXNUM_MIN)));
    assert_eq!(decode(0x7fff_ffff_ffff_fffc), Some(SchemeVal::Fixnum(FIXNUM_MAX)));
    assert_eq!(decode((97 << 8) | 0x0f), Some(SchemeVal::Char('a')));
    assert_eq!(decode(159), Some(SchemeVal::Bool(true)));
    assert_eq!(decode(31), Some(SchemeVal::Bool(false)));
    assert_eq!(decode(47), Some(SchemeVal::EmptyList));
}

#[test]
fn decode_gives_nothing_for_other_words() {
    // heap pointers
    assert_eq!(decode(1), None);
    assert_eq!(decode(2), None);
    assert_eq!(decode(3), None);
    assert_eq!(decode(0xffff_ffff_ffff_ffff), None);
    // a surrogate and a value above the last scalar, under the character tag
    assert_eq!(decode((0xd800 << 8) | 0x0f), None);
    assert_eq!(decode((0x11_0000 << 8) | 0x0f), None);
    assert_eq!(decode((1 << 40) | 0x0f), None);
    // bits above a boolean or above the empty list
    assert_eq!(decode(0x11f), None);
    assert_eq!(decode(0x19f), None);
    assert_eq!(decode(0x12f), None);
}

#[test]
fn only_one_word_is_the_empty_list() {
    for word in 0..(1u64 << 16) {
        assert_eq!(decode(word) == Some(SchemeVal::EmptyList), word == EMPTY_LIST);
    }
    for bit in 0..64 {
        assert_ne!(decode(EMPTY_LIST ^ (1 << bit)), Some(SchemeVal::EmptyList));
    }
}

#[test]
fn tag_table_rows_in_match_order() {
    let table = tag_table();
    assert_eq!(table.len(), 4);
    let kinds: Vec<WordKind> = table.iter().map(|row| row.kind).collect();
    assert_eq!(
        kinds,
        vec![WordKind::Char, WordKind::EmptyList, WordKind::Bool, WordKind::Fixnum]
    );
    let widths: Vec<u32> = table.iter().map(|row| row.width).collect();
    assert_eq!(widths, vec![8, 8, 7, 2]);
    for row in &table {
        assert_eq!(row.mask, (1u64 << row.width) - 1);
        assert_eq!(row.pattern & row.mask, row.pattern);
    }
    assert_eq!(table[0].pattern, 0b0000_1111);
    assert_eq!(table[1].pattern, 0b0010_1111);
    assert_eq!(table[2].pattern, 0b001_1111);
    assert_eq!(table[3].pattern, 0b00);
}

#[test]
fn tag_disjointness_over_all_low_bit_patterns() {
    let table = tag_table();
    for low in 0..(1u64 << 16) {
        for high in [0u64, 1 << 16, 0xabcd_0000_0000, 0xffff_ffff_ffff_0000] {
            let word = high | low;
            let matching: Vec<WordKind> = table
                .iter()
                .filter(|row| word & row.mask == row.pattern)
                .map(|row| row.kind)
                .collect();
            assert!(matching.len() <= 1);
            let kind = kind_of(word);
            match matching.first() {
                Some(k) => assert_eq!(kind, *k),
                None => assert_eq!(kind, WordKind::HeapPointer),
            }
            assert_eq!(kind == WordKind::Fixnum, word & 0b11 == 0);
            match decode(word) {
                Some(SchemeVal::Fixnum(_)) => assert_eq!(kind, WordKind::Fixnum),
                Some(SchemeVal::Char(_)) => assert_eq!(kind, WordKind::Char),
                Some(SchemeVal::Bool(_)) => assert_eq!(kind, WordKind::Bool),
                Some(SchemeVal::EmptyList) => assert_eq!(kind, WordKind::EmptyList),
                None => assert_ne!(kind, WordKind::Fixnum),
            }
        }
    }
}

#[test]
fn kind_of_known_words() {
    assert_eq!(kind_of(168), WordKind::Fixnum);
    assert_eq!(kind_of(0x0f), WordKind::Char);
    assert_eq!(kind_of(0x1f), WordKind::Bool);
    assert_eq!(kind_of(0x9f), WordKind::Bool);
    assert_eq!(kind_of(0x2f), WordKind::EmptyList);
    assert_eq!(kind_of(0x12f), WordKind::EmptyList);
    assert_eq!(kind_of(1), WordKind::HeapPointer);
    assert_eq!(kind_of(2), WordKind::HeapPointer);
    assert_eq!(kind_of(3), WordKind::HeapPointer);
    assert_eq!(kind_of(0x3f), WordKind::HeapPointer);
}

#[test]
fn decode_then_encode_gives_the_word_back() {
    for low in 0..(1u64 << 12) {
        for high in [0u64, 0x41 << 8, 0xffff_ffff_ffff_f000] {
            let word = high ^ low;
            if let Some(v) = decode(word) {
                assert_eq!(encode(v), Ok(word));
            }
        }
    }
}
