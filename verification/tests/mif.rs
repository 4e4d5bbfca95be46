use byteorder::{BigEndian, ByteOrder, LittleEndian};
use mif::{default_width, Error, First, Mif};

fn unfold(words: &[(u128, usize)]) -> Vec<u128> {
    let mut all = Vec::new();
    for &(word, bulk) in words {
        for _ in 0..bulk {
            all.push(word);
        }
    }
    all
}

#[test]
fn new_accepts_widths_from_one_to_maximum() {
    assert_eq!(Mif::new(0).err(), Some(Error::WidthOutOfRange(0, 128)));
    assert_eq!(Mif::new(129).err(), Some(Error::WidthOutOfRange(129, 128)));
    assert_eq!(Mif::new(usize::MAX).err(), Some(Error::WidthOutOfRange(usize::MAX, 128)));
    assert!(Mif::new(1).is_ok());
    assert!(Mif::new(128).is_ok());
}

#[test]
fn new_is_empty() {
    let mif = Mif::new(24).unwrap();
    assert_eq!(mif.width(), 24);
    assert_eq!(mif.depth(), 0);
    assert!(mif.words().is_empty());
    assert!(mif.areas().is_empty());
}

#[test]
fn maximum_width_and_align() {
    assert_eq!(Mif::max_width(), 128);
    assert_eq!(Mif::max_align(), 16);
    assert_eq!(default_width(), 16);
}

#[test]
fn align_rounds_up_to_whole_bytes() {
    for (width, align) in [(1, 1), (7, 1), (8, 1), (9, 2), (16, 2), (17, 3), (24, 3), (127, 16), (128, 16)] {
        assert_eq!(Mif::new(width).unwrap().align(), align, "width {}", width);
    }
}

#[test]
fn max_value_sets_all_bits() {
    assert_eq!(Mif::new(1).unwrap().max_value(), 1);
    assert_eq!(Mif::new(8).unwrap().max_value(), 0xFF);
    assert_eq!(Mif::new(12).unwrap().max_value(), 0xFFF);
    assert_eq!(Mif::new(16).unwrap().max_value(), 0xFFFF);
    assert_eq!(Mif::new(64).unwrap().max_value(), u64::MAX as u128);
    assert_eq!(Mif::new(127).unwrap().max_value(), u128::MAX >> 1);
    assert_eq!(Mif::new(128).unwrap().max_value(), u128::MAX);
}

#[test]
fn push_accepts_max_value_and_refuses_one_more() {
    for width in [1usize, 8, 12, 16, 64, 127] {
        let mut mif = Mif::new(width).unwrap();
        let max = mif.max_value();
        assert_eq!(mif.push(max, 1), Ok(()));
        assert_eq!(mif.push(max + 1, 1), Err(Error::ValueOutOfWidth(1, width)));
        assert_eq!(mif.words(), &vec![(max, 1)]);
    }
    let mut mif = Mif::new(128).unwrap();
    assert_eq!(mif.push(u128::MAX, 1), Ok(()));
    assert_eq!(mif.words(), &vec![(u128::MAX, 1)]);
}

#[test]
fn push_collapses_equal_neighbours() {
    let mut mif = Mif::new(16).unwrap();
    let pushes = [(1u128, 2usize), (1, 1), (2, 1), (2, 0), (3, 0), (1, 4), (1, 1), (0, 3)];
    let mut all = Vec::new();
    for &(word, bulk) in &pushes {
        assert_eq!(mif.push(word, bulk), Ok(()));
        for _ in 0..bulk {
            all.push(word);
        }
    }
    assert_eq!(mif.words(), &vec![(1, 3), (2, 1), (1, 5), (0, 3)]);
    for pair in mif.words().windows(2) {
        assert_ne!(pair[0].0, pair[1].0);
    }
    assert!(mif.words().iter().all(|&(_, bulk)| bulk > 0));
    assert_eq!(unfold(mif.words()), all);
    assert_eq!(mif.depth(), 12);
}

#[test]
fn push_of_no_words_is_neutral_and_never_fails() {
    let mut mif = Mif::new(4).unwrap();
    assert_eq!(mif.push(0xFFFF, 0), Ok(()));
    assert_eq!(mif.depth(), 0);
    assert!(mif.words().is_empty());
    assert_eq!(mif.push(3, 2), Ok(()));
    assert_eq!(mif.push(0xFFFF, 0), Ok(()));
    assert_eq!(mif.push(3, 0), Ok(()));
    assert_eq!(mif.depth(), 2);
    assert_eq!(mif.words(), &vec![(3, 2)]);
}

#[test]
fn push_counts_refused_words_for_the_depth() {
    let mut mif = Mif::new(8).unwrap();
    assert_eq!(mif.push(0xAB, 3), Ok(()));
    assert_eq!(mif.push(0x100, 5), Err(Error::ValueOutOfWidth(3, 8)));
    assert_eq!(mif.depth(), 8);
    assert_eq!(mif.words(), &vec![(0xAB, 3)]);
    assert_eq!(mif.push(0xAB, 1), Ok(()));
    assert_eq!(mif.depth(), 9);
    assert_eq!(mif.words(), &vec![(0xAB, 4)]);
}

#[test]
fn depth_adds_up_over_pushes_and_joins() {
    let mut one = Mif::new(16).unwrap();
    one.push(7, 10).unwrap();
    one.push(7, 5).unwrap();
    one.push(8, 1).unwrap();
    assert_eq!(one.depth(), 16);
    assert_eq!(one.words().len(), 2);
    let mut other = Mif::new(16).unwrap();
    other.push(8, 4).unwrap();
    other.push(9, 1).unwrap();
    assert_eq!(one.join(&other), Ok(()));
    assert_eq!(one.depth(), 21);
    assert_eq!(one.words(), &vec![(7, 15), (8, 5), (9, 1)]);
    assert_eq!(other.depth(), 5);
}

#[test]
fn join_of_other_width_takes_words_that_fit() {
    let mut wide = Mif::new(16).unwrap();
    wide.push(0x12, 2).unwrap();
    wide.push(0xFF, 1).unwrap();
    let mut narrow = Mif::new(8).unwrap();
    assert_eq!(narrow.join(&wide), Ok(()));
    assert_eq!(narrow.words(), &vec![(0x12, 2), (0xFF, 1)]);
    assert_eq!(narrow.width(), 8);
}

#[test]
fn join_stops_at_first_word_that_does_not_fit() {
    let mut wide = Mif::new(16).unwrap();
    wide.push(0x12, 2).unwrap();
    wide.push(0x1234, 3).unwrap();
    wide.push(0x34, 1).unwrap();
    let mut narrow = Mif::new(8).unwrap();
    narrow.push(0x12, 1).unwrap();
    assert_eq!(narrow.join(&wide), Err(Error::ValueOutOfWidth(3, 8)));
    assert_eq!(narrow.words(), &vec![(0x12, 3)]);
    assert_eq!(narrow.depth(), 6);
}

#[test]
fn area_addresses_current_depth() {
    let mut mif = Mif::new(8).unwrap();
    mif.area(String::from("a.bin"));
    mif.push(1, 3).unwrap();
    mif.area(String::from("b.bin"));
    mif.area(String::from("c.bin"));
    mif.push(2, 2).unwrap();
    assert_eq!(
        mif.areas(),
        &vec![(0, String::from("a.bin")), (3, String::from("b.bin")), (3, String::from("c.bin"))]
    );
    assert!(mif.areas().windows(2).all(|pair| pair[0].0 <= pair[1].0));
}

#[test]
fn read_decodes_either_byte_order() {
    let value: u128 = 0x0102_0304_0506;
    let mut data = [0u8; 6];
    LittleEndian::write_uint128(&mut data, value, 6);
    assert_eq!(data, [6, 5, 4, 3, 2, 1]);

    let mut lsb = Mif::new(48).unwrap();
    let mut bytes = &data[..];
    assert_eq!(lsb.read(&mut bytes, 1, First::Lsb), Ok(()));
    assert_eq!(lsb.words(), &vec![(value, 1)]);
    assert!(bytes.is_empty());

    let mut msb = Mif::new(48).unwrap();
    let mut bytes = &data[..];
    assert_eq!(msb.read(&mut bytes, 1, First::Msb), Ok(()));
    assert_eq!(msb.words(), &vec![(0x0605_0403_0201, 1)]);
    assert_eq!(msb.words()[0].0, BigEndian::read_uint128(&data, 6));
    let mut reversed = data;
    reversed.reverse();
    assert_eq!(msb.words()[0].0, LittleEndian::read_uint128(&reversed, 6));
}

#[test]
fn read_decodes_full_width_words() {
    let value: u128 = 0x0011_2233_4455_6677_8899_AABB_CCDD_EEFF;
    let data = value.to_le_bytes();
    let mut lsb = Mif::new(128).unwrap();
    let mut bytes = &data[..];
    assert_eq!(lsb.read(&mut bytes, 1, First::Lsb), Ok(()));
    assert_eq!(lsb.words(), &vec![(value, 1)]);
    let mut msb = Mif::new(128).unwrap();
    let mut bytes = &data[..];
    assert_eq!(msb.read(&mut bytes, 1, First::Msb), Ok(()));
    assert_eq!(msb.words(), &vec![(value.swap_bytes(), 1)]);
}

#[test]
fn read_takes_words_off_the_front() {
    let data = [1u8, 0, 1, 0, 2, 0, 3, 0, 9];
    let mut bytes = &data[..];
    let mut mif = Mif::new(16).unwrap();
    assert_eq!(mif.read(&mut bytes, 3, First::Lsb), Ok(()));
    assert_eq!(mif.words(), &vec![(1, 2), (2, 1)]);
    assert_eq!(mif.depth(), 3);
    assert_eq!(bytes, &[3, 0, 9]);
    assert_eq!(mif.read(&mut bytes, 0, First::Lsb), Ok(()));
    assert_eq!(bytes, &[3, 0, 9]);
    assert_eq!(mif.read(&mut bytes, 1, First::Msb), Ok(()));
    assert_eq!(mif.words(), &vec![(1, 2), (2, 1), (0x0300, 1)]);
    assert_eq!(bytes, &[9]);
}

#[test]
fn read_counts_missing_words() {
    let data = [1u8, 0, 2, 0, 3];
    let mut bytes = &data[..];
    let mut mif = Mif::new(16).unwrap();
    assert_eq!(mif.read(&mut bytes, 5, First::Lsb), Err(Error::MissingWords(3)));
    assert_eq!(mif.words(), &vec![(1, 1), (2, 1)]);
    assert_eq!(mif.depth(), 2);
    assert!(bytes.is_empty());

    let mut none = &data[..0];
    let mut mif = Mif::new(8).unwrap();
    assert_eq!(mif.read(&mut none, 1, First::Lsb), Err(Error::MissingWords(1)));
    assert_eq!(mif.depth(), 0);
}

#[test]
fn read_refuses_word_out_of_width() {
    let data = [0xFFu8, 0x0F, 0x00, 0x10, 0x01, 0x00];
    let mut bytes = &data[..];
    let mut mif = Mif::new(12).unwrap();
    assert_eq!(mif.read(&mut bytes, 3, First::Lsb), Err(Error::ValueOutOfWidth(1, 12)));
    assert_eq!(mif.words(), &vec![(0xFFF, 1)]);
    assert_eq!(mif.depth(), 2);
    assert_eq!(bytes, &[0x01, 0x00]);
}

#[test]
fn write_single_words_and_runs() {
    let mut mif = Mif::new(16).unwrap();
    mif.push(1, 2).unwrap();
    mif.push(2, 1).unwrap();
    mif.push(0xBEEF, 14).unwrap();
    let mut lines = String::new();
    mif.write(&mut lines, true);
    assert_eq!(
        lines,
        "WIDTH=16;\n\
         DEPTH=17;\n\
         \n\
         ADDRESS_RADIX=HEX;\n\
         DATA_RADIX=HEX;\n\
         \n\
         CONTENT BEGIN\n\
         \t[00..01]  :   0001;\n\
         \t02  :   0002;\n\
         \t[03..10]  :   BEEF;\n\
         END;\n"
    );
}

#[test]
fn write_comments_memory_areas_on_demand() {
    let mut mif = Mif::new(12).unwrap();
    mif.area(String::from("a.rom"));
    mif.push(0xABC, 16).unwrap();
    mif.area(String::from("b.rom"));
    let head = "WIDTH=12;\nDEPTH=16;\n\nADDRESS_RADIX=HEX;\nDATA_RADIX=HEX;\n\n";
    let body = "CONTENT BEGIN\n\t[0..F]  :   ABC;\nEND;\n";
    let mut with = String::new();
    mif.write(&mut with, true);
    assert_eq!(with, format!("{}-- 0: a.rom\n-- 10: b.rom\n\n{}", head, body));
    let mut without = String::new();
    mif.write(&mut without, false);
    assert_eq!(without, format!("{}{}", head, body));
}

#[test]
fn write_appends_to_lines() {
    let mut mif = Mif::new(8).unwrap();
    mif.push(0, 1).unwrap();
    let mut lines = String::from("; first\n");
    mif.write(&mut lines, false);
    assert_eq!(
        lines,
        "; first\nWIDTH=8;\nDEPTH=1;\n\nADDRESS_RADIX=HEX;\nDATA_RADIX=HEX;\n\nCONTENT BEGIN\n\t0  :   00;\nEND;\n"
    );
}

#[test]
fn write_empty_mif() {
    let mif = Mif::new(128).unwrap();
    let mut lines = String::new();
    mif.write(&mut lines, true);
    assert_eq!(
        lines,
        "WIDTH=128;\nDEPTH=0;\n\nADDRESS_RADIX=HEX;\nDATA_RADIX=HEX;\n\nCONTENT BEGIN\nEND;\n"
    );
}

#[test]
fn write_pads_addresses_to_digits_of_last_address() {
    for (depth, last) in [(2usize, "1"), (16, "F"), (17, "10"), (256, "FF"), (257, "100"), (4096, "FFF"), (4097, "1000")] {
        let mut mif = Mif::new(4).unwrap();
        mif.push(5, 1).unwrap();
        mif.push(6, depth - 1).unwrap();
        let mut lines = String::new();
        mif.write(&mut lines, false);
        let zero = "0".repeat(last.len());
        let one = format!("{}1", "0".repeat(last.len() - 1));
        let content = if depth == 2 {
            format!("\t{}  :   5;\n\t{}  :   6;\n", zero, last)
        } else {
            format!("\t{}  :   5;\n\t[{}..{}]  :   6;\n", zero, one, last)
        };
        assert_eq!(
            lines,
            format!(
                "WIDTH=4;\nDEPTH={};\n\nADDRESS_RADIX=HEX;\nDATA_RADIX=HEX;\n\nCONTENT BEGIN\n{}END;\n",
                depth, content
            )
        );
    }
}

#[test]
fn write_pads_words_to_digits_of_width() {
    for (width, word) in [(1usize, "1"), (4, "1"), (5, "01"), (8, "01"), (9, "001"), (64, "0000000000000001"), (125, "00000000000000000000000000000001"), (128, "00000000000000000000000000000001")] {
        let mut mif = Mif::new(width).unwrap();
        mif.push(1, 1).unwrap();
        let mut lines = String::new();
        mif.write(&mut lines, false);
        assert_eq!(
            lines,
            format!(
                "WIDTH={};\nDEPTH=1;\n\nADDRESS_RADIX=HEX;\nDATA_RADIX=HEX;\n\nCONTENT BEGIN\n\t0  :   {};\nEND;\n",
                width, word
            )
        );
    }
}

#[test]
fn write_full_width_word_in_capital_digits() {
    let mut mif = Mif::new(128).unwrap();
    mif.push(0x0123_4567_89AB_CDEF_0123_4567_89AB_CDEF, 1).unwrap();
    mif.push(u128::MAX, 1).unwrap();
    let mut lines = String::new();
    mif.write(&mut lines, false);
    assert_eq!(
        lines,
        "WIDTH=128;\nDEPTH=2;\n\nADDRESS_RADIX=HEX;\nDATA_RADIX=HEX;\n\nCONTENT BEGIN\n\
         \t0  :   0123456789ABCDEF0123456789ABCDEF;\n\
         \t1  :   FFFFFFFFFFFFFFFFFFFFFFFFFFFFFFFF;\n\
         END;\n"
    );
}

#[test]
fn write_is_reproducible() {
    let mut mif = Mif::new(16).unwrap();
    let data = [1u8, 2, 3, 4, 3, 4, 5, 6];
    let mut bytes = &data[..];
    mif.read(&mut bytes, 4, First::Msb).unwrap();
    let mut first = String::new();
    mif.write(&mut first, true);
    let mut second = String::new();
    mif.write(&mut second, true);
    assert_eq!(first, second);
    assert_eq!(
        first,
        "WIDTH=16;\nDEPTH=4;\n\nADDRESS_RADIX=HEX;\nDATA_RADIX=HEX;\n\nCONTENT BEGIN\n\
         \t0  :   0102;\n\t[1..2]  :   0304;\n\t3  :   0506;\nEND;\n"
    );
}

#[test]
fn clone_is_equal_and_apart() {
    let mut mif = Mif::new(16).unwrap();
    mif.area(String::from("a.rom"));
    mif.push(1, 2).unwrap();
    mif.push(2, 1).unwrap();
    let copy = mif.clone();
    assert_eq!(copy, mif);
    mif.push(3, 1).unwrap();
    assert_ne!(copy, mif);
    assert_eq!(copy.words(), &vec![(1, 2), (2, 1)]);
    assert_eq!(copy.depth(), 3);
    assert_eq!(copy.areas(), &vec![(0, String::from("a.rom"))]);
}

fn parse_content(lines: &str) -> Vec<(usize, usize, u128)> {
    let begin = lines.find("CONTENT BEGIN\n").unwrap() + "CONTENT BEGIN\n".len();
    let end = lines.rfind("END;\n").unwrap();
    let mut runs = Vec::new();
    for line in lines[begin..end].lines() {
        let line = line.strip_prefix('\t').unwrap().strip_suffix(';').unwrap();
        let (addresses, word) = line.split_once("  :   ").unwrap();
        let word = u128::from_str_radix(word, 16).unwrap();
        let (first, last) = match addresses.strip_prefix('[') {
            Some(range) => {
                let (first, last) = range.strip_suffix(']').unwrap().split_once("..").unwrap();
                (usize::from_str_radix(first, 16).unwrap(), usize::from_str_radix(last, 16).unwrap())
            }
            None => {
                let address = usize::from_str_radix(addresses, 16).unwrap();
                (address, address)
            }
        };
        runs.push((first, last, word));
    }
    runs
}

#[test]
fn written_runs_give_back_pushed_words() {
    let pushes = [(9u128, 1usize), (9, 2), (0, 30), (0xFFFF, 1), (0xFFFE, 1), (0xFFFE, 300), (1, 1)];
    let mut mif = Mif::new(16).unwrap();
    let mut all = Vec::new();
    for &(word, bulk) in &pushes {
        mif.push(word, bulk).unwrap();
        for _ in 0..bulk {
            all.push(word);
        }
    }
    let mut lines = String::new();
    mif.write(&mut lines, true);
    let mut back = Vec::new();
    for (first, last, word) in parse_content(&lines) {
        assert_eq!(first, back.len());
        assert!(first <= last);
        for _ in first..=last {
            back.push(word);
        }
    }
    assert_eq!(back, all);
    assert_eq!(back.len(), mif.depth());
}
