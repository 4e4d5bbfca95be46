use mif::{Error, First};
use std::str::FromStr;

#[test]
fn first_from_str_knows_lsb_and_msb() {
    assert_eq!(First::from_str("lsb"), Ok(First::Lsb));
    assert_eq!(First::from_str("msb"), Ok(First::Msb));
    assert_eq!("lsb".parse::<First>(), Ok(First::Lsb));
    assert_eq!("msb".parse::<First>(), Ok(First::Msb));
}

#[test]
fn first_from_str_refuses_other_names() {
    for name in ["", "l", "lsb ", "LSB", "Msb", "lsc", "xsb", "lxb", "msbb", "little", "l\u{e4}b", "\u{1F600}sb"] {
        assert_eq!(First::from_str(name), Err(Error::NeitherLsbNorMsbFirst), "name {:?}", name);
    }
}

#[test]
fn first_defaults_to_lsb() {
    assert_eq!(First::default(), First::Lsb);
}
