use scrunch::strings::{
    ConstantLength, Guacamole, IndependentStrings, RandomSelect, StringGuacamole,
};

#[test]
fn constant_length_alphanumeric() {
    let gen = IndependentStrings {
        length: ConstantLength { constant: 8 },
        select: RandomSelect {},
    };
    let mut guac = Guacamole::new(0xf00d);
    let s: String = gen.guacamole(&mut guac);
    assert_eq!(8, s.len());
    assert!(s.chars().all(|c| c.is_ascii_alphanumeric()));
}

#[test]
fn same_seed_same_string() {
    let gen = IndependentStrings {
        length: ConstantLength { constant: 12 },
        select: RandomSelect {},
    };
    let mut first = Guacamole::new(0xcafe);
    let mut second = Guacamole::new(0xcafe);
    let a: String = gen.guacamole(&mut first);
    let b: String = gen.guacamole(&mut second);
    assert_eq!(a, b);
    assert_eq!(12, a.len());
}

#[test]
fn zero_length_string() {
    let gen = IndependentStrings {
        length: ConstantLength { constant: 0 },
        select: RandomSelect {},
    };
    let mut guac = Guacamole::new(0x1eaf);
    let s: String = gen.guacamole(&mut guac);
    assert_eq!("", s);
}
