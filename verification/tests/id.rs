use scrunch::id::{decode, encode, BYTES};

#[derive(Debug, Eq, PartialEq, Clone, Copy)]
struct FooID {
    id: [u8; BYTES],
}

impl FooID {
    fn new(id: [u8; BYTES]) -> Self {
        Self { id }
    }

    fn from_human_readable(s: &str) -> Option<Self> {
        let prefix = "foo:";
        if !s.starts_with(prefix) {
            return None;
        }
        decode(&s[prefix.len()..]).map(FooID::new)
    }

    fn human_readable(&self) -> String {
        let readable = "foo:".to_string();
        readable + &encode(&self.id)
    }
}

#[test]
fn id_bytes_is_sixteen() {
    assert_eq!(BYTES, 16);
}

#[test]
fn encode_id() {
    let id = [0x55u8; BYTES];
    assert_eq!(encode(&id), "55555555-5555-5555-5555-555555555555");
}

#[test]
fn decode_id() {
    let id = [0x55u8; BYTES];
    assert_eq!(decode("55555555-5555-5555-5555-555555555555"), Some(id));
}

#[test]
fn generate_id() {
    let id = FooID::new([0xffu8; BYTES]);
    assert_eq!(
        "foo:ffffffff-ffff-ffff-ffff-ffffffffffff",
        id.human_readable()
    );
    assert_eq!(
        Some(id),
        FooID::from_human_readable("foo:ffffffff-ffff-ffff-ffff-ffffffffffff")
    );
}

#[test]
fn encode_mixed_bytes() {
    let id: [u8; BYTES] = [
        0x00, 0x01, 0x2a, 0xff, 0x10, 0x9c, 0xde, 0xf0, 0x7b, 0x08, 0x99, 0xa0, 0x0f, 0x42, 0x63,
        0x1d,
    ];
    assert_eq!(encode(&id), "00012aff-109c-def0-7b08-99a00f42631d");
}

#[test]
fn decode_round_trips_encode() {
    let id: [u8; BYTES] = [
        0x00, 0x01, 0x2a, 0xff, 0x10, 0x9c, 0xde, 0xf0, 0x7b, 0x08, 0x99, 0xa0, 0x0f, 0x42, 0x63,
        0x1d,
    ];
    assert_eq!(decode(&encode(&id)), Some(id));
}

#[test]
fn decode_accepts_uppercase() {
    let id = [0xabu8; BYTES];
    assert_eq!(decode("ABABABAB-ABAB-ABAB-ABAB-ABABABABABAB"), Some(id));
}

#[test]
fn decode_rejects_malformed() {
    // too short
    assert_eq!(None, decode("55555555-5555-5555-5555-55555555555"));
    // too long
    assert_eq!(None, decode("55555555-5555-5555-5555-5555555555555"));
    // a dash out of place
    assert_eq!(None, decode("555555555-555-5555-5555-555555555555"));
    // a non-hex character
    assert_eq!(None, decode("5555555g-5555-5555-5555-555555555555"));
    // empty
    assert_eq!(None, decode(""));
}
