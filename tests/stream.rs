use zeronbt::view::BeSlice;
use zeronbt::{FsmResult, NbtFragment, NbtFsm};

const INT_BYTES: [u8; 8] = *b"12345678";

/// Feeds the parser one more byte each time it asks for more.
#[derive(Debug)]
struct FragmentsWithStreamedInput<'i> {
    input: &'i [u8],
    start: usize,
    end: usize,
    fsm: NbtFsm<'i>,
}

impl<'d> FragmentsWithStreamedInput<'d> {
    fn new(input: &'d [u8]) -> Self {
        Self {
            input,
            start: 0,
            end: 0,
            fsm: NbtFsm::new(),
        }
    }
}

impl<'d> Iterator for FragmentsWithStreamedInput<'d> {
    type Item = NbtFragment<'d>;

    fn next(&mut self) -> Option<Self::Item> {
        loop {
            match self
                .fsm
                .next_fragment()
                .expect("NBT Parsing returned an error on valid input")
            {
                FsmResult::Needs(_) => {
                    if self.end == self.input.len() {
                        return None;
                    };
                    self.start += self.fsm.consumed();
                    self.end += 1;
                    let temp = std::mem::take(&mut self.fsm);
                    self.fsm = temp.with_data(&self.input[self.start..self.end]);
                }
                FsmResult::Found(fragment) => break Some(fragment),
            }
        }
    }
}

fn push_name(input: &mut Vec<u8>, name: &[u8]) {
    input.extend_from_slice(&(name.len() as u16).to_be_bytes());
    input.extend_from_slice(name);
}

fn expect_name<'f>(mut fragments: impl Iterator<Item = NbtFragment<'f>>, name: &[u8]) {
    let mut pos = 0;
    while pos != name.len() {
        let frame = fragments
            .next()
            .expect("Expected more NameFrame's with the name");
        let NbtFragment::NameFrame(data) = frame else {
            panic!("Found invalid NBT Fragment when parsing name: {frame:?}");
        };
        let rem = &name[pos..];
        assert!(rem.starts_with(data));
        pos += data.len();
    }
    assert_eq!(Some(NbtFragment::NameFrame(&[])), fragments.next())
}

enum Expect<'d> {
    Fragment(NbtFragment<'d>),
    Name(&'d [u8]),
}

impl<'d> Expect<'d> {
    fn expect<'f>(&self, mut fragments: impl Iterator<Item = NbtFragment<'f>>) {
        match self {
            Expect::Fragment(expected) => {
                let fragment = fragments.next();
                assert_eq!(Some(expected), fragment.as_ref());
            }
            Expect::Name(name) => {
                expect_name(&mut fragments, name);
            }
        }
    }
}

fn scalar_fragments() -> Vec<Expect<'static>> {
    vec![
        Expect::Name(b"BYTE"),
        Expect::Fragment(NbtFragment::Byte(INT_BYTES[0] as i8)),
        Expect::Name(b"SHORT"),
        Expect::Fragment(NbtFragment::Short(i16::from_be_bytes(
            INT_BYTES[..2].try_into().unwrap(),
        ))),
        Expect::Name(b"INT"),
        Expect::Fragment(NbtFragment::Int(i32::from_be_bytes(
            INT_BYTES[..4].try_into().unwrap(),
        ))),
        Expect::Name(b"LONG"),
        Expect::Fragment(NbtFragment::Long(i64::from_be_bytes(
            INT_BYTES[..8].try_into().unwrap(),
        ))),
        Expect::Name(b"FLOAT"),
        Expect::Fragment(NbtFragment::Float(
            f32::from_be_bytes(INT_BYTES[..4].try_into().unwrap()).to_bits(),
        )),
        Expect::Name(b"DOUBLE"),
        Expect::Fragment(NbtFragment::Double(
            f64::from_be_bytes(INT_BYTES[..8].try_into().unwrap()).to_bits(),
        )),
    ]
}

fn push_scalars(input: &mut Vec<u8>) {
    let mut num = |tag, name: &[u8], len| {
        input.push(tag);
        push_name(input, name);
        input.extend_from_slice(&INT_BYTES[..len]);
    };
    num(1, b"BYTE", 1);
    num(2, b"SHORT", 2);
    num(3, b"INT", 4);
    num(4, b"LONG", 8);
    num(5, b"FLOAT", 4);
    num(6, b"DOUBLE", 8);
}

#[test]
fn read_numerics() {
    let mut complete_input = vec![0];
    push_scalars(&mut complete_input);
    let mut expected = vec![Expect::Fragment(NbtFragment::End)];
    expected.extend(scalar_fragments());

    let mut fragments = FragmentsWithStreamedInput::new(&complete_input);
    for expected in expected {
        expected.expect(&mut fragments);
    }
    assert!(fragments.next().is_none())
}

#[test]
fn read_byte_array() {
    let mut complete_input = vec![7];
    let name = b"testByteArray";
    push_name(&mut complete_input, name);
    let len: i32 = 1024 * 4;
    complete_input.extend_from_slice(&len.to_be_bytes());
    let bytearr: Vec<u8> = (0..len).map(|n| n as u8).collect();
    complete_input.extend_from_slice(&bytearr);
    let mut fragments = FragmentsWithStreamedInput::new(&complete_input);

    let expected = [Expect::Name(b"testByteArray")];

    for expected in expected {
        expected.expect(&mut fragments);
    }

    let mut bytearr_position = 0;
    for frame in &mut fragments {
        let NbtFragment::ByteArrayFrame(data) = frame else {
            panic!("Found invalid NBT Fragment when parsing byte array: {frame:?}");
        };
        if data.is_empty() {
            // End of array
            break;
        }
        let rem = &bytearr[bytearr_position..];
        assert!(rem.starts_with(data));
        bytearr_position += data.len();
    }
    assert!(bytearr_position == bytearr.len());
    assert!(fragments.next().is_none());
}

#[test]
fn read_string() {
    let mut complete_input = vec![8];
    let name = b"testString";
    complete_input.extend_from_slice(&(name.len() as u16).to_be_bytes());
    complete_input.extend_from_slice(name);
    let len: u16 = 1024 * 4;
    complete_input.extend_from_slice(&len.to_be_bytes());
    let string_data: Vec<u8> = ('a'..='a')
        .cycle()
        .flat_map(|c| c.to_string().into_bytes())
        .take(len.into())
        .collect();
    complete_input.extend_from_slice(&string_data);
    let mut fragments = FragmentsWithStreamedInput::new(&complete_input);

    let expected = [Expect::Name(b"testString")];

    for expected in expected {
        expected.expect(&mut fragments);
    }
    let mut data_position = 0;
    for frame in &mut fragments {
        let NbtFragment::StringFrame(data) = frame else {
            panic!("Found invalid NBT Fragment when parsing string: {frame:?}");
        };
        if data.is_empty() {
            // End of array
            break;
        }
        let rem = &string_data[data_position..];
        assert!(
            rem.starts_with(data),
            "rem = {rem:?}, data = {data:?}, pos = {data_position}"
        );
        data_position += data.len();
    }
    assert!(data_position == string_data.len());
    assert!(fragments.next().is_none());
}

fn cycled_ints() -> Vec<i32> {
    INT_BYTES
        .windows(4)
        .cycle()
        .map(|bytes| i32::from_be_bytes(bytes.try_into().unwrap()))
        .take(128)
        .collect()
}

#[test]
fn read_list() {
    let mut complete_input = vec![9];
    push_name(&mut complete_input, b"testIntList");
    let ints = cycled_ints();
    // Int tag
    complete_input.push(3);
    // Len
    complete_input.extend_from_slice(&(ints.len() as i32).to_be_bytes());
    // Body
    for &int in &ints {
        complete_input.extend_from_slice(&int.to_be_bytes());
    }

    let mut fragments = FragmentsWithStreamedInput::new(&complete_input);
    let header = [Expect::Name(b"testIntList")];
    for expect in header {
        expect.expect(&mut fragments);
    }
    for int in ints {
        let bytes = int.to_be_bytes();
        Expect::Fragment(NbtFragment::IntListFrame(BeSlice::new(&bytes).unwrap()))
            .expect(&mut fragments);
    }
    assert!(fragments.next().is_none())
}

#[test]
fn read_intarr() {
    let mut complete_input = vec![11];
    push_name(&mut complete_input, b"testIntArray");
    let ints = cycled_ints();
    // Len
    complete_input.extend_from_slice(&(ints.len() as i32).to_be_bytes());
    // Body
    for &int in &ints {
        complete_input.extend_from_slice(&int.to_be_bytes());
    }

    let mut fragments = FragmentsWithStreamedInput::new(&complete_input);
    let header = [Expect::Name(b"testIntArray")];
    for expect in header {
        expect.expect(&mut fragments);
    }
    for int in ints {
        let bytes = int.to_be_bytes();
        Expect::Fragment(NbtFragment::IntListFrame(BeSlice::new(&bytes).unwrap()))
            .expect(&mut fragments);
    }
    assert!(fragments.next().is_none())
}

#[test]
fn read_compound() {
    let mut complete_input = vec![10];
    push_name(&mut complete_input, b"testCompound");
    push_scalars(&mut complete_input);
    complete_input.push(0);
    let mut expected = vec![
        Expect::Fragment(NbtFragment::CompoundTag),
        Expect::Name(b"testCompound"),
    ];
    expected.extend(scalar_fragments());
    expected.push(Expect::Fragment(NbtFragment::End));
    let mut fragments = FragmentsWithStreamedInput::new(&complete_input);
    for expect in expected {
        expect.expect(&mut fragments);
    }
    assert!(fragments.next().is_none());
}
