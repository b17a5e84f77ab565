use zeronbt::buf::Buffer;
use zeronbt::error::NbtParseError;
use zeronbt::tag::NbtTag;
use zeronbt::view::BeSlice;
use zeronbt::{FsmResult, NbtFragment, NbtFsm};

/// An owned fragment, with consecutive payload frames of one kind joined.
#[derive(Debug, Clone, PartialEq)]
enum Event {
    End,
    CompoundTag,
    Byte(i8),
    Short(i16),
    Int(i32),
    Long(i64),
    Float(u32),
    Double(u64),
    Name(Vec<u8>),
    Str(Vec<u8>),
    Bytes(Vec<u8>),
    Shorts(Vec<u8>),
    Ints(Vec<u8>),
    Longs(Vec<u8>),
    Floats(Vec<u8>),
    Doubles(Vec<u8>),
}

fn push_event(events: &mut Vec<Event>, fragment: NbtFragment<'_>) {
    let event = match fragment {
        NbtFragment::End => Event::End,
        NbtFragment::CompoundTag => Event::CompoundTag,
        NbtFragment::Byte(v) => Event::Byte(v),
        NbtFragment::Short(v) => Event::Short(v),
        NbtFragment::Int(v) => Event::Int(v),
        NbtFragment::Long(v) => Event::Long(v),
        NbtFragment::Float(v) => Event::Float(v),
        NbtFragment::Double(v) => Event::Double(v),
        NbtFragment::NameFrame(b) => Event::Name(b.to_vec()),
        NbtFragment::StringFrame(b) => Event::Str(b.to_vec()),
        NbtFragment::ByteArrayFrame(b) => Event::Bytes(b.to_vec()),
        NbtFragment::ShortListFrame(v) => Event::Shorts(v.raw_bytes().to_vec()),
        NbtFragment::IntListFrame(v) => Event::Ints(v.raw_bytes().to_vec()),
        NbtFragment::LongListFrame(v) => Event::Longs(v.raw_bytes().to_vec()),
        NbtFragment::FloatListFrame(v) => Event::Floats(v.raw_bytes().to_vec()),
        NbtFragment::DoubleListFrame(v) => Event::Doubles(v.raw_bytes().to_vec()),
    };
    if let Some(last) = events.last_mut() {
        let joined = match (last, &event) {
            (Event::Name(a), Event::Name(b))
            | (Event::Str(a), Event::Str(b))
            | (Event::Bytes(a), Event::Bytes(b))
                if !a.is_empty() && !b.is_empty() =>
            {
                a.extend_from_slice(b);
                true
            }
            (Event::Shorts(a), Event::Shorts(b))
            | (Event::Ints(a), Event::Ints(b))
            | (Event::Longs(a), Event::Longs(b))
            | (Event::Floats(a), Event::Floats(b))
            | (Event::Doubles(a), Event::Doubles(b)) => {
                a.extend_from_slice(b);
                true
            }
            _ => false,
        };
        if joined {
            return;
        }
    }
    events.push(event);
}

/// Parses `input`, letting the parser see `chunk` more bytes each time it asks.
fn drive(input: &[u8], chunk: usize) -> Result<Vec<Event>, NbtParseError> {
    let mut fsm = NbtFsm::new();
    let mut events = vec![];
    let (mut start, mut end) = (0, 0);
    loop {
        match fsm.next_fragment()? {
            FsmResult::Found(fragment) => push_event(&mut events, fragment),
            FsmResult::Needs(_) => {
                if end == input.len() {
                    return Ok(events);
                }
                start += fsm.consumed();
                end = (end + chunk).min(input.len());
                fsm = fsm.with_data(&input[start..end]);
            }
        }
    }
}

fn named(out: &mut Vec<u8>, tag: u8, name: &[u8]) {
    out.push(tag);
    out.extend_from_slice(&(name.len() as u16).to_be_bytes());
    out.extend_from_slice(name);
}

fn rich_input() -> Vec<u8> {
    let mut b = vec![];
    named(&mut b, 10, b"root");
    // a list of two compounds
    named(&mut b, 9, b"people");
    b.push(10);
    b.extend_from_slice(&2i32.to_be_bytes());
    for (who, age) in [(&b"ann"[..], 31i32), (&b"bob"[..], 42)] {
        named(&mut b, 8, b"name");
        b.extend_from_slice(&(who.len() as u16).to_be_bytes());
        b.extend_from_slice(who);
        named(&mut b, 3, b"age");
        b.extend_from_slice(&age.to_be_bytes());
        b.push(0);
    }
    named(&mut b, 12, b"longs");
    b.extend_from_slice(&3i32.to_be_bytes());
    for v in [1i64, -2, 3] {
        b.extend_from_slice(&v.to_be_bytes());
    }
    // a list of two lists of shorts
    named(&mut b, 9, b"grid");
    b.push(9);
    b.extend_from_slice(&2i32.to_be_bytes());
    for row in [[1i16, 2], [3, 4]] {
        b.push(2);
        b.extend_from_slice(&2i32.to_be_bytes());
        for v in row {
            b.extend_from_slice(&v.to_be_bytes());
        }
    }
    named(&mut b, 7, b"blob");
    b.extend_from_slice(&5i32.to_be_bytes());
    b.extend_from_slice(&[9, 8, 7, 6, 5]);
    named(&mut b, 6, b"pi");
    b.extend_from_slice(&std::f64::consts::PI.to_be_bytes());
    named(&mut b, 9, b"floats");
    b.push(5);
    b.extend_from_slice(&2i32.to_be_bytes());
    b.extend_from_slice(&1.5f32.to_be_bytes());
    b.extend_from_slice(&(-0.25f32).to_be_bytes());
    b.push(0);
    b
}

#[test]
fn chunk_size_does_not_change_the_fragments() {
    let input = rich_input();
    let whole = drive(&input, input.len()).unwrap();
    assert_eq!(drive(&input, 1).unwrap(), whole);
    assert_eq!(drive(&input, 7).unwrap(), whole);
    assert_eq!(whole.first(), Some(&Event::CompoundTag));
    assert_eq!(whole.last(), Some(&Event::End));
    assert!(whole.contains(&Event::Str(b"bob".to_vec())));
    assert!(whole.contains(&Event::Int(42)));
    assert!(whole.contains(&Event::Double(std::f64::consts::PI.to_bits())));
    let mut shorts = vec![];
    for v in [1i16, 2, 3, 4] {
        shorts.extend_from_slice(&v.to_be_bytes());
    }
    assert!(whole.contains(&Event::Shorts(shorts)));
}

#[test]
fn empty_input_needs_one_byte() {
    let mut fsm = NbtFsm::new();
    assert_eq!(fsm.next_fragment(), Ok(FsmResult::Needs(1)));
    assert_eq!(fsm.consumed(), 0);
}

#[test]
fn invalid_tag_is_an_error() {
    let input = [13u8];
    let mut fsm = NbtFsm::new().with_data(&input);
    assert_eq!(fsm.next_fragment(), Err(NbtParseError::InvalidTag(13)));
    assert_eq!(fsm.consumed(), 1);
}

#[test]
fn invalid_list_element_tag_is_an_error() {
    let input = [9u8, 0, 0, 20];
    assert_eq!(drive(&input, 1), Err(NbtParseError::InvalidTag(20)));
}

#[test]
fn negative_byte_array_length_is_an_error() {
    let input = [7u8, 0, 1, b'a', 0xff, 0xff, 0xff, 0xff, 1, 2];
    let mut fsm = NbtFsm::new().with_data(&input);
    assert_eq!(fsm.next_fragment(), Ok(FsmResult::Found(NbtFragment::NameFrame(b"a"))));
    assert_eq!(fsm.next_fragment(), Ok(FsmResult::Found(NbtFragment::NameFrame(&[]))));
    assert_eq!(fsm.next_fragment(), Err(NbtParseError::InvalidLen(-1)));
    assert_eq!(fsm.consumed(), 8);
}

#[test]
fn negative_list_length_is_an_error() {
    let input = [9u8, 0, 0, 3, 0x80, 0, 0, 0];
    assert_eq!(drive(&input, 3), Err(NbtParseError::InvalidLen(i32::MIN)));
}

#[test]
fn needs_reports_the_missing_width() {
    let input = [3u8, 0, 0, 0, 0, 0, 7];
    let mut fsm = NbtFsm::new().with_data(&input[..1]);
    assert_eq!(fsm.next_fragment(), Ok(FsmResult::Needs(2)));
    assert_eq!(fsm.consumed(), 1);
    let mut fsm = fsm.with_data(&input[1..3]);
    assert_eq!(fsm.next_fragment(), Ok(FsmResult::Found(NbtFragment::NameFrame(&[]))));
    assert_eq!(fsm.next_fragment(), Ok(FsmResult::Needs(4)));
    let mut fsm = fsm.with_data(&input[3..]);
    assert_eq!(fsm.next_fragment(), Ok(FsmResult::Found(NbtFragment::Int(7))));
    assert_eq!(fsm.consumed(), 4);
    assert_eq!(fsm.next_fragment(), Ok(FsmResult::Needs(1)));
}

#[test]
fn consumed_never_decreases_within_a_buffer() {
    let input = rich_input();
    let mut fsm = NbtFsm::new().with_data(&input);
    let mut last = 0;
    loop {
        let r = fsm.next_fragment().unwrap();
        let now = fsm.consumed();
        assert!(last <= now && now <= input.len());
        last = now;
        if let FsmResult::Needs(_) = r {
            break;
        }
    }
    assert_eq!(last, input.len());
}

#[test]
fn list_of_bytes_is_read_in_bulk() {
    let input = [9u8, 0, 0, 1, 0, 0, 0, 3, 5, 6, 7];
    let mut fsm = NbtFsm::new().with_data(&input);
    assert_eq!(fsm.next_fragment(), Ok(FsmResult::Found(NbtFragment::NameFrame(&[]))));
    assert_eq!(
        fsm.next_fragment(),
        Ok(FsmResult::Found(NbtFragment::ByteArrayFrame(&[5, 6, 7])))
    );
    assert_eq!(fsm.next_fragment(), Ok(FsmResult::Needs(1)));
    assert_eq!(fsm.consumed(), input.len());
}

#[test]
fn list_of_end_elements_ends_at_once() {
    let input = [9u8, 0, 0, 0];
    let mut fsm = NbtFsm::new().with_data(&input);
    assert_eq!(fsm.next_fragment(), Ok(FsmResult::Found(NbtFragment::NameFrame(&[]))));
    assert_eq!(fsm.next_fragment(), Ok(FsmResult::Found(NbtFragment::End)));
}

#[test]
fn list_of_byte_arrays_reads_its_length() {
    let input = [9u8, 0, 0, 7, 0, 0, 0, 2, 0, 0, 0, 1, 0xaa, 0, 0, 0, 0];
    let mut fsm = NbtFsm::new().with_data(&input);
    let mut frames = vec![];
    while let Ok(FsmResult::Found(f)) = fsm.next_fragment() {
        frames.push(f);
    }
    assert_eq!(
        frames,
        vec![
            NbtFragment::NameFrame(&[]),
            NbtFragment::ByteArrayFrame(&[0xaa]),
            NbtFragment::ByteArrayFrame(&[]),
            NbtFragment::ByteArrayFrame(&[]),
        ]
    );
    assert_eq!(fsm.consumed(), input.len());
}

#[test]
fn empty_int_list_yields_nothing() {
    let mut input = vec![];
    named(&mut input, 10, b"c");
    named(&mut input, 9, b"e");
    input.push(3);
    input.extend_from_slice(&0i32.to_be_bytes());
    named(&mut input, 1, b"b");
    input.push(0xff);
    input.push(0);
    let events = drive(&input, 2).unwrap();
    assert_eq!(
        events,
        vec![
            Event::CompoundTag,
            Event::Name(b"c".to_vec()),
            Event::Name(vec![]),
            Event::Name(b"e".to_vec()),
            Event::Name(vec![]),
            Event::Name(b"b".to_vec()),
            Event::Name(vec![]),
            Event::Byte(-1),
            Event::End,
        ]
    );
}

#[test]
fn long_name_length_is_unsigned() {
    let mut input = vec![8u8, 0x80, 0x00];
    input.extend(std::iter::repeat(b'n').take(0x8000));
    input.extend_from_slice(&[0, 1, b'v']);
    let events = drive(&input, 1000).unwrap();
    assert_eq!(
        events,
        vec![
            Event::Name(vec![b'n'; 0x8000]),
            Event::Name(vec![]),
            Event::Str(b"v".to_vec()),
            Event::Str(vec![]),
        ]
    );
}

#[test]
fn float_list_frames_carry_the_bits() {
    let input = [9u8, 0, 0, 5, 0, 0, 0, 1, 0x3f, 0x80, 0, 0];
    let mut fsm = NbtFsm::new().with_data(&input);
    assert_eq!(fsm.next_fragment(), Ok(FsmResult::Found(NbtFragment::NameFrame(&[]))));
    let Ok(FsmResult::Found(NbtFragment::FloatListFrame(view))) = fsm.next_fragment() else {
        panic!("expected a float list frame");
    };
    assert_eq!(view.len(), 1);
    assert_eq!(view.get(0).map(f32::from_bits), Some(1.0));
}

#[test]
fn int_list_and_int_array_give_the_same_fragments() {
    let list = [9u8, 0, 1, b'a', 3, 0, 0, 0, 1, 0, 0, 0, 5];
    let array = [11u8, 0, 1, b'a', 0, 0, 0, 1, 0, 0, 0, 5];
    let five = 5i32.to_be_bytes();
    let expected = vec![
        Event::Name(b"a".to_vec()),
        Event::Name(vec![]),
        Event::Ints(five.to_vec()),
    ];
    assert_eq!(drive(&list, 1).unwrap(), expected);
    assert_eq!(drive(&array, 1).unwrap(), expected);
    let frame = BeSlice::<i32>::new(&five).unwrap();
    assert_eq!(frame.get(0), Some(5));
}

#[test]
fn all_scalars_at_once() {
    let mut input = vec![0u8];
    named(&mut input, 1, b"BYTE");
    input.push(0x31);
    named(&mut input, 4, b"LONG");
    input.extend_from_slice(b"12345678");
    let events = drive(&input, input.len()).unwrap();
    assert_eq!(
        events,
        vec![
            Event::End,
            Event::Name(b"BYTE".to_vec()),
            Event::Name(vec![]),
            Event::Byte(0x31),
            Event::Name(b"LONG".to_vec()),
            Event::Name(vec![]),
            Event::Long(0x3132333435363738),
        ]
    );
}

#[test]
fn tag_bytes_decode() {
    assert_eq!(NbtTag::try_from(0u8), Ok(NbtTag::End));
    assert_eq!(NbtTag::try_from(10u8), Ok(NbtTag::Compound));
    assert_eq!(NbtTag::try_from(12u8), Ok(NbtTag::LongArray));
    assert_eq!(NbtTag::try_from(13u8), Err(NbtParseError::InvalidTag(13)));
    assert_eq!(NbtTag::try_from(255u8), Err(NbtParseError::InvalidTag(255)));
}

#[test]
fn buffer_consumes_only_what_is_there() {
    let data = [1u8, 2, 3];
    let mut buf = Buffer::new(&data);
    assert_eq!(buf.peek(2), Some(&data[..2]));
    assert_eq!(buf.peek(4), None);
    assert_eq!(buf.consume(2), Some(&data[..2]));
    assert_eq!(buf.consumed(), &data[..2]);
    assert_eq!(buf.available(), &data[2..]);
    assert_eq!(buf.consume(2), None);
    assert_eq!(buf.consumed().len(), 2);
    assert_eq!(buf.peek_arr::<2>(), None);
    assert_eq!(buf.consume_arr::<1>(), Some(&data[2..]));
    assert_eq!(buf.available().len(), 0);
}

#[test]
fn default_parser_is_a_new_one() {
    assert_eq!(NbtFsm::default(), NbtFsm::new());
}

#[test]
fn map_found_maps_only_found_values() {
    assert_eq!(FsmResult::Found(2).map_found(|v: i32| v * 2), FsmResult::Found(4));
    assert_eq!(FsmResult::<i32>::Needs(3).map_found(|v: i32| v * 2), FsmResult::Needs(3));
}

#[test]
fn fragments_are_the_bytes_just_consumed() {
    let input = rich_input();
    let mut fsm = NbtFsm::new().with_data(&input);
    let mut seen = 0;
    while let Ok(FsmResult::Found(fragment)) = fsm.next_fragment() {
        let end = fsm.consumed();
        let tail = |w: usize| &input[end - w..end];
        match fragment {
            NbtFragment::Byte(v) => assert_eq!(tail(1), &v.to_be_bytes()),
            NbtFragment::Short(v) => assert_eq!(tail(2), &v.to_be_bytes()),
            NbtFragment::Int(v) => assert_eq!(tail(4), &v.to_be_bytes()),
            NbtFragment::Long(v) => assert_eq!(tail(8), &v.to_be_bytes()),
            NbtFragment::Float(v) => assert_eq!(tail(4), &v.to_be_bytes()),
            NbtFragment::Double(v) => assert_eq!(tail(8), &v.to_be_bytes()),
            NbtFragment::NameFrame(b) | NbtFragment::StringFrame(b) | NbtFragment::ByteArrayFrame(b) => {
                assert_eq!(tail(b.len()), b)
            }
            NbtFragment::ShortListFrame(v) => assert_eq!(tail(v.raw_bytes().len()), v.raw_bytes()),
            NbtFragment::IntListFrame(v) => assert_eq!(tail(v.raw_bytes().len()), v.raw_bytes()),
            NbtFragment::LongListFrame(v) => assert_eq!(tail(v.raw_bytes().len()), v.raw_bytes()),
            NbtFragment::FloatListFrame(v) => assert_eq!(tail(v.raw_bytes().len()), v.raw_bytes()),
            NbtFragment::DoubleListFrame(v) => assert_eq!(tail(v.raw_bytes().len()), v.raw_bytes()),
            NbtFragment::End | NbtFragment::CompoundTag => {}
        }
        seen += 1;
    }
    assert!(seen > 20);
}
