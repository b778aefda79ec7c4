use quick_pickle::collect::{Step, FRAME_SPAWN_SIZE};
use quick_pickle::merge::{join_frames, merge_events, strip_positions};
use quick_pickle::errors::Error;
use quick_pickle::reader::{Event, Reader};

/// The events of `data` as one reader decodes them, frame markers and the
/// final stop left out.
fn sequential(data: &[u8]) -> Result<Vec<Event>, Error> {
    let mut reader = Reader::new(data);
    let mut buf = Vec::new();
    let mut events = Vec::new();
    loop {
        match reader.read_event(&mut buf)? {
            Event::Stop => return Ok(events),
            Event::Frame(_) => (),
            e => events.push(e),
        }
        buf.clear();
    }
}

/// A frame marker and `len` bytes of opcodes: short strings of 253 bytes and
/// two-byte integers to fill up.
fn frame(len: usize, seed: u8) -> Vec<u8> {
    let mut out = vec![0x95];
    out.extend_from_slice(&(len as u64).to_le_bytes());
    let mut left = len;
    let mut n = seed;
    while left >= 255 + 2 {
        out.push(0x55);
        out.push(253);
        out.extend(std::iter::repeat(n).take(253));
        left -= 255;
        n = n.wrapping_add(1);
    }
    while left >= 4 {
        out.push(0x4b);
        out.push(n);
        left -= 2;
        n = n.wrapping_add(1);
    }
    while left > 0 {
        out.push(if left % 2 == 0 { 0x28 } else { 0x30 });
        left -= 1;
    }
    assert_eq!(out.len(), len + 9);
    out
}

#[test]
fn threshold_is_128_kib() {
    assert_eq!(FRAME_SPAWN_SIZE, 131072);
}

#[test]
fn frames_around_the_threshold_decode_as_in_sequence() {
    let t = FRAME_SPAWN_SIZE as usize;
    for sizes in [
        vec![t - 1],
        vec![t],
        vec![t + 1],
        vec![t - 1, t, t + 1],
        vec![t + 1, 10, t, 0, t - 1, 2 * t + 3],
        vec![t, t],
    ] {
        let mut data = vec![0x80, 4];
        for (i, size) in sizes.iter().enumerate() {
            data.extend(frame(*size, i as u8));
            data.extend_from_slice(b"K\x07");
        }
        data.push(b'.');
        let expected = sequential(&data).unwrap();
        let mut reader = Reader::new(&data);
        let events = reader.par_collect_events().unwrap();
        assert_eq!(events.len(), expected.len());
        assert!(events == expected, "sizes {sizes:?}");
        assert_eq!(reader.pos(), data.len());
    }
}

#[test]
fn frames_without_a_final_stop() {
    let t = FRAME_SPAWN_SIZE as usize;
    let mut data = vec![0x80, 4];
    data.extend(frame(t, 1));
    data.extend(frame(t + 5, 2));
    let expected = sequential(&data).unwrap();
    let mut reader = Reader::new(&data);
    assert!(reader.par_collect_events().unwrap() == expected);
    assert_eq!(reader.pos(), data.len());
}

#[test]
fn stop_as_the_last_opcode_of_a_large_frame() {
    let t = FRAME_SPAWN_SIZE as usize;
    let mut data = vec![0x80, 4];
    let mut f = frame(t, 3);
    *f.last_mut().unwrap() = b'.';
    data.extend(f);
    let expected = sequential(&data).unwrap();
    let mut reader = Reader::new(&data);
    assert!(reader.par_collect_events().unwrap() == expected);
}

#[test]
fn large_frame_sets_the_cursor_behind_its_length() {
    let t = FRAME_SPAWN_SIZE as usize;
    // The frame holds a stop in its middle: its reader ends there, the main
    // reader goes on behind the frame all the same.
    let mut f = frame(t, 0);
    f[9 + 255] = b'.';
    let mut data = f.clone();
    data.extend_from_slice(b"K\x09.");
    let mut reader = Reader::new(&data);
    let events = reader.par_collect_events().unwrap();
    assert_eq!(
        events,
        vec![Event::ShortBinString { len: 253 }, Event::BinInt1(9)]
    );
    assert_eq!(reader.pos(), data.len());

    let mut reader = Reader::new_at(&data, 1000);
    let mut buf = Vec::new();
    assert_eq!(reader.read_event(&mut buf), Ok(Event::Frame(t as u64)));
    assert_eq!(reader.pos(), 1009);
    let mut child = reader.frame_reader(t as u64).unwrap();
    assert_eq!(reader.pos(), 1009 + t);
    assert_eq!(child.pos(), 1009);
    assert_eq!(child.remaining_len(), t);
    assert_eq!(child.read_event(&mut buf), Ok(Event::ShortBinString { len: 253 }));
    assert_eq!(child.pos(), 1009 + 255);
    assert_eq!(reader.pos(), 1009 + t);
    assert_eq!(reader.read_event(&mut buf), Ok(Event::BinInt1(9)));
}

#[test]
fn frame_reader_needs_the_whole_frame() {
    let mut reader = Reader::new(b"abc");
    assert!(matches!(reader.frame_reader(4), Err(Error::Io)));
    assert_eq!(reader.pos(), 0);
    assert!(matches!(reader.frame_reader(u64::MAX), Err(Error::Io)));
    let mut child = reader.frame_reader(3).unwrap();
    assert_eq!(reader.pos(), 3);
    assert_eq!(reader.remaining_len(), 0);
    assert_eq!(child.remaining_len(), 3);
    let mut buf = Vec::new();
    assert_eq!(child.read_event(&mut buf), Ok(Event::Append));
    let mut empty = reader.frame_reader(0).unwrap();
    assert_eq!(empty.pos(), 3);
    assert_eq!(empty.read_event(&mut buf), Ok(Event::Stop));
}

#[test]
fn large_frame_longer_than_the_stream() {
    let t = FRAME_SPAWN_SIZE as usize;
    let mut data = frame(t, 0);
    data.pop();
    let mut reader = Reader::new(&data);
    assert_eq!(reader.par_collect_events(), Err(Error::Io));
    assert_eq!(reader.pos(), 9);
    // One reader alone does not look at the length.
    assert!(sequential(&data).is_ok());
}

#[test]
fn error_inside_a_large_frame_voids_everything() {
    let t = FRAME_SPAWN_SIZE as usize;
    let mut data = vec![0x80, 4];
    data.extend(frame(t, 0));
    let mut bad = frame(t, 1);
    bad[9 + 255 * 3] = 0xff;
    data.extend(bad);
    data.extend(frame(t, 2));
    data.extend_from_slice(b"K\x01.");
    let mut reader = Reader::new(&data);
    assert_eq!(reader.par_collect_events(), Err(Error::OpCode(0xff)));
    // The main reader went through to its stop.
    assert_eq!(reader.pos(), data.len());
}

#[test]
fn first_failed_frame_gives_the_error() {
    let t = FRAME_SPAWN_SIZE as usize;
    let mut first = frame(t, 0);
    first[9] = 0xfe;
    let mut second = frame(t, 0);
    second[9] = 0xfd;
    let mut data = first;
    data.extend(second);
    let mut reader = Reader::new(&data);
    assert_eq!(reader.par_collect_events(), Err(Error::OpCode(0xfe)));
}

#[test]
fn error_of_the_main_reader_comes_before_that_of_a_frame() {
    let t = FRAME_SPAWN_SIZE as usize;
    let mut data = frame(t, 0);
    data[9] = 0xfe;
    data.extend_from_slice(b"Ix\n");
    let mut reader = Reader::new(&data);
    assert_eq!(reader.par_collect_events(), Err(Error::Protocol(0x49)));
}

#[test]
fn payload_cut_by_the_end_of_a_large_frame() {
    let t = FRAME_SPAWN_SIZE as usize;
    let mut data = frame(t, 0);
    // The last opcode of the frame asks for one byte that lies behind it.
    let last = data.len() - 1;
    data[last] = 0x4b;
    data.extend_from_slice(b"(.");
    let mut reader = Reader::new(&data);
    assert_eq!(reader.par_collect_events(), Err(Error::Io));
    assert_eq!(reader.pos(), data.len());
    assert!(sequential(&data).is_ok());
}

#[test]
fn frame_marker_inside_a_large_frame_is_kept() {
    let t = FRAME_SPAWN_SIZE as usize;
    let mut data = frame(t, 0);
    let inner = frame(2, 0);
    data[9..9 + 255].copy_from_slice(&frame(255 - 9, 0));
    assert_eq!(inner.len(), 11);
    let mut reader = Reader::new(&data);
    let events = reader.par_collect_events().unwrap();
    assert_eq!(events[0], Event::Frame(246));
}

#[test]
fn collect_events_tags_with_positions() {
    let reader = Reader::new_at(b"K\x01U\x02hi(.K\x02", 10);
    assert_eq!(
        reader.collect_events(),
        Ok(vec![
            (12, Event::BinInt1(1)),
            (16, Event::ShortBinString { len: 2 }),
            (17, Event::Mark),
        ])
    );
    assert_eq!(Reader::new(b"").collect_events(), Ok(vec![]));
    assert_eq!(Reader::new(b"K\x01K").collect_events(), Err(Error::Io));
    assert_eq!(
        Reader::new(b"\x95\x00\x00\x00\x00\x00\x00\x00\x00N").collect_events(),
        Ok(vec![(9, Event::Frame(0)), (10, Event::PyNone)])
    );
}

#[test]
fn merge_sorts_by_position() {
    let merged = merge_events(vec![
        (30, Event::Mark),
        (10, Event::Pop),
        (20, Event::Dup),
        (5, Event::PyNone),
        (25, Event::Tuple),
    ]);
    assert_eq!(
        merged,
        vec![Event::PyNone, Event::Pop, Event::Dup, Event::Tuple, Event::Mark]
    );
    assert_eq!(merge_events::<Event>(vec![]), vec![]);
}

#[test]
fn merge_keeps_the_order_of_equal_positions() {
    let merged = merge_events(vec![
        (7, Event::BinInt1(1)),
        (3, Event::BinInt1(2)),
        (7, Event::BinInt1(3)),
        (3, Event::BinInt1(4)),
        (7, Event::BinInt1(5)),
        (1, Event::BinInt1(6)),
    ]);
    assert_eq!(
        merged,
        vec![
            Event::BinInt1(6),
            Event::BinInt1(2),
            Event::BinInt1(4),
            Event::BinInt1(1),
            Event::BinInt1(3),
            Event::BinInt1(5),
        ]
    );
}

#[test]
fn strip_keeps_the_order() {
    assert_eq!(
        strip_positions(vec![(9, Event::Mark), (1, Event::Pop)]),
        vec![Event::Mark, Event::Pop]
    );
}

#[test]
fn whole_stream_without_frames() {
    let mut reader = Reader::new(b"\x80\x02]q\x00(K\x01K\x02e.");
    assert_eq!(
        reader.par_collect_events(),
        Ok(vec![
            Event::Proto(2),
            Event::EmptyList,
            Event::BinPut(0),
            Event::Mark,
            Event::BinInt1(1),
            Event::BinInt1(2),
            Event::Appends,
        ])
    );
    let mut reader = Reader::new(b"\x80\x02K");
    assert_eq!(reader.par_collect_events(), Err(Error::Io));
    let mut reader = Reader::new(b"");
    assert_eq!(reader.par_collect_events(), Ok(vec![]));
}

#[test]
fn stream_cut_at_an_opcode_boundary_gives_the_events_before() {
    let data: &[u8] = b"\x80\x04]\x94(K\x01Sab\nU\x02hicm\nn\nI5\nL6L\n\x8a\x017G\x00\x00\x00\x00\x00\x00\x00\x00t.";
    let events = Reader::new_at(data, 40).collect_events().unwrap();
    assert_eq!(events.len(), 13);
    for count in 0..=events.len() {
        let cut = if count == 0 { 0 } else { events[count - 1].0 - 40 };
        assert_eq!(
            Reader::new_at(&data[..cut], 40).collect_events().as_deref(),
            Ok(&events[..count])
        );
        let mut reader = Reader::new(&data[..cut]);
        assert_eq!(reader.par_collect_events().map(|e| e.len()), Ok(count));
    }
}

#[test]
fn stream_cut_inside_a_payload_fails() {
    let whole: &[&[u8]] = &[
        b"\x80\x04",
        b"K\x01",
        b"M\x01\x02",
        b"J\x01\x02\x03\x04",
        b"U\x02hi",
        b"T\x02\x00\x00\x00hi",
        b"\x8e\x02\x00\x00\x00\x00\x00\x00\x00hi",
        b"\x8a\x0212",
        b"\x8b\x02\x00\x00\x0012",
        b"G\x00\x00\x00\x00\x00\x00\x00\x00",
        b"\x95\x00\x00\x00\x00\x00\x00\x00\x00",
        b"Sab\n",
        b"I12\n",
        b"L12L\n",
        b"F1.5\n",
        b"cm\nn\n",
    ];
    for x in whole {
        assert!(Reader::new(x).collect_events().is_ok());
        for cut in 1..x.len() {
            assert_eq!(Reader::new(&x[..cut]).collect_events(), Err(Error::Io), "{x:?} at {cut}");
            let mut reader = Reader::new(&x[..cut]);
            assert_eq!(reader.par_collect_events(), Err(Error::Io));
        }
    }
}

#[test]
fn merge_leaves_what_is_in_order() {
    let items = vec![(1, 'a'), (1, 'b'), (2, 'c'), (5, 'd'), (5, 'e')];
    assert_eq!(merge_events(items), vec!['a', 'b', 'c', 'd', 'e']);
}

#[test]
fn merge_takes_any_items() {
    let merged = merge_events(vec![(usize::MAX, 1.5f64), (0, -2.0), (7, 0.25)]);
    assert_eq!(merged, vec![-2.0, 0.25, 1.5]);
}

#[test]
fn main_step_says_what_to_do() {
    let t = FRAME_SPAWN_SIZE as usize;
    let mut data = b"K\x01\x95\x02\x00\x00\x00\x00\x00\x00\x00()U\x01x".to_vec();
    data.extend(frame(t, 0));
    data.extend_from_slice(b"N.K\x02");
    let mut reader = Reader::new_at(&data, 5);
    let mut buf = Vec::new();
    assert!(matches!(reader.main_step(&mut buf), Ok(Step::Event(7, Event::BinInt1(1)))));
    assert!(matches!(reader.main_step(&mut buf), Ok(Step::Marker)));
    assert_eq!(reader.pos(), 16);
    assert!(matches!(reader.main_step(&mut buf), Ok(Step::Event(17, Event::Mark))));
    assert!(matches!(reader.main_step(&mut buf), Ok(Step::Event(18, Event::EmptyTuple))));
    assert!(matches!(
        reader.main_step(&mut buf),
        Ok(Step::Event(21, Event::ShortBinString { len: 1 }))
    ));
    assert_eq!(buf, b"x");
    match reader.main_step(&mut buf) {
        Ok(Step::Frame(child)) => {
            assert_eq!(child.pos(), 30);
            assert_eq!(child.remaining_len(), t);
            assert_eq!(child.collect_events().unwrap()[0], (30 + 255, Event::ShortBinString { len: 253 }));
        }
        _ => unreachable!(),
    }
    assert_eq!(reader.pos(), 30 + t);
    assert!(matches!(reader.main_step(&mut buf), Ok(Step::Event(_, Event::PyNone))));
    assert!(matches!(reader.main_step(&mut buf), Ok(Step::Done)));
    assert_eq!(reader.pos(), 30 + t + 2);
    assert!(matches!(reader.main_step(&mut buf), Ok(Step::Event(_, Event::BinInt1(2)))));
    assert!(matches!(reader.main_step(&mut buf), Ok(Step::Done)));
    assert!(matches!(reader.main_step(&mut buf), Ok(Step::Done)));
}

#[test]
fn main_step_fails_as_the_decoder_does() {
    let mut buf = Vec::new();
    assert!(matches!(Reader::new(b"\xff").main_step(&mut buf), Err(Error::OpCode(0xff))));
    assert!(matches!(Reader::new(b"K").main_step(&mut buf), Err(Error::Io)));
    // A large frame that the stream does not hold.
    let mut reader = Reader::new(b"\x95\x00\x00\x02\x00\x00\x00\x00\x00abc");
    assert!(matches!(reader.main_step(&mut buf), Err(Error::Io)));
    assert_eq!(reader.pos(), 9);
    // The largest frame that is decoded inline.
    let mut reader = Reader::new(b"\x95\xff\xff\x01\x00\x00\x00\x00\x00abc");
    assert!(matches!(reader.main_step(&mut buf), Ok(Step::Marker)));
}

#[test]
fn join_gives_the_first_error_in_the_order_of_the_frames() {
    let inline = vec![(1, 'a'), (9, 'z')];
    let joined = join_frames(
        inline.clone(),
        vec![Ok(vec![(5, 'e'), (6, 'f')]), Ok(vec![]), Ok(vec![(3, 'c')])],
    );
    assert_eq!(joined, Ok::<_, &str>(vec!['a', 'c', 'e', 'f', 'z']));
    let joined = join_frames(
        inline.clone(),
        vec![Ok(vec![(5, 'e')]), Err("second"), Ok(vec![(3, 'c')]), Err("fourth")],
    );
    assert_eq!(joined, Err("second"));
    let joined = join_frames(inline.clone(), vec![Err("first"), Err("second")]);
    assert_eq!(joined, Err("first"));
    let joined = join_frames(inline.clone(), vec![Ok(vec![]), Ok(vec![]), Err("last")]);
    assert_eq!(joined, Err("last"));
    assert_eq!(join_frames::<char, ()>(inline, vec![]), Ok(vec!['a', 'z']));
    assert_eq!(join_frames::<char, ()>(vec![], vec![]), Ok(vec![]));
}

#[test]
fn join_keeps_the_order_of_equal_positions() {
    let joined = join_frames::<u8, ()>(
        vec![(2, 1), (2, 2)],
        vec![Ok(vec![(2, 3), (1, 4)]), Ok(vec![(2, 5)])],
    );
    assert_eq!(joined, Ok(vec![4, 1, 2, 3, 5]));
}

#[test]
fn frame_step_tags_and_stops() {
    let mut reader = Reader::new_at(b"K\x01U\x02hi\x95\x00\x00\x00\x00\x00\x00\x00\x00(.K\x02", 10);
    let mut buf = Vec::new();
    assert_eq!(reader.frame_step(&mut buf), Ok(Some((12, Event::BinInt1(1)))));
    assert_eq!(reader.frame_step(&mut buf), Ok(Some((16, Event::ShortBinString { len: 2 }))));
    assert_eq!(buf, b"hi");
    // A frame marker is an event like any other.
    assert_eq!(reader.frame_step(&mut buf), Ok(Some((25, Event::Frame(0)))));
    assert_eq!(reader.frame_step(&mut buf), Ok(Some((26, Event::Mark))));
    assert_eq!(reader.frame_step(&mut buf), Ok(None));
    assert_eq!(reader.pos(), 27);
    assert_eq!(reader.frame_step(&mut buf), Ok(Some((29, Event::BinInt1(2)))));
    assert_eq!(reader.frame_step(&mut buf), Ok(None));
    assert_eq!(reader.pos(), 29);
    assert_eq!(Reader::new(b"K").frame_step(&mut buf), Err(Error::Io));
    assert_eq!(Reader::new(b"Sab").frame_step(&mut buf), Err(Error::Io));
    assert_eq!(Reader::new(b"\xfe").frame_step(&mut buf), Err(Error::OpCode(0xfe)));
    assert_eq!(buf, b"hi");
}

#[test]
fn line_that_reaches_over_the_end_of_a_large_frame() {
    let t = FRAME_SPAWN_SIZE as usize;
    let mut data = frame(t, 0);
    // The last opcode of the frame starts a line whose line feed lies
    // behind the frame.
    let last = data.len() - 1;
    data[last] = b'S';
    data.extend_from_slice(b"ab\n.");
    // The frame's reader lacks the line feed. The main reader meets it as
    // an opcode and fails first.
    let mut frame_reader = Reader::new(&data[9..9 + t]);
    let mut buf = Vec::new();
    let mut last_step = frame_reader.frame_step(&mut buf);
    while let Ok(Some(_)) = last_step {
        buf.clear();
        last_step = frame_reader.frame_step(&mut buf);
    }
    assert_eq!(last_step, Err(Error::Io));
    let mut reader = Reader::new(&data);
    assert_eq!(reader.par_collect_events(), Err(Error::OpCode(b'\n')));
    assert!(sequential(&data).is_ok());
}
