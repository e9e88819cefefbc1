use candy_cane::iter::streaming::cold;
use candy_cane::iter::streaming::OutOfRange;
use candy_cane::iter::streaming::Raw;
use candy_cane::iter::streaming::RawCandyCaneIterStreaming;
use candy_cane::iter::RangeBound;
use candy_cane::layout::Chunk;
use candy_cane::slice_tracker::LockGuardType;
use candy_cane::CandyCane;
use candy_cane::RawCandyCane;

fn read_range<const SLICES: usize>(
    cane: &RawCandyCane<usize, SLICES>,
    start: RangeBound,
    end: RangeBound,
) -> Vec<usize> {
    let mut cursor = cane.iter_streaming(start, end).unwrap();
    let mut seen = Vec::new();
    while let Some(item) = cursor.next() {
        seen.push(*item);
    }
    seen
}

fn read_all<const SLICES: usize>(cane: &RawCandyCane<usize, SLICES>) -> Vec<usize> {
    read_range(cane, RangeBound::Unbounded, RangeBound::Unbounded)
}

fn sorted(mut values: Vec<usize>) -> Vec<usize> {
    values.sort();
    values
}

#[test]
fn three_to_eight_of_ten_in_four_stripes() {
    let cane = RawCandyCane::<usize, 4>::from_vec((0..10).collect());
    let seen = read_range(&cane, RangeBound::Included(3), RangeBound::Excluded(8));
    assert_eq!(sorted(seen), vec![3, 4, 5, 6, 7]);
    let seen = read_range(&cane, RangeBound::Excluded(2), RangeBound::Included(7));
    assert_eq!(sorted(seen), vec![3, 4, 5, 6, 7]);
}

#[test]
fn four_thousand_in_one_stripe() {
    let cane = RawCandyCane::<usize, 1>::from_vec((0..4000).collect());
    let seen = read_all(&cane);
    assert_eq!(seen.len(), 4000);
    assert_eq!(seen.iter().sum::<usize>(), 7_998_000);
    // One stripe: a single walk in index order.
    assert_eq!(seen, (0..4000).collect::<Vec<usize>>());
}

#[test]
fn stripes_come_last_first_when_all_are_free() {
    let cane = RawCandyCane::<usize, 3>::from_vec((0..10).collect());
    assert_eq!(read_all(&cane), vec![6, 7, 8, 9, 3, 4, 5, 0, 1, 2]);
}

#[test]
fn places_go_up_by_one_inside_a_stripe() {
    let cane = RawCandyCane::<usize, 3>::from_vec((0..10).collect());
    let mut cursor =
        RawCandyCaneIterStreaming::new_over(RangeBound::Included(1), RangeBound::Excluded(9), &cane)
            .ok()
            .unwrap();
    let mut places = Vec::new();
    while let Some(raw) = cursor.next_raw(LockGuardType::Read) {
        places.push((raw.chunk_id, raw.index));
    }
    assert_eq!(
        places,
        vec![(2, 0), (2, 1), (2, 2), (1, 0), (1, 1), (1, 2), (0, 1), (0, 2)]
    );
    assert_eq!(cursor.next_raw(LockGuardType::Read), None);
}

#[test]
fn every_stripe_is_visited_once() {
    let cane = RawCandyCane::<usize, 8>::from_vec((0..100).collect());
    let mut cursor =
        RawCandyCaneIterStreaming::new_over(RangeBound::Unbounded, RangeBound::Unbounded, &cane)
            .ok()
            .unwrap();
    let mut stripes = Vec::new();
    let mut count = 0;
    while let Some(raw) = cursor.next_raw(LockGuardType::Write) {
        if stripes.last() != Some(&raw.chunk_id) {
            stripes.push(raw.chunk_id);
        }
        count += 1;
    }
    assert_eq!(count, 100);
    assert_eq!(stripes, vec![7, 6, 5, 4, 3, 2, 1, 0]);
}

#[test]
fn empty_container_yields_nothing() {
    let cane = RawCandyCane::<usize, 4>::new();
    assert_eq!(cane.len(), 0);
    assert_eq!(read_all(&cane), vec![]);
    let cane = RawCandyCane::<usize, 1>::from_vec(Vec::new());
    assert_eq!(read_all(&cane), vec![]);
    let mut cursor = cane
        .iter_streaming_mut(RangeBound::Unbounded, RangeBound::Unbounded)
        .unwrap();
    assert_eq!(cursor.next(), None);
    assert_eq!(cursor.next(), None);
}

#[test]
fn empty_range_yields_nothing() {
    let cane = RawCandyCane::<usize, 4>::from_vec((0..10).collect());
    for at in 0..=10 {
        let seen = read_range(&cane, RangeBound::Included(at), RangeBound::Excluded(at));
        assert_eq!(seen, vec![]);
    }
}

#[test]
fn done_stays_done() {
    let cane = RawCandyCane::<usize, 2>::from_vec((0..5).collect());
    let mut cursor = cane
        .iter_streaming(RangeBound::Unbounded, RangeBound::Unbounded)
        .unwrap();
    let mut count = 0;
    while cursor.next().is_some() {
        count += 1;
    }
    assert_eq!(count, 5);
    assert_eq!(cursor.next(), None);
    assert_eq!(cursor.next(), None);
}

#[test]
fn bounds_outside_the_container_give_no_cursor() {
    let cane = RawCandyCane::<usize, 4>::from_vec((0..10).collect());
    // The end lies behind the buffer.
    assert_eq!(
        cane.iter_streaming(RangeBound::Unbounded, RangeBound::Excluded(11)).err(),
        Some(OutOfRange { len: 10 })
    );
    // The start lies behind the end.
    assert_eq!(
        cane.iter_streaming(RangeBound::Included(6), RangeBound::Excluded(5)).err(),
        Some(OutOfRange { len: 10 })
    );
    assert_eq!(
        cane.iter_streaming_mut(RangeBound::Unbounded, RangeBound::Included(10)).err(),
        Some(OutOfRange { len: 10 })
    );
    assert!(cane
        .iter_streaming_mut(RangeBound::Included(0), RangeBound::Included(9))
        .is_ok());
    assert!(cane
        .iter_streaming(RangeBound::Included(10), RangeBound::Excluded(10))
        .is_ok());
    // A refused cursor holds nothing: a write session can start at once.
    let session = cane.try_write().unwrap();
    assert_eq!(session.len(), 10);
    session.release();
}

#[test]
fn two_elements_in_four_stripes() {
    let cane = RawCandyCane::<usize, 4>::from_vec(vec![7, 9]);
    assert_eq!(cane.len(), 2);
    assert_eq!(cane.len_per_slice(), 0);
    let mut cursor = cane
        .iter_streaming(RangeBound::Unbounded, RangeBound::Unbounded)
        .unwrap();
    assert_eq!(cursor.next(), Some(&7));
    assert_eq!(cursor.next(), Some(&9));
    assert_eq!(cursor.next(), None);
    assert_eq!(cursor.next(), None);
    drop(cursor);
    let mut cursor =
        RawCandyCaneIterStreaming::new_over(RangeBound::Unbounded, RangeBound::Unbounded, &cane)
            .ok()
            .unwrap();
    assert_eq!(
        cursor.next_raw(LockGuardType::Read),
        Some(Raw { chunk_id: 3, index: 0 })
    );
    assert_eq!(
        cursor.next_raw(LockGuardType::Read),
        Some(Raw { chunk_id: 3, index: 1 })
    );
    assert_eq!(cursor.next_raw(LockGuardType::Read), None);
}

#[test]
fn range_among_the_extra_elements_of_the_last_stripe() {
    let cane = RawCandyCane::<usize, 4>::from_vec((0..11).map(|i| i * 10).collect());
    assert_eq!(
        read_range(&cane, RangeBound::Included(8), RangeBound::Excluded(11)),
        vec![80, 90, 100]
    );
    assert_eq!(
        read_range(&cane, RangeBound::Included(9), RangeBound::Included(9)),
        vec![90]
    );
}

#[test]
fn full_range_yields_every_element_whatever_the_stripe_count() {
    for len in 0..20usize {
        let data: Vec<usize> = (0..len).collect();
        assert_eq!(sorted(read_all(&RawCandyCane::<usize, 1>::from_vec(data.clone()))), data);
        assert_eq!(sorted(read_all(&RawCandyCane::<usize, 3>::from_vec(data.clone()))), data);
        assert_eq!(sorted(read_all(&RawCandyCane::<usize, 7>::from_vec(data.clone()))), data);
        assert_eq!(sorted(read_all(&RawCandyCane::<usize, 100>::from_vec(data.clone()))), data);
    }
}

#[test]
fn published_number_per_stripe() {
    let cane = RawCandyCane::<usize, 8>::from_vec((0..100).collect());
    assert_eq!(cane.len_per_slice(), 12);
    assert_eq!(cane.len(), 100);
    {
        let mut session = cane.write();
        session.truncate(50);
        session.release();
    }
    assert_eq!(cane.len_per_slice(), 6);
    assert_eq!(cane.len(), 50);
    cane.write().release();
    assert_eq!(cane.len_per_slice(), 6);
    assert_eq!(RawCandyCane::<usize, 8>::new().len_per_slice(), 0);
}

#[test]
fn try_write_fails_while_a_cursor_lives() {
    let cane = RawCandyCane::<usize, 3>::from_vec((0..9).collect());
    let cursor = cane
        .iter_streaming(RangeBound::Unbounded, RangeBound::Unbounded)
        .unwrap();
    assert!(cane.try_write().is_none());
    drop(cursor);
    let session = cane.try_write().unwrap();
    assert_eq!(*session, (0..9).collect::<Vec<usize>>());
    assert!(cane.try_write().is_none());
    session.release();
    let session = cane.try_write().unwrap();
    assert_eq!(*session, (0..9).collect::<Vec<usize>>());
    session.release();
    assert_eq!(cane.len(), 9);
}

#[test]
fn write_cursor_over_fewer_elements_than_stripes() {
    let cane = RawCandyCane::<usize, 6>::from_vec(vec![1, 2, 3]);
    {
        let mut cursor = cane
            .iter_streaming_mut(RangeBound::Included(1), RangeBound::Unbounded)
            .unwrap();
        while let Some(item) = cursor.next() {
            *item += 10;
        }
    }
    assert_eq!(cane.into_inner(), vec![1, 12, 13]);
}

#[test]
fn four_read_cursors_at_once() {
    let cane = RawCandyCane::<usize, 3>::from_vec((0..4000).collect());
    let mut cursors = Vec::new();
    for _ in 0..4 {
        cursors.push(
            cane.iter_streaming(RangeBound::Unbounded, RangeBound::Unbounded)
                .unwrap(),
        );
    }
    let mut counts = vec![0usize; 4];
    let mut sums = vec![0usize; 4];
    let mut live = 4;
    while live > 0 {
        live = 0;
        for (i, cursor) in cursors.iter_mut().enumerate() {
            if let Some(item) = cursor.next() {
                counts[i] += 1;
                sums[i] += *item;
                live += 1;
            }
        }
    }
    assert_eq!(counts, vec![4000; 4]);
    assert_eq!(sums, vec![7_998_000; 4]);
    drop(cursors);
    // Every hold has been let go: the outer lock can be had exclusively.
    let session = cane.try_write().unwrap();
    assert_eq!(session.len(), 4000);
    session.release();
}

#[test]
fn seven_write_cursors_in_turn() {
    let cane = RawCandyCane::<usize, 3>::from_vec((0..4000).collect());
    for _ in 0..7 {
        let mut cursor = cane
            .iter_streaming_mut(RangeBound::Unbounded, RangeBound::Unbounded)
            .unwrap();
        let mut count = 0;
        let mut sum = 0;
        while let Some(item) = cursor.next() {
            count += 1;
            sum += *item;
        }
        assert_eq!(count, 4000);
        assert_eq!(sum, 7_998_000);
    }
    let session = cane.try_write().unwrap();
    assert_eq!(session.len(), 4000);
    session.release();
}

#[test]
fn write_cursor_changes_elements_in_place() {
    let cane = RawCandyCane::<usize, 4>::from_vec((0..10).collect());
    {
        let mut cursor = cane
            .iter_streaming_mut(RangeBound::Included(2), RangeBound::Excluded(9))
            .unwrap();
        while let Some(item) = cursor.next() {
            *item += 100;
        }
    }
    assert_eq!(
        cane.into_inner(),
        vec![0, 1, 102, 103, 104, 105, 106, 107, 108, 9]
    );
}

#[test]
fn two_read_cursors_yield_the_same() {
    let cane = RawCandyCane::<usize, 5>::from_vec((0..57).map(|i| i % 7).collect());
    let first = read_range(&cane, RangeBound::Included(4), RangeBound::Included(49));
    let second = read_range(&cane, RangeBound::Included(4), RangeBound::Included(49));
    assert_eq!(sorted(first), sorted(second));
    assert_eq!(sorted(read_all(&cane)), sorted((0..57).map(|i| i % 7).collect()));
}

#[test]
fn ranges_yield_their_elements() {
    for len in 0..26usize {
        let cane = RawCandyCane::<usize, 4>::from_vec((0..len).collect());
        for start in 0..=len {
            for end in start..=len {
                let seen =
                    read_range(&cane, RangeBound::Included(start), RangeBound::Excluded(end));
                assert_eq!(sorted(seen), (start..end).collect::<Vec<usize>>());
            }
        }
    }
}

#[test]
fn write_session_then_fresh_cursor() {
    let cane = RawCandyCane::<usize, 8>::from_vec((0..100).collect());
    {
        let cursor = cane
            .iter_streaming(RangeBound::Unbounded, RangeBound::Unbounded)
            .unwrap();
        drop(cursor);
    }
    {
        let mut session = cane.write();
        assert_eq!(session.len(), 100);
        session.truncate(50);
        session.release();
    }
    assert_eq!(cane.len(), 50);
    let seen = read_all(&cane);
    assert_eq!(seen.len(), 50);
    assert_eq!(sorted(seen), (0..50).collect::<Vec<usize>>());
}

#[test]
fn write_session_sees_a_flat_buffer() {
    let cane = RawCandyCane::<usize, 3>::from_vec((0..10).collect());
    {
        let mut session = cane.write();
        assert_eq!(*session, (0..10).collect::<Vec<usize>>());
        session.push(10);
        session.push(11);
        session[0] = 99;
        session.retain(|value| value % 2 == 1);
        session.release();
    }
    assert_eq!(cane.len(), 7);
    assert_eq!(sorted(read_all(&cane)), vec![1, 3, 5, 7, 9, 11, 99]);
}

#[test]
fn write_session_without_change_changes_nothing() {
    let cane = RawCandyCane::<usize, 4>::from_vec((0..10).collect());
    let places = |cane: &RawCandyCane<usize, 4>| {
        let mut cursor = RawCandyCaneIterStreaming::new_over(
            RangeBound::Unbounded,
            RangeBound::Unbounded,
            cane,
        )
        .unwrap();
        let mut places = Vec::new();
        while let Some(raw) = cursor.next_raw(LockGuardType::Read) {
            places.push(raw);
        }
        places
    };
    let before = places(&cane);
    let values = read_all(&cane);
    cane.write().release();
    assert_eq!(cane.len(), 10);
    assert_eq!(places(&cane), before);
    assert_eq!(read_all(&cane), values);
    assert_eq!(
        before,
        vec![
            Raw { chunk_id: 3, index: 0 },
            Raw { chunk_id: 3, index: 1 },
            Raw { chunk_id: 3, index: 2 },
            Raw { chunk_id: 3, index: 3 },
            Raw { chunk_id: 2, index: 0 },
            Raw { chunk_id: 2, index: 1 },
            Raw { chunk_id: 1, index: 0 },
            Raw { chunk_id: 1, index: 1 },
            Raw { chunk_id: 0, index: 0 },
            Raw { chunk_id: 0, index: 1 },
        ]
    );
}

#[test]
fn growing_from_empty() {
    let cane = CandyCane::<usize>::new();
    assert_eq!(cane.len(), 0);
    {
        let mut session = cane.write();
        session.extend(0..20);
        session.release();
    }
    assert_eq!(cane.len(), 20);
    assert_eq!(sorted(read_all(&cane)), (0..20).collect::<Vec<usize>>());
    {
        let mut session = cane.write();
        session.clear();
        session.release();
    }
    assert_eq!(cane.len(), 0);
    assert_eq!(read_all(&cane), vec![]);
}

#[test]
fn into_inner_gives_the_buffer_back() {
    for len in 0..30usize {
        let data: Vec<usize> = (0..len).map(|i| i * i).collect();
        assert_eq!(RawCandyCane::<usize, 1>::from_vec(data.clone()).into_inner(), data);
        assert_eq!(RawCandyCane::<usize, 3>::from_vec(data.clone()).into_inner(), data);
        assert_eq!(RawCandyCane::<usize, 7>::from_vec(data.clone()).into_inner(), data);
        assert_eq!(RawCandyCane::<usize, 100>::from_vec(data.clone()).into_inner(), data);
    }
    assert_eq!(RawCandyCane::<usize, 6>::new().into_inner(), vec![]);
}

#[test]
fn into_inner_after_a_write_session() {
    let cane = RawCandyCane::<String, 4>::from_vec(vec!["a".to_string(), "b".to_string()]);
    {
        let mut session = cane.write();
        session.insert(1, "c".to_string());
        session.release();
    }
    assert_eq!(cane.len(), 3);
    assert_eq!(cane.into_inner(), vec!["a", "c", "b"]);
}

#[test]
fn len_counts_the_elements() {
    assert_eq!(RawCandyCane::<u8, 3>::from_vec(vec![0; 90]).len(), 90);
    assert_eq!(RawCandyCane::<(), 100>::from_vec(vec![(); 90]).len(), 90);
    assert_eq!(RawCandyCane::<u8, 1>::new().len(), 0);
}

#[test]
fn place_becomes_a_reference() {
    let mut chunk = Chunk { start: 4, items: vec![10, 20, 30] };
    let raw = Raw { chunk_id: 2, index: 1 };
    assert_eq!(*raw.upgrade_ref(&chunk), 20);
    *raw.upgrade_mut(&mut chunk) = 21;
    assert_eq!(chunk.items, vec![10, 21, 30]);
    assert_eq!(chunk.start, 4);
    assert_eq!(*Raw { chunk_id: 2, index: 2 }.upgrade_ref(&chunk), 30);
}

#[test]
fn cold_does_nothing() {
    cold();
}

#[test]
fn two_write_cursors_never_share_a_stripe() {
    let cane = RawCandyCane::<usize, 3>::from_vec((0..4000).collect());
    let mut first =
        RawCandyCaneIterStreaming::new_over(RangeBound::Unbounded, RangeBound::Unbounded, &cane)
            .unwrap();
    let mut second =
        RawCandyCaneIterStreaming::new_over(RangeBound::Unbounded, RangeBound::Unbounded, &cane)
            .unwrap();
    let mut first_count = 0;
    let mut second_count = 0;
    loop {
        let one = first.next_raw(LockGuardType::Write);
        let other = second.next_raw(LockGuardType::Write);
        if let Some(raw) = one {
            first_count += 1;
            if let Some(other_raw) = other {
                assert_ne!(raw.chunk_id, other_raw.chunk_id);
            }
        }
        if other.is_some() {
            second_count += 1;
        }
        if one.is_none() && other.is_none() {
            break;
        }
    }
    assert_eq!(first_count, 4000);
    assert_eq!(second_count, 4000);
}

#[test]
fn busy_stripe_is_passed_over() {
    let cane = RawCandyCane::<usize, 3>::from_vec((0..9).collect());
    let mut writer = cane
        .iter_streaming_mut(RangeBound::Unbounded, RangeBound::Unbounded)
        .unwrap();
    // The writer takes the last stripe and keeps it.
    assert_eq!(writer.next().copied(), Some(6));
    let mut reader =
        RawCandyCaneIterStreaming::new_over(RangeBound::Unbounded, RangeBound::Unbounded, &cane)
            .unwrap();
    // The reader finds the last stripe busy and starts with the one before.
    assert_eq!(
        reader.next_raw(LockGuardType::Read),
        Some(Raw { chunk_id: 1, index: 0 })
    );
}
