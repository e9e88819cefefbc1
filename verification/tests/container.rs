use candy_cane::iter::streaming::CandyCaneIterStreaming;
use candy_cane::iter::streaming::CandyCaneIterStreamingMut;
use candy_cane::iter::streaming::RawCandyCaneIterStreaming;
use candy_cane::iter::RangeBound;
use candy_cane::CandyCane;
use candy_cane::CandyCaneWriteGuard;
use candy_cane::RawCandyCane;

fn make_data() -> Vec<usize> {
    (0..4000).collect()
}

fn iter_and_add<const SLICES: usize>(candy_cane: &RawCandyCane<usize, SLICES>) {
    let mut iter = candy_cane
        .iter_streaming(RangeBound::Unbounded, RangeBound::Unbounded)
        .unwrap();
    let mut sum = 0;
    let mut count = 0;
    while let Some(item) = iter.next() {
        sum += *item;
        count += 1;
    }

    assert_eq!(count, 4000);
    assert_eq!(sum, (3999 * 4000) / 2);
}

fn iter_and_add_mut<const SLICES: usize>(candy_cane: &RawCandyCane<usize, SLICES>) {
    let mut iter = candy_cane
        .iter_streaming_mut(RangeBound::Unbounded, RangeBound::Unbounded)
        .unwrap();
    let mut sum = 0;
    let mut count = 0;
    while let Some(item) = iter.next() {
        sum += *item;
        count += 1;
    }

    assert_eq!(count, 4000);
    assert_eq!(sum, (3999 * 4000) / 2);
}

fn assure_final_state<const SLICES: usize>(candy_cane: &RawCandyCane<usize, SLICES>) {
    // Nothing holds the outer lock any more: it can be had exclusively at
    // once.
    match candy_cane.try_write() {
        Some(session) => session.release(),
        None => panic!("the outer lock is still held"),
    }
}

#[test]
fn new() {
    RawCandyCane::<(), 1>::new();
    RawCandyCane::<u8, 1>::new();
    RawCandyCane::<(), 100>::new();
    RawCandyCane::<u8, 100>::new();
}

#[test]
fn from_vec() {
    let unit_vec = vec![(); 90];
    let u8_vec = vec![0u8; 90];
    RawCandyCane::<(), 1>::from_vec(unit_vec.clone());
    RawCandyCane::<u8, 1>::from_vec(u8_vec.clone());
    RawCandyCane::<(), 100>::from_vec(unit_vec);
    RawCandyCane::<u8, 100>::from_vec(u8_vec);
}

#[test]
fn iterate_1_single_threaded() {
    let data = make_data();

    let candy_cane = RawCandyCane::<_, 1>::from_vec(data);

    iter_and_add(&candy_cane);
    assure_final_state(&candy_cane);
}

#[test]
fn iterate_3_single_threaded() {
    let data = make_data();

    let candy_cane = RawCandyCane::<_, 3>::from_vec(data);

    iter_and_add(&candy_cane);
    assure_final_state(&candy_cane);
}

#[test]
fn iterate_1_single_threaded_mut() {
    let data = make_data();

    let candy_cane = RawCandyCane::<_, 1>::from_vec(data);

    iter_and_add_mut(&candy_cane);
    assure_final_state(&candy_cane);
}

#[test]
fn iterate_3_single_threaded_mut() {
    let data = make_data();

    let candy_cane = RawCandyCane::<_, 3>::from_vec(data);

    iter_and_add_mut(&candy_cane);
    assure_final_state(&candy_cane);
}

#[test]
fn everything_is_accessible() {
    let cane: RawCandyCane<_, 6> = CandyCane::<()>::new();
    let session: CandyCaneWriteGuard<_, 6> = cane.write();
    session.release();

    let _: Option<RawCandyCaneIterStreaming<'_, (), 6>> = None;
    let _: Result<CandyCaneIterStreaming<_, 6>, _> =
        cane.iter_streaming(RangeBound::Unbounded, RangeBound::Unbounded);
    let _: Result<CandyCaneIterStreamingMut<_, 6>, _> =
        cane.iter_streaming_mut(RangeBound::Unbounded, RangeBound::Unbounded);
}
