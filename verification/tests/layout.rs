use candy_cane::layout::create_slices;
use candy_cane::layout::gather;
use candy_cane::layout::Chunk;

fn lengths<T>(chunks: &[Chunk<T>]) -> Vec<usize> {
    chunks.iter().map(|chunk| chunk.length()).collect()
}

fn starts<T>(chunks: &[Chunk<T>]) -> Vec<usize> {
    chunks.iter().map(|chunk| chunk.start).collect()
}

#[test]
fn hundred_elements_in_eight_stripes() {
    let data: Vec<u32> = (0..100).collect();
    let (chunks, per_slice) = create_slices(data, 8);
    assert_eq!(per_slice, 12);
    assert_eq!(lengths(&chunks), vec![12, 12, 12, 12, 12, 12, 12, 16]);
    assert_eq!(starts(&chunks), vec![0, 12, 24, 36, 48, 60, 72, 84]);
    assert_eq!(lengths(&chunks).iter().sum::<usize>(), 100);
}

#[test]
fn last_stripe_takes_the_remainder() {
    let data: Vec<u32> = (0..10).collect();
    let (chunks, per_slice) = create_slices(data, 4);
    assert_eq!(per_slice, 2);
    assert_eq!(lengths(&chunks), vec![2, 2, 2, 4]);
    assert_eq!(chunks[3].length(), 10 / 4 + 10 % 4);
    assert_eq!(chunks[0].items, vec![0, 1]);
    assert_eq!(chunks[1].items, vec![2, 3]);
    assert_eq!(chunks[2].items, vec![4, 5]);
    assert_eq!(chunks[3].items, vec![6, 7, 8, 9]);
}

#[test]
fn even_split_has_equal_stripes() {
    let data: Vec<u32> = (0..12).collect();
    let (chunks, per_slice) = create_slices(data, 3);
    assert_eq!(per_slice, 4);
    assert_eq!(lengths(&chunks), vec![4, 4, 4]);
    assert_eq!(starts(&chunks), vec![0, 4, 8]);
}

#[test]
fn fewer_elements_than_stripes() {
    let data: Vec<u32> = vec![7, 8, 9];
    let (chunks, per_slice) = create_slices(data, 5);
    assert_eq!(per_slice, 0);
    assert_eq!(lengths(&chunks), vec![0, 0, 0, 0, 3]);
    assert_eq!(starts(&chunks), vec![0, 0, 0, 0, 0]);
    assert_eq!(chunks[4].items, vec![7, 8, 9]);
}

#[test]
fn empty_buffer_has_empty_stripes() {
    let data: Vec<u32> = Vec::new();
    let (chunks, per_slice) = create_slices(data, 4);
    assert_eq!(per_slice, 0);
    assert_eq!(lengths(&chunks), vec![0, 0, 0, 0]);
    assert_eq!(starts(&chunks), vec![0, 0, 0, 0]);
}

#[test]
fn one_stripe_holds_everything() {
    let data: Vec<u32> = (0..9).collect();
    let (chunks, per_slice) = create_slices(data.clone(), 1);
    assert_eq!(per_slice, 9);
    assert_eq!(chunks.len(), 1);
    assert_eq!(chunks[0].start, 0);
    assert_eq!(chunks[0].items, data);
}

#[test]
fn stripes_cover_every_index_once() {
    for len in 0..40usize {
        for slices in 1..9usize {
            let data: Vec<usize> = (0..len).collect();
            let (chunks, per_slice) = create_slices(data, slices);
            assert_eq!(per_slice, len / slices);
            assert_eq!(chunks.len(), slices);
            let mut next = 0;
            for (k, chunk) in chunks.iter().enumerate() {
                assert_eq!(chunk.start, k * per_slice);
                let extra = if k == slices - 1 { len % slices } else { 0 };
                assert_eq!(chunk.length(), len / slices + extra);
                for (i, item) in chunk.items.iter().enumerate() {
                    assert_eq!(*item, chunk.start + i);
                    assert_eq!(*item, next);
                    next += 1;
                }
            }
            assert_eq!(next, len);
        }
    }
}

#[test]
fn gather_lays_chunks_end_to_end() {
    let chunks = vec![
        Chunk { start: 0, items: vec![1, 2] },
        Chunk { start: 2, items: vec![] },
        Chunk { start: 2, items: vec![3, 4, 5] },
    ];
    assert_eq!(gather(chunks), vec![1, 2, 3, 4, 5]);
    assert_eq!(gather(Vec::<Chunk<u8>>::new()), Vec::<u8>::new());
}

#[test]
fn gather_undoes_create_slices() {
    for len in 0..30usize {
        for slices in 1..8usize {
            let data: Vec<usize> = (0..len).map(|i| i * 3 + 1).collect();
            let (chunks, _) = create_slices(data.clone(), slices);
            assert_eq!(gather(chunks), data);
        }
    }
}

#[test]
fn cutting_again_changes_nothing() {
    let data: Vec<u32> = (0..23).collect();
    let (first, first_per_slice) = create_slices(data, 5);
    let first_lengths = lengths(&first);
    let first_starts = starts(&first);
    let (second, second_per_slice) = create_slices(gather(first), 5);
    assert_eq!(second_per_slice, first_per_slice);
    assert_eq!(lengths(&second), first_lengths);
    assert_eq!(starts(&second), first_starts);
    assert_eq!(gather(second), (0..23).collect::<Vec<u32>>());
}
