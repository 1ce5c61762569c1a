use geoconverter::expressions::vec_types::Vector;
use geoconverter::houdini_geo_schema_manipulator::{chunk_ends, thread_plan, ThreadPlan};
use geoconverter::Real64;

#[test]
fn small_work_stays_with_one_worker() {
    assert_eq!(thread_plan(0, 8), None);
    assert_eq!(thread_plan(1024, 8), None);
    assert_eq!(thread_plan(1_000_000, 1), None);
    assert_eq!(thread_plan(1_000_000, 0), None);
}

#[test]
fn work_is_shared_out_by_size_and_by_workers() {
    // one worker for each 1024 items, as many as are at hand
    assert_eq!(thread_plan(1025, 8), Some(ThreadPlan { thread_count: 1, chunk_size: 1025 }));
    assert_eq!(thread_plan(4096, 8), Some(ThreadPlan { thread_count: 4, chunk_size: 1024 }));
    assert_eq!(thread_plan(100_000, 8), Some(ThreadPlan { thread_count: 8, chunk_size: 12_500 }));
    assert_eq!(thread_plan(100_001, 8), Some(ThreadPlan { thread_count: 8, chunk_size: 12_500 }));
    assert_eq!(thread_plan(2050, 1000), Some(ThreadPlan { thread_count: 2, chunk_size: 1025 }));
}

#[test]
fn chunks_take_the_items_from_first_to_last() {
    assert_eq!(chunk_ends(0, 4), Vec::<usize>::new());
    assert_eq!(chunk_ends(1, 4), vec![1]);
    assert_eq!(chunk_ends(4, 4), vec![4]);
    assert_eq!(chunk_ends(5, 4), vec![4, 5]);
    assert_eq!(chunk_ends(12, 4), vec![4, 8, 12]);
    assert_eq!(chunk_ends(13, 4), vec![4, 8, 12, 13]);
    assert_eq!(chunk_ends(3, 1), vec![1, 2, 3]);
    assert_eq!(chunk_ends(usize::MAX, usize::MAX), vec![usize::MAX]);
    assert_eq!(chunk_ends(usize::MAX, usize::MAX - 1), vec![usize::MAX - 1, usize::MAX]);
}

#[test]
fn work_in_chunks_gives_what_work_in_one_go_gives() {
    let source: Vec<f64> = (0..103).map(|i| i as f64 * 1.23).collect();
    let transform = |i: usize| -> [f64; 2] { [source[i] + 100.29, source[i] * 2.0] };
    let mut whole: Vec<f64> = Vec::new();
    for i in 0..source.len() {
        whole.extend_from_slice(&transform(i));
    }
    for chunk_size in [1usize, 2, 7, 16, 102, 103, 104, 1000] {
        let mut joined: Vec<f64> = Vec::new();
        let mut from = 0;
        for end in chunk_ends(source.len(), chunk_size) {
            let mut chunk: Vec<f64> = Vec::new();
            for i in from..end {
                chunk.extend_from_slice(&transform(i));
            }
            joined.extend(chunk);
            from = end;
        }
        assert_eq!(joined.len(), whole.len());
        for (a, b) in joined.iter().zip(&whole) {
            assert_eq!(a.to_bits(), b.to_bits());
        }
    }
}

#[test]
fn vectors_hold_three_components() {
    let x = Real64 { bits: 1.0f64.to_bits() };
    let y = Real64 { bits: 2.0f64.to_bits() };
    let z = Real64 { bits: 3.0f64.to_bits() };
    let v = Vector::new(x, y, z);
    assert_eq!(v.as_slice(), &[x, y, z]);
    assert_eq!(v.component(1), y);
    assert_eq!(Vector::try_from_slice(&[x, y, z]), Some(v));
    assert_eq!(Vector::try_from_slice(&[x, y]), None);
    assert_eq!(Vector::try_from_slice(&[x, y, z, x]), None);
}
