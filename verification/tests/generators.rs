use sparql_update_gen::generator::{
    as_is_changeset_triple_generator, fixed_size_changeset_triple_generator,
    random_distinct_triple_generator, random_triple_generator, FixedSizeChangesetGenerator,
    TripleGenerator,
};
use sparql_update_gen::sizes::{sort_indices, sort_sizes};
use sparql_update_gen::sorting::{merge, merge_sort, sort_range};
use sparql_update_gen::triples::CompressedRdfTriples;

fn numbered(n: u64) -> CompressedRdfTriples {
    CompressedRdfTriples::new((0..n).map(|i| [i, 100 + i, 200 + i]).collect())
}

#[test]
fn random_distinct_gives_no_triple_twice() {
    let triples = numbered(200);
    let mut generator = random_distinct_triple_generator(&triples, 150);
    let mut all = Vec::new();
    for size in [1, 10, 0, 100, 30] {
        let batch = generator.next_batch(size);
        assert_eq!(batch.len(), size);
        all.extend(batch);
    }
    assert_eq!(all.len(), 141);
    assert!(all.windows(2).all(|w| w[0][0] < w[1][0]));
    assert!(all.iter().all(|t| triples.contains(t)));
    let tail = generator.next_batch(50);
    assert_eq!(tail.len(), 9);
    assert!(tail[0][0] > all[140][0]);
    assert!(generator.next_batch(50).is_empty());
}

#[test]
fn random_distinct_can_take_the_whole_dataset() {
    let triples = numbered(20);
    let mut generator = random_distinct_triple_generator(&triples, 20);
    assert_eq!(generator.next_batch(20), triples.as_slice().to_vec());
}

#[test]
fn random_batches_hold_no_position_twice() {
    let triples = numbered(30);
    let mut generator = random_triple_generator(&triples);
    for size in [0, 1, 29, 30, 7] {
        let batch = generator.next_batch(size);
        assert_eq!(batch.len(), size);
        assert!(batch.windows(2).all(|w| w[0][0] < w[1][0]));
        assert!(batch.iter().all(|t| triples.contains(t)));
    }
    assert_eq!(generator.next_batch(30), triples.as_slice().to_vec());
}

#[test]
fn fixed_size_batches_wrap_around_backwards() {
    let dataset = CompressedRdfTriples::new(vec![[1, 0, 0], [2, 0, 0], [4, 0, 0], [5, 0, 0], [6, 0, 0]]);
    let changesets = [
        CompressedRdfTriples::new(vec![[1, 0, 0], [9, 0, 0]]),
        CompressedRdfTriples::new(vec![[2, 0, 0], [3, 0, 0]]),
        CompressedRdfTriples::new(vec![[5, 0, 0], [4, 0, 0]]),
        CompressedRdfTriples::new(vec![[6, 0, 0]]),
    ];
    let mut generator = FixedSizeChangesetGenerator::starting_at(&changesets, &dataset, 2);
    assert_eq!(
        generator.next_batch(10),
        vec![[5, 0, 0], [4, 0, 0], [6, 0, 0], [2, 0, 0], [1, 0, 0]]
    );
    assert_eq!(generator.next_batch(3), vec![[5, 0, 0], [4, 0, 0], [6, 0, 0]]);
    assert_eq!(generator.next_batch(4), vec![[5, 0, 0], [4, 0, 0], [6, 0, 0], [2, 0, 0]]);
    assert_eq!(generator.next_batch(0), Vec::<[u64; 3]>::new());
    let mut from_start = FixedSizeChangesetGenerator::starting_at(&changesets, &dataset, 0);
    assert_eq!(from_start.next_batch(2), vec![[1, 0, 0], [2, 0, 0]]);
}

#[test]
fn fixed_size_starts_at_some_changeset() {
    let dataset = CompressedRdfTriples::new(vec![[1, 0, 0], [2, 0, 0], [3, 0, 0]]);
    let changesets = [
        CompressedRdfTriples::new(vec![[1, 0, 0]]),
        CompressedRdfTriples::new(vec![[2, 0, 0]]),
        CompressedRdfTriples::new(vec![[3, 0, 0]]),
    ];
    for _ in 0..20 {
        let mut generator = fixed_size_changeset_triple_generator(&changesets, &dataset);
        let first = generator.next_batch(3);
        assert!(
            first == vec![[1, 0, 0], [2, 0, 0], [3, 0, 0]]
                || first == vec![[2, 0, 0], [3, 0, 0], [1, 0, 0]]
                || first == vec![[3, 0, 0], [2, 0, 0], [1, 0, 0]]
        );
        assert_eq!(generator.next_batch(3), first);
    }
}

#[test]
fn as_is_takes_the_nearest_unused_changeset() {
    let changesets = [numbered(5), numbered(2), numbered(8), numbered(2), numbered(11)];
    let mut generator = as_is_changeset_triple_generator(&changesets);
    assert_eq!(generator.next_batch(3), numbered(2).as_slice().to_vec());
    assert_eq!(generator.choose_changeset(3), 3);
    assert_eq!(generator.next_batch(3).len(), 5);
    assert_eq!(generator.next_batch(100), numbered(11).as_slice().to_vec());
    assert_eq!(generator.choose_changeset(0), 2);
}

#[test]
fn as_is_breaks_ties_by_position() {
    let changesets = [numbered(6), numbered(4), numbered(6), numbered(4)];
    let mut generator = as_is_changeset_triple_generator(&changesets);
    assert_eq!(generator.choose_changeset(5), 0);
    assert_eq!(generator.choose_changeset(5), 1);
    assert_eq!(generator.choose_changeset(5), 2);
    assert_eq!(generator.choose_changeset(5), 3);
}

#[test]
fn sorted_runs_are_merged() {
    assert_eq!(merge(&vec![1usize, 4, 4, 9], &vec![0, 4, 10]), vec![0, 1, 4, 4, 4, 9, 10]);
    assert_eq!(merge(&vec![], &vec![2usize]), vec![2]);
    assert_eq!(sort_range(&vec![9usize, 8, 7, 6, 5], 1, 4), vec![6, 7, 8]);
    let mut v: Vec<usize> = (0..100).map(|i| (i * 37) % 101).collect();
    merge_sort(&mut v);
    assert!(v.windows(2).all(|w| w[0] < w[1]));
    assert_eq!(v.len(), 100);
}

#[test]
fn sizes_are_sorted() {
    let mut sizes = vec![5, 1, 4, 1, 0, usize::MAX, 3];
    sort_sizes(&mut sizes);
    assert_eq!(sizes, vec![0, 1, 1, 3, 4, 5, usize::MAX]);
    let mut indices = vec![9, 3, 7, 0];
    sort_indices(&mut indices, 10);
    assert_eq!(indices, vec![0, 3, 7, 9]);
}
