use ivf_store::math::{
    assign, collect, distances_among, distances_to, draw_handles, group, initial_centroids, kmeans,
    lloyd, lloyd_step, mean_vector, nearest_vector_index,
};
use ivf_store::vector::DenseVector;

fn dense(xs: &[f32]) -> DenseVector {
    DenseVector { elements: xs.iter().map(|x| x.to_bits()).collect() }
}

fn floats(v: &DenseVector) -> Vec<f32> {
    v.elements.iter().map(|w| f32::from_bits(*w)).collect()
}

fn euclid(a: &Vec<u32>, b: &Vec<u32>) -> u32 {
    a.iter()
        .zip(b.iter())
        .map(|(x, y)| (f32::from_bits(*x) - f32::from_bits(*y)).powi(2))
        .sum::<f32>()
        .sqrt()
        .to_bits()
}

fn average(column: &Vec<u32>) -> u32 {
    let mut sum = 0.0f32;
    for w in column.iter() {
        sum += f32::from_bits(*w);
    }
    (sum / column.len() as f32).to_bits()
}

fn points() -> Vec<DenseVector> {
    vec![
        dense(&[0.0, 0.0]),
        dense(&[0.0, 2.0]),
        dense(&[10.0, 10.0]),
        dense(&[12.0, 10.0]),
        dense(&[11.0, 13.0]),
    ]
}

#[test]
fn distances_come_in_the_order_of_the_candidates() {
    let ds = distances_to(&points(), &dense(&[0.0, 0.0]), &euclid);
    let ds: Vec<f32> = ds.iter().map(|w| f32::from_bits(*w)).collect();
    assert_eq!(ds[0], 0.0);
    assert_eq!(ds[1], 2.0);
    assert_eq!(ds[2], 200.0f32.sqrt());
    assert_eq!(ds.len(), 5);
}

#[test]
fn distances_among_follow_the_handles() {
    let ds = distances_among(&points(), &vec![1, 0, 1], &dense(&[0.0, 0.0]), &euclid);
    let ds: Vec<f32> = ds.iter().map(|w| f32::from_bits(*w)).collect();
    assert_eq!(ds, vec![2.0, 0.0, 2.0]);
}

#[test]
fn the_nearest_candidate_wins() {
    let i = nearest_vector_index(&dense(&[11.0, 11.0]), &points(), &euclid);
    assert_eq!(i, 2);
}

#[test]
fn the_first_of_equally_near_candidates_wins() {
    let candidates =
        vec![dense(&[3.0, 0.0]), dense(&[1.0, 0.0]), dense(&[-1.0, 0.0]), dense(&[0.0, 1.0])];
    assert_eq!(nearest_vector_index(&dense(&[0.0, 0.0]), &candidates, &euclid), 1);
}

#[test]
fn the_mean_averages_each_coordinate() {
    let group = vec![dense(&[1.0, 10.0]), dense(&[2.0, 20.0]), dense(&[6.0, 30.0])];
    let m = mean_vector(&group, &average);
    assert_eq!(floats(&m), vec![3.0, 20.0]);
}

#[test]
fn the_mean_of_one_vector_is_that_vector() {
    let m = mean_vector(&vec![dense(&[1.5, -2.5, 0.0])], &average);
    assert_eq!(floats(&m), vec![1.5, -2.5, 0.0]);
}

#[test]
fn the_mean_hands_each_column_over_in_the_order_of_the_group() {
    let first = |column: &Vec<u32>| column[0];
    let last = |column: &Vec<u32>| column[column.len() - 1];
    let group = vec![dense(&[1.0, 2.0]), dense(&[3.0, 4.0]), dense(&[5.0, 6.0])];
    assert_eq!(floats(&mean_vector(&group, &first)), vec![1.0, 2.0]);
    assert_eq!(floats(&mean_vector(&group, &last)), vec![5.0, 6.0]);
}

#[test]
fn a_draw_takes_no_handle_twice() {
    for _ in 0..50 {
        let mut picked = draw_handles(10, 4);
        assert_eq!(picked.len(), 4);
        assert!(picked.iter().all(|h| *h < 10));
        picked.sort();
        picked.dedup();
        assert_eq!(picked.len(), 4);
    }
}

#[test]
fn a_draw_of_everything_is_a_reordering() {
    let mut picked = draw_handles(6, 6);
    picked.sort();
    assert_eq!(picked, vec![0, 1, 2, 3, 4, 5]);
}

#[test]
fn a_draw_of_more_than_there_is_takes_everything() {
    let mut picked = draw_handles(3, 8);
    picked.sort();
    assert_eq!(picked, vec![0, 1, 2]);
    assert!(draw_handles(0, 2).is_empty());
}

#[test]
fn a_draw_of_nothing_is_empty() {
    assert!(draw_handles(5, 0).is_empty());
}

#[test]
fn the_first_centroids_are_vectors_of_the_input() {
    let vectors = points();
    for _ in 0..20 {
        let centroids = initial_centroids(&vectors, 3);
        assert_eq!(centroids.len(), 3);
        let mut at: Vec<usize> = centroids
            .iter()
            .map(|c| vectors.iter().position(|v| v.elements == c.elements).unwrap())
            .collect();
        at.sort();
        at.dedup();
        assert_eq!(at.len(), 3);
    }
}

#[test]
fn without_a_pass_kmeans_returns_its_sample() {
    let vectors = points();
    for _ in 0..20 {
        let centroids = kmeans(&vectors, 2, 0, &euclid, &average);
        assert_eq!(centroids.len(), 2);
        assert!(centroids.iter().all(|c| vectors.iter().any(|v| v.elements == c.elements)));
        assert_ne!(centroids[0].elements, centroids[1].elements);
    }
}

#[test]
fn without_a_pass_lloyd_returns_what_it_was_given() {
    let initial = vec![dense(&[5.0, 5.0]), dense(&[-3.0, 8.0])];
    let centroids = lloyd(&points(), initial.clone(), 0, &euclid, &average);
    assert_eq!(centroids.len(), 2);
    assert_eq!(centroids[0].elements, initial[0].elements);
    assert_eq!(centroids[1].elements, initial[1].elements);
}

#[test]
fn kmeans_returns_as_many_centroids_as_asked() {
    let vectors = points();
    for k in 1..=5 {
        let centroids = kmeans(&vectors, k, 3, &euclid, &average);
        assert_eq!(centroids.len(), k);
        assert!(centroids.iter().all(|c| c.elements.len() == 2));
    }
}

#[test]
fn kmeans_with_one_cluster_finds_the_mean_of_everything() {
    let centroids = kmeans(&points(), 1, 1, &euclid, &average);
    assert_eq!(floats(&centroids[0]), vec![33.0 / 5.0, 35.0 / 5.0]);
}

#[test]
fn kmeans_with_a_cluster_for_each_vector_keeps_the_vectors() {
    let vectors = points();
    let centroids = kmeans(&vectors, 5, 4, &euclid, &average);
    let mut got: Vec<Vec<u32>> = centroids.iter().map(|c| c.elements.clone()).collect();
    let mut want: Vec<Vec<u32>> = vectors.iter().map(|c| c.elements.clone()).collect();
    got.sort();
    want.sort();
    assert_eq!(got, want);
}

#[test]
fn assign_names_the_nearest_centroid_of_each_vector() {
    let centroids = vec![dense(&[0.0, 0.0]), dense(&[10.0, 10.0])];
    assert_eq!(assign(&points(), &centroids, &euclid), vec![0, 0, 1, 1, 1]);
}

#[test]
fn assign_gives_a_vector_between_two_centroids_to_the_first() {
    let centroids = vec![dense(&[2.0, 0.0]), dense(&[-2.0, 0.0]), dense(&[0.0, 2.0])];
    assert_eq!(assign(&vec![dense(&[0.0, 0.0])], &centroids, &euclid), vec![0]);
}

#[test]
fn group_sorts_the_handles_by_cluster() {
    let buckets = group(&vec![2, 0, 2, 1, 0, 2], 4);
    assert_eq!(buckets, vec![vec![1, 4], vec![3], vec![0, 2, 5], vec![]]);
}

#[test]
fn group_of_nothing_is_empty_buckets() {
    assert_eq!(group(&Vec::new(), 2), vec![Vec::<usize>::new(), Vec::new()]);
    assert!(group(&Vec::new(), 0).is_empty());
}

#[test]
fn collect_copies_in_the_order_of_the_handles() {
    let picked = collect(&points(), &vec![3, 0, 3]);
    assert_eq!(picked.len(), 3);
    assert_eq!(floats(&picked[0]), vec![12.0, 10.0]);
    assert_eq!(floats(&picked[1]), vec![0.0, 0.0]);
    assert_eq!(floats(&picked[2]), vec![12.0, 10.0]);
}

#[test]
fn a_pass_moves_each_centroid_to_the_mean_of_its_cluster() {
    let centroids = vec![dense(&[1.0, 1.0]), dense(&[9.0, 9.0])];
    let moved = lloyd_step(&points(), &centroids, &euclid, &average);
    assert_eq!(moved.len(), 2);
    assert_eq!(floats(&moved[0]), vec![0.0, 1.0]);
    assert_eq!(floats(&moved[1]), vec![11.0, 11.0]);
}

#[test]
fn a_centroid_without_a_cluster_stays_where_it_is() {
    let centroids = vec![dense(&[1.0, 1.0]), dense(&[500.0, 500.0]), dense(&[9.0, 9.0])];
    let moved = lloyd_step(&points(), &centroids, &euclid, &average);
    assert_eq!(floats(&moved[0]), vec![0.0, 1.0]);
    assert_eq!(floats(&moved[1]), vec![500.0, 500.0]);
    assert_eq!(floats(&moved[2]), vec![11.0, 11.0]);
    let again = lloyd(&points(), centroids, 6, &euclid, &average);
    assert_eq!(floats(&again[1]), vec![500.0, 500.0]);
}

#[test]
fn lloyd_runs_every_pass_it_was_given() {
    let initial = vec![dense(&[0.0, 0.0]), dense(&[0.0, 2.0])];
    let once = lloyd(&points(), initial.clone(), 1, &euclid, &average);
    assert_eq!(floats(&once[0]), vec![0.0, 0.0]);
    assert_eq!(floats(&once[1]), vec![33.0 / 4.0, 35.0 / 4.0]);
    let twice = lloyd(&points(), initial, 2, &euclid, &average);
    assert_eq!(floats(&twice[0]), vec![0.0, 1.0]);
    assert_eq!(floats(&twice[1]), vec![11.0, 11.0]);
}

#[test]
fn lloyd_keeps_the_order_of_the_centroids() {
    let initial = vec![dense(&[12.0, 12.0]), dense(&[-1.0, -1.0])];
    let centroids = lloyd(&points(), initial, 3, &euclid, &average);
    assert_eq!(floats(&centroids[0]), vec![11.0, 11.0]);
    assert_eq!(floats(&centroids[1]), vec![0.0, 1.0]);
}
