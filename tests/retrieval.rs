use retrieval_rs::retrieval::{batch_bounds, filter_batch, rank_results, ranking_order, retrieve, RetrievalResult};

fn paths(names: &[&str]) -> Vec<String> {
    names.iter().map(|s| s.to_string()).collect()
}

fn scores(v: &[f32]) -> Vec<u32> {
    v.iter().map(|x| x.to_bits()).collect()
}

fn summary(r: &[RetrievalResult]) -> Vec<(String, f32)> {
    r.iter().map(|x| (x.path.clone(), f32::from_bits(x.similarity))).collect()
}

#[test]
fn three_images_threshold_and_top_two() {
    let p = paths(&["a.jpg", "b.jpg", "c.jpg"]);
    let s = scores(&[0.5, 0.1, 0.9]);
    let r = retrieve(&p, &s, 0.2f32.to_bits(), 2);
    assert_eq!(summary(&r), vec![("c.jpg".to_string(), 0.9), ("a.jpg".to_string(), 0.5)]);
}

#[test]
fn empty_collection_gives_empty_result() {
    let r = retrieve(&Vec::new(), &Vec::new(), 0.2f32.to_bits(), 5);
    assert!(r.is_empty());
}

#[test]
fn threshold_is_inclusive() {
    let p = paths(&["a", "b", "c"]);
    let s = scores(&[0.2, 0.19999, 0.3]);
    let r = retrieve(&p, &s, 0.2f32.to_bits(), 10);
    assert_eq!(summary(&r), vec![("c".to_string(), 0.3), ("a".to_string(), 0.2)]);
}

#[test]
fn top_k_larger_than_filtered() {
    let p = paths(&["a", "b"]);
    let s = scores(&[0.4, 0.6]);
    let r = retrieve(&p, &s, 0.0f32.to_bits(), 5);
    assert_eq!(r.len(), 2);
    let r0 = retrieve(&p, &s, 0.0f32.to_bits(), 0);
    assert!(r0.is_empty());
}

#[test]
fn ties_keep_input_order() {
    let p = paths(&["a", "b", "c", "d"]);
    let s = scores(&[0.5, 0.7, 0.5, 0.7]);
    let r = retrieve(&p, &s, 0.0f32.to_bits(), 4);
    let names: Vec<String> = r.iter().map(|x| x.path.clone()).collect();
    assert_eq!(names, paths(&["b", "d", "a", "c"]));
}

#[test]
fn nan_ranks_last_and_never_passes() {
    let p = paths(&["a", "b", "c"]);
    let s = scores(&[f32::NAN, -0.5, 0.25]);
    let all: Vec<RetrievalResult> = p.iter().zip(s.iter()).map(|(a, b)| RetrievalResult::new(a.clone(), *b)).collect();
    assert_eq!(ranking_order(&all), vec![2, 1, 0]);
    let r = retrieve(&p, &s, (-1.0f32).to_bits(), 3);
    assert_eq!(summary(&r), vec![("c".to_string(), 0.25), ("b".to_string(), -0.5)]);
}

#[test]
fn batch_size_does_not_change_result() {
    let p = paths(&["a", "b", "c", "d", "e"]);
    let s = scores(&[0.3, 0.9, 0.1, 0.6, 0.3]);
    let t = 0.2f32.to_bits();
    let mut one_by_one = Vec::new();
    for (start, end) in batch_bounds(p.len(), 1) {
        filter_batch(&mut one_by_one, &p[start..end].to_vec(), &s[start..end].to_vec(), t);
    }
    let mut in_twos = Vec::new();
    for (start, end) in batch_bounds(p.len(), 2) {
        filter_batch(&mut in_twos, &p[start..end].to_vec(), &s[start..end].to_vec(), t);
    }
    assert_eq!(summary(&one_by_one), summary(&in_twos));
    let a = rank_results(&one_by_one, 3);
    let b = rank_results(&in_twos, 3);
    assert_eq!(summary(&a), summary(&b));
    assert_eq!(summary(&a), vec![("b".to_string(), 0.9), ("d".to_string(), 0.6), ("a".to_string(), 0.3)]);
}

#[test]
fn batch_bounds_cover_in_order() {
    assert_eq!(batch_bounds(5, 2), vec![(0, 2), (2, 4), (4, 5)]);
    assert_eq!(batch_bounds(4, 32), vec![(0, 4)]);
    assert_eq!(batch_bounds(64, 32), vec![(0, 32), (32, 64)]);
    assert!(batch_bounds(0, 32).is_empty());
}

#[test]
fn filter_batch_appends_to_existing() {
    let mut acc = vec![RetrievalResult::new("old".to_string(), 0.8f32.to_bits())];
    filter_batch(&mut acc, &paths(&["x", "y"]), &scores(&[0.1, 0.5]), 0.2f32.to_bits());
    assert_eq!(summary(&acc), vec![("old".to_string(), 0.8), ("y".to_string(), 0.5)]);
}
