use rand::rngs::StdRng;
use rand::SeedableRng;
use ray_ml::{merge_and_shuffle_datasets, pick_test_data, Class};

fn sample(tag: i8, class: Class) -> (Vec<i8>, Class) {
    (vec![tag, tag, tag], class)
}

fn count_of(data: &[(Vec<i8>, Class)], s: &(Vec<i8>, Class)) -> usize {
    data.iter().filter(|x| *x == s).count()
}

#[test]
fn merge_and_shuffle_keeps_every_record() {
    let mut rng = StdRng::seed_from_u64(42);
    let a = vec![sample(1, Class::Normal), sample(2, Class::Faint)];
    let b = vec![sample(3, Class::Seizure)];
    let c = vec![sample(1, Class::Normal)];
    let merged = merge_and_shuffle_datasets(vec![a, b, c], &mut rng);
    assert_eq!(merged.len(), 4);
    assert_eq!(count_of(&merged, &sample(1, Class::Normal)), 2);
    assert_eq!(count_of(&merged, &sample(2, Class::Faint)), 1);
    assert_eq!(count_of(&merged, &sample(3, Class::Seizure)), 1);
}

#[test]
fn merge_of_nothing_is_empty() {
    let mut rng = StdRng::seed_from_u64(7);
    let merged = merge_and_shuffle_datasets(vec![], &mut rng);
    assert!(merged.is_empty());
}

#[test]
fn pick_test_data_splits_without_loss() {
    let mut rng = StdRng::seed_from_u64(100);
    let mut dataset: Vec<(Vec<i8>, Class)> = (0..10)
        .map(|i| sample(i as i8, Class::from_i8((i % 3) as i8)))
        .collect();
    let original = dataset.clone();
    let test = pick_test_data(&mut dataset, 4, &mut rng);
    assert_eq!(test.len(), 4);
    assert_eq!(dataset.len(), 6);
    for s in &original {
        assert_eq!(count_of(&dataset, s) + count_of(&test, s), count_of(&original, s));
    }
}

#[test]
fn pick_test_data_can_take_everything() {
    let mut rng = StdRng::seed_from_u64(5);
    let mut dataset = vec![sample(1, Class::Normal), sample(2, Class::Faint)];
    let test = pick_test_data(&mut dataset, 2, &mut rng);
    assert_eq!(test.len(), 2);
    assert!(dataset.is_empty());
}
