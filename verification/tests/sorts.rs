use exercises::insertion_sort;
use exercises::shell_sort;
use rand::Rng;

#[test]
fn test_insertion_sort() {
    let mut rng = rand::thread_rng();

    let distr = rand::distributions::Uniform::new_inclusive(1u8, 100u8);

    let mut input = (1..1024).map(|_| rng.sample(distr)).collect::<Vec<u8>>();

    let mut sorted = input.clone();
    sorted.sort();

    insertion_sort::sort(&mut input);

    assert_eq!(input, sorted);
}

#[test]
fn test_shell_sort() {
    let mut rng = rand::thread_rng();

    let distr = rand::distributions::Uniform::new_inclusive(1u8, 100u8);

    let mut input = (1..10).map(|_| rng.sample(distr)).collect::<Vec<u8>>();

    let mut sorted = input.clone();
    sorted.sort();

    shell_sort::sort(&mut input);

    assert_eq!(input, sorted);
}

#[test]
fn insertion_sort_exact() {
    let mut input = vec![1, 3, 5, 7, 9, 8, 6, 4, 2];
    insertion_sort::sort(&mut input);
    assert_eq!(input, vec![1, 2, 3, 4, 5, 6, 7, 8, 9]);
}

#[test]
fn shell_sort_exact() {
    let mut input = vec![1, 3, 5, 7, 9, 8, 6, 4, 2];
    shell_sort::sort(&mut input);
    assert_eq!(input, vec![1, 2, 3, 4, 5, 6, 7, 8, 9]);
}

#[test]
fn insertion_sort_edge_cases() {
    let mut empty: Vec<u8> = vec![];
    insertion_sort::sort(&mut empty);
    assert_eq!(empty, Vec::<u8>::new());

    let mut single = vec![42u8];
    insertion_sort::sort(&mut single);
    assert_eq!(single, vec![42]);

    let mut dups = vec![5u8, 3, 5, 1, 3];
    insertion_sort::sort(&mut dups);
    assert_eq!(dups, vec![1, 3, 3, 5, 5]);

    // Sorting a sorted vector is a no-op.
    let mut again = dups.clone();
    insertion_sort::sort(&mut again);
    assert_eq!(again, dups);
}

#[test]
fn shell_sort_edge_cases() {
    let mut empty: Vec<u8> = vec![];
    shell_sort::sort(&mut empty);
    assert_eq!(empty, Vec::<u8>::new());

    let mut single = vec![42u8];
    shell_sort::sort(&mut single);
    assert_eq!(single, vec![42]);

    let mut reversed = vec![9u8, 8, 7, 6, 5, 4, 3, 2, 1];
    shell_sort::sort(&mut reversed);
    assert_eq!(reversed, vec![1, 2, 3, 4, 5, 6, 7, 8, 9]);

    let mut dups = vec![2u8, 2, 1, 1, 2];
    shell_sort::sort(&mut dups);
    assert_eq!(dups, vec![1, 1, 2, 2, 2]);
}
