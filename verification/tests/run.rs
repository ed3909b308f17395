use smol_lsm::run::search_run;

fn run_of(keys: &[&[u8]]) -> Vec<(Vec<u8>, Option<Vec<u8>>)> {
    keys.iter()
        .map(|key| (key.to_vec(), Some(key.to_vec())))
        .collect()
}

#[test]
fn search_finds_each_entry() {
    let run = run_of(&[b"b", b"d", b"f", b"h", b"j"]);
    assert_eq!(search_run(&run, b"b"), Ok(0));
    assert_eq!(search_run(&run, b"d"), Ok(1));
    assert_eq!(search_run(&run, b"f"), Ok(2));
    assert_eq!(search_run(&run, b"h"), Ok(3));
    assert_eq!(search_run(&run, b"j"), Ok(4));
}

#[test]
fn search_gives_the_place_of_a_missing_key() {
    let run = run_of(&[b"b", b"d", b"f"]);
    assert_eq!(search_run(&run, b"a"), Err(0));
    assert_eq!(search_run(&run, b"c"), Err(1));
    assert_eq!(search_run(&run, b"e"), Err(2));
    assert_eq!(search_run(&run, b"g"), Err(3));
    assert_eq!(search_run(&run, b"bb"), Err(1));
    assert_eq!(search_run(&run, b""), Err(0));
}

#[test]
fn search_in_an_empty_run_finds_nothing() {
    let run = run_of(&[]);
    assert_eq!(search_run(&run, b"a"), Err(0));
}

#[test]
fn search_in_a_run_of_one() {
    let run = run_of(&[b"m"]);
    assert_eq!(search_run(&run, b"m"), Ok(0));
    assert_eq!(search_run(&run, b"a"), Err(0));
    assert_eq!(search_run(&run, b"z"), Err(1));
}

#[test]
fn search_agrees_with_a_scan() {
    let keys: Vec<Vec<u8>> = (0u8..40).map(|i| vec![i / 7, i * 3]).collect();
    let mut sorted = keys.clone();
    sorted.sort();
    sorted.dedup();
    let run: Vec<(Vec<u8>, Option<Vec<u8>>)> =
        sorted.iter().map(|key| (key.clone(), None)).collect();
    for first in 0u8..8 {
        for second in 0u8..130 {
            let probe = vec![first, second];
            let expected = match sorted.iter().position(|key| *key == probe) {
                Some(index) => Ok(index),
                None => Err(sorted.iter().filter(|key| **key < probe).count()),
            };
            assert_eq!(search_run(&run, &probe), expected);
        }
    }
}
