use doublelist::DoubleList;
use rand::Rng;

fn test_forward<T>(sample: &Vec<T>, list: &DoubleList<T>)
where
    T: std::fmt::Display + std::fmt::Debug + std::cmp::PartialEq,
{
    let mut i = sample.len() - 1;
    let mut it = list.iter();
    while let Some(x) = it.next() {
        assert_eq!(*x, sample[i]);
        if i > 0 {
            i -= 1;
        }
    }
}

fn test_reverse<T>(sample: &Vec<T>, list: &DoubleList<T>)
where
    T: std::fmt::Display + std::fmt::Debug + std::cmp::PartialEq,
{
    let mut i = 0;
    let mut it = list.iter_rev();
    while let Some(x) = it.next() {
        assert_eq!(*x, sample[i]);
        i += 1;
    }
}

fn add_to_list(sample: &Vec<i32>) -> DoubleList<i32> {
    let mut list: DoubleList<i32> = DoubleList::new();
    for s in sample {
        list.insert_front(*s);
    }

    list
}

#[test]
fn test_insert_front() {
    let sample = vec![1, 4, 43, 9, 3, 56, 4];

    let mut list: DoubleList<i32> = DoubleList::new();
    for s in &sample {
        list.insert_front(*s);
    }

    test_forward(&sample, &list);
    test_reverse(&sample, &list);
}

#[test]
fn test_insert_back() {
    let mut rng = rand::thread_rng();
    let mut sample: Vec<i32> = Vec::with_capacity(64);

    for _ in 0..64 {
        let x: i32 = rng.gen();
        sample.push(x);
    }

    let mut list: DoubleList<i32> = DoubleList::new();
    for s in &sample {
        list.insert_back(*s);
    }

    // the two functions test_forward and test_reverse were written
    // from the insert_front angle so we need to reverse the sample list
    sample.reverse();
    // test if they match
    test_forward(&sample, &list);
    test_reverse(&sample, &list);
}

/// checks if returning a double list from a function works
#[test]
fn test_ret_from_fn() {
    let sample = vec![1, 4, 43, 4, 5, 7, 9, 10, 11];
    let list = add_to_list(&sample);

    test_forward(&sample, &list);
    test_reverse(&sample, &list);
}

/// checks that deletion drops the first match and reports a miss
#[test]
fn test_delete() {
    let mut sample = vec![1, 4, 43, 4, 5, 7, 9, 10, 11];
    let mut list = add_to_list(&sample);

    assert!(list.delete(&43).is_ok(), "delete could not find node");
    assert!(list.delete(&1043).is_err(), "delete did not return error");

    sample.remove(2);

    test_forward(&sample, &list);
    test_reverse(&sample, &list);
}
