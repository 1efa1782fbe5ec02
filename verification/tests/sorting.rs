use merge_sort::{merge_sort, merge_sort_parallel};

#[derive(Debug, Clone, PartialEq, PartialOrd)]
struct TestStruct(f64);

#[test]
fn integers() {
    assert_eq!(
        Ok(vec![1, 2, 3, 4, 5, 6, 7, 8, 9]),
        merge_sort(&vec![9, 8, 7, 6, 5, 4, 3, 2, 1])
    );
    assert_eq!(
        Ok(vec![1, 2, 3, 4, 5, 6, 7, 8]),
        merge_sort(&vec![8, 7, 6, 5, 4, 3, 2, 1])
    );
}

#[test]
fn floats() {
    assert_eq!(
        Err("Can't compare"),
        merge_sort(&vec![std::f64::NAN, std::f64::NAN])
    );
    assert_eq!(
        Ok(vec![1.0, 2.0, 3.0, 4.0, 5.0, 6.0, 7.0, 8.0, 9.0]),
        merge_sort(&vec![9.0, 8.0, 7.0, 6.0, 5.0, 4.0, 3.0, 2.0, 1.0])
    );
    assert_eq!(
        Ok(vec![1.0, 2.0, 3.0, 4.0, 5.0, 6.0, 7.0, 8.0]),
        merge_sort(&vec![8.0, 7.0, 6.0, 5.0, 4.0, 3.0, 2.0, 1.0])
    );
}

#[test]
fn single_element() {
    assert_eq!(Ok(vec![0]), merge_sort(&vec![0]));
}

#[test]
fn structs() {
    assert_eq!(
        Ok(vec![TestStruct(-0.5), TestStruct(0.5)]),
        merge_sort(&vec![TestStruct(0.5), TestStruct(-0.5)])
    );
}

#[test]
fn test10k() {
    let base: u32 = 100;
    let len = base * base;
    let mut actual: Vec<u32> = Vec::with_capacity(len as usize);
    let mut expected: Vec<u32> = Vec::with_capacity(len as usize);
    for i in 0..len {
        actual.push(i / base);
        expected.push((base - 1) - i % base);
    }
    assert_eq!(Ok(actual), merge_sort(&expected));
}

#[test]
fn test10k_parallel() {
    let base: u32 = 100;
    let len = base * base;
    let mut actual: Vec<u32> = Vec::with_capacity(len as usize);
    let mut expected: Vec<u32> = Vec::with_capacity(len as usize);
    for i in 0..len {
        actual.push(i / base);
        expected.push((base - 1) - i % base);
    }
    assert_eq!(Ok(actual), merge_sort_parallel(&expected, 4));
}
