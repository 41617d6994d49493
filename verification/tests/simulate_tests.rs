use setcover::simulate::draw_set_collection;

#[test]
fn test_draw_set_collection_size() {
    let n_sets = 5;
    let n_elements = 20;
    let max_elements = 100;
    let result = draw_set_collection(n_sets, n_elements, max_elements);
    assert_eq!(
        result.len(),
        n_sets as usize,
        "Number of sets should match n_sets"
    );
}

#[test]
fn test_draw_set_collection_element_range() {
    let n_sets = 3;
    let n_elements = 50;
    let max_elements = 30;
    let result = draw_set_collection(n_sets, n_elements, max_elements);
    for set in result {
        for &element in set.iter() {
            assert!(
                element <= max_elements,
                "Elements should be less than or equal to max_elements"
            );
        }
    }
}

#[test]
fn test_draw_set_collection_total_elements() {
    let n_sets = 4;
    let n_elements = 100;
    let max_elements = 200;
    let result = draw_set_collection(n_sets, n_elements, max_elements);
    let mut n_counted_elements: u32 = 0;
    for set in &result {
        for _ in set.iter() {
            n_counted_elements += 1
        }
    }
    assert!(
        n_counted_elements > 0,
        "There should be at least one counted element"
    );
    assert!(
        n_counted_elements as usize <= n_elements,
        "There should be less or equal elements than argument n_elements"
    );
    assert_eq!(result.len(), n_sets as usize);
}
