use dictawav::preprocessor::get_next_power_of_2;

#[test]
fn it_works() {
    assert_eq!(2 + 2, 4);
}

#[test]
fn next_power_of_2() {
    let num32 = get_next_power_of_2(31usize);
    assert_eq!(num32, 32usize);
    let num1024 = get_next_power_of_2(844usize);
    assert_eq!(num1024, 1024usize);
    let num2 = get_next_power_of_2(1usize);
    assert_eq!(num2, 2usize);
}
