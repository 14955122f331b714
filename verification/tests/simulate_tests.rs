use fauxrrt::simulate::check_nav_request;

#[test]
fn nav_requests_need_a_time_and_a_bounded_fragment_count() {
    assert_eq!(
        check_nav_request(0, true, 10),
        Err("add at least one time along the source trajectory".to_string())
    );
    assert_eq!(check_nav_request(10, true, 100), Ok(()));
    assert_eq!(check_nav_request(20, false, 100), Ok(()));
    assert_eq!(
        check_nav_request(11, true, 100),
        Err("nav + FTS would spawn 2200 fragments (max 2000). Use fewer times or pieces.".to_string())
    );
}
