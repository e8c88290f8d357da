use ttm::regex_utils::filter_inner_capture_group_names;

#[test]
fn regex_utils_test_filter_inner_capture_group_names() {
    assert_eq!(filter_inner_capture_group_names(r"(?P<VALUE>(?P<NUMBER>[0-9]))"), r"(?P<VALUE>([0-9]))");
    assert_eq!(filter_inner_capture_group_names(r"TEST (?P<TOP> (?P<INNER>SOMETHING))"), r"TEST (?P<TOP> (SOMETHING))");
    assert_eq!(
        filter_inner_capture_group_names(r"TEST (?P<TOP> (?P<INNER>SOMETHING (?P<INNER2>SOMETHING_ELSE)) (?P<INNER>SOMETHING))"),
        r"TEST (?P<TOP> (SOMETHING (SOMETHING_ELSE)) (SOMETHING))"
    );
}

#[test]
fn test_filter_is_idempotent_and_keeps_top_names() {
    let deep = r"(?P<A>(?P<B>(?P<C>x)(?P<D>y)))(?P<E>z)";
    let once = filter_inner_capture_group_names(deep);
    assert_eq!(once, r"(?P<A>((x)(y)))(?P<E>z)");
    assert_eq!(filter_inner_capture_group_names(&once), once);
    assert_eq!(filter_inner_capture_group_names("no groups"), "no groups");
}
