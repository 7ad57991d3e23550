use chainbot::redtube::SearchVideo;

#[test]
fn empty_request_has_no_params() {
    let req = SearchVideo::default();
    assert_eq!(req.query_params(), Vec::<(String, String)>::new());
}

#[test]
fn search_builder_sets_only_the_term() {
    let req = SearchVideo::default().search("cats");
    let params = req.query_params();
    assert_eq!(params, vec![("search".to_string(), "cats".to_string())]);
}

#[test]
fn set_fields_appear_in_request_order() {
    let mut req = SearchVideo::default().search("cats");
    req.page = Some(3);
    req.tags = Some(vec!["a".to_string(), "b".to_string(), "c".to_string()]);
    let params = req.query_params();
    assert_eq!(
        params,
        vec![
            ("page".to_string(), "3".to_string()),
            ("search".to_string(), "cats".to_string()),
            ("tags".to_string(), "a,b,c".to_string()),
        ]
    );
}

#[test]
fn enum_fields_use_their_wire_names() {
    let mut req = SearchVideo::default();
    req.ordering = Some(chainbot::redtube::Ordering::default());
    req.thumbsize = Some(chainbot::redtube::Thumbsize::default());
    req.period = Some(chainbot::redtube::Period::default());
    let params = req.query_params();
    assert_eq!(
        params,
        vec![
            ("thumbsize".to_string(), "all".to_string()),
            ("ordering".to_string(), "mostviewed".to_string()),
            ("period".to_string(), "alltime".to_string()),
        ]
    );
}
