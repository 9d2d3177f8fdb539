use nginx_tail::collections::GroupMap;

#[test]
fn test_tagmap_with_short_tags() {
    let mut tagmap = GroupMap::new();
    assert!(tagmap.is_empty());
    assert_eq!(tagmap.len(), 0);

    let tag1 = tagmap.get_or_create("200".to_owned());
    assert_eq!(tagmap.stats[tag1].group, "200");
    assert_eq!(tagmap.len(), 1);
    assert_eq!(tagmap.shared_prefix, "");
    assert_eq!(tagmap.shared_suffix, "");

    let tag2 = tagmap.get_or_create("500".to_owned());
    assert_eq!(tagmap.stats[tag2].group, "500");
    assert_eq!(tagmap.len(), 2);
    assert_eq!(tagmap.shared_prefix, "");
    assert_eq!(tagmap.shared_suffix, "");

    tagmap.get_or_create("404".to_owned());
    assert_eq!(tagmap.len(), 3);
    assert_eq!(tagmap.shared_prefix, "");
    assert_eq!(tagmap.shared_suffix, "");

    // reuse tag
    tagmap.get_or_create("200".to_owned());
    assert_eq!(tagmap.len(), 3);
}

#[test]
fn test_tagmap_with_long_tags() {
    let mut tagmap = GroupMap::new();
    assert!(tagmap.is_empty());
    assert_eq!(tagmap.len(), 0);

    let tag1 = tagmap.get_or_create("/var/log/nginx/sites/customer_project_0/access.log".to_owned());
    assert_eq!(
        tagmap.stats[tag1].group,
        "/var/log/nginx/sites/customer_project_0/access.log"
    );
    assert_eq!(tagmap.len(), 1);
    assert_eq!(tagmap.shared_prefix, "");
    assert_eq!(tagmap.shared_suffix, "");

    let tag2 = tagmap.get_or_create("/var/log/nginx/sites/customer_project_1/access.log".to_owned());
    assert_eq!(
        tagmap.stats[tag2].group,
        "/var/log/nginx/sites/customer_project_1/access.log"
    );
    assert_eq!(tagmap.len(), 2);
    assert_eq!(tagmap.shared_prefix, "/var/log/nginx/sites/customer_p");
    assert_eq!(tagmap.shared_suffix, "/access.log");

    tagmap.get_or_create("/var/log/nginx/sites/customer_project_2/access.log".to_owned());
    assert_eq!(tagmap.len(), 3);
    assert_eq!(tagmap.shared_prefix, "/var/log/nginx/sites/customer_p");
    assert_eq!(tagmap.shared_suffix, "/access.log");

    // reuse tag
    tagmap.get_or_create("/var/log/nginx/sites/customer_project_1/access.log".to_owned());
    assert_eq!(tagmap.len(), 3);
    assert_eq!(tagmap.shared_prefix, "/var/log/nginx/sites/customer_p");
    assert_eq!(tagmap.shared_suffix, "/access.log");

    // like a "root" log file
    let tag5 = tagmap.get_or_create("/var/log/nginx/sites/access.log".to_owned());
    assert_eq!(tagmap.stats[tag5].group, "/var/log/nginx/sites/access.log");
    assert_eq!(tagmap.len(), 4);
    assert_eq!(tagmap.shared_prefix, "/var/log/nginx/sites/");
    assert_eq!(tagmap.shared_suffix, "/access.log");
}

#[test]
fn test_account_creates_sorted_rows_and_global_codes() {
    let mut map = GroupMap::new();
    map.account("a.log".to_owned(), "404".to_owned());
    map.account("a.log".to_owned(), "200".to_owned());
    map.account("b.log".to_owned(), "500".to_owned());
    map.account("a.log".to_owned(), "404".to_owned());

    assert_eq!(map.len(), 2);
    assert_eq!(map.stats[0].group, "a.log");
    // rows kept sorted by code within the group
    assert_eq!(map.stats[0].stats.len(), 2);
    assert_eq!(map.stats[0].stats[0].statuscode, "200");
    assert_eq!(map.stats[0].stats[1].statuscode, "404");
    assert_eq!(map.stats[0].stats[0].pending, 1);
    assert_eq!(map.stats[0].stats[1].pending, 2);
    // the global code list is the sorted union across groups
    let codes: Vec<&str> = map.global_statuscodes.iter().map(|s| s.as_str()).collect();
    assert_eq!(codes, ["200", "404", "500"]);
}
