use scopesentry::expand::expand_targets;

fn views(v: &Vec<String>) -> Vec<&str> {
    v.iter().map(|s| s.as_str()).collect()
}

#[test]
fn opaque_tokens_sorted_dedup() {
    let out = expand_targets(
        "https://a.example\nhttp://b.example\nhttps://a.example\n",
        "",
    );
    assert_eq!(views(&out), vec!["http://b.example", "https://a.example"]);
}

#[test]
fn plain_host_passes_through() {
    let out = expand_targets("example.com", "");
    assert_eq!(views(&out), vec!["example.com"]);
}

#[test]
fn range_enumerates_inclusive() {
    let out = expand_targets("10.0.0.1-10.0.0.3", "");
    assert_eq!(views(&out), vec!["10.0.0.1", "10.0.0.2", "10.0.0.3"]);
}

#[test]
fn reversed_range_is_empty() {
    let out = expand_targets("10.0.0.3-10.0.0.1", "");
    assert!(out.is_empty());
}

#[test]
fn range_with_invalid_side_is_opaque() {
    let out = expand_targets("10.0.0.01-10.0.0.2", "");
    assert_eq!(views(&out), vec!["10.0.0.01-10.0.0.2"]);
}

#[test]
fn cidr_yields_usable_hosts_only() {
    let out = expand_targets("10.0.0.0/30", "");
    assert_eq!(views(&out), vec!["10.0.0.1", "10.0.0.2"]);
}

#[test]
fn cidr_slash_31_keeps_both() {
    let out = expand_targets("10.0.0.0/31", "");
    assert_eq!(views(&out), vec!["10.0.0.0", "10.0.0.1"]);
}

#[test]
fn cidr_slash_32_keeps_single() {
    let out = expand_targets("10.0.0.7/32", "");
    assert_eq!(views(&out), vec!["10.0.0.7"]);
}

#[test]
fn cidr_host_bits_use_network() {
    let out = expand_targets("10.0.0.1/30", "");
    assert_eq!(views(&out), vec!["10.0.0.1", "10.0.0.2"]);
}

#[test]
fn ipv6_cidr_yields_nothing() {
    let out = expand_targets("2001:db8::/64", "");
    assert!(out.is_empty());
}

#[test]
fn invalid_cidr_is_opaque() {
    let out = expand_targets("10.0.0.0/33", "");
    assert_eq!(views(&out), vec!["10.0.0.0/33"]);
}

#[test]
fn cidr_octets_allow_leading_zeros() {
    let out = expand_targets("010.0.0.0/30", "");
    assert_eq!(views(&out), vec!["10.0.0.1", "10.0.0.2"]);
}

#[test]
fn cidr_prefix_takes_two_digits_at_most() {
    let out = expand_targets("10.0.0.0/024", "");
    assert_eq!(views(&out), vec!["10.0.0.0/024"]);
}

#[test]
fn range_sides_reject_leading_zeros() {
    let out = expand_targets("010.0.0.1-010.0.0.2", "");
    assert_eq!(views(&out), vec!["010.0.0.1-010.0.0.2"]);
}

#[test]
fn expansion_is_idempotent() {
    let raw = "10.0.0.0/30\nexample.com\nhttps://a.example";
    let ignore = "10.0.0.2";
    let a = expand_targets(raw, ignore);
    let b = expand_targets(raw, ignore);
    assert_eq!(a, b);
}

#[test]
fn exact_ignore_excludes_verbatim() {
    let out = expand_targets("a.example\nb.example", "a.example");
    assert_eq!(views(&out), vec!["b.example"]);
}

#[test]
fn exact_ignore_strips_scheme() {
    let out = expand_targets("a.example\nb.example", "https://a.example");
    assert_eq!(views(&out), vec!["b.example"]);
}

#[test]
fn exact_ignore_drops_range_member() {
    let out = expand_targets("10.0.0.1-10.0.0.3", "10.0.0.2");
    assert_eq!(views(&out), vec!["10.0.0.1", "10.0.0.3"]);
}

#[test]
fn wildcard_keeps_only_matching_candidates() {
    // the observed policy: with wildcard rules present, a candidate is
    // kept only when it matches every one of them
    let out = expand_targets("a.example.com\nb.other.com", "*.example.com");
    assert_eq!(views(&out), vec!["a.example.com"]);
}

#[test]
fn two_wildcards_must_both_match() {
    let out = expand_targets("a.example.com\nwww.example.com", "*example*\n*www*");
    assert_eq!(views(&out), vec!["www.example.com"]);
}

#[test]
fn blank_lines_and_spaces_are_skipped() {
    let out = expand_targets("  \n\nexample.com\n   \n", "");
    assert_eq!(views(&out), vec!["example.com"]);
}

#[test]
fn lines_are_trimmed() {
    let out = expand_targets("  example.com  \r\n", "");
    assert_eq!(views(&out), vec!["example.com"]);
}
