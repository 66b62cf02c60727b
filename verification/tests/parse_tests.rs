use lsmtree::parse_sstable_name;

#[test]
fn test_parse_sstable_name() {
    assert_eq!(parse_sstable_name("1-0.sst"), Ok((1, 0)));
    assert_eq!(parse_sstable_name("123-456.sst"), Ok((123, 456)));
    assert_eq!(parse_sstable_name(""), Err(()));
    assert_eq!(parse_sstable_name("-0.sst"), Err(()));
    assert_eq!(parse_sstable_name("1-.sst"), Err(()));
    assert_eq!(parse_sstable_name("1-0."), Err(()));
    assert_eq!(parse_sstable_name("1-0"), Err(()));
}

#[test]
fn test_parse_rejects_non_grammar() {
    assert_eq!(parse_sstable_name("1-0.sstx"), Err(()));
    assert_eq!(parse_sstable_name("a-0.sst"), Err(()));
    assert_eq!(parse_sstable_name("1-b.sst"), Err(()));
    assert_eq!(parse_sstable_name("+1-0.sst"), Err(()));
    assert_eq!(parse_sstable_name("99999999999-0.sst"), Err(()));
    assert_eq!(parse_sstable_name("007-08.sst"), Ok((7, 8)));
}
