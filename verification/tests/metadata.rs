use frame_store::metadata::{metadata_or_none, metadata_text, stored_metadata};

fn pair(name: &str, value: &str) -> (String, String) {
    (name.to_owned(), value.to_owned())
}

#[test]
fn metadata_read_back_as_they_were_stored() {
    let pairs = vec![pair("mtime", "42.0"), pair("a \"quoted\"\n", "\u{0}\u{e9}\\"), pair("", "")];
    let mut read = stored_metadata(&metadata_text(&pairs));
    let mut expected = pairs;
    read.sort();
    expected.sort();
    assert_eq!(read, expected);
    assert_eq!(metadata_text(&vec![]), "{}");
    assert_eq!(metadata_text(&vec![pair("mtime", "42.0")]), "{\"mtime\":\"42.0\"}");
}

#[test]
fn metadata_that_cannot_be_read_are_none() {
    assert_eq!(stored_metadata(" { \"k\" : \"v\" } "), vec![pair("k", "v")]);
    assert_eq!(stored_metadata("{\"k\":\"v\",\"k\":\"w\"}"), vec![pair("k", "w")]);
    for text in ["", "not json", "[]", "{\"k\":1}", "null"] {
        assert_eq!(stored_metadata(text), vec![]);
    }
    assert_eq!(metadata_or_none(None), vec![]);
    assert_eq!(metadata_or_none(Some(vec![pair("k", "v")])), vec![pair("k", "v")]);
}
