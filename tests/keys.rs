use pahkat_client::{AbsolutePackageKey, PackageKeyMarshaler};

fn key(url: &str, id: &str, channel: &str) -> AbsolutePackageKey {
    AbsolutePackageKey { url: url.to_string(), id: id.to_string(), channel: channel.to_string() }
}

#[test]
fn key_parse_scenario() {
    let k = AbsolutePackageKey::from_string("https://x.example/repo/packages/foo#stable").unwrap();
    assert_eq!(k.url, "https://x.example/repo/");
    assert_eq!(k.id, "foo");
    assert_eq!(k.channel, "stable");
}

#[test]
fn key_serialises_to_canonical_form() {
    let k = key("https://x.example/repo/", "foo", "stable");
    assert_eq!(k.to_string(), "https://x.example/repo/packages/foo#stable");
}

#[test]
fn key_round_trip() {
    for k in [
        key("https://x.example/repo/", "foo", "stable"),
        key("https://a.example/deep/path/", "bar-baz", "beta"),
        key("http://localhost:8080/", "x", "nightly/2"),
    ] {
        let back = AbsolutePackageKey::from_string(&k.to_string()).unwrap();
        assert_eq!(back, k);
    }
}

#[test]
fn key_rejects_malformed_text() {
    for s in [
        "https://x.example/repo/packages/foo",
        "https://x.example/repo/packages/foo#",
        "https://x.example/repo/packages/#stable",
        "https://x.example/repo/pkgs/foo#stable",
        "https://x.example/repo/packages/foo#stable#2",
        "packages/foo#stable",
        "/packages/foo#stable",
        "not a url/packages/foo#stable",
        "",
    ] {
        assert!(AbsolutePackageKey::from_string(s).is_err(), "{}", s);
    }
}

#[test]
fn key_marshaler_uses_string_form() {
    let k = key("https://x.example/repo/", "foo", "stable");
    let s = PackageKeyMarshaler::to_foreign(&k);
    assert_eq!(s, "https://x.example/repo/packages/foo#stable");
    assert_eq!(PackageKeyMarshaler::from_foreign(&s).unwrap(), k);
    assert!(PackageKeyMarshaler::from_foreign("nonsense").is_err());
}
