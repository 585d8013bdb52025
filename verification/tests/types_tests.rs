use cuts_core::paths::safe_join;
use std::path::{Component, Path, PathBuf};
use cuts_core::types::AssetFlags;

#[test]
fn flags_truncate_and_contain() {
    assert_eq!(AssetFlags::from_bits_truncate(0xFF).bits(), 1);
    assert_eq!(AssetFlags::from_bits_truncate(0xFE).bits(), 0);
    assert_eq!(AssetFlags::empty().bits(), 0);
    let c = AssetFlags::compressed();
    assert!(c.contains(AssetFlags::compressed()));
    assert!(c.contains(AssetFlags::empty()));
    assert!(!AssetFlags::empty().contains(c));
    let mut f = AssetFlags::empty();
    f.insert(AssetFlags::compressed());
    assert_eq!(f, AssetFlags::compressed());
    assert_eq!(AssetFlags::from_bits_truncate(f.bits()), f);
}

#[test]
fn safe_join_keeps_normal_components() {
    assert_eq!(safe_join("out", "a/b.png").as_deref(), Some("out/a/b.png"));
    assert_eq!(safe_join("out", "a//b").as_deref(), Some("out/a/b"));
    assert_eq!(safe_join("out", "a/./b").as_deref(), Some("out/a/b"));
    assert_eq!(safe_join("out", "a/").as_deref(), Some("out/a"));
    assert_eq!(safe_join("out", "a/.").as_deref(), Some("out/a"));
    assert_eq!(safe_join("out/", "a").as_deref(), Some("out/a"));
    assert_eq!(safe_join("", "a/b").as_deref(), Some("a/b"));
    assert_eq!(safe_join("out", "...").as_deref(), Some("out/..."));
    assert_eq!(safe_join("out", "é/ü").as_deref(), Some("out/é/ü"));
}

#[test]
fn safe_join_refuses_escaping_ids() {
    assert_eq!(safe_join("out", ""), None);
    assert_eq!(safe_join("out", "../x"), None);
    assert_eq!(safe_join("out", "a/../x"), None);
    assert_eq!(safe_join("out", "a/.."), None);
    assert_eq!(safe_join("out", "/etc/passwd"), None);
    assert_eq!(safe_join("out", "./a"), None);
    assert_eq!(safe_join("out", "."), None);
    assert_eq!(safe_join("out", "a\\b"), None);
    assert_eq!(safe_join("out", "a\0b"), None);
}

#[test]
fn safe_join_matches_std_path_on_accepted_ids() {
    for id in ["a/b", "x//y/./z", "k/", "deep/er/still.txt"] {
        let mut expected = PathBuf::from("base");
        for comp in Path::new(id).components() {
            match comp {
                Component::Normal(c) => expected.push(c),
                _ => panic!("unexpected component"),
            }
        }
        assert_eq!(
            safe_join("base", id).map(PathBuf::from),
            Some(expected)
        );
    }
}
