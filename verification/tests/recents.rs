//! The list of recent documents.
use pdfer::paths::{same_way, title};
use pdfer::recents::{path_hash, thumbnail_name, RecentDoc, Recents, MAX_ENTRIES};
use std::time::{SystemTime, UNIX_EPOCH};

fn doc(path: &str, pages: u32, opened_at: u64) -> RecentDoc {
    RecentDoc {
        path: path.to_owned(),
        title: path.to_owned(),
        pages,
        opened_at,
    }
}

#[test]
fn recents_detached_list_never_touches_disk() {
    let mut recents = Recents::default();
    assert!(recents.storage().is_none());
    recents.touch("whatever.pdf".to_owned(), 1, 5);
    assert!(recents.storage().is_none());
}

#[test]
fn touch_moves_existing_document_to_the_front() {
    let mut recents = Recents::new(vec![doc("a.pdf", 1, 1), doc("b.pdf", 2, 2)], None);

    recents.touch("b.pdf".to_owned(), 7, 9);

    assert_eq!(recents.entries().len(), 2);
    assert_eq!(recents.entries()[0].title, "b.pdf");
    assert_eq!(recents.entries()[0].pages, 7);
    assert_eq!(recents.entries()[0].opened_at, 9);
    assert_eq!(recents.entries()[1].title, "a.pdf");
}

#[test]
fn recents_list_is_capped() {
    let mut recents = Recents::default();
    for i in 0..(MAX_ENTRIES + 10) {
        recents.touch(format!("doc{i}.pdf"), 1, i as u64);
    }
    assert_eq!(recents.entries().len(), MAX_ENTRIES);
    assert_eq!(
        recents.entries()[0].title,
        format!("doc{}.pdf", MAX_ENTRIES + 9)
    );
}

#[test]
fn thumbnail_path_is_stable_and_distinct() {
    let a = thumbnail_name("book.pdf");
    let b = thumbnail_name("book.pdf");
    let c = thumbnail_name("other.pdf");
    assert_eq!(a, b);
    assert_ne!(a, c);
    assert_eq!(
        std::path::Path::new(&a).extension().and_then(|e| e.to_str()),
        Some("png")
    );
}

#[test]
fn relative_time_reads_naturally() {
    let now = SystemTime::now()
        .duration_since(UNIX_EPOCH)
        .map(|d| d.as_secs())
        .unwrap_or(0);
    let make = |ago: u64| doc("x.pdf", 1, now - ago);
    assert_eq!(make(10).opened_ago(now), "только что");
    assert_eq!(make(600).opened_ago(now), "10 мин назад");
    assert_eq!(make(7200).opened_ago(now), "2 ч назад");
    assert_eq!(make(90_000).opened_ago(now), "вчера");
    assert_eq!(make(300_000).opened_ago(now), "3 дн назад");
}

#[test]
fn relative_time_changes_on_the_second() {
    let at = |ago: u64| doc("x.pdf", 1, 1_000_000 - ago).opened_ago(1_000_000);
    assert_eq!(at(59), "только что");
    assert_eq!(at(60), "1 мин назад");
    assert_eq!(at(3_599), "59 мин назад");
    assert_eq!(at(3_600), "1 ч назад");
    assert_eq!(at(86_399), "23 ч назад");
    assert_eq!(at(86_400), "вчера");
    assert_eq!(at(172_799), "вчера");
    assert_eq!(at(172_800), "2 дн назад");
    // A clock that went back.
    assert_eq!(doc("x.pdf", 1, 500).opened_ago(100), "только что");
}

#[test]
fn the_hash_is_fnv_1a() {
    assert_eq!(path_hash(""), 0xcbf2_9ce4_8422_2325);
    assert_eq!(path_hash("a"), 0xaf63_dc4c_8601_ec8c);
    assert_eq!(path_hash("foobar"), 0x8594_4171_f739_67e8);
    assert_eq!(thumbnail_name("a"), "af63dc4c8601ec8c.png");
}

#[test]
fn removing_takes_the_entry_out() {
    let mut recents = Recents::new(
        vec![doc("a.pdf", 1, 1), doc("b.pdf", 2, 2)],
        Some("recents.json".to_owned()),
    );
    assert!(recents.remove("c.pdf").is_none());
    assert_eq!(recents.entries().len(), 2);
    let removed = recents.remove("a.pdf").unwrap();
    assert_eq!(removed.path, "a.pdf");
    assert_eq!(recents.entries().len(), 1);
    assert_eq!(recents.entries()[0].path, "b.pdf");
    assert_eq!(recents.storage().as_deref(), Some("recents.json"));
}

#[test]
fn a_document_is_shown_by_the_name_of_its_file() {
    assert_eq!(title("/home/me/book.pdf"), "book.pdf");
    assert_eq!(title("book.pdf"), "book.pdf");
    assert_eq!(title("a/book.pdf/"), "book.pdf");
    assert_eq!(title("a/book.pdf/."), "book.pdf");
    for whole in ["/", "", ".", "..", "a/.."] {
        assert_eq!(title(whole), whole);
        assert!(std::path::Path::new(whole).file_name().is_none());
    }
    let mut recents = Recents::default();
    recents.touch("/home/me/book.pdf".to_owned(), 3, 7);
    assert_eq!(recents.entries()[0].title, "book.pdf");
    recents.touch("..".to_owned(), 3, 7);
    assert_eq!(recents.entries()[0].title, "..");
}

#[test]
fn paths_are_compared_part_by_part() {
    let texts = ["a/b", "a//b", "a/./b", "./a/b", "/a/b", "/./a/b", "a/b/", "a/../b", "", "/", "."];
    for a in texts {
        for b in texts {
            let equal = std::path::Path::new(a) == std::path::Path::new(b);
            assert_eq!(same_way(a, b), equal, "{a} {b}");
        }
    }
    let mut recents = Recents::default();
    recents.touch("a//b.pdf".to_owned(), 1, 1);
    recents.touch("a/b.pdf".to_owned(), 2, 2);
    assert_eq!(recents.entries().len(), 1);
    assert_eq!(recents.entries()[0].path, "a/b.pdf");
    assert!(recents.remove("a/./b.pdf").is_some());
}

#[test]
fn different_documents_have_different_previews() {
    assert_ne!(path_hash("book.pdf"), path_hash("other.pdf"));
    assert_ne!(thumbnail_name("a//b.pdf"), thumbnail_name("a/b.pdf"));
    assert_eq!(thumbnail_name("book.pdf").len(), 20);
}
