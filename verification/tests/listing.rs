use mpvserve::db::movie_servings::Model;
use mpvserve::db::FindReply;
use mpvserve::http::{HostHeader, UserId};
use mpvserve::reading_dirs::{
    checked_percentage, entry_hash, get_dir_link, get_extension, get_item_progress, get_mpv_link,
    get_path_properties, hex_of, is_movie_extension, movie_key, percentage, put_entry, read_dir,
    sort_by_name, DirEntryInfo, FileTypes, ReadDirResult, ResultItem, ResultItemProgress,
    ScannedEntry,
};
use mpvserve::text::{bytes_before, chars_of, name_before, split_components, strip_prefix};
use mpvserve::tracked_file_stream::TrackedFileStream;

fn host() -> HostHeader {
    HostHeader::from_header(Some("media.local:8000")).unwrap()
}

fn viewer() -> UserId {
    UserId::from_cookie_or(Some("viewer-1"), String::new()).0
}

fn child(name: &str, file_type: FileTypes) -> DirEntryInfo {
    DirEntryInfo {
        path: Some(format!("/movies/{}", name)),
        file_name: Some(name.to_string()),
        file_type: Some(file_type),
    }
}

fn scanned(entry: DirEntryInfo) -> ScannedEntry {
    ScannedEntry { entry, lookup: FindReply::Missing }
}

fn names(items: &[ResultItem]) -> Vec<String> {
    items.iter().map(|item| item.name.clone()).collect()
}

fn record(path: &str, timestamp: i64, position: i64, length: i64) -> Model {
    Model {
        path: path.to_string(),
        last_timestamp: timestamp,
        last_file_position: position,
        file_length: length,
    }
}

#[test]
fn percentage_is_rounded_down() {
    assert_eq!(percentage(0, 100), 0);
    assert_eq!(percentage(50, 100), 50);
    assert_eq!(percentage(1, 3), 33);
    assert_eq!(percentage(2, 3), 66);
    assert_eq!(percentage(999, 1000), 99);
    assert_eq!(percentage(1000, 1000), 100);
    assert_eq!(percentage(3, 2), 150);
}

#[test]
fn percentage_of_a_file_without_length_is_zero() {
    assert_eq!(percentage(0, 0), 0);
    assert_eq!(percentage(12345, 0), 0);
    assert_eq!(checked_percentage(12345, 0), Some(0));
}

#[test]
fn percentage_of_large_values_does_not_overflow() {
    assert_eq!(percentage(i64::MAX, i64::MAX), 100);
    assert_eq!(percentage(i64::MAX / 2, i64::MAX), 49);
    assert_eq!(checked_percentage(i64::MAX, i64::MAX), Some(100));
    assert_eq!(checked_percentage(i64::MAX / 100, 1), Some(i64::MAX / 100 * 100));
}

#[test]
fn percentage_that_cannot_be_given_is_none() {
    assert_eq!(checked_percentage(-1, 100), None);
    assert_eq!(checked_percentage(1, -100), None);
    assert_eq!(checked_percentage(i64::MAX, 1), None);
    assert_eq!(checked_percentage(i64::MAX / 100 + 1, 1), None);
}

#[test]
fn found_record_gives_percentage_and_time() {
    let lookup = FindReply::Found(record("a.mkv?viewer-1", 1_700_000_000, 250, 1000));
    assert_eq!(
        get_item_progress(&lookup),
        Some(ResultItemProgress { percentage: 25, timestamp: 1_700_000_000 })
    );
}

#[test]
fn found_record_without_length_gives_zero_percent() {
    let lookup = FindReply::Found(record("a.mkv?viewer-1", 9, 250, 0));
    assert_eq!(
        get_item_progress(&lookup),
        Some(ResultItemProgress { percentage: 0, timestamp: 9 })
    );
}

#[test]
fn missing_or_failed_lookup_gives_no_progress() {
    assert_eq!(get_item_progress(&FindReply::Missing), None);
    assert_eq!(get_item_progress(&FindReply::Failed), None);
}

#[test]
fn record_without_percentage_gives_no_progress() {
    assert_eq!(get_item_progress(&FindReply::Found(record("k", 1, -5, 10))), None);
    assert_eq!(get_item_progress(&FindReply::Found(record("k", 1, i64::MAX, 2))), None);
}

#[test]
fn links_are_built_from_the_encoded_path() {
    assert_eq!(get_dir_link("Some%20Show/Season%201"), "/browse/Some%20Show/Season%201");
    assert_eq!(
        get_mpv_link("Some%20Show/ep.mkv", &host(), &viewer()),
        "mpv://media.local:8000/files/Some%20Show/ep.mkv?user_id=viewer-1"
    );
}

#[test]
fn extension_is_what_follows_the_last_dot_in_lower_case() {
    assert_eq!(get_extension("movie.mkv"), Some("mkv".to_string()));
    assert_eq!(get_extension("movie.MKV"), Some("mkv".to_string()));
    assert_eq!(get_extension("archive.tar.GZ"), Some("gz".to_string()));
    assert_eq!(get_extension("trailing."), Some(String::new()));
    assert_eq!(get_extension(".hidden.Avi"), Some("avi".to_string()));
    assert_eq!(get_extension("é.ÄVI"), Some("Ävi".to_string()));
}

#[test]
fn names_without_extension() {
    assert_eq!(get_extension("README"), None);
    assert_eq!(get_extension(""), None);
    assert_eq!(get_extension(".bashrc"), None);
    assert_eq!(get_extension(".."), None);
    assert_eq!(get_extension("."), None);
}

#[test]
fn movie_extensions_are_mkv_and_avi() {
    assert!(is_movie_extension(&"mkv".to_string()));
    assert!(is_movie_extension(&"avi".to_string()));
    assert!(!is_movie_extension(&"txt".to_string()));
    assert!(!is_movie_extension(&"mp4".to_string()));
    assert!(!is_movie_extension(&"MKV".to_string()));
    assert!(!is_movie_extension(&String::new()));
}

#[test]
fn id_is_the_md5_of_the_full_path_in_hex() {
    assert_eq!(entry_hash("/movies/a.mkv"), "e1c8397edb8a14af5814ad2424a6ebce");
    assert_eq!(entry_hash("/movies/Zfolder"), "971939240d761258d72b85298bf20d4a");
    assert_eq!(entry_hash(""), "d41d8cd98f00b204e9800998ecf8427e");
    assert_eq!(entry_hash("/movies/a.mkv"), entry_hash("/movies/a.mkv"));
    assert_eq!(entry_hash("/some/other/path").len(), 32);
}

#[test]
fn text_is_split_at_every_slash() {
    let split = |text: &str| -> Vec<String> {
        split_components(text).into_iter().map(|part| part.unwrap()).collect()
    };
    assert_eq!(split("a/b c/d.mkv"), vec!["a", "b c", "d.mkv"]);
    assert_eq!(split("single"), vec!["single"]);
    assert_eq!(split(""), vec![""]);
    assert_eq!(split("a//b/"), vec!["a", "", "b", ""]);
    assert_eq!(split("ä/ö"), vec!["ä", "ö"]);
}

#[test]
fn prefix_is_taken_off() {
    assert_eq!(strip_prefix("/movies/a/b.mkv", "/movies/"), Some("a/b.mkv".to_string()));
    assert_eq!(strip_prefix("/movies/", "/movies/"), Some(String::new()));
    assert_eq!(strip_prefix("/möv/ä", "/möv/"), Some("ä".to_string()));
    assert_eq!(strip_prefix("abc", ""), Some("abc".to_string()));
    assert_eq!(strip_prefix("/movies2/a", "/movies/"), None);
    assert_eq!(strip_prefix("/mov", "/movies/"), None);
    assert_eq!(chars_of("aé👾"), vec!['a', 'é', '👾']);
}

#[test]
fn names_are_ordered_by_their_bytes() {
    assert!(name_before("Zfolder", "afolder"));
    assert!(!name_before("afolder", "Zfolder"));
    assert!(name_before("a", "a"));
    assert!(name_before("", "a"));
    assert!(!name_before("a", ""));
    assert!(name_before("a", "ab"));
    assert!(!name_before("ab", "a"));
    assert!(name_before("z", "é"));
    assert!(bytes_before(&[1, 2], &[1, 3]));
    assert!(!bytes_before(&[2], &[1, 255]));
    assert!(bytes_before(&[], &[]));
}

#[test]
fn properties_of_a_child_under_the_root() {
    let entry = DirEntryInfo {
        path: Some("/movies/Some Show/ep 1.MKV".to_string()),
        file_name: Some("ep 1.MKV".to_string()),
        file_type: Some(FileTypes::File),
    };
    let properties = get_path_properties(&entry, "/movies").unwrap();
    assert_eq!(properties.filename, "ep 1.MKV");
    assert_eq!(properties.file_type, FileTypes::File);
    assert_eq!(properties.full_path, "/movies/Some Show/ep 1.MKV");
    assert_eq!(properties.rel_path, "Some Show/ep 1.MKV");
    assert_eq!(properties.urlencoded_path, "Some%20Show/ep%201.MKV");
    assert_eq!(properties.extension, Some("mkv".to_string()));
}

#[test]
fn no_properties_where_something_could_not_be_read() {
    let whole = child("a.mkv", FileTypes::File);
    assert!(get_path_properties(&whole, "/movies").is_some());
    let no_path = DirEntryInfo { path: None, ..whole.clone() };
    let no_name = DirEntryInfo { file_name: None, ..whole.clone() };
    let no_type = DirEntryInfo { file_type: None, ..whole.clone() };
    assert!(get_path_properties(&no_path, "/movies").is_none());
    assert!(get_path_properties(&no_name, "/movies").is_none());
    assert!(get_path_properties(&no_type, "/movies").is_none());
    assert!(get_path_properties(&DirEntryInfo::unreadable(), "/movies").is_none());
}

#[test]
fn no_properties_outside_the_root() {
    let entry = child("a.mkv", FileTypes::File);
    assert!(get_path_properties(&entry, "/elsewhere").is_none());
    assert!(get_path_properties(&entry, "/movies/").is_none());
    assert!(get_path_properties(&entry, "/mov").is_none());
}

#[test]
fn only_movies_have_a_key() {
    let user = viewer();
    assert_eq!(
        movie_key(&child("my film.mkv", FileTypes::File), "/movies", &user),
        Some("my%20film.mkv?viewer-1".to_string())
    );
    assert_eq!(
        movie_key(&child("b.AVI", FileTypes::File), "/movies", &user),
        Some("b.AVI?viewer-1".to_string())
    );
    assert_eq!(movie_key(&child("notes.txt", FileTypes::File), "/movies", &user), None);
    assert_eq!(movie_key(&child("folder.mkv", FileTypes::Dir), "/movies", &user), None);
    assert_eq!(movie_key(&child("pipe.mkv", FileTypes::Other), "/movies", &user), None);
    assert_eq!(movie_key(&DirEntryInfo::unreadable(), "/movies", &user), None);
}

#[test]
fn listing_key_is_the_stream_key() {
    let entry = DirEntryInfo {
        path: Some("/movies/Some Show/ep 1.mkv".to_string()),
        file_name: Some("ep 1.mkv".to_string()),
        file_type: Some(FileTypes::File),
    };
    let rel = vec![Some("Some Show".to_string()), Some("ep 1.mkv".to_string())];
    let stream = TrackedFileStream::from_path(&rel, "viewer-1", 10);
    assert_eq!(movie_key(&entry, "/movies", &viewer()), Some(stream.data().path.clone()));
}

#[test]
fn put_entry_sorts_children_into_dirs_and_movies() {
    let mut result = ReadDirResult { dirs: Vec::new(), movies: Vec::new() };
    let lookup = FindReply::Found(record("a.mkv?viewer-1", 42, 1, 4));
    let children = [
        child("a.mkv", FileTypes::File),
        child("sub", FileTypes::Dir),
        child("x.txt", FileTypes::File),
        child("dev", FileTypes::Other),
    ];
    for entry in &children {
        put_entry(entry, "/movies", &host(), &mut result, &viewer(), &lookup);
    }
    assert_eq!(result.movies.len(), 1);
    assert_eq!(result.dirs.len(), 1);

    let movie = &result.movies[0];
    assert_eq!(movie.name, "a.mkv");
    assert_eq!(movie.full_path, "/movies/a.mkv");
    assert_eq!(movie.rel_path, "a.mkv");
    assert_eq!(movie.id, "e1c8397edb8a14af5814ad2424a6ebce");
    assert_eq!(movie.link, "mpv://media.local:8000/files/a.mkv?user_id=viewer-1");
    assert_eq!(movie.progress, Some(ResultItemProgress { percentage: 25, timestamp: 42 }));

    let dir = &result.dirs[0];
    assert_eq!(dir.name, "sub");
    assert_eq!(dir.full_path, "/movies/sub");
    assert_eq!(dir.rel_path, "sub");
    assert_eq!(dir.link, "/browse/sub");
    assert_eq!(dir.progress, None);
}

#[test]
fn dirs_and_movies_are_sorted_by_name() {
    let children = vec![
        scanned(child("b.mkv", FileTypes::File)),
        scanned(child("a.mkv", FileTypes::File)),
        scanned(child("Zfolder", FileTypes::Dir)),
        scanned(child("afolder", FileTypes::Dir)),
    ];
    let listing = read_dir(&children, "/movies", &host(), &viewer());
    assert_eq!(names(&listing.dirs), vec!["Zfolder", "afolder"]);
    assert_eq!(names(&listing.movies), vec!["a.mkv", "b.mkv"]);
}

#[test]
fn only_movie_extensions_are_listed() {
    let children = vec![
        scanned(child("one.mkv", FileTypes::File)),
        scanned(child("two.avi", FileTypes::File)),
        scanned(child("three.txt", FileTypes::File)),
        scanned(child("noext", FileTypes::File)),
    ];
    let listing = read_dir(&children, "/movies", &host(), &viewer());
    assert_eq!(names(&listing.movies), vec!["one.mkv", "two.avi"]);
    assert!(listing.dirs.is_empty());
}

#[test]
fn extension_is_matched_without_regard_to_case() {
    let children = vec![
        scanned(child("LOUD.MKV", FileTypes::File)),
        scanned(child("Mixed.Avi", FileTypes::File)),
    ];
    let listing = read_dir(&children, "/movies", &host(), &viewer());
    assert_eq!(names(&listing.movies), vec!["LOUD.MKV", "Mixed.Avi"]);
}

#[test]
fn unreadable_child_is_skipped() {
    let unreadable = DirEntryInfo { file_type: None, ..child("broken.mkv", FileTypes::File) };
    let children = vec![
        scanned(child("a.mkv", FileTypes::File)),
        scanned(unreadable),
        scanned(child("sub", FileTypes::Dir)),
    ];
    let listing = read_dir(&children, "/movies", &host(), &viewer());
    assert_eq!(names(&listing.movies), vec!["a.mkv"]);
    assert_eq!(names(&listing.dirs), vec!["sub"]);
}

#[test]
fn child_of_which_nothing_could_be_read_is_skipped() {
    let children = vec![
        scanned(DirEntryInfo::unreadable()),
        scanned(child("a.mkv", FileTypes::File)),
        scanned(child("b.avi", FileTypes::File)),
    ];
    let listing = read_dir(&children, "/movies", &host(), &viewer());
    assert_eq!(names(&listing.movies), vec!["a.mkv", "b.avi"]);
}

#[test]
fn empty_directory_gives_an_empty_listing() {
    let listing = read_dir(&Vec::new(), "/movies", &host(), &viewer());
    assert!(listing.dirs.is_empty());
    assert!(listing.movies.is_empty());
}

#[test]
fn progress_comes_from_each_movie_s_own_lookup() {
    let children = vec![
        ScannedEntry {
            entry: child("seen.mkv", FileTypes::File),
            lookup: FindReply::Found(record("seen.mkv?viewer-1", 7, 900, 1000)),
        },
        ScannedEntry { entry: child("new.mkv", FileTypes::File), lookup: FindReply::Missing },
        ScannedEntry { entry: child("down.mkv", FileTypes::File), lookup: FindReply::Failed },
        ScannedEntry {
            entry: child("dir", FileTypes::Dir),
            lookup: FindReply::Found(record("dir?viewer-1", 7, 1, 2)),
        },
    ];
    let listing = read_dir(&children, "/movies", &host(), &viewer());
    assert_eq!(names(&listing.movies), vec!["down.mkv", "new.mkv", "seen.mkv"]);
    assert_eq!(listing.movies[0].progress, None);
    assert_eq!(listing.movies[1].progress, None);
    assert_eq!(
        listing.movies[2].progress,
        Some(ResultItemProgress { percentage: 90, timestamp: 7 })
    );
    assert_eq!(listing.dirs[0].progress, None);
}

#[test]
fn sort_keeps_equal_names_in_their_order() {
    let item = |name: &str, rel: &str| ResultItem {
        name: name.to_string(),
        full_path: String::new(),
        rel_path: rel.to_string(),
        id: String::new(),
        link: String::new(),
        progress: None,
    };
    let mut items =
        vec![item("b", "1"), item("a", "2"), item("b", "3"), item("a", "4"), item("", "5")];
    sort_by_name(&mut items);
    let order: Vec<String> = items.iter().map(|i| format!("{}{}", i.name, i.rel_path)).collect();
    assert_eq!(order, vec!["5", "a2", "a4", "b1", "b3"]);
}

#[test]
fn sort_orders_by_bytes_not_by_letters() {
    let item = |name: &str| ResultItem {
        name: name.to_string(),
        full_path: String::new(),
        rel_path: String::new(),
        id: String::new(),
        link: String::new(),
        progress: None,
    };
    let mut items = vec![item("é"), item("b"), item("B"), item("a10"), item("a9"), item("a")];
    sort_by_name(&mut items);
    assert_eq!(names(&items), vec!["B", "a", "a10", "a9", "b", "é"]);
}

#[test]
fn children_are_classified_by_kind() {
    assert_eq!(FileTypes::classify(true, false), FileTypes::File);
    assert_eq!(FileTypes::classify(false, true), FileTypes::Dir);
    assert_eq!(FileTypes::classify(false, false), FileTypes::Other);
    assert_eq!(FileTypes::classify(true, true), FileTypes::File);
}

#[test]
fn bytes_are_written_as_two_hex_digits_each() {
    assert_eq!(hex_of(&[0x00, 0xff, 0x1a, 0xa1, 0x09, 0x90]), "00ff1aa10990");
    assert_eq!(hex_of(&[]), "");
    assert_eq!(hex_of(&[0xab, 0xcd, 0xef]), "abcdef");
}
