//! The listing of one directory: which entries are shown, under which links
//! and identifiers, with which progress, and in which order.

use crate::db::{FindReply, FindReplyView};
use crate::http::{HostHeader, UserId};
use crate::text::{
    chars_of, components, lemma_bytes_le_total, lemma_bytes_le_transitive,
    lemma_components_are_text, name_before, name_le, split_components, strip_prefix, stripped,
};
use crate::tracked_file_stream::{make_progress_key, progress_key};
use crate::utils::{get_urlencoded_path, lemma_urlencoded_path_exists, urlencoded_path};
use vstd::prelude::*;
use vstd::utf8::encode_utf8;

verus! {

/// How far a viewer has come in a movie, and when that was recorded.
#[derive(Debug, Clone, Copy, PartialEq, Eq)]
pub struct ResultItemProgress {
    pub percentage: i64,
    pub timestamp: i64,
}

/// One entry of a listing.
#[derive(Debug)]
pub struct ResultItem {
    pub name: String,
    pub full_path: String,
    pub rel_path: String,
    /// The MD5 digest of `full_path`, in lower-case hexadecimal digits.
    pub id: String,
    pub link: String,
    pub progress: Option<ResultItemProgress>,
}

/// An entry of a listing as a mathematical value.
pub struct ResultItemView {
    pub name: Seq<char>,
    pub full_path: Seq<char>,
    pub rel_path: Seq<char>,
    pub id: Seq<char>,
    pub link: Seq<char>,
    pub progress: Option<ResultItemProgress>,
}

impl View for ResultItem {
    type V = ResultItemView;

    open spec fn view(&self) -> ResultItemView {
        ResultItemView {
            name: self.name@,
            full_path: self.full_path@,
            rel_path: self.rel_path@,
            id: self.id@,
            link: self.link@,
            progress: self.progress,
        }
    }
}

impl DeepView for ResultItem {
    type V = ResultItemView;

    open spec fn deep_view(&self) -> ResultItemView {
        self@
    }
}

/// The listing of a directory: its subdirectories and its movies.
#[derive(Debug)]
pub struct ReadDirResult {
    pub dirs: Vec<ResultItem>,
    pub movies: Vec<ResultItem>,
}

/// A listing as a mathematical value.
pub struct ReadDirResultView {
    pub dirs: Seq<ResultItemView>,
    pub movies: Seq<ResultItemView>,
}

impl View for ReadDirResult {
    type V = ReadDirResultView;

    open spec fn view(&self) -> ReadDirResultView {
        ReadDirResultView { dirs: self.dirs.deep_view(), movies: self.movies.deep_view() }
    }
}

/// The link under which a directory is browsed.
pub open spec fn dir_link(urlencoded: Seq<char>) -> Seq<char> {
    "/browse/"@ + urlencoded
}

/// The link under which `user_id` plays a movie from `host`.
pub open spec fn mpv_link(urlencoded: Seq<char>, host: Seq<char>, user_id: Seq<char>) -> Seq<char> {
    "mpv://"@ + host + "/files/"@ + urlencoded + "?user_id="@ + user_id
}

/// Builds the link under which the directory at `urlencoded_path` is
/// browsed.
pub fn get_dir_link(urlencoded_path: &str) -> (link: String)
    ensures
        link@ == dir_link(urlencoded_path@),
{
    let mut res = String::from_str("/browse/");
    res.append(urlencoded_path);
    res
}

/// Builds the link under which `user_id` plays the movie at
/// `urlencoded_path` from the host of `host_header`.
pub fn get_mpv_link(urlencoded_path: &str, host_header: &HostHeader, user_id: &UserId) -> (link:
    String)
    ensures
        link@ == mpv_link(urlencoded_path@, host_header@, user_id@),
{
    let mut res = String::from_str("mpv://");
    res.append(host_header.to_string().as_str());
    res.append("/files/");
    res.append(urlencoded_path);
    res.append("?user_id=");
    res.append(user_id.as_str());
    res
}

/// What kind of thing a directory entry is.
#[derive(Debug, Clone, Copy, PartialEq, Eq)]
pub enum FileTypes {
    File,
    Dir,
    Other,
}

impl FileTypes {
    /// The kind of a child, given whether it is a regular file and whether
    /// it is a directory.
    pub fn classify(is_file: bool, is_dir: bool) -> (kind: FileTypes)
        ensures
            kind == (if is_file {
                FileTypes::File
            } else if is_dir {
                FileTypes::Dir
            } else {
                FileTypes::Other
            }),
    {
        if is_file {
            FileTypes::File
        } else if is_dir {
            FileTypes::Dir
        } else {
            FileTypes::Other
        }
    }
}

/// The lower-case form of an ASCII capital; any other character is itself.
pub open spec fn ascii_lower(c: char) -> char {
    if 'A' <= c && c <= 'Z' {
        ((c as u32) + 32) as char
    } else {
        c
    }
}

/// A text with its ASCII capitals in lower case.
pub open spec fn lowercase(text: Seq<char>) -> Seq<char> {
    text.map_values(|c: char| ascii_lower(c))
}

/// `str::to_ascii_lowercase` returns a copy of the text in which the ASCII
/// letters `A` to `Z` are `a` to `z` and every other character is unchanged.
pub assume_specification[ str::to_ascii_lowercase ](text: &str) -> (lower: String)
    ensures
        lower@ == lowercase(text@),
;

/// The index of the last `.` in `name`, or -1 where it has none.
pub open spec fn last_dot(name: Seq<char>) -> int
    decreases name.len(),
{
    if name.len() == 0 {
        -1
    } else if name.last() == '.' {
        name.len() - 1
    } else {
        last_dot(name.drop_last())
    }
}

/// The extension of a file name, in lower case: what stands behind the last
/// `.`. A name without `.`, a name whose only `.` is its first character,
/// and the name `..` have none.
pub open spec fn extension_of(name: Seq<char>) -> Option<Seq<char>> {
    if last_dot(name) <= 0 || name == seq!['.', '.'] {
        None
    } else {
        Some(lowercase(name.skip(last_dot(name) + 1)))
    }
}

/// Takes the lower-case extension of a file name, if it has one.
pub fn get_extension(file_name: &str) -> (extension: Option<String>)
    ensures
        extension.deep_view() == extension_of(file_name@),
{
    let chars = chars_of(file_name);
    let mut dot: Option<usize> = None;
    let mut i: usize = 0;
    assert(file_name@.take(0) =~= Seq::<char>::empty());
    while i < chars.len()
        invariant
            i <= chars.len(),
            chars@ == file_name@,
            match dot {
                Some(at) => at < i && last_dot(file_name@.take(i as int)) == at,
                None => last_dot(file_name@.take(i as int)) == -1,
            },
        decreases chars.len() - i,
    {
        assert(file_name@.take(i + 1).drop_last() =~= file_name@.take(i as int));
        if chars[i] == '.' {
            dot = Some(i);
        }
        i += 1;
    }
    assert(file_name@.take(i as int) =~= file_name@);
    match dot {
        None => None,
        Some(at) => {
            if at == 0 || (chars.len() == 2 && chars[0] == '.' && chars[1] == '.') {
                proof {
                    if at != 0 {
                        assert(file_name@ =~= seq!['.', '.']);
                    }
                }
                None
            } else {
                proof {
                    if file_name@ == seq!['.', '.'] {
                        assert(file_name@[0] == '.' && file_name@[1] == '.');
                    }
                }
                let tail = file_name.substring_char(at + 1, chars.len());
                Some(tail.to_ascii_lowercase())
            }
        },
    }
}

/// Whether a lower-case extension is one of a movie.
pub open spec fn is_movie(extension: Seq<char>) -> bool {
    extension == "mkv"@ || extension == "avi"@
}

/// Whether a lower-case extension is one of a movie: `mkv` or `avi`.
pub fn is_movie_extension(extension: &String) -> (movie: bool)
    ensures
        movie == is_movie(extension@),
{
    let mkv = String::from_str("mkv");
    let avi = String::from_str("avi");
    *extension == mkv || *extension == avi
}

/// The share of a file that lies before a position, in percent and rounded
/// down. A file without length counts as not begun.
pub open spec fn percentage_of(last_file_position: int, file_length: int) -> int {
    if file_length > 0 {
        last_file_position * 100 / file_length
    } else {
        0
    }
}

/// Whether a record's percentage can be given: neither its position nor its
/// length is negative, and the percentage is within `i64`.
pub open spec fn has_percentage(last_file_position: int, file_length: int) -> bool {
    &&& 0 <= last_file_position
    &&& 0 <= file_length
    &&& percentage_of(last_file_position, file_length) <= i64::MAX
}

/// Computes how many percent of a file of `file_length` bytes lie before
/// `last_file_position`, rounded down; 0 for a file without length.
pub fn percentage(last_file_position: i64, file_length: i64) -> (percent: i64)
    requires
        has_percentage(last_file_position as int, file_length as int),
    ensures
        percent == percentage_of(last_file_position as int, file_length as int),
{
    if file_length == 0 {
        0
    } else {
        let scaled: i128 = last_file_position as i128 * 100;
        (scaled / file_length as i128) as i64
    }
}

/// Computes the percentage as `percentage` does, where it can be given, and
/// returns `None` where it cannot.
pub fn checked_percentage(last_file_position: i64, file_length: i64) -> (percent: Option<i64>)
    ensures
        percent == (if has_percentage(last_file_position as int, file_length as int) {
            Some(percentage_of(last_file_position as int, file_length as int) as i64)
        } else {
            None
        }),
{
    if last_file_position < 0 || file_length < 0 {
        None
    } else if file_length == 0 {
        Some(0)
    } else {
        let scaled: i128 = last_file_position as i128 * 100;
        if scaled / file_length as i128 <= i64::MAX as i128 {
            Some(percentage(last_file_position, file_length))
        } else {
            None
        }
    }
}

/// The progress shown for a movie, given what the store answered to the
/// lookup of its key. A found record gives its percentage and its time. No
/// record, a failed lookup, and a record whose percentage cannot be given
/// all give none.
pub open spec fn item_progress(lookup: FindReplyView) -> Option<ResultItemProgress> {
    match lookup {
        FindReplyView::Found(record) => if has_percentage(
            record.last_file_position,
            record.file_length,
        ) {
            Some(
                ResultItemProgress {
                    percentage: percentage_of(record.last_file_position, record.file_length) as i64,
                    timestamp: record.last_timestamp as i64,
                },
            )
        } else {
            None
        },
        _ => None,
    }
}

/// Turns the store's answer to the lookup of a movie's key into the
/// progress that is shown for the movie.
pub fn get_item_progress(lookup: &FindReply) -> (progress: Option<ResultItemProgress>)
    ensures
        progress == item_progress(lookup@),
{
    match lookup {
        FindReply::Found(serve_model) => {
            match checked_percentage(serve_model.last_file_position, serve_model.file_length) {
                Some(percentage) => Some(
                    ResultItemProgress { percentage, timestamp: serve_model.last_timestamp },
                ),
                None => None,
            }
        },
        FindReply::Missing => None,
        FindReply::Failed => None,
    }
}

/// The MD5 digest of a byte string: 16 bytes.
pub uninterp spec fn md5_digest(data: Seq<u8>) -> Seq<u8>;

/// Calls `md5::compute`, which returns the MD5 digest of `data` as 16 bytes.
#[verifier::external_body]
fn md5_of(data: &[u8]) -> (digest: [u8; 16])
    ensures
        digest@ == md5_digest(data@),
{
    md5::compute(data).0
}

/// The lower-case hexadecimal digit for a value below 16.
pub open spec fn hex_digit_lower(n: u8) -> char {
    if n < 10 {
        (0x30 + n) as char
    } else {
        (0x57 + n) as char
    }
}

/// A byte string in lower-case hexadecimal digits, two for each byte.
pub open spec fn hex_lower(bytes: Seq<u8>) -> Seq<char>
    decreases bytes.len(),
{
    if bytes.len() == 0 {
        Seq::empty()
    } else {
        hex_lower(bytes.drop_last()) + seq![
            hex_digit_lower(bytes.last() / 16),
            hex_digit_lower(bytes.last() % 16),
        ]
    }
}

/// A byte string has twice as many hexadecimal digits as bytes.
pub proof fn lemma_hex_lower_len(bytes: Seq<u8>)
    ensures
        hex_lower(bytes).len() == 2 * bytes.len(),
    decreases bytes.len(),
{
    if bytes.len() > 0 {
        lemma_hex_lower_len(bytes.drop_last());
    }
}

/// The identifier of the entry at `full_path`: the MD5 digest of the path's
/// UTF-8 bytes in lower-case hexadecimal digits.
pub open spec fn entry_id(full_path: Seq<char>) -> Seq<char> {
    hex_lower(md5_digest(encode_utf8(full_path)))
}

/// The lower-case hexadecimal digit for a value below 16, as a text.
fn hex_digit_text(n: u8) -> (digit: &'static str)
    requires
        n < 16,
    ensures
        digit@ == seq![hex_digit_lower(n)],
{
    proof {
        reveal_strlit("0");
        reveal_strlit("1");
        reveal_strlit("2");
        reveal_strlit("3");
        reveal_strlit("4");
        reveal_strlit("5");
        reveal_strlit("6");
        reveal_strlit("7");
        reveal_strlit("8");
        reveal_strlit("9");
        reveal_strlit("a");
        reveal_strlit("b");
        reveal_strlit("c");
        reveal_strlit("d");
        reveal_strlit("e");
        reveal_strlit("f");
    }
    let digit = match n {
        0 => "0",
        1 => "1",
        2 => "2",
        3 => "3",
        4 => "4",
        5 => "5",
        6 => "6",
        7 => "7",
        8 => "8",
        9 => "9",
        10 => "a",
        11 => "b",
        12 => "c",
        13 => "d",
        14 => "e",
        _ => "f",
    };
    assert(digit@ =~= seq![hex_digit_lower(n)]);
    digit
}

/// Writes each byte as two lower-case hexadecimal digits.
pub fn hex_of(bytes: &[u8]) -> (text: String)
    ensures
        text@ == hex_lower(bytes@),
{
    let mut text = String::new();
    let mut i: usize = 0;
    assert(bytes@.take(0) =~= Seq::<u8>::empty());
    while i < bytes.len()
        invariant
            i <= bytes.len(),
            text@ == hex_lower(bytes@.take(i as int)),
        decreases bytes.len() - i,
    {
        let byte = bytes[i];
        assert(bytes@.take(i + 1).drop_last() =~= bytes@.take(i as int));
        text.append(hex_digit_text(byte / 16));
        text.append(hex_digit_text(byte % 16));
        assert(text@ =~= hex_lower(bytes@.take(i + 1)));
        i += 1;
    }
    assert(bytes@.take(i as int) =~= bytes@);
    text
}

/// Computes the identifier of the entry at `full_path`: 32 hexadecimal
/// digits, the same for the same path.
pub fn entry_hash(full_path: &str) -> (id: String)
    ensures
        id@ == entry_id(full_path@),
        id@.len() == 32,
{
    let digest = md5_of(full_path.as_bytes());
    proof {
        lemma_hex_lower_len(digest@);
    }
    hex_of(digest.as_slice())
}

/// What could be read of one child of a directory. A field is `None` where
/// that could not be read or is no text.
#[derive(Debug, Clone)]
pub struct DirEntryInfo {
    /// The child's full path.
    pub path: Option<String>,
    /// The last component of that path.
    pub file_name: Option<String>,
    /// What kind of thing the child is.
    pub file_type: Option<FileTypes>,
}

/// What could be read of a child, as a mathematical value.
pub struct DirEntryInfoView {
    pub path: Option<Seq<char>>,
    pub file_name: Option<Seq<char>>,
    pub file_type: Option<FileTypes>,
}

impl View for DirEntryInfo {
    type V = DirEntryInfoView;

    open spec fn view(&self) -> DirEntryInfoView {
        DirEntryInfoView {
            path: self.path.deep_view(),
            file_name: self.file_name.deep_view(),
            file_type: self.file_type,
        }
    }
}

impl DeepView for DirEntryInfo {
    type V = DirEntryInfoView;

    open spec fn deep_view(&self) -> DirEntryInfoView {
        self@
    }
}

impl DirEntryInfo {
    /// A child of which nothing could be read.
    pub fn unreadable() -> (entry: DirEntryInfo)
        ensures
            entry@ == (DirEntryInfoView { path: None, file_name: None, file_type: None }),
    {
        DirEntryInfo { path: None, file_name: None, file_type: None }
    }
}

/// What the listing works with for one child.
#[derive(Debug)]
pub struct PathProperties {
    pub filename: String,
    pub file_type: FileTypes,
    pub full_path: String,
    /// The full path without the served root and the `/` behind it.
    pub rel_path: String,
    pub urlencoded_path: String,
    /// The file name's extension in lower case.
    pub extension: Option<String>,
}

/// The properties of a child as a mathematical value.
pub struct PathPropertiesView {
    pub filename: Seq<char>,
    pub file_type: FileTypes,
    pub full_path: Seq<char>,
    pub rel_path: Seq<char>,
    pub urlencoded_path: Seq<char>,
    pub extension: Option<Seq<char>>,
}

impl View for PathProperties {
    type V = PathPropertiesView;

    open spec fn view(&self) -> PathPropertiesView {
        PathPropertiesView {
            filename: self.filename@,
            file_type: self.file_type,
            full_path: self.full_path@,
            rel_path: self.rel_path@,
            urlencoded_path: self.urlencoded_path@,
            extension: self.extension.deep_view(),
        }
    }
}

impl DeepView for PathProperties {
    type V = PathPropertiesView;

    open spec fn deep_view(&self) -> PathPropertiesView {
        self@
    }
}

/// The properties of a child under the served root `root_dir`. There are
/// none where the path, the name or the kind could not be read, and none
/// where the path does not start with the root and a `/`.
pub open spec fn path_properties(entry: DirEntryInfoView, root_dir: Seq<char>) -> Option<
    PathPropertiesView,
> {
    match (entry.path, entry.file_name, entry.file_type) {
        (Some(full_path), Some(filename), Some(file_type)) => match stripped(
            full_path,
            root_dir + seq!['/'],
        ) {
            Some(rel_path) => match urlencoded_path(components(rel_path)) {
                Some(urlencoded_path) => Some(
                    PathPropertiesView {
                        filename,
                        file_type,
                        full_path,
                        rel_path,
                        urlencoded_path,
                        extension: extension_of(filename),
                    },
                ),
                None => None,
            },
            None => None,
        },
        _ => None,
    }
}

/// A path that is text has an encoded form.
pub proof fn lemma_text_path_encodes(rel_path: Seq<char>)
    ensures
        urlencoded_path(components(rel_path)) is Some,
{
    lemma_components_are_text(rel_path);
    lemma_urlencoded_path_exists(components(rel_path));
}

/// A child has properties exactly where its path, its name and its kind
/// could be read and its path lies under the root.
pub proof fn lemma_path_properties_exist(entry: DirEntryInfoView, root_dir: Seq<char>)
    ensures
        path_properties(entry, root_dir) is Some <==> {
            &&& entry.path is Some
            &&& entry.file_name is Some
            &&& entry.file_type is Some
            &&& (root_dir + seq!['/']).is_prefix_of(entry.path->0)
        },
{
    if entry.path is Some {
        match stripped(entry.path->0, root_dir + seq!['/']) {
            Some(rel_path) => {
                lemma_text_path_encodes(rel_path);
            },
            None => {},
        }
    }
}

/// Works out the properties of one child of a directory under the served
/// root `root_dir`.
pub fn get_path_properties(entry: &DirEntryInfo, root_dir: &str) -> (properties: Option<
    PathProperties,
>)
    ensures
        properties.deep_view() == path_properties(entry@, root_dir@),
{
    let full_path = match &entry.path {
        Some(text) => text,
        None => {
            return None;
        },
    };
    let filename = match &entry.file_name {
        Some(text) => text,
        None => {
            return None;
        },
    };
    let file_type = match entry.file_type {
        Some(kind) => kind,
        None => {
            return None;
        },
    };
    let mut root_dir_with_trailing_slash = String::from_str(root_dir);
    root_dir_with_trailing_slash.append("/");
    proof {
        reveal_strlit("/");
        assert("/"@ =~= seq!['/']);
    }
    let rel_path = match strip_prefix(full_path.as_str(), root_dir_with_trailing_slash.as_str()) {
        Some(text) => text,
        None => {
            return None;
        },
    };
    let urlencoded_path = match get_urlencoded_path(&split_components(rel_path.as_str())) {
        Some(text) => text,
        None => {
            return None;
        },
    };
    let extension = get_extension(filename.as_str());
    Some(
        PathProperties {
            filename: filename.clone(),
            file_type,
            full_path: full_path.clone(),
            rel_path,
            urlencoded_path,
            extension,
        },
    )
}

/// Whether a child with these properties is listed as a movie: a regular
/// file whose extension is one of a movie.
pub open spec fn is_movie_entry(properties: PathPropertiesView) -> bool {
    &&& properties.file_type == FileTypes::File
    &&& properties.extension matches Some(extension)
    &&& is_movie(extension)
}

/// The listing's entry for a directory.
pub open spec fn dir_item(properties: PathPropertiesView) -> ResultItemView {
    ResultItemView {
        name: properties.filename,
        full_path: properties.full_path,
        rel_path: properties.rel_path,
        id: entry_id(properties.full_path),
        link: dir_link(properties.urlencoded_path),
        progress: None,
    }
}

/// The listing's entry for a movie that `user_id` plays from `host`, given
/// the store's answer to the lookup of the movie's key.
pub open spec fn movie_item(
    properties: PathPropertiesView,
    host: Seq<char>,
    user_id: Seq<char>,
    lookup: FindReplyView,
) -> ResultItemView {
    ResultItemView {
        name: properties.filename,
        full_path: properties.full_path,
        rel_path: properties.rel_path,
        id: entry_id(properties.full_path),
        link: mpv_link(properties.urlencoded_path, host, user_id),
        progress: item_progress(lookup),
    }
}

/// The key under which the progress of `user_id` on a child is looked up:
/// the child's encoded path under the root, `?` and the user id. Only a
/// child that is listed as a movie has one.
pub open spec fn lookup_key(entry: DirEntryInfoView, root_dir: Seq<char>, user_id: Seq<char>)
    -> Option<Seq<char>> {
    match path_properties(entry, root_dir) {
        Some(properties) => if is_movie_entry(properties) {
            Some(progress_key(properties.urlencoded_path, user_id))
        } else {
            None
        },
        None => None,
    }
}

/// A movie's progress is looked up under the key under which a stream of
/// that movie by the same viewer stores it: the key of the movie's path
/// under the root, taken apart at each `/`.
pub proof fn lemma_lookup_key_is_stream_key(
    entry: DirEntryInfoView,
    root_dir: Seq<char>,
    user_id: Seq<char>,
)
    requires
        lookup_key(entry, root_dir, user_id) is Some,
    ensures
        path_properties(entry, root_dir) matches Some(properties) && lookup_key(
            entry,
            root_dir,
            user_id,
        ) == Some(progress_key(urlencoded_path(components(properties.rel_path))->0, user_id)),
{
}

/// A listing with one more child taken in. A directory joins `dirs`, a
/// movie joins `movies` with the progress that `lookup` gives, and anything
/// else, a child without properties too, leaves the listing as it is.
pub open spec fn with_entry(
    result: ReadDirResultView,
    entry: DirEntryInfoView,
    root_dir: Seq<char>,
    host: Seq<char>,
    user_id: Seq<char>,
    lookup: FindReplyView,
) -> ReadDirResultView {
    match path_properties(entry, root_dir) {
        Some(properties) => if properties.file_type == FileTypes::Dir {
            ReadDirResultView { dirs: result.dirs.push(dir_item(properties)), ..result }
        } else if is_movie_entry(properties) {
            ReadDirResultView {
                movies: result.movies.push(movie_item(properties, host, user_id, lookup)),
                ..result
            }
        } else {
            result
        },
        None => result,
    }
}

/// Whether a child with these properties is listed as a movie.
pub fn is_movie_file(properties: &PathProperties) -> (movie: bool)
    ensures
        movie == is_movie_entry(properties@),
{
    match properties.file_type {
        FileTypes::File => match &properties.extension {
            Some(ext) => is_movie_extension(ext),
            None => false,
        },
        _ => false,
    }
}

/// Returns the key under which the progress of `user_id` on a child is to
/// be looked up before the child is put into a listing, or `None` where the
/// child is not listed as a movie and nothing is to be looked up.
pub fn movie_key(entry: &DirEntryInfo, root_dir: &str, user_id: &UserId) -> (key: Option<String>)
    ensures
        key.deep_view() == lookup_key(entry@, root_dir@, user_id@),
{
    match get_path_properties(entry, root_dir) {
        Some(path_properties) => {
            if is_movie_file(&path_properties) {
                Some(make_progress_key(path_properties.urlencoded_path.as_str(), user_id.as_str()))
            } else {
                None
            }
        },
        None => None,
    }
}

/// Takes one child of a directory into a listing. `lookup` is the store's
/// answer to the lookup of the child's key; it is read only where the child
/// is listed as a movie.
pub fn put_entry(
    entry: &DirEntryInfo,
    root_dir: &str,
    host_header: &HostHeader,
    result: &mut ReadDirResult,
    user_id: &UserId,
    lookup: &FindReply,
)
    ensures
        final(result)@ == with_entry(
            old(result)@,
            entry@,
            root_dir@,
            host_header@,
            user_id@,
            lookup@,
        ),
{
    let path_properties = match get_path_properties(entry, root_dir) {
        Some(properties) => properties,
        None => {
            return ;
        },
    };
    let ghost before = result@;
    let movie = is_movie_file(&path_properties);
    match path_properties.file_type {
        FileTypes::Dir => {
            let entry_hash = entry_hash(path_properties.full_path.as_str());
            let link = get_dir_link(path_properties.urlencoded_path.as_str());
            result.dirs.push(
                ResultItem {
                    name: path_properties.filename,
                    full_path: path_properties.full_path,
                    rel_path: path_properties.rel_path,
                    id: entry_hash,
                    link,
                    progress: None,
                },
            );
            assert(result.dirs.deep_view() =~= before.dirs.push(dir_item(path_properties@)));
        },
        FileTypes::File => {
            if movie {
                let entry_hash = entry_hash(path_properties.full_path.as_str());
                let link = get_mpv_link(
                    path_properties.urlencoded_path.as_str(),
                    host_header,
                    user_id,
                );
                let progress = get_item_progress(lookup);
                result.movies.push(
                    ResultItem {
                        name: path_properties.filename,
                        full_path: path_properties.full_path,
                        rel_path: path_properties.rel_path,
                        id: entry_hash,
                        link,
                        progress,
                    },
                );
                assert(result.movies.deep_view() =~= before.movies.push(
                    movie_item(path_properties@, host_header@, user_id@, lookup@),
                ));
            }
        },
        FileTypes::Other => {},
    }
}

/// Entries in the order of their names: no entry stands before one whose
/// name comes first.
pub open spec fn in_name_order(items: Seq<ResultItemView>) -> bool {
    forall|i: int, j: int|
        0 <= i < j < items.len() ==> name_le((#[trigger] items[i]).name, (#[trigger] items[j]).name)
}

/// Ordered entries with one more put in its place: behind the last entry
/// whose name does not come after its own.
pub open spec fn placed(sorted: Seq<ResultItemView>, item: ResultItemView) -> Seq<ResultItemView>
    decreases sorted.len(),
{
    if sorted.len() == 0 || name_le(sorted.last().name, item.name) {
        sorted.push(item)
    } else {
        placed(sorted.drop_last(), item).push(sorted.last())
    }
}

/// The entries in the order of their names, entries of one name in the
/// order in which they came.
pub open spec fn sorted_by_name(items: Seq<ResultItemView>) -> Seq<ResultItemView>
    decreases items.len(),
{
    if items.len() == 0 {
        items
    } else {
        placed(sorted_by_name(items.drop_last()), items.last())
    }
}

/// Where an entry is put: `at` is its place among `sorted` if everything
/// from `at` on comes after it and what stands just before `at` does not.
pub proof fn lemma_placed_at(sorted: Seq<ResultItemView>, item: ResultItemView, at: int)
    requires
        0 <= at <= sorted.len(),
        at > 0 ==> name_le(sorted[at - 1].name, item.name),
        forall|k: int| at <= k < sorted.len() ==> !name_le((#[trigger] sorted[k]).name, item.name),
    ensures
        placed(sorted, item) == sorted.insert(at, item),
    decreases sorted.len() - at,
{
    if at == sorted.len() {
        assert(sorted.insert(at, item) =~= sorted.push(item));
    } else {
        let head = sorted.drop_last();
        assert(!name_le(sorted[sorted.len() - 1].name, item.name));
        assert(at > 0 ==> head[at - 1] == sorted[at - 1]);
        assert forall|k: int| at <= k < head.len() implies !name_le(
            (#[trigger] head[k]).name,
            item.name,
        ) by {
            assert(head[k] == sorted[k]);
        }
        lemma_placed_at(head, item, at);
        assert(head.insert(at, item).push(sorted.last()) =~= sorted.insert(at, item));
    }
}

/// Putting an entry in its place keeps the order, and adds that entry and
/// nothing else.
pub proof fn lemma_placed(sorted: Seq<ResultItemView>, item: ResultItemView)
    requires
        in_name_order(sorted),
    ensures
        in_name_order(placed(sorted, item)),
        placed(sorted, item).len() == sorted.len() + 1,
        placed(sorted, item).to_multiset() == sorted.to_multiset().insert(item),
    decreases sorted.len(),
{
    broadcast use vstd::seq_lib::group_to_multiset_ensures;

    let after = placed(sorted, item);
    if sorted.len() == 0 || name_le(sorted.last().name, item.name) {
        assert forall|i: int, j: int| 0 <= i < j < after.len() implies name_le(
            (#[trigger] after[i]).name,
            (#[trigger] after[j]).name,
        ) by {
            if j < sorted.len() {
                assert(name_le(sorted[i].name, sorted[j].name));
            } else if i < sorted.len() - 1 {
                assert(name_le(sorted[i].name, sorted[sorted.len() - 1].name));
                lemma_bytes_le_transitive(
                    encode_utf8(sorted[i].name),
                    encode_utf8(sorted.last().name),
                    encode_utf8(item.name),
                );
            }
        }
    } else {
        let head = sorted.drop_last();
        let last = sorted.last();
        assert forall|i: int, j: int| 0 <= i < j < head.len() implies name_le(
            (#[trigger] head[i]).name,
            (#[trigger] head[j]).name,
        ) by {
            assert(name_le(sorted[i].name, sorted[j].name));
        }
        lemma_placed(head, item);
        let inner = placed(head, item);
        lemma_bytes_le_total(encode_utf8(last.name), encode_utf8(item.name));
        assert forall|i: int| 0 <= i < inner.len() implies name_le(
            (#[trigger] inner[i]).name,
            last.name,
        ) by {
            assert(inner.to_multiset().count(inner[i]) > 0);
            if inner[i] == item {
            } else {
                assert(head.to_multiset().count(inner[i]) > 0);
                assert(head.contains(inner[i]));
                let k = choose|k: int| 0 <= k < head.len() && head[k] == inner[i];
                assert(name_le(sorted[k].name, sorted[sorted.len() - 1].name));
            }
        }
        assert forall|i: int, j: int| 0 <= i < j < after.len() implies name_le(
            (#[trigger] after[i]).name,
            (#[trigger] after[j]).name,
        ) by {
            if j < inner.len() {
                assert(name_le(inner[i].name, inner[j].name));
            } else {
                assert(name_le(inner[i].name, last.name));
            }
        }
        assert(sorted =~= head.push(last));
    }
}

/// Sorting by name gives the same entries, each as often as before, in the
/// order of their names.
pub proof fn lemma_sorted_by_name(items: Seq<ResultItemView>)
    ensures
        in_name_order(sorted_by_name(items)),
        sorted_by_name(items).len() == items.len(),
        sorted_by_name(items).to_multiset() == items.to_multiset(),
    decreases items.len(),
{
    broadcast use vstd::seq_lib::group_to_multiset_ensures;

    if items.len() > 0 {
        lemma_sorted_by_name(items.drop_last());
        lemma_placed(sorted_by_name(items.drop_last()), items.last());
        assert(items =~= items.drop_last().push(items.last()));
    }
}

/// Sorts the entries by name, in the order of the names' bytes. Entries of
/// one name stay in the order in which they came.
pub fn sort_by_name(items: &mut Vec<ResultItem>)
    ensures
        final(items).deep_view() == sorted_by_name(old(items).deep_view()),
        in_name_order(final(items).deep_view()),
        final(items).deep_view().to_multiset() == old(items).deep_view().to_multiset(),
{
    let ghost given = items.deep_view();
    let mut i: usize = 0;
    assert(given.take(0) =~= Seq::<ResultItemView>::empty());
    assert(items.deep_view().take(0) =~= Seq::<ResultItemView>::empty());
    while i < items.len()
        invariant
            i <= items.len(),
            items.len() == given.len(),
            items.deep_view().take(i as int) == sorted_by_name(given.take(i as int)),
            items.deep_view().skip(i as int) == given.skip(i as int),
        decreases items.len() - i,
    {
        let ghost before = items.deep_view();
        let ghost sorted = before.take(i as int);
        assert(before.skip(i as int)[0] == given.skip(i as int)[0]);
        let item = items.remove(i);
        let ghost without = items.deep_view();
        assert(without =~= before.remove(i as int));
        let mut at: usize = i;
        while at > 0 && !name_before(items[at - 1].name.as_str(), item.name.as_str())
            invariant
                at <= i < given.len(),
                items.len() == given.len() - 1,
                items.deep_view() == without,
                without.take(i as int) == sorted,
                forall|k: int|
                    at <= k < i ==> !name_le((#[trigger] sorted[k]).name, item@.name),
            decreases at,
        {
            assert(without[at - 1] == sorted[at - 1]);
            at -= 1;
        }
        proof {
            assert(without.take(i as int) =~= sorted);
            if at > 0 {
                assert(without[at - 1] == sorted[at - 1]);
            }
            lemma_placed_at(sorted, item@, at as int);
            assert(given.take(i + 1).drop_last() =~= given.take(i as int));
            assert(given.take(i + 1).last() == item@);
        }
        items.insert(at, item);
        assert(items.deep_view() =~= without.insert(at as int, item@));
        assert(items.deep_view().take(i + 1) =~= sorted.insert(at as int, item@));
        assert(items.deep_view().skip(i + 1) =~= given.skip(i + 1)) by {
            let ghost rest = items.deep_view().skip(i + 1);
            assert forall|k: int| 0 <= k < given.len() - i - 1 implies #[trigger] rest[k]
                == given.skip(i + 1)[k] by {
                assert(items.deep_view()[i + 1 + k] == without[i + k]);
                assert(without[i + k] == before[i + 1 + k]);
                assert(before.skip(i as int)[k + 1] == given.skip(i as int)[k + 1]);
            }
        }
        i += 1;
    }
    proof {
        assert(items.deep_view().take(i as int) =~= items.deep_view());
        assert(given.take(i as int) =~= given);
        lemma_sorted_by_name(given);
    }
}

/// One child of a directory together with the store's answer to the
/// lookup of its key. For a child that has no key the answer is not read.
#[derive(Debug, Clone)]
pub struct ScannedEntry {
    pub entry: DirEntryInfo,
    pub lookup: FindReply,
}

/// A scanned child as a mathematical value.
pub struct ScannedEntryView {
    pub entry: DirEntryInfoView,
    pub lookup: FindReplyView,
}

impl View for ScannedEntry {
    type V = ScannedEntryView;

    open spec fn view(&self) -> ScannedEntryView {
        ScannedEntryView { entry: self.entry@, lookup: self.lookup@ }
    }
}

impl DeepView for ScannedEntry {
    type V = ScannedEntryView;

    open spec fn deep_view(&self) -> ScannedEntryView {
        self@
    }
}

/// The listing without any entry.
pub open spec fn empty_listing() -> ReadDirResultView {
    ReadDirResultView { dirs: Seq::empty(), movies: Seq::empty() }
}

/// The children of a directory taken into a listing one by one, in the
/// order in which they were read.
pub open spec fn collected(
    scanned: Seq<ScannedEntryView>,
    root_dir: Seq<char>,
    host: Seq<char>,
    user_id: Seq<char>,
) -> ReadDirResultView
    decreases scanned.len(),
{
    if scanned.len() == 0 {
        empty_listing()
    } else {
        with_entry(
            collected(scanned.drop_last(), root_dir, host, user_id),
            scanned.last().entry,
            root_dir,
            host,
            user_id,
            scanned.last().lookup,
        )
    }
}

/// The listing of a directory: its children taken in, then the directories
/// and the movies each sorted by name.
pub open spec fn listing(
    scanned: Seq<ScannedEntryView>,
    root_dir: Seq<char>,
    host: Seq<char>,
    user_id: Seq<char>,
) -> ReadDirResultView {
    let all = collected(scanned, root_dir, host, user_id);
    ReadDirResultView { dirs: sorted_by_name(all.dirs), movies: sorted_by_name(all.movies) }
}

/// Builds the listing of a directory under the served root `root_dir` from
/// its scanned children. A child of which too little could be read, and one
/// that is neither a directory nor a movie, is left out; no child makes the
/// listing fail. Directories and movies come sorted by name.
pub fn read_dir(
    scanned: &Vec<ScannedEntry>,
    root_dir: &str,
    host_header: &HostHeader,
    user_id: &UserId,
) -> (res: ReadDirResult)
    ensures
        res@ == listing(scanned.deep_view(), root_dir@, host_header@, user_id@),
        in_name_order(res@.dirs),
        in_name_order(res@.movies),
{
    let mut res = ReadDirResult { dirs: Vec::new(), movies: Vec::new() };
    let ghost all = scanned.deep_view();
    assert(res@.dirs =~= Seq::<ResultItemView>::empty());
    assert(res@.movies =~= Seq::<ResultItemView>::empty());
    assert(all.take(0) =~= Seq::<ScannedEntryView>::empty());
    let mut i: usize = 0;
    while i < scanned.len()
        invariant
            i <= scanned.len(),
            all == scanned.deep_view(),
            res@ == collected(all.take(i as int), root_dir@, host_header@, user_id@),
        decreases scanned.len() - i,
    {
        assert(all.take(i + 1).drop_last() =~= all.take(i as int));
        assert(all.take(i + 1).last() == scanned[i as int]@);
        put_entry(&scanned[i].entry, root_dir, host_header, &mut res, user_id, &scanned[i].lookup);
        i += 1;
    }
    assert(all.take(i as int) =~= all);
    sort_by_name(&mut res.dirs);
    sort_by_name(&mut res.movies);
    res
}

/// Whether a child is shown in a listing under the root `root_dir`: it has
/// properties and is a directory or a movie.
pub open spec fn is_listed(entry: DirEntryInfoView, root_dir: Seq<char>) -> bool {
    path_properties(entry, root_dir) matches Some(properties) && (properties.file_type
        == FileTypes::Dir || is_movie_entry(properties))
}

/// A child that is not shown leaves no trace: the listing is the one of the
/// other children. This holds of a child of which too little could be read
/// and of a file that is no movie alike.
pub proof fn lemma_unlisted_entry_is_skipped(
    scanned: Seq<ScannedEntryView>,
    root_dir: Seq<char>,
    host: Seq<char>,
    user_id: Seq<char>,
    at: int,
)
    requires
        0 <= at < scanned.len(),
        !is_listed(scanned[at].entry, root_dir),
    ensures
        collected(scanned, root_dir, host, user_id) == collected(
            scanned.remove(at),
            root_dir,
            host,
            user_id,
        ),
        listing(scanned, root_dir, host, user_id) == listing(
            scanned.remove(at),
            root_dir,
            host,
            user_id,
        ),
    decreases scanned.len(),
{
    if at == scanned.len() - 1 {
        assert(scanned.remove(at) =~= scanned.drop_last());
    } else {
        lemma_unlisted_entry_is_skipped(scanned.drop_last(), root_dir, host, user_id, at);
        assert(scanned.remove(at).drop_last() =~= scanned.drop_last().remove(at));
        assert(scanned.remove(at).last() == scanned.last());
    }
}

/// What is collected as movies are the movie entries of the children that
/// are listed as movies, and what is collected as directories are the
/// entries of the children that are directories: nothing else gets in and
/// none of them is left out.
pub proof fn lemma_collected_members(
    scanned: Seq<ScannedEntryView>,
    root_dir: Seq<char>,
    host: Seq<char>,
    user_id: Seq<char>,
    item: ResultItemView,
)
    ensures
        collected(scanned, root_dir, host, user_id).movies.contains(item) <==> exists|i: int|
            0 <= i < scanned.len() && shown_as_movie(
                #[trigger] scanned[i],
                root_dir,
                host,
                user_id,
                item,
            ),
        collected(scanned, root_dir, host, user_id).dirs.contains(item) <==> exists|i: int|
            0 <= i < scanned.len() && shown_as_dir(#[trigger] scanned[i], root_dir, item),
    decreases scanned.len(),
{
    let all = collected(scanned, root_dir, host, user_id);
    if scanned.len() > 0 {
        let head = scanned.drop_last();
        let last = scanned.last();
        let before = collected(head, root_dir, host, user_id);
        lemma_collected_members(head, root_dir, host, user_id, item);
        if all.movies.contains(item) {
            if before.movies.contains(item) {
                let i = choose|i: int|
                    0 <= i < head.len() && shown_as_movie(
                        #[trigger] head[i],
                        root_dir,
                        host,
                        user_id,
                        item,
                    );
                assert(scanned[i] == head[i]);
            } else {
                let k = choose|k: int| 0 <= k < all.movies.len() && all.movies[k] == item;
                assert(all.movies != before.movies);
                if k < before.movies.len() {
                    assert(before.movies[k] == item);
                }
                assert(shown_as_movie(scanned[scanned.len() - 1], root_dir, host, user_id, item));
            }
        }
        if exists|i: int|
            0 <= i < scanned.len() && shown_as_movie(
                #[trigger] scanned[i],
                root_dir,
                host,
                user_id,
                item,
            ) {
            let i = choose|i: int|
                0 <= i < scanned.len() && shown_as_movie(
                    #[trigger] scanned[i],
                    root_dir,
                    host,
                    user_id,
                    item,
                );
            if i < head.len() {
                assert(head[i] == scanned[i]);
                assert(before.movies.contains(item));
                let k = choose|k: int| 0 <= k < before.movies.len() && before.movies[k] == item;
                assert(all.movies[k] == item);
            } else {
                assert(all.movies[all.movies.len() - 1] == item);
            }
        }
        if all.dirs.contains(item) {
            if before.dirs.contains(item) {
                let i = choose|i: int|
                    0 <= i < head.len() && shown_as_dir(#[trigger] head[i], root_dir, item);
                assert(scanned[i] == head[i]);
            } else {
                let k = choose|k: int| 0 <= k < all.dirs.len() && all.dirs[k] == item;
                assert(all.dirs != before.dirs);
                if k < before.dirs.len() {
                    assert(before.dirs[k] == item);
                }
                assert(shown_as_dir(scanned[scanned.len() - 1], root_dir, item));
            }
        }
        if exists|i: int|
            0 <= i < scanned.len() && shown_as_dir(#[trigger] scanned[i], root_dir, item) {
            let i = choose|i: int|
                0 <= i < scanned.len() && shown_as_dir(#[trigger] scanned[i], root_dir, item);
            if i < head.len() {
                assert(head[i] == scanned[i]);
                assert(before.dirs.contains(item));
                let k = choose|k: int| 0 <= k < before.dirs.len() && before.dirs[k] == item;
                assert(all.dirs[k] == item);
            } else {
                assert(all.dirs[all.dirs.len() - 1] == item);
            }
        }
    }
}

/// Whether `item` is the movie entry of the scanned child `child`.
pub open spec fn shown_as_movie(
    child: ScannedEntryView,
    root_dir: Seq<char>,
    host: Seq<char>,
    user_id: Seq<char>,
    item: ResultItemView,
) -> bool {
    path_properties(child.entry, root_dir) matches Some(properties) && is_movie_entry(properties)
        && item == movie_item(properties, host, user_id, child.lookup)
}

/// Whether `item` is the directory entry of the scanned child `child`.
pub open spec fn shown_as_dir(child: ScannedEntryView, root_dir: Seq<char>, item: ResultItemView)
    -> bool {
    path_properties(child.entry, root_dir) matches Some(properties) && properties.file_type
        == FileTypes::Dir && item == dir_item(properties)
}

/// A listing shows under its movies exactly the movie entries of the
/// children that are regular files with a movie's extension, and under its
/// directories exactly the entries of the children that are directories.
pub proof fn lemma_listing_members(
    scanned: Seq<ScannedEntryView>,
    root_dir: Seq<char>,
    host: Seq<char>,
    user_id: Seq<char>,
    item: ResultItemView,
)
    ensures
        listing(scanned, root_dir, host, user_id).movies.contains(item) <==> exists|i: int|
            0 <= i < scanned.len() && shown_as_movie(
                #[trigger] scanned[i],
                root_dir,
                host,
                user_id,
                item,
            ),
        listing(scanned, root_dir, host, user_id).dirs.contains(item) <==> exists|i: int|
            0 <= i < scanned.len() && shown_as_dir(#[trigger] scanned[i], root_dir, item),
        listing(scanned, root_dir, host, user_id).movies.len() == collected(
            scanned,
            root_dir,
            host,
            user_id,
        ).movies.len(),
        listing(scanned, root_dir, host, user_id).dirs.len() == collected(
            scanned,
            root_dir,
            host,
            user_id,
        ).dirs.len(),
{
    broadcast use vstd::seq_lib::group_to_multiset_ensures;

    let all = collected(scanned, root_dir, host, user_id);
    lemma_collected_members(scanned, root_dir, host, user_id, item);
    lemma_sorted_by_name(all.movies);
    lemma_sorted_by_name(all.dirs);
    assert(sorted_by_name(all.movies).contains(item) <==> all.movies.contains(item)) by {
        assert(sorted_by_name(all.movies).to_multiset().count(item)
            == all.movies.to_multiset().count(item));
    }
    assert(sorted_by_name(all.dirs).contains(item) <==> all.dirs.contains(item)) by {
        assert(sorted_by_name(all.dirs).to_multiset().count(item)
            == all.dirs.to_multiset().count(item));
    }
}

} // verus!
