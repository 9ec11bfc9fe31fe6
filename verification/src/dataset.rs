//! The documents of a benchmark run: an ordered list of pages, each with its
//! address, its kind and the file that holds its content.

use vstd::prelude::*;
use vstd::string::StringExecFns;

use crate::text::chars_of;
use crate::text::find;
use crate::text::find_from;
use crate::text::lemma_find;
use crate::text::lowercased;
use crate::text::strip;
use crate::text::stripped_of;
use crate::text::to_lowercase;
use crate::text::trim;
use crate::text::trimmed;

verus! {

/// The mark between the scheme of an address and the rest of it.
pub open spec fn scheme_mark() -> Seq<char> {
    seq![':', '/', '/']
}

/// One field of a line of the manifest: without the white space around it,
/// and then without the double quotes around that.
pub open spec fn field(text: Seq<char>) -> Seq<char> {
    stripped_of(trimmed(text), '"')
}

/// The address and the kind that a line of the manifest gives: its first two
/// fields, where the fields are parted by commas. A line without a comma gives
/// nothing.
pub open spec fn parsed_line(line: Seq<char>) -> Option<(Seq<char>, Seq<char>)> {
    match find_from(line, seq![','], 0) {
        None => None,
        Some(first) => Some(
            (
                field(line.subrange(0, first)),
                field(
                    line.subrange(
                        first + 1,
                        match find_from(line, seq![','], first + 1) {
                            Some(second) => second,
                            None => line.len() as int,
                        },
                    ),
                ),
            ),
        ),
    }
}

/// The part of an address after the first slash that follows the scheme mark,
/// as it is written. An address without the mark, or without a slash after it,
/// has none.
pub open spec fn path_of(url: Seq<char>) -> Option<Seq<char>> {
    match find_from(url, scheme_mark(), 0) {
        None => None,
        Some(mark) => match find_from(url, seq!['/'], mark + 3) {
            None => None,
            Some(slash) => Some(url.skip(slash + 1)),
        },
    }
}

/// The text that percent-decoding makes of `text`, where the decoded bytes are
/// valid UTF-8.
pub uninterp spec fn percent_decoded(text: Seq<char>) -> Option<Seq<char>>;

/// Calls `urlencoding::decode`. The contract gives the outcome a name and
/// claims nothing else of it; an error of the decoder comes out as `None`.
#[verifier::external_body]
fn decode(text: &str) -> (decoded: Option<String>)
    ensures
        match decoded {
            Some(decoded) => percent_decoded(text@) == Some(decoded@),
            None => percent_decoded(text@) is None,
        },
{
    match urlencoding::decode(text) {
        Ok(decoded) => Some(decoded.into_owned()),
        Err(_) => None,
    }
}

/// The name, relative to the directory of the dataset, under which the page of
/// an address is kept: the path of the address, percent-decoded.
pub open spec fn filename_of(url: Seq<char>) -> Option<Seq<char>> {
    match path_of(url) {
        Some(path) => percent_decoded(path),
        None => None,
    }
}

/// One page of a dataset.
#[derive(Clone, Debug)]
pub struct Entry {
    /// The address the page was captured from.
    pub url: String,
    /// The kind of page, as the manifest labels it.
    pub page_type: String,
    /// The file that holds the captured content.
    pub filepath: String,
}

/// An entry as a value of the model.
pub struct EntryView {
    pub url: Seq<char>,
    pub page_type: Seq<char>,
    pub filepath: Seq<char>,
}

impl View for Entry {
    type V = EntryView;

    open spec fn view(&self) -> EntryView {
        EntryView { url: self.url@, page_type: self.page_type@, filepath: self.filepath@ }
    }
}

/// The longest part of a name that is shown whole, in bytes of UTF-8.
pub const MAX_LENGTH: usize = 10;

/// The number of bytes that a character takes in UTF-8.
pub open spec fn width(c: char) -> int {
    if (c as u32) < 0x80 {
        1
    } else if (c as u32) < 0x800 {
        2
    } else if (c as u32) < 0x1_0000 {
        3
    } else {
        4
    }
}

/// Counts characters of `part` from the place `k` on, with `used` bytes taken
/// so far, until `MAX_LENGTH` bytes are reached or the part ends: the place
/// where the count stops and the bytes taken up to it.
pub open spec fn measured(part: Seq<char>, k: int, used: int) -> (int, int)
    decreases part.len() - k,
{
    if used >= MAX_LENGTH || k < 0 || k >= part.len() {
        (k, used)
    } else {
        measured(part, k + 1, used + width(part[k]))
    }
}

/// One part of a name as it is shown: whole where it takes at most
/// `MAX_LENGTH` bytes, else its first `MAX_LENGTH` bytes and an ellipsis. A part
/// in which a character lies across that length cannot be shown.
pub open spec fn short(part: Seq<char>) -> Option<Seq<char>> {
    let (k, used) = measured(part, 0, 0);
    if used > MAX_LENGTH {
        None
    } else if k == part.len() {
        Some(part)
    } else {
        Some(part.take(k) + "…"@)
    }
}

/// The number of bytes that a text takes in UTF-8.
pub open spec fn byte_len(text: Seq<char>) -> int
    decreases text.len(),
{
    if text.len() == 0 {
        0
    } else {
        byte_len(text.drop_last()) + width(text.last())
    }
}

/// A longer start of a text takes more bytes than a shorter one.
proof fn lemma_byte_len_grows(text: Seq<char>, shorter: int, longer: int)
    requires
        0 <= shorter <= longer <= text.len(),
    ensures
        byte_len(text.take(shorter)) + (longer - shorter) <= byte_len(text.take(longer)),
    decreases longer - shorter,
{
    if shorter < longer {
        lemma_byte_len_grows(text, shorter, longer - 1);
        assert(text.take(longer).drop_last() =~= text.take(longer - 1));
    }
}

/// Where the count of `measured` stops, the bytes it has taken are those of
/// the characters before that place, and before that place no start of the
/// part takes `MAX_LENGTH` bytes or more.
proof fn lemma_measured(part: Seq<char>, k: int, used: int)
    requires
        0 <= k <= part.len(),
        used == byte_len(part.take(k)),
    ensures
        k <= measured(part, k, used).0 <= part.len(),
        measured(part, k, used).1 == byte_len(part.take(measured(part, k, used).0)),
        measured(part, k, used).1 >= MAX_LENGTH || measured(part, k, used).0 == part.len(),
        used < MAX_LENGTH ==> forall|j: int|
            k <= j < measured(part, k, used).0 ==> byte_len(#[trigger] part.take(j)) < MAX_LENGTH,
    decreases part.len() - k,
{
    if used < MAX_LENGTH && k < part.len() {
        assert(part.take(k + 1).drop_last() =~= part.take(k));
        lemma_measured(part, k + 1, used + width(part[k]));
    }
}

/// A part is shown whole where it takes at most `MAX_LENGTH` bytes; a longer
/// part is shown as its start of exactly `MAX_LENGTH` bytes and an ellipsis;
/// and a longer part that has no start of exactly `MAX_LENGTH` bytes cannot be
/// shown.
pub proof fn short_is_the_start_of_max_length(part: Seq<char>, k: int)
    requires
        0 <= k <= part.len(),
    ensures
        byte_len(part) <= MAX_LENGTH ==> short(part) == Some(part),
        byte_len(part) > MAX_LENGTH && byte_len(part.take(k)) == MAX_LENGTH ==> short(part)
            == Some(part.take(k) + "…"@),
        byte_len(part) > MAX_LENGTH && (forall|j: int|
            0 <= j <= part.len() ==> byte_len(#[trigger] part.take(j)) != MAX_LENGTH) ==> short(
            part,
        ) is None,
{
    assert(part.take(0) =~= Seq::<char>::empty());
    assert(part.take(part.len() as int) =~= part);
    lemma_measured(part, 0, 0);
    let (stop, used) = measured(part, 0, 0);
    lemma_byte_len_grows(part, stop, part.len() as int);
    if byte_len(part) > MAX_LENGTH && byte_len(part.take(k)) == MAX_LENGTH {
        if k < stop {
            assert(byte_len(part.take(k)) < MAX_LENGTH);
        } else {
            lemma_byte_len_grows(part, stop, k);
        }
    }
}

/// Puts `head` before a text, if there is one.
pub open spec fn after(head: Seq<char>, tail: Option<Seq<char>>) -> Option<Seq<char>> {
    match tail {
        Some(tail) => Some(head + tail),
        None => None,
    }
}

/// The parts of `path` from the place `from` on, each as it is shown, with the
/// slashes between them.
pub open spec fn shortened_from(path: Seq<char>, from: int) -> Option<Seq<char>>
    decreases path.len() - from,
    via shortened_decreases
{
    if from < 0 {
        None
    } else {
        match find_from(path, seq!['/'], from) {
            None => short(path.skip(from)),
            Some(slash) => match short(path.subrange(from, slash)) {
                Some(part) => after(part + seq!['/'], shortened_from(path, slash + 1)),
                None => None,
            },
        }
    }
}

#[via_fn]
proof fn shortened_decreases(path: Seq<char>, from: int) {
    if from >= 0 {
        lemma_find(path, seq!['/'], from);
    }
}

/// What follows the scheme mark of an address, up to the next such mark.
pub open spec fn without_protocol(url: Seq<char>) -> Seq<char> {
    match find_from(url, scheme_mark(), 0) {
        None => Seq::empty(),
        Some(mark) => url.subrange(
            mark + 3,
            match find_from(url, scheme_mark(), mark + 3) {
                Some(next) => next,
                None => url.len() as int,
            },
        ),
    }
}

/// What follows the first slash of a text.
pub open spec fn without_domain(rest: Seq<char>) -> Seq<char> {
    match find_from(rest, seq!['/'], 0) {
        None => Seq::empty(),
        Some(slash) => rest.skip(slash + 1),
    }
}

/// The kind of page that a label of the manifest means: the label without the
/// white space around it, in lower case.
pub open spec fn kind_of(page_type: Seq<char>) -> Seq<char> {
    lowercased(trimmed(page_type))
}

/// The icon of a kind of page, where the kind is known.
pub open spec fn icon_of(kind: Seq<char>) -> Option<Seq<char>> {
    if kind == "article"@ {
        Some("📄"@)
    } else if kind == "user"@ || kind == "person"@ || kind == "profile"@ {
        Some("👤"@)
    } else if kind == "category"@ || kind == "section"@ {
        Some("📂"@)
    } else if kind == "disambiguation"@ {
        Some("🤔"@)
    } else if kind == "search"@ {
        Some("🔍"@)
    } else if kind == "product"@ {
        Some("🛍️"@)
    } else if kind == "store"@ {
        Some("🏬"@)
    } else if kind == "movie"@ {
        Some("🎬"@)
    } else if kind == "user_list"@ {
        Some("📋"@)
    } else if kind == "video"@ {
        Some("📹"@)
    } else if kind == "news_article"@ {
        Some("📰"@)
    } else if kind == "tag"@ {
        Some("🏷️"@)
    } else if kind == "special"@ {
        Some("✨"@)
    } else {
        None
    }
}

/// The name under which a page is shown: a slash, the path of its address
/// after the domain with each part as it is shown, a space, and the icon of
/// its kind. There is none where a part cannot be shown or the kind is unknown.
pub open spec fn name_of(entry: EntryView) -> Option<Seq<char>> {
    match (
        shortened_from(without_domain(without_protocol(entry.url)), 0),
        icon_of(kind_of(entry.page_type)),
    ) {
        (Some(truncated), Some(icon)) => Some("/"@ + truncated + " "@ + icon),
        _ => None,
    }
}

/// The number of bytes that a character takes in UTF-8.
fn width_of(c: char) -> (bytes: usize)
    ensures
        bytes == width(c),
{
    let code = c as u32;
    if code < 0x80 {
        1
    } else if code < 0x800 {
        2
    } else if code < 0x1_0000 {
        3
    } else {
        4
    }
}

/// Appends to `out` the part of `path` between the places `from` and `to` as it
/// is shown; says whether it can be shown, and leaves `out` as it was where it
/// cannot.
fn append_short(out: &mut String, path: &str, chars: &Vec<char>, from: usize, to: usize) -> (shown:
    bool)
    requires
        chars@ == path@,
        from <= to <= chars.len(),
    ensures
        match short(path@.subrange(from as int, to as int)) {
            Some(part) => shown && final(out)@ == old(out)@ + part,
            None => !shown && final(out)@ == old(out)@,
        },
{
    let ghost part = path@.subrange(from as int, to as int);
    let mut k: usize = from;
    let mut used: usize = 0;
    while used < MAX_LENGTH && k < to
        invariant
            from <= k <= to <= chars.len(),
            chars@ == path@,
            part == path@.subrange(from as int, to as int),
            used <= MAX_LENGTH + 3,
            measured(part, 0, 0) == measured(part, k - from, used as int),
        decreases to - k,
    {
        used = used + width_of(chars[k]);
        k += 1;
    }
    if used > MAX_LENGTH {
        false
    } else if k == to {
        out.append(path.substring_char(from, to));
        true
    } else {
        assert(part.take(k - from) =~= path@.subrange(from as int, k as int));
        let ghost before = out@;
        out.append(path.substring_char(from, k));
        out.append("…");
        assert(out@ =~= before + (part.take(k - from) + "…"@));
        true
    }
}

/// The parts of `path`, each as it is shown, with the slashes between them.
fn shorten(path: &str) -> (shortened: Option<String>)
    ensures
        match shortened {
            Some(shortened) => shortened_from(path@, 0) == Some(shortened@),
            None => shortened_from(path@, 0) is None,
        },
{
    let chars = chars_of(path);
    let slash = vec!['/'];
    assert(slash@ =~= seq!['/']);
    let mut out = String::new();
    let mut from: usize = 0;
    assert(Seq::<char>::empty() + Seq::<char>::empty() =~= Seq::<char>::empty());
    loop
        invariant
            from <= chars.len(),
            chars@ == path@,
            slash@ == seq!['/'],
            shortened_from(path@, 0) == after(out@, shortened_from(path@, from as int)),
        decreases chars.len() - from,
    {
        proof {
            lemma_find(path@, slash@, from as int);
        }
        let ghost before = out@;
        match find(&chars, &slash, from) {
            None => {
                assert(path@.subrange(from as int, path@.len() as int) =~= path@.skip(from as int));
                if append_short(&mut out, path, &chars, from, chars.len()) {
                    return Some(out);
                } else {
                    return None;
                }
            },
            Some(at) => {
                if !append_short(&mut out, path, &chars, from, at) {
                    return None;
                }
                proof {
                    reveal_strlit("/");
                }
                out.append("/");
                let ghost part = short(path@.subrange(from as int, at as int))->0;
                assert(out@ =~= before + (part + seq!['/']));
                assert(forall|tail: Seq<char>|
                    before + (part + seq!['/'] + tail) =~= before + (part + seq!['/']) + tail);
                from = at + 1;
            },
        }
    }
}

/// The icon of a kind of page, where the kind is known.
pub fn icon_for(kind: &str) -> (icon: Option<&'static str>)
    ensures
        match icon {
            Some(icon) => icon_of(kind@) == Some(icon@),
            None => icon_of(kind@) is None,
        },
{
    let kind = kind.to_owned();
    if kind == "article".to_owned() {
        Some("📄")
    } else if kind == "user".to_owned() || kind == "person".to_owned() || kind
        == "profile".to_owned() {
        Some("👤")
    } else if kind == "category".to_owned() || kind == "section".to_owned() {
        Some("📂")
    } else if kind == "disambiguation".to_owned() {
        Some("🤔")
    } else if kind == "search".to_owned() {
        Some("🔍")
    } else if kind == "product".to_owned() {
        Some("🛍️")
    } else if kind == "store".to_owned() {
        Some("🏬")
    } else if kind == "movie".to_owned() {
        Some("🎬")
    } else if kind == "user_list".to_owned() {
        Some("📋")
    } else if kind == "video".to_owned() {
        Some("📹")
    } else if kind == "news_article".to_owned() {
        Some("📰")
    } else if kind == "tag".to_owned() {
        Some("🏷️")
    } else if kind == "special".to_owned() {
        Some("✨")
    } else {
        None
    }
}

impl Entry {
    /// The path of the address after the domain, each part as it is shown;
    /// `None` where a part cannot be shown.
    fn shown_path(&self) -> (shown: Option<String>)
        ensures
            match shown {
                Some(shown) => shortened_from(without_domain(without_protocol(self@.url)), 0)
                    == Some(shown@),
                None => shortened_from(without_domain(without_protocol(self@.url)), 0) is None,
            },
    {
        let url = self.url.as_str();
        let chars = chars_of(url);
        let mark = vec![':', '/', '/'];
        let slash = vec!['/'];
        assert(mark@ =~= scheme_mark());
        assert(slash@ =~= seq!['/']);
        proof {
            reveal_strlit("");
        }
        let rest = match find(&chars, &mark, 0) {
            None => "",
            Some(mark_at) => {
                proof {
                    lemma_find(url@, mark@, 0);
                    lemma_find(url@, mark@, mark_at + 3);
                }
                let end = match find(&chars, &mark, mark_at + 3) {
                    Some(next) => next,
                    None => chars.len(),
                };
                url.substring_char(mark_at + 3, end)
            },
        };
        assert(rest@ =~= without_protocol(url@));
        let rest_chars = chars_of(rest);
        let path = match find(&rest_chars, &slash, 0) {
            None => "",
            Some(slash_at) => {
                proof {
                    lemma_find(rest@, slash@, 0);
                }
                assert(rest@.subrange(slash_at + 1, rest@.len() as int) =~= rest@.skip(
                    slash_at + 1,
                ));
                rest.substring_char(slash_at + 1, rest_chars.len())
            },
        };
        assert(path@ =~= without_domain(rest@));
        shorten(path)
    }

    /// The icon of the kind of the page.
    pub fn icon(&self) -> (icon: String)
        requires
            icon_of(kind_of(self@.page_type)) is Some,
        ensures
            icon_of(kind_of(self@.page_type)) == Some(icon@),
    {
        let pt = to_lowercase(trim(self.page_type.as_str()));
        match icon_for(pt.as_str()) {
            Some(icon) => icon.to_owned(),
            None => vstd::pervasive::unreached(),
        }
    }

    /// The icon of the kind of the page, or `None` where the kind is unknown.
    pub fn try_icon(&self) -> (icon: Option<String>)
        ensures
            match icon {
                Some(icon) => icon_of(kind_of(self@.page_type)) == Some(icon@),
                None => icon_of(kind_of(self@.page_type)) is None,
            },
    {
        let pt = to_lowercase(trim(self.page_type.as_str()));
        if icon_for(pt.as_str()).is_some() {
            Some(self.icon())
        } else {
            None
        }
    }

    /// The name under which the page is shown.
    pub fn get_name(&self) -> (name: String)
        requires
            name_of(self@) is Some,
        ensures
            name_of(self@) == Some(name@),
    {
        match self.shown_path() {
            Some(truncated) => {
                let mut name = "/".to_owned();
                name.append(truncated.as_str());
                name.append(" ");
                name.append(self.icon().as_str());
                name
            },
            None => vstd::pervasive::unreached(),
        }
    }

    /// Whether the page has a name to be shown under: every part of its path
    /// can be shown and its kind is known.
    pub fn has_name(&self) -> (named: bool)
        ensures
            named == name_of(self@) is Some,
    {
        let pt = to_lowercase(trim(self.page_type.as_str()));
        self.shown_path().is_some() && icon_for(pt.as_str()).is_some()
    }

    /// The name under which the page is shown, or `None` where it has none.
    pub fn try_get_name(&self) -> (name: Option<String>)
        ensures
            match name {
                Some(name) => name_of(self@) == Some(name@),
                None => name_of(self@) is None,
            },
    {
        if self.has_name() {
            Some(self.get_name())
        } else {
            None
        }
    }
}

/// The pages of one dataset, in the order of its manifest.
#[derive(Clone, Debug)]
pub struct Dataset {
    entries: Vec<Entry>,
    directory: String,
}

/// A dataset as a value of the model.
pub struct DatasetView {
    pub entries: Seq<EntryView>,
    pub directory: Seq<char>,
}

impl View for Dataset {
    type V = DatasetView;

    closed spec fn view(&self) -> DatasetView {
        DatasetView {
            entries: self.entries@.map_values(|entry: Entry| entry@),
            directory: self.directory@,
        }
    }
}

/// The position of the first entry with the address `url`, if there is one.
pub open spec fn first_with_url(entries: Seq<EntryView>, url: Seq<char>) -> Option<int>
    decreases entries.len(),
{
    if entries.len() == 0 {
        None
    } else if first_with_url(entries.drop_last(), url) is Some {
        first_with_url(entries.drop_last(), url)
    } else if entries.last().url == url {
        Some(entries.len() - 1)
    } else {
        None
    }
}

/// A path under a base, as paths are joined where the slash parts them: a path
/// that starts at the root stands alone, and a slash is put between the two
/// where the base does not end in one.
pub open spec fn joined(base: Seq<char>, path: Seq<char>) -> Seq<char> {
    if path.len() > 0 && path[0] == '/' {
        path
    } else if base.len() == 0 || base.last() == '/' {
        base + path
    } else {
        base + seq!['/'] + path
    }
}

/// Joins a path to a base.
pub fn join_path(base: &str, path: &str) -> (whole: String)
    ensures
        whole@ == joined(base@, path@),
{
    if !path.is_empty() && path.get_char(0) == '/' {
        return path.to_owned();
    }
    let mut whole = base.to_owned();
    let length = base.unicode_len();
    if length > 0 && base.get_char(length - 1) != '/' {
        proof {
            reveal_strlit("/");
        }
        whole.append("/");
        assert(whole@ =~= base@ + seq!['/']);
    }
    whole.append(path);
    whole
}

/// The directory of the dataset called `directory`, seen from `root`.
pub fn get_dataset_path(root: &str, directory: &str) -> (path: String)
    ensures
        path@ == joined(joined(root@, "../../dataset"@), directory@),
{
    let datasets = join_path(root, "../../dataset");
    join_path(datasets.as_str(), directory)
}

/// What a dataset needs to know of the file system: which of the paths it asks
/// for are files, and which are directories.
#[derive(Clone, Debug)]
pub struct Files {
    /// The paths that are files.
    pub files: Vec<String>,
    /// The paths that are directories.
    pub directories: Vec<String>,
}

/// The file system as a value of the model.
pub struct FilesView {
    pub files: Seq<Seq<char>>,
    pub directories: Seq<Seq<char>>,
}

impl View for Files {
    type V = FilesView;

    open spec fn view(&self) -> FilesView {
        FilesView {
            files: self.files@.map_values(|path: String| path@),
            directories: self.directories@.map_values(|path: String| path@),
        }
    }
}

impl FilesView {
    /// Whether `path` is a directory.
    pub open spec fn is_dir(self, path: Seq<char>) -> bool {
        self.directories.contains(path)
    }

    /// Whether there is anything at `path`.
    pub open spec fn is_present(self, path: Seq<char>) -> bool {
        self.files.contains(path) || self.directories.contains(path)
    }
}

/// Whether `path` is among `paths`.
fn listed(paths: &Vec<String>, path: &str) -> (found: bool)
    ensures
        found == paths@.map_values(|path: String| path@).contains(path@),
{
    let wanted = path.to_owned();
    let ghost all = paths@.map_values(|path: String| path@);
    let mut i: usize = 0;
    while i < paths.len()
        invariant
            i <= paths.len(),
            wanted@ == path@,
            all == paths@.map_values(|path: String| path@),
            forall|k: int| 0 <= k < i ==> all[k] != path@,
        decreases paths.len() - i,
    {
        if paths[i] == wanted {
            assert(all[i as int] == path@);
            return true;
        }
        i += 1;
    }
    false
}

impl Files {
    /// Whether `path` is a directory.
    pub fn is_dir(&self, path: &str) -> (found: bool)
        ensures
            found == self@.is_dir(path@),
    {
        listed(&self.directories, path)
    }

    /// Whether there is anything at `path`.
    pub fn is_present(&self, path: &str) -> (found: bool)
        ensures
            found == self@.is_present(path@),
    {
        listed(&self.files, path) || listed(&self.directories, path)
    }
}

/// The endings under which the file of a page is looked for, in this order.
pub open spec fn extensions() -> Seq<Seq<char>> {
    seq![".txt"@, ".md"@, ".html"@, ".wiki"@, ""@]
}

/// The path that the page named `page_name` has with the ending of place `k`.
pub open spec fn candidate(directory: Seq<char>, page_name: Seq<char>, k: int) -> Seq<char> {
    joined(directory, page_name + extensions()[k])
}

/// The index page of a directory.
pub open spec fn index_in(directory: Seq<char>) -> Seq<char> {
    joined(directory, "index.html"@)
}

/// The file of the page named `page_name`, looked for from the ending of place
/// `k` on: the first ending wins under which there is a directory with an index
/// page, which gives that page, or anything at all, which gives the path itself.
pub open spec fn resolved_from(
    directory: Seq<char>,
    page_name: Seq<char>,
    files: FilesView,
    k: int,
) -> Option<Seq<char>>
    decreases 5 - k,
{
    if k < 0 || k >= 5 {
        None
    } else if files.is_dir(candidate(directory, page_name, k)) && files.is_present(
        index_in(candidate(directory, page_name, k)),
    ) {
        Some(index_in(candidate(directory, page_name, k)))
    } else if files.is_present(candidate(directory, page_name, k)) {
        Some(candidate(directory, page_name, k))
    } else {
        resolved_from(directory, page_name, files, k + 1)
    }
}

/// The file of the page of an address.
pub open spec fn resolved(directory: Seq<char>, url: Seq<char>, files: FilesView) -> Option<
    Seq<char>,
> {
    match filename_of(url) {
        Some(page_name) => resolved_from(directory, page_name, files, 0),
        None => None,
    }
}

/// The paths that resolving the page named `page_name` may ask the file system
/// about: for each ending the path and its index page.
pub open spec fn candidates_of(directory: Seq<char>, page_name: Seq<char>) -> Seq<Seq<char>> {
    Seq::new(
        10,
        |i: int|
            if i % 2 == 0 {
                candidate(directory, page_name, i / 2)
            } else {
                index_in(candidate(directory, page_name, i / 2))
            },
    )
}

/// The paths that resolving the page of an address may ask about.
pub open spec fn probes_of(directory: Seq<char>, url: Seq<char>) -> Seq<Seq<char>> {
    match filename_of(url) {
        Some(page_name) => candidates_of(directory, page_name),
        None => Seq::empty(),
    }
}

/// The entry that a line of the manifest gives: its address and kind with the
/// file of the page, where the line has both fields and the file is found.
pub open spec fn entry_of(directory: Seq<char>, line: Seq<char>, files: FilesView) -> Option<
    EntryView,
> {
    match parsed_line(line) {
        Some((url, page_type)) => match resolved(directory, url, files) {
            Some(filepath) => Some(EntryView { url, page_type, filepath }),
            None => None,
        },
        None => None,
    }
}

/// The entries that a list of lines gives, in the order of the lines.
pub open spec fn entries_of(directory: Seq<char>, lines: Seq<Seq<char>>, files: FilesView) -> Seq<
    EntryView,
>
    decreases lines.len(),
{
    if lines.len() == 0 {
        Seq::empty()
    } else {
        match entry_of(directory, lines.last(), files) {
            Some(entry) => entries_of(directory, lines.drop_last(), files).push(entry),
            None => entries_of(directory, lines.drop_last(), files),
        }
    }
}

/// The lines of a manifest after its heading.
pub open spec fn body_of(lines: Seq<Seq<char>>) -> Seq<Seq<char>> {
    if lines.len() == 0 {
        lines
    } else {
        lines.drop_first()
    }
}

/// The paths that loading a list of lines may ask the file system about.
pub open spec fn wanted_of(directory: Seq<char>, lines: Seq<Seq<char>>) -> Seq<Seq<char>>
    decreases lines.len(),
{
    if lines.len() == 0 {
        Seq::empty()
    } else {
        wanted_of(directory, lines.drop_last()) + match parsed_line(lines.last()) {
            Some((url, page_type)) => probes_of(directory, url),
            None => Seq::empty(),
        }
    }
}

/// The texts of a list of lines.
pub open spec fn texts_of(lines: Seq<String>) -> Seq<Seq<char>> {
    lines.map_values(|line: String| line@)
}

/// The ending of place `k`.
fn extension(k: usize) -> (ending: &'static str)
    requires
        k < 5,
    ensures
        ending@ == extensions()[k as int],
{
    if k == 0 {
        ".txt"
    } else if k == 1 {
        ".md"
    } else if k == 2 {
        ".html"
    } else if k == 3 {
        ".wiki"
    } else {
        ""
    }
}

/// The path that the page named `page_name` has with the ending of place `k`.
fn candidate_path(directory: &str, page_name: &str, k: usize) -> (path: String)
    requires
        k < 5,
    ensures
        path@ == candidate(directory@, page_name@, k as int),
{
    let filename = page_name.to_owned().concat(extension(k));
    join_path(directory, filename.as_str())
}

impl Dataset {
    /// Reads the address and the kind of page from a line of the manifest.
    pub fn parse_csv_line(line: &str) -> (parsed: Option<(String, String)>)
        ensures
            match parsed {
                Some((url, page_type)) => parsed_line(line@) == Some((url@, page_type@)),
                None => parsed_line(line@) is None,
            },
    {
        let chars = chars_of(line);
        let comma = vec![','];
        assert(comma@ =~= seq![',']);
        match find(&chars, &comma, 0) {
            None => None,
            Some(first) => {
                proof {
                    lemma_find(line@, comma@, 0);
                    lemma_find(line@, comma@, first + 1);
                }
                let end = match find(&chars, &comma, first + 1) {
                    Some(second) => second,
                    None => chars.len(),
                };
                let url = strip(trim(line.substring_char(0, first)), '"').to_owned();
                let page_type = strip(trim(line.substring_char(first + 1, end)), '"').to_owned();
                Some((url, page_type))
            },
        }
    }

    /// The name under which the page of an address is kept.
    pub fn url_to_filename(url: &str) -> (filename: Option<String>)
        ensures
            match filename {
                Some(filename) => filename_of(url@) == Some(filename@),
                None => filename_of(url@) is None,
            },
    {
        let chars = chars_of(url);
        let mark = vec![':', '/', '/'];
        let slash = vec!['/'];
        assert(mark@ =~= scheme_mark());
        assert(slash@ =~= seq!['/']);
        match find(&chars, &mark, 0) {
            None => None,
            Some(mark_at) => {
                proof {
                    lemma_find(url@, mark@, 0);
                    lemma_find(url@, slash@, mark_at + 3);
                }
                match find(&chars, &slash, mark_at + 3) {
                    None => None,
                    Some(path_start) => {
                        assert(url@.subrange(path_start + 1, url@.len() as int) =~= url@.skip(
                            path_start + 1,
                        ));
                        decode(url.substring_char(path_start + 1, chars.len()))
                    },
                }
            },
        }
    }

    /// The dataset under `directory` that the lines of its manifest give, the
    /// first line being the heading, with the files as `files` knows them.
    pub fn new(directory: &str, lines: &Vec<String>, files: &Files) -> (dataset: Self)
        ensures
            dataset@.directory == directory@,
            dataset@.entries == entries_of(directory@, body_of(texts_of(lines@)), files@),
    {
        let mut dataset = Dataset { entries: Vec::new(), directory: directory.to_owned() };
        dataset.load_csv(lines, files);
        dataset
    }

    /// Adds the entries that the lines after the heading give.
    fn load_csv(&mut self, lines: &Vec<String>, files: &Files)
        ensures
            final(self)@.directory == old(self)@.directory,
            final(self)@.entries == old(self)@.entries + entries_of(
                old(self)@.directory,
                body_of(texts_of(lines@)),
                files@,
            ),
    {
        let ghost all = texts_of(lines@);
        let ghost body = body_of(all);
        let ghost before = self@.entries;
        if lines.len() == 0 {
            assert(self@.entries =~= before + Seq::empty());
            return ;
        }
        let mut i: usize = 1;
        assert(body.take(0) =~= Seq::empty());
        assert(self@.entries =~= before + Seq::empty());
        while i < lines.len()
            invariant
                1 <= i <= lines.len(),
                all == texts_of(lines@),
                body == all.drop_first(),
                self@.directory == old(self)@.directory,
                before == old(self)@.entries,
                self@.entries == before + entries_of(
                    self@.directory,
                    body.take(i - 1),
                    files@,
                ),
            decreases lines.len() - i,
        {
            assert(body.take(i as int).drop_last() =~= body.take(i - 1));
            assert(body.take(i as int).last() == lines[i as int]@);
            let ghost found = entries_of(self@.directory, body.take(i - 1), files@);
            if let Some((url, page_type)) = Self::parse_csv_line(lines[i].as_str()) {
                if let Some(filepath) = self.get_file_path(url.as_str(), files) {
                    let entry = Entry { url, page_type, filepath };
                    let ghost earlier = self.entries@.map_values(|entry: Entry| entry@);
                    self.entries.push(entry);
                    assert(self.entries@.map_values(|entry: Entry| entry@) =~= earlier.push(
                        entry@,
                    ));
                    assert(before + found.push(entry@) =~= (before + found).push(entry@));
                }
            }
            i += 1;
        }
        assert(body.take(i - 1) =~= body);
    }

    /// The file of the page named `page_name`, with the files as `files` knows
    /// them.
    pub fn find_file(&self, page_name: &str, files: &Files) -> (filepath: Option<String>)
        ensures
            match filepath {
                Some(filepath) => resolved_from(self@.directory, page_name@, files@, 0) == Some(
                    filepath@,
                ),
                None => resolved_from(self@.directory, page_name@, files@, 0) is None,
            },
    {
        let mut k: usize = 0;
        while k < 5
            invariant
                k <= 5,
                resolved_from(self@.directory, page_name@, files@, 0) == resolved_from(
                    self@.directory,
                    page_name@,
                    files@,
                    k as int,
                ),
            decreases 5 - k,
        {
            let filepath = candidate_path(self.directory.as_str(), page_name, k);
            if files.is_dir(filepath.as_str()) {
                let with_index = join_path(filepath.as_str(), "index.html");
                if files.is_present(with_index.as_str()) {
                    return Some(with_index);
                }
            }
            if files.is_present(filepath.as_str()) {
                return Some(filepath);
            }
            k += 1;
        }
        None
    }

    /// The file of the page of an address, with the files as `files` knows them.
    pub fn get_file_path(&self, url: &str, files: &Files) -> (filepath: Option<String>)
        ensures
            match filepath {
                Some(filepath) => resolved(self@.directory, url@, files@) == Some(filepath@),
                None => resolved(self@.directory, url@, files@) is None,
            },
    {
        if let Some(page_name) = Self::url_to_filename(url) {
            self.find_file(page_name.as_str(), files)
        } else {
            None
        }
    }

    /// The paths whose state decides the file of the page named `page_name`
    /// under the directory `directory`: for each ending the path and its index
    /// page.
    pub fn candidates_for(directory: &str, page_name: &str) -> (paths: Vec<String>)
        ensures
            texts_of(paths@) == candidates_of(directory@, page_name@),
    {
        let mut paths: Vec<String> = Vec::new();
        let mut k: usize = 0;
        while k < 5
            invariant
                k <= 5,
                paths@.len() == 2 * k,
                forall|i: int|
                    0 <= i < 2 * k ==> (#[trigger] paths@[i])@ == candidates_of(
                        directory@,
                        page_name@,
                    )[i],
            decreases 5 - k,
        {
            let filepath = candidate_path(directory, page_name, k);
            let with_index = join_path(filepath.as_str(), "index.html");
            paths.push(filepath);
            paths.push(with_index);
            k += 1;
        }
        assert(texts_of(paths@) =~= candidates_of(directory@, page_name@));
        paths
    }

    /// The paths whose state decides the file of the page of an address, under
    /// the directory `directory`.
    pub fn candidates(directory: &str, url: &str) -> (paths: Vec<String>)
        ensures
            texts_of(paths@) == probes_of(directory@, url@),
    {
        if let Some(page_name) = Self::url_to_filename(url) {
            Self::candidates_for(directory, page_name.as_str())
        } else {
            let paths: Vec<String> = Vec::new();
            assert(texts_of(paths@) =~= Seq::empty());
            paths
        }
    }

    /// The paths whose state decides what `new` makes of the lines of a
    /// manifest under the directory `directory`.
    pub fn wanted_paths(directory: &str, lines: &Vec<String>) -> (paths: Vec<String>)
        ensures
            texts_of(paths@) == wanted_of(directory@, body_of(texts_of(lines@))),
    {
        let ghost all = texts_of(lines@);
        let ghost body = body_of(all);
        let mut paths: Vec<String> = Vec::new();
        assert(texts_of(paths@) =~= Seq::empty());
        if lines.len() == 0 {
            return paths;
        }
        let mut i: usize = 1;
        assert(body.take(0) =~= Seq::empty());
        while i < lines.len()
            invariant
                1 <= i <= lines.len(),
                all == texts_of(lines@),
                body == all.drop_first(),
                texts_of(paths@) == wanted_of(directory@, body.take(i - 1)),
            decreases lines.len() - i,
        {
            assert(body.take(i as int).drop_last() =~= body.take(i - 1));
            assert(body.take(i as int).last() == lines[i as int]@);
            if let Some((url, page_type)) = Self::parse_csv_line(lines[i].as_str()) {
                let ghost earlier = texts_of(paths@);
                let mut more = Self::candidates(directory, url.as_str());
                let ghost added = texts_of(more@);
                paths.append(&mut more);
                assert(texts_of(paths@) =~= earlier + added);
            } else {
                assert(texts_of(paths@) + Seq::empty() =~= texts_of(paths@));
            }
            i += 1;
        }
        assert(body.take(i - 1) =~= body);
        paths
    }

    /// The kind of the first page with the address `url`.
    pub fn get_page_type(&self, url: &str) -> (page_type: Option<&String>)
        ensures
            match first_with_url(self@.entries, url@) {
                Some(i) => page_type is Some && page_type->0@ == self@.entries[i].page_type,
                None => page_type is None,
            },
    {
        let wanted = url.to_owned();
        let ghost all = self.entries@.map_values(|entry: Entry| entry@);
        let mut i: usize = 0;
        assert(all.take(0) =~= Seq::empty());
        while i < self.entries.len()
            invariant
                i <= self.entries.len(),
                all == self.entries@.map_values(|entry: Entry| entry@),
                wanted@ == url@,
                first_with_url(all.take(i as int), url@) is None,
            decreases self.entries.len() - i,
        {
            assert(all.take(i + 1).drop_last() =~= all.take(i as int));
            assert(all.take(i + 1).last() == self.entries[i as int]@);
            if self.entries[i].url == wanted {
                proof {
                    lemma_first_with_url_extends(all.take(i + 1), all);
                }
                return Some(&self.entries[i].page_type);
            }
            i += 1;
        }
        assert(all.take(i as int) =~= all);
        None
    }

    /// The pages, in the order of the manifest.
    pub fn entries(&self) -> (entries: &Vec<Entry>)
        ensures
            entries@.map_values(|entry: Entry| entry@) == self@.entries,
    {
        &self.entries
    }
}

/// A first match in a prefix of the entries is the first match in all of them.
proof fn lemma_first_with_url_extends(prefix: Seq<EntryView>, all: Seq<EntryView>)
    requires
        prefix.len() <= all.len(),
        prefix == all.take(prefix.len() as int),
    ensures
        forall|url: Seq<char>|
            first_with_url(prefix, url) is Some ==> first_with_url(all, url) == first_with_url(
                prefix,
                url,
            ),
    decreases all.len() - prefix.len(),
{
    if prefix.len() < all.len() {
        assert(all.drop_last().take(prefix.len() as int) =~= prefix);
        lemma_first_with_url_extends(prefix, all.drop_last());
    } else {
        assert(prefix =~= all);
    }
}

} // verus!
