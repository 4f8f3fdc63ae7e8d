//! From tag records to places in source files.
//!
//! A tag record names a file and gives the text of the defining line as it
//! was when the index was built. The place is found by reading the file as
//! it is now: the first line that holds both the record's pattern and its
//! name, and in that line the first occurrence of the name.

use crate::ctags::{tags, CtagsEntry, TagModel};
use crate::document::{
    result_text, symbol_at, DocumentError, DocumentsCache, Position, Range,
};
use crate::text::{
    contains, find, first_occurrence, occurs_at, option_text, same_text, texts, to_chars,
};
use vstd::prelude::*;
use vstd::string::StringExecFns;

verus! {

/// A span of one line in a file.
#[derive(Debug)]
pub struct Location {
    /// The file's address.
    pub uri: String,
    pub range: Range,
}

/// What a [`Location`] holds.
pub struct LocationModel {
    pub uri: Seq<char>,
    pub range: Range,
}

impl View for Location {
    type V = LocationModel;

    open spec fn view(&self) -> LocationModel {
        LocationModel { uri: self.uri@, range: self.range }
    }
}

/// What each of `locations` holds.
pub open spec fn places(locations: Seq<Location>) -> Seq<LocationModel> {
    locations.map_values(|l: Location| l@)
}

/// A source file as it was read: its path and its lines.
#[derive(Debug)]
pub struct SourceFile {
    pub path: String,
    pub lines: Vec<String>,
}

/// What a [`SourceFile`] holds.
pub struct SourceModel {
    pub path: Seq<char>,
    pub lines: Seq<Seq<char>>,
}

impl View for SourceFile {
    type V = SourceModel;

    open spec fn view(&self) -> SourceModel {
        SourceModel { path: self.path@, lines: texts(self.lines@) }
    }
}

/// What each of `sources` holds.
pub open spec fn sources_of(sources: Seq<SourceFile>) -> Seq<SourceModel> {
    sources.map_values(|s: SourceFile| s@)
}

/// Why no places could be given: a record was found in a file whose path
/// gives no address.
#[derive(Debug)]
pub struct LocateError {
    /// The path of the file.
    pub file: String,
}

/// What a [`LocateError`] holds.
pub struct LocateErrorModel {
    pub file: Seq<char>,
}

impl View for LocateError {
    type V = LocateErrorModel;

    open spec fn view(&self) -> LocateErrorModel {
        LocateErrorModel { file: self.file@ }
    }
}

/// The address that `Url::parse` makes of `input`, where it makes one.
pub uninterp spec fn url_text(input: Seq<char>) -> Option<Seq<char>>;

/// Calls `Url::parse` and writes the address out as text. How an address
/// is read and normalised is not described here: the result is only given
/// the name [`url_text`].
#[verifier::external_body]
fn parse_url(input: &str) -> (address: Option<String>)
    ensures
        option_text(address) == url_text(input@),
{
    match lsp_types::Url::parse(input) {
        Ok(url) => Some(String::from(url)),
        Err(_) => None,
    }
}

/// What is parsed to get the address of the file at `path`.
pub open spec fn file_url_input(path: Seq<char>) -> Seq<char> {
    "file://"@ + path
}

/// The address of the file at `path`, where its path gives one.
pub fn file_url(path: &str) -> (address: Option<String>)
    ensures
        option_text(address) == url_text(file_url_input(path@)),
{
    let mut input = String::from_str("file://");
    input.append(path);
    parse_url(input.as_str())
}

/// Whether `line` is a line for `tag`: it holds the pattern and the name.
pub open spec fn line_matches(line: Seq<char>, tag: TagModel) -> bool {
    contains(line, tag.pattern) && contains(line, tag.name)
}

/// The index of the first record from `from` on that is not yet found and
/// that `line` is a line for, or the number of records.
pub open spec fn first_match(
    line: Seq<char>,
    records: Seq<TagModel>,
    found: Seq<bool>,
    from: int,
) -> int
    decreases records.len() - from,
{
    if from >= records.len() {
        records.len() as int
    } else if !found[from] && line_matches(line, records[from]) {
        from
    } else {
        first_match(line, records, found, from + 1)
    }
}

/// The column at which `name` first stands in `line`.
pub open spec fn name_column(line: Seq<char>, name: Seq<char>) -> int {
    choose|i: int| first_occurrence(line, name, i)
}

/// A record that was found: its index among the records of its file, and
/// the line and column of its name.
pub struct Hit {
    pub record: int,
    pub line: int,
    pub character: int,
}

/// The records that are found in the lines from `from` on, in the order of
/// the lines, when `found` says which are found already. A line settles at
/// most one record: the first that is not yet found and that it is a line
/// for.
pub open spec fn scan(lines: Seq<Seq<char>>, records: Seq<TagModel>, found: Seq<bool>, from: int) -> Seq<
    Hit,
>
    decreases lines.len() - from,
{
    if from < 0 || from >= lines.len() {
        Seq::empty()
    } else {
        let record = first_match(lines[from], records, found, 0);
        if record < records.len() {
            seq![
                Hit {
                    record,
                    line: from,
                    character: name_column(lines[from], records[record].name),
                },
            ] + scan(lines, records, found.update(record, true), from + 1)
        } else {
            scan(lines, records, found, from + 1)
        }
    }
}

/// As many flags as there are `records`, none set.
pub open spec fn none_found(records: Seq<TagModel>) -> Seq<bool> {
    Seq::new(records.len(), |i: int| false)
}

/// The place of a hit: in its line, from the first character of the
/// record's name to behind its last.
pub open spec fn place_of(uri: Seq<char>, records: Seq<TagModel>, hit: Hit) -> LocationModel {
    LocationModel {
        uri,
        range: Range {
            start: Position { line: hit.line as usize, character: hit.character as usize },
            end: Position {
                line: hit.line as usize,
                character: (hit.character + records[hit.record].name.len()) as usize,
            },
        },
    }
}

/// The lines of the first of `sources` from `from` on whose path is `file`.
pub open spec fn source_lines(sources: Seq<SourceModel>, file: Seq<char>, from: int) -> Option<
    Seq<Seq<char>>,
>
    decreases sources.len() - from,
{
    if from < 0 || from >= sources.len() {
        None
    } else if sources[from].path == file {
        Some(sources[from].lines)
    } else {
        source_lines(sources, file, from + 1)
    }
}

/// The lines of `file` as they were read, or none where it is not among the
/// sources: a file that could not be read is a file without lines.
pub open spec fn lines_read(sources: Seq<SourceModel>, file: Seq<char>) -> Seq<Seq<char>> {
    match source_lines(sources, file, 0) {
        Some(lines) => lines,
        None => Seq::empty(),
    }
}

/// The places of the records of one file, which are all of `records`. A
/// file that is not among the sources gives no places and is no error. The
/// file's address is asked for only when a record is found.
pub open spec fn locate_file(
    records: Seq<TagModel>,
    file: Seq<char>,
    sources: Seq<SourceModel>,
) -> Result<Seq<LocationModel>, LocateErrorModel> {
    let hits = scan(lines_read(sources, file), records, none_found(records), 0);
    if hits.len() == 0 {
        Ok(Seq::empty())
    } else {
        match url_text(file_url_input(file)) {
            None => Err(LocateErrorModel { file }),
            Some(uri) => Ok(hits.map_values(|hit: Hit| place_of(uri, records, hit))),
        }
    }
}

/// The records of `entries` that are in `file`, in their order.
pub open spec fn records_in(entries: Seq<TagModel>, file: Seq<char>) -> Seq<TagModel> {
    entries.filter(|tag: TagModel| tag.file == file)
}

/// Whether no entry before entry `i` is in the same file.
pub open spec fn first_of_file(entries: Seq<TagModel>, i: int) -> bool {
    forall|j: int| 0 <= j < i ==> entries[j].file != entries[i].file
}

/// The places of `entries`, file by file. The files are taken in the order
/// in which they first occur in the entries from `from` on, each with all
/// the records that are in it. The first file whose address fails ends it.
pub open spec fn locate(entries: Seq<TagModel>, sources: Seq<SourceModel>, from: int) -> Result<
    Seq<LocationModel>,
    LocateErrorModel,
>
    decreases entries.len() - from,
{
    if from < 0 || from >= entries.len() {
        Ok(Seq::empty())
    } else if !first_of_file(entries, from) {
        locate(entries, sources, from + 1)
    } else {
        let file = entries[from].file;
        match locate_file(records_in(entries, file), file, sources) {
            Err(e) => Err(e),
            Ok(here) => match locate(entries, sources, from + 1) {
                Err(e) => Err(e),
                Ok(rest) => Ok(here + rest),
            },
        }
    }
}

/// The files of `entries` from `from` on, each once, in the order in which
/// they first occur among all the entries.
pub open spec fn files_from(entries: Seq<TagModel>, from: int) -> Seq<Seq<char>>
    decreases entries.len() - from,
{
    if from < 0 || from >= entries.len() {
        Seq::empty()
    } else if first_of_file(entries, from) {
        seq![entries[from].file] + files_from(entries, from + 1)
    } else {
        files_from(entries, from + 1)
    }
}

/// What is looked for in the lines for one record.
struct Needle {
    pattern: Vec<char>,
    name: Vec<char>,
}

/// A record that was found, as the scan notes it.
struct Found {
    record: usize,
    line: usize,
    character: usize,
}

impl View for Found {
    type V = Hit;

    closed spec fn view(&self) -> Hit {
        Hit { record: self.record as int, line: self.line as int, character: self.character as int }
    }
}

/// What each of `found` holds.
spec fn hits_of(found: Seq<Found>) -> Seq<Hit> {
    found.map_values(|f: Found| f@)
}

/// Whether the needles are the patterns and names of `records`.
spec fn needles_for(needles: Seq<Needle>, records: Seq<TagModel>) -> bool {
    &&& needles.len() == records.len()
    &&& forall|i: int|
        0 <= i < needles.len() ==> (#[trigger] needles[i]).pattern@ == records[i].pattern
            && needles[i].name@ == records[i].name
}

/// Once every record is found, no line settles another.
proof fn lemma_scan_done(lines: Seq<Seq<char>>, records: Seq<TagModel>, found: Seq<bool>, from: int)
    requires
        found.len() == records.len(),
        forall|i: int| 0 <= i < found.len() ==> found[i],
    ensures
        scan(lines, records, found, from) == Seq::<Hit>::empty(),
    decreases lines.len() - from,
{
    if 0 <= from < lines.len() {
        lemma_first_match_bounds(lines[from], records, found, 0);
        lemma_scan_done(lines, records, found, from + 1);
    }
}

/// What `first_match` answers is in range, and where it is a record, that
/// record is not yet found and the line is a line for it, and it is the
/// first such from `from` on.
proof fn lemma_first_match_bounds(
    line: Seq<char>,
    records: Seq<TagModel>,
    found: Seq<bool>,
    from: int,
)
    requires
        0 <= from <= records.len(),
    ensures
        from <= first_match(line, records, found, from) <= records.len(),
        first_match(line, records, found, from) < records.len() ==> !found[first_match(
            line,
            records,
            found,
            from,
        )] && line_matches(line, records[first_match(line, records, found, from)]),
        forall|i: int|
            from <= i < first_match(line, records, found, from) ==> found[i] || !line_matches(
                line,
                records[i],
            ),
    decreases records.len() - from,
{
    if from < records.len() && !(!found[from] && line_matches(line, records[from])) {
        lemma_first_match_bounds(line, records, found, from + 1);
    }
}

/// A needle stands first at one column only.
proof fn lemma_name_column(line: Seq<char>, name: Seq<char>, i: int)
    requires
        first_occurrence(line, name, i),
    ensures
        name_column(line, name) == i,
{
    let c = name_column(line, name);
    assert(first_occurrence(line, name, c));
    if c < i {
        assert(!occurs_at(line, name, c));
    } else if i < c {
        assert(!occurs_at(line, name, i));
    }
}

/// Whether every flag is set.
fn all_set(found: &Vec<bool>) -> (b: bool)
    ensures
        b == forall|i: int| 0 <= i < found.len() ==> found[i],
{
    let mut i: usize = 0;
    while i < found.len()
        invariant
            i <= found.len(),
            forall|j: int| 0 <= j < i ==> found[j],
        decreases found.len() - i,
    {
        if !found[i] {
            return false;
        }
        i += 1;
    }
    true
}

/// The first record that is not yet found and that `line` is a line for,
/// with the column of its name.
fn match_line(
    line: &[char],
    needles: &Vec<Needle>,
    found: &Vec<bool>,
    Ghost(records): Ghost<Seq<TagModel>>,
) -> (r: Option<(usize, usize)>)
    requires
        needles_for(needles@, records),
        found.len() == records.len(),
    ensures
        match r {
            Some((record, character)) => record == first_match(line@, records, found@, 0) && record
                < records.len() && character == name_column(line@, records[record as int].name)
                && character + records[record as int].name.len() <= line.len(),
            None => first_match(line@, records, found@, 0) >= records.len(),
        },
{
    let mut i: usize = 0;
    while i < needles.len()
        invariant
            i <= needles.len(),
            needles_for(needles@, records),
            found.len() == records.len(),
            first_match(line@, records, found@, i as int) == first_match(line@, records, found@, 0),
        decreases needles.len() - i,
    {
        if !found[i] {
            let needle = &needles[i];
            if find(line, needle.pattern.as_slice()).is_some() {
                match find(line, needle.name.as_slice()) {
                    Some(character) => {
                        proof {
                            lemma_name_column(line@, records[i as int].name, character as int);
                        }
                        return Some((i, character));
                    },
                    None => {},
                }
            }
        }
        i += 1;
    }
    None
}

/// The records that are found in `lines`.
fn scan_lines(lines: &Vec<String>, needles: &Vec<Needle>, Ghost(records): Ghost<Seq<TagModel>>) -> (out:
    Vec<Found>)
    requires
        needles_for(needles@, records),
    ensures
        hits_of(out@) == scan(texts(lines@), records, none_found(records), 0),
        forall|i: int|
            0 <= i < out.len() ==> (#[trigger] out[i]).record < records.len() && out[i].character
                + records[out[i].record as int].name.len() <= usize::MAX,
{
    let ghost all = texts(lines@);
    let mut found: Vec<bool> = Vec::new();
    let mut k: usize = 0;
    while k < needles.len()
        invariant
            k <= needles.len(),
            found@ == Seq::new(k as nat, |i: int| false),
        decreases needles.len() - k,
    {
        found.push(false);
        k += 1;
        assert(found@ =~= Seq::new(k as nat, |i: int| false));
    }
    let mut out: Vec<Found> = Vec::new();
    let mut n: usize = 0;
    let mut done = false;
    proof {
        assert(hits_of(out@) == Seq::<Hit>::empty());
    }
    while n < lines.len() && !done
        invariant
            n <= lines.len(),
            all == texts(lines@),
            needles_for(needles@, records),
            found.len() == records.len(),
            done ==> forall|i: int| 0 <= i < found.len() ==> found[i],
            hits_of(out@) + scan(all, records, found@, n as int) == scan(
                all,
                records,
                none_found(records),
                0,
            ),
            forall|i: int|
                0 <= i < out.len() ==> (#[trigger] out[i]).record < records.len() && out[i].character
                    + records[out[i].record as int].name.len() <= usize::MAX,
        decreases lines.len() - n,
    {
        let line = to_chars(lines[n].as_str());
        proof {
            assert(all[n as int] == line@);
        }
        match match_line(line.as_slice(), needles, &found, Ghost(records)) {
            Some((record, character)) => {
                let hit = Found { record, line: n, character };
                proof {
                    assert(hits_of(out@.push(hit)) == hits_of(out@).push(hit@));
                    assert(hits_of(out@).push(hit@) + scan(
                        all,
                        records,
                        found@.update(record as int, true),
                        n + 1,
                    ) == hits_of(out@) + (seq![hit@] + scan(
                        all,
                        records,
                        found@.update(record as int, true),
                        n + 1,
                    )));
                }
                out.push(hit);
                found.set(record, true);
                done = all_set(&found);
            },
            None => {},
        }
        n += 1;
    }
    proof {
        if done {
            lemma_scan_done(all, records, found@, n as int);
        }
        assert(hits_of(out@) + Seq::<Hit>::empty() == hits_of(out@));
    }
    out
}

/// What the filter keeps of a sequence with one more item.
proof fn lemma_filter_push<A>(s: Seq<A>, keep: spec_fn(A) -> bool, item: A)
    ensures
        s.push(item).filter(keep) == if keep(item) {
            s.filter(keep).push(item)
        } else {
            s.filter(keep)
        },
{
    reveal_with_fuel(Seq::filter, 1);
    assert(s.push(item).drop_last() == s);
}

/// Whether no entry before entry `i` is in the same file.
fn leads_file(entries: &Vec<CtagsEntry>, i: usize) -> (b: bool)
    requires
        i < entries.len(),
    ensures
        b == first_of_file(tags(entries@), i as int),
{
    let mut j: usize = 0;
    while j < i
        invariant
            j <= i < entries.len(),
            forall|k: int| 0 <= k < j ==> tags(entries@)[k].file != tags(entries@)[i as int].file,
        decreases i - j,
    {
        if same_text(entries[j].file.as_str(), entries[i].file.as_str()) {
            assert(tags(entries@)[j as int].file == tags(entries@)[i as int].file);
            return false;
        }
        j += 1;
    }
    true
}

/// What is looked for, for each of the entries that are in `file`.
fn needles_in(entries: &Vec<CtagsEntry>, file: &str) -> (needles: Vec<Needle>)
    ensures
        needles_for(needles@, records_in(tags(entries@), file@)),
{
    let ghost keep = |tag: TagModel| tag.file == file@;
    let ghost all = tags(entries@);
    let mut needles: Vec<Needle> = Vec::new();
    let mut k: usize = 0;
    proof {
        reveal_with_fuel(Seq::filter, 1);
        assert(all.take(0).filter(keep) == Seq::<TagModel>::empty());
    }
    while k < entries.len()
        invariant
            k <= entries.len(),
            all == tags(entries@),
            keep == |tag: TagModel| tag.file == file@,
            needles_for(needles@, all.take(k as int).filter(keep)),
        decreases entries.len() - k,
    {
        proof {
            lemma_filter_push(all.take(k as int), keep, all[k as int]);
            assert(all.take(k as int).push(all[k as int]) == all.take(k + 1));
        }
        if same_text(entries[k].file.as_str(), file) {
            needles.push(
                Needle {
                    pattern: to_chars(entries[k].pattern.as_str()),
                    name: to_chars(entries[k].name.as_str()),
                },
            );
        }
        k += 1;
    }
    proof {
        assert(all.take(all.len() as int) == all);
    }
    needles
}

/// Where the first source with the path `file` stands.
fn source_at(sources: &Vec<SourceFile>, file: &str) -> (r: Option<usize>)
    ensures
        match r {
            Some(k) => k < sources.len() && source_lines(sources_of(sources@), file@, 0) == Some(
                sources[k as int]@.lines,
            ),
            None => source_lines(sources_of(sources@), file@, 0) is None,
        },
{
    let mut k: usize = 0;
    while k < sources.len()
        invariant
            k <= sources.len(),
            source_lines(sources_of(sources@), file@, k as int) == source_lines(
                sources_of(sources@),
                file@,
                0,
            ),
        decreases sources.len() - k,
    {
        if same_text(sources[k].path.as_str(), file) {
            return Some(k);
        }
        k += 1;
    }
    None
}

/// The places of what was found, in the file with the address `uri`.
fn places_for(
    found: &Vec<Found>,
    needles: &Vec<Needle>,
    uri: &String,
    Ghost(records): Ghost<Seq<TagModel>>,
) -> (locations: Vec<Location>)
    requires
        needles_for(needles@, records),
        forall|i: int|
            0 <= i < found.len() ==> (#[trigger] found[i]).record < records.len() && found[i].character
                + records[found[i].record as int].name.len() <= usize::MAX,
    ensures
        places(locations@) == hits_of(found@).map_values(|hit: Hit| place_of(uri@, records, hit)),
{
    let mut locations: Vec<Location> = Vec::new();
    let mut i: usize = 0;
    while i < found.len()
        invariant
            i <= found.len(),
            needles_for(needles@, records),
            forall|i: int|
                0 <= i < found.len() ==> (#[trigger] found[i]).record < records.len()
                    && found[i].character + records[found[i].record as int].name.len()
                    <= usize::MAX,
            places(locations@) == hits_of(found@).map_values(
                |hit: Hit| place_of(uri@, records, hit),
            ).take(i as int),
        decreases found.len() - i,
    {
        let hit = &found[i];
        let location = Location {
            uri: uri.clone(),
            range: Range {
                start: Position { line: hit.line, character: hit.character },
                end: Position {
                    line: hit.line,
                    character: hit.character + needles[hit.record].name.len(),
                },
            },
        };
        proof {
            let all = hits_of(found@).map_values(|hit: Hit| place_of(uri@, records, hit));
            assert(location@ == all[i as int]);
            assert(all.take(i + 1) == all.take(i as int).push(all[i as int]));
            assert(places(locations@.push(location)) == places(locations@).push(location@));
        }
        locations.push(location);
        i += 1;
    }
    proof {
        let all = hits_of(found@).map_values(|hit: Hit| place_of(uri@, records, hit));
        assert(all.take(all.len() as int) == all);
    }
    locations
}

/// The places of the records that are in the file of entry `i`.
fn locate_in_file(entries: &Vec<CtagsEntry>, i: usize, sources: &Vec<SourceFile>) -> (r: Result<
    Vec<Location>,
    LocateError,
>)
    requires
        i < entries.len(),
    ensures
        ({
            let file = tags(entries@)[i as int].file;
            let expected = locate_file(
                records_in(tags(entries@), file),
                file,
                sources_of(sources@),
            );
            match r {
                Ok(locations) => expected == Ok::<Seq<LocationModel>, LocateErrorModel>(
                    places(locations@),
                ),
                Err(e) => expected == Err::<Seq<LocationModel>, LocateErrorModel>(e@),
            }
        }),
{
    let file = entries[i].file.as_str();
    let ghost records = records_in(tags(entries@), file@);
    let source = match source_at(sources, file) {
        Some(k) => &sources[k],
        None => {
            let none: Vec<Location> = Vec::new();
            assert(places(none@) == Seq::<LocationModel>::empty());
            return Ok(none);
        },
    };
    let needles = needles_in(entries, file);
    let found = scan_lines(&source.lines, &needles, Ghost(records));
    if found.len() == 0 {
        let none: Vec<Location> = Vec::new();
        assert(places(none@) == Seq::<LocationModel>::empty());
        return Ok(none);
    }
    match file_url(file) {
        None => Err(LocateError { file: entries[i].file.clone() }),
        Some(uri) => Ok(places_for(&found, &needles, &uri, Ghost(records))),
    }
}

/// The files that hold `entries`, each once, in the order in which they
/// first occur: the files to read before the places can be found.
pub fn files_of(entries: &Vec<CtagsEntry>) -> (files: Vec<String>)
    ensures
        texts(files@) == files_from(tags(entries@), 0),
{
    let ghost all = tags(entries@);
    let mut files: Vec<String> = Vec::new();
    let mut i: usize = 0;
    proof {
        assert(texts(files@) == Seq::<Seq<char>>::empty());
        assert(Seq::<Seq<char>>::empty() + files_from(all, 0) == files_from(all, 0));
    }
    while i < entries.len()
        invariant
            i <= entries.len(),
            all == tags(entries@),
            texts(files@) + files_from(all, i as int) == files_from(all, 0),
        decreases entries.len() - i,
    {
        if leads_file(entries, i) {
            let file = entries[i].file.clone();
            proof {
                assert(texts(files@.push(file)) == texts(files@).push(file@));
                assert(texts(files@).push(file@) + files_from(all, i + 1) == texts(files@) + (
                seq![file@] + files_from(all, i + 1)));
            }
            files.push(file);
        }
        i += 1;
    }
    proof {
        assert(texts(files@) + Seq::<Seq<char>>::empty() == texts(files@));
    }
    files
}

/// `rest` with the places `before` in front of what it gives.
pub open spec fn after(
    before: Seq<LocationModel>,
    rest: Result<Seq<LocationModel>, LocateErrorModel>,
) -> Result<Seq<LocationModel>, LocateErrorModel> {
    match rest {
        Ok(places) => Ok(before + places),
        Err(e) => Err(e),
    }
}

/// Adds to `locations` the places of `entries` in the files that `sources`
/// hold as they were read. The records are taken file by file, so that each
/// file is gone through once. A record whose file has no line for it adds
/// nothing, and so does a record whose file is not among the sources. Where
/// the file of a record that was found has no address, nothing is added at
/// all.
pub fn find_tags_location(
    entries: &Vec<CtagsEntry>,
    sources: &Vec<SourceFile>,
    locations: &mut Vec<Location>,
) -> (r: Result<(), LocateError>)
    ensures
        match r {
            Ok(_) => after(places(old(locations)@), locate(tags(entries@), sources_of(sources@), 0))
                == Ok::<Seq<LocationModel>, LocateErrorModel>(places(final(locations)@)),
            Err(e) => locate(tags(entries@), sources_of(sources@), 0) == Err::<
                Seq<LocationModel>,
                LocateErrorModel,
            >(e@) && final(locations)@ == old(locations)@,
        },
{
    let ghost all = tags(entries@);
    let ghost read = sources_of(sources@);
    let mut fresh: Vec<Location> = Vec::new();
    let mut i: usize = 0;
    proof {
        assert(places(fresh@) == Seq::<LocationModel>::empty());
        assert(after(places(fresh@), locate(all, read, 0)) == locate(all, read, 0)) by {
            match locate(all, read, 0) {
                Ok(p) => {
                    assert(Seq::<LocationModel>::empty() + p == p);
                },
                Err(_) => {},
            }
        }
    }
    while i < entries.len()
        invariant
            i <= entries.len(),
            all == tags(entries@),
            read == sources_of(sources@),
            after(places(fresh@), locate(all, read, i as int)) == locate(all, read, 0),
        decreases entries.len() - i,
    {
        if leads_file(entries, i) {
            match locate_in_file(entries, i, sources) {
                Err(e) => {
                    return Err(e);
                },
                Ok(mut here) => {
                    proof {
                        assert(places(fresh@ + here@) == places(fresh@) + places(here@));
                        match locate(all, read, i + 1) {
                            Ok(rest) => {
                                assert(places(fresh@) + (places(here@) + rest) == (places(fresh@)
                                    + places(here@)) + rest);
                            },
                            Err(_) => {},
                        }
                    }
                    fresh.append(&mut here);
                },
            }
        }
        i += 1;
    }
    proof {
        assert(places(old(locations)@ + fresh@) == places(old(locations)@) + places(fresh@));
        assert(places(fresh@) + Seq::<LocationModel>::empty() == places(fresh@));
    }
    locations.append(&mut fresh);
    Ok(())
}

/// The identifier under the cursor at `position` in the document that is
/// open under `uri`.
pub open spec fn open_symbol(
    documents: Map<Seq<char>, Seq<char>>,
    uri: Seq<char>,
    position: Position,
) -> Result<Seq<char>, DocumentError> {
    if documents.dom().contains(uri) {
        symbol_at(documents[uri], position)
    } else {
        Err(DocumentError::NotFound)
    }
}

/// The symbol to look up: the identifier under the cursor at `position` in
/// the document that is open under `uri`.
pub fn symbol_under_cursor(documents: &DocumentsCache, uri: &str, position: Position) -> (r: Result<
    String,
    DocumentError,
>)
    ensures
        result_text(r) == open_symbol(documents@, uri@, position),
{
    match documents.get(uri) {
        Some(document) => document.get_symbol_at_position(position),
        None => Err(DocumentError::NotFound),
    }
}

/// Which records a request asks for, and how it is answered from them.
pub trait GotoHandler {
    /// Whether records of the kind `kind` answer the request.
    spec fn accepts(&self, kind: Seq<char>) -> bool;

    /// Whether `entry` answers the request.
    fn filter(&self, entry: &CtagsEntry) -> (b: bool)
        ensures
            b == self.accepts(entry.kind@),
    ;

    /// The records of `entries` that answer the request, in their order.
    fn select(&self, entries: Vec<CtagsEntry>) -> (kept: Vec<CtagsEntry>)
        ensures
            tags(kept@) == tags(entries@).filter(|tag: TagModel| self.accepts(tag.kind)),
    {
        let ghost keep = |tag: TagModel| self.accepts(tag.kind);
        let ghost all = tags(entries@);
        let mut kept: Vec<CtagsEntry> = Vec::new();
        proof {
            reveal_with_fuel(Seq::filter, 1);
            assert(all.take(0).filter(keep) == Seq::<TagModel>::empty());
        }
        for entry in it: entries
            invariant
                all == tags(it.seq()),
                keep == |tag: TagModel| self.accepts(tag.kind),
                tags(kept@) == all.take(it.index() as int).filter(keep),
        {
            proof {
                let k = it.index() as int;
                lemma_filter_push(all.take(k), keep, all[k]);
                assert(all.take(k).push(all[k]) == all.take(k + 1));
                assert(tags(kept@.push(entry)) == tags(kept@).push(entry@));
            }
            if self.filter(&entry) {
                kept.push(entry);
            }
        }
        proof {
            assert(all.take(all.len() as int) == all);
        }
        kept
    }

    /// The places that answer the request, from the records `entries` that
    /// the index gave for the symbol and the files `sources` as they were
    /// read. No records give no places, and that is no error.
    fn handle_goto(&self, entries: Vec<CtagsEntry>, sources: &Vec<SourceFile>) -> (r: Result<
        Vec<Location>,
        LocateError,
    >)
        ensures
            ({
                let kept = tags(entries@).filter(|tag: TagModel| self.accepts(tag.kind));
                match r {
                    Ok(locations) => locate(kept, sources_of(sources@), 0) == Ok::<
                        Seq<LocationModel>,
                        LocateErrorModel,
                    >(places(locations@)),
                    Err(e) => locate(kept, sources_of(sources@), 0) == Err::<
                        Seq<LocationModel>,
                        LocateErrorModel,
                    >(e@),
                }
            }),
            entries@.len() == 0 ==> r is Ok && r->Ok_0@.len() == 0,
    {
        let ghost given = entries@.len();
        let kept = self.select(entries);
        let mut locations: Vec<Location> = Vec::new();
        proof {
            assert(places(locations@) == Seq::<LocationModel>::empty());
            match locate(tags(kept@), sources_of(sources@), 0) {
                Ok(p) => {
                    assert(Seq::<LocationModel>::empty() + p == p);
                },
                Err(_) => {},
            }
            if given == 0 {
                tags(entries@).lemma_filter_len(|tag: TagModel| self.accepts(tag.kind));
            }
        }
        match find_tags_location(&kept, sources, &mut locations) {
            Ok(_) => Ok(locations),
            Err(e) => Err(e),
        }
    }
}

/// A file that is not among the sources gives no places for its records,
/// and no error.
pub proof fn lemma_unread_file_gives_no_places(
    records: Seq<TagModel>,
    file: Seq<char>,
    sources: Seq<SourceModel>,
)
    requires
        source_lines(sources, file, 0) is None,
    ensures
        locate_file(records, file, sources) == Ok::<Seq<LocationModel>, LocateErrorModel>(
            Seq::empty(),
        ),
{
}

/// No records give no places, whatever was read.
pub proof fn lemma_no_records_no_places(sources: Seq<SourceModel>)
    ensures
        locate(Seq::<TagModel>::empty(), sources, 0) == Ok::<
            Seq<LocationModel>,
            LocateErrorModel,
        >(Seq::empty()),
{
}

/// A needle that stands in a line stands first somewhere in it.
proof fn lemma_first_occurrence_exists(line: Seq<char>, name: Seq<char>, i: int)
    requires
        occurs_at(line, name, i),
    ensures
        first_occurrence(line, name, name_column(line, name)),
    decreases i,
{
    if forall|j: int| 0 <= j < i ==> !occurs_at(line, name, j) {
        assert(first_occurrence(line, name, i));
    } else {
        let j = choose|j: int| 0 <= j < i && occurs_at(line, name, j);
        lemma_first_occurrence_exists(line, name, j);
    }
}

/// Each record that is found is found in a line that holds its own pattern
/// and its own name, at the first place where the name stands in that line;
/// and it was not found before.
pub proof fn lemma_hits_are_sound(
    lines: Seq<Seq<char>>,
    records: Seq<TagModel>,
    found: Seq<bool>,
    from: int,
)
    requires
        found.len() == records.len(),
        0 <= from,
    ensures
        forall|i: int|
            0 <= i < scan(lines, records, found, from).len() ==> {
                let hit = #[trigger] scan(lines, records, found, from)[i];
                &&& 0 <= hit.record < records.len()
                &&& from <= hit.line < lines.len()
                &&& !found[hit.record]
                &&& line_matches(lines[hit.line], records[hit.record])
                &&& first_occurrence(lines[hit.line], records[hit.record].name, hit.character)
            },
    decreases lines.len() - from,
{
    if from < lines.len() {
        let record = first_match(lines[from], records, found, 0);
        lemma_first_match_bounds(lines[from], records, found, 0);
        if record < records.len() {
            let next = found.update(record, true);
            lemma_hits_are_sound(lines, records, next, from + 1);
            let name = records[record].name;
            let at = choose|at: int| occurs_at(lines[from], name, at);
            lemma_first_occurrence_exists(lines[from], name, at);
            let rest = scan(lines, records, next, from + 1);
            assert forall|i: int| 0 <= i < scan(lines, records, found, from).len() implies {
                let hit = #[trigger] scan(lines, records, found, from)[i];
                &&& 0 <= hit.record < records.len()
                &&& from <= hit.line < lines.len()
                &&& !found[hit.record]
                &&& line_matches(lines[hit.line], records[hit.record])
                &&& first_occurrence(lines[hit.line], records[hit.record].name, hit.character)
            } by {
                if i > 0 {
                    assert(scan(lines, records, found, from)[i] == rest[i - 1]);
                }
            }
        } else {
            lemma_hits_are_sound(lines, records, found, from + 1);
            assert(scan(lines, records, found, from) == scan(lines, records, found, from + 1));
        }
    } else {
        assert(scan(lines, records, found, from).len() == 0);
    }
}

/// A record is found in its own first line, whatever the other records
/// are, as long as that line is a line for none of them: the first line
/// that holds its pattern and its name.
pub proof fn lemma_record_found_in_own_line(
    lines: Seq<Seq<char>>,
    records: Seq<TagModel>,
    record: int,
    line: int,
)
    requires
        0 <= record < records.len(),
        0 <= line < lines.len(),
        line_matches(lines[line], records[record]),
        forall|k: int| 0 <= k < line ==> !line_matches(lines[k], records[record]),
        forall|i: int|
            0 <= i < records.len() && i != record ==> !line_matches(lines[line], records[i]),
    ensures
        scan(lines, records, none_found(records), 0).contains(
            Hit { record, line, character: name_column(lines[line], records[record].name) },
        ),
{
    lemma_found_from(lines, records, none_found(records), 0, record, line);
}

/// The same, for a scan that is under way.
proof fn lemma_found_from(
    lines: Seq<Seq<char>>,
    records: Seq<TagModel>,
    found: Seq<bool>,
    from: int,
    record: int,
    line: int,
)
    requires
        found.len() == records.len(),
        0 <= record < records.len(),
        !found[record],
        0 <= from <= line < lines.len(),
        line_matches(lines[line], records[record]),
        forall|k: int| from <= k < line ==> !line_matches(lines[k], records[record]),
        forall|i: int|
            0 <= i < records.len() && i != record ==> !line_matches(lines[line], records[i]),
    ensures
        scan(lines, records, found, from).contains(
            Hit { record, line, character: name_column(lines[line], records[record].name) },
        ),
    decreases line - from,
{
    let hit = Hit { record, line, character: name_column(lines[line], records[record].name) };
    let first = first_match(lines[from], records, found, 0);
    lemma_first_match_bounds(lines[from], records, found, 0);
    let all = scan(lines, records, found, from);
    if from == line {
        assert(first == record);
        assert(all[0] == hit);
    } else {
        let next = if first < records.len() {
            found.update(first, true)
        } else {
            found
        };
        lemma_found_from(lines, records, next, from + 1, record, line);
        let rest = scan(lines, records, next, from + 1);
        let at = choose|at: int| 0 <= at < rest.len() && rest[at] == hit;
        if first < records.len() {
            assert(all[at + 1] == rest[at]);
        } else {
            assert(all[at] == rest[at]);
        }
    }
}

} // verus!
