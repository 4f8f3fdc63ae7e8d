//! Tag records: what the indexer is asked, and what its answer holds.
//!
//! The indexer answers with lines of fields that tabs separate: the
//! symbol's name, the file's path under the root, the pattern of the
//! defining line, and extension fields that colons join.

use crate::text::{
    copy_range, from_chars, line_extent, split, split_lines, split_on, to_chars,
};
use crate::workspace::{Workspace, WorkspaceModel};
use vstd::prelude::*;
use vstd::string::StringExecFns;
use vstd::utf8::{decode_utf8, valid_utf8};

verus! {

/// One record of the tag index.
#[derive(Debug)]
pub struct CtagsEntry {
    /// The symbol's name.
    pub name: String,
    /// The path of the file that holds it: the root's path, a slash, and
    /// the path that the index gives.
    pub file: String,
    /// The text of the defining line, without the characters that frame it
    /// in the index.
    pub pattern: String,
    /// What kind of symbol it is.
    pub kind: String,
}

/// What a [`CtagsEntry`] holds.
pub struct TagModel {
    pub name: Seq<char>,
    pub file: Seq<char>,
    pub pattern: Seq<char>,
    pub kind: Seq<char>,
}

impl View for CtagsEntry {
    type V = TagModel;

    open spec fn view(&self) -> TagModel {
        TagModel { name: self.name@, file: self.file@, pattern: self.pattern@, kind: self.kind@ }
    }
}

/// What each entry of `entries` holds.
pub open spec fn tags(entries: Seq<CtagsEntry>) -> Seq<TagModel> {
    entries.map_values(|e: CtagsEntry| e@)
}

/// The program to run for one query, and its arguments.
#[derive(Debug)]
pub struct IndexerCommand {
    pub program: String,
    pub arguments: Vec<String>,
}

/// How one run of the indexer ended.
#[derive(Debug)]
pub struct IndexerRun {
    /// Whether it ended normally.
    pub success: bool,
    /// What it wrote to its standard output.
    pub stdout: Vec<u8>,
}

/// Why a query gave no records.
#[derive(Clone, Copy, Debug, PartialEq, Eq, Structural)]
pub enum QueryError {
    /// The indexer could not be started or did not end normally.
    ExternalTool,
    /// The indexer's output is no text.
    Decode,
}

/// `s` without the character `c` at its start, if it starts with it.
pub open spec fn without_first(s: Seq<char>, c: char) -> Seq<char> {
    if s.len() > 0 && s[0] == c {
        s.skip(1)
    } else {
        s
    }
}

/// `s` without the character `c` at its end, if it ends with it.
pub open spec fn without_last(s: Seq<char>, c: char) -> Seq<char> {
    if s.len() > 0 && s.last() == c {
        s.drop_last()
    } else {
        s
    }
}

/// `s` without the `;"` that ends an address in the index, if it ends with
/// it.
pub open spec fn without_address_end(s: Seq<char>) -> Seq<char> {
    if s.len() >= 2 && s[s.len() - 2] == ';' && s[s.len() - 1] == '"' {
        s.take(s.len() - 2)
    } else {
        s
    }
}

/// The text of the defining line in the pattern field `s`: the field without
/// what frames the line there. At the start that is one `/` and then one
/// `^`; at the end `;"`, before it one `/`, and before that one `$`. Each is
/// taken off only where it is there, and the characters of the line itself
/// stay.
pub open spec fn trim_pattern(s: Seq<char>) -> Seq<char> {
    without_last(
        without_last(without_address_end(without_first(without_first(s, '/'), '^')), '/'),
        '$',
    )
}

/// The record that `line` holds for a root at `root`, if it holds one: it
/// has at least four fields, and its fourth field has a colon. The kind is
/// what stands between that field's first colon and its second.
pub open spec fn parse_tag(line: Seq<char>, root: Seq<char>) -> Option<TagModel> {
    let fields = split_on(line, '\t');
    if fields.len() < 4 {
        None
    } else {
        let extension = split_on(fields[3], ':');
        if extension.len() < 2 {
            None
        } else {
            Some(
                TagModel {
                    name: fields[0],
                    file: root + seq!['/'] + fields[1],
                    pattern: trim_pattern(fields[2]),
                    kind: extension[1],
                },
            )
        }
    }
}

/// The records that `lines` hold, in their order; a line that holds none
/// is passed over.
pub open spec fn parse_lines(lines: Seq<Seq<char>>, root: Seq<char>) -> Seq<TagModel>
    decreases lines.len(),
{
    if lines.len() == 0 {
        Seq::empty()
    } else {
        let head = parse_lines(lines.drop_last(), root);
        match parse_tag(lines.last(), root) {
            Some(tag) => head.push(tag),
            None => head,
        }
    }
}

/// The records that the indexer's output holds.
pub open spec fn parse_output(output: Seq<char>, root: Seq<char>) -> Seq<TagModel> {
    parse_lines(split_lines(output), root)
}

/// The index of the first of `roots` from `from` on that has a tag index,
/// or their number.
pub open spec fn first_indexed(roots: Seq<WorkspaceModel>, from: int) -> int
    decreases roots.len() - from,
{
    if from >= roots.len() {
        roots.len() as int
    } else if roots[from].tag_file_path is Some {
        from
    } else {
        first_indexed(roots, from + 1)
    }
}

/// What each of `workspaces` holds.
pub open spec fn roots_of(workspaces: Seq<Workspace>) -> Seq<WorkspaceModel> {
    workspaces.map_values(|w: Workspace| w@)
}

/// What a query among `roots` gives, when the indexer's run ended as `run`
/// says (`None`: it could not be started). Without a tag index there is
/// nothing to ask and nothing to find.
pub open spec fn query_result(roots: Seq<WorkspaceModel>, run: Option<IndexerRun>) -> Result<
    Seq<TagModel>,
    QueryError,
> {
    let active = first_indexed(roots, 0);
    if active >= roots.len() {
        Ok(Seq::empty())
    } else {
        match run {
            None => Err(QueryError::ExternalTool),
            Some(run) => if !run.success {
                Err(QueryError::ExternalTool)
            } else if !valid_utf8(run.stdout@) {
                Err(QueryError::Decode)
            } else {
                Ok(parse_output(decode_utf8(run.stdout@), roots[active].path))
            },
        }
    }
}

/// Calls `String::from_utf8`: the text that `bytes` encode, where they are
/// well-formed UTF-8, and `None` where they are not.
#[verifier::external_body]
fn text_of_bytes(bytes: Vec<u8>) -> (text: Option<String>)
    ensures
        text.is_some() == valid_utf8(bytes@),
        text matches Some(s) ==> s@ == decode_utf8(bytes@),
{
    match String::from_utf8(bytes) {
        Ok(text) => Some(text),
        Err(_) => None,
    }
}

/// Where `s[from..to]` starts once the character `c` at its start is
/// taken off.
fn after_first(s: &[char], from: usize, to: usize, c: char) -> (start: usize)
    requires
        from <= to <= s.len(),
    ensures
        from <= start <= to,
        s@.subrange(start as int, to as int) == without_first(
            s@.subrange(from as int, to as int),
            c,
        ),
{
    if from < to && s[from] == c {
        assert(s@.subrange(from as int, to as int).skip(1) == s@.subrange(from + 1, to as int));
        from + 1
    } else {
        from
    }
}

/// Where `s[from..to]` ends once the character `c` at its end is taken
/// off.
fn before_last(s: &[char], from: usize, to: usize, c: char) -> (end: usize)
    requires
        from <= to <= s.len(),
    ensures
        from <= end <= to,
        s@.subrange(from as int, end as int) == without_last(
            s@.subrange(from as int, to as int),
            c,
        ),
{
    if from < to && s[to - 1] == c {
        assert(s@.subrange(from as int, to as int).drop_last() == s@.subrange(
            from as int,
            to - 1,
        ));
        to - 1
    } else {
        to
    }
}

/// Where `s[from..to]` ends once the `;"` at its end is taken off.
fn before_address_end(s: &[char], from: usize, to: usize) -> (end: usize)
    requires
        from <= to <= s.len(),
    ensures
        from <= end <= to,
        s@.subrange(from as int, end as int) == without_address_end(
            s@.subrange(from as int, to as int),
        ),
{
    if to - from >= 2 && s[to - 2] == ';' && s[to - 1] == '"' {
        let ghost piece = s@.subrange(from as int, to as int);
        assert(piece.take(piece.len() - 2) == s@.subrange(from as int, to - 2));
        to - 2
    } else {
        to
    }
}

/// The text of the defining line in the pattern field `s`.
fn trim(s: &[char]) -> (r: Vec<char>)
    ensures
        r@ == trim_pattern(s@),
{
    assert(s@.subrange(0, s@.len() as int) == s@);
    let slash = after_first(s, 0, s.len(), '/');
    let start = after_first(s, slash, s.len(), '^');
    let address = before_address_end(s, start, s.len());
    let closing = before_last(s, start, address, '/');
    let end = before_last(s, start, closing, '$');
    copy_range(s, start, end)
}

/// The record that `line` holds for a root at `root`, if it holds one.
fn parse_chars(line: &[char], root: &str) -> (r: Option<CtagsEntry>)
    ensures
        match r {
            Some(entry) => parse_tag(line@, root@) == Some(entry@),
            None => parse_tag(line@, root@) is None,
        },
{
    let fields = split(line, '\t');
    if fields.len() < 4 {
        return None;
    }
    let extension = split(fields[3].as_slice(), ':');
    if extension.len() < 2 {
        return None;
    }
    let pattern = trim(fields[2].as_slice());
    let mut file = String::from_str(root);
    file.append("/");
    file.append(from_chars(fields[1].as_slice(), 0, fields[1].len()).as_str());
    proof {
        reveal_strlit("/");
        assert("/"@ == seq!['/']);
        assert(fields[0]@.subrange(0, fields[0]@.len() as int) == fields[0]@);
        assert(fields[1]@.subrange(0, fields[1]@.len() as int) == fields[1]@);
        assert(pattern@.subrange(0, pattern@.len() as int) == pattern@);
        assert(extension[1]@.subrange(0, extension[1]@.len() as int) == extension[1]@);
    }
    Some(
        CtagsEntry {
            name: from_chars(fields[0].as_slice(), 0, fields[0].len()),
            file,
            pattern: from_chars(pattern.as_slice(), 0, pattern.len()),
            kind: from_chars(extension[1].as_slice(), 0, extension[1].len()),
        },
    )
}

/// Answers queries against the tag index of the workspace.
pub struct CtagsHandler;

impl CtagsHandler {
    /// The root that is asked: the first, in the order in which the roots
    /// were added, that has a tag index. Later roots are never asked.
    pub fn active_root(workspaces: &Vec<Workspace>) -> (r: Option<usize>)
        ensures
            match r {
                Some(i) => i < workspaces.len() && i == first_indexed(roots_of(workspaces@), 0)
                    && workspaces[i as int].tag_file_path is Some,
                None => first_indexed(roots_of(workspaces@), 0) >= workspaces.len(),
            },
    {
        let mut i: usize = 0;
        while i < workspaces.len()
            invariant
                i <= workspaces.len(),
                first_indexed(roots_of(workspaces@), i as int) == first_indexed(
                    roots_of(workspaces@),
                    0,
                ),
            decreases workspaces.len() - i,
        {
            if workspaces[i].tag_file_path.is_some() {
                return Some(i);
            }
            i += 1;
        }
        None
    }

    /// How the indexer is run to look `symbol` up: `readtags -t` with the
    /// tag index of the root that is asked, then `-e` with the symbol.
    /// `None` where no root has a tag index.
    pub fn indexer_command(workspaces: &Vec<Workspace>, symbol: &str) -> (r: Option<
        IndexerCommand,
    >)
        ensures
            match r {
                Some(command) => {
                    let active = first_indexed(roots_of(workspaces@), 0);
                    &&& active < workspaces.len()
                    &&& command.program@ == "readtags"@
                    &&& command.arguments.len() == 4
                    &&& command.arguments[0]@ == "-t"@
                    &&& Some(command.arguments[1]@) == roots_of(workspaces@)[active].tag_file_path
                    &&& command.arguments[2]@ == "-e"@
                    &&& command.arguments[3]@ == symbol@
                },
                None => first_indexed(roots_of(workspaces@), 0) >= workspaces.len(),
            },
    {
        match Self::active_root(workspaces) {
            None => None,
            Some(i) => {
                let tags_path = workspaces[i].tag_file_path.clone().unwrap();
                assert(roots_of(workspaces@)[i as int] == workspaces[i as int]@);
                let mut arguments: Vec<String> = Vec::new();
                arguments.push(String::from_str("-t"));
                arguments.push(tags_path);
                arguments.push(String::from_str("-e"));
                arguments.push(String::from_str(symbol));
                Some(IndexerCommand { program: String::from_str("readtags"), arguments })
            },
        }
    }

    /// The record that `line` holds for the root `workspace`, if it holds
    /// one.
    pub fn parse_tag(line: &str, workspace: &Workspace) -> (r: Option<CtagsEntry>)
        ensures
            match r {
                Some(entry) => parse_tag(line@, workspace.path@) == Some(entry@),
                None => parse_tag(line@, workspace.path@) is None,
            },
    {
        let chars = to_chars(line);
        parse_chars(chars.as_slice(), workspace.path.as_str())
    }

    /// The records that the indexer's output holds for the root
    /// `workspace`.
    pub fn parse_output(output: &str, workspace: &Workspace) -> (entries: Vec<CtagsEntry>)
        ensures
            tags(entries@) == parse_output(output@, workspace.path@),
    {
        let chars = to_chars(output);
        let text = chars.as_slice();
        let mut entries: Vec<CtagsEntry> = Vec::new();
        let ghost lines = split_lines(text@);
        let ghost mut done: Seq<Seq<char>> = Seq::empty();
        let mut start: usize = 0;
        proof {
            assert(text@.skip(0) == text@);
            assert(tags(entries@) == Seq::<TagModel>::empty());
        }
        while start < text.len()
            invariant
                start <= text.len(),
                lines == done + split_lines(text@.skip(start as int)),
                tags(entries@) == parse_lines(done, workspace.path@),
            decreases text.len() - start,
        {
            let (end, next) = line_extent(text, start);
            let line = copy_range(text, start, end);
            proof {
                assert(lines == done.push(line@) + split_lines(text@.skip(next as int)));
                assert(done.push(line@).drop_last() == done);
            }
            match parse_chars(line.as_slice(), workspace.path.as_str()) {
                Some(entry) => {
                    proof {
                        assert(tags(entries@.push(entry)) == tags(entries@).push(entry@));
                    }
                    entries.push(entry);
                },
                None => {},
            }
            start = next;
            proof {
                done = done.push(line@);
            }
        }
        proof {
            assert(split_lines(text@.skip(start as int)) == Seq::<Seq<char>>::empty());
            assert(lines == done);
        }
        entries
    }

    /// The records of one query, given how the indexer's run ended (`None`:
    /// it could not be started). Only the first root that has a tag index
    /// is asked; where no root has one, the answer is no records, whatever
    /// `run` is.
    pub fn query_ctags(workspaces: &Vec<Workspace>, run: Option<IndexerRun>) -> (r: Result<
        Vec<CtagsEntry>,
        QueryError,
    >)
        ensures
            match r {
                Ok(entries) => query_result(roots_of(workspaces@), run) == Ok::<
                    Seq<TagModel>,
                    QueryError,
                >(tags(entries@)),
                Err(e) => query_result(roots_of(workspaces@), run) == Err::<
                    Seq<TagModel>,
                    QueryError,
                >(e),
            },
    {
        let active = match Self::active_root(workspaces) {
            Some(i) => i,
            None => {
                let entries: Vec<CtagsEntry> = Vec::new();
                assert(tags(entries@) == Seq::<TagModel>::empty());
                return Ok(entries);
            },
        };
        let run = match run {
            Some(run) => run,
            None => {
                return Err(QueryError::ExternalTool);
            },
        };
        if !run.success {
            return Err(QueryError::ExternalTool);
        }
        match text_of_bytes(run.stdout) {
            Some(output) => Ok(Self::parse_output(output.as_str(), &workspaces[active])),
            None => Err(QueryError::Decode),
        }
    }
}

} // verus!
