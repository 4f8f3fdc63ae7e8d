//! The workspace roots that are known, each with the tag index that was
//! found for it when it was added.

use crate::text::{option_text, same_text, texts};
use vstd::prelude::*;
use vstd::string::StringExecFns;

verus! {

/// A folder of the editor's workspace.
#[derive(Debug)]
pub struct WorkspaceFolder {
    /// The folder's address, by which a root is known.
    pub uri: String,
    /// The name that the editor shows for it.
    pub name: String,
}

/// What a [`WorkspaceFolder`] holds.
pub struct FolderModel {
    pub uri: Seq<char>,
    pub name: Seq<char>,
}

impl View for WorkspaceFolder {
    type V = FolderModel;

    open spec fn view(&self) -> FolderModel {
        FolderModel { uri: self.uri@, name: self.name@ }
    }
}

/// A workspace root: the folder, the local path that its address stands
/// for, and the path of its tag index where one was found.
#[derive(Debug)]
pub struct Workspace {
    pub folder: WorkspaceFolder,
    pub path: String,
    pub tag_file_path: Option<String>,
}

/// What a [`Workspace`] holds.
pub struct WorkspaceModel {
    pub folder: FolderModel,
    pub path: Seq<char>,
    pub tag_file_path: Option<Seq<char>>,
}

impl View for Workspace {
    type V = WorkspaceModel;

    open spec fn view(&self) -> WorkspaceModel {
        WorkspaceModel {
            folder: self.folder@,
            path: self.path@,
            tag_file_path: option_text(self.tag_file_path),
        }
    }
}

/// The names under which a tag index is looked for, in the order in which
/// they are tried.
#[derive(Clone, Debug)]
pub struct WorkspaceConfig {
    pub tag_file_patterns: Vec<String>,
}

/// The known workspace roots, in the order in which they were added.
pub struct WorkspaceManager {
    pub workspaces: Vec<Workspace>,
    pub config: WorkspaceConfig,
}

/// The path that is tried for `pattern` under `folder_path`.
pub open spec fn tag_file_candidate(folder_path: Seq<char>, pattern: Seq<char>) -> Seq<char> {
    folder_path + seq!['/'] + pattern
}

/// The paths that are tried under `folder_path`, one for each pattern.
pub open spec fn tag_file_candidates(folder_path: Seq<char>, patterns: Seq<Seq<char>>) -> Seq<
    Seq<char>,
> {
    patterns.map_values(|pattern: Seq<char>| tag_file_candidate(folder_path, pattern))
}

/// The first index from `from` on at which `present` holds `true`, or its
/// length.
pub open spec fn first_present(present: Seq<bool>, from: int) -> int
    decreases present.len() - from,
{
    if from >= present.len() {
        present.len() as int
    } else if present[from] {
        from
    } else {
        first_present(present, from + 1)
    }
}

/// The first of `candidates` that is present, if any is.
pub open spec fn select_tag_file(candidates: Seq<Seq<char>>, present: Seq<bool>) -> Option<
    Seq<char>,
> {
    let i = first_present(present, 0);
    if 0 <= i < candidates.len() && i < present.len() {
        Some(candidates[i])
    } else {
        None
    }
}

/// Whether one of `roots` has the address `uri`.
pub open spec fn has_root(roots: Seq<WorkspaceModel>, uri: Seq<char>) -> bool {
    exists|i: int| 0 <= i < roots.len() && #[trigger] roots[i].folder.uri == uri
}

/// What each of `folders` holds.
pub open spec fn folders_of(folders: Seq<WorkspaceFolder>) -> Seq<FolderModel> {
    folders.map_values(|f: WorkspaceFolder| f@)
}

/// Whether no two of `roots` have the same address.
pub open spec fn distinct_addresses(roots: Seq<WorkspaceModel>) -> bool {
    forall|i: int, j: int| 0 <= i < j < roots.len() ==> roots[i].folder.uri != roots[j].folder.uri
}

/// Whether `tag` is what looking under `path` can give: no tag index, or
/// the path that is tried for one of the patterns.
pub open spec fn tag_file_of(path: Seq<char>, patterns: Seq<Seq<char>>, tag: Option<Seq<char>>) -> bool {
    tag matches Some(found) ==> exists|i: int|
        0 <= i < patterns.len() && found == tag_file_candidate(path, #[trigger] patterns[i])
}

/// Whether the roots `added` stand for the folders that `picks` names among
/// `folders`, one root for each pick and in the order of the folders, each
/// with a tag index that looking under its path for `patterns` can give.
pub open spec fn stand_for(
    added: Seq<WorkspaceModel>,
    folders: Seq<FolderModel>,
    patterns: Seq<Seq<char>>,
    picks: Seq<int>,
) -> bool {
    &&& picks.len() == added.len()
    &&& forall|k: int|
        0 <= k < added.len() ==> 0 <= #[trigger] picks[k] < folders.len() && added[k].folder
            == folders[picks[k]] && tag_file_of(added[k].path, patterns, added[k].tag_file_path)
    &&& forall|j: int, k: int| 0 <= j < k < picks.len() ==> picks[j] < picks[k]
}

/// Whether `after` is `before` with new roots behind it that stand for some
/// of `folders`, each for another one, in the order of the folders.
pub open spec fn grown_by(
    before: Seq<WorkspaceModel>,
    folders: Seq<FolderModel>,
    patterns: Seq<Seq<char>>,
    after: Seq<WorkspaceModel>,
) -> bool {
    &&& before.len() <= after.len()
    &&& after.take(before.len() as int) == before
    &&& exists|picks: Seq<int>|
        stand_for(after.skip(before.len() as int), folders, patterns, picks)
}

/// The first of `candidates` that is present is one of them.
pub proof fn lemma_selected_is_candidate(
    path: Seq<char>,
    patterns: Seq<Seq<char>>,
    present: Seq<bool>,
)
    ensures
        tag_file_of(path, patterns, select_tag_file(tag_file_candidates(path, patterns), present)),
{
    let i = first_present(present, 0);
    let candidates = tag_file_candidates(path, patterns);
    if 0 <= i < candidates.len() && i < present.len() {
        assert(candidates[i] == tag_file_candidate(path, patterns[i]));
    }
}

/// The local path that the address `uri` stands for, written out as text,
/// where `Url::parse` reads `uri` as an address and `Url::to_file_path`
/// gives a path for it.
pub uninterp spec fn local_path(uri: Seq<char>) -> Option<Seq<char>>;

/// Whether adding `folder` to the roots `before` leaves `after`. A folder
/// whose address is known already, or stands for no local path, adds
/// nothing. Every other folder adds one root behind the others, with the
/// path of its address and the first path tried for a pattern at which
/// something was found: `present` says for each pattern whether something
/// was.
pub open spec fn adds(
    before: Seq<WorkspaceModel>,
    folder: FolderModel,
    patterns: Seq<Seq<char>>,
    after: Seq<WorkspaceModel>,
) -> bool {
    match local_path(folder.uri) {
        Some(path) if !has_root(before, folder.uri) => exists|present: Seq<bool>|
            present.len() == patterns.len() && after == before.push(
                WorkspaceModel {
                    folder,
                    path,
                    tag_file_path: #[trigger] select_tag_file(
                        tag_file_candidates(path, patterns),
                        present,
                    ),
                },
            ),
        _ => after == before,
    }
}

/// Whether adding each of `folders` in turn to the roots `before` leaves
/// `after`: the folders before the last one leave roots to which the last
/// one adds nothing, or its one root.
pub open spec fn adds_all(
    before: Seq<WorkspaceModel>,
    folders: Seq<FolderModel>,
    patterns: Seq<Seq<char>>,
    after: Seq<WorkspaceModel>,
) -> bool
    decreases folders.len(),
{
    if folders.len() == 0 {
        after == before
    } else {
        ||| adds_all(before, folders.drop_last(), patterns, after) && adds(
            after,
            folders.last(),
            patterns,
            after,
        )
        ||| after.len() > 0 && adds_all(before, folders.drop_last(), patterns, after.drop_last())
            && adds(after.drop_last(), folders.last(), patterns, after)
    }
}

/// Adding one more folder behind folders that were added in turn is adding
/// them all in turn.
proof fn lemma_adds_one_more(
    before: Seq<WorkspaceModel>,
    folders: Seq<FolderModel>,
    patterns: Seq<Seq<char>>,
    middle: Seq<WorkspaceModel>,
    after: Seq<WorkspaceModel>,
)
    requires
        folders.len() > 0,
        adds_all(before, folders.drop_last(), patterns, middle),
        adds(middle, folders.last(), patterns, after),
    ensures
        adds_all(before, folders, patterns, after),
{
    if after != middle {
        assert(after.drop_last() == middle);
    }
}

/// Calls `Url::parse` and `Url::to_file_path` and writes the path out as
/// text. `None` where `uri` is no address or stands for no local path. How
/// an address is read and turned into a path is not described here: the
/// result is only given the name [`local_path`].
#[verifier::external_body]
fn file_path_of_uri(uri: &str) -> (path: Option<String>)
    ensures
        option_text(path) == local_path(uri@),
{
    match lsp_types::Url::parse(uri) {
        Ok(url) => match url.to_file_path() {
            Ok(path) => Some(format!("{}", path.display())),
            Err(_) => None,
        },
        Err(_) => None,
    }
}

/// Asks `Path::exists` whether something is at `path` right now. The answer
/// depends on the file system, so nothing is claimed of it.
#[verifier::external_body]
fn path_exists(path: &str) -> (present: bool) {
    std::path::Path::new(path).exists()
}

/// The first of `candidates` whose flag in `present` is set.
pub fn select_tag_file_path(candidates: &Vec<String>, present: &Vec<bool>) -> (r: Option<String>)
    ensures
        option_text(r) == select_tag_file(texts(candidates@), present@),
{
    let mut i: usize = 0;
    while i < present.len() && i < candidates.len()
        invariant
            first_present(present@, i as int) == first_present(present@, 0),
            i <= present.len(),
        decreases present.len() - i,
    {
        if present[i] {
            return Some(candidates[i].clone());
        }
        i += 1;
    }
    proof {
        if i < present.len() {
            lemma_first_present_from(present@, i as int);
        }
    }
    None
}

/// `first_present` never answers with an index before `from`.
proof fn lemma_first_present_from(present: Seq<bool>, from: int)
    requires
        0 <= from <= present.len(),
    ensures
        from <= first_present(present, from) <= present.len(),
    decreases present.len() - from,
{
    if from < present.len() && !present[from] {
        lemma_first_present_from(present, from + 1);
    }
}

impl WorkspaceFolder {
    /// A folder with the same address and name.
    pub fn duplicate(&self) -> (copy: Self)
        ensures
            copy@ == self@,
    {
        WorkspaceFolder { uri: self.uri.clone(), name: self.name.clone() }
    }

    /// Whether `other` has the same address and the same name.
    pub fn same_as(&self, other: &WorkspaceFolder) -> (b: bool)
        ensures
            b == (self@ == other@),
    {
        same_text(self.uri.as_str(), other.uri.as_str()) && same_text(
            self.name.as_str(),
            other.name.as_str(),
        )
    }
}

impl WorkspaceManager {
    /// The roots, in the order in which they were added.
    pub open spec fn roots(&self) -> Seq<WorkspaceModel> {
        self.workspaces@.map_values(|w: Workspace| w@)
    }

    /// The names under which a tag index is looked for.
    pub open spec fn patterns(&self) -> Seq<Seq<char>> {
        texts(self.config.tag_file_patterns@)
    }

    /// No roots yet, and `tag_patterns` as the names to look for.
    pub fn new(tag_patterns: Vec<String>) -> (manager: Self)
        ensures
            manager.roots() == Seq::<WorkspaceModel>::empty(),
            manager.config.tag_file_patterns == tag_patterns,
    {
        let manager = Self {
            workspaces: Vec::new(),
            config: WorkspaceConfig { tag_file_patterns: tag_patterns },
        };
        assert(manager.roots() =~= Seq::<WorkspaceModel>::empty());
        manager
    }

    /// Whether a root with the address `uri` is known.
    pub fn knows(&self, uri: &str) -> (b: bool)
        ensures
            b == has_root(self.roots(), uri@),
    {
        let mut i: usize = 0;
        while i < self.workspaces.len()
            invariant
                i <= self.workspaces.len(),
                forall|j: int| 0 <= j < i ==> self.roots()[j].folder.uri != uri@,
            decreases self.workspaces.len() - i,
        {
            if same_text(self.workspaces[i].folder.uri.as_str(), uri) {
                assert(self.roots()[i as int].folder.uri == uri@);
                return true;
            }
            i += 1;
        }
        false
    }

    /// The paths at which a tag index is looked for under `folder_path`.
    pub fn candidates(&self, folder_path: &str) -> (paths: Vec<String>)
        ensures
            texts(paths@) == tag_file_candidates(folder_path@, self.patterns()),
    {
        let mut paths: Vec<String> = Vec::new();
        let mut i: usize = 0;
        while i < self.config.tag_file_patterns.len()
            invariant
                i <= self.config.tag_file_patterns.len(),
                texts(paths@) == tag_file_candidates(folder_path@, self.patterns()).take(i as int),
            decreases self.config.tag_file_patterns.len() - i,
        {
            let mut path = String::from_str(folder_path);
            path.append("/");
            path.append(self.config.tag_file_patterns[i].as_str());
            proof {
                reveal_strlit("/");
                assert("/"@ == seq!['/']);
                assert(path@ == tag_file_candidate(folder_path@, self.patterns()[i as int]));
                assert(texts(paths@.push(path)) == texts(paths@).push(path@));
                let all = tag_file_candidates(folder_path@, self.patterns());
                assert(all.take(i + 1) == all.take(i as int).push(all[i as int]));
            }
            paths.push(path);
            i += 1;
        }
        proof {
            let all = tag_file_candidates(folder_path@, self.patterns());
            assert(all.take(all.len() as int) == all);
        }
        paths
    }

    /// Adds the root `folder` with the local path `path` and the tag index
    /// `tag_file_path`, unless a root with the same address is known
    /// already: then nothing changes.
    pub fn register(
        &mut self,
        folder: &WorkspaceFolder,
        path: String,
        tag_file_path: Option<String>,
    )
        ensures
            final(self).config == old(self).config,
            final(self).roots() == if has_root(old(self).roots(), folder.uri@) {
                old(self).roots()
            } else {
                old(self).roots().push(
                    WorkspaceModel {
                        folder: folder@,
                        path: path@,
                        tag_file_path: option_text(tag_file_path),
                    },
                )
            },
            distinct_addresses(old(self).roots()) ==> distinct_addresses(final(self).roots()),
    {
        if self.knows(folder.uri.as_str()) {
            return;
        }
        let workspace = Workspace { folder: folder.duplicate(), path, tag_file_path };
        proof {
            assert(self.workspaces@.push(workspace).map_values(|w: Workspace| w@)
                == self.workspaces@.map_values(|w: Workspace| w@).push(workspace@));
        }
        self.workspaces.push(workspace);
    }

    /// Adds the root `folder`, unless a root with the same address is known
    /// already or the address stands for no local path: then nothing
    /// changes. The root's tag index is the first path, in the order of the
    /// patterns, at which something was found; none where nothing was.
    pub fn add_workspace(&mut self, folder: &WorkspaceFolder)
        ensures
            final(self).config == old(self).config,
            has_root(old(self).roots(), folder.uri@) ==> final(self).roots() == old(self).roots(),
            local_path(folder.uri@) is None ==> final(self).roots() == old(self).roots(),
            adds(old(self).roots(), folder@, old(self).patterns(), final(self).roots()),
            distinct_addresses(old(self).roots()) ==> distinct_addresses(final(self).roots()),
            grown_by(old(self).roots(), seq![folder@], old(self).patterns(), final(self).roots()),
    {
        let ghost before = self.roots();
        proof {
            assert(before.take(before.len() as int) == before);
            assert(stand_for(
                before.skip(before.len() as int),
                seq![folder@],
                self.patterns(),
                Seq::<int>::empty(),
            ));
        }
        if self.knows(folder.uri.as_str()) {
            return;
        }
        let folder_path = match file_path_of_uri(folder.uri.as_str()) {
            Some(path) => path,
            None => {
                return;
            },
        };
        let candidates = self.candidates(folder_path.as_str());
        let mut present: Vec<bool> = Vec::new();
        let mut i: usize = 0;
        while i < candidates.len()
            invariant
                i <= candidates.len(),
                present.len() == i,
            decreases candidates.len() - i,
        {
            present.push(path_exists(candidates[i].as_str()));
            i += 1;
        }
        let tag_file_path = select_tag_file_path(&candidates, &present);
        proof {
            lemma_selected_is_candidate(folder_path@, self.patterns(), present@);
        }
        self.register(folder, folder_path, tag_file_path);
        proof {
            let after = self.roots();
            assert(after.drop_last() == before);
            assert(after.take(before.len() as int) == before);
            let added = after.skip(before.len() as int);
            assert(added.len() == 1);
            assert(added[0] == after.last());
            assert(stand_for(added, seq![folder@], self.patterns(), seq![0int]));
        }
    }

    /// Adds each of `folders` in turn, as `add_workspace` does: the new
    /// roots come in the order of the folders.
    pub fn add_workspaces(&mut self, folders: &Vec<WorkspaceFolder>)
        ensures
            final(self).config == old(self).config,
            adds_all(
                old(self).roots(),
                folders_of(folders@),
                old(self).patterns(),
                final(self).roots(),
            ),
            distinct_addresses(old(self).roots()) ==> distinct_addresses(final(self).roots()),
            grown_by(
                old(self).roots(),
                folders_of(folders@),
                old(self).patterns(),
                final(self).roots(),
            ),
    {
        let ghost given = folders_of(folders@);
        let ghost first = self.roots();
        let ghost patterns = self.patterns();
        let ghost mut picks: Seq<int> = Seq::empty();
        let mut i: usize = 0;
        proof {
            assert(first.take(first.len() as int) == first);
        }
        while i < folders.len()
            invariant
                i <= folders.len(),
                given == folders_of(folders@),
                first == old(self).roots(),
                patterns == old(self).patterns(),
                self.config == old(self).config,
                adds_all(first, given.take(i as int), patterns, self.roots()),
                distinct_addresses(first) ==> distinct_addresses(self.roots()),
                first.len() <= self.roots().len(),
                self.roots().take(first.len() as int) == first,
                stand_for(self.roots().skip(first.len() as int), given, patterns, picks),
                forall|k: int| 0 <= k < picks.len() ==> picks[k] < i,
            decreases folders.len() - i,
        {
            let ghost before = self.roots();
            self.add_workspace(&folders[i]);
            proof {
                let after = self.roots();
                let start = first.len() as int;
                let one = seq![folders[i as int]@];
                assert(given[i as int] == folders[i as int]@);
                assert(given.take(i + 1).drop_last() == given.take(i as int));
                assert(given.take(i + 1).last() == given[i as int]);
                assert(adds_all(first, given.take(i + 1).drop_last(), patterns, before));
                lemma_adds_one_more(first, given.take(i + 1), patterns, before, after);
                let fresh = after.skip(before.len() as int);
                let pick = choose|pick: Seq<int>| stand_for(fresh, one, patterns, pick);
                if fresh.len() >= 2 {
                    assert(pick[0] < pick[1]);
                }
                assert(after.take(start) == after.take(before.len() as int).take(start));
                if fresh.len() == 1 {
                    assert(pick[0] == 0);
                    assert(fresh[0] == after[before.len() as int]);
                    assert(after.skip(start) == before.skip(start).push(fresh[0])) by {
                        assert(after.take(before.len() as int) == before);
                        assert forall|k: int| 0 <= k < before.len() - start implies after.skip(
                            start,
                        )[k] == before.skip(start)[k] by {
                            assert(after.take(before.len() as int)[start + k] == after[start + k]);
                        }
                    }
                    picks = picks.push(i as int);
                } else {
                    assert(after == before) by {
                        assert(after.take(before.len() as int) == after);
                    }
                }
            }
            i += 1;
        }
        proof {
            assert(given.take(given.len() as int) == given);
        }
    }

    /// Forgets each root whose folder has the address and the name of one
    /// of `folders`.
    pub fn remove_workspaces(&mut self, folders: &Vec<WorkspaceFolder>)
        ensures
            final(self).config == old(self).config,
            final(self).roots() == old(self).roots().filter(
                |w: WorkspaceModel| !folders_of(folders@).contains(w.folder),
            ),
            distinct_addresses(old(self).roots()) ==> distinct_addresses(final(self).roots()),
    {
        let ghost given = folders_of(folders@);
        let ghost start = self.roots();
        let mut i: usize = 0;
        proof {
            lemma_filter_all(start, |w: WorkspaceModel| !given.take(0).contains(w.folder));
        }
        while i < folders.len()
            invariant
                i <= folders.len(),
                given == folders_of(folders@),
                start == old(self).roots(),
                self.config == old(self).config,
                distinct_addresses(start) ==> distinct_addresses(self.roots()),
                self.roots() == start.filter(
                    |w: WorkspaceModel| !given.take(i as int).contains(w.folder),
                ),
            decreases folders.len() - i,
        {
            self.remove_workspace(&folders[i]);
            proof {
                let one = folders[i as int]@;
                assert(given[i as int] == one);
                let so_far = |w: WorkspaceModel| !given.take(i as int).contains(w.folder);
                let this = |w: WorkspaceModel| w.folder != one;
                let both = |w: WorkspaceModel| !given.take(i + 1).contains(w.folder);
                assert forall|w: WorkspaceModel| #[trigger] both(w) == (so_far(w) && this(w)) by {
                    let shorter = given.take(i as int);
                    let longer = given.take(i + 1);
                    if shorter.contains(w.folder) {
                        let k = choose|k: int| 0 <= k < shorter.len() && shorter[k] == w.folder;
                        assert(longer[k] == w.folder);
                    }
                    if w.folder == one {
                        assert(longer[i as int] == w.folder);
                    }
                    if longer.contains(w.folder) {
                        let k = choose|k: int| 0 <= k < longer.len() && longer[k] == w.folder;
                        if k < i {
                            assert(shorter[k] == w.folder);
                        }
                    }
                }
                lemma_filter_twice(start, so_far, this, both);
            }
            i += 1;
        }
        proof {
            assert(given.take(given.len() as int) == given);
        }
    }

    /// Forgets each root whose folder has the address and the name of
    /// `folder`.
    pub fn remove_workspace(&mut self, folder: &WorkspaceFolder)
        ensures
            final(self).config == old(self).config,
            final(self).roots() == old(self).roots().filter(
                |w: WorkspaceModel| w.folder != folder@,
            ),
            distinct_addresses(old(self).roots()) ==> distinct_addresses(final(self).roots()),
    {
        let ghost keep = |w: WorkspaceModel| w.folder != folder@;
        let mut i: usize = 0;
        while i < self.workspaces.len()
            invariant
                i <= self.workspaces.len(),
                self.config == old(self).config,
                keep == |w: WorkspaceModel| w.folder != folder@,
                distinct_addresses(old(self).roots()) ==> distinct_addresses(self.roots()),
                forall|j: int| 0 <= j < i ==> keep(self.roots()[j]),
                self.roots().filter(keep) == old(self).roots().filter(keep),
            decreases self.workspaces.len() - i,
        {
            if self.workspaces[i].folder.same_as(folder) {
                proof {
                    lemma_filter_remove(self.roots(), keep, i as int);
                    assert(self.workspaces@.remove(i as int).map_values(|w: Workspace| w@)
                        == self.roots().remove(i as int));
                }
                self.workspaces.remove(i);
            } else {
                i += 1;
            }
        }
        proof {
            lemma_filter_all(self.roots(), keep);
        }
    }
}

/// Taking out an item that the filter drops does not change what the filter
/// keeps.
proof fn lemma_filter_remove<A>(s: Seq<A>, keep: spec_fn(A) -> bool, i: int)
    requires
        0 <= i < s.len(),
        !keep(s[i]),
    ensures
        s.remove(i).filter(keep) == s.filter(keep),
{
    let head = s.take(i);
    let one = seq![s[i]];
    let tail = s.skip(i + 1);
    assert(s == head + one + tail);
    assert(s.remove(i) == head + tail);
    Seq::filter_distributes_over_add(head + one, tail, keep);
    Seq::filter_distributes_over_add(head, one, keep);
    Seq::filter_distributes_over_add(head, tail, keep);
    reveal_with_fuel(Seq::filter, 2);
    assert(one.drop_last() == Seq::<A>::empty());
    assert(one.filter(keep) == Seq::<A>::empty());
}

/// Filtering what a filter kept keeps what both filters keep.
proof fn lemma_filter_twice<A>(
    s: Seq<A>,
    first: spec_fn(A) -> bool,
    second: spec_fn(A) -> bool,
    both: spec_fn(A) -> bool,
)
    requires
        forall|a: A| #[trigger] both(a) == (first(a) && second(a)),
    ensures
        s.filter(first).filter(second) == s.filter(both),
    decreases s.len(),
{
    reveal_with_fuel(Seq::filter, 1);
    if s.len() > 0 {
        lemma_filter_twice(s.drop_last(), first, second, both);
        let head = s.drop_last().filter(first);
        if first(s.last()) {
            assert(head.push(s.last()).drop_last() == head);
        }
    }
}

/// A filter that drops nothing keeps everything.
proof fn lemma_filter_all<A>(s: Seq<A>, keep: spec_fn(A) -> bool)
    requires
        forall|i: int| 0 <= i < s.len() ==> keep(s[i]),
    ensures
        s.filter(keep) == s,
    decreases s.len(),
{
    reveal_with_fuel(Seq::filter, 1);
    if s.len() > 0 {
        lemma_filter_all(s.drop_last(), keep);
        assert(s.drop_last().push(s.last()) == s);
    }
}

} // verus!
