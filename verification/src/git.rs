//! What the merge editor reads from a repository, as plain values, and the
//! rules it applies to them: which paths are conflicted and how, which
//! stage texts belong to a path, the labels of the two sides, and which
//! paths may be opened or written.
use vstd::prelude::*;
use vstd::utf8::{decode_utf8, valid_utf8};
use crate::model::{ConflictFile, ConflictFileView, SideStatus};
use crate::text::{char_count, split_seq, split_str, starts_with, starts_with_seq};

verus! {

/// The texts of the three index stages of a conflicted path.
pub struct Stages {
    pub base: Option<String>,
    pub ours: Option<String>,
    pub theirs: Option<String>,
}

/// The views of an optional text.
pub open spec fn opt_text(o: Option<String>) -> Option<Seq<char>> {
    match o {
        Some(s) => Some(s@),
        None => None,
    }
}

/// The mathematical value of [`Stages`]: base, ours, theirs.
pub open spec fn stages_view(s: Stages) -> (Option<Seq<char>>, Option<Seq<char>>, Option<Seq<char>>) {
    (opt_text(s.base), opt_text(s.ours), opt_text(s.theirs))
}

/// One stage of a conflict entry of the index: the entry's path as stored,
/// and the content of its blob (`None` when the blob cannot be read).
pub struct StageEntry {
    pub path: Vec<u8>,
    pub content: Option<Vec<u8>>,
}

/// One conflict entry of the index: its ancestor (base), our and their
/// stages, each of which may be missing.
pub struct IndexConflict {
    pub ancestor: Option<StageEntry>,
    pub our: Option<StageEntry>,
    pub their: Option<StageEntry>,
}

/// The mathematical value of a [`StageEntry`].
pub struct StageEntryView {
    pub path: Seq<u8>,
    pub content: Option<Seq<u8>>,
}

impl View for StageEntry {
    type V = StageEntryView;

    open spec fn view(&self) -> StageEntryView {
        StageEntryView {
            path: self.path@,
            content: match self.content {
                Some(c) => Some(c@),
                None => None,
            },
        }
    }
}

/// The view of an optional stage entry.
pub open spec fn opt_entry(e: Option<StageEntry>) -> Option<StageEntryView> {
    match e {
        Some(x) => Some(x@),
        None => None,
    }
}

/// The mathematical value of an [`IndexConflict`].
pub struct IndexConflictView {
    pub ancestor: Option<StageEntryView>,
    pub our: Option<StageEntryView>,
    pub their: Option<StageEntryView>,
}

impl View for IndexConflict {
    type V = IndexConflictView;

    open spec fn view(&self) -> IndexConflictView {
        IndexConflictView {
            ancestor: opt_entry(self.ancestor),
            our: opt_entry(self.our),
            their: opt_entry(self.their),
        }
    }
}

/// The views of a sequence of conflict entries.
pub open spec fn conflicts_view(cs: Seq<IndexConflict>) -> Seq<IndexConflictView> {
    cs.map_values(|c: IndexConflict| c@)
}

/// The text that `String::from_utf8_lossy` makes of `bytes`.
pub uninterp spec fn lossy_text(bytes: Seq<u8>) -> Seq<char>;

/// The text of `bytes`: the characters they encode when they are valid
/// UTF-8, else what `String::from_utf8_lossy` makes of them.
pub open spec fn utf8_text(bytes: Seq<u8>) -> Seq<char> {
    if valid_utf8(bytes) {
        decode_utf8(bytes)
    } else {
        lossy_text(bytes)
    }
}

/// Calls `String::from_utf8_lossy` and makes the result owned. Claimed: the
/// result depends on the bytes alone, and valid UTF-8 decodes to exactly
/// its characters. What stands in for invalid sequences (U+FFFD, as std
/// documents) is not stated.
#[verifier::external_body]
fn lossy_string(bytes: &[u8]) -> (r: String)
    ensures
        r@ == lossy_text(bytes@),
        valid_utf8(bytes@) ==> r@ == decode_utf8(bytes@),
{
    String::from_utf8_lossy(bytes).into_owned()
}

/// How a side relates to the base: present on both is a modification,
/// present without a base an addition, missing a deletion.
pub open spec fn side_status_spec(has_base: bool, has_side: bool) -> SideStatus {
    if !has_side {
        SideStatus::Deleted
    } else if has_base {
        SideStatus::Modified
    } else {
        SideStatus::Added
    }
}

/// The status of a side given whether the base and the side exist.
pub fn side_status(has_base: bool, has_side: bool) -> (r: SideStatus)
    ensures
        r == side_status_spec(has_base, has_side),
{
    match (has_base, has_side) {
        (true, true) => SideStatus::Modified,
        (false, true) => SideStatus::Added,
        (_, false) => SideStatus::Deleted,
    }
}

/// Whether content is binary: it holds a NUL byte.
pub fn is_binary_content(content: &[u8]) -> (r: bool)
    ensures
        r == content@.contains(0u8),
{
    let mut i: usize = 0;
    while i < content.len()
        invariant
            i <= content@.len(),
            forall|k: int| 0 <= k < i ==> content@[k] != 0u8,
        decreases content.len() - i,
    {
        if content[i] == 0u8 {
            assert(content@[i as int] == 0u8);
            return true;
        }
        i = i + 1;
    }
    false
}

/// Whether a stage is binary; a missing stage, or one whose blob cannot be
/// read, is not.
pub open spec fn entry_binary(e: Option<StageEntryView>) -> bool {
    match e {
        Some(x) => match x.content {
            Some(c) => c.contains(0u8),
            None => false,
        },
        None => false,
    }
}

fn entry_is_binary(e: &Option<StageEntry>) -> (r: bool)
    ensures
        r == entry_binary(opt_entry(*e)),
{
    match e {
        Some(x) => match &x.content {
            Some(c) => is_binary_content(c.as_slice()),
            None => false,
        },
        None => false,
    }
}

/// The path of a conflict: that of our stage, else of their stage, else of
/// the ancestor, else empty.
pub open spec fn conflict_path(c: IndexConflictView) -> Seq<u8> {
    match c.our {
        Some(e) => e.path,
        None => match c.their {
            Some(e) => e.path,
            None => match c.ancestor {
                Some(e) => e.path,
                None => Seq::empty(),
            },
        },
    }
}

/// The overview line of one conflict entry.
pub open spec fn conflict_file_spec(c: IndexConflictView) -> ConflictFileView {
    ConflictFileView {
        path: utf8_text(conflict_path(c)),
        ours_status: side_status_spec(c.ancestor is Some, c.our is Some),
        theirs_status: side_status_spec(c.ancestor is Some, c.their is Some),
        is_binary: entry_binary(c.our) || entry_binary(c.their),
    }
}

/// Law: the overview line of a conflict says what its stages are. The
/// file is binary exactly when the blob of our stage or of their stage
/// holds a NUL byte; a side is deleted when its stage is missing, added
/// when it is present without an ancestor, and modified when both are
/// present; the path is that of our stage, else their stage, else the
/// ancestor, decoded as UTF-8 where it is valid.
pub proof fn lemma_conflict_file_law(c: IndexConflictView)
    ensures
        conflict_file_spec(c).is_binary == ((c.our matches Some(e) && e.content matches Some(b)
            && b.contains(0u8)) || (c.their matches Some(e) && e.content matches Some(b)
            && b.contains(0u8))),
        (conflict_file_spec(c).ours_status == SideStatus::Deleted) == (c.our is None),
        (conflict_file_spec(c).ours_status == SideStatus::Added) == (c.our is Some && c.ancestor is None),
        (conflict_file_spec(c).ours_status == SideStatus::Modified) == (c.our is Some && c.ancestor is Some),
        (conflict_file_spec(c).theirs_status == SideStatus::Deleted) == (c.their is None),
        (conflict_file_spec(c).theirs_status == SideStatus::Added) == (c.their is Some && c.ancestor
            is None),
        (conflict_file_spec(c).theirs_status == SideStatus::Modified) == (c.their is Some
            && c.ancestor is Some),
        c.our matches Some(e) ==> conflict_file_spec(c).path == utf8_text(e.path),
        c.our is None ==> (c.their matches Some(e) ==> conflict_file_spec(c).path == utf8_text(e.path)),
        c.our is None && c.their is None ==> (c.ancestor matches Some(e) ==> conflict_file_spec(c).path
            == utf8_text(e.path)),
        valid_utf8(conflict_path(c)) ==> conflict_file_spec(c).path == decode_utf8(conflict_path(c)),
{
}

fn conflict_file(c: &IndexConflict) -> (r: ConflictFile)
    ensures
        r@ == conflict_file_spec(c@),
{
    let path = match &c.our {
        Some(e) => lossy_string(e.path.as_slice()),
        None => match &c.their {
            Some(e) => lossy_string(e.path.as_slice()),
            None => match &c.ancestor {
                Some(e) => lossy_string(e.path.as_slice()),
                None => {
                    let empty: Vec<u8> = Vec::new();
                    assert(empty@ =~= Seq::<u8>::empty());
                    lossy_string(empty.as_slice())
                },
            },
        },
    };
    let ours_status = side_status(c.ancestor.is_some(), c.our.is_some());
    let theirs_status = side_status(c.ancestor.is_some(), c.their.is_some());
    let our_binary = entry_is_binary(&c.our);
    let their_binary = entry_is_binary(&c.their);
    ConflictFile { path, ours_status, theirs_status, is_binary: our_binary || their_binary }
}

/// The conflicted paths of the index, one per conflict entry, in order.
pub fn list_conflicts(conflicts: &[IndexConflict]) -> (r: Vec<ConflictFile>)
    ensures
        r@.len() == conflicts@.len(),
        forall|k: int| 0 <= k < r@.len() ==> (#[trigger] r@[k])@ == conflict_file_spec(conflicts@[k]@),
{
    let mut out: Vec<ConflictFile> = Vec::new();
    let mut i: usize = 0;
    while i < conflicts.len()
        invariant
            i <= conflicts@.len(),
            out@.len() == i,
            forall|k: int| 0 <= k < i ==> (#[trigger] out@[k])@ == conflict_file_spec(conflicts@[k]@),
        decreases conflicts.len() - i,
    {
        let f = conflict_file(&conflicts[i]);
        out.push(f);
        i = i + 1;
    }
    out
}

/// Whether a stage exists and its path, read as text, is `path`.
pub open spec fn entry_matches(e: Option<StageEntryView>, path: Seq<char>) -> bool {
    match e {
        Some(x) => utf8_text(x.path) == path,
        None => false,
    }
}

/// The text of a stage's blob, if it can be read.
pub open spec fn blob_text(e: StageEntryView) -> Option<Seq<char>> {
    match e.content {
        Some(b) => Some(utf8_text(b)),
        None => None,
    }
}

/// A stage text after one more entry: a present stage replaces it (by its
/// blob's text, or by nothing when the blob cannot be read).
pub open spec fn next_stage(prev: Option<Seq<char>>, e: Option<StageEntryView>) -> Option<Seq<char>> {
    match e {
        Some(x) => blob_text(x),
        None => prev,
    }
}

/// The stage texts of `path` after the conflict entries `cs`: each entry
/// with a stage at `path` sets the stages it has, so later entries win.
pub open spec fn stages_after(cs: Seq<IndexConflictView>, path: Seq<char>) -> (
    Option<Seq<char>>,
    Option<Seq<char>>,
    Option<Seq<char>>,
)
    decreases cs.len(),
{
    if cs.len() == 0 {
        (None, None, None)
    } else {
        let prev = stages_after(cs.drop_last(), path);
        let c = cs.last();
        if entry_matches(c.ancestor, path) || entry_matches(c.our, path) || entry_matches(
            c.their,
            path,
        ) {
            (next_stage(prev.0, c.ancestor), next_stage(prev.1, c.our), next_stage(prev.2, c.their))
        } else {
            prev
        }
    }
}

/// Law: no conflict entries give no stage texts.
pub proof fn lemma_stages_after_none(path: Seq<char>)
    ensures
        stages_after(Seq::<IndexConflictView>::empty(), path) == (
            None::<Seq<char>>,
            None::<Seq<char>>,
            None::<Seq<char>>,
        ),
{
}

/// Law: one more conflict entry, any of whose three stages is at `path`,
/// sets the stage texts that it has (each to its blob's text, or to none
/// when the blob cannot be read) and keeps the others; an entry none of
/// whose stages is at `path` changes nothing.
pub proof fn lemma_stages_after_push(cs: Seq<IndexConflictView>, c: IndexConflictView, path: Seq<char>)
    ensures
        ({
            let hit = (c.ancestor matches Some(e) && utf8_text(e.path) == path) || (c.our matches Some(
                e,
            ) && utf8_text(e.path) == path) || (c.their matches Some(e) && utf8_text(e.path) == path);
            let prev = stages_after(cs, path);
            let now = stages_after(cs.push(c), path);
            &&& !hit ==> now == prev
            &&& hit ==> now.0 == match c.ancestor {
                Some(e) => match e.content {
                    Some(b) => Some(utf8_text(b)),
                    None => None,
                },
                None => prev.0,
            }
            &&& hit ==> now.1 == match c.our {
                Some(e) => match e.content {
                    Some(b) => Some(utf8_text(b)),
                    None => None,
                },
                None => prev.1,
            }
            &&& hit ==> now.2 == match c.their {
                Some(e) => match e.content {
                    Some(b) => Some(utf8_text(b)),
                    None => None,
                },
                None => prev.2,
            }
        }),
{
    assert(cs.push(c).drop_last() =~= cs);
    assert(cs.push(c).last() == c);
}

fn entry_path_is(e: &Option<StageEntry>, path: &String) -> (r: bool)
    ensures
        r == entry_matches(opt_entry(*e), path@),
{
    match e {
        Some(x) => {
            let p = lossy_string(x.path.as_slice());
            p == *path
        },
        None => false,
    }
}

fn stage_text(e: &StageEntry) -> (r: Option<String>)
    ensures
        opt_text(r) == blob_text(e@),
{
    match &e.content {
        Some(b) => Some(lossy_string(b.as_slice())),
        None => None,
    }
}

/// The texts of the base, ours and theirs stages of `path`.
pub fn read_stages(conflicts: &[IndexConflict], path: &str) -> (r: Stages)
    ensures
        stages_view(r) == stages_after(conflicts_view(conflicts@), path@),
{
    let target = path.to_owned();
    let ghost cv = conflicts_view(conflicts@);
    let mut base: Option<String> = None;
    let mut ours: Option<String> = None;
    let mut theirs: Option<String> = None;
    let mut i: usize = 0;
    assert(cv.take(0) =~= Seq::<IndexConflictView>::empty());
    while i < conflicts.len()
        invariant
            i <= conflicts@.len(),
            cv == conflicts_view(conflicts@),
            target@ == path@,
            (opt_text(base), opt_text(ours), opt_text(theirs)) == stages_after(
                cv.take(i as int),
                path@,
            ),
        decreases conflicts.len() - i,
    {
        let c = &conflicts[i];
        assert(cv.take(i + 1).drop_last() =~= cv.take(i as int));
        assert(cv.take(i + 1).last() == c@);
        if entry_path_is(&c.ancestor, &target) || entry_path_is(&c.our, &target) || entry_path_is(
            &c.their,
            &target,
        ) {
            if let Some(e) = &c.ancestor {
                base = stage_text(e);
            }
            if let Some(e) = &c.our {
                ours = stage_text(e);
            }
            if let Some(e) = &c.their {
                theirs = stage_text(e);
            }
        }
        i = i + 1;
    }
    assert(cv.take(conflicts@.len() as int) =~= cv);
    Stages { base, ours, theirs }
}

/// The label of our side: the current branch's short name, else "Yours".
pub open spec fn ours_label_spec(head: Option<Seq<char>>) -> Seq<char> {
    match head {
        Some(h) => h,
        None => "Yours"@,
    }
}

/// A branch of the repository and the commit it points at (the commit id
/// as hex text).
pub struct BranchTip {
    pub name: String,
    pub target: String,
}

/// The name of the first branch among `tips` that points at `commit`.
pub open spec fn branch_at(commit: Seq<char>, tips: Seq<BranchTip>) -> Option<Seq<char>>
    decreases tips.len(),
{
    if tips.len() == 0 {
        None
    } else if tips[0].target@ == commit {
        Some(tips[0].name@)
    } else {
        branch_at(commit, tips.drop_first())
    }
}

/// The label of their side: the name of the branch being merged in, that
/// is the first branch that points at the merge head, when there is a
/// merge head and such a branch; else "Theirs".
pub open spec fn theirs_label_spec(merge_head: Option<Seq<char>>, tips: Seq<BranchTip>) -> Seq<char> {
    match merge_head {
        Some(h) => match branch_at(h, tips) {
            Some(n) => n,
            None => "Theirs"@,
        },
        None => "Theirs"@,
    }
}

/// Whether two texts are equal.
fn same_text(a: &str, b: &str) -> (r: bool)
    ensures
        r == (a@ == b@),
{
    if char_count(a) != char_count(b) {
        return false;
    }
    let r = starts_with(a, b);
    proof {
        assert(a@.take(a@.len() as int) =~= a@);
        if a@ == b@ {
            assert(starts_with_seq(a@, b@));
        }
    }
    r
}

/// Human-readable labels for the two sides: ours is the current branch's
/// short name (else "Yours"); theirs is the branch being merged in, found
/// among the branches `tips` as the first that points at the merge head
/// (else "Theirs").
pub fn branch_labels(head_shorthand: Option<String>, merge_head: Option<String>, tips: &[BranchTip]) -> (r: (
    String,
    String,
))
    ensures
        r.0@ == ours_label_spec(opt_text(head_shorthand)),
        r.1@ == theirs_label_spec(opt_text(merge_head), tips@),
{
    let ours = match head_shorthand {
        Some(h) => h,
        None => String::from_str("Yours"),
    };
    let theirs = match &merge_head {
        Some(h) => {
            let mut i: usize = 0;
            let mut found: Option<String> = None;
            assert(tips@.skip(0) =~= tips@);
            while i < tips.len() && found.is_none()
                invariant
                    i <= tips@.len(),
                    found is None ==> branch_at(h@, tips@) == branch_at(h@, tips@.skip(i as int)),
                    found matches Some(n) ==> branch_at(h@, tips@) == Some(n@),
                decreases tips.len() - i,
            {
                assert(tips@.skip(i as int)[0] == tips@[i as int]);
                assert(tips@.skip(i as int).drop_first() =~= tips@.skip(i + 1));
                if same_text(tips[i].target.as_str(), h.as_str()) {
                    found = Some(tips[i].name.clone());
                }
                i = i + 1;
            }
            match found {
                Some(n) => n,
                None => {
                    assert(tips@.skip(i as int).len() == 0);
                    String::from_str("Theirs")
                },
            }
        },
        None => String::from_str("Theirs"),
    };
    (ours, theirs)
}

/// Why a path was refused.
#[derive(Debug, Clone, Copy, PartialEq, Eq, Structural)]
pub enum PathError {
    /// The path is absolute or has a `..` component.
    NotPlainRelative,
}

impl PathError {
    /// The message shown for the error.
    pub fn message(&self) -> (r: String)
        ensures
            r@ == "invalid path: must be relative and contain no '..' components"@,
    {
        String::from_str("invalid path: must be relative and contain no '..' components")
    }
}

/// Whether a path is a plain relative path, with `/` as the separator as
/// on Unix: it does not start at the root, and none of its components is
/// `..`.
pub open spec fn safe_relative_path(p: Seq<char>) -> bool {
    &&& !(p.len() > 0 && p[0] == '/')
    &&& !split_seq(p, '/').contains(seq!['.', '.'])
}

fn is_parent_component(s: &str) -> (r: bool)
    ensures
        r == (s@ == seq!['.', '.']),
{
    let n = s.unicode_len();
    if n != 2 {
        return false;
    }
    let a = s.get_char(0);
    let b = s.get_char(1);
    if a == '.' && b == '.' {
        assert(s@ =~= seq!['.', '.']);
        true
    } else {
        false
    }
}

/// Guard against path traversal and absolute paths: refuse anything that
/// is not a plain relative path with no `..` component. Every path that the
/// editor joins onto the working directory passes through here first.
pub fn ensure_safe_relative_path(path: &str) -> (r: Result<(), PathError>)
    ensures
        r is Ok <==> safe_relative_path(path@),
        r is Err ==> r == Err::<(), PathError>(PathError::NotPlainRelative),
{
    let n = path.unicode_len();
    if n > 0 && path.get_char(0) == '/' {
        return Err(PathError::NotPlainRelative);
    }
    let parts = split_str(path, '/');
    let ghost pv = parts.deep_view();
    let mut i: usize = 0;
    while i < parts.len()
        invariant
            i <= parts@.len(),
            pv == parts.deep_view(),
            pv == split_seq(path@, '/'),
            forall|k: int| 0 <= k < i ==> pv[k] != seq!['.', '.'],
        decreases parts.len() - i,
    {
        if is_parent_component(parts[i].as_str()) {
            assert(pv[i as int] == seq!['.', '.']);
            return Err(PathError::NotPlainRelative);
        }
        i = i + 1;
    }
    assert(!pv.contains(seq!['.', '.'])) by {
        if pv.contains(seq!['.', '.']) {
            let k = choose|k: int| 0 <= k < pv.len() && pv[k] == seq!['.', '.'];
            assert(pv[k] != seq!['.', '.']);
        }
    }
    Ok(())
}

} // verus!
