//! Data model shared by the merge engine and the editor.
use vstd::prelude::*;

verus! {

/// How one side of a conflict relates to the merge base.
#[derive(Debug, Clone, Copy, PartialEq, Eq, Structural)]
pub enum SideStatus {
    Added,
    Modified,
    Deleted,
}

/// One conflicted path of the index, as listed in the overview.
#[derive(Debug, Clone, PartialEq)]
pub struct ConflictFile {
    pub path: String,
    pub ours_status: SideStatus,
    pub theirs_status: SideStatus,
    pub is_binary: bool,
}

/// The mathematical value of a [`ConflictFile`].
pub struct ConflictFileView {
    pub path: Seq<char>,
    pub ours_status: SideStatus,
    pub theirs_status: SideStatus,
    pub is_binary: bool,
}

impl View for ConflictFile {
    type V = ConflictFileView;

    open spec fn view(&self) -> ConflictFileView {
        ConflictFileView {
            path: self.path@,
            ours_status: self.ours_status,
            theirs_status: self.theirs_status,
            is_binary: self.is_binary,
        }
    }
}

/// One line-diff operation for a side, vs the base (or vs the other side when no base).
#[derive(Debug, Clone, PartialEq)]
pub enum LineOp {
    Equal { text: String },
    Insert { text: String },
    Delete { text: String },
}

/// The mathematical value of a [`LineOp`].
pub enum LineOpView {
    Equal(Seq<char>),
    Insert(Seq<char>),
    Delete(Seq<char>),
}

impl View for LineOp {
    type V = LineOpView;

    open spec fn view(&self) -> LineOpView {
        match self {
            LineOp::Equal { text } => LineOpView::Equal(text@),
            LineOp::Insert { text } => LineOpView::Insert(text@),
            LineOp::Delete { text } => LineOpView::Delete(text@),
        }
    }
}

/// The views of a sequence of line operations.
pub open spec fn line_ops_view(ops: Seq<LineOp>) -> Seq<LineOpView> {
    ops.map_values(|o: LineOp| o@)
}

/// A region of a marker-parsed document, with the line operations of each
/// side of a conflict against its base.
#[derive(Debug, Clone, PartialEq)]
pub enum Region {
    Merged { lines: Vec<String> },
    Conflict {
        id: u32,
        ours: Vec<String>,
        theirs: Vec<String>,
        base: Option<Vec<String>>,
        ours_line_ops: Vec<LineOp>,
        theirs_line_ops: Vec<LineOp>,
    },
}

/// A conflicted file as presented to the merge editor.
#[derive(Debug, Clone, PartialEq)]
pub struct ConflictDocument {
    pub path: String,
    pub ours_label: String,
    pub theirs_label: String,
    pub hunks: Vec<Hunk>,
    /// Number of non-conflicting ("blue") hunks at load.
    pub change_count: u32,
    /// Number of conflicting ("red") hunks at load.
    pub conflict_count: u32,
    pub content_hash: String,
    pub trailing_newline: bool,
}

/// The mathematical value of a [`ConflictDocument`].
pub struct ConflictDocumentView {
    pub path: Seq<char>,
    pub ours_label: Seq<char>,
    pub theirs_label: Seq<char>,
    pub hunks: Seq<HunkView>,
    pub change_count: u32,
    pub conflict_count: u32,
    pub content_hash: Seq<char>,
    pub trailing_newline: bool,
}

impl View for ConflictDocument {
    type V = ConflictDocumentView;

    open spec fn view(&self) -> ConflictDocumentView {
        ConflictDocumentView {
            path: self.path@,
            ours_label: self.ours_label@,
            theirs_label: self.theirs_label@,
            hunks: hunks_view(self.hunks@),
            change_count: self.change_count,
            conflict_count: self.conflict_count,
            content_hash: self.content_hash@,
            trailing_newline: self.trailing_newline,
        }
    }
}

/// Classification of a hunk of a three-way merge.
#[derive(Debug, Clone, Copy, PartialEq, Eq, Structural)]
pub enum HunkKind {
    Unchanged,
    LeftChange,
    RightChange,
    BothSame,
    Conflict,
}

/// One aligned block of base / left (ours) / right (theirs) lines.
#[derive(Debug, Clone, PartialEq)]
pub struct Hunk {
    /// Present only for actionable hunks (not `Unchanged`).
    pub id: Option<u32>,
    pub kind: HunkKind,
    pub base_lines: Vec<String>,
    pub left_lines: Vec<String>,
    pub right_lines: Vec<String>,
    pub left_line_ops: Vec<LineOp>,
    pub right_line_ops: Vec<LineOp>,
}

/// The mathematical value of a [`Hunk`].
pub struct HunkView {
    pub id: Option<u32>,
    pub kind: HunkKind,
    pub base: Seq<Seq<char>>,
    pub left: Seq<Seq<char>>,
    pub right: Seq<Seq<char>>,
    pub left_ops: Seq<LineOpView>,
    pub right_ops: Seq<LineOpView>,
}

impl View for Hunk {
    type V = HunkView;

    open spec fn view(&self) -> HunkView {
        HunkView {
            id: self.id,
            kind: self.kind,
            base: self.base_lines.deep_view(),
            left: self.left_lines.deep_view(),
            right: self.right_lines.deep_view(),
            left_ops: line_ops_view(self.left_line_ops@),
            right_ops: line_ops_view(self.right_line_ops@),
        }
    }
}

/// The views of a sequence of hunks.
pub open spec fn hunks_view(hs: Seq<Hunk>) -> Seq<HunkView> {
    hs.map_values(|h: Hunk| h@)
}

/// Blue kinds: a change on one side, or the same change on both.
pub open spec fn kind_is_blue(k: HunkKind) -> bool {
    k == HunkKind::LeftChange || k == HunkKind::RightChange || k == HunkKind::BothSame
}

impl HunkKind {
    /// Whether the hunk is a non-conflicting change (drawn blue).
    pub fn is_blue(self) -> (r: bool)
        ensures
            r == kind_is_blue(self),
    {
        match self {
            HunkKind::LeftChange | HunkKind::RightChange | HunkKind::BothSame => true,
            _ => false,
        }
    }

    /// Whether the hunk is a conflict (drawn red).
    pub fn is_conflict(self) -> (r: bool)
        ensures
            r == (self == HunkKind::Conflict),
    {
        match self {
            HunkKind::Conflict => true,
            _ => false,
        }
    }

    /// Whether the user can act on the hunk (everything but `Unchanged`).
    pub fn is_actionable(self) -> (r: bool)
        ensures
            r == (self != HunkKind::Unchanged),
    {
        match self {
            HunkKind::Unchanged => false,
            _ => true,
        }
    }
}

} // verus!
