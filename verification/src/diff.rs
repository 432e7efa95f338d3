//! The values a unified diff parses into, and their mathematical models.
use vstd::prelude::*;

verus! {

/// A parsed unified diff: one entry per file patch, in input order.
#[derive(Clone, Debug, PartialEq, Eq)]
pub struct UnifiedDiff {
    pub files: Vec<FilePatch>,
}

/// The changes to one file: the header lines before `---`, the two paths and the hunks.
#[derive(Clone, Debug, PartialEq, Eq)]
pub struct FilePatch {
    pub metadata: Vec<String>,
    pub old: String,
    pub new: String,
    pub hunks: Vec<Hunk>,
}

/// One `@@ -a,b +c,d @@ section` block and the lines under it.
#[derive(Clone, Debug, PartialEq, Eq)]
pub struct Hunk {
    pub old: LineRange,
    pub new: LineRange,
    pub section: Option<String>,
    pub lines: Vec<HunkLine>,
}

/// The `start,count` pair of a hunk header; a missing count is 1.
#[derive(Clone, Copy, Debug, PartialEq, Eq)]
pub struct LineRange {
    pub start: usize,
    pub count: usize,
}

/// One line of a hunk body, without its marker character and line ending.
#[derive(Clone, Debug, PartialEq, Eq)]
pub enum HunkLine {
    Context(String),
    Add(String),
    Remove(String),
    NoNewlineAtEndOfFile,
}

/// Model of a [`HunkLine`]: the text as a sequence of characters.
pub enum HunkLineModel {
    Context(Seq<char>),
    Add(Seq<char>),
    Remove(Seq<char>),
    NoNewlineAtEndOfFile,
}

/// Model of a [`Hunk`].
pub struct HunkModel {
    pub old: LineRange,
    pub new: LineRange,
    pub section: Option<Seq<char>>,
    pub lines: Seq<HunkLineModel>,
}

/// Model of a [`FilePatch`].
pub struct FilePatchModel {
    pub metadata: Seq<Seq<char>>,
    pub old: Seq<char>,
    pub new: Seq<char>,
    pub hunks: Seq<HunkModel>,
}

/// Model of a [`UnifiedDiff`].
pub struct DiffModel {
    pub files: Seq<FilePatchModel>,
}

impl View for HunkLine {
    type V = HunkLineModel;

    open spec fn view(&self) -> HunkLineModel {
        match self {
            HunkLine::Context(t) => HunkLineModel::Context(t@),
            HunkLine::Add(t) => HunkLineModel::Add(t@),
            HunkLine::Remove(t) => HunkLineModel::Remove(t@),
            HunkLine::NoNewlineAtEndOfFile => HunkLineModel::NoNewlineAtEndOfFile,
        }
    }
}

pub open spec fn option_text_view(t: Option<String>) -> Option<Seq<char>> {
    match t {
        Some(t) => Some(t@),
        None => None,
    }
}

pub open spec fn lines_view(lines: Seq<HunkLine>) -> Seq<HunkLineModel> {
    lines.map_values(|l: HunkLine| l@)
}

impl View for Hunk {
    type V = HunkModel;

    open spec fn view(&self) -> HunkModel {
        HunkModel {
            old: self.old,
            new: self.new,
            section: option_text_view(self.section),
            lines: lines_view(self.lines@),
        }
    }
}

pub open spec fn texts_view(texts: Seq<String>) -> Seq<Seq<char>> {
    texts.map_values(|t: String| t@)
}

pub open spec fn hunks_view(hunks: Seq<Hunk>) -> Seq<HunkModel> {
    hunks.map_values(|h: Hunk| h@)
}

impl View for FilePatch {
    type V = FilePatchModel;

    open spec fn view(&self) -> FilePatchModel {
        FilePatchModel {
            metadata: texts_view(self.metadata@),
            old: self.old@,
            new: self.new@,
            hunks: hunks_view(self.hunks@),
        }
    }
}

pub open spec fn files_view(files: Seq<FilePatch>) -> Seq<FilePatchModel> {
    files.map_values(|f: FilePatch| f@)
}

impl View for UnifiedDiff {
    type V = DiffModel;

    open spec fn view(&self) -> DiffModel {
        DiffModel { files: files_view(self.files@) }
    }
}

} // verus!
