# g3

The merge engine of a desktop three-way merge editor for git conflicts,
verified with Verus.

- `src/` — the verified library:
  - `text` — line and character helpers, each with the sequence function
    that states it;
  - `diff` — line diffs of two line sequences, from `similar`'s Myers
    script on the lines themselves; its laws (the equal and deleted lines
    give back the old side, the equal and inserted lines the new side, and
    within each changed run the deletions come first);
  - `merge3` — the three-way hunk builder: spans of changes from the two
    sides' edit scripts against the base (a replacement that brings more
    lines than it takes has the extra lines split off as an insertion before
    it), classified as unchanged, a change of one side, the same change on
    both, or a conflict; its laws (the spans are the groups of changes
    connected by overlaps and are unique, the hunks cover the base in order,
    the left lines of the hunks are the ours side and the right lines the
    theirs side, each hunk's lines agree with its kind, a change of one side
    differs from the base on that side, ids go to actionable hunks in order,
    a side equal to the base never conflicts);
  - `conflict` — the parser of conflict markers, with its fallback; its laws
    (well-formed markers parse without loss but for marker labels, regions
    are never empty merged runs side by side);
  - `document` — the document for the editor, from index stages or from
    markers, with counts and a content hash (FNV-1a, lowercase hex);
  - `git` — the rules applied to what the index holds (conflicted paths,
    side statuses, binary detection, stage texts, side labels from the
    current branch and the branch being merged in, safe paths);
  - `cli` — which repository to open from the command line.
- `app/` — the unverified shell: git2 access to the repository, writing
  resolutions, the editor's commands and the JSON shapes they exchange.
- `tests/` — tests of the library.
