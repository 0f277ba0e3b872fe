//! Which repository to open, from the command line.
use vstd::prelude::*;
use crate::text::starts_with;

verus! {

/// `p` joined onto `base` as a path with `/` as the separator, as on Unix:
/// an absolute `p` replaces `base`; otherwise a separator is put between
/// them unless `base` is empty or already ends with one.
pub open spec fn join_path(base: Seq<char>, p: Seq<char>) -> Seq<char> {
    if p.len() > 0 && p[0] == '/' {
        p
    } else if base.len() > 0 && base.last() != '/' {
        base + seq!['/'] + p
    } else {
        base + p
    }
}

/// The first index from `i` on at which `args` holds `--repo`, or the
/// number of arguments when none does.
pub open spec fn find_repo_flag(args: Seq<Seq<char>>, i: int) -> int
    decreases args.len() - i,
{
    if i >= args.len() {
        args.len() as int
    } else if args[i] == "--repo"@ {
        i
    } else {
        find_repo_flag(args, i + 1)
    }
}

/// The first index from `i` on of an argument that does not start with
/// `-`, or the number of arguments when there is none.
pub open spec fn find_positional(args: Seq<Seq<char>>, i: int) -> int
    decreases args.len() - i,
{
    if i >= args.len() {
        args.len() as int
    } else if !(args[i].len() > 0 && args[i][0] == '-') {
        i
    } else {
        find_positional(args, i + 1)
    }
}

/// The repository path for the command line `args` (the program name
/// first) and the working directory `cwd`: the argument after the first
/// `--repo`, when there is one; else the first argument after the program
/// name that does not start with `-`; else `cwd`. A relative path is joined
/// onto `cwd`.
pub open spec fn resolve_repo_path_spec(args: Seq<Seq<char>>, cwd: Seq<char>) -> Seq<char> {
    let f = find_repo_flag(args, 1);
    let q = find_positional(args, 1);
    if f + 1 < args.len() {
        join_path(cwd, args[f + 1])
    } else if q < args.len() {
        join_path(cwd, args[q])
    } else {
        cwd
    }
}

proof fn lemma_find_repo_flag(args: Seq<Seq<char>>, a: int, i: int)
    requires
        0 <= a <= i <= args.len(),
        forall|k: int| a <= k < i ==> (#[trigger] args[k]) != "--repo"@,
        i == args.len() || args[i] == "--repo"@,
    ensures
        find_repo_flag(args, a) == i,
    decreases i - a,
{
    if a < i {
        lemma_find_repo_flag(args, a + 1, i);
    }
}

proof fn lemma_find_positional(args: Seq<Seq<char>>, a: int, i: int)
    requires
        0 <= a <= i <= args.len(),
        forall|k: int| a <= k < i ==> (#[trigger] args[k]).len() > 0 && args[k][0] == '-',
        i == args.len() || !(args[i].len() > 0 && args[i][0] == '-'),
    ensures
        find_positional(args, a) == i,
    decreases i - a,
{
    if a < i {
        lemma_find_positional(args, a + 1, i);
    }
}

fn absolutize(path: &str, cwd: &str) -> (r: String)
    ensures
        r@ == join_path(cwd@, path@),
{
    let n = path.unicode_len();
    if n > 0 && path.get_char(0) == '/' {
        return path.to_owned();
    }
    let m = cwd.unicode_len();
    let mut out = cwd.to_owned();
    if m > 0 && cwd.get_char(m - 1) != '/' {
        let sep = "/";
        proof {
            reveal_strlit("/");
        }
        out.append(sep);
    }
    out.append(path);
    out
}

fn first_repo_flag(args: &[String]) -> (k: usize)
    ensures
        k == find_repo_flag(args.deep_view(), 1) || (args@.len() == 0 && k == 0),
        k <= args@.len(),
{
    let ghost all = args.deep_view();
    let flag = String::from_str("--repo");
    proof {
        reveal_strlit("--repo");
    }
    let n = args.len();
    if n == 0 {
        return 0;
    }
    let mut i: usize = 1;
    while i < n
        invariant
            all == args.deep_view(),
            n == all.len(),
            1 <= i <= n,
            flag@ == "--repo"@,
            forall|k: int| 1 <= k < i ==> (#[trigger] all[k]) != "--repo"@,
        decreases n - i,
    {
        assert(args@[i as int]@ == all[i as int]);
        if args[i] == flag {
            proof {
                lemma_find_repo_flag(all, 1, i as int);
            }
            return i;
        }
        i += 1;
    }
    proof {
        lemma_find_repo_flag(all, 1, n as int);
    }
    n
}

fn first_positional(args: &[String]) -> (k: usize)
    ensures
        k == find_positional(args.deep_view(), 1) || (args@.len() == 0 && k == 0),
        k <= args@.len(),
{
    let ghost all = args.deep_view();
    let dash = "-";
    proof {
        reveal_strlit("-");
    }
    let n = args.len();
    if n == 0 {
        return 0;
    }
    let mut i: usize = 1;
    while i < n
        invariant
            all == args.deep_view(),
            n == all.len(),
            1 <= i <= n,
            dash@ == seq!['-'],
            forall|k: int| 1 <= k < i ==> (#[trigger] all[k]).len() > 0 && all[k][0] == '-',
        decreases n - i,
    {
        let a = args[i].as_str();
        assert(a@ == all[i as int]);
        if !starts_with(a, dash) {
            proof {
                if a@.len() > 0 && a@[0] == '-' {
                    assert(a@.take(1) =~= seq!['-']);
                }
                lemma_find_positional(all, 1, i as int);
            }
            return i;
        }
        assert(a@.take(1)[0] == '-');
        i += 1;
    }
    proof {
        lemma_find_positional(all, 1, n as int);
    }
    n
}

/// Resolve the git repository to open from the command-line arguments
/// (the program name first) and the working directory `cwd`:
///
/// - `g3` → `cwd`
/// - `g3 /path/to/repo` → that path (relative paths are joined to `cwd`)
/// - `g3 --repo <path>` → that path
pub fn resolve_repo_path(args: &[String], cwd: &str) -> (r: String)
    ensures
        r@ == resolve_repo_path_spec(args.deep_view(), cwd@),
{
    let ghost all = args.deep_view();
    let n = args.len();
    let f = first_repo_flag(args);
    if f < n && f + 1 < n {
        assert(args@[f + 1]@ == all[f + 1]);
        return absolutize(args[f + 1].as_str(), cwd);
    }
    let q = first_positional(args);
    if q < n {
        assert(args@[q as int]@ == all[q as int]);
        return absolutize(args[q].as_str(), cwd);
    }
    cwd.to_owned()
}

} // verus!
