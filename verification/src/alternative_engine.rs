//! The alternative engine, an external bypass program: where it is looked
//! for, the command line it is started with, and how its start is judged.

use crate::text::{push_signed_decimal, same_chars, signed_decimal, str_chars, strings_are};
use vstd::prelude::*;

verus! {

/// Why the alternative engine could not be started.
#[derive(Debug)]
pub enum AlternativeEngineError {
    ExecutableNotFound,
    SpawnFailed(std::io::Error),
    ExitedImmediately(Option<i32>),
}

/// How `{:?}` shows an optional exit code.
pub open spec fn debug_exit_code(code: Option<i32>) -> Seq<char> {
    match code {
        Some(c) => "Some("@ + signed_decimal(c as int) + ")"@,
        None => "None"@,
    }
}

impl AlternativeEngineError {
    /// The message shown for the error, with `io_text` the text of the I/O
    /// error of a `SpawnFailed`.
    pub open spec fn spec_message(&self, io_text: Seq<char>) -> Seq<char> {
        match self {
            AlternativeEngineError::ExecutableNotFound => "SxDPI Alternative executable not found. Put sxdpialternative.exe under x86_64/ or x86/ next to SxDPI."@,
            AlternativeEngineError::SpawnFailed(_) => "SxDPI Alternative could not be started: "@ + io_text,
            AlternativeEngineError::ExitedImmediately(code) => "SxDPI Alternative exited immediately with code "@
                + debug_exit_code(*code) + ". It may need administrator privileges."@,
        }
    }

    /// The message shown for the error.
    pub fn message(&self) -> (r: String)
        ensures
            self is SpawnFailed ==> exists|io_text: Seq<char>| r@ == self.spec_message(io_text),
            !(self is SpawnFailed) ==> r@ == self.spec_message(Seq::empty()),
    {
        match self {
            AlternativeEngineError::ExecutableNotFound => String::from_str(
                "SxDPI Alternative executable not found. Put sxdpialternative.exe under x86_64/ or x86/ next to SxDPI.",
            ),
            AlternativeEngineError::SpawnFailed(e) => {
                let t = crate::dpi_engine::io_error_text(e);
                let mut r = String::from_str("SxDPI Alternative could not be started: ");
                r.append(t.as_str());
                assert(r@ == self.spec_message(t@));
                r
            },
            AlternativeEngineError::ExitedImmediately(code) => {
                let mut r = String::from_str("SxDPI Alternative exited immediately with code ");
                match code {
                    Some(c) => {
                        r.append("Some(");
                        push_signed_decimal(&mut r, *c as i64);
                        r.append(")");
                    },
                    None => {
                        r.append("None");
                    },
                }
                r.append(". It may need administrator privileges.");
                r
            },
        }
    }
}

/// The file name of the alternative engine's executable.
pub open spec fn spec_exe_name() -> Seq<char> {
    "sxdpialternative.exe"@
}

/// The file name of the alternative engine's executable.
pub fn exe_name() -> (r: String)
    ensures
        r@ == spec_exe_name(),
{
    String::from_str("sxdpialternative.exe")
}

fn strings(parts: &[&str]) -> (v: Vec<String>)
    ensures
        v@.len() == parts@.len(),
        forall|i: int| 0 <= i < parts@.len() ==> #[trigger] v@[i]@ == parts@[i]@,
{
    let mut v: Vec<String> = Vec::new();
    let mut i: usize = 0;
    while i < parts.len()
        invariant
            i <= parts@.len(),
            v@.len() == i,
            forall|j: int| 0 <= j < i ==> #[trigger] v@[j]@ == parts@[j]@,
        decreases parts@.len() - i,
    {
        v.push(String::from_str(parts[i]));
        i = i + 1;
    }
    v
}

/// The command line the alternative engine is started with: mode 5, TTL 5
/// for fake packets, and Yandex DNS on port 1253 for IPv4 and IPv6.
pub fn alternative_arguments() -> (args: Vec<String>)
    ensures
        strings_are(
            args@,
            seq![
                "-5"@,
                "--set-ttl"@,
                "5"@,
                "--dns-addr"@,
                "77.88.8.8"@,
                "--dns-port"@,
                "1253"@,
                "--dnsv6-addr"@,
                "2a02:6b8::feed:0ff"@,
                "--dnsv6-port"@,
                "1253"@,
            ],
        ),
{
    let parts: [&str; 11] = [
        "-5",
        "--set-ttl",
        "5",
        "--dns-addr",
        "77.88.8.8",
        "--dns-port",
        "1253",
        "--dnsv6-addr",
        "2a02:6b8::feed:0ff",
        "--dnsv6-port",
        "1253",
    ];
    let v = strings(parts.as_slice());
    assert(v@.len() == 11);
    v
}

/// Where the executable is looked for under each search root, in order, as
/// path components: x86_64/, x86/, resources/x86_64/, resources/x86/,
/// resources/, and the root itself.
pub fn candidate_paths() -> (paths: Vec<Vec<String>>)
    ensures
        paths@.len() == 6,
        strings_are(paths@[0]@, seq!["x86_64"@, spec_exe_name()]),
        strings_are(paths@[1]@, seq!["x86"@, spec_exe_name()]),
        strings_are(paths@[2]@, seq!["resources"@, "x86_64"@, spec_exe_name()]),
        strings_are(paths@[3]@, seq!["resources"@, "x86"@, spec_exe_name()]),
        strings_are(paths@[4]@, seq!["resources"@, spec_exe_name()]),
        strings_are(paths@[5]@, seq![spec_exe_name()]),
{
    let mut paths: Vec<Vec<String>> = Vec::new();
    let p0: [&str; 2] = ["x86_64", "sxdpialternative.exe"];
    let p1: [&str; 2] = ["x86", "sxdpialternative.exe"];
    let p2: [&str; 3] = ["resources", "x86_64", "sxdpialternative.exe"];
    let p3: [&str; 3] = ["resources", "x86", "sxdpialternative.exe"];
    let p4: [&str; 2] = ["resources", "sxdpialternative.exe"];
    let p5: [&str; 1] = ["sxdpialternative.exe"];
    paths.push(strings(p0.as_slice()));
    paths.push(strings(p1.as_slice()));
    paths.push(strings(p2.as_slice()));
    paths.push(strings(p3.as_slice()));
    paths.push(strings(p4.as_slice()));
    paths.push(strings(p5.as_slice()));
    paths
}

// ─── Search roots ──────────────────────────────────────────────────────────

/// A path as its components, the first of them holding everything up to and
/// including the root ("/" or "C:\\").
pub open spec fn path_view(p: Seq<String>) -> Seq<Seq<char>> {
    Seq::new(p.len(), |i: int| p[i]@)
}

/// The paths of `v`, each as its components.
pub open spec fn paths_view(v: Seq<Vec<String>>) -> Seq<Seq<Seq<char>>> {
    Seq::new(v.len(), |i: int| path_view(v[i]@))
}

pub open spec fn opt_path_view(d: Option<Vec<String>>) -> Option<Seq<Seq<char>>> {
    match d {
        Some(p) => Some(path_view(p@)),
        None => None,
    }
}

/// The parent of the directory `d`: `d` without its last component, when
/// that leaves a path; a root has none.
pub open spec fn parent_path(d: Seq<Seq<char>>) -> Option<Seq<Seq<char>>> {
    if d.len() >= 2 {
        Some(d.drop_last())
    } else {
        None
    }
}

/// A directory, when there is one, followed by its parent, when it has one.
pub open spec fn dir_and_parent(d: Option<Seq<Seq<char>>>) -> Seq<Seq<Seq<char>>> {
    match d {
        None => seq![],
        Some(d) => seq![d] + match parent_path(d) {
            Some(p) => seq![p],
            None => seq![],
        },
    }
}

/// `acc` followed by the elements of `xs` that are not already there, in
/// order, each once.
pub open spec fn add_new(acc: Seq<Seq<Seq<char>>>, xs: Seq<Seq<Seq<char>>>) -> Seq<Seq<Seq<char>>>
    decreases xs.len(),
{
    if xs.len() == 0 {
        acc
    } else {
        let a = add_new(acc, xs.drop_last());
        if a.contains(xs.last()) {
            a
        } else {
            a.push(xs.last())
        }
    }
}

/// The directories searched for the executable, in order: the executable's
/// directory, the working directory and the build directory, each followed
/// by its parent, with each directory kept at its first occurrence.
pub open spec fn spec_search_roots(
    exe_dir: Option<Seq<Seq<char>>>,
    cwd: Option<Seq<Seq<char>>>,
    manifest_dir: Option<Seq<Seq<char>>>,
) -> Seq<Seq<Seq<char>>> {
    add_new(add_new(add_new(seq![], dir_and_parent(exe_dir)), dir_and_parent(cwd)), dir_and_parent(manifest_dir))
}

fn same_path(a: &Vec<String>, b: &Vec<String>) -> (r: bool)
    ensures
        r == (path_view(a@) == path_view(b@)),
{
    if a.len() != b.len() {
        assert(path_view(a@).len() != path_view(b@).len());
        return false;
    }
    let mut i: usize = 0;
    while i < a.len()
        invariant
            a@.len() == b@.len(),
            i <= a@.len(),
            forall|j: int| 0 <= j < i ==> a@[j]@ == b@[j]@,
        decreases a@.len() - i,
    {
        let x = str_chars(a[i].as_str());
        let y = str_chars(b[i].as_str());
        if !same_chars(&x, &y) {
            assert(path_view(a@)[i as int] != path_view(b@)[i as int]);
            return false;
        }
        i = i + 1;
    }
    assert(path_view(a@) =~= path_view(b@));
    true
}

/// The first `n` components of `p`, copied.
fn path_prefix(p: &Vec<String>, n: usize) -> (r: Vec<String>)
    requires
        n <= p@.len(),
    ensures
        path_view(r@) == path_view(p@).take(n as int),
{
    let mut r: Vec<String> = Vec::new();
    let mut i: usize = 0;
    while i < n
        invariant
            n <= p@.len(),
            i <= n,
            r@.len() == i,
            forall|j: int| 0 <= j < i ==> #[trigger] r@[j]@ == p@[j]@,
        decreases n - i,
    {
        r.push(String::from_str(p[i].as_str()));
        i = i + 1;
    }
    assert(path_view(r@) =~= path_view(p@).take(n as int));
    r
}

fn push_new_path(roots: &mut Vec<Vec<String>>, p: Vec<String>)
    ensures
        paths_view(final(roots)@) == (if paths_view(old(roots)@).contains(path_view(p@)) {
            paths_view(old(roots)@)
        } else {
            paths_view(old(roots)@).push(path_view(p@))
        }),
{
    let mut i: usize = 0;
    while i < roots.len()
        invariant
            i <= roots@.len(),
            roots@ == old(roots)@,
            forall|j: int| 0 <= j < i ==> paths_view(roots@)[j] != path_view(p@),
        decreases roots@.len() - i,
    {
        if same_path(&roots[i], &p) {
            assert(paths_view(roots@)[i as int] == path_view(p@));
            return;
        }
        i = i + 1;
    }
    let ghost pv = path_view(p@);
    roots.push(p);
    assert(paths_view(final(roots)@) =~= paths_view(old(roots)@).push(pv));
}

fn add_dir(roots: &mut Vec<Vec<String>>, p: Vec<String>)
    ensures
        paths_view(final(roots)@) == add_new(paths_view(old(roots)@), dir_and_parent(Some(path_view(p@)))),
{
    let ghost pv = path_view(p@);
    let ghost acc = paths_view(roots@);
    assert(add_new(acc, Seq::<Seq<Seq<char>>>::empty()) == acc);
    let n = p.len();
    let parent = if n >= 2 {
        Some(path_prefix(&p, n - 1))
    } else {
        None
    };
    push_new_path(roots, p);
    assert(seq![pv].drop_last() =~= Seq::<Seq<Seq<char>>>::empty());
    let ghost mid = paths_view(roots@);
    assert(add_new(acc, seq![pv]) == mid);
    match parent {
        None => {
            assert(dir_and_parent(Some(pv)) =~= seq![pv]);
        },
        Some(q) => {
            assert(path_view(q@) == pv.drop_last());
            assert(dir_and_parent(Some(pv)) =~= seq![pv, pv.drop_last()]);
            assert(seq![pv, pv.drop_last()].drop_last() =~= seq![pv]);
            push_new_path(roots, q);
        },
    }
}

fn add_known_dir(roots: &mut Vec<Vec<String>>, d: Option<Vec<String>>)
    ensures
        paths_view(final(roots)@) == add_new(paths_view(old(roots)@), dir_and_parent(opt_path_view(d))),
{
    if let Some(p) = d {
        add_dir(roots, p);
    } else {
        assert(dir_and_parent(opt_path_view(d)) =~= Seq::<Seq<Seq<char>>>::empty());
    }
}

/// The directories searched for the executable, given the executable's
/// directory, the working directory and the build directory where they are
/// known, each as its components.
pub fn search_roots(
    exe_dir: Option<Vec<String>>,
    cwd: Option<Vec<String>>,
    manifest_dir: Option<Vec<String>>,
) -> (r: Vec<Vec<String>>)
    ensures
        paths_view(r@) == spec_search_roots(
            opt_path_view(exe_dir),
            opt_path_view(cwd),
            opt_path_view(manifest_dir),
        ),
{
    let mut roots: Vec<Vec<String>> = Vec::new();
    assert(paths_view(roots@) =~= Seq::<Seq<Seq<char>>>::empty());
    add_known_dir(&mut roots, exe_dir);
    add_known_dir(&mut roots, cwd);
    add_known_dir(&mut roots, manifest_dir);
    roots
}

/// The paths tried for the executable, in the order they are tried: under
/// each root in turn, each candidate in turn.
pub open spec fn spec_search_paths(roots: Seq<Seq<Seq<char>>>, candidates: Seq<Seq<Seq<char>>>) -> Seq<
    Seq<Seq<char>>,
>
    decreases roots.len(),
{
    if roots.len() == 0 {
        seq![]
    } else {
        spec_search_paths(roots.drop_last(), candidates) + Seq::new(
            candidates.len(),
            |j: int| roots.last() + candidates[j],
        )
    }
}

/// `root` followed by `rest`, copied.
fn join_path(root: &Vec<String>, rest: &Vec<String>) -> (r: Vec<String>)
    ensures
        path_view(r@) == path_view(root@) + path_view(rest@),
{
    let mut r = path_prefix(root, root.len());
    assert(path_view(root@).take(root@.len() as int) =~= path_view(root@));
    let mut i: usize = 0;
    while i < rest.len()
        invariant
            i <= rest@.len(),
            path_view(r@) == path_view(root@) + path_view(rest@).take(i as int),
        decreases rest@.len() - i,
    {
        let ghost before = r@;
        r.push(String::from_str(rest[i].as_str()));
        assert(path_view(r@) =~= path_view(before).push(rest@[i as int]@));
        assert(path_view(rest@).take(i + 1) =~= path_view(rest@).take(i as int).push(rest@[i as int]@));
        i = i + 1;
    }
    assert(path_view(rest@).take(rest@.len() as int) =~= path_view(rest@));
    r
}

/// The paths tried for the executable: each candidate under each root.
pub fn search_paths(roots: &Vec<Vec<String>>, candidates: &Vec<Vec<String>>) -> (r: Vec<Vec<String>>)
    ensures
        paths_view(r@) == spec_search_paths(paths_view(roots@), paths_view(candidates@)),
{
    let ghost cs = paths_view(candidates@);
    let mut r: Vec<Vec<String>> = Vec::new();
    let mut i: usize = 0;
    while i < roots.len()
        invariant
            i <= roots@.len(),
            cs == paths_view(candidates@),
            paths_view(r@) == spec_search_paths(paths_view(roots@).take(i as int), cs),
        decreases roots@.len() - i,
    {
        let ghost start = paths_view(r@);
        let ghost root = path_view(roots@[i as int]@);
        let mut j: usize = 0;
        while j < candidates.len()
            invariant
                i < roots@.len(),
                j <= candidates@.len(),
                cs == paths_view(candidates@),
                root == path_view(roots@[i as int]@),
                paths_view(r@) == start + Seq::new(j as nat, |k: int| root + cs[k]),
            decreases candidates@.len() - j,
        {
            let p = join_path(&roots[i], &candidates[j]);
            let ghost before = paths_view(r@);
            r.push(p);
            assert(paths_view(r@) =~= before.push(root + cs[j as int]));
            assert(Seq::new((j + 1) as nat, |k: int| root + cs[k]) =~= Seq::new(j as nat, |k: int| root + cs[k]).push(
                root + cs[j as int],
            ));
            j = j + 1;
        }
        assert(paths_view(roots@).take(i + 1).drop_last() =~= paths_view(roots@).take(i as int));
        assert(paths_view(roots@).take(i + 1).last() == root);
        assert(Seq::new(j as nat, |k: int| root + cs[k]) =~= Seq::new(cs.len(), |k: int| root + cs[k]));
        i = i + 1;
    }
    assert(paths_view(roots@).take(roots@.len() as int) =~= paths_view(roots@));
    r
}

/// Whether the start succeeded, from the exit status seen shortly after the
/// process was spawned: `None` while it still runs; `Some(code)` once it
/// exited, with its exit code if it had one, which is `ExitedImmediately`.
pub fn startup_outcome(exit_status: Option<Option<i32>>) -> (r: Result<(), AlternativeEngineError>)
    ensures
        match exit_status {
            None => r is Ok,
            Some(code) => r matches Err(AlternativeEngineError::ExitedImmediately(c)) && c == code,
        },
{
    match exit_status {
        None => Ok(()),
        Some(code) => Err(AlternativeEngineError::ExitedImmediately(code)),
    }
}

} // verus!
