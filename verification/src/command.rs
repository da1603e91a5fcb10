//! The arguments with which `make` is called.

use crate::graph::TargetName;
use vstd::prelude::*;

verus! {

/// The arguments that name the build file: `-f` and the path, or nothing
/// where no path is given.
pub open spec fn file_args(path: Option<Seq<char>>) -> Seq<Seq<char>> {
    match path {
        Some(path) => seq!["-f"@, path],
        None => Seq::empty(),
    }
}

/// For each dependency, in order, `-o` and its name: the dependency is to
/// be taken as up to date.
pub open spec fn hint_args(deps: Seq<Seq<char>>) -> Seq<Seq<char>> {
    Seq::new(
        2 * deps.len(),
        |k: int|
            if k % 2 == 0 {
                "-o"@
            } else {
                deps[k / 2]
            },
    )
}

/// The arguments of the call that builds one target and nothing else.
pub open spec fn target_args_of(
    path: Option<Seq<char>>,
    target: Seq<char>,
    deps: Seq<Seq<char>>,
) -> Seq<Seq<char>> {
    file_args(path) + seq![target] + hint_args(deps) + seq!["--"@]
}

/// The arguments of the call that prints the rule database and builds nothing.
pub open spec fn database_args_of(path: Option<Seq<char>>) -> Seq<Seq<char>> {
    seq!["-pRrq"@] + file_args(path)
}

/// A path that may be missing, as its characters.
pub open spec fn path_view(path: Option<String>) -> Option<Seq<char>> {
    match path {
        Some(path) => Some(path@),
        None => None,
    }
}

/// The arguments that name the build file.
pub fn make_args(makefile_path_str: &Option<String>) -> (args: Vec<String>)
    ensures
        args.deep_view() == file_args(path_view(*makefile_path_str)),
{
    let mut args: Vec<String> = Vec::new();
    if let Some(makefile_path_str) = makefile_path_str {
        args.push("-f".to_owned());
        args.push(makefile_path_str.clone());
    }
    assert(args.deep_view() =~= file_args(path_view(*makefile_path_str)));
    args
}

/// The arguments of the call that prints the rule database and builds nothing.
pub fn database_args(makefile_path_str: &Option<String>) -> (args: Vec<String>)
    ensures
        args.deep_view() == database_args_of(path_view(*makefile_path_str)),
{
    let mut args: Vec<String> = Vec::new();
    args.push("-pRrq".to_owned());
    if let Some(makefile_path_str) = makefile_path_str {
        args.push("-f".to_owned());
        args.push(makefile_path_str.clone());
    }
    assert(args.deep_view() =~= database_args_of(path_view(*makefile_path_str)));
    args
}

/// The arguments of the call that builds `target` alone: the build file,
/// the target, each dependency marked as up to date, and `--`.
pub fn target_args(
    makefile_path_str: &Option<String>,
    target: &TargetName,
    dependencies: &Vec<TargetName>,
) -> (args: Vec<String>)
    ensures
        args.deep_view() == target_args_of(
            path_view(*makefile_path_str),
            target@,
            dependencies.deep_view(),
        ),
{
    let ghost head = file_args(path_view(*makefile_path_str)) + seq![target@];
    let ghost deps = dependencies.deep_view();
    let mut args = make_args(makefile_path_str);
    let ghost before = args.deep_view();
    args.push(target.clone());
    assert(args.deep_view() =~= before.push(target@));
    let mut i: usize = 0;
    assert(args.deep_view() =~= head + hint_args(deps.take(0)));
    while i < dependencies.len()
        invariant
            i <= dependencies.len(),
            deps == dependencies.deep_view(),
            args.deep_view() == head + hint_args(deps.take(i as int)),
        decreases dependencies.len() - i,
    {
        let ghost so_far = args.deep_view();
        args.push("-o".to_owned());
        args.push(dependencies[i].clone());
        proof {
            let want = head + hint_args(deps.take(i + 1));
            let got = args.deep_view();
            assert(got =~= so_far.push("-o"@).push(dependencies[i as int]@));
            assert(deps.take(i + 1).len() == i + 1);
            assert(got.len() == want.len());
            assert forall|k: int| 0 <= k < got.len() implies got[k] == want[k] by {
                if k < so_far.len() {
                    assert(got[k] == so_far[k]);
                    if k >= head.len() {
                        let h = k - head.len();
                        assert(hint_args(deps.take(i as int))[h] == hint_args(
                            deps.take(i + 1),
                        )[h]);
                    }
                } else {
                    let h = k - head.len();
                    assert(h == 2 * i || h == 2 * i + 1);
                    assert(deps.take(i + 1)[i as int] == dependencies[i as int]@);
                }
            }
            assert(got =~= want);
        }
        i += 1;
    }
    assert(deps.take(i as int) =~= deps);
    let ghost so_far = args.deep_view();
    args.push("--".to_owned());
    assert(args.deep_view() =~= so_far.push("--"@));
    args
}

/// The exit code of a run that finds no build file: 1, but 0 where only
/// the list of targets was asked for, so that completing a command line
/// never fails.
pub fn missing_makefile_exit_code(print_completion_targets: bool) -> (code: i32)
    ensures
        code == if print_completion_targets {
            0i32
        } else {
            1i32
        },
{
    if print_completion_targets {
        0
    } else {
        1
    }
}

} // verus!
