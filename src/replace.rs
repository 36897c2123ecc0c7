//! What installation does to the files under the home directory.
//!
//! Files are a map from path to contents. A replace-install at `dest`
//! removes everything inside `dest` and puts the new files there, so a
//! reinstall never leaves stale files behind.
use vstd::prelude::*;
use crate::install::{
    component_dest, detected_components, if_present, planned_steps, present, step_for, Component,
    StepView,
};

verus! {

/// Files by path.
pub type Files = Map<Seq<char>, Seq<u8>>;

/// No file has the empty path.
pub open spec fn well_formed(f: Files) -> bool {
    forall|p: Seq<char>| #[trigger] f.contains_key(p) ==> p.len() > 0
}

/// `p` names something inside the directory `dir`.
pub open spec fn inside(p: Seq<char>, dir: Seq<char>) -> bool {
    p.len() > dir.len() + 1 && p.subrange(0, dir.len() as int) == dir && p[dir.len() as int] == '/'
}

/// The path of `p` relative to `dir`.
pub open spec fn rel(p: Seq<char>, dir: Seq<char>) -> Seq<char> {
    p.subrange(dir.len() + 1int, p.len() as int)
}

/// `home` after replace-installing the files `src` at `dest`.
pub open spec fn replace_at(home: Files, dest: Seq<char>, src: Files) -> Files {
    Map::new(
        |p: Seq<char>|
            if inside(p, dest) {
                src.contains_key(rel(p, dest))
            } else {
                home.contains_key(p)
            },
        |p: Seq<char>|
            if inside(p, dest) {
                src[rel(p, dest)]
            } else {
                home[p]
            },
    )
}

/// What `home` holds inside `dir`, by path relative to `dir`.
pub open spec fn files_in(home: Files, dir: Seq<char>) -> Files {
    Map::new(
        |r: Seq<char>| r.len() > 0 && home.contains_key(dir + "/"@ + r),
        |r: Seq<char>| home[dir + "/"@ + r],
    )
}

/// The files of the unpacked tree `tree` that a step copies.
pub open spec fn step_files(st: StepView, tree: Files) -> Files {
    match st.3 {
        None => tree,
        Some(only) => tree.restrict(only.to_set()),
    }
}

/// `home` after performing `steps` with the unpacked tree `tree`.
pub open spec fn apply_steps(home: Files, steps: Seq<StepView>, tree: Files) -> Files
    decreases steps.len(),
{
    if steps.len() == 0 {
        home
    } else {
        let st = steps.last();
        replace_at(apply_steps(home, steps.drop_last(), tree), st.2, step_files(st, tree))
    }
}

/// Two directories that nothing lies inside of both: they differ before
/// either ends, or the longer one does not continue the shorter with `/`.
pub open spec fn apart(a: Seq<char>, b: Seq<char>) -> bool {
    ||| exists|i: int| 0 <= i < a.len() && i < b.len() && a[i] != b[i]
    ||| a.len() < b.len() && b[a.len() as int] != '/'
    ||| b.len() < a.len() && a[b.len() as int] != '/'
}

proof fn lemma_slash_path(dir: Seq<char>, r: Seq<char>)
    requires
        r.len() > 0,
    ensures
        inside(dir + "/"@ + r, dir),
        rel(dir + "/"@ + r, dir) == r,
{
    reveal_strlit("/");
    let p = dir + "/"@ + r;
    assert(p.subrange(0, dir.len() as int) =~= dir);
    assert(p[dir.len() as int] == '/');
    assert(rel(p, dir) =~= r);
}

/// A replace-install at `dest` leaves exactly `src` inside `dest`.
proof fn lemma_replace_fills(home: Files, dest: Seq<char>, src: Files)
    requires
        well_formed(src),
    ensures
        files_in(replace_at(home, dest, src), dest) == src,
{
    let h = replace_at(home, dest, src);
    assert forall|r: Seq<char>| #[trigger] files_in(h, dest).contains_key(r) <==> src.contains_key(r) by {
        if r.len() > 0 {
            lemma_slash_path(dest, r);
        }
    }
    assert forall|r: Seq<char>| #[trigger] files_in(h, dest).contains_key(r) implies files_in(h, dest)[r]
        == src[r] by {
        lemma_slash_path(dest, r);
    }
    assert(files_in(h, dest) =~= src);
}

/// A replace-install at a directory apart from `dir` leaves `dir` alone.
proof fn lemma_replace_elsewhere(home: Files, dest: Seq<char>, src: Files, dir: Seq<char>)
    requires
        apart(dest, dir),
    ensures
        files_in(replace_at(home, dest, src), dir) == files_in(home, dir),
{
    let h = replace_at(home, dest, src);
    assert forall|r: Seq<char>| r.len() > 0 implies !inside(#[trigger] (dir + "/"@ + r), dest) by {
        let p = dir + "/"@ + r;
        lemma_slash_path(dir, r);
        if inside(p, dest) {
            if exists|i: int| 0 <= i < dest.len() && i < dir.len() && dest[i] != dir[i] {
                let i = choose|i: int| 0 <= i < dest.len() && i < dir.len() && dest[i] != dir[i];
                assert(p.subrange(0, dest.len() as int)[i] == p[i]);
                assert(p.subrange(0, dir.len() as int)[i] == p[i]);
            } else if dest.len() < dir.len() {
                assert(p.subrange(0, dir.len() as int)[dest.len() as int] == p[dest.len() as int]);
            } else if dir.len() < dest.len() {
                assert(p.subrange(0, dest.len() as int)[dir.len() as int] == p[dir.len() as int]);
            }
        }
    }
    assert(files_in(h, dir) =~= files_in(home, dir));
}

/// The order in which components are installed.
pub open spec fn rank(c: Component) -> int {
    match c {
        Component::WindowManager => 0,
        Component::Icons => 1,
        Component::Cursors => 2,
        Component::Fonts => 3,
    }
}

/// The destinations of two different components are apart.
proof fn lemma_dests_apart(c: Component, d: Component, name: Seq<char>)
    requires
        c != d,
    ensures
        apart(component_dest(c, name), component_dest(d, name)),
{
    reveal_strlit(".themes");
    reveal_strlit(".local/share/icons");
    reveal_strlit(".local/share/fonts");
    reveal_strlit("/");
    reveal_strlit("-cursors");
    let a = component_dest(c, name);
    let b = component_dest(d, name);
    if c == Component::WindowManager || d == Component::WindowManager {
        assert(a[1] != b[1]);
    } else if c == Component::Fonts || d == Component::Fonts {
        assert(a[13] != b[13]);
    } else if c == Component::Icons {
        assert(a.len() < b.len() && b[a.len() as int] == '-');
    } else {
        assert(b.len() < a.len() && a[b.len() as int] == '-');
    }
}

/// Performing steps whose destinations are all apart from `dir` leaves
/// `dir` as it was.
proof fn lemma_apply_apart(home: Files, steps: Seq<StepView>, tree: Files, dir: Seq<char>)
    requires
        forall|k: int| 0 <= k < steps.len() ==> apart((#[trigger] steps[k]).2, dir),
    ensures
        files_in(apply_steps(home, steps, tree), dir) == files_in(home, dir),
    decreases steps.len(),
{
    if steps.len() > 0 {
        let st = steps.last();
        let prev = steps.drop_last();
        assert(apart(steps[steps.len() - 1].2, dir));
        assert forall|k: int| 0 <= k < prev.len() implies apart((#[trigger] prev[k]).2, dir) by {
            assert(prev[k] == steps[k]);
        }
        lemma_apply_apart(home, prev, tree, dir);
        lemma_replace_elsewhere(apply_steps(home, prev, tree), st.2, step_files(st, tree), dir);
    }
}

/// Every component that the plan lists is present in the tree, and they
/// come in installation order.
proof fn lemma_detected_ordered(entries: Seq<String>)
    ensures
        forall|k: int|
            0 <= k < detected_components(entries).len() ==> present(
                #[trigger] detected_components(entries)[k],
                entries,
            ),
        forall|k1: int, k2: int|
            0 <= k1 < k2 < detected_components(entries).len() ==> rank(
                #[trigger] detected_components(entries)[k1],
            ) < rank(#[trigger] detected_components(entries)[k2]),
{
    let a = if_present(Component::WindowManager, entries);
    let b = if_present(Component::Icons, entries);
    let d = if_present(Component::Cursors, entries);
    let f = if_present(Component::Fonts, entries);
    let cs = detected_components(entries);
    assert(cs == a + b + d + f);
    assert forall|k: int| 0 <= k < cs.len() implies present(#[trigger] cs[k], entries) && rank(cs[k])
        == if k < a.len() {
        0int
    } else if k < a.len() + b.len() {
        1int
    } else if k < a.len() + b.len() + d.len() {
        2int
    } else {
        3int
    } by {
        if k < a.len() {
            assert(cs[k] == a[k]);
        } else if k < a.len() + b.len() {
            assert(cs[k] == b[k - a.len()]);
        } else if k < a.len() + b.len() + d.len() {
            assert(cs[k] == d[k - a.len() - b.len()]);
        } else {
            assert(cs[k] == f[k - a.len() - b.len() - d.len()]);
        }
    }
}

/// Performing `steps` leaves inside `dir` exactly the files of the last
/// step whose destination is `dir`, provided every step after it goes
/// elsewhere or copies the same files.
proof fn lemma_apply_last(home: Files, steps: Seq<StepView>, tree: Files, j: int, dir: Seq<char>)
    requires
        0 <= j < steps.len(),
        steps[j].2 == dir,
        well_formed(tree),
        forall|k: int|
            j < k < steps.len() ==> (#[trigger] steps[k]).2 == dir && step_files(steps[k], tree)
                == step_files(steps[j], tree) || apart(steps[k].2, dir),
    ensures
        files_in(apply_steps(home, steps, tree), dir) == step_files(steps[j], tree),
    decreases steps.len(),
{
    let st = steps.last();
    let prev = steps.drop_last();
    let files = step_files(st, tree);
    assert(well_formed(files)) by {
        assert forall|p: Seq<char>| #[trigger] files.contains_key(p) implies p.len() > 0 by {
            assert(tree.contains_key(p));
        }
    }
    if j == steps.len() - 1 {
        lemma_replace_fills(apply_steps(home, prev, tree), st.2, files);
    } else {
        let k = steps.len() - 1;
        assert(steps[k] == st);
        assert forall|m: int| j < m < prev.len() implies (#[trigger] prev[m]).2 == dir && step_files(
            prev[m],
            tree,
        ) == step_files(prev[j], tree) || apart(prev[m].2, dir) by {
            assert(prev[m] == steps[m]);
        }
        lemma_apply_last(home, prev, tree, j, dir);
        if st.2 == dir && files == step_files(steps[j], tree) {
            lemma_replace_fills(apply_steps(home, prev, tree), st.2, files);
        } else {
            lemma_replace_elsewhere(apply_steps(home, prev, tree), st.2, files, dir);
        }
    }
}

/// Reinstalling theme `name` from a tree whose root holds `entries` leaves,
/// at the destination of each component detected there, exactly the new
/// files, whatever any earlier install had put there.
pub proof fn lemma_reinstall_replaces(
    home: Files,
    name: Seq<char>,
    entries: Seq<String>,
    tree: Files,
    c: Component,
)
    requires
        well_formed(tree),
        present(c, entries),
    ensures
        files_in(apply_steps(home, planned_steps(name, entries), tree), component_dest(c, name))
            == step_files(step_for(c, name, entries), tree),
{
    let steps = planned_steps(name, entries);
    let a = if_present(Component::WindowManager, entries);
    let b = if_present(Component::Icons, entries);
    let d = if_present(Component::Cursors, entries);
    let cs = detected_components(entries);
    lemma_detected_ordered(entries);
    let j: int = match c {
        Component::WindowManager => 0,
        Component::Icons => a.len() as int,
        Component::Cursors => (a.len() + b.len()) as int,
        Component::Fonts => (a.len() + b.len() + d.len()) as int,
    };
    assert(cs[j] == c);
    assert forall|k: int|
        j < k < steps.len() implies (#[trigger] steps[k]).2 == component_dest(c, name) && step_files(
            steps[k],
            tree,
        ) == step_files(steps[j], tree) || apart(steps[k].2, component_dest(c, name)) by {
        assert(rank(cs[j]) < rank(cs[k]));
        assert(steps[k] == step_for(cs[k], name, entries));
        lemma_dests_apart(cs[k], c, name);
    }
    lemma_apply_last(home, steps, tree, j, component_dest(c, name));
}

/// Installing theme `name` from a tree whose root holds `entries` leaves
/// the destination of every component absent from that tree as it was:
/// an earlier install of it stays untouched.
pub proof fn lemma_absent_untouched(
    home: Files,
    name: Seq<char>,
    entries: Seq<String>,
    tree: Files,
    c: Component,
)
    requires
        !present(c, entries),
    ensures
        files_in(apply_steps(home, planned_steps(name, entries), tree), component_dest(c, name))
            == files_in(home, component_dest(c, name)),
{
    let steps = planned_steps(name, entries);
    let cs = detected_components(entries);
    lemma_detected_ordered(entries);
    assert forall|k: int| 0 <= k < steps.len() implies apart(
        (#[trigger] steps[k]).2,
        component_dest(c, name),
    ) by {
        assert(present(cs[k], entries));
        assert(steps[k] == step_for(cs[k], name, entries));
        lemma_dests_apart(cs[k], c, name);
    }
    lemma_apply_apart(home, steps, tree, component_dest(c, name));
}

} // verus!
