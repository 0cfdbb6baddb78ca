//! Unpacking a directory of an archive into a directory on disk: what to
//! create and what to copy, in order. Creating and copying is I/O.
use crate::error::Error;
use crate::fs::FRFS;
use crate::path::{
    is_component, join_components, lemma_name_of_pushed, listed_name, listed_name_of,
    normalize_and_strip, normalized_components, push_path, pushed_path,
};
use crate::tree::{names_unique, Dir, FileHeader};
use vstd::prelude::*;

verus! {

/// One step of unpacking.
#[derive(Debug)]
pub enum UnpackAction {
    /// Create the directory `dst` (and any missing parents).
    CreateDir { dst: String },
    /// Copy the archive's file at `src` to the file `dst` on disk.
    CopyFile { src: String, dst: String },
}

/// An [`UnpackAction`] as a value.
pub enum UnpackStep {
    CreateDir(Seq<char>),
    CopyFile(Seq<char>, Seq<char>),
}

impl View for UnpackAction {
    type V = UnpackStep;

    open spec fn view(&self) -> UnpackStep {
        match self {
            UnpackAction::CreateDir { dst } => UnpackStep::CreateDir(dst@),
            UnpackAction::CopyFile { src, dst } => UnpackStep::CopyFile(src@, dst@),
        }
    }
}

/// Where an entry named `name` of the directory at `src` goes, the
/// directory being unpacked into `dst`: `dst` joined with the entry's
/// listed name.
pub open spec fn child_dst(src: Seq<char>, dst: Seq<char>, name: Seq<char>) -> Seq<char> {
    pushed_path(dst, listed_name_of(pushed_path(src, name)))
}

/// Unpacking the directory `d`, at `src` in the archive, into `dst`:
/// create `dst`, then take the entries in listing order (subdirectories,
/// then files): a subdirectory is unpacked into its own destination, a file
/// is copied to its destination.
pub open spec fn unpack_spec(d: Dir, src: Seq<char>, dst: Seq<char>) -> Seq<UnpackStep>
    decreases d,
{
    seq![UnpackStep::CreateDir(dst)] + unpack_dirs(d.dirs@, src, dst) + unpack_files(
        d.files@,
        src,
        dst,
    )
}

pub open spec fn unpack_dirs(ds: Seq<(String, Dir)>, src: Seq<char>, dst: Seq<char>) -> Seq<
    UnpackStep,
>
    decreases ds,
{
    if ds.len() == 0 {
        Seq::empty()
    } else {
        unpack_dirs(ds.drop_last(), src, dst) + unpack_spec(
            ds.last().1,
            pushed_path(src, ds.last().0@),
            child_dst(src, dst, ds.last().0@),
        )
    }
}

pub open spec fn unpack_files(fs: Seq<(String, FileHeader)>, src: Seq<char>, dst: Seq<char>) -> Seq<
    UnpackStep,
> {
    fs.map_values(
        |e: (String, FileHeader)|
            UnpackStep::CopyFile(pushed_path(src, e.0@), child_dst(src, dst, e.0@)),
    )
}

pub open spec fn steps(v: Seq<UnpackAction>) -> Seq<UnpackStep> {
    v.map_values(|a: UnpackAction| a@)
}

/// Appends the steps that unpack `d`, at `src` in the archive, into `dst`.
fn collect_unpack(d: &Dir, src: &str, dst: &str, out: &mut Vec<UnpackAction>)
    ensures
        steps(final(out)@) == steps(old(out)@) + unpack_spec(*d, src@, dst@),
    decreases d,
{
    let ghost start = steps(out@);
    let ghost uf = unpack_files(d.files@, src@, dst@);
    out.push(UnpackAction::CreateDir { dst: dst.to_string() });
    proof {
        assert(steps(out@) =~= start + seq![UnpackStep::CreateDir(dst@)]);
    }
    let ghost head = steps(out@);
    let mut j: usize = 0;
    proof {
        assert(d.dirs@.take(0) =~= Seq::<(String, Dir)>::empty());
        assert(head + unpack_dirs(d.dirs@.take(0), src@, dst@) =~= head);
    }
    while j < d.dirs.len()
        invariant
            j <= d.dirs@.len(),
            head == start + seq![UnpackStep::CreateDir(dst@)],
            steps(out@) == head + unpack_dirs(d.dirs@.take(j as int), src@, dst@),
        decreases d.dirs.len() - j,
    {
        proof {
            assert(d.dirs@.take(j + 1).drop_last() =~= d.dirs@.take(j as int));
            assert(d.dirs@.take(j + 1).last() == d.dirs@[j as int]);
        }
        let sub_src = push_path(src, d.dirs[j].0.as_str());
        let name = listed_name(sub_src.as_str());
        let sub_dst = push_path(dst, name.as_str());
        collect_unpack(&d.dirs[j].1, sub_src.as_str(), sub_dst.as_str(), out);
        j = j + 1;
        proof {
            assert(steps(out@) =~= head + unpack_dirs(d.dirs@.take(j as int), src@, dst@));
        }
    }
    proof {
        assert(d.dirs@.take(j as int) =~= d.dirs@);
    }
    let ghost mid = steps(out@);
    let mut k: usize = 0;
    while k < d.files.len()
        invariant
            k <= d.files@.len(),
            uf == unpack_files(d.files@, src@, dst@),
            steps(out@) == mid + uf.take(k as int),
        decreases d.files.len() - k,
    {
        let file_src = push_path(src, d.files[k].0.as_str());
        let name = listed_name(file_src.as_str());
        let file_dst = push_path(dst, name.as_str());
        let ghost prev = out@;
        let ghost step = UnpackStep::CopyFile(file_src@, file_dst@);
        out.push(UnpackAction::CopyFile { src: file_src, dst: file_dst });
        k = k + 1;
        proof {
            assert(uf[k - 1] == step);
            assert(uf.take(k as int) =~= uf.take(k - 1).push(uf[k - 1]));
            assert(steps(out@) =~= steps(prev).push(step));
            assert(steps(out@) =~= mid + uf.take(k as int));
        }
    }
    proof {
        assert(uf.take(k as int) =~= uf);
        assert(steps(out@) =~= start + unpack_spec(*d, src@, dst@));
    }
}

/// The steps that unpack the directory at `src_dir` of `fs` into `dst_dir`;
/// entries are taken at the paths that listing gives them.
pub fn unpack_actions(fs: &FRFS, src_dir: &str, dst_dir: &str) -> (r: Result<Vec<UnpackAction>, Error>)
    ensures
        match fs.dir_at(src_dir@) {
            Some(d) => r matches Ok(a) && steps(a@) == unpack_spec(
                d,
                join_components(normalized_components(src_dir@)),
                dst_dir@,
            ),
            None => r matches Err(e) && e is NotFound,
        },
{
    let dir = match fs.dir_for(src_dir) {
        Ok(d) => d,
        Err(e) => return Err(e),
    };
    let base = normalize_and_strip(src_dir);
    let mut out: Vec<UnpackAction> = Vec::new();
    proof {
        assert(steps(out@) =~= Seq::<UnpackStep>::empty());
    }
    collect_unpack(dir, base.as_str(), dst_dir, &mut out);
    proof {
        assert(Seq::<UnpackStep>::empty() + unpack_spec(*dir, base@, dst_dir@) =~= unpack_spec(
            *dir,
            base@,
            dst_dir@,
        ));
    }
    Ok(out)
}

/// Each file is unpacked to its own destination: unpacking the directory
/// `d` at `src` into `dst` first creates `dst`, and, after the steps of its
/// subdirectories, copies each file named `n` (a path component) from `src`
/// joined with `n` to `dst` joined with `n`. So where the names of `d`'s files
/// are unique, no two of its files are copied to one destination.
pub proof fn lemma_unpack_copies_each_file_to_its_name(d: Dir, src: Seq<char>, dst: Seq<char>)
    ensures
        unpack_spec(d, src, dst)[0] == UnpackStep::CreateDir(dst),
        unpack_spec(d, src, dst).len() == 1 + unpack_dirs(d.dirs@, src, dst).len()
            + d.files@.len(),
        forall|i: int|
            0 <= i < d.files@.len() && is_component(#[trigger] d.files@[i].0@) ==> unpack_spec(
                d,
                src,
                dst,
            )[1 + unpack_dirs(d.dirs@, src, dst).len() + i] == UnpackStep::CopyFile(
                pushed_path(src, d.files@[i].0@),
                pushed_path(dst, d.files@[i].0@),
            ),
        forall|i: int, j: int|
            0 <= i < j < d.files@.len() && is_component(#[trigger] d.files@[i].0@) && is_component(
                #[trigger] d.files@[j].0@,
            ) && names_unique(d.files@) ==> pushed_path(dst, d.files@[i].0@)
                != pushed_path(dst, d.files@[j].0@),
{
    let head = seq![UnpackStep::CreateDir(dst)] + unpack_dirs(d.dirs@, src, dst);
    let files = unpack_files(d.files@, src, dst);
    assert(unpack_spec(d, src, dst) == head + files);
    assert forall|i: int|
        0 <= i < d.files@.len() && is_component(#[trigger] d.files@[i].0@) implies unpack_spec(
        d,
        src,
        dst,
    )[1 + unpack_dirs(d.dirs@, src, dst).len() + i] == UnpackStep::CopyFile(
        pushed_path(src, d.files@[i].0@),
        pushed_path(dst, d.files@[i].0@),
    ) by {
        lemma_name_of_pushed(src, d.files@[i].0@);
        assert((head + files)[head.len() + i] == files[i]);
    }
    assert forall|i: int, j: int|
        0 <= i < j < d.files@.len() && is_component(#[trigger] d.files@[i].0@) && is_component(
            #[trigger] d.files@[j].0@,
        ) && names_unique(d.files@) implies pushed_path(dst, d.files@[i].0@)
        != pushed_path(dst, d.files@[j].0@) by {
        lemma_pushed_path_injective(dst, d.files@[i].0@, d.files@[j].0@);
    }
}

/// Joining one base with two different components gives two different
/// paths.
pub proof fn lemma_pushed_path_injective(base: Seq<char>, n: Seq<char>, m: Seq<char>)
    requires
        is_component(n),
        is_component(m),
        n != m,
    ensures
        pushed_path(base, n) != pushed_path(base, m),
{
    lemma_name_of_pushed(base, n);
    lemma_name_of_pushed(base, m);
}

} // verus!
