use vstd::prelude::*;
use vstd::string::*;
use crate::cache::HashCache;
use crate::text::views_of;

verus! {

/// The extension given to every exported copy, whatever the source file's
/// own; a library of other formats gets misnamed copies.
pub open spec fn export_extension() -> Seq<char> {
    seq!['.', 'm', 'p', '3']
}

/// The file name of an exported copy: its content hash and the export extension.
pub open spec fn exported_name_of(hash: Seq<char>) -> Seq<char> {
    hash + export_extension()
}

/// The file name under which content with hash `hash` is exported.
pub fn exported_name(hash: &String) -> (r: String)
    ensures
        r@ == exported_name_of(hash@),
{
    let mut r = hash.clone();
    r.append(".mp3");
    proof {
        reveal_strlit(".mp3");
        assert(".mp3"@ == export_extension());
    }
    r
}

/// An entry of a genre folder, as listed by the file system.
#[derive(Debug)]
pub struct SourceEntry {
    pub path: String,
    pub is_dir: bool,
}

/// The paths of the entries that are not directories, in order.
pub open spec fn genre_files_spec(es: Seq<SourceEntry>) -> Seq<Seq<char>>
    decreases es.len(),
{
    if es.len() == 0 {
        seq![]
    } else if es.last().is_dir {
        genre_files_spec(es.drop_last())
    } else {
        genre_files_spec(es.drop_last()).push(es.last().path@)
    }
}

/// The files of a genre folder that get exported: its entries that are not
/// directories; subdirectories are skipped, not descended into.
pub fn genre_files(entries: &Vec<SourceEntry>) -> (r: Vec<String>)
    ensures
        views_of(r@) == genre_files_spec(entries@),
{
    let mut out: Vec<String> = Vec::new();
    let mut i: usize = 0;
    while i < entries.len()
        invariant
            i <= entries@.len(),
            views_of(out@) == genre_files_spec(entries@.take(i as int)),
        decreases entries@.len() - i,
    {
        assert(entries@.take(i + 1).drop_last() == entries@.take(i as int));
        if !entries[i].is_dir {
            let ghost before = out@;
            out.push(entries[i].path.clone());
            assert(views_of(out@) == views_of(before).push(entries@[i as int].path@));
        }
        i = i + 1;
    }
    assert(entries@.take(i as int) == entries@);
    out
}

/// The name of the exported copy of each file, or `None` where some file has
/// no hash in the cache.
pub fn export_names(cache: &HashCache, files: &Vec<String>) -> (r: Option<Vec<String>>)
    requires
        cache.wf(),
    ensures
        r is Some <==> forall|i: int| 0 <= i < files@.len() ==> cache.hashes().contains_key(#[trigger] files@[i]@),
        r matches Some(names) ==> names@.len() == files@.len() && forall|i: int| 0 <= i < files@.len() ==>
            #[trigger] names@[i]@ == exported_name_of(cache.hashes()[files@[i]@]),
{
    let mut out: Vec<String> = Vec::new();
    let mut i: usize = 0;
    while i < files.len()
        invariant
            i <= files@.len(),
            cache.wf(),
            out@.len() == i,
            forall|j: int| 0 <= j < i ==> cache.hashes().contains_key(#[trigger] files@[j]@),
            forall|j: int| 0 <= j < i ==> #[trigger] out@[j]@ == exported_name_of(cache.hashes()[files@[j]@]),
        decreases files@.len() - i,
    {
        match cache.lookup(&files[i]) {
            Some(h) => {
                out.push(exported_name(&h));
            },
            None => {
                return None;
            },
        }
        i = i + 1;
    }
    Some(out)
}

} // verus!
