use vstd::prelude::*;
use crate::digest::{md5_hex, md5_hex_of, is_content_hash};
use crate::text::views_of;

verus! {

/// The hashes computed so far, as a map from absolute path to hash.
pub open spec fn as_map(log: Seq<(Seq<char>, Seq<char>)>) -> Map<Seq<char>, Seq<char>>
    decreases log.len(),
{
    if log.len() == 0 {
        Map::empty()
    } else {
        as_map(log.drop_last()).insert(log.last().0, log.last().1)
    }
}

/// No path was hashed twice, and every hash has the content-hash shape.
pub open spec fn log_wf(log: Seq<(Seq<char>, Seq<char>)>) -> bool {
    &&& forall|i: int, j: int| 0 <= i < j < log.len() ==> log[i].0 != log[j].0
    &&& forall|i: int| 0 <= i < log.len() ==> is_content_hash(#[trigger] log[i].1)
}

/// The log after the content of `path` was offered: hashed and appended,
/// unless `path` already has a hash.
pub open spec fn store_spec(
    log: Seq<(Seq<char>, Seq<char>)>,
    path: Seq<char>,
    content: Seq<u8>,
) -> Seq<(Seq<char>, Seq<char>)> {
    if as_map(log).contains_key(path) {
        log
    } else {
        log.push((path, md5_hex_of(content)))
    }
}

/// The paths of `paths` that `m` has no hash for, each once, in the order of
/// their first occurrence.
pub open spec fn fresh_paths(paths: Seq<Seq<char>>, m: Map<Seq<char>, Seq<char>>) -> Seq<Seq<char>>
    decreases paths.len(),
{
    if paths.len() == 0 {
        seq![]
    } else {
        let earlier = fresh_paths(paths.drop_last(), m);
        let p = paths.last();
        if m.contains_key(p) || earlier.contains(p) {
            earlier
        } else {
            earlier.push(p)
        }
    }
}

pub proof fn lemma_as_map_index(log: Seq<(Seq<char>, Seq<char>)>, p: Seq<char>)
    requires
        log_wf(log),
    ensures
        as_map(log).contains_key(p) <==> exists|i: int| 0 <= i < log.len() && #[trigger] log[i].0 == p,
        forall|i: int| 0 <= i < log.len() && #[trigger] log[i].0 == p ==> as_map(log)[p] == log[i].1,
    decreases log.len(),
{
    if log.len() > 0 {
        let rest = log.drop_last();
        assert(log_wf(rest)) by {
            assert forall|i: int| 0 <= i < rest.len() implies is_content_hash(#[trigger] rest[i].1) by {
                assert(rest[i] == log[i]);
            }
        }
        lemma_as_map_index(rest, p);
        if as_map(log).contains_key(p) && p != log.last().0 {
            let i = choose|i: int| 0 <= i < rest.len() && #[trigger] rest[i].0 == p;
            assert(log[i].0 == p);
        }
        if exists|i: int| 0 <= i < log.len() && #[trigger] log[i].0 == p {
            let i = choose|i: int| 0 <= i < log.len() && #[trigger] log[i].0 == p;
            if i < rest.len() {
                assert(rest[i].0 == p);
            }
        }
        assert forall|i: int| 0 <= i < log.len() && #[trigger] log[i].0 == p implies as_map(log)[p] == log[i].1 by {
            if i < rest.len() {
                assert(rest[i].0 == p);
            }
        }
    }
}

/// Every hash in a well-formed log has the content-hash shape.
pub proof fn lemma_as_map_hashes(log: Seq<(Seq<char>, Seq<char>)>, p: Seq<char>)
    requires
        log_wf(log),
        as_map(log).contains_key(p),
    ensures
        is_content_hash(as_map(log)[p]),
{
    lemma_as_map_index(log, p);
    let i = choose|i: int| 0 <= i < log.len() && #[trigger] log[i].0 == p;
    assert(is_content_hash(log[i].1));
}

/// The content hashes of the files met in one run, computed at most once per
/// absolute path and kept for the rest of the run.
pub struct HashCache {
    entries: Vec<(String, String)>,
}

impl View for HashCache {
    type V = Seq<(Seq<char>, Seq<char>)>;

    /// Each computation of a hash, in order: the path and its hash.
    closed spec fn view(&self) -> Seq<(Seq<char>, Seq<char>)> {
        self.entries@.map_values(|e: (String, String)| (e.0@, e.1@))
    }
}

impl HashCache {
    pub open spec fn wf(&self) -> bool {
        log_wf(self@)
    }

    /// The hash known for each path.
    pub open spec fn hashes(&self) -> Map<Seq<char>, Seq<char>> {
        as_map(self@)
    }

    /// An empty cache.
    pub fn new() -> (r: HashCache)
        ensures
            r.wf(),
            r@ == Seq::<(Seq<char>, Seq<char>)>::empty(),
    {
        let r = HashCache { entries: Vec::new() };
        proof {
            assert(r@ =~= Seq::<(Seq<char>, Seq<char>)>::empty());
        }
        r
    }

    /// The stored hash of `path`, if it has one; nothing is hashed.
    pub fn lookup(&self, path: &String) -> (r: Option<String>)
        requires
            self.wf(),
        ensures
            r is Some <==> self.hashes().contains_key(path@),
            r is Some ==> r->Some_0@ == self.hashes()[path@],
    {
        let mut i: usize = 0;
        while i < self.entries.len()
            invariant
                i <= self.entries@.len(),
                self.wf(),
                forall|j: int| 0 <= j < i ==> #[trigger] self@[j].0 != path@,
            decreases self.entries@.len() - i,
        {
            assert(self@[i as int] == (self.entries@[i as int].0@, self.entries@[i as int].1@));
            if self.entries[i].0 == *path {
                proof {
                    lemma_as_map_index(self@, path@);
                    assert(self@[i as int].0 == path@);
                }
                return Some(self.entries[i].1.clone());
            }
            i = i + 1;
        }
        proof {
            lemma_as_map_index(self@, path@);
        }
        None
    }

    /// The hash of `path`: the stored one where `path` has one (then `content`
    /// is not hashed and the cache stays as it is), else the MD5 of `content`,
    /// which is stored for `path`.
    pub fn store(&mut self, path: &String, content: &Vec<u8>) -> (r: String)
        requires
            old(self).wf(),
        ensures
            final(self).wf(),
            final(self)@ == store_spec(old(self)@, path@, content@),
            final(self).hashes().contains_key(path@),
            r@ == final(self).hashes()[path@],
    {
        match self.lookup(path) {
            Some(h) => h,
            None => {
                let h = md5_hex(content.as_slice());
                let ghost before = self@;
                self.entries.push((path.clone(), h.clone()));
                proof {
                    assert(self@ =~= before.push((path@, h@)));
                    lemma_as_map_index(before, path@);
                    assert forall|i: int, j: int| 0 <= i < j < self@.len() implies self@[i].0 != self@[j].0 by {
                        if j == before.len() {
                            assert(before[i].0 == self@[i].0);
                        } else {
                            assert(before[i] == self@[i] && before[j] == self@[j]);
                        }
                    }
                    assert forall|i: int| 0 <= i < self@.len() implies is_content_hash(#[trigger] self@[i].1) by {
                        if i < before.len() {
                            assert(before[i] == self@[i]);
                        }
                    }
                    assert(self@.drop_last() =~= before);
                }
                h
            },
        }
    }

    /// The paths of `paths` that have no hash yet, each once, in the order of
    /// their first occurrence: the files whose content the caller has to read.
    pub fn pending(&self, paths: &Vec<String>) -> (r: Vec<String>)
        requires
            self.wf(),
        ensures
            views_of(r@) == fresh_paths(views_of(paths@), self.hashes()),
    {
        let mut out: Vec<String> = Vec::new();
        let mut i: usize = 0;
        while i < paths.len()
            invariant
                i <= paths@.len(),
                self.wf(),
                views_of(out@) == fresh_paths(views_of(paths@).take(i as int), self.hashes()),
            decreases paths@.len() - i,
        {
            let p = &paths[i];
            proof {
                assert(views_of(paths@).take(i + 1).drop_last() == views_of(paths@).take(i as int));
            }
            let known = self.lookup(p).is_some();
            let mut seen = false;
            let mut k: usize = 0;
            while k < out.len()
                invariant
                    k <= out@.len(),
                    !seen ==> forall|j: int| 0 <= j < k ==> #[trigger] views_of(out@)[j] != p@,
                    seen ==> views_of(out@).contains(p@),
                decreases out@.len() - k,
            {
                if out[k] == *p {
                    assert(views_of(out@)[k as int] == p@);
                    seen = true;
                }
                k = k + 1;
            }
            if !known && !seen {
                let ghost before = out@;
                out.push(p.clone());
                proof {
                    assert(views_of(out@) == views_of(before).push(p@));
                }
            }
            i = i + 1;
        }
        proof {
            assert(views_of(paths@).take(i as int) == views_of(paths@));
        }
        out
    }
}

} // verus!
