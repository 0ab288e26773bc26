use vstd::prelude::*;
use vstd::string::*;
use crate::cache::HashCache;
use crate::export::{exported_name, exported_name_of};
use crate::digest::{percent_decode, percent_decoded};
use crate::text::{chars_of, split_lines, string_of_chars, sub_chars, starts_with, lines_of, views_of};

verus! {

/// Why a playlist could not be rewritten.
#[derive(Clone, Copy, Debug, PartialEq, Eq, Structural)]
pub enum FaultKind {
    /// A track line is not valid percent-encoded UTF-8.
    BadEncoding,
    /// A track lies outside the music root.
    OutsideRoot,
    /// A track has no hash in the cache.
    NotHashed,
}

/// A fault, with the line or path that caused it.
#[derive(Debug)]
pub struct PlaylistError {
    pub kind: FaultKind,
    pub subject: String,
}

/// One parsed playlist line.
#[derive(Debug)]
pub enum Entry {
    /// A directive or comment, kept verbatim.
    Comment(String),
    /// A track: its decoded absolute path, and the directory that holds it,
    /// relative to the music root.
    Track { path: String, parent: String },
}

/// What an entry holds, as sequences of chars.
pub enum EntryModel {
    Comment(Seq<char>),
    Track(Seq<char>, Seq<char>),
}

impl View for Entry {
    type V = EntryModel;

    open spec fn view(&self) -> EntryModel {
        match self {
            Entry::Comment(l) => EntryModel::Comment(l@),
            Entry::Track { path, parent } => EntryModel::Track(path@, parent@),
        }
    }
}

pub open spec fn entries_view(v: Seq<Entry>) -> Seq<EntryModel> {
    v.map_values(|e: Entry| e@)
}

pub open spec fn fault_view(e: PlaylistError) -> (FaultKind, Seq<char>) {
    (e.kind, e.subject@)
}

pub open spec fn is_comment(line: Seq<char>) -> bool {
    line.len() > 0 && line[0] == '#'
}

pub open spec fn file_scheme() -> Seq<char> {
    seq!['f', 'i', 'l', 'e', ':', '/', '/']
}

/// The path without a leading `file://`.
pub open spec fn strip_scheme(p: Seq<char>) -> Seq<char> {
    if file_scheme().is_prefix_of(p) {
        p.skip(7)
    } else {
        p
    }
}

/// `p` lies under `root`, compared at a path-component boundary.
pub open spec fn under_root(p: Seq<char>, root: Seq<char>) -> bool {
    &&& root.is_prefix_of(p)
    &&& root.len() == 0 || root.last() == '/' || (p.len() > root.len() && p[root.len() as int] == '/')
}

/// The part of `p` after `root`.
pub open spec fn relative_to(p: Seq<char>, root: Seq<char>) -> Seq<char> {
    p.skip(root.len() as int)
}

/// A path part that names a level: neither empty nor `.`.
pub open spec fn is_named_part(part: Seq<char>) -> bool {
    part.len() > 0 && part != seq!['.']
}

/// After reading `s`: the named parts that a `/` has ended, and the part still open.
pub open spec fn part_scan(s: Seq<char>) -> (Seq<Seq<char>>, Seq<char>)
    decreases s.len(),
{
    if s.len() == 0 {
        (seq![], seq![])
    } else {
        let (ended, open) = part_scan(s.drop_last());
        if s.last() == '/' {
            (if is_named_part(open) { ended.push(open) } else { ended }, seq![])
        } else {
            (ended, open.push(s.last()))
        }
    }
}

/// The named parts of a path, in order: split at `/`, with empty and `.`
/// parts dropped.
pub open spec fn path_parts(s: Seq<char>) -> Seq<Seq<char>> {
    let (ended, open) = part_scan(s);
    if is_named_part(open) {
        ended.push(open)
    } else {
        ended
    }
}

/// The parts joined with `/`.
pub open spec fn join_parts(ps: Seq<Seq<char>>) -> Seq<char>
    decreases ps.len(),
{
    if ps.len() == 0 {
        seq![]
    } else if ps.len() == 1 {
        ps[0]
    } else {
        join_parts(ps.drop_last()) + seq!['/'] + ps.last()
    }
}

/// The directory that holds the file of a relative path: all its named
/// parts but the last, joined with `/`; empty where it has one part or none.
pub open spec fn parent_of(rel: Seq<char>) -> Seq<char> {
    let ps = path_parts(rel);
    if ps.len() == 0 {
        seq![]
    } else {
        join_parts(ps.drop_last())
    }
}

/// How one line of a playlist reads, relative to the music root.
pub open spec fn parse_line_spec(line: Seq<char>, root: Seq<char>) -> Result<EntryModel, (FaultKind, Seq<char>)> {
    if is_comment(line) {
        Ok(EntryModel::Comment(line))
    } else {
        match percent_decoded(line) {
            None => Err((FaultKind::BadEncoding, line)),
            Some(d) => {
                let p = strip_scheme(d);
                if under_root(p, root) {
                    Ok(EntryModel::Track(p, parent_of(relative_to(p, root))))
                } else {
                    Err((FaultKind::OutsideRoot, p))
                }
            },
        }
    }
}

/// The entries of the lines, or the fault of the first line that has one.
pub open spec fn parse_lines_spec(lines: Seq<Seq<char>>, root: Seq<char>) -> Result<Seq<EntryModel>, (FaultKind, Seq<char>)>
    decreases lines.len(),
{
    if lines.len() == 0 {
        Ok(seq![])
    } else {
        match parse_lines_spec(lines.drop_last(), root) {
            Err(f) => Err(f),
            Ok(es) => match parse_line_spec(lines.last(), root) {
                Err(f) => Err(f),
                Ok(e) => Ok(es.push(e)),
            },
        }
    }
}

pub open spec fn parse_playlist_spec(text: Seq<char>, root: Seq<char>) -> Result<Seq<EntryModel>, (FaultKind, Seq<char>)> {
    parse_lines_spec(lines_of(text), root)
}

pub open spec fn chars_views(v: Seq<Vec<char>>) -> Seq<Seq<char>> {
    v.map_values(|p: Vec<char>| p@)
}

fn is_named(part: &Vec<char>) -> (r: bool)
    ensures
        r == is_named_part(part@),
{
    let r = part.len() > 0 && !(part.len() == 1 && part[0] == '.');
    proof {
        if part@.len() == 1 && part@[0] == '.' {
            assert(part@ == seq!['.']);
        }
    }
    r
}

/// The named parts of `v[start..]`.
fn parts_from(v: &Vec<char>, start: usize) -> (r: Vec<Vec<char>>)
    requires
        start <= v@.len(),
    ensures
        chars_views(r@) == path_parts(v@.subrange(start as int, v@.len() as int)),
{
    let mut ended: Vec<Vec<char>> = Vec::new();
    let mut open: Vec<char> = Vec::new();
    let mut i: usize = start;
    assert(v@.subrange(start as int, start as int) == Seq::<char>::empty());
    assert(chars_views(ended@) == Seq::<Seq<char>>::empty());
    while i < v.len()
        invariant
            start <= i <= v@.len(),
            (chars_views(ended@), open@) == part_scan(v@.subrange(start as int, i as int)),
        decreases v@.len() - i,
    {
        let c = v[i];
        proof {
            assert(v@.subrange(start as int, i + 1).drop_last() == v@.subrange(start as int, i as int));
        }
        if c == '/' {
            if is_named(&open) {
                let ghost before = ended@;
                let ghost o = open@;
                ended.push(open);
                assert(chars_views(ended@) == chars_views(before).push(o));
            }
            open = Vec::new();
        } else {
            open.push(c);
        }
        i = i + 1;
    }
    if is_named(&open) {
        let ghost before = ended@;
        let ghost o = open@;
        ended.push(open);
        assert(chars_views(ended@) == chars_views(before).push(o));
    }
    ended
}

/// All the parts but the last, joined with `/`.
fn join_but_last(ps: &Vec<Vec<char>>) -> (r: Vec<char>)
    ensures
        ps@.len() == 0 ==> r@ == Seq::<char>::empty(),
        ps@.len() > 0 ==> r@ == join_parts(chars_views(ps@).drop_last()),
{
    let mut out: Vec<char> = Vec::new();
    if ps.len() == 0 {
        return out;
    }
    let ghost vs = chars_views(ps@);
    let n = ps.len() - 1;
    let mut k: usize = 0;
    assert(vs.take(0) == Seq::<Seq<char>>::empty());
    while k < n
        invariant
            n == ps@.len() - 1,
            k <= n,
            vs == chars_views(ps@),
            out@ == join_parts(vs.take(k as int)),
        decreases n - k,
    {
        let ghost prev = out@;
        assert(vs.take(k + 1).drop_last() == vs.take(k as int));
        assert(vs[k as int] == ps@[k as int]@);
        if k > 0 {
            out.push('/');
        }
        let mut part = ps[k].clone();
        let ghost pv = part@;
        out.append(&mut part);
        proof {
            if k == 0 {
                assert(vs.take(1)[0] == vs[0]);
                assert(out@ == prev + pv);
                assert(prev == Seq::<char>::empty());
                assert(out@ == pv);
            } else {
                assert(out@ == prev + seq!['/'] + pv);
            }
        }
        k = k + 1;
    }
    assert(vs.take(n as int) == vs.drop_last());
    out
}

/// Reads one playlist line: a comment as it is, else a track reference
/// resolved against the music root.
pub fn parse_line(line: &String, root: &String) -> (r: Result<Entry, PlaylistError>)
    ensures
        match r {
            Ok(e) => parse_line_spec(line@, root@) == Ok::<EntryModel, (FaultKind, Seq<char>)>(e@),
            Err(f) => parse_line_spec(line@, root@) == Err::<EntryModel, (FaultKind, Seq<char>)>(fault_view(f)),
        },
{
    let lc = chars_of(line.as_str());
    if lc.len() > 0 && lc[0] == '#' {
        return Ok(Entry::Comment(line.clone()));
    }
    let decoded = match percent_decode(line.as_str()) {
        Ok(d) => d,
        Err(_) => {
            return Err(PlaylistError { kind: FaultKind::BadEncoding, subject: line.clone() });
        },
    };
    let dc = chars_of(decoded.as_str());
    let scheme: Vec<char> = vec!['f', 'i', 'l', 'e', ':', '/', '/'];
    assert(scheme@ == file_scheme());
    let pc = if starts_with(&dc, &scheme) {
        sub_chars(&dc, 7, dc.len())
    } else {
        sub_chars(&dc, 0, dc.len())
    };
    assert(dc@.subrange(0, dc@.len() as int) == dc@);
    let path = string_of_chars(&pc);
    let rc = chars_of(root.as_str());
    let n = rc.len();
    let under = starts_with(&pc, &rc) && (n == 0 || rc[n - 1] == '/' || (pc.len() > n && pc[n] == '/'));
    if !under {
        return Err(PlaylistError { kind: FaultKind::OutsideRoot, subject: path });
    }
    let parts = parts_from(&pc, n);
    let parent = string_of_chars(&join_but_last(&parts));
    Ok(Entry::Track { path, parent })
}

proof fn lemma_parse_fault_stays(lines: Seq<Seq<char>>, root: Seq<char>, k: int)
    requires
        0 <= k <= lines.len(),
        parse_lines_spec(lines.take(k), root) is Err,
    ensures
        parse_lines_spec(lines, root) == parse_lines_spec(lines.take(k), root),
    decreases lines.len() - k,
{
    if k < lines.len() {
        assert(lines.take(k + 1).drop_last() == lines.take(k));
        lemma_parse_fault_stays(lines, root, k + 1);
    } else {
        assert(lines.take(k) == lines);
    }
}

proof fn lemma_render_fault_stays(es: Seq<EntryModel>, m: Map<Seq<char>, Seq<char>>, k: int)
    requires
        0 <= k <= es.len(),
        render_lines_spec(es.take(k), m) is Err,
    ensures
        render_lines_spec(es, m) == render_lines_spec(es.take(k), m),
    decreases es.len() - k,
{
    if k < es.len() {
        assert(es.take(k + 1).drop_last() == es.take(k));
        lemma_render_fault_stays(es, m, k + 1);
    } else {
        assert(es.take(k) == es);
    }
}

/// The entries of a playlist text, or the fault of its first bad line.
pub fn parse_playlist(text: &str, root: &String) -> (r: Result<Vec<Entry>, PlaylistError>)
    ensures
        match r {
            Ok(es) => parse_playlist_spec(text@, root@) == Ok::<Seq<EntryModel>, (FaultKind, Seq<char>)>(entries_view(es@)),
            Err(f) => parse_playlist_spec(text@, root@) == Err::<Seq<EntryModel>, (FaultKind, Seq<char>)>(fault_view(f)),
        },
{
    let lines = split_lines(text);
    let ghost ls = views_of(lines@);
    let mut out: Vec<Entry> = Vec::new();
    assert(ls.take(0) == Seq::<Seq<char>>::empty());
    assert(entries_view(out@) == Seq::<EntryModel>::empty());
    let mut i: usize = 0;
    while i < lines.len()
        invariant
            i <= lines@.len(),
            ls == views_of(lines@),
            ls == lines_of(text@),
            parse_lines_spec(ls.take(i as int), root@) == Ok::<Seq<EntryModel>, (FaultKind, Seq<char>)>(entries_view(out@)),
        decreases lines@.len() - i,
    {
        assert(ls.take(i + 1).drop_last() == ls.take(i as int));
        assert(ls.take(i + 1).last() == lines@[i as int]@);
        let e = match parse_line(&lines[i], root) {
            Ok(e) => e,
            Err(f) => {
                proof {
                    lemma_parse_fault_stays(ls, root@, i + 1);
                }
                return Err(f);
            },
        };
        let ghost before = out@;
        out.push(e);
        proof {
            assert(entries_view(out@) == entries_view(before).push(e@));
        }
        i = i + 1;
    }
    assert(ls.take(i as int) == ls);
    Ok(out)
}

/// The decoded paths of the track entries, in order.
pub open spec fn track_paths_spec(es: Seq<EntryModel>) -> Seq<Seq<char>>
    decreases es.len(),
{
    if es.len() == 0 {
        seq![]
    } else {
        match es.last() {
            EntryModel::Comment(_) => track_paths_spec(es.drop_last()),
            EntryModel::Track(p, _) => track_paths_spec(es.drop_last()).push(p),
        }
    }
}

/// The absolute paths that the track entries reference, in order.
pub fn track_paths(entries: &Vec<Entry>) -> (r: Vec<String>)
    ensures
        views_of(r@) == track_paths_spec(entries_view(entries@)),
{
    let ghost ev = entries_view(entries@);
    let mut out: Vec<String> = Vec::new();
    let mut i: usize = 0;
    while i < entries.len()
        invariant
            i <= entries@.len(),
            ev == entries_view(entries@),
            views_of(out@) == track_paths_spec(ev.take(i as int)),
        decreases entries@.len() - i,
    {
        assert(ev.take(i + 1).drop_last() == ev.take(i as int));
        match &entries[i] {
            Entry::Comment(_) => {},
            Entry::Track { path, .. } => {
                let ghost before = out@;
                out.push(path.clone());
                assert(views_of(out@) == views_of(before).push(path@));
            },
        }
        i = i + 1;
    }
    assert(ev.take(i as int) == ev);
    out
}

pub open spec fn up_dir() -> Seq<char> {
    seq!['.', '.', '/']
}

/// The line that refers to an exported copy: `../<parent>/<name>`, or
/// `../<name>` where the parent is empty.
pub open spec fn track_target(parent: Seq<char>, hash: Seq<char>) -> Seq<char> {
    if parent.len() == 0 {
        up_dir() + exported_name_of(hash)
    } else {
        up_dir() + parent + seq!['/'] + exported_name_of(hash)
    }
}

/// The output line of an entry, given the hash of each path.
pub open spec fn render_entry_spec(e: EntryModel, m: Map<Seq<char>, Seq<char>>) -> Result<Seq<char>, (FaultKind, Seq<char>)> {
    match e {
        EntryModel::Comment(l) => Ok(l),
        EntryModel::Track(p, parent) => if m.contains_key(p) {
            Ok(track_target(parent, m[p]))
        } else {
            Err((FaultKind::NotHashed, p))
        },
    }
}

/// The output lines of the entries, or the fault of the first that has one.
pub open spec fn render_lines_spec(es: Seq<EntryModel>, m: Map<Seq<char>, Seq<char>>) -> Result<Seq<Seq<char>>, (FaultKind, Seq<char>)>
    decreases es.len(),
{
    if es.len() == 0 {
        Ok(seq![])
    } else {
        match render_lines_spec(es.drop_last(), m) {
            Err(f) => Err(f),
            Ok(ls) => match render_entry_spec(es.last(), m) {
                Err(f) => Err(f),
                Ok(l) => Ok(ls.push(l)),
            },
        }
    }
}

/// The lines, each followed by a `'\n'`.
pub open spec fn join_lines(ls: Seq<Seq<char>>) -> Seq<char>
    decreases ls.len(),
{
    if ls.len() == 0 {
        seq![]
    } else {
        join_lines(ls.drop_last()) + ls.last() + seq!['\n']
    }
}

pub open spec fn render_spec(es: Seq<EntryModel>, m: Map<Seq<char>, Seq<char>>) -> Result<Seq<char>, (FaultKind, Seq<char>)> {
    match render_lines_spec(es, m) {
        Ok(ls) => Ok(join_lines(ls)),
        Err(f) => Err(f),
    }
}

/// The output line of one entry.
fn render_entry(e: &Entry, cache: &HashCache) -> (r: Result<String, PlaylistError>)
    requires
        cache.wf(),
    ensures
        match r {
            Ok(l) => render_entry_spec(e@, cache.hashes()) == Ok::<Seq<char>, (FaultKind, Seq<char>)>(l@),
            Err(f) => render_entry_spec(e@, cache.hashes()) == Err::<Seq<char>, (FaultKind, Seq<char>)>(fault_view(f)),
        },
{
    match e {
        Entry::Comment(l) => Ok(l.clone()),
        Entry::Track { path, parent } => match cache.lookup(path) {
            None => Err(PlaylistError { kind: FaultKind::NotHashed, subject: path.clone() }),
            Some(h) => {
                let name = exported_name(&h);
                let mut out = "../".to_owned();
                proof {
                    reveal_strlit("../");
                    reveal_strlit("/");
                    assert("../"@ == up_dir());
                    assert("/"@ == seq!['/']);
                }
                if parent.unicode_len() > 0 {
                    out.append(parent.as_str());
                    out.append("/");
                }
                out.append(name.as_str());
                Ok(out)
            },
        },
    }
}

/// The rewritten playlist: each entry's output line followed by a `'\n'`, or
/// the fault of the first track whose path has no hash.
pub fn render_playlist(entries: &Vec<Entry>, cache: &HashCache) -> (r: Result<String, PlaylistError>)
    requires
        cache.wf(),
    ensures
        match r {
            Ok(t) => render_spec(entries_view(entries@), cache.hashes()) == Ok::<Seq<char>, (FaultKind, Seq<char>)>(t@),
            Err(f) => render_spec(entries_view(entries@), cache.hashes()) == Err::<Seq<char>, (FaultKind, Seq<char>)>(fault_view(f)),
        },
{
    let ghost ev = entries_view(entries@);
    let ghost mut ls: Seq<Seq<char>> = seq![];
    let mut out = String::new();
    assert(ev.take(0) == Seq::<EntryModel>::empty());
    let mut i: usize = 0;
    while i < entries.len()
        invariant
            i <= entries@.len(),
            cache.wf(),
            ev == entries_view(entries@),
            render_lines_spec(ev.take(i as int), cache.hashes()) == Ok::<Seq<Seq<char>>, (FaultKind, Seq<char>)>(ls),
            out@ == join_lines(ls),
        decreases entries@.len() - i,
    {
        assert(ev.take(i + 1).drop_last() == ev.take(i as int));
        let line = match render_entry(&entries[i], cache) {
            Ok(l) => l,
            Err(f) => {
                proof {
                    lemma_render_fault_stays(ev, cache.hashes(), i + 1);
                }
                return Err(f);
            },
        };
        let ghost before = ls;
        out.append(line.as_str());
        out.append("\n");
        proof {
            reveal_strlit("\n");
            ls = ls.push(line@);
            assert(ls.drop_last() == before);
            assert(join_lines(ls) == join_lines(before) + line@ + seq!['\n']);
            assert(out@ == join_lines(before) + line@ + "\n"@);
        }
        i = i + 1;
    }
    assert(ev.take(i as int) == ev);
    Ok(out)
}

pub open spec fn playlist_extension() -> Seq<char> {
    seq!['.', 'm', '3', 'u', '8']
}

/// A file name that ends in `.m3u8` (case-sensitive) after a non-empty stem.
pub open spec fn is_playlist_name_spec(name: Seq<char>) -> bool {
    name.len() > 5 && name.skip(name.len() - 5) == playlist_extension()
}

/// Whether a file of the playlists folder is a playlist to rewrite.
pub fn is_playlist_name(name: &String) -> (r: bool)
    ensures
        r == is_playlist_name_spec(name@),
{
    let c = chars_of(name.as_str());
    let n = c.len();
    if n <= 5 {
        return false;
    }
    let tail = sub_chars(&c, n - 5, n);
    let ext: Vec<char> = vec!['.', 'm', '3', 'u', '8'];
    let r = starts_with(&tail, &ext);
    proof {
        assert(ext@ == playlist_extension());
        assert(c@.skip(n - 5) == tail@);
        if r {
            assert(tail@.subrange(0, 5) == tail@);
        }
    }
    r
}

/// The output lines of a playlist text, given the hash of each path.
pub open spec fn output_lines(text: Seq<char>, root: Seq<char>, m: Map<Seq<char>, Seq<char>>) -> Result<Seq<Seq<char>>, (FaultKind, Seq<char>)> {
    match parse_playlist_spec(text, root) {
        Ok(es) => render_lines_spec(es, m),
        Err(f) => Err(f),
    }
}

/// The rewritten playlist text, given the hash of each path.
pub open spec fn transcode_spec(text: Seq<char>, root: Seq<char>, m: Map<Seq<char>, Seq<char>>) -> Result<Seq<char>, (FaultKind, Seq<char>)> {
    match output_lines(text, root, m) {
        Ok(ls) => Ok(join_lines(ls)),
        Err(f) => Err(f),
    }
}

/// Rewrites a playlist text against the hashes that the cache holds.
pub fn transcode(text: &str, root: &String, cache: &HashCache) -> (r: Result<String, PlaylistError>)
    requires
        cache.wf(),
    ensures
        match r {
            Ok(t) => transcode_spec(text@, root@, cache.hashes()) == Ok::<Seq<char>, (FaultKind, Seq<char>)>(t@),
            Err(f) => transcode_spec(text@, root@, cache.hashes()) == Err::<Seq<char>, (FaultKind, Seq<char>)>(fault_view(f)),
        },
{
    let entries = parse_playlist(text, root)?;
    render_playlist(&entries, cache)
}

} // verus!
