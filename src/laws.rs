use vstd::prelude::*;
use crate::cache::{as_map, log_wf, store_spec, lemma_as_map_hashes};
use crate::digest::{is_content_hash, md5_hex_of, percent_decoded};
use crate::export::exported_name_of;
use crate::playlist::{
    EntryModel, is_comment, is_named_part, join_parts, part_scan, path_parts, join_lines, output_lines, parent_of, parse_line_spec, parse_lines_spec,
    parse_playlist_spec, relative_to, render_entry_spec, render_lines_spec, strip_scheme,
    track_paths_spec, transcode_spec, under_root, up_dir,
};
use crate::text::{line_scan, lines_of};

verus! {

/// The log after the same path was offered with each content of `cs` in turn.
pub open spec fn store_repeated(
    log: Seq<(Seq<char>, Seq<char>)>,
    path: Seq<char>,
    cs: Seq<Seq<u8>>,
) -> Seq<(Seq<char>, Seq<char>)>
    decreases cs.len(),
{
    if cs.len() == 0 {
        log
    } else {
        store_spec(store_repeated(log, path, cs.drop_last()), path, cs.last())
    }
}

/// The hash stored for a path depends on the content alone: two caches that
/// get the same bytes under different paths store the same hash.
pub proof fn lemma_hash_depends_on_content(
    log1: Seq<(Seq<char>, Seq<char>)>,
    p1: Seq<char>,
    log2: Seq<(Seq<char>, Seq<char>)>,
    p2: Seq<char>,
    content: Seq<u8>,
)
    requires
        !as_map(log1).contains_key(p1),
        !as_map(log2).contains_key(p2),
    ensures
        as_map(store_spec(log1, p1, content))[p1] == as_map(store_spec(log2, p2, content))[p2],
        as_map(store_spec(log1, p1, content))[p1] == md5_hex_of(content),
{
    assert(store_spec(log1, p1, content).drop_last() == log1);
    assert(store_spec(log2, p2, content).drop_last() == log2);
}

/// Offering the same path any number of times hashes it once: the log grows
/// by one computation, on the first content offered, and later offers return
/// that hash.
pub proof fn lemma_hashed_once(
    log: Seq<(Seq<char>, Seq<char>)>,
    path: Seq<char>,
    cs: Seq<Seq<u8>>,
)
    requires
        !as_map(log).contains_key(path),
        cs.len() >= 1,
    ensures
        store_repeated(log, path, cs) == log.push((path, md5_hex_of(cs[0]))),
        as_map(store_repeated(log, path, cs))[path] == md5_hex_of(cs[0]),
    decreases cs.len(),
{
    let first = log.push((path, md5_hex_of(cs[0])));
    assert(first.drop_last() == log);
    assert(as_map(first) == as_map(log).insert(path, md5_hex_of(cs[0])));
    if cs.len() == 1 {
        assert(cs.drop_last().len() == 0);
        assert(store_repeated(log, path, cs.drop_last()) == log);
        assert(cs.last() == cs[0]);
    } else {
        lemma_hashed_once(log, path, cs.drop_last());
        assert(cs.drop_last()[0] == cs[0]);
        assert(as_map(first).contains_key(path));
    }
}

proof fn lemma_parse_lines_each(lines: Seq<Seq<char>>, root: Seq<char>)
    requires
        parse_lines_spec(lines, root) is Ok,
    ensures
        parse_lines_spec(lines, root)->Ok_0.len() == lines.len(),
        forall|i: int| 0 <= i < lines.len() ==>
            parse_line_spec(#[trigger] lines[i], root) == Ok::<EntryModel, (crate::playlist::FaultKind, Seq<char>)>(parse_lines_spec(lines, root)->Ok_0[i]),
    decreases lines.len(),
{
    if lines.len() > 0 {
        let rest = lines.drop_last();
        lemma_parse_lines_each(rest, root);
        let er = parse_lines_spec(rest, root)->Ok_0;
        let es = parse_lines_spec(lines, root)->Ok_0;
        assert(es == er.push(parse_line_spec(lines.last(), root)->Ok_0));
        assert forall|i: int| 0 <= i < lines.len() implies
            parse_line_spec(#[trigger] lines[i], root) == Ok::<EntryModel, (crate::playlist::FaultKind, Seq<char>)>(es[i]) by {
            if i < lines.len() - 1 {
                assert(lines[i] == rest[i]);
            }
        }
    }
}

proof fn lemma_render_lines_each(es: Seq<EntryModel>, m: Map<Seq<char>, Seq<char>>)
    requires
        render_lines_spec(es, m) is Ok,
    ensures
        render_lines_spec(es, m)->Ok_0.len() == es.len(),
        forall|i: int| 0 <= i < es.len() ==>
            render_entry_spec(#[trigger] es[i], m) == Ok::<Seq<char>, (crate::playlist::FaultKind, Seq<char>)>(render_lines_spec(es, m)->Ok_0[i]),
    decreases es.len(),
{
    if es.len() > 0 {
        let rest = es.drop_last();
        lemma_render_lines_each(rest, m);
        let lr = render_lines_spec(rest, m)->Ok_0;
        let ls = render_lines_spec(es, m)->Ok_0;
        assert(ls == lr.push(render_entry_spec(es.last(), m)->Ok_0));
        assert forall|i: int| 0 <= i < es.len() implies
            render_entry_spec(#[trigger] es[i], m) == Ok::<Seq<char>, (crate::playlist::FaultKind, Seq<char>)>(ls[i]) by {
            if i < es.len() - 1 {
                assert(es[i] == rest[i]);
            }
        }
    }
}

/// The output line at each position comes from the input line at the same
/// position.
proof fn lemma_output_line(text: Seq<char>, root: Seq<char>, m: Map<Seq<char>, Seq<char>>, i: int)
    requires
        output_lines(text, root, m) is Ok,
        0 <= i < lines_of(text).len(),
    ensures
        output_lines(text, root, m)->Ok_0.len() == lines_of(text).len(),
        parse_line_spec(lines_of(text)[i], root) is Ok,
        render_entry_spec(parse_line_spec(lines_of(text)[i], root)->Ok_0, m)
            == Ok::<Seq<char>, (crate::playlist::FaultKind, Seq<char>)>(output_lines(text, root, m)->Ok_0[i]),
{
    lemma_parse_lines_each(lines_of(text), root);
    let es = parse_playlist_spec(text, root)->Ok_0;
    lemma_render_lines_each(es, m);
    assert(parse_line_spec(lines_of(text)[i], root) == Ok::<EntryModel, (crate::playlist::FaultKind, Seq<char>)>(es[i]));
}

/// A comment line of the input stands unchanged at the same position of the output.
pub proof fn lemma_comments_kept(text: Seq<char>, root: Seq<char>, m: Map<Seq<char>, Seq<char>>, i: int)
    requires
        output_lines(text, root, m) is Ok,
        0 <= i < lines_of(text).len(),
        is_comment(lines_of(text)[i]),
    ensures
        output_lines(text, root, m)->Ok_0.len() == lines_of(text).len(),
        output_lines(text, root, m)->Ok_0[i] == lines_of(text)[i],
{
    lemma_output_line(text, root, m, i);
}

/// A part of an output path: a named level with no `/` in it.
pub open spec fn is_plain_part(part: Seq<char>) -> bool {
    is_named_part(part) && !part.contains('/')
}

/// Each part followed by a `/`.
pub open spec fn slash_terminated(ps: Seq<Seq<char>>) -> Seq<char>
    decreases ps.len(),
{
    if ps.len() == 0 {
        seq![]
    } else {
        slash_terminated(ps.drop_last()) + ps.last() + seq!['/']
    }
}

proof fn lemma_scan_parts_plain(s: Seq<char>)
    ensures
        forall|k: int| 0 <= k < part_scan(s).0.len() ==> is_plain_part(#[trigger] part_scan(s).0[k]),
        !part_scan(s).1.contains('/'),
    decreases s.len(),
{
    if s.len() > 0 {
        lemma_scan_parts_plain(s.drop_last());
        let (ended, open) = part_scan(s.drop_last());
        if s.last() != '/' {
            assert forall|j: int| 0 <= j < open.push(s.last()).len() implies open.push(s.last())[j] != '/' by {
                if j < open.len() {
                    assert(open.push(s.last())[j] == open[j]);
                    assert(!open.contains('/'));
                    if open[j] == '/' {
                        assert(open.contains('/'));
                    }
                }
            }
        } else if is_named_part(open) {
            let e = ended.push(open);
            assert forall|k: int| 0 <= k < e.len() implies is_plain_part(#[trigger] e[k]) by {
                if k < ended.len() {
                    assert(e[k] == ended[k]);
                }
            }
        }
        assert(Seq::<char>::empty().len() == 0);
    }
}

proof fn lemma_path_parts_plain(s: Seq<char>)
    ensures
        forall|k: int| 0 <= k < path_parts(s).len() ==> is_plain_part(#[trigger] path_parts(s)[k]),
{
    lemma_scan_parts_plain(s);
    let (ended, open) = part_scan(s);
    if is_named_part(open) {
        let e = ended.push(open);
        assert forall|k: int| 0 <= k < e.len() implies is_plain_part(#[trigger] e[k]) by {
            if k < ended.len() {
                assert(e[k] == ended[k]);
            }
        }
    }
}

proof fn lemma_join_then_slash(ps: Seq<Seq<char>>)
    requires
        ps.len() > 0,
        forall|k: int| 0 <= k < ps.len() ==> is_plain_part(#[trigger] ps[k]),
    ensures
        join_parts(ps) + seq!['/'] == slash_terminated(ps),
        join_parts(ps).len() > 0,
    decreases ps.len(),
{
    if ps.len() == 1 {
        assert(ps.drop_last() == Seq::<Seq<char>>::empty());
        assert(is_plain_part(ps[0]));
        assert(ps.last() == ps[0]);
        assert(slash_terminated(ps.drop_last()) == Seq::<char>::empty());
        assert(slash_terminated(ps) == slash_terminated(ps.drop_last()) + ps.last() + seq!['/']);
        assert(Seq::<char>::empty() + ps[0] =~= ps[0]);
    } else {
        let q = ps.drop_last();
        assert forall|k: int| 0 <= k < q.len() implies is_plain_part(#[trigger] q[k]) by {
            assert(q[k] == ps[k]);
        }
        lemma_join_then_slash(q);
        assert(join_parts(ps) + seq!['/'] =~= (join_parts(q) + seq!['/']) + ps.last() + seq!['/']);
    }
}

/// Every output line that is not a comment reads `../<sub><hash>.mp3`, where
/// `<sub>` is a run of named parts without `/`, each followed by one `/`
/// (no empty or `.` segment), and `<hash>` is 32 lowercase hex digits.
pub proof fn lemma_track_line_shape(
    text: Seq<char>,
    root: Seq<char>,
    log: Seq<(Seq<char>, Seq<char>)>,
    i: int,
)
    requires
        log_wf(log),
        output_lines(text, root, as_map(log)) is Ok,
        0 <= i < lines_of(text).len(),
        !is_comment(lines_of(text)[i]),
    ensures
        exists|parts: Seq<Seq<char>>, h: Seq<char>|
            (forall|k: int| 0 <= k < parts.len() ==> is_plain_part(#[trigger] parts[k])) && is_content_hash(h)
            && #[trigger] output_lines(text, root, as_map(log))->Ok_0[i] == up_dir() + slash_terminated(parts) + exported_name_of(h),
{
    let m = as_map(log);
    lemma_output_line(text, root, m, i);
    let e = parse_line_spec(lines_of(text)[i], root)->Ok_0;
    let out = output_lines(text, root, m)->Ok_0[i];
    if let EntryModel::Track(p, parent) = e {
        lemma_as_map_hashes(log, p);
        let h = m[p];
        let ps = path_parts(relative_to(p, root));
        lemma_path_parts_plain(relative_to(p, root));
        let q = if ps.len() == 0 { Seq::<Seq<char>>::empty() } else { ps.drop_last() };
        assert forall|k: int| 0 <= k < q.len() implies is_plain_part(#[trigger] q[k]) by {
            assert(q[k] == ps[k]);
        }
        if q.len() == 0 {
            assert(parent == Seq::<char>::empty());
            assert(slash_terminated(q) == Seq::<char>::empty());
            assert(out == up_dir() + slash_terminated(q) + exported_name_of(h));
        } else {
            lemma_join_then_slash(q);
            assert(parent == join_parts(q));
            assert(out == up_dir() + (parent + seq!['/']) + exported_name_of(h));
            assert(out == up_dir() + slash_terminated(q) + exported_name_of(h));
        }
    }
}

/// A track line and the export of the file it names agree on the name: the
/// rewritten line ends in the name under which that file is exported.
pub proof fn lemma_round_trip_naming(
    line: Seq<char>,
    root: Seq<char>,
    log: Seq<(Seq<char>, Seq<char>)>,
    x: Seq<char>,
)
    requires
        !is_comment(line),
        percent_decoded(line) matches Some(d) && strip_scheme(d) == x,
        under_root(x, root),
        as_map(log).contains_key(x),
    ensures
        parse_line_spec(line, root) == Ok::<EntryModel, (crate::playlist::FaultKind, Seq<char>)>(
            EntryModel::Track(x, parent_of(relative_to(x, root)))),
        exists|pre: Seq<char>| #[trigger] render_entry_spec(parse_line_spec(line, root)->Ok_0, as_map(log))
            == Ok::<Seq<char>, (crate::playlist::FaultKind, Seq<char>)>(pre + exported_name_of(as_map(log)[x])),
{
    let parent = parent_of(relative_to(x, root));
    let name = exported_name_of(as_map(log)[x]);
    if parent.len() == 0 {
        assert(up_dir() + name == up_dir() + name);
    } else {
        assert(up_dir() + parent + seq!['/'] + name == (up_dir() + parent + seq!['/']) + name);
    }
}

spec fn agree_on(m1: Map<Seq<char>, Seq<char>>, m2: Map<Seq<char>, Seq<char>>, p: Seq<char>) -> bool {
    m1.contains_key(p) && m2.contains_key(p) && m1[p] == m2[p]
}

proof fn lemma_render_agrees(es: Seq<EntryModel>, m1: Map<Seq<char>, Seq<char>>, m2: Map<Seq<char>, Seq<char>>)
    requires
        forall|k: int| 0 <= k < track_paths_spec(es).len() ==> agree_on(m1, m2, #[trigger] track_paths_spec(es)[k]),
    ensures
        render_lines_spec(es, m1) == render_lines_spec(es, m2),
    decreases es.len(),
{
    if es.len() > 0 {
        let rest = es.drop_last();
        let tr = track_paths_spec(rest);
        let te = track_paths_spec(es);
        match es.last() {
            EntryModel::Comment(_) => {
                assert(te == tr);
            },
            EntryModel::Track(q, _) => {
                assert(te == tr.push(q));
                assert(te[te.len() - 1] == q);
                assert(agree_on(m1, m2, q));
            },
        }
        assert forall|k: int| 0 <= k < tr.len() implies agree_on(m1, m2, #[trigger] tr[k]) by {
            assert(te[k] == tr[k]);
        }
        lemma_render_agrees(rest, m1, m2);
    }
}

/// Two runs over an unchanged library rewrite a playlist to the same text:
/// each run hashed every referenced file from the same content.
pub proof fn lemma_runs_agree(
    text: Seq<char>,
    root: Seq<char>,
    m1: Map<Seq<char>, Seq<char>>,
    m2: Map<Seq<char>, Seq<char>>,
    library: Map<Seq<char>, Seq<u8>>,
)
    requires
        parse_playlist_spec(text, root) matches Ok(es) && forall|p: Seq<char>| #[trigger] track_paths_spec(es).contains(p) ==> {
            &&& m1.contains_key(p) && m1[p] == md5_hex_of(library[p])
            &&& m2.contains_key(p) && m2[p] == md5_hex_of(library[p])
        },
    ensures
        transcode_spec(text, root, m1) == transcode_spec(text, root, m2),
{
    let es = parse_playlist_spec(text, root)->Ok_0;
    let tp = track_paths_spec(es);
    assert forall|k: int| 0 <= k < tp.len() implies agree_on(m1, m2, #[trigger] tp[k]) by {
        assert(tp.contains(tp[k]));
    }
    lemma_render_agrees(es, m1, m2);
}

/// Two runs over an unchanged library give each exported file the same name.
pub proof fn lemma_export_names_agree(
    f: Seq<char>,
    m1: Map<Seq<char>, Seq<char>>,
    m2: Map<Seq<char>, Seq<char>>,
    library: Map<Seq<char>, Seq<u8>>,
)
    requires
        m1.contains_key(f) && m1[f] == md5_hex_of(library[f]),
        m2.contains_key(f) && m2[f] == md5_hex_of(library[f]),
    ensures
        exported_name_of(m1[f]) == exported_name_of(m2[f]),
{
}

proof fn lemma_scan_rejoins(text: Seq<char>)
    requires
        forall|i: int| 0 <= i < text.len() ==> #[trigger] text[i] != '\r',
    ensures
        join_lines(line_scan(text).0) + line_scan(text).1 == text,
        line_scan(text).1.len() > 0 ==> line_scan(text).1.last() == text.last(),
        text.len() > 0 && text.last() == '\n' ==> line_scan(text).1.len() == 0,
    decreases text.len(),
{
    if text.len() > 0 {
        let t = text.drop_last();
        assert forall|i: int| 0 <= i < t.len() implies #[trigger] t[i] != '\r' by {
            assert(t[i] == text[i]);
        }
        lemma_scan_rejoins(t);
        let (ended, open) = line_scan(t);
        let c = text.last();
        if c == '\n' {
            if open.len() > 0 {
                assert(open.last() == t[t.len() - 1]);
            }
            let e = ended.push(open);
            assert(e.drop_last() == ended);
            assert(join_lines(e) == join_lines(ended) + open + seq!['\n']);
            assert(join_lines(e) + Seq::<char>::empty() == text);
        } else {
            assert(join_lines(ended) + open == t);
            assert(t.push(c) == text);
            assert(join_lines(ended) + open.push(c) =~= (join_lines(ended) + open).push(c));
        }
    }
}

/// A playlist of comment lines alone comes out as its lines, each ended by a
/// `'\n'`; an empty playlist comes out empty; one whose lines all end in a
/// bare `'\n'` comes out byte for byte as it went in.
pub proof fn lemma_comments_only(text: Seq<char>, root: Seq<char>, m: Map<Seq<char>, Seq<char>>)
    requires
        forall|i: int| 0 <= i < lines_of(text).len() ==> is_comment(#[trigger] lines_of(text)[i]),
    ensures
        transcode_spec(text, root, m) == Ok::<Seq<char>, (crate::playlist::FaultKind, Seq<char>)>(join_lines(lines_of(text))),
        text.len() == 0 ==> transcode_spec(text, root, m) == Ok::<Seq<char>, (crate::playlist::FaultKind, Seq<char>)>(Seq::<char>::empty()),
        (forall|i: int| 0 <= i < text.len() ==> #[trigger] text[i] != '\r') && (text.len() == 0 || text.last() == '\n')
            ==> transcode_spec(text, root, m) == Ok::<Seq<char>, (crate::playlist::FaultKind, Seq<char>)>(text),
{
    if (forall|i: int| 0 <= i < text.len() ==> #[trigger] text[i] != '\r') && (text.len() == 0 || text.last() == '\n') {
        lemma_scan_rejoins(text);
        assert(join_lines(lines_of(text)) == text);
    }
    lemma_comment_lines(lines_of(text), root, m);
    if text.len() == 0 {
        assert(lines_of(text).len() == 0);
    }
}

proof fn lemma_comment_lines(lines: Seq<Seq<char>>, root: Seq<char>, m: Map<Seq<char>, Seq<char>>)
    requires
        forall|i: int| 0 <= i < lines.len() ==> is_comment(#[trigger] lines[i]),
    ensures
        parse_lines_spec(lines, root) is Ok,
        render_lines_spec(parse_lines_spec(lines, root)->Ok_0, m) == Ok::<Seq<Seq<char>>, (crate::playlist::FaultKind, Seq<char>)>(lines),
    decreases lines.len(),
{
    if lines.len() > 0 {
        let rest = lines.drop_last();
        assert forall|i: int| 0 <= i < rest.len() implies is_comment(#[trigger] rest[i]) by {
            assert(rest[i] == lines[i]);
        }
        lemma_comment_lines(rest, root, m);
        assert(is_comment(lines[lines.len() - 1]));
        let er = parse_lines_spec(rest, root)->Ok_0;
        let es = parse_lines_spec(lines, root)->Ok_0;
        assert(es == er.push(EntryModel::Comment(lines.last())));
        assert(es.drop_last() == er);
        assert(render_lines_spec(es, m) == Ok::<Seq<Seq<char>>, (crate::playlist::FaultKind, Seq<char>)>(rest.push(lines.last())));
        assert(rest.push(lines.last()) == lines);
    } else {
        assert(lines == Seq::<Seq<char>>::empty());
    }
}

} // verus!
