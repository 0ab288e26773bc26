use hashed_playlists::cache::HashCache;
use hashed_playlists::export::{export_names, exported_name, genre_files, SourceEntry};
use hashed_playlists::playlist::{
    is_playlist_name, parse_line, parse_playlist, render_playlist, track_paths, transcode, Entry, FaultKind,
};
use hashed_playlists::text::split_lines;

const HELLO_MD5: &str = "5d41402abc4b2a76b9719d911017c592";
const EMPTY_MD5: &str = "d41d8cd98f00b204e9800998ecf8427e";

fn s(t: &str) -> String {
    t.to_string()
}

fn is_hash(h: &str) -> bool {
    h.len() == 32 && h.chars().all(|c| c.is_ascii_digit() || ('a'..='f').contains(&c))
}

#[test]
fn same_content_same_hash_whatever_the_path() {
    let mut a = HashCache::new();
    let mut b = HashCache::new();
    let ha = a.store(&s("/lib/Rock/one.mp3"), &b"hello".to_vec());
    let hb = b.store(&s("/elsewhere/two.flac"), &b"hello".to_vec());
    assert_eq!(ha, hb);
    assert_eq!(ha, HELLO_MD5);
}

#[test]
fn empty_content_hash() {
    let mut c = HashCache::new();
    assert_eq!(c.store(&s("/lib/empty.mp3"), &Vec::new()), EMPTY_MD5);
}

#[test]
fn path_is_hashed_once() {
    let mut c = HashCache::new();
    let p = s("/lib/Rock/a.mp3");
    let first = c.store(&p, &b"hello".to_vec());
    let second = c.store(&p, &b"other bytes".to_vec());
    assert_eq!(first, HELLO_MD5);
    assert_eq!(second, HELLO_MD5);
    assert_eq!(c.lookup(&p), Some(s(HELLO_MD5)));
    assert_eq!(c.lookup(&s("/lib/Rock/b.mp3")), None);
}

#[test]
fn pending_lists_each_unhashed_path_once() {
    let mut c = HashCache::new();
    c.store(&s("/lib/b.mp3"), &b"b".to_vec());
    let paths = vec![s("/lib/a.mp3"), s("/lib/b.mp3"), s("/lib/a.mp3"), s("/lib/c.mp3")];
    assert_eq!(c.pending(&paths), vec![s("/lib/a.mp3"), s("/lib/c.mp3")]);
}

#[test]
fn example_scenario() {
    let root = s("/lib/");
    let text = "#EXTM3U\nfile:///lib/Rock/Song%20A.mp3\n/lib/top.mp3\n";
    let entries = parse_playlist(text, &root).unwrap();
    let paths = track_paths(&entries);
    assert_eq!(paths, vec![s("/lib/Rock/Song A.mp3"), s("/lib/top.mp3")]);
    let mut c = HashCache::new();
    c.store(&paths[0], &b"hello".to_vec());
    c.store(&paths[1], &Vec::new());
    let out = render_playlist(&entries, &c).unwrap();
    assert_eq!(
        out,
        format!("#EXTM3U\n../Rock/{}.mp3\n../{}.mp3\n", HELLO_MD5, EMPTY_MD5)
    );
    assert!(!out.contains("..//"));
}

#[test]
fn root_without_trailing_slash() {
    let mut c = HashCache::new();
    c.store(&s("/lib/Jazz/Slow/x.mp3"), &b"hello".to_vec());
    let out = transcode("/lib/Jazz/Slow/x.mp3", &s("/lib"), &c).unwrap();
    assert_eq!(out, format!("../Jazz/Slow/{}.mp3\n", HELLO_MD5));
}

#[test]
fn comments_kept_in_place() {
    let mut c = HashCache::new();
    c.store(&s("/lib/Pop/a.mp3"), &b"hello".to_vec());
    let text = "#EXTM3U\n#EXTINF:123,Artist - Title\n/lib/Pop/a.mp3\n# trailing note";
    let out = transcode(text, &s("/lib/"), &c).unwrap();
    let lines: Vec<&str> = out.lines().collect();
    assert_eq!(lines[0], "#EXTM3U");
    assert_eq!(lines[1], "#EXTINF:123,Artist - Title");
    assert_eq!(lines[2], format!("../Pop/{}.mp3", HELLO_MD5));
    assert_eq!(lines[3], "# trailing note");
    assert!(out.ends_with('\n'));
}

#[test]
fn track_lines_have_hash_shape() {
    let mut c = HashCache::new();
    c.store(&s("/lib/A/one.mp3"), &b"one".to_vec());
    c.store(&s("/lib/two.mp3"), &b"two".to_vec());
    c.store(&s("/lib/B/C/three.ogg"), &b"three".to_vec());
    let text = "#EXTM3U\n/lib/A/one.mp3\nfile:///lib/two.mp3\n/lib/B/C/three.ogg\n";
    let out = transcode(text, &s("/lib/"), &c).unwrap();
    for line in out.lines().filter(|l| !l.starts_with('#')) {
        assert!(line.starts_with("../"));
        assert!(line.ends_with(".mp3"));
        let name = line.rsplit('/').next().unwrap();
        assert!(is_hash(&name[..name.len() - 4]));
        assert!(!line.contains("//"));
    }
}

#[test]
fn export_and_playlist_agree_on_name() {
    let listing = vec![
        SourceEntry { path: s("/lib/Rock/X.mp3"), is_dir: false },
        SourceEntry { path: s("/lib/Rock/live"), is_dir: true },
    ];
    let files = genre_files(&listing);
    assert_eq!(files, vec![s("/lib/Rock/X.mp3")]);
    let mut c = HashCache::new();
    for f in c.pending(&files) {
        c.store(&f, &b"hello".to_vec());
    }
    let names = export_names(&c, &files).unwrap();
    let out = transcode("/lib/Rock/X.mp3", &s("/lib/"), &c).unwrap();
    assert_eq!(out, format!("../Rock/{}\n", names[0]));
    assert_eq!(names[0], exported_name(&s(HELLO_MD5)));
}

#[test]
fn two_runs_give_identical_output() {
    let text = "#EXTM3U\n/lib/R/a.mp3\n/lib/R/b.mp3\n/lib/R/a.mp3\n";
    let root = s("/lib/");
    let run = || {
        let mut c = HashCache::new();
        let entries = parse_playlist(text, &root).unwrap();
        for p in c.pending(&track_paths(&entries)) {
            let content = if p.ends_with("a.mp3") { b"aaa".to_vec() } else { b"bbb".to_vec() };
            c.store(&p, &content);
        }
        let files = vec![s("/lib/R/a.mp3"), s("/lib/R/b.mp3")];
        (render_playlist(&entries, &c).unwrap(), export_names(&c, &files).unwrap())
    };
    assert_eq!(run(), run());
}

#[test]
fn empty_playlist_gives_empty_output() {
    let c = HashCache::new();
    assert_eq!(transcode("", &s("/lib/"), &c).unwrap(), "");
}

#[test]
fn comment_only_playlist_is_copied() {
    let c = HashCache::new();
    let text = "#EXTM3U\n#EXTINF:1,x\n";
    assert_eq!(transcode(text, &s("/lib/"), &c).unwrap(), text);
}

#[test]
fn genre_of_subdirectories_exports_nothing() {
    let listing = vec![
        SourceEntry { path: s("/lib/Rock/a"), is_dir: true },
        SourceEntry { path: s("/lib/Rock/b"), is_dir: true },
    ];
    let files = genre_files(&listing);
    assert!(files.is_empty());
    assert_eq!(export_names(&HashCache::new(), &files), Some(Vec::new()));
}

#[test]
fn export_names_need_every_hash() {
    let mut c = HashCache::new();
    c.store(&s("/lib/a.mp3"), &b"hello".to_vec());
    assert_eq!(export_names(&c, &vec![s("/lib/a.mp3"), s("/lib/b.mp3")]), None);
}

#[test]
fn bad_encoding_is_a_fault() {
    let err = transcode("#EXTM3U\n/lib/%FF.mp3\n", &s("/lib/"), &HashCache::new()).unwrap_err();
    assert_eq!(err.kind, FaultKind::BadEncoding);
    assert_eq!(err.subject, "/lib/%FF.mp3");
}

#[test]
fn track_outside_root_is_a_fault() {
    let err = parse_playlist("/other/x.mp3\n", &s("/lib/")).unwrap_err();
    assert_eq!(err.kind, FaultKind::OutsideRoot);
    assert_eq!(err.subject, "/other/x.mp3");
    let err = parse_playlist("/library/x.mp3\n", &s("/lib")).unwrap_err();
    assert_eq!(err.kind, FaultKind::OutsideRoot);
}

#[test]
fn unhashed_track_is_a_fault() {
    let err = transcode("/lib/R/x.mp3\n", &s("/lib/"), &HashCache::new()).unwrap_err();
    assert_eq!(err.kind, FaultKind::NotHashed);
    assert_eq!(err.subject, "/lib/R/x.mp3");
}

#[test]
fn first_bad_line_decides() {
    let err = parse_playlist("/other/x.mp3\n/lib/%FF\n", &s("/lib/")).unwrap_err();
    assert_eq!(err.kind, FaultKind::OutsideRoot);
}

#[test]
fn line_decoding_and_scheme() {
    match parse_line(&s("file:///lib/Pop/A%26B%20%E2%99%A5.mp3"), &s("/lib/")).unwrap() {
        Entry::Track { path, parent } => {
            assert_eq!(path, "/lib/Pop/A&B \u{2665}.mp3");
            assert_eq!(parent, "Pop");
        }
        Entry::Comment(_) => panic!("expected a track"),
    }
    match parse_line(&s("#EXTINF:1,%20"), &s("/lib/")).unwrap() {
        Entry::Comment(l) => assert_eq!(l, "#EXTINF:1,%20"),
        Entry::Track { .. } => panic!("expected a comment"),
    }
}

#[test]
fn lines_split_like_str_lines() {
    assert_eq!(split_lines("a\r\nb\n\nc"), vec![s("a"), s("b"), s(""), s("c")]);
    assert_eq!(split_lines("a\n"), vec![s("a")]);
    assert_eq!(split_lines(""), Vec::<String>::new());
    assert_eq!(split_lines("x\r"), vec![s("x\r")]);
}

#[test]
fn only_m3u8_files_are_playlists() {
    assert!(is_playlist_name(&s("Road trip.m3u8")));
    assert!(!is_playlist_name(&s("Road trip.M3U8")));
    assert!(!is_playlist_name(&s("notes.txt")));
    assert!(!is_playlist_name(&s(".m3u8")));
    assert!(!is_playlist_name(&s("list.m3u")));
}

#[test]
fn empty_and_dot_segments_are_dropped_from_the_parent() {
    let mut c = HashCache::new();
    c.store(&s("/lib/A//x.mp3"), &b"hello".to_vec());
    c.store(&s("/lib/A/./y.mp3"), &Vec::new());
    c.store(&s("/lib//z.mp3"), &b"hello".to_vec());
    let out = transcode("/lib/A//x.mp3\n/lib/A/./y.mp3\n/lib//z.mp3\n", &s("/lib/"), &c).unwrap();
    assert_eq!(
        out,
        format!("../A/{h}.mp3\n../A/{e}.mp3\n../{h}.mp3\n", h = HELLO_MD5, e = EMPTY_MD5)
    );
    assert!(!out.contains("//"));
    assert!(!out.contains("/./"));
}

#[test]
fn percent_without_hex_digits_is_kept() {
    match parse_line(&s("/lib/R/50%.mp3"), &s("/lib/")).unwrap() {
        Entry::Track { path, .. } => assert_eq!(path, "/lib/R/50%.mp3"),
        Entry::Comment(_) => panic!("expected a track"),
    }
    match parse_line(&s("/lib/R/%zz%2a%2B%25.mp3"), &s("/lib/")).unwrap() {
        Entry::Track { path, parent } => {
            assert_eq!(path, "/lib/R/%zz*+%.mp3");
            assert_eq!(parent, "R");
        }
        Entry::Comment(_) => panic!("expected a track"),
    }
}
