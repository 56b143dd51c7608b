use filele::jobs::{collect_jobs, total_fits, Found, FoundKind, Input, Job};
use filele::sort::sort;

fn file(id: usize, name: Option<&str>, size: u64) -> Input {
    Input {
        id,
        name: name.map(|n| n.to_string()),
        kind: FoundKind::File,
        size,
        mtime: 11,
        mode: 22,
        found: Vec::new(),
    }
}

fn dir(id: usize, name: Option<&str>, found: Vec<Found>) -> Input {
    Input {
        id,
        name: name.map(|n| n.to_string()),
        kind: FoundKind::Dir,
        size: 4096,
        mtime: 33,
        mode: 44,
        found,
    }
}

fn below(id: usize, rel: &str, kind: FoundKind, size: u64) -> Found {
    Found { id, rel: rel.to_string(), kind, size, mtime: 5, mode: 6 }
}

fn rels(jobs: &Vec<Job>) -> Vec<String> {
    jobs.iter().map(|j| j.rel.clone()).collect()
}

fn tree() -> Vec<Found> {
    vec![
        below(1, "z.txt", FoundKind::File, 10),
        below(2, "sub", FoundKind::Dir, 4096),
        below(3, "sub\\a.txt", FoundKind::File, 20),
        below(4, "link", FoundKind::Symlink, 7),
        below(5, "pipe", FoundKind::Other, 7),
        below(6, "sub/deep", FoundKind::Dir, 4096),
    ]
}

#[test]
fn a_file_is_sent_under_its_name() {
    let (jobs, total) = collect_jobs(&vec![file(9, Some("movie.mkv"), 123)]);
    assert_eq!(rels(&jobs), vec!["movie.mkv"]);
    assert_eq!((jobs[0].id, jobs[0].size, jobs[0].mtime, jobs[0].mode), (9, 123, 11, 22));
    assert!(!jobs[0].is_dir);
    assert_eq!(total, 123);
    let (nameless, _) = collect_jobs(&vec![file(0, None, 1)]);
    assert_eq!(rels(&nameless), vec!["file"]);
}

#[test]
fn a_lone_directory_sends_its_contents() {
    let (jobs, total) = collect_jobs(&vec![dir(0, Some("photos"), tree())]);
    assert_eq!(rels(&jobs), vec!["sub", "sub/deep", "sub/a.txt", "z.txt"]);
    assert_eq!(total, 30);
    assert!(jobs[0].is_dir && jobs[1].is_dir && !jobs[2].is_dir);
    assert_eq!(jobs[0].size, 0);
}

#[test]
fn several_paths_keep_their_names() {
    let inputs = vec![dir(0, Some("photos"), tree()), file(9, Some("b.txt"), 1), dir(8, Some("empty"), vec![])];
    let (jobs, total) = collect_jobs(&inputs);
    assert_eq!(
        rels(&jobs),
        vec![
            "empty",
            "photos",
            "photos/sub",
            "photos/sub/deep",
            "b.txt",
            "photos/sub/a.txt",
            "photos/z.txt"
        ]
    );
    assert_eq!(total, 31);
    assert_eq!((jobs[0].id, jobs[0].mtime, jobs[0].mode), (8, 33, 44));
}

#[test]
fn directories_without_a_name_send_their_contents() {
    let (jobs, _) = collect_jobs(&vec![dir(0, None, tree()), file(9, Some("b"), 1)]);
    assert_eq!(rels(&jobs), vec!["sub", "sub/deep", "b", "sub/a.txt", "z.txt"]);
}

#[test]
fn links_and_oddities_are_skipped() {
    let only = vec![below(4, "link", FoundKind::Symlink, 7), below(5, "pipe", FoundKind::Other, 7)];
    let (jobs, total) = collect_jobs(&vec![dir(0, Some("d"), only)]);
    assert!(jobs.is_empty());
    assert_eq!(total, 0);
    let mut odd = file(0, Some("dev"), 5);
    odd.kind = FoundKind::Other;
    assert!(collect_jobs(&vec![odd]).0.is_empty());
}

#[test]
fn totals_that_cannot_be_counted_are_seen() {
    assert!(total_fits(&vec![file(0, Some("a"), u64::MAX)]));
    assert!(!total_fits(&vec![file(0, Some("a"), u64::MAX), file(1, Some("b"), 1)]));
    let huge = vec![below(1, "a", FoundKind::File, u64::MAX), below(2, "b", FoundKind::File, 1)];
    assert!(!total_fits(&vec![dir(0, Some("d"), huge)]));
    let dirs = vec![below(1, "a", FoundKind::Dir, u64::MAX), below(2, "b", FoundKind::Dir, 1)];
    assert!(total_fits(&vec![dir(0, Some("d"), dirs)]));
}

#[test]
fn jobs_are_sorted_as_a_stable_sort_would() {
    let names = ["b", "a", "a/b", "B", "\u{e9}", "a", "ab", "a.b", "", "z", "a", "b/c", "b"];
    let mut seed: u64 = 12345;
    for len in 0..60usize {
        let mut v: Vec<Job> = Vec::new();
        for id in 0..len {
            seed = seed.wrapping_mul(6364136223846793005).wrapping_add(1442695040888963407);
            let pick = (seed >> 33) as usize;
            v.push(Job {
                id,
                rel: names[pick % names.len()].to_string(),
                size: 0,
                mtime: 0,
                mode: 0,
                is_dir: pick % 3 == 0,
            });
        }
        let mut want: Vec<(bool, String, usize)> =
            v.iter().map(|j| (!j.is_dir, j.rel.clone(), j.id)).collect();
        want.sort_by(|a, b| (a.0, &a.1).partial_cmp(&(b.0, &b.1)).unwrap());
        let got: Vec<(bool, String, usize)> =
            sort(v).iter().map(|j| (!j.is_dir, j.rel.clone(), j.id)).collect();
        assert_eq!(got, want);
    }
}
