use pack_sort::classify::{Matching, Rule};
use pack_sort::copier::{after_copy, after_probe, child_path, first_step, CopyOutcome, FileStep, Walk};
use std::collections::HashMap;

fn path(parts: &[&str]) -> Vec<String> {
    parts.iter().map(|p| p.to_string()).collect()
}

fn rules() -> Vec<Rule> {
    vec![
        Rule { suffix: "bpe.json".to_string(), template: "BP/entities".to_string() },
        Rule { suffix: "png".to_string(), template: "RP/textures".to_string() },
    ]
}

/// Drives the steps for one file against an in-memory destination tree;
/// `fails` names destinations whose copy fails.
fn handle(
    rel: &Vec<String>,
    content: &[u8],
    rules: &Vec<Rule>,
    dest: &mut HashMap<Vec<String>, Vec<u8>>,
    fails: &[Vec<String>],
) -> CopyOutcome {
    let mut step = first_step(rel, rules, Matching::Suffix);
    loop {
        step = match step {
            FileStep::Done(o) => return o,
            FileStep::Probe(t) => {
                let exists = dest.contains_key(&t);
                after_probe(rel, t, exists)
            }
            FileStep::Copy(t) => {
                if fails.contains(&t) {
                    return after_copy(rel, t, Some("permission denied".to_string()));
                }
                dest.insert(t.clone(), content.to_vec());
                return after_copy(rel, t, None);
            }
        }
    }
}

fn staged() -> Vec<(Vec<String>, Vec<u8>)> {
    vec![
        (path(&["zombie", "bpe.json"]), b"{\"z\":1}".to_vec()),
        (path(&["blocks", "stone.png"]), vec![1, 2, 3]),
        (path(&["blocks", "dirt.png"]), vec![4, 5]),
    ]
}

#[test]
fn unmapped_file_is_done_at_once() {
    let step = first_step(&path(&["readme.txt"]), &rules(), Matching::Suffix);
    assert_eq!(
        step,
        FileStep::Done(CopyOutcome::SkippedUnmapped { source: path(&["readme.txt"]) })
    );
}

#[test]
fn mapped_file_is_probed() {
    let step = first_step(&path(&["blocks", "stone.png"]), &rules(), Matching::Suffix);
    assert_eq!(step, FileStep::Probe(path(&["RP", "textures", "blocks", "stone.png"])));
}

#[test]
fn existing_destination_is_skipped() {
    let src = path(&["blocks", "stone.png"]);
    let t = path(&["RP", "textures", "blocks", "stone.png"]);
    assert_eq!(
        after_probe(&src, t.clone(), true),
        FileStep::Done(CopyOutcome::SkippedExists { source: src.clone(), target: t.clone() })
    );
    assert_eq!(after_probe(&src, t.clone(), false), FileStep::Copy(t));
}

#[test]
fn copy_result_becomes_outcome() {
    let src = path(&["a.png"]);
    let t = path(&["RP", "textures", "a.png"]);
    assert_eq!(
        after_copy(&src, t.clone(), None),
        CopyOutcome::Copied { source: src.clone(), target: t.clone() }
    );
    assert_eq!(
        after_copy(&src, t.clone(), Some("disk full".to_string())),
        CopyOutcome::Failed { source: src, target: t, cause: "disk full".to_string() }
    );
}

#[test]
fn second_run_copies_nothing() {
    let r = rules();
    let mut dest = HashMap::new();
    for (rel, content) in staged() {
        assert!(matches!(handle(&rel, &content, &r, &mut dest, &[]), CopyOutcome::Copied { .. }));
    }
    let after_first = dest.clone();
    assert_eq!(after_first.len(), 3);
    assert_eq!(
        after_first.get(&path(&["BP", "entities", "zombie.bpe.json"])),
        Some(&b"{\"z\":1}".to_vec())
    );
    for (rel, content) in staged() {
        assert!(matches!(
            handle(&rel, &content, &r, &mut dest, &[]),
            CopyOutcome::SkippedExists { .. }
        ));
    }
    assert_eq!(dest, after_first);
}

#[test]
fn one_failure_leaves_others_copied() {
    let r = rules();
    let mut dest = HashMap::new();
    let failing = path(&["RP", "textures", "blocks", "stone.png"]);
    let outcomes: Vec<CopyOutcome> = staged()
        .iter()
        .map(|(rel, content)| handle(rel, content, &r, &mut dest, &[failing.clone()]))
        .collect();
    assert!(matches!(outcomes[0], CopyOutcome::Copied { .. }));
    assert!(matches!(outcomes[1], CopyOutcome::Failed { .. }));
    assert!(matches!(outcomes[2], CopyOutcome::Copied { .. }));
    assert_eq!(dest.len(), 2);
}

#[test]
fn colliding_destinations_copy_once() {
    let r = rules();
    let mut dest = HashMap::new();
    let a = handle(&path(&["zombie", "bpe.json"]), b"a", &r, &mut dest, &[]);
    let b = handle(&path(&["zombie.bpe.json"]), b"b", &r, &mut dest, &[]);
    assert!(matches!(a, CopyOutcome::Copied { .. }));
    assert!(matches!(b, CopyOutcome::SkippedExists { .. }));
    assert_eq!(dest.get(&path(&["BP", "entities", "zombie.bpe.json"])), Some(&b"a".to_vec()));
}

#[test]
fn walk_lists_last_entered_first() {
    let mut w = Walk::new();
    assert!(!w.is_done());
    let root = w.next_dir().unwrap();
    assert!(root.is_empty());
    assert!(w.is_done());
    w.enter(&root, "a".to_string());
    w.enter(&root, "b".to_string());
    let b = w.next_dir().unwrap();
    assert_eq!(b, path(&["b"]));
    w.enter(&b, "c".to_string());
    assert_eq!(w.next_dir(), Some(path(&["b", "c"])));
    assert_eq!(w.next_dir(), Some(path(&["a"])));
    assert_eq!(w.next_dir(), None);
    assert!(w.is_done());
}

#[test]
fn child_path_appends() {
    assert_eq!(child_path(&path(&["a", "b"]), "c.png".to_string()), path(&["a", "b", "c.png"]));
}
