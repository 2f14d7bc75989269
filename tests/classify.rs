use pack_sort::classify::{
    bare_name, classify, classify_by_extension, get_target_path, extension_of, find_rule,
    fixed_rules, split_template, str_ends_with, Rule,
};

fn path(parts: &[&str]) -> Vec<String> {
    parts.iter().map(|p| p.to_string()).collect()
}

fn rules(pairs: &[(&str, &str)]) -> Vec<Rule> {
    pairs
        .iter()
        .map(|(s, t)| Rule { suffix: s.to_string(), template: t.to_string() })
        .collect()
}

#[test]
fn longest_suffix_wins() {
    let r = rules(&[("json", "RP/x"), ("rc.json", "RP/render_controllers")]);
    assert_eq!(
        classify(&path(&["foo", "bar.rc.json"]), &r),
        Some(path(&["RP", "render_controllers", "foo", "bar.rc.json"]))
    );
}

#[test]
fn longest_suffix_wins_in_any_rule_order() {
    let r = rules(&[("rc.json", "RP/render_controllers"), ("json", "RP/x")]);
    assert_eq!(
        classify(&path(&["foo", "bar.rc.json"]), &r),
        Some(path(&["RP", "render_controllers", "foo", "bar.rc.json"]))
    );
}

#[test]
fn shorter_suffix_applies_alone() {
    let r = rules(&[("json", "RP/x"), ("rc.json", "RP/render_controllers")]);
    assert_eq!(
        classify(&path(&["foo", "bar.json"]), &r),
        Some(path(&["RP", "x", "foo", "bar.json"]))
    );
}

#[test]
fn equal_suffixes_first_wins() {
    let r = rules(&[("lang", "RP/texts"), ("lang", "RP/other")]);
    assert_eq!(find_rule(&"en.lang".to_string(), &r), Some(0));
    assert_eq!(
        classify(&path(&["en.lang"]), &r),
        Some(path(&["RP", "texts", "en.lang"]))
    );
}

#[test]
fn bare_file_underscore() {
    let r = rules(&[("bpe.json", "BP/entities")]);
    assert_eq!(
        classify(&path(&["entities", "_bpe.json"]), &r),
        Some(path(&["BP", "entities", "entities.bpe.json"]))
    );
}

#[test]
fn bare_file_underscore_dot() {
    let r = rules(&[("bpe.json", "BP/entities")]);
    assert_eq!(
        classify(&path(&["entities", "_.bpe.json"]), &r),
        Some(path(&["BP", "entities", "entities.bpe.json"]))
    );
}

#[test]
fn bare_file_plain_uses_grandparent() {
    let r = rules(&[("bpe.json", "BP/entities")]);
    assert_eq!(
        classify(&path(&["mobs", "zombie", "bpe.json"]), &r),
        Some(path(&["BP", "entities", "mobs", "zombie.bpe.json"]))
    );
}

#[test]
fn bare_file_dotted_token() {
    let r = rules(&[(".bpe.json", "BP/entities")]);
    assert_eq!(
        classify(&path(&["cow", "_.bpe.json"]), &r),
        Some(path(&["BP", "entities", "cow.bpe.json"]))
    );
}

#[test]
fn bare_file_without_parent_is_unmapped() {
    let r = rules(&[("bpe.json", "BP/entities")]);
    assert_eq!(classify(&path(&["_bpe.json"]), &r), None);
}

#[test]
fn unmapped_file() {
    let r = rules(&[("lang", "RP/texts")]);
    assert_eq!(classify(&path(&["readme.txt"]), &r), None);
}

#[test]
fn empty_path_is_unmapped() {
    let r = rules(&[("lang", "RP/texts")]);
    assert_eq!(classify(&path(&[]), &r), None);
}

#[test]
fn empty_suffix_never_matches() {
    let r = rules(&[("", "RP/any")]);
    assert_eq!(classify(&path(&["a.png"]), &r), None);
}

#[test]
fn classify_is_deterministic() {
    let r = rules(&[("json", "RP/x"), ("rc.json", "RP/render_controllers")]);
    let p = path(&["foo", "bar.rc.json"]);
    let first = classify(&p, &r);
    for _ in 0..10 {
        assert_eq!(classify(&p, &r), first);
    }
}

#[test]
fn template_separators_are_normalized() {
    let r = rules(&[("png", "/RP//textures/")]);
    assert_eq!(
        classify(&path(&["blocks", "stone.png"]), &r),
        Some(path(&["RP", "textures", "blocks", "stone.png"]))
    );
}

#[test]
fn split_template_segments() {
    assert_eq!(split_template(&"RP/models/entity".to_string()), path(&["RP", "models", "entity"]));
    assert_eq!(split_template(&"//a//b/".to_string()), path(&["a", "b"]));
    assert_eq!(split_template(&"".to_string()), path(&[]));
}

#[test]
fn suffix_test() {
    assert!(str_ends_with("bar.rc.json", "rc.json"));
    assert!(str_ends_with("bar.rc.json", ""));
    assert!(!str_ends_with("json", "rc.json"));
    assert!(!str_ends_with("bar.rc.jsoN", "json"));
}

#[test]
fn bare_name_forms() {
    let t = "bpe.json".to_string();
    assert!(bare_name(&"bpe.json".to_string(), &t));
    assert!(bare_name(&"_bpe.json".to_string(), &t));
    assert!(bare_name(&"_.bpe.json".to_string(), &t));
    assert!(!bare_name(&"x.bpe.json".to_string(), &t));
    assert!(!bare_name(&"__bpe.json".to_string(), &t));
}

#[test]
fn derived_extensions() {
    assert_eq!(extension_of(&"foo.rc.json".to_string()), Some("rc.json".to_string()));
    assert_eq!(extension_of(&"rc.json".to_string()), Some("rc.json".to_string()));
    assert_eq!(extension_of(&"a.b.png".to_string()), Some("png".to_string()));
    assert_eq!(extension_of(&"noext".to_string()), Some("noext".to_string()));
    assert_eq!(extension_of(&"json".to_string()), None);
    assert_eq!(extension_of(&".json".to_string()), Some(".json".to_string()));
}

#[test]
fn fixed_table_scenario() {
    assert_eq!(
        get_target_path(&path(&["models", "foo.geo.json"])),
        Some(path(&["RP", "models", "entity", "models", "foo.geo.json"]))
    );
}

#[test]
fn fixed_table_single_extension() {
    assert_eq!(
        get_target_path(&path(&["blocks", "dirt.png"])),
        Some(path(&["RP", "textures", "blocks", "dirt.png"]))
    );
    assert_eq!(
        get_target_path(&path(&["ambient", "wind.ogg"])),
        Some(path(&["RP", "sounds", "ambient", "wind.ogg"]))
    );
}

#[test]
fn fixed_table_bare_file() {
    assert_eq!(
        get_target_path(&path(&["mobs", "zombie", "bpe.json"])),
        Some(path(&["BP", "entities", "mobs", "zombie.bpe.json"]))
    );
    assert_eq!(
        get_target_path(&path(&["zombie", "_.bpe.json"])),
        Some(path(&["BP", "entities", "zombie.bpe.json"]))
    );
}

#[test]
fn fixed_table_unknown_extension() {
    assert_eq!(get_target_path(&path(&["readme.txt"])), None);
    assert_eq!(get_target_path(&path(&["a", "json"])), None);
    assert_eq!(get_target_path(&path(&["a", "x.xi.json"])), None);
}

#[test]
fn fixed_table_has_every_row() {
    let t = fixed_rules();
    assert_eq!(t.len(), 31);
    assert_eq!(t[0].suffix, "lang");
    assert_eq!(t[0].template, "RP/texts");
    assert_eq!(t[30].suffix, "tt.json");
    assert_eq!(t[30].template, "BP/trading");
}

#[test]
fn variants_agree_on_same_extension() {
    let t = fixed_rules();
    for p in [
        path(&["a", "b.bpi.json"]),
        path(&["a", "b.i.json"]),
        path(&["a", "b.rpac.json"]),
        path(&["snd", "x.mp4"]),
        path(&["zombie", "bpe.json"]),
    ] {
        assert_eq!(classify(&p, &t), classify_by_extension(&p, &t));
    }
}

#[test]
fn suffix_and_extension_variants_differ_on_unknown_extension() {
    let t = fixed_rules();
    let p = path(&["a", "x.xi.json"]);
    assert_eq!(classify(&p, &t), Some(path(&["BP", "items", "a", "x.xi.json"])));
    assert_eq!(classify_by_extension(&p, &t), None);
}
