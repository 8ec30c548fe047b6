//! XDG paths and data-file lookup.

use qingjian_fcitx5::paths::{
    config_dir, config_file, data_dir, data_search_dirs, find_data_file, join, language_model_source,
    share_dir, shared_dicts_dir, ModelSource,
};

#[test]
fn xdg_variables_win_over_home() {
    assert_eq!(config_dir(Some("/x/config"), Some("/home/u")), Some("/x/config/qingjian".to_string()));
    assert_eq!(config_dir(Some(""), Some("/home/u")), Some("/home/u/.config/qingjian".to_string()));
    assert_eq!(config_dir(None, Some("/home/u/")), Some("/home/u/.config/qingjian".to_string()));
    assert_eq!(config_dir(None, None), None);
    assert_eq!(data_dir(None, Some("/home/u")), Some("/home/u/.local/share/qingjian".to_string()));
    assert_eq!(data_dir(Some("/d"), None), Some("/d/qingjian".to_string()));
    assert_eq!(
        config_file(None, Some("/home/u")),
        Some("/home/u/.config/qingjian/config.toml".to_string())
    );
}

#[test]
fn share_dir_defaults_to_usr_share() {
    assert_eq!(share_dir(None), "/usr/share/qingjian");
    assert_eq!(share_dir(Some("")), "/usr/share/qingjian");
    assert_eq!(share_dir(Some("/repo/assets")), "/repo/assets");
}

#[test]
fn joining_follows_path_rules() {
    assert_eq!(join("/a", "b"), "/a/b");
    assert_eq!(join("/a/", "b"), "/a/b");
    assert_eq!(join("", "b"), "b");
    assert_eq!(join("/a", "/b"), "/b");
}

#[test]
fn search_dirs_cover_bundle_and_user() {
    assert_eq!(
        data_search_dirs("/s", Some("/u")),
        vec!["/s", "/s/lexicon", "/s/glossary", "/s/emoji", "/u"]
    );
    assert_eq!(data_search_dirs("/s", None).len(), 4);
}

#[test]
fn packed_files_come_first_and_dirs_in_order() {
    let dirs = vec!["/s".to_string(), "/s/lexicon".to_string()];
    let present = ["/s/lexicon/dict.tsv", "/s/lexicon/dict.qj"];
    let found = find_data_file(&dirs, "dict.tsv", |p: &str| present.contains(&p));
    assert_eq!(found, Some("/s/lexicon/dict.qj".to_string()));

    let present = ["/s/lexicon/glossary-en.tsv", "/s/glossary-en.tsv"];
    let found = find_data_file(&dirs, "glossary-en.tsv", |p: &str| present.contains(&p));
    assert_eq!(found, Some("/s/glossary-en.tsv".to_string()));

    let found = find_data_file(&dirs, "english.tsv", |_: &str| false);
    assert_eq!(found, None);

    // Only the last extension is replaced, after dropping one.
    let present = ["/s/a.qj"];
    assert_eq!(find_data_file(&dirs, "a.b.tsv", |p: &str| present.contains(&p)), Some("/s/a.qj".to_string()));
    let present = ["/s/sub/dict.qj"];
    assert_eq!(find_data_file(&dirs, "sub/dict.tsv", |p: &str| present.contains(&p)), Some("/s/sub/dict.qj".to_string()));
    let present = ["/s/a.qj"];
    assert_eq!(find_data_file(&dirs, "a/.", |p: &str| present.contains(&p)), Some("/s/a.qj".to_string()));
    let present = ["/abs/x.tsv"];
    assert_eq!(find_data_file(&dirs, "/abs/x.tsv", |p: &str| present.contains(&p)), Some("/abs/x.tsv".to_string()));
    let present = ["/s/..", "/s/.."];
    assert_eq!(find_data_file(&dirs, "..", |p: &str| present.contains(&p)), Some("/s/..".to_string()));
    let present = ["/s/.hidden.qj"];
    assert_eq!(find_data_file(&dirs, ".hidden", |p: &str| present.contains(&p)), Some("/s/.hidden.qj".to_string()));
}

#[test]
fn language_model_prefers_packed_then_pair() {
    let dirs = vec!["/s".to_string()];
    let present = ["/s/lm.qj", "/s/lm-unigram.tsv", "/s/lm-bigram.tsv"];
    match language_model_source(&dirs, |p: &str| present.contains(&p)) {
        Some(ModelSource::Packed(path)) => assert_eq!(path, "/s/lm.qj"),
        _ => panic!("packed model expected"),
    }
    let present = ["/s/lm-unigram.tsv", "/s/lm-bigram.tsv"];
    match language_model_source(&dirs, |p: &str| present.contains(&p)) {
        Some(ModelSource::Tables { unigram, bigram }) => {
            assert_eq!(unigram, "/s/lm-unigram.tsv");
            assert_eq!(bigram, "/s/lm-bigram.tsv");
        }
        _ => panic!("tables expected"),
    }
    let present = ["/s/lm-unigram.tsv"];
    assert!(language_model_source(&dirs, |p: &str| present.contains(&p)).is_none());
}

#[test]
fn shared_dicts_dir_needs_a_directory() {
    assert_eq!(shared_dicts_dir("/s", |p: &str| p == "/s/dicts"), Some("/s/dicts".to_string()));
    assert_eq!(shared_dicts_dir("/s", |_: &str| false), None);
}
