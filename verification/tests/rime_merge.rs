//! Merging TSV dictionaries: largest weight per (word, pinyin), sorted output.

use qingjian_fcitx5::rime::{merge_tsv, render_tsv, TSV_HEADER};

#[test]
fn merges_and_keeps_max_weight() {
    let base = "---\nname: base\n...\n报错\tbao cuo\t74910\n搞错\tgao cuo\t12935\n".to_string();
    let ext = "---\nname: ext\n...\n报错\tbao cuo\t100\n爆粗\tbao cu\t1170\n".to_string();
    let merged = merge_tsv(&vec![base, ext]);
    let text = render_tsv(&merged);
    assert!(text.contains("报错\tbao cuo\t74910\n"));
    assert!(text.contains("爆粗\tbao cu\t1170\n"));
    assert!(!text.contains("报错\tbao cuo\t100\n"));
}

#[test]
fn output_is_sorted_with_header() {
    let text = "b\tx\t2\na\ty\t3\na\tx\t1\nb\tx\t9\n".to_string();
    let merged = merge_tsv(&vec![text]);
    let rendered = render_tsv(&merged);
    assert_eq!(rendered, format!("{TSV_HEADER}\na\tx\t1\na\ty\t3\nb\tx\t9\n"));
}

#[test]
fn weights_default_to_one() {
    let text = "w\tp\r\nv\tq\tmany\nu\tr\t+7\tnote\nt\ts\t99999999999\nnotab\n\n".to_string();
    let merged = merge_tsv(&vec![text]);
    let lines: Vec<(String, String, u32)> =
        merged.into_iter().map(|e| (e.word, e.pinyin, e.weight)).collect();
    assert_eq!(
        lines,
        vec![
            ("t".to_string(), "s".to_string(), 1),
            ("u".to_string(), "r".to_string(), 7),
            ("v".to_string(), "q".to_string(), 1),
            ("w".to_string(), "p".to_string(), 1),
        ]
    );
}

#[test]
fn empty_input_gives_only_the_header() {
    let merged = merge_tsv(&vec![]);
    assert!(merged.is_empty());
    assert_eq!(render_tsv(&merged), format!("{TSV_HEADER}\n"));
}

#[test]
fn merging_ignores_order_and_repetition() {
    let a = "报错\tbao cuo\t74910\n搞错\tgao cuo\t12935\n".to_string();
    let b = "报错\tbao cuo\t100\n爆粗\tbao cu\t1170\n".to_string();
    let ab = render_tsv(&merge_tsv(&vec![a.clone(), b.clone()]));
    let ba = render_tsv(&merge_tsv(&vec![b.clone(), a.clone()]));
    assert_eq!(ab, ba);
    let aa = render_tsv(&merge_tsv(&vec![a.clone(), a.clone()]));
    let single = render_tsv(&merge_tsv(&vec![a]));
    assert_eq!(aa, single);
}
