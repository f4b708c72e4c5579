//! Searching on two legs.

use joy::retrieval::{
    fuses, nearest, rrf_fuse, search_hybrid, semantic_width, standings, Scored, Semantic, Standing,
};

/// A whole number that orders as the score does.
fn key(score: f32) -> i32 {
    (score * 1_000_000.0) as i32
}

fn worth(all: &Vec<Standing>) -> Vec<i32> {
    all.iter()
        .map(|s| key(s.ranks.iter().map(|r| 1.0 / (60.0 + *r as f32 + 1.0)).sum()))
        .collect()
}

/// The ids that come out, with the text that belongs to each place.
fn fused(keyword: &[(i64, &'static str)], semantic: &[(i64, &'static str)]) -> Vec<(i64, &'static str)> {
    let k: Vec<i64> = keyword.iter().map(|r| r.0).collect();
    let s: Vec<i64> = semantic.iter().map(|r| r.0).collect();
    let all = standings(&k, &s);
    let scores = worth(&all);
    let both: Vec<(i64, &'static str)> = keyword.iter().chain(semantic).cloned().collect();
    rrf_fuse(&all, &scores).into_iter().map(|p| both[p]).collect()
}

#[test]
fn rrf_favours_documents_both_legs_agree_on() {
    let out = fused(&[(1, "a"), (2, "b")], &[(2, "b"), (3, "c")]);
    let ids: Vec<i64> = out.iter().map(|r| r.0).collect();
    assert_eq!(ids[0], 2, "两条腿都命中的排第一：{ids:?}");
    assert_eq!(ids.len(), 3, "两边的并集，不重不漏");
    assert_eq!(out[0].1, "b", "行内容要原样带回来");
}

#[test]
fn rrf_is_stable_across_runs() {
    let keyword = [(7, "x")];
    let semantic = [(3, "y")];
    let first: Vec<i64> = fused(&keyword, &semantic).iter().map(|r| r.0).collect();
    let second: Vec<i64> = fused(&keyword, &semantic).iter().map(|r| r.0).collect();
    assert_eq!(first, second);
    assert_eq!(first, vec![7, 3], "并列时关键词那条腿在前");

    let only_keyword = fused(&keyword, &[]);
    assert_eq!(only_keyword[0].0, 7);
}

#[test]
fn without_an_embedder_retrieval_is_exactly_keyword() {
    let keyword: Vec<i64> = vec![4, 9, 1];
    let none: Vec<Standing> = vec![];
    for semantic in [Semantic::Off, Semantic::Failed("断了".to_string()), Semantic::Found(vec![])] {
        let places = search_hybrid(&keyword, &semantic, &none, &vec![], 2);
        let ids: Vec<i64> = places.into_iter().map(|p| keyword[p]).collect();
        assert_eq!(ids, keyword, "开关关着 = 与升级前完全一样");
    }
}

#[test]
fn a_fused_result_is_cut() {
    let keyword: Vec<i64> = vec![1, 2];
    let found: Vec<i64> = vec![2, 3];
    let all = standings(&keyword, &found);
    let scores = worth(&all);
    let places = search_hybrid(&keyword, &Semantic::Found(found), &all, &scores, 2);
    assert_eq!(places, vec![1, 0]);
    assert!(fuses(&Semantic::Found(vec![1])));
}

#[test]
fn a_standing_names_every_place_of_a_fact() {
    let all = standings(&vec![5, 6, 5], &vec![6, 8]);
    assert_eq!(
        all,
        vec![
            Standing { id: 5, first: 0, ranks: vec![0, 2] },
            Standing { id: 6, first: 1, ranks: vec![1, 0] },
            Standing { id: 8, first: 4, ranks: vec![1] },
        ]
    );
    assert_eq!(standings(&vec![], &vec![]), vec![]);
}

#[test]
fn the_nearest_come_first() {
    let all: Vec<Scored> = vec![(30, 4), (90, 2), (10, 1), (90, 1), (30, 4)];
    assert_eq!(nearest(&all, 30, 10), vec![3, 1, 0, 4]);
    assert_eq!(nearest(&all, 30, 1), vec![3]);
    assert_eq!(nearest(&all, 100, 10), Vec::<usize>::new());
    assert_eq!(nearest(&all, 0, 0), Vec::<usize>::new());
    assert_eq!(semantic_width(4), 8);
}
