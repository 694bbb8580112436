use std::collections::HashMap;
use wordlist_gen::lists::imdb::{
    add_item, process_name_basics, process_title_akas, process_title_basics,
    process_title_principals, process_title_ratings, to_num, BadIdentifier, NameBasicData,
    TitleAkaData, TitleBasicData, TitlePrincipalData, TitleRatingData, ACTOR_CUTOFF, MOVIE_CUTOFF,
    TV_CUTOFF,
};

fn rating(t: &str, v: u64) -> TitleRatingData {
    TitleRatingData { tconst: t.to_string(), num_votes: v }
}

fn aka(id: &str, title: &str, region: &str, types: &str, attributes: &str) -> TitleAkaData {
    TitleAkaData {
        title_id: id.to_string(),
        title: title.to_string(),
        region: region.to_string(),
        types: types.to_string(),
        attributes: attributes.to_string(),
    }
}

fn basic(t: &str, ty: &str, title: &str) -> TitleBasicData {
    TitleBasicData { tconst: t.to_string(), title_type: ty.to_string(), primary_title: title.to_string() }
}

fn principal(t: &str, ordering: usize, n: &str, category: &str) -> TitlePrincipalData {
    TitlePrincipalData {
        tconst: t.to_string(),
        ordering,
        nconst: n.to_string(),
        category: category.to_string(),
    }
}

fn name(n: &str, primary: &str) -> NameBasicData {
    NameBasicData { nconst: n.to_string(), primary_name: primary.to_string() }
}

#[test]
fn to_num_decodes() {
    assert_eq!(to_num("tt0000001"), Some(1));
    assert_eq!(to_num("nm0123456"), Some(123456));
    assert_eq!(to_num("tt4294967295"), Some(u32::MAX));
    assert_eq!(to_num("tt+5"), Some(5));
}

#[test]
fn to_num_rejects_malformed() {
    assert_eq!(to_num(""), None);
    assert_eq!(to_num("t"), None);
    assert_eq!(to_num("tt"), None);
    assert_eq!(to_num("tt+"), None);
    assert_eq!(to_num("tt12a"), None);
    assert_eq!(to_num("tt-1"), None);
    assert_eq!(to_num("tt4294967296"), None);
    assert_eq!(to_num("tt99999999999999999999999"), None);
}

#[test]
fn add_item_accumulates() {
    let mut m = HashMap::new();
    add_item(&mut m, 7, 10);
    add_item(&mut m, 7, 5);
    add_item(&mut m, 8, 1);
    assert_eq!(m.get(&7), Some(&15));
    assert_eq!(m.get(&8), Some(&1));
    add_item(&mut m, 8, u64::MAX);
    assert_eq!(m.get(&8), Some(&u64::MAX));
}

#[test]
fn ratings_pass() {
    let rows = vec![rating("tt0000001", 10), rating("tt0000002", 20), rating("tt0000001", 30)];
    let m = process_title_ratings(&rows).unwrap();
    assert_eq!(m.len(), 2);
    assert_eq!(m.get(&1), Some(&30));
    assert_eq!(m.get(&2), Some(&20));
}

#[test]
fn ratings_pass_bad_id() {
    let rows = vec![rating("tt0000001", 10), rating("xx", 20), rating("bad", 1)];
    assert_eq!(process_title_ratings(&rows).err(), Some(BadIdentifier { row: 1 }));
}

#[test]
fn akas_pass_keeps_qualifying_in_order() {
    let rows = vec![
        aka("tt0000001", "Original One", "\\N", "original", "\\N"),
        aka("tt0000001", "Dubbed", "DE", "imdbDisplay", "\\N"),
        aka("tt0000001", "Short One", "US", "\\N", "short title"),
        aka("tt0000001", "Short GB", "GB", "\\N", "short title"),
        aka("bogus", "Skipped", "FR", "\\N", "\\N"),
    ];
    let m = process_title_akas(&rows).unwrap();
    assert_eq!(m.len(), 1);
    assert_eq!(m.get(&1), Some(&vec!["Original One".to_string(), "Short One".to_string()]));
}

#[test]
fn akas_pass_bad_id() {
    let rows = vec![aka("x", "T", "US", "original", "\\N")];
    assert_eq!(process_title_akas(&rows).err(), Some(BadIdentifier { row: 0 }));
}

#[test]
fn basics_pass_categorizes() {
    let mut ratings = HashMap::new();
    ratings.insert(1u32, 5000u64);
    ratings.insert(2u32, 2000u64);
    ratings.insert(3u32, 9000u64);
    ratings.insert(4u32, 100u64);
    let mut akas = HashMap::new();
    akas.insert(1u32, vec!["Le Film".to_string(), "The Film!".to_string()]);
    let rows = vec![
        basic("tt0000001", "movie", "The Film"),
        basic("tt0000002", "tvSeries", "A Show"),
        basic("tt0000003", "short", "A Short"),
        basic("tt0000004", "movie", "Obscure"),
        basic("tt0000005", "movie", "Unrated"),
    ];
    let (pruned, movies, tv) =
        process_title_basics(&rows, ratings, akas, MOVIE_CUTOFF, TV_CUTOFF).unwrap();
    let mut sorted_movies = movies.clone();
    sorted_movies.sort();
    assert_eq!(sorted_movies, vec![("LE FILM".to_string(), 5000), ("THE FILM".to_string(), 5000)]);
    assert_eq!(tv, vec![("A SHOW".to_string(), 2000)]);
    assert_eq!(pruned.get(&3), None);
    assert_eq!(pruned.get(&1), Some(&5000));
    assert_eq!(pruned.get(&4), Some(&100));
    assert_eq!(pruned.len(), 3);
}

#[test]
fn short_title_excluded_from_actor_scores() {
    let mut ratings = HashMap::new();
    ratings.insert(3u32, 9000u64);
    let rows = vec![basic("tt0000003", "short", "A Short")];
    let (pruned, movies, tv) =
        process_title_basics(&rows, ratings, HashMap::new(), MOVIE_CUTOFF, TV_CUTOFF).unwrap();
    assert!(movies.is_empty() && tv.is_empty());
    let credits = vec![principal("tt0000003", 1, "nm0000001", "actor")];
    let scores = process_title_principals(&credits, &pruned).unwrap();
    assert!(scores.is_empty());
}

#[test]
fn basics_pass_bad_id() {
    let rows = vec![basic("tt0000001", "movie", "X"), basic("??", "movie", "Y")];
    let r = process_title_basics(&rows, HashMap::new(), HashMap::new(), 0, 0);
    assert_eq!(r.err(), Some(BadIdentifier { row: 1 }));
}

#[test]
fn actor_weighting() {
    let mut ratings = HashMap::new();
    ratings.insert(1u32, 1000u64);
    let credits = vec![
        principal("tt0000001", 1, "nm0000001", "actor"),
        principal("tt0000001", 38, "nm0000002", "actress"),
        principal("tt0000001", 2, "nm0000003", "actress"),
        principal("tt0000001", 3, "nm0000004", "director"),
        principal("tt0000001", 37, "nm0000005", "actor"),
        principal("tt0000009", 1, "nm0000006", "actor"),
        principal("tt0000001", 4, "nm0000003", "actress"),
    ];
    let scores = process_title_principals(&credits, &ratings).unwrap();
    assert_eq!(scores.get(&1), Some(&100000));
    assert_eq!(scores.get(&2), None);
    assert_eq!(scores.get(&3), Some(&(88000 + 68000)));
    assert_eq!(scores.get(&4), None);
    assert_eq!(scores.get(&5), Some(&1000));
    assert_eq!(scores.get(&6), None);
    assert_eq!(scores.len(), 3);
}

#[test]
fn principals_bad_ids() {
    let mut ratings = HashMap::new();
    ratings.insert(1u32, 1000u64);
    let unrated_bad_person = vec![principal("tt0000002", 1, "zz", "actor")];
    assert!(process_title_principals(&unrated_bad_person, &ratings).unwrap().is_empty());
    let rated_bad_person = vec![principal("tt0000001", 1, "zz", "actor")];
    assert_eq!(
        process_title_principals(&rated_bad_person, &ratings).err(),
        Some(BadIdentifier { row: 0 })
    );
    let bad_title = vec![principal("tt0000001", 1, "nm1", "actor"), principal("q", 1, "nm1", "actor")];
    assert_eq!(process_title_principals(&bad_title, &ratings).err(), Some(BadIdentifier { row: 1 }));
}

#[test]
fn names_pass() {
    let mut votes = HashMap::new();
    votes.insert(1u32, 900000u64);
    votes.insert(2u32, 700000u64);
    votes.insert(3u32, 1200000u64);
    let rows = vec![
        name("nm0000001", "Jane Doe"),
        name("nm0000002", "Below Cutoff"),
        name("nm0000003", "John Roe"),
        name("nm0000004", "Unscored"),
    ];
    let list = process_name_basics(&rows, &votes, ACTOR_CUTOFF).unwrap();
    assert_eq!(
        list,
        vec![("JOHN ROE".to_string(), 1200000), ("JANE DOE".to_string(), 900000)]
    );
    let bad = vec![name("nm0000001", "Jane Doe"), name("", "X")];
    assert_eq!(process_name_basics(&bad, &votes, 0).err(), Some(BadIdentifier { row: 1 }));
}
