use std::collections::HashMap;
use vstd::prelude::*;
use vstd::string::StrSliceExecFns;

use crate::normalize::{is_digit, normalized};
use crate::wordlist::{finalized, observe, Model, Wordlist, WordlistGenerator};

verus! {

broadcast use vstd::std_specs::hash::group_hash_axioms;

/// Credits beyond this billing position earn an actor nothing.
pub const ACTOR_LIMIT: usize = 37;

/// The cutoff of the movie list.
pub const MOVIE_CUTOFF: u64 = 4000;

/// The cutoff of the TV series list.
pub const TV_CUTOFF: u64 = 1200;

/// The cutoff of the actor list.
pub const ACTOR_CUTOFF: u64 = 800000;

/// The share of a title's weight that each billing position earns, from
/// position 1 on.
pub open spec fn actor_weights() -> Seq<u64> {
    seq![
        100u64, 88, 77, 68, 60, 53, 47, 41, 36, 32, 28, 25, 22, 19, 17, 15, 13, 11, 10, 9, 8, 7, 6,
        5, 4, 4, 3, 3, 3, 2, 2, 2, 1, 1, 1, 1, 1,
    ]
}

/// A row of the ratings dataset.
pub struct TitleRatingData {
    pub tconst: String,
    pub num_votes: u64,
}

/// A row of the alternate titles dataset.
pub struct TitleAkaData {
    pub title_id: String,
    pub title: String,
    pub region: String,
    pub types: String,
    pub attributes: String,
}

/// A row of the title basics dataset.
pub struct TitleBasicData {
    pub tconst: String,
    pub title_type: String,
    pub primary_title: String,
}

/// A row of the principal cast dataset.
pub struct TitlePrincipalData {
    pub tconst: String,
    pub ordering: usize,
    pub nconst: String,
    pub category: String,
}

/// A row of the name basics dataset.
pub struct NameBasicData {
    pub nconst: String,
    pub primary_name: String,
}

/// The row at this index holds an identifier that does not decode.
#[derive(Debug, PartialEq, Eq, Structural)]
pub struct BadIdentifier {
    pub row: usize,
}

/// The decimal value of a string of digits.
pub open spec fn digits_value(s: Seq<char>) -> int
    decreases s.len(),
{
    if s.len() == 0 {
        0
    } else {
        digits_value(s.drop_last()) * 10 + (s.last() as int - '0' as int)
    }
}

pub open spec fn all_digits(s: Seq<char>) -> bool {
    forall|i: int| 0 <= i < s.len() ==> is_digit(#[trigger] s[i])
}

/// An unsigned decimal that fits in a `u32`, with an optional leading `+`
/// (as Rust's integer parsing has it).
pub open spec fn parse_u32(s: Seq<char>) -> Option<u32> {
    let d = if s.len() > 0 && s[0] == '+' {
        s.drop_first()
    } else {
        s
    };
    if d.len() > 0 && all_digits(d) && digits_value(d) <= u32::MAX {
        Some(digits_value(d) as u32)
    } else {
        None
    }
}

/// The numeric identifier behind a code such as `tt0000001`: its first two
/// characters are dropped and the rest read as a number.
pub open spec fn id_of(s: Seq<char>) -> Option<u32> {
    if s.len() >= 2 {
        parse_u32(s.skip(2))
    } else {
        None
    }
}

proof fn lemma_digits_value_nonneg(s: Seq<char>)
    requires
        all_digits(s),
    ensures
        digits_value(s) >= 0,
    decreases s.len(),
{
    if s.len() > 0 {
        let p = s.drop_last();
        assert(all_digits(p)) by {
            assert forall|i: int| 0 <= i < p.len() implies is_digit(#[trigger] p[i]) by {
                assert(p[i] == s[i]);
            }
        }
        lemma_digits_value_nonneg(p);
        assert(is_digit(s[s.len() - 1]));
    }
}

/// Decodes an identifier code: drops its two-character prefix and parses the
/// rest as a `u32`. `None` where the code is malformed.
pub fn to_num(s: &str) -> (r: Option<u32>)
    ensures
        r == id_of(s@),
{
    let n = s.unicode_len();
    if n < 2 {
        return None;
    }
    let ghost t = s@.skip(2);
    let mut start: usize = 2;
    if n > 2 && s.get_char(2) == '+' {
        start = 3;
    }
    let ghost d = s@.subrange(start as int, n as int);
    assert(d == (if t.len() > 0 && t[0] == '+' { t.drop_first() } else { t }));
    if start == n {
        assert(d.len() == 0);
        return None;
    }
    let big: u64 = 0x1_0000_0000;
    let mut acc: u64 = 0;
    let mut i: usize = start;
    while i < n
        invariant
            n == s@.len(),
            start <= i <= n,
            d == s@.subrange(start as int, n as int),
            t == s@.skip(2),
            d == (if t.len() > 0 && t[0] == '+' {
                t.drop_first()
            } else {
                t
            }),
            all_digits(s@.subrange(start as int, i as int)),
            acc == if digits_value(s@.subrange(start as int, i as int)) < big {
                digits_value(s@.subrange(start as int, i as int))
            } else {
                big as int
            },
            big == 0x1_0000_0000,
        decreases n - i,
    {
        let c = s.get_char(i);
        let ghost prev = s@.subrange(start as int, i as int);
        let ghost next = s@.subrange(start as int, i + 1);
        assert(next.drop_last() == prev);
        if !('0' <= c && c <= '9') {
            assert(d[i - start] == c);
            assert(!is_digit(d[i - start]));
            assert(!all_digits(d));
            assert(parse_u32(t) is None);
            return None;
        }
        assert(all_digits(next)) by {
            assert forall|j: int| 0 <= j < next.len() implies is_digit(#[trigger] next[j]) by {
                if j < prev.len() {
                    assert(next[j] == prev[j]);
                }
            }
        }
        proof {
            lemma_digits_value_nonneg(prev);
        }
        let dv = (c as u64) - ('0' as u64);
        if acc < big {
            let v = acc * 10 + dv;
            acc = if v < big {
                v
            } else {
                big
            };
        } else {
            assert(digits_value(next) >= big) by (nonlinear_arith)
                requires
                    digits_value(next) == digits_value(prev) * 10 + dv,
                    digits_value(prev) >= big,
                    dv >= 0,
                    big > 0,
            ;
        }
        i = i + 1;
    }
    assert(s@.subrange(start as int, n as int) == d);
    if acc < big {
        Some(acc as u32)
    } else {
        None
    }
}

/// `p` starts `s`.
pub open spec fn has_prefix(s: Seq<char>, p: Seq<char>) -> bool {
    p.len() <= s.len() && s.take(p.len() as int) == p
}

fn text_eq(a: &str, b: &str) -> (r: bool)
    ensures
        r == (a@ == b@),
{
    let n = a.unicode_len();
    if n != b.unicode_len() {
        return false;
    }
    let mut i: usize = 0;
    while i < n
        invariant
            n == a@.len(),
            n == b@.len(),
            i <= n,
            forall|j: int| 0 <= j < i ==> a@[j] == b@[j],
        decreases n - i,
    {
        if a.get_char(i) != b.get_char(i) {
            return false;
        }
        i = i + 1;
    }
    assert(a@ == b@);
    true
}

fn starts_with_text(s: &str, p: &str) -> (r: bool)
    ensures
        r == has_prefix(s@, p@),
{
    let n = p.unicode_len();
    if n > s.unicode_len() {
        return false;
    }
    let mut i: usize = 0;
    while i < n
        invariant
            n == p@.len(),
            n <= s@.len(),
            i <= n,
            forall|j: int| 0 <= j < i ==> s@[j] == p@[j],
        decreases n - i,
    {
        if s.get_char(i) != p.get_char(i) {
            assert(s@.take(n as int)[i as int] != p@[i as int]);
            return false;
        }
        i = i + 1;
    }
    assert(s@.take(n as int) == p@);
    true
}

/// `amt` added to the running total of `k` (absent counts as zero); the sum
/// saturates at `u64::MAX`.
pub open spec fn credit(m: Map<u32, u64>, k: u32, amt: u64) -> Map<u32, u64> {
    let cur = if m.contains_key(k) {
        m[k]
    } else {
        0
    };
    m.insert(
        k,
        if cur + amt > u64::MAX {
            u64::MAX
        } else {
            (cur + amt) as u64
        },
    )
}

/// Adds `amt` to the running total of `key`.
pub fn add_item(map: &mut HashMap<u32, u64>, key: u32, amt: u64)
    ensures
        final(map)@ == credit(old(map)@, key, amt),
{
    let cur: u64 = match map.get(&key) {
        Some(v) => *v,
        None => 0,
    };
    map.insert(key, cur.saturating_add(amt));
}

/// The ratings pass over `rows`: each title's vote count, a later row for the
/// same title replacing an earlier one.
pub open spec fn ratings_fold(rows: Seq<TitleRatingData>) -> Map<u32, u64>
    decreases rows.len(),
{
    if rows.len() == 0 {
        Map::empty()
    } else {
        ratings_fold(rows.drop_last()).insert(
            id_of(rows.last().tconst@).unwrap(),
            rows.last().num_votes,
        )
    }
}

/// Builds the map from title to vote count. Fails at the first row whose
/// title code does not decode.
pub fn process_title_ratings(rows: &Vec<TitleRatingData>) -> (r: Result<HashMap<u32, u64>, BadIdentifier>)
    ensures
        match r {
            Ok(m) => (forall|i: int| 0 <= i < rows@.len() ==> id_of(#[trigger] rows@[i].tconst@) is Some)
                && m@ == ratings_fold(rows@),
            Err(e) => e.row < rows@.len() && id_of(rows@[e.row as int].tconst@) is None && forall|
                i: int,
            | 0 <= i < e.row ==> id_of(#[trigger] rows@[i].tconst@) is Some,
        },
{
    let mut m: HashMap<u32, u64> = HashMap::new();
    let mut i: usize = 0;
    while i < rows.len()
        invariant
            i <= rows@.len(),
            m@ == ratings_fold(rows@.take(i as int)),
            forall|j: int| 0 <= j < i ==> id_of(#[trigger] rows@[j].tconst@) is Some,
        decreases rows@.len() - i,
    {
        let row = &rows[i];
        assert(rows@.take(i + 1).drop_last() == rows@.take(i as int));
        match to_num(row.tconst.as_str()) {
            None => {
                return Err(BadIdentifier { row: i });
            },
            Some(id) => {
                m.insert(id, row.num_votes);
            },
        }
        i = i + 1;
    }
    assert(rows@.take(i as int) == rows@);
    Ok(m)
}

/// The share of a title's weight that billing position `position` earns.
fn actor_weight(position: usize) -> (r: u64)
    requires
        1 <= position <= ACTOR_LIMIT,
    ensures
        r == actor_weights()[position - 1],
{
    let weights: [u64; ACTOR_LIMIT] = [
        100, 88, 77, 68, 60, 53, 47, 41, 36, 32, 28, 25, 22, 19, 17, 15, 13, 11, 10, 9, 8, 7, 6, 5,
        4, 4, 3, 3, 3, 2, 2, 2, 1, 1, 1, 1, 1,
    ];
    assert(weights@ == actor_weights());
    weights[position - 1]
}

/// A credit that earns an actor a share: a billing position within the limit
/// and a category that begins with "act" (actor, actress).
pub open spec fn credited(row: TitlePrincipalData) -> bool {
    1 <= row.ordering <= ACTOR_LIMIT && has_prefix(row.category@, "act"@)
}

/// A principal row decodes: its title code always, its person code where the
/// row earns a share.
pub open spec fn principal_ok(row: TitlePrincipalData, ratings: Map<u32, u64>) -> bool {
    &&& id_of(row.tconst@) is Some
    &&& ratings.contains_key(id_of(row.tconst@).unwrap()) && credited(row) ==> id_of(
        row.nconst@,
    ) is Some
}

/// The share that a row earns: the title's weight times the weight of the
/// billing position, saturating at `u64::MAX`.
pub open spec fn share(votes: u64, row: TitlePrincipalData) -> u64 {
    let w = actor_weights()[row.ordering - 1];
    if votes * w > u64::MAX {
        u64::MAX
    } else {
        (votes * w) as u64
    }
}

pub open spec fn principals_step(
    counts: Map<u32, u64>,
    ratings: Map<u32, u64>,
    row: TitlePrincipalData,
) -> Map<u32, u64> {
    let t = id_of(row.tconst@).unwrap();
    if ratings.contains_key(t) && credited(row) {
        credit(counts, id_of(row.nconst@).unwrap(), share(ratings[t], row))
    } else {
        counts
    }
}

/// The principals pass over `rows`: each person's accumulated score.
pub open spec fn principals_fold(rows: Seq<TitlePrincipalData>, ratings: Map<u32, u64>) -> Map<
    u32,
    u64,
>
    decreases rows.len(),
{
    if rows.len() == 0 {
        Map::empty()
    } else {
        principals_step(principals_fold(rows.drop_last(), ratings), ratings, rows.last())
    }
}

/// Scores each person from the principal cast rows: a credited actor of a
/// rated title earns the title's weight times the weight of the billing
/// position. Fails at the first row that does not decode.
pub fn process_title_principals(rows: &Vec<TitlePrincipalData>, ratings: &HashMap<u32, u64>) -> (r:
    Result<HashMap<u32, u64>, BadIdentifier>)
    ensures
        match r {
            Ok(m) => (forall|i: int| 0 <= i < rows@.len() ==> principal_ok(#[trigger] rows@[i], ratings@))
                && m@ == principals_fold(rows@, ratings@),
            Err(e) => e.row < rows@.len() && !principal_ok(rows@[e.row as int], ratings@) && forall|
                i: int,
            | 0 <= i < e.row ==> principal_ok(#[trigger] rows@[i], ratings@),
        },
{
    let mut counts: HashMap<u32, u64> = HashMap::new();
    let mut i: usize = 0;
    while i < rows.len()
        invariant
            i <= rows@.len(),
            counts@ == principals_fold(rows@.take(i as int), ratings@),
            forall|j: int| 0 <= j < i ==> principal_ok(#[trigger] rows@[j], ratings@),
        decreases rows@.len() - i,
    {
        let row = &rows[i];
        assert(rows@.take(i + 1).drop_last() == rows@.take(i as int));
        let t = match to_num(row.tconst.as_str()) {
            None => {
                return Err(BadIdentifier { row: i });
            },
            Some(t) => t,
        };
        match ratings.get(&t) {
            Some(votes) => {
                if 1 <= row.ordering && row.ordering <= ACTOR_LIMIT && starts_with_text(
                    row.category.as_str(),
                    "act",
                ) {
                    let p = match to_num(row.nconst.as_str()) {
                        None => {
                            return Err(BadIdentifier { row: i });
                        },
                        Some(p) => p,
                    };
                    let w = actor_weight(row.ordering);
                    let amt = match votes.checked_mul(w) {
                        Some(x) => x,
                        None => u64::MAX,
                    };
                    add_item(&mut counts, p, amt);
                }
            },
            None => {},
        }
        i = i + 1;
    }
    assert(rows@.take(i as int) == rows@);
    Ok(counts)
}

/// Alternate titles by title: each title's qualifying names, in arrival order.
pub type Akas = Map<u32, Seq<String>>;

pub open spec fn akas_view(m: Map<u32, Vec<String>>) -> Akas {
    m.map_values(|v: Vec<String>| v@)
}

/// An alternate title that is kept: the original title, or the US short title.
pub open spec fn aka_qualifies(row: TitleAkaData) -> bool {
    row.types@ == "original"@ || (row.attributes@ == "short title"@ && row.region@ == "US"@)
}

/// An alternate title row decodes where it is kept.
pub open spec fn aka_ok(row: TitleAkaData) -> bool {
    aka_qualifies(row) ==> id_of(row.title_id@) is Some
}

/// The alternate titles pass over `rows`.
pub open spec fn akas_fold(rows: Seq<TitleAkaData>) -> Akas
    decreases rows.len(),
{
    if rows.len() == 0 {
        Map::empty()
    } else {
        let m = akas_fold(rows.drop_last());
        let row = rows.last();
        if aka_qualifies(row) {
            let id = id_of(row.title_id@).unwrap();
            let prev = if m.contains_key(id) {
                m[id]
            } else {
                Seq::empty()
            };
            m.insert(id, prev.push(row.title))
        } else {
            m
        }
    }
}

/// Collects, for each title, its original and US short alternate titles in
/// arrival order. Fails at the first kept row whose code does not decode.
pub fn process_title_akas(rows: &Vec<TitleAkaData>) -> (r: Result<
    HashMap<u32, Vec<String>>,
    BadIdentifier,
>)
    ensures
        match r {
            Ok(m) => (forall|i: int| 0 <= i < rows@.len() ==> aka_ok(#[trigger] rows@[i]))
                && akas_view(m@) == akas_fold(rows@),
            Err(e) => e.row < rows@.len() && !aka_ok(rows@[e.row as int]) && forall|i: int|
                0 <= i < e.row ==> aka_ok(#[trigger] rows@[i]),
        },
{
    let mut akas: HashMap<u32, Vec<String>> = HashMap::new();
    let mut i: usize = 0;
    assert(akas_view(akas@) == akas_fold(rows@.take(0)));
    while i < rows.len()
        invariant
            i <= rows@.len(),
            akas_view(akas@) == akas_fold(rows@.take(i as int)),
            forall|j: int| 0 <= j < i ==> aka_ok(#[trigger] rows@[j]),
        decreases rows@.len() - i,
    {
        let row = &rows[i];
        assert(rows@.take(i + 1).drop_last() == rows@.take(i as int));
        if text_eq(row.types.as_str(), "original") || (text_eq(row.attributes.as_str(), "short title")
            && text_eq(row.region.as_str(), "US")) {
            let id = match to_num(row.title_id.as_str()) {
                None => {
                    return Err(BadIdentifier { row: i });
                },
                Some(id) => id,
            };
            let ghost before = akas_view(akas@);
            let mut titles = match akas.remove(&id) {
                Some(v) => v,
                None => Vec::new(),
            };
            titles.push(row.title.clone());
            akas.insert(id, titles);
            assert(akas_view(akas@) =~= before.insert(
                id,
                (if before.contains_key(id) {
                    before[id]
                } else {
                    Seq::empty()
                }).push(row.title),
            ));
        }
        i = i + 1;
    }
    assert(rows@.take(i as int) == rows@);
    Ok(akas)
}

/// The accumulator `m` after observing each of `names`, in order, at weight `w`.
pub open spec fn observe_all(m: Model, cutoff: u64, names: Seq<String>, w: u64) -> Model
    decreases names.len(),
{
    if names.len() == 0 {
        m
    } else {
        observe(observe_all(m, cutoff, names.drop_last(), w), cutoff, normalized(names.last()@), w)
    }
}

/// A title of a kept category fed to its accumulator `m`: where the title is
/// rated, its primary title and then its alternate titles are observed at its
/// weight, and the alternate titles are consumed.
pub open spec fn feed(
    ratings: Map<u32, u64>,
    akas: Akas,
    m: Model,
    cutoff: u64,
    id: u32,
    title: Seq<char>,
) -> (Akas, Model) {
    if ratings.contains_key(id) {
        let w = ratings[id];
        let m1 = observe(m, cutoff, normalized(title), w);
        if akas.contains_key(id) {
            (akas.remove(id), observe_all(m1, cutoff, akas[id], w))
        } else {
            (akas, m1)
        }
    } else {
        (akas, m)
    }
}

/// The state of the title basics pass: ratings, alternate titles, and the
/// movie and TV series accumulators.
pub type TitleState = (Map<u32, u64>, Akas, Model, Model);

pub open spec fn basics_step(st: TitleState, row: TitleBasicData, mc: u64, tc: u64) -> TitleState {
    let id = id_of(row.tconst@).unwrap();
    if row.title_type@ == "movie"@ {
        let (a, m) = feed(st.0, st.1, st.2, mc, id, row.primary_title@);
        (st.0, a, m, st.3)
    } else if row.title_type@ == "tvSeries"@ {
        let (a, m) = feed(st.0, st.1, st.3, tc, id, row.primary_title@);
        (st.0, a, st.2, m)
    } else {
        (st.0.remove(id), st.1, st.2, st.3)
    }
}

/// The title basics pass over `rows` from state `init`.
pub open spec fn basics_fold(init: TitleState, rows: Seq<TitleBasicData>, mc: u64, tc: u64) -> TitleState
    decreases rows.len(),
{
    if rows.len() == 0 {
        init
    } else {
        basics_step(basics_fold(init, rows.drop_last(), mc, tc), rows.last(), mc, tc)
    }
}

fn feed_title(
    wl: &mut WordlistGenerator,
    ratings: &HashMap<u32, u64>,
    akas: &mut HashMap<u32, Vec<String>>,
    id: u32,
    title: String,
)
    requires
        old(wl).wf(),
    ensures
        final(wl).wf(),
        final(wl).limit() == old(wl).limit(),
        (akas_view(final(akas)@), final(wl)@) == feed(
            ratings@,
            akas_view(old(akas)@),
            old(wl)@,
            old(wl).limit(),
            id,
            title@,
        ),
{
    match ratings.get(&id) {
        Some(v) => {
            let votes = *v;
            wl.add(title, votes);
            let ghost m1 = wl@;
            let ghost before = akas_view(akas@);
            match akas.remove(&id) {
                Some(titles) => {
                    assert(akas_view(akas@) =~= before.remove(id));
                    let mut j: usize = 0;
                    assert(titles@.take(0) == Seq::<String>::empty());
                    while j < titles.len()
                        invariant
                            wl.wf(),
                            wl.limit() == old(wl).limit(),
                            j <= titles@.len(),
                            wl@ == observe_all(m1, wl.limit(), titles@.take(j as int), votes),
                        decreases titles@.len() - j,
                    {
                        assert(titles@.take(j + 1).drop_last() == titles@.take(j as int));
                        wl.add(titles[j].clone(), votes);
                        j = j + 1;
                    }
                    assert(titles@.take(j as int) == titles@);
                },
                None => {},
            }
        },
        None => {},
    }
}

/// The title basics pass: movies and TV series feed their accumulators (at
/// cutoffs `movie_cutoff` and `tv_cutoff`), any other title type is removed
/// from the ratings. Returns the pruned ratings and the two finalized lists.
/// Fails at the first row whose title code does not decode.
pub fn process_title_basics(
    rows: &Vec<TitleBasicData>,
    ratings: HashMap<u32, u64>,
    akas: HashMap<u32, Vec<String>>,
    movie_cutoff: u64,
    tv_cutoff: u64,
) -> (r: Result<(HashMap<u32, u64>, Wordlist, Wordlist), BadIdentifier>)
    ensures
        match r {
            Ok((pruned, movies, tv)) => {
                let st = basics_fold(
                    (ratings@, akas_view(akas@), Map::empty(), Map::empty()),
                    rows@,
                    movie_cutoff,
                    tv_cutoff,
                );
                &&& forall|i: int| 0 <= i < rows@.len() ==> id_of(#[trigger] rows@[i].tconst@) is Some
                &&& pruned@ == st.0
                &&& finalized(movies@, st.2, movie_cutoff)
                &&& finalized(tv@, st.3, tv_cutoff)
            },
            Err(e) => e.row < rows@.len() && id_of(rows@[e.row as int].tconst@) is None && forall|
                i: int,
            | 0 <= i < e.row ==> id_of(#[trigger] rows@[i].tconst@) is Some,
        },
{
    let ghost init: TitleState = (ratings@, akas_view(akas@), Map::empty(), Map::empty());
    let mut ratings = ratings;
    let mut akas = akas;
    let mut movies = WordlistGenerator::new(movie_cutoff);
    let mut tv = WordlistGenerator::new(tv_cutoff);
    let mut i: usize = 0;
    while i < rows.len()
        invariant
            i <= rows@.len(),
            movies.wf(),
            tv.wf(),
            movies.limit() == movie_cutoff,
            tv.limit() == tv_cutoff,
            (ratings@, akas_view(akas@), movies@, tv@) == basics_fold(
                init,
                rows@.take(i as int),
                movie_cutoff,
                tv_cutoff,
            ),
            forall|j: int| 0 <= j < i ==> id_of(#[trigger] rows@[j].tconst@) is Some,
        decreases rows@.len() - i,
    {
        let row = &rows[i];
        assert(rows@.take(i + 1).drop_last() == rows@.take(i as int));
        let id = match to_num(row.tconst.as_str()) {
            None => {
                return Err(BadIdentifier { row: i });
            },
            Some(id) => id,
        };
        if text_eq(row.title_type.as_str(), "movie") {
            feed_title(&mut movies, &ratings, &mut akas, id, row.primary_title.clone());
        } else if text_eq(row.title_type.as_str(), "tvSeries") {
            feed_title(&mut tv, &ratings, &mut akas, id, row.primary_title.clone());
        } else {
            ratings.remove(&id);
        }
        i = i + 1;
    }
    assert(rows@.take(i as int) == rows@);
    let movie_list = movies.generate();
    let tv_list = tv.generate();
    Ok((ratings, movie_list, tv_list))
}

/// The name basics pass over `rows`: the actor accumulator's content.
pub open spec fn names_fold(rows: Seq<NameBasicData>, votes: Map<u32, u64>, cutoff: u64) -> Model
    decreases rows.len(),
{
    if rows.len() == 0 {
        Map::empty()
    } else {
        let m = names_fold(rows.drop_last(), votes, cutoff);
        let id = id_of(rows.last().nconst@).unwrap();
        if votes.contains_key(id) {
            observe(m, cutoff, normalized(rows.last().primary_name@), votes[id])
        } else {
            m
        }
    }
}

/// Feeds each scored person's name into an actor accumulator with `cutoff`
/// and finalizes it. Fails at the first row whose code does not decode.
pub fn process_name_basics(
    rows: &Vec<NameBasicData>,
    actor_votes: &HashMap<u32, u64>,
    cutoff: u64,
) -> (r: Result<Wordlist, BadIdentifier>)
    ensures
        match r {
            Ok(list) => (forall|i: int| 0 <= i < rows@.len() ==> id_of(#[trigger] rows@[i].nconst@) is Some)
                && finalized(list@, names_fold(rows@, actor_votes@, cutoff), cutoff),
            Err(e) => e.row < rows@.len() && id_of(rows@[e.row as int].nconst@) is None && forall|
                i: int,
            | 0 <= i < e.row ==> id_of(#[trigger] rows@[i].nconst@) is Some,
        },
{
    let mut actors = WordlistGenerator::new(cutoff);
    let mut i: usize = 0;
    while i < rows.len()
        invariant
            i <= rows@.len(),
            actors.wf(),
            actors.limit() == cutoff,
            actors@ == names_fold(rows@.take(i as int), actor_votes@, cutoff),
            forall|j: int| 0 <= j < i ==> id_of(#[trigger] rows@[j].nconst@) is Some,
        decreases rows@.len() - i,
    {
        let row = &rows[i];
        assert(rows@.take(i + 1).drop_last() == rows@.take(i as int));
        let id = match to_num(row.nconst.as_str()) {
            None => {
                return Err(BadIdentifier { row: i });
            },
            Some(id) => id,
        };
        match actor_votes.get(&id) {
            Some(v) => {
                actors.add(row.primary_name.clone(), *v);
            },
            None => {},
        }
        i = i + 1;
    }
    assert(rows@.take(i as int) == rows@);
    Ok(actors.generate())
}

} // verus!
