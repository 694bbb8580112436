use rayon::slice::ParallelSliceMut;
use vstd::prelude::*;

use crate::normalize::{key, key_of, normalize, normalized, Key};

verus! {

/// A ranked entry: a canonical name and its weight.
pub type ListItem = (String, u64);

pub type Wordlist = Vec<ListItem>;

/// What an accumulator holds: for each comparison key, the best canonical
/// name seen for it and that name's weight.
pub type Model = Map<Seq<u8>, (Seq<char>, u64)>;

/// One observation of a canonical name `norm` with weight `w`, against
/// `cutoff`. Below the cutoff, or with an empty key, nothing changes. A new
/// key is inserted; a known key is replaced only by a strictly greater weight,
/// so on a tie the first name seen stays.
pub open spec fn observe(m: Model, cutoff: u64, norm: Seq<char>, w: u64) -> Model {
    let k = key_of(norm);
    if w < cutoff || k.len() == 0 {
        m
    } else if !m.contains_key(k) || w > m[k].1 {
        m.insert(k, (norm, w))
    } else {
        m
    }
}

/// Every entry of `m` sits under its own non-empty key, at or above `cutoff`.
pub open spec fn model_ok(m: Model, cutoff: u64) -> bool {
    forall|k: Seq<u8>|
        #[trigger] m.contains_key(k) ==> k == key_of(m[k].0) && k.len() > 0 && m[k].1 >= cutoff
}

/// Weights never increase along `r`.
pub open spec fn sorted_desc(r: Seq<ListItem>) -> bool {
    forall|i: int, j: int| 0 <= i < j < r.len() ==> #[trigger] r[i].1 >= #[trigger] r[j].1
}

/// `r` lists the entries of `m`, each once, by weight descending.
pub open spec fn ranks(r: Seq<ListItem>, m: Model) -> bool {
    &&& forall|i: int|
        0 <= i < r.len() ==> m.contains_key(key_of(#[trigger] r[i].0@)) && m[key_of(r[i].0@)] == (
        r[i].0@,
        r[i].1,
    )
    &&& forall|i: int, j: int|
        0 <= i < j < r.len() ==> key_of(#[trigger] r[i].0@) != key_of(#[trigger] r[j].0@)
    &&& forall|k: Seq<u8>|
        #[trigger] m.contains_key(k) ==> exists|i: int| 0 <= i < r.len() && key_of(r[i].0@) == k
    &&& sorted_desc(r)
}

/// `r` is what finalizing an accumulator with content `m` and `cutoff` gives:
/// the entries of `m` ranked, each at or above the cutoff and under a
/// non-empty key.
pub open spec fn finalized(r: Seq<ListItem>, m: Model, cutoff: u64) -> bool {
    &&& ranks(r, m)
    &&& forall|i: int| 0 <= i < r.len() ==> #[trigger] r[i].1 >= cutoff && key_of(r[i].0@).len() > 0
}

/// `b` holds the elements of `a` rearranged: `b[i]` is `a[p[i]]`, and `p` is
/// a bijection on the indices.
pub open spec fn permutes(a: Seq<ListItem>, b: Seq<ListItem>, p: Seq<int>) -> bool {
    &&& p.len() == a.len()
    &&& b.len() == a.len()
    &&& forall|i: int| 0 <= i < p.len() ==> 0 <= #[trigger] p[i] < a.len() && b[i] == a[p[i]]
    &&& forall|i: int, j: int| 0 <= i < j < p.len() ==> #[trigger] p[i] != #[trigger] p[j]
    &&& forall|k: int| 0 <= k < a.len() ==> #[trigger] hits(p, k)
}

/// Some entry of `p` is `k`.
pub open spec fn hits(p: Seq<int>, k: int) -> bool {
    exists|i: int| 0 <= i < p.len() && p[i] == k
}

/// The sort key that orders entries by weight descending.
fn weight_desc(item: &ListItem) -> (r: u64)
    ensures
        r == u64::MAX - item.1,
{
    u64::MAX - item.1
}

/// Relies on rayon's `par_sort_unstable_by_key`: it rearranges the slice so
/// that the keys ascend, i.e. the weights descend.
#[verifier::external_body]
fn par_sort_by_weight(wl: &mut [ListItem])
    ensures
        sorted_desc(final(wl)@),
        exists|p: Seq<int>| permutes(old(wl)@, final(wl)@, p),
{
    wl.par_sort_unstable_by_key(weight_desc)
}

/// Sorts a wordlist by weight, highest first. Entries of equal weight may
/// come in any order.
pub fn sort_wordlist(wl: &mut [ListItem])
    ensures
        sorted_desc(final(wl)@),
        exists|p: Seq<int>| permutes(old(wl)@, final(wl)@, p),
{
    par_sort_by_weight(wl)
}

fn bytes_eq(a: &Vec<u8>, b: &Vec<u8>) -> (r: bool)
    ensures
        r == (a@ == b@),
{
    if a.len() != b.len() {
        return false;
    }
    let mut i: usize = 0;
    while i < a.len()
        invariant
            a.len() == b.len(),
            i <= a.len(),
            forall|j: int| 0 <= j < i ==> a@[j] == b@[j],
        decreases a.len() - i,
    {
        if a[i] != b[i] {
            return false;
        }
        i = i + 1;
    }
    assert(a@ == b@);
    true
}

/// The popularity accumulator of one category: keeps, for each comparison
/// key, the best-weighted canonical name seen at or above the cutoff.
pub struct WordlistGenerator {
    keys: Vec<Key>,
    items: Vec<ListItem>,
    cutoff: u64,
    model: Ghost<Model>,
}

impl View for WordlistGenerator {
    type V = Model;

    closed spec fn view(&self) -> Model {
        self.model@
    }
}

impl WordlistGenerator {
    /// The cutoff that this accumulator was made with.
    pub closed spec fn limit(&self) -> u64 {
        self.cutoff
    }

    pub closed spec fn wf(&self) -> bool {
        &&& self.keys.len() == self.items.len()
        &&& forall|i: int|
            0 <= i < self.keys.len() ==> self.model@.contains_key(#[trigger] self.keys[i]@)
                && self.model@[self.keys[i]@] == (self.items[i].0@, self.items[i].1)
        &&& forall|i: int, j: int|
            0 <= i < j < self.keys.len() ==> #[trigger] self.keys[i]@ != #[trigger] self.keys[j]@
        &&& forall|k: Seq<u8>|
            #[trigger] self.model@.contains_key(k) ==> exists|i: int|
                0 <= i < self.keys.len() && self.keys[i]@ == k
        &&& model_ok(self.model@, self.cutoff)
    }

    pub fn new(cutoff: u64) -> (r: Self)
        ensures
            r.wf(),
            r@ == Model::empty(),
            r.limit() == cutoff,
    {
        Self { keys: Vec::new(), items: Vec::new(), cutoff, model: Ghost(Map::empty()) }
    }

    /// Observes an already normalized name with weight `freq`.
    pub fn add_normalized(&mut self, norm: String, freq: u64)
        requires
            old(self).wf(),
        ensures
            final(self).wf(),
            final(self).limit() == old(self).limit(),
            final(self)@ == observe(old(self)@, old(self).limit(), norm@, freq),
    {
        if freq < self.cutoff {
            return ;
        }
        let k = key(norm.as_str());
        if k.len() == 0 {
            return ;
        }
        let n = self.keys.len();
        let mut i: usize = 0;
        while i < n
            invariant
                self.wf(),
                self.cutoff == old(self).cutoff,
                self.model@ == old(self).model@,
                k@ == key_of(norm@),
                k@.len() > 0,
                freq >= self.cutoff,
                n == self.keys.len(),
                i <= n,
                forall|j: int| 0 <= j < i ==> self.keys[j]@ != k@,
            decreases n - i,
        {
            if bytes_eq(&self.keys[i], &k) {
                assert(self.model@.contains_key(self.keys[i as int]@));
                assert(self.model@[k@] == (self.items[i as int].0@, self.items[i as int].1));
                if freq > self.items[i].1 {
                    let ghost m = self.model@;
                    let ghost nm = norm@;
                    let ghost keys0 = self.keys@;
                    assert(key_of(nm) == k@);
                    self.items[i] = (norm, freq);
                    assert(self.keys@ == keys0);
                    self.model = Ghost(m.insert(k@, (nm, freq)));
                    assert forall|j: int| 0 <= j < self.keys.len() implies self.model@.contains_key(
                        #[trigger] self.keys[j]@,
                    ) && self.model@[self.keys[j]@] == (self.items[j].0@, self.items[j].1) by {
                        if j != i {
                            if j < i {
                                assert(self.keys[j]@ != self.keys[i as int]@);
                            } else {
                                assert(self.keys[i as int]@ != self.keys[j]@);
                            }
                        }
                    }
                    assert forall|kk: Seq<u8>| #[trigger] self.model@.contains_key(kk) implies exists|j: int|
                        0 <= j < self.keys.len() && self.keys[j]@ == kk by {
                        assert(m.contains_key(kk));
                        let j = choose|j: int| 0 <= j < n && keys0[j]@ == kk;
                        assert(self.keys[j]@ == kk);
                    }
                    assert forall|kk: Seq<u8>| #[trigger] self.model@.contains_key(kk) implies kk
                        == key_of(self.model@[kk].0) && kk.len() > 0 && self.model@[kk].1
                        >= self.cutoff by {
                        if kk != k@ {
                            assert(m.contains_key(kk));
                        }
                    }
                }
                return ;
            }
            i = i + 1;
        }
        let ghost m = self.model@;
        let ghost keys0 = self.keys@;
        proof {
            assert(!m.contains_key(k@));
            assert(key_of(norm@) == k@);
        }
        let ghost nm = norm@;
        self.keys.push(k);
        self.items.push((norm, freq));
        self.model = Ghost(m.insert(k@, (nm, freq)));
        assert forall|kk: Seq<u8>| #[trigger] self.model@.contains_key(kk) implies exists|j: int|
            0 <= j < self.keys.len() && self.keys[j]@ == kk by {
            if kk != k@ {
                assert(m.contains_key(kk));
                let j = choose|j: int| 0 <= j < n && keys0[j]@ == kk;
                assert(self.keys[j]@ == kk);
            } else {
                assert(self.keys[n as int]@ == kk);
            }
        }
    }

    /// Observes `name` with weight `freq`: at or above the cutoff, the name is
    /// normalized and kept if its key is new, or if it outweighs the name kept
    /// under its key.
    pub fn add(&mut self, name: String, freq: u64)
        requires
            old(self).wf(),
        ensures
            final(self).wf(),
            final(self).limit() == old(self).limit(),
            final(self)@ == observe(old(self)@, old(self).limit(), normalized(name@), freq),
    {
        if freq >= self.cutoff {
            let norm = normalize(name.as_str());
            self.add_normalized(norm, freq);
        }
    }

    /// Drains the accumulator into a wordlist sorted by weight, highest first.
    pub fn generate(self) -> (r: Wordlist)
        requires
            self.wf(),
        ensures
            finalized(r@, self@, self.limit()),
    {
        let mut wl = self.items;
        let ghost items = wl@;
        sort_wordlist(wl.as_mut_slice());
        let ghost p = choose|p: Seq<int>| permutes(items, wl@, p);
        let ghost m = self.model@;
        assert forall|i: int| 0 <= i < wl@.len() implies m.contains_key(key_of(#[trigger] wl@[i].0@))
            && m[key_of(wl@[i].0@)] == (wl@[i].0@, wl@[i].1) && wl@[i].1 >= self.cutoff && key_of(
            wl@[i].0@,
        ).len() > 0 by {
            let a = p[i];
            assert(wl@[i] == items[a]);
            assert(m.contains_key(self.keys[a]@));
        }
        assert forall|i: int| 0 <= i < wl@.len() implies #[trigger] wl@[i].1 >= self.cutoff && key_of(
            wl@[i].0@,
        ).len() > 0 by {
            assert(m.contains_key(key_of(wl@[i].0@)));
        }
        assert forall|i: int, j: int| 0 <= i < j < wl@.len() implies key_of(#[trigger] wl@[i].0@)
            != key_of(#[trigger] wl@[j].0@) by {
            let a = p[i];
            let b = p[j];
            assert(m.contains_key(self.keys[a]@));
            assert(m.contains_key(self.keys[b]@));
            if a < b {
                assert(self.keys[a]@ != self.keys[b]@);
            } else {
                assert(self.keys[b]@ != self.keys[a]@);
            }
        }
        assert forall|k: Seq<u8>| #[trigger] m.contains_key(k) implies exists|i: int|
            0 <= i < wl@.len() && key_of(wl@[i].0@) == k by {
            let a = choose|a: int| 0 <= a < self.keys.len() && self.keys[a]@ == k;
            assert(hits(p, a));
            let i = choose|i: int| 0 <= i < p.len() && p[i] == a;
            assert(key_of(wl@[i].0@) == k);
        }
        wl
    }
}

/// What an accumulator with `cutoff` holds after observing the canonical
/// names and weights of `obs`, in order, from empty: `add` and
/// `add_normalized` each take one step of this fold.
pub open spec fn accumulate(obs: Seq<(Seq<char>, u64)>, cutoff: u64) -> Model
    decreases obs.len(),
{
    if obs.len() == 0 {
        Map::empty()
    } else {
        observe(accumulate(obs.drop_last(), cutoff), cutoff, obs.last().0, obs.last().1)
    }
}

/// Observation `o` competes for key `k`: it is at or above the cutoff and
/// `k` is its non-empty key.
pub open spec fn competes(o: (Seq<char>, u64), cutoff: u64, k: Seq<u8>) -> bool {
    o.1 >= cutoff && key_of(o.0) == k && k.len() > 0
}

/// Of all the names observed under one key, the accumulator keeps exactly
/// one: it holds the key exactly when some observation competes for it, the
/// weight kept is the greatest weight observed for the key, and the name kept
/// is the first observed with that weight.
pub proof fn lemma_accumulate_keeps_best(obs: Seq<(Seq<char>, u64)>, cutoff: u64, k: Seq<u8>)
    ensures
        accumulate(obs, cutoff).contains_key(k) <==> exists|i: int|
            0 <= i < obs.len() && #[trigger] competes(obs[i], cutoff, k),
        accumulate(obs, cutoff).contains_key(k) ==> {
            let best = accumulate(obs, cutoff)[k];
            &&& forall|i: int|
                0 <= i < obs.len() && #[trigger] competes(obs[i], cutoff, k) ==> obs[i].1 <= best.1
            &&& exists|i: int|
                0 <= i < obs.len() && #[trigger] competes(obs[i], cutoff, k) && obs[i] == best
                    && forall|j: int|
                    0 <= j < i && #[trigger] competes(obs[j], cutoff, k) ==> obs[j].1 < best.1
        },
    decreases obs.len(),
{
    if obs.len() > 0 {
        let p = obs.drop_last();
        let o = obs.last();
        let n = p.len() as int;
        lemma_accumulate_keeps_best(p, cutoff, k);
        let m = accumulate(p, cutoff);
        assert forall|i: int| 0 <= i < n implies obs[i] == p[i] by {}
        assert(obs[n] == o);
        if competes(o, cutoff, k) {
            if !m.contains_key(k) || o.1 > m[k].1 {
                assert(accumulate(obs, cutoff)[k] == o);
                assert(competes(obs[n], cutoff, k));
                assert forall|j: int| 0 <= j < n && #[trigger] competes(obs[j], cutoff, k) implies obs[j].1
                    < o.1 by {
                    assert(competes(p[j], cutoff, k));
                }
            } else {
                assert(accumulate(obs, cutoff) == m);
                let best = m[k];
                let i = choose|i: int|
                    0 <= i < p.len() && #[trigger] competes(p[i], cutoff, k) && p[i] == best && forall|
                        j: int,
                    |
                        0 <= j < i && #[trigger] competes(p[j], cutoff, k) ==> p[j].1 < best.1;
                assert(competes(obs[i], cutoff, k));
                assert forall|j: int| 0 <= j < i && #[trigger] competes(obs[j], cutoff, k) implies obs[j].1
                    < best.1 by {
                    assert(competes(p[j], cutoff, k));
                }
                assert forall|j: int| 0 <= j < obs.len() && #[trigger] competes(obs[j], cutoff, k) implies obs[j].1
                    <= best.1 by {
                    if j < n {
                        assert(competes(p[j], cutoff, k));
                    }
                }
            }
        } else {
            assert(accumulate(obs, cutoff).contains_key(k) == m.contains_key(k));
            assert(m.contains_key(k) ==> accumulate(obs, cutoff)[k] == m[k]);
            if m.contains_key(k) {
                let best = m[k];
                let i = choose|i: int|
                    0 <= i < p.len() && #[trigger] competes(p[i], cutoff, k) && p[i] == best && forall|
                        j: int,
                    |
                        0 <= j < i && #[trigger] competes(p[j], cutoff, k) ==> p[j].1 < best.1;
                assert(competes(obs[i], cutoff, k));
                assert forall|j: int| 0 <= j < i && #[trigger] competes(obs[j], cutoff, k) implies obs[j].1
                    < best.1 by {
                    assert(competes(p[j], cutoff, k));
                }
                assert forall|j: int| 0 <= j < obs.len() && #[trigger] competes(obs[j], cutoff, k) implies obs[j].1
                    <= best.1 by {
                    if j < n {
                        assert(competes(p[j], cutoff, k));
                    }
                }
            } else {
                assert forall|j: int| 0 <= j < obs.len() implies !#[trigger] competes(obs[j], cutoff, k) by {
                    if j < n {
                        assert(!competes(p[j], cutoff, k));
                    }
                }
            }
        }
        if exists|i: int| 0 <= i < n && #[trigger] competes(p[i], cutoff, k) {
            let i = choose|i: int| 0 <= i < n && #[trigger] competes(p[i], cutoff, k);
            assert(competes(obs[i], cutoff, k));
        }
    }
}

} // verus!
