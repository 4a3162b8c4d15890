use vstd::prelude::*;
use std::collections::HashMap;

verus! {

/// The id of `w` in `words`: its position, where it occurs.
pub open spec fn id_of(words: Seq<Seq<char>>, w: Seq<char>) -> Option<usize> {
    if words.contains(w) {
        Some(choose|i: usize| i < words.len() && words[i as int] == w)
    } else {
        None
    }
}

/// A hash of a text.
pub uninterp spec fn str_hash(s: Seq<char>) -> u64;

/// Relies on std's `DefaultHasher`: all hashers made by `DefaultHasher::new`
/// start in the same state, so the hash of a `str` depends on the text alone.
#[verifier::external_body]
fn hash_str(s: &str) -> (r: u64)
    ensures
        r == str_hash(s@),
{
    let mut h = std::collections::hash_map::DefaultHasher::new();
    std::hash::Hash::hash(s, &mut h);
    std::hash::Hasher::finish(&h)
}

/// A registry of distinct tokens; a token's id is its position, in order of insertion.
pub struct Vocabulary {
    words: Vec<String>,
    /// For each hash, the ids of the tokens with that hash.
    buckets: HashMap<u64, Vec<usize>>,
}

impl View for Vocabulary {
    type V = Seq<Seq<char>>;

    closed spec fn view(&self) -> Seq<Seq<char>> {
        self.words@.map_values(|w: String| w@)
    }
}

impl Vocabulary {
    /// Each bucket lists ids of tokens with its hash, and each id is in its token's bucket.
    pub closed spec fn buckets_consistent(&self) -> bool {
        &&& self@.len() == self.words@.len()
        &&& forall|h: u64|
            #[trigger] self.buckets@.contains_key(h) ==> forall|k: int|
                0 <= k < self.buckets@[h]@.len() ==> (#[trigger] self.buckets@[h]@[k]) < self@.len()
                    && str_hash(self@[self.buckets@[h]@[k] as int]) == h
        &&& forall|i: int|
            0 <= i < self@.len() ==> self.buckets@.contains_key(str_hash(#[trigger] self@[i]))
                && self.buckets@[str_hash(self@[i])]@.contains(i as usize)
    }

    /// No token is registered twice, every id fits in `usize`, and the
    /// lookup table agrees with the tokens.
    pub open spec fn wf(&self) -> bool {
        &&& self@.len() <= usize::MAX
        &&& forall|i: int, j: int| 0 <= i < j < self@.len() ==> self@[i] != self@[j]
        &&& self.buckets_consistent()
    }

    /// The empty vocabulary.
    pub fn new() -> (r: Self)
        ensures
            r.wf(),
            r@ == Seq::<Seq<char>>::empty(),
    {
        broadcast use vstd::std_specs::hash::group_hash_axioms;

        let r = Vocabulary { words: Vec::new(), buckets: HashMap::new() };
        assert(r@ =~= Seq::<Seq<char>>::empty());
        r
    }

    /// Registers `token` under the next free id, unless it is already known.
    pub fn insert(&mut self, token: &str)
        requires
            old(self).wf(),
        ensures
            final(self).wf(),
            final(self)@ == (if old(self)@.contains(token@) {
                old(self)@
            } else {
                old(self)@.push(token@)
            }),
    {
        broadcast use vstd::std_specs::hash::group_hash_axioms;

        match self.id(token) {
            Some(_) => {},
            None => {
                let ghost before = self@;
                let ghost old_buckets = self.buckets@;
                let h = hash_str(token);
                let id = self.words.len();
                let mut nb: Vec<usize> = Vec::new();
                match self.buckets.get(&h) {
                    Some(b) => {
                        let mut k: usize = 0;
                        while k < b.len()
                            invariant
                                k <= b@.len(),
                                nb@ == b@.subrange(0, k as int),
                            decreases b@.len() - k,
                        {
                            nb.push(b[k]);
                            k += 1;
                            assert(nb@ =~= b@.subrange(0, k as int));
                        }
                        assert(nb@ =~= b@);
                    },
                    None => {},
                }
                let ghost prev = nb@;
                assert(old_buckets.contains_key(h) ==> prev == old_buckets[h]@);
                assert(!old_buckets.contains_key(h) ==> prev.len() == 0);
                nb.push(id);
                self.words.push(token.to_owned());
                self.buckets.insert(h, nb);
                assert(self@ =~= before.push(token@));
                assert(!before.contains(token@));
                assert(self@.len() == self.words@.len());
                assert forall|i: int, j: int| 0 <= i < j < self@.len() implies self@[i] != self@[j] by {
                    if j == before.len() {
                        assert(before[i] == self@[i]);
                    }
                }
                assert forall|g: u64| #[trigger] self.buckets@.contains_key(g) implies forall|k: int|
                    0 <= k < self.buckets@[g]@.len() ==> (#[trigger] self.buckets@[g]@[k]) < self@.len()
                        && str_hash(self@[self.buckets@[g]@[k] as int]) == g by {
                    if g == h {
                        assert forall|k: int| 0 <= k < self.buckets@[g]@.len() implies (
                        #[trigger] self.buckets@[g]@[k]) < self@.len() && str_hash(
                            self@[self.buckets@[g]@[k] as int],
                        ) == g by {
                            if k < prev.len() {
                                assert(self.buckets@[g]@[k] == old_buckets[h]@[k]);
                                assert(before[old_buckets[h]@[k] as int] == self@[old_buckets[h]@[k] as int]);
                            } else {
                                assert(self.buckets@[g]@[k] == id);
                            }
                        }
                    } else {
                        assert(self.buckets@[g] == old_buckets[g]);
                        assert forall|k: int| 0 <= k < self.buckets@[g]@.len() implies (
                        #[trigger] self.buckets@[g]@[k]) < self@.len() && str_hash(
                            self@[self.buckets@[g]@[k] as int],
                        ) == g by {
                            assert(before[old_buckets[g]@[k] as int] == self@[old_buckets[g]@[k] as int]);
                        }
                    }
                }
                assert forall|i: int| 0 <= i < self@.len() implies self.buckets@.contains_key(
                    str_hash(#[trigger] self@[i]),
                ) && self.buckets@[str_hash(self@[i])]@.contains(i as usize) by {
                    if i < before.len() {
                        assert(before[i] == self@[i]);
                        let g = str_hash(before[i]);
                        assert(old_buckets.contains_key(g) && old_buckets[g]@.contains(i as usize));
                        if g == h {
                            let k = choose|k: int| 0 <= k < old_buckets[g]@.len() && old_buckets[g]@[k] == i as usize;
                            assert(self.buckets@[g]@[k] == i as usize);
                        }
                    } else {
                        assert(self.buckets@[h]@[prev.len() as int] == id);
                    }
                }
                assert(self.buckets_consistent());
                assert(self@.len() == self.words.len());
            },
        }
    }

    /// The id of `word`, if it is registered.
    pub fn id(&self, word: &str) -> (r: Option<usize>)
        requires
            self.wf(),
        ensures
            r == id_of(self@, word@),
    {
        broadcast use vstd::std_specs::hash::group_hash_axioms;

        let w = word.to_owned();
        let h = hash_str(word);
        match self.buckets.get(&h) {
            None => {
                assert forall|i: int| 0 <= i < self@.len() implies self@[i] != word@ by {
                    if self@[i] == word@ {
                        assert(self.buckets@.contains_key(str_hash(self@[i])));
                    }
                }
                assert(!self@.contains(word@));
                None
            },
            Some(b) => {
                let mut k: usize = 0;
                while k < b.len()
                    invariant
                        self.wf(),
                        w@ == word@,
                        h == str_hash(word@),
                        self.buckets@.contains_key(h),
                        self.buckets@[h] == *b,
                        k <= b@.len(),
                        forall|q: int| 0 <= q < k ==> self@[b@[q] as int] != word@,
                    decreases b@.len() - k,
                {
                    let i = b[k];
                    assert(b@[k as int] == self.buckets@[h]@[k as int]);
                    assert(i < self@.len());
                    assert(self@[i as int] == self.words@[i as int]@);
                    if self.words[i] == w {
                        let ghost j = choose|j: usize| j < self@.len() && self@[j as int] == word@;
                        assert(j == i) by {
                            if j < i {
                                assert(self@[j as int] != self@[i as int]);
                            } else if j > i {
                                assert(self@[i as int] != self@[j as int]);
                            }
                        }
                        return Some(i);
                    }
                    k += 1;
                }
                assert forall|i: int| 0 <= i < self@.len() implies self@[i] != word@ by {
                    if self@[i] == word@ {
                        assert(self.buckets@[str_hash(self@[i])]@.contains(i as usize));
                        let q = choose|q: int| 0 <= q < b@.len() && b@[q] == i as usize;
                    }
                }
                assert(!self@.contains(word@));
                None
            },
        }
    }

    /// The token registered under `id`.
    pub fn word(&self, id: usize) -> (r: &str)
        requires
            id < self@.len(),
        ensures
            r@ == self@[id as int],
    {
        self.words[id].as_str()
    }

    /// The number of registered tokens.
    pub fn len(&self) -> (r: usize)
        ensures
            r == self@.len(),
    {
        self.words.len()
    }

    /// Whether no token is registered.
    pub fn is_empty(&self) -> (r: bool)
        ensures
            r == (self@.len() == 0),
    {
        self.words.len() == 0
    }
}

impl Default for Vocabulary {
    fn default() -> (r: Self)
        ensures
            r.wf(),
            r@ == Seq::<Seq<char>>::empty(),
    {
        Vocabulary::new()
    }
}

/// The ids of a vocabulary are exactly `0 .. len`, each naming one token.
pub proof fn lemma_ids_are_positions(v: Vocabulary)
    requires
        v.wf(),
    ensures
        forall|i: int| 0 <= i < v@.len() ==> id_of(v@, #[trigger] v@[i]) == Some(i as usize),
        forall|w: Seq<char>|
            #[trigger] id_of(v@, w) is Some ==> (id_of(v@, w)->0 < v@.len() && v@[id_of(
                v@,
                w,
            )->0 as int] == w),
{
    assert forall|i: int| 0 <= i < v@.len() implies id_of(v@, #[trigger] v@[i]) == Some(
        i as usize,
    ) by {
        assert(v@.contains(v@[i]));
        assert(v@[(i as usize) as int] == v@[i]);
        let j = choose|j: usize| j < v@.len() && v@[j as int] == v@[i];
        if j as int != i {
            if (j as int) < i {
                assert(v@[j as int] != v@[i]);
            } else {
                assert(v@[i] != v@[j as int]);
            }
        }
    }
    assert forall|w: Seq<char>| #[trigger] id_of(v@, w) is Some implies (id_of(v@, w)->0 < v@.len()
        && v@[id_of(v@, w)->0 as int] == w) by {
        if v@.contains(w) {
            let i = choose|i: int| 0 <= i < v@.len() && v@[i] == w;
            assert(v@[(i as usize) as int] == w);
        }
    }
}

} // verus!
