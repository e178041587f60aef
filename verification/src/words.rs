//! Dictionary entries and duplicate-free entry sets.

use vstd::prelude::*;

verus! {

/// The mathematical value of a dictionary entry: its code and its word as
/// sequences of characters.
#[verifier::ext_equal]
pub ghost struct WordView {
    pub code: Seq<char>,
    pub word: Seq<char>,
}

/// One dictionary record, identified by its (code, word) pair.  Two entries
/// are the same record exactly when both fields match; an entry is never
/// edited in place.
pub struct Word {
    pub code: String,
    pub word: String,
}

impl View for Word {
    type V = WordView;

    open spec fn view(&self) -> WordView {
        WordView { code: self.code@, word: self.word@ }
    }
}

impl Clone for Word {
    fn clone(&self) -> (r: Self)
        ensures
            r@ == self@,
    {
        Word { code: self.code.clone(), word: self.word.clone() }
    }
}

impl Word {
    /// Equality over the full (code, word) pair.
    pub fn same_entry(&self, other: &Word) -> (r: bool)
        ensures
            r == (self@ == other@),
    {
        let r = self.code == other.code && self.word == other.word;
        proof {
            if self@.code == other@.code && self@.word == other@.word {
                assert(self@ == other@);
            }
        }
        r
    }
}

/// A finite set of entries, stored as a vector without duplicates.  Its
/// abstract value is a `Set<WordView>`; `seq()` additionally exposes the
/// storage order, which only matters to the script emitter.
pub struct WordSet {
    words: Vec<Word>,
}

/// The views of a sequence of entries, in order.
pub open spec fn views_of(v: Seq<Word>) -> Seq<WordView> {
    v.map_values(|w: Word| w@)
}

impl WordSet {
    /// The stored entries in storage order.
    pub closed spec fn seq(&self) -> Seq<WordView> {
        views_of(self.words@)
    }

    #[verifier::type_invariant]
    spec fn inv(&self) -> bool {
        self.seq().no_duplicates()
    }
}

impl View for WordSet {
    type V = Set<WordView>;

    open spec fn view(&self) -> Set<WordView> {
        self.seq().to_set()
    }
}

/// Extending a prefix of `s` by one element adds exactly that element to the
/// prefix's set of values.
pub proof fn lemma_take_to_set_step(s: Seq<WordView>, i: int)
    requires
        0 <= i < s.len(),
    ensures
        s.take(i + 1).to_set() == s.take(i).to_set().insert(s[i]),
{
    assert forall|x: WordView|
        s.take(i + 1).to_set().contains(x) == s.take(i).to_set().insert(s[i]).contains(x) by {
        if s.take(i + 1).contains(x) {
            let j = choose|j: int| 0 <= j < i + 1 && #[trigger] s.take(i + 1)[j] == x;
            if j < i {
                assert(s.take(i)[j] == x);
                assert(s.take(i).contains(x));
            } else {
                assert(x == s[i]);
            }
        }
        if s.take(i).contains(x) {
            let j = choose|j: int| 0 <= j < i && #[trigger] s.take(i)[j] == x;
            assert(s.take(i + 1)[j] == x);
            assert(s.take(i + 1).contains(x));
        }
        if x == s[i] {
            assert(s.take(i + 1)[i] == x);
            assert(s.take(i + 1).contains(x));
        }
    }
    assert(s.take(i + 1).to_set() =~= s.take(i).to_set().insert(s[i]));
}

/// A non-empty sequence's set of values is the set of the remainder plus the
/// head.
pub proof fn lemma_drop_first_to_set(s: Seq<WordView>)
    requires
        s.len() > 0,
    ensures
        s.to_set() == s.drop_first().to_set().insert(s[0]),
{
    assert forall|x: WordView|
        s.to_set().contains(x) <==> s.drop_first().to_set().contains(x) || x == s[0] by {
        if s.contains(x) {
            let j = choose|j: int| 0 <= j < s.len() && #[trigger] s[j] == x;
            if j > 0 {
                assert(s.drop_first()[j - 1] == x);
            }
        }
        if s.drop_first().contains(x) {
            let j = choose|j: int| 0 <= j < s.drop_first().len() && #[trigger] s.drop_first()[j] == x;
            assert(s[j + 1] == x);
        }
        if x == s[0] {
            assert(s[0] == x);
        }
    }
    assert(s.to_set() =~= s.drop_first().to_set().insert(s[0]));
}

impl WordSet {
    /// The empty set of entries.
    pub fn new() -> (r: WordSet)
        ensures
            r@ == Set::<WordView>::empty(),
            r.seq() == Seq::<WordView>::empty(),
    {
        let words: Vec<Word> = Vec::new();
        proof {
            assert(views_of(words@) =~= Seq::<WordView>::empty());
        }
        let r = WordSet { words };
        proof {
            assert(r@ =~= Set::<WordView>::empty());
        }
        r
    }

    /// How many entries the set holds.
    pub fn len(&self) -> (n: usize)
        ensures
            n == self.seq().len(),
            n == self@.len(),
    {
        proof {
            use_type_invariant(self);
            self.seq().unique_seq_to_set();
        }
        self.words.len()
    }

    /// Whether the set holds no entry.
    pub fn is_empty(&self) -> (r: bool)
        ensures
            r == self@.is_empty(),
            r == (self.seq().len() == 0),
    {
        let n = self.len();
        proof {
            broadcast use vstd::seq_lib::seq_to_set_is_finite;

            if n == 0 {
                self@.lemma_len0_is_empty();
            } else {
                assert(self.seq().contains(self.seq()[0]));
                assert(self@.contains(self.seq()[0]));
            }
        }
        n == 0
    }

    /// The entry stored at position `i`.
    pub fn get(&self, i: usize) -> (w: &Word)
        requires
            i < self.seq().len(),
        ensures
            w@ == self.seq()[i as int],
    {
        &self.words[i]
    }

    /// Membership over the full (code, word) pair.
    pub fn contains(&self, w: &Word) -> (r: bool)
        ensures
            r == self@.contains(w@),
    {
        let n = self.words.len();
        let mut i: usize = 0;
        while i < n
            invariant
                n == self.words@.len(),
                i <= n,
                forall|j: int| 0 <= j < i ==> self.seq()[j] != w@,
            decreases n - i,
        {
            if self.words[i].same_entry(w) {
                proof {
                    assert(self.seq()[i as int] == w@);
                    assert(self.seq().contains(w@));
                }
                return true;
            }
            i += 1;
        }
        proof {
            assert(!self.seq().contains(w@));
        }
        false
    }

    /// Adds one entry; a pair already present is kept once.
    pub fn insert(self, w: Word) -> (r: WordSet)
        ensures
            r@ == self@.insert(w@),
            r.seq() == (if self@.contains(w@) {
                self.seq()
            } else {
                self.seq().push(w@)
            }),
    {
        proof {
            use_type_invariant(&self);
        }
        let ghost orig_seq = self.seq();
        let ghost orig_set = self@;
        if self.contains(&w) {
            proof {
                assert(orig_set.insert(w@) =~= orig_set);
            }
            self
        } else {
            let WordSet { words: mut words } = self;
            words.push(w);
            proof {
                let new_seq = views_of(words@);
                assert(new_seq =~= orig_seq.push(w@));
                assert(!orig_seq.contains(w@));
                assert forall|i: int, j: int|
                    0 <= i < new_seq.len() && 0 <= j < new_seq.len() && i != j implies new_seq[i]
                    != new_seq[j] by {
                    if i < new_seq.len() - 1 && j < new_seq.len() - 1 {
                        assert(orig_seq[i] == new_seq[i] && orig_seq[j] == new_seq[j]);
                    } else if i == new_seq.len() - 1 {
                        assert(orig_seq.contains(orig_seq[j]));
                    } else {
                        assert(orig_seq.contains(orig_seq[i]));
                    }
                }
            }
            let r = WordSet { words };
            proof {
                assert forall|x: WordView| r@.contains(x) == orig_set.insert(w@).contains(x) by {
                    if r.seq().contains(x) {
                        let j = choose|j: int| 0 <= j < r.seq().len() && #[trigger] r.seq()[j] == x;
                        if j < orig_seq.len() {
                            assert(orig_seq[j] == x);
                            assert(orig_seq.contains(x));
                        } else {
                            assert(x == w@);
                        }
                    }
                    if orig_seq.contains(x) {
                        let j = choose|j: int| 0 <= j < orig_seq.len() && #[trigger] orig_seq[j]
                            == x;
                        assert(r.seq()[j] == x);
                        assert(r.seq().contains(x));
                    }
                    if x == w@ {
                        assert(r.seq()[orig_seq.len() as int] == x);
                        assert(r.seq().contains(x));
                    }
                }
                assert(r@ =~= orig_set.insert(w@));
            }
            r
        }
    }

    /// The entries of `self` together with those of `other`.
    pub fn union(&self, other: &WordSet) -> (r: WordSet)
        ensures
            r@ == self@.union(other@),
    {
        let mut r = WordSet::new();
        proof {
            assert(self.seq().take(0).to_set() =~= Set::<WordView>::empty());
        }
        let n = self.len();
        let mut i: usize = 0;
        while i < n
            invariant
                n == self.seq().len(),
                i <= n,
                r@ == self.seq().take(i as int).to_set(),
            decreases n - i,
        {
            proof {
                lemma_take_to_set_step(self.seq(), i as int);
            }
            let w = self.get(i).clone();
            r = r.insert(w);
            i += 1;
        }
        proof {
            assert(self.seq().take(n as int) =~= self.seq());
            assert(self@.union(other.seq().take(0).to_set()) =~= self@);
        }
        let m = other.len();
        let mut j: usize = 0;
        while j < m
            invariant
                m == other.seq().len(),
                j <= m,
                r@ == self@.union(other.seq().take(j as int).to_set()),
            decreases m - j,
        {
            proof {
                lemma_take_to_set_step(other.seq(), j as int);
                assert(self@.union(other.seq().take(j as int).to_set()).insert(
                    other.seq()[j as int],
                ) =~= self@.union(other.seq().take(j as int + 1).to_set()));
            }
            let w = other.get(j).clone();
            r = r.insert(w);
            j += 1;
        }
        proof {
            assert(other.seq().take(m as int) =~= other.seq());
        }
        r
    }

    /// The entries of `self` that are not in `other`.
    pub fn difference(&self, other: &WordSet) -> (r: WordSet)
        ensures
            r@ == self@.difference(other@),
    {
        let mut r = WordSet::new();
        proof {
            assert(self.seq().take(0).to_set().difference(other@) =~= Set::<WordView>::empty());
        }
        let n = self.len();
        let mut i: usize = 0;
        while i < n
            invariant
                n == self.seq().len(),
                i <= n,
                r@ == self.seq().take(i as int).to_set().difference(other@),
            decreases n - i,
        {
            proof {
                lemma_take_to_set_step(self.seq(), i as int);
            }
            let w = self.get(i);
            if !other.contains(w) {
                let w = w.clone();
                r = r.insert(w);
            }
            proof {
                assert(r@ =~= self.seq().take(i as int + 1).to_set().difference(other@));
            }
            i += 1;
        }
        proof {
            assert(self.seq().take(n as int) =~= self.seq());
        }
        r
    }

    /// The entries of `self` that are also in `other`.
    pub fn intersect(&self, other: &WordSet) -> (r: WordSet)
        ensures
            r@ == self@.intersect(other@),
    {
        let mut r = WordSet::new();
        proof {
            assert(self.seq().take(0).to_set().intersect(other@) =~= Set::<WordView>::empty());
        }
        let n = self.len();
        let mut i: usize = 0;
        while i < n
            invariant
                n == self.seq().len(),
                i <= n,
                r@ == self.seq().take(i as int).to_set().intersect(other@),
            decreases n - i,
        {
            proof {
                lemma_take_to_set_step(self.seq(), i as int);
            }
            let w = self.get(i);
            if other.contains(w) {
                let w = w.clone();
                r = r.insert(w);
            }
            proof {
                assert(r@ =~= self.seq().take(i as int + 1).to_set().intersect(other@));
            }
            i += 1;
        }
        proof {
            assert(self.seq().take(n as int) =~= self.seq());
        }
        r
    }
}

impl Clone for WordSet {
    fn clone(&self) -> (r: Self)
        ensures
            r@ == self@,
            r.seq() == self.seq(),
    {
        proof {
            use_type_invariant(self);
        }
        let mut words: Vec<Word> = Vec::new();
        let n = self.words.len();
        let mut i: usize = 0;
        while i < n
            invariant
                n == self.words@.len(),
                i <= n,
                words@.len() == i,
                forall|k: int| 0 <= k < i ==> (#[trigger] words@[k])@ == self.seq()[k],
            decreases n - i,
        {
            words.push(self.words[i].clone());
            i += 1;
        }
        proof {
            assert forall|k: int| 0 <= k < n implies views_of(words@)[k] == self.seq()[k] by {
                assert(words@[k]@ == self.seq()[k]);
            }
            assert(views_of(words@) =~= self.seq());
        }
        let r = WordSet { words };
        r
    }
}

} // verus!
