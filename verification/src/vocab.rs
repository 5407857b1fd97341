//! The keyword vocabulary: a set of non-empty strings (as UTF-8 bytes) with
//! case-insensitive equality, insertion order preserved, and a stable index
//! assigned to each entry at first insertion.
//!
//! Case-insensitive comparison is Unicode case folding, performed by the
//! `unicase` crate behind one trusted wrapper. The folded form of a string
//! is named by the uninterpreted function `fold_of`; two strings are the
//! same keyword exactly when their folded forms are equal.

use vstd::prelude::*;

verus! {

/// The Unicode case-folded form of a byte string, as computed by the
/// `unicase` crate. Left uninterpreted: contracts only compare folded forms.
pub uninterp spec fn fold_of(s: Seq<u8>) -> Seq<char>;

/// Relies on `unicase::eq` (Unicode case folding): two strings compare equal
/// exactly when their case-folded forms are equal. The folding depends on
/// the bytes alone, so it is named by `fold_of`.
#[verifier::external_body]
fn eq_ignore_case(a: &[u8], b: &[u8]) -> (r: bool)
    ensures
        r == (fold_of(a@) == fold_of(b@)),
{
    unicase::eq(&String::from_utf8_lossy(a), &String::from_utf8_lossy(b))
}

/// A well-formed vocabulary: every entry is non-empty, and no two entries
/// are equal up to case folding.
pub open spec fn vocab_wf(v: Seq<Seq<u8>>) -> bool {
    &&& forall|i: int| 0 <= i < v.len() ==> (#[trigger] v[i]).len() > 0
    &&& forall|i: int, j: int|
        0 <= i < j < v.len() ==> #[trigger] fold_of(v[i]) != #[trigger] fold_of(v[j])
}

/// Whether some entry of `v` is the same keyword as `s`, up to case folding.
pub open spec fn spec_contains_fold(v: Seq<Seq<u8>>, s: Seq<u8>) -> bool {
    exists|i: int| 0 <= i < v.len() && #[trigger] fold_of(v[i]) == fold_of(s)
}

/// The index of the entry of `v` that is the same keyword as `s`. In a
/// well-formed vocabulary that entry is unique.
pub open spec fn spec_index_of(v: Seq<Seq<u8>>, s: Seq<u8>) -> int {
    choose|i: int| 0 <= i < v.len() && #[trigger] fold_of(v[i]) == fold_of(s)
}

/// The vocabulary after inserting `s`: unchanged when a case-insensitive
/// equal entry is already present, else extended by `s` at the end.
pub open spec fn spec_insert(v: Seq<Seq<u8>>, s: Seq<u8>) -> Seq<Seq<u8>> {
    if spec_contains_fold(v, s) {
        v
    } else {
        v.push(s)
    }
}

/// The index that inserting `s` yields: the existing entry's index when one
/// matches, else the index of the newly appended entry.
pub open spec fn spec_insert_index(v: Seq<Seq<u8>>, s: Seq<u8>) -> int {
    if spec_contains_fold(v, s) {
        spec_index_of(v, s)
    } else {
        v.len() as int
    }
}

/// The vocabulary `w` extends `v`: every entry of `v` is still present, at
/// the same index.
pub open spec fn vocab_extends(v: Seq<Seq<u8>>, w: Seq<Seq<u8>>) -> bool {
    &&& v.len() <= w.len()
    &&& forall|i: int| 0 <= i < v.len() ==> w[i] == #[trigger] v[i]
}

/// Set of keywords: indexed, insertion-ordered, and case-insensitive.
#[derive(Debug)]
pub struct KeywordSet {
    entries: Vec<Vec<u8>>,
}

impl View for KeywordSet {
    type V = Seq<Seq<u8>>;

    closed spec fn view(&self) -> Seq<Seq<u8>> {
        self.entries@.map_values(|e: Vec<u8>| e@)
    }
}

impl KeywordSet {
    /// The empty vocabulary.
    pub fn new() -> (s: KeywordSet)
        ensures
            s@ =~= Seq::<Seq<u8>>::empty(),
            vocab_wf(s@),
    {
        KeywordSet { entries: Vec::new() }
    }

    /// How many keywords have been inserted.
    pub fn len(&self) -> (n: usize)
        ensures
            n == self@.len(),
    {
        self.entries.len()
    }

    /// The entry at index `i`, in original spelling.
    pub fn get(&self, i: usize) -> (r: &Vec<u8>)
        requires
            i < self@.len(),
        ensures
            r@ == self@[i as int],
    {
        &self.entries[i]
    }

    /// Find the entry that equals `s` up to case folding, if any. The result
    /// is `Some` exactly when the vocabulary contains such an entry.
    pub fn lookup(&self, s: &[u8]) -> (r: Option<usize>)
        requires
            vocab_wf(self@),
        ensures
            r is Some <==> spec_contains_fold(self@, s@),
            r matches Some(i) ==> {
                &&& i < self@.len()
                &&& fold_of(self@[i as int]) == fold_of(s@)
                &&& i == spec_index_of(self@, s@)
            },
    {
        let n = self.entries.len();
        let mut i: usize = 0;
        while i < n
            invariant
                n == self@.len(),
                i <= n,
                vocab_wf(self@),
                forall|j: int| 0 <= j < i ==> #[trigger] fold_of(self@[j]) != fold_of(s@),
            decreases n - i,
        {
            if eq_ignore_case(self.entries[i].as_slice(), s) {
                proof {
                    assert(fold_of(self@[i as int]) == fold_of(s@));
                    assert(spec_contains_fold(self@, s@));
                    let w = spec_index_of(self@, s@);
                    assert(fold_of(self@[w]) == fold_of(s@));
                }
                return Some(i);
            }
            i = i + 1;
        }
        None
    }

    /// Insert `s`, returning its stable index and whether it was new. When a
    /// case-insensitive equal entry already exists, the vocabulary is
    /// unchanged and that entry's index is returned; otherwise `s` is
    /// appended. Existing entries and their indices are never disturbed.
    pub fn insert_full(&mut self, s: Vec<u8>) -> (r: (usize, bool))
        requires
            vocab_wf(old(self)@),
            s@.len() > 0,
        ensures
            vocab_wf(final(self)@),
            final(self)@ == spec_insert(old(self)@, s@),
            r.0 == spec_insert_index(old(self)@, s@),
            r.1 == !spec_contains_fold(old(self)@, s@),
            r.0 < final(self)@.len(),
            fold_of(final(self)@[r.0 as int]) == fold_of(s@),
            vocab_extends(old(self)@, final(self)@),
    {
        match self.lookup(s.as_slice()) {
            Some(i) => (i, false),
            None => {
                let idx = self.entries.len();
                self.entries.push(s);
                proof {
                    assert(self@ =~= old(self)@.push(s@));
                }
                (idx, true)
            },
        }
    }
}

/// The law that vocabulary insertion is case-insensitive and deduplicating:
/// when `a` and `b` are the same keyword up to case folding, inserting `b`
/// after `a` changes nothing and yields the same index that `a` received.
pub proof fn lemma_insert_case_insensitive_dedup(v: Seq<Seq<u8>>, a: Seq<u8>, b: Seq<u8>)
    requires
        vocab_wf(v),
        fold_of(a) == fold_of(b),
    ensures
        spec_insert(spec_insert(v, a), b) == spec_insert(v, a),
        spec_insert_index(spec_insert(v, a), b) == spec_insert_index(v, a),
{
    let v1 = spec_insert(v, a);
    if spec_contains_fold(v, a) {
        let i = spec_index_of(v, a);
        assert(0 <= i < v.len() && fold_of(v[i]) == fold_of(a));
        assert(spec_contains_fold(v, b));
        let j = spec_index_of(v, b);
        assert(0 <= j < v.len() && fold_of(v[j]) == fold_of(b));
        assert(i == j);
    } else {
        assert(v1 == v.push(a));
        assert(fold_of(v1[v.len() as int]) == fold_of(b));
        assert(spec_contains_fold(v1, b));
        let j = spec_index_of(v1, b);
        assert(0 <= j < v1.len() && fold_of(v1[j]) == fold_of(b));
        assert forall|k: int| 0 <= k < v.len() implies fold_of(v1[k]) != fold_of(b) by {
            if fold_of(v1[k]) == fold_of(b) {
                assert(fold_of(v[k]) == fold_of(a));
                assert(spec_contains_fold(v, a));
            }
        }
        assert(j == v.len() as int);
    }
}

} // verus!

verus! {

/// Vocabulary extension is transitive.
pub proof fn lemma_vocab_extends_trans(a: Seq<Seq<u8>>, b: Seq<Seq<u8>>, c: Seq<Seq<u8>>)
    requires
        vocab_extends(a, b),
        vocab_extends(b, c),
    ensures
        vocab_extends(a, c),
{
    assert forall|i: int| 0 <= i < a.len() implies c[i] == #[trigger] a[i] by {
        assert(b[i] == a[i]);
        assert(c[i] == b[i]);
    }
}

} // verus!

verus! {

/// The law that membership is case-insensitive: two spellings of the same
/// keyword are found together, and at the same index.
pub proof fn lemma_lookup_case_insensitive(v: Seq<Seq<u8>>, a: Seq<u8>, b: Seq<u8>)
    requires
        vocab_wf(v),
        fold_of(a) == fold_of(b),
    ensures
        spec_contains_fold(v, a) <==> spec_contains_fold(v, b),
        spec_contains_fold(v, a) ==> spec_index_of(v, a) == spec_index_of(v, b),
{
    if spec_contains_fold(v, a) {
        let i = spec_index_of(v, a);
        assert(0 <= i < v.len() && fold_of(v[i]) == fold_of(a));
        assert(spec_contains_fold(v, b));
        let j = spec_index_of(v, b);
        assert(0 <= j < v.len() && fold_of(v[j]) == fold_of(b));
        assert(i == j);
    }
    if spec_contains_fold(v, b) {
        let j = spec_index_of(v, b);
        assert(0 <= j < v.len() && fold_of(v[j]) == fold_of(b));
        assert(spec_contains_fold(v, a));
    }
}

} // verus!
