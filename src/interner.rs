use std::collections::HashMap;
use std::hash::Hasher;
use vstd::prelude::*;
use crate::lexer::chars_of;

verus! {

broadcast use vstd::std_specs::hash::group_hash_axioms;

/// The 64-bit xxHash (seed 0) of the UTF-8 encoding of a text.
pub uninterp spec fn xxh64_of(s: Seq<char>) -> u64;

/// Relies on twox_hash::XxHash64 (seed 0, fed through `Hasher::write` and
/// read with `Hasher::finish`): the digest depends on the text alone.
#[verifier::external_body]
fn content_hash(s: &[char]) -> (r: u64)
    ensures
        r == xxh64_of(s@),
{
    let text: String = s.iter().collect();
    let mut hasher = twox_hash::XxHash64::with_seed(0);
    hasher.write(text.as_bytes());
    hasher.finish()
}

/// A handle on one interned text: two atoms of one interner are equal exactly
/// when they were interned from equal texts.
#[derive(Clone, Copy, Debug, PartialEq, Eq, Structural, Hash)]
pub struct Atom {
    pub(crate) id: usize,
}

impl Atom {
    /// The position of the atom's text in its interner.
    pub open(crate) spec fn index(self) -> nat {
        self.id as nat
    }

    pub fn id(&self) -> (r: usize)
        ensures
            r == self.index(),
    {
        self.id
    }
}

fn same_text(a: &[char], b: &[char]) -> (r: bool)
    ensures
        r == (a@ == b@),
{
    if a.len() != b.len() {
        return false;
    }
    let mut i: usize = 0;
    while i < a.len()
        invariant
            a@.len() == b@.len(),
            i <= a@.len(),
            forall|j: int| 0 <= j < i ==> a@[j] == b@[j],
        decreases a@.len() - i,
    {
        if a[i] != b[i] {
            return false;
        }
        i = i + 1;
    }
    assert(a@ == b@);
    true
}

fn copy_text(s: &[char]) -> (r: Vec<char>)
    ensures
        r@ == s@,
{
    let mut v: Vec<char> = Vec::new();
    let mut i: usize = 0;
    while i < s.len()
        invariant
            i <= s@.len(),
            v@ == s@.subrange(0, i as int),
        decreases s@.len() - i,
    {
        v.push(s[i]);
        i = i + 1;
    }
    assert(v@ == s@);
    v
}

/// What interning `s` does to a table of texts `before`: a text already held
/// keeps its atom and the table, a new one is appended; either way the atom
/// names `s`.
pub open spec fn intern_post(before: Seq<Seq<char>>, after: Seq<Seq<char>>, s: Seq<char>, r: Atom) -> bool {
    &&& before.contains(s) ==> after == before
    &&& !before.contains(s) ==> after == before.push(s)
    &&& r.index() < after.len()
    &&& after[r.index() as int] == s
}

/// A table of distinct texts; each is kept for the life of the table and is
/// named by its position.
pub struct Interner {
    strings: Vec<Vec<char>>,
    buckets: HashMap<u64, Vec<usize>>,
}

impl View for Interner {
    type V = Seq<Seq<char>>;

    closed spec fn view(&self) -> Seq<Seq<char>> {
        self.strings@.map_values(|v: Vec<char>| v@)
    }
}

impl Interner {
    /// No text is held twice, and each text is filed under its digest.
    pub closed spec fn wf(&self) -> bool {
        &&& forall|i: int, j: int|
            0 <= i < self.strings@.len() && 0 <= j < self.strings@.len() && i != j
                ==> #[trigger] self.strings@[i]@ != #[trigger] self.strings@[j]@
        &&& forall|i: int|
            0 <= i < self.strings@.len() ==> {
                &&& self.buckets@.contains_key(#[trigger] xxh64_of(self.strings@[i]@))
                &&& self.buckets@[xxh64_of(self.strings@[i]@)]@.contains(i as usize)
            }
        &&& forall|h: u64, k: int|
            self.buckets@.contains_key(h) && 0 <= k < self.buckets@[h]@.len()
                ==> #[trigger] self.buckets@[h]@[k] < self.strings@.len()
    }

    pub fn new() -> (r: Interner)
        ensures
            r.wf(),
            r@ == Seq::<Seq<char>>::empty(),
    {
        let r = Interner { strings: Vec::new(), buckets: HashMap::new() };
        assert(r@ =~= Seq::<Seq<char>>::empty());
        r
    }

    /// The atom of the text `s`; see `intern_chars`.
    pub fn intern(&mut self, s: &str) -> (r: Atom)
        requires
            old(self).wf(),
        ensures
            final(self).wf(),
            intern_post(old(self)@, final(self)@, s@, r),
    {
        let text = chars_of(s);
        self.intern_chars(text.as_slice())
    }

    /// The text of `a`, where `a` was handed out by this interner.
    pub fn text(&self, a: Atom) -> (r: Option<&Vec<char>>)
        ensures
            r is Some <==> a.index() < self@.len(),
            r matches Some(t) ==> t@ == self@[a.index() as int],
    {
        if a.id < self.strings.len() {
            Some(&self.strings[a.id])
        } else {
            None
        }
    }

    /// The number of texts held.
    pub fn len(&self) -> (r: usize)
        ensures
            r == self@.len(),
    {
        self.strings.len()
    }

    /// The atom of `s`: the one handed out before for an equal text, or a new
    /// one whose text is `s`.
    pub fn intern_chars(&mut self, s: &[char]) -> (r: Atom)
        requires
            old(self).wf(),
        ensures
            final(self).wf(),
            intern_post(old(self)@, final(self)@, s@, r),
    {
        let h = content_hash(s);
        let ghost before = self@;
        match self.buckets.get(&h) {
            Some(bucket) => {
                let mut k: usize = 0;
                while k < bucket.len()
                    invariant
                        self.wf(),
                        self.buckets@.contains_key(h),
                        self.buckets@[h] == *bucket,
                        k <= bucket@.len(),
                        forall|j: int|
                            0 <= j < k ==> self.strings@[#[trigger] bucket@[j] as int]@ != s@,
                    decreases bucket@.len() - k,
                {
                    let id = bucket[k];
                    assert(self.buckets@[h]@[k as int] == id);
                    if same_text(self.strings[id].as_slice(), s) {
                        assert(self@[id as int] == s@);
                        return Atom { id };
                    }
                    k = k + 1;
                }
                assert(!before.contains(s@)) by {
                    if before.contains(s@) {
                        let i = choose|i: int| 0 <= i < before.len() && before[i] == s@;
                        assert(self.strings@[i]@ == s@);
                        assert(0 <= i < self.strings.len());
                        assert(xxh64_of(self.strings@[i]@) == h);
                        assert(self.buckets@[h]@.contains(i as usize));
                        assert(bucket@.contains(i as usize));
                        let j = choose|j: int|
                            0 <= j < bucket@.len() && bucket@[j] == i as usize;
                        assert(bucket@[j] as int == i);
                        assert(self.strings@[bucket@[j] as int]@ != s@);
                        assert(false);
                    }
                }
            },
            None => {
                assert(!before.contains(s@)) by {
                    if before.contains(s@) {
                        let i = choose|i: int| 0 <= i < before.len() && before[i] == s@;
                        assert(self.strings@[i]@ == s@);
                    }
                }
            },
        }
        let id = self.strings.len();
        let ghost old_buckets = self.buckets@;
        let mut bucket = match self.buckets.remove(&h) {
            Some(b) => b,
            None => Vec::new(),
        };
        assert(old_buckets.contains_key(h) ==> bucket@ == old_buckets[h]@);
        assert(!old_buckets.contains_key(h) ==> bucket@.len() == 0);
        bucket.push(id);
        self.strings.push(copy_text(s));
        self.buckets.insert(h, bucket);
        proof {
            assert(self@ =~= before.push(s@));
            assert forall|i: int, j: int|
                0 <= i < self.strings@.len() && 0 <= j < self.strings@.len() && i != j
                    implies #[trigger] self.strings@[i]@ != #[trigger] self.strings@[j]@ by {
                if i < id && j < id {
                    assert(self.strings@[i]@ == before[i]);
                    assert(self.strings@[j]@ == before[j]);
                } else if i < id {
                    assert(self.strings@[i]@ == before[i]);
                } else {
                    assert(self.strings@[j]@ == before[j]);
                }
            }
            assert forall|i: int| 0 <= i < self.strings@.len() implies {
                &&& self.buckets@.contains_key(#[trigger] xxh64_of(self.strings@[i]@))
                &&& self.buckets@[xxh64_of(self.strings@[i]@)]@.contains(i as usize)
            } by {
                if i < id {
                    let g = xxh64_of(self.strings@[i]@);
                    assert(self.strings@[i] == old(self).strings@[i]);
                    assert(old_buckets[g]@.contains(i as usize));
                    if g == h {
                        let k = choose|k: int|
                            0 <= k < old_buckets[g]@.len() && old_buckets[g]@[k] == i as usize;
                        assert(self.buckets@[h]@[k] == i as usize);
                    }
                } else {
                    assert(self.buckets@[h]@[self.buckets@[h]@.len() - 1] == id);
                }
            }
        }
        Atom { id }
    }
}

/// Interning is faithful to content: two atoms that an interner handed out
/// are equal exactly when their texts are equal.
pub proof fn lemma_atoms_match_texts(t: &Interner, a: Atom, b: Atom)
    requires
        t.wf(),
        a.index() < t@.len(),
        b.index() < t@.len(),
    ensures
        (a == b) <==> (t@[a.index() as int] == t@[b.index() as int]),
{
    if a != b {
        assert(t.strings@[a.id as int]@ != t.strings@[b.id as int]@);
    }
}

/// Interning twice yields equal atoms exactly when the two texts are equal.
pub proof fn lemma_intern_twice(
    t: &Interner,
    v0: Seq<Seq<char>>,
    v1: Seq<Seq<char>>,
    s: Seq<char>,
    u: Seq<char>,
    a: Atom,
    b: Atom,
)
    requires
        t.wf(),
        intern_post(v0, v1, s, a),
        intern_post(v1, t@, u, b),
    ensures
        (a == b) <==> (s == u),
{
    assert(t@[a.index() as int] == v1[a.index() as int]);
    lemma_atoms_match_texts(t, a, b);
}

} // verus!
