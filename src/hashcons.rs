use vstd::prelude::*;

verus! {

/// Index from stored word sequences to their identifiers.
#[verifier::external_body]
pub struct ContentIndex {
    map: hashbrown::HashMap<Vec<u32>, u32>,
}

/// What the index maps each word sequence to.
pub uninterp spec fn index_contents(i: ContentIndex) -> Map<Seq<u32>, u32>;

impl ContentIndex {
    /// Relies on hashbrown::HashMap::new: a new map holds no entry.
    #[verifier::external_body]
    fn new() -> (r: ContentIndex)
        ensures
            forall|k: Seq<u32>| !(#[trigger] index_contents(r).contains_key(k)),
    {
        ContentIndex { map: hashbrown::HashMap::new() }
    }

    /// Relies on hashbrown::HashMap::get: the value stored under an equal key, if any.
    #[verifier::external_body]
    fn get(&self, k: &Vec<u32>) -> (r: Option<u32>)
        ensures
            r == (if index_contents(*self).contains_key(k@) {
                Some(index_contents(*self)[k@])
            } else {
                None
            }),
    {
        self.map.get(k).copied()
    }

    /// Relies on hashbrown::HashMap::insert: the key now maps to the value, other keys keep theirs.
    #[verifier::external_body]
    fn insert(&mut self, k: Vec<u32>, v: u32)
        ensures
            index_contents(*final(self)) == index_contents(*old(self)).insert(k@, v),
    {
        self.map.insert(k, v);
    }
}

/// Append-only store of word sequences, one identifier per distinct sequence.
pub struct VecHashCons {
    entries: Vec<Vec<u32>>,
    index: ContentIndex,
    bytes: usize,
}

impl VecHashCons {
    /// The stored sequences, by identifier.
    pub closed spec fn view(&self) -> Seq<Seq<u32>> {
        self.entries@.map_values(|v: Vec<u32>| v@)
    }

    pub closed spec fn bytes_spec(&self) -> usize {
        self.bytes
    }

    /// Every stored sequence is indexed under its own identifier, and the
    /// index names nothing else.
    pub closed spec fn wf(&self) -> bool {
        &&& self.entries@.len() <= u32::MAX
        &&& forall|i: int|
            0 <= i < self.entries@.len() ==> index_contents(self.index).contains_key(
                #[trigger] self.entries@[i]@,
            ) && index_contents(self.index)[self.entries@[i]@] == i
        &&& forall|k: Seq<u32>| #[trigger]
            index_contents(self.index).contains_key(k) ==> index_contents(self.index)[k]
                < self.entries@.len() && self.entries@[index_contents(self.index)[k] as int]@ == k
    }

    pub fn new() -> (r: VecHashCons)
        ensures
            r.wf(),
            r@ == Seq::<Seq<u32>>::empty(),
    {
        let r = VecHashCons { entries: Vec::new(), index: ContentIndex::new(), bytes: 0 };
        assert(r@ =~= Seq::<Seq<u32>>::empty());
        r
    }

    /// Stored sequences are distinct.
    pub proof fn lemma_distinct(&self, i: int, j: int)
        requires
            self.wf(),
            0 <= i < self@.len(),
            0 <= j < self@.len(),
            self@[i] == self@[j],
        ensures
            i == j,
    {
        assert(self@[i] == self.entries@[i]@);
        assert(self@[j] == self.entries@[j]@);
    }

    /// The identifier of `words`: the one it already has, or the next free one.
    pub fn insert(&mut self, words: Vec<u32>) -> (id: u32)
        requires
            old(self).wf(),
            old(self)@.len() < u32::MAX,
        ensures
            final(self).wf(),
            id < final(self)@.len(),
            final(self)@[id as int] == words@,
            old(self)@.contains(words@) ==> final(self)@ == old(self)@ && final(self).bytes_spec()
                == old(self).bytes_spec(),
            !old(self)@.contains(words@) ==> final(self)@ == old(self)@.push(words@) && id
                == old(self)@.len() && final(self).bytes_spec() == (if old(self).bytes_spec() + 4
                * words@.len() <= usize::MAX {
                (old(self).bytes_spec() + 4 * words@.len()) as usize
            } else {
                usize::MAX
            }),
    {
        match self.index.get(&words) {
            Some(id) => {
                assert(self@[id as int] == self.entries@[id as int]@);
                id
            },
            None => {
                proof {
                    if old(self)@.contains(words@) {
                        let k = choose|k: int| 0 <= k < old(self)@.len() && old(self)@[k] == words@;
                        assert(old(self)@[k] == old(self).entries@[k]@);
                    }
                }
                let id = self.entries.len() as u32;
                let n = words.len();
                self.index.insert(words.clone(), id);
                self.entries.push(words);
                self.bytes = if n <= usize::MAX / 4 && self.bytes <= usize::MAX - 4 * n {
                    self.bytes + 4 * n
                } else {
                    usize::MAX
                };
                assert(self@ =~= old(self)@.push(words@));
                assert forall|i: int| 0 <= i < self.entries@.len() implies index_contents(
                    self.index,
                ).contains_key(#[trigger] self.entries@[i]@) && index_contents(self.index)[self.entries@[i]@]
                    == i by {
                    if i < old(self).entries@.len() {
                        assert(old(self).entries@[i] == self.entries@[i]);
                        if self.entries@[i]@ == words@ {
                            assert(old(self)@[i] == words@);
                        }
                    }
                }
                id
            },
        }
    }

    /// The sequence stored under `id`.
    pub fn get(&self, id: u32) -> (r: &[u32])
        requires
            id < self@.len(),
        ensures
            r@ == self@[id as int],
    {
        self.entries[id as usize].as_slice()
    }

    pub fn is_valid(&self, id: u32) -> (r: bool)
        ensures
            r == (id < self@.len()),
    {
        (id as usize) < self.entries.len()
    }

    /// Number of distinct stored sequences.
    pub fn len(&self) -> (r: usize)
        ensures
            r == self@.len(),
    {
        self.entries.len()
    }

    /// Bytes taken by the stored words.
    pub fn num_bytes(&self) -> (r: usize)
        ensures
            r == self.bytes_spec(),
    {
        self.bytes
    }
}

} // verus!
