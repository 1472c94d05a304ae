//! The `key=value` parameters of one message.

use vstd::prelude::*;

verus! {

/// The map that a list of keys and a list of values stand for, the pair at
/// the end of the lists taking precedence.
pub open spec fn assoc(keys: Seq<String>, values: Seq<String>) -> Map<Seq<char>, Seq<char>>
    decreases keys.len(),
{
    if keys.len() == 0 || keys.len() != values.len() {
        Map::empty()
    } else {
        assoc(keys.drop_last(), values.drop_last()).insert(keys.last()@, values.last()@)
    }
}

/// No two keys of the list have the same text.
pub open spec fn distinct(keys: Seq<String>) -> bool {
    forall|i: int, j: int| 0 <= i < j < keys.len() ==> keys[i]@ != keys[j]@
}

/// With distinct keys, `assoc` holds exactly the listed pairs.
pub proof fn lemma_assoc(keys: Seq<String>, values: Seq<String>)
    requires
        keys.len() == values.len(),
        distinct(keys),
    ensures
        assoc(keys, values).dom().finite(),
        assoc(keys, values).len() == keys.len(),
        forall|i: int|
            0 <= i < keys.len() ==> assoc(keys, values).contains_key(#[trigger] keys[i]@)
                && assoc(keys, values)[keys[i]@] == values[i]@,
        forall|k: Seq<char>| #[trigger]
            assoc(keys, values).contains_key(k) ==> exists|i: int|
                0 <= i < keys.len() && #[trigger] keys[i]@ == k,
    decreases keys.len(),
{
    if keys.len() > 0 {
        let ks = keys.drop_last();
        let vs = values.drop_last();
        lemma_assoc(ks, vs);
        let m = assoc(ks, vs);
        let last = keys.len() - 1;
        assert(!m.contains_key(keys.last()@)) by {
            if m.contains_key(keys.last()@) {
                let i = choose|i: int| 0 <= i < ks.len() && #[trigger] ks[i]@ == keys.last()@;
                assert(keys[i]@ == keys[last]@);
            }
        }
        assert forall|i: int| 0 <= i < keys.len() implies assoc(keys, values).contains_key(
            #[trigger] keys[i]@,
        ) && assoc(keys, values)[keys[i]@] == values[i]@ by {
            if i < last {
                assert(ks[i]@ == keys[i]@);
                assert(vs[i]@ == values[i]@);
                assert(keys[i]@ != keys[last]@);
            }
        }
        assert forall|k: Seq<char>| #[trigger]
            assoc(keys, values).contains_key(k) implies exists|i: int|
            0 <= i < keys.len() && #[trigger] keys[i]@ == k by {
            if k == keys.last()@ {
                assert(keys[last]@ == k);
            } else {
                let i = choose|i: int| 0 <= i < ks.len() && #[trigger] ks[i]@ == k;
                assert(keys[i]@ == k);
            }
        }
    }
}

/// The parameters parsed from one message: a finite map from key to value.
///
/// A key occurs at most once; setting a key again replaces its value.
pub struct Params {
    keys: Vec<String>,
    values: Vec<String>,
}

impl View for Params {
    type V = Map<Seq<char>, Seq<char>>;

    closed spec fn view(&self) -> Map<Seq<char>, Seq<char>> {
        assoc(self.keys@, self.values@)
    }
}

impl Params {
    #[verifier::type_invariant]
    spec fn inv(&self) -> bool {
        &&& self.keys.len() == self.values.len()
        &&& distinct(self.keys@)
    }

    /// No parameters.
    pub fn new() -> (r: Self)
        ensures
            r@ == Map::<Seq<char>, Seq<char>>::empty(),
    {
        Params { keys: Vec::new(), values: Vec::new() }
    }

    /// The position of `key` among the keys, if it is there.
    fn position(&self, key: &String) -> (r: Option<usize>)
        ensures
            match r {
                Some(i) => i < self.keys.len() && self.keys[i as int]@ == key@,
                None => forall|j: int| 0 <= j < self.keys.len() ==> self.keys[j]@ != key@,
            },
    {
        let mut i: usize = 0;
        while i < self.keys.len()
            invariant
                i <= self.keys.len(),
                forall|j: int| 0 <= j < i ==> self.keys[j]@ != key@,
            decreases self.keys.len() - i,
        {
            if self.keys[i] == *key {
                return Some(i);
            }
            i += 1;
        }
        None
    }

    /// These parameters with `key` set to `value`. A value that `key` had
    /// before is replaced.
    pub fn with(self, key: String, value: String) -> (r: Self)
        ensures
            r@ == self@.insert(key@, value@),
    {
        proof {
            use_type_invariant(&self);
            lemma_assoc(self.keys@, self.values@);
        }
        let found = self.position(&key);
        let ghost before = self@;
        let Params { mut keys, mut values } = self;
        match found {
            Some(i) => {
                values.set(i, value);
                proof {
                    lemma_assoc(keys@, values@);
                    assert(assoc(keys@, values@) =~= before.insert(key@, value@)) by {
                        assert forall|k: Seq<char>| #[trigger]
                            before.insert(key@, value@).contains_key(k) implies assoc(
                            keys@,
                            values@,
                        ).contains_key(k) && assoc(keys@, values@)[k] == before.insert(
                            key@,
                            value@,
                        )[k] by {
                            let j = if k == key@ {
                                i as int
                            } else {
                                choose|j: int| 0 <= j < keys.len() && #[trigger] keys[j]@ == k
                            };
                            assert(keys[j]@ == k);
                        }
                    }
                }
            },
            None => {
                let ghost ks = keys@;
                let ghost vs = values@;
                keys.push(key);
                values.push(value);
                assert(keys@.drop_last() =~= ks);
                assert(values@.drop_last() =~= vs);
            },
        }
        Params { keys, values }
    }

    /// The value of `key`, if `key` is set.
    pub fn get(&self, key: &str) -> (r: Option<&str>)
        ensures
            match r {
                Some(v) => self@.contains_key(key@) && self@[key@] == v@,
                None => !self@.contains_key(key@),
            },
    {
        proof {
            use_type_invariant(self);
            lemma_assoc(self.keys@, self.values@);
        }
        match self.position(&key.to_owned()) {
            Some(i) => Some(self.values[i].as_str()),
            None => None,
        }
    }

    /// Whether `key` is set.
    pub fn contains_key(&self, key: &str) -> (r: bool)
        ensures
            r == self@.contains_key(key@),
    {
        self.get(key).is_some()
    }

    /// The number of keys that are set.
    pub fn len(&self) -> (r: usize)
        ensures
            self@.dom().finite(),
            r == self@.len(),
    {
        proof {
            use_type_invariant(self);
            lemma_assoc(self.keys@, self.values@);
        }
        self.keys.len()
    }

    /// Whether no key is set.
    pub fn is_empty(&self) -> (r: bool)
        ensures
            r == (self@ == Map::<Seq<char>, Seq<char>>::empty()),
    {
        proof {
            use_type_invariant(self);
            lemma_assoc(self.keys@, self.values@);
        }
        let r = self.keys.len() == 0;
        proof {
            if r {
                assert(self@ =~= Map::<Seq<char>, Seq<char>>::empty());
            } else {
                assert(self@.contains_key(self.keys[0]@));
            }
        }
        r
    }
}

} // verus!
