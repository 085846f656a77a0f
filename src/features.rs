use vstd::prelude::*;

verus! {

/// One entry of a feature map: a key and an optional value.
pub struct Feature {
    pub key: String,
    pub value: Option<String>,
}

/// An insertion-ordered map from string keys to optional string values.
/// A key that is present without a value differs from an absent key.
pub struct Features {
    pub entries: Vec<Feature>,
}

pub open spec fn opt_view(v: Option<String>) -> Option<Seq<char>> {
    match v {
        Some(s) => Some(s@),
        None => None,
    }
}

impl View for Feature {
    type V = (Seq<char>, Option<Seq<char>>);

    open spec fn view(&self) -> (Seq<char>, Option<Seq<char>>) {
        (self.key@, opt_view(self.value))
    }
}

impl View for Features {
    type V = Seq<(Seq<char>, Option<Seq<char>>)>;

    open spec fn view(&self) -> Seq<(Seq<char>, Option<Seq<char>>)> {
        self.entries@.map_values(|f: Feature| f@)
    }
}

/// No key occurs twice.
pub open spec fn keys_unique(s: Seq<(Seq<char>, Option<Seq<char>>)>) -> bool {
    forall|i: int, j: int| 0 <= i < s.len() && 0 <= j < s.len() && s[i].0 == s[j].0 ==> i == j
}

/// What the map holds under `key`: `None` where the key is absent,
/// `Some(v)` with the (optional) value otherwise.
pub open spec fn entry_of(s: Seq<(Seq<char>, Option<Seq<char>>)>, key: Seq<char>) -> Option<
    Option<Seq<char>>,
> {
    if exists|i: int| 0 <= i < s.len() && s[i].0 == key {
        Some(s[choose|i: int| 0 <= i < s.len() && s[i].0 == key].1)
    } else {
        None
    }
}

/// The map after storing `value` under `key`: an existing entry keeps its
/// place, a new one goes last.
pub open spec fn stored(
    s: Seq<(Seq<char>, Option<Seq<char>>)>,
    key: Seq<char>,
    value: Option<Seq<char>>,
) -> Seq<(Seq<char>, Option<Seq<char>>)> {
    if exists|i: int| 0 <= i < s.len() && s[i].0 == key {
        s.update(choose|i: int| 0 <= i < s.len() && s[i].0 == key, (key, value))
    } else {
        s.push((key, value))
    }
}

proof fn lemma_entry_at(s: Seq<(Seq<char>, Option<Seq<char>>)>, key: Seq<char>, i: int)
    requires
        keys_unique(s),
        0 <= i < s.len(),
        s[i].0 == key,
    ensures
        entry_of(s, key) == Some(s[i].1),
        (choose|j: int| 0 <= j < s.len() && s[j].0 == key) == i,
{
}

impl Features {
    pub open spec fn wf(&self) -> bool {
        keys_unique(self@)
    }

    /// An empty feature map.
    pub fn new() -> (r: Features)
        ensures
            r@ == Seq::<(Seq<char>, Option<Seq<char>>)>::empty(),
            r.wf(),
    {
        let r = Features { entries: Vec::new() };
        assert(r@ =~= Seq::<(Seq<char>, Option<Seq<char>>)>::empty());
        r
    }

    /// Index of the entry with `key`, if any.
    fn find(&self, key: &str) -> (r: Option<usize>)
        requires
            self.wf(),
        ensures
            match r {
                Some(i) => i < self@.len() && self@[i as int].0 == key@ && entry_of(self@, key@)
                    == Some(self@[i as int].1) && (choose|j: int|
                    0 <= j < self@.len() && self@[j].0 == key@) == i,
                None => entry_of(self@, key@) is None && forall|j: int|
                    0 <= j < self@.len() ==> self@[j].0 != key@,
            },
    {
        let k = String::from_str(key);
        let mut i: usize = 0;
        while i < self.entries.len()
            invariant
                i <= self.entries@.len(),
                self.wf(),
                k@ == key@,
                forall|j: int| 0 <= j < i ==> self@[j].0 != key@,
            decreases self.entries@.len() - i,
        {
            if self.entries[i].key == k {
                proof {
                    lemma_entry_at(self@, key@, i as int);
                }
                return Some(i);
            }
            i = i + 1;
        }
        None
    }

    /// What the map holds under `key`: `None` where it is absent.
    pub fn get(&self, key: &str) -> (r: Option<Option<String>>)
        requires
            self.wf(),
        ensures
            match r {
                Some(v) => entry_of(self@, key@) == Some(opt_view(v)),
                None => entry_of(self@, key@) is None,
            },
    {
        match self.find(key) {
            Some(i) => Some(self.entries[i].value.clone()),
            None => None,
        }
    }

    /// The value under `key`, where the key is present with a value.
    pub fn get_val(&self, key: &str) -> (r: Option<String>)
        requires
            self.wf(),
        ensures
            match r {
                Some(v) => entry_of(self@, key@) == Some(Some(v@)),
                None => !(entry_of(self@, key@) matches Some(Some(_))),
            },
    {
        match self.find(key) {
            Some(i) => self.entries[i].value.clone(),
            None => None,
        }
    }

    /// Stores `value` under `key`, in place of an earlier value.
    pub fn insert(&mut self, key: &str, value: Option<String>)
        requires
            old(self).wf(),
        ensures
            final(self).wf(),
            final(self)@ == stored(old(self)@, key@, opt_view(value)),
    {
        let k = String::from_str(key);
        let ghost v = opt_view(value);
        match self.find(key) {
            Some(i) => {
                self.entries.set(i, Feature { key: k, value });
                assert(self@ =~= old(self)@.update(i as int, (key@, v)));
            },
            None => {
                self.entries.push(Feature { key: k, value });
                assert(self@ =~= old(self)@.push((key@, v)));
            },
        }
    }
}

} // verus!
