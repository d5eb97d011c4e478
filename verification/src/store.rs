//! The store of variables: bindings from lowercase identifiers to values,
//! with keys that survive a clear and keys that refuse a write.
use vstd::prelude::*;
use vstd::string::*;
use crate::text::{chars_of, same_chars};
use crate::values::{Value, ValueView};

verus! {

/// The lowercase form of `text`, as the standard library gives it.
pub uninterp spec fn lowercase_of(text: Seq<char>) -> Seq<char>;

/// The lowercase form of `text`.
///
/// Trusted: `str::to_lowercase` of the standard library, whose result is a
/// function of the text alone.
#[verifier::external_body]
fn lowercase(text: &str) -> (r: String)
    ensures
        r@ == lowercase_of(text@),
{
    text.to_lowercase()
}

/// A variable and its value.
#[derive(Debug)]
pub struct Binding {
    pub key: Vec<char>,
    pub value: Value,
}

/// Bindings from lowercase identifiers to values, a set of protected keys,
/// which survive [`ValueStore::clear`], and a set of readonly keys, which
/// refuse to be set.
#[derive(Debug)]
pub struct ValueStore {
    bindings: Vec<Binding>,
    protected: Vec<Vec<char>>,
    readonly: Vec<Vec<char>>,
}

/// What a [`ValueStore`] holds.
pub ghost struct StoreView {
    pub values: Map<Seq<char>, ValueView>,
    pub protected: Set<Seq<char>>,
    pub readonly: Set<Seq<char>>,
}

impl StoreView {
    /// The store without any binding or mark.
    pub open spec fn empty() -> StoreView {
        StoreView { values: Map::empty(), protected: Set::empty(), readonly: Set::empty() }
    }

    /// The store after `key` has been set to `value`, where it can be.
    pub open spec fn set(self, key: Seq<char>, value: ValueView) -> StoreView {
        if self.readonly.contains(key) {
            self
        } else {
            StoreView { values: self.values.insert(key, value), ..self }
        }
    }

    /// The store after `key` has been set to `value` and marked readonly,
    /// where it can be.
    pub open spec fn set_readonly(self, key: Seq<char>, value: ValueView) -> StoreView {
        if self.readonly.contains(key) {
            self
        } else {
            StoreView {
                values: self.values.insert(key, value),
                readonly: self.readonly.insert(key),
                ..self
            }
        }
    }

    /// The store with `key` marked as surviving a clear.
    pub open spec fn protect(self, key: Seq<char>) -> StoreView {
        StoreView { protected: self.protected.insert(key), ..self }
    }

    /// The store after a clear: only the bindings and readonly marks of
    /// protected keys are left.
    pub open spec fn cleared(self) -> StoreView {
        StoreView {
            values: self.values.restrict(self.protected),
            protected: self.protected,
            readonly: self.readonly.intersect(self.protected),
        }
    }
}

/// The index of the first binding of `key` among the first `n` of
/// `bindings`, or `None`.
pub open spec fn first_binding(bindings: Seq<Binding>, key: Seq<char>, n: int) -> Option<int>
    decreases n,
{
    if n <= 0 {
        None
    } else {
        match first_binding(bindings, key, n - 1) {
            Some(i) => Some(i),
            None => if bindings[n - 1].key@ == key {
                Some(n - 1)
            } else {
                None
            },
        }
    }
}

/// Whether `key` is among `keys`.
pub open spec fn holds_key(keys: Seq<Vec<char>>, key: Seq<char>) -> bool {
    exists|i: int| 0 <= i < keys.len() && (#[trigger] keys[i])@ == key
}

/// The values that `bindings` give: for every key the value of its first
/// binding.
pub open spec fn values_of(bindings: Seq<Binding>) -> Map<Seq<char>, ValueView> {
    Map::new(
        |k: Seq<char>| first_binding(bindings, k, bindings.len() as int) is Some,
        |k: Seq<char>| bindings[first_binding(bindings, k, bindings.len() as int)->0].value@,
    )
}

/// The set of the keys in `keys`.
pub open spec fn keys_of(keys: Seq<Vec<char>>) -> Set<Seq<char>> {
    Set::new(|k: Seq<char>| holds_key(keys, k))
}

proof fn lemma_first_binding(bindings: Seq<Binding>, key: Seq<char>, n: int)
    requires
        0 <= n <= bindings.len(),
    ensures
        match first_binding(bindings, key, n) {
            Some(i) => 0 <= i < n && bindings[i].key@ == key && forall|j: int|
                0 <= j < i ==> bindings[j].key@ != key,
            None => forall|j: int| 0 <= j < n ==> bindings[j].key@ != key,
        },
    decreases n,
{
    if n > 0 {
        lemma_first_binding(bindings, key, n - 1);
    }
}

/// The first binding of a key is found by its properties.
proof fn lemma_first_binding_is(bindings: Seq<Binding>, key: Seq<char>, i: int)
    requires
        0 <= i < bindings.len(),
        bindings[i].key@ == key,
        forall|j: int| 0 <= j < i ==> bindings[j].key@ != key,
    ensures
        first_binding(bindings, key, bindings.len() as int) == Some(i),
{
    lemma_first_binding(bindings, key, bindings.len() as int);
}

/// A key that no binding has is not found.
proof fn lemma_no_binding(bindings: Seq<Binding>, key: Seq<char>)
    requires
        forall|j: int| 0 <= j < bindings.len() ==> bindings[j].key@ != key,
    ensures
        first_binding(bindings, key, bindings.len() as int) is None,
{
    lemma_first_binding(bindings, key, bindings.len() as int);
}

/// The value that the first binding of `key` gives, or `None`.
pub open spec fn lookup(bindings: Seq<Binding>, key: Seq<char>) -> Option<ValueView> {
    match first_binding(bindings, key, bindings.len() as int) {
        Some(i) => Some(bindings[i].value@),
        None => None,
    }
}

/// Taking out a binding of another key leaves the value of a key as it was.
proof fn lemma_remove_other_binding(bindings: Seq<Binding>, i: int, key: Seq<char>)
    requires
        0 <= i < bindings.len(),
        bindings[i].key@ != key,
    ensures
        lookup(bindings.remove(i), key) == lookup(bindings, key),
{
    let after = bindings.remove(i);
    lemma_first_binding(bindings, key, bindings.len() as int);
    match first_binding(bindings, key, bindings.len() as int) {
        Some(x) => {
            let y = if x < i {
                x
            } else {
                x - 1
            };
            assert(after[y] == bindings[x]);
            assert forall|j: int| 0 <= j < y implies after[j].key@ != key by {
                if j < i {
                    assert(after[j] == bindings[j]);
                } else {
                    assert(after[j] == bindings[j + 1]);
                }
            }
            lemma_first_binding_is(after, key, y);
        },
        None => {
            assert forall|j: int| 0 <= j < after.len() implies after[j].key@ != key by {
                if j < i {
                    assert(after[j] == bindings[j]);
                } else {
                    assert(after[j] == bindings[j + 1]);
                }
            }
            lemma_no_binding(after, key);
        },
    }
}

/// Taking out another key leaves a key among the keys, or not, as it was.
proof fn lemma_remove_other_key(keys: Seq<Vec<char>>, i: int, key: Seq<char>)
    requires
        0 <= i < keys.len(),
        keys[i]@ != key,
    ensures
        holds_key(keys.remove(i), key) == holds_key(keys, key),
{
    let after = keys.remove(i);
    if holds_key(keys, key) {
        let x = choose|x: int| 0 <= x < keys.len() && (#[trigger] keys[x])@ == key;
        let y = if x < i {
            x
        } else {
            x - 1
        };
        assert(after[y]@ == key);
    }
    if holds_key(after, key) {
        let y = choose|y: int| 0 <= y < after.len() && (#[trigger] after[y])@ == key;
        let x = if y < i {
            y
        } else {
            y + 1
        };
        assert(keys[x]@ == key);
    }
}

impl View for ValueStore {
    type V = StoreView;

    closed spec fn view(&self) -> StoreView {
        StoreView {
            values: values_of(self.bindings@),
            protected: keys_of(self.protected@),
            readonly: keys_of(self.readonly@),
        }
    }
}

/// The index of `key` among `keys`, or their number where it is not there.
fn position_of(keys: &Vec<Vec<char>>, key: &Vec<char>) -> (i: usize)
    ensures
        i <= keys.len(),
        i < keys.len() ==> keys[i as int]@ == key@,
        forall|j: int| 0 <= j < i ==> keys[j]@ != key@,
        (i < keys.len()) == holds_key(keys@, key@),
{
    let mut i: usize = 0;
    while i < keys.len()
        invariant
            i <= keys.len(),
            forall|j: int| 0 <= j < i ==> keys[j]@ != key@,
        decreases keys.len() - i,
    {
        if same_chars(&keys[i], key) {
            return i;
        }
        i += 1;
    }
    i
}

impl ValueStore {
    /// The empty store.
    pub fn new() -> (s: ValueStore)
        ensures
            s@ == StoreView::empty(),
    {
        let s = ValueStore { bindings: Vec::new(), protected: Vec::new(), readonly: Vec::new() };
        proof {
            assert(s@.values =~= Map::<Seq<char>, ValueView>::empty());
            assert(s@.protected =~= Set::<Seq<char>>::empty());
            assert(s@.readonly =~= Set::<Seq<char>>::empty());
        }
        s
    }

    /// The empty store in which each of `keys`, in lowercase, is protected.
    pub fn with_protected_keys(keys: Vec<&str>) -> (s: ValueStore)
        ensures
            s@.values == Map::<Seq<char>, ValueView>::empty(),
            s@.readonly == Set::<Seq<char>>::empty(),
            forall|k: Seq<char>|
                s@.protected.contains(k) <==> exists|i: int|
                    0 <= i < keys.len() && lowercase_of((#[trigger] keys[i])@) == k,
    {
        let mut s = ValueStore::new();
        let mut j: usize = 0;
        while j < keys.len()
            invariant
                j <= keys.len(),
                s@.values == Map::<Seq<char>, ValueView>::empty(),
                s@.readonly == Set::<Seq<char>>::empty(),
                forall|k: Seq<char>|
                    s@.protected.contains(k) <==> exists|i: int|
                        0 <= i < j && lowercase_of((#[trigger] keys[i])@) == k,
            decreases keys.len() - j,
        {
            let ghost before = s@.protected;
            s.add_protected_key(keys[j]);
            proof {
                assert forall|k: Seq<char>|
                    s@.protected.contains(k) <==> exists|i: int|
                        0 <= i < j + 1 && lowercase_of((#[trigger] keys[i])@) == k by {
                    if s@.protected.contains(k) {
                        if before.contains(k) {
                            let i = choose|i: int|
                                0 <= i < j && lowercase_of((#[trigger] keys[i])@) == k;
                            assert(0 <= i < j + 1 && lowercase_of(keys[i]@) == k);
                        } else {
                            assert(lowercase_of(keys[j as int]@) == k);
                        }
                    }
                    if exists|i: int| 0 <= i < j + 1 && lowercase_of((#[trigger] keys[i])@) == k {
                        let i = choose|i: int|
                            0 <= i < j + 1 && lowercase_of((#[trigger] keys[i])@) == k;
                        if i < j {
                            assert(before.contains(k));
                        }
                    }
                }
            }
            j += 1;
        }
        s
    }

    /// Marks `id`, in lowercase, as surviving a clear.
    pub fn add_protected_key(&mut self, id: &str)
        ensures
            final(self)@ == old(self)@.protect(lowercase_of(id@)),
    {
        let key = chars_of(lowercase(id).as_str());
        let ghost before = self.protected@;
        if position_of(&self.protected, &key) < self.protected.len() {
            assert(keys_of(before) =~= keys_of(before).insert(key@));
            return ;
        }
        self.protected.push(key);
        proof {
            let after = self.protected@;
            assert(after[before.len() as int]@ == key@);
            assert forall|k: Seq<char>| holds_key(after, k) == (k == key@ || holds_key(before, k)) by {
                if holds_key(before, k) {
                    let i = choose|i: int| 0 <= i < before.len() && (#[trigger] before[i])@ == k;
                    assert(after[i]@ == k);
                }
                if holds_key(after, k) {
                    let i = choose|i: int| 0 <= i < after.len() && (#[trigger] after[i])@ == k;
                    if i < before.len() {
                        assert(before[i]@ == k);
                    }
                }
            }
            assert(keys_of(after) =~= keys_of(before).insert(key@));
        }
    }

    /// Takes from `id`, in lowercase, the mark of surviving a clear.
    pub fn remove_protected_key(&mut self, id: &str)
        ensures
            final(self)@ == (StoreView {
                protected: old(self)@.protected.remove(lowercase_of(id@)),
                ..old(self)@
            }),
    {
        let key = chars_of(lowercase(id).as_str());
        let ghost before = self.protected@;
        let mut i: usize = 0;
        while i < self.protected.len()
            invariant
                i <= self.protected.len(),
                self.bindings == old(self).bindings,
                self.readonly == old(self).readonly,
                forall|j: int| 0 <= j < i ==> self.protected[j]@ != key@,
                forall|k: Seq<char>|
                    k != key@ ==> holds_key(self.protected@, k) == holds_key(before, k),
            decreases self.protected.len() - i,
        {
            if same_chars(&self.protected[i], &key) {
                let ghost current = self.protected@;
                self.protected.remove(i);
                proof {
                    assert forall|k: Seq<char>| k != key@ implies holds_key(self.protected@, k)
                        == holds_key(before, k) by {
                        lemma_remove_other_key(current, i as int, k);
                    }
                }
            } else {
                i += 1;
            }
        }
        proof {
            assert(!holds_key(self.protected@, key@));
            assert(keys_of(self.protected@) =~= keys_of(before).remove(key@));
        }
    }

    /// Removes every binding whose key is not protected, and every readonly
    /// mark with it.
    pub fn clear(&mut self)
        ensures
            final(self)@ == old(self)@.cleared(),
    {
        let ghost before = self.bindings@;
        let ghost marks = self.readonly@;
        let ghost protected = keys_of(self.protected@);
        let mut i: usize = 0;
        while i < self.bindings.len()
            invariant
                i <= self.bindings.len(),
                self.protected == old(self).protected,
                self.readonly == old(self).readonly,
                protected == keys_of(self.protected@),
                forall|j: int| 0 <= j < i ==> protected.contains(self.bindings[j].key@),
                forall|k: Seq<char>|
                    protected.contains(k) ==> lookup(self.bindings@, k) == lookup(before, k),
            decreases self.bindings.len() - i,
        {
            if position_of(&self.protected, &self.bindings[i].key) < self.protected.len() {
                i += 1;
            } else {
                let ghost current = self.bindings@;
                self.bindings.remove(i);
                proof {
                    assert forall|k: Seq<char>| protected.contains(k) implies lookup(
                        self.bindings@,
                        k,
                    ) == lookup(before, k) by {
                        lemma_remove_other_binding(current, i as int, k);
                    }
                }
            }
        }
        proof {
            let after = self.bindings@;
            assert forall|k: Seq<char>| !protected.contains(k) implies lookup(after, k) is None by {
                assert forall|x: int| 0 <= x < after.len() implies after[x].key@ != k by {
                    assert(protected.contains(self.bindings[x].key@));
                }
                lemma_no_binding(after, k);
            }
            let goal = values_of(before).restrict(protected);
            assert forall|k: Seq<char>| values_of(after).contains_key(k) == goal.contains_key(
                k,
            ) by {
                if protected.contains(k) {
                    assert(lookup(after, k) == lookup(before, k));
                }
            }
            assert forall|k: Seq<char>| values_of(after).contains_key(k) implies values_of(
                after,
            )[k] == goal[k] by {
                assert(lookup(after, k) == lookup(before, k));
            }
            assert(values_of(after) =~= goal);
        }
        let mut j: usize = 0;
        while j < self.readonly.len()
            invariant
                j <= self.readonly.len(),
                self.protected == old(self).protected,
                protected == keys_of(self.protected@),
                values_of(self.bindings@) == values_of(before).restrict(protected),
                forall|x: int| 0 <= x < j ==> protected.contains(self.readonly[x]@),
                forall|k: Seq<char>|
                    protected.contains(k) ==> holds_key(self.readonly@, k) == holds_key(marks, k),
            decreases self.readonly.len() - j,
        {
            if position_of(&self.protected, &self.readonly[j]) < self.protected.len() {
                j += 1;
            } else {
                let ghost current = self.readonly@;
                self.readonly.remove(j);
                proof {
                    assert forall|k: Seq<char>| protected.contains(k) implies holds_key(
                        self.readonly@,
                        k,
                    ) == holds_key(marks, k) by {
                        lemma_remove_other_key(current, j as int, k);
                    }
                }
            }
        }
        proof {
            assert forall|k: Seq<char>| !protected.contains(k) implies !holds_key(
                self.readonly@,
                k,
            ) by {
                if holds_key(self.readonly@, k) {
                    let x = choose|x: int|
                        0 <= x < self.readonly.len() && (#[trigger] self.readonly@[x])@ == k;
                    assert(protected.contains(self.readonly[x]@));
                }
            }
            assert(keys_of(self.readonly@) =~= keys_of(marks).intersect(protected));
        }
    }

    /// Removes every binding, every protection and every readonly mark.
    pub fn clear_all(&mut self)
        ensures
            final(self)@ == StoreView::empty(),
    {
        self.bindings = Vec::new();
        self.protected = Vec::new();
        self.readonly = Vec::new();
        proof {
            assert(self@.values =~= Map::<Seq<char>, ValueView>::empty());
            assert(self@.protected =~= Set::<Seq<char>>::empty());
            assert(self@.readonly =~= Set::<Seq<char>>::empty());
        }
    }

    /// The index of the first binding of `key`, or the number of bindings
    /// where there is none.
    fn find(&self, key: &Vec<char>) -> (i: usize)
        ensures
            i <= self.bindings.len(),
            match first_binding(self.bindings@, key@, self.bindings.len() as int) {
                Some(k) => i == k && i < self.bindings.len(),
                None => i == self.bindings.len(),
            },
    {
        let mut i: usize = 0;
        while i < self.bindings.len()
            invariant
                i <= self.bindings.len(),
                forall|j: int| 0 <= j < i ==> self.bindings[j].key@ != key@,
            decreases self.bindings.len() - i,
        {
            if same_chars(&self.bindings[i].key, key) {
                proof {
                    lemma_first_binding_is(self.bindings@, key@, i as int);
                }
                return i;
            }
            i += 1;
        }
        proof {
            lemma_no_binding(self.bindings@, key@);
        }
        i
    }

    /// The value bound to `id`, whatever the case of its letters.
    pub fn get(&self, id: &str) -> (r: Option<Value>)
        ensures
            match r {
                Some(v) => self@.values.contains_key(lowercase_of(id@)) && self@.values[lowercase_of(
                    id@,
                )] == v@,
                None => !self@.values.contains_key(lowercase_of(id@)),
            },
    {
        let key = chars_of(lowercase(id).as_str());
        let i = self.find(&key);
        if i < self.bindings.len() {
            Some(self.bindings[i].value)
        } else {
            None
        }
    }

    /// Whether `id` refuses to be set.
    pub fn is_readonly(&self, id: &str) -> (b: bool)
        ensures
            b == self@.readonly.contains(lowercase_of(id@)),
    {
        let key = chars_of(lowercase(id).as_str());
        position_of(&self.readonly, &key) < self.readonly.len()
    }

    /// Whether `id` survives a clear.
    pub fn is_protected(&self, id: &str) -> (b: bool)
        ensures
            b == self@.protected.contains(lowercase_of(id@)),
    {
        let key = chars_of(lowercase(id).as_str());
        position_of(&self.protected, &key) < self.protected.len()
    }

    /// Binds `key` to `value`, in place of what it was bound to.
    fn bind(&mut self, key: Vec<char>, value: Value)
        ensures
            final(self)@ == (StoreView {
                values: old(self)@.values.insert(key@, value@),
                ..old(self)@
            }),
    {
        let i = self.find(&key);
        let ghost before = self.bindings@;
        if i < self.bindings.len() {
            let binding = &mut self.bindings[i];
            binding.value = value;
        } else {
            self.bindings.push(Binding { key, value });
        }
        proof {
            let after = self.bindings@;
            lemma_first_binding(before, key@, before.len() as int);
            assert(after[i as int].key@ == key@);
            assert(after[i as int].value@ == value@);
            assert(forall|j: int| 0 <= j < before.len() && j != i ==> after[j] == before[j]);
            assert forall|k: Seq<char>|
                first_binding(after, k, after.len() as int) == (if k == key@ {
                    Some(i as int)
                } else {
                    first_binding(before, k, before.len() as int)
                }) by {
                lemma_first_binding(before, k, before.len() as int);
                if k == key@ {
                    lemma_first_binding_is(after, k, i as int);
                } else {
                    match first_binding(before, k, before.len() as int) {
                        Some(j) => {
                            lemma_first_binding_is(after, k, j);
                        },
                        None => {
                            lemma_no_binding(after, k);
                        },
                    }
                }
            }
            assert forall|k: Seq<char>| values_of(after).contains_key(k) implies values_of(
                after,
            )[k] == values_of(before).insert(key@, value@)[k] by {
                lemma_first_binding(before, k, before.len() as int);
            }
            assert(values_of(after) =~= values_of(before).insert(key@, value@));
        }
    }

    /// Binds `id`, in lowercase, to `value`, unless `id` is readonly. Returns
    /// whether it did.
    pub fn set(&mut self, id: &str, value: Value) -> (ok: bool)
        ensures
            ok == !old(self)@.readonly.contains(lowercase_of(id@)),
            final(self)@ == old(self)@.set(lowercase_of(id@), value@),
    {
        let key = chars_of(lowercase(id).as_str());
        if position_of(&self.readonly, &key) < self.readonly.len() {
            return false;
        }
        self.bind(key, value);
        true
    }

    /// Binds `id`, in lowercase, to `value` and marks it readonly, unless it
    /// is readonly already. Returns whether it did.
    pub fn set_readonly(&mut self, id: &str, value: Value) -> (ok: bool)
        ensures
            ok == !old(self)@.readonly.contains(lowercase_of(id@)),
            final(self)@ == old(self)@.set_readonly(lowercase_of(id@), value@),
    {
        let key = chars_of(lowercase(id).as_str());
        if position_of(&self.readonly, &key) < self.readonly.len() {
            return false;
        }
        let ghost before = self.readonly@;
        self.readonly.push(key.clone());
        proof {
            let after = self.readonly@;
            assert(after[before.len() as int]@ == key@);
            assert forall|k: Seq<char>| holds_key(after, k) == (k == key@ || holds_key(before, k)) by {
                if holds_key(before, k) {
                    let i = choose|i: int| 0 <= i < before.len() && (#[trigger] before[i])@ == k;
                    assert(after[i]@ == k);
                }
                if holds_key(after, k) {
                    let i = choose|i: int| 0 <= i < after.len() && (#[trigger] after[i])@ == k;
                    if i < before.len() {
                        assert(before[i]@ == k);
                    }
                }
            }
            assert(keys_of(after) =~= keys_of(before).insert(key@));
        }
        self.bind(key, value);
        true
    }
}

} // verus!
