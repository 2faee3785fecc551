//! The registry of schemes: names and numeric identifiers mapped to scheme
//! implementations.
use vstd::prelude::*;

use crate::error::SchemeError;

verus! {

/// Identifiers are drawn from `1 .. SCHEME_MAX_SCHEMES`.
pub const SCHEME_MAX_SCHEMES: usize = 65536;

/// Position of `id` in the probing order that starts at `start`: the
/// identifiers `start, start + 1, ..., SCHEME_MAX_SCHEMES - 1, 1, 2, ...`.
pub open spec fn probe_offset(start: usize, id: usize) -> int {
    if id >= start {
        id - start
    } else {
        id + (SCHEME_MAX_SCHEMES - 1) - start
    }
}

/// The identifier that probing starts from, given the rotating counter.
pub open spec fn probe_start(next_id: usize) -> usize {
    if next_id == 0 || next_id >= SCHEME_MAX_SCHEMES {
        1
    } else {
        next_id
    }
}

/// Every identifier that a registry can hand out.
pub open spec fn valid_id(id: usize) -> bool {
    1 <= id < SCHEME_MAX_SCHEMES
}

struct SchemeEntry<S> {
    id: usize,
    name: Vec<u8>,
    scheme: S,
}

/// The table of registered schemes, keyed both by identifier and by name.
pub struct SchemeList<S> {
    entries: Vec<SchemeEntry<S>>,
    next_id: usize,
    by_id: Ghost<Map<usize, S>>,
    by_name: Ghost<Map<Seq<u8>, usize>>,
}

impl<S> SchemeList<S> {
    /// The scheme registered under each identifier.
    pub closed spec fn schemes(&self) -> Map<usize, S> {
        self.by_id@
    }

    /// The identifier registered under each name.
    pub closed spec fn names(&self) -> Map<Seq<u8>, usize> {
        self.by_name@
    }

    /// The rotating counter from which the next identifier is probed.
    pub closed spec fn next(&self) -> usize {
        self.next_id
    }

    /// The entries agree with both maps; names and identifiers are unique.
    pub closed spec fn wf(&self) -> bool {
        &&& forall|i: int|
            0 <= i < self.entries.len() ==> {
                &&& valid_id(#[trigger] self.entries@[i].id)
                &&& self.by_id@.contains_key(self.entries@[i].id)
                &&& self.by_id@[self.entries@[i].id] == self.entries@[i].scheme
                &&& self.by_name@.contains_key(self.entries@[i].name@)
                &&& self.by_name@[self.entries@[i].name@] == self.entries@[i].id
            }
        &&& forall|i: int, j: int|
            0 <= i < self.entries.len() && 0 <= j < self.entries.len() && i != j ==> {
                &&& #[trigger] self.entries@[i].id != #[trigger] self.entries@[j].id
                &&& self.entries@[i].name@ != self.entries@[j].name@
            }
        &&& forall|id: usize|
            #[trigger] self.by_id@.contains_key(id) ==> exists|i: int|
                0 <= i < self.entries.len() && #[trigger] self.entries@[i].id == id
        &&& forall|n: Seq<u8>|
            #[trigger] self.by_name@.contains_key(n) ==> exists|i: int|
                0 <= i < self.entries.len() && #[trigger] self.entries@[i].name@ == n
    }

    /// Every name is bound to a registered identifier, every identifier is valid.
    pub proof fn lemma_names_resolve(&self)
        requires
            self.wf(),
        ensures
            forall|n: Seq<u8>| #[trigger]
                self.names().contains_key(n) ==> self.schemes().contains_key(self.names()[n]),
            forall|id: usize| #[trigger] self.schemes().contains_key(id) ==> valid_id(id),
    {
        assert forall|n: Seq<u8>| #[trigger]
            self.names().contains_key(n) implies self.schemes().contains_key(self.names()[n]) by {
            let i = choose|i: int| 0 <= i < self.entries.len() && #[trigger] self.entries@[i].name@ == n;
            assert(valid_id(self.entries@[i].id));
        }
        assert forall|id: usize| #[trigger] self.schemes().contains_key(id) implies valid_id(id) by {
            let i = choose|i: int| 0 <= i < self.entries.len() && #[trigger] self.entries@[i].id == id;
            assert(valid_id(self.entries@[i].id));
        }
    }

    /// An empty registry whose first identifier is 1.
    pub fn new() -> (r: Self)
        ensures
            r.wf(),
            r.schemes() == Map::<usize, S>::empty(),
            r.names() == Map::<Seq<u8>, usize>::empty(),
            r.next() == 1,
    {
        SchemeList {
            entries: Vec::new(),
            next_id: 1,
            by_id: Ghost(Map::empty()),
            by_name: Ghost(Map::empty()),
        }
    }

    fn find_id(&self, id: usize) -> (r: Option<usize>)
        requires
            self.wf(),
        ensures
            r.is_some() == self.schemes().contains_key(id),
            r matches Some(i) ==> i < self.entries.len() && self.entries@[i as int].id == id,
    {
        let mut i: usize = 0;
        while i < self.entries.len()
            invariant
                self.wf(),
                i <= self.entries.len(),
                forall|k: int| 0 <= k < i ==> #[trigger] self.entries@[k].id != id,
            decreases self.entries.len() - i,
        {
            if self.entries[i].id == id {
                assert(valid_id(self.entries@[i as int].id));
                return Some(i);
            }
            i = i + 1;
        }
        None
    }

    fn find_name(&self, name: &[u8]) -> (r: Option<usize>)
        requires
            self.wf(),
        ensures
            r.is_some() == self.names().contains_key(name@),
            r matches Some(i) ==> i < self.entries.len() && self.entries@[i as int].name@ == name@,
    {
        let mut i: usize = 0;
        while i < self.entries.len()
            invariant
                self.wf(),
                i <= self.entries.len(),
                forall|k: int| 0 <= k < i ==> #[trigger] self.entries@[k].name@ != name@,
            decreases self.entries.len() - i,
        {
            if bytes_equal(self.entries[i].name.as_slice(), name) {
                assert(valid_id(self.entries@[i as int].id));
                return Some(i);
            }
            i = i + 1;
        }
        None
    }

    /// The scheme registered under `id`.
    pub fn get(&self, id: usize) -> (r: Option<&S>)
        requires
            self.wf(),
        ensures
            r.is_some() == self.schemes().contains_key(id),
            r matches Some(s) ==> *s == self.schemes()[id],
    {
        match self.find_id(id) {
            Some(i) => Some(&self.entries[i].scheme),
            None => None,
        }
    }

    /// The identifier and scheme registered under `name`.
    pub fn get_name(&self, name: &[u8]) -> (r: Option<(usize, &S)>)
        requires
            self.wf(),
        ensures
            r.is_some() == self.names().contains_key(name@),
            r matches Some((id, s)) ==> id == self.names()[name@] && self.schemes().contains_key(id)
                && *s == self.schemes()[id],
    {
        match self.find_name(name) {
            Some(i) => Some((self.entries[i].id, &self.entries[i].scheme)),
            None => None,
        }
    }

    /// Registers `scheme` under `name`. The identifier is the first free one
    /// in probing order from the rotating counter, wrapping from
    /// `SCHEME_MAX_SCHEMES - 1` to 1; a taken name or a full table leaves
    /// the registry unchanged.
    pub fn insert(&mut self, name: Vec<u8>, scheme: S) -> (r: Result<usize, SchemeError>)
        requires
            old(self).wf(),
        ensures
            final(self).wf(),
            (r == Err::<usize, SchemeError>(SchemeError::AlreadyExists)) == old(self).names().contains_key(name@),
            (r == Err::<usize, SchemeError>(SchemeError::ResourceExhausted)) == (!old(self).names().contains_key(name@)
                && forall|j: usize| valid_id(j) ==> #[trigger] old(self).schemes().contains_key(j)),
            r is Ok || r == Err::<usize, SchemeError>(SchemeError::AlreadyExists) || r == Err::<
                usize,
                SchemeError,
            >(SchemeError::ResourceExhausted),
            r is Err ==> final(self).schemes() == old(self).schemes() && final(self).names()
                == old(self).names() && final(self).next() == old(self).next(),
            r matches Ok(id) ==> {
                &&& valid_id(id)
                &&& !old(self).schemes().contains_key(id)
                &&& forall|j: usize|
                    valid_id(j) && probe_offset(probe_start(old(self).next()), j) < probe_offset(
                        probe_start(old(self).next()),
                        id,
                    ) ==> #[trigger] old(self).schemes().contains_key(j)
                &&& final(self).schemes() == old(self).schemes().insert(id, scheme)
                &&& final(self).names() == old(self).names().insert(name@, id)
                &&& final(self).next() == id + 1
            },
    {
        if self.find_name(name.as_slice()).is_some() {
            return Err(SchemeError::AlreadyExists);
        }
        let start: usize = if self.next_id == 0 || self.next_id >= SCHEME_MAX_SCHEMES {
            1
        } else {
            self.next_id
        };
        let mut cand: usize = start;
        let mut tried: usize = 0;
        while tried < SCHEME_MAX_SCHEMES - 1
            invariant
                self.wf(),
                *self == *old(self),
                start == probe_start(self.next_id),
                valid_id(cand),
                tried <= SCHEME_MAX_SCHEMES - 1,
                tried < SCHEME_MAX_SCHEMES - 1 ==> probe_offset(start, cand) == tried,
                forall|j: usize|
                    valid_id(j) && probe_offset(start, j) < tried ==> #[trigger] self.schemes().contains_key(j),
                !self.names().contains_key(name@),
            decreases SCHEME_MAX_SCHEMES - 1 - tried,
        {
            if self.find_id(cand).is_none() {
                let id = cand;
                let ghost old_self = *self;
                self.entries.push(SchemeEntry { id, name, scheme });
                self.by_id = Ghost(self.by_id@.insert(id, scheme));
                self.by_name = Ghost(self.by_name@.insert(name@, id));
                self.next_id = id + 1;
                proof {
                    Self::lemma_wf_push(&old_self, self, id, name@);
                }
                return Ok(id);
            }
            tried = tried + 1;
            cand = if cand + 1 >= SCHEME_MAX_SCHEMES {
                1
            } else {
                cand + 1
            };
        }
        Err(SchemeError::ResourceExhausted)
    }

    /// Unregisters the scheme under `id`, and the name bound to it.
    pub fn remove(&mut self, id: usize) -> (r: Option<S>)
        requires
            old(self).wf(),
        ensures
            final(self).wf(),
            r.is_some() == old(self).schemes().contains_key(id),
            r matches Some(s) ==> s == old(self).schemes()[id],
            final(self).schemes() == old(self).schemes().remove(id),
            forall|n: Seq<u8>|
                #[trigger] final(self).names().contains_key(n) == (old(self).names().contains_key(n)
                    && old(self).names()[n] != id),
            forall|n: Seq<u8>|
                #[trigger] final(self).names().contains_key(n) ==> final(self).names()[n]
                    == old(self).names()[n],
            final(self).next() == old(self).next(),
    {
        match self.find_id(id) {
            None => {
                assert(self.by_id@.remove(id) =~= self.by_id@);
                proof {
                    assert forall|n: Seq<u8>| #[trigger] self.names().contains_key(n) implies self.names()[n] != id by {
                        self.lemma_names_resolve();
                    }
                }
                None
            },
            Some(i) => {
                let ghost old_self = *self;
                let entry = self.entries.remove(i);
                self.by_id = Ghost(self.by_id@.remove(id));
                self.by_name = Ghost(self.by_name@.remove(entry.name@));
                proof {
                    Self::lemma_wf_remove(&old_self, self, i as int);
                }
                Some(entry.scheme)
            },
        }
    }

    /// Appending a fresh entry under a free identifier and a free name, and
    /// binding both maps to it, keeps the registry well formed.
    proof fn lemma_wf_push(old: &Self, new: &Self, id: usize, name: Seq<u8>)
        requires
            old.wf(),
            valid_id(id),
            !old.by_id@.contains_key(id),
            !old.by_name@.contains_key(name),
            new.entries@.len() == old.entries@.len() + 1,
            forall|i: int| 0 <= i < old.entries@.len() ==> new.entries@[i] == old.entries@[i],
            new.entries@.last().id == id,
            new.entries@.last().name@ == name,
            new.by_id@ == old.by_id@.insert(id, new.entries@.last().scheme),
            new.by_name@ == old.by_name@.insert(name, id),
        ensures
            new.wf(),
    {
        let n = new.entries.len() - 1;
        assert forall|i: int|
            0 <= i < new.entries.len() implies {
                &&& valid_id(#[trigger] new.entries@[i].id)
                &&& new.by_id@.contains_key(new.entries@[i].id)
                &&& new.by_id@[new.entries@[i].id] == new.entries@[i].scheme
                &&& new.by_name@.contains_key(new.entries@[i].name@)
                &&& new.by_name@[new.entries@[i].name@] == new.entries@[i].id
            } by {
            if i < n {
                assert(old.entries@[i] == new.entries@[i]);
            }
        }
        assert forall|i: int, j: int|
            0 <= i < new.entries.len() && 0 <= j < new.entries.len() && i != j implies {
                &&& #[trigger] new.entries@[i].id != #[trigger] new.entries@[j].id
                &&& new.entries@[i].name@ != new.entries@[j].name@
            } by {
            if i < n {
                assert(old.entries@[i] == new.entries@[i]);
            }
            if j < n {
                assert(old.entries@[j] == new.entries@[j]);
                assert(old.by_id@.contains_key(old.entries@[j].id));
                assert(old.by_name@.contains_key(old.entries@[j].name@));
            }
            if i < n {
                assert(old.by_id@.contains_key(old.entries@[i].id));
                assert(old.by_name@.contains_key(old.entries@[i].name@));
            }
        }
        assert forall|k: usize| #[trigger] new.by_id@.contains_key(k) implies exists|i: int|
            0 <= i < new.entries.len() && #[trigger] new.entries@[i].id == k by {
            if k == id {
                assert(new.entries@[n as int].id == k);
            } else {
                let i = choose|i: int| 0 <= i < old.entries.len() && #[trigger] old.entries@[i].id == k;
                assert(new.entries@[i] == old.entries@[i]);
            }
        }
        assert forall|m: Seq<u8>| #[trigger] new.by_name@.contains_key(m) implies exists|i: int|
            0 <= i < new.entries.len() && #[trigger] new.entries@[i].name@ == m by {
            if m == name {
                assert(new.entries@[n as int].name@ == m);
            } else {
                let i = choose|i: int| 0 <= i < old.entries.len() && #[trigger] old.entries@[i].name@ == m;
                assert(new.entries@[i] == old.entries@[i]);
            }
        }
    }

    /// Removing the entry at `i` and its bindings keeps the registry well
    /// formed, and unbinds exactly the names bound to its identifier.
    proof fn lemma_wf_remove(old: &Self, new: &Self, i: int)
        requires
            old.wf(),
            0 <= i < old.entries@.len(),
            new.entries@ == old.entries@.remove(i),
            new.by_id@ == old.by_id@.remove(old.entries@[i].id),
            new.by_name@ == old.by_name@.remove(old.entries@[i].name@),
        ensures
            new.wf(),
            forall|n: Seq<u8>|
                #[trigger] new.names().contains_key(n) == (old.names().contains_key(n)
                    && old.names()[n] != old.entries@[i].id),
    {
        let id = old.entries@[i].id;
        assert forall|k: int|
            0 <= k < new.entries.len() implies {
                &&& valid_id(#[trigger] new.entries@[k].id)
                &&& new.by_id@.contains_key(new.entries@[k].id)
                &&& new.by_id@[new.entries@[k].id] == new.entries@[k].scheme
                &&& new.by_name@.contains_key(new.entries@[k].name@)
                &&& new.by_name@[new.entries@[k].name@] == new.entries@[k].id
            } by {
            let ok = if k < i { k } else { k + 1 };
            assert(new.entries@[k] == old.entries@[ok]);
            assert(old.entries@[ok].id != old.entries@[i as int].id);
            assert(old.entries@[ok].name@ != old.entries@[i as int].name@);
        }
        assert forall|a: int, b: int|
            0 <= a < new.entries.len() && 0 <= b < new.entries.len() && a != b implies {
                &&& #[trigger] new.entries@[a].id != #[trigger] new.entries@[b].id
                &&& new.entries@[a].name@ != new.entries@[b].name@
            } by {
            let oa = if a < i { a } else { a + 1 };
            let ob = if b < i { b } else { b + 1 };
            assert(new.entries@[a] == old.entries@[oa]);
            assert(new.entries@[b] == old.entries@[ob]);
            assert(old.entries@[oa].id != old.entries@[ob].id);
        }
        assert forall|k: usize| #[trigger] new.by_id@.contains_key(k) implies exists|a: int|
            0 <= a < new.entries.len() && #[trigger] new.entries@[a].id == k by {
            let o = choose|o: int| 0 <= o < old.entries.len() && #[trigger] old.entries@[o].id == k;
            let a = if o < i { o } else { o - 1 };
            assert(new.entries@[a] == old.entries@[if a < i { a } else { a + 1 }]);
        }
        assert forall|m: Seq<u8>| #[trigger] new.by_name@.contains_key(m) implies exists|a: int|
            0 <= a < new.entries.len() && #[trigger] new.entries@[a].name@ == m by {
            let o = choose|o: int| 0 <= o < old.entries.len() && #[trigger] old.entries@[o].name@ == m;
            let a = if o < i { o } else { o - 1 };
            assert(new.entries@[a] == old.entries@[if a < i { a } else { a + 1 }]);
        }
        assert forall|n: Seq<u8>|
            #[trigger] new.names().contains_key(n) == (old.names().contains_key(n)
                && old.names()[n] != id) by {
            if old.names().contains_key(n) && n != old.entries@[i].name@ {
                let o = choose|o: int| 0 <= o < old.entries.len() && #[trigger] old.entries@[o].name@ == n;
                assert(o != i);
                assert(old.entries@[o].id != old.entries@[i as int].id);
            }
        }
    }

    /// `name` is registered and bound to `s`.
    pub open spec fn resolves_to(&self, name: Seq<u8>, s: S) -> bool {
        &&& self.names().contains_key(name)
        &&& self.schemes().contains_key(self.names()[name])
        &&& self.schemes()[self.names()[name]] == s
    }

    /// Once a name is bound to a scheme, inserting a name leaves that binding
    /// as it was: inserting another name keeps it, whether the insertion
    /// succeeds or not, and inserting the same name again fails with
    /// `AlreadyExists` and changes nothing. The premises are what `insert`
    /// guarantees.
    pub proof fn lemma_binding_survives_insert(
        before: &Self,
        after: &Self,
        name: Seq<u8>,
        s: S,
        new_name: Seq<u8>,
        new_scheme: S,
        r: Result<usize, SchemeError>,
    )
        requires
            before.wf(),
            before.resolves_to(name, s),
            (r == Err::<usize, SchemeError>(SchemeError::AlreadyExists)) == before.names().contains_key(new_name),
            r is Err ==> after.schemes() == before.schemes() && after.names() == before.names(),
            r matches Ok(id) ==> !before.schemes().contains_key(id) && after.schemes()
                == before.schemes().insert(id, new_scheme) && after.names() == before.names().insert(
                new_name,
                id,
            ),
        ensures
            after.resolves_to(name, s),
            new_name == name ==> r == Err::<usize, SchemeError>(SchemeError::AlreadyExists)
                && after.schemes() == before.schemes() && after.names() == before.names(),
    {
    }

    /// Removing the scheme under an identifier leaves every name bound to
    /// another identifier bound to the same scheme. The premises are what
    /// `remove` guarantees.
    pub proof fn lemma_binding_survives_remove(
        before: &Self,
        after: &Self,
        name: Seq<u8>,
        s: S,
        id: usize,
    )
        requires
            before.wf(),
            before.resolves_to(name, s),
            before.names()[name] != id,
            after.schemes() == before.schemes().remove(id),
            forall|n: Seq<u8>|
                #[trigger] after.names().contains_key(n) == (before.names().contains_key(n)
                    && before.names()[n] != id),
            forall|n: Seq<u8>|
                #[trigger] after.names().contains_key(n) ==> after.names()[n] == before.names()[n],
        ensures
            after.resolves_to(name, s),
    {
        assert(after.names().contains_key(name));
        assert(after.names()[name] == before.names()[name]);
    }
}

/// Probing an empty slot at the start position hands out that position.
proof fn lemma_probe_takes_free_start<S>(m: Map<usize, S>, start: usize, id: usize)
    requires
        valid_id(start),
        valid_id(id),
        !m.contains_key(start),
        forall|j: usize|
            valid_id(j) && probe_offset(start, j) < probe_offset(start, id) ==> #[trigger] m.contains_key(j),
    ensures
        id == start,
{
    if id != start {
        assert(probe_offset(start, start) < probe_offset(start, id));
    }
}

/// Inserts a fresh name while the counter points at a free identifier, which
/// is then the one handed out.
fn insert_at_counter<S>(list: &mut SchemeList<S>, name: Vec<u8>, scheme: S)
    requires
        old(list).wf(),
        !old(list).names().contains_key(name@),
        valid_id(old(list).next()),
        !old(list).schemes().contains_key(old(list).next()),
    ensures
        final(list).wf(),
        final(list).schemes() == old(list).schemes().insert(old(list).next(), scheme),
        final(list).names() == old(list).names().insert(name@, old(list).next()),
        final(list).next() == old(list).next() + 1,
{
    let ghost before = *list;
    let r = list.insert(name, scheme);
    proof {
        assert(!before.schemes().contains_key(before.next()));
        assert(r != Err::<usize, SchemeError>(SchemeError::AlreadyExists));
        assert(r != Err::<usize, SchemeError>(SchemeError::ResourceExhausted));
        assert(r is Ok);
        if r is Ok {
            lemma_probe_takes_free_start(before.schemes(), before.next(), r->Ok_0);
        }
    }
}

/// The registry at boot: the root scheme under the empty name, then the
/// debug, event, environment, initial file system and interrupt schemes,
/// under identifiers 1 to 6 in that order. The names are the bytes of
/// `""`, `"debug"`, `"event"`, `"env"`, `"initfs"` and `"irq"`.
pub fn init_schemes<S>(root: S, debug: S, event: S, env: S, initfs: S, irq: S) -> (r: SchemeList<S>)
    ensures
        r.wf(),
        r.schemes() == map![1usize => root, 2usize => debug, 3usize => event, 4usize => env, 5usize => initfs, 6usize => irq],
        r.names() == map![
            Seq::<u8>::empty() => 1usize,
            seq![100u8, 101, 98, 117, 103] => 2usize,
            seq![101u8, 118, 101, 110, 116] => 3usize,
            seq![101u8, 110, 118] => 4usize,
            seq![105u8, 110, 105, 116, 102, 115] => 5usize,
            seq![105u8, 114, 113] => 6usize
        ],
        r.next() == 7,
{
    let mut list = SchemeList::new();
    let ghost names = seq![
        Seq::<u8>::empty(),
        seq![100u8, 101, 98, 117, 103],
        seq![101u8, 118, 101, 110, 116],
        seq![101u8, 110, 118],
        seq![105u8, 110, 105, 116, 102, 115],
        seq![105u8, 114, 113]
    ];
    assert(names[1] != names[2] && names[4] != names[5]) by {
        assert(names[1][0] != names[2][0]);
        assert(names[4][1] != names[5][1]);
    }
    let n0: Vec<u8> = Vec::new();
    let n1: Vec<u8> = vec![100u8, 101, 98, 117, 103];
    let n2: Vec<u8> = vec![101u8, 118, 101, 110, 116];
    let n3: Vec<u8> = vec![101u8, 110, 118];
    let n4: Vec<u8> = vec![105u8, 110, 105, 116, 102, 115];
    let n5: Vec<u8> = vec![105u8, 114, 113];
    assert(n0@ =~= names[0] && n1@ =~= names[1] && n2@ =~= names[2] && n3@ =~= names[3] && n4@ =~= names[4] && n5@ =~= names[5]);
    insert_at_counter(&mut list, n0, root);
    insert_at_counter(&mut list, n1, debug);
    insert_at_counter(&mut list, n2, event);
    insert_at_counter(&mut list, n3, env);
    insert_at_counter(&mut list, n4, initfs);
    insert_at_counter(&mut list, n5, irq);
    assert(list.schemes() =~= map![1usize => root, 2usize => debug, 3usize => event, 4usize => env, 5usize => initfs, 6usize => irq]);
    assert(list.names() =~= map![
            Seq::<u8>::empty() => 1usize,
            seq![100u8, 101, 98, 117, 103] => 2usize,
            seq![101u8, 118, 101, 110, 116] => 3usize,
            seq![101u8, 110, 118] => 4usize,
            seq![105u8, 110, 105, 116, 102, 115] => 5usize,
            seq![105u8, 114, 113] => 6usize
        ]);
    list
}

/// Whether two byte strings are equal.
pub fn bytes_equal(a: &[u8], b: &[u8]) -> (r: bool)
    ensures
        r == (a@ == b@),
{
    if a.len() != b.len() {
        return false;
    }
    let mut i: usize = 0;
    while i < a.len()
        invariant
            a@.len() == b@.len(),
            i <= a.len(),
            forall|k: int| 0 <= k < i ==> a@[k] == b@[k],
        decreases a.len() - i,
    {
        if a[i] != b[i] {
            return false;
        }
        i = i + 1;
    }
    assert(a@ =~= b@);
    true
}

} // verus!

verus! {

/// What one call of `insert(name, s)` returning `r` does to the two maps,
/// as its contract states it.
pub open spec fn insert_step<S>(
    ids: Map<usize, S>,
    names: Map<Seq<u8>, usize>,
    name: Seq<u8>,
    s: S,
    r: Result<usize, SchemeError>,
    ids_after: Map<usize, S>,
    names_after: Map<Seq<u8>, usize>,
) -> bool {
    &&& (r == Err::<usize, SchemeError>(SchemeError::AlreadyExists)) == names.contains_key(name)
    &&& r is Err ==> ids_after == ids && names_after == names
    &&& r matches Ok(id) ==> !ids.contains_key(id) && ids_after == ids.insert(id, s) && names_after
        == names.insert(name, id)
}

/// Every bound name is bound to an identifier that holds a scheme.
pub open spec fn names_resolve<S>(ids: Map<usize, S>, names: Map<Seq<u8>, usize>) -> bool {
    forall|n: Seq<u8>| #[trigger] names.contains_key(n) ==> ids.contains_key(names[n])
}

proof fn lemma_history_names_resolve<S>(
    ids: Seq<Map<usize, S>>,
    names: Seq<Map<Seq<u8>, usize>>,
    keys: Seq<Seq<u8>>,
    values: Seq<S>,
    results: Seq<Result<usize, SchemeError>>,
    k: int,
)
    requires
        ids.len() == keys.len() + 1,
        names.len() == keys.len() + 1,
        values.len() == keys.len(),
        results.len() == keys.len(),
        names_resolve(ids[0], names[0]),
        forall|j: int|
            0 <= j < keys.len() ==> #[trigger] insert_step(
                ids[j],
                names[j],
                keys[j],
                values[j],
                results[j],
                ids[j + 1],
                names[j + 1],
            ),
        0 <= k <= keys.len(),
    ensures
        names_resolve(ids[k], names[k]),
    decreases k,
{
    if k > 0 {
        let j = k - 1;
        lemma_history_names_resolve(ids, names, keys, values, results, j);
        assert(insert_step(ids[j], names[j], keys[j], values[j], results[j], ids[j + 1], names[j + 1]));
    }
}

proof fn lemma_history_keeps_binding<S>(
    ids: Seq<Map<usize, S>>,
    names: Seq<Map<Seq<u8>, usize>>,
    keys: Seq<Seq<u8>>,
    values: Seq<S>,
    results: Seq<Result<usize, SchemeError>>,
    i: int,
    k: int,
)
    requires
        ids.len() == keys.len() + 1,
        names.len() == keys.len() + 1,
        values.len() == keys.len(),
        results.len() == keys.len(),
        names_resolve(ids[0], names[0]),
        forall|j: int|
            0 <= j < keys.len() ==> #[trigger] insert_step(
                ids[j],
                names[j],
                keys[j],
                values[j],
                results[j],
                ids[j + 1],
                names[j + 1],
            ),
        0 <= i < k <= keys.len(),
        results[i] is Ok,
    ensures
        names[k].contains_key(keys[i]),
        names[k][keys[i]] == results[i]->Ok_0,
        ids[k].contains_key(results[i]->Ok_0),
        ids[k][results[i]->Ok_0] == values[i],
    decreases k,
{
    let j = k - 1;
    assert(insert_step(ids[j], names[j], keys[j], values[j], results[j], ids[j + 1], names[j + 1]));
    if j > i {
        lemma_history_keeps_binding(ids, names, keys, values, results, i, j);
        lemma_history_names_resolve(ids, names, keys, values, results, j);
        assert(ids[j].contains_key(names[j][keys[i]]));
    }
}

/// Lookups after a history of insertions into a registry that started
/// empty: every name whose insertion succeeded is still bound to the
/// identifier that insertion returned, under which the registry holds the
/// scheme it inserted, whatever insertions came after. `ids[k]` and
/// `names[k]` are the two maps before insertion `k` of `values[k]` under
/// `keys[k]`, which returned `results[k]`.
pub proof fn lemma_inserted_bindings_persist<S>(
    ids: Seq<Map<usize, S>>,
    names: Seq<Map<Seq<u8>, usize>>,
    keys: Seq<Seq<u8>>,
    values: Seq<S>,
    results: Seq<Result<usize, SchemeError>>,
)
    requires
        ids.len() == keys.len() + 1,
        names.len() == keys.len() + 1,
        values.len() == keys.len(),
        results.len() == keys.len(),
        ids[0] == Map::<usize, S>::empty(),
        names[0] == Map::<Seq<u8>, usize>::empty(),
        forall|j: int|
            0 <= j < keys.len() ==> #[trigger] insert_step(
                ids[j],
                names[j],
                keys[j],
                values[j],
                results[j],
                ids[j + 1],
                names[j + 1],
            ),
    ensures
        forall|i: int, k: int|
            0 <= i < k <= keys.len() && #[trigger] results[i] is Ok ==> {
                &&& #[trigger] names[k].contains_key(keys[i])
                &&& names[k][keys[i]] == results[i]->Ok_0
                &&& ids[k].contains_key(results[i]->Ok_0)
                &&& ids[k][results[i]->Ok_0] == values[i]
            },
{
    assert(names_resolve(ids[0], names[0]));
    assert forall|i: int, k: int|
        0 <= i < k <= keys.len() && #[trigger] results[i] is Ok implies {
            &&& #[trigger] names[k].contains_key(keys[i])
            &&& names[k][keys[i]] == results[i]->Ok_0
            &&& ids[k].contains_key(results[i]->Ok_0)
            &&& ids[k][results[i]->Ok_0] == values[i]
        } by {
        lemma_history_keeps_binding(ids, names, keys, values, results, i, k);
    }
}

} // verus!
