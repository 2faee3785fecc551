//! The root scheme: a process opens a new scheme name here and becomes the
//! provider of that scheme.
use vstd::prelude::*;

use crate::error::SchemeError;
use crate::registry::SchemeList;

verus! {

/// The kernel side of a connection to a providing process: the process it
/// was opened by, held as an identifier that is looked up and never owned,
/// and the registry identifier of the scheme it provides.
#[derive(Clone, Copy, Debug, PartialEq, Eq, Structural)]
pub struct UserInner {
    pub context: usize,
    pub scheme_id: usize,
}

/// The open root handles, each bound to the bridge of a provided scheme.
pub struct RootScheme {
    next_id: usize,
    handles: Vec<(usize, UserInner)>,
    by_handle: Ghost<Map<usize, UserInner>>,
}

impl RootScheme {
    /// The bridge behind each open handle.
    pub closed spec fn handles(&self) -> Map<usize, UserInner> {
        self.by_handle@
    }

    /// The handle that the next `open` or `dup` hands out.
    pub closed spec fn next(&self) -> usize {
        self.next_id
    }

    /// Some open handle other than `except` is bound to a bridge of scheme `sid`.
    pub open spec fn bridge_in_use(&self, sid: usize, except: usize) -> bool {
        exists|h: usize|
            h != except && #[trigger] self.handles().contains_key(h) && self.handles()[h].scheme_id == sid
    }

    /// The handle list agrees with the map; handles are unique and below the
    /// counter.
    pub closed spec fn wf(&self) -> bool {
        &&& forall|i: int|
            0 <= i < self.handles.len() ==> {
                &&& #[trigger] self.handles@[i].0 < self.next_id
                &&& self.by_handle@.contains_key(self.handles@[i].0)
                &&& self.by_handle@[self.handles@[i].0] == self.handles@[i].1
            }
        &&& forall|i: int, j: int|
            0 <= i < self.handles.len() && 0 <= j < self.handles.len() && i != j ==> #[trigger] self.handles@[i].0
                != #[trigger] self.handles@[j].0
        &&& forall|h: usize|
            #[trigger] self.by_handle@.contains_key(h) ==> exists|i: int|
                0 <= i < self.handles.len() && #[trigger] self.handles@[i].0 == h
    }

    /// Open handles are below the counter, so the counter is fresh.
    pub proof fn lemma_handles_below_next(&self)
        requires
            self.wf(),
        ensures
            forall|h: usize| #[trigger] self.handles().contains_key(h) ==> h < self.next(),
    {
        assert forall|h: usize| #[trigger] self.handles().contains_key(h) implies h < self.next() by {
            let i = choose|i: int| 0 <= i < self.handles.len() && #[trigger] self.handles@[i].0 == h;
        }
    }

    /// Appending a handle at the counter and binding it keeps the handle
    /// table well formed.
    proof fn lemma_wf_push(old: &Self, new: &Self, id: usize, inner: UserInner)
        requires
            old.wf(),
            id == old.next_id,
            new.next_id == id + 1,
            new.handles@ == old.handles@.push((id, inner)),
            new.by_handle@ == old.by_handle@.insert(id, inner),
        ensures
            new.wf(),
    {
        old.lemma_handles_below_next();
            let n = new.handles.len() - 1;
            assert forall|i: int|
                0 <= i < new.handles.len() implies {
                    &&& #[trigger] new.handles@[i].0 < new.next_id
                    &&& new.by_handle@.contains_key(new.handles@[i].0)
                    &&& new.by_handle@[new.handles@[i].0] == new.handles@[i].1
                } by {
                if i < n {
                    assert(old.handles@[i] == new.handles@[i]);
                    assert(old.handles@[i].0 < old.next_id);
                }
            }
            assert forall|i: int, j: int|
                0 <= i < new.handles.len() && 0 <= j < new.handles.len() && i != j implies #[trigger] new.handles@[i].0
                    != #[trigger] new.handles@[j].0 by {
                if i < n {
                    assert(old.handles@[i] == new.handles@[i]);
                    assert(old.handles@[i].0 < old.next_id);
                }
                if j < n {
                    assert(old.handles@[j] == new.handles@[j]);
                    assert(old.handles@[j].0 < old.next_id);
                }
            }
            assert forall|h: usize| #[trigger] new.by_handle@.contains_key(h) implies exists|i: int|
                0 <= i < new.handles.len() && #[trigger] new.handles@[i].0 == h by {
                if h == id {
                    assert(new.handles@[n as int].0 == h);
                } else {
                    let i = choose|i: int| 0 <= i < old.handles.len() && #[trigger] old.handles@[i].0 == h;
                    assert(new.handles@[i] == old.handles@[i]);
                }
            }
    }

    /// Removing the handle at `i` and its binding keeps the handle table
    /// well formed.
    proof fn lemma_wf_remove(old: &Self, new: &Self, i: int)
        requires
            old.wf(),
            0 <= i < old.handles@.len(),
            new.next_id == old.next_id,
            new.handles@ == old.handles@.remove(i),
            new.by_handle@ == old.by_handle@.remove(old.handles@[i].0),
        ensures
            new.wf(),
    {
        assert forall|k: int|
            0 <= k < new.handles.len() implies {
                &&& #[trigger] new.handles@[k].0 < new.next_id
                &&& new.by_handle@.contains_key(new.handles@[k].0)
                &&& new.by_handle@[new.handles@[k].0] == new.handles@[k].1
            } by {
            let ok = if k < i { k } else { k + 1 };
            assert(new.handles@[k] == old.handles@[ok]);
            assert(old.handles@[ok].0 != old.handles@[i as int].0);
        }
        assert forall|a: int, b: int|
            0 <= a < new.handles.len() && 0 <= b < new.handles.len() && a != b implies #[trigger] new.handles@[a].0
                != #[trigger] new.handles@[b].0 by {
            let oa = if a < i { a } else { a + 1 };
            let ob = if b < i { b } else { b + 1 };
            assert(new.handles@[a] == old.handles@[oa]);
            assert(new.handles@[b] == old.handles@[ob]);
            assert(old.handles@[oa].0 != old.handles@[ob].0);
        }
        assert forall|h: usize| #[trigger] new.by_handle@.contains_key(h) implies exists|a: int|
            0 <= a < new.handles.len() && #[trigger] new.handles@[a].0 == h by {
            let o = choose|o: int| 0 <= o < old.handles.len() && #[trigger] old.handles@[o].0 == h;
            let a = if o < i { o } else { o - 1 };
            assert(new.handles@[a] == old.handles@[if a < i { a } else { a + 1 }]);
        }
    }

    /// A root scheme with no open handle.
    pub fn new() -> (r: RootScheme)
        ensures
            r.wf(),
            r.handles() == Map::<usize, UserInner>::empty(),
            r.next() == 0,
    {
        RootScheme { next_id: 0, handles: Vec::new(), by_handle: Ghost(Map::empty()) }
    }

    fn find(&self, resource: usize) -> (r: Option<usize>)
        requires
            self.wf(),
        ensures
            r.is_some() == self.handles().contains_key(resource),
            r matches Some(i) ==> i < self.handles.len() && self.handles@[i as int].0 == resource,
    {
        let mut i: usize = 0;
        while i < self.handles.len()
            invariant
                self.wf(),
                i <= self.handles.len(),
                forall|k: int| 0 <= k < i ==> #[trigger] self.handles@[k].0 != resource,
            decreases self.handles.len() - i,
        {
            if self.handles[i].0 == resource {
                assert(self.handles@[i as int].0 < self.next_id);
                return Some(i);
            }
            i = i + 1;
        }
        None
    }

    /// Binds `inner` to a fresh handle, the counter.
    fn push_handle(&mut self, inner: UserInner) -> (r: usize)
        requires
            old(self).wf(),
            old(self).next() < usize::MAX,
        ensures
            final(self).wf(),
            r == old(self).next(),
            final(self).handles() == old(self).handles().insert(r, inner),
            final(self).next() == old(self).next() + 1,
    {
        let ghost old_self = *self;
        proof {
            self.lemma_handles_below_next();
        }
        let id = self.next_id;
        self.handles.push((id, inner));
        self.by_handle = Ghost(self.by_handle@.insert(id, inner));
        self.next_id = id + 1;
        proof {
            Self::lemma_wf_push(&old_self, self, id, inner);
        }
        id
    }

    /// Registers a new scheme named `path`, provided by `provider` on behalf
    /// of the calling process `caller`, and returns a fresh root handle bound
    /// to its bridge. No caller is `AccessDenied`; a taken name is
    /// `AlreadyExists`; with no fresh handle or no free identifier left the
    /// result is `ResourceExhausted`. On failure nothing changes.
    pub fn open<S>(
        &mut self,
        schemes: &mut SchemeList<S>,
        path: &[u8],
        caller: Option<usize>,
        provider: S,
    ) -> (r: Result<usize, SchemeError>)
        requires
            old(self).wf(),
            old(schemes).wf(),
        ensures
            final(self).wf(),
            final(schemes).wf(),
            r is Ok || r == Err::<usize, SchemeError>(SchemeError::AccessDenied) || r == Err::<
                usize,
                SchemeError,
            >(SchemeError::AlreadyExists) || r == Err::<usize, SchemeError>(
                SchemeError::ResourceExhausted,
            ),
            (r == Err::<usize, SchemeError>(SchemeError::AccessDenied)) == (caller is None),
            (r == Err::<usize, SchemeError>(SchemeError::AlreadyExists)) == (caller is Some
                && old(schemes).names().contains_key(path@)),
            (r == Err::<usize, SchemeError>(SchemeError::ResourceExhausted)) == (caller is Some
                && !old(schemes).names().contains_key(path@) && (old(self).next() == usize::MAX
                || forall|j: usize|
                crate::registry::valid_id(j) ==> #[trigger] old(schemes).schemes().contains_key(j))),
            r is Err ==> *final(self) == *old(self) && final(schemes).schemes() == old(schemes).schemes()
                && final(schemes).names() == old(schemes).names(),
            r matches Ok(h) ==> {
                let sid = final(schemes).names()[path@];
                &&& h == old(self).next()
                &&& final(self).next() == h + 1
                &&& !old(schemes).schemes().contains_key(sid)
                &&& final(schemes).schemes() == old(schemes).schemes().insert(sid, provider)
                &&& final(schemes).names() == old(schemes).names().insert(path@, sid)
                &&& final(self).handles() == old(self).handles().insert(
                    h,
                    UserInner { context: caller->Some_0, scheme_id: sid },
                )
            },
    {
        let context = match caller {
            Some(c) => c,
            None => {
                return Err(SchemeError::AccessDenied);
            },
        };
        if schemes.get_name(path).is_some() {
            return Err(SchemeError::AlreadyExists);
        }
        if self.next_id == usize::MAX {
            return Err(SchemeError::ResourceExhausted);
        }
        let name = vstd::slice::slice_to_vec(path);
        let sid = schemes.insert(name, provider)?;
        let h = self.push_handle(UserInner { context, scheme_id: sid });
        Ok(h)
    }

    /// A fresh handle bound to the same bridge as `resource`.
    pub fn dup(&mut self, resource: usize) -> (r: Result<usize, SchemeError>)
        requires
            old(self).wf(),
        ensures
            final(self).wf(),
            r is Ok || r == Err::<usize, SchemeError>(SchemeError::BadDescriptor) || r == Err::<
                usize,
                SchemeError,
            >(SchemeError::ResourceExhausted),
            (r == Err::<usize, SchemeError>(SchemeError::BadDescriptor)) == !old(self).handles().contains_key(resource),
            (r == Err::<usize, SchemeError>(SchemeError::ResourceExhausted)) == (old(self).handles().contains_key(resource)
                && old(self).next() == usize::MAX),
            r is Err ==> *final(self) == *old(self),
            r matches Ok(h) ==> {
                &&& h == old(self).next()
                &&& final(self).next() == h + 1
                &&& final(self).handles() == old(self).handles().insert(h, old(self).handles()[resource])
            },
    {
        let inner = self.bridge(resource)?;
        if self.next_id == usize::MAX {
            return Err(SchemeError::ResourceExhausted);
        }
        Ok(self.push_handle(inner))
    }

    /// The bridge that reads and writes on `resource` are forwarded to.
    pub fn bridge(&self, resource: usize) -> (r: Result<UserInner, SchemeError>)
        requires
            self.wf(),
        ensures
            r is Err <==> !self.handles().contains_key(resource),
            r is Err ==> r == Err::<UserInner, SchemeError>(SchemeError::BadDescriptor),
            r matches Ok(inner) ==> inner == self.handles()[resource],
    {
        match self.find(resource) {
            Some(i) => Ok(self.handles[i].1),
            None => Err(SchemeError::BadDescriptor),
        }
    }

    /// Nothing is buffered on the kernel side.
    pub fn fsync(&self, resource: usize) -> (r: Result<usize, SchemeError>)
        ensures
            r == Ok::<usize, SchemeError>(0),
    {
        Ok(0)
    }

    /// Whether some handle other than the one at `skip` is bound to scheme `sid`.
    fn other_handle_of(&self, sid: usize, skip: usize) -> (r: bool)
        requires
            self.wf(),
            skip < self.handles.len(),
        ensures
            r == self.bridge_in_use(sid, self.handles@[skip as int].0),
    {
        let mut i: usize = 0;
        let ghost except = self.handles@[skip as int].0;
        while i < self.handles.len()
            invariant
                self.wf(),
                skip < self.handles.len(),
                except == self.handles@[skip as int].0,
                i <= self.handles.len(),
                forall|k: int| 0 <= k < i && k != skip ==> #[trigger] self.handles@[k].1.scheme_id != sid,
            decreases self.handles.len() - i,
        {
            if i != skip && self.handles[i].1.scheme_id == sid {
                assert(self.handles@[i as int].0 != except);
                assert(self.handles().contains_key(self.handles@[i as int].0));
                return true;
            }
            i = i + 1;
        }
        assert forall|h: usize| h != except && #[trigger] self.handles().contains_key(h) implies self.handles()[h].scheme_id
            != sid by {
            let k = choose|k: int| 0 <= k < self.handles.len() && #[trigger] self.handles@[k].0 == h;
            assert(k != skip);
        }
        false
    }

    /// Closes `resource`. When no other handle is bound to a bridge of the
    /// same scheme, that scheme leaves the registry and its name is free
    /// again; otherwise the registry is unchanged.
    pub fn close<S>(&mut self, schemes: &mut SchemeList<S>, resource: usize) -> (r: Result<usize, SchemeError>)
        requires
            old(self).wf(),
            old(schemes).wf(),
        ensures
            final(self).wf(),
            final(schemes).wf(),
            (r == Err::<usize, SchemeError>(SchemeError::BadDescriptor)) == !old(self).handles().contains_key(resource),
            r == Ok::<usize, SchemeError>(0) || r == Err::<usize, SchemeError>(SchemeError::BadDescriptor),
            final(self).handles() == old(self).handles().remove(resource),
            final(self).next() == old(self).next(),
            r is Err || old(self).bridge_in_use(old(self).handles()[resource].scheme_id, resource)
                ==> final(schemes).schemes() == old(schemes).schemes()
                && final(schemes).names() == old(schemes).names(),
            r is Ok && !old(self).bridge_in_use(old(self).handles()[resource].scheme_id, resource) ==> {
                let sid = old(self).handles()[resource].scheme_id;
                &&& final(schemes).schemes() == old(schemes).schemes().remove(sid)
                &&& forall|n: Seq<u8>|
                    #[trigger] final(schemes).names().contains_key(n) == (old(schemes).names().contains_key(n)
                        && old(schemes).names()[n] != sid)
                &&& forall|n: Seq<u8>|
                    #[trigger] final(schemes).names().contains_key(n) ==> final(schemes).names()[n]
                        == old(schemes).names()[n]
            },
    {
        let i = match self.find(resource) {
            Some(i) => i,
            None => {
                assert(self.by_handle@.remove(resource) =~= self.by_handle@);
                return Err(SchemeError::BadDescriptor);
            },
        };
        let sid = self.handles[i].1.scheme_id;
        let shared = self.other_handle_of(sid, i);
        let ghost old_self = *self;
        self.handles.remove(i);
        self.by_handle = Ghost(self.by_handle@.remove(resource));
        proof {
            Self::lemma_wf_remove(&old_self, self, i as int);
        }
        if !shared {
            schemes.remove(sid);
        }
        Ok(0)
    }
}

} // verus!

verus! {

/// Opening the same new scheme name twice: once the first `open` has
/// registered the name, the second fails with `AlreadyExists`. The premises
/// are what `open` guarantees of the two calls.
pub proof fn lemma_second_open_fails(
    names_before: Map<Seq<u8>, usize>,
    names_between: Map<Seq<u8>, usize>,
    path: Seq<u8>,
    first: Result<usize, SchemeError>,
    second_caller: Option<usize>,
    second: Result<usize, SchemeError>,
)
    requires
        first is Ok ==> exists|sid: usize| names_between == names_before.insert(path, sid),
        (second == Err::<usize, SchemeError>(SchemeError::AlreadyExists)) == (second_caller is Some
            && names_between.contains_key(path)),
        first is Ok,
        second_caller is Some,
    ensures
        second == Err::<usize, SchemeError>(SchemeError::AlreadyExists),
{
    let sid = choose|sid: usize| names_between == names_before.insert(path, sid);
    assert(names_between.contains_key(path));
}

/// A provided scheme stays registered under its name while any root handle
/// is bound to its bridge: closing a handle while another handle of the same
/// scheme is open keeps the name bound to the same identifier. The premises
/// are what `close` guarantees.
pub proof fn lemma_name_held_while_duplicated<S>(
    root: &RootScheme,
    before: &SchemeList<S>,
    after: &SchemeList<S>,
    path: Seq<u8>,
    closed: usize,
    r: Result<usize, SchemeError>,
)
    requires
        before.wf(),
        before.names().contains_key(path),
        root.bridge_in_use(before.names()[path], closed),
        r is Err || root.bridge_in_use(root.handles()[closed].scheme_id, closed) ==> after.schemes()
            == before.schemes() && after.names() == before.names(),
        r is Ok && !root.bridge_in_use(root.handles()[closed].scheme_id, closed) ==> {
            let sid = root.handles()[closed].scheme_id;
            &&& forall|n: Seq<u8>|
                #[trigger] after.names().contains_key(n) == (before.names().contains_key(n)
                    && before.names()[n] != sid)
            &&& forall|n: Seq<u8>|
                #[trigger] after.names().contains_key(n) ==> after.names()[n] == before.names()[n]
        },
    ensures
        after.names().contains_key(path),
        after.names()[path] == before.names()[path],
{
    if r is Ok && !root.bridge_in_use(root.handles()[closed].scheme_id, closed) {
        assert(before.names()[path] != root.handles()[closed].scheme_id);
        assert(after.names().contains_key(path));
    }
}

/// Closing the last root handle bound to a provided scheme frees its name,
/// which a later `open` can register again. The premises are what `close`
/// guarantees.
pub proof fn lemma_last_close_frees_name<S>(
    root: &RootScheme,
    before: &SchemeList<S>,
    after: &SchemeList<S>,
    path: Seq<u8>,
    closed: usize,
    r: Result<usize, SchemeError>,
)
    requires
        root.handles().contains_key(closed),
        before.names().contains_key(path),
        before.names()[path] == root.handles()[closed].scheme_id,
        !root.bridge_in_use(root.handles()[closed].scheme_id, closed),
        r is Ok,
        r is Ok && !root.bridge_in_use(root.handles()[closed].scheme_id, closed) ==> {
            let sid = root.handles()[closed].scheme_id;
            forall|n: Seq<u8>|
                #[trigger] after.names().contains_key(n) == (before.names().contains_key(n)
                    && before.names()[n] != sid)
        },
    ensures
        !after.names().contains_key(path),
{
}

} // verus!

verus! {

/// Some handle in `handles` other than `except` is bound to a bridge of
/// scheme `sid`.
pub open spec fn shared_bridge(handles: Map<usize, UserInner>, sid: usize, except: usize) -> bool {
    exists|h: usize| h != except && #[trigger] handles.contains_key(h) && handles[h].scheme_id == sid
}

/// What one call of `close(resource)` returning `r` does to the handle
/// table and to the registry's names, as its contract states it.
pub open spec fn close_step(
    handles: Map<usize, UserInner>,
    names: Map<Seq<u8>, usize>,
    resource: usize,
    r: Result<usize, SchemeError>,
    handles_after: Map<usize, UserInner>,
    names_after: Map<Seq<u8>, usize>,
) -> bool {
    &&& handles_after == handles.remove(resource)
    &&& r is Err || shared_bridge(handles, handles[resource].scheme_id, resource) ==> names_after == names
    &&& r is Ok && !shared_bridge(handles, handles[resource].scheme_id, resource) ==> {
        &&& forall|n: Seq<u8>|
            #[trigger] names_after.contains_key(n) == (names.contains_key(n) && names[n]
                != handles[resource].scheme_id)
        &&& forall|n: Seq<u8>| #[trigger] names_after.contains_key(n) ==> names_after[n] == names[n]
    }
}

proof fn lemma_closes_keep_name(
    handles: Seq<Map<usize, UserInner>>,
    names: Seq<Map<Seq<u8>, usize>>,
    closed: Seq<usize>,
    results: Seq<Result<usize, SchemeError>>,
    path: Seq<u8>,
    kept: usize,
    k: int,
)
    requires
        handles.len() == closed.len() + 1,
        names.len() == closed.len() + 1,
        results.len() == closed.len(),
        forall|j: int|
            0 <= j < closed.len() ==> #[trigger] close_step(
                handles[j],
                names[j],
                closed[j],
                results[j],
                handles[j + 1],
                names[j + 1],
            ),
        names[0].contains_key(path),
        handles[0].contains_key(kept),
        handles[0][kept].scheme_id == names[0][path],
        forall|j: int| 0 <= j < closed.len() ==> #[trigger] closed[j] != kept,
        0 <= k <= closed.len(),
    ensures
        names[k].contains_key(path),
        names[k][path] == names[0][path],
        handles[k].contains_key(kept),
        handles[k][kept] == handles[0][kept],
    decreases k,
{
    if k > 0 {
        let j = k - 1;
        lemma_closes_keep_name(handles, names, closed, results, path, kept, j);
        assert(close_step(handles[j], names[j], closed[j], results[j], handles[j + 1], names[j + 1]));
        assert(closed[j] != kept);
        if results[j] is Ok && !shared_bridge(handles[j], handles[j][closed[j]].scheme_id, closed[j]) {
            assert(handles[j][kept].scheme_id != handles[j][closed[j]].scheme_id);
            assert(names[j + 1].contains_key(path));
        }
    }
}

/// A scheme name opened through the root scheme stays registered, bound to
/// the same identifier, through any run of closes that leaves at least one
/// handle of its bridge open (the first handle or any duplicate); so a new
/// `open` of that name keeps failing with `AlreadyExists`. `handles[k]` and
/// `names[k]` are the handle table and the registry's names before close
/// `k` of `closed[k]`, which returned `results[k]`.
pub proof fn lemma_name_held_through_closes(
    handles: Seq<Map<usize, UserInner>>,
    names: Seq<Map<Seq<u8>, usize>>,
    closed: Seq<usize>,
    results: Seq<Result<usize, SchemeError>>,
    path: Seq<u8>,
    kept: usize,
)
    requires
        handles.len() == closed.len() + 1,
        names.len() == closed.len() + 1,
        results.len() == closed.len(),
        forall|j: int|
            0 <= j < closed.len() ==> #[trigger] close_step(
                handles[j],
                names[j],
                closed[j],
                results[j],
                handles[j + 1],
                names[j + 1],
            ),
        names[0].contains_key(path),
        handles[0].contains_key(kept),
        handles[0][kept].scheme_id == names[0][path],
        forall|j: int| 0 <= j < closed.len() ==> #[trigger] closed[j] != kept,
    ensures
        forall|k: int|
            #![trigger names[k]]
            0 <= k <= closed.len() ==> (names[k].contains_key(path) && names[k][path] == names[0][path]
                && handles[k].contains_key(kept)),
{
    assert forall|k: int|
        #![trigger names[k]]
        0 <= k <= closed.len() implies (names[k].contains_key(path) && names[k][path]
            == names[0][path] && handles[k].contains_key(kept)) by {
        lemma_closes_keep_name(handles, names, closed, results, path, kept, k);
    }
}

} // verus!
