use std::collections::hash_map::DefaultHasher;
use std::hash::Hash;
use std::hash::Hasher;
use std::marker::PhantomData;

use vstd::prelude::*;
use vstd::std_specs::hash::DefaultHasherAdditionalSpecFns;

use crate::diagnostic::Diagnostic;
use crate::item::ItemPtr;

verus! {

/// The result of a query, which knows whether it may still change on later
/// calls.
pub trait QueryResult: Sized + Clone {
    spec fn spec_is_final(&self) -> bool;

    /// Returns true when the query result will not change on future calls.
    fn is_final(&self) -> (r: bool)
        ensures
            r == self.spec_is_final(),
    ;
}

/// A kind of query: what it is asked about, what it answers, and what it
/// answers when a query of this kind is asked again while it is still being
/// answered.
pub trait Query {
    type Result: QueryResult;

    type Target: Hash;

    /// Whether this kind of query has an answer for a cycle at all.
    spec fn has_cycle_answer() -> bool;

    /// Whether that answer is temporary, so that a query of this kind may
    /// meet a cycle and still be answered.
    spec fn tolerates_cycles() -> bool;

    /// The answer given to a query that is already being answered further up
    /// the stack.
    fn result_when_cycle_encountered(target: &Self::Target) -> (r: Self::Result)
        requires
            Self::has_cycle_answer(),
        ensures
            Self::tolerates_cycles() ==> !r.spec_is_final(),
    ;
}

pub struct QueryResultCache<Q: Query + ?Sized> {
    pub data: Option<Q::Result>,
}

impl<Q: Query + ?Sized> Clone for QueryResultCache<Q> {
    fn clone(&self) -> (r: Self)
        ensures
            r.data.is_some() == self.data.is_some(),
            self.data.is_some() ==> cloned(self.data.unwrap(), r.data.unwrap()),
    {
        Self { data: self.data.clone() }
    }
}

/// A token that only the environment hands out; it gates the creation of the
/// root query context.
pub struct OnlyConstructedByEnvironment(());

impl OnlyConstructedByEnvironment {
    pub(crate) fn new() -> Self {
        OnlyConstructedByEnvironment(())
    }
}

/// Tracks which queries are currently being answered, by the hashes of their
/// targets, so that cycles are detected.
pub struct QueryContext<Q: ?Sized> {
    pub cycle_detection_stack: Vec<u64>,
    phantom: PhantomData<Q>,
}

impl<Q: ?Sized> View for QueryContext<Q> {
    type V = Seq<u64>;

    closed spec fn view(&self) -> Seq<u64> {
        self.cycle_detection_stack@
    }
}

/// The query kind of the root context; no query is ever dispatched as it.
pub struct RootQuery;

impl QueryContext<RootQuery> {
    pub fn root(_token: OnlyConstructedByEnvironment) -> (ctx: QueryContext<RootQuery>)
        ensures
            ctx@ == Seq::<u64>::empty(),
    {
        QueryContext::new()
    }
}

/// What feeding the handle of the item numbered `index` to a hasher, through
/// the derived `Hash` of `ItemPtr`, writes into the hasher.
pub uninterp spec fn item_hash_writes(index: usize) -> Seq<Seq<u8>>;

/// The hash a fresh `DefaultHasher` gives the handle `key`.
pub open spec fn item_hash(key: ItemPtr) -> u64 {
    DefaultHasher::spec_finish(item_hash_writes(key.0))
}

/// Feeds `key` into `hasher` through std's `Hash::hash`, as derived for
/// `ItemPtr`: it appends to what the hasher was given the writes that the
/// key's integer alone decides, named `item_hash_writes`. Which bytes those
/// are is not stated.
#[verifier::external_body]
fn hash_key(key: &ItemPtr, hasher: &mut DefaultHasher)
    ensures
        final(hasher)@ == old(hasher)@ + item_hash_writes(key.0),
{
    key.hash(hasher)
}

impl<Q: ?Sized> QueryContext<Q> {
    pub fn new() -> (ctx: Self)
        ensures
            ctx@ == Seq::<u64>::empty(),
    {
        Self { cycle_detection_stack: Vec::new(), phantom: PhantomData }
    }
}

impl<Q: Query + ?Sized> QueryContext<Q> {
    /// Whether a query whose target hashes to `key_hash` is being answered.
    fn is_on_stack(&self, key_hash: u64) -> (r: bool)
        ensures
            r == self@.contains(key_hash),
    {
        let mut i: usize = 0;
        while i < self.cycle_detection_stack.len()
            invariant
                i <= self@.len(),
                forall|j: int| 0 <= j < i ==> self@[j] != key_hash,
            decreases self@.len() - i,
        {
            if self.cycle_detection_stack[i] == key_hash {
                return true;
            }
            i += 1;
        }
        false
    }

    /// Answers a query whose target hashes to `key_hash`: with the cycle
    /// answer when that hash is already on the stack, else with the cached
    /// answer, else by computing it with the hash pushed on the stack and
    /// caching what was computed.
    pub fn get_query_result_for_hash<F: FnOnce(&mut Self) -> Q::Result>(
        &mut self,
        key_hash: u64,
        key: &Q::Target,
        recompute_result: F,
        cache: &mut QueryResultCache<Q>,
    ) -> (r: Q::Result)
        requires
            old(self)@.contains(key_hash) ==> Q::has_cycle_answer() && Q::tolerates_cycles(),
            forall|s: &mut Self| #[trigger] call_requires(recompute_result, (s,)),
            forall|s: &mut Self, res: Q::Result| #[trigger]
                call_ensures(recompute_result, (s,), res) ==> final(s)@
                    == (*s)@,
        ensures
            final(self)@ == old(self)@,
            old(self)@.contains(key_hash) ==> {
                &&& call_ensures(Q::result_when_cycle_encountered, (key,), r)
                &&& !r.spec_is_final()
                &&& final(cache).data == old(cache).data
            },
            !old(self)@.contains(key_hash) && old(cache).data.is_some() ==> {
                &&& cloned(old(cache).data.unwrap(), r)
                &&& final(cache).data == old(cache).data
            },
            !old(self)@.contains(key_hash) && old(cache).data.is_none() ==> {
                &&& r.spec_is_final() ==> final(cache).data.is_some() && cloned(r, final(cache).data.unwrap())
                &&& !r.spec_is_final() ==> final(cache).data.is_none()
                &&& exists|s: &mut Self|
                    #![trigger call_ensures(recompute_result, (s,), r)]
                    (*s)@ == old(self)@.push(key_hash)
                        && call_ensures(recompute_result, (s,), r)
            },
    {
        if self.is_on_stack(key_hash) {
            Q::result_when_cycle_encountered(key)
        } else if cache.data.is_some() {
            let result = cache.data.clone().unwrap();
            result
        } else {
            let ghost before = self@;
            self.cycle_detection_stack.push(key_hash);
            let ghost pushed = self@;
            let result = recompute_result(self);
            assert(self@ == pushed);
            self.cycle_detection_stack.pop();
            assert(self@ =~= before);
            if result.is_final() {
                cache.data = Some(result.clone());
            }
            result
        }
    }

}

impl<Q: Query<Target = ItemPtr> + ?Sized> QueryContext<Q> {
    /// Answers a query about `key`, as `get_query_result_for_hash` does for
    /// the hash of `key`.
    pub fn get_query_result<F: FnOnce(&mut Self) -> Q::Result>(
        &mut self,
        key: &Q::Target,
        recompute_result: F,
        cache: &mut QueryResultCache<Q>,
    ) -> (r: Q::Result)
        requires
            old(self)@.contains(item_hash(*key)) ==> Q::has_cycle_answer() && Q::tolerates_cycles(),
            forall|s: &mut Self| #[trigger] call_requires(recompute_result, (s,)),
            forall|s: &mut Self, res: Q::Result| #[trigger]
                call_ensures(recompute_result, (s,), res) ==> final(s)@
                    == (*s)@,
        ensures
            final(self)@ == old(self)@,
            ({
                    let key_hash = item_hash(*key);
                    &&& old(self)@.contains(key_hash) ==> {
                        &&& call_ensures(Q::result_when_cycle_encountered, (key,), r)
                        &&& !r.spec_is_final()
                        &&& final(cache).data == old(cache).data
                    }
                    &&& !old(self)@.contains(key_hash) && old(
                        cache,
                    ).data.is_some() ==> {
                        &&& cloned(old(cache).data.unwrap(), r)
                        &&& final(cache).data == old(cache).data
                    }
                    &&& !old(self)@.contains(key_hash) && old(
                        cache,
                    ).data.is_none() ==> {
                        &&& r.spec_is_final() ==> final(cache).data.is_some() && cloned(r, final(cache).data.unwrap())
                        &&& !r.spec_is_final() ==> final(cache).data.is_none()
                        &&& exists|s: &mut Self|
                            #![trigger call_ensures(recompute_result, (s,), r)]
                            (*s)@ == old(
                                self,
                            )@.push(key_hash) && call_ensures(
                                recompute_result,
                                (s,),
                                r,
                            )
                    }
                }),
    {
        let mut hasher = DefaultHasher::new();
        hash_key(key, &mut hasher);
        let key_hash = hasher.finish();
        proof {
            assert(Seq::<Seq<u8>>::empty() + item_hash_writes(key.0) =~= item_hash_writes(key.0));
        }
        self.get_query_result_for_hash(key_hash, key, recompute_result, cache)
    }
}

impl<Q: Query + ?Sized> QueryResultCache<Q> {
    pub fn new() -> (c: Self)
        ensures
            c.data.is_none(),
    {
        Self { data: None }
    }

    /// Returns the cached result if there is one; otherwise computes it, and
    /// keeps it only when it is final.
    pub fn get_query_result<F: FnOnce() -> Q::Result>(&mut self, recompute_query_result: F) -> (r:
        Q::Result)
        requires
            call_requires(recompute_query_result, ()),
        ensures
            old(self).data.is_some() ==> final(self).data == old(self).data && cloned(
                old(self).data.unwrap(),
                r,
            ),
            old(self).data.is_none() ==> {
                &&& call_ensures(recompute_query_result, (), r)
                &&& r.spec_is_final() ==> final(self).data.is_some() && cloned(
                    r,
                    final(self).data.unwrap(),
                )
                &&& !r.spec_is_final() ==> final(self).data.is_none()
            },
    {
        if self.data.is_some() {
            let data = self.data.clone().unwrap();
            data
        } else {
            let data = recompute_query_result();
            if data.is_final() {
                self.data = Some(data.clone());
            }
            data
        }
    }
}

impl<T: Clone> QueryResult for Option<T> {
    open spec fn spec_is_final(&self) -> bool {
        self.is_some()
    }

    fn is_final(&self) -> (r: bool) {
        self.is_some()
    }
}

impl<T: Clone, E: Clone> QueryResult for Result<T, E> {
    open spec fn spec_is_final(&self) -> bool {
        self.is_ok()
    }

    fn is_final(&self) -> (r: bool) {
        self.is_ok()
    }
}

/// A query result that is always final.
#[derive(Clone, Debug, PartialEq, Eq, Hash)]
pub struct InfallibleQueryResult<T>(pub T);

impl<T> InfallibleQueryResult<T> {
    pub fn into(self) -> (r: T)
        ensures
            r == self.0,
    {
        self.0
    }
}

impl<T: Clone> QueryResult for InfallibleQueryResult<T> {
    open spec fn spec_is_final(&self) -> bool {
        true
    }

    fn is_final(&self) -> (r: bool) {
        true
    }
}

impl<T> From<T> for InfallibleQueryResult<T> {
    fn from(val: T) -> (r: Self) {
        Self(val)
    }
}

impl<T> vstd::std_specs::convert::FromSpecImpl<T> for InfallibleQueryResult<T> {
    open spec fn obeys_from_spec() -> bool {
        true
    }

    open spec fn from_spec(v: T) -> Self {
        InfallibleQueryResult(v)
    }
}

/// A value together with whether it is final or may still change.
#[derive(Clone, Debug, PartialEq, Eq, Hash)]
pub struct MaybeTemporary<T> {
    value: T,
    temporary: bool,
}

impl<T> MaybeTemporary<T> {
    pub closed spec fn spec_value(self) -> T {
        self.value
    }

    pub closed spec fn spec_temporary(self) -> bool {
        self.temporary
    }

    pub fn new_final(value: T) -> (r: Self)
        ensures
            r.spec_value() == value,
            !r.spec_temporary(),
    {
        Self { value, temporary: false }
    }

    pub fn new_temporary(value: T) -> (r: Self)
        ensures
            r.spec_value() == value,
            r.spec_temporary(),
    {
        Self { value, temporary: true }
    }

    pub fn is_final(&self) -> (r: bool)
        ensures
            r == !self.spec_temporary(),
    {
        !self.temporary
    }

    pub fn is_temporary(&self) -> (r: bool)
        ensures
            r == self.spec_temporary(),
    {
        self.temporary
    }

    pub fn into_final(self) -> (r: Option<T>)
        ensures
            r == (if self.spec_temporary() {
                None
            } else {
                Some(self.spec_value())
            }),
    {
        if self.is_final() {
            Some(self.value)
        } else {
            None
        }
    }

    pub fn into_temporary(self) -> (r: Option<T>)
        ensures
            r == (if self.spec_temporary() {
                Some(self.spec_value())
            } else {
                None
            }),
    {
        if self.is_temporary() {
            Some(self.value)
        } else {
            None
        }
    }

    /// Applies `f` to the value, keeping whether it is temporary.
    pub fn map<U, F: FnOnce(T) -> U>(self, f: F) -> (r: MaybeTemporary<U>)
        requires
            call_requires(f, (self.spec_value(),)),
        ensures
            call_ensures(f, (self.spec_value(),), r.spec_value()),
            r.spec_temporary() == self.spec_temporary(),
    {
        MaybeTemporary { value: f(self.value), temporary: self.temporary }
    }
}

impl<A, B> MaybeTemporary<(A, B)> {
    /// Pairs two values; the pair is temporary when either part is.
    pub fn and2(a: MaybeTemporary<A>, b: MaybeTemporary<B>) -> (r: Self)
        ensures
            r.spec_value() == (a.spec_value(), b.spec_value()),
            r.spec_temporary() == (a.spec_temporary() || b.spec_temporary()),
    {
        Self { value: (a.value, b.value), temporary: a.temporary || b.temporary }
    }
}

impl<A, B, C> MaybeTemporary<(A, B, C)> {
    /// Bundles three values; the bundle is temporary when any part is.
    pub fn and3(a: MaybeTemporary<A>, b: MaybeTemporary<B>, c: MaybeTemporary<C>) -> (r: Self)
        ensures
            r.spec_value() == (a.spec_value(), b.spec_value(), c.spec_value()),
            r.spec_temporary() == (a.spec_temporary() || b.spec_temporary()
                || c.spec_temporary()),
    {
        Self {
            value: (a.value, b.value, c.value),
            temporary: a.temporary || b.temporary || c.temporary,
        }
    }
}

impl<A, B, C, D> MaybeTemporary<(A, B, C, D)> {
    /// Bundles four values; the bundle is temporary when any part is.
    pub fn and4(
        a: MaybeTemporary<A>,
        b: MaybeTemporary<B>,
        c: MaybeTemporary<C>,
        d: MaybeTemporary<D>,
    ) -> (r: Self)
        ensures
            r.spec_value() == (a.spec_value(), b.spec_value(), c.spec_value(), d.spec_value()),
            r.spec_temporary() == (a.spec_temporary() || b.spec_temporary() || c.spec_temporary()
                || d.spec_temporary()),
    {
        Self {
            value: (a.value, b.value, c.value, d.value),
            temporary: a.temporary || b.temporary || c.temporary || d.temporary,
        }
    }
}

impl<T: Clone> QueryResult for MaybeTemporary<T> {
    open spec fn spec_is_final(&self) -> bool {
        !self.spec_temporary()
    }

    fn is_final(&self) -> (r: bool) {
        !self.temporary
    }
}

/// Asks for the children of an item. It must never run into a cycle.
pub struct ChildrenQuery;

impl Query for ChildrenQuery {
    type Result = InfallibleQueryResult<Vec<ItemPtr>>;

    type Target = ItemPtr;

    open spec fn has_cycle_answer() -> bool {
        false
    }

    open spec fn tolerates_cycles() -> bool {
        false
    }

    fn result_when_cycle_encountered(_target: &Self::Target) -> (r: Self::Result) {
        InfallibleQueryResult(Vec::new())
    }
}

/// Asks for the type of an item; a cycle leaves the type unknown for now.
pub struct TypeQuery;

impl Query for TypeQuery {
    type Result = Option<ItemPtr>;

    type Target = ItemPtr;

    open spec fn has_cycle_answer() -> bool {
        true
    }

    open spec fn tolerates_cycles() -> bool {
        true
    }

    fn result_when_cycle_encountered(_target: &Self::Target) -> (r: Self::Result)
        ensures
            r is None,
    {
        None
    }
}

/// Checks that all children of an item have expected types. It is okay to
/// ask a type query from a type check query but not the other way round.
pub struct TypeCheckQuery;

impl Query for TypeCheckQuery {
    type Result = InfallibleQueryResult<Vec<Diagnostic>>;

    type Target = ItemPtr;

    open spec fn has_cycle_answer() -> bool {
        true
    }

    /// Its answer to a cycle, no errors, is final.
    open spec fn tolerates_cycles() -> bool {
        false
    }

    fn result_when_cycle_encountered(_target: &Self::Target) -> (r: Self::Result)
        ensures
            r.0@.len() == 0,
    {
        no_type_check_errors()
    }
}

/// The answer of a type check that found nothing wrong.
pub fn no_type_check_errors() -> (r: InfallibleQueryResult<Vec<Diagnostic>>)
    ensures
        r.0@.len() == 0,
{
    InfallibleQueryResult(Vec::new())
}

/// Asks what an item resolves to.
pub struct ResolveQuery;

impl Query for ResolveQuery {
    type Result = Result<ItemPtr, Diagnostic>;

    type Target = ItemPtr;

    open spec fn has_cycle_answer() -> bool {
        true
    }

    /// Its answer to a cycle, the item itself, is final.
    open spec fn tolerates_cycles() -> bool {
        false
    }

    fn result_when_cycle_encountered(target: &Self::Target) -> (r: Self::Result)
        ensures
            r == Ok::<ItemPtr, Diagnostic>(*target),
    {
        Ok(*target)
    }
}

/// A query context that may hand out a context for queries of kind
/// `ChildQuery`.
pub trait AllowsChildQuery<ChildQuery: ?Sized> {
    fn with_child_context<T, F: FnOnce(&mut QueryContext<ChildQuery>) -> T>(
        &mut self,
        operation: F,
    ) -> (r: T)
        requires
            forall|c: &mut QueryContext<ChildQuery>| #[trigger] call_requires(operation, (c,)),
    ;
}

impl<Q: Query> AllowsChildQuery<Q> for QueryContext<Q> {
    /// A context of the same kind is itself.
    fn with_child_context<T, F: FnOnce(&mut QueryContext<Q>) -> T>(&mut self, operation: F) -> (r:
        T) {
        operation(self)
    }
}

impl AllowsChildQuery<TypeQuery> for QueryContext<RootQuery> {
    /// A root context hands out a fresh context.
    fn with_child_context<T, F: FnOnce(&mut QueryContext<TypeQuery>) -> T>(
        &mut self,
        operation: F,
    ) -> (r: T) {
        let mut ctx = QueryContext::new();
        operation(&mut ctx)
    }
}

impl AllowsChildQuery<TypeQuery> for QueryContext<TypeCheckQuery> {
    /// A type check context hands out a fresh type context.
    fn with_child_context<T, F: FnOnce(&mut QueryContext<TypeQuery>) -> T>(
        &mut self,
        operation: F,
    ) -> (r: T) {
        let mut ctx = QueryContext::new();
        operation(&mut ctx)
    }
}

impl AllowsChildQuery<ResolveQuery> for QueryContext<RootQuery> {
    /// A root context hands out a fresh resolve context.
    fn with_child_context<T, F: FnOnce(&mut QueryContext<ResolveQuery>) -> T>(
        &mut self,
        operation: F,
    ) -> (r: T) {
        let mut ctx = QueryContext::new();
        operation(&mut ctx)
    }
}

impl AllowsChildQuery<TypeCheckQuery> for QueryContext<RootQuery> {
    /// A root context hands out a fresh type check context.
    fn with_child_context<T, F: FnOnce(&mut QueryContext<TypeCheckQuery>) -> T>(
        &mut self,
        operation: F,
    ) -> (r: T) {
        let mut ctx = QueryContext::new();
        operation(&mut ctx)
    }
}

} // verus!
