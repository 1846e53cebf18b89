use scarlet::definitions::{DUnique, Definition};
use scarlet::environment::Environment;
use scarlet::item::{ItemPtr, Scope};
use scarlet::query::{Query, QueryContext, QueryResult, QueryResultCache, ResolveQuery, TypeCheckQuery, TypeQuery};

fn unique(env: &mut Environment) -> ItemPtr {
    let id = env.push_unique();
    env.push_item(Definition::Unique(DUnique::new(id)), Scope::Root)
}

#[test]
fn temporary_result_is_not_cached() {
    let mut env = Environment::new();
    let key = unique(&mut env);
    let answer = unique(&mut env);
    let mut ctx: QueryContext<TypeQuery> = QueryContext::new();
    let mut cache: QueryResultCache<TypeQuery> = QueryResultCache::new();
    // `None` is a temporary answer to a type query: it is returned, not kept.
    assert_eq!(ctx.get_query_result(&key, |_| None, &mut cache), None);
    assert!(cache.data.is_none());
    assert!(ctx.cycle_detection_stack.is_empty());
    // A final answer is kept, and later calls are answered from the cache.
    assert_eq!(ctx.get_query_result(&key, |_| Some(answer), &mut cache), Some(answer));
    assert_eq!(cache.data, Some(Some(answer)));
    assert_eq!(ctx.get_query_result(&key, |_| None, &mut cache), Some(answer));
}

#[test]
fn asking_again_inside_the_same_query_gives_the_cycle_answer() {
    let mut env = Environment::new();
    let key = unique(&mut env);
    let answer = unique(&mut env);
    let mut ctx: QueryContext<TypeQuery> = QueryContext::new();
    let mut outer: QueryResultCache<TypeQuery> = QueryResultCache::new();
    let mut inner: QueryResultCache<TypeQuery> = QueryResultCache::new();
    let r = ctx.get_query_result(
        &key,
        |c| c.get_query_result(&key, |_| Some(answer), &mut inner),
        &mut outer,
    );
    assert_eq!(r, None);
    assert!(inner.data.is_none());
    assert!(outer.data.is_none());
}

#[test]
fn a_query_about_another_item_inside_a_query_is_computed() {
    let mut env = Environment::new();
    let key = unique(&mut env);
    let other = unique(&mut env);
    let answer = unique(&mut env);
    let mut ctx: QueryContext<TypeQuery> = QueryContext::new();
    let mut outer: QueryResultCache<TypeQuery> = QueryResultCache::new();
    let mut inner: QueryResultCache<TypeQuery> = QueryResultCache::new();
    let r = ctx.get_query_result(
        &key,
        |c| {
            assert_eq!(c.cycle_detection_stack.len(), 1);
            c.get_query_result(&other, |_| Some(answer), &mut inner)
        },
        &mut outer,
    );
    assert_eq!(r, Some(answer));
    assert_eq!(inner.data, Some(Some(answer)));
    assert_eq!(outer.data, Some(Some(answer)));
    assert!(ctx.cycle_detection_stack.is_empty());
}

#[test]
fn cycle_answers_of_each_kind() {
    let mut env = Environment::new();
    let target = unique(&mut env);
    let t = TypeQuery::result_when_cycle_encountered(&target);
    assert_eq!(t, None);
    assert!(!t.is_final());
    let c = TypeCheckQuery::result_when_cycle_encountered(&target);
    assert!(c.0.is_empty());
    assert!(c.is_final());
    let r = ResolveQuery::result_when_cycle_encountered(&target);
    assert_eq!(r, Ok(target));
    assert!(r.is_final());
}
