use vstd::prelude::*;
use crate::bag::{cache_after_get, lookup, Lookup};

verus! {

/// Requesting a registered identifier twice in a row: the second request
/// finds the handle the first one left in the cache, materializes nothing
/// and changes nothing.
pub proof fn lemma_second_get_hits<T>(
    registry: Map<Seq<char>, Seq<char>>,
    cache: Map<Seq<char>, T>,
    id: Seq<char>,
    fresh: T,
    again: T,
)
    requires
        registry.contains_key(id),
    ensures
        lookup(registry, cache_after_get(registry, cache, id, fresh), id) == Lookup::Cached,
        cache_after_get(registry, cache_after_get(registry, cache, id, fresh), id, again)
            == cache_after_get(registry, cache, id, fresh),
{
}

/// After an identifier is forgotten, a request for it materializes it anew
/// from its locator, exactly once: the request after that finds it cached.
pub proof fn lemma_forget_then_get_reloads<T>(
    registry: Map<Seq<char>, Seq<char>>,
    cache: Map<Seq<char>, T>,
    id: Seq<char>,
    fresh: T,
)
    requires
        registry.contains_key(id),
    ensures
        lookup(registry, cache.remove(id), id) == Lookup::Load(registry[id]),
        cache_after_get(registry, cache.remove(id), id, fresh)[id] == fresh,
        lookup(registry, cache_after_get(registry, cache.remove(id), id, fresh), id)
            == Lookup::Cached,
{
}

/// Forgetting an identifier that is not cached leaves the cache as it is.
pub proof fn lemma_forget_absent_is_noop<T>(cache: Map<Seq<char>, T>, id: Seq<char>)
    requires
        !cache.contains_key(id),
    ensures
        cache.remove(id) == cache,
{
    assert(cache.remove(id) =~= cache);
}

/// A request for an identifier that is not registered is refused, whatever
/// the cache holds, as long as the cache holds only registered identifiers.
pub proof fn lemma_unregistered_is_unknown<T>(
    registry: Map<Seq<char>, Seq<char>>,
    cache: Map<Seq<char>, T>,
    id: Seq<char>,
)
    requires
        !registry.contains_key(id),
        cache.dom().subset_of(registry.dom()),
    ensures
        lookup(registry, cache, id) == Lookup::Unknown,
{
}

} // verus!
