use vstd::prelude::*;
use crate::registry::{entries_map, ids_distinct, lemma_entries_map, Registry};

verus! {

/// What a request for an identifier has to do, given the registry and the cache.
pub enum Lookup {
    /// A handle is cached: it is returned as it is.
    Cached,
    /// Nothing is cached: the handle is materialized from this locator.
    Load(Seq<char>),
    /// The identifier is not registered.
    Unknown,
}

/// The step a request for `id` takes.
pub open spec fn lookup<T>(
    registry: Map<Seq<char>, Seq<char>>,
    cache: Map<Seq<char>, T>,
    id: Seq<char>,
) -> Lookup {
    if cache.contains_key(id) {
        Lookup::Cached
    } else if registry.contains_key(id) {
        Lookup::Load(registry[id])
    } else {
        Lookup::Unknown
    }
}

/// The cache after a successful request for `id`, where `fresh` is what
/// materialization gave if the request needed one.
pub open spec fn cache_after_get<T>(
    registry: Map<Seq<char>, Seq<char>>,
    cache: Map<Seq<char>, T>,
    id: Seq<char>,
    fresh: T,
) -> Map<Seq<char>, T> {
    match lookup(registry, cache, id) {
        Lookup::Load(_) => cache.insert(id, fresh),
        _ => cache,
    }
}

/// `outcome` is a possible result of `materialize` on a locator that reads
/// as `locator`.
pub open spec fn made_by<T, E, F: Fn(&String) -> Result<T, E>>(
    materialize: F,
    locator: Seq<char>,
    outcome: Result<T, E>,
) -> bool {
    exists|p: &String| p@ == locator && #[trigger] materialize.ensures((p,), outcome)
}

/// Why a texture could not be handed out.
#[derive(Debug)]
pub enum BagError<E> {
    /// The identifier is not in the registry.
    UnknownTextureId(String),
    /// Materializing the texture from its locator failed.
    Load(E),
}

/// Removing an entry from a list with distinct identifiers removes its
/// identifier from the map the list describes.
proof fn lemma_entries_map_remove<V>(entries: Seq<(String, V)>, k: int)
    requires
        ids_distinct(entries),
        0 <= k < entries.len(),
    ensures
        ids_distinct(entries.remove(k)),
        entries_map(entries.remove(k)) == entries_map(entries).remove(entries[k].0@),
{
    let rest = entries.remove(k);
    assert forall|a: int, b: int| 0 <= a < b < rest.len() implies (#[trigger] rest[a]).0@
        != (#[trigger] rest[b]).0@ by {
        let a0 = if a < k { a } else { a + 1 };
        let b0 = if b < k { b } else { b + 1 };
        assert(rest[a] == entries[a0] && rest[b] == entries[b0]);
    }
    lemma_entries_map(entries);
    lemma_entries_map(rest);
    let id = entries[k].0@;
    assert forall|x: Seq<char>| #[trigger] entries_map(rest).contains_key(x) <==> entries_map(
        entries,
    ).remove(id).contains_key(x) by {
        if entries_map(rest).contains_key(x) {
            let i = choose|i: int| 0 <= i < rest.len() && (#[trigger] rest[i]).0@ == x;
            let i0 = if i < k { i } else { i + 1 };
            assert(rest[i] == entries[i0]);
        }
        if entries_map(entries).remove(id).contains_key(x) {
            let i = choose|i: int| 0 <= i < entries.len() && (#[trigger] entries[i]).0@ == x;
            if i < k {
                assert(rest[i] == entries[i]);
            } else {
                assert(rest[i - 1] == entries[i]);
            }
        }
    }
    assert forall|x: Seq<char>| #[trigger] entries_map(rest).contains_key(x) implies entries_map(
        rest,
    )[x] == entries_map(entries)[x] by {
        let i = choose|i: int| 0 <= i < rest.len() && (#[trigger] rest[i]).0@ == x;
        let i0 = if i < k { i } else { i + 1 };
        assert(rest[i] == entries[i0]);
    }
    assert(entries_map(rest) =~= entries_map(entries).remove(id));
}

/// Appending an entry adds its identifier to the map the list describes.
proof fn lemma_entries_map_push<V>(entries: Seq<(String, V)>, e: (String, V))
    ensures
        entries_map(entries.push(e)) == entries_map(entries).insert(e.0@, e.1),
{
    assert(entries.push(e).drop_last() =~= entries);
}

/// A bag of textures: a registry of identifiers and their locators, and a
/// cache of the handles materialized so far. The cache owns its handles;
/// only borrows are handed out.
pub struct TextureBag<T> {
    config_data: Registry,
    textures: Vec<(String, T)>,
}

impl<T> TextureBag<T> {
    /// The registry: identifier to locator.
    pub closed spec fn registry(&self) -> Map<Seq<char>, Seq<char>> {
        self.config_data@
    }

    /// The cache: identifier to materialized handle.
    pub closed spec fn cache(&self) -> Map<Seq<char>, T> {
        entries_map(self.textures@)
    }

    /// The representation holds no duplicate identifiers.
    pub closed spec fn inv(&self) -> bool {
        self.config_data.wf() && ids_distinct(self.textures@)
    }

    /// Well formed: every cached identifier is registered.
    pub open spec fn wf(&self) -> bool {
        &&& self.inv()
        &&& self.cache().dom().finite()
        &&& self.cache().dom().subset_of(self.registry().dom())
    }

    /// A bag with the given registry and nothing materialized yet.
    pub fn init_lazy(config: Registry) -> (r: TextureBag<T>)
        requires
            config.wf(),
        ensures
            r.wf(),
            r.registry() == config@,
            r.cache() == Map::<Seq<char>, T>::empty(),
    {
        TextureBag { config_data: config, textures: Vec::new() }
    }

    /// A bag with the given registry whose every texture is materialized at
    /// once: `materialize` is called once for each registered locator, and
    /// the first failure fails the whole construction.
    pub fn init_eager<E, F: Fn(&String) -> Result<T, E>>(config: Registry, materialize: F) -> (r:
        Result<TextureBag<T>, E>)
        requires
            config.wf(),
            forall|p: &String| #[trigger] materialize.requires((p,)),
        ensures
            r matches Ok(bag) ==> {
                &&& bag.wf()
                &&& bag.registry() == config@
                &&& bag.cache().dom() == config@.dom()
                &&& bag.cache().len() == config@.len()
                &&& forall|id: Seq<char>|
                    #[trigger] bag.cache().contains_key(id) ==> made_by(
                        materialize,
                        config@[id],
                        Ok(bag.cache()[id]),
                    )
            },
            r matches Err(e) ==> exists|id: Seq<char>|
                #[trigger] config@.contains_key(id) && made_by(materialize, config@[id], Err(e)),
    {
        let ids = config.ids();
        let mut textures: Vec<(String, T)> = Vec::new();
        let mut k: usize = 0;
        while k < ids.len()
            invariant
                config.wf(),
                k <= ids.len(),
                ids.len() == config@.len(),
                forall|i: int| 0 <= i < ids.len() ==> config@.contains_key(#[trigger] ids@[i]@),
                forall|i: int, j: int| 0 <= i < j < ids.len() ==> (#[trigger] ids@[i])@ != (#[trigger] ids@[j])@,
                forall|p: &String| #[trigger] materialize.requires((p,)),
                textures.len() == k,
                forall|j: int| 0 <= j < k ==> (#[trigger] textures@[j]).0 == ids@[j],
                forall|j: int|
                    0 <= j < k ==> made_by(materialize, config@[ids@[j]@], Ok((#[trigger] textures@[j]).1)),
            decreases ids.len() - k,
        {
            proof {
                assert(config@.contains_key(ids@[k as int]@));
            }
            let path = config.locator(&ids[k]).unwrap();
            let loaded = materialize(path);
            match loaded {
                Ok(t) => {
                    let ghost handle = t;
                    let ghost before = textures@;
                    textures.push((ids[k].clone(), t));
                    proof {
                        assert(made_by(materialize, config@[ids@[k as int]@], Ok(handle)));
                        assert forall|j: int| 0 <= j < k + 1 implies made_by(
                            materialize,
                            config@[ids@[j]@],
                            Ok((#[trigger] textures@[j]).1),
                        ) by {
                            if j < k {
                                assert(textures@[j] == before[j]);
                            }
                        }
                    }
                },
                Err(e) => {
                    proof {
                        assert(made_by(materialize, config@[ids@[k as int]@], Err(e)));
                    }
                    return Err(e);
                },
            }
            k += 1;
        }
        let bag = TextureBag { config_data: config, textures };
        proof {
            assert(ids_distinct(textures@)) by {
                assert forall|a: int, b: int| 0 <= a < b < textures@.len() implies (
                #[trigger] textures@[a]).0@ != (#[trigger] textures@[b]).0@ by {
                    assert(ids@[a]@ != ids@[b]@);
                }
            }
            lemma_entries_map(textures@);
            assert forall|id: Seq<char>| #[trigger] bag.cache().contains_key(id) <==> config@.contains_key(id) by {
                if bag.cache().contains_key(id) {
                    let i = choose|i: int| 0 <= i < textures@.len() && (#[trigger] textures@[i]).0@ == id;
                    assert(ids@[i]@ == id);
                }
                if config@.contains_key(id) {
                    let i = choose|i: int| 0 <= i < ids.len() && (#[trigger] ids@[i])@ == id;
                    assert(textures@[i].0@ == id);
                }
            }
            assert(bag.cache().dom() =~= config@.dom());
            assert forall|id: Seq<char>| #[trigger] bag.cache().contains_key(id) implies made_by(
                materialize,
                config@[id],
                Ok(bag.cache()[id]),
            ) by {
                let i = choose|i: int| 0 <= i < textures@.len() && (#[trigger] textures@[i]).0@ == id;
                assert(ids@[i]@ == id);
                assert(bag.cache()[id] == textures@[i].1);
            }
        }
        Ok(bag)
    }

    /// Index of the cached entry for an identifier.
    fn find(&self, texture_id: &String) -> (r: Option<usize>)
        requires
            self.inv(),
        ensures
            r matches Some(i) ==> i < self.textures.len() && self.textures@[i as int].0@
                == texture_id@,
            r is None ==> !self.cache().contains_key(texture_id@),
    {
        let mut i: usize = 0;
        while i < self.textures.len()
            invariant
                i <= self.textures.len(),
                forall|j: int| 0 <= j < i ==> (#[trigger] self.textures@[j]).0@ != texture_id@,
            decreases self.textures.len() - i,
        {
            if self.textures[i].0 == *texture_id {
                return Some(i);
            }
            i += 1;
        }
        proof {
            lemma_entries_map(self.textures@);
        }
        None
    }

    /// Whether a handle for the identifier is cached.
    pub fn is_cached(&self, texture_id: &String) -> (r: bool)
        requires
            self.wf(),
        ensures
            r == self.cache().contains_key(texture_id@),
    {
        match self.find(texture_id) {
            Some(i) => {
                proof {
                    lemma_entries_map(self.textures@);
                }
                true
            },
            None => false,
        }
    }

    /// The number of cached handles.
    pub fn cached_count(&self) -> (r: usize)
        requires
            self.wf(),
        ensures
            r == self.cache().len(),
    {
        proof {
            lemma_entries_map(self.textures@);
        }
        self.textures.len()
    }

    /// The registry the bag was made with.
    pub fn registry_ref(&self) -> (r: &Registry)
        requires
            self.wf(),
        ensures
            r.wf(),
            r@ == self.registry(),
    {
        &self.config_data
    }

    /// The handle for an identifier. When one is cached it is returned and
    /// nothing is materialized. Otherwise the identifier's locator is looked
    /// up in the registry and handed to `materialize` once; a handle it
    /// returns is cached and returned. An unregistered identifier fails and
    /// leaves the bag as it was, as does a failed materialization.
    pub fn get_texture<E, F: Fn(&String) -> Result<T, E>>(
        &mut self,
        texture_id: String,
        materialize: F,
    ) -> (r: Result<&T, BagError<E>>)
        requires
            old(self).wf(),
            forall|p: &String| #[trigger] materialize.requires((p,)),
        ensures
            final(self).wf(),
            final(self).registry() == old(self).registry(),
            r matches Ok(t) ==> final(self).cache() == cache_after_get(
                old(self).registry(),
                old(self).cache(),
                texture_id@,
                *t,
            ),
            match lookup(old(self).registry(), old(self).cache(), texture_id@) {
                Lookup::Cached => {
                    &&& r matches Ok(t)
                    &&& *t == old(self).cache()[texture_id@]
                    &&& final(self).cache() == old(self).cache()
                },
                Lookup::Unknown => {
                    &&& r matches Err(BagError::UnknownTextureId(id)) && id == texture_id
                    &&& final(self).cache() == old(self).cache()
                },
                Lookup::Load(locator) => {
                    &&& !(r matches Err(BagError::UnknownTextureId(_)))
                    &&& (r matches Ok(t) ==> {
                        &&& final(self).cache() == old(self).cache().insert(texture_id@, *t)
                        &&& made_by(materialize, locator, Ok(*t))
                    })
                    &&& (r matches Err(BagError::Load(e)) ==> {
                        &&& final(self).cache() == old(self).cache()
                        &&& made_by(materialize, locator, Err(e))
                    })
                },
            },
    {
        proof {
            lemma_entries_map(self.textures@);
        }
        if let Some(i) = self.find(&texture_id) {
            proof {
                assert(self.cache()[texture_id@] == self.textures@[i as int].1);
            }
            return Ok(&self.textures[i].1);
        }
        let path = match self.config_data.locator(&texture_id) {
            Some(path) => path,
            None => {
                proof {
                    assert(lookup(self.registry(), self.cache(), texture_id@) == Lookup::Unknown);
                }
                return Err(BagError::UnknownTextureId(texture_id));
            },
        };
        let loaded = materialize(path);
        match loaded {
            Ok(t) => {
                let ghost old_cache = self.cache();
                let ghost handle = t;
                proof {
                    lemma_entries_map_push(self.textures@, (texture_id, t));
                }
                self.textures.push((texture_id, t));
                let last = self.textures.len() - 1;
                proof {
                    lemma_entries_map(self.textures@);
                    assert(self.cache().dom() =~= old_cache.dom().insert(texture_id@));
                    assert(ids_distinct(self.textures@)) by {
                        assert forall|a: int, b: int| 0 <= a < b < self.textures@.len() implies (
                        #[trigger] self.textures@[a]).0@ != (#[trigger] self.textures@[b]).0@ by {
                            if b == last {
                                assert(old_cache.contains_key(self.textures@[a].0@));
                            }
                        }
                    }
                }
                let r = &self.textures[last].1;
                proof {
                    assert(*r == handle);
                    assert(made_by(materialize, path@, Ok(*r)));
                }
                Ok(r)
            },
            Err(e) => {
                proof {
                    assert(made_by(materialize, path@, Err(e)));
                }
                Err(BagError::Load(e))
            },
        }
    }

    /// Evicts the cached handle for an identifier, if any. The registry is
    /// left as it is, so a later request materializes the texture again.
    pub fn forget(&mut self, texture_id: String)
        requires
            old(self).wf(),
        ensures
            final(self).wf(),
            final(self).registry() == old(self).registry(),
            final(self).cache() == old(self).cache().remove(texture_id@),
    {
        match self.find(&texture_id) {
            Some(i) => {
                proof {
                    lemma_entries_map_remove(self.textures@, i as int);
                }
                self.textures.remove(i);
            },
            None => {
                proof {
                    assert(self.cache().remove(texture_id@) =~= self.cache());
                }
            },
        }
    }
}

} // verus!
