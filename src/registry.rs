use vstd::prelude::*;

verus! {

/// The configuration file read when the caller names none.
pub const DEFAULT_CONFIG_PATH: &'static str = "texture_config.json";

/// The configuration path to read: the one given, else the default.
pub fn config_path_or_default(config_path: Option<String>) -> (r: String)
    ensures
        r@ == match config_path {
            Some(p) => p@,
            None => DEFAULT_CONFIG_PATH@,
        },
{
    match config_path {
        Some(p) => p,
        None => String::from_str(DEFAULT_CONFIG_PATH),
    }
}

/// serde_json::Error, carried through opaque: why a text failed to parse.
#[verifier::external_type_specification]
#[verifier::external_body]
pub struct ExJsonError(serde_json::Error);

/// Whether serde_json accepts the text as a JSON value.
pub uninterp spec fn is_json(text: Seq<char>) -> bool;

/// What serde_json reads, from a text it accepts, of the field `key` of the
/// top-level value: `None` when there is no such field, `Some(None)` when the
/// field is not an object, else the object's entries, each identifier with
/// the text of its value when that value is a string.
pub uninterp spec fn object_field(text: Seq<char>, key: Seq<char>) -> Option<
    Option<Seq<(Seq<char>, Option<Seq<char>>)>>,
>;

/// The entries of an object field, as plain sequences of characters.
pub open spec fn entries_view(entries: Seq<(String, Option<String>)>) -> Seq<
    (Seq<char>, Option<Seq<char>>),
> {
    entries.map_values(
        |e: (String, Option<String>)|
            (
                e.0@,
                match e.1 {
                    Some(s) => Some(s@),
                    None => None,
                },
            ),
    )
}

/// The object field read from a document, as plain sequences of characters.
pub open spec fn field_view(field: Option<Option<Vec<(String, Option<String>)>>>) -> Option<
    Option<Seq<(Seq<char>, Option<Seq<char>>)>>,
> {
    match field {
        None => None,
        Some(None) => Some(None),
        Some(Some(entries)) => Some(Some(entries_view(entries@))),
    }
}

/// Relies on serde_json::from_str to parse the text into a `serde_json::Value`,
/// and on `Value::get`, `Value::as_object` and `Value::as_str` to hand out the
/// field `key` as plain values. A JSON object is a keyed map, so no
/// identifier comes twice.
#[verifier::external_body]
fn read_object_field(text: &str, key: &str) -> (r: Result<
    Option<Option<Vec<(String, Option<String>)>>>,
    serde_json::Error,
>)
    ensures
        r is Ok <==> is_json(text@),
        r matches Ok(field) ==> field_view(field) == object_field(text@, key@),
        r matches Ok(Some(Some(entries))) ==> ids_distinct(entries@),
{
    let doc: serde_json::Value = serde_json::from_str(text)?;
    Ok(doc.get(key).map(|field| {
        field.as_object().map(|m| {
            m.iter().map(|(k, v)| (k.clone(), v.as_str().map(String::from))).collect()
        })
    }))
}

/// Why a configuration document could not be turned into a registry.
#[derive(Debug)]
pub enum ConfigError {
    /// serde_json does not accept the text as a JSON value.
    Syntax,
    /// The document has no `textures` field.
    MissingTextures,
    /// The `textures` field is not an object.
    TexturesNotObject,
    /// The value for this identifier is not a string.
    NotAPath(String),
}

/// True when no two entries share an identifier.
pub open spec fn ids_distinct<V>(entries: Seq<(String, V)>) -> bool {
    forall|i: int, j: int|
        0 <= i < j < entries.len() ==> (#[trigger] entries[i]).0@ != (#[trigger] entries[j]).0@
}

/// The map from identifier to value that a list of entries with distinct
/// identifiers describes.
pub open spec fn entries_map<V>(entries: Seq<(String, V)>) -> Map<Seq<char>, V>
    decreases entries.len(),
{
    if entries.len() == 0 {
        Map::empty()
    } else {
        let last = entries.last();
        entries_map(entries.drop_last()).insert(last.0@, last.1)
    }
}

/// What a list of entries with distinct identifiers maps each identifier to.
pub proof fn lemma_entries_map<V>(entries: Seq<(String, V)>)
    requires
        ids_distinct(entries),
    ensures
        forall|id: Seq<char>|
            #[trigger] entries_map(entries).contains_key(id) <==> exists|i: int|
                0 <= i < entries.len() && (#[trigger] entries[i]).0@ == id,
        forall|i: int|
            0 <= i < entries.len() ==> entries_map(entries).contains_key(#[trigger] entries[i].0@)
                && entries_map(entries)[entries[i].0@] == entries[i].1,
        entries_map(entries).dom().finite(),
        entries_map(entries).dom().len() == entries.len(),
    decreases entries.len(),
{
    if entries.len() > 0 {
        let prefix = entries.drop_last();
        assert(ids_distinct(prefix)) by {
            assert forall|i: int, j: int| 0 <= i < j < prefix.len() implies (
            #[trigger] prefix[i]).0@ != (#[trigger] prefix[j]).0@ by {
                assert(prefix[i] == entries[i] && prefix[j] == entries[j]);
            }
        }
        lemma_entries_map(prefix);
        let last = entries.last();
        assert(!entries_map(prefix).contains_key(last.0@)) by {
            if entries_map(prefix).contains_key(last.0@) {
                let i = choose|i: int| 0 <= i < prefix.len() && (#[trigger] prefix[i]).0@ == last.0@;
                assert(entries[i] == prefix[i]);
                assert(entries[entries.len() - 1] == last);
            }
        }
        assert forall|id: Seq<char>|
            #[trigger] entries_map(entries).contains_key(id) <==> exists|i: int|
                0 <= i < entries.len() && (#[trigger] entries[i]).0@ == id by {
            if entries_map(entries).contains_key(id) && id != last.0@ {
                let i = choose|i: int| 0 <= i < prefix.len() && (#[trigger] prefix[i]).0@ == id;
                assert(entries[i] == prefix[i]);
            }
            if exists|i: int| 0 <= i < entries.len() && (#[trigger] entries[i]).0@ == id {
                let i = choose|i: int| 0 <= i < entries.len() && (#[trigger] entries[i]).0@ == id;
                if i < entries.len() - 1 {
                    assert(prefix[i] == entries[i]);
                }
            }
        }
        assert forall|i: int| 0 <= i < entries.len() implies entries_map(entries).contains_key(
            #[trigger] entries[i].0@) && entries_map(entries)[entries[i].0@] == entries[i].1 by {
            if i < entries.len() - 1 {
                assert(prefix[i] == entries[i]);
            }
        }
    }
}

/// The registry: each texture identifier mapped to the locator of its image.
/// Built once from a configuration document and never changed afterwards.
pub struct Registry {
    entries: Vec<(String, String)>,
}

impl View for Registry {
    type V = Map<Seq<char>, Seq<char>>;

    open spec fn view(&self) -> Map<Seq<char>, Seq<char>> {
        entries_map(self.entries()).map_values(|p: String| p@)
    }
}

impl Registry {
    /// The entries in the order they were read.
    pub closed spec fn entries(&self) -> Seq<(String, String)> {
        self.entries@
    }

    /// No identifier occurs twice.
    pub open spec fn wf(&self) -> bool {
        ids_distinct(self.entries())
    }

    proof fn lemma_view(&self)
        requires
            self.wf(),
        ensures
            forall|id: Seq<char>|
                #[trigger] self@.contains_key(id) <==> exists|i: int|
                    0 <= i < self.entries@.len() && (#[trigger] self.entries@[i]).0@ == id,
            forall|i: int|
                0 <= i < self.entries@.len() ==> self@.contains_key(#[trigger] self.entries@[i].0@)
                    && self@[self.entries@[i].0@] == self.entries@[i].1@,
            self@.dom().finite(),
            self@.len() == self.entries@.len(),
    {
        lemma_entries_map(self.entries@);
        assert(self@.dom() =~= entries_map(self.entries@).dom());
    }

    /// Builds a registry from identifiers paired with what their value held:
    /// the text of a string value, or nothing for a value of another kind.
    /// Fails on the first identifier whose value is not a string.
    pub fn from_entries(entries: Vec<(String, Option<String>)>) -> (r: Result<Registry, ConfigError>)
        requires
            ids_distinct(entries@),
        ensures
            r is Ok <==> forall|i: int| 0 <= i < entries.len() ==> (#[trigger] entries@[i]).1 is Some,
            r matches Ok(reg) ==> {
                &&& reg.wf()
                &&& forall|id: Seq<char>|
                    #[trigger] reg@.contains_key(id) <==> exists|i: int|
                        0 <= i < entries.len() && (#[trigger] entries@[i]).0@ == id
                &&& forall|i: int|
                    0 <= i < entries.len() ==> #[trigger] reg@[entries@[i].0@] == entries@[i].1->Some_0@
            },
            r matches Err(e) ==> exists|k: int|
                0 <= k < entries.len() && (#[trigger] entries@[k]).1 is None && e == ConfigError::NotAPath(
                    entries@[k].0,
                ) && forall|i: int| 0 <= i < k ==> (#[trigger] entries@[i]).1 is Some,
    {
        let mut out: Vec<(String, String)> = Vec::new();
        let mut i: usize = 0;
        while i < entries.len()
            invariant
                i <= entries.len(),
                out.len() == i,
                forall|j: int| 0 <= j < i ==> (#[trigger] entries@[j]).1 is Some,
                forall|j: int|
                    0 <= j < i ==> (#[trigger] out@[j]).0 == entries@[j].0 && out@[j].1
                        == entries@[j].1->Some_0,
            decreases entries.len() - i,
        {
            match &entries[i].1 {
                Some(path) => {
                    out.push((entries[i].0.clone(), path.clone()));
                },
                None => {
                    return Err(ConfigError::NotAPath(entries[i].0.clone()));
                },
            }
            i += 1;
        }
        let reg = Registry { entries: out };
        proof {
            assert(ids_distinct(out@)) by {
                assert forall|a: int, b: int| 0 <= a < b < out@.len() implies (
                #[trigger] out@[a]).0@ != (#[trigger] out@[b]).0@ by {
                    assert(entries@[a].0@ != entries@[b].0@);
                }
            }
            reg.lemma_view();
            assert forall|id: Seq<char>|
                #[trigger] reg@.contains_key(id) <==> exists|i: int|
                    0 <= i < entries.len() && (#[trigger] entries@[i]).0@ == id by {
                if exists|i: int| 0 <= i < entries.len() && (#[trigger] entries@[i]).0@ == id {
                    let i = choose|i: int| 0 <= i < entries.len() && (#[trigger] entries@[i]).0@ == id;
                    assert(out@[i].0@ == id);
                }
                if reg@.contains_key(id) {
                    let i = choose|i: int| 0 <= i < out@.len() && (#[trigger] out@[i]).0@ == id;
                    assert(entries@[i].0 == out@[i].0);
                }
            }
            assert forall|i: int| 0 <= i < entries.len() implies #[trigger] reg@[entries@[i].0@]
                == entries@[i].1->Some_0@ by {
                assert(out@[i].0 == entries@[i].0);
            }
        }
        Ok(reg)
    }

    /// Reads a configuration document: a JSON object whose `textures` field
    /// is an object mapping each texture identifier to a locator string.
    /// Fails, in this order, on a text that is not JSON, on a missing
    /// `textures` field, on a `textures` field that is not an object, and on
    /// the first identifier whose value is not a string.
    pub fn from_json(text: &str) -> (r: Result<Registry, ConfigError>)
        ensures
            r matches Err(ConfigError::Syntax) <==> !is_json(text@),
            r matches Err(ConfigError::MissingTextures) <==> is_json(text@) && object_field(
                text@,
                "textures"@,
            ) is None,
            r matches Err(ConfigError::TexturesNotObject) <==> is_json(text@) && object_field(
                text@,
                "textures"@,
            ) == Some(None::<Seq<(Seq<char>, Option<Seq<char>>)>>),
            r is Ok ==> is_json(text@),
            is_json(text@) ==> match object_field(text@, "textures"@) {
                Some(Some(entries)) => {
                    &&& r is Ok <==> forall|i: int|
                        0 <= i < entries.len() ==> (#[trigger] entries[i]).1 is Some
                    &&& r matches Ok(reg) ==> {
                        &&& reg.wf()
                        &&& forall|id: Seq<char>|
                            #[trigger] reg@.contains_key(id) <==> exists|i: int|
                                0 <= i < entries.len() && (#[trigger] entries[i]).0 == id
                        &&& forall|i: int|
                            0 <= i < entries.len() ==> #[trigger] reg@[entries[i].0]
                                == entries[i].1->Some_0
                    }
                    &&& r matches Err(ConfigError::NotAPath(id)) ==> exists|k: int|
                        0 <= k < entries.len() && (#[trigger] entries[k]).1 is None && id@
                            == entries[k].0 && forall|i: int|
                            0 <= i < k ==> (#[trigger] entries[i]).1 is Some
                },
                _ => r is Err,
            },
    {
        match read_object_field(text, "textures") {
            Err(_) => Err(ConfigError::Syntax),
            Ok(None) => Err(ConfigError::MissingTextures),
            Ok(Some(None)) => Err(ConfigError::TexturesNotObject),
            Ok(Some(Some(entries))) => {
                let ghost es = entries_view(entries@);
                let ghost ev = entries@;
                let r = Registry::from_entries(entries);
                proof {
                    assert forall|i: int| 0 <= i < ev.len() implies (#[trigger] es[i]).0 == ev[i].0@
                        && (es[i].1 is Some <==> ev[i].1 is Some) && (ev[i].1 is Some ==> es[i].1->Some_0
                        == ev[i].1->Some_0@) by {}
                    assert((r is Ok) <==> forall|i: int| 0 <= i < es.len() ==> (#[trigger] es[i]).1 is Some) by {
                        if !(r is Ok) {
                            let k = choose|k: int| 0 <= k < ev.len() && (#[trigger] ev[k]).1 is None;
                            assert(es[k].1 is None);
                        }
                        if r is Ok {
                            assert forall|i: int| 0 <= i < es.len() implies (#[trigger] es[i]).1 is Some by {
                                assert(ev[i].1 is Some);
                            }
                        }
                    }
                    if r is Ok {
                        let reg = r->Ok_0;
                        assert forall|id: Seq<char>| #[trigger] reg@.contains_key(id) <==> exists|i: int|
                            0 <= i < es.len() && (#[trigger] es[i]).0 == id by {
                            if reg@.contains_key(id) {
                                let i = choose|i: int| 0 <= i < ev.len() && (#[trigger] ev[i]).0@ == id;
                                assert(es[i].0 == id);
                            }
                            if exists|i: int| 0 <= i < es.len() && (#[trigger] es[i]).0 == id {
                                let i = choose|i: int| 0 <= i < es.len() && (#[trigger] es[i]).0 == id;
                                assert(ev[i].0@ == id);
                            }
                        }
                        assert forall|i: int| 0 <= i < es.len() implies #[trigger] reg@[es[i].0]
                            == es[i].1->Some_0 by {
                            assert(ev[i].0@ == es[i].0);
                            assert(reg@[ev[i].0@] == ev[i].1->Some_0@);
                        }
                    }
                    if r is Err && r->Err_0 is NotAPath {
                        let id = r->Err_0->NotAPath_0;
                        let k = choose|k: int|
                            0 <= k < ev.len() && (#[trigger] ev[k]).1 is None && r->Err_0 == ConfigError::NotAPath(
                                ev[k].0,
                            ) && forall|i: int| 0 <= i < k ==> (#[trigger] ev[i]).1 is Some;
                        assert(es[k].1 is None && id@ == es[k].0);
                        assert forall|i: int| 0 <= i < k implies (#[trigger] es[i]).1 is Some by {
                            assert(ev[i].1 is Some);
                        }
                    }
                }
                r
            },
        }
    }

    /// The locator registered for an identifier, if any.
    pub fn locator(&self, texture_id: &String) -> (r: Option<&String>)
        requires
            self.wf(),
        ensures
            r is Some <==> self@.contains_key(texture_id@),
            r matches Some(p) ==> p@ == self@[texture_id@],
    {
        let mut i: usize = 0;
        while i < self.entries.len()
            invariant
                self.wf(),
                i <= self.entries.len(),
                forall|j: int| 0 <= j < i ==> (#[trigger] self.entries@[j]).0@ != texture_id@,
            decreases self.entries.len() - i,
        {
            if self.entries[i].0 == *texture_id {
                proof {
                    self.lemma_view();
                }
                return Some(&self.entries[i].1);
            }
            i += 1;
        }
        proof {
            self.lemma_view();
        }
        None
    }

    /// The identifiers, in the order they were read.
    pub fn ids(&self) -> (r: Vec<String>)
        requires
            self.wf(),
        ensures
            r.len() == self@.len(),
            forall|i: int| 0 <= i < r.len() ==> self@.contains_key(#[trigger] r@[i]@),
            forall|id: Seq<char>|
                #[trigger] self@.contains_key(id) ==> exists|i: int| 0 <= i < r.len() && (#[trigger] r@[i])@ == id,
            forall|i: int, j: int| 0 <= i < j < r.len() ==> (#[trigger] r@[i])@ != (#[trigger] r@[j])@,
    {
        proof {
            self.lemma_view();
        }
        let mut out: Vec<String> = Vec::new();
        let mut i: usize = 0;
        while i < self.entries.len()
            invariant
                i <= self.entries.len(),
                out.len() == i,
                forall|j: int| 0 <= j < i ==> (#[trigger] out@[j]) == self.entries@[j].0,
            decreases self.entries.len() - i,
        {
            out.push(self.entries[i].0.clone());
            i += 1;
        }
        proof {
            assert forall|a: int, b: int| 0 <= a < b < out.len() implies (#[trigger] out@[a])@
                != (#[trigger] out@[b])@ by {
                assert(self.entries@[a].0@ != self.entries@[b].0@);
            }
            self.lemma_view();
            assert forall|id: Seq<char>| #[trigger] self@.contains_key(id) implies exists|i: int|
                0 <= i < out.len() && (#[trigger] out@[i])@ == id by {
                let i = choose|i: int| 0 <= i < self.entries@.len() && (#[trigger] self.entries@[i]).0@ == id;
                assert(out@[i] == self.entries@[i].0);
            }
        }
        out
    }

    /// The number of identifiers.
    pub fn len(&self) -> (r: usize)
        requires
            self.wf(),
        ensures
            r == self@.len(),
    {
        proof {
            self.lemma_view();
        }
        self.entries.len()
    }
}

} // verus!
