//! The models that the service offers: which are of use, in what order, and
//! which is taken for what.
use vstd::prelude::*;

use crate::order;
use crate::order::Reversed;
use crate::order::Then;
use crate::score::Score;
use crate::select;
use crate::text;
use crate::text::chars::CharClass;
use crate::text::edit;
use crate::text::find;
use crate::text::split;

verus! {

/// What a model is for.
#[derive(Clone, Copy, Debug, PartialEq, Eq, Structural)]
pub enum ModelCategory {
    /// Answers.
    Chat,
    /// Vectors.
    Embedding,
}

/// A model.
#[derive(Debug)]
pub struct ModelInfo {
    /// Its identifier.
    pub id: String,
    /// Its name.
    pub display_name: String,
    /// What it is for.
    pub category: ModelCategory,
    /// Its version.
    pub version: Score,
    /// Its variant: "flash", "pro", "lite" or "embedding".
    pub variant: String,
}

impl Clone for ModelInfo {
    fn clone(&self) -> (r: Self)
        ensures
            r == *self,
    {
        ModelInfo {
            id: self.id.clone(),
            display_name: self.display_name.clone(),
            category: self.category,
            version: self.version,
            variant: self.variant.clone(),
        }
    }
}

/// The model that makes the vectors.
#[derive(Debug)]
pub struct ActiveEmbedding {
    /// Its identifier.
    pub model_id: String,
    /// The length of its vectors.
    pub dimension: usize,
}

impl Clone for ActiveEmbedding {
    fn clone(&self) -> (r: Self)
        ensures
            r == *self,
    {
        ActiveEmbedding { model_id: self.model_id.clone(), dimension: self.dimension }
    }
}

/// The model that answers where the service was not asked yet.
pub const DEFAULT_CHAT_MODEL: &'static str = "gemini-2.0-flash";

/// The model that makes the vectors.
pub const DEFAULT_EMBED_MODEL: &'static str = "gemini-embedding-001";

/// The length of the vectors.
pub const DEFAULT_EMBED_DIM: usize = 768;

/// How long, in seconds, the list of models is used.
pub const CACHE_TTL_SECS: u64 = 86400;

/// Parts of the names of models that are for something else.
pub const SPECIAL_MODELS: [&'static str; 12] = [
    "tts", "image", "robotics", "computer", "deep-research", "nano", "banana", "embedding", "aqa",
    "exp", "1206", "-lite",
];

/// How the name of a model that answers may end.
pub const CHAT_ENDINGS: [&'static str; 4] = ["flash", "pro", "preview", "latest"];

/// A model that answers: "gemini-", at most four parts, one of the endings,
/// and nothing special in its name.
pub open spec fn chat_model(id: Seq<char>) -> bool {
    let parts = split::pieces(id, CharClass::Is('-'));
    &&& find::begins(id, "gemini-"@)
    &&& !find::occurs_any(id, SPECIAL_MODELS@)
    &&& parts.len() <= 4
    &&& find::is_any(parts.last(), CHAT_ENDINGS@)
}

/// Whether a model answers.
pub fn is_chat_model(id: &str) -> (r: bool)
    ensures
        r == chat_model(id@),
{
    if !find::starts_with(id, "gemini-") || find::contains_any(id, SPECIAL_MODELS.as_slice()) {
        return false;
    }
    let parts: Vec<String> = split::split(id, CharClass::Is('-'));
    let ghost ps = text::views(parts@);
    assert(ps.len() == parts@.len());
    if parts.len() > 4 {
        return false;
    }
    let last: &str = parts[parts.len() - 1].as_str();
    assert(last@ == ps.last());
    find::same_as_any(last, CHAT_ENDINGS.as_slice())
}

/// Whether a model makes vectors.
pub fn is_embedding_model(id: &str) -> (r: bool)
    ensures
        r == find::occurs(id@, "embedding"@),
{
    find::contains(id, "embedding")
}

/// The order of the variants: "flash" before "pro" before all others.
pub open spec fn priority(variant: Seq<char>) -> u8 {
    if variant == "flash"@ {
        0
    } else if variant == "pro"@ {
        1
    } else {
        2
    }
}

/// The place of a variant in the order.
pub fn variant_priority(variant: &str) -> (r: u8)
    ensures
        r == priority(variant@),
{
    if find::same(variant, "flash") {
        0
    } else if find::same(variant, "pro") {
        1
    } else {
        2
    }
}

/// The variants that a part of a name may be.
pub const VARIANTS: [&'static str; 3] = ["flash", "pro", "lite"];

/// The last of the parts that is a variant; nothing where there is none.
pub open spec fn last_variant(parts: Seq<Seq<char>>) -> Seq<char>
    decreases parts.len(),
{
    if parts.len() == 0 {
        Seq::empty()
    } else if find::is_any(parts.last(), VARIANTS@) {
        parts.last()
    } else {
        last_variant(parts.drop_last())
    }
}

/// The variant of a model.
pub open spec fn variant_of(id: Seq<char>) -> Seq<char> {
    let v = last_variant(split::pieces(id, CharClass::Is('-')));
    if v.len() == 0 && find::occurs(id, "embedding"@) {
        "embedding"@
    } else {
        v
    }
}

/// What tells the version of a model.
#[derive(Debug)]
pub struct VersionParts {
    /// The parts of its name, of which the last that is a number is its
    /// version.
    pub parts: Vec<String>,
    /// The number at its end counts hundredths.
    pub hundredths: bool,
    /// Its variant.
    pub variant: String,
}

/// Takes the name of a model apart.
pub fn version_parts(id: &str) -> (r: VersionParts)
    ensures
        text::views(r.parts@) == split::pieces(id@, CharClass::Is('-')),
        r.variant@ == variant_of(id@),
        r.hundredths == (last_variant(split::pieces(id@, CharClass::Is('-'))).len() == 0
            && find::occurs(id@, "embedding"@)),
{
    let parts: Vec<String> = split::split(id, CharClass::Is('-'));
    let ghost ps = text::views(parts@);
    let mut n: usize = parts.len();
    assert(ps.take(ps.len() as int) =~= ps);
    let mut variant: String = String::new();
    let mut found: bool = false;
    while n > 0 && !found
        invariant
            n <= parts@.len(),
            ps == text::views(parts@),
            found ==> variant@ == last_variant(ps),
            !found ==> variant@.len() == 0 && last_variant(ps) == last_variant(ps.take(n as int)),
        decreases n,
    {
        assert(ps.take(n as int).drop_last() =~= ps.take(n - 1));
        assert(ps.take(n as int).last() == ps[n - 1]);
        n -= 1;
        if find::same_as_any(parts[n].as_str(), VARIANTS.as_slice()) {
            variant = parts[n].clone();
            found = true;
        }
    }
    assert(variant@ =~= last_variant(ps));
    let hundredths: bool = variant.as_str().is_empty() && find::contains(id, "embedding");
    if hundredths {
        variant = edit::owned("embedding");
    }
    VersionParts { parts, hundredths, variant }
}

/// A model as the service lists it.
#[derive(Debug)]
pub struct ModelEntry {
    /// Its name, "models/" and its identifier.
    pub name: String,
    /// The name that is shown.
    pub display_name: Option<String>,
    /// What it can do.
    pub methods: Option<Vec<String>>,
}

/// The identifier of a listed model.
pub open spec fn entry_id(entry: ModelEntry) -> Seq<char> {
    edit::replaced(entry.name@, "models/"@, Seq::empty())
}

/// The identifier of a listed model.
pub fn model_id(entry: &ModelEntry) -> (r: String)
    ensures
        r@ == entry_id(*entry),
{
    proof {
        reveal_strlit("");
        assert(""@ =~= Seq::<char>::empty());
    }
    edit::replace(entry.name.as_str(), "models/", "")
}

/// A listed model can do something.
pub open spec fn can(entry: ModelEntry, method: Seq<char>) -> bool {
    match entry.methods {
        Some(methods) => text::views(methods@).contains(method),
        None => false,
    }
}

/// Whether a listed model can do something.
pub fn supports(entry: &ModelEntry, method: &str) -> (r: bool)
    ensures
        r == can(*entry, method@),
{
    match &entry.methods {
        Some(methods) => {
            let ghost ms = text::views(methods@);
            let mut i: usize = 0;
            while i < methods.len()
                invariant
                    i <= methods@.len(),
                    entry.methods == Some(*methods),
                    ms == text::views(methods@),
                    forall|j: int| 0 <= j < i ==> ms[j] != method@,
                decreases methods@.len() - i,
            {
                if find::same(methods[i].as_str(), method) {
                    assert(ms[i as int] == method@);
                    assert(ms.contains(method@));
                    return true;
                }
                i += 1;
            }
            false
        },
        None => false,
    }
}

/// What a listed model is for, if it is of use.
pub open spec fn category_of(entry: ModelEntry) -> Option<ModelCategory> {
    let id = entry_id(entry);
    if can(entry, "embedContent"@) && find::occurs(id, "embedding"@) {
        Some(ModelCategory::Embedding)
    } else if can(entry, "generateContent"@) && chat_model(id) {
        Some(ModelCategory::Chat)
    } else {
        None
    }
}

/// What a listed model is for, if it is of use.
pub fn classify(entry: &ModelEntry) -> (r: Option<ModelCategory>)
    ensures
        r == category_of(*entry),
{
    let id: String = model_id(entry);
    if supports(entry, "embedContent") && is_embedding_model(id.as_str()) {
        Some(ModelCategory::Embedding)
    } else if supports(entry, "generateContent") && is_chat_model(id.as_str()) {
        Some(ModelCategory::Chat)
    } else {
        None
    }
}

/// `m` is the listed model, with its version.
pub open spec fn is_info(m: ModelInfo, entry: ModelEntry, version: Score) -> bool {
    let id = entry_id(entry);
    &&& m.id@ == id
    &&& m.display_name@ == match entry.display_name {
        Some(name) => name@,
        None => id,
    }
    &&& category_of(entry) == Some(m.category)
    &&& m.version == version
    &&& m.variant@ == variant_of(id)
}

/// The places of the listed models of a category.
pub open spec fn places_of(entries: Seq<ModelEntry>, category: ModelCategory) -> Seq<int>
    decreases entries.len(),
{
    if entries.len() == 0 {
        Seq::empty()
    } else if category_of(entries.last()) == Some(category) {
        places_of(entries.drop_last(), category).push(entries.len() - 1)
    } else {
        places_of(entries.drop_last(), category)
    }
}

/// `models` are the listed models of a category, in the order of the list.
pub open spec fn are_models(
    models: Seq<ModelInfo>,
    entries: Seq<ModelEntry>,
    versions: Seq<Score>,
    category: ModelCategory,
) -> bool {
    let places = places_of(entries, category);
    &&& models.len() == places.len()
    &&& forall|i: int|
        0 <= i < models.len() ==> is_info(
            #[trigger] models[i],
            entries[places[i]],
            versions[places[i]],
        )
}

proof fn lemma_places(entries: Seq<ModelEntry>, category: ModelCategory)
    ensures
        forall|i: int|
            0 <= i < places_of(entries, category).len() ==> 0 <= #[trigger] places_of(
                entries,
                category,
            )[i] < entries.len(),
    decreases entries.len(),
{
    if entries.len() > 0 {
        lemma_places(entries.drop_last(), category);
        let before = places_of(entries.drop_last(), category);
        let all = places_of(entries, category);
        assert forall|i: int| 0 <= i < all.len() implies 0 <= #[trigger] all[i] < entries.len() by {
            if i < before.len() {
                assert(all[i] == before[i]);
            }
        }
    }
}

/// The listed models of a category, in the order of the list.
pub fn models_of(
    entries: &Vec<ModelEntry>,
    versions: &Vec<Score>,
    category: ModelCategory,
) -> (r: Vec<ModelInfo>)
    requires
        entries@.len() == versions@.len(),
    ensures
        are_models(r@, entries@, versions@, category),
{
    let mut out: Vec<ModelInfo> = Vec::new();
    let mut i: usize = 0;
    while i < entries.len()
        invariant
            i <= entries@.len(),
            entries@.len() == versions@.len(),
            are_models(out@, entries@.take(i as int), versions@, category),
        decreases entries@.len() - i,
    {
        let ghost before = places_of(entries@.take(i as int), category);
        proof {
            assert(entries@.take(i + 1).drop_last() =~= entries@.take(i as int));
            lemma_places(entries@.take(i as int), category);
        }
        let ghost so_far = out@;
        let fits: bool = match classify(&entries[i]) {
            Some(c) => c == category,
            None => false,
        };
        if fits {
            let id: String = model_id(&entries[i]);
            let display_name: String = match &entries[i].display_name {
                Some(name) => name.clone(),
                None => id.clone(),
            };
            let parts: VersionParts = version_parts(id.as_str());
            out.push(
                ModelInfo {
                    id,
                    display_name,
                    category,
                    version: versions[i],
                    variant: parts.variant,
                },
            );
        }
        proof {
            let places = places_of(entries@.take(i + 1), category);
            assert forall|k: int| 0 <= k < out@.len() implies is_info(
                #[trigger] out@[k],
                entries@.take(i + 1)[places[k]],
                versions@[places[k]],
            ) by {
                if k < so_far.len() {
                    assert(out@[k] == so_far[k]);
                    assert(places[k] == before[k]);
                    assert(entries@.take(i as int)[before[k]] == entries@.take(i + 1)[before[k]]);
                }
            }
        }
        i += 1;
    }
    assert(entries@.take(entries@.len() as int) =~= entries@);
    out
}

/// The keys of models that answer: the highest version first, then by variant.
pub open spec fn chat_keys(models: Seq<ModelInfo>) -> Seq<Then<Reversed<i128>, i128>> {
    Seq::new(
        models.len(),
        |i: int|
            Then {
                major: Reversed { key: models[i].version.rank() as i128 },
                minor: priority(models[i].variant@) as i128,
            },
    )
}

/// The keys of models that make vectors: the highest version first.
pub open spec fn embed_keys(models: Seq<ModelInfo>) -> Seq<Reversed<i128>> {
    Seq::new(models.len(), |i: int| Reversed { key: models[i].version.rank() as i128 })
}

/// Puts models that answer in order.
pub fn sort_chat(models: Vec<ModelInfo>) -> (r: Vec<ModelInfo>)
    ensures
        exists|p: Seq<int>| #[trigger]
            order::is_order(p, chat_keys(models@)) && r@ == order::arranged(models@, p),
{
    let mut keys: Vec<Then<Reversed<i128>, i128>> = Vec::new();
    let mut i: usize = 0;
    while i < models.len()
        invariant
            i <= models@.len(),
            keys@ == chat_keys(models@).take(i as int),
        decreases models@.len() - i,
    {
        keys.push(
            Then {
                major: Reversed { key: models[i].version.to_rank() },
                minor: variant_priority(models[i].variant.as_str()) as i128,
            },
        );
        i += 1;
    }
    assert(keys@ =~= chat_keys(models@));
    let p: Vec<usize> = order::sorted_positions(&keys);
    proof {
        order::lemma_order_distinct(order::positions(p@), chat_keys(models@));
    }
    order::arrange(models, &p)
}

/// Puts models that make vectors in order.
pub fn sort_embedding(models: Vec<ModelInfo>) -> (r: Vec<ModelInfo>)
    ensures
        exists|p: Seq<int>| #[trigger]
            order::is_order(p, embed_keys(models@)) && r@ == order::arranged(models@, p),
{
    let mut keys: Vec<Reversed<i128>> = Vec::new();
    let mut i: usize = 0;
    while i < models.len()
        invariant
            i <= models@.len(),
            keys@ == embed_keys(models@).take(i as int),
        decreases models@.len() - i,
    {
        keys.push(Reversed { key: models[i].version.to_rank() });
        i += 1;
    }
    assert(keys@ =~= embed_keys(models@));
    let p: Vec<usize> = order::sorted_positions(&keys);
    proof {
        order::lemma_order_distinct(order::positions(p@), embed_keys(models@));
    }
    order::arrange(models, &p)
}

/// The models that the service offers, and the one that makes the vectors.
#[derive(Debug)]
pub struct ModelRegistry {
    /// The models.
    pub models: Vec<ModelInfo>,
    /// The model that makes the vectors.
    pub active_embedding: ActiveEmbedding,
    /// When the service was last asked, in seconds.
    pub last_refresh: Option<u64>,
}

/// The first model that answers and has a variant, from `i` on.
pub open spec fn first_chat(models: Seq<ModelInfo>, variant: Option<Seq<char>>, i: int) -> Option<
    int,
>
    decreases models.len() - i,
{
    if i >= models.len() {
        None
    } else if models[i].category == ModelCategory::Chat && (variant is None || variant == Some(
        models[i].variant@,
    )) {
        Some(i)
    } else {
        first_chat(models, variant, i + 1)
    }
}

/// The models of a category, in order.
pub open spec fn of_category(models: Seq<ModelInfo>, category: ModelCategory) -> Seq<ModelInfo>
    decreases models.len(),
{
    if models.len() == 0 {
        models
    } else if models.last().category == category {
        of_category(models.drop_last(), category).push(models.last())
    } else {
        of_category(models.drop_last(), category)
    }
}

/// The model that answers where none is chosen: the first "flash", else the
/// first that answers, else the standard one.
pub open spec fn best_chat(models: Seq<ModelInfo>) -> Seq<char> {
    match first_chat(models, Some("flash"@), 0) {
        Some(i) => models[i].id@,
        None => match first_chat(models, None, 0) {
            Some(i) => models[i].id@,
            None => DEFAULT_CHAT_MODEL@,
        },
    }
}

/// The model that helps along: the first "flash", else the standard one.
pub open spec fn best_utility(models: Seq<ModelInfo>) -> Seq<char> {
    match first_chat(models, Some("flash"@), 0) {
        Some(i) => models[i].id@,
        None => DEFAULT_CHAT_MODEL@,
    }
}

fn find_chat(models: &Vec<ModelInfo>, flash: bool) -> (r: Option<usize>)
    ensures
        ({
            let variant = if flash {
                Some("flash"@)
            } else {
                None
            };
            match r {
                Some(i) => first_chat(models@, variant, 0) == Some(i as int) && i < models@.len(),
                None => first_chat(models@, variant, 0) is None,
            }
        }),
{
    let ghost variant = if flash {
        Some("flash"@)
    } else {
        None
    };
    let mut i: usize = 0;
    while i < models.len()
        invariant
            i <= models@.len(),
            variant == if flash {
                Some("flash"@)
            } else {
                None
            },
            first_chat(models@, variant, 0) == first_chat(models@, variant, i as int),
        decreases models@.len() - i,
    {
        let chat: bool = models[i].category == ModelCategory::Chat;
        if chat && (!flash || find::same(models[i].variant.as_str(), "flash")) {
            return Some(i);
        }
        i += 1;
    }
    None
}

/// What comes of asking the service for its models.
#[derive(Debug)]
pub enum ListReply {
    /// The service was not reached.
    Unreached(String),
    /// The reply could not be read.
    Unread(String),
    /// The service refused, with this status.
    Refused(String),
    /// The reply is no list.
    Unparsed(String),
    /// The models, with the version of each.
    Listed(Vec<ModelEntry>, Vec<Score>),
}

impl ModelRegistry {
    /// No models yet, and the standard model for vectors.
    pub fn new() -> (r: ModelRegistry)
        ensures
            r.models@.len() == 0,
            r.active_embedding.model_id@ == DEFAULT_EMBED_MODEL@,
            r.active_embedding.dimension == DEFAULT_EMBED_DIM,
            r.last_refresh is None,
    {
        ModelRegistry {
            models: Vec::new(),
            active_embedding: ActiveEmbedding {
                model_id: edit::owned(DEFAULT_EMBED_MODEL),
                dimension: DEFAULT_EMBED_DIM,
            },
            last_refresh: None,
        }
    }

    /// The list of models is that of the service: the models that answer in
    /// order, then those that make vectors in order.
    pub open spec fn lists(self, entries: Seq<ModelEntry>, versions: Seq<Score>) -> bool {
        exists|chat: Seq<ModelInfo>, embed: Seq<ModelInfo>, p: Seq<int>, q: Seq<int>|
            #![trigger order::arranged(chat, p), order::arranged(embed, q)]
            {
                &&& are_models(chat, entries, versions, ModelCategory::Chat)
                &&& are_models(embed, entries, versions, ModelCategory::Embedding)
                &&& order::is_order(p, chat_keys(chat))
                &&& order::is_order(q, embed_keys(embed))
                &&& self.models@ == order::arranged(chat, p) + order::arranged(embed, q)
            }
    }

    /// What the service says of its models is taken over, or why there is
    /// nothing to take over. The model that makes the vectors stays.
    pub fn refresh(&mut self, api_key: &str, reply: ListReply, now: u64) -> (r: Result<(), String>)
        requires
            reply matches ListReply::Listed(entries, versions) ==> entries@.len()
                == versions@.len(),
        ensures
            final(self).active_embedding == old(self).active_embedding,
            r is Err ==> *final(self) == *old(self),
            if api_key@.len() == 0 {
                r matches Err(m) && m@ == "API key rỗng"@
            } else {
                match reply {
                    ListReply::Unreached(e) => r matches Err(m) && m@ == "Network: "@ + e@,
                    ListReply::Unread(e) => r matches Err(m) && m@ == "Read: "@ + e@,
                    ListReply::Refused(status) => r matches Err(m) && m@ == "HTTP "@ + status@,
                    ListReply::Unparsed(e) => r matches Err(m) && m@ == "Parse: "@ + e@,
                    ListReply::Listed(entries, versions) => {
                        &&& r is Ok
                        &&& final(self).lists(entries@, versions@)
                        &&& final(self).last_refresh == Some(now)
                    },
                }
            },
    {
        if api_key.is_empty() {
            return Err(edit::owned("API key rỗng"));
        }
        match reply {
            ListReply::Unreached(e) => Err(edit::concat2("Network: ", e.as_str())),
            ListReply::Unread(e) => Err(edit::concat2("Read: ", e.as_str())),
            ListReply::Refused(status) => Err(edit::concat2("HTTP ", status.as_str())),
            ListReply::Unparsed(e) => Err(edit::concat2("Parse: ", e.as_str())),
            ListReply::Listed(entries, versions) => {
                self.install(&entries, &versions, now);
                Ok(())
            },
        }
    }

    /// Takes over the list of the service: the models that answer in order,
    /// then those that make vectors in order. `versions` has the version of
    /// each entry. The model that makes the vectors stays.
    pub fn install(&mut self, entries: &Vec<ModelEntry>, versions: &Vec<Score>, now: u64)
        requires
            entries@.len() == versions@.len(),
        ensures
            final(self).lists(entries@, versions@),
            final(self).active_embedding == old(self).active_embedding,
            final(self).last_refresh == Some(now),
    {
        let chat: Vec<ModelInfo> = models_of(entries, versions, ModelCategory::Chat);
        let embed: Vec<ModelInfo> = models_of(entries, versions, ModelCategory::Embedding);
        let ghost c = chat@;
        let ghost e = embed@;
        let mut all: Vec<ModelInfo> = sort_chat(chat);
        let mut rest: Vec<ModelInfo> = sort_embedding(embed);
        proof {
            let p = choose|p: Seq<int>| #[trigger]
                order::is_order(p, chat_keys(c)) && all@ == order::arranged(c, p);
            let q = choose|q: Seq<int>| #[trigger]
                order::is_order(q, embed_keys(e)) && rest@ == order::arranged(e, q);
            assert(all@ + rest@ == order::arranged(c, p) + order::arranged(e, q));
        }
        let ghost front = all@;
        let ghost back = rest@;
        all.append(&mut rest);
        assert(all@ =~= front + back);
        self.models = all;
        self.last_refresh = Some(now);
    }

    /// The list is older than a day, or was never fetched.
    pub open spec fn stale(&self, now: u64) -> bool {
        match self.last_refresh {
            Some(t) => crate::session::age(t, now) > CACHE_TTL_SECS,
            None => true,
        }
    }

    /// Whether the list is to be fetched again.
    pub fn is_stale(&self, now: u64) -> (r: bool)
        ensures
            r == self.stale(now),
    {
        match self.last_refresh {
            Some(t) => crate::session::seconds_since(t, now) > CACHE_TTL_SECS,
            None => true,
        }
    }

    /// The model that answers: the one chosen, or the best where the choice is
    /// left open.
    pub fn resolve_chat(&self, user_preference: Option<&str>) -> (r: String)
        ensures
            r@ == match user_preference {
                Some(choice) => if choice@.len() > 0 && choice@ != "auto"@ {
                    choice@
                } else {
                    best_chat(self.models@)
                },
                None => best_chat(self.models@),
            },
    {
        if let Some(choice) = user_preference {
            if !choice.is_empty() && !find::same(choice, "auto") {
                return edit::owned(choice);
            }
        }
        match find_chat(&self.models, true) {
            Some(i) => self.models[i].id.clone(),
            None => match find_chat(&self.models, false) {
                Some(i) => self.models[i].id.clone(),
                None => edit::owned(DEFAULT_CHAT_MODEL),
            },
        }
    }

    /// The model that helps along.
    pub fn resolve_utility(&self) -> (r: String)
        ensures
            r@ == best_utility(self.models@),
    {
        match find_chat(&self.models, true) {
            Some(i) => self.models[i].id.clone(),
            None => edit::owned(DEFAULT_CHAT_MODEL),
        }
    }

    /// The model that makes the vectors.
    pub fn resolve_embedding(&self) -> (r: ActiveEmbedding)
        ensures
            r == self.active_embedding,
    {
        self.active_embedding.clone()
    }

    /// Changes the model that makes the vectors.
    pub fn set_active_embedding(&mut self, model_id: &str, dimension: usize)
        ensures
            final(self).active_embedding.model_id@ == model_id@,
            final(self).active_embedding.dimension == dimension,
            final(self).models == old(self).models,
            final(self).last_refresh == old(self).last_refresh,
    {
        self.active_embedding = ActiveEmbedding { model_id: edit::owned(model_id), dimension };
    }

    fn list(&self, category: ModelCategory) -> (r: Vec<ModelInfo>)
        ensures
            r@ == of_category(self.models@, category),
    {
        let mut out: Vec<ModelInfo> = Vec::new();
        let mut i: usize = 0;
        while i < self.models.len()
            invariant
                i <= self.models@.len(),
                out@ == of_category(self.models@.take(i as int), category),
            decreases self.models@.len() - i,
        {
            assert(self.models@.take(i + 1).drop_last() =~= self.models@.take(i as int));
            if self.models[i].category == category {
                out.push(self.models[i].clone());
            }
            i += 1;
        }
        assert(self.models@.take(self.models@.len() as int) =~= self.models@);
        out
    }

    /// The models that answer.
    pub fn list_chat_models(&self) -> (r: Vec<ModelInfo>)
        ensures
            r@ == of_category(self.models@, ModelCategory::Chat),
    {
        self.list(ModelCategory::Chat)
    }

    /// The models that make vectors.
    pub fn list_embedding_models(&self) -> (r: Vec<ModelInfo>)
        ensures
            r@ == of_category(self.models@, ModelCategory::Embedding),
    {
        self.list(ModelCategory::Embedding)
    }

    /// Whether there are models.
    pub fn is_loaded(&self) -> (r: bool)
        ensures
            r == (self.models@.len() > 0),
    {
        self.models.len() > 0
    }
}

/// The listed models of a category are exactly those that are for it, in order.
pub proof fn law_places_of(entries: Seq<ModelEntry>, category: ModelCategory)
    ensures
        select::exactly(
            places_of(entries, category),
            entries.len() as int,
            |i: int| category_of(entries[i]) == Some(category),
        ),
{
    let p = |i: int| category_of(entries[i]) == Some(category);
    let f = |n: int| places_of(entries.take(n), category);
    assert forall|n: int| 0 < n <= entries.len() implies #[trigger] f(n) == if p(n - 1) {
        f(n - 1).push(n - 1)
    } else {
        f(n - 1)
    } by {
        assert(entries.take(n).drop_last() =~= entries.take(n - 1));
    }
    assert(entries.take(entries.len() as int) =~= entries);
    let ps = select::lemma_exactly(entries.len() as int, p, |i: int| i, f);
    assert(places_of(entries, category) =~= ps);
}

/// What a listed model is for: making vectors where it can and its name says so,
/// else answering where it can and is a model that answers.
pub proof fn law_category(entry: ModelEntry)
    ensures
        ({
            let id = entry_id(entry);
            let embeds = can(entry, "embedContent"@) && find::occurs(id, "embedding"@);
            let answers = can(entry, "generateContent"@) && chat_model(id);
            &&& embeds ==> category_of(entry) == Some(ModelCategory::Embedding)
            &&& !embeds && answers ==> category_of(entry) == Some(ModelCategory::Chat)
            &&& !embeds && !answers ==> category_of(entry) is None
        }),
{
}

/// The identifier of a model is its name without the front that the service puts
/// before it.
pub proof fn law_entry_id(entry: ModelEntry, id: Seq<char>)
    requires
        !find::occurs(id, "models/"@),
    ensures
        entry.name@ == id ==> entry_id(entry) == id,
        entry.name@ == "models/"@ + id ==> entry_id(entry) == id,
{
    reveal_strlit("models/");
    let pat = "models/"@;
    let none = Seq::<char>::empty();
    edit::law_replaced(id, pat, none, 0);
    if entry.name@ == pat + id {
        let s = entry.name@;
        assert(s.subrange(0, pat.len() as int) =~= pat);
        assert(find::first_at(s, pat, 0, 0));
        edit::law_replaced(s, pat, none, 0);
        assert(s.skip(pat.len() as int) =~= id);
        assert(s.take(0) + none + id =~= id);
    }
}

/// The models of a category are exactly those with it, in order.
pub proof fn law_of_category(models: Seq<ModelInfo>, category: ModelCategory) -> (ps: Seq<int>)
    ensures
        select::exactly(ps, models.len() as int, |i: int| models[i].category == category),
        of_category(models, category) == Seq::new(ps.len(), |k: int| models[ps[k]]),
{
    let p = |i: int| models[i].category == category;
    let f = |n: int| of_category(models.take(n), category);
    assert forall|n: int| 0 < n <= models.len() implies #[trigger] f(n) == if p(n - 1) {
        f(n - 1).push(models[n - 1])
    } else {
        f(n - 1)
    } by {
        assert(models.take(n).drop_last() =~= models.take(n - 1));
    }
    assert(models.take(0) =~= Seq::empty());
    assert(models.take(models.len() as int) =~= models);
    select::lemma_exactly(models.len() as int, p, |i: int| models[i], f)
}

proof fn lemma_first_chat(models: Seq<ModelInfo>, variant: Option<Seq<char>>, from: int)
    requires
        0 <= from,
    ensures
        match first_chat(models, variant, from) {
            Some(i) => {
                &&& from <= i < models.len()
                &&& models[i].category == ModelCategory::Chat
                &&& variant is None || variant == Some(models[i].variant@)
                &&& forall|j: int|
                    from <= j < i ==> !((#[trigger] models[j]).category == ModelCategory::Chat && (
                    variant is None || variant == Some(models[j].variant@)))
            },
            None => forall|j: int|
                from <= j < models.len() ==> !((#[trigger] models[j]).category
                    == ModelCategory::Chat && (variant is None || variant == Some(
                    models[j].variant@,
                ))),
        },
    decreases models.len() - from,
{
    if from < models.len() {
        lemma_first_chat(models, variant, from + 1);
    }
}

/// The model that answers: the first "flash" of the list that answers, where there
/// is one; else the first that answers; the standard one only where none does. The
/// model that helps along is that "flash" or the standard one.
pub proof fn law_best_model(models: Seq<ModelInfo>, i: int)
    requires
        0 <= i < models.len(),
        models[i].category == ModelCategory::Chat,
    ensures
        models[i].variant@ == "flash"@ && (forall|j: int|
            0 <= j < i ==> !((#[trigger] models[j]).category == ModelCategory::Chat
                && models[j].variant@ == "flash"@)) ==> best_chat(models) == models[i].id@
            && best_utility(models) == models[i].id@,
        (forall|j: int|
            0 <= j < models.len() ==> !((#[trigger] models[j]).category == ModelCategory::Chat
                && models[j].variant@ == "flash"@)) && (forall|j: int|
            0 <= j < i ==> (#[trigger] models[j]).category != ModelCategory::Chat) ==> best_chat(
            models,
        ) == models[i].id@ && best_utility(models) == DEFAULT_CHAT_MODEL@,
{
    lemma_first_chat(models, Some("flash"@), 0);
    lemma_first_chat(models, None, 0);
    let flash = first_chat(models, Some("flash"@), 0);
    if models[i].variant@ == "flash"@ && (forall|j: int|
        0 <= j < i ==> !((#[trigger] models[j]).category == ModelCategory::Chat
            && models[j].variant@ == "flash"@)) {
        let k = flash->0;
        assert(flash is Some);
        if k < i {
            assert(models[k].category == ModelCategory::Chat);
        }
        assert(k == i);
    }
    if forall|j: int|
        0 <= j < models.len() ==> !((#[trigger] models[j]).category == ModelCategory::Chat
            && models[j].variant@ == "flash"@) {
        if let Some(k) = flash {
            assert(models[k].category == ModelCategory::Chat);
        }
        if forall|j: int| 0 <= j < i ==> (#[trigger] models[j]).category != ModelCategory::Chat {
            let k = first_chat(models, None, 0)->0;
            if k < i {
                assert(models[k].category == ModelCategory::Chat);
            }
        }
    }
}

/// Models that answer come with the highest version first, and of one version
/// "flash" before "pro" before the others.
pub proof fn law_chat_order(models: Seq<ModelInfo>, p: Seq<int>, i: int, j: int)
    requires
        order::is_order(p, chat_keys(models)),
        0 <= i < j < p.len(),
    ensures
        models[p[i]].version.rank() >= models[p[j]].version.rank(),
        models[p[i]].version.rank() == models[p[j]].version.rank() ==> priority(
            models[p[i]].variant@,
        ) <= priority(models[p[j]].variant@),
        priority("flash"@) < priority("pro"@) < priority("lite"@),
{
    reveal_strlit("flash");
    reveal_strlit("pro");
    reveal_strlit("lite");
    assert("pro"@.len() != "flash"@.len());
    assert("lite"@.len() != "flash"@.len());
    assert("lite"@.len() != "pro"@.len());
    assert(order::precedes(chat_keys(models), p[i], p[j]));
}

/// A name "gemini-", a version without a hyphen and "-flash" or "-pro", with
/// nothing special in it, is that of a model that answers; one that does not begin
/// with "gemini-" is not.
pub proof fn law_chat_model(version: Seq<char>, id: Seq<char>)
    requires
        forall|i: int| 0 <= i < version.len() ==> #[trigger] version[i] != '-',
        id == "gemini-"@ + version + "-flash"@ || id == "gemini-"@ + version + "-pro"@,
        !find::occurs_any(id, SPECIAL_MODELS@),
    ensures
        chat_model(id),
{
    reveal_strlit("gemini-");
    reveal_strlit("gemini");
    reveal_strlit("-flash");
    reveal_strlit("-pro");
    reveal_strlit("flash");
    reveal_strlit("pro");
    let k = CharClass::Is('-');
    let last = if id == "gemini-"@ + version + "-flash"@ {
        "flash"@
    } else {
        "pro"@
    };
    assert(last.len() <= 5 && forall|i: int| 0 <= i < last.len() ==> #[trigger] last[i] != '-');
    let front = "gemini"@;
    assert(id =~= front.push('-') + (version.push('-') + last));
    split::law_pieces(front, '-', version.push('-') + last, k);
    split::law_pieces(version, '-', last, k);
    split::law_pieces(last, '-', last, k);
    let parts = split::pieces(id, k);
    assert(parts =~= seq![front, version, last]);
    assert(id.subrange(0, 7) =~= "gemini-"@);
    assert(CHAT_ENDINGS@[0]@ == "flash"@ && CHAT_ENDINGS@[1]@ == "pro"@);
    assert(find::is_any(parts.last(), CHAT_ENDINGS@));
}

/// The models that are taken over are those of the list, one for each that is for
/// the category, with its identifier, its name and its version.
pub proof fn law_models(
    models: Seq<ModelInfo>,
    entries: Seq<ModelEntry>,
    versions: Seq<Score>,
    category: ModelCategory,
    i: int,
)
    requires
        are_models(models, entries, versions, category),
        0 <= i < models.len(),
    ensures
        ({
            let entry = entries[places_of(entries, category)[i]];
            &&& models.len() == places_of(entries, category).len()
            &&& models[i].id@ == entry_id(entry)
            &&& models[i].category == category
            &&& models[i].version == versions[places_of(entries, category)[i]]
            &&& entry.display_name is Some ==> models[i].display_name@ == entry.display_name->0@
            &&& entry.display_name is None ==> models[i].display_name@ == entry_id(entry)
            &&& models[i].variant@ == variant_of(entry_id(entry))
        }),
{
    law_places_of(entries, category);
    let places = places_of(entries, category);
    assert(is_info(models[i], entries[places[i]], versions[places[i]]));
    let p = |k: int| category_of(entries[k]) == Some(category);
    assert(p(places[i]));
}

/// The variant of a model is the last part of its name that is one; of a name
/// "gemini-", a version and "-flash" it is "flash".
pub proof fn law_variant(version: Seq<char>, id: Seq<char>)
    requires
        forall|i: int| 0 <= i < version.len() ==> #[trigger] version[i] != '-',
    ensures
        id == "gemini-"@ + version + "-flash"@ ==> variant_of(id) == "flash"@,
        id == "gemini-"@ + version + "-pro"@ ==> variant_of(id) == "pro"@,
{
    reveal_strlit("gemini-");
    reveal_strlit("gemini");
    reveal_strlit("-flash");
    reveal_strlit("-pro");
    reveal_strlit("flash");
    reveal_strlit("pro");
    let k = CharClass::Is('-');
    if id == "gemini-"@ + version + "-flash"@ || id == "gemini-"@ + version + "-pro"@ {
        let last = if id == "gemini-"@ + version + "-flash"@ {
            "flash"@
        } else {
            "pro"@
        };
        assert(last.len() <= 5 && forall|i: int| 0 <= i < last.len() ==> #[trigger] last[i] != '-');
        let front = "gemini"@;
        assert(id =~= front.push('-') + (version.push('-') + last));
        split::law_pieces(front, '-', version.push('-') + last, k);
        split::law_pieces(version, '-', last, k);
        split::law_pieces(last, '-', last, k);
        let parts = split::pieces(id, k);
        assert(parts =~= seq![front, version, last]);
        assert(VARIANTS@[0]@ == "flash"@ && VARIANTS@[1]@ == "pro"@);
        assert(find::is_any(parts.last(), VARIANTS@));
        assert("gemini-"@ + version + "-flash"@ != "gemini-"@ + version + "-pro"@) by {
            assert(("gemini-"@ + version + "-flash"@).len() != ("gemini-"@ + version
                + "-pro"@).len());
        }
    }
}

impl ModelRegistry {
    /// The list is fetched again where it never was, and once it is older than a day.
    pub proof fn law_stale(&self, now: u64)
        ensures
            self.last_refresh is None ==> self.stale(now),
            self.last_refresh matches Some(t) ==> (self.stale(now) <==> now > t + 86400),
    {
    }
}

} // verus!
