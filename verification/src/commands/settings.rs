//! The settings, the keys of the service among them.
use vstd::prelude::*;

use crate::ai::gemini::GeminiModel;
use crate::json;
use crate::score::Score;
use crate::select;
use crate::text;
use crate::text::edit;
use crate::text::find;
use crate::text::number;
use crate::text::split;

verus! {

/// The settings.
#[derive(Debug)]
pub struct AppSettings {
    /// The key, where there is one.
    pub gemini_api_key: Option<String>,
    /// The keys, where there are several.
    pub gemini_api_keys: Option<Vec<String>>,
    /// The model that is asked.
    pub default_model: String,
    /// The look of the application.
    pub theme: String,
    /// How many chunks a query takes.
    pub max_chunks_per_query: usize,
    /// The language.
    pub language: String,
    /// The least score of a file, as bits.
    pub min_match_score: Score,
    /// How freely the model answers, as bits.
    pub creativity_level: Score,
}

/// The model that is asked where nothing else is set.
pub const STANDARD_MODEL: &'static str = "gemini-2.0-flash";

/// How many chunks a query takes where nothing else is set.
pub const STANDARD_CHUNKS: usize = 5;

/// The least score of a file where nothing else is set, as bits: three fifths.
pub const STANDARD_MIN_SCORE_BITS: u32 = 0x3f19_999a;

/// How freely the model answers where nothing else is set, as bits: seven
/// tenths.
pub const STANDARD_CREATIVITY_BITS: u32 = 0x3f33_3333;

impl Default for AppSettings {
    fn default() -> (r: Self)
        ensures
            r.gemini_api_key is None,
            r.gemini_api_keys is None,
            r.default_model@ == STANDARD_MODEL@,
            r.theme@ == "auto"@,
            r.max_chunks_per_query == STANDARD_CHUNKS,
            r.language@ == "vi"@,
            r.min_match_score.bits == STANDARD_MIN_SCORE_BITS,
            r.creativity_level.bits == STANDARD_CREATIVITY_BITS,
    {
        AppSettings {
            gemini_api_key: None,
            gemini_api_keys: None,
            default_model: edit::owned(STANDARD_MODEL),
            theme: edit::owned("auto"),
            max_chunks_per_query: STANDARD_CHUNKS,
            language: edit::owned("vi"),
            min_match_score: Score { bits: STANDARD_MIN_SCORE_BITS },
            creativity_level: Score { bits: STANDARD_CREATIVITY_BITS },
        }
    }
}

/// The settings as they are stored, each where it was set. The two numbers with
/// a fraction are given as they were read, where they could be.
#[derive(Debug)]
pub struct StoredSettings {
    /// The key.
    pub api_key: Option<String>,
    /// The keys, as JSON.
    pub api_keys: Option<String>,
    /// The model.
    pub model: Option<String>,
    /// The look.
    pub theme: Option<String>,
    /// The chunks.
    pub max_chunks: Option<String>,
    /// The language.
    pub language: Option<String>,
    /// The least score.
    pub min_score: Option<Score>,
    /// The freedom.
    pub creativity: Option<Score>,
}

fn or_standard(value: Option<String>, standard: &str) -> (r: String)
    ensures
        r@ == match value {
            Some(v) => v@,
            None => standard@,
        },
{
    match value {
        Some(v) => v,
        None => edit::owned(standard),
    }
}

/// The number of chunks that is set: a number that the machine can hold.
pub open spec fn chunks_set(value: Option<String>) -> usize {
    match value {
        Some(v) => match number::number_of(v@) {
            Some(n) => if n <= usize::MAX {
                n as usize
            } else {
                STANDARD_CHUNKS
            },
            None => STANDARD_CHUNKS,
        },
        None => STANDARD_CHUNKS,
    }
}

/// The keys that are set, where they can be read.
pub open spec fn keys_set(value: Option<String>) -> Option<Seq<Seq<char>>> {
    match value {
        Some(v) => json::json_list(v@),
        None => None,
    }
}

/// The texts of an optional list.
pub open spec fn list_view(value: Option<Vec<String>>) -> Option<Seq<Seq<char>>> {
    match value {
        Some(v) => Some(text::views(v@)),
        None => None,
    }
}

fn read_keys(value: &Option<String>) -> (r: Option<Vec<String>>)
    ensures
        list_view(r) == keys_set(*value),
{
    match value {
        Some(v) => json::read_list(v.as_str()),
        None => None,
    }
}

/// The settings from what is stored, given the keys as they were read.
pub fn settings_with_keys(stored: StoredSettings, keys: Option<Vec<String>>) -> (r: AppSettings)
    ensures
        r.gemini_api_key == stored.api_key,
        r.gemini_api_keys == keys,
        r.default_model@ == match stored.model {
            Some(v) => v@,
            None => STANDARD_MODEL@,
        },
        r.theme@ == match stored.theme {
            Some(v) => v@,
            None => "auto"@,
        },
        r.max_chunks_per_query == chunks_set(stored.max_chunks),
        r.language@ == match stored.language {
            Some(v) => v@,
            None => "vi"@,
        },
        r.min_match_score == match stored.min_score {
            Some(s) => s,
            None => Score { bits: STANDARD_MIN_SCORE_BITS },
        },
        r.creativity_level == match stored.creativity {
            Some(s) => s,
            None => Score { bits: STANDARD_CREATIVITY_BITS },
        },
{
    let max_chunks_per_query: usize = match &stored.max_chunks {
        Some(v) => match number::parse_upto(v.as_str(), usize::MAX as u64) {
            Some(n) => n as usize,
            None => STANDARD_CHUNKS,
        },
        None => STANDARD_CHUNKS,
    };
    AppSettings {
        gemini_api_key: stored.api_key,
        gemini_api_keys: keys,
        default_model: or_standard(stored.model, STANDARD_MODEL),
        theme: or_standard(stored.theme, "auto"),
        max_chunks_per_query,
        language: or_standard(stored.language, "vi"),
        min_match_score: match stored.min_score {
            Some(s) => s,
            None => Score { bits: STANDARD_MIN_SCORE_BITS },
        },
        creativity_level: match stored.creativity {
            Some(s) => s,
            None => Score { bits: STANDARD_CREATIVITY_BITS },
        },
    }
}

/// The settings from what is stored; what is not, is as usual.
pub fn read_settings(stored: StoredSettings) -> (r: AppSettings)
    ensures
        r.gemini_api_key == stored.api_key,
        list_view(r.gemini_api_keys) == keys_set(stored.api_keys),
        r.default_model@ == match stored.model {
            Some(v) => v@,
            None => STANDARD_MODEL@,
        },
        r.theme@ == match stored.theme {
            Some(v) => v@,
            None => "auto"@,
        },
        r.max_chunks_per_query == chunks_set(stored.max_chunks),
        r.language@ == match stored.language {
            Some(v) => v@,
            None => "vi"@,
        },
        r.min_match_score == match stored.min_score {
            Some(s) => s,
            None => Score { bits: STANDARD_MIN_SCORE_BITS },
        },
        r.creativity_level == match stored.creativity {
            Some(s) => s,
            None => Score { bits: STANDARD_CREATIVITY_BITS },
        },
{
    let keys: Option<Vec<String>> = read_keys(&stored.api_keys);
    settings_with_keys(stored, keys)
}

/// What is stored of a setting.
#[derive(Debug)]
pub enum SettingChange {
    /// The value is set.
    Store(String, String),
    /// The value is taken out.
    Remove(String),
}

/// The change sets the value under the name.
pub open spec fn sets(change: SettingChange, name: Seq<char>, value: Seq<char>) -> bool {
    change matches SettingChange::Store(n, v) && n@ == name && v@ == value
}

/// The change takes out what is under the name.
pub open spec fn deletes(change: SettingChange, name: Seq<char>) -> bool {
    change matches SettingChange::Remove(n) && n@ == name
}

/// The keys that are used: those of the list, or the single one, without the
/// empty ones.
pub open spec fn used_keys(settings: AppSettings) -> Seq<Seq<char>> {
    split::nonempty(
        match settings.gemini_api_keys {
            Some(keys) => text::views(keys@),
            None => match settings.gemini_api_key {
                Some(key) => seq![key@],
                None => Seq::empty(),
            },
        },
    )
}

/// The keys that are used.
pub fn keys_in_use(settings: &AppSettings) -> (r: Vec<String>)
    ensures
        text::views(r@) == used_keys(*settings),
{
    let all: Vec<String> = match &settings.gemini_api_keys {
        Some(keys) => text::copy_all(keys),
        None => match &settings.gemini_api_key {
            Some(key) => {
                let mut one: Vec<String> = Vec::new();
                one.push(key.clone());
                assert(text::views(one@) =~= seq![key@]);
                one
            },
            None => {
                let none: Vec<String> = Vec::new();
                assert(text::views(none@) =~= Seq::empty());
                none
            },
        },
    };
    split::keep_nonempty(all)
}

/// The changes by which keys are stored. A list is stored without its empty
/// keys, and its first key also as the single one; a single key also as a list;
/// and without a key both are taken out. The stored list can be read again.
pub fn plan_keys(settings: &AppSettings) -> (r: Vec<SettingChange>)
    ensures
        match settings.gemini_api_keys {
            Some(keys) => {
                let clean = split::nonempty(text::views(keys@));
                &&& r@.len() == if clean.len() > 0 {
                    2int
                } else {
                    1
                }
                &&& sets(r@[0], "gemini_api_keys"@, json::list_json(clean))
                &&& json::json_list(r@[0]->Store_1@) == Some(clean)
                &&& clean.len() > 0 ==> sets(r@[1], "gemini_api_key"@, clean[0])
            },
            None => match settings.gemini_api_key {
                Some(key) => {
                    &&& r@.len() == 2
                    &&& sets(r@[0], "gemini_api_key"@, key@)
                    &&& sets(r@[1], "gemini_api_keys"@, json::list_json(seq![key@]))
                    &&& json::json_list(r@[1]->Store_1@) == Some(seq![key@])
                },
                None => {
                    &&& r@.len() == 2
                    &&& deletes(r@[0], "gemini_api_key"@)
                    &&& deletes(r@[1], "gemini_api_keys"@)
                },
            },
        },
{
    let mut out: Vec<SettingChange> = Vec::new();
    match &settings.gemini_api_keys {
        Some(keys) => {
            let clean: Vec<String> = split::keep_nonempty(text::copy_all(keys));
            assert(text::views(clean@).len() == clean@.len());
            out.push(SettingChange::Store(edit::owned("gemini_api_keys"), json::write_list(&clean)));
            if clean.len() > 0 {
                assert(text::views(clean@)[0] == clean@[0]@);
                out.push(SettingChange::Store(edit::owned("gemini_api_key"), clean[0].clone()));
            }
        },
        None => match &settings.gemini_api_key {
            Some(key) => {
                let mut one: Vec<String> = Vec::new();
                one.push(key.clone());
                assert(text::views(one@) =~= seq![key@]);
                out.push(SettingChange::Store(edit::owned("gemini_api_key"), key.clone()));
                out.push(SettingChange::Store(edit::owned("gemini_api_keys"), json::write_list(&one)));
            },
            None => {
                out.push(SettingChange::Remove(edit::owned("gemini_api_key")));
                out.push(SettingChange::Remove(edit::owned("gemini_api_keys")));
            },
        },
    }
    out
}

/// The changes by which the other settings are stored, given the numbers with
/// a fraction as texts.
pub fn plan_values(settings: &AppSettings, min_score: String, creativity: String) -> (r: Vec<
    SettingChange,
>)
    ensures
        r@.len() == 6,
        sets(r@[0], "default_model"@, settings.default_model@),
        sets(r@[1], "theme"@, settings.theme@),
        sets(
            r@[2],
            "max_chunks_per_query"@,
            number::decimal(settings.max_chunks_per_query as nat),
        ),
        sets(r@[3], "language"@, settings.language@),
        sets(r@[4], "min_match_score"@, min_score@),
        sets(r@[5], "creativity_level"@, creativity@),
{
    let mut out: Vec<SettingChange> = Vec::new();
    out.push(SettingChange::Store(edit::owned("default_model"), settings.default_model.clone()));
    out.push(SettingChange::Store(edit::owned("theme"), settings.theme.clone()));
    out.push(
        SettingChange::Store(
            edit::owned("max_chunks_per_query"),
            number::to_decimal(settings.max_chunks_per_query as u128),
        ),
    );
    out.push(SettingChange::Store(edit::owned("language"), settings.language.clone()));
    out.push(SettingChange::Store(edit::owned("min_match_score"), min_score));
    out.push(SettingChange::Store(edit::owned("creativity_level"), creativity));
    out
}

/// The keys for a query: the stored list where it can be read, else the single
/// key unless it is empty.
pub open spec fn query_keys(list: Option<Seq<Seq<char>>>, single: Option<Seq<char>>) -> Seq<
    Seq<char>,
> {
    match list {
        Some(keys) => keys,
        None => match single {
            Some(key) => if key.len() > 0 {
                seq![key]
            } else {
                Seq::empty()
            },
            None => Seq::empty(),
        },
    }
}

/// The keys for a query, given the list as it was read.
pub fn choose_query_keys(list: Option<Vec<String>>, single: &Option<String>) -> (r: Vec<String>)
    ensures
        text::views(r@) == query_keys(list_view(list), text::option_view(*single)),
{
    match list {
        Some(keys) => keys,
        None => {
            let mut out: Vec<String> = Vec::new();
            if let Some(key) = single {
                if !key.as_str().is_empty() {
                    out.push(key.clone());
                }
            }
            assert(text::views(out@) =~= query_keys(None, text::option_view(*single)));
            out
        },
    }
}

/// The keys for a query, from what is stored.
pub fn stored_query_keys(list: &Option<String>, single: &Option<String>) -> (r: Vec<String>)
    ensures
        text::views(r@) == query_keys(keys_set(*list), text::option_view(*single)),
{
    choose_query_keys(read_keys(list), single)
}

/// The keys at the start: those of the stored list, none where it cannot be
/// read; the single key only where there is no list. Empty ones are dropped.
pub open spec fn start_keys(stored: bool, list: Option<Seq<Seq<char>>>, single: Option<Seq<char>>) -> Seq<
    Seq<char>,
> {
    if stored {
        match list {
            Some(keys) => split::nonempty(keys),
            None => Seq::empty(),
        }
    } else {
        query_keys(None, single)
    }
}

/// The keys at the start, given whether there is a list and the list as it was
/// read.
pub fn choose_start_keys(
    stored: bool,
    list: Option<Vec<String>>,
    single: &Option<String>,
) -> (r: Vec<String>)
    ensures
        text::views(r@) == start_keys(stored, list_view(list), text::option_view(*single)),
{
    if stored {
        match list {
            Some(keys) => split::keep_nonempty(keys),
            None => {
                let none: Vec<String> = Vec::new();
                assert(text::views(none@) =~= Seq::empty());
                none
            },
        }
    } else {
        choose_query_keys(None, single)
    }
}

/// The keys at the start, from what is stored.
pub fn stored_start_keys(list: &Option<String>, single: &Option<String>) -> (r: Vec<String>)
    ensures
        text::views(r@) == start_keys(
            *list is Some,
            keys_set(*list),
            text::option_view(*single),
        ),
{
    choose_start_keys(list.is_some(), read_keys(list), single)
}

proof fn lemma_nonempty_again(v: Seq<Seq<char>>)
    ensures
        split::nonempty(split::nonempty(v)) == split::nonempty(v),
    decreases v.len(),
{
    if v.len() > 0 {
        let before = split::nonempty(v.drop_last());
        lemma_nonempty_again(v.drop_last());
        if v.last().len() > 0 {
            assert(before.push(v.last()).drop_last() =~= before);
        }
    }
}

/// The keys that are used when the settings are saved are used again at the
/// next start. `list` and `single` are what is stored under the two names once
/// the changes were made.
pub proof fn law_keys_survive(
    settings: AppSettings,
    list: Option<Seq<char>>,
    single: Option<Seq<char>>,
)
    requires
        match settings.gemini_api_keys {
            Some(keys) => list is Some && json::json_list(list->0) == Some(
                split::nonempty(text::views(keys@)),
            ),
            None => match settings.gemini_api_key {
                Some(key) => list is Some && json::json_list(list->0) == Some(seq![key@]),
                None => list is None && single is None,
            },
        },
    ensures
        start_keys(
            list is Some,
            match list {
                Some(l) => json::json_list(l),
                None => None,
            },
            single,
        ) == used_keys(settings),
{
    if let Some(keys) = settings.gemini_api_keys {
        lemma_nonempty_again(text::views(keys@));
    }
}

/// Whether a key is worth asking about: not an empty one.
pub fn worth_validating(api_key: &str) -> (r: bool)
    ensures
        r == (api_key@.len() > 0),
{
    !api_key.is_empty()
}

/// The first answer about a model.
pub open spec fn answer_about(answers: Seq<(String, bool)>, id: Seq<char>, i: int) -> bool
    decreases answers.len() - i,
{
    if i < 0 || i >= answers.len() {
        false
    } else if answers[i].0@ == id {
        answers[i].1
    } else {
        answer_about(answers, id, i + 1)
    }
}

/// The models that have quota, marked.
pub open spec fn with_quota(models: Seq<GeminiModel>, answers: Seq<(String, bool)>) -> Seq<bool> {
    Seq::new(models.len(), |i: int| answer_about(answers, models[i].id@, 0))
}

fn find_answer(answers: &Vec<(String, bool)>, id: &str) -> (r: bool)
    ensures
        r == answer_about(answers@, id@, 0),
{
    let mut i: usize = 0;
    while i < answers.len()
        invariant
            i <= answers@.len(),
            answer_about(answers@, id@, 0) == answer_about(answers@, id@, i as int),
        decreases answers@.len() - i,
    {
        if find::same(answers[i].0.as_str(), id) {
            return answers[i].1;
        }
        i += 1;
    }
    false
}

/// The models that have quota, given the answers to that question.
pub fn available_models(models: Vec<GeminiModel>, answers: &Vec<(String, bool)>) -> (r: Vec<
    GeminiModel,
>)
    ensures
        r@ == select::kept(models@, with_quota(models@, answers@)),
{
    let mut keep: Vec<bool> = Vec::new();
    let mut i: usize = 0;
    while i < models.len()
        invariant
            i <= models@.len(),
            keep@ == with_quota(models@, answers@).take(i as int),
        decreases models@.len() - i,
    {
        keep.push(find_answer(answers, models[i].id.as_str()));
        i += 1;
    }
    assert(keep@ =~= with_quota(models@, answers@));
    select::keep_flagged(models, &keep)
}

/// Exactly the models are available about which the first answer is that they have
/// quota, in order.
pub proof fn law_available_models(
    models: Seq<GeminiModel>,
    answers: Seq<(String, bool)>,
) -> (ps: Seq<int>)
    ensures
        select::exactly(
            ps,
            models.len() as int,
            |i: int|
                exists|k: int|
                    0 <= k < answers.len() && (#[trigger] answers[k]).0@ == models[i].id@
                        && answers[k].1 && forall|j: int|
                        0 <= j < k ==> (#[trigger] answers[j]).0@ != models[i].id@,
        ),
        select::kept(models, with_quota(models, answers)) == Seq::new(
            ps.len(),
            |k: int| models[ps[k]],
        ),
{
    let keep = with_quota(models, answers);
    let ps = select::law_kept(models, keep);
    let p = |i: int| keep[i];
    let q = |i: int|
        exists|k: int|
            0 <= k < answers.len() && (#[trigger] answers[k]).0@ == models[i].id@ && answers[k].1
                && forall|j: int| 0 <= j < k ==> (#[trigger] answers[j]).0@ != models[i].id@;
    assert forall|i: int| 0 <= i < models.len() implies p(i) == #[trigger] q(i) by {
        lemma_answer_about(answers, models[i].id@, 0);
    }
    assert forall|a: int| 0 <= a < ps.len() implies 0 <= #[trigger] ps[a] < models.len() && q(
        ps[a],
    ) by {
        assert(p(ps[a]));
        assert(q(ps[a]) == p(ps[a]));
    }
    assert forall|i: int| 0 <= i < models.len() && #[trigger] q(i) implies ps.contains(i) by {
        assert(p(i));
    }
    ps
}

proof fn lemma_answer_about(answers: Seq<(String, bool)>, id: Seq<char>, from: int)
    requires
        0 <= from <= answers.len(),
        forall|j: int| 0 <= j < from ==> (#[trigger] answers[j]).0@ != id,
    ensures
        answer_about(answers, id, from) <==> exists|k: int|
            0 <= k < answers.len() && (#[trigger] answers[k]).0@ == id && answers[k].1
                && forall|j: int| 0 <= j < k ==> (#[trigger] answers[j]).0@ != id,
    decreases answers.len() - from,
{
    if from < answers.len() {
        if answers[from].0@ == id {
            if exists|k: int|
                0 <= k < answers.len() && (#[trigger] answers[k]).0@ == id && answers[k].1
                    && forall|j: int| 0 <= j < k ==> (#[trigger] answers[j]).0@ != id {
                let k = choose|k: int|
                    0 <= k < answers.len() && (#[trigger] answers[k]).0@ == id && answers[k].1
                        && forall|j: int| 0 <= j < k ==> (#[trigger] answers[j]).0@ != id;
                assert(k == from);
            }
        } else {
            lemma_answer_about(answers, id, from + 1);
        }
    }
}

/// The number of chunks that was stored is read again.
pub proof fn law_chunks_survive(n: usize, value: String)
    requires
        value@ == number::decimal(n as nat),
    ensures
        chunks_set(Some(value)) == n,
{
    number::law_number_is_read(n as nat);
}

/// The keys for a query: all of the list where it can be read, else the single key
/// unless it is empty; at the start the empty ones of the list are left out, and the
/// single key counts only where there is no list.
pub proof fn law_keys_for_query(list: Seq<Seq<char>>, single: Seq<char>) -> (ps: Seq<int>)
    requires
        single.len() > 0,
    ensures
        query_keys(Some(list), Some(single)) == list,
        query_keys(None, Some(single)) == seq![single],
        query_keys(None, None).len() == 0,
        start_keys(false, None, Some(single)) == seq![single],
        start_keys(true, None, Some(single)).len() == 0,
        select::exactly(ps, list.len() as int, |i: int| list[i].len() > 0),
        start_keys(true, Some(list), Some(single)) == Seq::new(ps.len(), |k: int| list[ps[k]]),
{
    split::law_nonempty(list)
}

} // verus!
