//! Token estimation and the context budget: the context sent to the model
//! (history, search results and system prompt) stays within a limit.
use vstd::prelude::*;

use crate::text::chars;
use crate::text::chars::CharClass;
use crate::text::edit;
use crate::text::find;

verus! {

/// Tokens for the whole context sent to the model.
pub const MAX_CONTEXT_TOKENS: usize = 15_000;

/// Tokens for the chat history, as part of the whole.
pub const MAX_HISTORY_TOKENS: usize = 3_000;

/// Turns of the chat history that are kept at most.
pub const MAX_HISTORY_TURNS: usize = 5;

/// What is left for search results where the budget is already spent.
pub const MIN_SEARCH_TOKENS: usize = 1_000;

/// A quarter of a token for a character, half a token for a Chinese, Japanese
/// or Korean letter, and one more for any text at all.
pub open spec fn tokens(s: Seq<char>) -> nat {
    let cjk = find::count_in(s, CharClass::CjkLetter);
    if s.len() == 0 {
        0
    } else {
        ((s.len() - cjk) / 4 + cjk / 2 + 1) as nat
    }
}

/// Whether `ch` counts as half a token. Vietnamese letters do not.
pub fn is_cjk_char(ch: char) -> (r: bool)
    ensures
        r == chars::is_cjk_letter(ch),
{
    chars::cjk_letter(ch)
}

/// The estimated number of tokens of `text`.
pub fn estimate_tokens(text: &str) -> (n: usize)
    ensures
        n == tokens(text@),
{
    let v: Vec<char> = chars::to_chars(text);
    if v.len() == 0 {
        return 0;
    }
    let cjk: usize = find::count_class(v.as_slice(), CharClass::CjkLetter);
    (v.len() - cjk) / 4 + cjk / 2 + 1
}

/// The texts of a list of turns.
pub open spec fn turn_views(h: Seq<(String, String)>) -> Seq<(Seq<char>, Seq<char>)> {
    Seq::new(h.len(), |i: int| (h[i].0@, h[i].1@))
}

/// The tokens of all turns together.
pub open spec fn history_tokens(h: Seq<(Seq<char>, Seq<char>)>) -> nat
    decreases h.len(),
{
    if h.len() == 0 {
        0
    } else {
        tokens(h[0].0) + tokens(h[0].1) + history_tokens(h.drop_first())
    }
}

/// The last `n` turns.
pub open spec fn last_turns(h: Seq<(Seq<char>, Seq<char>)>, n: int) -> Seq<
    (Seq<char>, Seq<char>),
> {
    h.skip(h.len() - n)
}

/// Of the last turns, at most `limit` of them, how many are kept beyond the
/// `n` that already are: the newest in any case, then as many as fit.
pub open spec fn kept_turns(
    h: Seq<(Seq<char>, Seq<char>)>,
    limit: int,
    max_tokens: int,
    n: int,
) -> int
    decreases limit - n,
{
    if n < limit && (n == 0 || history_tokens(last_turns(h, n + 1)) <= max_tokens) {
        kept_turns(h, limit, max_tokens, n + 1)
    } else {
        n
    }
}

/// The history cut to the newest turns.
pub open spec fn trimmed_history(
    h: Seq<(Seq<char>, Seq<char>)>,
    max_turns: int,
    max_tokens: int,
) -> Seq<(Seq<char>, Seq<char>)> {
    let limit = if h.len() > max_turns {
        max_turns
    } else {
        h.len() as int
    };
    last_turns(h, kept_turns(h, limit, max_tokens, 0))
}

/// Keeps the newest turns: at most `max_turns` of them, and as many as fit
/// into `max_tokens`, the newest one in any case.
pub fn trim_history(
    history: &[(String, String)],
    max_turns: usize,
    max_tokens: usize,
) -> (r: Vec<(String, String)>)
    ensures
        turn_views(r@) == trimmed_history(
            turn_views(history@),
            max_turns as int,
            max_tokens as int,
        ),
{
    let len: usize = history.len();
    let limit: usize = if len > max_turns {
        max_turns
    } else {
        len
    };
    let ghost h = turn_views(history@);
    let mut total: u128 = 0;
    let mut n: usize = 0;
    let mut open: bool = true;
    while n < limit && open
        invariant
            n <= limit <= len,
            len == history@.len(),
            h == turn_views(history@),
            total == history_tokens(last_turns(h, n as int)),
            total <= max_tokens || n <= 1,
            n == 0 ==> total == 0,
            total <= 2 * usize::MAX,
            open ==> kept_turns(h, limit as int, max_tokens as int, 0) == kept_turns(
                h,
                limit as int,
                max_tokens as int,
                n as int,
            ),
            !open ==> kept_turns(h, limit as int, max_tokens as int, 0) == n,
        decreases limit - n + if open { 1int } else { 0int },
    {
        let at: usize = len - n - 1;
        let cost: u128 = estimate_tokens(history[at].0.as_str()) as u128 + estimate_tokens(
            history[at].1.as_str(),
        ) as u128;
        assert(last_turns(h, n + 1)[0] == h[at as int]);
        assert(last_turns(h, n + 1).drop_first() =~= last_turns(h, n as int));
        if n > 0 && total + cost > max_tokens as u128 {
            open = false;
        } else {
            total = total + cost;
            n += 1;
        }
    }
    let mut out: Vec<(String, String)> = Vec::new();
    let mut i: usize = len - n;
    while i < len
        invariant
            n <= len,
            len - n <= i <= len,
            len == history@.len(),
            h == turn_views(history@),
            turn_views(out@) == h.subrange(len - n, i as int),
        decreases len - i,
    {
        let ghost before = turn_views(out@);
        out.push((history[i].0.clone(), history[i].1.clone()));
        assert(turn_views(out@) =~= before.push(h[i as int]));
        i += 1;
    }
    assert(h.subrange(len - n, len as int) =~= last_turns(h, n as int));
    out
}

/// What trimming keeps is the newest part of the history; it is within both
/// limits, but for a newest turn that is over the limit by itself; and one
/// more turn would break a limit.
pub proof fn law_trimmed_history(
    h: Seq<(Seq<char>, Seq<char>)>,
    max_turns: int,
    max_tokens: int,
)
    requires
        max_turns >= 0,
    ensures
        ({
            let r = trimmed_history(h, max_turns, max_tokens);
            &&& r.is_suffix_of(h)
            &&& r.len() <= max_turns
            &&& r.len() > 1 ==> history_tokens(r) <= max_tokens
            &&& h.len() > 0 && max_turns > 0 ==> r.len() > 0
            &&& 0 < r.len() < h.len() && r.len() < max_turns ==> history_tokens(
                last_turns(h, r.len() as int + 1),
            ) > max_tokens
        }),
{
    let limit = if h.len() > max_turns {
        max_turns
    } else {
        h.len() as int
    };
    lemma_kept_turns(h, limit, max_tokens, 0);
    let n = kept_turns(h, limit, max_tokens, 0);
    assert(last_turns(h, n) =~= h.subrange(h.len() - n, h.len() as int));
}

proof fn lemma_kept_turns(
    h: Seq<(Seq<char>, Seq<char>)>,
    limit: int,
    max_tokens: int,
    n: int,
)
    requires
        0 <= n <= limit <= h.len(),
        n > 1 ==> history_tokens(last_turns(h, n)) <= max_tokens,
    ensures
        ({
            let k = kept_turns(h, limit, max_tokens, n);
            &&& n <= k <= limit
            &&& k > 1 ==> history_tokens(last_turns(h, k)) <= max_tokens
            &&& limit > 0 ==> k > 0
            &&& 0 < k < limit ==> history_tokens(last_turns(h, k + 1)) > max_tokens
        }),
    decreases limit - n,
{
    if n < limit && (n == 0 || history_tokens(last_turns(h, n + 1)) <= max_tokens) {
        lemma_kept_turns(h, limit, max_tokens, n + 1);
    }
}

/// What is left for search results after the system prompt and the history.
pub fn remaining_budget(system_prompt_tokens: usize, history_tokens: usize) -> (n: usize)
    requires
        system_prompt_tokens + history_tokens <= usize::MAX,
    ensures
        n == if system_prompt_tokens + history_tokens >= MAX_CONTEXT_TOKENS {
            MIN_SEARCH_TOKENS as int
        } else {
            MAX_CONTEXT_TOKENS - system_prompt_tokens - history_tokens
        },
{
    let used: usize = system_prompt_tokens + history_tokens;
    if used >= MAX_CONTEXT_TOKENS {
        MIN_SEARCH_TOKENS
    } else {
        MAX_CONTEXT_TOKENS - used
    }
}

/// How many characters of `s`, beyond the first `n`, fit into `max_tokens`.
pub open spec fn fitting(s: Seq<char>, max_tokens: int, n: int) -> int
    decreases s.len() - n,
{
    if n < s.len() && tokens(s.take(n + 1)) <= max_tokens {
        fitting(s, max_tokens, n + 1)
    } else {
        n
    }
}

/// The text before the last newline; all of it where there is none.
pub open spec fn whole_lines(s: Seq<char>) -> Seq<char> {
    match find::last_index(s, CharClass::Is('\n')) {
        Some(i) => s.take(i),
        None => s,
    }
}

/// The context cut to `max_tokens`, and to four characters for a token: as many
/// whole lines of that part as fit, or as many characters where not even one
/// line does.
pub open spec fn truncated_context(s: Seq<char>, max_tokens: int) -> Seq<char> {
    let part = edit::first_chars(s, 4 * max_tokens);
    let n = fitting(part, max_tokens, 0);
    if tokens(s) <= max_tokens {
        s
    } else {
        match find::last_index(edit::first_chars(part, n + 1), CharClass::Is('\n')) {
            Some(i) => part.take(i),
            None => part.take(n),
        }
    }
}

/// Cuts the search context to the token budget, at the end of a line where it
/// can.
pub fn truncate_search_context(context: &str, max_tokens: usize) -> (r: String)
    ensures
        r@ == truncated_context(context@, max_tokens as int),
        tokens(r@) <= max_tokens,
        r@.is_prefix_of(context@),
{
    proof {
        law_truncated_context(context@, max_tokens as int);
    }
    if estimate_tokens(context) <= max_tokens {
        return edit::owned(context);
    }
    let v: Vec<char> = chars::to_chars(context);
    let len: usize = if max_tokens > v.len() / 4 {
        v.len()
    } else {
        max_tokens * 4
    };
    let part: &[char] = vstd::slice::slice_subrange(v.as_slice(), 0, len);
    assert(part@ =~= edit::first_chars(context@, 4 * max_tokens));
    let mut n: usize = 0;
    let mut cjk: usize = 0;
    let mut fits: bool = true;
    assert(part@.take(0) =~= Seq::empty());
    while n < len && fits
        invariant
            n <= len == part@.len(),
            cjk <= n,
            cjk == find::count_in(part@.take(n as int), CharClass::CjkLetter),
            fits ==> fitting(part@, max_tokens as int, 0) == fitting(
                part@,
                max_tokens as int,
                n as int,
            ),
            !fits ==> fitting(part@, max_tokens as int, 0) == n,
        decreases len - n + if fits { 1int } else { 0int },
    {
        assert(part@.take(n + 1).drop_last() =~= part@.take(n as int));
        let letter: bool = chars::cjk_letter(part[n]);
        let more: usize = if letter {
            cjk + 1
        } else {
            cjk
        };
        if (n + 1 - more) / 4 + more / 2 + 1 <= max_tokens {
            cjk = more;
            n += 1;
        } else {
            fits = false;
        }
    }
    let seen: usize = if n < len {
        n + 1
    } else {
        n
    };
    let head: &[char] = vstd::slice::slice_subrange(part, 0, seen);
    assert(head@ =~= edit::first_chars(part@, n + 1));
    let end: usize = match find::rfind(head, CharClass::Is('\n')) {
        Some(i) => i,
        None => n,
    };
    let r: String = chars::from_chars(vstd::slice::slice_subrange(part, 0, end));
    assert(r@ =~= part@.take(end as int));
    r
}

/// A cut context is within the budget and a part from the front; one that fits
/// is left as it is. Where the whole lines of the first characters, four for a
/// token, are within the budget, they are what is left of a context that is not.
pub proof fn law_truncated_context(s: Seq<char>, max_tokens: int)
    requires
        max_tokens >= 0,
    ensures
        ({
            let r = truncated_context(s, max_tokens);
            let lines = whole_lines(edit::first_chars(s, 4 * max_tokens));
            &&& tokens(r) <= max_tokens
            &&& r.is_prefix_of(s)
            &&& tokens(s) <= max_tokens ==> r == s
            &&& tokens(s) > max_tokens && tokens(lines) <= max_tokens ==> r == lines
        }),
{
    let part = edit::first_chars(s, 4 * max_tokens);
    let n = fitting(part, max_tokens, 0);
    let head = edit::first_chars(part, n + 1);
    let k = CharClass::Is('\n');
    assert(s.take(s.len() as int) =~= s);
    assert(part.take(0) =~= Seq::empty());
    assert(part.take(part.len() as int) =~= part);
    lemma_fitting(part, max_tokens, 0);
    lemma_last_index(head, k);
    lemma_last_index(part, k);
    assert(part.take(n) =~= s.take(n));
    if let Some(i) = find::last_index(head, k) {
        assert(part.take(i) =~= s.take(i));
        lemma_tokens_grow(part, i, n);
    }
    if tokens(whole_lines(part)) <= max_tokens {
        match find::last_index(part, k) {
            Some(i) => {
                if n < i {
                    lemma_tokens_grow(part, n + 1, i);
                }
                assert(head[i] == part[i]);
                let j = find::last_index(head, k)->0;
                assert(part[j] == head[j]);
            },
            None => {
                if n < part.len() {
                    lemma_tokens_grow(part, n + 1, part.len() as int);
                }
                assert(head =~= part);
            },
        }
    }
}

proof fn lemma_fitting(s: Seq<char>, max_tokens: int, n: int)
    requires
        0 <= n <= s.len(),
        tokens(s.take(n)) <= max_tokens,
    ensures
        ({
            let k = fitting(s, max_tokens, n);
            &&& n <= k <= s.len()
            &&& tokens(s.take(k)) <= max_tokens
            &&& k < s.len() ==> tokens(s.take(k + 1)) > max_tokens
        }),
    decreases s.len() - n,
{
    if n < s.len() && tokens(s.take(n + 1)) <= max_tokens {
        lemma_fitting(s, max_tokens, n + 1);
    }
}

/// A longer part has no fewer tokens.
proof fn lemma_tokens_grow(s: Seq<char>, i: int, j: int)
    requires
        0 <= i <= j <= s.len(),
    ensures
        tokens(s.take(i)) <= tokens(s.take(j)),
    decreases j - i,
{
    if i < j {
        lemma_tokens_grow(s, i, j - 1);
        assert(s.take(j).drop_last() =~= s.take(j - 1));
        lemma_count_at_most(s.take(j - 1));
    }
}

proof fn lemma_count_at_most(s: Seq<char>)
    ensures
        find::count_in(s, CharClass::CjkLetter) <= s.len(),
    decreases s.len(),
{
    if s.len() > 0 {
        lemma_count_at_most(s.drop_last());
    }
}

proof fn lemma_last_index(s: Seq<char>, k: CharClass)
    ensures
        match find::last_index(s, k) {
            Some(i) => 0 <= i < s.len() && k.has(s[i]) && forall|j: int|
                i < j < s.len() ==> !k.has(#[trigger] s[j]),
            None => forall|j: int| 0 <= j < s.len() ==> !k.has(#[trigger] s[j]),
        },
    decreases s.len(),
{
    if s.len() > 0 {
        lemma_last_index(s.drop_last(), k);
        assert(forall|j: int| 0 <= j < s.len() - 1 ==> s.drop_last()[j] == #[trigger] s[j]);
    }
}

/// How the context is made up, in tokens.
#[derive(Clone, Copy, Debug, PartialEq, Eq, Structural)]
pub struct ContextStats {
    /// Tokens of the system prompt.
    pub prompt_tokens: usize,
    /// Tokens of the chat history.
    pub history_tokens: usize,
    /// Turns of the chat history.
    pub turns: usize,
    /// Tokens of the search context.
    pub search_tokens: usize,
    /// All of these together.
    pub total: usize,
    /// By how much the total is over the budget; 0 where it is not.
    pub over_budget: usize,
}

/// The make-up of the context, for the log; `None` where the total is too
/// large to be counted.
pub fn log_context_stats(
    system_prompt: &str,
    history: &[(String, String)],
    search_context: &str,
) -> (r: Option<ContextStats>)
    ensures
        ({
            let total = tokens(system_prompt@) + history_tokens(turn_views(history@)) + tokens(
                search_context@,
            );
            match r {
                Some(stats) => total <= usize::MAX && stats == (ContextStats {
                    prompt_tokens: tokens(system_prompt@) as usize,
                    history_tokens: history_tokens(turn_views(history@)) as usize,
                    turns: history@.len() as usize,
                    search_tokens: tokens(search_context@) as usize,
                    total: total as usize,
                    over_budget: if total > MAX_CONTEXT_TOKENS {
                        (total - MAX_CONTEXT_TOKENS) as usize
                    } else {
                        0
                    },
                }),
                None => total > usize::MAX,
            }
        }),
{
    let prompt_tokens: usize = estimate_tokens(system_prompt);
    let search_tokens: usize = estimate_tokens(search_context);
    let ghost h = turn_views(history@);
    let mut sum: usize = 0;
    let mut i: usize = history.len();
    assert(h.skip(h.len() as int) =~= Seq::empty());
    while i > 0
        invariant
            i <= history@.len(),
            h == turn_views(history@),
            sum == history_tokens(h.skip(i as int)),
        decreases i,
    {
        i -= 1;
        let role: usize = estimate_tokens(history[i].0.as_str());
        let content: usize = estimate_tokens(history[i].1.as_str());
        assert(h.skip(i as int).drop_first() =~= h.skip(i + 1));
        proof {
            lemma_history_tokens_suffix(h, i as int);
        }
        match role.checked_add(content) {
            Some(pair) => match sum.checked_add(pair) {
                Some(n) => {
                    sum = n;
                },
                None => {
                    return None;
                },
            },
            None => {
                return None;
            },
        }
    }
    assert(h.skip(0) =~= h);
    match prompt_tokens.checked_add(sum) {
        Some(part) => match part.checked_add(search_tokens) {
            Some(total) => Some(
                ContextStats {
                    prompt_tokens,
                    history_tokens: sum,
                    turns: history.len(),
                    search_tokens,
                    total,
                    over_budget: if total > MAX_CONTEXT_TOKENS {
                        total - MAX_CONTEXT_TOKENS
                    } else {
                        0
                    },
                },
            ),
            None => None,
        },
        None => None,
    }
}

proof fn lemma_history_tokens_suffix(h: Seq<(Seq<char>, Seq<char>)>, i: int)
    requires
        0 <= i <= h.len(),
    ensures
        history_tokens(h.skip(i)) <= history_tokens(h),
    decreases i,
{
    if i == 0 {
        assert(h.skip(0) =~= h);
    } else {
        assert(h.skip(i - 1).drop_first() =~= h.skip(i));
        lemma_history_tokens_suffix(h, i - 1);
    }
}

/// A history within both limits is not trimmed.
pub proof fn law_whole_history(h: Seq<(Seq<char>, Seq<char>)>, max_turns: int, max_tokens: int)
    requires
        h.len() <= max_turns,
        history_tokens(h) <= max_tokens,
    ensures
        trimmed_history(h, max_turns, max_tokens) == h,
{
    let n = h.len() as int;
    lemma_kept_turns(h, n, max_tokens, 0);
    let k = kept_turns(h, n, max_tokens, 0);
    if 0 < k < n {
        lemma_fewer_tokens(h, k + 1);
    }
    assert(last_turns(h, n) =~= h);
}

proof fn lemma_fewer_tokens(h: Seq<(Seq<char>, Seq<char>)>, k: int)
    requires
        0 <= k <= h.len(),
    ensures
        history_tokens(last_turns(h, k)) <= history_tokens(h),
    decreases h.len(),
{
    if k == h.len() {
        assert(last_turns(h, k) =~= h);
    } else {
        let t = h.drop_first();
        assert(last_turns(t, k) =~= last_turns(h, k));
        lemma_fewer_tokens(t, k);
    }
}

/// A text has a token for four characters, or for two Chinese, Japanese or Korean
/// letters, and one more; an empty text has none.
pub proof fn law_tokens(s: Seq<char>)
    ensures
        s.len() == 0 ==> tokens(s) == 0,
        s.len() > 0 && (forall|i: int|
            0 <= i < s.len() ==> !chars::is_cjk_letter(#[trigger] s[i])) ==> tokens(s) == s.len() / 4
            + 1,
        s.len() > 0 && (forall|i: int|
            0 <= i < s.len() ==> chars::is_cjk_letter(#[trigger] s[i])) ==> tokens(s) == s.len() / 2
            + 1,
{
    lemma_count_letters(s);
}

proof fn lemma_count_letters(s: Seq<char>)
    ensures
        (forall|i: int| 0 <= i < s.len() ==> !chars::is_cjk_letter(#[trigger] s[i]))
            ==> find::count_in(s, CharClass::CjkLetter) == 0,
        (forall|i: int| 0 <= i < s.len() ==> chars::is_cjk_letter(#[trigger] s[i]))
            ==> find::count_in(s, CharClass::CjkLetter) == s.len(),
    decreases s.len(),
{
    if s.len() > 0 {
        let t = s.drop_last();
        lemma_count_letters(t);
        assert(forall|i: int| 0 <= i < t.len() ==> #[trigger] t[i] == s[i]);
        assert(s.last() == s[s.len() - 1]);
    }
}

/// The tokens of a history are those of all its turns together.
pub proof fn law_history_tokens(h: Seq<(Seq<char>, Seq<char>)>, turn: (Seq<char>, Seq<char>))
    ensures
        history_tokens(h.push(turn)) == history_tokens(h) + tokens(turn.0) + tokens(turn.1),
        history_tokens(Seq::empty()) == 0,
    decreases h.len(),
{
    if h.len() == 0 {
        reveal_with_fuel(history_tokens, 2);
        assert(h.push(turn).drop_first() =~= Seq::empty());
    } else {
        law_history_tokens(h.drop_first(), turn);
        assert(h.push(turn).drop_first() =~= h.drop_first().push(turn));
    }
}

/// A context that is cut is cut as late as can be: the part that is looked at, four
/// characters for a token, is taken as far as one character more would be too much,
/// and then back to the newline that is the last one in it or right behind it, where
/// there is one.
pub proof fn law_cut_is_late(s: Seq<char>, max_tokens: int) -> (n: int)
    requires
        max_tokens >= 0,
        tokens(s) > max_tokens,
    ensures
        ({
            let r = truncated_context(s, max_tokens);
            let limit = if 4 * max_tokens < s.len() {
                4 * max_tokens
            } else {
                s.len() as int
            };
            &&& 0 <= n <= limit
            &&& tokens(s.take(n)) <= max_tokens
            &&& n < limit ==> tokens(s.take(n + 1)) > max_tokens
            &&& r == s.take(r.len() as int)
            &&& r.len() <= n
            &&& r.len() < n ==> s[r.len() as int] == '\n'
            &&& forall|i: int| r.len() < i <= n && i < limit ==> #[trigger] s[i] != '\n'
        }),
{
    let part = edit::first_chars(s, 4 * max_tokens);
    let n = fitting(part, max_tokens, 0);
    let head = edit::first_chars(part, n + 1);
    let k = CharClass::Is('\n');
    assert(part.take(0) =~= Seq::empty());
    lemma_fitting(part, max_tokens, 0);
    find::law_last_index(head, k);
    assert(part.take(n) =~= s.take(n));
    if n < part.len() {
        assert(part.take(n + 1) =~= s.take(n + 1));
    }
    let r = truncated_context(s, max_tokens);
    assert forall|i: int| r.len() < i <= n && i < part.len() implies #[trigger] s[i] != '\n' by {
        assert(head[i] == s[i]);
    }
    if let Some(i) = find::last_index(head, k) {
        assert(part.take(i) =~= s.take(i));
        assert(head[i] == s[i]);
    }
    n
}

} // verus!
