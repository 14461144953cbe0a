//! What the spell-check endpoints compute: request validation, the language
//! a request is checked in, per-token results, and misspellings grouped with
//! their positions.

use vstd::prelude::*;

use crate::engine::{string_views, token_views, tokenize, tokens_of, Engine};
use crate::error::AppError;
use crate::store::{first_index, put_at, Role};
use crate::text::{chars_of, starts_with};

verus! {

broadcast use vstd::string::group_string_axioms;

/// Most characters `text` may hold.
pub const MAX_TEXT_CHARS: usize = 10_000;

/// Most entries `words` may hold.
pub const MAX_WORDS: usize = 1_000;

/// The body of the spell-check endpoints.
#[derive(Debug)]
pub struct SpellCheckRequest {
    /// Free-form text to tokenize and check.
    pub text: Option<String>,
    /// Explicit words to check.
    pub words: Option<Vec<String>>,
    /// A language to check in instead of the tenant's default.
    pub language: Option<String>,
}

/// The request's limits hold and it has some input.
pub open spec fn request_valid(text: Option<String>, words: Option<Vec<String>>) -> bool {
    &&& match text {
        Some(t) => t@.len() <= MAX_TEXT_CHARS,
        None => true,
    }
    &&& match words {
        Some(w) => w.len() <= MAX_WORDS,
        None => true,
    }
    &&& !(text is None && words is None)
}

impl SpellCheckRequest {
    /// Checks the limits (`text` at most 10,000 chars, `words` at most 1,000
    /// entries) and that at least one of `text` and `words` is given.
    pub fn validate(&self) -> (r: Result<(), AppError>)
        ensures
            r is Ok == request_valid(self.text, self.words),
            r matches Err(e) ==> e is Validation,
    {
        match &self.text {
            Some(t) => {
                let n = chars_of(t.as_str()).len();
                if n > MAX_TEXT_CHARS {
                    return Err(AppError::Validation("text: length must be at most 10000".to_string()));
                }
            },
            None => {},
        }
        match &self.words {
            Some(w) => {
                if w.len() > MAX_WORDS {
                    return Err(AppError::Validation("words: length must be at most 1000".to_string()));
                }
            },
            None => {},
        }
        if self.text.is_none() && self.words.is_none() {
            return Err(
                AppError::Validation("Either 'text' or 'words' must be provided".to_string()),
            );
        }
        Ok(())
    }
}

/// Longest API key label, in chars.
pub const MAX_LABEL_CHARS: usize = 100;

/// Longest tenant name, in chars.
pub const MAX_TENANT_NAME_CHARS: usize = 200;

/// Why a `POST /api-keys` body is refused at `now`, if it is.
pub open spec fn key_request_problem(label: Seq<char>, role: Role, expires_at: Option<u64>, now: u64) -> Option<
    Seq<char>,
> {
    if label.len() < 1 || label.len() > MAX_LABEL_CHARS {
        Some("label: length must be between 1 and 100"@)
    } else if role == Role::Platform {
        Some("role: must be admin or standard"@)
    } else {
        match expires_at {
            Some(e) => if e <= now {
                Some("expires_at: must be in the future"@)
            } else {
                None
            },
            None => None,
        }
    }
}

/// The rules of a new key: a label of 1 to 100 chars, the `admin` or
/// `standard` role (platform keys are only ever bootstrapped), and an
/// expiry, when given, after `now`.
pub fn validate_key_request(label: &str, role: Role, expires_at: Option<u64>, now: u64) -> (r: Result<
    (),
    AppError,
>)
    ensures
        match key_request_problem(label@, role, expires_at, now) {
            Some(m) => r matches Err(AppError::Validation(x)) && x@ == m,
            None => r is Ok,
        },
{
    let n = chars_of(label).len();
    if n < 1 || n > MAX_LABEL_CHARS {
        return Err(AppError::Validation("label: length must be between 1 and 100".to_string()));
    }
    if role == Role::Platform {
        return Err(AppError::Validation("role: must be admin or standard".to_string()));
    }
    match expires_at {
        Some(e) => if e <= now {
            return Err(AppError::Validation("expires_at: must be in the future".to_string()));
        },
        None => {},
    }
    Ok(())
}

/// A tenant name of 1 to 200 chars.
pub open spec fn tenant_name_ok(name: Seq<char>) -> bool {
    1 <= name.len() <= MAX_TENANT_NAME_CHARS
}

/// The rule of a new tenant's name.
pub fn validate_tenant_name(name: &str) -> (r: Result<(), AppError>)
    ensures
        r is Ok == tenant_name_ok(name@),
        r matches Err(e) ==> e matches AppError::Validation(m) && m@
            == "name: length must be between 1 and 200"@,
{
    let n = chars_of(name).len();
    if n < 1 || n > MAX_TENANT_NAME_CHARS {
        Err(AppError::Validation("name: length must be between 1 and 200".to_string()))
    } else {
        Ok(())
    }
}

/// What follows the `http://` or `https://` of an origin; `None` for any
/// other scheme.
pub open spec fn origin_authority(o: Seq<char>) -> Option<Seq<char>> {
    if o.len() >= 8 && o.take(8) == "https://"@ {
        Some(o.skip(8))
    } else if o.len() >= 7 && o.take(7) == "http://"@ {
        Some(o.skip(7))
    } else {
        None
    }
}

/// Why an origin to register is refused, if it is: it must be
/// `scheme://host[:port]` over HTTP(S), with no path.
pub open spec fn origin_problem(o: Seq<char>) -> Option<Seq<char>> {
    match origin_authority(o) {
        None => Some("origin: must start with http:// or https://"@),
        Some(rest) => if rest.len() == 0 || rest.contains('/') {
            Some("origin: must be scheme://host[:port] with no path"@)
        } else {
            None
        },
    }
}

/// The rule of a registered origin (see `origin_problem`).
pub fn validate_origin(origin: &str) -> (r: Result<(), AppError>)
    ensures
        match origin_problem(origin@) {
            Some(m) => r matches Err(AppError::Validation(x)) && x@ == m,
            None => r is Ok,
        },
{
    let cs = chars_of(origin);
    let start: usize = if starts_with(&cs, "https://") {
        8
    } else if starts_with(&cs, "http://") {
        7
    } else {
        return Err(AppError::Validation("origin: must start with http:// or https://".to_string()));
    };
    proof {
        reveal_strlit("https://");
        reveal_strlit("http://");
    }
    assert(origin_authority(origin@) == Some(cs@.skip(start as int)));
    let ghost rest = cs@.skip(start as int);
    if cs.len() == start {
        assert(rest.len() == 0);
        return Err(AppError::Validation("origin: must be scheme://host[:port] with no path".to_string()));
    }
    let mut i: usize = start;
    while i < cs.len()
        invariant
            start <= i <= cs.len(),
            rest == cs@.skip(start as int),
            cs@ == origin@,
            origin_authority(origin@) == Some(rest),
            forall|k: int| start <= k < i ==> cs@[k] != '/',
        decreases cs.len() - i,
    {
        if cs[i] == '/' {
            assert(rest[i - start] == '/');
            assert(rest.contains('/'));
            return Err(AppError::Validation("origin: must be scheme://host[:port] with no path".to_string()));
        }
        i = i + 1;
    }
    assert(!rest.contains('/')) by {
        if rest.contains('/') {
            let k = choose|k: int| 0 <= k < rest.len() && rest[k] == '/';
            assert(cs@[k + start] == '/');
        }
    }
    Ok(())
}

/// The language a request is checked in: the explicit override, else the
/// tenant's default, else the server's.
pub fn choose_language(requested: &Option<String>, tenant_language: &Option<String>, default: &String) -> (r:
    String)
    ensures
        r@ == match *requested {
            Some(l) => l@,
            None => match *tenant_language {
                Some(l) => l@,
                None => default@,
            },
        },
{
    match requested {
        Some(l) => l.clone(),
        None => match tenant_language {
            Some(l) => l.clone(),
            None => default.clone(),
        },
    }
}

/// Per-token result of `POST /spellcheck`.
#[derive(Debug)]
pub struct TokenResult {
    pub token: String,
    pub valid: bool,
    pub suggestions: Vec<String>,
}

/// Whether the answers accept `w`.
pub open spec fn accepted(a: Map<Seq<char>, (bool, Seq<Seq<char>>)>, w: Seq<char>) -> bool {
    a[w].0
}

/// The suggestions a result for `w` carries: none for an accepted word,
/// otherwise the dictionary's suggestions for it.
pub open spec fn offered(a: Map<Seq<char>, (bool, Seq<Seq<char>>)>, w: Seq<char>) -> Seq<Seq<char>> {
    if a[w].0 {
        Seq::empty()
    } else {
        a[w].1
    }
}

/// Checks one token: valid tokens carry no suggestions, the others the
/// dictionary's suggestions.
pub fn token_result(engine: &Engine, token: &str) -> (r: TokenResult)
    ensures
        r.token@ == token@,
        r.valid == accepted(engine.answers(), token@),
        string_views(r.suggestions@) == offered(engine.answers(), token@),
{
    let valid = engine.check(token);
    let suggestions = if valid {
        let v: Vec<String> = Vec::new();
        assert(string_views(v@) =~= Seq::<Seq<char>>::empty());
        v
    } else {
        engine.suggest(token)
    };
    TokenResult { token: token.to_string(), valid, suggestions }
}

pub open spec fn result_views(s: Seq<TokenResult>) -> Seq<(Seq<char>, bool)> {
    s.map_values(|r: TokenResult| (r.token@, r.valid))
}

/// The words a request checks: the tokens of `text`, then `words`.
pub open spec fn checked_words(text: Option<Seq<char>>, words: Seq<Seq<char>>) -> Seq<Seq<char>> {
    match text {
        Some(t) => tokens_of(t).map_values(|x: (Seq<char>, int, int, int)| x.0) + words,
        None => words,
    }
}

pub open spec fn word_views(w: Option<Vec<String>>) -> Seq<Seq<char>> {
    match w {
        Some(v) => v@.map_values(|s: String| s@),
        None => Seq::empty(),
    }
}

pub open spec fn text_view(t: Option<String>) -> Option<Seq<char>> {
    match t {
        Some(s) => Some(s@),
        None => None,
    }
}

/// `POST /spellcheck`: one result per token of `text` (in order), then one
/// per entry of `words`.
pub fn spellcheck_results(engine: &Engine, req: &SpellCheckRequest) -> (r: Vec<TokenResult>)
    requires
        req.text matches Some(t) ==> t@.len() <= usize::MAX / 4,
    ensures
        result_views(r@) == checked_words(text_view(req.text), word_views(req.words)).map_values(
            |w: Seq<char>| (w, accepted(engine.answers(), w)),
        ),
        forall|i: int|
            0 <= i < r.len() ==> string_views((#[trigger] r@[i]).suggestions@) == offered(
                engine.answers(),
                r@[i].token@,
            ),
{
    let ghost check = |w: Seq<char>| (w, accepted(engine.answers(), w));
    let mut results: Vec<TokenResult> = Vec::new();
    let ghost first: Seq<Seq<char>> = Seq::empty();
    match &req.text {
        Some(t) => {
            let tokens = tokenize(t.as_str());
            let ghost tw = token_views(tokens@).map_values(|x: (Seq<char>, int, int, int)| x.0);
            for k in 0..tokens.len()
                invariant
                    tw == token_views(tokens@).map_values(|x: (Seq<char>, int, int, int)| x.0),
                    check == (|w: Seq<char>|
                        (w, accepted(engine.answers(), w))),
                    result_views(results@) == tw.take(k as int).map_values(check),
                    forall|i: int|
                        0 <= i < results.len() ==> string_views(
                            (#[trigger] results@[i]).suggestions@,
                        ) == offered(engine.answers(), results@[i].token@),
            {
                let ghost before = result_views(results@);
                results.push(token_result(engine, tokens[k].token.as_str()));
                proof {
                    assert(tw[k as int] == tokens@[k as int].token@);
                    assert(result_views(results@) =~= before.push(check(tw[k as int])));
                    assert(tw.take(k + 1).map_values(check) =~= tw.take(k as int).map_values(
                        check,
                    ).push(check(tw[k as int])));
                }
            }
            proof {
                assert(tw.take(tokens.len() as int) =~= tw);
                first = tw;
            }
        },
        None => {},
    }
    let ghost ws = word_views(req.words);
    match &req.words {
        Some(words) => {
            for k in 0..words.len()
                invariant
                    ws == words@.map_values(|s: String| s@),
                    check == (|w: Seq<char>|
                        (w, accepted(engine.answers(), w))),
                    result_views(results@) == (first + ws.take(k as int)).map_values(check),
                    forall|i: int|
                        0 <= i < results.len() ==> string_views(
                            (#[trigger] results@[i]).suggestions@,
                        ) == offered(engine.answers(), results@[i].token@),
            {
                let ghost before = result_views(results@);
                results.push(token_result(engine, words[k].as_str()));
                proof {
                    assert(result_views(results@) =~= before.push(check(ws[k as int])));
                    assert((first + ws.take(k + 1)).map_values(check) =~= (first + ws.take(
                        k as int,
                    )).map_values(check).push(check(ws[k as int])));
                }
            }
            proof {
                assert(ws.take(words.len() as int) =~= ws);
            }
        },
        None => {
            assert(first + ws =~= first);
        },
    }
    proof {
        assert(checked_words(text_view(req.text), ws) =~= first + ws);
    }
    results
}

} // verus!

verus! {

/// A misspelled token with its positions (chars into `text`).
#[derive(Debug)]
pub struct PositionResult {
    pub token: String,
    pub positions: Vec<usize>,
    pub suggestions: Vec<String>,
}

pub open spec fn named(w: Seq<char>) -> spec_fn((Seq<char>, Seq<int>)) -> bool {
    |g: (Seq<char>, Seq<int>)| g.0 == w
}

/// Occurrences grouped by token in order of first appearance, each group
/// collecting the positions its occurrences carry.
pub open spec fn position_groups(occ: Seq<(Seq<char>, Option<int>)>) -> Seq<(Seq<char>, Seq<int>)>
    decreases occ.len(),
{
    if occ.len() == 0 {
        Seq::empty()
    } else {
        let g = position_groups(occ.drop_last());
        let (w, p) = occ.last();
        let pos = match p {
            Some(q) => seq![q],
            None => Seq::empty(),
        };
        let i = first_index(g, named(w));
        if i >= 0 {
            g.update(i, (w, g[i].1 + pos))
        } else {
            g.push((w, pos))
        }
    }
}

/// The misspelled occurrences of a request: tokens of `text` with their char
/// positions, then the entries of `words`, without a position.
pub open spec fn misspelled(
    a: Map<Seq<char>, (bool, Seq<Seq<char>>)>,
    text: Option<Seq<char>>,
    words: Seq<Seq<char>>,
) -> Seq<(Seq<char>, Option<int>)> {
    let from_text = match text {
        Some(t) => tokens_of(t).map_values(
            |x: (Seq<char>, int, int, int)| (x.0, Some(x.3)),
        ),
        None => Seq::empty(),
    };
    let all = from_text + words.map_values(|w: Seq<char>| (w, None::<int>));
    crate::store::keep(all, |o: (Seq<char>, Option<int>)| !accepted(a, o.0))
}

pub open spec fn position_views(s: Seq<PositionResult>) -> Seq<(Seq<char>, Seq<int>)> {
    s.map_values(|r: PositionResult| (r.token@, r.positions@.map_values(|p: usize| p as int)))
}

/// Every group carries the dictionary's suggestions for its token.
pub open spec fn groups_suggest(s: Seq<PositionResult>, a: Map<Seq<char>, (bool, Seq<Seq<char>>)>) -> bool {
    forall|i: int| 0 <= i < s.len() ==> string_views((#[trigger] s[i]).suggestions@) == a[s[i].token@].1
}

/// Adds one misspelled occurrence to the groups.
fn add_occurrence(
    groups: &mut Vec<PositionResult>,
    engine: &Engine,
    word: &String,
    position: Option<usize>,
)
    requires
        groups_suggest(old(groups)@, engine.answers()),
    ensures
        groups_suggest(final(groups)@, engine.answers()),
        position_views(final(groups)@) == ({
            let g = position_views(old(groups)@);
            let pos = match position {
                Some(q) => seq![q as int],
                None => Seq::empty(),
            };
            let i = first_index(g, named(word@));
            if i >= 0 {
                g.update(i, (word@, g[i].1 + pos))
            } else {
                g.push((word@, pos))
            }
        }),
{
    let ghost g = position_views(groups@);
    let ghost pos = match position {
        Some(q) => seq![q as int],
        None => Seq::<int>::empty(),
    };
    let mut i: usize = 0;
    while i < groups.len()
        invariant
            i <= groups.len(),
            g == position_views(groups@),
            forall|a: int| 0 <= a < i ==> !named(word@)(#[trigger] g[a]),
        ensures
            i <= groups.len(),
            forall|a: int| 0 <= a < i ==> !named(word@)(#[trigger] g[a]),
            i < groups.len() ==> named(word@)(g[i as int]),
        decreases groups.len() - i,
    {
        if groups[i].token == *word {
            break;
        }
        i = i + 1;
    }
    proof {
        crate::store::lemma_first_index(g, named(word@), i as int);
    }
    if i < groups.len() {
        let ghost before = groups@;
        let mut entry = groups.remove(i);
        assert(entry.token@ == word@);
        assert(string_views(entry.suggestions@) == engine.answers()[word@].1);
        match position {
            Some(q) => entry.positions.push(q),
            None => {},
        }
        if entry.suggestions.len() == 0 {
            entry.suggestions = engine.suggest(word.as_str());
        }
        let ghost ev = (entry.token@, entry.positions@.map_values(|p: usize| p as int));
        assert(ev.1 =~= g[i as int].1 + pos);
        groups.insert(i, entry);
        assert(position_views(groups@) =~= g.update(i as int, (word@, g[i as int].1 + pos)));
        assert forall|a: int| 0 <= a < groups@.len() implies string_views(
            (#[trigger] groups@[a]).suggestions@,
        ) == engine.answers()[groups@[a].token@].1 by {
            if a != i {
                assert(groups@[a] == before[a]);
            }
        }
    } else {
        let mut positions: Vec<usize> = Vec::new();
        match position {
            Some(q) => positions.push(q),
            None => {},
        }
        let entry = PositionResult {
            token: word.clone(),
            positions,
            suggestions: engine.suggest(word.as_str()),
        };
        let ghost ev = (entry.token@, entry.positions@.map_values(|p: usize| p as int));
        assert(ev.1 =~= pos);
        let ghost before = groups@;
        groups.push(entry);
        assert(position_views(groups@) =~= g.push((word@, pos)));
        assert forall|a: int| 0 <= a < groups@.len() implies string_views(
            (#[trigger] groups@[a]).suggestions@,
        ) == engine.answers()[groups@[a].token@].1 by {
            if a < before.len() {
                assert(groups@[a] == before[a]);
            }
        }
    }
}

/// `POST /spellcheck/positions`: the misspelled tokens of the request, each
/// once (in order of first appearance) with the char positions of its
/// occurrences in `text`; entries of `words` add no position.
pub fn spellcheck_positions(engine: &Engine, req: &SpellCheckRequest) -> (r: Vec<PositionResult>)
    requires
        req.text matches Some(t) ==> t@.len() <= usize::MAX / 4,
    ensures
        position_views(r@) == position_groups(
            misspelled(engine.answers(), text_view(req.text), word_views(req.words)),
        ),
        groups_suggest(r@, engine.answers()),
{
    let ghost a = engine.answers();
    let ghost bad = |o: (Seq<char>, Option<int>)| !accepted(a, o.0);
    let mut groups: Vec<PositionResult> = Vec::new();
    let ghost mut seen: Seq<(Seq<char>, Option<int>)> = Seq::empty();
    match &req.text {
        Some(t) => {
            let tokens = tokenize(t.as_str());
            let ghost occ = token_views(tokens@).map_values(
                |x: (Seq<char>, int, int, int)| (x.0, Some(x.3)),
            );
            for k in 0..tokens.len()
                invariant
                    occ == token_views(tokens@).map_values(
                        |x: (Seq<char>, int, int, int)| (x.0, Some(x.3)),
                    ),
                    a == engine.answers(),
                    groups_suggest(groups@, engine.answers()),
                    bad == (|o: (Seq<char>, Option<int>)| !accepted(a, o.0)),
                    position_views(groups@) == position_groups(
                        crate::store::keep(occ.take(k as int), bad),
                    ),
            {
                proof {
                    crate::store::lemma_keep_step(occ, bad, k as int);
                    assert(occ[k as int] == (tokens@[k as int].token@, Some(
                        tokens@[k as int].start_char as int,
                    )));
                }
                let tok = &tokens[k];
                if !engine.check(tok.token.as_str()) {
                    add_occurrence(&mut groups, engine, &tok.token, Some(tok.start_char));
                    proof {
                        let kept = crate::store::keep(occ.take(k as int), bad);
                        assert(kept.push(occ[k as int]).drop_last() =~= kept);
                    }
                }
            }
            proof {
                assert(occ.take(tokens.len() as int) =~= occ);
                seen = occ;
            }
        },
        None => {},
    }
    let ghost ws = word_views(req.words).map_values(|w: Seq<char>| (w, None::<int>));
    match &req.words {
        Some(words) => {
            for k in 0..words.len()
                invariant
                    ws == words@.map_values(|s: String| s@).map_values(
                        |w: Seq<char>| (w, None::<int>),
                    ),
                    a == engine.answers(),
                    groups_suggest(groups@, engine.answers()),
                    bad == (|o: (Seq<char>, Option<int>)| !accepted(a, o.0)),
                    position_views(groups@) == position_groups(
                        crate::store::keep(seen + ws.take(k as int), bad),
                    ),
            {
                proof {
                    assert(seen + ws.take(k + 1) =~= (seen + ws.take(k as int)).push(ws[k as int]));
                    crate::store::lemma_keep_step(seen + ws.take(k + 1), bad, (seen.len() + k) as int);
                    assert((seen + ws.take(k + 1)).take((seen.len() + k) as int) =~= seen + ws.take(
                        k as int,
                    ));
                    assert((seen + ws.take(k + 1)).take((seen.len() + k + 1) as int) =~= seen
                        + ws.take(k + 1));
                    assert(ws[k as int] == (words@[k as int]@, None::<int>));
                }
                if !engine.check(words[k].as_str()) {
                    add_occurrence(&mut groups, engine, &words[k], None);
                    proof {
                        let kept = crate::store::keep(seen + ws.take(k as int), bad);
                        assert(kept.push(ws[k as int]).drop_last() =~= kept);
                    }
                }
            }
            proof {
                assert(ws.take(words.len() as int) =~= ws);
            }
        },
        None => {
            assert(seen + ws =~= seen);
        },
    }
    proof {
        let t = match text_view(req.text) {
            Some(tt) => tokens_of(tt).map_values(|x: (Seq<char>, int, int, int)| (x.0, Some(x.3))),
            None => Seq::<(Seq<char>, Option<int>)>::empty(),
        };
        assert(t =~= seen);
        assert(seen + ws =~= t + word_views(req.words).map_values(|w: Seq<char>| (w, None::<int>)));
    }
    groups
}

} // verus!

verus! {

/// Response of `POST /spellcheck`.
#[derive(Debug)]
pub struct SpellCheckResponse {
    pub results: Vec<TokenResult>,
}

/// Response of `POST /spellcheck/positions`.
#[derive(Debug)]
pub struct PositionsResponse {
    pub results: Vec<PositionResult>,
}

/// The query of `GET /health`.
#[derive(Debug)]
pub struct HealthQuery {
    pub verbose: Option<bool>,
}

/// What `GET /health` reports: always `ok`; uptime and the request count
/// only when asked for verbosely.
#[derive(Debug)]
pub struct HealthReport {
    pub status: String,
    pub uptime_seconds: Option<u64>,
    pub request_count: Option<u64>,
}

pub fn health_report(query: &HealthQuery, uptime_seconds: u64, request_count: u64) -> (r: HealthReport)
    ensures
        r.status@ == "ok"@,
        query.verbose == Some(true) ==> r.uptime_seconds == Some(uptime_seconds) && r.request_count
            == Some(request_count),
        query.verbose != Some(true) ==> r.uptime_seconds is None && r.request_count is None,
{
    let verbose = match query.verbose {
        Some(v) => v,
        None => false,
    };
    if verbose {
        HealthReport {
            status: "ok".to_string(),
            uptime_seconds: Some(uptime_seconds),
            request_count: Some(request_count),
        }
    } else {
        HealthReport { status: "ok".to_string(), uptime_seconds: None, request_count: None }
    }
}

} // verus!
