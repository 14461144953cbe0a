//! The spell-check engine over a Hunspell dictionary, and the tokenizer that
//! splits text into words with their positions.

use vstd::prelude::*;

use crate::store::{keep, lemma_keep_step};
use crate::text::{chars_of, is_white_space};

verus! {

#[verifier::external_type_specification]
#[verifier::external_body]
#[verifier::reject_recursive_types(S)]
pub struct ExDictionary<S>(spellbook::Dictionary<S>);

#[verifier::external_type_specification]
#[verifier::external_body]
pub struct ExHashBuilder(spellbook::DefaultHashBuilder);

/// What one loaded spellbook dictionary answers for each word: whether it
/// accepts the word, and the suggestions it gives for it. It is a property
/// of the dictionary value, not of the texts it was parsed from: spellbook
/// seeds the hash of each table it builds, so two dictionaries parsed from
/// the same texts need not answer alike.
pub uninterp spec fn dictionary_answers(d: spellbook::Dictionary) -> Map<Seq<char>, (bool, Seq<Seq<char>>)>;

/// The texts of a list of strings.
pub open spec fn string_views(v: Seq<String>) -> Seq<Seq<char>> {
    v.map_values(|s: String| s@)
}

/// Whether `aff` and `dic` parse as a dictionary.
pub uninterp spec fn spellbook_parses(aff: Seq<char>, dic: Seq<char>) -> bool;

/// A spell-check engine over one dictionary.
pub struct Engine {
    dict: spellbook::Dictionary,
    aff: Ghost<Seq<char>>,
    dic: Ghost<Seq<char>>,
}

/// `spellbook::Dictionary::new`: parses the affix and word-list sources.
/// Claimed: it succeeds exactly when the sources parse (a function of the
/// two texts alone).
#[verifier::external_body]
fn dictionary_new(aff: &str, dic: &str) -> (r: Option<spellbook::Dictionary>)
    ensures
        r is Some == spellbook_parses(aff@, dic@),
{
    spellbook::Dictionary::new(aff, dic).ok()
}

/// `spellbook::Dictionary::check` on the engine's dictionary. Claimed: the
/// answer depends on that dictionary value and the word alone (checking
/// reads the dictionary's tables and changes nothing), so asking the same
/// dictionary twice gives the same answer. Nothing is claimed across
/// dictionaries.
#[verifier::external_body]
fn dictionary_check(e: &Engine, word: &str) -> (r: bool)
    ensures
        r == dictionary_answers(e.dict)[word@].0,
{
    e.dict.check(word)
}

/// `spellbook::Dictionary::suggest` on the engine's dictionary (it clears the
/// output vector, then fills it). Claimed: the suggestions depend on that
/// dictionary value and the word alone, as for `check`; what they are is
/// left to the name.
#[verifier::external_body]
fn dictionary_suggest(e: &Engine, word: &str) -> (r: Vec<String>)
    ensures
        string_views(r@) == dictionary_answers(e.dict)[word@].1,
{
    let mut out = Vec::new();
    e.dict.suggest(word, &mut out);
    out
}

/// Why an engine could not be built.
#[derive(Debug)]
pub enum EngineError {
    /// A dictionary file could not be read (its path and the reason).
    Read { path: String, message: String },
    /// The dictionary sources did not parse.
    Parse,
}

impl Engine {
    /// The affix source the engine was built from.
    pub closed spec fn aff_spec(&self) -> Seq<char> {
        self.aff@
    }

    /// The word-list source the engine was built from.
    pub closed spec fn dic_spec(&self) -> Seq<char> {
        self.dic@
    }

    /// What the engine's dictionary answers for each word.
    pub closed spec fn answers(&self) -> Map<Seq<char>, (bool, Seq<Seq<char>>)> {
        dictionary_answers(self.dict)
    }

    /// An engine over the dictionary of raw `.aff` and `.dic` contents.
    pub fn new(aff: &str, dic: &str) -> (r: Result<Engine, EngineError>)
        ensures
            r is Ok == spellbook_parses(aff@, dic@),
            r is Err ==> r matches Err(EngineError::Parse),
            r matches Ok(e) ==> e.aff_spec() == aff@ && e.dic_spec() == dic@,
    {
        match dictionary_new(aff, dic) {
            Some(dict) => Ok(Engine { dict, aff: Ghost(aff@), dic: Ghost(dic@) }),
            None => Err(EngineError::Parse),
        }
    }

    /// Whether the dictionary accepts `word`.
    pub fn check(&self, word: &str) -> (r: bool)
        ensures
            r == self.answers()[word@].0,
    {
        dictionary_check(self, word)
    }

    /// Spelling suggestions for `word`.
    pub fn suggest(&self, word: &str) -> (r: Vec<String>)
        ensures
            string_views(r@) == self.answers()[word@].1,
    {
        dictionary_suggest(self, word)
    }
}

} // verus!

verus! {

// ---- Tokenizing ------------------------------------------------------------------

/// Punctuation stripped from both ends of a token.
pub open spec fn is_punct(c: char) -> bool {
    c == '.' || c == ',' || c == ';' || c == ':' || c == '!' || c == '?' || c == '"' || c == '\''
        || c == '(' || c == ')' || c == '[' || c == ']' || c == '{' || c == '}'
}

pub fn is_punctuation(c: char) -> (r: bool)
    ensures
        r == is_punct(c),
{
    c == '.' || c == ',' || c == ';' || c == ':' || c == '!' || c == '?' || c == '"' || c == '\''
        || c == '(' || c == ')' || c == '[' || c == ']' || c == '{' || c == '}'
}

pub open spec fn strip_start(s: Seq<char>) -> Seq<char>
    decreases s.len(),
{
    if s.len() > 0 && is_punct(s[0]) {
        strip_start(s.drop_first())
    } else {
        s
    }
}

pub open spec fn strip_end(s: Seq<char>) -> Seq<char>
    decreases s.len(),
{
    if s.len() > 0 && is_punct(s.last()) {
        strip_end(s.drop_last())
    } else {
        s
    }
}

/// `s` without its surrounding punctuation.
pub open spec fn strip_punct(s: Seq<char>) -> Seq<char> {
    strip_end(strip_start(s))
}

/// Law: the marks stripped from the ends of a word are exactly `.` `,` `;`
/// `:` `!` `?` `"` `'` `(` `)` `[` `]` `{` `}`. For a word `w` that holds none
/// of them, one of them before or after `w` is removed and `w` is left; any
/// other char before or after `w` is kept.
pub proof fn lemma_strip_marks(w: Seq<char>, c: char)
    requires
        forall|i: int|
            0 <= i < w.len() ==> !(#[trigger] w[i] == '.' || w[i] == ',' || w[i] == ';' || w[i]
                == ':' || w[i] == '!' || w[i] == '?' || w[i] == '"' || w[i] == '\'' || w[i] == '('
                || w[i] == ')' || w[i] == '[' || w[i] == ']' || w[i] == '{' || w[i] == '}'),
    ensures
        strip_punct(w) == w,
        (c == '.' || c == ',' || c == ';' || c == ':' || c == '!' || c == '?' || c == '"' || c
            == '\'' || c == '(' || c == ')' || c == '[' || c == ']' || c == '{' || c == '}') ==> {
            &&& strip_punct(w.push(c)) == w
            &&& strip_punct(seq![c] + w) == w
            &&& strip_punct(seq![c] + w.push(c)) == w
        },
        !(c == '.' || c == ',' || c == ';' || c == ':' || c == '!' || c == '?' || c == '"' || c
            == '\'' || c == '(' || c == ')' || c == '[' || c == ']' || c == '{' || c == '}') ==> {
            &&& strip_punct(w.push(c)) == w.push(c)
            &&& strip_punct(seq![c] + w) == seq![c] + w
        },
{
    if w.len() > 0 {
        assert(!is_punct(w[0]));
        assert(!is_punct(w[w.len() - 1]));
    }
    assert(strip_start(w) == w);
    assert(strip_end(w) == w);
    let a = w.push(c);
    let b = seq![c] + w;
    let ab = seq![c] + w.push(c);
    assert(a.drop_last() =~= w);
    assert(b.drop_first() =~= w);
    assert(ab.drop_first() =~= a);
    assert(a[a.len() - 1] == c);
    assert(b[0] == c);
    assert(ab[0] == c);
    if w.len() > 0 {
        assert(a[0] == w[0]);
        assert(b[b.len() - 1] == w[w.len() - 1]);
    } else {
        assert(b =~= seq![c]);
        assert(b.drop_last() =~= Seq::<char>::empty());
        assert(a =~= seq![c]);
        assert(a.drop_first() =~= Seq::<char>::empty());
    }
    if is_punct(c) {
        assert(strip_start(a) == (if w.len() > 0 { a } else { Seq::<char>::empty() }));
        assert(strip_start(b) == w);
        assert(strip_start(ab) == strip_start(a));
    } else {
        assert(strip_start(a) == a);
        assert(strip_end(a) == a);
        assert(strip_start(b) == b);
        assert(strip_end(b) == b);
    }
}

/// Removes surrounding punctuation, keeping any inside the word.
pub fn strip_surrounding_punctuation(s: &str) -> (r: String)
    ensures
        r@ == strip_punct(s@),
{
    let cs = chars_of(s);
    let r = strip_chars(&cs, 0, cs.len());
    assert(cs@.subrange(0, cs.len() as int) =~= s@);
    crate::text::string_from_chars(&r)
}

/// The chars `from..to` of `cs` without surrounding punctuation.
fn strip_chars(cs: &Vec<char>, from: usize, to: usize) -> (r: Vec<char>)
    requires
        from <= to <= cs.len(),
    ensures
        r@ == strip_punct(cs@.subrange(from as int, to as int)),
{
    let mut i: usize = from;
    assert(cs@.subrange(from as int, to as int) =~= cs@.subrange(i as int, to as int));
    while i < to && is_punctuation(cs[i])
        invariant
            from <= i <= to <= cs.len(),
            strip_start(cs@.subrange(from as int, to as int)) == strip_start(
                cs@.subrange(i as int, to as int),
            ),
        decreases to - i,
    {
        assert(cs@.subrange(i as int, to as int).drop_first() =~= cs@.subrange(i + 1, to as int));
        i = i + 1;
    }
    let mut j: usize = to;
    while j > i && is_punctuation(cs[j - 1])
        invariant
            from <= i <= j <= to <= cs.len(),
            strip_punct(cs@.subrange(from as int, to as int)) == strip_end(
                cs@.subrange(i as int, j as int),
            ),
        decreases j,
    {
        assert(cs@.subrange(i as int, j as int).drop_last() =~= cs@.subrange(i as int, j - 1));
        j = j - 1;
    }
    let mut r: Vec<char> = Vec::new();
    let mut k: usize = i;
    while k < j
        invariant
            i <= k <= j <= cs.len(),
            r@ == cs@.subrange(i as int, k as int),
        decreases j - k,
    {
        r.push(cs[k]);
        k = k + 1;
        assert(r@ =~= cs@.subrange(i as int, k as int));
    }
    r
}

/// The maximal runs of non-white-space chars of `s`, as `[start, end)`
/// char ranges in order.
pub open spec fn word_runs(s: Seq<char>) -> Seq<(int, int)>
    decreases s.len(),
{
    if s.len() == 0 {
        Seq::empty()
    } else {
        let n = s.len() - 1;
        let r = word_runs(s.drop_last());
        if is_white_space(s[n]) {
            r
        } else if n > 0 && !is_white_space(s[n - 1]) {
            r.update(r.len() - 1, (r.last().0, n + 1))
        } else {
            r.push((n, n + 1))
        }
    }
}

/// Law: the runs are exactly the maximal stretches of non-white-space, in
/// order. Each run lies inside the text, holds no white space, is bounded by
/// white space or the ends of the text, comes strictly after the one before,
/// and every non-white-space char lies in one of them.
pub proof fn lemma_word_runs_are_words(s: Seq<char>)
    ensures
        forall|k: int|
            0 <= k < word_runs(s).len() ==> 0 <= (#[trigger] word_runs(s)[k]).0 < word_runs(s)[k].1
                <= s.len(),
        forall|k: int, c: int|
            0 <= k < word_runs(s).len() && (#[trigger] word_runs(s)[k]).0 <= c < word_runs(s)[k].1
                ==> !is_white_space(#[trigger] s[c]),
        forall|k: int|
            0 <= k < word_runs(s).len() && (#[trigger] word_runs(s)[k]).0 > 0 ==> is_white_space(
                s[word_runs(s)[k].0 - 1],
            ),
        forall|k: int|
            0 <= k < word_runs(s).len() && (#[trigger] word_runs(s)[k]).1 < s.len()
                ==> is_white_space(s[word_runs(s)[k].1]),
        forall|j: int, k: int|
            0 <= j < k < word_runs(s).len() ==> (#[trigger] word_runs(s)[j]).1 < (
            #[trigger] word_runs(s)[k]).0,
        forall|c: int|
            0 <= c < s.len() && !is_white_space(#[trigger] s[c]) ==> exists|k: int|
                0 <= k < word_runs(s).len() && (#[trigger] word_runs(s)[k]).0 <= c < word_runs(
                    s,
                )[k].1,
        s.len() > 0 && !is_white_space(s.last()) ==> word_runs(s).len() > 0 && word_runs(s).last().1
            == s.len(),
    decreases s.len(),
{
    if s.len() > 0 {
        let t = s.drop_last();
        let n = s.len() - 1;
        lemma_word_runs_are_words(t);
        let rt = word_runs(t);
        let r = word_runs(s);
        assert forall|c: int| 0 <= c < n implies t[c] == s[c] by {}
        if is_white_space(s[n]) {
            assert(r == rt);
            assert forall|c: int|
                0 <= c < s.len() && !is_white_space(#[trigger] s[c]) implies exists|k: int|
                    0 <= k < r.len() && (#[trigger] r[k]).0 <= c < r[k].1 by {
                assert(!is_white_space(t[c]));
            }
        } else if n > 0 && !is_white_space(s[n - 1]) {
            assert(!is_white_space(t.last()));
            let last = rt.len() - 1;
            assert(r == rt.update(last, (rt.last().0, n + 1)));
            assert forall|k: int, c: int|
                0 <= k < r.len() && (#[trigger] r[k]).0 <= c < r[k].1 implies !is_white_space(
                #[trigger] s[c]) by {
                if c < n {
                    assert(rt[k].0 <= c);
                    if k < last {
                        assert(rt[k] == r[k]);
                        assert(!is_white_space(t[c]));
                    } else {
                        assert(rt[k].0 <= c < rt[k].1);
                        assert(!is_white_space(t[c]));
                    }
                }
            }
            assert forall|k: int|
                0 <= k < r.len() && (#[trigger] r[k]).0 > 0 implies is_white_space(
                s[r[k].0 - 1],
            ) by {
                assert(rt[k].0 == r[k].0);
                assert(is_white_space(t[rt[k].0 - 1]));
            }
            assert forall|k: int|
                0 <= k < r.len() && (#[trigger] r[k]).1 < s.len() implies is_white_space(
                s[r[k].1],
            ) by {
                assert(k < last);
                assert(rt[k] == r[k]);
                if rt[k].1 == n {
                    assert(rt[k].1 <= rt[last].0);
                }
                assert(is_white_space(t[rt[k].1]));
            }
            assert forall|j: int, k: int|
                0 <= j < k < r.len() implies (#[trigger] r[j]).1 < (#[trigger] r[k]).0 by {
                assert(rt[j].1 < rt[k].0);
                assert(rt[j] == r[j]);
                assert(rt[k].0 == r[k].0);
            }
            assert forall|c: int|
                0 <= c < s.len() && !is_white_space(#[trigger] s[c]) implies exists|k: int|
                    0 <= k < r.len() && (#[trigger] r[k]).0 <= c < r[k].1 by {
                if c == n {
                    assert(rt[last].0 < n);
                    assert(r[last].0 <= c < r[last].1);
                } else {
                    assert(!is_white_space(t[c]));
                    let k = choose|k: int| 0 <= k < rt.len() && (#[trigger] rt[k]).0 <= c < rt[k].1;
                    assert(r[k].0 <= c < r[k].1);
                }
            }
        } else {
            assert(r == rt.push((n, n + 1)));
            assert forall|k: int| 0 <= k < rt.len() implies (#[trigger] rt[k]).1 < n by {
                if rt[k].1 == n {
                    assert(!is_white_space(t[n - 1]));
                }
            }
            assert forall|k: int, c: int|
                0 <= k < r.len() && (#[trigger] r[k]).0 <= c < r[k].1 implies !is_white_space(
                #[trigger] s[c]) by {
                if k < rt.len() {
                    assert(rt[k] == r[k]);
                    assert(!is_white_space(t[c]));
                }
            }
            assert forall|k: int|
                0 <= k < r.len() && (#[trigger] r[k]).0 > 0 implies is_white_space(
                s[r[k].0 - 1],
            ) by {
                if k < rt.len() {
                    assert(rt[k] == r[k]);
                    assert(is_white_space(t[rt[k].0 - 1]));
                }
            }
            assert forall|k: int|
                0 <= k < r.len() && (#[trigger] r[k]).1 < s.len() implies is_white_space(
                s[r[k].1],
            ) by {
                assert(rt[k] == r[k]);
                assert(is_white_space(t[rt[k].1]));
            }
            assert forall|j: int, k: int|
                0 <= j < k < r.len() implies (#[trigger] r[j]).1 < (#[trigger] r[k]).0 by {
                assert(rt[j] == r[j]);
                if k < rt.len() {
                    assert(rt[k] == r[k]);
                    assert(rt[j].1 < rt[k].0);
                }
            }
            assert forall|c: int|
                0 <= c < s.len() && !is_white_space(#[trigger] s[c]) implies exists|k: int|
                    0 <= k < r.len() && (#[trigger] r[k]).0 <= c < r[k].1 by {
                if c == n {
                    assert(r[rt.len() as int].0 <= c < r[rt.len() as int].1);
                } else {
                    assert(!is_white_space(t[c]));
                    let k = choose|k: int| 0 <= k < rt.len() && (#[trigger] rt[k]).0 <= c < rt[k].1;
                    assert(r[k] == rt[k]);
                }
            }
        }
    }
}

/// Bytes of a char in UTF-8.
pub open spec fn utf8_width(c: char) -> int {
    let u = c as u32;
    if u < 0x80 {
        1
    } else if u < 0x800 {
        2
    } else if u < 0x10000 {
        3
    } else {
        4
    }
}

/// Bytes of a char sequence in UTF-8.
pub open spec fn utf8_len(s: Seq<char>) -> int
    decreases s.len(),
{
    if s.len() == 0 {
        0
    } else {
        utf8_len(s.drop_last()) + utf8_width(s.last())
    }
}

/// A word of the input: its text without surrounding punctuation, and where
/// its raw run starts and ends (bytes) and starts (chars) in the input.
#[derive(Debug)]
pub struct Token {
    pub token: String,
    pub start_byte: usize,
    pub end_byte: usize,
    pub start_char: usize,
}

pub open spec fn token_view(t: Token) -> (Seq<char>, int, int, int) {
    (t.token@, t.start_byte as int, t.end_byte as int, t.start_char as int)
}

pub open spec fn token_views(s: Seq<Token>) -> Seq<(Seq<char>, int, int, int)> {
    s.map_values(|t: Token| token_view(t))
}

/// The token a run of `s` gives (possibly with empty text).
pub open spec fn run_token(s: Seq<char>, run: (int, int)) -> (Seq<char>, int, int, int) {
    (strip_punct(s.subrange(run.0, run.1)), utf8_len(s.take(run.0)), utf8_len(s.take(run.1)), run.0)
}

/// The tokens of `s`: each maximal run of non-white-space, stripped of
/// surrounding punctuation, skipping runs that were all punctuation.
pub open spec fn tokens_of(s: Seq<char>) -> Seq<(Seq<char>, int, int, int)> {
    keep(
        word_runs(s).map_values(|r: (int, int)| run_token(s, r)),
        |t: (Seq<char>, int, int, int)| t.0.len() > 0,
    )
}

fn utf8_char_width(c: char) -> (w: usize)
    ensures
        w == utf8_width(c),
{
    let u = c as u32;
    if u < 0x80 {
        1
    } else if u < 0x800 {
        2
    } else if u < 0x10000 {
        3
    } else {
        4
    }
}

proof fn lemma_utf8_len_bound(s: Seq<char>)
    ensures
        s.len() <= utf8_len(s) <= 4 * s.len(),
    decreases s.len(),
{
    if s.len() > 0 {
        lemma_utf8_len_bound(s.drop_last());
    }
}

fn runs_of(cs: &Vec<char>) -> (runs: Vec<(usize, usize)>)
    ensures
        runs@.map_values(|r: (usize, usize)| (r.0 as int, r.1 as int)) == word_runs(cs@),
        forall|k: int|
            0 <= k < runs.len() ==> (#[trigger] runs@[k]).0 < runs@[k].1 <= cs.len(),
{
    let mut runs: Vec<(usize, usize)> = Vec::new();
    for i in 0..cs.len()
        invariant
            runs@.map_values(|r: (usize, usize)| (r.0 as int, r.1 as int)) == word_runs(
                cs@.take(i as int),
            ),
            forall|k: int| 0 <= k < runs.len() ==> (#[trigger] runs@[k]).0 < runs@[k].1 <= i,
            i > 0 && !is_white_space(cs@[i - 1]) ==> runs.len() > 0 && runs@[runs.len() - 1].1
                == i,
    {
        proof {
            assert(cs@.take(i + 1).drop_last() =~= cs@.take(i as int));
            assert(cs@.take(i + 1)[i as int] == cs@[i as int]);
            if i > 0 {
                assert(cs@.take(i + 1)[i - 1] == cs@[i - 1]);
            }
        }
        let ghost before = runs@.map_values(|r: (usize, usize)| (r.0 as int, r.1 as int));
        let c = cs[i];
        if crate::text::is_whitespace(c) {
        } else if i > 0 && !crate::text::is_whitespace(cs[i - 1]) {
            let last = runs.len() - 1;
            let start = runs[last].0;
            runs.set(last, (start, i + 1));
            assert(runs@.map_values(|r: (usize, usize)| (r.0 as int, r.1 as int)) =~= before.update(
                last as int,
                (before.last().0, i + 1),
            ));
        } else {
            runs.push((i, i + 1));
            assert(runs@.map_values(|r: (usize, usize)| (r.0 as int, r.1 as int)) =~= before.push(
                (i as int, i + 1),
            ));
        }
    }
    assert(cs@.take(cs.len() as int) =~= cs@);
    runs
}

/// Splits `text` into words at Unicode white space and strips each word's
/// surrounding punctuation, keeping where each raw word starts and ends.
pub fn tokenize(text: &str) -> (tokens: Vec<Token>)
    requires
        text@.len() <= usize::MAX / 4,
    ensures
        token_views(tokens@) == tokens_of(text@),
{
    let cs = chars_of(text);
    let runs = runs_of(&cs);
    let ghost rv = runs@.map_values(|r: (usize, usize)| (r.0 as int, r.1 as int));
    // Byte offset of every char position.
    let mut offsets: Vec<usize> = Vec::new();
    offsets.push(0);
    let mut acc: usize = 0;
    for i in 0..cs.len()
        invariant
            cs@ == text@,
            cs@.len() <= usize::MAX / 4,
            offsets.len() == i + 1,
            acc == offsets@[i as int],
            forall|k: int| 0 <= k <= i ==> #[trigger] offsets@[k] == utf8_len(cs@.take(k)),
    {
        proof {
            assert(cs@.take(i + 1).drop_last() =~= cs@.take(i as int));
            lemma_utf8_len_bound(cs@.take(i + 1));
        }
        acc = acc + utf8_char_width(cs[i]);
        offsets.push(acc);
    }
    let ghost all = rv.map_values(|r: (int, int)| run_token(cs@, r));
    let ghost nonempty = |t: (Seq<char>, int, int, int)| t.0.len() > 0;
    let mut tokens: Vec<Token> = Vec::new();
    for k in 0..runs.len()
        invariant
            cs@ == text@,
            rv == runs@.map_values(|r: (usize, usize)| (r.0 as int, r.1 as int)),
            rv == word_runs(cs@),
            all == rv.map_values(|r: (int, int)| run_token(cs@, r)),
            nonempty == (|t: (Seq<char>, int, int, int)| t.0.len() > 0),
            offsets.len() == cs.len() + 1,
            forall|q: int| 0 <= q <= cs.len() ==> #[trigger] offsets@[q] == utf8_len(cs@.take(q)),
            forall|q: int| 0 <= q < runs.len() ==> (#[trigger] runs@[q]).0 < runs@[q].1 <= cs.len(),
            token_views(tokens@) == keep(all.take(k as int), nonempty),
    {
        proof {
            lemma_keep_step(all, nonempty, k as int);
        }
        let (a, b) = runs[k];
        let stripped = strip_chars(&cs, a, b);
        if stripped.len() > 0 {
            let ghost before = token_views(tokens@);
            let t = Token {
                token: crate::text::string_from_chars(&stripped),
                start_byte: offsets[a],
                end_byte: offsets[b],
                start_char: a,
            };
            tokens.push(t);
            proof {
                assert(all[k as int] == run_token(cs@, rv[k as int]));
                assert(token_views(tokens@) =~= before.push(all[k as int]));
            }
        } else {
            assert(all[k as int] == run_token(cs@, rv[k as int]));
        }
    }
    assert(all.take(runs.len() as int) =~= all);
    tokens
}

impl Engine {
    /// Splits `text` into words (see `tokenize`).
    pub fn tokenize(&self, text: &str) -> (tokens: Vec<Token>)
        requires
            text@.len() <= usize::MAX / 4,
        ensures
            token_views(tokens@) == tokens_of(text@),
    {
        tokenize(text)
    }
}

} // verus!
