//! Language selection for user-facing messages.

use vstd::prelude::*;

use crate::text::{
    ascii_lower, ascii_lower_char, is_white_space, lemma_trim_keeps_prefix, chars_of, split, split_spec, starts_with, starts_with_spec, string_of,
    to_ascii_lowercase, trim, trim_spec, views,
};

verus! {

/// Languages of the messages.
#[derive(Debug, Clone, Copy, PartialEq, Eq, Structural)]
pub enum Language {
    Korean,
    English,
}

/// Tests two character vectors for equal contents.
pub fn chars_equal(a: &Vec<char>, b: &Vec<char>) -> (r: bool)
    ensures
        r == (a@ == b@),
{
    if a.len() != b.len() {
        return false;
    }
    let r = starts_with(a, b);
    assert(a@.subrange(0, b@.len() as int) =~= a@);
    r
}

/// The language a locale-like hint names: `ko`, `ko_*`, `ko-*` and `korean*`
/// name Korean; `en`, `en_*`, `en-*`, `english*`, `C` and `POSIX` name English;
/// letters are compared without case, after white space is trimmed.
pub open spec fn language_hint_spec(raw: Seq<char>) -> Option<Language> {
    let n = ascii_lower(trim_spec(raw));
    if n.len() == 0 {
        None
    } else if n == seq!['k', 'o'] || starts_with_spec(n, seq!['k', 'o', '_']) || starts_with_spec(
        n,
        seq!['k', 'o', '-'],
    ) || starts_with_spec(n, seq!['k', 'o', 'r', 'e', 'a', 'n']) {
        Some(Language::Korean)
    } else if n == seq!['e', 'n'] || starts_with_spec(n, seq!['e', 'n', '_']) || starts_with_spec(
        n,
        seq!['e', 'n', '-'],
    ) || starts_with_spec(n, seq!['e', 'n', 'g', 'l', 'i', 's', 'h']) || n == seq!['c'] || n
        == seq!['p', 'o', 's', 'i', 'x'] {
        Some(Language::English)
    } else {
        None
    }
}

fn language_hint_chars(raw: &Vec<char>) -> (r: Option<Language>)
    ensures
        r == language_hint_spec(raw@),
{
    let t = trim(raw);
    let n = to_ascii_lowercase(&t);
    if n.len() == 0 {
        return None;
    }
    let ko = vec!['k', 'o'];
    let ko_us = vec!['k', 'o', '_'];
    let ko_dash = vec!['k', 'o', '-'];
    let korean = vec!['k', 'o', 'r', 'e', 'a', 'n'];
    if chars_equal(&n, &ko) || starts_with(&n, &ko_us) || starts_with(&n, &ko_dash) || starts_with(
        &n,
        &korean,
    ) {
        assert(ko@ =~= seq!['k', 'o']);
        assert(ko_us@ =~= seq!['k', 'o', '_']);
        assert(ko_dash@ =~= seq!['k', 'o', '-']);
        assert(korean@ =~= seq!['k', 'o', 'r', 'e', 'a', 'n']);
        return Some(Language::Korean);
    }
    let en = vec!['e', 'n'];
    let en_us = vec!['e', 'n', '_'];
    let en_dash = vec!['e', 'n', '-'];
    let english = vec!['e', 'n', 'g', 'l', 'i', 's', 'h'];
    let c = vec!['c'];
    let posix = vec!['p', 'o', 's', 'i', 'x'];
    assert(ko@ =~= seq!['k', 'o']);
    assert(ko_us@ =~= seq!['k', 'o', '_']);
    assert(ko_dash@ =~= seq!['k', 'o', '-']);
    assert(korean@ =~= seq!['k', 'o', 'r', 'e', 'a', 'n']);
    assert(en@ =~= seq!['e', 'n']);
    assert(en_us@ =~= seq!['e', 'n', '_']);
    assert(en_dash@ =~= seq!['e', 'n', '-']);
    assert(english@ =~= seq!['e', 'n', 'g', 'l', 'i', 's', 'h']);
    assert(c@ =~= seq!['c']);
    assert(posix@ =~= seq!['p', 'o', 's', 'i', 'x']);
    if chars_equal(&n, &en) || starts_with(&n, &en_us) || starts_with(&n, &en_dash) || starts_with(
        &n,
        &english,
    ) || chars_equal(&n, &c) || chars_equal(&n, &posix) {
        return Some(Language::English);
    }
    None
}

/// Reads a locale-like hint (`ko_KR.UTF-8`, `en-US`, `C`, ...) as a language.
pub fn parse_language_hint(raw: &str) -> (r: Option<Language>)
    ensures
        r == language_hint_spec(raw@),
{
    let v = chars_of(raw);
    language_hint_chars(&v)
}

/// The environment variables that name a language.
pub struct LanguageEnv {
    /// `TREX_LANG`
    pub trex_lang: Option<String>,
    /// `LC_ALL`
    pub lc_all: Option<String>,
    /// `LC_MESSAGES`
    pub lc_messages: Option<String>,
    /// `LANG`
    pub lang: Option<String>,
}

/// What decides the current language: an override for the running scope, and
/// the environment.
pub struct LanguageContext {
    /// The language set for the current scope, if any.
    pub override_language: Option<Language>,
    /// The environment variables.
    pub env: LanguageEnv,
}

/// The language that a variable's value names; none for an absent value.
pub open spec fn variable_hint(v: Option<String>) -> Option<Language> {
    match v {
        Some(s) => language_hint_spec(s@),
        None => None,
    }
}

/// The language of a locale variable: none for an absent or blank value.
pub open spec fn locale_hint(v: Option<String>) -> Option<Language> {
    match v {
        Some(s) => if trim_spec(s@).len() == 0 {
            None
        } else {
            language_hint_spec(s@)
        },
        None => None,
    }
}

/// The current language: the override, then `TREX_LANG`, `LC_ALL`,
/// `LC_MESSAGES`, `LANG`, the first that names a language, and English
/// when none does.
pub open spec fn current_language_spec(ctx: LanguageContext) -> Language {
    if ctx.override_language is Some {
        ctx.override_language->0
    } else if variable_hint(ctx.env.trex_lang) is Some {
        variable_hint(ctx.env.trex_lang)->0
    } else if locale_hint(ctx.env.lc_all) is Some {
        locale_hint(ctx.env.lc_all)->0
    } else if locale_hint(ctx.env.lc_messages) is Some {
        locale_hint(ctx.env.lc_messages)->0
    } else if locale_hint(ctx.env.lang) is Some {
        locale_hint(ctx.env.lang)->0
    } else {
        Language::English
    }
}

fn locale_hint_of(v: &Option<String>) -> (r: Option<Language>)
    ensures
        r == locale_hint(*v),
{
    match v {
        Some(s) => {
            let c = chars_of(s.as_str());
            let t = trim(&c);
            if t.len() == 0 {
                None
            } else {
                language_hint_chars(&c)
            }
        },
        None => None,
    }
}

/// Decides the current language.
pub fn current_language(ctx: &LanguageContext) -> (l: Language)
    ensures
        l == current_language_spec(*ctx),
{
    if let Some(language) = ctx.override_language {
        return language;
    }
    if let Some(value) = &ctx.env.trex_lang {
        if let Some(language) = parse_language_hint(value.as_str()) {
            return language;
        }
    }
    if let Some(language) = locale_hint_of(&ctx.env.lc_all) {
        return language;
    }
    if let Some(language) = locale_hint_of(&ctx.env.lc_messages) {
        return language;
    }
    if let Some(language) = locale_hint_of(&ctx.env.lang) {
        return language;
    }
    Language::English
}

/// Whether the current language is Korean.
pub fn is_korean(ctx: &LanguageContext) -> (b: bool)
    ensures
        b == (current_language_spec(*ctx) == Language::Korean),
{
    current_language(ctx) == Language::Korean
}

/// Picks the Korean or the English text by the current language.
pub fn text<'a>(ctx: &LanguageContext, ko: &'a str, en: &'a str) -> (t: &'a str)
    ensures
        t == (if current_language_spec(*ctx) == Language::Korean {
            ko
        } else {
            en
        }),
{
    if is_korean(ctx) {
        ko
    } else {
        en
    }
}

/// A context whose override is the given language.
pub open spec fn with_override(ctx: LanguageContext, language: Language) -> LanguageContext {
    LanguageContext { override_language: Some(language), env: ctx.env }
}

fn copy_variable(v: &Option<String>) -> (r: Option<String>)
    ensures
        r == *v,
{
    match v {
        Some(s) => Some(s.clone()),
        None => None,
    }
}

/// Runs `f` in a scope whose language is overridden. The caller's context is
/// never changed, so nothing needs restoring afterwards, on any path out of
/// `f`.
pub fn with_language<T, F: FnOnce(&LanguageContext) -> T>(
    ctx: &LanguageContext,
    language: Language,
    f: F,
) -> (r: T)
    requires
        f.requires((&with_override(*ctx, language),)),
    ensures
        f.ensures((&with_override(*ctx, language),), r),
{
    let scoped = LanguageContext {
        override_language: Some(language),
        env: LanguageEnv {
            trex_lang: copy_variable(&ctx.env.trex_lang),
            lc_all: copy_variable(&ctx.env.lc_all),
            lc_messages: copy_variable(&ctx.env.lc_messages),
            lang: copy_variable(&ctx.env.lang),
        },
    };
    f(&scoped)
}

/// One supported language named in an `Accept-Language` header.
pub struct AcceptCandidate {
    /// The language.
    pub language: Language,
    /// Position of its entry among the header's comma-separated entries.
    pub index: usize,
    /// The text after each `q=` parameter of the entry, in order.
    pub q_values: Vec<String>,
}

/// An `AcceptCandidate` as plain values.
pub struct CandidateView {
    pub language: Language,
    pub index: int,
    pub q_values: Seq<Seq<char>>,
}

impl View for AcceptCandidate {
    type V = CandidateView;

    open spec fn view(&self) -> CandidateView {
        CandidateView {
            language: self.language,
            index: self.index as int,
            q_values: crate::strings_view(self.q_values@),
        }
    }
}

/// The views of a list of candidates.
pub open spec fn candidates_view(v: Seq<AcceptCandidate>) -> Seq<CandidateView> {
    v.map_values(|c: AcceptCandidate| c@)
}

/// The `q=` values among an entry's parameters: each parameter is trimmed,
/// and the text after `q=` is kept.
pub open spec fn q_values_spec(params: Seq<Seq<char>>) -> Seq<Seq<char>>
    decreases params.len(),
{
    if params.len() == 0 {
        Seq::empty()
    } else {
        let r = q_values_spec(params.drop_last());
        let t = trim_spec(params.last());
        if starts_with_spec(t, seq!['q', '=']) {
            r.push(t.subrange(2, t.len() as int))
        } else {
            r
        }
    }
}

/// What one comma-separated entry of the header contributes: nothing for a
/// blank entry or one whose language is not supported.
pub open spec fn candidate_spec(index: int, part: Seq<char>) -> Option<CandidateView> {
    let token = trim_spec(part);
    if token.len() == 0 {
        None
    } else {
        let segs = split_spec(token, ';');
        match language_hint_spec(trim_spec(segs[0])) {
            Some(l) => Some(CandidateView { language: l, index, q_values: q_values_spec(segs.drop_first()) }),
            None => None,
        }
    }
}

/// The candidates of the entries, in order.
pub open spec fn candidates_from(parts: Seq<Seq<char>>) -> Seq<CandidateView>
    decreases parts.len(),
{
    if parts.len() == 0 {
        Seq::empty()
    } else {
        let r = candidates_from(parts.drop_last());
        match candidate_spec(parts.len() - 1, parts.last()) {
            Some(c) => r.push(c),
            None => r,
        }
    }
}

/// The supported languages that an `Accept-Language` header names.
pub open spec fn accept_candidates_spec(raw: Seq<char>) -> Seq<CandidateView> {
    candidates_from(split_spec(raw, ','))
}

fn q_values_of(segs: &Vec<Vec<char>>) -> (r: Vec<String>)
    requires
        segs.len() >= 1,
    ensures
        crate::strings_view(r@) == q_values_spec(views(segs@).drop_first()),
{
    let mut r: Vec<String> = Vec::new();
    let mut i: usize = 1;
    let q_eq = vec!['q', '='];
    assert(q_eq@ =~= seq!['q', '=']);
    while i < segs.len()
        invariant
            1 <= i <= segs.len(),
            q_eq@ == seq!['q', '='],
            crate::strings_view(r@) == q_values_spec(views(segs@).subrange(1, i as int)),
        decreases segs.len() - i,
    {
        let t = trim(&segs[i]);
        let ghost pre = views(segs@).subrange(1, i as int);
        let ghost post = views(segs@).subrange(1, i + 1);
        assert(post.drop_last() =~= pre);
        assert(post.last() == segs@[i as int]@);
        if starts_with(&t, &q_eq) {
            let mut rest: Vec<char> = Vec::new();
            let mut k: usize = 2;
            while k < t.len()
                invariant
                    2 <= k <= t.len(),
                    rest@ == t@.subrange(2, k as int),
                decreases t.len() - k,
            {
                rest.push(t[k]);
                k += 1;
                assert(rest@ =~= t@.subrange(2, k as int));
            }
            r.push(string_of(&rest));
            assert(crate::strings_view(r@) =~= q_values_spec(post));
        } else {
            assert(crate::strings_view(r@) =~= q_values_spec(post));
        }
        i += 1;
    }
    assert(views(segs@).subrange(1, segs.len() as int) =~= views(segs@).drop_first());
    r
}

/// Lists the supported languages of an `Accept-Language` header with their
/// entry positions and `q=` values.
pub fn accept_language_candidates(raw: &str) -> (r: Vec<AcceptCandidate>)
    ensures
        candidates_view(r@) == accept_candidates_spec(raw@),
{
    let chars = chars_of(raw);
    let parts = split(&chars, ',');
    let mut r: Vec<AcceptCandidate> = Vec::new();
    let mut i: usize = 0;
    while i < parts.len()
        invariant
            i <= parts.len(),
            candidates_view(r@) == candidates_from(views(parts@).take(i as int)),
        decreases parts.len() - i,
    {
        let ghost pre = views(parts@).take(i as int);
        let ghost post = views(parts@).take(i + 1);
        assert(post.drop_last() =~= pre);
        assert(post.last() == parts@[i as int]@);
        let token = trim(&parts[i]);
        if token.len() > 0 {
            let segs = split(&token, ';');
            proof {
                crate::text::lemma_split_nonempty(token@, ';');
            }
            let first = trim(&segs[0]);
            if let Some(language) = language_hint_chars(&first) {
                let q_values = q_values_of(&segs);
                r.push(AcceptCandidate { language, index: i, q_values });
                assert(candidates_view(r@) =~= candidates_from(post));
            } else {
                assert(candidates_view(r@) =~= candidates_from(post));
            }
        } else {
            assert(candidates_view(r@) =~= candidates_from(post));
        }
        i += 1;
    }
    assert(views(parts@).take(parts.len() as int) =~= views(parts@));
    r
}

/// Law: the candidates of a header come in header order: their entry
/// positions strictly increase and stay below the number of entries.
pub proof fn lemma_candidate_positions_increase(parts: Seq<Seq<char>>)
    ensures
        forall|j: int, k: int|
            0 <= j < k < candidates_from(parts).len() ==> #[trigger] candidates_from(parts)[j].index
                < #[trigger] candidates_from(parts)[k].index,
        forall|k: int|
            0 <= k < candidates_from(parts).len() ==> 0 <= #[trigger] candidates_from(parts)[k].index < parts.len(),
    decreases parts.len(),
{
    if parts.len() > 0 {
        let p = parts.drop_last();
        lemma_candidate_positions_increase(p);
        let r = candidates_from(p);
        if let Some(c) = candidate_spec(parts.len() - 1, parts.last()) {
            let q = r.push(c);
            assert(c.index == parts.len() - 1);
            assert forall|j: int, k: int| 0 <= j < k < q.len() implies #[trigger] q[j].index < #[trigger] q[k].index by {
                assert(q[j] == r[j]);
                if k < r.len() {
                    assert(q[k] == r[k]);
                }
            }
            assert forall|k: int| 0 <= k < q.len() implies 0 <= #[trigger] q[k].index < parts.len() by {
                if k < r.len() {
                    assert(q[k] == r[k]);
                }
            }
        }
    }
}

/// A quality weight, as an order key: the clamped weight's position among the
/// weights from 0 to 1, or `Unordered` for a weight that compares with
/// nothing (not a number).
#[derive(Debug, Clone, Copy, PartialEq, Eq, Structural)]
pub enum Quality {
    Unordered,
    Level(u32),
}

/// A candidate language with its weight.
#[derive(Debug, Clone, Copy)]
pub struct RankedLanguage {
    pub language: Language,
    pub quality: Quality,
    pub index: usize,
}

/// Whether a weight and position win over the best so far: a strictly higher
/// weight, or an equal one at an earlier position.
pub open spec fn beats(q: Quality, index: usize, best_q: Quality, best_index: usize) -> bool {
    match (q, best_q) {
        (Quality::Level(a), Quality::Level(b)) => a > b || (a == b && index < best_index),
        _ => false,
    }
}

/// The winning entry: the first one, replaced by each later one that beats it.
pub open spec fn best_spec(s: Seq<RankedLanguage>) -> Option<RankedLanguage>
    decreases s.len(),
{
    if s.len() == 0 {
        None
    } else {
        match best_spec(s.drop_last()) {
            None => Some(s.last()),
            Some(b) => if beats(s.last().quality, s.last().index, b.quality, b.index) {
                Some(s.last())
            } else {
                Some(b)
            },
        }
    }
}

/// The preferred language among weighted candidates; none when there are none.
pub fn preferred_language(ranked: &Vec<RankedLanguage>) -> (r: Option<Language>)
    ensures
        r == (match best_spec(ranked@) {
            Some(b) => Some(b.language),
            None => None,
        }),
{
    let mut best: Option<RankedLanguage> = None;
    let mut i: usize = 0;
    while i < ranked.len()
        invariant
            i <= ranked.len(),
            best == best_spec(ranked@.take(i as int)),
        decreases ranked.len() - i,
    {
        let e = ranked[i];
        assert(ranked@.take(i + 1).drop_last() =~= ranked@.take(i as int));
        assert(ranked@.take(i + 1).last() == e);
        match best {
            None => {
                best = Some(e);
            },
            Some(b) => {
                let wins = match (e.quality, b.quality) {
                    (Quality::Level(x), Quality::Level(y)) => x > y || (x == y && e.index < b.index),
                    _ => false,
                };
                if wins {
                    best = Some(e);
                }
            },
        }
        i += 1;
    }
    assert(ranked@.take(ranked.len() as int) =~= ranked@);
    match best {
        Some(b) => Some(b.language),
        None => None,
    }
}

/// Every weight is ordered and the positions increase.
pub open spec fn ordered_entries(s: Seq<RankedLanguage>) -> bool {
    &&& forall|k: int| 0 <= k < s.len() ==> #[trigger] s[k].quality is Level
    &&& forall|j: int, k: int| 0 <= j < k < s.len() ==> s[j].index < s[k].index
}

/// The level of an ordered weight.
pub open spec fn level(q: Quality) -> u32 {
    match q {
        Quality::Level(a) => a,
        Quality::Unordered => 0,
    }
}

/// Entry `k` has the highest weight, and every entry before it a lower one.
pub open spec fn first_max(s: Seq<RankedLanguage>, k: int) -> bool {
    &&& 0 <= k < s.len()
    &&& forall|j: int| 0 <= j < s.len() ==> level(#[trigger] s[j].quality) <= level(s[k].quality)
    &&& forall|j: int| 0 <= j < k ==> level(#[trigger] s[j].quality) < level(s[k].quality)
}

proof fn lemma_ordered_prefix(s: Seq<RankedLanguage>)
    requires
        s.len() > 0,
        ordered_entries(s),
    ensures
        ordered_entries(s.drop_last()),
{
    let t = s.drop_last();
    assert forall|k: int| 0 <= k < t.len() implies #[trigger] t[k].quality is Level by {
        assert(t[k] == s[k]);
    }
    assert forall|j: int, k: int| 0 <= j < k < t.len() implies t[j].index < t[k].index by {
        assert(t[j] == s[j] && t[k] == s[k]);
    }
}

/// Law: when every weight is a number and entries come in header order, the
/// language chosen is that of the first entry with the highest weight.
pub proof fn lemma_highest_quality_wins(s: Seq<RankedLanguage>) -> (k: int)
    requires
        s.len() > 0,
        ordered_entries(s),
    ensures
        first_max(s, k),
        best_spec(s) == Some(s[k]),
    decreases s.len(),
{
    let n = s.len() as int;
    let t = s.drop_last();
    if n == 1 {
        assert(t.len() == 0);
        assert(level(s[0].quality) <= level(s[0].quality));
        0
    } else {
        lemma_ordered_prefix(s);
        let k = lemma_highest_quality_wins(t);
        assert(t[k] == s[k]);
        assert(s[n - 1].quality is Level);
        assert(s[k].quality is Level);
        assert(s[k].index < s[n - 1].index);
        if level(s[n - 1].quality) > level(s[k].quality) {
            assert forall|j: int| 0 <= j < n implies level(#[trigger] s[j].quality) <= level(
                s[n - 1].quality,
            ) by {
                if j < n - 1 {
                    assert(t[j] == s[j]);
                }
            }
            assert forall|j: int| 0 <= j < n - 1 implies level(#[trigger] s[j].quality) < level(
                s[n - 1].quality,
            ) by {
                assert(t[j] == s[j]);
            }
            n - 1
        } else {
            assert forall|j: int| 0 <= j < n implies level(#[trigger] s[j].quality) <= level(
                s[k].quality,
            ) by {
                if j < n - 1 {
                    assert(t[j] == s[j]);
                }
            }
            assert forall|j: int| 0 <= j < k implies level(#[trigger] s[j].quality) < level(
                s[k].quality,
            ) by {
                assert(t[j] == s[j]);
            }
            k
        }
    }
}

/// Law: inside `with_language`, the current language is the one given,
/// whatever the environment holds.
pub proof fn lemma_override_decides(ctx: LanguageContext, language: Language)
    ensures
        current_language_spec(with_override(ctx, language)) == language,
{
}


/// Law: the order in which the language is decided. An override decides;
/// without one, `TREX_LANG` decides whenever it names a language, whatever
/// the locale variables hold; then `LC_ALL`, `LC_MESSAGES` and `LANG`, each
/// only when it is not blank and every earlier source names none; English
/// when no source names a language.
pub proof fn lemma_language_priority(ctx: LanguageContext)
    ensures
        ctx.override_language is Some ==> current_language_spec(ctx) == ctx.override_language->0,
        ctx.override_language is None && ctx.env.trex_lang is Some && language_hint_spec(
            (ctx.env.trex_lang->0)@,
        ) is Some ==> current_language_spec(ctx) == language_hint_spec(
            (ctx.env.trex_lang->0)@,
        )->0,
        ctx.override_language is None && variable_hint(ctx.env.trex_lang) is None
            && ctx.env.lc_all is Some && trim_spec((ctx.env.lc_all->0)@).len() > 0
            && language_hint_spec((ctx.env.lc_all->0)@) is Some ==> current_language_spec(ctx)
            == language_hint_spec((ctx.env.lc_all->0)@)->0,
        ctx.override_language is None && variable_hint(ctx.env.trex_lang) is None && locale_hint(
            ctx.env.lc_all,
        ) is None && ctx.env.lc_messages is Some && trim_spec((ctx.env.lc_messages->0)@).len() > 0
            && language_hint_spec((ctx.env.lc_messages->0)@) is Some ==> current_language_spec(ctx)
            == language_hint_spec((ctx.env.lc_messages->0)@)->0,
        ctx.override_language is None && variable_hint(ctx.env.trex_lang) is None && locale_hint(
            ctx.env.lc_all,
        ) is None && locale_hint(ctx.env.lc_messages) is None && ctx.env.lang is Some && trim_spec(
            (ctx.env.lang->0)@,
        ).len() > 0 && language_hint_spec((ctx.env.lang->0)@) is Some ==> current_language_spec(ctx)
            == language_hint_spec((ctx.env.lang->0)@)->0,
        ctx.override_language is None && variable_hint(ctx.env.trex_lang) is None && locale_hint(
            ctx.env.lc_all,
        ) is None && locale_hint(ctx.env.lc_messages) is None && locale_hint(ctx.env.lang) is None
            ==> current_language_spec(ctx) == Language::English,
{
}


proof fn lemma_hint_opens_with(p: Seq<char>, t: Seq<char>)
    requires
        p.len() == 3,
        forall|k: int| 0 <= k < 3 ==> !is_white_space(#[trigger] p[k]) && ascii_lower_char(p[k])
            == p[k],
    ensures
        ascii_lower(trim_spec(p + t)).len() >= 3,
        ascii_lower(trim_spec(p + t)).subrange(0, 3) == p,
{
    let s = p + t;
    assert(s[0] == p[0] && s[2] == p[2]);
    lemma_trim_keeps_prefix(s, 2);
    let r = trim_spec(s);
    let n = ascii_lower(r);
    assert forall|k: int| 0 <= k < 3 implies n[k] == p[k] by {
        assert(r.subrange(0, 3)[k] == s.subrange(0, 3)[k]);
        assert(s[k] == p[k]);
    }
    assert(n.subrange(0, 3) =~= p);
}

/// Law: a hint that opens with `ko_` or `ko-` names Korean, and one that
/// opens with `en_` or `en-` names English, whatever follows (a region, an
/// encoding, trailing white space).
pub proof fn lemma_hint_locale_prefix(t: Seq<char>)
    ensures
        language_hint_spec(seq!['k', 'o', '_'] + t) == Some(Language::Korean),
        language_hint_spec(seq!['k', 'o', '-'] + t) == Some(Language::Korean),
        language_hint_spec(seq!['e', 'n', '_'] + t) == Some(Language::English),
        language_hint_spec(seq!['e', 'n', '-'] + t) == Some(Language::English),
{
    let ku = seq!['k', 'o', '_'];
    let kd = seq!['k', 'o', '-'];
    let eu = seq!['e', 'n', '_'];
    let ed = seq!['e', 'n', '-'];
    lemma_hint_opens_with(ku, t);
    lemma_hint_opens_with(kd, t);
    lemma_hint_opens_with(eu, t);
    lemma_hint_opens_with(ed, t);
    let ne = ascii_lower(trim_spec(eu + t));
    let nd = ascii_lower(trim_spec(ed + t));
    assert(ne[0] == ne.subrange(0, 3)[0]);
    assert(nd[0] == nd.subrange(0, 3)[0]);
    assert(ne.subrange(0, 3)[0] == 'e');
    assert(nd.subrange(0, 3)[0] == 'e');
    assert(ne != seq!['k', 'o']);
    assert(nd != seq!['k', 'o']);
    assert(!starts_with_spec(ne, ku) && !starts_with_spec(ne, kd));
    assert(!starts_with_spec(nd, ku) && !starts_with_spec(nd, kd));
    assert(!starts_with_spec(ne, seq!['k', 'o', 'r', 'e', 'a', 'n'])) by {
        if starts_with_spec(ne, seq!['k', 'o', 'r', 'e', 'a', 'n']) {
            assert(ne.subrange(0, 6)[0] == ne[0]);
        }
    }
    assert(!starts_with_spec(nd, seq!['k', 'o', 'r', 'e', 'a', 'n'])) by {
        if starts_with_spec(nd, seq!['k', 'o', 'r', 'e', 'a', 'n']) {
            assert(nd.subrange(0, 6)[0] == nd[0]);
        }
    }
}


/// Law: the candidates are exactly the entries that name a supported
/// language: each candidate is what its own entry gives, and each entry that
/// names a supported language gives a candidate.
pub proof fn lemma_candidates_exact(parts: Seq<Seq<char>>)
    ensures
        forall|k: int|
            0 <= k < candidates_from(parts).len() ==> candidate_spec(
                #[trigger] candidates_from(parts)[k].index,
                parts[candidates_from(parts)[k].index],
            ) == Some(candidates_from(parts)[k]),
        forall|j: int|
            0 <= j < parts.len() && (#[trigger] candidate_spec(j, parts[j])) is Some ==> exists|k: int|
                0 <= k < candidates_from(parts).len() && #[trigger] candidates_from(parts)[k].index == j,
    decreases parts.len(),
{
    lemma_candidate_positions_increase(parts);
    if parts.len() > 0 {
        let p = parts.drop_last();
        lemma_candidates_exact(p);
        lemma_candidate_positions_increase(p);
        let r = candidates_from(p);
        let out = candidates_from(parts);
        let n = parts.len() - 1;
        assert(parts[n] == parts.last());
        assert forall|k: int| 0 <= k < out.len() implies candidate_spec(
            #[trigger] out[k].index,
            parts[out[k].index],
        ) == Some(out[k]) by {
            if k < r.len() {
                assert(out[k] == r[k]);
                assert(p[r[k].index] == parts[r[k].index]);
            } else {
                assert(candidate_spec(n, parts.last()) is Some);
                assert(out[k] == candidate_spec(n, parts.last())->0);
                assert(candidate_spec(n, parts.last())->0.index == n);
            }
        }
        assert forall|j: int| 0 <= j < parts.len() && (#[trigger] candidate_spec(j, parts[j])) is Some implies exists|k: int|
            0 <= k < out.len() && #[trigger] out[k].index == j by {
            if j < n {
                assert(p[j] == parts[j]);
                assert(candidate_spec(j, p[j]) is Some);
                let k = choose|k: int| 0 <= k < r.len() && #[trigger] r[k].index == j;
                assert(out[k] == r[k]);
            } else {
                assert(out[r.len() as int] == candidate_spec(n, parts.last())->0);
                assert(out[r.len() as int].index == j);
            }
        }
    }
}

} // verus!
