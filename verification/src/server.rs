//! The REST interface's reading of request fields.

use vstd::prelude::*;

use crate::cli::{page_range_spec, push_page_range};
use crate::i18n::{chars_equal, Language};
use crate::text::{
    decimal, lemma_decimal_plain, lemma_parse_u32_decimal, lemma_split_join, lemma_split_whole,
    lemma_trim_unchanged, ascii_lower, chars_of, is_white_space, trim_end_spec, trim_start_spec, contains_char, parse_u32, parse_u32_spec, push_chars, split, split_spec,
    to_ascii_lowercase, trim, trim_spec, views,
};
use crate::{dl_fallback_label, parse_mode_label, DlFallbackMode, ParseMode};

verus! {

/// The body format of a response.
#[derive(Debug, Clone, Copy, PartialEq, Eq, Structural)]
pub enum ResponseFormat {
    Json,
    Csv,
}

/// A request value as compared: trimmed, ASCII letters lower-cased.
pub open spec fn keyword_spec(value: Seq<char>) -> Seq<char> {
    ascii_lower(trim_spec(value))
}

fn keyword(value: &str) -> (k: Vec<char>)
    ensures
        k@ == keyword_spec(value@),
{
    let c = chars_of(value);
    let t = trim(&c);
    to_ascii_lowercase(&t)
}

/// The parsing mode a request names: `auto`, `lattice`, `stream` or `dl`.
pub open spec fn parse_mode_spec(value: Seq<char>) -> Option<ParseMode> {
    let k = keyword_spec(value);
    if k == seq!['a', 'u', 't', 'o'] {
        Some(ParseMode::Auto)
    } else if k == seq!['l', 'a', 't', 't', 'i', 'c', 'e'] {
        Some(ParseMode::Lattice)
    } else if k == seq!['s', 't', 'r', 'e', 'a', 'm'] {
        Some(ParseMode::Stream)
    } else if k == seq!['d', 'l'] {
        Some(ParseMode::Dl)
    } else {
        None
    }
}

/// Reads the `mode` field of a request.
pub fn parse_mode(value: &str) -> (r: Option<ParseMode>)
    ensures
        r == parse_mode_spec(value@),
{
    let k = keyword(value);
    let auto = vec!['a', 'u', 't', 'o'];
    let lattice = vec!['l', 'a', 't', 't', 'i', 'c', 'e'];
    let stream = vec!['s', 't', 'r', 'e', 'a', 'm'];
    let dl = vec!['d', 'l'];
    assert(auto@ =~= seq!['a', 'u', 't', 'o']);
    assert(lattice@ =~= seq!['l', 'a', 't', 't', 'i', 'c', 'e']);
    assert(stream@ =~= seq!['s', 't', 'r', 'e', 'a', 'm']);
    assert(dl@ =~= seq!['d', 'l']);
    if chars_equal(&k, &auto) {
        Some(ParseMode::Auto)
    } else if chars_equal(&k, &lattice) {
        Some(ParseMode::Lattice)
    } else if chars_equal(&k, &stream) {
        Some(ParseMode::Stream)
    } else if chars_equal(&k, &dl) {
        Some(ParseMode::Dl)
    } else {
        None
    }
}

/// The response format a request names: `json` or `csv`.
pub open spec fn parse_format_spec(value: Seq<char>) -> Option<ResponseFormat> {
    let k = keyword_spec(value);
    if k == seq!['j', 's', 'o', 'n'] {
        Some(ResponseFormat::Json)
    } else if k == seq!['c', 's', 'v'] {
        Some(ResponseFormat::Csv)
    } else {
        None
    }
}

/// Reads the `format` field of a request.
pub fn parse_format(value: &str) -> (r: Option<ResponseFormat>)
    ensures
        r == parse_format_spec(value@),
{
    let k = keyword(value);
    let json = vec!['j', 's', 'o', 'n'];
    let csv = vec!['c', 's', 'v'];
    assert(json@ =~= seq!['j', 's', 'o', 'n']);
    assert(csv@ =~= seq!['c', 's', 'v']);
    if chars_equal(&k, &json) {
        Some(ResponseFormat::Json)
    } else if chars_equal(&k, &csv) {
        Some(ResponseFormat::Csv)
    } else {
        None
    }
}

/// The fallback a request names: `auto`, `lattice` or `stream`.
pub open spec fn parse_dl_fallback_spec(value: Seq<char>) -> Option<DlFallbackMode> {
    let k = keyword_spec(value);
    if k == seq!['a', 'u', 't', 'o'] {
        Some(DlFallbackMode::Auto)
    } else if k == seq!['l', 'a', 't', 't', 'i', 'c', 'e'] {
        Some(DlFallbackMode::Lattice)
    } else if k == seq!['s', 't', 'r', 'e', 'a', 'm'] {
        Some(DlFallbackMode::Stream)
    } else {
        None
    }
}

/// Reads the `dl_fallback` field of a request.
pub fn parse_dl_fallback(value: &str) -> (r: Option<DlFallbackMode>)
    ensures
        r == parse_dl_fallback_spec(value@),
{
    let k = keyword(value);
    let auto = vec!['a', 'u', 't', 'o'];
    let lattice = vec!['l', 'a', 't', 't', 'i', 'c', 'e'];
    let stream = vec!['s', 't', 'r', 'e', 'a', 'm'];
    assert(auto@ =~= seq!['a', 'u', 't', 'o']);
    assert(lattice@ =~= seq!['l', 'a', 't', 't', 'i', 'c', 'e']);
    assert(stream@ =~= seq!['s', 't', 'r', 'e', 'a', 'm']);
    if chars_equal(&k, &auto) {
        Some(DlFallbackMode::Auto)
    } else if chars_equal(&k, &lattice) {
        Some(DlFallbackMode::Lattice)
    } else if chars_equal(&k, &stream) {
        Some(DlFallbackMode::Stream)
    } else {
        None
    }
}

/// The Korean or the English text, by the language given.
pub fn localized<'a>(language: Language, ko: &'a str, en: &'a str) -> (t: &'a str)
    ensures
        t == (match language {
            Language::Korean => ko,
            Language::English => en,
        }),
{
    match language {
        Language::Korean => ko,
        Language::English => en,
    }
}

/// The text of a message in a language.
pub open spec fn localized_spec(language: Language, ko: Seq<char>, en: Seq<char>) -> Seq<char> {
    match language {
        Language::Korean => ko,
        Language::English => en,
    }
}

/// The message `"<title>: <detail>"`.
pub open spec fn titled(language: Language, ko: Seq<char>, en: Seq<char>, detail: Seq<char>) -> Seq<
    char,
> {
    localized_spec(language, ko, en) + ": "@ + detail
}

fn titled_message(language: Language, ko: &str, en: &str, detail: &Vec<char>) -> (m: String)
    ensures
        m@ == titled(language, ko@, en@, detail@),
{
    let mut m = String::from_str(localized(language, ko, en));
    m.append(": ");
    push_chars(&mut m, detail);
    m
}

/// What one non-blank, trimmed part of a page list gives: a page other than 0,
/// or a range `a-b` with `1 <= a <= b`, or the message that rejects it.
pub open spec fn server_part_spec(token: Seq<char>, language: Language) -> Result<
    Seq<u32>,
    Seq<char>,
> {
    if token.contains('-') {
        let r = split_spec(token, '-');
        if r.len() != 2 {
            Err(titled(language, "잘못된 페이지 범위"@, "Invalid page range"@, token))
        } else if parse_u32_spec(trim_spec(r[0])) is None {
            Err(titled(language, "잘못된 페이지 번호"@, "Invalid page number"@, r[0]))
        } else if parse_u32_spec(trim_spec(r[1])) is None {
            Err(titled(language, "잘못된 페이지 번호"@, "Invalid page number"@, r[1]))
        } else {
            let a = parse_u32_spec(trim_spec(r[0]))->0;
            let b = parse_u32_spec(trim_spec(r[1]))->0;
            if a == 0 || b == 0 || b < a {
                Err(titled(language, "잘못된 페이지 범위"@, "Invalid page range"@, token))
            } else {
                Ok(page_range_spec(a, b))
            }
        }
    } else if parse_u32_spec(token) is None || parse_u32_spec(token)->0 == 0 {
        Err(titled(language, "잘못된 페이지 번호"@, "Invalid page number"@, token))
    } else {
        Ok(seq![parse_u32_spec(token)->0])
    }
}

/// The pages of the parts in order, blank parts skipped, or the message of
/// the first part that is rejected.
pub open spec fn server_pages_from(parts: Seq<Seq<char>>, language: Language) -> Result<
    Seq<u32>,
    Seq<char>,
>
    decreases parts.len(),
{
    if parts.len() == 0 {
        Ok(Seq::empty())
    } else {
        match server_pages_from(parts.drop_last(), language) {
            Err(e) => Err(e),
            Ok(acc) => {
                let token = trim_spec(parts.last());
                if token.len() == 0 {
                    Ok(acc)
                } else {
                    match server_part_spec(token, language) {
                        Err(e) => Err(e),
                        Ok(p) => Ok(acc + p),
                    }
                }
            },
        }
    }
}

/// What the `pages` field of a request denotes; a list that names no page is
/// rejected.
pub open spec fn server_pages_spec(value: Seq<char>, language: Language) -> Result<
    Seq<u32>,
    Seq<char>,
> {
    match server_pages_from(split_spec(value, ','), language) {
        Err(e) => Err(e),
        Ok(p) => if p.len() == 0 {
            Err(localized_spec(language, "pages 값이 비어 있습니다"@, "pages value is empty"@))
        } else {
            Ok(p)
        },
    }
}

proof fn lemma_server_error_stays(parts: Seq<Seq<char>>, language: Language, k: int)
    requires
        0 <= k <= parts.len(),
        server_pages_from(parts.take(k), language) is Err,
    ensures
        server_pages_from(parts, language) == server_pages_from(parts.take(k), language),
    decreases parts.len(),
{
    if k == parts.len() {
        assert(parts.take(k) =~= parts);
    } else {
        assert(parts.drop_last().take(k) =~= parts.take(k));
        lemma_server_error_stays(parts.drop_last(), language, k);
    }
}

fn server_part_pages(token: &Vec<char>, language: Language) -> (r: Result<Vec<u32>, String>)
    ensures
        match r {
            Ok(v) => server_part_spec(token@, language) == Ok::<Seq<u32>, Seq<char>>(v@),
            Err(e) => server_part_spec(token@, language) == Err::<Seq<u32>, Seq<char>>(e@),
        },
{
    let mut result: Vec<u32> = Vec::new();
    if contains_char(token, '-') {
        let range = split(token, '-');
        if range.len() != 2 {
            return Err(titled_message(language, "잘못된 페이지 범위", "Invalid page range", token));
        }
        assert(views(range@)[0] == range@[0]@);
        assert(views(range@)[1] == range@[1]@);
        let start = match parse_u32(&trim(&range[0])) {
            Some(n) => n,
            None => {
                return Err(
                    titled_message(language, "잘못된 페이지 번호", "Invalid page number", &range[0]),
                );
            },
        };
        let end = match parse_u32(&trim(&range[1])) {
            Some(n) => n,
            None => {
                return Err(
                    titled_message(language, "잘못된 페이지 번호", "Invalid page number", &range[1]),
                );
            },
        };
        if start == 0 || end == 0 || end < start {
            return Err(titled_message(language, "잘못된 페이지 범위", "Invalid page range", token));
        }
        push_page_range(&mut result, start, end);
        assert(result@ =~= page_range_spec(start, end));
        Ok(result)
    } else {
        match parse_u32(token) {
            Some(n) => {
                if n == 0 {
                    return Err(
                        titled_message(language, "잘못된 페이지 번호", "Invalid page number", token),
                    );
                }
                result.push(n);
                assert(result@ =~= seq![n]);
                Ok(result)
            },
            None => Err(titled_message(language, "잘못된 페이지 번호", "Invalid page number", token)),
        }
    }
}

/// Every page that the parts give is at least 1.
proof fn lemma_server_pages_positive(parts: Seq<Seq<char>>, language: Language)
    ensures
        server_pages_from(parts, language) matches Ok(p) ==> forall|k: int| 0 <= k < p.len() ==> #[trigger] p[k] >= 1,
    decreases parts.len(),
{
    if parts.len() > 0 {
        lemma_server_pages_positive(parts.drop_last(), language);
        if let Ok(acc) = server_pages_from(parts.drop_last(), language) {
            let token = trim_spec(parts.last());
            if token.len() > 0 {
                if let Ok(q) = server_part_spec(token, language) {
                    let all = acc + q;
                    assert forall|k: int| 0 <= k < all.len() implies #[trigger] all[k] >= 1 by {
                        if k < acc.len() {
                            assert(all[k] == acc[k]);
                        } else {
                            assert(all[k] == q[k - acc.len()]);
                        }
                    }
                }
            }
        }
    }
}

/// Reads the `pages` field of a request: comma-separated pages or ranges
/// `a-b`; blank parts are skipped, page 0 and backward ranges are rejected,
/// and so is a list that names no page. Messages are in the given language.
pub fn parse_pages(value: &str, language: Language) -> (r: Result<Vec<u32>, String>)
    ensures
        match r {
            Ok(v) => server_pages_spec(value@, language) == Ok::<Seq<u32>, Seq<char>>(v@),
            Err(e) => server_pages_spec(value@, language) == Err::<Seq<u32>, Seq<char>>(e@),
        },
        r matches Ok(v) ==> v@.len() > 0 && forall|k: int| 0 <= k < v@.len() ==> #[trigger] v@[k] >= 1,
{
    proof {
        lemma_server_pages_positive(split_spec(value@, ','), language);
    }
    let chars = chars_of(value);
    let parts = split(&chars, ',');
    let mut pages: Vec<u32> = Vec::new();
    let mut i: usize = 0;
    while i < parts.len()
        invariant
            i <= parts.len(),
            parts@.len() == views(parts@).len(),
            views(parts@) == split_spec(value@, ','),
            server_pages_from(views(parts@).take(i as int), language) == Ok::<
                Seq<u32>,
                Seq<char>,
            >(pages@),
        decreases parts.len() - i,
    {
        let ghost all = views(parts@);
        assert(all.take(i + 1).drop_last() =~= all.take(i as int));
        assert(all.take(i + 1).last() == parts@[i as int]@);
        let token = trim(&parts[i]);
        if token.len() > 0 {
            match server_part_pages(&token, language) {
                Ok(p) => {
                    let mut k: usize = 0;
                    let ghost before = pages@;
                    while k < p.len()
                        invariant
                            k <= p.len(),
                            pages@ == before + p@.take(k as int),
                        decreases p.len() - k,
                    {
                        pages.push(p[k]);
                        k += 1;
                        assert(pages@ =~= before + p@.take(k as int));
                    }
                    assert(p@.take(p.len() as int) =~= p@);
                },
                Err(e) => {
                    proof {
                        lemma_server_error_stays(all, language, i + 1);
                    }
                    return Err(e);
                },
            }
        }
        i += 1;
    }
    assert(views(parts@).take(parts.len() as int) =~= views(parts@));
    if pages.len() == 0 {
        return Err(
            String::from_str(localized(language, "pages 값이 비어 있습니다", "pages value is empty")),
        );
    }
    Ok(pages)
}


/// The name of a response format, as requests write it.
pub open spec fn format_label(format: ResponseFormat) -> Seq<char> {
    match format {
        ResponseFormat::Json => seq!['j', 's', 'o', 'n'],
        ResponseFormat::Csv => seq!['c', 's', 'v'],
    }
}

proof fn lemma_keyword_of_word(w: Seq<char>)
    requires
        w.len() > 0,
        forall|k: int| 0 <= k < w.len() ==> 'a' <= #[trigger] w[k] <= 'z',
    ensures
        keyword_spec(w) == w,
{
    assert(!is_white_space(w[0]));
    assert(trim_start_spec(w) == w);
    assert(w.last() == w[w.len() - 1]);
    assert(!is_white_space(w.last()));
    assert(trim_end_spec(w) == w);
    assert(ascii_lower(w) =~= w);
}

/// Law: a `mode` field names a mode exactly when, trimmed and with ASCII
/// letters lower-cased, it is that mode's name; so each mode's own name
/// reads back as that mode.
pub proof fn lemma_parse_mode_names(value: Seq<char>, mode: ParseMode)
    ensures
        (parse_mode_spec(value) == Some(mode)) == (keyword_spec(value) == parse_mode_label(mode)),
        parse_mode_spec(parse_mode_label(mode)) == Some(mode),
{
    let l = parse_mode_label(mode);
    lemma_keyword_of_word(l);
}

/// Law: a `format` field names a format exactly when, trimmed and with ASCII
/// letters lower-cased, it is that format's name; so each format's own name
/// reads back as that format.
pub proof fn lemma_parse_format_names(value: Seq<char>, format: ResponseFormat)
    ensures
        (parse_format_spec(value) == Some(format)) == (keyword_spec(value) == format_label(format)),
        parse_format_spec(format_label(format)) == Some(format),
{
    let l = format_label(format);
    lemma_keyword_of_word(l);
}

/// Law: a `dl_fallback` field names a fallback exactly when, trimmed and with
/// ASCII letters lower-cased, it is that fallback's name; so each fallback's
/// own name reads back as that fallback.
pub proof fn lemma_parse_dl_fallback_names(value: Seq<char>, mode: DlFallbackMode)
    ensures
        (parse_dl_fallback_spec(value) == Some(mode)) == (keyword_spec(value) == dl_fallback_label(
            mode,
        )),
        parse_dl_fallback_spec(dl_fallback_label(mode)) == Some(mode),
{
    let l = dl_fallback_label(mode);
    lemma_keyword_of_word(l);
}


proof fn lemma_server_from_concat(a: Seq<Seq<char>>, b: Seq<Seq<char>>, language: Language)
    requires
        server_pages_from(a, language) is Ok,
    ensures
        server_pages_from(a + b, language) == (match server_pages_from(b, language) {
            Ok(q) => Ok::<Seq<u32>, Seq<char>>(server_pages_from(a, language)->Ok_0 + q),
            Err(e) => Err(e),
        }),
    decreases b.len(),
{
    if b.len() == 0 {
        assert(a + b =~= a);
        assert(server_pages_from(a, language)->Ok_0 + Seq::<u32>::empty() =~= server_pages_from(
            a,
            language,
        )->Ok_0);
    } else {
        let d = b.drop_last();
        lemma_server_from_concat(a, d, language);
        assert((a + b).drop_last() =~= a + d);
        assert((a + b).last() == b.last());
        if server_pages_from(d, language) is Ok {
            let p = server_pages_from(a, language)->Ok_0;
            let q = server_pages_from(d, language)->Ok_0;
            let token = trim_spec(b.last());
            if token.len() > 0 && server_part_spec(token, language) is Ok {
                let r = server_part_spec(token, language)->Ok_0;
                assert(p + q + r =~= p + (q + r));
            }
        }
    }
}

proof fn lemma_server_single_part(x: Seq<char>, language: Language)
    requires
        trim_spec(x) == x,
        x.len() > 0,
    ensures
        server_pages_from(seq![x], language) == server_part_spec(x, language),
{
    assert(seq![x].drop_last() =~= Seq::<Seq<char>>::empty());
    assert(seq![x].last() == x);
    assert(server_pages_from(seq![x].drop_last(), language) == Ok::<Seq<u32>, Seq<char>>(
        Seq::empty(),
    ));
    if server_part_spec(x, language) is Ok {
        assert(Seq::<u32>::empty() + server_part_spec(x, language)->Ok_0 =~= server_part_spec(
            x,
            language,
        )->Ok_0);
    }
}

/// Law: two accepted page lists joined by a comma give the pages of the
/// first followed by those of the second.
pub proof fn lemma_server_pages_join(x: Seq<char>, y: Seq<char>, language: Language)
    requires
        server_pages_spec(x, language) is Ok,
        server_pages_spec(y, language) is Ok,
    ensures
        server_pages_spec(x + seq![','] + y, language) == Ok::<Seq<u32>, Seq<char>>(
            server_pages_spec(x, language)->Ok_0 + server_pages_spec(y, language)->Ok_0,
        ),
{
    lemma_split_join(x, y, ',');
    lemma_server_from_concat(split_spec(x, ','), split_spec(y, ','), language);
}

/// Law: the decimal number of a page reads as that page alone when it is
/// not 0, and page 0 is rejected.
pub proof fn lemma_server_single_page(n: u32, language: Language)
    ensures
        n > 0 ==> server_pages_spec(decimal(n as nat), language) == Ok::<Seq<u32>, Seq<char>>(
            seq![n],
        ),
        n == 0 ==> server_pages_spec(decimal(n as nat), language) is Err,
{
    let s = decimal(n as nat);
    lemma_decimal_plain(n as nat);
    lemma_parse_u32_decimal(n);
    lemma_split_whole(s, ',');
    lemma_server_single_part(s, language);
}

/// Law: `a-b` in decimal reads as the pages from `a` to `b`, both included,
/// when `1 <= a <= b`; a range that starts at 0 or runs backwards is
/// rejected.
pub proof fn lemma_server_page_range(a: u32, b: u32, language: Language)
    ensures
        1 <= a <= b ==> server_pages_spec(decimal(a as nat) + seq!['-'] + decimal(b as nat), language)
            == Ok::<Seq<u32>, Seq<char>>(page_range_spec(a, b)),
        (a == 0 || b < a) ==> server_pages_spec(
            decimal(a as nat) + seq!['-'] + decimal(b as nat),
            language,
        ) is Err,
{
    let da = decimal(a as nat);
    let db = decimal(b as nat);
    let s = da + seq!['-'] + db;
    lemma_decimal_plain(a as nat);
    lemma_decimal_plain(b as nat);
    lemma_parse_u32_decimal(a);
    lemma_parse_u32_decimal(b);
    assert(!s.contains(',')) by {
        if s.contains(',') {
            let k = choose|k: int| 0 <= k < s.len() && s[k] == ',';
            if k < da.len() {
                assert(da.contains(s[k]));
            } else if k > da.len() {
                assert(db[k - da.len() - 1] == s[k]);
                assert(db.contains(s[k]));
            }
        }
    }
    assert(s[0] == da[0]);
    assert(da.contains(da[0]));
    assert(s[s.len() - 1] == db[db.len() - 1]);
    assert(db.contains(db[db.len() - 1]));
    lemma_trim_unchanged(s);
    assert(s[da.len() as int] == '-');
    assert(!da.contains('-'));
    assert(!db.contains('-'));
    lemma_split_whole(da, '-');
    lemma_split_whole(db, '-');
    lemma_split_join(da, db, '-');
    assert(split_spec(s, '-') =~= seq![da, db]);
    lemma_split_whole(s, ',');
    lemma_server_single_part(s, language);
    if 1 <= a <= b {
        assert(page_range_spec(a, b).len() > 0);
    }
}

} // verus!
