//! The command line's reading of page lists.

use vstd::prelude::*;

use crate::text::{
    decimal, lemma_decimal_plain, lemma_parse_u32_decimal, lemma_split_join, lemma_split_whole,
    lemma_trim_unchanged, chars_of, contains_char, message, parse_u32, parse_u32_spec, split, split_spec, trim,
    trim_spec, views,
};

verus! {

/// The pages from `start` to `end`, both included; none when `end < start`.
pub open spec fn page_range_spec(start: u32, end: u32) -> Seq<u32> {
    Seq::new(
        if end >= start {
            (end - start + 1) as nat
        } else {
            0
        },
        |i: int| (start + i) as u32,
    )
}

/// Appends the pages from `start` to `end`, both included.
pub fn push_page_range(pages: &mut Vec<u32>, start: u32, end: u32)
    ensures
        final(pages)@ == old(pages)@ + page_range_spec(start, end),
{
    if end < start {
        assert(page_range_spec(start, end) =~= Seq::<u32>::empty());
        assert(pages@ =~= old(pages)@ + page_range_spec(start, end));
        return;
    }
    let mut p: u64 = start as u64;
    while p <= end as u64
        invariant
            start <= end,
            start <= p <= end as u64 + 1,
            pages@ == old(pages)@ + page_range_spec(start, (p - 1) as u32).take(p - start),
        decreases end as u64 + 1 - p,
    {
        pages.push(p as u32);
        p += 1;
        assert(pages@ =~= old(pages)@ + page_range_spec(start, (p - 1) as u32).take(p - start));
    }
    assert(page_range_spec(start, (p - 1) as u32).take(p - start) =~= page_range_spec(start, end));
}

/// What one comma-separated part of a page list gives: a page, or a range
/// `a-b` of pages, or the message that rejects it.
pub open spec fn cli_part_spec(part: Seq<char>) -> Result<Seq<u32>, Seq<char>> {
    let p = trim_spec(part);
    if p.contains('-') {
        let r = split_spec(p, '-');
        if r.len() != 2 {
            Err("잘못된 페이지 범위: "@ + p)
        } else if parse_u32_spec(r[0]) is None {
            Err("잘못된 페이지 번호: "@ + r[0])
        } else if parse_u32_spec(r[1]) is None {
            Err("잘못된 페이지 번호: "@ + r[1])
        } else {
            Ok(page_range_spec(parse_u32_spec(r[0])->0, parse_u32_spec(r[1])->0))
        }
    } else if parse_u32_spec(p) is Some {
        Ok(seq![parse_u32_spec(p)->0])
    } else {
        Err("잘못된 페이지 번호: "@ + p)
    }
}

/// The pages of the parts in order, or the message of the first part that
/// is rejected.
pub open spec fn cli_pages_from(parts: Seq<Seq<char>>) -> Result<Seq<u32>, Seq<char>>
    decreases parts.len(),
{
    if parts.len() == 0 {
        Ok(Seq::empty())
    } else {
        match cli_pages_from(parts.drop_last()) {
            Err(e) => Err(e),
            Ok(acc) => match cli_part_spec(parts.last()) {
                Err(e) => Err(e),
                Ok(p) => Ok(acc + p),
            },
        }
    }
}

/// What a page list such as `1,3,5` or `1-5` denotes.
pub open spec fn cli_pages_spec(s: Seq<char>) -> Result<Seq<u32>, Seq<char>> {
    cli_pages_from(split_spec(s, ','))
}

proof fn lemma_cli_error_stays(parts: Seq<Seq<char>>, k: int)
    requires
        0 <= k <= parts.len(),
        cli_pages_from(parts.take(k)) is Err,
    ensures
        cli_pages_from(parts) == cli_pages_from(parts.take(k)),
    decreases parts.len(),
{
    if k == parts.len() {
        assert(parts.take(k) =~= parts);
    } else {
        assert(parts.drop_last().take(k) =~= parts.take(k));
        lemma_cli_error_stays(parts.drop_last(), k);
    }
}

fn part_pages(part: &Vec<char>) -> (r: Result<Vec<u32>, String>)
    ensures
        match r {
            Ok(v) => cli_part_spec(part@) == Ok::<Seq<u32>, Seq<char>>(v@),
            Err(e) => cli_part_spec(part@) == Err::<Seq<u32>, Seq<char>>(e@),
        },
{
    let p = trim(part);
    let mut result: Vec<u32> = Vec::new();
    if contains_char(&p, '-') {
        let range = split(&p, '-');
        if range.len() != 2 {
            return Err(message("잘못된 페이지 범위: ", &p));
        }
        assert(views(range@)[0] == range@[0]@);
        assert(views(range@)[1] == range@[1]@);
        let start = match parse_u32(&range[0]) {
            Some(n) => n,
            None => {
                return Err(message("잘못된 페이지 번호: ", &range[0]));
            },
        };
        let end = match parse_u32(&range[1]) {
            Some(n) => n,
            None => {
                return Err(message("잘못된 페이지 번호: ", &range[1]));
            },
        };
        push_page_range(&mut result, start, end);
        assert(result@ =~= page_range_spec(start, end));
        Ok(result)
    } else {
        match parse_u32(&p) {
            Some(n) => {
                result.push(n);
                assert(result@ =~= seq![n]);
                Ok(result)
            },
            None => Err(message("잘못된 페이지 번호: ", &p)),
        }
    }
}

/// Reads a page list: comma-separated pages or ranges `a-b` (`1,3,5`,
/// `1-5`), with white space around each part allowed.
pub fn parse_pages(pages_str: &str) -> (r: Result<Vec<u32>, String>)
    ensures
        match r {
            Ok(v) => cli_pages_spec(pages_str@) == Ok::<Seq<u32>, Seq<char>>(v@),
            Err(e) => cli_pages_spec(pages_str@) == Err::<Seq<u32>, Seq<char>>(e@),
        },
{
    let chars = chars_of(pages_str);
    let parts = split(&chars, ',');
    let mut result: Vec<u32> = Vec::new();
    let mut i: usize = 0;
    while i < parts.len()
        invariant
            i <= parts.len(),
            parts@.len() == views(parts@).len(),
            views(parts@) == split_spec(pages_str@, ','),
            cli_pages_from(views(parts@).take(i as int)) == Ok::<Seq<u32>, Seq<char>>(result@),
        decreases parts.len() - i,
    {
        let ghost all = views(parts@);
        assert(all.take(i + 1).drop_last() =~= all.take(i as int));
        assert(all.take(i + 1).last() == parts@[i as int]@);
        match part_pages(&parts[i]) {
            Ok(p) => {
                let mut k: usize = 0;
                let ghost before = result@;
                while k < p.len()
                    invariant
                        k <= p.len(),
                        result@ == before + p@.take(k as int),
                    decreases p.len() - k,
                {
                    result.push(p[k]);
                    k += 1;
                    assert(result@ =~= before + p@.take(k as int));
                }
                assert(p@.take(p.len() as int) =~= p@);
            },
            Err(e) => {
                proof {
                    lemma_cli_error_stays(all, i + 1);
                }
                return Err(e);
            },
        }
        i += 1;
    }
    assert(views(parts@).take(parts.len() as int) =~= views(parts@));
    Ok(result)
}


proof fn lemma_cli_from_concat(a: Seq<Seq<char>>, b: Seq<Seq<char>>)
    requires
        cli_pages_from(a) is Ok,
    ensures
        cli_pages_from(a + b) == (match cli_pages_from(b) {
            Ok(q) => Ok::<Seq<u32>, Seq<char>>(cli_pages_from(a)->Ok_0 + q),
            Err(e) => Err(e),
        }),
    decreases b.len(),
{
    if b.len() == 0 {
        assert(a + b =~= a);
        assert(cli_pages_from(a)->Ok_0 + Seq::<u32>::empty() =~= cli_pages_from(a)->Ok_0);
    } else {
        let d = b.drop_last();
        lemma_cli_from_concat(a, d);
        assert((a + b).drop_last() =~= a + d);
        assert((a + b).last() == b.last());
        if cli_pages_from(d) is Ok {
            if cli_part_spec(b.last()) is Ok {
                let p = cli_pages_from(a)->Ok_0;
                let q = cli_pages_from(d)->Ok_0;
                let r = cli_part_spec(b.last())->Ok_0;
                assert(p + q + r =~= p + (q + r));
            }
        }
    }
}

proof fn lemma_cli_single_part(x: Seq<char>)
    ensures
        cli_pages_from(seq![x]) == cli_part_spec(x),
{
    assert(seq![x].drop_last() =~= Seq::<Seq<char>>::empty());
    assert(seq![x].last() == x);
    assert(cli_pages_from(seq![x].drop_last()) == Ok::<Seq<u32>, Seq<char>>(Seq::empty()));
    if cli_part_spec(x) is Ok {
        assert(Seq::<u32>::empty() + cli_part_spec(x)->Ok_0 =~= cli_part_spec(x)->Ok_0);
    }
}

/// Law: a page list read in two parts joined by a comma: when the first part
/// is accepted, the whole gives its pages followed by the second part's, or
/// the second part's message.
pub proof fn lemma_cli_pages_join(x: Seq<char>, y: Seq<char>)
    requires
        cli_pages_spec(x) is Ok,
    ensures
        cli_pages_spec(x + seq![','] + y) == (match cli_pages_spec(y) {
            Ok(q) => Ok::<Seq<u32>, Seq<char>>(cli_pages_spec(x)->Ok_0 + q),
            Err(e) => Err(e),
        }),
{
    lemma_split_join(x, y, ',');
    lemma_cli_from_concat(split_spec(x, ','), split_spec(y, ','));
}

/// Law: the decimal number of a page reads as that page alone.
pub proof fn lemma_cli_single_page(n: u32)
    ensures
        cli_pages_spec(decimal(n as nat)) == Ok::<Seq<u32>, Seq<char>>(seq![n]),
{
    let s = decimal(n as nat);
    lemma_decimal_plain(n as nat);
    lemma_parse_u32_decimal(n);
    lemma_split_whole(s, ',');
    lemma_cli_single_part(s);
}

/// Law: `a-b` in decimal reads as the pages from `a` to `b`, both included
/// (none when `b < a`).
pub proof fn lemma_cli_page_range(a: u32, b: u32)
    ensures
        cli_pages_spec(decimal(a as nat) + seq!['-'] + decimal(b as nat)) == Ok::<
            Seq<u32>,
            Seq<char>,
        >(page_range_spec(a, b)),
{
    let da = decimal(a as nat);
    let db = decimal(b as nat);
    let s = da + seq!['-'] + db;
    lemma_decimal_plain(a as nat);
    lemma_decimal_plain(b as nat);
    lemma_parse_u32_decimal(a);
    lemma_parse_u32_decimal(b);
    assert(!s.contains(',')) by {
        if s.contains(',') {
            let k = choose|k: int| 0 <= k < s.len() && s[k] == ',';
            if k < da.len() {
                assert(da.contains(s[k]));
            } else if k > da.len() {
                assert(db[k - da.len() - 1] == s[k]);
                assert(db.contains(s[k]));
            }
        }
    }
    assert(s[0] == da[0]);
    assert(da.contains(da[0]));
    assert(s[s.len() - 1] == db[db.len() - 1]);
    assert(db.contains(db[db.len() - 1]));
    lemma_trim_unchanged(s);
    assert(s[da.len() as int] == '-');
    assert(!da.contains('-'));
    assert(!db.contains('-'));
    lemma_split_whole(da, '-');
    lemma_split_whole(db, '-');
    lemma_split_join(da, db, '-');
    assert(split_spec(s, '-') =~= seq![da, db]);
    lemma_split_whole(s, ',');
    lemma_cli_single_part(s);
}

} // verus!
