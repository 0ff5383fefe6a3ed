//! The parts of a record that are computed from what the provider answers:
//! the contributors page, the last page of a listing, commits, releases and
//! the weekly commit participation.
use vstd::prelude::*;
use crate::error::CollectError;

verus! {

/// The instant an RFC 3339 text names, in whole seconds since the epoch, or
/// `None` when the text is not RFC 3339.
pub uninterp spec fn rfc3339_seconds(s: Seq<char>) -> Option<i64>;

/// Relies on chrono's `DateTime::parse_from_rfc3339`, read through
/// `DateTime::timestamp`: the result depends on the text alone.
#[verifier::external_body]
fn parse_rfc3339(s: &str) -> (r: Option<i64>)
    ensures
        r == rfc3339_seconds(s@),
{
    match chrono::DateTime::parse_from_rfc3339(s) {
        Ok(dt) => Some(dt.timestamp()),
        Err(_) => None,
    }
}

/// The page listing the contributors of `owner/repo`.
pub open spec fn contributors_url_of(owner: Seq<char>, repo: Seq<char>) -> Seq<char> {
    "https://gitee.com/"@ + owner + "/"@ + repo + "/graphs/contributors"@
}

/// The url of the contributors page of `owner/repo`.
pub fn contributors_url(owner: &str, repo: &str) -> (r: String)
    ensures
        r@ == contributors_url_of(owner@, repo@),
{
    let mut r = String::from_str("https://gitee.com/");
    r.append(owner);
    r.append("/");
    r.append(repo);
    r.append("/graphs/contributors");
    r
}

/// The value of a run of decimal digits.
pub open spec fn digits_value(s: Seq<char>) -> int
    decreases s.len(),
{
    if s.len() == 0 {
        0
    } else {
        digits_value(s.drop_last()) * 10 + (s.last() as int - '0' as int)
    }
}

/// Every character is a decimal digit.
pub open spec fn all_digits(s: Seq<char>) -> bool {
    forall|i: int| 0 <= i < s.len() ==> '0' <= #[trigger] s[i] <= '9'
}

/// The digits of an unsigned decimal, after an optional `+`.
pub open spec fn unsigned_digits(s: Seq<char>) -> Seq<char> {
    if s.len() > 0 && s[0] == '+' {
        s.drop_first()
    } else {
        s
    }
}

/// `s` is an unsigned decimal whose value fits in `usize`.
pub open spec fn is_usize_text(s: Seq<char>) -> bool {
    let d = unsigned_digits(s);
    &&& d.len() > 0
    &&& all_digits(d)
    &&& digits_value(d) <= usize::MAX
}

/// Reads an unsigned decimal that fits in `usize`, as `str::parse` does.
pub fn parse_usize(s: &str) -> (r: Option<usize>)
    ensures
        r.is_some() <==> is_usize_text(s@),
        r.is_some() ==> r.unwrap() as int == digits_value(unsigned_digits(s@)),
{
    let n = s.unicode_len();
    let start: usize = if n > 0 && s.get_char(0) == '+' { 1 } else { 0 };
    let ghost d = unsigned_digits(s@);
    proof {
        assert(d =~= s@.skip(start as int));
    }
    if start == n {
        return None;
    }
    let mut v: usize = 0;
    let mut i: usize = start;
    while i < n
        invariant
            start <= i <= n,
            n == s@.len(),
            d =~= s@.skip(start as int),
            d == unsigned_digits(s@),
            all_digits(d.take(i - start)),
            v as int == digits_value(d.take(i - start)),
        decreases n - i,
    {
        let c = s.get_char(i);
        proof {
            assert(d.take(i - start + 1).drop_last() =~= d.take(i - start));
            assert(d.take(i - start + 1).last() == c);
        }
        if c < '0' || c > '9' {
            proof {
                assert(d[i - start] == c);
                assert(!('0' <= d[i - start] <= '9'));
                assert(!all_digits(d));
            }
            return None;
        }
        let digit = (c as u32 - '0' as u32) as usize;
        if v > (usize::MAX - digit) / 10 {
            proof {
                let dv = digit as int;
                let vv = v as int;
                assert(vv * 10 + dv > usize::MAX) by (nonlinear_arith)
                    requires
                        vv > (usize::MAX - dv) / 10,
                        0 <= dv <= 9,
                ;
                assert(digits_value(d.take(i - start + 1)) == vv * 10 + dv);
                if all_digits(d) {
                    assert(d.take(d.len() as int) =~= d);
                    lemma_digits_grow(d, (i - start + 1) as int, d.len() as int);
                }
            }
            return None;
        }
        v = v * 10 + digit;
        i = i + 1;
    }
    proof {
        assert(d.take(i - start) =~= d);
    }
    Some(v)
}

proof fn lemma_digits_grow(d: Seq<char>, a: int, b: int)
    requires
        0 <= a <= b <= d.len(),
        all_digits(d.take(b)),
    ensures
        digits_value(d.take(a)) <= digits_value(d.take(b)),
    decreases b - a,
{
    if a < b {
        lemma_digits_grow(d, a, b - 1);
        assert(d.take(b).drop_last() =~= d.take(b - 1));
        assert(all_digits(d.take(b - 1))) by {
            assert forall|i: int| 0 <= i < b - 1 implies '0' <= #[trigger] d.take(b - 1)[i] <= '9' by {
                assert(d.take(b - 1)[i] == d.take(b)[i]);
            }
        }
        assert(digits_value(d.take(b - 1)) >= 0) by {
            lemma_digits_nonneg(d.take(b - 1));
        }
    }
}

proof fn lemma_digits_nonneg(d: Seq<char>)
    requires
        all_digits(d),
    ensures
        digits_value(d) >= 0,
    decreases d.len(),
{
    if d.len() > 0 {
        assert(all_digits(d.drop_last())) by {
            assert forall|i: int| 0 <= i < d.len() - 1 implies '0' <= #[trigger] d.drop_last()[i] <= '9' by {
                assert(d.drop_last()[i] == d[i]);
            }
        }
        lemma_digits_nonneg(d.drop_last());
    }
}

/// The last page of a listing of one item per page, from the `total_count`
/// header: `None` without the header, an error when it is not a number.
pub fn last_page(total_count: Option<&str>) -> (r: Result<Option<usize>, CollectError>)
    ensures
        match total_count {
            None => r == Ok::<Option<usize>, CollectError>(None),
            Some(t) => if is_usize_text(t@) {
                r is Ok && r.unwrap() is Some && r.unwrap().unwrap() as int == digits_value(unsigned_digits(t@))
            } else {
                r == Err::<Option<usize>, CollectError>(CollectError::ResponseParseFailed)
            },
        },
{
    match total_count {
        None => Ok(None),
        Some(t) => match parse_usize(t) {
            Some(v) => Ok(Some(v)),
            None => Err(CollectError::ResponseParseFailed),
        },
    }
}


/// The characters of an optional text; none when absent.
pub open spec fn text_or_empty(o: Option<&str>) -> Seq<char> {
    match o {
        Some(t) => t@,
        None => Seq::empty(),
    }
}

/// A commit: the page that shows it and when it was authored.
pub struct Commit {
    pub url: String,
    pub ts: Option<i64>,
}

/// A release: the page that shows it and when it was created.
pub struct Release {
    pub url: String,
    pub ts: Option<i64>,
}

fn owned_text(o: Option<&str>) -> (r: String)
    ensures
        r@ == text_or_empty(o),
{
    match o {
        Some(t) => String::from_str(t),
        None => String::new(),
    }
}

fn timestamp_of(o: Option<&str>) -> (r: Option<i64>)
    ensures
        r == match o {
            Some(t) => rfc3339_seconds(t@),
            None => None,
        },
{
    match o {
        Some(t) => parse_rfc3339(t),
        None => None,
    }
}

/// A commit from its page url and its author date, both optional.
pub fn new_commit_from(html_url: Option<&str>, date: Option<&str>) -> (c: Commit)
    ensures
        c.url@ == text_or_empty(html_url),
        c.ts == match date {
            Some(t) => rfc3339_seconds(t@),
            None => None,
        },
{
    Commit { url: owned_text(html_url), ts: timestamp_of(date) }
}

/// `p` occurs in `s` at `i`.
pub open spec fn occurs_at(s: Seq<char>, p: Seq<char>, i: int) -> bool {
    0 <= i && i + p.len() <= s.len() && s.subrange(i, i + p.len()) == p
}

/// `k` is where `p` first occurs in `s`, or the length of `s` when it does not.
pub open spec fn first_occurrence(s: Seq<char>, p: Seq<char>, k: int) -> bool {
    &&& occurs_at(s, p, k) || k == s.len()
    &&& forall|i: int| 0 <= i < k ==> !occurs_at(s, p, i)
}

/// Where `pat` first occurs in `s`, or the length of `s`.
pub fn find_first(s: &str, pat: &str) -> (k: usize)
    ensures
        first_occurrence(s@, pat@, k as int),
{
    let n = s.unicode_len();
    let m = pat.unicode_len();
    if m > n {
        return n;
    }
    let mut i: usize = 0;
    while i <= n - m
        invariant
            m <= n,
            n == s@.len(),
            m == pat@.len(),
            i <= n - m + 1,
            forall|q: int| 0 <= q < i ==> !occurs_at(s@, pat@, q),
        decreases n - m + 1 - i,
    {
        let mut j: usize = 0;
        let mut same = true;
        while j < m && same
            invariant
                i + m <= n,
                n == s@.len(),
                m == pat@.len(),
                j <= m,
                same ==> forall|q: int| 0 <= q < j ==> s@[i + q] == pat@[q],
                !same ==> j > 0 && s@[i + j - 1] != pat@[j - 1],
            decreases m - j + if same { 1int } else { 0int },
        {
            if s.get_char(i + j) != pat.get_char(j) {
                same = false;
            }
            j = j + 1;
        }
        if same {
            proof {
                assert(s@.subrange(i as int, i + m) =~= pat@);
            }
            return i;
        }
        proof {
            assert(s@.subrange(i as int, i + m)[j - 1] == s@[i + j - 1]);
        }
        i = i + 1;
    }
    proof {
        assert forall|q: int| 0 <= q < n implies !occurs_at(s@, pat@, q) by {
            if q > n - m && m > 0 {
            }
        }
    }
    n
}

/// The url of a release page: the part of the download url before its first
/// `archive`, then `releases/tag/` and the tag.
pub open spec fn release_url_of(download: Seq<char>, tag: Seq<char>, k: int) -> Seq<char> {
    download.take(k) + "releases/tag/"@ + tag
}

/// A release from its tag, the download url of its first asset and its
/// creation date, all optional.
pub fn new_release_from(tag_name: Option<&str>, download_url: Option<&str>, created_at: Option<&str>) -> (r: Release)
    ensures
        exists|k: int|
            first_occurrence(text_or_empty(download_url), "archive"@, k) && r.url@ == release_url_of(
                text_or_empty(download_url),
                text_or_empty(tag_name),
                k,
            ),
        r.ts == match created_at {
            Some(t) => rfc3339_seconds(t@),
            None => None,
        },
{
    let download = owned_text(download_url);
    let k = find_first(download.as_str(), "archive");
    let mut url = String::from_str(download.as_str().substring_char(0, k));
    url.append("releases/tag/");
    let tag = owned_text(tag_name);
    url.append(tag.as_str());
    proof {
        assert(url@ =~= release_url_of(text_or_empty(download_url), text_or_empty(tag_name), k as int));
    }
    Release { url, ts: timestamp_of(created_at) }
}

/// Weeks in the participation series.
pub const WEEKS: usize = 52;

/// Whole days from `begin` to `at`, rounded toward zero.
pub open spec fn days_between(begin: int, at: int) -> int {
    if at >= begin {
        (at - begin) / 86400
    } else {
        -((begin - at) / 86400)
    }
}

/// The week of the series a commit made at `at` counts in, if any.
pub open spec fn week_of(begin: int, at: int) -> Option<int> {
    let days = days_between(begin, at);
    if days < 0 || days / 7 >= 52 {
        None
    } else {
        Some(days / 7)
    }
}

/// How many of the commit times `stamps` count in week `w`.
pub open spec fn commits_in_week(begin: int, stamps: Seq<Option<i64>>, w: int) -> int
    decreases stamps.len(),
{
    if stamps.len() == 0 {
        0
    } else {
        commits_in_week(begin, stamps.drop_last(), w) + match stamps.last() {
            Some(t) => if week_of(begin, t as int) == Some(w) {
                1int
            } else {
                0int
            },
            None => 0int,
        }
    }
}

fn week_index(begin: i64, at: i64) -> (r: Option<usize>)
    ensures
        match r {
            Some(w) => week_of(begin as int, at as int) == Some(w as int),
            None => week_of(begin as int, at as int).is_none(),
        },
{
    let b = begin as i128;
    let a = at as i128;
    let days: i128 = if a >= b { (a - b) / 86400 } else { -((b - a) / 86400) };
    if days < 0 || days / 7 >= 52 {
        None
    } else {
        Some((days / 7) as usize)
    }
}

/// Commits per week over the 52 weeks from `begin`, from the commit times
/// (seconds since the epoch; `None` for a time that could not be read).
pub fn week_counts(begin: i64, stamps: &Vec<Option<i64>>) -> (r: Vec<i64>)
    requires
        stamps@.len() <= i64::MAX,
    ensures
        r@.len() == WEEKS,
        forall|w: int| 0 <= w < WEEKS ==> #[trigger] r@[w] as int == commits_in_week(begin as int, stamps@, w),
{
    let mut r: Vec<i64> = Vec::new();
    let mut w: usize = 0;
    while w < WEEKS
        invariant
            w <= WEEKS,
            r@.len() == w,
            forall|q: int| 0 <= q < w ==> #[trigger] r@[q] == 0,
        decreases WEEKS - w,
    {
        r.push(0);
        w = w + 1;
    }
    let mut i: usize = 0;
    while i < stamps.len()
        invariant
            i <= stamps@.len(),
            stamps@.len() <= i64::MAX,
            r@.len() == WEEKS,
            forall|q: int| 0 <= q < WEEKS ==> #[trigger] r@[q] as int == commits_in_week(begin as int, stamps@.take(i as int), q),
            forall|q: int| 0 <= q < WEEKS ==> 0 <= #[trigger] r@[q] <= i,
        decreases stamps.len() - i,
    {
        proof {
            assert(stamps@.take(i + 1).drop_last() =~= stamps@.take(i as int));
            assert(stamps@.take(i + 1).last() == stamps@[i as int]);
        }
        match stamps[i] {
            Some(at) => match week_index(begin, at) {
                Some(wk) => {
                    let c = r[wk];
                    r.set(wk, c + 1);
                },
                None => {},
            },
            None => {},
        }
        i = i + 1;
    }
    proof {
        assert(stamps@.take(stamps@.len() as int) =~= stamps@);
    }
    r
}

/// The times that the texts `dates` name.
pub open spec fn stamps_of(dates: Seq<String>) -> Seq<Option<i64>> {
    dates.map_values(|d: String| rfc3339_seconds(d@))
}

/// Commits per week over the 52 weeks from `begin`, from the RFC 3339 author
/// dates of the commits; a date that cannot be read counts nowhere.
pub fn get_participation_stats(begin: i64, dates: &Vec<String>) -> (r: Vec<i64>)
    requires
        dates@.len() <= i64::MAX,
    ensures
        r@.len() == WEEKS,
        forall|w: int| 0 <= w < WEEKS ==> #[trigger] r@[w] as int == commits_in_week(begin as int, stamps_of(dates@), w),
{
    let mut stamps: Vec<Option<i64>> = Vec::new();
    let mut i: usize = 0;
    while i < dates.len()
        invariant
            i <= dates@.len(),
            stamps@ == stamps_of(dates@.take(i as int)),
        decreases dates.len() - i,
    {
        let t = parse_rfc3339(dates[i].as_str());
        stamps.push(t);
        proof {
            assert(stamps@ =~= stamps_of(dates@.take(i + 1)));
        }
        i = i + 1;
    }
    proof {
        assert(dates@.take(dates@.len() as int) =~= dates@);
    }
    week_counts(begin, &stamps)
}

} // verus!
