//! Repository urls: the grammar they follow and the enumeration of the
//! distinct targets named by a catalog.
use vstd::prelude::*;
use crate::error::CollectError;

verus! {

/// Number of characters in `https://gitee.com/`.
pub const PREFIX_LEN: usize = 18;

/// The scheme and host every repository url starts with.
pub open spec fn url_prefix() -> Seq<char> {
    seq!['h', 't', 't', 'p', 's', ':', '/', '/', 'g', 'i', 't', 'e', 'e', '.', 'c', 'o', 'm', '/']
}

/// A path segment: not empty and without a slash.
pub open spec fn is_segment(s: Seq<char>) -> bool {
    &&& s.len() > 0
    &&& forall|i: int| 0 <= i < s.len() ==> s[i] != '/'
}

/// The url of `owner/repo`, with or without a trailing slash.
pub open spec fn url_of(owner: Seq<char>, repo: Seq<char>, trailing: bool) -> Seq<char> {
    url_prefix() + owner + seq!['/'] + repo + if trailing { seq!['/'] } else { Seq::empty() }
}

/// `url` names repository `repo` of `owner`.
pub open spec fn names_repo(url: Seq<char>, owner: Seq<char>, repo: Seq<char>) -> bool {
    &&& is_segment(owner)
    &&& is_segment(repo)
    &&& (url == url_of(owner, repo, false) || url == url_of(owner, repo, true))
}

/// `url` has the shape of a repository url.
pub open spec fn is_repo_url(url: Seq<char>) -> bool {
    exists|owner: Seq<char>, repo: Seq<char>| names_repo(url, owner, repo)
}

proof fn lemma_names_repo_layout(url: Seq<char>, owner: Seq<char>, repo: Seq<char>)
    requires
        names_repo(url, owner, repo),
    ensures
        url.len() >= 21,
        forall|i: int| 0 <= i < 18 ==> url[i] == url_prefix()[i],
        forall|i: int| 18 <= i < 18 + owner.len() ==> url[i] == owner[i - 18] && url[i] != '/',
        url[18 + owner.len() as int] == '/',
        forall|i: int|
            19 + owner.len() <= i < 19 + owner.len() + repo.len() ==> url[i] == repo[i - 19
                - owner.len()] && url[i] != '/',
        url.len() == 19 + owner.len() + repo.len() || (url.len() == 20 + owner.len()
            + repo.len() && url[url.len() - 1] == '/'),
{
    let t = url == url_of(owner, repo, true);
    let base = url_prefix() + owner + seq!['/'] + repo;
    assert(url_prefix().len() == 18);
    if t {
        assert(url =~= base + seq!['/']);
        assert(url[url.len() - 1] == '/');
    } else {
        assert(url =~= base);
    }
    assert forall|i: int| 0 <= i < base.len() implies url[i] == base[i] by {
        if t {
            assert((base + seq!['/'])[i] == base[i]);
        }
    }
}

/// Splits a repository url into its owner and repository name.
pub fn get_owner_and_repo(repo_url: &str) -> (r: Result<(String, String), CollectError>)
    ensures
        r.is_ok() <==> is_repo_url(repo_url@),
        match r {
            Ok((owner, repo)) => names_repo(repo_url@, owner@, repo@),
            Err(e) => e == CollectError::InvalidRepositoryUrl,
        },
{
    let ghost url = repo_url@;
    let prefix = "https://gitee.com/";
    proof {
        reveal_strlit("https://gitee.com/");
        assert(prefix@ =~= url_prefix());
    }
    let n = repo_url.unicode_len();
    if n < PREFIX_LEN + 3 {
        proof {
            assert forall|o: Seq<char>, p: Seq<char>| !names_repo(url, o, p) by {
                if names_repo(url, o, p) {
                    lemma_names_repo_layout(url, o, p);
                }
            }
        }
        return Err(CollectError::InvalidRepositoryUrl);
    }
    let mut i: usize = 0;
    while i < PREFIX_LEN
        invariant
            i <= PREFIX_LEN,
            n == url.len(),
            n >= 21,
            prefix@ == url_prefix(),
            url == repo_url@,
            forall|q: int| 0 <= q < i ==> url[q] == url_prefix()[q],
        decreases PREFIX_LEN - i,
    {
        if repo_url.get_char(i) != prefix.get_char(i) {
            proof {
                assert forall|o: Seq<char>, p: Seq<char>| !names_repo(url, o, p) by {
                    if names_repo(url, o, p) {
                        lemma_names_repo_layout(url, o, p);
                    }
                }
            }
            return Err(CollectError::InvalidRepositoryUrl);
        }
        i = i + 1;
    }
    let end: usize = if repo_url.get_char(n - 1) == '/' { n - 1 } else { n };
    let mut k: usize = PREFIX_LEN;
    let mut found = false;
    while k < end && !found
        invariant
            PREFIX_LEN <= k <= end,
            end <= n,
            n == url.len(),
            url == repo_url@,
            found ==> k < end && url[k as int] == '/',
            forall|q: int| PREFIX_LEN <= q < k ==> url[q] != '/',
        decreases end - k + if found { 0int } else { 1int },
    {
        if repo_url.get_char(k) == '/' {
            found = true;
        } else {
            k = k + 1;
        }
    }
    if !found || k == PREFIX_LEN || k + 1 == end {
        proof {
            assert forall|o: Seq<char>, p: Seq<char>| !names_repo(url, o, p) by {
                if names_repo(url, o, p) {
                    lemma_names_repo_layout(url, o, p);
                    assert(url[18 + o.len() as int] == '/');
                }
            }
        }
        return Err(CollectError::InvalidRepositoryUrl);
    }
    let mut j: usize = k + 1;
    while j < end
        invariant
            k + 1 <= j <= end,
            PREFIX_LEN < k,
            end <= n,
            n == url.len(),
            n >= 21,
            url == repo_url@,
            url[k as int] == '/',
            forall|q: int| PREFIX_LEN <= q < k ==> url[q] != '/',
            (end == n - 1 && url[n - 1] == '/') || (end == n && url[n - 1] != '/'),
            forall|q: int| k + 1 <= q < j ==> url[q] != '/',
        decreases end - j,
    {
        if repo_url.get_char(j) == '/' {
            proof {
                assert forall|o: Seq<char>, p: Seq<char>| !names_repo(url, o, p) by {
                    if names_repo(url, o, p) {
                        lemma_names_repo_layout(url, o, p);
                        assert(k == 18 + o.len());
                        assert(end == 19 + o.len() + p.len());
                        assert(url[j as int] != '/');
                    }
                }
            }
            return Err(CollectError::InvalidRepositoryUrl);
        }
        j = j + 1;
    }
    let owner = repo_url.substring_char(PREFIX_LEN, k);
    let repo = repo_url.substring_char(k + 1, end);
    let owner = String::from_str(owner);
    let repo = String::from_str(repo);
    proof {
        let trailing = end < n;
        assert(is_segment(owner@));
        assert(is_segment(repo@));
        assert(url =~= url_of(owner@, repo@, trailing));
        assert(names_repo(url, owner@, repo@));
    }
    Ok((owner, repo))
}


/// Strict lexicographic order on character sequences, by code point.
pub open spec fn lex_lt(a: Seq<char>, b: Seq<char>) -> bool
    decreases a.len(),
{
    if b.len() == 0 {
        false
    } else if a.len() == 0 {
        true
    } else if a[0] != b[0] {
        (a[0] as int) < (b[0] as int)
    } else {
        lex_lt(a.drop_first(), b.drop_first())
    }
}

/// No sequence precedes itself.
pub proof fn lemma_lex_irreflexive(a: Seq<char>)
    ensures
        !lex_lt(a, a),
    decreases a.len(),
{
    if a.len() > 0 {
        lemma_lex_irreflexive(a.drop_first());
    }
}

/// Two distinct sequences are ordered one way or the other.
pub proof fn lemma_lex_total(a: Seq<char>, b: Seq<char>)
    ensures
        a == b || lex_lt(a, b) || lex_lt(b, a),
    decreases a.len(),
{
    if a.len() > 0 && b.len() > 0 {
        assert(a[0] != b[0] ==> (a[0] as int) != (b[0] as int));
        if a[0] == b[0] {
            lemma_lex_total(a.drop_first(), b.drop_first());
            if a.drop_first() == b.drop_first() {
                assert(a =~= seq![a[0]] + a.drop_first());
                assert(b =~= seq![b[0]] + b.drop_first());
            }
        }
    } else if a.len() == 0 && b.len() == 0 {
        assert(a =~= b);
    }
}

/// The order is transitive.
pub proof fn lemma_lex_transitive(a: Seq<char>, b: Seq<char>, c: Seq<char>)
    requires
        lex_lt(a, b),
        lex_lt(b, c),
    ensures
        lex_lt(a, c),
    decreases a.len(),
{
    if a.len() > 0 && a[0] == b[0] && b[0] == c[0] {
        lemma_lex_transitive(a.drop_first(), b.drop_first(), c.drop_first());
    }
}

/// Compares two strings in the order `lex_lt`.
pub fn str_lt(a: &str, b: &str) -> (r: bool)
    ensures
        r == lex_lt(a@, b@),
{
    let na = a.unicode_len();
    let nb = b.unicode_len();
    let mut i: usize = 0;
    proof {
        assert(a@.skip(0) =~= a@);
        assert(b@.skip(0) =~= b@);
    }
    while i < na && i < nb
        invariant
            i <= na,
            i <= nb,
            na == a@.len(),
            nb == b@.len(),
            lex_lt(a@, b@) == lex_lt(a@.skip(i as int), b@.skip(i as int)),
        decreases na - i,
    {
        let ca = a.get_char(i);
        let cb = b.get_char(i);
        if ca != cb {
            return (ca as u32) < (cb as u32);
        }
        proof {
            assert(a@.skip(i as int).drop_first() =~= a@.skip(i + 1));
            assert(b@.skip(i as int).drop_first() =~= b@.skip(i + 1));
        }
        i = i + 1;
    }
    i < nb
}

/// One entry of the catalog: the urls of its repositories and the url of
/// an auxiliary downloads source.
pub struct CatalogItem {
    pub repositories: Vec<String>,
    pub ohpm_url: Option<String>,
}

/// A distinct repository to collect, with the auxiliary url that goes with it.
pub struct Target {
    pub url: String,
    pub ohpm_url: Option<String>,
}

/// The characters of an optional string.
pub open spec fn opt_view(o: Option<String>) -> Option<Seq<char>> {
    match o {
        Some(s) => Some(s@),
        None => None,
    }
}

/// `item` lists url `u` among its repositories.
pub open spec fn item_lists(item: CatalogItem, u: Seq<char>) -> bool {
    exists|j: int| 0 <= j < item.repositories@.len() && item.repositories@[j]@ == u
}

/// `u` is a repository url that some item of the catalog lists.
pub open spec fn catalog_lists(items: Seq<CatalogItem>, u: Seq<char>) -> bool {
    &&& is_repo_url(u)
    &&& exists|i: int| 0 <= i < items.len() && item_lists(items[i], u)
}

/// The auxiliary url of `u`: that of the last item that lists `u` and has one.
pub open spec fn aux_url_of(items: Seq<CatalogItem>, u: Seq<char>) -> Option<Seq<char>>
    decreases items.len(),
{
    if items.len() == 0 {
        None
    } else {
        let last = items.last();
        if last.ohpm_url.is_some() && item_lists(last, u) {
            opt_view(last.ohpm_url)
        } else {
            aux_url_of(items.drop_last(), u)
        }
    }
}

/// Urls strictly increase along `ts`, so each occurs once.
pub open spec fn strictly_sorted(ts: Seq<Target>) -> bool {
    forall|i: int, j: int| 0 <= i < j < ts.len() ==> lex_lt(#[trigger] ts[i].url@, #[trigger] ts[j].url@)
}

/// Some target of `ts` has url `u`.
pub open spec fn has_url(ts: Seq<Target>, u: Seq<char>) -> bool {
    exists|k: int| 0 <= k < ts.len() && ts[k].url@ == u
}

/// `ts` is the sorted list of the distinct repository urls of the catalog,
/// each with its auxiliary url.
pub open spec fn enumerates(items: Seq<CatalogItem>, ts: Seq<Target>) -> bool {
    &&& strictly_sorted(ts)
    &&& forall|u: Seq<char>| has_url(ts, u) <==> catalog_lists(items, u)
    &&& forall|k: int| 0 <= k < ts.len() ==> opt_view(#[trigger] ts[k].ohpm_url) == aux_url_of(items, ts[k].url@)
}

proof fn lemma_aux_listed(items: Seq<CatalogItem>, u: Seq<char>)
    requires
        aux_url_of(items, u).is_some(),
    ensures
        exists|i: int| 0 <= i < items.len() && item_lists(items[i], u),
    decreases items.len(),
{
    let last = items.last();
    if !(last.ohpm_url.is_some() && item_lists(last, u)) {
        lemma_aux_listed(items.drop_last(), u);
        let i = choose|i: int| 0 <= i < items.drop_last().len() && item_lists(items.drop_last()[i], u);
        assert(items[i] == items.drop_last()[i]);
    }
}

fn clone_opt(o: &Option<String>) -> (r: Option<String>)
    ensures
        r == *o,
{
    match o {
        Some(s) => Some(s.clone()),
        None => None,
    }
}

/// Adds `url` to the sorted targets, or updates its auxiliary url when `aux`
/// holds one.
fn upsert_target(ts: &mut Vec<Target>, url: String, aux: &Option<String>)
    requires
        strictly_sorted(old(ts)@),
    ensures
        strictly_sorted(final(ts)@),
        forall|u: Seq<char>| has_url(final(ts)@, u) <==> (has_url(old(ts)@, u) || u == url@),
        forall|k: int|
            0 <= k < final(ts)@.len() ==> if (#[trigger] final(ts)@[k]).url@ == url@ && aux.is_some() {
                final(ts)@[k].ohpm_url == *aux
            } else {
                (exists|k2: int|
                    0 <= k2 < old(ts)@.len() && old(ts)@[k2].url@ == final(ts)@[k].url@
                        && old(ts)@[k2].ohpm_url == final(ts)@[k].ohpm_url) || (final(ts)@[k].url@
                    == url@ && !has_url(old(ts)@, url@) && final(ts)@[k].ohpm_url.is_none())
            },
{
    let n = ts.len();
    let mut p: usize = 0;
    let mut go = true;
    while go && p < n
        invariant
            p <= n,
            n == ts@.len(),
            ts@ == old(ts)@,
            forall|q: int| 0 <= q < p ==> lex_lt(#[trigger] ts@[q].url@, url@),
            !go ==> p < n && !lex_lt(ts@[p as int].url@, url@),
        decreases n - p + if go { 1int } else { 0int },
    {
        if str_lt(ts[p].url.as_str(), url.as_str()) {
            p = p + 1;
        } else {
            go = false;
        }
    }
    let ghost old_ts = ts@;
    if p < n && ts[p].url == url {
        if aux.is_some() {
            let t = Target { url, ohpm_url: clone_opt(aux) };
            ts.set(p, t);
            assert forall|u: Seq<char>| has_url(ts@, u) <==> (has_url(old_ts, u) || u == url@) by {
                if has_url(old_ts, u) {
                    let k = choose|k: int| 0 <= k < old_ts.len() && old_ts[k].url@ == u;
                    assert(ts@[k].url@ == u);
                }
                if u == url@ {
                    assert(ts@[p as int].url@ == u);
                }
                if has_url(ts@, u) {
                    let k = choose|k: int| 0 <= k < ts@.len() && ts@[k].url@ == u;
                    assert(old_ts[k].url@ == u);
                }
            }
        }
    } else {
        proof {
            if p < n {
                lemma_lex_total(old_ts[p as int].url@, url@);
            }
            assert forall|q: int| 0 <= q < n implies old_ts[q].url@ != url@ by {
                if q < p {
                    lemma_lex_irreflexive(url@);
                } else if p < n {
                    if q > p {
                        lemma_lex_transitive(url@, old_ts[p as int].url@, old_ts[q].url@);
                    }
                    lemma_lex_irreflexive(url@);
                }
            }
        }
        let t = Target { url, ohpm_url: clone_opt(aux) };
        ts.insert(p, t);
        proof {
            let nt = ts@;
            assert forall|i: int, j: int| 0 <= i < j < nt.len() implies lex_lt(
                #[trigger] nt[i].url@,
                #[trigger] nt[j].url@,
            ) by {
                if j == p {
                } else if i == p {
                    if j - 1 > p {
                        lemma_lex_transitive(url@, old_ts[p as int].url@, old_ts[j - 1].url@);
                    }
                } else if i < p && j > p {
                    assert(lex_lt(old_ts[i].url@, url@));
                    assert(lex_lt(old_ts[i].url@, old_ts[j - 1].url@));
                } else if j < p {
                    assert(nt[i] == old_ts[i] && nt[j] == old_ts[j]);
                } else {
                    assert(nt[i] == old_ts[i - 1] && nt[j] == old_ts[j - 1]);
                }
            }
            assert forall|u: Seq<char>| has_url(nt, u) <==> (has_url(old_ts, u) || u == url@) by {
                if has_url(old_ts, u) {
                    let k = choose|k: int| 0 <= k < old_ts.len() && old_ts[k].url@ == u;
                    if k < p {
                        assert(nt[k].url@ == u);
                    } else {
                        assert(nt[k + 1].url@ == u);
                    }
                }
                if u == url@ {
                    assert(nt[p as int].url@ == u);
                }
                if has_url(nt, u) {
                    let k = choose|k: int| 0 <= k < nt.len() && nt[k].url@ == u;
                    if k < p {
                        assert(old_ts[k].url@ == u);
                    } else if k > p {
                        assert(old_ts[k - 1].url@ == u);
                    }
                }
            }
            assert forall|k: int| 0 <= k < nt.len() && #[trigger] nt[k].url@ != url@ implies exists|k2: int|
                0 <= k2 < old_ts.len() && old_ts[k2].url@ == nt[k].url@ && old_ts[k2].ohpm_url
                    == nt[k].ohpm_url by {
                if k < p {
                    assert(old_ts[k] == nt[k]);
                } else {
                    assert(old_ts[k - 1] == nt[k]);
                }
            }
        }
    }
}


/// What the first `i` items, and the first `j` repositories of item `i`, list.
spec fn listed_upto(items: Seq<CatalogItem>, i: int, j: int, u: Seq<char>) -> bool {
    ||| catalog_lists(items.take(i), u)
    ||| (is_repo_url(u) && exists|q: int| 0 <= q < j && items[i].repositories@[q]@ == u)
}

/// The auxiliary url of `u` after the same part of the catalog.
spec fn aux_upto(items: Seq<CatalogItem>, i: int, j: int, u: Seq<char>) -> Option<Seq<char>> {
    if items[i].ohpm_url.is_some() && exists|q: int| 0 <= q < j && items[i].repositories@[q]@ == u {
        opt_view(items[i].ohpm_url)
    } else {
        aux_url_of(items.take(i), u)
    }
}

/// The distinct repository urls of the catalog, in increasing order, each
/// with the auxiliary url of the last item that lists it and has one.
pub fn enumerate_targets(items: &Vec<CatalogItem>) -> (ts: Vec<Target>)
    ensures
        enumerates(items@, ts@),
{
    let mut ts: Vec<Target> = Vec::new();
    let mut i: usize = 0;
    while i < items.len()
        invariant
            i <= items@.len(),
            strictly_sorted(ts@),
            forall|u: Seq<char>| has_url(ts@, u) <==> catalog_lists(items@.take(i as int), u),
            forall|k: int|
                0 <= k < ts@.len() ==> opt_view(#[trigger] ts@[k].ohpm_url) == aux_url_of(
                    items@.take(i as int),
                    ts@[k].url@,
                ),
        decreases items.len() - i,
    {
        let item = &items[i];
        let mut j: usize = 0;
        while j < item.repositories.len()
            invariant
                i < items@.len(),
                *item == items@[i as int],
                j <= item.repositories@.len(),
                strictly_sorted(ts@),
                forall|u: Seq<char>| has_url(ts@, u) <==> listed_upto(items@, i as int, j as int, u),
                forall|k: int|
                    0 <= k < ts@.len() ==> opt_view(#[trigger] ts@[k].ohpm_url) == aux_upto(
                        items@,
                        i as int,
                        j as int,
                        ts@[k].url@,
                    ),
            decreases item.repositories.len() - j,
        {
            let url = &item.repositories[j];
            let ghost old_ts = ts@;
            let ghost uj = url@;
            if get_owner_and_repo(url.as_str()).is_ok() {
                upsert_target(&mut ts, url.clone(), &item.ohpm_url);
                proof {
                    assert forall|u: Seq<char>| has_url(ts@, u) <==> listed_upto(
                        items@,
                        i as int,
                        j + 1,
                        u,
                    ) by {
                        if u == uj {
                            assert(item.repositories@[j as int]@ == u);
                        }
                        if is_repo_url(u) && exists|q: int|
                            0 <= q < j + 1 && items@[i as int].repositories@[q]@ == u {
                            let q = choose|q: int|
                                0 <= q < j + 1 && items@[i as int].repositories@[q]@ == u;
                            if q < j {
                                assert(listed_upto(items@, i as int, j as int, u));
                            }
                        }
                    }
                    assert forall|k: int| 0 <= k < ts@.len() implies opt_view(
                        #[trigger] ts@[k].ohpm_url,
                    ) == aux_upto(items@, i as int, j + 1, ts@[k].url@) by {
                        let u = ts@[k].url@;
                        if u == uj && item.ohpm_url.is_some() {
                            assert(item.repositories@[j as int]@ == u);
                        } else if exists|k2: int|
                            0 <= k2 < old_ts.len() && old_ts[k2].url@ == u && old_ts[k2].ohpm_url
                                == ts@[k].ohpm_url {
                            let k2 = choose|k2: int|
                                0 <= k2 < old_ts.len() && old_ts[k2].url@ == u
                                    && old_ts[k2].ohpm_url == ts@[k].ohpm_url;
                            assert(opt_view(old_ts[k2].ohpm_url) == aux_upto(items@, i as int, j as int, u));
                            if u != uj {
                                assert((exists|q: int|
                                    0 <= q < j + 1 && items@[i as int].repositories@[q]@ == u)
                                    == (exists|q: int|
                                    0 <= q < j && items@[i as int].repositories@[q]@ == u));
                            }
                        } else {
                            if aux_url_of(items@.take(i as int), u).is_some() {
                                lemma_aux_listed(items@.take(i as int), u);
                                assert(catalog_lists(items@.take(i as int), u));
                                assert(has_url(old_ts, u));
                            }
                        }
                    }
                }
            } else {
                proof {
                    assert forall|u: Seq<char>| has_url(ts@, u) <==> listed_upto(
                        items@,
                        i as int,
                        j + 1,
                        u,
                    ) by {
                        if is_repo_url(u) && exists|q: int|
                            0 <= q < j + 1 && items@[i as int].repositories@[q]@ == u {
                            let q = choose|q: int|
                                0 <= q < j + 1 && items@[i as int].repositories@[q]@ == u;
                            if q < j {
                                assert(listed_upto(items@, i as int, j as int, u));
                            }
                        }
                    }
                    assert forall|k: int| 0 <= k < ts@.len() implies opt_view(
                        #[trigger] ts@[k].ohpm_url,
                    ) == aux_upto(items@, i as int, j + 1, ts@[k].url@) by {
                        let u = ts@[k].url@;
                        assert(has_url(ts@, u));
                        assert((exists|q: int|
                            0 <= q < j + 1 && items@[i as int].repositories@[q]@ == u) == (exists|
                            q: int,
                        | 0 <= q < j && items@[i as int].repositories@[q]@ == u));
                    }
                }
            }
            j = j + 1;
        }
        proof {
            let next = items@.take(i + 1);
            assert(next.drop_last() =~= items@.take(i as int));
            assert(next.last() == items@[i as int]);
            assert forall|u: Seq<char>| has_url(ts@, u) <==> catalog_lists(next, u) by {
                if catalog_lists(next, u) {
                    let w = choose|w: int| 0 <= w < next.len() && item_lists(next[w], u);
                    if w < i {
                        assert(items@.take(i as int)[w] == next[w]);
                        assert(catalog_lists(items@.take(i as int), u));
                    } else {
                        assert(listed_upto(items@, i as int, j as int, u));
                    }
                }
                if listed_upto(items@, i as int, j as int, u) {
                    if catalog_lists(items@.take(i as int), u) {
                        let w = choose|w: int|
                            0 <= w < items@.take(i as int).len() && item_lists(items@.take(i as int)[w], u);
                        assert(next[w] == items@.take(i as int)[w]);
                    } else {
                        assert(item_lists(next[i as int], u));
                    }
                }
            }
        }
        i = i + 1;
    }
    proof {
        assert(items@.take(items@.len() as int) =~= items@);
    }
    ts
}


/// However often the catalog repeats a repository url, the enumeration
/// yields it exactly once.
pub proof fn lemma_each_target_once(items: Seq<CatalogItem>, ts: Seq<Target>, u: Seq<char>)
    requires
        enumerates(items, ts),
        catalog_lists(items, u),
    ensures
        exists|k: int|
            0 <= k < ts.len() && ts[k].url@ == u && forall|k2: int|
                0 <= k2 < ts.len() && ts[k2].url@ == u ==> k2 == k,
{
    assert(has_url(ts, u));
    let k = choose|k: int| 0 <= k < ts.len() && ts[k].url@ == u;
    assert forall|k2: int| 0 <= k2 < ts.len() && ts[k2].url@ == u implies k2 == k by {
        lemma_lex_irreflexive(u);
        if k2 < k {
            assert(lex_lt(ts[k2].url@, ts[k].url@));
        } else if k2 > k {
            assert(lex_lt(ts[k].url@, ts[k2].url@));
        }
    }
}

} // verus!
