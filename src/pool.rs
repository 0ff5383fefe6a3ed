//! The credential pool: a fixed arena of client slots, each lent to at most
//! one live fetch at a time.
use vstd::prelude::*;

verus! {

/// How many slots of the arena are lent.
pub open spec fn count_lent(s: Seq<bool>) -> nat
    decreases s.len(),
{
    if s.len() == 0 {
        0
    } else {
        count_lent(s.drop_last()) + if s.last() {
            1nat
        } else {
            0nat
        }
    }
}

proof fn lemma_count_bounds(s: Seq<bool>)
    ensures
        count_lent(s) <= s.len(),
        (exists|i: int| 0 <= i < s.len() && s[i]) ==> count_lent(s) > 0,
        count_lent(s) < s.len() ==> exists|i: int| 0 <= i < s.len() && !s[i],
    decreases s.len(),
{
    if s.len() > 0 {
        let d = s.drop_last();
        lemma_count_bounds(d);
        if exists|i: int| 0 <= i < s.len() && s[i] {
            let i = choose|i: int| 0 <= i < s.len() && s[i];
            if i < s.len() - 1 {
                assert(d[i]);
            }
        }
        if count_lent(s) < s.len() && !(!s.last()) {
            let i = choose|i: int| 0 <= i < d.len() && !d[i];
            assert(!s[i]);
        }
    }
}

proof fn lemma_count_update(s: Seq<bool>, i: int, b: bool)
    requires
        0 <= i < s.len(),
    ensures
        count_lent(s.update(i, b)) + (if s[i] { 1int } else { 0int }) == count_lent(s) + (if b {
            1int
        } else {
            0int
        }),
    decreases s.len(),
{
    let u = s.update(i, b);
    if i == s.len() - 1 {
        assert(u.drop_last() =~= s.drop_last());
    } else {
        assert(u.drop_last() =~= s.drop_last().update(i, b));
        lemma_count_update(s.drop_last(), i, b);
    }
}

/// A fixed set of interchangeable client slots; a slot is lent to one live
/// fetch and returned when that fetch ends.
pub struct CredentialPool {
    lent: Vec<bool>,
    in_use: usize,
    authenticated: bool,
}

impl CredentialPool {
    /// Which slots are lent.
    pub closed spec fn lent_spec(&self) -> Seq<bool> {
        self.lent@
    }

    /// The number of slots.
    pub closed spec fn size_spec(&self) -> nat {
        self.lent@.len()
    }

    /// The number of lent slots.
    pub closed spec fn in_use_spec(&self) -> nat {
        self.in_use as nat
    }

    /// The slots carry credentials.
    pub closed spec fn authenticated_spec(&self) -> bool {
        self.authenticated
    }

    /// At least one slot, and the count of lent slots is kept exactly.
    pub closed spec fn wf(&self) -> bool {
        &&& self.lent@.len() >= 1
        &&& self.lent@.len() <= usize::MAX
        &&& self.in_use as nat == count_lent(self.lent@)
    }

    /// One slot per credential; with none, a single unauthenticated slot.
    pub fn new(credentials: usize) -> (p: Self)
        ensures
            p.wf(),
            p.size_spec() == if credentials == 0 {
                1
            } else {
                credentials as nat
            },
            p.in_use_spec() == 0,
            p.authenticated_spec() == (credentials > 0),
            forall|s: int| 0 <= s < p.size_spec() ==> !p.lent_spec()[s],
    {
        let size: usize = if credentials == 0 { 1 } else { credentials };
        let mut lent: Vec<bool> = Vec::new();
        let mut i: usize = 0;
        while i < size
            invariant
                i <= size,
                lent@.len() == i,
                count_lent(lent@) == 0,
                forall|s: int| 0 <= s < i ==> !lent@[s],
            decreases size - i,
        {
            let ghost before = lent@;
            lent.push(false);
            proof {
                assert(lent@.drop_last() =~= before);
            }
            i = i + 1;
        }
        CredentialPool { lent, in_use: 0, authenticated: credentials > 0 }
    }

    /// The number of slots.
    pub fn size(&self) -> (r: usize)
        ensures
            r as nat == self.size_spec(),
    {
        self.lent.len()
    }

    /// The number of lent slots.
    pub fn in_use(&self) -> (r: usize)
        ensures
            r as nat == self.in_use_spec(),
    {
        self.in_use
    }

    /// Whether the slots carry credentials.
    pub fn is_authenticated(&self) -> (r: bool)
        ensures
            r == self.authenticated_spec(),
    {
        self.authenticated
    }

    /// Lends a free slot, or returns `None` when every slot is lent.
    pub fn acquire(&mut self) -> (r: Option<usize>)
        requires
            old(self).wf(),
        ensures
            final(self).wf(),
            final(self).size_spec() == old(self).size_spec(),
            final(self).authenticated_spec() == old(self).authenticated_spec(),
            match r {
                Some(s) => {
                    &&& s < old(self).size_spec()
                    &&& !old(self).lent_spec()[s as int]
                    &&& final(self).lent_spec() == old(self).lent_spec().update(s as int, true)
                    &&& final(self).in_use_spec() == old(self).in_use_spec() + 1
                },
                None => {
                    &&& old(self).in_use_spec() == old(self).size_spec()
                    &&& *final(self) == *old(self)
                },
            },
    {
        proof {
            lemma_count_bounds(self.lent@);
        }
        let n = self.lent.len();
        let mut i: usize = 0;
        while i < n
            invariant
                i <= n,
                n == self.lent@.len(),
                self.lent@ == old(self).lent@,
                self.in_use == old(self).in_use,
                self.authenticated == old(self).authenticated,
                self.wf(),
                *self == *old(self),
                forall|q: int| 0 <= q < i ==> self.lent@[q],
            decreases n - i,
        {
            if !self.lent[i] {
                proof {
                    lemma_count_update(self.lent@, i as int, true);
                    lemma_count_bounds(self.lent@.update(i as int, true));
                }
                let ghost before = self.lent@;
                self.lent.set(i, true);
                assert(self.lent@ == before.update(i as int, true));
                self.in_use = self.in_use + 1;
                return Some(i);
            }
            i = i + 1;
        }
        None
    }

    /// Returns a lent slot to the pool.
    pub fn release(&mut self, slot: usize)
        requires
            old(self).wf(),
            slot < old(self).size_spec(),
            old(self).lent_spec()[slot as int],
        ensures
            final(self).wf(),
            final(self).size_spec() == old(self).size_spec(),
            final(self).authenticated_spec() == old(self).authenticated_spec(),
            final(self).lent_spec() == old(self).lent_spec().update(slot as int, false),
            final(self).in_use_spec() + 1 == old(self).in_use_spec(),
    {
        proof {
            lemma_count_update(self.lent@, slot as int, false);
        }
        self.lent.set(slot, false);
        self.in_use = self.in_use - 1;
    }
}

/// Never are more slots lent than the pool holds, and a lent slot is counted.
pub proof fn lemma_in_use_bounded(p: &CredentialPool)
    requires
        p.wf(),
    ensures
        p.lent_spec().len() == p.size_spec(),
        p.size_spec() <= usize::MAX,
        p.in_use_spec() <= p.size_spec(),
        (exists|s: int| 0 <= s < p.size_spec() && p.lent_spec()[s]) ==> p.in_use_spec() > 0,
{
    lemma_count_bounds(p.lent@);
}


/// Texts joined with a comma between each two.
pub open spec fn joined(parts: Seq<Seq<char>>) -> Seq<char>
    decreases parts.len(),
{
    if parts.len() == 0 {
        Seq::empty()
    } else if parts.len() == 1 {
        parts[0]
    } else {
        joined(parts.drop_last()) + seq![','] + parts.last()
    }
}

/// The characters of each text.
pub open spec fn views(ts: Seq<String>) -> Seq<Seq<char>> {
    ts.map_values(|t: String| t@)
}

/// The credentials of a comma separated list: none when the list is empty,
/// else its comma-free pieces, in order.
pub fn credential_tokens(list: &str) -> (r: Vec<String>)
    ensures
        list@.len() == 0 ==> r@.len() == 0,
        list@.len() > 0 ==> r@.len() >= 1 && joined(views(r@)) == list@,
        forall|i: int| 0 <= i < r@.len() ==> !(#[trigger] r@[i])@.contains(','),
{
    let n = list.unicode_len();
    let mut r: Vec<String> = Vec::new();
    if n == 0 {
        return r;
    }
    let mut start: usize = 0;
    let mut i: usize = 0;
    while i < n
        invariant
            start <= i <= n,
            n == list@.len(),
            r@.len() == 0 ==> start == 0,
            r@.len() > 0 ==> joined(views(r@)) + seq![','] == list@.take(start as int),
            forall|q: int| start <= q < i ==> list@[q] != ',',
            forall|q: int| 0 <= q < r@.len() ==> !(#[trigger] r@[q])@.contains(','),
        decreases n - i,
    {
        if list.get_char(i) == ',' {
            let piece = String::from_str(list.substring_char(start, i));
            let ghost before = r@;
            r.push(piece);
            proof {
                assert(views(r@).drop_last() =~= views(before));
                assert(!piece@.contains(',')) by {
                    if piece@.contains(',') {
                        let q = choose|q: int| 0 <= q < piece@.len() && piece@[q] == ',';
                        assert(list@[start + q] == ',');
                    }
                }
                if before.len() == 0 {
                    assert(joined(views(r@)) =~= piece@);
                }
                assert(joined(views(r@)) + seq![','] =~= list@.take(i + 1));
            }
            start = i + 1;
        }
        i = i + 1;
    }
    let piece = String::from_str(list.substring_char(start, n));
    let ghost before = r@;
    r.push(piece);
    proof {
        assert(views(r@).drop_last() =~= views(before));
        assert(!piece@.contains(',')) by {
            if piece@.contains(',') {
                let q = choose|q: int| 0 <= q < piece@.len() && piece@[q] == ',';
                assert(list@[start + q] == ',');
            }
        }
        if before.len() == 0 {
            assert(joined(views(r@)) =~= list@);
        } else {
            assert(joined(views(r@)) =~= list@);
        }
    }
    r
}

} // verus!
