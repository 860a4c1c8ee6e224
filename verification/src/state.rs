use vstd::prelude::*;

use crate::msg::{OrderBy, VestingInfo, VestingInfoV};

verus! {

/// The singleton configuration of the ledger: the controller and the
/// identity of the settlement token service.
#[derive(Clone, PartialEq, Eq, Debug)]
pub struct Config {
    pub owner: String,
    pub token_addr: String,
}

/// A pending offer to hand administrative control to `owner`,
/// acceptable until the absolute time `ttl`.
#[derive(Clone, PartialEq, Eq, Debug)]
pub struct OwnershipProposal {
    pub owner: String,
    pub ttl: u64,
}

/// Strict lexicographic order on identity strings, by code point: the
/// order in which the account listing walks the ledger.
pub open spec fn lex_lt(a: Seq<char>, b: Seq<char>) -> bool
    decreases a.len(),
{
    if b.len() == 0 {
        false
    } else if a.len() == 0 {
        true
    } else if (a[0] as int) < (b[0] as int) {
        true
    } else if (a[0] as int) == (b[0] as int) {
        lex_lt(a.drop_first(), b.drop_first())
    } else {
        false
    }
}

/// No sequence is lexicographically below itself.
pub proof fn lemma_lex_lt_irrefl(a: Seq<char>)
    ensures
        !lex_lt(a, a),
    decreases a.len(),
{
    if a.len() > 0 {
        lemma_lex_lt_irrefl(a.drop_first());
    }
}

/// The lexicographic order is transitive.
pub proof fn lemma_lex_lt_trans(a: Seq<char>, b: Seq<char>, c: Seq<char>)
    requires
        lex_lt(a, b),
        lex_lt(b, c),
    ensures
        lex_lt(a, c),
    decreases a.len(),
{
    if a.len() > 0 && b.len() > 0 && (a[0] as int) == (b[0] as int) && (b[0] as int) == (
    c[0] as int) {
        lemma_lex_lt_trans(a.drop_first(), b.drop_first(), c.drop_first());
    }
}

/// Dropping an equal prefix does not change how two sequences compare.
pub proof fn lemma_lex_lt_skip(a: Seq<char>, b: Seq<char>, i: int)
    requires
        0 <= i <= a.len(),
        i <= b.len(),
        forall|j: int| 0 <= j < i ==> a[j] == b[j],
    ensures
        lex_lt(a, b) == lex_lt(a.skip(i), b.skip(i)),
    decreases i,
{
    if i > 0 {
        assert(a[0] == b[0]);
        lemma_lex_lt_skip(a.drop_first(), b.drop_first(), i - 1);
        assert(a.drop_first().skip(i - 1) =~= a.skip(i));
        assert(b.drop_first().skip(i - 1) =~= b.skip(i));
    } else {
        assert(a.skip(0) =~= a);
        assert(b.skip(0) =~= b);
    }
}

/// The outcome of comparing two identity strings.
#[derive(Clone, Copy, PartialEq, Eq, Structural, Debug)]
pub enum KeyOrder {
    Less,
    Equal,
    Greater,
}

/// Compares two identity strings in the lexicographic code-point order.
pub fn compare_keys(a: &String, b: &String) -> (o: KeyOrder)
    ensures
        (o == KeyOrder::Less) == lex_lt(a@, b@),
        (o == KeyOrder::Equal) == (a@ == b@),
        (o == KeyOrder::Greater) == lex_lt(b@, a@),
{
    let astr = a.as_str();
    let bstr = b.as_str();
    let an = astr.unicode_len();
    let bn = bstr.unicode_len();
    let n: usize = if an < bn {
        an
    } else {
        bn
    };
    let mut i: usize = 0;
    while i < n
        invariant
            i <= n,
            an == a@.len(),
            bn == b@.len(),
            n == if an < bn {
                an
            } else {
                bn
            },
            astr@ == a@,
            bstr@ == b@,
            forall|j: int| 0 <= j < i ==> a@[j] == b@[j],
        decreases n - i,
    {
        let ca = astr.get_char(i);
        let cb = bstr.get_char(i);
        if ca != cb {
            proof {
                lemma_lex_lt_skip(a@, b@, i as int);
                lemma_lex_lt_skip(b@, a@, i as int);
                assert(a@.skip(i as int)[0] == a@[i as int]);
                assert(b@.skip(i as int)[0] == b@[i as int]);
            }
            if (ca as u32) < (cb as u32) {
                return KeyOrder::Less;
            } else {
                return KeyOrder::Greater;
            }
        }
        i += 1;
    }
    proof {
        lemma_lex_lt_skip(a@, b@, n as int);
        lemma_lex_lt_skip(b@, a@, n as int);
    }
    if an < bn {
        KeyOrder::Less
    } else if bn < an {
        KeyOrder::Greater
    } else {
        proof {
            assert(a@ =~= b@);
            lemma_lex_lt_irrefl(a@);
        }
        KeyOrder::Equal
    }
}

/// The durable mapping from account identity to its vesting record,
/// held as a list of entries in strictly ascending key order.
pub struct Ledger {
    pub entries: Vec<(String, VestingInfo)>,
}

impl Ledger {
    /// Entry keys are strictly ascending, so every key appears at most once.
    pub open spec fn sorted(self) -> bool {
        forall|i: int, j: int|
            0 <= i < j < self.entries@.len() ==> lex_lt(
                (#[trigger] self.entries@[i]).0@,
                (#[trigger] self.entries@[j]).0@,
            )
    }

    /// Well-formed: sorted, and every stored record satisfies the
    /// schedule invariant.
    pub open spec fn wf(self) -> bool {
        &&& self.sorted()
        &&& forall|i: int|
            0 <= i < self.entries@.len() ==> (#[trigger] self.entries@[i]).1@.is_valid()
    }

    pub open spec fn has_account(self, a: Seq<char>) -> bool {
        exists|i: int| 0 <= i < self.entries@.len() && (#[trigger] self.entries@[i]).0@ == a
    }

    pub open spec fn index_of(self, a: Seq<char>) -> int {
        choose|i: int| 0 <= i < self.entries@.len() && (#[trigger] self.entries@[i]).0@ == a
    }

    /// The record stored under `a`, if any.
    pub open spec fn spec_get(self, a: Seq<char>) -> Option<VestingInfoV> {
        if self.has_account(a) {
            Some(self.entries@[self.index_of(a)].1@)
        } else {
            None
        }
    }

    /// In a sorted ledger the entry at any index is what lookup by its
    /// key returns.
    pub proof fn lemma_get_at(self, i: int)
        requires
            self.sorted(),
            0 <= i < self.entries@.len(),
        ensures
            self.has_account(self.entries@[i].0@),
            self.spec_get(self.entries@[i].0@) == Some(self.entries@[i].1@),
    {
        let a = self.entries@[i].0@;
        assert(self.has_account(a));
        let j = self.index_of(a);
        if i != j {
            lemma_lex_lt_irrefl(a);
        }
    }

    /// An empty ledger.
    pub fn new() -> (r: Ledger)
        ensures
            r.wf(),
            r.entries@.len() == 0,
            forall|a: Seq<char>| !r.has_account(a),
    {
        Ledger { entries: Vec::new() }
    }

    /// The position where `address` belongs: the index of the first key
    /// not below it. The second component says whether the key at that
    /// position is `address` itself.
    fn find_slot(&self, address: &String) -> (r: (usize, bool))
        requires
            self.sorted(),
        ensures
            r.0 <= self.entries@.len(),
            forall|j: int| 0 <= j < r.0 ==> lex_lt((#[trigger] self.entries@[j]).0@, address@),
            r.1 == (r.0 < self.entries@.len() && self.entries@[r.0 as int].0@ == address@),
            !r.1 ==> forall|j: int|
                r.0 <= j < self.entries@.len() ==> lex_lt(
                    address@,
                    (#[trigger] self.entries@[j]).0@,
                ),
    {
        let n = self.entries.len();
        let mut i: usize = 0;
        while i < n
            invariant
                i <= n,
                n == self.entries@.len(),
                self.sorted(),
                forall|j: int| 0 <= j < i ==> lex_lt((#[trigger] self.entries@[j]).0@, address@),
            decreases n - i,
        {
            match compare_keys(&self.entries[i].0, address) {
                KeyOrder::Less => {
                    i += 1;
                },
                KeyOrder::Equal => {
                    return (i, true);
                },
                KeyOrder::Greater => {
                    proof {
                        assert forall|j: int|
                            i <= j < self.entries@.len() implies lex_lt(
                            address@,
                            (#[trigger] self.entries@[j]).0@,
                        ) by {
                            if j > i {
                                lemma_lex_lt_trans(
                                    address@,
                                    self.entries@[i as int].0@,
                                    self.entries@[j].0@,
                                );
                            }
                        }
                    }
                    return (i, false);
                },
            }
        }
        (n, false)
    }

    /// Fetches the record of `address`, if the ledger holds one.
    pub fn may_load(&self, address: &String) -> (r: Option<&VestingInfo>)
        requires
            self.sorted(),
        ensures
            match r {
                Some(info) => self.spec_get(address@) == Some(info@),
                None => self.spec_get(address@) is None,
            },
    {
        let (lo, eq) = self.find_slot(address);
        if eq {
            proof {
                self.lemma_get_at(lo as int);
            }
            Some(&self.entries[lo].1)
        } else {
            proof {
                if self.has_account(address@) {
                    let i = choose|i: int|
                        0 <= i < self.entries@.len() && (#[trigger] self.entries@[i]).0@
                            == address@;
                    lemma_lex_lt_irrefl(address@);
                    assert(i < lo || lo <= i);
                }
            }
            None
        }
    }

    /// Stores `info` under `address`, inserting or overwriting, and
    /// leaves every other account untouched.
    pub fn save(&mut self, address: &String, info: VestingInfo)
        requires
            old(self).sorted(),
        ensures
            final(self).sorted(),
            old(self).wf() && info@.is_valid() ==> final(self).wf(),
            final(self).spec_get(address@) == Some(info@),
            forall|b: Seq<char>|
                b != address@ ==> final(self).spec_get(b) == old(self).spec_get(b),
            final(self).has_account(address@),
            forall|b: Seq<char>|
                b != address@ ==> final(self).has_account(b) == old(self).has_account(b),
    {
        let ghost prior = *self;
        let (lo, eq) = self.find_slot(address);
        if eq {
            self.entries.remove(lo);
        }
        self.entries.insert(lo, (address.clone(), info));
        proof {
            let pre = prior.entries@;
            let post = self.entries@;
            let shift: int = if eq {
                1
            } else {
                0
            };
            assert(forall|j: int| 0 <= j < lo ==> post[j] == pre[j]);
            assert(post[lo as int].0@ == address@ && post[lo as int].1 == info);
            assert(forall|j: int| lo < j < post.len() ==> post[j] == pre[j - 1 + shift]);
            assert(post.len() == pre.len() + 1 - shift);
            // sortedness of the new arrangement
            assert forall|i: int, j: int| 0 <= i < j < post.len() implies lex_lt(
                (#[trigger] post[i]).0@,
                (#[trigger] post[j]).0@,
            ) by {
                if i == lo {
                    if eq {
                        assert(post[j] == pre[j]);
                        assert(lex_lt(pre[lo as int].0@, pre[j].0@));
                    } else {
                        assert(lex_lt(address@, pre[j - 1].0@));
                    }
                } else if j == lo {
                    assert(lex_lt(pre[i].0@, address@));
                } else if i < lo && j > lo {
                    if eq {
                        assert(lex_lt(pre[i].0@, pre[j].0@));
                    } else {
                        assert(lex_lt(pre[i].0@, pre[j - 1].0@));
                    }
                }
            }
            assert(self.sorted());
            self.lemma_get_at(lo as int);
            // every other key maps as before
            assert forall|b: Seq<char>| b != address@ implies self.spec_get(b) == prior.spec_get(
                b,
            ) && self.has_account(b) == prior.has_account(b) by {
                if prior.has_account(b) {
                    let i = choose|i: int|
                        0 <= i < pre.len() && (#[trigger] pre[i]).0@ == b;
                    if i < lo {
                        assert(post[i].0@ == b);
                        prior.lemma_get_at(i);
                        self.lemma_get_at(i);
                    } else {
                        assert(i >= lo);
                        if eq {
                            assert(i != lo);
                            assert(post[i].0@ == b && post[i].1 == pre[i].1);
                            prior.lemma_get_at(i);
                            self.lemma_get_at(i);
                        } else {
                            assert(post[i + 1].0@ == b && post[i + 1].1 == pre[i].1);
                            prior.lemma_get_at(i);
                            self.lemma_get_at(i + 1);
                        }
                    }
                } else {
                    if self.has_account(b) {
                        let m = choose|m: int|
                            0 <= m < post.len() && (#[trigger] post[m]).0@ == b;
                        if m < lo {
                            assert(pre[m].0@ == b);
                        } else if m == lo {
                        } else {
                            assert(pre[m - 1 + shift].0@ == b);
                        }
                    }
                }
            }
        }
    }
}

/// The character view of an optional cursor string.
pub open spec fn opt_view(o: Option<String>) -> Option<Seq<char>> {
    match o {
        Some(s) => Some(s@),
        None => None,
    }
}

/// Whether key `k` lies strictly after the cursor; no cursor accepts every key.
pub open spec fn after_cursor(k: Seq<char>, c: Option<Seq<char>>) -> bool {
    match c {
        Some(cv) => lex_lt(cv, k),
        None => true,
    }
}

/// Whether key `k` lies strictly before the cursor; no cursor accepts every key.
pub open spec fn before_cursor(k: Seq<char>, c: Option<Seq<char>>) -> bool {
    match c {
        Some(cv) => lex_lt(k, cv),
        None => true,
    }
}

/// The page size a listing uses: the requested limit, defaulting to 10
/// and capped at 30.
pub open spec fn limit_eff(limit: Option<u32>) -> int {
    let l: int = match limit {
        Some(v) => v as int,
        None => 10,
    };
    if l > 30 {
        30
    } else {
        l
    }
}

/// `lo` splits the ledger into the keys at or before the cursor and the
/// keys after it.
pub open spec fn asc_lower_bound(l: Ledger, c: Option<Seq<char>>, lo: int) -> bool {
    &&& 0 <= lo <= l.entries@.len()
    &&& forall|j: int| 0 <= j < lo ==> !after_cursor((#[trigger] l.entries@[j]).0@, c)
    &&& forall|j: int| lo <= j < l.entries@.len() ==> after_cursor((#[trigger] l.entries@[j]).0@, c)
}

/// `hi` splits the ledger into the keys before the cursor and the keys
/// at or after it.
pub open spec fn desc_upper_bound(l: Ledger, c: Option<Seq<char>>, hi: int) -> bool {
    &&& 0 <= hi <= l.entries@.len()
    &&& forall|j: int| 0 <= j < hi ==> before_cursor((#[trigger] l.entries@[j]).0@, c)
    &&& forall|j: int|
        hi <= j < l.entries@.len() ==> !before_cursor((#[trigger] l.entries@[j]).0@, c)
}

/// The page lists the entries from `lo` on, in ledger order, `lim` of
/// them at most.
pub open spec fn matches_asc_page(
    l: Ledger,
    r: Seq<(String, VestingInfo)>,
    lo: int,
    lim: int,
) -> bool {
    &&& r.len() == (if lim < l.entries@.len() - lo {
        lim
    } else {
        l.entries@.len() - lo
    })
    &&& forall|m: int|
        0 <= m < r.len() ==> (#[trigger] r[m]).0 == l.entries@[lo + m].0 && r[m].1@
            == l.entries@[lo + m].1@
}

/// The page lists the entries below `hi` in reverse ledger order, `lim`
/// of them at most.
pub open spec fn matches_desc_page(
    l: Ledger,
    r: Seq<(String, VestingInfo)>,
    hi: int,
    lim: int,
) -> bool {
    &&& r.len() == (if lim < hi {
        lim
    } else {
        hi
    })
    &&& forall|m: int|
        0 <= m < r.len() ==> (#[trigger] r[m]).0 == l.entries@[hi - 1 - m].0 && r[m].1@
            == l.entries@[hi - 1 - m].1@
}

fn cursor_after(cursor: &Option<String>, k: &String) -> (r: bool)
    ensures
        r == after_cursor(k@, opt_view(*cursor)),
{
    match cursor {
        Some(c) => match compare_keys(c, k) {
            KeyOrder::Less => true,
            _ => false,
        },
        None => true,
    }
}

fn cursor_before(cursor: &Option<String>, k: &String) -> (r: bool)
    ensures
        r == before_cursor(k@, opt_view(*cursor)),
{
    match cursor {
        Some(c) => match compare_keys(k, c) {
            KeyOrder::Less => true,
            _ => false,
        },
        None => true,
    }
}

/// One page of the account listing: the records strictly after (or, in
/// descending order, strictly before) the cursor key, in key order, up
/// to the effective page size.
pub fn read_vesting_infos(
    ledger: &Ledger,
    start_after: &Option<String>,
    limit: Option<u32>,
    order_by: Option<OrderBy>,
) -> (r: Vec<(String, VestingInfo)>)
    requires
        ledger.sorted(),
    ensures
        ({
            let c = opt_view(*start_after);
            let lim = limit_eff(limit);
            match order_by {
                Some(OrderBy::Asc) => exists|lo: int|
                    #[trigger] asc_lower_bound(*ledger, c, lo) && matches_asc_page(
                        *ledger,
                        r@,
                        lo,
                        lim,
                    ),
                _ => exists|hi: int|
                    #[trigger] desc_upper_bound(*ledger, c, hi) && matches_desc_page(
                        *ledger,
                        r@,
                        hi,
                        lim,
                    ),
            }
        }),
{
    let lim: usize = match limit {
        Some(v) => if v > 30 {
            30
        } else {
            v as usize
        },
        None => 10,
    };
    let n = ledger.entries.len();
    let asc = match order_by {
        Some(OrderBy::Asc) => true,
        _ => false,
    };
    let mut out: Vec<(String, VestingInfo)> = Vec::new();
    if asc {
        let mut lo: usize = 0;
        while lo < n && !cursor_after(start_after, &ledger.entries[lo].0)
            invariant
                lo <= n,
                n == ledger.entries@.len(),
                ledger.sorted(),
                forall|j: int|
                    0 <= j < lo ==> !after_cursor(
                        (#[trigger] ledger.entries@[j]).0@,
                        opt_view(*start_after),
                    ),
            decreases n - lo,
        {
            lo += 1;
        }
        proof {
            assert forall|j: int| lo <= j < n implies after_cursor(
                (#[trigger] ledger.entries@[j]).0@,
                opt_view(*start_after),
            ) by {
                if j > lo && start_after is Some {
                    lemma_lex_lt_trans(
                        (start_after->Some_0)@,
                        ledger.entries@[lo as int].0@,
                        ledger.entries@[j].0@,
                    );
                }
            }
            assert(asc_lower_bound(*ledger, opt_view(*start_after), lo as int));
        }
        let mut j: usize = lo;
        while j < n && out.len() < lim
            invariant
                lo <= j <= n,
                n == ledger.entries@.len(),
                out@.len() == j - lo,
                out@.len() <= lim,
                forall|m: int|
                    0 <= m < out@.len() ==> (#[trigger] out@[m]).0 == ledger.entries@[lo + m].0
                        && out@[m].1@ == ledger.entries@[lo + m].1@,
            decreases n - j,
        {
            let e = &ledger.entries[j];
            out.push((e.0.clone(), e.1.clone()));
            j += 1;
        }
        proof {
            assert(matches_asc_page(*ledger, out@, lo as int, limit_eff(limit)));
        }
    } else {
        let mut hi: usize = 0;
        while hi < n && cursor_before(start_after, &ledger.entries[hi].0)
            invariant
                hi <= n,
                n == ledger.entries@.len(),
                ledger.sorted(),
                forall|j: int|
                    0 <= j < hi ==> before_cursor(
                        (#[trigger] ledger.entries@[j]).0@,
                        opt_view(*start_after),
                    ),
            decreases n - hi,
        {
            hi += 1;
        }
        proof {
            assert forall|j: int| hi <= j < n implies !before_cursor(
                (#[trigger] ledger.entries@[j]).0@,
                opt_view(*start_after),
            ) by {
                if j > hi && start_after is Some && lex_lt(
                    ledger.entries@[j].0@,
                    (start_after->Some_0)@,
                ) {
                    lemma_lex_lt_trans(
                        ledger.entries@[hi as int].0@,
                        ledger.entries@[j].0@,
                        (start_after->Some_0)@,
                    );
                }
            }
            assert(desc_upper_bound(*ledger, opt_view(*start_after), hi as int));
        }
        let mut j: usize = hi;
        while j > 0 && out.len() < lim
            invariant
                j <= hi <= n,
                n == ledger.entries@.len(),
                out@.len() == hi - j,
                out@.len() <= lim,
                forall|m: int|
                    0 <= m < out@.len() ==> (#[trigger] out@[m]).0 == ledger.entries@[hi - 1 - m].0
                        && out@[m].1@ == ledger.entries@[hi - 1 - m].1@,
            decreases j,
        {
            j -= 1;
            let e = &ledger.entries[j];
            out.push((e.0.clone(), e.1.clone()));
        }
        proof {
            assert(matches_desc_page(*ledger, out@, hi as int, limit_eff(limit)));
        }
    }
    out
}

} // verus!
