//! The recent-installs ledger: at most four entries, newest first, one per
//! theme name.
use vstd::prelude::*;
use crate::manifest::ThemeManifest;

verus! {

/// The largest number of entries the ledger keeps.
pub const MAX_RECENT: usize = 4;

/// One installed theme, as the ledger records it.
pub struct RecentTheme {
    pub name: String,
    pub author: String,
    pub description: String,
    /// Seconds since the Unix epoch.
    pub installed_at: u64,
}

/// An entry as a mathematical value: name, author, description, time.
pub type RecentView = (Seq<char>, Seq<char>, Seq<char>, u64);

impl View for RecentTheme {
    type V = RecentView;

    open spec fn view(&self) -> RecentView {
        (self.name@, self.author@, self.description@, self.installed_at)
    }
}

pub open spec fn ledger_view(s: Seq<RecentTheme>) -> Seq<RecentView> {
    s.map_values(|t: RecentTheme| t@)
}

/// The entries of `s` whose name is not `n`, in their order.
pub open spec fn without_name(s: Seq<RecentView>, n: Seq<char>) -> Seq<RecentView>
    decreases s.len(),
{
    if s.len() == 0 {
        s
    } else {
        let r = without_name(s.drop_last(), n);
        if s.last().0 == n {
            r
        } else {
            r.push(s.last())
        }
    }
}

/// The first `k` elements of `s`, or all of them if there are fewer.
pub open spec fn at_most(s: Seq<RecentView>, k: nat) -> Seq<RecentView> {
    if s.len() <= k {
        s
    } else {
        s.take(k as int)
    }
}

/// The ledger after recording `e`: `e` first, then the older entries of
/// other names, cut to the ledger's bound.
pub open spec fn upsert_spec(ledger: Seq<RecentView>, e: RecentView) -> Seq<RecentView> {
    at_most(seq![e] + without_name(ledger, e.0), MAX_RECENT as nat)
}

/// The ledger after recording each of `es`, in order.
pub open spec fn upsert_all(ledger: Seq<RecentView>, es: Seq<RecentView>) -> Seq<RecentView>
    decreases es.len(),
{
    if es.len() == 0 {
        ledger
    } else {
        upsert_spec(upsert_all(ledger, es.drop_last()), es.last())
    }
}

/// The ledger entry for a theme installed at `installed_at`.
pub fn recent_entry(m: &ThemeManifest, installed_at: u64) -> (r: RecentTheme)
    ensures
        r@ == (m.name@, m.author@, m.description@, installed_at),
{
    RecentTheme {
        name: m.name.clone(),
        author: m.author.clone(),
        description: m.description.clone(),
        installed_at,
    }
}

/// Records `entry` as the newest install: any older entry of the same name
/// goes, and only the four newest entries stay.
pub fn upsert_recent(ledger: &Vec<RecentTheme>, entry: RecentTheme) -> (r: Vec<RecentTheme>)
    ensures
        ledger_view(r@) == upsert_spec(ledger_view(ledger@), entry@),
        1 <= r@.len() <= MAX_RECENT,
        r@[0]@ == entry@,
{
    let ghost e = entry@;
    let ghost l = ledger_view(ledger@);
    let mut out: Vec<RecentTheme> = Vec::new();
    let n: usize = ledger.len();
    let mut i: usize = 0;
    proof {
        assert(l.take(0) =~= Seq::<RecentView>::empty());
        assert(without_name(l.take(0), e.0) == l.take(0));
    }
    let name: String = entry.name.clone();
    out.push(entry);
    proof {
        assert(ledger_view(out@) =~= seq![e] + without_name(l.take(0), e.0));
    }
    while i < n
        invariant
            n == ledger@.len(),
            l == ledger_view(ledger@),
            name@ == e.0,
            i <= n,
            ledger_view(out@) == at_most(seq![e] + without_name(l.take(i as int), e.0), MAX_RECENT as nat),
        decreases n - i,
    {
        let ghost x = seq![e] + without_name(l.take(i as int), e.0);
        let ghost prev = out@;
        proof {
            assert(l.take(i + 1).drop_last() =~= l.take(i as int));
            assert(l.take(i + 1).last() == l[i as int]);
        }
        let t = &ledger[i];
        if t.name != name {
            proof {
                assert(seq![e] + without_name(l.take(i + 1), e.0) =~= x.push(l[i as int]));
            }
            if out.len() < MAX_RECENT {
                out.push(RecentTheme {
                    name: t.name.clone(),
                    author: t.author.clone(),
                    description: t.description.clone(),
                    installed_at: t.installed_at,
                });
                proof {
                    assert(ledger_view(out@) =~= ledger_view(prev).push(l[i as int]));
                }
            } else {
                proof {
                    assert(x.push(l[i as int]).take(4) =~= x.take(4));
                }
            }
        }
        i = i + 1;
    }
    proof {
        assert(l.take(n as int) =~= l);
        assert(ledger_view(out@).len() == out@.len());
        assert(ledger_view(out@)[0] == out@[0]@);
    }
    out
}

proof fn lemma_without_name_concat(a: Seq<RecentView>, b: Seq<RecentView>, n: Seq<char>)
    ensures
        without_name(a + b, n) == without_name(a, n) + without_name(b, n),
    decreases b.len(),
{
    if b.len() == 0 {
        assert(a + b =~= a);
        assert(without_name(a, n) + without_name(b, n) =~= without_name(a, n));
    } else {
        assert((a + b).drop_last() =~= a + b.drop_last());
        assert((a + b).last() == b.last());
        lemma_without_name_concat(a, b.drop_last(), n);
        if b.last().0 == n {
        } else {
            assert(without_name(a, n) + without_name(b.drop_last(), n).push(b.last()) =~= (
            without_name(a, n) + without_name(b.drop_last(), n)).push(b.last()));
        }
    }
}

proof fn lemma_without_name_none(a: Seq<RecentView>, n: Seq<char>)
    requires
        forall|j: int| 0 <= j < a.len() ==> (#[trigger] a[j]).0 != n,
    ensures
        without_name(a, n) == a,
    decreases a.len(),
{
    if a.len() > 0 {
        lemma_without_name_none(a.drop_last(), n);
        assert(a.drop_last().push(a.last()) =~= a);
    }
}

/// The entries of other names that lead `s` lead what remains of it.
proof fn lemma_without_name_prefix(s: Seq<RecentView>, n: Seq<char>, m: int)
    requires
        0 <= m <= s.len(),
        forall|j: int| 0 <= j < m ==> (#[trigger] s[j]).0 != n,
    ensures
        without_name(s, n).len() >= m,
        forall|j: int| 0 <= j < m ==> #[trigger] without_name(s, n)[j] == s[j],
{
    let a = s.take(m);
    let b = s.skip(m);
    assert(a + b =~= s);
    lemma_without_name_concat(a, b, n);
    lemma_without_name_none(a, n);
}

pub open spec fn distinct_names(es: Seq<RecentView>) -> bool {
    forall|i: int, j: int| 0 <= i < j < es.len() ==> (#[trigger] es[i]).0 != (#[trigger] es[j]).0
}

proof fn lemma_upsert_all_newest(ledger: Seq<RecentView>, es: Seq<RecentView>)
    requires
        es.len() >= 1,
        distinct_names(es),
    ensures
        upsert_all(ledger, es).len() <= 4,
        upsert_all(ledger, es).len() >= if es.len() < 4 { es.len() } else { 4 },
        forall|j: int|
            0 <= j < 4 && j < es.len() ==> #[trigger] upsert_all(ledger, es)[j] == es[es.len() - 1 - j],
    decreases es.len(),
{
    let k = es.len();
    let e = es.last();
    let prev = es.drop_last();
    let r = upsert_all(ledger, prev);
    let w = without_name(r, e.0);
    let x = seq![e] + w;
    if k == 1 {
        assert(x[0] == e);
    } else {
        assert(distinct_names(prev));
        lemma_upsert_all_newest(ledger, prev);
        let m = if k - 1 < 3 { k - 1 } else { 3 };
        assert forall|j: int| 0 <= j < m implies (#[trigger] r[j]).0 != e.0 by {
            assert(r[j] == prev[k - 2 - j]);
            assert(prev[k - 2 - j] == es[k - 2 - j]);
            assert(es[k - 2 - j].0 != es[k - 1].0);
        }
        lemma_without_name_prefix(r, e.0, m);
        assert forall|j: int| 0 <= j < 4 && j < k implies #[trigger] upsert_all(ledger, es)[j] == es[k
            - 1 - j] by {
            if j > 0 {
                assert(x[j] == w[j - 1]);
                assert(w[j - 1] == r[j - 1]);
                assert(r[j - 1] == prev[k - 2 - (j - 1)]);
            }
        }
    }
}

proof fn lemma_without_name_distinct(s: Seq<RecentView>, n: Seq<char>)
    requires
        distinct_names(s),
    ensures
        distinct_names(without_name(s, n)),
        forall|k: int|
            0 <= k < without_name(s, n).len() ==> (#[trigger] without_name(s, n)[k]).0 != n && exists|
                i: int,
            | 0 <= i < s.len() && s[i].0 == without_name(s, n)[k].0,
    decreases s.len(),
{
    if s.len() > 0 {
        let p = s.drop_last();
        assert(distinct_names(p)) by {
            assert forall|i: int, j: int| 0 <= i < j < p.len() implies (#[trigger] p[i]).0 != (
            #[trigger] p[j]).0 by {
                assert(p[i] == s[i] && p[j] == s[j]);
            }
        }
        lemma_without_name_distinct(p, n);
        let w = without_name(p, n);
        if s.last().0 != n {
            let w2 = w.push(s.last());
            assert forall|k: int| 0 <= k < w.len() implies (#[trigger] w[k]).0 != s.last().0 by {
                let i = choose|i: int| 0 <= i < p.len() && p[i].0 == w[k].0;
                assert(p[i] == s[i]);
                assert(s[i].0 != s[s.len() - 1].0);
            }
            assert forall|k: int| 0 <= k < w2.len() implies (#[trigger] w2[k]).0 != n && exists|i: int|
                0 <= i < s.len() && s[i].0 == w2[k].0 by {
                if k < w.len() {
                    let i = choose|i: int| 0 <= i < p.len() && p[i].0 == w[k].0;
                    assert(p[i] == s[i]);
                } else {
                    assert(s[s.len() - 1].0 == w2[k].0);
                }
            }
            assert forall|i: int, j: int| 0 <= i < j < w2.len() implies (#[trigger] w2[i]).0 != (
            #[trigger] w2[j]).0 by {
                if j == w.len() {
                    assert(w2[i] == w[i]);
                } else {
                    assert(w2[i] == w[i] && w2[j] == w[j]);
                }
            }
        } else {
            assert forall|k: int| 0 <= k < w.len() implies (#[trigger] w[k]).0 != n && exists|i: int|
                0 <= i < s.len() && s[i].0 == w[k].0 by {
                let i = choose|i: int| 0 <= i < p.len() && p[i].0 == w[k].0;
                assert(p[i] == s[i]);
            }
        }
    }
}

/// Recording an install keeps the ledger at one entry per theme name.
pub proof fn lemma_upsert_keeps_names_distinct(ledger: Seq<RecentView>, e: RecentView)
    requires
        distinct_names(ledger),
    ensures
        distinct_names(upsert_spec(ledger, e)),
        upsert_spec(ledger, e).len() <= MAX_RECENT,
        upsert_spec(ledger, e)[0] == e,
{
    lemma_without_name_distinct(ledger, e.0);
    let w = without_name(ledger, e.0);
    let x = seq![e] + w;
    assert(distinct_names(x)) by {
        assert forall|i: int, j: int| 0 <= i < j < x.len() implies (#[trigger] x[i]).0 != (
        #[trigger] x[j]).0 by {
            assert(x[j] == w[j - 1]);
            if i > 0 {
                assert(x[i] == w[i - 1]);
            }
        }
    }
    let r = upsert_spec(ledger, e);
    assert forall|i: int, j: int| 0 <= i < j < r.len() implies (#[trigger] r[i]).0 != (
    #[trigger] r[j]).0 by {
        assert(r[i] == x[i] && r[j] == x[j]);
    }
}

/// After recording four or more installs of distinct names, one after the
/// other, the ledger holds exactly the four newest, newest first, whatever
/// it held before.
pub proof fn lemma_ledger_keeps_four_newest(ledger: Seq<RecentView>, es: Seq<RecentView>)
    requires
        es.len() >= 4,
        distinct_names(es),
    ensures
        upsert_all(ledger, es) == seq![
            es[es.len() - 1],
            es[es.len() - 2],
            es[es.len() - 3],
            es[es.len() - 4],
        ],
{
    lemma_upsert_all_newest(ledger, es);
    let r = upsert_all(ledger, es);
    assert(r[0] == es[es.len() - 1]);
    assert(r[1] == es[es.len() - 2]);
    assert(r[2] == es[es.len() - 3]);
    assert(r[3] == es[es.len() - 4]);
    assert(r =~= seq![es[es.len() - 1], es[es.len() - 2], es[es.len() - 3], es[es.len() - 4]]);
}

} // verus!
