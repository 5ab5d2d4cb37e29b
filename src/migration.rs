use vstd::prelude::*;
use vstd::multiset::Multiset;
use vstd::seq_lib::group_to_multiset_ensures;

use crate::checksum::{checksum_spec, content_checksum};
use crate::error::MigrationError;

verus! {

broadcast use group_to_multiset_ensures;

/// One versioned unit of forward schema change.
#[derive(Debug)]
pub struct Migration {
    pub version: u64,
    pub name: String,
    /// The statement batch, run as one atomic unit.
    pub content: String,
    /// Checksum of `content`, compared against the applied history.
    pub checksum: u64,
}

impl Migration {
    /// A migration whose checksum is computed from its statements.
    pub fn new(version: u64, name: String, content: String) -> (r: Migration)
        ensures
            r.version == version,
            r.name@ == name@,
            r.content@ == content@,
            r.checksum == checksum_spec(content@),
    {
        let checksum = content_checksum(content.as_str());
        Migration { version, name, content, checksum }
    }
}

/// Versions ascend weakly along `s`.
pub open spec fn sorted_by_version(s: Seq<Migration>) -> bool {
    forall|i: int, j: int| 0 <= i < j < s.len() ==> s[i].version <= s[j].version
}

/// Versions ascend strictly along `s`: no version repeats.
pub open spec fn ascending(s: Seq<Migration>) -> bool {
    forall|i: int, j: int| 0 <= i < j < s.len() ==> s[i].version < s[j].version
}

/// Two different migrations of `s` carry version `v`.
pub open spec fn duplicated(s: Seq<Migration>, v: u64) -> bool {
    exists|i: int, j: int|
        0 <= i < j < s.len() && #[trigger] s[i].version == v && #[trigger] s[j].version == v
}

/// What building a catalog from `given` yields: the smallest duplicated
/// version as an error, or else the same migrations ordered by version.
pub open spec fn catalog_outcome(given: Seq<Migration>, r: Result<Seq<Migration>, MigrationError>) -> bool {
    match r {
        Ok(c) => (forall|v: u64| !duplicated(given, v)) && ascending(c) && c.to_multiset()
            == given.to_multiset(),
        Err(MigrationError::DuplicateVersion(v)) => duplicated(given, v) && forall|w: u64|
            duplicated(given, w) ==> v <= w,
        Err(_) => false,
    }
}

/// The migrations of a built catalog, or the error that stopped it.
pub open spec fn catalog_result_view(r: Result<Catalog, MigrationError>) -> Result<
    Seq<Migration>,
    MigrationError,
> {
    match r {
        Ok(c) => Ok(c@),
        Err(e) => Err(e),
    }
}

/// The full set of candidate migrations of a run, ordered by ascending version.
#[derive(Debug)]
pub struct Catalog {
    migrations: Vec<Migration>,
}

impl Catalog {
    /// The migrations, in ascending version order.
    pub closed spec fn view(&self) -> Seq<Migration> {
        self.migrations@
    }

    /// Versions are unique and ascend.
    pub open spec fn wf(&self) -> bool {
        ascending(self@)
    }

    /// Builds the catalog from migrations given in any order, or fails with
    /// the smallest version that two of them share.
    pub fn new(migrations: Vec<Migration>) -> (r: Result<Catalog, MigrationError>)
        ensures
            catalog_outcome(migrations@, catalog_result_view(r)),
            r matches Ok(c) ==> c.wf(),
    {
        let ghost given = migrations@;
        let sorted = sort_by_version(migrations);
        match first_repeat(&sorted) {
            Some(k) => {
                let v = sorted[k].version;
                proof {
                    assert(duplicated(sorted@, v)) by {
                        assert(sorted@[k as int].version == v && sorted@[k + 1].version == v);
                    }
                    assert forall|w: u64| duplicated(sorted@, w) implies v <= w by {
                        let (i, j) = choose|i: int, j: int|
                            0 <= i < j < sorted@.len() && #[trigger] sorted@[i].version == w
                                && #[trigger] sorted@[j].version == w;
                        if i < k {
                            assert(sorted@[i].version < sorted@[i + 1].version);
                            assert(sorted@[i + 1].version <= sorted@[j].version);
                        } else {
                            assert(sorted@[k as int].version <= sorted@[i].version);
                        }
                    }
                    lemma_duplicated_by_contents(sorted@, given);
                }
                Err(MigrationError::DuplicateVersion(v))
            },
            None => {
                proof {
                    assert forall|k: int| 0 <= k < sorted@.len() - 1 implies #[trigger] sorted@[k].version
                        < sorted@[k + 1].version by {
                        assert(sorted@[k].version <= sorted@[k + 1].version);
                    }
                    assert forall|i: int, j: int| 0 <= i < j < sorted@.len() implies sorted@[i].version
                        < sorted@[j].version by {
                        lemma_strict_chain(sorted@, i, j);
                    }
                    assert forall|v: u64| !duplicated(sorted@, v) by {
                        if duplicated(sorted@, v) {
                            let (i, j) = choose|i: int, j: int|
                                0 <= i < j < sorted@.len() && #[trigger] sorted@[i].version == v
                                    && #[trigger] sorted@[j].version == v;
                            assert(sorted@[i].version < sorted@[j].version);
                        }
                    }
                    lemma_duplicated_by_contents(sorted@, given);
                }
                Ok(Catalog { migrations: sorted })
            },
        }
    }

    /// Number of migrations.
    pub fn len(&self) -> (r: usize)
        ensures
            r == self@.len(),
    {
        self.migrations.len()
    }

    /// The migration at `i`, in ascending version order.
    pub fn get(&self, i: usize) -> (r: &Migration)
        requires
            i < self@.len(),
        ensures
            *r == self@[i as int],
    {
        &self.migrations[i]
    }
}

/// The first position at which a version equals the next one's, if any.
fn first_repeat(s: &Vec<Migration>) -> (r: Option<usize>)
    ensures
        match r {
            Some(k) => k + 1 < s@.len() && s@[k as int].version == s@[k + 1].version && forall|j: int|
                0 <= j < k ==> #[trigger] s@[j].version != s@[j + 1].version,
            None => forall|j: int|
                0 <= j < s@.len() - 1 ==> #[trigger] s@[j].version != s@[j + 1].version,
        },
{
    let n = s.len();
    let mut k: usize = 0;
    while k + 1 < n
        invariant
            n == s@.len(),
            k == 0 || k < n,
            forall|j: int| 0 <= j < k ==> #[trigger] s@[j].version != s@[j + 1].version,
        decreases n - k,
    {
        if s[k].version == s[k + 1].version {
            return Some(k);
        }
        k = k + 1;
    }
    None
}

proof fn lemma_strict_chain(s: Seq<Migration>, i: int, j: int)
    requires
        0 <= i < j < s.len(),
        forall|k: int| 0 <= k < s.len() - 1 ==> #[trigger] s[k].version < s[k + 1].version,
    ensures
        s[i].version < s[j].version,
    decreases j - i,
{
    if j > i + 1 {
        lemma_strict_chain(s, i + 1, j);
    }
}

/// Whether a value occurs at two indices depends only on how often it occurs.
proof fn lemma_twice_by_count(s: Seq<Migration>, i: int)
    requires
        0 <= i < s.len(),
    ensures
        s.to_multiset().count(s[i]) >= 2 <==> exists|k: int|
            0 <= k < s.len() && k != i && #[trigger] s[k] == s[i],
{
    let x = s[i];
    let r = s.remove(i);
    assert(r.to_multiset() == s.to_multiset().remove(x));
    assert(s.to_multiset().count(x) > 0);
    assert(r.to_multiset().count(x) == s.to_multiset().count(x) - 1);
    assert(r.contains(x) <==> r.to_multiset().count(x) > 0);
    if r.contains(x) {
        let m = choose|m: int| 0 <= m < r.len() && r[m] == x;
        if m < i {
            assert(s[m] == x);
        } else {
            assert(s[m + 1] == x);
        }
    }
    if exists|k: int| 0 <= k < s.len() && k != i && #[trigger] s[k] == s[i] {
        let k = choose|k: int| 0 <= k < s.len() && k != i && #[trigger] s[k] == s[i];
        if k < i {
            assert(r[k] == x);
        } else {
            assert(r[k - 1] == x);
        }
    }
}

/// Two arrangements of the same migrations share the same duplicated versions.
proof fn lemma_duplicated_by_contents(a: Seq<Migration>, b: Seq<Migration>)
    requires
        a.to_multiset() == b.to_multiset(),
    ensures
        forall|v: u64| duplicated(a, v) <==> duplicated(b, v),
{
    assert forall|v: u64| duplicated(a, v) implies duplicated(b, v) by {
        lemma_duplicated_transfer(a, b, v);
    }
    assert forall|v: u64| duplicated(b, v) implies duplicated(a, v) by {
        lemma_duplicated_transfer(b, a, v);
    }
}

proof fn lemma_duplicated_transfer(a: Seq<Migration>, b: Seq<Migration>, v: u64)
    requires
        a.to_multiset() == b.to_multiset(),
        duplicated(a, v),
    ensures
        duplicated(b, v),
{
    let (i, j) = choose|i: int, j: int|
        0 <= i < j < a.len() && #[trigger] a[i].version == v && #[trigger] a[j].version == v;
    assert(a.contains(a[i]));
    assert(a.contains(a[j]));
    assert(a.to_multiset().count(a[i]) > 0);
    assert(a.to_multiset().count(a[j]) > 0);
    assert(b.contains(a[i]));
    assert(b.contains(a[j]));
    let p = choose|p: int| 0 <= p < b.len() && b[p] == a[i];
    if a[i] == a[j] {
        lemma_twice_by_count(a, i);
        assert(a[j] == a[i]);
        lemma_twice_by_count(b, p);
        let q = choose|q: int| 0 <= q < b.len() && q != p && #[trigger] b[q] == b[p];
        if p < q {
            assert(b[p].version == v && b[q].version == v);
        } else {
            assert(b[q].version == v && b[p].version == v);
        }
    } else {
        let q = choose|q: int| 0 <= q < b.len() && b[q] == a[j];
        if p < q {
            assert(b[p].version == v && b[q].version == v);
        } else {
            assert(b[q].version == v && b[p].version == v);
        }
    }
}

/// Reorders migrations by ascending version, keeping every one of them.
fn sort_by_version(input: Vec<Migration>) -> (r: Vec<Migration>)
    ensures
        sorted_by_version(r@),
        r@.to_multiset() == input@.to_multiset(),
{
    let mut rest = input;
    let mut out: Vec<Migration> = Vec::new();
    while rest.len() > 0
        invariant
            sorted_by_version(out@),
            out@.to_multiset().add(rest@.to_multiset()) == input@.to_multiset(),
        decreases rest@.len(),
    {
        let ghost before = rest@;
        let m = rest.pop().unwrap();
        assert(before == rest@.push(m));
        let mut pos: usize = 0;
        while pos < out.len() && out[pos].version <= m.version
            invariant
                pos <= out@.len(),
                forall|j: int| 0 <= j < pos ==> out@[j].version <= m.version,
            decreases out@.len() - pos,
        {
            pos = pos + 1;
        }
        let ghost prev = out@;
        out.insert(pos, m);
        assert(out@ == prev.insert(pos as int, m));
        assert(out@.to_multiset() == prev.to_multiset().insert(m));
        assert(sorted_by_version(out@)) by {
            assert forall|i: int, j: int| 0 <= i < j < out@.len() implies out@[i].version
                <= out@[j].version by {
                if j < pos {
                } else if j == pos {
                } else if i < pos {
                    assert(out@[i].version <= m.version);
                    if pos < prev.len() {
                        assert(m.version < prev[pos as int].version);
                        assert(prev[pos as int].version <= prev[j - 1].version);
                    }
                } else if i == pos {
                    assert(m.version < prev[pos as int].version);
                    assert(prev[pos as int].version <= prev[j - 1].version);
                } else {
                    assert(prev[i - 1].version <= prev[j - 1].version);
                }
            }
        }
        assert(out@.to_multiset().add(rest@.to_multiset()) =~= input@.to_multiset());
    }
    assert(rest@.len() == 0);
    assert(rest@.to_multiset() =~= Multiset::empty());
    assert(out@.to_multiset() =~= input@.to_multiset());
    out
}

/// Two ascending arrangements of the same migrations are the same sequence.
proof fn lemma_ascending_unique(x: Seq<Migration>, y: Seq<Migration>)
    requires
        ascending(x),
        ascending(y),
        x.to_multiset() == y.to_multiset(),
    ensures
        x == y,
    decreases x.len(),
{
    if x.len() == 0 || y.len() == 0 {
        vstd::seq_lib::to_multiset_len(x);
        vstd::seq_lib::to_multiset_len(y);
        assert(x.len() == y.len());
        assert(x =~= y);
    } else {
        assert(x.contains(x[0]));
        assert(x.to_multiset().count(x[0]) > 0);
        assert(y.contains(x[0]));
        assert(y.contains(y[0]));
        assert(y.to_multiset().count(y[0]) > 0);
        assert(x.contains(y[0]));
        let i = choose|i: int| 0 <= i < y.len() && y[i] == x[0];
        let j = choose|j: int| 0 <= j < x.len() && x[j] == y[0];
        if j > 0 {
            assert(x[0].version < x[j].version);
            if i > 0 {
                assert(y[0].version < y[i].version);
            }
        }
        assert(j == 0);
        assert(x[0] == y[0]);
        assert(x.remove(0) == x.drop_first());
        assert(y.remove(0) == y.drop_first());
        let xt = x.drop_first();
        let yt = y.drop_first();
        assert forall|a: int, b: int| 0 <= a < b < xt.len() implies xt[a].version < xt[b].version by {
            assert(xt[a] == x[a + 1] && xt[b] == x[b + 1]);
        }
        assert forall|a: int, b: int| 0 <= a < b < yt.len() implies yt[a].version < yt[b].version by {
            assert(yt[a] == y[a + 1] && yt[b] == y[b + 1]);
        }
        lemma_ascending_unique(xt, yt);
        assert(x =~= seq![x[0]] + xt);
        assert(y =~= seq![y[0]] + yt);
    }
}

/// Building a catalog does not depend on the order in which its migrations
/// are given: two arrangements of the same migrations give the same
/// migrations in the same ascending order, or fail with the same version.
pub proof fn lemma_catalog_order_invariant(
    a: Seq<Migration>,
    b: Seq<Migration>,
    ra: Result<Seq<Migration>, MigrationError>,
    rb: Result<Seq<Migration>, MigrationError>,
)
    requires
        a.to_multiset() == b.to_multiset(),
        catalog_outcome(a, ra),
        catalog_outcome(b, rb),
    ensures
        ra == rb,
{
    lemma_duplicated_by_contents(a, b);
    match (ra, rb) {
        (Ok(x), Ok(y)) => {
            lemma_ascending_unique(x, y);
        },
        (Err(MigrationError::DuplicateVersion(v)), Err(MigrationError::DuplicateVersion(w))) => {
            assert(duplicated(b, v));
            assert(duplicated(a, w));
        },
        (Ok(x), Err(MigrationError::DuplicateVersion(w))) => {
            assert(duplicated(a, w));
        },
        (Err(MigrationError::DuplicateVersion(v)), Ok(y)) => {
            assert(duplicated(b, v));
        },
        _ => {},
    }
}

} // verus!
