//! Version selection: given the list of published versions of one
//! package and a cutoff instant, pick the newest unyanked version that
//! was published strictly before the cutoff.

use vstd::prelude::*;
use vstd::string::StringExecFns;

verus! {

/// One published version of a package, as the registry reports it:
/// its version identifier, its publish instant (seconds on a totally
/// ordered time axis), and whether the registry has yanked it.
#[derive(Debug)]
pub struct VersionRecord {
    pub num: String,
    pub published_at: i64,
    pub yanked: bool,
}

/// The mathematical image of a [`VersionRecord`].
pub struct VersionView {
    pub num: Seq<char>,
    pub published_at: int,
    pub yanked: bool,
}

impl View for VersionRecord {
    type V = VersionView;

    open spec fn view(&self) -> VersionView {
        VersionView {
            num: self.num@,
            published_at: self.published_at as int,
            yanked: self.yanked,
        }
    }
}

/// The views of a list of version records, index by index.
pub open spec fn views_of(vs: Seq<VersionRecord>) -> Seq<VersionView> {
    Seq::new(vs.len(), |i: int| vs[i]@)
}

/// A version qualifies for selection when it was published strictly
/// before the cutoff and is not yanked.
pub open spec fn qualifies(r: VersionView, cutoff: int) -> bool {
    r.published_at < cutoff && !r.yanked
}

/// `r` is a correct pick from `vs` at `cutoff`: it occurs in the list,
/// qualifies, and no other qualifying version was published later.
pub open spec fn is_chosen(vs: Seq<VersionView>, cutoff: int, r: VersionView) -> bool {
    &&& vs.contains(r)
    &&& qualifies(r, cutoff)
    &&& forall|i: int|
        0 <= i < vs.len() && qualifies(#[trigger] vs[i], cutoff) ==> vs[i].published_at
            <= r.published_at
}

/// `r` is the diagnostic hint: an unyanked version in `vs` that no
/// other unyanked version predates.
pub open spec fn is_oldest_unyanked(vs: Seq<VersionView>, r: VersionView) -> bool {
    &&& vs.contains(r)
    &&& !r.yanked
    &&& forall|i: int|
        0 <= i < vs.len() && !(#[trigger] vs[i]).yanked ==> r.published_at <= vs[i].published_at
}

/// The publish instants of `vs` are pairwise distinct.
pub open spec fn distinct_timestamps(vs: Seq<VersionView>) -> bool {
    forall|i: int, j: int|
        0 <= i < vs.len() && 0 <= j < vs.len() && i != j ==> (#[trigger] vs[i]).published_at != (
        #[trigger] vs[j]).published_at
}

/// Whether any version qualifies does not depend on the order of the
/// list: two lists holding the same records admit a pick together or
/// fail together.
pub proof fn lemma_qualifying_exists_order_invariant(
    vs1: Seq<VersionView>,
    vs2: Seq<VersionView>,
    cutoff: int,
)
    requires
        vs1.to_multiset() == vs2.to_multiset(),
    ensures
        (exists|i: int| 0 <= i < vs1.len() && qualifies(#[trigger] vs1[i], cutoff)) <==> (exists|
            i: int,
        | 0 <= i < vs2.len() && qualifies(#[trigger] vs2[i], cutoff)),
{
    vs1.to_multiset_ensures();
    vs2.to_multiset_ensures();
    if exists|i: int| 0 <= i < vs1.len() && qualifies(#[trigger] vs1[i], cutoff) {
        let i = choose|i: int| 0 <= i < vs1.len() && qualifies(#[trigger] vs1[i], cutoff);
        assert(vs1.contains(vs1[i]));
        assert(vs2.contains(vs1[i])) by {
            assert(vs1.to_multiset().count(vs1[i]) > 0);
        }
    }
    if exists|i: int| 0 <= i < vs2.len() && qualifies(#[trigger] vs2[i], cutoff) {
        let i = choose|i: int| 0 <= i < vs2.len() && qualifies(#[trigger] vs2[i], cutoff);
        assert(vs2.contains(vs2[i]));
        assert(vs1.contains(vs2[i])) by {
            assert(vs2.to_multiset().count(vs2[i]) > 0);
        }
    }
}

/// The version picker is invariant to the order of its input: when the
/// publish instants are pairwise distinct, any two correct picks from
/// two reorderings of the same records are the same record.
pub proof fn lemma_pick_order_invariant(
    vs1: Seq<VersionView>,
    vs2: Seq<VersionView>,
    cutoff: int,
    r1: VersionView,
    r2: VersionView,
)
    requires
        vs1.to_multiset() == vs2.to_multiset(),
        distinct_timestamps(vs1),
        is_chosen(vs1, cutoff, r1),
        is_chosen(vs2, cutoff, r2),
    ensures
        r1 == r2,
{
    vs1.to_multiset_ensures();
    vs2.to_multiset_ensures();
    assert(vs1.contains(r2)) by {
        assert(vs2.to_multiset().count(r2) > 0);
    }
    assert(vs2.contains(r1)) by {
        assert(vs1.to_multiset().count(r1) > 0);
    }
    let i2 = choose|i: int| 0 <= i < vs1.len() && vs1[i] == r2;
    assert(qualifies(vs1[i2], cutoff));
    let j1 = choose|j: int| 0 <= j < vs2.len() && vs2[j] == r1;
    assert(qualifies(vs2[j1], cutoff));
    assert(r2.published_at <= r1.published_at);
    assert(r1.published_at <= r2.published_at);
    let i1 = choose|i: int| 0 <= i < vs1.len() && vs1[i] == r1;
    if i1 != i2 {
        assert(vs1[i1].published_at != vs1[i2].published_at);
    }
}

/// The diagnostic hint is invariant to the order of the input in the
/// same way as the pick itself.
pub proof fn lemma_hint_order_invariant(
    vs1: Seq<VersionView>,
    vs2: Seq<VersionView>,
    r1: VersionView,
    r2: VersionView,
)
    requires
        vs1.to_multiset() == vs2.to_multiset(),
        distinct_timestamps(vs1),
        is_oldest_unyanked(vs1, r1),
        is_oldest_unyanked(vs2, r2),
    ensures
        r1 == r2,
{
    vs1.to_multiset_ensures();
    vs2.to_multiset_ensures();
    assert(vs1.contains(r2)) by {
        assert(vs2.to_multiset().count(r2) > 0);
    }
    assert(vs2.contains(r1)) by {
        assert(vs1.to_multiset().count(r1) > 0);
    }
    let i2 = choose|i: int| 0 <= i < vs1.len() && vs1[i] == r2;
    assert(!vs1[i2].yanked);
    let j1 = choose|j: int| 0 <= j < vs2.len() && vs2[j] == r1;
    assert(!vs2[j1].yanked);
    assert(r1.published_at <= r2.published_at);
    assert(r2.published_at <= r1.published_at);
    let i1 = choose|i: int| 0 <= i < vs1.len() && vs1[i] == r1;
    if i1 != i2 {
        assert(vs1[i1].published_at != vs1[i2].published_at);
    }
}

/// A resolved downgrade target: this package should be pinned to this
/// exact version.
#[derive(Debug)]
pub struct Package {
    pub name: String,
    pub version: String,
}

impl Package {
    /// The textual pin form that a package manager accepts:
    /// `name = "=version"`.
    pub fn pin_line(&self) -> (r: String)
        ensures
            r@ == self.name@ + " = \"="@ + self.version@ + "\""@,
    {
        let mut s = self.name.clone();
        s.append(" = \"=");
        s.append(self.version.as_str());
        s.append("\"");
        s
    }
}

/// Failure of the version picker: no unyanked version of `name` was
/// published strictly before the cutoff. `oldest_unyanked` reports how
/// far back a caller would have to move the cutoff to get any version
/// at all, or `None` when every recorded version is yanked.
#[derive(Debug)]
pub struct NoQualifyingVersion {
    pub name: String,
    pub oldest_unyanked: Option<VersionRecord>,
}

/// Picks, among `versions` of the package `crate_name`, the version
/// that was current just before `cutoff`: the latest-published unyanked
/// record with `published_at < cutoff`. Succeeds exactly when such a
/// record exists; otherwise reports the oldest unyanked version as a
/// diagnostic hint.
pub fn find_appropriate_version(
    crate_name: &str,
    versions: &Vec<VersionRecord>,
    cutoff: i64,
) -> (r: Result<Package, NoQualifyingVersion>)
    ensures
        r is Ok <==> exists|i: int|
            0 <= i < versions@.len() && qualifies(#[trigger] views_of(versions@)[i], cutoff as int),
        match r {
            Ok(p) => {
                &&& p.name@ == crate_name@
                &&& exists|rec: VersionView|
                    #[trigger] is_chosen(views_of(versions@), cutoff as int, rec) && p.version@
                        == rec.num
            },
            Err(e) => {
                &&& e.name@ == crate_name@
                &&& forall|i: int|
                    0 <= i < versions@.len() ==> !qualifies(
                        #[trigger] views_of(versions@)[i],
                        cutoff as int,
                    )
                &&& match e.oldest_unyanked {
                    Some(h) => is_oldest_unyanked(views_of(versions@), h@),
                    None => forall|i: int|
                        0 <= i < versions@.len() ==> (#[trigger] views_of(versions@)[i]).yanked,
                }
            },
        },
{
    let ghost vs = views_of(versions@);
    let mut best: Option<usize> = None;
    let mut oldest: Option<usize> = None;
    let mut i: usize = 0;
    while i < versions.len()
        invariant
            0 <= i <= versions.len(),
            vs == views_of(versions@),
            match best {
                Some(b) => {
                    &&& b < i
                    &&& qualifies(vs[b as int], cutoff as int)
                    &&& forall|j: int|
                        0 <= j < i && qualifies(#[trigger] vs[j], cutoff as int)
                            ==> vs[j].published_at <= vs[b as int].published_at
                },
                None => forall|j: int| 0 <= j < i ==> !qualifies(#[trigger] vs[j], cutoff as int),
            },
            match oldest {
                Some(o) => {
                    &&& o < i
                    &&& !vs[o as int].yanked
                    &&& forall|j: int|
                        0 <= j < i && !(#[trigger] vs[j]).yanked ==> vs[o as int].published_at
                            <= vs[j].published_at
                },
                None => forall|j: int| 0 <= j < i ==> (#[trigger] vs[j]).yanked,
            },
        decreases versions.len() - i,
    {
        let v = &versions[i];
        if v.published_at < cutoff && !v.yanked {
            best = match best {
                None => Some(i),
                Some(b) => if versions[b].published_at < v.published_at {
                    Some(i)
                } else {
                    Some(b)
                },
            };
        }
        if !v.yanked {
            oldest = match oldest {
                None => Some(i),
                Some(o) => if v.published_at < versions[o].published_at {
                    Some(i)
                } else {
                    Some(o)
                },
            };
        }
        i = i + 1;
    }
    match best {
        Some(b) => {
            let p = Package { name: crate_name.to_owned(), version: versions[b].num.clone() };
            proof {
                assert(is_chosen(vs, cutoff as int, vs[b as int]));
            }
            Ok(p)
        },
        None => {
            let hint: Option<VersionRecord> = match oldest {
                Some(o) => Some(
                    VersionRecord {
                        num: versions[o].num.clone(),
                        published_at: versions[o].published_at,
                        yanked: versions[o].yanked,
                    },
                ),
                None => None,
            };
            Err(NoQualifyingVersion { name: crate_name.to_owned(), oldest_unyanked: hint })
        },
    }
}

} // verus!
