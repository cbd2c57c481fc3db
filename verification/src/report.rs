//! What the license check reports: the packages in the order of their names,
//! or grouped by license.

use crate::metadata::{strings, Metadata};
use crate::package::sorted_unique;
use crate::text::{eq_chars, join, lex_less, lex_less_chars, to_chars};
use vstd::prelude::*;

verus! {

/// Number of packages that are flagged for a license to avoid.
pub open spec fn flagged(deps: Seq<Metadata>) -> nat
    decreases deps.len(),
{
    if deps.len() == 0 {
        0
    } else {
        flagged(deps.drop_last()) + if deps.last().bad_license {
            1nat
        } else {
            0nat
        }
    }
}

/// Counts the packages that are flagged for a license to avoid.
pub fn count_flagged(deps: &Vec<Metadata>) -> (n: usize)
    ensures
        n == flagged(deps@),
{
    let mut n: usize = 0;
    let mut i: usize = 0;
    assert(deps@.take(0) =~= Seq::<Metadata>::empty());
    while i < deps.len()
        invariant
            i <= deps.len(),
            n <= i,
            n == flagged(deps@.take(i as int)),
        decreases deps.len() - i,
    {
        assert(deps@.take(i + 1).drop_last() =~= deps@.take(i as int));
        if deps[i].bad_license {
            n += 1;
        }
        i += 1;
    }
    assert(deps@.take(deps.len() as int) =~= deps@);
    n
}

/// The count as the exit code of the program, where it fits.
pub fn exit_code(count: usize) -> (r: Option<i32>)
    ensures
        match r {
            Some(c) => c == count,
            None => count > i32::MAX,
        },
{
    if count <= 0x7fff_ffff {
        Some(count as i32)
    } else {
        None
    }
}

/// Whether the package `name` is flagged, where it is among `deps`. Of
/// packages with the same name the last one counts.
pub open spec fn flag_of(deps: Seq<Metadata>, name: Seq<char>) -> Option<bool>
    decreases deps.len(),
{
    if deps.len() == 0 {
        None
    } else if deps.last().name@ == name {
        Some(deps.last().bad_license)
    } else {
        flag_of(deps.drop_last(), name)
    }
}

/// The requirements that are shown for a package: those that are among the
/// packages, each with its flag; where `only_bad` is set, only the flagged.
pub open spec fn shown_requirements(
    deps: Seq<Metadata>,
    reqs: Seq<Seq<char>>,
    only_bad: bool,
) -> Seq<(Seq<char>, bool)>
    decreases reqs.len(),
{
    if reqs.len() == 0 {
        Seq::empty()
    } else {
        let before = shown_requirements(deps, reqs.drop_last(), only_bad);
        match flag_of(deps, reqs.last()) {
            Some(true) => before.push((reqs.last(), true)),
            Some(false) => if only_bad {
                before
            } else {
                before.push((reqs.last(), false))
            },
            None => before,
        }
    }
}

/// The requirement list of a package as it is shown: none unless
/// requirements are asked for and the package has some.
pub open spec fn requirement_list(
    deps: Seq<Metadata>,
    dep: Metadata,
    recursive: bool,
    only_bad: bool,
) -> Option<Seq<(Seq<char>, bool)>> {
    if recursive && dep.requirements@.len() > 0 {
        Some(shown_requirements(deps, strings(dep.requirements@), only_bad))
    } else {
        None
    }
}

/// The texts and flags that a list of requirements holds.
pub open spec fn pairs_view(v: Seq<(String, bool)>) -> Seq<(Seq<char>, bool)> {
    Seq::new(v.len(), |i: int| (v[i].0@, v[i].1))
}

pub open spec fn list_view(v: Option<Vec<(String, bool)>>) -> Option<Seq<(Seq<char>, bool)>> {
    match v {
        Some(l) => Some(pairs_view(l@)),
        None => None,
    }
}

fn lookup_flag(deps: &Vec<Metadata>, name: &Vec<char>) -> (r: Option<bool>)
    ensures
        r == flag_of(deps@, name@),
{
    let mut i: usize = deps.len();
    assert(deps@.take(deps.len() as int) =~= deps@);
    while i > 0
        invariant
            i <= deps.len(),
            flag_of(deps@, name@) == flag_of(deps@.take(i as int), name@),
        decreases i,
    {
        let d = to_chars(deps[i - 1].name.as_str());
        assert(deps@.take(i as int).last() == deps@[i - 1]);
        if eq_chars(&d, name) {
            return Some(deps[i - 1].bad_license);
        }
        assert(deps@.take(i as int).drop_last() =~= deps@.take(i - 1));
        i -= 1;
    }
    None
}

fn requirement_list_of(deps: &Vec<Metadata>, dep: &Metadata, recursive: bool, only_bad: bool) -> (r:
    Option<Vec<(String, bool)>>)
    ensures
        list_view(r) == requirement_list(deps@, *dep, recursive, only_bad),
{
    if !(recursive && dep.requirements.len() > 0) {
        return None;
    }
    let ghost reqs = strings(dep.requirements@);
    let mut out: Vec<(String, bool)> = Vec::new();
    let mut i: usize = 0;
    assert(reqs.take(0) =~= Seq::<Seq<char>>::empty());
    assert(pairs_view(out@) =~= Seq::<(Seq<char>, bool)>::empty());
    while i < dep.requirements.len()
        invariant
            i <= dep.requirements.len(),
            reqs == strings(dep.requirements@),
            pairs_view(out@) == shown_requirements(deps@, reqs.take(i as int), only_bad),
        decreases dep.requirements.len() - i,
    {
        let ghost before = pairs_view(out@);
        let req = &dep.requirements[i];
        let name = to_chars(req.as_str());
        proof {
            assert(reqs.take(i + 1).drop_last() =~= reqs.take(i as int));
            assert(reqs.take(i + 1).last() == req@);
        }
        match lookup_flag(deps, &name) {
            Some(true) => {
                out.push((req.clone(), true));
                assert(pairs_view(out@) =~= before.push((req@, true)));
            },
            Some(false) => {
                if !only_bad {
                    out.push((req.clone(), false));
                    assert(pairs_view(out@) =~= before.push((req@, false)));
                }
            },
            None => {},
        }
        i += 1;
    }
    assert(reqs.take(dep.requirements.len() as int) =~= reqs);
    Some(out)
}

/// The indices `acc` of packages, which are in the order of the packages'
/// names, with the index `x` put behind every package whose name does not
/// stand behind that of package `x`.
pub open spec fn insert_index(deps: Seq<Metadata>, acc: Seq<int>, x: int) -> Seq<int>
    decreases acc.len(),
{
    if acc.len() == 0 {
        seq![x]
    } else if lex_less(deps[x].name@, deps[acc.last()].name@) {
        insert_index(deps, acc.drop_last(), x).push(acc.last())
    } else {
        acc.push(x)
    }
}

/// The indices of the first `n` packages in the order of their names;
/// packages with the same name keep their order.
pub open spec fn name_order(deps: Seq<Metadata>, n: int) -> Seq<int>
    decreases n,
{
    if n <= 0 {
        Seq::empty()
    } else {
        insert_index(deps, name_order(deps, n - 1), n - 1)
    }
}

/// The packages in the order of their names; packages with the same name
/// keep their order.
pub open spec fn sorted_by_name(deps: Seq<Metadata>) -> Seq<Metadata> {
    let order = name_order(deps, deps.len() as int);
    Seq::new(order.len(), |i: int| deps[order[i]])
}

/// The indices lie below `n`, and no package stands before one whose name
/// stands before its own.
pub open spec fn in_name_order(deps: Seq<Metadata>, order: Seq<int>, n: int) -> bool {
    &&& forall|i: int| 0 <= i < order.len() ==> 0 <= #[trigger] order[i] < n
    &&& forall|i: int, j: int|
        0 <= i < j < order.len() ==> !lex_less(
            deps[#[trigger] order[j]].name@,
            deps[#[trigger] order[i]].name@,
        )
}

pub proof fn lemma_insert_index(deps: Seq<Metadata>, acc: Seq<int>, x: int, n: int)
    requires
        in_name_order(deps, acc, n),
        0 <= x < n,
    ensures
        in_name_order(deps, insert_index(deps, acc, x), n),
        insert_index(deps, acc, x).len() == acc.len() + 1,
        forall|k: int|
            0 <= k < insert_index(deps, acc, x).len() ==> (#[trigger] insert_index(deps, acc, x)[k]
                == x || acc.contains(insert_index(deps, acc, x)[k])),
    decreases acc.len(),
{
    let r = insert_index(deps, acc, x);
    let xn = deps[x].name@;
    if acc.len() == 0 {
    } else if lex_less(xn, deps[acc.last()].name@) {
        let rest = acc.drop_last();
        assert forall|i: int| 0 <= i < rest.len() implies 0 <= #[trigger] rest[i] < n by {
            assert(rest[i] == acc[i]);
        }
        assert forall|i: int, j: int| 0 <= i < j < rest.len() implies !lex_less(
            deps[#[trigger] rest[j]].name@,
            deps[#[trigger] rest[i]].name@,
        ) by {
            assert(rest[i] == acc[i] && rest[j] == acc[j]);
        }
        lemma_insert_index(deps, rest, x, n);
        let inner = insert_index(deps, rest, x);
        assert forall|k: int| 0 <= k < r.len() implies (#[trigger] r[k] == x || acc.contains(
            r[k],
        )) by {
            if k < inner.len() {
                assert(r[k] == inner[k]);
                if inner[k] != x {
                    assert(rest.contains(inner[k]));
                    let m = choose|m: int| 0 <= m < rest.len() && rest[m] == inner[k];
                    assert(acc[m] == r[k]);
                }
            } else {
                assert(acc[acc.len() - 1] == r[k]);
            }
        }
        assert forall|i: int| 0 <= i < r.len() implies 0 <= #[trigger] r[i] < n by {
            if r[i] != x {
                let m = choose|m: int| 0 <= m < acc.len() && acc[m] == r[i];
                assert(0 <= acc[m] < n);
            }
        }
        assert forall|i: int, j: int| 0 <= i < j < r.len() implies !lex_less(
            deps[#[trigger] r[j]].name@,
            deps[#[trigger] r[i]].name@,
        ) by {
            if j == r.len() - 1 {
                assert(r[j] == acc.last());
                assert(r[i] == inner[i]);
                if inner[i] == x {
                    crate::text::lemma_lex_less_irreflexive(xn);
                    if lex_less(deps[acc.last()].name@, xn) {
                        crate::text::lemma_lex_less_transitive(xn, deps[acc.last()].name@, xn);
                    }
                } else {
                    assert(rest.contains(inner[i]));
                    let m = choose|m: int| 0 <= m < rest.len() && rest[m] == inner[i];
                    assert(acc[m] == inner[i]);
                    assert(!lex_less(deps[acc[acc.len() - 1]].name@, deps[acc[m]].name@));
                }
            } else {
                assert(r[i] == inner[i] && r[j] == inner[j]);
            }
        }
    } else {
        assert forall|k: int| 0 <= k < r.len() implies (#[trigger] r[k] == x || acc.contains(
            r[k],
        )) by {
            if k < acc.len() {
                assert(acc[k] == r[k]);
            }
        }
        assert forall|i: int| 0 <= i < r.len() implies 0 <= #[trigger] r[i] < n by {
            if i < acc.len() {
                assert(r[i] == acc[i]);
            }
        }
        assert forall|i: int, j: int| 0 <= i < j < r.len() implies !lex_less(
            deps[#[trigger] r[j]].name@,
            deps[#[trigger] r[i]].name@,
        ) by {
            if j == r.len() - 1 {
                assert(r[i] == acc[i]);
                let an = deps[acc[i]].name@;
                let ln = deps[acc.last()].name@;
                if lex_less(xn, an) {
                    if i < acc.len() - 1 {
                        assert(!lex_less(deps[acc[acc.len() - 1]].name@, deps[acc[i]].name@));
                        crate::text::lemma_lex_less_total(an, ln);
                        if an != ln {
                            crate::text::lemma_lex_less_transitive(xn, an, ln);
                        }
                    }
                }
            } else {
                assert(r[i] == acc[i] && r[j] == acc[j]);
            }
        }
    }
}

/// The packages come out in the order of their names, as many as went in.
pub proof fn lemma_name_order(deps: Seq<Metadata>, n: int)
    requires
        0 <= n <= deps.len(),
    ensures
        in_name_order(deps, name_order(deps, n), n),
        name_order(deps, n).len() == n,
    decreases n,
{
    if n > 0 {
        lemma_name_order(deps, n - 1);
        let acc = name_order(deps, n - 1);
        assert(in_name_order(deps, acc, n)) by {
            assert forall|i: int| 0 <= i < acc.len() implies 0 <= #[trigger] acc[i] < n by {}
        }
        lemma_insert_index(deps, acc, n - 1, n);
    }
}

/// One line of the report by package.
#[derive(Debug)]
pub struct PackageRow {
    /// The package is flagged for a license to avoid.
    pub bad: bool,
    pub name: String,
    /// The licenses of the package, ` & ` between each two.
    pub license: String,
    /// The requirements shown behind the package, each with its flag.
    pub requirements: Option<Vec<(String, bool)>>,
}

pub open spec fn ampersand() -> Seq<char> {
    " & "@
}

/// What a row shows, as texts.
pub open spec fn row_view(r: PackageRow) -> (bool, Seq<char>, Seq<char>, Option<Seq<(Seq<char>, bool)>>) {
    (r.bad, r.name@, r.license@, list_view(r.requirements))
}

/// The row of a package, where it has one: a package that is not flagged has
/// none when only failures are shown.
pub open spec fn row_of(deps: Seq<Metadata>, dep: Metadata, recursive: bool, fail_print: bool) -> Option<
    (bool, Seq<char>, Seq<char>, Option<Seq<(Seq<char>, bool)>>),
> {
    if !dep.bad_license && fail_print {
        None
    } else {
        Some(
            (
                dep.bad_license,
                dep.name@,
                join(strings(dep.license@), ampersand()),
                requirement_list(deps, dep, recursive, fail_print),
            ),
        )
    }
}

/// The rows of the packages `shown`, in their order.
pub open spec fn rows_of(
    deps: Seq<Metadata>,
    shown: Seq<Metadata>,
    recursive: bool,
    fail_print: bool,
) -> Seq<(bool, Seq<char>, Seq<char>, Option<Seq<(Seq<char>, bool)>>)>
    decreases shown.len(),
{
    if shown.len() == 0 {
        Seq::empty()
    } else {
        let before = rows_of(deps, shown.drop_last(), recursive, fail_print);
        match row_of(deps, shown.last(), recursive, fail_print) {
            Some(r) => before.push(r),
            None => before,
        }
    }
}

pub open spec fn rows_view(v: Seq<PackageRow>) -> Seq<
    (bool, Seq<char>, Seq<char>, Option<Seq<(Seq<char>, bool)>>),
> {
    Seq::new(v.len(), |i: int| row_view(v[i]))
}

fn join_strings(parts: &Vec<String>, sep: &str) -> (r: String)
    ensures
        r@ == join(strings(parts@), sep@),
{
    let ghost all = strings(parts@);
    let mut out: Vec<char> = Vec::new();
    if parts.len() == 0 {
        assert(all =~= Seq::<Seq<char>>::empty());
        return crate::text::from_chars(&out);
    }
    crate::text::append_chars(&mut out, &to_chars(parts[0].as_str()));
    let s = to_chars(sep);
    let mut i: usize = 1;
    assert(all.take(1) =~= seq![parts@[0]@]);
    assert(out@ =~= parts@[0]@);
    while i < parts.len()
        invariant
            1 <= i <= parts.len(),
            all == strings(parts@),
            s@ == sep@,
            out@ == join(all.take(i as int), sep@),
        decreases parts.len() - i,
    {
        let ghost before = all.take(i as int);
        let ghost after = all.take(i + 1);
        proof {
            assert(after.drop_last() =~= before);
            assert(after.last() == parts@[i as int]@);
        }
        crate::text::append_chars(&mut out, &s);
        crate::text::append_chars(&mut out, &to_chars(parts[i].as_str()));
        assert(out@ =~= join(before, sep@) + sep@ + parts@[i as int]@);
        i += 1;
    }
    assert(all.take(parts.len() as int) =~= all);
    crate::text::from_chars(&out)
}

/// The integers that the indices of `v` are.
pub open spec fn indices(v: Seq<usize>) -> Seq<int> {
    Seq::new(v.len(), |i: int| v[i] as int)
}

/// Sorts the packages by their names and gives their indices in that order;
/// packages with the same name keep their order.
pub fn sort_by_name(deps: &Vec<Metadata>) -> (r: Vec<usize>)
    ensures
        indices(r@) == name_order(deps@, deps.len() as int),
        forall|i: int| 0 <= i < r.len() ==> #[trigger] r@[i] < deps.len(),
        r.len() == deps.len(),
{
    let mut r: Vec<usize> = Vec::new();
    let mut i: usize = 0;
    assert(indices(r@) =~= Seq::<int>::empty());
    while i < deps.len()
        invariant
            i <= deps.len(),
            indices(r@) == name_order(deps@, i as int),
            forall|m: int| 0 <= m < r.len() ==> #[trigger] r@[m] < i,
            r.len() == i,
        decreases deps.len() - i,
    {
        let name = to_chars(deps[i].name.as_str());
        let ghost acc = indices(r@);
        let mut k: usize = r.len();
        while k > 0 && lex_less_chars(&name, &to_chars(deps[r[k - 1]].name.as_str()))
            invariant
                k <= r.len(),
                i < deps.len(),
                acc == indices(r@),
                name@ == deps@[i as int].name@,
                forall|m: int| 0 <= m < r.len() ==> #[trigger] r@[m] < i,
                forall|j: int|
                    k <= j < acc.len() ==> lex_less(
                        deps@[i as int].name@,
                        deps@[#[trigger] acc[j]].name@,
                    ),
            decreases k,
        {
            assert(acc[k - 1] == r@[k - 1] as int);
            k -= 1;
        }
        proof {
            if k > 0 {
                assert(acc[k - 1] == r@[k - 1] as int);
            }
            lemma_insert_index_at(deps@, acc, i as int, k as int);
        }
        r.insert(k, i);
        assert(indices(r@) =~= acc.insert(k as int, i as int));
        i += 1;
    }
    r
}

/// Where an index goes into indices in the order of names.
proof fn lemma_insert_index_at(deps: Seq<Metadata>, acc: Seq<int>, x: int, k: int)
    requires
        0 <= k <= acc.len(),
        forall|j: int| k <= j < acc.len() ==> lex_less(deps[x].name@, deps[#[trigger] acc[j]].name@),
        k > 0 ==> !lex_less(deps[x].name@, deps[acc[k - 1]].name@),
    ensures
        insert_index(deps, acc, x) == acc.insert(k, x),
    decreases acc.len() - k,
{
    if k == acc.len() {
        assert(acc.insert(k, x) =~= acc.push(x));
    } else {
        assert(lex_less(deps[x].name@, deps[acc[acc.len() - 1]].name@));
        let rest = acc.drop_last();
        assert forall|j: int| k <= j < rest.len() implies lex_less(
            deps[x].name@,
            deps[#[trigger] rest[j]].name@,
        ) by {
            assert(rest[j] == acc[j]);
        }
        if k > 0 {
            assert(rest[k - 1] == acc[k - 1]);
        }
        lemma_insert_index_at(deps, rest, x, k);
        assert(rest.insert(k, x).push(acc.last()) =~= acc.insert(k, x));
    }
}

/// The rows of the report by package: the packages in the order of their
/// names, each with its licenses and, where requirements are asked for, those
/// of its requirements that are packages themselves. Where only failures are
/// shown, packages and requirements that are not flagged are left out.
pub fn package_rows(dependencies: &Vec<Metadata>, recursive: bool, fail_print: bool) -> (rows: Vec<
    PackageRow,
>)
    ensures
        rows_view(rows@) == rows_of(
            dependencies@,
            sorted_by_name(dependencies@),
            recursive,
            fail_print,
        ),
{
    let order = sort_by_name(dependencies);
    let ghost sorted = sorted_by_name(dependencies@);
    let mut rows: Vec<PackageRow> = Vec::new();
    let mut i: usize = 0;
    assert(sorted.take(0) =~= Seq::<Metadata>::empty());
    assert(rows_view(rows@) =~= Seq::empty());
    while i < order.len()
        invariant
            i <= order.len(),
            order.len() == sorted.len(),
            sorted == sorted_by_name(dependencies@),
            indices(order@) == name_order(dependencies@, dependencies.len() as int),
            forall|m: int| 0 <= m < order.len() ==> #[trigger] order@[m] < dependencies.len(),
            rows_view(rows@) == rows_of(dependencies@, sorted.take(i as int), recursive, fail_print),
        decreases order.len() - i,
    {
        let dep = &dependencies[order[i]];
        let ghost before = rows_view(rows@);
        proof {
            assert(indices(order@)[i as int] == order@[i as int] as int);
            assert(sorted[i as int] == *dep);
            assert(sorted.take(i + 1).drop_last() =~= sorted.take(i as int));
            assert(sorted.take(i + 1).last() == *dep);
        }
        if dep.bad_license || !fail_print {
            let row = PackageRow {
                bad: dep.bad_license,
                name: dep.name.clone(),
                license: join_strings(&dep.license, " & "),
                requirements: requirement_list_of(dependencies, dep, recursive, fail_print),
            };
            let ghost shown = row_view(row);
            rows.push(row);
            assert(rows_view(rows@) =~= before.push(shown));
        }
        i += 1;
    }
    assert(sorted.take(order.len() as int) =~= sorted);
    rows
}

/// One package in a group of the report by license.
#[derive(Debug)]
pub struct MemberLine {
    pub name: String,
    /// The requirements shown behind the package, each with its flag.
    pub requirements: Option<Vec<(String, bool)>>,
}

/// One group of the report by license: a license and the packages under it.
#[derive(Debug)]
pub struct LicenseGroup {
    pub license: String,
    /// Number of packages in the group.
    pub count: usize,
    /// The license is to be avoided.
    pub avoided: bool,
    pub members: Vec<MemberLine>,
}

/// Every license that the packages list, in the order of the packages.
pub open spec fn all_licenses(deps: Seq<Metadata>) -> Seq<Seq<char>>
    decreases deps.len(),
{
    if deps.len() == 0 {
        Seq::empty()
    } else {
        all_licenses(deps.drop_last()) + strings(deps.last().license@)
    }
}

/// The line of a package in a group.
pub open spec fn line_of(deps: Seq<Metadata>, dep: Metadata, recursive: bool) -> (
    Seq<char>,
    Option<Seq<(Seq<char>, bool)>>,
) {
    (dep.name@, requirement_list(deps, dep, recursive, false))
}

/// The line `line` once for every time that `license` stands in `listed`.
pub open spec fn listings(
    listed: Seq<Seq<char>>,
    license: Seq<char>,
    line: (Seq<char>, Option<Seq<(Seq<char>, bool)>>),
) -> Seq<(Seq<char>, Option<Seq<(Seq<char>, bool)>>)>
    decreases listed.len(),
{
    if listed.len() == 0 {
        Seq::empty()
    } else if listed.last() == license {
        listings(listed.drop_last(), license, line).push(line)
    } else {
        listings(listed.drop_last(), license, line)
    }
}

/// The lines of the packages among `some` that list `license`, in their
/// order; a package stands there as often as it lists the license.
pub open spec fn members_of(
    deps: Seq<Metadata>,
    some: Seq<Metadata>,
    license: Seq<char>,
    recursive: bool,
) -> Seq<(Seq<char>, Option<Seq<(Seq<char>, bool)>>)>
    decreases some.len(),
{
    if some.len() == 0 {
        Seq::empty()
    } else {
        members_of(deps, some.drop_last(), license, recursive) + listings(
            strings(some.last().license@),
            license,
            line_of(deps, some.last(), recursive),
        )
    }
}

/// The group of a license, where it has one: a license that is not to be
/// avoided has none when only failures are shown.
pub open spec fn group_of(
    deps: Seq<Metadata>,
    license: Seq<char>,
    avoid: Seq<Seq<char>>,
    recursive: bool,
    fail_print: bool,
) -> Option<(Seq<char>, nat, bool, Seq<(Seq<char>, Option<Seq<(Seq<char>, bool)>>)>)> {
    let members = members_of(deps, deps, license, recursive);
    if !avoid.contains(license) && fail_print {
        None
    } else {
        Some((license, members.len(), avoid.contains(license), members))
    }
}

/// The groups of the licenses `names`, in their order.
pub open spec fn groups_of(
    deps: Seq<Metadata>,
    names: Seq<Seq<char>>,
    avoid: Seq<Seq<char>>,
    recursive: bool,
    fail_print: bool,
) -> Seq<(Seq<char>, nat, bool, Seq<(Seq<char>, Option<Seq<(Seq<char>, bool)>>)>)>
    decreases names.len(),
{
    if names.len() == 0 {
        Seq::empty()
    } else {
        let before = groups_of(deps, names.drop_last(), avoid, recursive, fail_print);
        match group_of(deps, names.last(), avoid, recursive, fail_print) {
            Some(g) => before.push(g),
            None => before,
        }
    }
}

pub open spec fn lines_view(v: Seq<MemberLine>) -> Seq<
    (Seq<char>, Option<Seq<(Seq<char>, bool)>>),
> {
    Seq::new(v.len(), |i: int| (v[i].name@, list_view(v[i].requirements)))
}

pub open spec fn group_view(g: LicenseGroup) -> (
    Seq<char>,
    nat,
    bool,
    Seq<(Seq<char>, Option<Seq<(Seq<char>, bool)>>)>,
) {
    (g.license@, g.count as nat, g.avoided, lines_view(g.members@))
}

pub open spec fn groups_view(v: Seq<LicenseGroup>) -> Seq<
    (Seq<char>, nat, bool, Seq<(Seq<char>, Option<Seq<(Seq<char>, bool)>>)>),
> {
    Seq::new(v.len(), |i: int| group_view(v[i]))
}

fn licenses_of(deps: &Vec<Metadata>) -> (r: Vec<Vec<char>>)
    ensures
        crate::text::texts(r@) == all_licenses(deps@),
{
    let mut r: Vec<Vec<char>> = Vec::new();
    let mut i: usize = 0;
    assert(deps@.take(0) =~= Seq::<Metadata>::empty());
    assert(crate::text::texts(r@) =~= Seq::<Seq<char>>::empty());
    while i < deps.len()
        invariant
            i <= deps.len(),
            crate::text::texts(r@) == all_licenses(deps@.take(i as int)),
        decreases deps.len() - i,
    {
        let ghost before = crate::text::texts(r@);
        let listed = &deps[i].license;
        proof {
            assert(deps@.take(i + 1).drop_last() =~= deps@.take(i as int));
            assert(deps@.take(i + 1).last() == deps@[i as int]);
        }
        let mut j: usize = 0;
        assert(strings(listed@).take(0) =~= Seq::<Seq<char>>::empty());
        assert(before + Seq::<Seq<char>>::empty() =~= before);
        while j < listed.len()
            invariant
                j <= listed.len(),
                crate::text::texts(r@) == before + strings(listed@).take(j as int),
            decreases listed.len() - j,
        {
            let ghost now = crate::text::texts(r@);
            let l = to_chars(listed[j].as_str());
            let ghost text = l@;
            r.push(l);
            assert(crate::text::texts(r@) =~= now.push(text));
            assert(strings(listed@).take(j + 1) =~= strings(listed@).take(j as int).push(text));
            assert(crate::text::texts(r@) =~= before + strings(listed@).take(j + 1));
            j += 1;
        }
        assert(strings(listed@).take(listed.len() as int) =~= strings(listed@));
        i += 1;
    }
    assert(deps@.take(deps.len() as int) =~= deps@);
    r
}

fn is_avoided(license: &Vec<char>, avoid: &Vec<String>) -> (b: bool)
    ensures
        b == strings(avoid@).contains(license@),
{
    let ghost av = strings(avoid@);
    let mut i: usize = 0;
    while i < avoid.len()
        invariant
            i <= avoid.len(),
            av == strings(avoid@),
            forall|j: int| 0 <= j < i ==> av[j] != license@,
        decreases avoid.len() - i,
    {
        assert(av[i as int] == avoid@[i as int]@);
        if eq_chars(&to_chars(avoid[i].as_str()), license) {
            return true;
        }
        i += 1;
    }
    false
}

fn members_list(deps: &Vec<Metadata>, license: &Vec<char>, recursive: bool) -> (r: Vec<MemberLine>)
    ensures
        lines_view(r@) == members_of(deps@, deps@, license@, recursive),
{
    let mut r: Vec<MemberLine> = Vec::new();
    let mut i: usize = 0;
    assert(deps@.take(0) =~= Seq::<Metadata>::empty());
    assert(lines_view(r@) =~= Seq::empty());
    while i < deps.len()
        invariant
            i <= deps.len(),
            lines_view(r@) == members_of(deps@, deps@.take(i as int), license@, recursive),
        decreases deps.len() - i,
    {
        let ghost before = lines_view(r@);
        let dep = &deps[i];
        let ghost line = line_of(deps@, *dep, recursive);
        let ghost listed = strings(dep.license@);
        proof {
            assert(deps@.take(i + 1).drop_last() =~= deps@.take(i as int));
            assert(deps@.take(i + 1).last() == *dep);
        }
        let mut j: usize = 0;
        assert(listed.take(0) =~= Seq::<Seq<char>>::empty());
        assert(before + Seq::empty() =~= before);
        while j < dep.license.len()
            invariant
                j <= dep.license.len(),
                listed == strings(dep.license@),
                line == line_of(deps@, *dep, recursive),
                lines_view(r@) == before + listings(listed.take(j as int), license@, line),
            decreases dep.license.len() - j,
        {
            let ghost sofar = listings(listed.take(j as int), license@, line);
            proof {
                assert(listed.take(j + 1).drop_last() =~= listed.take(j as int));
                assert(listed.take(j + 1).last() == dep.license@[j as int]@);
            }
            if eq_chars(&to_chars(dep.license[j].as_str()), license) {
                let member = MemberLine {
                    name: dep.name.clone(),
                    requirements: requirement_list_of(deps, dep, recursive, false),
                };
                let ghost now = lines_view(r@);
                assert((member.name@, list_view(member.requirements)) == line);
                r.push(member);
                assert(lines_view(r@) =~= now.push(line));
                assert(lines_view(r@) =~= before + sofar.push(line));
            }
            j += 1;
        }
        assert(listed.take(dep.license.len() as int) =~= listed);
        i += 1;
    }
    assert(deps@.take(deps.len() as int) =~= deps@);
    r
}

/// The groups of the report by license: the licenses in ascending order, each
/// with the packages that list it and, where requirements are asked for,
/// those of their requirements that are packages themselves. Where only
/// failures are shown, licenses that are not to be avoided are left out.
pub fn license_groups(
    dependencies: &Vec<Metadata>,
    license_to_avoid: &Vec<String>,
    recursive: bool,
    fail_print: bool,
) -> (groups: Vec<LicenseGroup>)
    ensures
        groups_view(groups@) == groups_of(
            dependencies@,
            sorted_unique(all_licenses(dependencies@)),
            strings(license_to_avoid@),
            recursive,
            fail_print,
        ),
{
    let names = crate::package::sorted_unique_chars(&licenses_of(dependencies));
    let ghost ns = crate::text::texts(names@);
    let mut groups: Vec<LicenseGroup> = Vec::new();
    let mut i: usize = 0;
    assert(ns.take(0) =~= Seq::<Seq<char>>::empty());
    assert(groups_view(groups@) =~= Seq::empty());
    while i < names.len()
        invariant
            i <= names.len(),
            ns == crate::text::texts(names@),
            groups_view(groups@) == groups_of(
                dependencies@,
                ns.take(i as int),
                strings(license_to_avoid@),
                recursive,
                fail_print,
            ),
        decreases names.len() - i,
    {
        let ghost before = groups_view(groups@);
        proof {
            assert(ns.take(i + 1).drop_last() =~= ns.take(i as int));
            assert(ns.take(i + 1).last() == names@[i as int]@);
        }
        let avoided = is_avoided(&names[i], license_to_avoid);
        if avoided || !fail_print {
            let members = members_list(dependencies, &names[i], recursive);
            let group = LicenseGroup {
                license: crate::text::from_chars(&names[i]),
                count: members.len(),
                avoided,
                members,
            };
            let ghost shown = group_view(group);
            groups.push(group);
            assert(groups_view(groups@) =~= before.push(shown));
        }
        i += 1;
    }
    assert(ns.take(names.len() as int) =~= ns);
    groups
}

} // verus!
