//! Groups of duplicate files, and the orders that decide which copy of each is kept.
use vstd::prelude::*;
use vstd::string::StringSliceAdditionalSpecFns;
use crate::ordering::Comparison;
use crate::path::{
    file_name_len, file_name_len_of, has_any_component, has_component, parent_is_text, parent_len, parent_len_of,
    path_compare, path_has_any_component, path_has_component, path_starts_with, strs_bytes,
};
use crate::sorting::{
    compare_lengths, is_stable_sort_of, lemma_first_is_least, lemma_sorting_sorted_is_identity, lemma_stable_sort_unique,
    length_compare, order_compare, paths_view, sorted_by, tied_run, ties_with,
    preference_rank, sort_paths, BaseOrder, OrderView, PathOrdering, Preference,
    PrefixPreference, SortOrder,
};

verus! {

/// The copies of one file, identified by their paths (each held as its bytes).
pub struct Fileinfo {
    pub file_paths: Vec<Vec<u8>>,
}

impl View for Fileinfo {
    type V = Seq<Seq<u8>>;

    open spec fn view(&self) -> Seq<Seq<u8>> {
        paths_view(self.file_paths@)
    }
}

impl Fileinfo {
    /// The copies at the given paths.
    pub fn from(v: Vec<Vec<u8>>) -> (r: Fileinfo)
        ensures
            r.file_paths@ == v@,
    {
        Fileinfo { file_paths: v }
    }
}

/// The mathematical value of a list of groups.
pub open spec fn groups_view(v: Seq<Fileinfo>) -> Seq<Seq<Seq<u8>>> {
    v.map_values(|f: Fileinfo| f@)
}

/// How to order the copies that a prefix preference does not tell apart.
#[derive(PartialEq, Eq, Structural, Debug, Clone, Copy)]
pub enum PathPrefixDupePreference {
    Plain,
    Short,
    Long,
}

/// Whether the first or the last path in alphabetical order is kept.
#[derive(PartialEq, Eq, Structural, Debug, Clone, Copy)]
pub enum PathPrefixAlphaPreference {
    First,
    Last,
}

/// The base order that a dupe preference stands for.
pub open spec fn dupe_base(p: PathPrefixDupePreference) -> BaseOrder {
    match p {
        PathPrefixDupePreference::Plain => BaseOrder::Alphabetical,
        PathPrefixDupePreference::Short => BaseOrder::Length(SortOrder::Ascending),
        PathPrefixDupePreference::Long => BaseOrder::Length(SortOrder::Descending),
    }
}

/// Every group of `out` is the stable sort by `o` of the group of `inp` at the same place.
pub open spec fn each_group_sorted(o: OrderView, out: Seq<Seq<Seq<u8>>>, inp: Seq<Seq<Seq<u8>>>) -> bool {
    &&& out.len() == inp.len()
    &&& forall|i: int| 0 <= i < out.len() ==> is_stable_sort_of(o, #[trigger] out[i], inp[i])
}

/// Whether `target` is a normal component of `path`.
pub fn path_contains_component(path: &Vec<u8>, target: &str) -> (r: bool)
    ensures
        r == path_has_component(path@, target.spec_bytes()),
{
    has_component(path.as_slice(), target.as_bytes())
}

/// Whether some string of `list` is a normal component of `path`.
pub fn pathlist_contains_any_path_components(path: &Vec<u8>, list: &Vec<&str>) -> (r: bool)
    ensures
        r == path_has_any_component(path@, strs_bytes(list@)),
{
    has_any_component(path.as_slice(), list)
}

/// The length in bytes of the parent of `path` (0 where it has none); the
/// parent is measured as text, so it must be valid UTF-8.
pub fn path_parent_len(path: &Vec<u8>) -> (r: usize)
    requires
        parent_is_text(path@),
    ensures
        r as int == parent_len(path@),
{
    parent_len_of(path.as_slice())
}

/// The length in bytes of the file name of `path` (0 where it has none).
pub fn path_filename_len(path: &Vec<u8>) -> (r: usize)
    ensures
        r as int == file_name_len(path@),
{
    file_name_len_of(path.as_slice())
}

/// Compares two paths by their length in bytes, so that the shortest path
/// comes first; `Descending` puts the longest first.
pub fn pathbuf_len_sort(a: &Vec<u8>, b: &Vec<u8>, sort_order: SortOrder) -> (r: Comparison)
    ensures
        r == length_compare(sort_order, a@, b@),
{
    compare_lengths(a.as_slice(), b.as_slice(), sort_order)
}

/// Sorts the paths of every group stably by `order`.
fn sort_each(dupe_files: &mut Vec<Fileinfo>, order: &PathOrdering)
    ensures
        each_group_sorted(order@, groups_view(final(dupe_files)@), groups_view(old(dupe_files)@)),
{
    let ghost inp = groups_view(dupe_files@);
    let n = dupe_files.len();
    let mut i: usize = 0;
    while i < n
        invariant
            n == dupe_files.len(),
            inp.len() == n,
            i <= n,
            inp == groups_view(old(dupe_files)@),
            forall|j: int| 0 <= j < i ==> is_stable_sort_of(order@, #[trigger] groups_view(dupe_files@)[j], inp[j]),
            forall|j: int| i <= j < n ==> #[trigger] groups_view(dupe_files@)[j] == inp[j],
        decreases n - i,
    {
        let ghost before = groups_view(dupe_files@);
        let mut paths: Vec<Vec<u8>> = Vec::new();
        std::mem::swap(&mut paths, &mut dupe_files[i].file_paths);
        assert(paths_view(paths@) == before[i as int]);
        sort_paths(&mut paths, order);
        let ghost sorted = paths_view(paths@);
        std::mem::swap(&mut paths, &mut dupe_files[i].file_paths);
        assert(groups_view(dupe_files@)[i as int] == sorted);
        assert forall|j: int| 0 <= j < n && j != i implies #[trigger] groups_view(dupe_files@)[j] == before[j] by {}
        i = i + 1;
    }
}

/// Orders the copies of every group so that the copy to keep comes first:
/// copies with a blacklisted component last, then copies with a whitelisted
/// component first, then copies under `pathprefix` first; within each tier,
/// alphabetically, shortest path first or longest path first as `dupe_preference` says.
pub fn keep_prefixed_file(
    pathprefix: &str,
    dupe_files: &mut Vec<Fileinfo>,
    dupe_preference: PathPrefixDupePreference,
    whitelist: Vec<&str>,
    blacklist: Vec<&str>,
)
    ensures
        each_group_sorted(
            OrderView {
                base: dupe_base(dupe_preference),
                preference: Some(
                    Preference {
                        prefix: pathprefix.spec_bytes(),
                        whitelist: strs_bytes(whitelist@),
                        blacklist: strs_bytes(blacklist@),
                    },
                ),
            },
            groups_view(final(dupe_files)@),
            groups_view(old(dupe_files)@),
        ),
{
    let base = match dupe_preference {
        PathPrefixDupePreference::Plain => BaseOrder::Alphabetical,
        PathPrefixDupePreference::Short => BaseOrder::Length(SortOrder::Ascending),
        PathPrefixDupePreference::Long => BaseOrder::Length(SortOrder::Descending),
    };
    let order = PathOrdering {
        base,
        preference: Some(PrefixPreference { prefix: pathprefix, whitelist, blacklist }),
    };
    sort_each(dupe_files, &order);
}

/// Orders the copies of every group shortest path first (length in bytes; ties keep their order).
pub fn sort_dupes_by_shorter_length(dupe_files: &mut Vec<Fileinfo>)
    ensures
        each_group_sorted(
            OrderView { base: BaseOrder::Length(SortOrder::Ascending), preference: None },
            groups_view(final(dupe_files)@),
            groups_view(old(dupe_files)@),
        ),
{
    let order = PathOrdering { base: BaseOrder::Length(SortOrder::Ascending), preference: None };
    sort_each(dupe_files, &order);
}

/// Orders the copies of every group longest path first (length in bytes; ties keep their order).
pub fn sort_dupes_by_longer_length(dupe_files: &mut Vec<Fileinfo>)
    ensures
        each_group_sorted(
            OrderView { base: BaseOrder::Length(SortOrder::Descending), preference: None },
            groups_view(final(dupe_files)@),
            groups_view(old(dupe_files)@),
        ),
{
    let order = PathOrdering { base: BaseOrder::Length(SortOrder::Descending), preference: None };
    sort_each(dupe_files, &order);
}

/// The base order that an alphabetical preference stands for.
pub open spec fn alpha_base(p: PathPrefixAlphaPreference) -> BaseOrder {
    match p {
        PathPrefixAlphaPreference::First => BaseOrder::Alphabetical,
        PathPrefixAlphaPreference::Last => BaseOrder::ReverseAlphabetical,
    }
}

/// Orders the copies of every group alphabetically by components, or in
/// reverse for `Last`.
pub fn sort_dupes_alphabetically(dupe_files: &mut Vec<Fileinfo>, dupe_preference: PathPrefixAlphaPreference)
    ensures
        each_group_sorted(
            OrderView { base: alpha_base(dupe_preference), preference: None },
            groups_view(final(dupe_files)@),
            groups_view(old(dupe_files)@),
        ),
{
    match dupe_preference {
        PathPrefixAlphaPreference::First => {
            let order = PathOrdering { base: BaseOrder::Alphabetical, preference: None };
            sort_each(dupe_files, &order);
        },
        PathPrefixAlphaPreference::Last => {
            let order = PathOrdering { base: BaseOrder::ReverseAlphabetical, preference: None };
            sort_each(dupe_files, &order);
        },
    }
}

/// The groups that have more than one copy, in their order.
pub open spec fn dupes_of(files: Seq<Seq<Seq<u8>>>) -> Seq<Seq<Seq<u8>>> {
    files.filter(|g: Seq<Seq<u8>>| g.len() > 1)
}

/// Keeps the groups that hold duplicates: those with more than one path.
pub fn get_dupe_files(files: Vec<Fileinfo>) -> (r: Vec<Fileinfo>)
    ensures
        groups_view(r@) == dupes_of(groups_view(files@)),
{
    let ghost inp = groups_view(files@);
    let mut files = files;
    let mut kept: Vec<Fileinfo> = Vec::new();
    let mut rest: Vec<Fileinfo> = Vec::new();
    // Take the groups out back to front, so that each comes out by value.
    while files.len() > 0
        invariant
            inp == groups_view(files@) + groups_view(rest@).reverse(),
        decreases files.len(),
    {
        let f = files.pop().unwrap();
        proof {
            assert(groups_view(files@.push(f)) =~= groups_view(files@).push(f@));
        }
        rest.push(f);
        assert(groups_view(rest@) =~= groups_view(rest@).drop_last().push(f@));
        assert(inp =~= groups_view(files@) + groups_view(rest@).reverse());
    }
    proof {
        assert(groups_view(files@) =~= Seq::<Seq<Seq<u8>>>::empty());
        assert(inp =~= groups_view(rest@).reverse());
        assert(inp.take(0) =~= Seq::<Seq<Seq<u8>>>::empty());
        reveal(Seq::filter);
    }
    let ghost n = inp.len();
    while rest.len() > 0
        invariant
            n == inp.len(),
            rest.len() <= n,
            inp.take(n - rest.len()) + groups_view(rest@).reverse() == inp,
            groups_view(kept@) == dupes_of(inp.take(n - rest.len())),
        decreases rest.len(),
    {
        let ghost done = inp.take(n - rest.len());
        let f = rest.pop().unwrap();
        let ghost fv = f@;
        proof {
            let rv = groups_view(rest@);
            assert(groups_view(rest@.push(f)) =~= rv.push(fv));
            assert(rv.push(fv).reverse() =~= seq![fv] + rv.reverse());
            assert(inp.take(n - rest.len()) =~= done.push(fv));
            done.lemma_filter_push(fv, |g: Seq<Seq<u8>>| g.len() > 1);
        }
        if f.file_paths.len() > 1 {
            kept.push(f);
            assert(groups_view(kept@) =~= groups_view(kept@).drop_last().push(fv));
        }
    }
    assert(inp.take(n as int) =~= inp);
    kept
}

/// The paths of the copies that are not kept: all but the first.
pub fn paths_to_delete(file: &Fileinfo) -> (r: Vec<Vec<u8>>)
    ensures
        paths_view(r@) == (if file@.len() == 0 { Seq::<Seq<u8>>::empty() } else { file@.drop_first() }),
{
    let mut r: Vec<Vec<u8>> = Vec::new();
    let n = file.file_paths.len();
    if n == 0 {
        assert(paths_view(r@) =~= Seq::<Seq<u8>>::empty());
        return r;
    }
    let mut i: usize = 1;
    assert(paths_view(r@) =~= file@.subrange(1, 1));
    while i < n
        invariant
            n == file.file_paths.len(),
            1 <= i <= n,
            paths_view(r@) == file@.subrange(1, i as int),
        decreases n - i,
    {
        let p = file.file_paths[i].clone();
        assert(p@ == file@[i as int]);
        let ghost before = paths_view(r@);
        r.push(p);
        assert(paths_view(r@) =~= before.push(file@[i as int]));
        assert(paths_view(r@) =~= file@.subrange(1, i + 1));
        i = i + 1;
    }
    assert(file@.drop_first() =~= file@.subrange(1, n as int));
    r
}

/// Under a preference, the copy kept (the first after sorting) is in the
/// lowest tier of its group: no copy is preferred to it.
pub proof fn lemma_kept_copy_lowest_tier(pref: Preference, base: BaseOrder, out: Seq<Seq<u8>>, inp: Seq<Seq<u8>>)
    requires
        is_stable_sort_of(OrderView { base, preference: Some(pref) }, out, inp),
        out.len() > 0,
    ensures
        forall|i: int| 0 <= i < inp.len() ==> preference_rank(pref, out[0]) <= preference_rank(pref, #[trigger] inp[i]),
{
    let o = OrderView { base, preference: Some(pref) };
    lemma_first_is_least(o, out, inp);
    assert forall|i: int| 0 <= i < inp.len() implies preference_rank(pref, out[0]) <= preference_rank(pref, #[trigger] inp[i]) by {
        assert(order_compare(o, out[0], inp[i]) != Comparison::Greater);
    }
}

/// A blacklisted copy is kept only where every copy is blacklisted.
pub proof fn lemma_kept_copy_not_blacklisted(pref: Preference, base: BaseOrder, out: Seq<Seq<u8>>, inp: Seq<Seq<u8>>, i: int)
    requires
        is_stable_sort_of(OrderView { base, preference: Some(pref) }, out, inp),
        0 <= i < inp.len(),
        !path_has_any_component(inp[i], pref.blacklist),
    ensures
        out.len() > 0,
        !path_has_any_component(out[0], pref.blacklist),
{
    lemma_first_is_least(OrderView { base, preference: Some(pref) }, out, inp);
    lemma_kept_copy_lowest_tier(pref, base, out, inp);
    assert(preference_rank(pref, out[0]) <= preference_rank(pref, inp[i]));
}

/// Where some copy outside the blacklist is whitelisted, the copy kept is
/// whitelisted and outside the blacklist.
pub proof fn lemma_kept_copy_whitelisted(pref: Preference, base: BaseOrder, out: Seq<Seq<u8>>, inp: Seq<Seq<u8>>, i: int)
    requires
        is_stable_sort_of(OrderView { base, preference: Some(pref) }, out, inp),
        0 <= i < inp.len(),
        !path_has_any_component(inp[i], pref.blacklist),
        path_has_any_component(inp[i], pref.whitelist),
    ensures
        out.len() > 0,
        !path_has_any_component(out[0], pref.blacklist),
        path_has_any_component(out[0], pref.whitelist),
{
    lemma_first_is_least(OrderView { base, preference: Some(pref) }, out, inp);
    lemma_kept_copy_lowest_tier(pref, base, out, inp);
    assert(preference_rank(pref, out[0]) <= preference_rank(pref, inp[i]));
}

/// Where some copy outside the blacklist is under the prefix, the copy kept
/// is outside the blacklist, and whitelisted or under the prefix; where no
/// copy is whitelisted, it is under the prefix.
pub proof fn lemma_kept_copy_under_prefix(pref: Preference, base: BaseOrder, out: Seq<Seq<u8>>, inp: Seq<Seq<u8>>, i: int)
    requires
        is_stable_sort_of(OrderView { base, preference: Some(pref) }, out, inp),
        0 <= i < inp.len(),
        !path_has_any_component(inp[i], pref.blacklist),
        path_starts_with(inp[i], pref.prefix),
    ensures
        out.len() > 0,
        !path_has_any_component(out[0], pref.blacklist),
        path_has_any_component(out[0], pref.whitelist) || path_starts_with(out[0], pref.prefix),
        (forall|j: int| 0 <= j < inp.len() ==> !path_has_any_component(#[trigger] inp[j], pref.whitelist))
            ==> path_starts_with(out[0], pref.prefix),
{
    let o = OrderView { base, preference: Some(pref) };
    lemma_first_is_least(o, out, inp);
    lemma_kept_copy_lowest_tier(pref, base, out, inp);
    assert(preference_rank(pref, out[0]) <= preference_rank(pref, inp[i]));
    if forall|j: int| 0 <= j < inp.len() ==> !path_has_any_component(#[trigger] inp[j], pref.whitelist) {
        assert(inp.contains(out[0]));
        let j = choose|j: int| 0 <= j < inp.len() && inp[j] == out[0];
        assert(!path_has_any_component(inp[j], pref.whitelist));
    }
}

/// Sorting by shorter length keeps a shortest path of the group.
pub proof fn lemma_shorter_keeps_shortest(out: Seq<Seq<u8>>, inp: Seq<Seq<u8>>)
    requires
        is_stable_sort_of(OrderView { base: BaseOrder::Length(SortOrder::Ascending), preference: None }, out, inp),
        out.len() > 0,
    ensures
        forall|i: int| 0 <= i < inp.len() ==> out[0].len() <= (#[trigger] inp[i]).len(),
{
    let o = OrderView { base: BaseOrder::Length(SortOrder::Ascending), preference: None };
    lemma_first_is_least(o, out, inp);
    assert forall|i: int| 0 <= i < inp.len() implies out[0].len() <= (#[trigger] inp[i]).len() by {
        assert(order_compare(o, out[0], inp[i]) != Comparison::Greater);
    }
}

/// Sorting by longer length keeps a longest path of the group.
pub proof fn lemma_longer_keeps_longest(out: Seq<Seq<u8>>, inp: Seq<Seq<u8>>)
    requires
        is_stable_sort_of(OrderView { base: BaseOrder::Length(SortOrder::Descending), preference: None }, out, inp),
        out.len() > 0,
    ensures
        forall|i: int| 0 <= i < inp.len() ==> out[0].len() >= (#[trigger] inp[i]).len(),
{
    let o = OrderView { base: BaseOrder::Length(SortOrder::Descending), preference: None };
    lemma_first_is_least(o, out, inp);
    assert forall|i: int| 0 <= i < inp.len() implies out[0].len() >= (#[trigger] inp[i]).len() by {
        assert(order_compare(o, out[0], inp[i]) != Comparison::Greater);
    }
}

/// Sorting alphabetically keeps the first copy in the order of paths, and
/// `Last` keeps the last one.
pub proof fn lemma_alphabetical_keeps_extreme(pref: PathPrefixAlphaPreference, out: Seq<Seq<u8>>, inp: Seq<Seq<u8>>)
    requires
        is_stable_sort_of(OrderView { base: alpha_base(pref), preference: None }, out, inp),
        out.len() > 0,
    ensures
        pref == PathPrefixAlphaPreference::First ==> forall|i: int|
            0 <= i < inp.len() ==> path_compare(out[0], #[trigger] inp[i]) != Comparison::Greater,
        pref == PathPrefixAlphaPreference::Last ==> forall|i: int|
            0 <= i < inp.len() ==> path_compare(#[trigger] inp[i], out[0]) != Comparison::Greater,
{
    let o = OrderView { base: alpha_base(pref), preference: None };
    lemma_first_is_least(o, out, inp);
    assert forall|i: int| 0 <= i < inp.len() implies order_compare(o, out[0], #[trigger] inp[i]) != Comparison::Greater by {}
}

/// Ordering by length `Descending` is ordering `Ascending` with the sides swapped.
pub proof fn lemma_descending_reverses_ascending(a: Seq<u8>, b: Seq<u8>)
    ensures
        length_compare(SortOrder::Descending, a, b) == length_compare(SortOrder::Ascending, b, a),
        length_compare(SortOrder::Ascending, a, b) == length_compare(SortOrder::Ascending, b, a).flip(),
{
}

/// The groups kept as duplicates are exactly those with more than one path.
pub proof fn lemma_dupes_are_groups_with_copies(files: Seq<Seq<Seq<u8>>>)
    ensures
        forall|i: int| 0 <= i < dupes_of(files).len() ==> (#[trigger] dupes_of(files)[i]).len() > 1,
        forall|i: int| 0 <= i < files.len() && (#[trigger] files[i]).len() > 1 ==> dupes_of(files).contains(files[i]),
        dupes_of(files).len() <= files.len(),
{
    broadcast use vstd::seq_lib::group_filter_ensures;
    let p = |g: Seq<Seq<u8>>| g.len() > 1;
    assert forall|i: int| 0 <= i < dupes_of(files).len() implies (#[trigger] dupes_of(files)[i]).len() > 1 by {
        files.lemma_filter_pred(p, i);
    }
    assert forall|i: int| 0 <= i < files.len() && (#[trigger] files[i]).len() > 1 implies dupes_of(files).contains(files[i]) by {
        files.lemma_filter_contains(p, i);
    }
    files.lemma_filter_len(p);
}

/// Keeping what satisfies `p` commutes with reversing.
proof fn lemma_filter_reverse(s: Seq<Seq<u8>>, p: spec_fn(Seq<u8>) -> bool)
    ensures
        s.reverse().filter(p) == s.filter(p).reverse(),
    decreases s.len(),
{
    reveal(Seq::filter);
    if s.len() == 0 {
        assert(s.reverse() =~= s);
        assert(s.filter(p).reverse() =~= s.filter(p));
    } else {
        let t = s.drop_last();
        let x = s.last();
        lemma_filter_reverse(t, p);
        assert(s.reverse() =~= seq![x] + t.reverse());
        Seq::filter_distributes_over_add(seq![x], t.reverse(), p);
        Seq::<Seq<u8>>::empty().lemma_filter_push(x, p);
        assert(seq![x] =~= Seq::<Seq<u8>>::empty().push(x));
        assert(Seq::<Seq<u8>>::empty().filter(p) =~= Seq::<Seq<u8>>::empty());
        assert(s =~= t.push(x));
        t.lemma_filter_push(x, p);
        if p(x) {
            assert(t.filter(p).push(x).reverse() =~= seq![x] + t.filter(p).reverse());
        } else {
            assert(Seq::<Seq<u8>>::empty() + t.filter(p).reverse() =~= t.filter(p).reverse());
        }
    }
}

/// Where no two entries satisfy `p`, at most one is kept.
proof fn lemma_filter_at_most_one(s: Seq<Seq<u8>>, p: spec_fn(Seq<u8>) -> bool)
    requires
        forall|i: int, j: int| 0 <= i < j < s.len() ==> !(p(#[trigger] s[i]) && p(#[trigger] s[j])),
    ensures
        s.filter(p).len() <= 1,
    decreases s.len(),
{
    reveal(Seq::filter);
    if s.len() > 0 {
        let t = s.drop_last();
        assert forall|i: int, j: int| 0 <= i < j < t.len() implies !(p(#[trigger] t[i]) && p(#[trigger] t[j])) by {
            assert(t[i] == s[i] && t[j] == s[j]);
        }
        lemma_filter_at_most_one(t, p);
        if p(s.last()) {
            assert forall|i: int| 0 <= i < t.len() implies (|y: Seq<u8>| !p(y))(#[trigger] t[i]) by {
                assert(t[i] == s[i]);
                assert(!(p(s[i]) && p(s[s.len() - 1])));
            }
            t.lemma_all_neg_filter_empty(p);
        }
    }
}

/// Where no two paths of a group have the same length, longest first is
/// shortest first reversed.
pub proof fn lemma_longer_reverses_shorter(inp: Seq<Seq<u8>>, short: Seq<Seq<u8>>, long: Seq<Seq<u8>>)
    requires
        is_stable_sort_of(OrderView { base: BaseOrder::Length(SortOrder::Ascending), preference: None }, short, inp),
        is_stable_sort_of(OrderView { base: BaseOrder::Length(SortOrder::Descending), preference: None }, long, inp),
        forall|i: int, j: int| 0 <= i < j < inp.len() ==> (#[trigger] inp[i]).len() != (#[trigger] inp[j]).len(),
    ensures
        long == short.reverse(),
{
    let asc = OrderView { base: BaseOrder::Length(SortOrder::Ascending), preference: None };
    let desc = OrderView { base: BaseOrder::Length(SortOrder::Descending), preference: None };
    let rev = short.reverse();
    let n = short.len();
    assert forall|a: int, b: int| 0 <= a < b < rev.len() implies order_compare(desc, #[trigger] rev[a], #[trigger] rev[b])
        != Comparison::Greater by {
        assert(rev[a] == short[n - 1 - a]);
        assert(rev[b] == short[n - 1 - b]);
        assert(order_compare(asc, short[n - 1 - b], short[n - 1 - a]) != Comparison::Greater);
    }
    assert(sorted_by(desc, rev));
    short.lemma_reverse_to_multiset();
    assert forall|k: Seq<u8>| #[trigger] tied_run(desc, rev, k) == tied_run(desc, inp, k) by {
        let pa = ties_with(asc, k);
        let pd = ties_with(desc, k);
        assert(pd =~= pa);
        lemma_filter_reverse(short, pa);
        assert(tied_run(asc, short, k) == tied_run(asc, inp, k));
        assert forall|i: int, j: int| 0 <= i < j < inp.len() implies !(pa(#[trigger] inp[i]) && pa(#[trigger] inp[j])) by {}
        lemma_filter_at_most_one(inp, pa);
        let r = inp.filter(pa);
        assert(r.reverse() =~= r);
    }
    assert(is_stable_sort_of(desc, rev, inp));
    lemma_stable_sort_unique(desc, long, rev, inp);
}

/// Ordering groups that are already in order changes nothing: calling
/// `keep_prefixed_file` (or any of the sorts) twice with the same arguments
/// leaves the groups as the first call did.
pub proof fn lemma_reordering_groups_changes_nothing(
    o: OrderView,
    inp: Seq<Seq<Seq<u8>>>,
    mid: Seq<Seq<Seq<u8>>>,
    out: Seq<Seq<Seq<u8>>>,
)
    requires
        each_group_sorted(o, mid, inp),
        each_group_sorted(o, out, mid),
    ensures
        out == mid,
{
    assert forall|i: int| 0 <= i < out.len() implies #[trigger] out[i] == mid[i] by {
        assert(is_stable_sort_of(o, mid[i], inp[i]));
        lemma_sorting_sorted_is_identity(o, out[i], mid[i]);
    }
    assert(out =~= mid);
}

} // verus!
