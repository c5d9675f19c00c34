//! The orders in which the copies of a file are ranked, and a stable sort by them.
use vstd::prelude::*;
use vstd::string::StringSliceAdditionalSpecFns;
use crate::ordering::{Comparison, compare_int, compare_usize, is_total_preorder, lemma_lex_equal, lemma_lex_flip, lemma_lex_trans};
use crate::path::{
    compare_paths, component_order, has_any_component, lemma_component_order_total, path_compare, path_components,
    path_has_any_component, path_starts_with, starts_with, strs_bytes,
};

verus! {

/// Whether shorter or longer paths come first when ordering by length.
#[derive(PartialEq, Eq, Structural, Debug, Clone, Copy)]
pub enum SortOrder {
    Ascending,
    Descending,
}

/// The order that decides between paths that a preference does not tell apart.
#[derive(PartialEq, Eq, Structural, Debug, Clone, Copy)]
pub enum BaseOrder {
    /// By components, first to last.
    Alphabetical,
    /// By components, last to first.
    ReverseAlphabetical,
    /// By the length of the path in bytes.
    Length(SortOrder),
}

/// A preference for some paths, as a mathematical value: paths with a
/// blacklisted component come last, then come paths with a whitelisted
/// component first, then paths under the prefix, then the rest.
pub struct Preference {
    pub prefix: Seq<u8>,
    pub whitelist: Seq<Seq<u8>>,
    pub blacklist: Seq<Seq<u8>>,
}

/// A preference for some paths, as given by the user.
pub struct PrefixPreference<'a> {
    pub prefix: &'a str,
    pub whitelist: Vec<&'a str>,
    pub blacklist: Vec<&'a str>,
}

impl<'a> View for PrefixPreference<'a> {
    type V = Preference;

    open spec fn view(&self) -> Preference {
        Preference {
            prefix: self.prefix.spec_bytes(),
            whitelist: strs_bytes(self.whitelist@),
            blacklist: strs_bytes(self.blacklist@),
        }
    }
}

/// An order on paths, as a mathematical value.
pub struct OrderView {
    pub base: BaseOrder,
    pub preference: Option<Preference>,
}

/// An order on paths: a base order, under an optional preference.
pub struct PathOrdering<'a> {
    pub base: BaseOrder,
    pub preference: Option<PrefixPreference<'a>>,
}

impl<'a> View for PathOrdering<'a> {
    type V = OrderView;

    open spec fn view(&self) -> OrderView {
        OrderView {
            base: self.base,
            preference: match self.preference {
                Some(p) => Some(p@),
                None => None,
            },
        }
    }
}

/// Shorter paths first: by the length of the path in bytes.
pub open spec fn length_key_compare(a: Seq<u8>, b: Seq<u8>) -> Comparison {
    compare_int(a.len() as int, b.len() as int)
}

/// The order by length: ascending, or its reverse.
pub open spec fn length_compare(order: SortOrder, a: Seq<u8>, b: Seq<u8>) -> Comparison {
    match order {
        SortOrder::Ascending => length_key_compare(a, b),
        SortOrder::Descending => length_key_compare(b, a),
    }
}

pub open spec fn base_compare(base: BaseOrder, a: Seq<u8>, b: Seq<u8>) -> Comparison {
    match base {
        BaseOrder::Alphabetical => path_compare(a, b),
        BaseOrder::ReverseAlphabetical => path_compare(b, a),
        BaseOrder::Length(order) => length_compare(order, a, b),
    }
}

/// The tier of a path under a preference, smaller tiers first: whitelisted 0,
/// under the prefix 1, other 2, blacklisted 3 (the blacklist wins).
pub open spec fn preference_rank(pref: Preference, p: Seq<u8>) -> int {
    if path_has_any_component(p, pref.blacklist) {
        3
    } else if path_has_any_component(p, pref.whitelist) {
        0
    } else if path_starts_with(p, pref.prefix) {
        1
    } else {
        2
    }
}

/// The order of paths: by tier under the preference where there is one, then by the base order.
pub open spec fn order_compare(o: OrderView, a: Seq<u8>, b: Seq<u8>) -> Comparison {
    match o.preference {
        Some(pref) => if preference_rank(pref, a) != preference_rank(pref, b) {
            compare_int(preference_rank(pref, a), preference_rank(pref, b))
        } else {
            base_compare(o.base, a, b)
        },
        None => base_compare(o.base, a, b),
    }
}

pub open spec fn order_fn(o: OrderView) -> spec_fn(Seq<u8>, Seq<u8>) -> Comparison {
    |a: Seq<u8>, b: Seq<u8>| order_compare(o, a, b)
}

pub proof fn lemma_path_compare_flip(a: Seq<u8>, b: Seq<u8>)
    ensures
        path_compare(a, b) == path_compare(b, a).flip(),
{
    lemma_component_order_total();
    lemma_lex_flip(path_components(a), path_components(b), component_order());
}

/// Two paths tie in the order of paths exactly when they have the same
/// components (so `a//b` ties with `a/b`).
pub proof fn lemma_path_compare_equal(a: Seq<u8>, b: Seq<u8>)
    ensures
        (path_compare(a, b) == Comparison::Equal) == (path_components(a) == path_components(b)),
{
    lemma_component_order_total();
    lemma_lex_equal(path_components(a), path_components(b), component_order());
}

pub proof fn lemma_path_compare_refl(a: Seq<u8>)
    ensures
        path_compare(a, a) == Comparison::Equal,
{
    lemma_component_order_total();
    lemma_lex_equal(path_components(a), path_components(a), component_order());
}

pub proof fn lemma_path_compare_trans(a: Seq<u8>, b: Seq<u8>, c: Seq<u8>)
    requires
        path_compare(a, b) != Comparison::Greater,
        path_compare(b, c) != Comparison::Greater,
    ensures
        path_compare(a, c) != Comparison::Greater,
{
    lemma_component_order_total();
    let (ca, cb, cc) = (path_components(a), path_components(b), path_components(c));
    lemma_lex_equal(ca, cb, component_order());
    lemma_lex_equal(cb, cc, component_order());
    lemma_lex_equal(ca, cc, component_order());
    lemma_lex_flip(ca, cc, component_order());
    if path_compare(a, b) == Comparison::Less && path_compare(b, c) == Comparison::Less {
        lemma_lex_trans(ca, cb, cc, component_order());
    }
}

pub proof fn lemma_base_flip(base: BaseOrder, a: Seq<u8>, b: Seq<u8>)
    ensures
        base_compare(base, a, b) == base_compare(base, b, a).flip(),
{
    lemma_path_compare_flip(a, b);
}

pub proof fn lemma_base_refl(base: BaseOrder, a: Seq<u8>)
    ensures
        base_compare(base, a, a) == Comparison::Equal,
{
    lemma_path_compare_refl(a);
}

pub proof fn lemma_base_trans(base: BaseOrder, a: Seq<u8>, b: Seq<u8>, c: Seq<u8>)
    requires
        base_compare(base, a, b) != Comparison::Greater,
        base_compare(base, b, c) != Comparison::Greater,
    ensures
        base_compare(base, a, c) != Comparison::Greater,
{
    match base {
        BaseOrder::Alphabetical => lemma_path_compare_trans(a, b, c),
        BaseOrder::ReverseAlphabetical => lemma_path_compare_trans(c, b, a),
        BaseOrder::Length(_) => {},
    }
}

pub proof fn lemma_order_flip(o: OrderView, a: Seq<u8>, b: Seq<u8>)
    ensures
        order_compare(o, a, b) == order_compare(o, b, a).flip(),
{
    lemma_base_flip(o.base, a, b);
}

pub proof fn lemma_order_refl(o: OrderView, a: Seq<u8>)
    ensures
        order_compare(o, a, a) == Comparison::Equal,
{
    lemma_base_refl(o.base, a);
}

pub proof fn lemma_order_trans(o: OrderView, a: Seq<u8>, b: Seq<u8>, c: Seq<u8>)
    requires
        order_compare(o, a, b) != Comparison::Greater,
        order_compare(o, b, c) != Comparison::Greater,
    ensures
        order_compare(o, a, c) != Comparison::Greater,
{
    match o.preference {
        Some(pref) => {
            if preference_rank(pref, a) == preference_rank(pref, b) && preference_rank(pref, b)
                == preference_rank(pref, c) {
                lemma_base_trans(o.base, a, b, c);
            }
        },
        None => lemma_base_trans(o.base, a, b, c),
    }
}

/// Every order that this library sorts by is a total preorder.
pub proof fn lemma_order_is_total_preorder(o: OrderView)
    ensures
        is_total_preorder(order_fn(o)),
{
    assert forall|x: Seq<u8>, y: Seq<u8>| #[trigger] order_fn(o)(x, y) == order_fn(o)(y, x).flip() by {
        lemma_order_flip(o, x, y);
    }
    assert forall|x: Seq<u8>| #[trigger] order_fn(o)(x, x) == Comparison::Equal by {
        lemma_order_refl(o, x);
    }
    assert forall|x: Seq<u8>, y: Seq<u8>, z: Seq<u8>|
        #[trigger] order_fn(o)(x, y) != Comparison::Greater && #[trigger] order_fn(o)(y, z)
            != Comparison::Greater implies order_fn(o)(x, z) != Comparison::Greater by {
        lemma_order_trans(o, x, y, z);
    }
}

/// Compares two paths by their length in bytes, shorter first for
/// `Ascending` and longer first for `Descending`.
pub fn compare_lengths(a: &[u8], b: &[u8], order: SortOrder) -> (r: Comparison)
    ensures
        r == length_compare(order, a@, b@),
{
    match order {
        SortOrder::Ascending => compare_usize(a.len(), b.len()),
        SortOrder::Descending => compare_usize(b.len(), a.len()),
    }
}

/// Compares two paths by a base order.
pub fn compare_base(base: BaseOrder, a: &[u8], b: &[u8]) -> (r: Comparison)
    ensures
        r == base_compare(base, a@, b@),
{
    match base {
        BaseOrder::Alphabetical => compare_paths(a, b),
        BaseOrder::ReverseAlphabetical => compare_paths(b, a),
        BaseOrder::Length(order) => compare_lengths(a, b, order),
    }
}

/// Compares two paths under a preference: blacklisted paths last, then
/// whitelisted paths first, then paths under the prefix first, each tier
/// ordered by the base order.
pub fn compare_preferred(pref: &PrefixPreference, base: BaseOrder, a: &[u8], b: &[u8]) -> (r: Comparison)
    ensures
        r == order_compare(OrderView { base, preference: Some(pref@) }, a@, b@),
{
    let a_black = has_any_component(a, &pref.blacklist);
    let b_black = has_any_component(b, &pref.blacklist);
    if a_black && b_black {
        return compare_base(base, a, b);
    } else if b_black {
        return Comparison::Less;
    } else if a_black {
        return Comparison::Greater;
    }
    let a_white = has_any_component(a, &pref.whitelist);
    let b_white = has_any_component(b, &pref.whitelist);
    if a_white && b_white {
        return compare_base(base, a, b);
    } else if a_white {
        return Comparison::Less;
    } else if b_white {
        return Comparison::Greater;
    }
    let prefix = pref.prefix.as_bytes();
    let a_under = starts_with(a, prefix);
    let b_under = starts_with(b, prefix);
    if a_under && b_under {
        compare_base(base, a, b)
    } else if a_under {
        Comparison::Less
    } else if b_under {
        Comparison::Greater
    } else {
        compare_base(base, a, b)
    }
}

/// Compares two paths by an order.
pub fn compare_by(order: &PathOrdering, a: &[u8], b: &[u8]) -> (r: Comparison)
    ensures
        r == order_compare(order@, a@, b@),
{
    match &order.preference {
        Some(pref) => compare_preferred(pref, order.base, a, b),
        None => compare_base(order.base, a, b),
    }
}

/// The mathematical value of a list of paths.
pub open spec fn paths_view(v: Seq<Vec<u8>>) -> Seq<Seq<u8>> {
    v.map_values(|p: Vec<u8>| p@)
}

/// `s` is in order: no path comes after one that the order puts behind it.
pub open spec fn sorted_by(o: OrderView, s: Seq<Seq<u8>>) -> bool {
    forall|i: int, j: int|
        0 <= i < j < s.len() ==> order_compare(o, #[trigger] s[i], #[trigger] s[j]) != Comparison::Greater
}

/// Holds of the paths that the order ties with `k`.
pub open spec fn ties_with(o: OrderView, k: Seq<u8>) -> spec_fn(Seq<u8>) -> bool {
    |y: Seq<u8>| order_compare(o, y, k) == Comparison::Equal
}

/// The paths of `s` that the order ties with `k`, in their order in `s`.
pub open spec fn tied_run(o: OrderView, s: Seq<Seq<u8>>, k: Seq<u8>) -> Seq<Seq<u8>> {
    s.filter(ties_with(o, k))
}

/// `out` is `inp` stably sorted: in order, with the same paths, and with
/// paths that the order ties in the order they had in `inp`.
pub open spec fn is_stable_sort_of(o: OrderView, out: Seq<Seq<u8>>, inp: Seq<Seq<u8>>) -> bool {
    &&& sorted_by(o, out)
    &&& out.to_multiset() == inp.to_multiset()
    &&& forall|k: Seq<u8>| #[trigger] tied_run(o, out, k) == tied_run(o, inp, k)
}

/// Inserting `x` at `j` keeps a sorted sequence sorted when everything
/// before `j` is not behind `x` and everything from `j` on is behind it.
proof fn lemma_insert_sorted(o: OrderView, s: Seq<Seq<u8>>, x: Seq<u8>, j: int)
    requires
        sorted_by(o, s),
        0 <= j <= s.len(),
        j > 0 ==> order_compare(o, s[j - 1], x) != Comparison::Greater,
        forall|q: int| j <= q < s.len() ==> order_compare(o, #[trigger] s[q], x) == Comparison::Greater,
    ensures
        sorted_by(o, s.insert(j, x)),
{
    let t = s.insert(j, x);
    assert forall|a: int, b: int| 0 <= a < b < t.len() implies order_compare(o, #[trigger] t[a], #[trigger] t[b])
        != Comparison::Greater by {
        if a < j && b == j {
            if a < j - 1 {
                assert(order_compare(o, s[a], s[j - 1]) != Comparison::Greater);
                lemma_order_trans(o, s[a], s[j - 1], x);
            }
        } else if a == j {
            lemma_order_flip(o, x, s[b - 1]);
        } else if a < j && b > j {
            assert(t[b] == s[b - 1]);
            assert(order_compare(o, s[a], s[b - 1]) != Comparison::Greater);
        } else if a > j {
            assert(order_compare(o, s[a - 1], s[b - 1]) != Comparison::Greater);
        } else {
            assert(order_compare(o, s[a], s[b]) != Comparison::Greater);
        }
    }
}

/// Inserting `x` before the paths that the order puts behind it adds `x` at
/// the end of its tied run and leaves every other run as it was.
proof fn lemma_insert_runs(o: OrderView, s: Seq<Seq<u8>>, x: Seq<u8>, j: int, k: Seq<u8>)
    requires
        0 <= j <= s.len(),
        forall|q: int| j <= q < s.len() ==> order_compare(o, #[trigger] s[q], x) == Comparison::Greater,
    ensures
        tied_run(o, s.insert(j, x), k) == tied_run(o, s.push(x), k),
{
    let p = ties_with(o, k);
    let left = s.take(j);
    let right = s.skip(j);
    assert(s.insert(j, x) =~= left + seq![x] + right);
    assert(s.push(x) =~= left + right + seq![x]);
    assert(s =~= left + right);
    Seq::filter_distributes_over_add(left + seq![x], right, p);
    Seq::filter_distributes_over_add(left, seq![x], p);
    Seq::filter_distributes_over_add(left + right, seq![x], p);
    Seq::filter_distributes_over_add(left, right, p);
    if p(x) {
        assert forall|q: int| 0 <= q < right.len() implies !p(#[trigger] right[q]) by {
            assert(right[q] == s[j + q]);
            if p(right[q]) {
                lemma_order_flip(o, x, k);
                lemma_order_trans(o, right[q], k, x);
            }
        }
        right.lemma_all_neg_filter_empty(p);
        assert(right.filter(p) =~= Seq::<Seq<u8>>::empty());
    }
    reveal(Seq::filter);
    assert(seq![x].drop_last() =~= Seq::<Seq<u8>>::empty());
    assert(Seq::<Seq<u8>>::empty().filter(p) =~= Seq::<Seq<u8>>::empty());
}

/// One step of the insertion sort keeps its invariant.
proof fn lemma_insert_step(o: OrderView, s: Seq<Seq<u8>>, done: Seq<Seq<u8>>, x: Seq<u8>, j: int)
    requires
        sorted_by(o, s),
        s.to_multiset() == done.to_multiset(),
        forall|k: Seq<u8>| #[trigger] tied_run(o, s, k) == tied_run(o, done, k),
        0 <= j <= s.len(),
        j > 0 ==> order_compare(o, s[j - 1], x) != Comparison::Greater,
        forall|q: int| j <= q < s.len() ==> order_compare(o, #[trigger] s[q], x) == Comparison::Greater,
    ensures
        sorted_by(o, s.insert(j, x)),
        s.insert(j, x).to_multiset() == done.push(x).to_multiset(),
        forall|k: Seq<u8>| #[trigger] tied_run(o, s.insert(j, x), k) == tied_run(o, done.push(x), k),
{
    lemma_insert_sorted(o, s, x, j);
    assert forall|k: Seq<u8>| #[trigger] tied_run(o, s.insert(j, x), k) == tied_run(o, done.push(x), k) by {
        lemma_insert_runs(o, s, x, j, k);
        s.lemma_filter_push(x, ties_with(o, k));
        done.lemma_filter_push(x, ties_with(o, k));
        assert(tied_run(o, s, k) == tied_run(o, done, k));
    }
    let left = s.take(j);
    let right = s.skip(j);
    assert(s =~= left + right);
    assert(s.insert(j, x) =~= left + (seq![x] + right));
    vstd::seq_lib::lemma_multiset_commutative(left, seq![x] + right);
    vstd::seq_lib::lemma_multiset_commutative(seq![x], right);
    vstd::seq_lib::lemma_multiset_commutative(left, right);
    vstd::seq_lib::lemma_multiset_commutative(done, seq![x]);
    vstd::seq_lib::lemma_multiset_commutative(s, seq![x]);
    assert(done + seq![x] =~= done.push(x));
}

/// Sorts `paths` stably by `order`.
pub fn sort_paths(paths: &mut Vec<Vec<u8>>, order: &PathOrdering)
    ensures
        is_stable_sort_of(order@, paths_view(final(paths)@), paths_view(old(paths)@)),
{
    let ghost o = order@;
    let ghost inp = paths_view(paths@);
    let n = paths.len();
    let mut sorted: Vec<Vec<u8>> = Vec::new();
    let mut i: usize = 0;
    assert(inp.take(0) =~= Seq::<Seq<u8>>::empty());
    assert(paths_view(sorted@) =~= Seq::<Seq<u8>>::empty());
    while i < n
        invariant
            n == paths.len(),
            inp == paths_view(paths@),
            o == order@,
            i <= n,
            sorted_by(o, paths_view(sorted@)),
            paths_view(sorted@).to_multiset() == inp.take(i as int).to_multiset(),
            forall|k: Seq<u8>| #[trigger] tied_run(o, paths_view(sorted@), k) == tied_run(o, inp.take(i as int), k),
        decreases n - i,
    {
        let x = paths[i].clone();
        assert(x@ == inp[i as int]);
        let ghost s = paths_view(sorted@);
        let mut j: usize = sorted.len();
        loop
            invariant
                s == paths_view(sorted@),
                j <= sorted.len(),
                forall|q: int| j <= q < s.len() ==> order_compare(o, #[trigger] s[q], x@) == Comparison::Greater,
                o == order@,
            ensures
                j <= sorted.len(),
                forall|q: int| j <= q < s.len() ==> order_compare(o, #[trigger] s[q], x@) == Comparison::Greater,
                j > 0 ==> order_compare(o, s[j - 1], x@) != Comparison::Greater,
            decreases j,
        {
            if j == 0 {
                break;
            }
            assert(s[j - 1] == sorted@[j - 1]@);
            if compare_by(order, sorted[j - 1].as_slice(), x.as_slice()) == Comparison::Greater {
                j = j - 1;
            } else {
                break;
            }
        }
        let ghost xv = x@;
        sorted.insert(j, x);
        proof {
            assert(paths_view(sorted@) =~= s.insert(j as int, xv));
            assert(inp.take(i + 1) =~= inp.take(i as int).push(xv));
            lemma_insert_step(o, s, inp.take(i as int), xv, j as int);
        }
        i = i + 1;
    }
    assert(inp.take(n as int) =~= inp);
    *paths = sorted;
}

/// The first path of a sequence that the order ties with `k`, where the
/// first path of the sequence ties with `k`.
proof fn lemma_run_head(o: OrderView, s: Seq<Seq<u8>>, k: Seq<u8>)
    requires
        s.len() > 0,
        order_compare(o, s[0], k) == Comparison::Equal,
    ensures
        tied_run(o, s, k).len() > 0,
        tied_run(o, s, k)[0] == s[0],
        tied_run(o, s, k).drop_first() == tied_run(o, s.drop_first(), k),
{
    let p = ties_with(o, k);
    assert(s =~= seq![s[0]] + s.drop_first());
    Seq::filter_distributes_over_add(seq![s[0]], s.drop_first(), p);
    Seq::<Seq<u8>>::empty().lemma_filter_push(s[0], p);
    reveal(Seq::filter);
    assert(seq![s[0]] =~= Seq::<Seq<u8>>::empty().push(s[0]));
    assert(Seq::<Seq<u8>>::empty().filter(p) =~= Seq::<Seq<u8>>::empty());
    assert(seq![s[0]].filter(p) =~= seq![s[0]]);
    assert((seq![s[0]] + s.drop_first().filter(p)).drop_first() =~= s.drop_first().filter(p));
}

/// The paths of a sequence that the order ties with `k`, where the first
/// path of the sequence does not tie with `k`.
proof fn lemma_run_skip(o: OrderView, s: Seq<Seq<u8>>, k: Seq<u8>)
    requires
        s.len() > 0,
        order_compare(o, s[0], k) != Comparison::Equal,
    ensures
        tied_run(o, s, k) == tied_run(o, s.drop_first(), k),
{
    let p = ties_with(o, k);
    assert(s =~= seq![s[0]] + s.drop_first());
    Seq::filter_distributes_over_add(seq![s[0]], s.drop_first(), p);
    Seq::<Seq<u8>>::empty().lemma_filter_push(s[0], p);
    reveal(Seq::filter);
    assert(seq![s[0]] =~= Seq::<Seq<u8>>::empty().push(s[0]));
    assert(Seq::<Seq<u8>>::empty().filter(p) =~= Seq::<Seq<u8>>::empty());
    assert(Seq::<Seq<u8>>::empty() + s.drop_first().filter(p) =~= s.drop_first().filter(p));
}

/// The first path of a sorted sequence comes no later than any of its paths.
pub proof fn lemma_sorted_first_least(o: OrderView, s: Seq<Seq<u8>>, x: Seq<u8>)
    requires
        sorted_by(o, s),
        s.contains(x),
    ensures
        order_compare(o, s[0], x) != Comparison::Greater,
{
    let q = choose|q: int| 0 <= q < s.len() && s[q] == x;
    if q == 0 {
        lemma_order_refl(o, x);
    } else {
        assert(order_compare(o, s[0], s[q]) != Comparison::Greater);
    }
}

/// Two sorted sequences with the same paths, whose paths that the order ties
/// come in the same order, are the same sequence.
proof fn lemma_sorted_runs_determine(o: OrderView, a: Seq<Seq<u8>>, b: Seq<Seq<u8>>)
    requires
        sorted_by(o, a),
        sorted_by(o, b),
        a.to_multiset() == b.to_multiset(),
        forall|k: Seq<u8>| #[trigger] tied_run(o, a, k) == tied_run(o, b, k),
    ensures
        a == b,
    decreases a.len(),
{
    a.to_multiset_ensures();
    b.to_multiset_ensures();
    if a.len() == 0 {
        assert(a =~= b);
    } else {
        let a0 = a[0];
        let b0 = b[0];
        assert(a.contains(a0));
        assert(a.to_multiset().count(a0) > 0);
        assert(b.contains(b0));
        assert(b.to_multiset().count(b0) > 0);
        lemma_sorted_first_least(o, b, a0);
        lemma_sorted_first_least(o, a, b0);
        lemma_order_flip(o, a0, b0);
        lemma_order_refl(o, a0);
        lemma_run_head(o, a, a0);
        lemma_run_head(o, b, a0);
        assert(tied_run(o, a, a0) == tied_run(o, b, a0));
        assert(a0 == b0);
        let ra = a.drop_first();
        let rb = b.drop_first();
        assert(a.remove(0) =~= ra);
        assert(b.remove(0) =~= rb);
        assert(ra.to_multiset() =~= rb.to_multiset());
        assert forall|i: int, j: int| 0 <= i < j < ra.len() implies order_compare(o, #[trigger] ra[i], #[trigger] ra[j])
            != Comparison::Greater by {
            assert(ra[i] == a[i + 1] && ra[j] == a[j + 1]);
        }
        assert forall|i: int, j: int| 0 <= i < j < rb.len() implies order_compare(o, #[trigger] rb[i], #[trigger] rb[j])
            != Comparison::Greater by {
            assert(rb[i] == b[i + 1] && rb[j] == b[j + 1]);
        }
        assert forall|k: Seq<u8>| #[trigger] tied_run(o, ra, k) == tied_run(o, rb, k) by {
            assert(tied_run(o, a, k) == tied_run(o, b, k));
            if order_compare(o, a0, k) == Comparison::Equal {
                lemma_run_head(o, a, k);
                lemma_run_head(o, b, k);
            } else {
                lemma_run_skip(o, a, k);
                lemma_run_skip(o, b, k);
            }
        }
        lemma_sorted_runs_determine(o, ra, rb);
        assert(a =~= b) by {
            assert forall|i: int| 0 <= i < a.len() implies a[i] == b[i] by {
                if i > 0 {
                    assert(a[i] == ra[i - 1]);
                    assert(b[i] == rb[i - 1]);
                }
            }
        }
    }
}

/// A sequence has exactly one stable sort by an order: the contract of
/// `sort_paths` pins its result down.
pub proof fn lemma_stable_sort_unique(o: OrderView, a: Seq<Seq<u8>>, b: Seq<Seq<u8>>, inp: Seq<Seq<u8>>)
    requires
        is_stable_sort_of(o, a, inp),
        is_stable_sort_of(o, b, inp),
    ensures
        a == b,
{
    assert forall|k: Seq<u8>| #[trigger] tied_run(o, a, k) == tied_run(o, b, k) by {
        assert(tied_run(o, a, k) == tied_run(o, inp, k));
        assert(tied_run(o, b, k) == tied_run(o, inp, k));
    }
    lemma_sorted_runs_determine(o, a, b);
}

/// Sorting paths that are already in order leaves them as they are; in
/// particular, sorting twice gives what sorting once gives.
pub proof fn lemma_sorting_sorted_is_identity(o: OrderView, out: Seq<Seq<u8>>, inp: Seq<Seq<u8>>)
    requires
        sorted_by(o, inp),
        is_stable_sort_of(o, out, inp),
    ensures
        out == inp,
{
    lemma_sorted_runs_determine(o, out, inp);
}

/// After a stable sort the first path comes no later than any path of the
/// input, and no path is lost or added.
pub proof fn lemma_first_is_least(o: OrderView, out: Seq<Seq<u8>>, inp: Seq<Seq<u8>>)
    requires
        is_stable_sort_of(o, out, inp),
    ensures
        out.len() == inp.len(),
        forall|x: Seq<u8>| out.contains(x) <==> inp.contains(x),
        out.len() > 0 ==> forall|i: int| 0 <= i < inp.len() ==> order_compare(o, out[0], #[trigger] inp[i])
            != Comparison::Greater,
{
    out.to_multiset_ensures();
    inp.to_multiset_ensures();
    assert forall|x: Seq<u8>| out.contains(x) <==> inp.contains(x) by {
        assert(out.contains(x) <==> out.to_multiset().count(x) > 0);
        assert(inp.contains(x) <==> inp.to_multiset().count(x) > 0);
    }
    if out.len() > 0 {
        assert forall|i: int| 0 <= i < inp.len() implies order_compare(o, out[0], #[trigger] inp[i])
            != Comparison::Greater by {
            assert(inp.contains(inp[i]));
            lemma_sorted_first_least(o, out, inp[i]);
        }
    }
}

/// The length orders go by the byte length of the whole path alone: paths of
/// equal length tie (so a stable sort keeps their order), a shorter path comes
/// first when ascending and last when descending.
pub proof fn lemma_length_order_is_byte_length(a: Seq<u8>, b: Seq<u8>)
    ensures
        a.len() == b.len() ==> length_compare(SortOrder::Ascending, a, b) == Comparison::Equal,
        a.len() == b.len() ==> length_compare(SortOrder::Descending, a, b) == Comparison::Equal,
        a.len() < b.len() ==> length_compare(SortOrder::Ascending, a, b) == Comparison::Less,
        a.len() < b.len() ==> length_compare(SortOrder::Descending, a, b) == Comparison::Greater,
{
}

/// Under a length order, the paths tied with `k` are those of its length, so
/// a stable sort keeps the paths of each length in their input order.
pub proof fn lemma_length_ties_are_equal_lengths(order: SortOrder, s: Seq<Seq<u8>>, k: Seq<u8>)
    ensures
        tied_run(OrderView { base: BaseOrder::Length(order), preference: None }, s, k) == s.filter(
            |y: Seq<u8>| y.len() == k.len(),
        ),
{
    let o = OrderView { base: BaseOrder::Length(order), preference: None };
    assert(ties_with(o, k) =~= |y: Seq<u8>| y.len() == k.len());
}

/// Under a preference, paths of different tiers go by tier (lower first),
/// and paths of the same tier go by the base order alone, exactly as without
/// a preference: the dupe preference orders every tier, the whitelisted one too.
pub proof fn lemma_tier_then_base(pref: Preference, base: BaseOrder, a: Seq<u8>, b: Seq<u8>)
    ensures
        preference_rank(pref, a) < preference_rank(pref, b) ==> order_compare(
            OrderView { base, preference: Some(pref) },
            a,
            b,
        ) == Comparison::Less,
        preference_rank(pref, a) == preference_rank(pref, b) ==> order_compare(
            OrderView { base, preference: Some(pref) },
            a,
            b,
        ) == order_compare(OrderView { base, preference: None }, a, b),
        preference_rank(pref, a) == preference_rank(pref, b) ==> order_compare(
            OrderView { base, preference: Some(pref) },
            a,
            b,
        ) == base_compare(base, a, b),
{
}

/// Under a preference, the copy kept comes, by the base order, no later than
/// any copy of its own tier: with `Short` it is a shortest copy of its tier,
/// with `Long` a longest, otherwise the first by path.
pub proof fn lemma_kept_copy_first_in_tier(pref: Preference, base: BaseOrder, out: Seq<Seq<u8>>, inp: Seq<Seq<u8>>)
    requires
        is_stable_sort_of(OrderView { base, preference: Some(pref) }, out, inp),
        out.len() > 0,
    ensures
        forall|i: int|
            0 <= i < inp.len() && preference_rank(pref, #[trigger] inp[i]) == preference_rank(pref, out[0])
                ==> base_compare(base, out[0], inp[i]) != Comparison::Greater,
        base == BaseOrder::Length(SortOrder::Ascending) ==> forall|i: int|
            0 <= i < inp.len() && preference_rank(pref, #[trigger] inp[i]) == preference_rank(pref, out[0])
                ==> out[0].len() <= inp[i].len(),
        base == BaseOrder::Length(SortOrder::Descending) ==> forall|i: int|
            0 <= i < inp.len() && preference_rank(pref, #[trigger] inp[i]) == preference_rank(pref, out[0])
                ==> out[0].len() >= inp[i].len(),
{
    let o = OrderView { base, preference: Some(pref) };
    lemma_first_is_least(o, out, inp);
    assert forall|i: int|
        0 <= i < inp.len() && preference_rank(pref, #[trigger] inp[i]) == preference_rank(pref, out[0]) implies
        base_compare(base, out[0], inp[i]) != Comparison::Greater by {
        assert(order_compare(o, out[0], inp[i]) != Comparison::Greater);
    }
}

} // verus!
