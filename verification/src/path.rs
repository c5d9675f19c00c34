//! Unix paths held as their bytes: their components, their order, and the
//! lengths of their parent and file name.
//!
//! A path is split on `/` into pieces. Empty pieces and `.` pieces name no
//! component, `..` names the parent directory, any other piece is a normal
//! component. A leading `/` is the root directory, and a path that starts
//! with a `.` piece (and has no root) starts with the current directory.
use vstd::prelude::*;
use vstd::string::StringSliceAdditionalSpecFns;
use vstd::utf8::valid_utf8;
use crate::ordering::{Comparison, compare_int, is_total_order, lex_compare, lemma_lex_equal, lemma_lex_flip, lemma_lex_trans};

verus! {

/// The byte `/`, which separates the pieces of a path.
pub const SLASH: u8 = 47;

/// The byte `.`.
pub const DOT: u8 = 46;

/// One component of a path, as a mathematical value.
pub enum Component {
    RootDir,
    CurDir,
    ParentDir,
    Normal(Seq<u8>),
}

/// One component of a path, as an executable value.
pub enum PathComponent {
    RootDir,
    CurDir,
    ParentDir,
    Normal(Vec<u8>),
}

impl View for PathComponent {
    type V = Component;

    open spec fn view(&self) -> Component {
        match self {
            PathComponent::RootDir => Component::RootDir,
            PathComponent::CurDir => Component::CurDir,
            PathComponent::ParentDir => Component::ParentDir,
            PathComponent::Normal(name) => Component::Normal(name@),
        }
    }
}

/// The mathematical value of a list of executable components.
pub open spec fn components_view(v: Seq<PathComponent>) -> Seq<Component> {
    v.map_values(|c: PathComponent| c@)
}

/// The pieces of `p` between its `/` bytes, in order (always at least one).
pub open spec fn path_pieces(p: Seq<u8>) -> Seq<Seq<u8>>
    decreases p.len(),
{
    if p.len() == 0 {
        seq![Seq::<u8>::empty()]
    } else {
        let prev = path_pieces(p.drop_last());
        if p.last() == SLASH {
            prev.push(Seq::<u8>::empty())
        } else {
            prev.drop_last().push(prev.last().push(p.last()))
        }
    }
}

/// The component that one piece names: none for an empty or `.` piece.
pub open spec fn piece_component(piece: Seq<u8>) -> Seq<Component> {
    if piece.len() == 0 || piece == seq![DOT] {
        Seq::<Component>::empty()
    } else if piece == seq![DOT, DOT] {
        seq![Component::ParentDir]
    } else {
        seq![Component::Normal(piece)]
    }
}

/// The components that a list of pieces names, in order.
pub open spec fn body_components(pieces: Seq<Seq<u8>>) -> Seq<Component>
    decreases pieces.len(),
{
    if pieces.len() == 0 {
        Seq::<Component>::empty()
    } else {
        body_components(pieces.drop_last()) + piece_component(pieces.last())
    }
}

/// `p` starts at the root directory.
pub open spec fn has_root(p: Seq<u8>) -> bool {
    p.len() > 0 && p[0] == SLASH
}

/// `p` is relative and its first piece is `.`.
pub open spec fn has_cur_dir(p: Seq<u8>) -> bool {
    p.len() > 0 && p[0] == DOT && (p.len() == 1 || p[1] == SLASH)
}

/// The component that the start of `p` names, if any.
pub open spec fn head_components(p: Seq<u8>) -> Seq<Component> {
    if has_root(p) {
        seq![Component::RootDir]
    } else if has_cur_dir(p) {
        seq![Component::CurDir]
    } else {
        Seq::<Component>::empty()
    }
}

/// The components of the path `p`, in order.
pub open spec fn path_components(p: Seq<u8>) -> Seq<Component> {
    head_components(p) + body_components(path_pieces(p))
}

/// `name` is a normal component of `p`.
pub open spec fn path_has_component(p: Seq<u8>, name: Seq<u8>) -> bool {
    path_components(p).contains(Component::Normal(name))
}

/// Some entry of `names` is a normal component of `p`.
pub open spec fn path_has_any_component(p: Seq<u8>, names: Seq<Seq<u8>>) -> bool {
    exists|i: int| 0 <= i < names.len() && path_has_component(p, #[trigger] names[i])
}

/// The UTF-8 bytes of each string in a list.
pub open spec fn strs_bytes(list: Seq<&str>) -> Seq<Seq<u8>> {
    list.map_values(|s: &str| s.spec_bytes())
}

/// The components of `base` are the first components of `p`.
pub open spec fn path_starts_with(p: Seq<u8>, base: Seq<u8>) -> bool {
    path_components(base).is_prefix_of(path_components(p))
}

/// The order of bytes.
pub open spec fn byte_order() -> spec_fn(u8, u8) -> Comparison {
    |x: u8, y: u8| compare_int(x as int, y as int)
}

/// Root before current directory before parent directory before normal components.
pub open spec fn component_rank(c: Component) -> int {
    match c {
        Component::RootDir => 0,
        Component::CurDir => 1,
        Component::ParentDir => 2,
        Component::Normal(_) => 3,
    }
}

/// The order of components: by kind, then normal components by their bytes.
pub open spec fn component_compare(a: Component, b: Component) -> Comparison {
    if component_rank(a) != component_rank(b) {
        compare_int(component_rank(a), component_rank(b))
    } else {
        match (a, b) {
            (Component::Normal(x), Component::Normal(y)) => lex_compare(x, y, byte_order()),
            _ => Comparison::Equal,
        }
    }
}

pub open spec fn component_order() -> spec_fn(Component, Component) -> Comparison {
    |a: Component, b: Component| component_compare(a, b)
}

/// The order of paths: lexicographic over their components.
pub open spec fn path_compare(a: Seq<u8>, b: Seq<u8>) -> Comparison {
    lex_compare(path_components(a), path_components(b), component_order())
}

/// A piece that names a component.
pub open spec fn is_component_piece(piece: Seq<u8>) -> bool {
    piece.len() > 0 && piece != seq![DOT]
}

/// The offsets in `p` at which the pieces that name components end, for the
/// pieces that a `/` follows.
pub open spec fn closed_component_ends(p: Seq<u8>) -> Seq<int>
    decreases p.len(),
{
    if p.len() == 0 {
        Seq::<int>::empty()
    } else {
        let q = p.drop_last();
        if p.last() == SLASH && is_component_piece(path_pieces(q).last()) {
            closed_component_ends(q).push(q.len() as int)
        } else {
            closed_component_ends(q)
        }
    }
}

/// The offsets in `p` at which the pieces that name components end.
pub open spec fn component_ends(p: Seq<u8>) -> Seq<int> {
    if is_component_piece(path_pieces(p).last()) {
        closed_component_ends(p).push(p.len() as int)
    } else {
        closed_component_ends(p)
    }
}

/// Where the pieces of `p` start: after a leading `/` or a leading `.` piece.
pub open spec fn body_start(p: Seq<u8>) -> int {
    if has_root(p) || has_cur_dir(p) {
        1
    } else {
        0
    }
}

/// The length in bytes of the parent of `p` (the path without its last
/// component, shortened past trailing separators and `.` pieces), and 0
/// where `p` has no parent: where its body names no component.
pub open spec fn parent_len(p: Seq<u8>) -> int {
    let e = component_ends(p);
    if e.len() == 0 {
        0
    } else if e.len() == 1 {
        body_start(p)
    } else {
        e[e.len() - 2]
    }
}

/// The length in bytes of the file name of `p`: its last component where
/// that is a normal one, and 0 otherwise.
pub open spec fn file_name_len(p: Seq<u8>) -> int {
    let c = path_components(p);
    if c.len() > 0 && c.last() is Normal {
        c.last()->Normal_0.len() as int
    } else {
        0
    }
}

pub proof fn lemma_pieces_nonempty(p: Seq<u8>)
    ensures
        path_pieces(p).len() >= 1,
    decreases p.len(),
{
    if p.len() > 0 {
        lemma_pieces_nonempty(p.drop_last());
    }
}

/// How the pieces grow by one byte.
pub proof fn lemma_pieces_step(p: Seq<u8>, i: int)
    requires
        0 <= i < p.len(),
    ensures
        path_pieces(p.take(i)).len() >= 1,
        path_pieces(p.take(i + 1)).len() >= 1,
        p[i] == SLASH ==> path_pieces(p.take(i + 1)) == path_pieces(p.take(i)).push(
            Seq::<u8>::empty(),
        ),
        p[i] != SLASH ==> path_pieces(p.take(i + 1)).drop_last() == path_pieces(
            p.take(i),
        ).drop_last(),
        p[i] != SLASH ==> path_pieces(p.take(i + 1)).last() == path_pieces(p.take(i)).last().push(
            p[i],
        ),
        closed_component_ends(p.take(i + 1)) == (if p[i] == SLASH && is_component_piece(
            path_pieces(p.take(i)).last(),
        ) {
            closed_component_ends(p.take(i)).push(i)
        } else {
            closed_component_ends(p.take(i))
        }),
{
    lemma_pieces_nonempty(p.take(i));
    lemma_pieces_nonempty(p.take(i + 1));
    assert(p.take(i + 1).drop_last() =~= p.take(i));
    assert(p.take(i + 1).last() == p[i]);
    let prev = path_pieces(p.take(i));
    if p[i] != SLASH {
        assert(prev.drop_last().push(prev.last().push(p[i])).drop_last() =~= prev.drop_last());
    }
}

pub proof fn lemma_byte_order_total()
    ensures
        is_total_order(byte_order()),
{
}

pub proof fn lemma_component_order_total()
    ensures
        is_total_order(component_order()),
{
    lemma_byte_order_total();
    assert forall|x: Component, y: Component|
        #[trigger] component_order()(x, y) == component_order()(y, x).flip() by {
        if let (Component::Normal(a), Component::Normal(b)) = (x, y) {
            lemma_lex_flip(a, b, byte_order());
        }
    }
    assert forall|x: Component, y: Component|
        #[trigger] component_order()(x, y) == Comparison::Equal <==> x == y by {
        if let (Component::Normal(a), Component::Normal(b)) = (x, y) {
            lemma_lex_equal(a, b, byte_order());
        }
    }
    assert forall|x: Component, y: Component, z: Component|
        #[trigger] component_order()(x, y) == Comparison::Less && #[trigger] component_order()(
            y,
            z,
        ) == Comparison::Less implies component_order()(x, z) == Comparison::Less by {
        if let (Component::Normal(a), Component::Normal(b), Component::Normal(c)) = (x, y, z) {
            lemma_lex_trans(a, b, c, byte_order());
        }
    }
}

/// Compares two byte strings lexicographically.
pub fn compare_bytes(a: &[u8], b: &[u8]) -> (r: Comparison)
    ensures
        r == lex_compare(a@, b@, byte_order()),
{
    let mut i: usize = 0;
    assert(a@.skip(0) =~= a@);
    assert(b@.skip(0) =~= b@);
    loop
        invariant
            i <= a.len(),
            i <= b.len(),
            lex_compare(a@, b@, byte_order()) == lex_compare(a@.skip(i as int), b@.skip(i as int), byte_order()),
        decreases a.len() - i,
    {
        if i == a.len() {
            if i == b.len() {
                return Comparison::Equal;
            } else {
                return Comparison::Less;
            }
        } else if i == b.len() {
            return Comparison::Greater;
        }
        assert(a@.skip(i as int)[0] == a[i as int]);
        assert(b@.skip(i as int)[0] == b[i as int]);
        if a[i] < b[i] {
            return Comparison::Less;
        } else if a[i] > b[i] {
            return Comparison::Greater;
        }
        assert(a@.skip(i as int).drop_first() =~= a@.skip(i + 1));
        assert(b@.skip(i as int).drop_first() =~= b@.skip(i + 1));
        i = i + 1;
    }
}

/// Whether two byte strings are equal.
pub fn bytes_equal(a: &[u8], b: &[u8]) -> (r: bool)
    ensures
        r == (a@ == b@),
{
    proof {
        lemma_byte_order_total();
        lemma_lex_equal(a@, b@, byte_order());
    }
    compare_bytes(a, b) == Comparison::Equal
}

fn component_rank_of(c: &PathComponent) -> (r: u8)
    ensures
        r as int == component_rank(c@),
{
    match c {
        PathComponent::RootDir => 0,
        PathComponent::CurDir => 1,
        PathComponent::ParentDir => 2,
        PathComponent::Normal(_) => 3,
    }
}

/// Compares two components.
pub fn compare_components(a: &PathComponent, b: &PathComponent) -> (r: Comparison)
    ensures
        r == component_compare(a@, b@),
{
    let ra = component_rank_of(a);
    let rb = component_rank_of(b);
    if ra < rb {
        Comparison::Less
    } else if ra > rb {
        Comparison::Greater
    } else {
        match (a, b) {
            (PathComponent::Normal(x), PathComponent::Normal(y)) => compare_bytes(
                x.as_slice(),
                y.as_slice(),
            ),
            _ => Comparison::Equal,
        }
    }
}

/// Appends the component that `piece` names, if any.
fn push_piece(comps: &mut Vec<PathComponent>, piece: Vec<u8>)
    ensures
        components_view(final(comps)@) == components_view(old(comps)@) + piece_component(piece@),
{
    let n = piece.len();
    let is_dot = n == 1 && piece[0] == DOT;
    let is_dot_dot = n == 2 && piece[0] == DOT && piece[1] == DOT;
    proof {
        if is_dot {
            assert(piece@ =~= seq![DOT]);
        }
        if is_dot_dot {
            assert(piece@ =~= seq![DOT, DOT]);
        }
        if piece@ == seq![DOT] {
            assert(piece@[0] == DOT);
        }
        if piece@ == seq![DOT, DOT] {
            assert(piece@[0] == DOT && piece@[1] == DOT);
        }
    }
    let ghost old_view = components_view(comps@);
    if n == 0 || is_dot {
        assert(components_view(comps@) =~= old_view + piece_component(piece@));
    } else if is_dot_dot {
        comps.push(PathComponent::ParentDir);
        assert(components_view(comps@) =~= old_view + piece_component(piece@));
    } else {
        comps.push(PathComponent::Normal(piece));
        assert(components_view(comps@) =~= old_view + piece_component(piece@));
    }
}

/// The components of a path.
pub fn components_of(p: &[u8]) -> (r: Vec<PathComponent>)
    ensures
        components_view(r@) == path_components(p@),
{
    let n = p.len();
    let mut comps: Vec<PathComponent> = Vec::new();
    if n > 0 && p[0] == SLASH {
        comps.push(PathComponent::RootDir);
    } else if n > 0 && p[0] == DOT && (n == 1 || p[1] == SLASH) {
        comps.push(PathComponent::CurDir);
    }
    assert(components_view(comps@) =~= head_components(p@));
    assert(path_pieces(p@.take(0)) =~= seq![Seq::<u8>::empty()]);
    assert(path_pieces(p@.take(0)).drop_last() =~= Seq::<Seq<u8>>::empty());
    let mut cur: Vec<u8> = Vec::new();
    let mut i: usize = 0;
    while i < n
        invariant
            n == p.len(),
            i <= n,
            path_pieces(p@.take(i as int)).len() >= 1,
            cur@ == path_pieces(p@.take(i as int)).last(),
            components_view(comps@) == head_components(p@) + body_components(
                path_pieces(p@.take(i as int)).drop_last(),
            ),
        decreases n - i,
    {
        proof {
            lemma_pieces_step(p@, i as int);
        }
        let ghost prev = path_pieces(p@.take(i as int));
        if p[i] == SLASH {
            let mut piece: Vec<u8> = Vec::new();
            std::mem::swap(&mut piece, &mut cur);
            push_piece(&mut comps, piece);
            proof {
                assert(prev.push(Seq::<u8>::empty()).drop_last() =~= prev);
                assert(prev =~= prev.drop_last().push(prev.last()));
                assert(body_components(prev) == body_components(prev.drop_last()) + piece_component(prev.last()));
                assert(components_view(comps@) =~= head_components(p@) + body_components(prev));
            }
        } else {
            cur.push(p[i]);
        }
        i = i + 1;
    }
    let ghost all = path_pieces(p@.take(n as int));
    assert(p@.take(n as int) =~= p@);
    push_piece(&mut comps, cur);
    assert(components_view(comps@) =~= head_components(p@) + body_components(all));
    comps
}

/// Compares two lists of components lexicographically.
pub fn compare_component_lists(a: &Vec<PathComponent>, b: &Vec<PathComponent>) -> (r: Comparison)
    ensures
        r == lex_compare(components_view(a@), components_view(b@), component_order()),
{
    let ghost av = components_view(a@);
    let ghost bv = components_view(b@);
    let mut i: usize = 0;
    assert(av.skip(0) =~= av);
    assert(bv.skip(0) =~= bv);
    loop
        invariant
            av == components_view(a@),
            bv == components_view(b@),
            i <= a.len(),
            i <= b.len(),
            lex_compare(av, bv, component_order()) == lex_compare(
                av.skip(i as int),
                bv.skip(i as int),
                component_order(),
            ),
        decreases a.len() - i,
    {
        if i == a.len() {
            if i == b.len() {
                return Comparison::Equal;
            } else {
                return Comparison::Less;
            }
        } else if i == b.len() {
            return Comparison::Greater;
        }
        assert(av.skip(i as int)[0] == a@[i as int]@);
        assert(bv.skip(i as int)[0] == b@[i as int]@);
        let c = compare_components(&a[i], &b[i]);
        if c != Comparison::Equal {
            return c;
        }
        assert(av.skip(i as int).drop_first() =~= av.skip(i + 1));
        assert(bv.skip(i as int).drop_first() =~= bv.skip(i + 1));
        i = i + 1;
    }
}

/// Compares two paths by their components.
pub fn compare_paths(a: &[u8], b: &[u8]) -> (r: Comparison)
    ensures
        r == path_compare(a@, b@),
{
    let ca = components_of(a);
    let cb = components_of(b);
    compare_component_lists(&ca, &cb)
}

/// Whether `name` is a normal component of the path `p`.
pub fn has_component(p: &[u8], name: &[u8]) -> (r: bool)
    ensures
        r == path_has_component(p@, name@),
{
    let comps = components_of(p);
    let ghost cv = components_view(comps@);
    let mut i: usize = 0;
    while i < comps.len()
        invariant
            cv == components_view(comps@),
            cv == path_components(p@),
            i <= comps.len(),
            forall|j: int| 0 <= j < i ==> cv[j] != Component::Normal(name@),
        decreases comps.len() - i,
    {
        assert(cv[i as int] == comps@[i as int]@);
        match &comps[i] {
            PathComponent::Normal(x) => {
                if bytes_equal(x.as_slice(), name) {
                    assert(cv[i as int] == Component::Normal(name@));
                    return true;
                }
            },
            _ => {},
        }
        i = i + 1;
    }
    false
}

/// Whether the components of `base` are the first components of `p`.
pub fn starts_with(p: &[u8], base: &[u8]) -> (r: bool)
    ensures
        r == path_starts_with(p@, base@),
{
    let cp = components_of(p);
    let cb = components_of(base);
    let ghost pv = components_view(cp@);
    let ghost bv = components_view(cb@);
    if cb.len() > cp.len() {
        return false;
    }
    let mut i: usize = 0;
    while i < cb.len()
        invariant
            pv == components_view(cp@),
            bv == components_view(cb@),
            pv == path_components(p@),
            bv == path_components(base@),
            cb.len() <= cp.len(),
            i <= cb.len(),
            forall|j: int| 0 <= j < i ==> bv[j] == pv[j],
        decreases cb.len() - i,
    {
        proof {
            lemma_component_order_total();
        }
        assert(bv[i as int] == cb@[i as int]@);
        assert(pv[i as int] == cp@[i as int]@);
        assert(component_order()(bv[i as int], pv[i as int]) == component_compare(bv[i as int], pv[i as int]));
        if compare_components(&cb[i], &cp[i]) != Comparison::Equal {
            assert(bv[i as int] != pv[i as int]);
            assert(bv.is_prefix_of(pv) ==> bv[i as int] == pv.subrange(0, bv.len() as int)[i as int]);
            return false;
        }
        i = i + 1;
    }
    assert(bv =~= pv.subrange(0, bv.len() as int));
    true
}

/// The length in bytes of the parent of the path `p` (0 where it has none).
pub fn parent_len_of(p: &[u8]) -> (r: usize)
    ensures
        r as int == parent_len(p@),
{
    let n = p.len();
    let root_or_cur = n > 0 && (p[0] == SLASH || (p[0] == DOT && (n == 1 || p[1] == SLASH)));
    let mut piece_start: usize = 0;
    let mut count: usize = 0;
    let mut last_end: usize = 0;
    let mut prev_end: usize = 0;
    let mut i: usize = 0;
    assert(path_pieces(p@.take(0)) =~= seq![Seq::<u8>::empty()]);
    assert(p@.subrange(0, 0) =~= Seq::<u8>::empty());
    assert(closed_component_ends(p@.take(0)) =~= Seq::<int>::empty());
    while i < n
        invariant
            n == p.len(),
            i <= n,
            piece_start <= i,
            path_pieces(p@.take(i as int)).len() >= 1,
            path_pieces(p@.take(i as int)).last() == p@.subrange(piece_start as int, i as int),
            count <= 2,
            ({
                let e = closed_component_ends(p@.take(i as int));
                &&& (e.len() == 0 <==> count == 0)
                &&& (e.len() == 1 <==> count == 1)
                &&& (e.len() >= 2 <==> count == 2)
                &&& e.len() >= 1 ==> last_end as int == e.last()
                &&& e.len() >= 2 ==> prev_end as int == e[e.len() - 2]
                &&& forall|k: int| 0 <= k < e.len() ==> e[k] <= i
            }),
        decreases n - i,
    {
        proof {
            lemma_pieces_step(p@, i as int);
        }
        if p[i] == SLASH {
            let len = i - piece_start;
            let is_component = len > 0 && !(len == 1 && p[piece_start] == DOT);
            proof {
                let piece = p@.subrange(piece_start as int, i as int);
                assert(piece.len() == len);
                if piece == seq![DOT] {
                    assert(seq![DOT][0] == DOT);
                    assert(piece[0] == p[piece_start as int]);
                }
                if len == 1 && p[piece_start as int] == DOT {
                    assert(piece =~= seq![DOT]);
                }
                assert(is_component == is_component_piece(piece));
            }
            if is_component {
                if count >= 1 {
                    prev_end = last_end;
                }
                last_end = i;
                if count < 2 {
                    count = count + 1;
                }
            }
            piece_start = i + 1;
            assert(p@.subrange(piece_start as int, i + 1) =~= Seq::<u8>::empty());
        } else {
            assert(p@.subrange(piece_start as int, i + 1) =~= p@.subrange(piece_start as int, i as int).push(p[i as int]));
        }
        i = i + 1;
    }
    assert(p@.take(n as int) =~= p@);
    let len = n - piece_start;
    let last_is_component = len > 0 && !(len == 1 && p[piece_start] == DOT);
    proof {
        let piece = p@.subrange(piece_start as int, n as int);
        assert(piece.len() == len);
        if piece == seq![DOT] {
            assert(seq![DOT][0] == DOT);
            assert(piece[0] == p[piece_start as int]);
        }
        if len == 1 && p[piece_start as int] == DOT {
            assert(piece =~= seq![DOT]);
        }
        assert(last_is_component == is_component_piece(piece));
    }
    if last_is_component {
        if count >= 1 {
            prev_end = last_end;
        }
        last_end = n;
        if count < 2 {
            count = count + 1;
        }
    }
    if count == 0 {
        0
    } else if count == 1 {
        if root_or_cur {
            1
        } else {
            0
        }
    } else {
        prev_end
    }
}

/// The length in bytes of the file name of the path `p` (0 where it has none).
pub fn file_name_len_of(p: &[u8]) -> (r: usize)
    ensures
        r as int == file_name_len(p@),
{
    let comps = components_of(p);
    let n = comps.len();
    if n == 0 {
        return 0;
    }
    assert(components_view(comps@).last() == comps@[n - 1]@);
    match &comps[n - 1] {
        PathComponent::Normal(x) => x.len(),
        _ => 0,
    }
}

/// Whether some string of `names` is a normal component of the path `p`.
pub fn has_any_component(p: &[u8], names: &Vec<&str>) -> (r: bool)
    ensures
        r == path_has_any_component(p@, strs_bytes(names@)),
{
    let ghost nb = strs_bytes(names@);
    let mut i: usize = 0;
    while i < names.len()
        invariant
            nb == strs_bytes(names@),
            i <= names.len(),
            forall|j: int| 0 <= j < i ==> !path_has_component(p@, #[trigger] nb[j]),
        decreases names.len() - i,
    {
        let name: &str = names[i];
        assert(nb[i as int] == name.spec_bytes());
        if has_component(p, name.as_bytes()) {
            assert(path_has_component(p@, nb[i as int]));
            return true;
        }
        i = i + 1;
    }
    false
}

/// Splitting a path at a `/` splits its pieces.
pub proof fn lemma_pieces_split(q: Seq<u8>, r: Seq<u8>)
    ensures
        path_pieces(q + seq![SLASH] + r) == path_pieces(q) + path_pieces(r),
    decreases r.len(),
{
    let p = q + seq![SLASH] + r;
    lemma_pieces_nonempty(q);
    lemma_pieces_nonempty(r);
    if r.len() == 0 {
        assert(p.drop_last() =~= q);
        assert(path_pieces(r) =~= seq![Seq::<u8>::empty()]);
        assert(path_pieces(q).push(Seq::<u8>::empty()) =~= path_pieces(q) + path_pieces(r));
    } else {
        let r0 = r.drop_last();
        assert(p.drop_last() =~= q + seq![SLASH] + r0);
        lemma_pieces_split(q, r0);
        lemma_pieces_nonempty(r0);
        let a = path_pieces(q);
        let b = path_pieces(r0);
        if r.last() == SLASH {
            assert((a + b).push(Seq::<u8>::empty()) =~= a + b.push(Seq::<u8>::empty()));
        } else {
            assert((a + b).drop_last().push((a + b).last().push(r.last())) =~= a + b.drop_last().push(
                b.last().push(r.last()),
            ));
        }
    }
}

/// The components named by two runs of pieces, one after the other.
pub proof fn lemma_body_add(a: Seq<Seq<u8>>, b: Seq<Seq<u8>>)
    ensures
        body_components(a + b) == body_components(a) + body_components(b),
    decreases b.len(),
{
    if b.len() == 0 {
        assert(a + b =~= a);
        assert(body_components(a) + body_components(b) =~= body_components(a));
    } else {
        assert((a + b).drop_last() =~= a + b.drop_last());
        assert((a + b).last() == b.last());
        lemma_body_add(a, b.drop_last());
        assert(body_components(a) + body_components(b.drop_last()) + piece_component(b.last()) =~= body_components(a)
            + (body_components(b.drop_last()) + piece_component(b.last())));
    }
}

/// A path names one component per piece that names one.
pub proof fn lemma_body_len(p: Seq<u8>)
    ensures
        body_components(path_pieces(p).drop_last()).len() == closed_component_ends(p).len(),
        body_components(path_pieces(p)).len() == component_ends(p).len(),
    decreases p.len(),
{
    lemma_pieces_nonempty(p);
    if p.len() > 0 {
        let q = p.drop_last();
        lemma_body_len(q);
        lemma_pieces_nonempty(q);
        let prev = path_pieces(q);
        if p.last() == SLASH {
            assert(prev.push(Seq::<u8>::empty()).drop_last() =~= prev);
        } else {
            assert(prev.drop_last().push(prev.last().push(p.last())).drop_last() =~= prev.drop_last());
        }
    } else {
        assert(path_pieces(p).drop_last() =~= Seq::<Seq<u8>>::empty());
    }
    let last = path_pieces(p).last();
    if last == seq![DOT] {
        assert(last.len() == 1);
    }
}

/// The recorded ends are increasing offsets of `/` bytes, each ending a
/// piece that names a component.
pub proof fn lemma_closed_ends_shape(p: Seq<u8>)
    ensures
        forall|k: int| 0 <= k < closed_component_ends(p).len() ==> 0 <= #[trigger] closed_component_ends(p)[k] < p.len(),
        forall|k: int, l: int|
            0 <= k < l < closed_component_ends(p).len() ==> #[trigger] closed_component_ends(p)[k]
                < #[trigger] closed_component_ends(p)[l],
        forall|k: int|
            0 <= k < closed_component_ends(p).len() ==> p[#[trigger] closed_component_ends(p)[k]] == SLASH
                && is_component_piece(path_pieces(p.take(closed_component_ends(p)[k])).last()),
    decreases p.len(),
{
    if p.len() > 0 {
        let q = p.drop_last();
        lemma_closed_ends_shape(q);
        assert(p.take(q.len() as int) =~= q);
        assert forall|k: int| 0 <= k < closed_component_ends(q).len() implies p.take(closed_component_ends(q)[k])
            =~= q.take(closed_component_ends(q)[k]) by {}
    }
}

/// The recorded ends of a prefix are the first recorded ends of the whole,
/// and the others lie at or beyond the prefix.
pub proof fn lemma_closed_ends_prefix(p: Seq<u8>, i: int)
    requires
        0 <= i <= p.len(),
    ensures
        closed_component_ends(p.take(i)).len() <= closed_component_ends(p).len(),
        closed_component_ends(p.take(i)) == closed_component_ends(p).take(closed_component_ends(p.take(i)).len() as int),
        forall|k: int|
            closed_component_ends(p.take(i)).len() <= k < closed_component_ends(p).len() ==> i
                <= #[trigger] closed_component_ends(p)[k],
    decreases p.len(),
{
    if i == p.len() {
        assert(p.take(i) =~= p);
        assert(closed_component_ends(p).take(closed_component_ends(p).len() as int) =~= closed_component_ends(p));
    } else {
        let q = p.drop_last();
        assert(p.take(i) =~= q.take(i));
        lemma_closed_ends_prefix(q, i);
        let a = closed_component_ends(q);
        let m = closed_component_ends(q.take(i)).len() as int;
        if p.last() == SLASH && is_component_piece(path_pieces(q).last()) {
            assert(a.push(q.len() as int).take(m) =~= a.take(m));
        }
    }
}

/// The components named by one piece, or two.
proof fn lemma_body_short(a: Seq<u8>, b: Seq<u8>)
    ensures
        body_components(seq![a]) == piece_component(a),
        body_components(seq![a, b]) == piece_component(a) + piece_component(b),
{
    let one = seq![a];
    let two = seq![a, b];
    assert(one.drop_last() =~= Seq::<Seq<u8>>::empty());
    assert(two.drop_last() =~= one);
    assert(one.last() == a);
    assert(two.last() == b);
    assert(body_components(Seq::<Seq<u8>>::empty()) =~= Seq::<Component>::empty());
    assert(body_components(one) == body_components(one.drop_last()) + piece_component(a));
    assert(Seq::<Component>::empty() + piece_component(a) =~= piece_component(a));
    assert(body_components(two) == body_components(two.drop_last()) + piece_component(b));
}

/// The parent of a path names the components of the path but its last.
pub proof fn lemma_parent_drops_last_component(p: Seq<u8>)
    requires
        path_components(p).len() > 0,
    ensures
        0 <= parent_len(p) <= p.len(),
        path_components(p.take(parent_len(p))) == path_components(p).drop_last(),
{
    let e = component_ends(p);
    let ce = closed_component_ends(p);
    lemma_body_len(p);
    lemma_closed_ends_shape(p);
    lemma_pieces_nonempty(p);
    let comps = path_components(p);
    if e.len() == 0 {
        assert(body_components(path_pieces(p)).len() == 0);
        assert(p.take(0) =~= Seq::<u8>::empty());
        assert(path_pieces(Seq::<u8>::empty()) =~= seq![Seq::<u8>::empty()]);
        lemma_body_short(Seq::<u8>::empty(), Seq::<u8>::empty());
        assert(piece_component(Seq::<u8>::empty()) =~= Seq::<Component>::empty());
        assert(body_components(path_pieces(Seq::<u8>::empty())) =~= Seq::<Component>::empty());
        assert(path_components(p.take(0)) =~= Seq::<Component>::empty());
        assert(comps =~= head_components(p));
        assert(comps.drop_last() =~= Seq::<Component>::empty());
    } else if e.len() == 1 {
        let b = body_start(p);
        let q = p.take(b);
        lemma_body_short(Seq::<u8>::empty(), Seq::<u8>::empty());
        lemma_body_short(seq![DOT], Seq::<u8>::empty());
        assert(piece_component(Seq::<u8>::empty()) =~= Seq::<Component>::empty());
        assert(piece_component(seq![DOT]) =~= Seq::<Component>::empty());
        assert(comps.drop_last() =~= head_components(p));
        if b == 0 {
            assert(q =~= Seq::<u8>::empty());
            assert(path_pieces(q) =~= seq![Seq::<u8>::empty()]);
            assert(path_pieces(q).drop_last() =~= Seq::<Seq<u8>>::empty());
            assert(body_components(path_pieces(q)) =~= Seq::<Component>::empty());
            assert(path_components(q) =~= Seq::<Component>::empty());
        } else {
            assert(q.drop_last() =~= Seq::<u8>::empty());
            assert(path_pieces(Seq::<u8>::empty()) =~= seq![Seq::<u8>::empty()]);
            assert(path_pieces(Seq::<u8>::empty()).drop_last() =~= Seq::<Seq<u8>>::empty());
            if has_root(p) {
                assert(q.last() == SLASH);
                assert(path_pieces(q) =~= seq![Seq::<u8>::empty(), Seq::<u8>::empty()]);
                assert(path_pieces(q).drop_last() =~= seq![Seq::<u8>::empty()]);
                assert(path_pieces(q).drop_last().drop_last() =~= Seq::<Seq<u8>>::empty());
            } else {
                assert(q.last() == DOT);
                assert(path_pieces(q) =~= seq![seq![DOT]]);
                assert(seq![Seq::<u8>::empty().push(DOT)] =~= seq![seq![DOT]]);
                assert(path_pieces(q).drop_last() =~= Seq::<Seq<u8>>::empty());
            }
            assert(body_components(path_pieces(q)) =~= Seq::<Component>::empty());
            assert(path_components(q) =~= head_components(q));
            assert(head_components(q) == head_components(p));
        }
    } else {
        let l = e[e.len() - 2];
        let t = e.len() - 2;
        assert(l == ce[t]);
        assert(p[l] == SLASH);
        let q = p.take(l);
        let r = p.skip(l + 1);
        assert(p =~= q + seq![SLASH] + r);
        lemma_pieces_split(q, r);
        lemma_body_add(path_pieces(q), path_pieces(r));
        lemma_body_len(q);
        lemma_closed_ends_prefix(p, l);
        lemma_closed_ends_shape(q);
        let cq = closed_component_ends(q);
        // The recorded ends of the prefix are those before `l`.
        assert(cq.len() == t) by {
            if cq.len() > t {
                assert(cq[t] == ce[t]);
                assert(cq[t] < q.len());
            }
            if cq.len() < t {
                assert(ce[cq.len() as int] < ce[t]);
                assert(l <= ce[cq.len() as int]);
            }
        }
        assert(is_component_piece(path_pieces(q).last()));
        assert(component_ends(q).len() == t + 1);
        assert(body_components(path_pieces(r)).len() == 1);
        assert(q.len() >= 1) by {
            assert(path_pieces(p.take(l)).last().len() > 0);
            if l == 0 {
                assert(p.take(0) =~= Seq::<u8>::empty());
                assert(path_pieces(Seq::<u8>::empty()) =~= seq![Seq::<u8>::empty()]);
            }
        }
        assert(head_components(q) == head_components(p)) by {
            assert(q[0] == p[0]);
            if q.len() == 1 {
                assert(p[1] == SLASH);
            } else {
                assert(q[1] == p[1]);
            }
        }
        assert(comps.drop_last() =~= path_components(q));
    }
}

/// The parent of `p` is text: its bytes are valid UTF-8.
pub open spec fn parent_is_text(p: Seq<u8>) -> bool {
    valid_utf8(p.take(parent_len(p)))
}

/// A name that can be a normal component: not empty, not `.`, not `..`.
pub open spec fn is_plain_name(n: Seq<u8>) -> bool {
    n.len() > 0 && n != seq![DOT] && n != seq![DOT, DOT]
}

proof fn lemma_contains_add<T>(a: Seq<T>, b: Seq<T>, x: T)
    ensures
        (a + b).contains(x) <==> a.contains(x) || b.contains(x),
{
    if (a + b).contains(x) {
        let i = choose|i: int| 0 <= i < (a + b).len() && (a + b)[i] == x;
        if i < a.len() {
            assert(a[i] == x);
        } else {
            assert(b[i - a.len()] == x);
        }
    }
    if a.contains(x) {
        let i = choose|i: int| 0 <= i < a.len() && a[i] == x;
        assert((a + b)[i] == x);
    }
    if b.contains(x) {
        let i = choose|i: int| 0 <= i < b.len() && b[i] == x;
        assert((a + b)[a.len() + i] == x);
    }
}

/// The normal components named by a list of pieces are its plain pieces.
proof fn lemma_body_contains_normal(pieces: Seq<Seq<u8>>, n: Seq<u8>)
    ensures
        body_components(pieces).contains(Component::Normal(n)) <==> (is_plain_name(n) && pieces.contains(n)),
    decreases pieces.len(),
{
    if pieces.len() == 0 {
        assert(body_components(pieces) =~= Seq::<Component>::empty());
    } else {
        let rest = pieces.drop_last();
        let last = pieces.last();
        lemma_body_contains_normal(rest, n);
        lemma_contains_add(body_components(rest), piece_component(last), Component::Normal(n));
        assert(pieces =~= rest.push(last));
        lemma_contains_add(rest, seq![last], n);
        assert(rest + seq![last] =~= pieces);
        if seq![last].contains(n) {
            assert(seq![last][0] == last);
        }
        assert(seq![last][0] == last);
        if last == n && is_plain_name(n) {
            assert(piece_component(last) == seq![Component::Normal(n)]);
            assert(piece_component(last)[0] == Component::Normal(n));
        }
        if piece_component(last).contains(Component::Normal(n)) {
            assert(piece_component(last).len() > 0);
            if last == seq![DOT, DOT] {
                assert(piece_component(last) =~= seq![Component::ParentDir]);
            }
        }
    }
}

/// A name is a component of a path exactly when it is a plain name and one
/// of the pieces between the path's separators is that name, byte for byte.
pub proof fn lemma_component_is_whole_piece(p: Seq<u8>, name: Seq<u8>)
    ensures
        path_has_component(p, name) <==> (is_plain_name(name) && path_pieces(p).contains(name)),
{
    lemma_body_contains_normal(path_pieces(p), name);
    lemma_contains_add(head_components(p), body_components(path_pieces(p)), Component::Normal(name));
    if head_components(p).contains(Component::Normal(name)) {
        assert(head_components(p).len() == 1);
        assert(head_components(p)[0] != Component::Normal(name));
    }
}

/// Whether some name of a list is a component: exactly when one of its
/// entries, whichever, is a component; the empty list never matches, and
/// adding a name adds exactly its own match.
pub proof fn lemma_any_component_is_some_entry(p: Seq<u8>, names: Seq<Seq<u8>>, extra: Seq<u8>)
    ensures
        path_has_any_component(p, names) <==> exists|i: int|
            0 <= i < names.len() && path_has_component(p, #[trigger] names[i]),
        forall|i: int| 0 <= i < names.len() && path_has_component(p, #[trigger] names[i]) ==> path_has_any_component(p, names),
        !path_has_any_component(p, Seq::<Seq<u8>>::empty()),
        path_has_any_component(p, names.push(extra)) == (path_has_any_component(p, names) || path_has_component(p, extra)),
{
    let m = names.push(extra);
    if path_has_any_component(p, m) {
        let i = choose|i: int| 0 <= i < m.len() && path_has_component(p, #[trigger] m[i]);
        if i < names.len() {
            assert(m[i] == names[i]);
        }
    }
    if path_has_any_component(p, names) {
        let i = choose|i: int| 0 <= i < names.len() && path_has_component(p, #[trigger] names[i]);
        assert(m[i] == names[i]);
    }
    if path_has_component(p, extra) {
        assert(m[names.len() as int] == extra);
    }
}

/// Byte strings are ordered by their first differing byte, numerically.
pub proof fn lemma_bytes_first_difference(a: Seq<u8>, b: Seq<u8>, i: int)
    requires
        0 <= i < a.len(),
        i < b.len(),
        a.take(i) == b.take(i),
        a[i] != b[i],
    ensures
        lex_compare(a, b, byte_order()) == (if a[i] < b[i] { Comparison::Less } else { Comparison::Greater }),
    decreases i,
{
    if i > 0 {
        assert(a[0] == a.take(i)[0] && b[0] == b.take(i)[0]);
        assert(a.drop_first().take(i - 1) =~= b.drop_first().take(i - 1)) by {
            assert forall|k: int| 0 <= k < i - 1 implies a.drop_first()[k] == b.drop_first()[k] by {
                assert(a.drop_first()[k] == a[k + 1]);
                assert(b.drop_first()[k] == b[k + 1]);
                assert(a.take(i)[k + 1] == a[k + 1]);
                assert(b.take(i)[k + 1] == b[k + 1]);
                assert(a.take(i)[k + 1] == b.take(i)[k + 1]);
            }
        }
        lemma_bytes_first_difference(a.drop_first(), b.drop_first(), i - 1);
    }
}

/// A byte string comes before every longer string that it begins.
pub proof fn lemma_bytes_proper_prefix(a: Seq<u8>, b: Seq<u8>)
    requires
        a.len() < b.len(),
        b.take(a.len() as int) == a,
    ensures
        lex_compare(a, b, byte_order()) == Comparison::Less,
    decreases a.len(),
{
    if a.len() > 0 {
        assert(a[0] == b.take(a.len() as int)[0]);
        assert(b.drop_first().take(a.drop_first().len() as int) =~= a.drop_first()) by {
            assert forall|k: int| 0 <= k < a.len() - 1 implies b.drop_first()[k] == a.drop_first()[k] by {
                assert(b.take(a.len() as int)[k + 1] == a[k + 1]);
            }
        }
        lemma_bytes_proper_prefix(a.drop_first(), b.drop_first());
    }
}

/// A plain name without separators is a single piece.
proof fn lemma_pieces_of_name(x: Seq<u8>)
    requires
        forall|k: int| 0 <= k < x.len() ==> x[k] != SLASH,
    ensures
        path_pieces(x) == seq![x],
    decreases x.len(),
{
    if x.len() == 0 {
        assert(x =~= Seq::<u8>::empty());
        assert(path_pieces(x) =~= seq![x]);
    } else {
        let q = x.drop_last();
        lemma_pieces_of_name(q);
        let prev = path_pieces(q);
        assert(prev.last() == q);
        assert(prev.drop_last() =~= Seq::<Seq<u8>>::empty());
        assert(q.push(x.last()) =~= x);
        assert(x.last() != SLASH);
        assert(prev.drop_last().push(prev.last().push(x.last())) =~= seq![x]);
    }
}

/// The components of `x/r` for a plain name `x` without separators: `x`, then those of `r`.
proof fn lemma_components_after_name(x: Seq<u8>, r: Seq<u8>)
    requires
        is_plain_name(x),
        forall|k: int| 0 <= k < x.len() ==> x[k] != SLASH,
    ensures
        path_components(x + seq![SLASH] + r).len() > 0,
        path_components(x + seq![SLASH] + r)[0] == Component::Normal(x),
{
    let q = x + seq![SLASH] + r;
    lemma_pieces_split(x, r);
    lemma_pieces_of_name(x);
    lemma_body_add(seq![x], path_pieces(r));
    lemma_body_short(x, x);
    assert(q[0] == x[0]);
    assert(!has_root(q));
    assert(!has_cur_dir(q)) by {
        if x.len() == 1 {
            if x[0] == DOT {
                assert(x =~= seq![DOT]);
            }
        } else {
            assert(q[1] == x[1]);
        }
    }
    assert(head_components(q) =~= Seq::<Component>::empty());
    assert(piece_component(x) =~= seq![Component::Normal(x)]);
    assert(path_components(q) =~= seq![Component::Normal(x)] + body_components(path_pieces(r)));
}

/// Paths whose first components are different plain names are ordered by
/// those names, byte by byte (so `backup1/f` comes before `backup2/f`).
pub proof fn lemma_first_component_decides(x: Seq<u8>, r: Seq<u8>, y: Seq<u8>, s: Seq<u8>)
    requires
        is_plain_name(x),
        is_plain_name(y),
        forall|k: int| 0 <= k < x.len() ==> x[k] != SLASH,
        forall|k: int| 0 <= k < y.len() ==> y[k] != SLASH,
        x != y,
    ensures
        path_compare(x + seq![SLASH] + r, y + seq![SLASH] + s) == lex_compare(x, y, byte_order()),
        path_compare(x + seq![SLASH] + r, y + seq![SLASH] + s) != Comparison::Equal,
{
    lemma_components_after_name(x, r);
    lemma_components_after_name(y, s);
    lemma_byte_order_total();
    lemma_lex_equal(x, y, byte_order());
}

} // verus!
