//! Unix path names as the standard library reads them: the components of a
//! path, the order in which paths sort, the file name and the extension.
use vstd::prelude::*;
use crate::text::{chars_of, string_from_chars};

verus! {

/// One component of a Unix path, in the order in which the kinds of
/// components sort: the root, then `.` at the start, then `..`, then names.
pub enum Comp {
    RootDir,
    CurDir,
    ParentDir,
    Normal(Seq<char>),
}

/// The pieces of `s` between the separators `/`, empty ones included:
/// there is always one piece more than there are separators.
pub open spec fn split_pieces(s: Seq<char>) -> Seq<Seq<char>>
    decreases s.len(),
{
    if s.len() == 0 {
        seq![Seq::<char>::empty()]
    } else {
        let rest = split_pieces(s.drop_last());
        if s.last() == '/' {
            rest.push(Seq::<char>::empty())
        } else {
            rest.update(rest.len() - 1, rest.last().push(s.last()))
        }
    }
}

/// A piece that names something: neither empty nor `.`.
pub open spec fn is_named_piece(piece: Seq<char>) -> bool {
    piece.len() > 0 && piece != seq!['.']
}

/// The component that a named piece stands for.
pub open spec fn piece_component(piece: Seq<char>) -> Comp {
    if piece == seq!['.', '.'] {
        Comp::ParentDir
    } else {
        Comp::Normal(piece)
    }
}

/// The components that the named pieces among `pieces` stand for, in order.
pub open spec fn named_components(pieces: Seq<Seq<char>>) -> Seq<Comp>
    decreases pieces.len(),
{
    if pieces.len() == 0 {
        seq![]
    } else {
        named_components(pieces.drop_last()) + if is_named_piece(pieces.last()) {
            seq![piece_component(pieces.last())]
        } else {
            seq![]
        }
    }
}

/// The component that stands before the pieces: the root for a path that
/// starts with `/`, the current directory for `.` or a path that starts
/// with `./`.
pub open spec fn leading_components(p: Seq<char>) -> Seq<Comp> {
    if p.len() > 0 && p[0] == '/' {
        seq![Comp::RootDir]
    } else if p.len() > 0 && p[0] == '.' && (p.len() == 1 || p[1] == '/') {
        seq![Comp::CurDir]
    } else {
        seq![]
    }
}

/// The components of the path `p`.
pub open spec fn components(p: Seq<char>) -> Seq<Comp> {
    leading_components(p) + named_components(split_pieces(p))
}

/// The last component of `p` when it is a name.
pub open spec fn file_name(p: Seq<char>) -> Option<Seq<char>> {
    let c = components(p);
    if c.len() > 0 {
        match c.last() {
            Comp::Normal(n) => Some(n),
            _ => None,
        }
    } else {
        None
    }
}

/// The index of the last `.` in `n`, or -1 when there is none.
pub open spec fn last_dot(n: Seq<char>) -> int
    decreases n.len(),
{
    if n.len() == 0 {
        -1
    } else if n.last() == '.' {
        n.len() - 1
    } else {
        last_dot(n.drop_last())
    }
}

/// The extension of `p`: what follows the last `.` of its file name, where
/// that `.` is not the name's first character.
pub open spec fn extension(p: Seq<char>) -> Option<Seq<char>> {
    match file_name(p) {
        Some(n) => if last_dot(n) <= 0 {
            None
        } else {
            Some(n.skip(last_dot(n) + 1))
        },
        None => None,
    }
}

/// `a` sorts strictly before `b`, character by character, a proper prefix
/// first.
pub open spec fn chars_before(a: Seq<char>, b: Seq<char>) -> bool
    decreases a.len(),
{
    if b.len() == 0 {
        false
    } else if a.len() == 0 {
        true
    } else if a[0] != b[0] {
        (a[0] as int) < (b[0] as int)
    } else {
        chars_before(a.drop_first(), b.drop_first())
    }
}

/// The rank of a component's kind in the order of components.
pub open spec fn comp_rank(c: Comp) -> int {
    match c {
        Comp::RootDir => 1,
        Comp::CurDir => 2,
        Comp::ParentDir => 3,
        Comp::Normal(_) => 4,
    }
}

/// `a` sorts strictly before `b`: by kind, and two names by their characters.
pub open spec fn comp_before(a: Comp, b: Comp) -> bool {
    match (a, b) {
        (Comp::Normal(x), Comp::Normal(y)) => chars_before(x, y),
        _ => comp_rank(a) < comp_rank(b),
    }
}

/// The components `a` sort strictly before `b`, component by component,
/// a proper prefix first.
pub open spec fn comps_before(a: Seq<Comp>, b: Seq<Comp>) -> bool
    decreases a.len(),
{
    if b.len() == 0 {
        false
    } else if a.len() == 0 {
        true
    } else if a[0] != b[0] {
        comp_before(a[0], b[0])
    } else {
        comps_before(a.drop_first(), b.drop_first())
    }
}

/// No sequence of characters sorts before itself.
pub proof fn lemma_chars_before_irreflexive(a: Seq<char>)
    ensures
        !chars_before(a, a),
    decreases a.len(),
{
    if a.len() > 0 {
        lemma_chars_before_irreflexive(a.drop_first());
    }
}

/// Of two different sequences of characters exactly one sorts before the
/// other, and of two equal ones neither.
pub proof fn lemma_chars_before_total(a: Seq<char>, b: Seq<char>)
    ensures
        a != b ==> chars_before(a, b) || chars_before(b, a),
        !(chars_before(a, b) && chars_before(b, a)),
    decreases a.len(),
{
    if a.len() > 0 && b.len() > 0 && a[0] == b[0] {
        lemma_chars_before_total(a.drop_first(), b.drop_first());
        if a != b {
            assert(a.drop_first() != b.drop_first()) by {
                if a.drop_first() == b.drop_first() {
                    assert(a =~= seq![a[0]] + a.drop_first());
                    assert(b =~= seq![b[0]] + b.drop_first());
                }
            }
        }
    } else if a.len() == 0 && b.len() == 0 {
        assert(a =~= b);
    }
}

/// The order of sequences of characters is transitive.
pub proof fn lemma_chars_before_transitive(a: Seq<char>, b: Seq<char>, c: Seq<char>)
    requires
        chars_before(a, b),
        chars_before(b, c),
    ensures
        chars_before(a, c),
    decreases a.len(),
{
    if a.len() > 0 && b.len() > 0 && c.len() > 0 && a[0] == b[0] && b[0] == c[0] {
        lemma_chars_before_transitive(a.drop_first(), b.drop_first(), c.drop_first());
    }
}

/// Of two different components exactly one sorts before the other, and of
/// two equal ones neither.
pub proof fn lemma_comp_before_total(a: Comp, b: Comp)
    ensures
        a != b ==> comp_before(a, b) || comp_before(b, a),
        !(comp_before(a, b) && comp_before(b, a)),
{
    match (a, b) {
        (Comp::Normal(x), Comp::Normal(y)) => {
            lemma_chars_before_total(x, y);
        },
        _ => {},
    }
}

/// The order of components is transitive.
pub proof fn lemma_comp_before_transitive(a: Comp, b: Comp, c: Comp)
    requires
        comp_before(a, b),
        comp_before(b, c),
    ensures
        comp_before(a, c),
{
    match (a, b, c) {
        (Comp::Normal(x), Comp::Normal(y), Comp::Normal(z)) => {
            lemma_chars_before_transitive(x, y, z);
        },
        _ => {},
    }
}

/// No sequence of components sorts before itself.
pub proof fn lemma_comps_before_irreflexive(a: Seq<Comp>)
    ensures
        !comps_before(a, a),
    decreases a.len(),
{
    if a.len() > 0 {
        lemma_comps_before_irreflexive(a.drop_first());
    }
}

/// Of two different sequences of components exactly one sorts before the
/// other, and of two equal ones neither.
pub proof fn lemma_comps_before_total(a: Seq<Comp>, b: Seq<Comp>)
    ensures
        a != b ==> comps_before(a, b) || comps_before(b, a),
        !(comps_before(a, b) && comps_before(b, a)),
    decreases a.len(),
{
    if a.len() > 0 && b.len() > 0 {
        if a[0] == b[0] {
            lemma_comps_before_total(a.drop_first(), b.drop_first());
            if a != b {
                assert(a.drop_first() != b.drop_first()) by {
                    if a.drop_first() == b.drop_first() {
                        assert(a =~= seq![a[0]] + a.drop_first());
                        assert(b =~= seq![b[0]] + b.drop_first());
                    }
                }
            }
        } else {
            lemma_comp_before_total(a[0], b[0]);
        }
    } else if a.len() == 0 && b.len() == 0 {
        assert(a =~= b);
    }
}

/// The order of sequences of components is transitive.
pub proof fn lemma_comps_before_transitive(a: Seq<Comp>, b: Seq<Comp>, c: Seq<Comp>)
    requires
        comps_before(a, b),
        comps_before(b, c),
    ensures
        comps_before(a, c),
    decreases a.len(),
{
    if a.len() > 0 && b.len() > 0 && c.len() > 0 {
        if a[0] == b[0] && b[0] == c[0] {
            lemma_comps_before_transitive(a.drop_first(), b.drop_first(), c.drop_first());
        } else if a[0] != b[0] && b[0] != c[0] {
            lemma_comp_before_transitive(a[0], b[0], c[0]);
            lemma_comp_before_total(a[0], c[0]);
        }
    }
}

/// `last_dot` is the index of a `.` with none after it, or -1 when the
/// name holds no `.` at all.
pub proof fn lemma_last_dot(n: Seq<char>)
    ensures
        -1 <= last_dot(n) < n.len(),
        last_dot(n) >= 0 ==> n[last_dot(n)] == '.',
        forall|j: int| last_dot(n) < j < n.len() ==> n[j] != '.',
    decreases n.len(),
{
    if n.len() > 0 && n.last() != '.' {
        lemma_last_dot(n.drop_last());
        assert forall|j: int| last_dot(n) < j < n.len() implies n[j] != '.' by {
            if j < n.len() - 1 {
                assert(n.drop_last()[j] == n[j]);
            }
        }
    }
}

/// The extension of a path is what follows the last `.` of its file name:
/// the name is a stem that is not empty, a `.`, and the extension, which
/// holds no `.`. A path whose file name has no `.` after its first
/// character has no extension.
pub proof fn law_extension_after_last_dot(p: Seq<char>)
    ensures
        extension(p) matches Some(e) ==> (file_name(p) matches Some(n) && {
            let stem_len = n.len() - e.len() - 1;
            &&& stem_len > 0
            &&& n == n.take(stem_len) + seq!['.'] + e
            &&& forall|j: int| 0 <= j < e.len() ==> e[j] != '.'
        }),
        file_name(p) matches Some(n) ==> (extension(p) is None ==> forall|j: int|
            0 < j < n.len() ==> n[j] != '.'),
{
    if let Some(n) = file_name(p) {
        lemma_last_dot(n);
        if let Some(e) = extension(p) {
            let d = last_dot(n);
            assert(e == n.skip(d + 1));
            assert(n =~= n.take(d) + seq!['.'] + e);
        }
    }
}

/// One component of a path, held by the program.
pub enum PathComponent {
    RootDir,
    CurDir,
    ParentDir,
    Normal(Vec<char>),
}

impl View for PathComponent {
    type V = Comp;

    open spec fn view(&self) -> Comp {
        match self {
            PathComponent::RootDir => Comp::RootDir,
            PathComponent::CurDir => Comp::CurDir,
            PathComponent::ParentDir => Comp::ParentDir,
            PathComponent::Normal(v) => Comp::Normal(v@),
        }
    }
}

/// The components that a sequence of held components stands for.
pub open spec fn comps_view(v: Seq<PathComponent>) -> Seq<Comp> {
    v.map_values(|c: PathComponent| c@)
}

/// The component for a piece, when the piece names something.
fn piece_to_component(piece: Vec<char>) -> (r: Option<PathComponent>)
    ensures
        r is Some <==> is_named_piece(piece@),
        r matches Some(c) ==> c@ == piece_component(piece@),
{
    let n = piece.len();
    if n == 0 {
        None
    } else if n == 1 && piece[0] == '.' {
        assert(piece@ =~= seq!['.']);
        None
    } else if n == 2 && piece[0] == '.' && piece[1] == '.' {
        assert(piece@ =~= seq!['.', '.']);
        Some(PathComponent::ParentDir)
    } else {
        assert(piece@ != seq!['.']) by {
            if piece@ == seq!['.'] {
                assert(piece@[0] == '.');
            }
        }
        assert(piece@ != seq!['.', '.']) by {
            if piece@ == seq!['.', '.'] {
                assert(piece@[0] == '.' && piece@[1] == '.');
            }
        }
        Some(PathComponent::Normal(piece))
    }
}

/// The components of the path whose characters are `p`.
pub fn components_of(p: &Vec<char>) -> (r: Vec<PathComponent>)
    ensures
        comps_view(r@) == components(p@),
{
    let n = p.len();
    let mut r: Vec<PathComponent> = Vec::new();
    if n > 0 && p[0] == '/' {
        r.push(PathComponent::RootDir);
    } else if n > 0 && p[0] == '.' && (n == 1 || p[1] == '/') {
        r.push(PathComponent::CurDir);
    }
    assert(comps_view(r@) =~= leading_components(p@));
    let mut cur: Vec<char> = Vec::new();
    let mut i: usize = 0;
    assert(p@.take(0) =~= Seq::<char>::empty());
    while i < n
        invariant
            n == p@.len(),
            i <= n,
            split_pieces(p@.take(i as int)).len() >= 1,
            cur@ == split_pieces(p@.take(i as int)).last(),
            comps_view(r@) == leading_components(p@) + named_components(
                split_pieces(p@.take(i as int)).drop_last(),
            ),
        decreases n - i,
    {
        let c = p[i];
        let ghost before = split_pieces(p@.take(i as int));
        assert(p@.take(i + 1).drop_last() =~= p@.take(i as int));
        assert(p@.take(i + 1).last() == c);
        let ghost after = split_pieces(p@.take(i + 1));
        if c == '/' {
            assert(after == before.push(Seq::<char>::empty()));
            assert(after.drop_last() =~= before);
            assert(before =~= before.drop_last().push(before.last()));
            let mut piece: Vec<char> = Vec::new();
            std::mem::swap(&mut piece, &mut cur);
            let ghost old_r = r@;
            match piece_to_component(piece) {
                Some(comp) => {
                    r.push(comp);
                },
                None => {},
            }
            assert(comps_view(r@) =~= comps_view(old_r) + if is_named_piece(before.last()) {
                seq![piece_component(before.last())]
            } else {
                seq![]
            });
            assert(named_components(before) == named_components(before.drop_last()) + if is_named_piece(before.last()) {
                seq![piece_component(before.last())]
            } else {
                seq![]
            });
            assert(comps_view(r@) =~= leading_components(p@) + named_components(before));
            assert(cur@ =~= after.last());
        } else {
            cur.push(c);
            assert(after == before.update(before.len() - 1, before.last().push(c)));
            assert(after.drop_last() =~= before.drop_last());
        }
        i += 1;
    }
    assert(p@.take(n as int) =~= p@);
    let ghost pieces = split_pieces(p@);
    let ghost old_r = r@;
    match piece_to_component(cur) {
        Some(comp) => {
            r.push(comp);
        },
        None => {},
    }
    assert(pieces =~= pieces.drop_last().push(pieces.last()));
    assert(comps_view(r@) =~= comps_view(old_r) + if is_named_piece(pieces.last()) {
        seq![piece_component(pieces.last())]
    } else {
        seq![]
    });
    r
}

/// How one value sorts against another.
#[derive(Debug, PartialEq, Eq, Clone, Copy)]
pub enum Order {
    Less,
    Equal,
    Greater,
}

/// How the characters `a` sort against `b`.
pub fn compare_chars(a: &Vec<char>, b: &Vec<char>) -> (r: Order)
    ensures
        (r is Less) == chars_before(a@, b@),
        (r is Greater) == chars_before(b@, a@),
        (r is Equal) == (a@ == b@),
{
    let na = a.len();
    let nb = b.len();
    let mut i: usize = 0;
    assert(a@.skip(0) =~= a@);
    assert(b@.skip(0) =~= b@);
    while i < na && i < nb && a[i] == b[i]
        invariant
            na == a@.len(),
            nb == b@.len(),
            i <= na,
            i <= nb,
            chars_before(a@, b@) == chars_before(a@.skip(i as int), b@.skip(i as int)),
            chars_before(b@, a@) == chars_before(b@.skip(i as int), a@.skip(i as int)),
            (a@ == b@) == (a@.skip(i as int) == b@.skip(i as int)),
            forall|k: int| 0 <= k < i ==> a@[k] == b@[k],
        decreases na - i,
    {
        assert(a@.skip(i as int).drop_first() =~= a@.skip(i + 1));
        assert(b@.skip(i as int).drop_first() =~= b@.skip(i + 1));
        assert(a@.skip(i as int) =~= seq![a@[i as int]] + a@.skip(i + 1));
        assert(b@.skip(i as int) =~= seq![b@[i as int]] + b@.skip(i + 1));
        proof {
            if a@.skip(i + 1) == b@.skip(i + 1) {
                assert(a@.skip(i as int) == b@.skip(i as int));
            }
            if a@.skip(i as int) == b@.skip(i as int) {
                assert(a@.skip(i as int).drop_first() == b@.skip(i as int).drop_first());
            }
        }
        i += 1;
    }
    if i < na && i < nb {
        let x = a[i];
        let y = b[i];
        assert(a@.skip(i as int)[0] == x);
        assert(b@.skip(i as int)[0] == y);
        if x < y {
            Order::Less
        } else {
            Order::Greater
        }
    } else if i == na && i == nb {
        assert(a@ =~= b@);
        proof { lemma_chars_before_irreflexive(a@); }
        Order::Equal
    } else if i == na {
        assert(a@.skip(i as int).len() == 0);
        assert(a@ != b@);
        Order::Less
    } else {
        assert(b@.skip(i as int).len() == 0);
        assert(a@ != b@);
        Order::Greater
    }
}

/// The rank of a held component's kind.
fn component_rank(c: &PathComponent) -> (r: u8)
    ensures
        r == comp_rank(c@),
{
    match c {
        PathComponent::RootDir => 1,
        PathComponent::CurDir => 2,
        PathComponent::ParentDir => 3,
        PathComponent::Normal(_) => 4,
    }
}

/// How the component `a` sorts against `b`.
pub fn compare_component(a: &PathComponent, b: &PathComponent) -> (r: Order)
    ensures
        (r is Less) == comp_before(a@, b@),
        (r is Greater) == comp_before(b@, a@),
        (r is Equal) == (a@ == b@),
{
    match (a, b) {
        (PathComponent::Normal(x), PathComponent::Normal(y)) => compare_chars(x, y),
        _ => {
            let ra = component_rank(a);
            let rb = component_rank(b);
            if ra < rb {
                Order::Less
            } else if rb < ra {
                Order::Greater
            } else {
                Order::Equal
            }
        },
    }
}

/// How the components `a` sort against `b`.
pub fn compare_components(a: &Vec<PathComponent>, b: &Vec<PathComponent>) -> (r: Order)
    ensures
        (r is Less) == comps_before(comps_view(a@), comps_view(b@)),
        (r is Greater) == comps_before(comps_view(b@), comps_view(a@)),
        (r is Equal) == (comps_view(a@) == comps_view(b@)),
{
    let ghost va = comps_view(a@);
    let ghost vb = comps_view(b@);
    let na = a.len();
    let nb = b.len();
    let mut i: usize = 0;
    assert(va.skip(0) =~= va);
    assert(vb.skip(0) =~= vb);
    loop
        invariant
            na == a@.len(),
            nb == b@.len(),
            va.len() == na,
            vb.len() == nb,
            va == comps_view(a@),
            vb == comps_view(b@),
            i <= na,
            i <= nb,
            comps_before(va, vb) == comps_before(va.skip(i as int), vb.skip(i as int)),
            comps_before(vb, va) == comps_before(vb.skip(i as int), va.skip(i as int)),
            (va == vb) == (va.skip(i as int) == vb.skip(i as int)),
            forall|k: int| 0 <= k < i ==> va[k] == vb[k],
        decreases na - i,
    {
        if i == na && i == nb {
            assert(va =~= vb);
            proof { lemma_comps_before_irreflexive(va); }
            return Order::Equal;
        } else if i == na {
            assert(va.skip(i as int).len() == 0);
            assert(va != vb);
            return Order::Less;
        } else if i == nb {
            assert(vb.skip(i as int).len() == 0);
            assert(va != vb);
            return Order::Greater;
        }
        let c = compare_component(&a[i], &b[i]);
        assert(va.skip(i as int)[0] == a@[i as int]@);
        assert(vb.skip(i as int)[0] == b@[i as int]@);
        match c {
            Order::Less => {
                return Order::Less;
            },
            Order::Greater => {
                return Order::Greater;
            },
            Order::Equal => {},
        }
        assert(va.skip(i as int).drop_first() =~= va.skip(i + 1));
        assert(vb.skip(i as int).drop_first() =~= vb.skip(i + 1));
        assert(va.skip(i as int) =~= seq![va[i as int]] + va.skip(i + 1));
        assert(vb.skip(i as int) =~= seq![vb[i as int]] + vb.skip(i + 1));
        proof {
            if va.skip(i + 1) == vb.skip(i + 1) {
                assert(va.skip(i as int) == vb.skip(i as int));
            }
            if va.skip(i as int) == vb.skip(i as int) {
                assert(va.skip(i as int).drop_first() == vb.skip(i as int).drop_first());
            }
        }
        i += 1;
    }
}

/// The file name of the path whose characters are `p`.
pub fn file_name_chars(p: &Vec<char>) -> (r: Option<Vec<char>>)
    ensures
        match r {
            Some(v) => file_name(p@) == Some(v@),
            None => file_name(p@) is None,
        },
{
    let mut comps = components_of(p);
    if comps.len() == 0 {
        return None;
    }
    let ghost before = comps@;
    let last = comps.pop();
    assert(comps_view(before).last() == before.last()@);
    match last {
        Some(PathComponent::Normal(v)) => Some(v),
        _ => None,
    }
}

/// The extension of the path whose characters are `p`.
pub fn extension_chars(p: &Vec<char>) -> (r: Option<Vec<char>>)
    ensures
        match r {
            Some(v) => extension(p@) == Some(v@),
            None => extension(p@) is None,
        },
{
    let name = match file_name_chars(p) {
        Some(n) => n,
        None => {
            return None;
        },
    };
    let n = name.len();
    let mut j: usize = n;
    assert(name@.take(n as int) =~= name@);
    while j > 0 && name[j - 1] != '.'
        invariant
            j <= n,
            n == name@.len(),
            last_dot(name@) == last_dot(name@.take(j as int)),
        decreases j,
    {
        assert(name@.take(j as int).drop_last() =~= name@.take(j - 1));
        j -= 1;
    }
    if j <= 1 {
        proof {
            if j == 1 {
                assert(name@.take(1).last() == '.');
            }
        }
        return None;
    }
    assert(name@.take(j as int).last() == '.');
    let mut ext: Vec<char> = Vec::new();
    let mut k: usize = j;
    while k < n
        invariant
            j <= k <= n,
            n == name@.len(),
            ext@ == name@.subrange(j as int, k as int),
        decreases n - k,
    {
        ext.push(name[k]);
        assert(ext@ =~= name@.subrange(j as int, k + 1));
        k += 1;
    }
    assert(ext@ =~= name@.skip(j as int));
    Some(ext)
}

/// The extension of the path `path`.
pub fn path_extension(path: &str) -> (r: Option<String>)
    ensures
        match r {
            Some(e) => extension(path@) == Some(e@),
            None => extension(path@) is None,
        },
{
    let chars = chars_of(path);
    match extension_chars(&chars) {
        Some(e) => Some(string_from_chars(&e)),
        None => None,
    }
}

/// The file name of the path `path`.
pub fn path_file_name(path: &str) -> (r: Option<String>)
    ensures
        match r {
            Some(n) => file_name(path@) == Some(n@),
            None => file_name(path@) is None,
        },
{
    let chars = chars_of(path);
    match file_name_chars(&chars) {
        Some(n) => Some(string_from_chars(&n)),
        None => None,
    }
}

} // verus!
