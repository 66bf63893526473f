//! Paths: texts of names that are separated by slashes.
use crate::text::{
    chars_of, comes_before, joined, joined3, precedes, same_text, same_texts, text_between, texts,
};
use vstd::prelude::*;

verus! {

/// The pieces of a path between its slashes.
pub open spec fn pieces(path: Seq<char>) -> Seq<Seq<char>>
    decreases path.len(),
{
    if path.len() == 0 {
        seq![seq![]]
    } else {
        let before = pieces(path.drop_last());
        if path.last() == '/' {
            before.push(seq![])
        } else {
            before.update(before.len() - 1, before.last().push(path.last()))
        }
    }
}

/// Whether the piece at a position counts as a component: empty pieces do not,
/// nor does a dot that is not the first piece.
pub open spec fn counts(piece: Seq<char>, position: int) -> bool {
    piece.len() > 0 && (position == 0 || piece != "."@)
}

/// The pieces that count.
pub open spec fn counted(list: Seq<Seq<char>>) -> Seq<Seq<char>>
    decreases list.len(),
{
    if list.len() == 0 {
        seq![]
    } else if counts(list.last(), list.len() - 1) {
        counted(list.drop_last()).push(list.last())
    } else {
        counted(list.drop_last())
    }
}

/// Whether a path starts at the root of the file system.
pub open spec fn is_rooted(path: Seq<char>) -> bool {
    path.len() > 0 && path[0] == '/'
}

/// The components of a path: a slash for the root, then the names.
pub open spec fn components(path: Seq<char>) -> Seq<Seq<char>> {
    if is_rooted(path) {
        seq!["/"@] + counted(pieces(path))
    } else {
        counted(pieces(path))
    }
}

/// A name that is one component wherever it stands.
pub open spec fn is_plain(name: Seq<char>) -> bool {
    name.len() > 0 && !name.contains('/') && name != "."@
}

/// The path of `name` in the directory `base`.
pub open spec fn child(base: Seq<char>, name: Seq<char>) -> Seq<char> {
    if is_rooted(name) {
        name
    } else if base.len() == 0 || base.last() == '/' {
        base + name
    } else {
        base + "/"@ + name
    }
}

/// The path of several names below `base`.
pub open spec fn descendant(base: Seq<char>, names: Seq<Seq<char>>) -> Seq<char>
    decreases names.len(),
{
    if names.len() == 0 {
        base
    } else {
        child(descendant(base, names.drop_last()), names.last())
    }
}

/// Whether the components `prefix` begin the components `path`.
pub open spec fn is_within(path: Seq<Seq<char>>, prefix: Seq<Seq<char>>) -> bool {
    prefix.len() <= path.len() && path.take(prefix.len() as int) == prefix
}

/// Whether a component is a name.
pub open spec fn is_name(component: Seq<char>) -> bool {
    component != "/"@ && component != "."@ && component != ".."@
}

/// The name that a path ends in.
pub open spec fn last_name(path: Seq<char>) -> Option<Seq<char>> {
    let parts = components(path);
    if parts.len() > 0 && is_name(parts.last()) {
        Some(parts.last())
    } else {
        None
    }
}

/// Names with a separator between them.
pub open spec fn with_slashes(names: Seq<Seq<char>>) -> Seq<char>
    decreases names.len(),
{
    if names.len() == 0 {
        seq![]
    } else if names.len() == 1 {
        names[0]
    } else {
        with_slashes(names.drop_last()) + "/"@ + names.last()
    }
}

proof fn lemma_pieces_nonempty(path: Seq<char>)
    ensures
        pieces(path).len() > 0,
    decreases path.len(),
{
    if path.len() > 0 {
        lemma_pieces_nonempty(path.drop_last());
    }
}

/// A text without slashes only lengthens the last piece.
proof fn lemma_pieces_lengthen(path: Seq<char>, name: Seq<char>)
    requires
        !name.contains('/'),
    ensures
        pieces(path + name) == pieces(path).update(pieces(path).len() - 1, pieces(path).last() + name),
    decreases name.len(),
{
    lemma_pieces_nonempty(path);
    if name.len() == 0 {
        assert(path + name =~= path);
        assert(pieces(path).last() + name =~= pieces(path).last());
        assert(pieces(path) =~= pieces(path).update(
            pieces(path).len() - 1,
            pieces(path).last() + name,
        ));
    } else {
        let shorter = name.drop_last();
        assert forall|i: int| 0 <= i < shorter.len() implies shorter[i] != '/' by {
            assert(name[i] == shorter[i]);
            assert(name.contains(name[i]));
        }
        lemma_pieces_lengthen(path, shorter);
        assert((path + name).drop_last() =~= path + shorter);
        assert(name.contains(name.last()));
        assert((path + name).last() == name.last());
        let before = pieces(path + shorter);
        assert(before.last() == pieces(path).last() + shorter);
        assert(before.last().push(name.last()) =~= pieces(path).last() + name);
        assert(pieces(path + name) =~= pieces(path).update(
            pieces(path).len() - 1,
            pieces(path).last() + name,
        ));
    }
}

proof fn lemma_slash()
    ensures
        "/"@ == seq!['/'],
        "."@ == seq!['.'],
        ".."@ == seq!['.', '.'],
{
    reveal_strlit("/");
    reveal_strlit(".");
    reveal_strlit("..");
    assert("/"@ =~= seq!['/']);
    assert("."@ =~= seq!['.']);
    assert(".."@ =~= seq!['.', '.']);
}

proof fn lemma_counted_single(piece: Seq<char>)
    ensures
        counted(seq![piece]) == if piece.len() > 0 {
            seq![piece]
        } else {
            seq![]
        },
{
    reveal_with_fuel(counted, 2);
    assert(seq![piece].drop_last() =~= seq![]);
    assert(seq![piece].last() == piece);
    assert(Seq::<Seq<char>>::empty().push(piece) =~= seq![piece]);
}

/// The empty path has no components.
pub proof fn lemma_empty_path()
    ensures
        pieces(seq![]) == seq![Seq::<char>::empty()],
        components(seq![]) == Seq::<Seq<char>>::empty(),
{
    lemma_counted_single(seq![]);
    assert(pieces(seq![]) =~= seq![Seq::<char>::empty()]);
}

/// A path and its child have the same components but for the child's name.
pub proof fn lemma_child_components(base: Seq<char>, name: Seq<char>)
    requires
        is_plain(name),
    ensures
        components(child(base, name)) == components(base).push(name),
{
    lemma_slash();
    lemma_pieces_nonempty(base);
    assert(!is_rooted(name)) by {
        if is_rooted(name) {
            assert(name.contains(name[0]));
        }
    }
    if base.len() == 0 {
        assert(base + name =~= name);
        assert(base =~= seq![]);
        lemma_pieces_lengthen(base, name);
        assert(base + name == name);
        assert(pieces(base) =~= seq![Seq::<char>::empty()]);
        assert(pieces(name) =~= seq![name]) by {
            assert(Seq::<char>::empty() + name =~= name);
        }
        lemma_counted_single(name);
        lemma_empty_path();
        assert(components(name) =~= components(base).push(name));
    } else if base.last() == '/' {
        lemma_pieces_lengthen(base, name);
        let p = pieces(base);
        assert(p.last() =~= seq![]);
        assert(p.len() >= 2) by {
            lemma_pieces_nonempty(base.drop_last());
        }
        let q = pieces(base + name);
        assert(seq![] + name =~= name);
        assert(q.last() == name);
        assert(q.drop_last() =~= p.drop_last());
        assert(counted(q) == counted(p.drop_last()).push(name));
        assert(counted(p) == counted(p.drop_last()));
        assert((base + name)[0] == base[0]);
        assert(components(base + name) =~= components(base).push(name));
    } else {
        let longer = base + "/"@;
        assert(longer.drop_last() =~= base);
        assert(longer.last() == '/');
        let p = pieces(longer);
        assert(p == pieces(base).push(seq![]));
        lemma_pieces_lengthen(longer, name);
        let q = pieces(longer + name);
        assert(seq![] + name =~= name);
        assert(q.last() == name);
        assert(q.drop_last() =~= pieces(base));
        assert(counted(q) == counted(pieces(base)).push(name));
        assert((longer + name)[0] == base[0]);
        assert(components(longer + name) =~= components(base).push(name));
    }
}

/// Plain names below a directory are the components after it.
pub proof fn lemma_descendant_components(base: Seq<char>, names: Seq<Seq<char>>)
    requires
        forall|i: int| 0 <= i < names.len() ==> is_plain(#[trigger] names[i]),
    ensures
        components(descendant(base, names)) == components(base) + names,
    decreases names.len(),
{
    if names.len() == 0 {
        assert(components(base) + names =~= components(base));
    } else {
        lemma_descendant_components(base, names.drop_last());
        lemma_child_components(descendant(base, names.drop_last()), names.last());
        assert(components(base) + names =~= (components(base) + names.drop_last()).push(names.last()));
    }
}

/// Plain names with slashes between them are the components of a path.
pub proof fn lemma_with_slashes(names: Seq<Seq<char>>)
    requires
        forall|i: int| 0 <= i < names.len() ==> is_plain(#[trigger] names[i]),
    ensures
        components(with_slashes(names)) == names,
        names.len() > 0 ==> with_slashes(names).len() > 0 && with_slashes(names).last() != '/',
        !is_rooted(with_slashes(names)),
    decreases names.len(),
{
    lemma_slash();
    if names.len() == 0 {
        lemma_empty_path();
        assert(components(with_slashes(names)) =~= names);
    } else {
        let last = names.last();
        assert(is_plain(names[names.len() - 1]));
        assert(last.contains(last.last()));
        if names.len() == 1 {
            lemma_child_components(seq![], last);
            assert(Seq::<char>::empty() + last =~= last);
            assert(last.contains(last[0]));
            lemma_empty_path();
            assert(components(with_slashes(names)) =~= names);
        } else {
            let init = names.drop_last();
            lemma_with_slashes(init);
            let head = with_slashes(init);
            lemma_child_components(head, last);
            assert(!is_rooted(last)) by {
                assert(last.contains(last[0]));
            }
            assert(child(head, last) == with_slashes(names));
            assert(with_slashes(names)[0] == head[0]);
            assert(init.push(last) =~= names);
        }
    }
}

/// The components of a path.
pub fn path_components(path: &str) -> (r: Vec<String>)
    ensures
        texts(r@) == components(path@),
{
    let chars: Vec<char> = chars_of(path);
    let mut out: Vec<String> = Vec::new();
    proof {
        lemma_slash();
    }
    let rooted: bool = chars.len() > 0 && chars[0] == '/';
    if rooted {
        out.push("/".to_owned());
    }
    let ghost root = texts(out@);
    assert(root =~= if is_rooted(path@) { seq!["/"@] } else { seq![] });
    let mut start: usize = 0;
    let mut number: usize = 0;
    let mut i: usize = 0;
    assert(pieces(path@.take(0)) =~= seq![Seq::<char>::empty()]) by {
        assert(path@.take(0) =~= seq![]);
    }
    assert(path@.subrange(0, 0) =~= seq![]);
    assert(counted(seq![Seq::<char>::empty()].drop_last()) =~= seq![]) by {
        assert(seq![Seq::<char>::empty()].drop_last() =~= seq![]);
    }
    assert(root =~= root + counted(pieces(path@.take(0)).drop_last()));
    while i < chars.len()
        invariant
            chars@ == path@,
            start <= i <= chars@.len(),
            number <= i,
            "."@ == seq!['.'],
            pieces(path@.take(i as int)).len() == number + 1,
            pieces(path@.take(i as int)).last() == path@.subrange(start as int, i as int),
            texts(out@) == root + counted(pieces(path@.take(i as int)).drop_last()),
        decreases chars@.len() - i,
    {
        let ghost so_far = pieces(path@.take(i as int));
        assert(path@.take(i + 1).drop_last() =~= path@.take(i as int));
        assert(path@.take(i + 1).last() == chars@[i as int]);
        if chars[i] == '/' {
            let piece: String = text_between(&chars, start, i);
            let dot: bool = same_text(piece.as_str(), ".");
            let ghost had = texts(out@);
            assert(pieces(path@.take(i + 1)) == so_far.push(seq![]));
            assert(so_far.push(seq![]).drop_last() =~= so_far);
            assert(path@.subrange(i + 1, i + 1) =~= seq![]);
            if i > start && (number == 0 || !dot) {
                out.push(piece);
                assert(texts(out@) =~= had.push(so_far.last()));
                assert(had.push(so_far.last()) =~= root + counted(so_far));
            }
            start = i + 1;
            number += 1;
        } else {
            assert(pieces(path@.take(i + 1)) == so_far.update(
                so_far.len() - 1,
                so_far.last().push(chars@[i as int]),
            ));
            assert(path@.subrange(start as int, i + 1) =~= path@.subrange(start as int, i as int).push(
                chars@[i as int],
            ));
            assert(pieces(path@.take(i + 1)).drop_last() =~= so_far.drop_last());
        }
        i += 1;
    }
    assert(path@.take(i as int) =~= path@);
    let piece: String = text_between(&chars, start, i);
    let dot: bool = same_text(piece.as_str(), ".");
    let ghost had = texts(out@);
    if i > start && (number == 0 || !dot) {
        out.push(piece);
        assert(texts(out@) =~= had.push(pieces(path@).last()));
    }
    assert(texts(out@) =~= root + counted(pieces(path@)));
    assert(texts(out@) =~= components(path@));
    out
}

/// The path of `name` in the directory `base`.
pub fn child_path(base: &str, name: &str) -> (r: String)
    ensures
        r@ == child(base@, name@),
{
    let b: Vec<char> = chars_of(base);
    let n: Vec<char> = chars_of(name);
    if n.len() > 0 && n[0] == '/' {
        return name.to_owned();
    }
    if b.len() == 0 || b[b.len() - 1] == '/' {
        joined(base, name)
    } else {
        joined3(base, "/", name)
    }
}

/// The path of several names below `base`.
pub fn descendant_path(base: &str, names: &Vec<String>) -> (r: String)
    ensures
        r@ == descendant(base@, texts(names@)),
{
    let mut out: String = base.to_owned();
    let mut i: usize = 0;
    let ghost all = texts(names@);
    assert(all.take(0) =~= seq![]);
    while i < names.len()
        invariant
            i <= names@.len(),
            all == texts(names@),
            out@ == descendant(base@, all.take(i as int)),
        decreases names@.len() - i,
    {
        assert(all.take(i + 1).drop_last() =~= all.take(i as int));
        out = child_path(out.as_str(), names[i].as_str());
        i += 1;
    }
    assert(all.take(i as int) =~= all);
    out
}

/// Whether the components `prefix` begin the components `path`.
pub fn begins_path(path: &Vec<String>, prefix: &Vec<String>) -> (r: bool)
    ensures
        r == is_within(texts(path@), texts(prefix@)),
{
    if prefix.len() > path.len() {
        return false;
    }
    let ghost p = texts(path@);
    let ghost q = texts(prefix@);
    let mut i: usize = 0;
    while i < prefix.len()
        invariant
            i <= prefix@.len() <= path@.len(),
            p == texts(path@),
            q == texts(prefix@),
            forall|j: int| 0 <= j < i ==> p[j] == q[j],
        decreases prefix@.len() - i,
    {
        if !same_text(path[i].as_str(), prefix[i].as_str()) {
            assert(p.take(q.len() as int)[i as int] != q[i as int]);
            return false;
        }
        i += 1;
    }
    assert(p.take(q.len() as int) =~= q);
    true
}

/// The name that a path ends in.
pub fn file_name(path: &str) -> (r: Option<String>)
    ensures
        crate::text::text_option(r) == last_name(path@),
{
    let parts: Vec<String> = path_components(path);
    if parts.len() == 0 {
        return None;
    }
    let last: &String = &parts[parts.len() - 1];
    assert(components(path@).last() == last@);
    if same_text(last.as_str(), "/") || same_text(last.as_str(), ".") || same_text(
        last.as_str(),
        "..",
    ) {
        None
    } else {
        Some(last.clone())
    }
}

/// Names with a slash between them.
pub fn slash_joined(names: &Vec<String>) -> (r: String)
    ensures
        r@ == with_slashes(texts(names@)),
{
    let mut out: String = String::new();
    let ghost all = texts(names@);
    let mut i: usize = 0;
    assert(out@ =~= with_slashes(all.take(0)));
    while i < names.len()
        invariant
            i <= names@.len(),
            all == texts(names@),
            out@ == with_slashes(all.take(i as int)),
        decreases names@.len() - i,
    {
        assert(all.take(i + 1).drop_last() =~= all.take(i as int));
        assert(all.take(i + 1).last() == names@[i as int]@);
        if i == 0 {
            out = names[i].clone();
        } else {
            out = joined3(out.as_str(), "/", names[i].as_str());
        }
        i += 1;
    }
    assert(all.take(i as int) =~= all);
    out
}

/// The kinds of components in their order: the root, the dot, the double dot,
/// and names.
pub open spec fn rank(component: Seq<char>) -> int {
    if component == "/"@ {
        0
    } else if component == "."@ {
        1
    } else if component == ".."@ {
        2
    } else {
        3
    }
}

/// The order of two components.
pub open spec fn component_precedes(a: Seq<char>, b: Seq<char>) -> bool {
    rank(a) < rank(b) || (rank(a) == rank(b) && precedes(a, b))
}

/// The order of paths, component by component.
pub open spec fn path_precedes(a: Seq<Seq<char>>, b: Seq<Seq<char>>) -> bool
    decreases a.len(),
{
    if b.len() == 0 {
        false
    } else if a.len() == 0 {
        true
    } else if a[0] != b[0] {
        component_precedes(a[0], b[0])
    } else {
        path_precedes(a.drop_first(), b.drop_first())
    }
}

proof fn lemma_component_transitive(a: Seq<char>, b: Seq<char>, c: Seq<char>)
    requires
        component_precedes(a, b),
        component_precedes(b, c),
    ensures
        component_precedes(a, c),
{
    if rank(a) == rank(b) && rank(b) == rank(c) {
        crate::text::lemma_precedes_transitive(a, b, c);
    }
}

/// The order of paths is transitive.
pub proof fn lemma_path_transitive(a: Seq<Seq<char>>, b: Seq<Seq<char>>, c: Seq<Seq<char>>)
    requires
        path_precedes(a, b),
        path_precedes(b, c),
    ensures
        path_precedes(a, c),
    decreases a.len(),
{
    if a.len() > 0 {
        if a[0] == b[0] && b[0] == c[0] {
            lemma_path_transitive(a.drop_first(), b.drop_first(), c.drop_first());
        } else if a[0] != b[0] && b[0] != c[0] {
            lemma_component_transitive(a[0], b[0], c[0]);
            if a[0] == c[0] {
                crate::text::lemma_precedes_irreflexive(a[0]);
            }
        }
    }
}

/// No path precedes itself.
pub proof fn lemma_path_irreflexive(a: Seq<Seq<char>>)
    ensures
        !path_precedes(a, a),
    decreases a.len(),
{
    if a.len() > 0 {
        lemma_path_irreflexive(a.drop_first());
    }
}

/// Of two paths with different components one precedes the other.
pub proof fn lemma_path_total(a: Seq<Seq<char>>, b: Seq<Seq<char>>)
    requires
        a != b,
    ensures
        path_precedes(a, b) || path_precedes(b, a),
    decreases a.len(),
{
    if a.len() > 0 && b.len() > 0 {
        if a[0] != b[0] {
            crate::text::lemma_precedes_total(a[0], b[0]);
        } else {
            assert(a =~= seq![a[0]] + a.drop_first());
            assert(b =~= seq![b[0]] + b.drop_first());
            lemma_path_total(a.drop_first(), b.drop_first());
        }
    } else if a.len() == 0 && b.len() == 0 {
        assert(a =~= b);
    }
}

/// Paths that agree up to a component are in the order of that component.
pub proof fn lemma_path_decided(a: Seq<Seq<char>>, b: Seq<Seq<char>>, at: int)
    requires
        0 <= at < a.len(),
        at < b.len(),
        forall|j: int| 0 <= j < at ==> a[j] == b[j],
        a[at] != b[at],
    ensures
        path_precedes(a, b) == component_precedes(a[at], b[at]),
    decreases at,
{
    if at > 0 {
        let x = a.drop_first();
        let y = b.drop_first();
        assert forall|j: int| 0 <= j < at - 1 implies x[j] == y[j] by {
            assert(a[j + 1] == b[j + 1]);
        }
        lemma_path_decided(x, y, at - 1);
    }
}

fn component_rank(component: &str) -> (r: u8)
    ensures
        r as int == rank(component@),
{
    if same_text(component, "/") {
        0
    } else if same_text(component, ".") {
        1
    } else if same_text(component, "..") {
        2
    } else {
        3
    }
}

/// Whether one path comes before another.
pub fn path_comes_before(a: &str, b: &str) -> (r: bool)
    ensures
        r == path_precedes(components(a@), components(b@)),
{
    let x: Vec<String> = path_components(a);
    let y: Vec<String> = path_components(b);
    let ghost p = components(a@);
    let ghost q = components(b@);
    let mut i: usize = 0;
    assert(p.skip(0) =~= p);
    assert(q.skip(0) =~= q);
    while i < x.len() && i < y.len() && same_text(x[i].as_str(), y[i].as_str())
        invariant
            p == texts(x@),
            q == texts(y@),
            i <= x@.len(),
            i <= y@.len(),
            path_precedes(p, q) == path_precedes(p.skip(i as int), q.skip(i as int)),
        decreases x@.len() - i,
    {
        assert(p.skip(i as int).drop_first() =~= p.skip(i + 1));
        assert(q.skip(i as int).drop_first() =~= q.skip(i + 1));
        assert(p[i as int] == x@[i as int]@);
        assert(q[i as int] == y@[i as int]@);
        i += 1;
    }
    if i >= y.len() {
        return false;
    }
    if i >= x.len() {
        return true;
    }
    assert(p[i as int] == x@[i as int]@);
    assert(q[i as int] == y@[i as int]@);
    let left: u8 = component_rank(x[i].as_str());
    let right: u8 = component_rank(y[i].as_str());
    left < right || (left == right && comes_before(x[i].as_str(), y[i].as_str()))
}

/// No path in the list precedes one before it.
pub open spec fn paths_sorted(list: Seq<Seq<char>>) -> bool {
    forall|i: int, j: int|
        0 <= i < j < list.len() ==> !path_precedes(
            components(#[trigger] list[j]),
            components(#[trigger] list[i]),
        )
}

fn insert_path(list: &mut Vec<String>, value: String)
    requires
        paths_sorted(texts(old(list)@)),
    ensures
        paths_sorted(texts(final(list)@)),
        texts(final(list)@).to_multiset() == texts(old(list)@).to_multiset().insert(value@),
{
    let ghost before = texts(list@);
    let mut i: usize = 0;
    while i < list.len() && !path_comes_before(value.as_str(), list[i].as_str())
        invariant
            i <= list@.len(),
            list@ == old(list)@,
            before == texts(list@),
            paths_sorted(before),
            forall|j: int|
                0 <= j < i ==> !path_precedes(components(value@), components(#[trigger] before[j])),
        decreases list@.len() - i,
    {
        assert(before[i as int] == list@[i as int]@);
        i += 1;
    }
    let ghost v = value@;
    proof {
        if i < list@.len() {
            assert(before[i as int] == list@[i as int]@);
            assert forall|j: int| i <= j < before.len() implies !path_precedes(
                components(#[trigger] before[j]),
                components(v),
            ) by {
                if path_precedes(components(before[j]), components(v)) {
                    lemma_path_transitive(
                        components(before[j]),
                        components(v),
                        components(before[i as int]),
                    );
                    if j == i {
                        lemma_path_irreflexive(components(before[j]));
                    }
                }
            }
        }
    }
    list.insert(i, value);
    proof {
        let after = texts(list@);
        assert(after =~= before.insert(i as int, v));
        assert forall|a: int, b: int| 0 <= a < b < after.len() implies !path_precedes(
            components(#[trigger] after[b]),
            components(#[trigger] after[a]),
        ) by {
            if a < i {
                assert(after[a] == before[a]);
                if b > i {
                    assert(after[b] == before[b - 1]);
                } else if b < i {
                    assert(after[b] == before[b]);
                }
            } else if a == i {
                assert(after[b] == before[b - 1]);
            } else {
                assert(after[a] == before[a - 1]);
                assert(after[b] == before[b - 1]);
            }
        }
        vstd::seq_lib::to_multiset_insert(before, i as int, v);
    }
}

/// The paths of a list in their order.
pub fn sort_paths(list: &Vec<String>) -> (r: Vec<String>)
    ensures
        paths_sorted(texts(r@)),
        texts(r@).to_multiset() == texts(list@).to_multiset(),
        r@.len() == list@.len(),
{
    let mut out: Vec<String> = Vec::new();
    let ghost all = texts(list@);
    let mut i: usize = 0;
    assert(all.take(0) =~= texts(out@));
    while i < list.len()
        invariant
            i <= list@.len(),
            all == texts(list@),
            paths_sorted(texts(out@)),
            texts(out@).to_multiset() == all.take(i as int).to_multiset(),
        decreases list@.len() - i,
    {
        assert(all.take(i + 1) =~= all.take(i as int).push(all[i as int]));
        proof {
            all.take(i as int).to_multiset_ensures();
        }
        insert_path(&mut out, list[i].clone());
        i += 1;
    }
    assert(all.take(i as int) =~= all);
    proof {
        texts(out@).to_multiset_ensures();
        all.to_multiset_ensures();
    }
    out
}

/// The text of a path with these components.
pub open spec fn path_text(parts: Seq<Seq<char>>) -> Seq<char> {
    if parts.len() > 0 && parts[0] == "/"@ {
        "/"@ + with_slashes(parts.drop_first())
    } else {
        with_slashes(parts)
    }
}

/// The directory that a path lies in: all of its components but the last.
pub open spec fn parent(path: Seq<char>) -> Option<Seq<char>> {
    let parts = components(path);
    if parts.len() == 0 || parts.last() == "/"@ {
        None
    } else {
        Some(path_text(parts.drop_last()))
    }
}

/// A path, its parent, and so on up to the root or the empty path.
pub open spec fn ancestors(path: Seq<char>) -> Seq<Seq<char>> {
    let parts = components(path);
    let least: int = if is_rooted(path) {
        1
    } else {
        0
    };
    Seq::new(
        (parts.len() - least + 1) as nat,
        |i: int|
            if i == 0 {
                path
            } else {
                path_text(parts.take(parts.len() - i))
            },
    )
}

/// The text of the path with the first `count` of these components.
fn path_of(parts: &Vec<String>, count: usize) -> (r: String)
    requires
        count <= parts@.len(),
    ensures
        r@ == path_text(texts(parts@).take(count as int)),
{
    let ghost all = texts(parts@);
    let rooted: bool = count > 0 && same_text(parts[0].as_str(), "/");
    assert(count > 0 ==> all.take(count as int)[0] == parts@[0]@);
    let mut names: Vec<String> = Vec::new();
    let first: usize = if rooted {
        1
    } else {
        0
    };
    let mut i: usize = first;
    assert(texts(names@) =~= all.subrange(first as int, i as int));
    while i < count
        invariant
            first <= i <= count <= parts@.len(),
            all == texts(parts@),
            texts(names@) == all.subrange(first as int, i as int),
        decreases count - i,
    {
        let ghost had = texts(names@);
        names.push(parts[i].clone());
        assert(texts(names@) =~= had.push(all[i as int]));
        assert(all.subrange(first as int, i + 1) =~= had.push(all[i as int]));
        i += 1;
    }
    let rest: String = slash_joined(&names);
    if rooted {
        assert(all.take(count as int).drop_first() =~= texts(names@));
        joined("/", rest.as_str())
    } else {
        assert(all.take(count as int) =~= texts(names@));
        rest
    }
}

/// The directory that a path lies in.
pub fn parent_path(path: &str) -> (r: Option<String>)
    ensures
        crate::text::text_option(r) == parent(path@),
{
    let parts: Vec<String> = path_components(path);
    if parts.len() == 0 {
        return None;
    }
    assert(components(path@).last() == parts@.last()@);
    if same_text(parts[parts.len() - 1].as_str(), "/") {
        return None;
    }
    let count: usize = parts.len() - 1;
    assert(components(path@).drop_last() =~= components(path@).take(count as int));
    Some(path_of(&parts, count))
}

/// A path, its parent, and so on up to the root or the empty path.
pub fn path_ancestors(path: &str) -> (r: Vec<String>)
    ensures
        texts(r@) == ancestors(path@),
{
    let parts: Vec<String> = path_components(path);
    let chars: Vec<char> = chars_of(path);
    let least: usize = if chars.len() > 0 && chars[0] == '/' {
        1
    } else {
        0
    };
    assert(parts@.len() == components(path@).len());
    let mut out: Vec<String> = Vec::new();
    out.push(path.to_owned());
    let ghost wanted = ancestors(path@);
    let mut count: usize = parts.len();
    assert(texts(out@) =~= wanted.take(1));
    while count > least
        invariant
            texts(parts@) == components(path@),
            least == (if is_rooted(path@) { 1int } else { 0int }),
            least <= count <= parts@.len(),
            wanted == ancestors(path@),
            texts(out@) == wanted.take(parts@.len() - count + 1),
        decreases count,
    {
        count -= 1;
        let ghost had = texts(out@);
        let text: String = path_of(&parts, count);
        out.push(text);
        assert(texts(out@) =~= had.push(wanted[parts@.len() - count]));
        assert(wanted.take(parts@.len() - count + 1) =~= had.push(wanted[parts@.len() - count]));
    }
    assert(wanted.take(parts@.len() - count + 1) =~= wanted);
    out
}

/// Whether two paths have the same components.
pub fn same_path(a: &str, b: &str) -> (r: bool)
    ensures
        r == (components(a@) == components(b@)),
{
    same_texts(&path_components(a), &path_components(b))
}

/// The ancestors of a path begin with the path itself.
pub proof fn lemma_ancestors_start(path: Seq<char>)
    ensures
        ancestors(path).len() > 0,
        ancestors(path)[0] == path,
{
    if is_rooted(path) {
        assert(components(path).len() >= 1);
    }
}

/// No piece that counts is empty.
pub proof fn lemma_counted_nonempty(list: Seq<Seq<char>>)
    ensures
        forall|i: int| 0 <= i < counted(list).len() ==> (#[trigger] counted(list)[i]).len() > 0,
    decreases list.len(),
{
    if list.len() > 0 {
        let before = counted(list.drop_last());
        lemma_counted_nonempty(list.drop_last());
        assert forall|i: int| 0 <= i < counted(list).len() implies (#[trigger] counted(list)[i]).len()
            > 0 by {
            if i < before.len() {
                assert(counted(list)[i] == before[i]);
            }
        }
    }
}

} // verus!
