//! Unix-style path handling on strings: splitting on `/`, resolving `.` and
//! `..` lexically (without touching any file system), joining components and
//! extending a path by one more name.
use vstd::prelude::*;

verus! {

/// The pieces of `s` between `/` separators, empty pieces included
/// (`"/a//b"` gives `["", "a", "", "b"]`). There is always at least one piece.
pub open spec fn split_slash(s: Seq<char>) -> Seq<Seq<char>>
    decreases s.len(),
{
    if s.len() == 0 {
        seq![Seq::<char>::empty()]
    } else {
        let p = split_slash(s.drop_last());
        if s.last() == '/' {
            p.push(Seq::<char>::empty())
        } else {
            p.update(p.len() - 1, p.last().push(s.last()))
        }
    }
}

pub open spec fn is_dot(piece: Seq<char>) -> bool {
    piece == seq!['.']
}

pub open spec fn is_dot_dot(piece: Seq<char>) -> bool {
    piece == seq!['.', '.']
}

/// A piece that names something: neither empty nor `.`.
pub open spec fn is_named(piece: Seq<char>) -> bool {
    piece.len() > 0 && !is_dot(piece)
}

/// One step of lexical resolution: empty pieces and `.` are skipped, `..`
/// drops the last kept component (if any), anything else is kept.
pub open spec fn resolve_step(stack: Seq<Seq<char>>, piece: Seq<char>) -> Seq<Seq<char>> {
    if !is_named(piece) {
        stack
    } else if is_dot_dot(piece) {
        if stack.len() > 0 {
            stack.drop_last()
        } else {
            stack
        }
    } else {
        stack.push(piece)
    }
}

pub open spec fn resolve(pieces: Seq<Seq<char>>) -> Seq<Seq<char>>
    decreases pieces.len(),
{
    if pieces.len() == 0 {
        Seq::empty()
    } else {
        resolve_step(resolve(pieces.drop_last()), pieces.last())
    }
}

/// The components of `path` after lexical normalization, without the root.
pub open spec fn normalized_components(path: Seq<char>) -> Seq<Seq<char>> {
    resolve(split_slash(path))
}

pub open spec fn has_root(path: Seq<char>) -> bool {
    path.len() > 0 && path[0] == '/'
}

/// Components joined with single `/` separators.
pub open spec fn join_components(c: Seq<Seq<char>>) -> Seq<char>
    decreases c.len(),
{
    if c.len() == 0 {
        Seq::empty()
    } else if c.len() == 1 {
        c[0]
    } else {
        join_components(c.drop_last()) + seq!['/'] + c.last()
    }
}

/// The normalized form of `path`: its root (if it has one) followed by its
/// normalized components.
pub open spec fn normalized_path(path: Seq<char>) -> Seq<char> {
    if has_root(path) {
        seq!['/'] + join_components(normalized_components(path))
    } else {
        join_components(normalized_components(path))
    }
}

/// `base` extended by `name`: a name starting with `/` replaces the path,
/// an empty base becomes the name, otherwise a `/` separates the two unless
/// `base` already ends with one.
pub open spec fn pushed_path(base: Seq<char>, name: Seq<char>) -> Seq<char> {
    if has_root(name) {
        name
    } else if base.len() == 0 {
        name
    } else if base.last() == '/' {
        base + name
    } else {
        base + seq!['/'] + name
    }
}

/// The last piece of a path that names something, if any.
pub open spec fn last_named(pieces: Seq<Seq<char>>) -> Option<Seq<char>>
    decreases pieces.len(),
{
    if pieces.len() == 0 {
        None
    } else if is_named(pieces.last()) {
        Some(pieces.last())
    } else {
        last_named(pieces.drop_last())
    }
}

/// The final component of `path`, unless the path ends in `..`, is a root
/// or names nothing.
pub open spec fn file_name_of(path: Seq<char>) -> Option<Seq<char>> {
    match last_named(split_slash(path)) {
        Some(n) => if is_dot_dot(n) {
            None
        } else {
            Some(n)
        },
        None => None,
    }
}

/// The name under which an entry at `path` is listed: its final component,
/// or `..` where it has none.
pub open spec fn listed_name_of(path: Seq<char>) -> Seq<char> {
    match file_name_of(path) {
        Some(n) => n,
        None => seq!['.', '.'],
    }
}

pub proof fn lemma_split_slash_nonempty(s: Seq<char>)
    ensures
        split_slash(s).len() >= 1,
    decreases s.len(),
{
    if s.len() > 0 {
        lemma_split_slash_nonempty(s.drop_last());
    }
}

/// How `split_slash` grows by one character.
pub proof fn lemma_split_slash_step(s: Seq<char>, i: int)
    requires
        0 <= i < s.len(),
    ensures
        split_slash(s.take(i + 1)) == (if s[i] == '/' {
            split_slash(s.take(i)).push(Seq::<char>::empty())
        } else {
            split_slash(s.take(i)).update(
                split_slash(s.take(i)).len() - 1,
                split_slash(s.take(i)).last().push(s[i]),
            )
        }),
{
    assert(s.take(i + 1).drop_last() =~= s.take(i));
    assert(s.take(i + 1).last() == s[i]);
}

fn is_dot_str(p: &str) -> (r: bool)
    ensures
        r == is_dot(p@),
{
    if p.unicode_len() == 1 {
        let c = p.get_char(0);
        if c == '.' {
            assert(p@ =~= seq!['.']);
            true
        } else {
            false
        }
    } else {
        false
    }
}

fn is_dot_dot_str(p: &str) -> (r: bool)
    ensures
        r == is_dot_dot(p@),
{
    if p.unicode_len() == 2 {
        let c0 = p.get_char(0);
        let c1 = p.get_char(1);
        if c0 == '.' && c1 == '.' {
            assert(p@ =~= seq!['.', '.']);
            true
        } else {
            false
        }
    } else {
        false
    }
}

/// Applies one resolution step to an executable stack of components.
fn apply_piece(stack: &mut Vec<String>, piece: &str)
    ensures
        final(stack)@.map_values(|c: String| c@) == resolve_step(
            old(stack)@.map_values(|c: String| c@),
            piece@,
        ),
{
    let ghost before = stack@.map_values(|c: String| c@);
    if piece.unicode_len() == 0 || is_dot_str(piece) {
    } else if is_dot_dot_str(piece) {
        if stack.len() > 0 {
            stack.pop();
            assert(stack@.map_values(|c: String| c@) =~= before.drop_last());
        }
    } else {
        stack.push(piece.to_string());
        assert(stack@.map_values(|c: String| c@) =~= before.push(piece@));
    }
}

/// Splits `path` on `/` and resolves `.` and `..` lexically; the result
/// holds the remaining components, without any root.
pub fn path_components(path: &str) -> (r: Vec<String>)
    ensures
        r@.map_values(|c: String| c@) == normalized_components(path@),
{
    let mut stack: Vec<String> = Vec::new();
    let mut start: usize = 0;
    let mut i: usize = 0;
    let n = path.unicode_len();
    proof {
        assert(path@.take(0) =~= Seq::<char>::empty());
        assert(path@.subrange(0, 0) =~= Seq::<char>::empty());
    }
    while i < n
        invariant
            n == path@.len(),
            start <= i <= n,
            stack@.map_values(|c: String| c@) == resolve(split_slash(path@.take(i as int)).drop_last()),
            split_slash(path@.take(i as int)).last() == path@.subrange(start as int, i as int),
            split_slash(path@.take(i as int)).len() >= 1,
        decreases n - i,
    {
        let c = path.get_char(i);
        proof {
            lemma_split_slash_step(path@, i as int);
        }
        let ghost p = split_slash(path@.take(i as int));
        if c == '/' {
            let piece = path.substring_char(start, i);
            apply_piece(&mut stack, piece);
            proof {
                assert(p.push(Seq::<char>::empty()).drop_last() =~= p);
                assert(p =~= p.drop_last().push(p.last()));
            }
            i = i + 1;
            start = i;
            proof {
                assert(path@.subrange(start as int, i as int) =~= Seq::<char>::empty());
            }
        } else {
            proof {
                let q = p.update(p.len() - 1, p.last().push(c));
                assert(q.drop_last() =~= p.drop_last());
                assert(path@.subrange(start as int, i + 1) =~= path@.subrange(
                    start as int,
                    i as int,
                ).push(c));
            }
            i = i + 1;
        }
    }
    let piece = path.substring_char(start, n);
    apply_piece(&mut stack, piece);
    proof {
        let p = split_slash(path@.take(n as int));
        assert(path@.take(n as int) =~= path@);
        assert(p =~= p.drop_last().push(p.last()));
    }
    stack
}

/// Joins components with single `/` separators.
pub fn join_path(components: &Vec<String>) -> (r: String)
    ensures
        r@ == join_components(components@.map_values(|c: String| c@)),
{
    let ghost cs = components@.map_values(|c: String| c@);
    let mut out = String::new();
    let mut i: usize = 0;
    while i < components.len()
        invariant
            i <= components.len(),
            cs == components@.map_values(|c: String| c@),
            out@ == join_components(cs.take(i as int)),
        decreases components.len() - i,
    {
        proof {
            assert(cs.take(i + 1).drop_last() =~= cs.take(i as int));
        }
        if i > 0 {
            out.append("/");
            proof {
                reveal_strlit("/");
            }
        }
        out.append(components[i].as_str());
        i = i + 1;
        proof {
            if i == 1 {
                assert(out@ =~= cs.take(1)[0]);
            } else {
                assert(out@ =~= join_components(cs.take(i - 1)) + seq!['/'] + cs.take(
                    i as int,
                ).last());
            }
        }
    }
    proof {
        assert(cs.take(components.len() as int) =~= cs);
    }
    out
}

/// Lexically normalizes `path`: a leading `/` is kept, empty and `.` pieces
/// are dropped and each `..` removes the component before it (a `..` with
/// nothing before it is dropped). The file system is never consulted.
pub fn normalize_path(path: &str) -> (r: String)
    ensures
        r@ == normalized_path(path@),
{
    let components = path_components(path);
    let joined = join_path(&components);
    let rooted = path.unicode_len() > 0 && path.get_char(0) == '/';
    if rooted {
        let mut out = String::from_str("/");
        proof {
            reveal_strlit("/");
        }
        out.append(joined.as_str());
        out
    } else {
        joined
    }
}

/// The normalized form of `path` with any leading `/` removed: the path
/// relative to the archive's root.
pub fn normalize_and_strip(path: &str) -> (r: String)
    ensures
        r@ == join_components(normalized_components(path@)),
{
    let components = path_components(path);
    join_path(&components)
}

/// `base` extended by the name `name`; see [`pushed_path`].
pub fn push_path(base: &str, name: &str) -> (r: String)
    ensures
        r@ == pushed_path(base@, name@),
{
    let name_len = name.unicode_len();
    let base_len = base.unicode_len();
    if name_len > 0 && name.get_char(0) == '/' {
        name.to_string()
    } else if base_len == 0 {
        name.to_string()
    } else if base.get_char(base_len - 1) == '/' {
        let mut out = base.to_string();
        out.append(name);
        out
    } else {
        let mut out = base.to_string();
        out.append("/");
        proof {
            reveal_strlit("/");
        }
        out.append(name);
        out
    }
}

/// The name under which an entry at `path` is listed; see
/// [`listed_name_of`].
pub fn listed_name(path: &str) -> (r: String)
    ensures
        r@ == listed_name_of(path@),
{
    match file_name(path) {
        Some(n) => n,
        None => {
            proof {
                reveal_strlit("..");
            }
            String::from_str("..")
        },
    }
}

/// The final component of `path`; see [`file_name_of`].
pub fn file_name(path: &str) -> (r: Option<String>)
    ensures
        r matches Some(s) ==> file_name_of(path@) == Some(s@),
        r is None ==> file_name_of(path@) is None,
{
    let n = path.unicode_len();
    let mut start: usize = 0;
    let mut i: usize = 0;
    let mut last: Option<(usize, usize)> = None;
    proof {
        assert(path@.take(0) =~= Seq::<char>::empty());
        assert(path@.subrange(0, 0) =~= Seq::<char>::empty());
    }
    while i < n
        invariant
            n == path@.len(),
            start <= i <= n,
            split_slash(path@.take(i as int)).last() == path@.subrange(start as int, i as int),
            split_slash(path@.take(i as int)).len() >= 1,
            match last {
                Some((a, b)) => a <= b <= n && last_named(
                    split_slash(path@.take(i as int)).drop_last(),
                ) == Some(path@.subrange(a as int, b as int)),
                None => last_named(split_slash(path@.take(i as int)).drop_last()) is None,
            },
        decreases n - i,
    {
        let c = path.get_char(i);
        proof {
            lemma_split_slash_step(path@, i as int);
        }
        let ghost p = split_slash(path@.take(i as int));
        if c == '/' {
            let piece = path.substring_char(start, i);
            if piece.unicode_len() > 0 && !is_dot_str(piece) {
                last = Some((start, i));
            }
            proof {
                assert(p.push(Seq::<char>::empty()).drop_last() =~= p);
                assert(p =~= p.drop_last().push(p.last()));
            }
            i = i + 1;
            start = i;
            proof {
                assert(path@.subrange(start as int, i as int) =~= Seq::<char>::empty());
            }
        } else {
            proof {
                let q = p.update(p.len() - 1, p.last().push(c));
                assert(q.drop_last() =~= p.drop_last());
                assert(path@.subrange(start as int, i + 1) =~= path@.subrange(
                    start as int,
                    i as int,
                ).push(c));
            }
            i = i + 1;
        }
    }
    let piece = path.substring_char(start, n);
    if piece.unicode_len() > 0 && !is_dot_str(piece) {
        last = Some((start, n));
    }
    proof {
        let p = split_slash(path@.take(n as int));
        assert(path@.take(n as int) =~= path@);
        assert(p =~= p.drop_last().push(p.last()));
    }
    match last {
        Some((a, b)) => {
            let named = path.substring_char(a, b);
            if is_dot_dot_str(named) {
                None
            } else {
                Some(named.to_string())
            }
        },
        None => None,
    }
}

} // verus!

verus! {

/// A component that resolution keeps as it is: it names something, is not
/// `..`, and holds no `/`.
pub open spec fn is_plain(n: Seq<char>) -> bool {
    is_named(n) && !is_dot_dot(n) && !n.contains('/')
}

pub open spec fn all_plain(cs: Seq<Seq<char>>) -> bool {
    forall|i: int| 0 <= i < cs.len() ==> is_plain(#[trigger] cs[i])
}

/// An empty piece resolves to nothing.
pub proof fn lemma_resolve_empty_piece()
    ensures
        resolve(seq![Seq::<char>::empty()]) == Seq::<Seq<char>>::empty(),
{
    let p = seq![Seq::<char>::empty()];
    assert(p.drop_last() =~= Seq::<Seq<char>>::empty());
    assert(resolve(p.drop_last()) == Seq::<Seq<char>>::empty());
    assert(p.last() == Seq::<char>::empty());
    assert(!is_named(p.last()));
}

/// Splitting at a `/` splits the two sides apart.
pub proof fn lemma_split_slash_concat(a: Seq<char>, b: Seq<char>)
    ensures
        split_slash(a + seq!['/'] + b) == split_slash(a) + split_slash(b),
    decreases b.len(),
{
    let s = a + seq!['/'] + b;
    if b.len() == 0 {
        assert(s =~= a.push('/'));
        assert(s.drop_last() =~= a);
        assert(split_slash(b) =~= seq![Seq::<char>::empty()]);
        assert(split_slash(a).push(Seq::<char>::empty()) =~= split_slash(a) + split_slash(b));
    } else {
        let b1 = b.drop_last();
        lemma_split_slash_concat(a, b1);
        lemma_split_slash_nonempty(a);
        lemma_split_slash_nonempty(b1);
        assert(s.drop_last() =~= a + seq!['/'] + b1);
        assert(s.last() == b.last());
        let p = split_slash(a + seq!['/'] + b1);
        assert(p == split_slash(a) + split_slash(b1));
        if b.last() == '/' {
            assert(split_slash(a) + split_slash(b1).push(Seq::<char>::empty()) =~= p.push(
                Seq::<char>::empty(),
            ));
        } else {
            let q = split_slash(b1);
            assert(split_slash(a) + q.update(q.len() - 1, q.last().push(b.last())) =~= p.update(
                p.len() - 1,
                p.last().push(b.last()),
            ));
        }
    }
}

/// A string without `/` is a single piece.
pub proof fn lemma_split_slash_single(n: Seq<char>)
    requires
        !n.contains('/'),
    ensures
        split_slash(n) == seq![n],
    decreases n.len(),
{
    if n.len() == 0 {
        assert(n =~= Seq::<char>::empty());
        assert(split_slash(n) =~= seq![n]);
    } else {
        let m = n.drop_last();
        assert(!m.contains('/')) by {
            if m.contains('/') {
                let k = choose|k: int| 0 <= k < m.len() && m[k] == '/';
                assert(n[k] == '/');
            }
        }
        lemma_split_slash_single(m);
        assert(n.last() != '/') by {
            assert(n[n.len() - 1] == n.last());
        }
        assert(m.push(n.last()) =~= n);
        assert(n.drop_last() =~= m);
        let p = split_slash(m);
        assert(split_slash(n) == p.update(p.len() - 1, p.last().push(n.last())));
        assert(p.update(p.len() - 1, p.last().push(n.last())) =~= seq![n]);
    }
}

/// Joined plain components split back into themselves.
pub proof fn lemma_split_join(cs: Seq<Seq<char>>)
    requires
        all_plain(cs),
        cs.len() > 0,
    ensures
        split_slash(join_components(cs)) == cs,
    decreases cs.len(),
{
    let n = cs.last();
    assert(is_plain(cs[cs.len() - 1]));
    lemma_split_slash_single(n);
    if cs.len() == 1 {
        assert(cs =~= seq![n]);
    } else {
        let c1 = cs.drop_last();
        assert(all_plain(c1)) by {
            assert forall|i: int| 0 <= i < c1.len() implies is_plain(#[trigger] c1[i]) by {
                assert(c1[i] == cs[i]);
            }
        }
        lemma_split_join(c1);
        lemma_split_slash_concat(join_components(c1), n);
        assert(c1 + seq![n] =~= cs);
    }
}

/// Plain components after anything resolve as they are.
pub proof fn lemma_resolve_plain_suffix(a: Seq<Seq<char>>, b: Seq<Seq<char>>)
    requires
        all_plain(b),
    ensures
        resolve(a + b) == resolve(a) + b,
    decreases b.len(),
{
    if b.len() == 0 {
        assert(a + b =~= a);
        assert(resolve(a) + b =~= resolve(a));
    } else {
        let b1 = b.drop_last();
        assert(all_plain(b1)) by {
            assert forall|i: int| 0 <= i < b1.len() implies is_plain(#[trigger] b1[i]) by {
                assert(b1[i] == b[i]);
            }
        }
        lemma_resolve_plain_suffix(a, b1);
        assert((a + b).drop_last() =~= a + b1);
        assert((a + b).last() == b.last());
        assert(is_plain(b[b.len() - 1]));
        assert((resolve(a) + b1).push(b.last()) =~= resolve(a) + b);
    }
}

/// The pieces of a string hold no `/`.
pub proof fn lemma_split_slash_pieces(s: Seq<char>)
    ensures
        forall|i: int| 0 <= i < split_slash(s).len() ==> !(#[trigger] split_slash(s)[i]).contains('/'),
    decreases s.len(),
{
    lemma_split_slash_nonempty(s);
    if s.len() > 0 {
        let d = s.drop_last();
        lemma_split_slash_pieces(d);
        lemma_split_slash_nonempty(d);
        let p = split_slash(d);
        if s.last() != '/' {
            let q = p.update(p.len() - 1, p.last().push(s.last()));
            assert forall|i: int| 0 <= i < q.len() implies !(#[trigger] q[i]).contains('/') by {
                if i == p.len() - 1 {
                    assert(!p[i].contains('/'));
                    if q[i].contains('/') {
                        let k = choose|k: int| 0 <= k < q[i].len() && q[i][k] == '/';
                        if k < p[i].len() {
                            assert(p[i][k] == '/');
                        }
                    }
                } else {
                    assert(!p[i].contains('/'));
                }
            }
        } else {
            let q = p.push(Seq::<char>::empty());
            assert forall|i: int| 0 <= i < q.len() implies !(#[trigger] q[i]).contains('/') by {
                if i < p.len() {
                    assert(!p[i].contains('/'));
                }
            }
        }
    }
}

/// Resolution keeps only plain components of pieces without `/`.
pub proof fn lemma_resolve_plain(pieces: Seq<Seq<char>>)
    requires
        forall|i: int| 0 <= i < pieces.len() ==> !(#[trigger] pieces[i]).contains('/'),
    ensures
        all_plain(resolve(pieces)),
    decreases pieces.len(),
{
    if pieces.len() > 0 {
        let d = pieces.drop_last();
        assert forall|i: int| 0 <= i < d.len() implies !(#[trigger] d[i]).contains('/') by {
            assert(d[i] == pieces[i]);
        }
        lemma_resolve_plain(d);
        let r = resolve(d);
        let l = pieces.last();
        assert(!pieces[pieces.len() - 1].contains('/'));
        if is_named(l) && !is_dot_dot(l) {
            assert forall|i: int| 0 <= i < r.push(l).len() implies is_plain(#[trigger] r.push(l)[i]) by {
                if i < r.len() {
                    assert(is_plain(r[i]));
                }
            }
        } else if is_named(l) && r.len() > 0 {
            assert forall|i: int| 0 <= i < r.drop_last().len() implies is_plain(
                #[trigger] r.drop_last()[i],
            ) by {
                assert(is_plain(r[i]));
            }
        }
    }
}

/// Normalized components are plain.
pub proof fn lemma_normalized_plain(path: Seq<char>)
    ensures
        all_plain(normalized_components(path)),
{
    lemma_split_slash_pieces(path);
    lemma_resolve_plain(split_slash(path));
}

/// Plain components, joined, normalize back to themselves.
pub proof fn lemma_normalize_joined(cs: Seq<Seq<char>>)
    requires
        all_plain(cs),
    ensures
        normalized_components(join_components(cs)) == cs,
        !has_root(join_components(cs)),
{
    if cs.len() == 0 {
        assert(join_components(cs) =~= Seq::<char>::empty());
        assert(split_slash(Seq::<char>::empty()) =~= seq![Seq::<char>::empty()]);
        lemma_resolve_empty_piece();
        assert(cs =~= Seq::<Seq<char>>::empty());
    } else {
        lemma_split_join(cs);
        lemma_resolve_plain_suffix(Seq::empty(), cs);
        assert(Seq::<Seq<char>>::empty() + cs =~= cs);
        assert(resolve(Seq::<Seq<char>>::empty()) =~= Seq::<Seq<char>>::empty());
        assert(resolve(cs) == cs);
        lemma_first_char_of_join(cs);
    }
}

pub proof fn lemma_first_char_of_join(cs: Seq<Seq<char>>)
    requires
        all_plain(cs),
        cs.len() > 0,
    ensures
        join_components(cs).len() > 0,
        join_components(cs)[0] != '/',
    decreases cs.len(),
{
    assert(is_plain(cs[0]));
    if cs.len() == 1 {
        assert(cs[0][0] != '/') by {
            if cs[0][0] == '/' {
                assert(cs[0].contains('/'));
            }
        }
    } else {
        let c1 = cs.drop_last();
        assert(all_plain(c1)) by {
            assert forall|i: int| 0 <= i < c1.len() implies is_plain(#[trigger] c1[i]) by {
                assert(c1[i] == cs[i]);
            }
        }
        lemma_first_char_of_join(c1);
        assert(c1[0] == cs[0]);
    }
}

/// Normalizing a normalized path changes nothing.
pub proof fn lemma_normalize_idempotent(path: Seq<char>)
    ensures
        normalized_path(normalized_path(path)) == normalized_path(path),
{
    let cs = normalized_components(path);
    lemma_normalized_plain(path);
    lemma_normalize_joined(cs);
    let j = join_components(cs);
    if has_root(path) {
        let n = seq!['/'] + j;
        assert(n =~= Seq::<char>::empty() + seq!['/'] + j);
        lemma_split_slash_concat(Seq::empty(), j);
        assert(split_slash(Seq::<char>::empty()) =~= seq![Seq::<char>::empty()]);
        if cs.len() == 0 {
            assert(split_slash(j) =~= seq![Seq::<char>::empty()]);
            assert(split_slash(n) =~= seq![Seq::<char>::empty(), Seq::<char>::empty()]);
            assert(split_slash(n).drop_last() =~= seq![Seq::<char>::empty()]);
            assert(seq![Seq::<char>::empty()].drop_last() =~= Seq::<Seq<char>>::empty());
            assert(normalized_components(n) =~= cs);
        } else {
            lemma_split_join(cs);
            lemma_resolve_plain_suffix(seq![Seq::<char>::empty()], cs);
            assert(seq![Seq::<char>::empty()].drop_last() =~= Seq::<Seq<char>>::empty());
            lemma_resolve_empty_piece();
            assert(Seq::<Seq<char>>::empty() + cs =~= cs);
            assert(normalized_components(n) == cs);
        }
        assert(has_root(n));
    }
}

/// A plain name pushed onto joined plain components normalizes to those
/// components and the name.
pub proof fn lemma_normalize_pushed(cs: Seq<Seq<char>>, name: Seq<char>)
    requires
        all_plain(cs),
        is_plain(name),
    ensures
        normalized_components(pushed_path(join_components(cs), name)) == cs.push(name),
{
    let ext = cs.push(name);
    assert(all_plain(ext)) by {
        assert forall|i: int| 0 <= i < ext.len() implies is_plain(#[trigger] ext[i]) by {
            if i < cs.len() {
                assert(ext[i] == cs[i]);
            }
        }
    }
    assert(!has_root(name)) by {
        if name.len() > 0 && name[0] == '/' {
            assert(name.contains('/'));
        }
    }
    if cs.len() == 0 {
        assert(ext =~= seq![name]);
        lemma_normalize_joined(ext);
    } else {
        let j = join_components(cs);
        lemma_first_char_of_join(cs);
        assert(ext.drop_last() =~= cs);
        assert(j.last() != '/') by {
            lemma_last_char_of_join(cs);
        }
        assert(pushed_path(j, name) == join_components(ext));
        lemma_normalize_joined(ext);
    }
}

pub proof fn lemma_last_char_of_join(cs: Seq<Seq<char>>)
    requires
        all_plain(cs),
        cs.len() > 0,
    ensures
        join_components(cs).len() > 0,
        join_components(cs).last() != '/',
{
    let l = cs.last();
    assert(is_plain(cs[cs.len() - 1]));
    assert(l.last() != '/') by {
        if l.last() == '/' {
            assert(l[l.len() - 1] == '/');
            assert(l.contains('/'));
        }
    }
    if cs.len() > 1 {
        assert((join_components(cs.drop_last()) + seq!['/'] + l).last() == l.last());
    }
}

/// An empty piece in front resolves to nothing.
pub proof fn lemma_resolve_leading_empty(ps: Seq<Seq<char>>)
    ensures
        resolve(seq![Seq::<char>::empty()] + ps) == resolve(ps),
    decreases ps.len(),
{
    let e = seq![Seq::<char>::empty()];
    if ps.len() == 0 {
        assert(e + ps =~= e);
        lemma_resolve_empty_piece();
    } else {
        lemma_resolve_leading_empty(ps.drop_last());
        assert((e + ps).drop_last() =~= e + ps.drop_last());
        assert((e + ps).last() == ps.last());
    }
}

/// A leading `/` changes no component: paths with or without it name the
/// same components, counted from the root.
pub proof fn lemma_leading_slash_components(p: Seq<char>)
    ensures
        normalized_components(seq!['/'] + p) == normalized_components(p),
{
    assert(seq!['/'] + p =~= Seq::<char>::empty() + seq!['/'] + p);
    lemma_split_slash_concat(Seq::empty(), p);
    assert(split_slash(Seq::<char>::empty()) =~= seq![Seq::<char>::empty()]);
    lemma_resolve_leading_empty(split_slash(p));
}

/// A single path component as a directory lists it: not empty, without
/// `/`, and neither `.` nor `..` (any first character, `.` included).
pub open spec fn is_component(n: Seq<char>) -> bool {
    &&& n.len() > 0
    &&& !n.contains('/')
    &&& n != seq!['.']
    &&& n != seq!['.', '.']
}

pub proof fn lemma_component_plain(n: Seq<char>)
    requires
        is_component(n),
    ensures
        is_plain(n),
{
}

/// Normalizing keeps every component other than `.` and `..`: a component
/// added to components normalizes to those components and it (a name
/// such as `.gitignore` is kept like any other).
pub proof fn lemma_normalize_keeps_components(cs: Seq<Seq<char>>, n: Seq<char>)
    requires
        forall|i: int| 0 <= i < cs.len() ==> is_component(#[trigger] cs[i]),
        is_component(n),
    ensures
        normalized_components(pushed_path(join_components(cs), n)) == cs.push(n),
        normalized_components(join_components(cs.push(n))) == cs.push(n),
{
    assert(all_plain(cs)) by {
        assert forall|i: int| 0 <= i < cs.len() implies is_plain(#[trigger] cs[i]) by {
            lemma_component_plain(cs[i]);
        }
    }
    lemma_component_plain(n);
    lemma_normalize_pushed(cs, n);
    let ext = cs.push(n);
    assert(all_plain(ext)) by {
        assert forall|i: int| 0 <= i < ext.len() implies is_plain(#[trigger] ext[i]) by {
            if i < cs.len() {
                assert(ext[i] == cs[i]);
            }
        }
    }
    lemma_normalize_joined(ext);
}

/// The final name of a path that ends in a component is that component,
/// whatever comes before it: `file_name_of(p/n) == Some(n)`, and so the
/// listed name of `p/n` is `n`.
pub proof fn lemma_name_of_pushed(p: Seq<char>, n: Seq<char>)
    requires
        is_component(n),
    ensures
        file_name_of(pushed_path(p, n)) == Some(n),
        listed_name_of(pushed_path(p, n)) == n,
{
    lemma_split_slash_single(n);
    assert(!has_root(n)) by {
        if n[0] == '/' {
            assert(n.contains('/'));
        }
    }
    let q = pushed_path(p, n);
    if p.len() == 0 {
        assert(q == n);
        assert(split_slash(q).last() == n);
    } else {
        let a = if p.last() == '/' {
            p.drop_last()
        } else {
            p
        };
        assert(q =~= a + seq!['/'] + n);
        lemma_split_slash_concat(a, n);
        assert(split_slash(q).last() == n);
    }
    assert(is_named(n));
    assert(split_slash(q).len() > 0);
    assert(!is_dot_dot(n));
}

} // verus!
