use vstd::prelude::*;

use crate::text::{chars_of, concat2, concat3, push_char, string_views, text_equal};

verus! {

/// The pieces of `s` between the separators `sep`; there is always at least one piece.
pub open spec fn split_on(s: Seq<char>, sep: char) -> Seq<Seq<char>>
    decreases s.len(),
{
    if s.len() == 0 {
        seq![Seq::empty()]
    } else {
        let r = split_on(s.drop_last(), sep);
        if s.last() == sep {
            r.push(Seq::empty())
        } else {
            r.update(r.len() - 1, r.last().push(s.last()))
        }
    }
}

pub proof fn lemma_split_on_nonempty(s: Seq<char>, sep: char)
    ensures
        split_on(s, sep).len() >= 1,
    decreases s.len(),
{
    if s.len() > 0 {
        lemma_split_on_nonempty(s.drop_last(), sep);
    }
}

/// A piece of a path that names something: not empty and not `.`.
pub open spec fn is_named_segment(segment: Seq<char>) -> bool {
    segment.len() > 0 && segment != "."@
}

/// The named pieces of a path, in order.
pub open spec fn named_segments(segments: Seq<Seq<char>>) -> Seq<Seq<char>>
    decreases segments.len(),
{
    if segments.len() == 0 {
        Seq::empty()
    } else {
        named_segments(segments.drop_last()) + if is_named_segment(segments.last()) {
            seq![segments.last()]
        } else {
            Seq::empty()
        }
    }
}

/// A path is absolute when it starts with `/`.
pub open spec fn path_is_absolute(s: Seq<char>) -> bool {
    s.len() > 0 && s[0] == '/'
}

/// A relative path that starts with the piece `.`.
pub open spec fn starts_with_current_dir(s: Seq<char>) -> bool {
    s.len() > 0 && s[0] == '.' && (s.len() == 1 || s[1] == '/')
}

/// The components of a (Unix) path, as `std::path::Path::components` yields them: `/` for the
/// root, `.` only at the start of a relative path that starts with it, then the other pieces
/// between separators, with empty pieces and `.` left out.
pub open spec fn path_components(s: Seq<char>) -> Seq<Seq<char>> {
    let head: Seq<Seq<char>> = if path_is_absolute(s) {
        seq!["/"@]
    } else if starts_with_current_dir(s) {
        seq!["."@]
    } else {
        Seq::empty()
    };
    head + named_segments(split_on(s, '/'))
}

/// `PathBuf::push` of one component onto `buf`.
pub open spec fn push_component(buf: Seq<char>, component: Seq<char>) -> Seq<char> {
    if component == "/"@ {
        "/"@
    } else if buf.len() == 0 || buf.last() == '/' {
        buf + component
    } else {
        buf + "/"@ + component
    }
}

/// The path that components collect into.
pub open spec fn render_components(components: Seq<Seq<char>>) -> Seq<char>
    decreases components.len(),
{
    if components.len() == 0 {
        Seq::empty()
    } else {
        push_component(render_components(components.drop_last()), components.last())
    }
}

/// `base.join(path)`: an absolute `path` replaces `base`; otherwise a separator is put between
/// them unless `base` is empty or already ends with one.
pub open spec fn join_path_spec(base: Seq<char>, path: Seq<char>) -> Seq<char> {
    if path_is_absolute(path) {
        path
    } else if base.len() == 0 || base.last() == '/' {
        base + path
    } else {
        base + "/"@ + path
    }
}

/// `prefix` is a prefix of `s`.
pub open spec fn is_prefix_of<A>(prefix: Seq<A>, s: Seq<A>) -> bool {
    prefix.len() <= s.len() && s.take(prefix.len() as int) == prefix
}

/// `path` relative to `base` with its components collected again, if `base` is a prefix of
/// `path` component by component: `path.strip_prefix(base)` collected from its components.
pub open spec fn strip_prefix_spec(base: Seq<char>, path: Seq<char>) -> Option<Seq<char>> {
    let b = path_components(base);
    let p = path_components(path);
    if is_prefix_of(b, p) {
        Some(render_components(p.skip(b.len() as int)))
    } else {
        None
    }
}

/// Whether `path` is absolute.
pub fn is_absolute(path: &str) -> (r: bool)
    ensures
        r == path_is_absolute(path@),
{
    let chars = chars_of(path);
    chars.len() > 0 && chars[0] == '/'
}

/// The components of `path`.
pub fn components(path: &str) -> (r: Vec<String>)
    ensures
        string_views(r@) == path_components(path@),
{
    let chars = chars_of(path);
    let n = chars.len();
    let mut r: Vec<String> = Vec::new();
    if n > 0 && chars[0] == '/' {
        r.push(String::from_str("/"));
    } else if n > 0 && chars[0] == '.' && (n == 1 || chars[1] == '/') {
        r.push(String::from_str("."));
    }
    let ghost head = string_views(r@);
    let mut current = String::new();
    assert(chars@.take(0) =~= Seq::<char>::empty());
    assert(named_segments(split_on(Seq::<char>::empty(), '/').drop_last()) =~= Seq::<Seq<char>>::empty());
    assert(head =~= head + Seq::<Seq<char>>::empty());
    for i in 0..n
        invariant
            n == chars@.len(),
            chars@ == path@,
            split_on(chars@.take(i as int), '/').len() >= 1,
            current@ == split_on(chars@.take(i as int), '/').last(),
            string_views(r@) == head + named_segments(split_on(chars@.take(i as int), '/').drop_last()),
    {
        let c = chars[i];
        let ghost prefix = chars@.take(i as int);
        let ghost segs = split_on(prefix, '/');
        proof {
            assert(chars@.take(i + 1).drop_last() =~= prefix);
            assert(chars@.take(i + 1).last() == c);
        }
        if c == '/' {
            let ghost before = string_views(r@);
            let is_dot = text_equal(current.as_str(), ".");
            if current.as_str().unicode_len() > 0 && !is_dot {
                r.push(current);
                assert(string_views(r@) =~= before.push(segs.last()));
            }
            current = String::new();
            proof {
                let segs2 = split_on(chars@.take(i + 1), '/');
                assert(segs2 == segs.push(Seq::empty()));
                assert(segs2.drop_last() =~= segs);
                assert(segs.drop_last().push(segs.last()) =~= segs);
                assert(named_segments(segs) == named_segments(segs.drop_last()) + if is_named_segment(
                    segs.last(),
                ) {
                    seq![segs.last()]
                } else {
                    Seq::empty()
                });
                assert(string_views(r@) =~= head + named_segments(segs2.drop_last()));
            }
        } else {
            push_char(&mut current, c);
            proof {
                let segs2 = split_on(chars@.take(i + 1), '/');
                assert(segs2 == segs.update(segs.len() - 1, segs.last().push(c)));
                assert(segs2.drop_last() =~= segs.drop_last());
            }
        }
    }
    proof {
        assert(chars@.take(n as int) =~= chars@);
    }
    let ghost segs = split_on(chars@, '/');
    let ghost before = string_views(r@);
    let is_dot = text_equal(current.as_str(), ".");
    if current.as_str().unicode_len() > 0 && !is_dot {
        r.push(current);
        assert(string_views(r@) =~= before.push(segs.last()));
    }
    proof {
        assert(segs.drop_last().push(segs.last()) =~= segs);
        assert(named_segments(segs) == named_segments(segs.drop_last()) + if is_named_segment(
            segs.last(),
        ) {
            seq![segs.last()]
        } else {
            Seq::empty()
        });
        assert(string_views(r@) =~= head + named_segments(segs));
    }
    r
}

/// Collects components into a path, as `PathBuf::from_iter` does.
pub fn collect_components(components: &Vec<String>, start: usize) -> (r: String)
    requires
        start <= components@.len(),
    ensures
        r@ == render_components(string_views(components@).skip(start as int)),
{
    let ghost all = string_views(components@);
    let mut r = String::new();
    let n = components.len();
    assert(all.skip(start as int).take(0) =~= Seq::<Seq<char>>::empty());
    for i in start..n
        invariant
            n == components@.len(),
            start <= n,
            all == string_views(components@),
            r@ == render_components(all.skip(start as int).take(i - start)),
    {
        let c = &components[i];
        let ghost done = all.skip(start as int).take(i - start);
        proof {
            assert(all.skip(start as int).take(i + 1 - start).drop_last() =~= done);
            assert(all.skip(start as int).take(i + 1 - start).last() == c@);
        }
        if text_equal(c.as_str(), "/") {
            r = String::from_str("/");
        } else {
            let chars = chars_of(r.as_str());
            let m = chars.len();
            if m == 0 || chars[m - 1] == '/' {
                r.append(c.as_str());
            } else {
                r.append("/");
                r.append(c.as_str());
            }
        }
    }
    assert(all.skip(start as int).take(n - start) =~= all.skip(start as int));
    r
}

/// `base.join(path)`.
pub fn join_path(base: &str, path: &str) -> (r: String)
    ensures
        r@ == join_path_spec(base@, path@),
{
    if is_absolute(path) {
        return String::from_str(path);
    }
    let chars = chars_of(base);
    let m = chars.len();
    if m == 0 || chars[m - 1] == '/' {
        concat2(base, path)
    } else {
        concat3(base, "/", path)
    }
}

/// Whether the components of `prefix` begin the components of `path`.
pub(crate) fn components_prefix(prefix: &Vec<String>, path: &Vec<String>) -> (r: bool)
    ensures
        r == is_prefix_of(string_views(prefix@), string_views(path@)),
{
    let ghost p = string_views(prefix@);
    let ghost q = string_views(path@);
    if prefix.len() > path.len() {
        return false;
    }
    let n = prefix.len();
    for i in 0..n
        invariant
            n == prefix@.len(),
            n <= path@.len(),
            p == string_views(prefix@),
            q == string_views(path@),
            forall|k: int| 0 <= k < i ==> p[k] == q[k],
    {
        if !text_equal(prefix[i].as_str(), path[i].as_str()) {
            assert(q.take(n as int)[i as int] != p[i as int]);
            return false;
        }
    }
    assert(q.take(n as int) =~= p);
    true
}

/// `path.strip_prefix(base)` with its components collected again, or `None` where `base` does
/// not begin `path` component by component.
pub fn strip_prefix(base: &str, path: &str) -> (r: Option<String>)
    ensures
        opt_view(r) == strip_prefix_spec(base@, path@),
{
    let b = components(base);
    let p = components(path);
    if components_prefix(&b, &p) {
        Some(collect_components(&p, b.len()))
    } else {
        None
    }
}

pub open spec fn opt_view(o: Option<String>) -> Option<Seq<char>> {
    match o {
        Some(s) => Some(s@),
        None => None,
    }
}

} // verus!

verus! {

/// `Path::parent`, up to components: the path without its last component; `None` for a path
/// without components or one that is only the root.
pub open spec fn parent_path_spec(path: Seq<char>) -> Option<Seq<char>> {
    let c = path_components(path);
    if c.len() == 0 || c.last() == "/"@ {
        None
    } else {
        Some(render_components(c.drop_last()))
    }
}

/// The directory that contains `path`.
pub fn parent_path(path: &str) -> (r: Option<String>)
    ensures
        opt_view(r) == parent_path_spec(path@),
{
    let mut c = components(path);
    let n = c.len();
    if n == 0 || text_equal(c[n - 1].as_str(), "/") {
        return None;
    }
    let ghost all = string_views(c@);
    c.pop();
    assert(string_views(c@) =~= all.drop_last());
    assert(string_views(c@).skip(0) =~= string_views(c@));
    Some(collect_components(&c, 0))
}

} // verus!

verus! {

/// A component after the first: a named piece without a separator.
pub open spec fn plain_segment(c: Seq<char>) -> bool {
    is_named_segment(c) && !c.contains('/')
}

/// Components as `path_components` yields them: `/` or `.` may only lead; every other one is a
/// plain segment.
pub open spec fn well_formed_components(cs: Seq<Seq<char>>) -> bool {
    forall|i: int|
        0 <= i < cs.len() ==> plain_segment(#[trigger] cs[i]) || (i == 0 && (cs[i] == "/"@ || cs[i]
            == "."@))
}

proof fn lemma_named_single(x: Seq<char>)
    ensures
        named_segments(seq![x]) == if is_named_segment(x) {
            seq![x]
        } else {
            Seq::<Seq<char>>::empty()
        },
{
    assert(seq![x].drop_last() =~= Seq::<Seq<char>>::empty());
    assert(named_segments(Seq::<Seq<char>>::empty()) =~= Seq::<Seq<char>>::empty());
    assert(seq![x].last() == x);
    assert(Seq::<Seq<char>>::empty() + seq![x] =~= seq![x]);
    assert(Seq::<Seq<char>>::empty() + Seq::<Seq<char>>::empty() =~= Seq::<Seq<char>>::empty());
}

proof fn lemma_split_pieces_lack_separator(s: Seq<char>, sep: char)
    ensures
        forall|i: int| 0 <= i < split_on(s, sep).len() ==> !(#[trigger] split_on(s, sep)[i]).contains(sep),
    decreases s.len(),
{
    lemma_split_on_nonempty(s, sep);
    if s.len() > 0 {
        lemma_split_pieces_lack_separator(s.drop_last(), sep);
        lemma_split_on_nonempty(s.drop_last(), sep);
        let r = split_on(s.drop_last(), sep);
        let t = split_on(s, sep);
        if s.last() == sep {
            assert forall|i: int| 0 <= i < t.len() implies !(#[trigger] t[i]).contains(sep) by {
                if i < r.len() {
                    assert(t[i] == r[i]);
                } else {
                    assert(t[i] =~= Seq::<char>::empty());
                }
            }
        } else {
            assert forall|i: int| 0 <= i < t.len() implies !(#[trigger] t[i]).contains(sep) by {
                if i < r.len() - 1 {
                    assert(t[i] == r[i]);
                } else {
                    let last = r[r.len() - 1];
                    let p = last.push(s.last());
                    assert(t[i] == p);
                    assert(!last.contains(sep));
                    assert forall|k: int| 0 <= k < p.len() implies p[k] != sep by {
                        if k < last.len() {
                            assert(p[k] == last[k]);
                        }
                    }
                }
            }
        }
    }
}

proof fn lemma_named_segments_plain(segs: Seq<Seq<char>>)
    requires
        forall|i: int| 0 <= i < segs.len() ==> !(#[trigger] segs[i]).contains('/'),
    ensures
        forall|i: int| 0 <= i < named_segments(segs).len() ==> plain_segment(#[trigger] named_segments(segs)[i]),
    decreases segs.len(),
{
    if segs.len() > 0 {
        let d = segs.drop_last();
        assert forall|i: int| 0 <= i < d.len() implies !(#[trigger] d[i]).contains('/') by {
            assert(d[i] == segs[i]);
        }
        lemma_named_segments_plain(d);
        let r = named_segments(segs);
        let front = named_segments(d);
        assert(!segs[segs.len() - 1].contains('/'));
        assert forall|i: int| 0 <= i < r.len() implies plain_segment(#[trigger] r[i]) by {
            if i < front.len() {
                assert(r[i] == front[i]);
            }
        }
    }
}

/// Every component list that `path_components` yields is well formed.
proof fn lemma_components_well_formed(s: Seq<char>)
    ensures
        well_formed_components(path_components(s)),
{
    let segs = split_on(s, '/');
    lemma_split_pieces_lack_separator(s, '/');
    lemma_named_segments_plain(segs);
    let named = named_segments(segs);
    let head: Seq<Seq<char>> = if path_is_absolute(s) {
        seq!["/"@]
    } else if starts_with_current_dir(s) {
        seq!["."@]
    } else {
        Seq::empty()
    };
    let cs = path_components(s);
    assert(cs == head + named);
    assert forall|i: int| 0 <= i < cs.len() implies plain_segment(#[trigger] cs[i]) || (i == 0 && (cs[i]
        == "/"@ || cs[i] == "."@)) by {
        if i >= head.len() {
            assert(cs[i] == named[i - head.len()]);
        }
    }
}

proof fn lemma_split_append(a: Seq<char>, b: Seq<char>, sep: char)
    ensures
        split_on(a + seq![sep] + b, sep) == split_on(a, sep) + split_on(b, sep),
    decreases b.len(),
{
    let x = a + seq![sep] + b;
    lemma_split_on_nonempty(a, sep);
    if b.len() == 0 {
        assert(x.drop_last() =~= a);
        assert(x.last() == sep);
        assert(split_on(b, sep) =~= seq![Seq::<char>::empty()]);
        assert(split_on(a, sep).push(Seq::empty()) =~= split_on(a, sep) + seq![Seq::<char>::empty()]);
    } else {
        lemma_split_append(a, b.drop_last(), sep);
        assert(x.drop_last() =~= a + seq![sep] + b.drop_last());
        assert(x.last() == b.last());
        lemma_split_on_nonempty(b.drop_last(), sep);
        let sa = split_on(a, sep);
        let sb = split_on(b.drop_last(), sep);
        let r = sa + sb;
        if b.last() == sep {
            assert(r.push(Seq::empty()) =~= sa + sb.push(Seq::empty()));
        } else {
            assert(r.last() == sb.last());
            assert(r.update(r.len() - 1, r.last().push(b.last())) =~= sa + sb.update(
                sb.len() - 1,
                sb.last().push(b.last()),
            ));
        }
    }
}

proof fn lemma_split_without_separator(c: Seq<char>, sep: char)
    requires
        !c.contains(sep),
    ensures
        split_on(c, sep) == seq![c],
    decreases c.len(),
{
    if c.len() == 0 {
        assert(c =~= Seq::<char>::empty());
    } else {
        let d = c.drop_last();
        assert forall|k: int| 0 <= k < d.len() implies d[k] != sep by {
            assert(d[k] == c[k]);
        }
        lemma_split_without_separator(d, sep);
        assert(c.last() == c[c.len() - 1]);
        assert(c.last() != sep);
        assert(d.push(c.last()) =~= c);
        assert(seq![d].last() == d);
        assert(seq![d].update(0, d.push(c.last())) =~= seq![c]);
    }
}

proof fn lemma_named_append(x: Seq<Seq<char>>, y: Seq<Seq<char>>)
    ensures
        named_segments(x + y) == named_segments(x) + named_segments(y),
    decreases y.len(),
{
    if y.len() == 0 {
        assert(x + y =~= x);
        assert(named_segments(x) + named_segments(y) =~= named_segments(x));
    } else {
        lemma_named_append(x, y.drop_last());
        assert((x + y).drop_last() =~= x + y.drop_last());
        assert((x + y).last() == y.last());
    }
}

/// For a non-empty `a`, the components of `a/b` are those of `a` followed by the named pieces of `b`.
proof fn lemma_components_append(a: Seq<char>, b: Seq<char>)
    requires
        a.len() > 0,
    ensures
        path_components(a + seq!['/'] + b) == path_components(a) + named_segments(split_on(b, '/')),
{
    reveal_strlit(".");
    let x = a + seq!['/'] + b;
    assert(x[0] == a[0]);
    assert(x.len() >= 2);
    if a.len() == 1 {
        assert(x[1] == '/');
    } else {
        assert(x[1] == a[1]);
    }
    lemma_split_append(a, b, '/');
    lemma_named_append(split_on(a, '/'), split_on(b, '/'));
    assert(path_is_absolute(x) == path_is_absolute(a));
    assert(starts_with_current_dir(x) == starts_with_current_dir(a));
}

/// For an `a` that ends with a separator, the components of `a` followed by `b` are those of
/// `a` followed by the named pieces of `b`.
proof fn lemma_components_after_separator(a: Seq<char>, b: Seq<char>)
    requires
        a.len() > 0,
        a.last() == '/',
    ensures
        path_components(a + b) == path_components(a) + named_segments(split_on(b, '/')),
{
    reveal_strlit("/");
    let a2 = a.drop_last();
    let empty = Seq::<char>::empty();
    assert(a =~= a2 + seq!['/'] + empty);
    assert(a + b =~= a2 + seq!['/'] + b);
    assert(split_on(empty, '/') =~= seq![empty]);
    lemma_named_single(empty);
    if a2.len() > 0 {
        lemma_components_append(a2, b);
        lemma_components_append(a2, empty);
        assert(path_components(a) =~= path_components(a2) + Seq::<Seq<char>>::empty());
    } else {
        lemma_split_append(a2, b, '/');
        lemma_split_append(a2, empty, '/');
        lemma_named_append(seq![empty], split_on(b, '/'));
        lemma_named_append(seq![empty], seq![empty]);
        assert(a2 =~= empty);
        assert(path_is_absolute(a + b));
        assert(path_is_absolute(a));
        assert(path_components(a) =~= seq!["/"@]);
        assert(path_components(a + b) =~= seq!["/"@] + named_segments(split_on(b, '/')));
    }
}

/// The components of a plain segment are the segment itself.
proof fn lemma_plain_components(c: Seq<char>)
    requires
        plain_segment(c),
    ensures
        path_components(c) == seq![c],
{
    reveal_strlit(".");
    lemma_split_without_separator(c, '/');
    assert(c.contains(c[0]));
    if c.len() == 1 {
        assert(c[0] != '.') by {
            if c[0] == '.' {
                assert(c =~= "."@);
            }
        }
    } else {
        assert(c.contains(c[1]));
    }
    assert(!path_is_absolute(c));
    assert(!starts_with_current_dir(c));
    lemma_named_single(c);
}

/// Collecting well-formed components into a path and splitting it again gives them back.
proof fn lemma_render_components_round_trip(cs: Seq<Seq<char>>)
    requires
        well_formed_components(cs),
    ensures
        path_components(render_components(cs)) == cs,
        cs.len() > 0 ==> render_components(cs).len() > 0,
    decreases cs.len(),
{
    reveal_strlit("/");
    reveal_strlit(".");
    let empty = Seq::<char>::empty();
    if cs.len() == 0 {
        assert(split_on(empty, '/') =~= seq![empty]);
        lemma_named_single(empty);
        assert(path_components(empty) =~= Seq::<Seq<char>>::empty());
    } else {
        let d = cs.drop_last();
        let c = cs.last();
        assert(c == cs[cs.len() - 1]);
        assert forall|i: int| 0 <= i < d.len() implies plain_segment(#[trigger] d[i]) || (i == 0 && (d[i]
            == "/"@ || d[i] == "."@)) by {
            assert(d[i] == cs[i]);
        }
        lemma_render_components_round_trip(d);
        let buf = render_components(d);
        if d.len() == 0 {
            assert(buf =~= empty);
            if c == "/"@ {
                assert(render_components(cs) == c);
                assert(split_on(c, '/') =~= seq![empty, empty]) by {
                    assert(c.drop_last() =~= empty);
                    assert(split_on(empty, '/') =~= seq![empty]);
                }
                assert(named_segments(seq![empty, empty]) =~= Seq::<Seq<char>>::empty()) by {
                    assert(seq![empty, empty].drop_last() =~= seq![empty]);
                    assert(seq![empty, empty].last() == empty);
                    lemma_named_single(empty);
                }
                assert(cs =~= seq![c]);
            } else if c == "."@ {
                assert(render_components(cs) =~= c);
                assert(split_on(c, '/') =~= seq![c]) by {
                    assert(c.drop_last() =~= empty);
                    assert(split_on(empty, '/') =~= seq![empty]);
                    assert(empty.push('.') =~= c);
                }
                lemma_named_single(c);
                assert(cs =~= seq![c]);
            } else {
                assert(plain_segment(c));
                assert(c.contains(c[0]));
                assert(render_components(cs) =~= c);
                lemma_plain_components(c);
                assert(cs =~= seq![c]);
            }
        } else {
            assert(plain_segment(c));
            assert(c.contains(c[0]));
            assert(c != "/"@) by {
                assert("/"@.contains('/')) by {
                    assert("/"@[0] == '/');
                }
            }
            lemma_split_without_separator(c, '/');
            lemma_named_single(c);
            if buf.last() == '/' {
                assert(render_components(cs) == buf + c);
                lemma_components_after_separator(buf, c);
            } else {
                assert(render_components(cs) == buf + "/"@ + c);
                assert(buf + "/"@ + c =~= buf + seq!['/'] + c);
                lemma_components_append(buf, c);
            }
            assert(cs =~= d + seq![c]);
        }
    }
}

/// The components of `repo` joined with a relative `rest`: those of `repo` followed by the named
/// pieces of `rest`, where `repo` is not empty.
proof fn lemma_join_relative_components(repo: Seq<char>, rest: Seq<char>)
    requires
        repo.len() > 0,
        !path_is_absolute(rest),
    ensures
        path_components(join_path_spec(repo, rest)) == path_components(repo) + named_segments(
            split_on(rest, '/'),
        ),
{
    reveal_strlit("/");
    if repo.last() == '/' {
        lemma_components_after_separator(repo, rest);
    } else {
        assert(repo + "/"@ + rest =~= repo + seq!['/'] + rest);
        lemma_components_append(repo, rest);
    }
}

/// Making a path relative to a repository a second time changes nothing: where joining `path`
/// to `repo` and stripping `repo` again gives `n`, doing the same to `n` gives `n` back.
pub proof fn law_relative_paths_stay_relative(repo: Seq<char>, path: Seq<char>)
    ensures
        strip_prefix_spec(repo, join_path_spec(repo, path)) matches Some(n) ==> strip_prefix_spec(
            repo,
            join_path_spec(repo, n),
        ) == Some(n),
{
    reveal_strlit("/");
    reveal_strlit(".");
    let x = join_path_spec(repo, path);
    let p = path_components(x);
    let r = path_components(repo);
    let k = r.len() as int;
    if is_prefix_of(r, p) {
        let cs = p.skip(k);
        let n = render_components(cs);
        lemma_components_well_formed(x);
        assert(well_formed_components(cs)) by {
            assert forall|i: int| 0 <= i < cs.len() implies plain_segment(#[trigger] cs[i]) || (i == 0 && (
            cs[i] == "/"@ || cs[i] == "."@)) by {
                assert(cs[i] == p[i + k]);
            }
        }
        lemma_render_components_round_trip(cs);
        assert(strip_prefix_spec(repo, x) == Some(n));
        assert(!plain_segment("/"@)) by {
            assert("/"@[0] == '/');
            assert("/"@.contains('/'));
        }
        assert(!plain_segment("."@));
        if repo.len() == 0 {
            lemma_render_components_round_trip(Seq::empty());
            assert(r =~= Seq::<Seq<char>>::empty());
            assert(join_path_spec(repo, n) =~= n);
            assert(cs.skip(0) =~= cs);
            assert(path_components(n).take(0) =~= r);
            assert(strip_prefix_spec(repo, join_path_spec(repo, n)) == Some(n));
        } else if path_is_absolute(n) {
            let named = named_segments(split_on(n, '/'));
            assert(cs == seq!["/"@] + named);
            assert(cs[0] == "/"@);
            assert(k == 0) by {
                if k > 0 {
                    assert(cs[0] == p[k]);
                    assert(plain_segment(p[k]));
                }
            }
            assert(join_path_spec(repo, n) == n);
            assert(cs.skip(0) =~= cs);
            assert(r.len() == 0);
            assert(r =~= Seq::<Seq<char>>::empty());
            assert(path_components(n).take(0) =~= r);
            assert(strip_prefix_spec(repo, join_path_spec(repo, n)) == Some(n));
        } else {
            lemma_join_relative_components(repo, n);
            let named = named_segments(split_on(n, '/'));
            assert("/"@ != "."@) by {
                assert("/"@[0] != "."@[0]);
            }
            assert(!starts_with_current_dir(n)) by {
                if starts_with_current_dir(n) {
                    assert(path_components(n) == seq!["."@] + named);
                    assert(cs[0] == "."@);
                    assert(cs[0] == p[k]);
                    if k > 0 {
                        assert(plain_segment(p[k]));
                        assert(false);
                    } else if path_is_absolute(path) {
                        assert(x == path);
                        assert(p == seq!["/"@] + named_segments(split_on(path, '/')));
                        assert(p[0] == "/"@);
                        assert(false);
                    } else {
                        lemma_join_relative_components(repo, path);
                        let named_path = named_segments(split_on(path, '/'));
                        lemma_split_pieces_lack_separator(path, '/');
                        lemma_named_segments_plain(split_on(path, '/'));
                        assert(p == r + named_path);
                        assert(r.len() == 0);
                        assert(p[0] == named_path[0]);
                        assert(plain_segment(named_path[0]));
                        assert(false);
                    }
                }
            }
            assert(cs =~= named) by {
                assert(path_components(n) == Seq::<Seq<char>>::empty() + named);
            }
            let y = path_components(join_path_spec(repo, n));
            assert(y == r + cs);
            assert(y.take(k) =~= r);
            assert(y.skip(k) =~= cs);
            assert(strip_prefix_spec(repo, join_path_spec(repo, n)) == Some(n));
        }
    }
}

} // verus!
