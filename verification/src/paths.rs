//! Paths: where a path leads from a working directory, and what stands at its end.

use crate::text;
use vstd::prelude::*;

verus! {

broadcast use vstd::string::group_string_axioms;

/// The components that are left when one more is walked: `.` and nothing stay where they are, `..`
/// goes one up, any other goes down.
pub open spec fn stepped(parts: Seq<Seq<char>>, step: Seq<char>) -> Seq<Seq<char>> {
    if step.len() == 0 || step == "."@ {
        parts
    } else if step == ".."@ {
        if parts.len() > 0 {
            parts.drop_last()
        } else {
            parts
        }
    } else {
        parts.push(step)
    }
}

/// Where the components `steps` lead from `parts`.
pub open spec fn walked(parts: Seq<Seq<char>>, steps: Seq<Seq<char>>) -> Seq<Seq<char>>
    decreases steps.len(),
{
    if steps.len() == 0 {
        parts
    } else {
        stepped(walked(parts, steps.drop_last()), steps.last())
    }
}

/// The components of the absolute path that `path` stands for in `cwd`.
pub open spec fn resolved_parts(cwd: Seq<char>, path: Seq<char>) -> Seq<Seq<char>> {
    let base = if path.len() > 0 && path[0] == '/' {
        Seq::empty()
    } else {
        walked(Seq::empty(), text::split(cwd, '/'))
    };
    walked(base, text::split(path, '/'))
}

/// The absolute path that `path` stands for in `cwd`.
pub open spec fn resolved(cwd: Seq<char>, path: Seq<char>) -> Seq<char> {
    "/"@ + text::join(resolved_parts(cwd, path), "/"@)
}

fn walk(parts: &mut Vec<String>, steps: &Vec<String>)
    ensures
        final(parts).deep_view() == walked(old(parts).deep_view(), steps.deep_view()),
{
    let mut i: usize = 0;
    let ghost start = parts.deep_view();
    while i < steps.len()
        invariant
            i <= steps@.len(),
            parts.deep_view() == walked(start, steps.deep_view().take(i as int)),
        decreases steps.len() - i,
    {
        let ghost shown = parts.deep_view();
        assert(steps.deep_view().take(i + 1).drop_last() =~= steps.deep_view().take(i as int));
        let step = steps[i].clone();
        if step.as_str().is_empty() || text::same(step.as_str(), ".") {
        } else if text::same(step.as_str(), "..") {
            if parts.len() > 0 {
                parts.pop();
                assert(parts.deep_view() =~= shown.drop_last());
            }
        } else {
            parts.push(step);
            assert(parts.deep_view() =~= shown.push(step@));
        }
        i += 1;
    }
    assert(steps.deep_view().take(i as int) =~= steps.deep_view());
}

/// The absolute path that `path` stands for in `cwd`.
pub fn resolve_path(cwd: &str, path: &str) -> (r: String)
    ensures
        r@ == resolved(cwd@, path@),
{
    let v = text::chars(path);
    let mut parts: Vec<String> = Vec::new();
    assert(parts.deep_view() =~= Seq::<Seq<char>>::empty());
    if !(v.len() > 0 && v[0] == '/') {
        let base = text::split_at_char(cwd, '/');
        walk(&mut parts, &base);
    }
    let steps = text::split_at_char(path, '/');
    walk(&mut parts, &steps);
    let mut s = "/".to_owned();
    let rest = text::join_with(&parts, "/");
    s.append(rest.as_str());
    s
}

/// The text without the slashes at its end.
pub open spec fn unslashed(s: Seq<char>) -> Seq<char>
    decreases s.len(),
{
    if s.len() > 0 && s.last() == '/' {
        unslashed(s.drop_last())
    } else {
        s
    }
}

/// The text without the slashes at its end.
pub fn trim_slashes(s: &str) -> (r: String)
    ensures
        r@ == unslashed(s@),
{
    let v = text::chars(s);
    let mut n: usize = v.len();
    assert(v@.take(n as int) =~= v@);
    while n > 0 && v[n - 1] == '/'
        invariant
            n <= v@.len(),
            v@ == s@,
            unslashed(v@.take(n as int)) == unslashed(s@),
        decreases n,
    {
        assert(v@.take(n as int).drop_last() =~= v@.take(n - 1));
        n -= 1;
    }
    let t = text::slice(&v, 0, n);
    assert(t@ =~= v@.take(n as int));
    t
}

/// What a name stands for in a directory.
pub open spec fn child(dir: Seq<char>, name: Seq<char>) -> Seq<char> {
    unslashed(dir) + "/"@ + name
}

/// What a name stands for in a directory.
pub fn child_path(dir: &str, name: &str) -> (r: String)
    ensures
        r@ == child(dir@, name@),
{
    let mut s = trim_slashes(dir);
    s.append("/");
    s.append(name);
    s
}

/// Where the last slash stands, or -1 where there is none.
pub open spec fn slash_at(s: Seq<char>) -> int
    decreases s.len(),
{
    if s.len() == 0 {
        -1
    } else if s.last() == '/' {
        s.len() - 1
    } else {
        slash_at(s.drop_last())
    }
}

/// What follows the last slash.
pub open spec fn base_name(s: Seq<char>) -> Seq<char> {
    s.skip(slash_at(s) + 1)
}

/// What stands before the last slash: `/` where that is nothing, `.` where there is no slash.
pub open spec fn dir_name(s: Seq<char>) -> Seq<char> {
    if slash_at(s) < 0 {
        "."@
    } else if slash_at(s) == 0 {
        "/"@
    } else {
        s.take(slash_at(s))
    }
}

/// The place that `slash_at` names holds a slash, and none stands behind it.
pub proof fn lemma_slash_at(s: Seq<char>)
    ensures
        -1 <= slash_at(s) < s.len(),
        slash_at(s) >= 0 ==> s[slash_at(s)] == '/',
        forall|i: int| slash_at(s) < i < s.len() ==> #[trigger] s[i] != '/',
    decreases s.len(),
{
    if s.len() > 0 && s.last() != '/' {
        lemma_slash_at(s.drop_last());
        assert forall|i: int| slash_at(s) < i < s.len() implies #[trigger] s[i] != '/' by {
            if i < s.len() - 1 {
                assert(s.drop_last()[i] == s[i]);
            }
        }
    }
}

/// One more than where the last slash of the first `n` characters stands.
fn after_slash(v: &Vec<char>, n: usize) -> (r: usize)
    requires
        n <= v@.len(),
    ensures
        r <= n,
        r == slash_at(v@.take(n as int)) + 1,
{
    let mut k: usize = n;
    while k > 0 && v[k - 1] != '/'
        invariant
            k <= n <= v@.len(),
            slash_at(v@.take(k as int)) == slash_at(v@.take(n as int)),
        decreases k,
    {
        assert(v@.take(k as int).drop_last() =~= v@.take(k - 1));
        k -= 1;
    }
    k
}

/// What follows the last slash.
pub fn base_of(s: &str) -> (r: String)
    ensures
        r@ == base_name(s@),
{
    let v = text::chars(s);
    assert(v@.take(v@.len() as int) =~= v@);
    let k = after_slash(&v, v.len());
    let t = text::slice(&v, k, v.len());
    assert(t@ =~= s@.skip(k as int));
    t
}

/// What stands before the last slash: `/` where that is nothing, `.` where there is no slash.
pub fn dir_of(s: &str) -> (r: String)
    ensures
        r@ == dir_name(s@),
{
    let v = text::chars(s);
    assert(v@.take(v@.len() as int) =~= v@);
    let k = after_slash(&v, v.len());
    if k == 0 {
        ".".to_owned()
    } else if k == 1 {
        "/".to_owned()
    } else {
        let t = text::slice(&v, 0, k - 1);
        assert(t@ =~= s@.take(k - 1));
        t
    }
}

/// A path without what does not count at its end: slashes, and components that are `.`. The root
/// stays a slash.
pub open spec fn tidied(s: Seq<char>) -> Seq<char>
    decreases s.len(),
{
    if s.len() > 1 && s.last() == '/' {
        tidied(s.drop_last())
    } else if s.len() > 1 && s.last() == '.' && s[s.len() - 2] == '/' {
        tidied(s.drop_last())
    } else {
        s
    }
}

/// The path without its last component. The root and the empty path have none.
pub open spec fn parent(s: Seq<char>) -> Option<Seq<char>> {
    let t = tidied(s);
    if t.len() == 0 || t == seq!['/'] {
        None
    } else if slash_at(t) == 0 {
        Some(seq!['/'])
    } else if slash_at(t) < 0 {
        Some(Seq::empty())
    } else {
        Some(tidied(t.take(slash_at(t))))
    }
}

/// A tidied path is no longer than the path.
pub proof fn lemma_tidied_len(s: Seq<char>)
    ensures
        tidied(s).len() <= s.len(),
    decreases s.len(),
{
    if s.len() > 1 {
        lemma_tidied_len(s.drop_last());
    }
}

/// The path without its last component is shorter than the path.
pub proof fn lemma_parent_shorter(s: Seq<char>)
    ensures
        parent(s) is Some ==> parent(s)->0.len() < s.len(),
{
    let t = tidied(s);
    lemma_tidied_len(s);
    lemma_slash_at(t);
    if t.len() > 0 && t != seq!['/'] {
        if slash_at(t) == 0 {
            if t.len() == 1 {
                assert(t =~= seq!['/']);
            }
        } else if slash_at(t) > 0 {
            lemma_tidied_len(t.take(slash_at(t)));
        }
    }
}

fn tidy_len(v: &Vec<char>, n: usize) -> (r: usize)
    requires
        n <= v@.len(),
    ensures
        r <= n,
        v@.take(r as int) == tidied(v@.take(n as int)),
{
    let mut k: usize = n;
    while k > 1 && (v[k - 1] == '/' || (v[k - 1] == '.' && v[k - 2] == '/'))
        invariant
            k <= n <= v@.len(),
            tidied(v@.take(k as int)) == tidied(v@.take(n as int)),
        decreases k,
    {
        assert(v@.take(k as int).drop_last() =~= v@.take(k - 1));
        k -= 1;
    }
    k
}

/// The path without its last component. The root and the empty path have none.
pub fn parent_of(s: &str) -> (r: Option<String>)
    ensures
        match r {
            Some(p) => parent(s@) == Some(p@),
            None => parent(s@) is None,
        },
{
    let v = text::chars(s);
    assert(v@.take(v@.len() as int) =~= v@);
    let n = tidy_len(&v, v.len());
    let ghost t = tidied(s@);
    assert(v@.take(n as int) == t);
    if n == 0 || (n == 1 && v[0] == '/') {
        proof {
            if n == 1 {
                assert(t =~= seq!['/']);
            }
        }
        return None;
    }
    let k = after_slash(&v, n);
    if k == 1 {
        let p = text::slice(&v, 0, 1);
        proof {
            lemma_slash_at(t);
            assert(p@ =~= seq!['/']);
            assert(t != seq!['/']);
        }
        Some(p)
    } else if k == 0 {
        Some(String::new())
    } else {
        let m = tidy_len(&v, k - 1);
        let p = text::slice(&v, 0, m);
        assert(p@ =~= v@.take(m as int));
        assert(t.take(k - 1) =~= v@.take(k - 1));
        proof {
            lemma_slash_at(t);
        }
        Some(p)
    }
}

/// A resolved path begins with a slash.
pub proof fn lemma_resolved_absolute(cwd: Seq<char>, path: Seq<char>)
    ensures
        resolved(cwd, path).len() > 0,
        resolved(cwd, path)[0] == '/',
{
    reveal_strlit("/");
}

/// No component of a resolved path is empty, `.` or `..`.
pub proof fn lemma_resolved_normal(cwd: Seq<char>, path: Seq<char>)
    ensures
        normal(resolved_parts(cwd, path)),
{
    lemma_walked_normal(Seq::empty(), text::split(cwd, '/'));
    let base = if path.len() > 0 && path[0] == '/' {
        Seq::empty()
    } else {
        walked(Seq::empty(), text::split(cwd, '/'))
    };
    lemma_walked_normal(base, text::split(path, '/'));
}

/// Whether no component is empty, `.` or `..`.
pub open spec fn normal(parts: Seq<Seq<char>>) -> bool {
    forall|i: int|
        0 <= i < parts.len() ==> (#[trigger] parts[i]).len() > 0 && parts[i] != "."@ && parts[i]
            != ".."@
}

proof fn lemma_walked_normal(parts: Seq<Seq<char>>, steps: Seq<Seq<char>>)
    requires
        normal(parts),
    ensures
        normal(walked(parts, steps)),
    decreases steps.len(),
{
    if steps.len() > 0 {
        lemma_walked_normal(parts, steps.drop_last());
    }
}

/// Whether each component is the name of something in a directory.
pub open spec fn plain(parts: Seq<Seq<char>>) -> bool {
    &&& normal(parts)
    &&& forall|i: int| 0 <= i < parts.len() ==> !(#[trigger] parts[i]).contains('/')
}

/// The components with slashes between them.
pub open spec fn slashed(parts: Seq<Seq<char>>) -> Seq<char> {
    text::join(parts, seq!['/'])
}

/// The absolute path with these components.
pub open spec fn rooted(parts: Seq<Seq<char>>) -> Seq<char> {
    seq!['/'] + slashed(parts)
}

proof fn lemma_walked_plain(parts: Seq<Seq<char>>, steps: Seq<Seq<char>>)
    requires
        normal(steps),
    ensures
        walked(parts, steps) == parts + steps,
    decreases steps.len(),
{
    if steps.len() > 0 {
        let front = steps.drop_last();
        assert(normal(front)) by {
            assert forall|i: int| 0 <= i < front.len() implies #[trigger] front[i] == steps[i] by {}
        }
        lemma_walked_plain(parts, front);
        assert(steps.last() == steps[steps.len() - 1]);
        assert(parts + steps =~= (parts + front).push(steps.last()));
    } else {
        assert(parts + steps =~= parts);
    }
}

proof fn lemma_walked_add(parts: Seq<Seq<char>>, a: Seq<Seq<char>>, b: Seq<Seq<char>>)
    ensures
        walked(parts, a + b) == walked(walked(parts, a), b),
    decreases b.len(),
{
    if b.len() > 0 {
        lemma_walked_add(parts, a, b.drop_last());
        assert((a + b).drop_last() =~= a + b.drop_last());
        assert((a + b).last() == b.last());
    } else {
        assert(a + b =~= a);
    }
}

proof fn lemma_split_rooted(parts: Seq<Seq<char>>)
    requires
        plain(parts),
    ensures
        walked(Seq::empty(), text::split(rooted(parts), '/')) == parts,
{
    let none = Seq::<Seq<char>>::empty();
    let empty = Seq::<char>::empty();
    let rest = if parts.len() > 0 {
        parts
    } else {
        seq![empty]
    };
    let all = seq![empty] + rest;
    text::lemma_join_first(empty, rest, seq!['/']);
    assert(text::join(all, seq!['/']) =~= rooted(parts));
    assert forall|i: int| 0 <= i < all.len() implies !(#[trigger] all[i]).contains('/') by {
        if i > 0 && parts.len() > 0 {
            assert(all[i] == parts[i - 1]);
        }
    }
    text::lemma_split_join(all, '/');
    lemma_walked_add(none, seq![empty], rest);
    let one = seq![empty];
    assert(one.drop_last() =~= none);
    assert(walked(none, one.drop_last()) == none);
    assert(walked(none, one) == none);
    if parts.len() > 0 {
        lemma_walked_plain(none, parts);
        assert(none + parts =~= parts);
    } else {
        assert(parts =~= none);
    }
}

/// A path of names in a working directory names what they lead to from there, an absolute path of
/// names names itself, and no path at all names the working directory.
pub proof fn lemma_resolved_names(
    cwd: Seq<Seq<char>>,
    names: Seq<Seq<char>>,
    elsewhere: Seq<char>,
)
    requires
        plain(cwd),
        plain(names),
    ensures
        resolved(rooted(cwd), slashed(names)) == rooted(cwd + names),
        resolved(elsewhere, rooted(names)) == rooted(names),
{
    let none = Seq::<Seq<char>>::empty();
    let path = slashed(names);
    reveal_strlit("/");
    assert("/"@ =~= seq!['/']);
    lemma_split_rooted(cwd);
    lemma_split_rooted(names);
    assert(rooted(names)[0] == '/');
    assert(resolved_parts(elsewhere, rooted(names)) == names);
    if names.len() > 0 {
        text::lemma_split_join(names, '/');
        lemma_walked_plain(cwd, names);
        assert(path.len() > 0 && path[0] != '/') by {
            let first = names[0];
            assert(first.len() > 0 && !first.contains('/'));
            assert(first.contains(first[0]));
            if names.len() > 1 {
                text::lemma_join_first(first, names.skip(1), seq!['/']);
                assert(names =~= seq![first] + names.skip(1));
            }
        }
    } else {
        let empty = Seq::<char>::empty();
        assert(path =~= empty);
        assert(text::split(empty, '/') =~= seq![empty]);
        let one = seq![empty];
        assert(one.drop_last() =~= none);
        assert(walked(cwd, one.drop_last()) == cwd);
        assert(walked(cwd, one) == cwd);
        assert(cwd + names =~= cwd);
    }
}

proof fn lemma_begins_alike(a: Seq<Seq<char>>, b: Seq<Seq<char>>)
    requires
        a.len() > 1,
        b.len() > 1,
        a[0] == b[0],
    ensures
        slashed(a).len() > 0,
        slashed(b).len() > 0,
        slashed(a)[0] == slashed(b)[0],
{
    text::lemma_join_first(a[0], a.skip(1), seq!['/']);
    text::lemma_join_first(b[0], b.skip(1), seq!['/']);
    assert(a =~= seq![a[0]] + a.skip(1));
    assert(b =~= seq![b[0]] + b.skip(1));
}

/// On the way along a path, `.` and an empty component change nothing, and `..` undoes the name
/// before it.
pub proof fn lemma_resolved_steps(
    cwd: Seq<char>,
    a: Seq<Seq<char>>,
    name: Seq<char>,
    b: Seq<Seq<char>>,
)
    requires
        a.len() > 0,
        b.len() > 0,
        forall|i: int| 0 <= i < a.len() ==> !(#[trigger] a[i]).contains('/'),
        forall|i: int| 0 <= i < b.len() ==> !(#[trigger] b[i]).contains('/'),
        plain(seq![name]),
    ensures
        resolved(cwd, slashed(a + seq![seq!['.']] + b)) == resolved(cwd, slashed(a + b)),
        resolved(cwd, slashed(a + seq![Seq::empty()] + b)) == resolved(cwd, slashed(a + b)),
        resolved(cwd, slashed(a + seq![name, seq!['.', '.']] + b)) == resolved(
            cwd,
            slashed(a + b),
        ),
{
    reveal_strlit(".");
    reveal_strlit("..");
    assert("."@ =~= seq!['.']);
    assert(".."@ =~= seq!['.', '.']);
    assert(seq![name][0] == name);
    let dot = seq![seq!['.']];
    let nothing = seq![Seq::<char>::empty()];
    let back = seq![name, seq!['.', '.']];
    lemma_resolved_through(cwd, a, dot, b);
    lemma_resolved_through(cwd, a, nothing, b);
    lemma_resolved_through(cwd, a, back, b);
}

proof fn lemma_resolved_through(
    cwd: Seq<char>,
    a: Seq<Seq<char>>,
    mid: Seq<Seq<char>>,
    b: Seq<Seq<char>>,
)
    requires
        a.len() > 0,
        b.len() > 0,
        forall|i: int| 0 <= i < a.len() ==> !(#[trigger] a[i]).contains('/'),
        forall|i: int| 0 <= i < b.len() ==> !(#[trigger] b[i]).contains('/'),
        mid == seq![seq!['.']] || mid == seq![Seq::<char>::empty()] || (mid.len() == 2 && mid[1]
            == seq!['.', '.'] && plain(seq![mid[0]])),
    ensures
        resolved(cwd, slashed(a + mid + b)) == resolved(cwd, slashed(a + b)),
{
    reveal_strlit(".");
    reveal_strlit("..");
    assert("."@ =~= seq!['.']);
    assert(".."@ =~= seq!['.', '.']);
    let long = a + mid + b;
    let short = a + b;
    if mid.len() == 2 {
        assert(seq![mid[0]][0] == mid[0]);
    }
    assert forall|i: int| 0 <= i < long.len() implies !(#[trigger] long[i]).contains('/') by {
        if i < a.len() {
            assert(long[i] == a[i]);
        } else if i < a.len() + mid.len() {
            assert(long[i] == mid[i - a.len()]);
        } else {
            assert(long[i] == b[i - a.len() - mid.len()]);
        }
    }
    assert forall|i: int| 0 <= i < short.len() implies !(#[trigger] short[i]).contains('/') by {
        if i < a.len() {
            assert(short[i] == a[i]);
        } else {
            assert(short[i] == b[i - a.len()]);
        }
    }
    text::lemma_split_join(long, '/');
    text::lemma_split_join(short, '/');
    lemma_begins_alike(long, short);
    assert forall|parts: Seq<Seq<char>>| #[trigger] walked(parts, mid) == parts by {
        if mid.len() == 2 {
            let one = mid.drop_last();
            assert(one.drop_last() =~= Seq::<Seq<char>>::empty());
            assert(walked(parts, one.drop_last()) == parts);
            assert(walked(parts, one) == parts.push(mid[0]));
            assert(parts.push(mid[0]).drop_last() =~= parts);
        } else {
            assert(mid.drop_last() =~= Seq::<Seq<char>>::empty());
            assert(walked(parts, mid.drop_last()) == parts);
        }
    }
    let base = if slashed(long)[0] == '/' {
        Seq::empty()
    } else {
        walked(Seq::empty(), text::split(cwd, '/'))
    };
    lemma_walked_add(base, a + mid, b);
    lemma_walked_add(base, a, mid);
    lemma_walked_add(base, a, b);
    assert(walked(walked(base, a), mid) == walked(base, a));
}

/// Behind the root, `..` changes nothing.
pub proof fn lemma_root_is_its_own_parent(cwd: Seq<char>, b: Seq<Seq<char>>)
    requires
        b.len() > 0,
        forall|i: int| 0 <= i < b.len() ==> !(#[trigger] b[i]).contains('/'),
    ensures
        resolved(cwd, rooted(seq![seq!['.', '.']] + b)) == resolved(cwd, rooted(b)),
{
    reveal_strlit(".");
    reveal_strlit("..");
    assert(".."@ =~= seq!['.', '.']);
    let none = Seq::<Seq<char>>::empty();
    let empty = Seq::<char>::empty();
    let up = seq![seq!['.', '.']];
    let long = seq![empty] + (up + b);
    let short = seq![empty] + b;
    text::lemma_join_first(empty, up + b, seq!['/']);
    text::lemma_join_first(empty, b, seq!['/']);
    assert(slashed(long) =~= rooted(up + b));
    assert(slashed(short) =~= rooted(b));
    assert forall|i: int| 0 <= i < long.len() implies !(#[trigger] long[i]).contains('/') by {
        if i > 1 {
            assert(long[i] == b[i - 2]);
        }
    }
    assert forall|i: int| 0 <= i < short.len() implies !(#[trigger] short[i]).contains('/') by {
        if i > 0 {
            assert(short[i] == b[i - 1]);
        }
    }
    text::lemma_split_join(long, '/');
    text::lemma_split_join(short, '/');
    let start = seq![empty] + up;
    assert(long =~= start + b);
    lemma_walked_add(none, start, b);
    lemma_walked_add(none, seq![empty], b);
    let one = seq![empty];
    assert(one.drop_last() =~= none);
    assert(walked(none, one.drop_last()) == none);
    assert(walked(none, one) == none);
    assert(start.drop_last() =~= one);
    assert(walked(none, start) == none);
}

proof fn lemma_slash_found(a: Seq<char>, name: Seq<char>)
    requires
        !name.contains('/'),
    ensures
        slash_at(a + seq!['/'] + name) == a.len(),
    decreases name.len(),
{
    let s = a + seq!['/'] + name;
    if name.len() > 0 {
        assert(name.contains(name.last()));
        let shorter = name.drop_last();
        assert(!shorter.contains('/')) by {
            if shorter.contains('/') {
                let k = choose|k: int| 0 <= k < shorter.len() && shorter[k] == '/';
                assert(name[k] == '/');
            }
        }
        assert(s.drop_last() =~= a + seq!['/'] + shorter);
        lemma_slash_found(a, shorter);
    } else {
        assert(s.last() == '/');
    }
}

proof fn lemma_no_slash(name: Seq<char>)
    requires
        !name.contains('/'),
    ensures
        slash_at(name) == -1,
{
    lemma_slash_at(name);
    if slash_at(name) >= 0 {
        assert(name[slash_at(name)] == '/');
    }
}

/// A path is the directory that holds its last component, a slash, and that component. A path
/// without a slash is a name in the present directory.
pub proof fn lemma_last_component(dir: Seq<char>, name: Seq<char>)
    requires
        !name.contains('/'),
    ensures
        base_name(dir + seq!['/'] + name) == name,
        dir_name(dir + seq!['/'] + name) == if dir.len() > 0 {
            dir
        } else {
            seq!['/']
        },
        base_name(name) == name,
        dir_name(name) == seq!['.'],
{
    let s = dir + seq!['/'] + name;
    lemma_slash_found(dir, name);
    lemma_no_slash(name);
    reveal_strlit("/");
    reveal_strlit(".");
    assert("/"@ =~= seq!['/']);
    assert("."@ =~= seq!['.']);
    assert(s.skip(dir.len() as int + 1) =~= name);
    assert(s.take(dir.len() as int) =~= dir);
    assert(name.skip(0) =~= name);
}

/// The parent of a path is the path without its last name, and slashes behind that name do not
/// count.
pub proof fn lemma_parent_of_name(parts: Seq<Seq<char>>, name: Seq<char>)
    requires
        plain(parts),
        plain(seq![name]),
    ensures
        parent(rooted(parts.push(name))) == Some(rooted(parts)),
        parent(rooted(parts.push(name)).push('/')) == Some(rooted(parts)),
        parent(name) == Some(Seq::<char>::empty()),
{
    assert(seq![name][0] == name);
    reveal_strlit(".");
    assert("."@ =~= seq!['.']);
    let s = rooted(parts.push(name));
    let front = if parts.len() > 0 {
        rooted(parts)
    } else {
        Seq::<char>::empty()
    };
    assert(parts.push(name).drop_last() =~= parts);
    assert(s =~= front + seq!['/'] + name);
    lemma_tidy_name(front, name);
    assert(s.push('/').drop_last() =~= s);
    lemma_slash_found(front, name);
    assert(s.take(front.len() as int) =~= front);
    assert(s != seq!['/']) by {
        assert(s.len() > 1);
    }
    lemma_no_slash(name);
    assert(tidied(name) == name) by {
        if name.len() > 1 {
            assert(name.contains(name.last()));
            assert(name.contains(name[name.len() - 2]));
        }
    }
    assert(name != seq!['/']) by {
        assert(name.contains(name[0]));
    }
    if parts.len() > 0 {
        let last = parts.last();
        let before = if parts.len() > 1 {
            rooted(parts.drop_last())
        } else {
            Seq::<char>::empty()
        };
        assert(front =~= before + seq!['/'] + last);
        assert(parts[parts.len() - 1] == last);
        lemma_tidy_name(before, last);
    } else {
        assert(rooted(parts) =~= seq!['/']);
    }
}

proof fn lemma_tidy_name(front: Seq<char>, name: Seq<char>)
    requires
        plain(seq![name]),
    ensures
        tidied(front + seq!['/'] + name) == front + seq!['/'] + name,
{
    assert(seq![name][0] == name);
    reveal_strlit(".");
    assert("."@ =~= seq!['.']);
    let s = front + seq!['/'] + name;
    assert(s.last() == name.last());
    assert(name.contains(name.last()));
    if name.last() == '.' {
        if name.len() == 1 {
            assert(name =~= seq!['.']);
        } else {
            assert(s[s.len() - 2] == name[name.len() - 2]);
            assert(name.contains(name[name.len() - 2]));
        }
    }
}

/// What a name stands for in a directory is the same with and without slashes behind the directory.
pub proof fn lemma_child_of_directory(parts: Seq<Seq<char>>, name: Seq<char>)
    requires
        plain(parts),
    ensures
        child(rooted(parts), name) == rooted(parts.push(name)),
        child(rooted(parts).push('/'), name) == rooted(parts.push(name)),
{
    reveal_strlit("/");
    assert("/"@ =~= seq!['/']);
    let s = rooted(parts);
    assert(s.push('/').drop_last() =~= s);
    assert(parts.push(name).drop_last() =~= parts);
    if parts.len() > 0 {
        let last = parts.last();
        assert(parts[parts.len() - 1] == last);
        assert(last.contains(last.last()));
        assert(s.last() == last.last());
        assert(unslashed(s) == s);
    } else {
        assert(s =~= seq!['/']);
        assert(s.drop_last() =~= Seq::<char>::empty());
        assert(unslashed(s.drop_last()) =~= Seq::<char>::empty());
    }
    assert(child(s, name) =~= rooted(parts.push(name)));
    assert(child(s.push('/'), name) =~= rooted(parts.push(name)));
}

} // verus!
