//! Paths: sequences of names separated by `/`.

use vstd::prelude::*;
use vstd::string::StringSliceAdditionalSpecFns;

verus! {

/// The byte `/`.
pub const SEP: u8 = 47;

/// The byte `.`.
pub const DOT: u8 = 46;

/// The names of the path from position `i` on, where `cur` holds the bytes
/// of the name that is being read and `acc` the names read so far. A name
/// is a longest run of bytes without `/`; empty names do not count.
pub open spec fn parse(p: Seq<u8>, i: int, cur: Seq<u8>, acc: Seq<Seq<u8>>) -> Seq<Seq<u8>>
    decreases p.len() - i,
{
    if i >= p.len() {
        if cur.len() > 0 {
            acc.push(cur)
        } else {
            acc
        }
    } else if p[i] == SEP {
        if cur.len() > 0 {
            parse(p, i + 1, Seq::empty(), acc.push(cur))
        } else {
            parse(p, i + 1, Seq::empty(), acc)
        }
    } else {
        parse(p, i + 1, cur.push(p[i]), acc)
    }
}

/// The names of the path.
pub open spec fn names_of(p: Seq<u8>) -> Seq<Seq<u8>> {
    parse(p, 0, Seq::empty(), Seq::empty())
}

/// Whether every one of the names has a byte and none holds a `/`.
pub open spec fn plain_names(names: Seq<Seq<u8>>) -> bool {
    forall|j: int|
        0 <= j < names.len() ==> (#[trigger] names[j]).len() > 0 && !names[j].contains(SEP)
}

/// Whether every byte of the names is a byte of `p`.
pub open spec fn bytes_of(names: Seq<Seq<u8>>, p: Seq<u8>) -> bool {
    forall|j: int, q: int|
        0 <= j < names.len() && 0 <= q < names[j].len() ==> p.contains(#[trigger] names[j][q])
}

/// Reading on keeps the names plain; see `lemma_names_plain`.
proof fn lemma_parse_plain(p: Seq<u8>, i: int, cur: Seq<u8>, acc: Seq<Seq<u8>>)
    requires
        0 <= i,
        plain_names(acc),
        bytes_of(acc, p),
        !cur.contains(SEP),
        forall|q: int| 0 <= q < cur.len() ==> p.contains(#[trigger] cur[q]),
    ensures
        plain_names(parse(p, i, cur, acc)),
        bytes_of(parse(p, i, cur, acc), p),
    decreases p.len() - i,
{
    let more = acc.push(cur);
    if cur.len() > 0 {
        assert forall|j: int| 0 <= j < more.len() implies (#[trigger] more[j]).len() > 0
            && !more[j].contains(SEP) by {
            if j < acc.len() {
                assert(more[j] == acc[j]);
            }
        }
        assert forall|j: int, q: int|
            0 <= j < more.len() && 0 <= q < more[j].len() implies p.contains(
            #[trigger] more[j][q],
        ) by {
            if j < acc.len() {
                assert(more[j] == acc[j]);
                assert(p.contains(acc[j][q]));
            }
        }
    }
    if i < p.len() {
        if p[i] == SEP {
            if cur.len() > 0 {
                lemma_parse_plain(p, i + 1, Seq::empty(), more);
            } else {
                lemma_parse_plain(p, i + 1, Seq::empty(), acc);
            }
        } else {
            let longer = cur.push(p[i]);
            assert forall|k: int| 0 <= k < longer.len() implies longer[k] != SEP && p.contains(
                #[trigger] longer[k],
            ) by {
                if k < cur.len() {
                    assert(cur.contains(cur[k]));
                    assert(p.contains(cur[k]));
                } else {
                    assert(p[i] == longer[k]);
                }
            }
            lemma_parse_plain(p, i + 1, longer, acc);
        }
    }
}

/// The names of a path are its runs of bytes between the `/`: every name
/// has a byte, no name holds a `/`, and every byte of a name is a byte of
/// the path.
pub proof fn lemma_names_plain(p: Seq<u8>)
    ensures
        plain_names(names_of(p)),
        bytes_of(names_of(p), p),
{
    lemma_parse_plain(p, 0, Seq::empty(), Seq::empty());
}

/// The names as mathematics.
pub open spec fn names_view(v: Seq<Vec<u8>>) -> Seq<Seq<u8>> {
    Seq::new(v.len(), |i: int| v[i]@)
}

/// The names of the path; see `names_of`.
pub fn components(path: &[u8]) -> (names: Vec<Vec<u8>>)
    ensures
        names_view(names@) == names_of(path@),
{
    let n = path.len();
    let mut acc: Vec<Vec<u8>> = Vec::new();
    let mut cur: Vec<u8> = Vec::new();
    let mut i: usize = 0;
    proof {
        assert(names_view(acc@) =~= Seq::<Seq<u8>>::empty());
    }
    while i < n
        invariant
            i <= n,
            n == path@.len(),
            names_of(path@) == parse(path@, i as int, cur@, names_view(acc@)),
        decreases n - i,
    {
        if path[i] == SEP {
            if cur.len() > 0 {
                let ghost before = names_view(acc@);
                let ghost c = cur@;
                acc.push(cur);
                cur = Vec::new();
                proof {
                    assert(names_view(acc@) =~= before.push(c));
                }
            } else {
                proof {
                    assert(cur@ =~= Seq::<u8>::empty());
                }
            }
        } else {
            cur.push(path[i]);
        }
        i = i + 1;
    }
    if cur.len() > 0 {
        let ghost before = names_view(acc@);
        let ghost c = cur@;
        acc.push(cur);
        proof {
            assert(names_view(acc@) =~= before.push(c));
        }
    }
    acc
}

/// The name is `.`.
pub open spec fn is_dot(name: Seq<u8>) -> bool {
    name.len() == 1 && name[0] == DOT
}

/// The name is `..`.
pub open spec fn is_dotdot(name: Seq<u8>) -> bool {
    name.len() == 2 && name[0] == DOT && name[1] == DOT
}

/// The names that remain of the first `k` of `names` when `.` is dropped
/// and `..` takes back the name before it, if there is one.
pub open spec fn normalize(names: Seq<Seq<u8>>, k: int) -> Seq<Seq<u8>>
    decreases k,
{
    if k <= 0 {
        Seq::empty()
    } else {
        let before = normalize(names, k - 1);
        let name = names[k - 1];
        if is_dot(name) {
            before
        } else if is_dotdot(name) {
            if before.len() > 0 {
                before.drop_last()
            } else {
                before
            }
        } else {
            before.push(name)
        }
    }
}

/// What remains of the names holds no `.` and no `..`, and each name that
/// remains is one of the names.
pub proof fn lemma_normalize_plain(names: Seq<Seq<u8>>, k: int)
    requires
        0 <= k <= names.len(),
    ensures
        forall|j: int|
            0 <= j < normalize(names, k).len() ==> !is_dot(#[trigger] normalize(names, k)[j])
                && !is_dotdot(normalize(names, k)[j]) && names.contains(normalize(names, k)[j]),
        normalize(names, k).len() <= k,
    decreases k,
{
    if k > 0 {
        lemma_normalize_plain(names, k - 1);
        let before = normalize(names, k - 1);
        let name = names[k - 1];
        if !is_dot(name) && !is_dotdot(name) {
            let after = before.push(name);
            assert forall|j: int| 0 <= j < after.len() implies !is_dot(#[trigger] after[j])
                && !is_dotdot(after[j]) && names.contains(after[j]) by {
                if j < before.len() {
                    assert(after[j] == before[j]);
                }
            }
        } else if is_dotdot(name) && before.len() > 0 {
            let after = before.drop_last();
            assert forall|j: int| 0 <= j < after.len() implies !is_dot(#[trigger] after[j])
                && !is_dotdot(after[j]) && names.contains(after[j]) by {
                assert(after[j] == before[j]);
            }
        }
    }
}

/// The path that the first `k` of `names` make: each with a `/` before it.
pub open spec fn render(names: Seq<Seq<u8>>, k: int) -> Seq<u8>
    decreases k,
{
    if k <= 0 {
        Seq::empty()
    } else {
        render(names, k - 1).push(SEP) + names[k - 1]
    }
}

/// The absolute path without `.` and `..` that names what `p` names.
pub open spec fn canonical(p: Seq<u8>) -> Seq<u8> {
    let names = normalize(names_of(p), names_of(p).len() as int);
    if names.len() == 0 {
        seq![SEP]
    } else {
        render(names, names.len() as int)
    }
}

/// Reading a run of bytes without `/` adds the run to the name that is
/// being read.
proof fn lemma_parse_run(p: Seq<u8>, i: int, cur: Seq<u8>, acc: Seq<Seq<u8>>, m: int)
    requires
        0 <= i,
        0 <= m,
        i + m <= p.len(),
        forall|j: int| i <= j < i + m ==> p[j] != SEP,
    ensures
        parse(p, i, cur, acc) == parse(p, i + m, cur + p.subrange(i, i + m), acc),
    decreases m,
{
    if m == 0 {
        assert(cur + p.subrange(i, i) =~= cur);
    } else {
        lemma_parse_run(p, i + 1, cur.push(p[i]), acc, m - 1);
        assert(cur.push(p[i]) + p.subrange(i + 1, i + m) =~= cur + p.subrange(i, i + m));
    }
}

/// The length of the path that the first `k` names make.
pub open spec fn render_len(names: Seq<Seq<u8>>, k: int) -> int
    decreases k,
{
    if k <= 0 {
        0
    } else {
        render_len(names, k - 1) + 1 + names[k - 1].len()
    }
}

/// Reading a text that begins with the path that the first `k` names make
/// arrives behind that path with the last of them as the name that is
/// being read, and the names before it as the names read so far.
proof fn lemma_parse_render(names: Seq<Seq<u8>>, k: int, t: Seq<u8>)
    requires
        plain_names(names),
        1 <= k <= names.len(),
        render(names, k).len() <= t.len(),
        t.take(render(names, k).len() as int) == render(names, k),
    ensures
        render(names, k).len() == render_len(names, k),
        parse(t, 0, Seq::empty(), Seq::empty()) == parse(
            t,
            render_len(names, k),
            names[k - 1],
            names.take(k - 1),
        ),
    decreases k,
{
    let before = render(names, k - 1);
    let whole = render(names, k);
    let name = names[k - 1];
    let l0 = before.len() as int;
    assert(whole == before.push(SEP) + name);
    assert(t.take(l0) =~= before) by {
        assert forall|j: int| 0 <= j < l0 implies t[j] == before[j] by {
            assert(t.take(whole.len() as int)[j] == whole[j]);
        }
    }
    assert(t[l0] == SEP) by {
        assert(t.take(whole.len() as int)[l0] == whole[l0]);
    }
    assert forall|j: int| l0 + 1 <= j < l0 + 1 + name.len() implies t[j] != SEP by {
        assert(t.take(whole.len() as int)[j] == whole[j]);
        assert(whole[j] == name[j - l0 - 1]);
        assert(name.contains(name[j - l0 - 1]));
    }
    assert(t.subrange(l0 + 1, l0 + 1 + name.len()) =~= name) by {
        assert forall|j: int| 0 <= j < name.len() implies t[l0 + 1 + j] == name[j] by {
            assert(t.take(whole.len() as int)[l0 + 1 + j] == whole[l0 + 1 + j]);
        }
    }
    let e = Seq::<u8>::empty();
    let none = Seq::<Seq<u8>>::empty();
    assert(whole.len() == l0 + 1 + name.len());
    assert(render_len(names, k) == render_len(names, k - 1) + 1 + name.len());
    if k == 1 {
        assert(before =~= e);
        assert(render_len(names, 0) == 0);
        assert(parse(t, 0, e, none) == parse(t, 1, e, none));
        lemma_parse_run(t, 1, e, none, name.len() as int);
        assert(e + name =~= name);
        assert(names.take(0) =~= none);
    } else {
        lemma_parse_render(names, k - 1, t);
        let prev = names[k - 2];
        assert(prev.len() > 0);
        assert(l0 == render_len(names, k - 1));
        assert(names.take(k - 2).push(prev) =~= names.take(k - 1));
        assert(parse(t, l0, prev, names.take(k - 2)) == parse(t, l0 + 1, e, names.take(k - 1)));
        lemma_parse_run(t, l0 + 1, e, names.take(k - 1), name.len() as int);
        assert(e + name =~= name);
    }
}

/// The path that plain names make has these names and no others.
pub proof fn lemma_names_of_render(names: Seq<Seq<u8>>)
    requires
        plain_names(names),
    ensures
        names_of(render(names, names.len() as int)) == names,
{
    let n = names.len() as int;
    let t = render(names, n);
    if n == 0 {
        assert(t =~= Seq::<u8>::empty());
        assert(names =~= Seq::<Seq<u8>>::empty());
    } else {
        assert(t.take(t.len() as int) =~= t);
        lemma_parse_render(names, n, t);
        assert(names[n - 1].len() > 0);
        assert(names.take(n - 1).push(names[n - 1]) =~= names);
    }
}

/// Names without `.` and `..` remain as they are.
pub proof fn lemma_normalize_same(names: Seq<Seq<u8>>, k: int)
    requires
        0 <= k <= names.len(),
        forall|j: int| 0 <= j < names.len() ==> !is_dot(#[trigger] names[j]) && !is_dotdot(names[j]),
    ensures
        normalize(names, k) == names.take(k),
    decreases k,
{
    if k > 0 {
        lemma_normalize_same(names, k - 1);
        assert(names.take(k - 1).push(names[k - 1]) =~= names.take(k));
    } else {
        assert(names.take(0) =~= Seq::<Seq<u8>>::empty());
    }
}

/// The canonical path names what remains of the names of the path when
/// `.` is dropped and `..` takes back the name before it; and the
/// canonical path of a canonical path is that path.
pub proof fn lemma_canonical(p: Seq<u8>)
    ensures
        names_of(canonical(p)) == normalize(names_of(p), names_of(p).len() as int),
        canonical(canonical(p)) == canonical(p),
{
    let all = names_of(p);
    let kept = normalize(all, all.len() as int);
    lemma_names_plain(p);
    lemma_normalize_plain(all, all.len() as int);
    assert(plain_names(kept)) by {
        assert forall|j: int| 0 <= j < kept.len() implies (#[trigger] kept[j]).len() > 0
            && !kept[j].contains(SEP) by {
            assert(all.contains(kept[j]));
            let i = choose|i: int| 0 <= i < all.len() && all[i] == kept[j];
            assert(all[i].len() > 0);
        }
    }
    if kept.len() == 0 {
        let root = seq![SEP];
        assert(parse(root, 0, Seq::empty(), Seq::empty()) == parse(
            root,
            1,
            Seq::empty(),
            Seq::empty(),
        ));
        assert(names_of(root) =~= Seq::<Seq<u8>>::empty());
        assert(kept =~= Seq::<Seq<u8>>::empty());
        assert(normalize(names_of(root), 0) =~= kept);
    } else {
        lemma_names_of_render(kept);
        lemma_normalize_same(kept, kept.len() as int);
        assert(kept.take(kept.len() as int) =~= kept);
    }
}

/// Whether the name is `.`.
pub fn name_is_dot(name: &Vec<u8>) -> (r: bool)
    ensures
        r == is_dot(name@),
{
    name.len() == 1 && name[0] == DOT
}

/// Whether the name is `..`.
pub fn name_is_dotdot(name: &Vec<u8>) -> (r: bool)
    ensures
        r == is_dotdot(name@),
{
    name.len() == 2 && name[0] == DOT && name[1] == DOT
}

/// The absolute path without `.` and `..` that names what `path` names,
/// as bytes.
pub fn canonicalize(path: &str) -> (out: Vec<u8>)
    ensures
        out@ == canonical(path.spec_bytes()),
{
    canonicalize_bytes(path.as_bytes())
}

/// The absolute path without `.` and `..` that names what `path` names.
pub fn canonicalize_bytes(path: &[u8]) -> (out: Vec<u8>)
    ensures
        out@ == canonical(path@),
{
    let names = components(path);
    let ghost all = names_view(names@);
    // the names that remain, by their places in `names`
    let mut stack: Vec<usize> = Vec::new();
    let mut k: usize = 0;
    proof {
        assert(Seq::new(0, |j: int| all[stack@[j] as int]) =~= normalize(all, 0));
    }
    while k < names.len()
        invariant
            k <= names@.len(),
            all == names_view(names@),
            forall|j: int| 0 <= j < stack@.len() ==> stack@[j] < names@.len(),
            Seq::new(stack@.len(), |j: int| all[stack@[j] as int]) == normalize(all, k as int),
        decreases names@.len() - k,
    {
        let ghost before = Seq::new(stack@.len(), |j: int| all[stack@[j] as int]);
        if name_is_dot(&names[k]) {
        } else if name_is_dotdot(&names[k]) {
            if stack.len() > 0 {
                stack.pop();
                proof {
                    assert(Seq::new(stack@.len(), |j: int| all[stack@[j] as int])
                        =~= before.drop_last());
                }
            }
        } else {
            stack.push(k);
            proof {
                assert(Seq::new(stack@.len(), |j: int| all[stack@[j] as int]) =~= before.push(
                    all[k as int],
                ));
            }
        }
        k = k + 1;
    }
    let ghost kept = Seq::new(stack@.len(), |j: int| all[stack@[j] as int]);
    let mut out: Vec<u8> = Vec::new();
    if stack.len() == 0 {
        out.push(SEP);
        proof {
            assert(out@ =~= seq![SEP]);
        }
        return out;
    }
    let mut i: usize = 0;
    proof {
        assert(out@ =~= render(kept, 0));
    }
    while i < stack.len()
        invariant
            i <= stack@.len(),
            all == names_view(names@),
            forall|j: int| 0 <= j < stack@.len() ==> stack@[j] < names@.len(),
            kept == Seq::new(stack@.len(), |j: int| all[stack@[j] as int]),
            out@ == render(kept, i as int),
        decreases stack@.len() - i,
    {
        out.push(SEP);
        let name = &names[stack[i]];
        let ghost head = out@;
        let mut j: usize = 0;
        while j < name.len()
            invariant
                j <= name@.len(),
                out@ == head + name@.take(j as int),
            decreases name@.len() - j,
        {
            out.push(name[j]);
            proof {
                assert(name@.take(j as int).push(name@[j as int]) =~= name@.take(j + 1));
                assert(out@ =~= head + name@.take(j + 1));
            }
            j = j + 1;
        }
        proof {
            assert(name@.take(name@.len() as int) =~= name@);
            assert(kept[i as int] == name@);
        }
        i = i + 1;
    }
    out
}

/// The path that `arg` names when the working directory is `cwd`: `arg`
/// itself if it is absolute, and else `arg` behind `cwd`.
pub open spec fn joined(cwd: Seq<u8>, arg: Seq<u8>) -> Seq<u8> {
    if arg.len() > 0 && arg[0] == SEP {
        arg
    } else {
        cwd.push(SEP) + arg
    }
}

/// Puts the bytes `b` behind the bytes of `v`.
fn push_all(v: &mut Vec<u8>, b: &[u8])
    ensures
        final(v)@ == old(v)@ + b@,
{
    let ghost head = v@;
    let mut j: usize = 0;
    proof {
        assert(v@ =~= head + b@.take(0));
    }
    while j < b.len()
        invariant
            j <= b@.len(),
            v@ == head + b@.take(j as int),
        decreases b@.len() - j,
    {
        v.push(b[j]);
        proof {
            assert((head + b@.take(j as int)).push(b@[j as int]) =~= head + b@.take(j + 1));
        }
        j = j + 1;
    }
    proof {
        assert(b@.take(b@.len() as int) =~= b@);
    }
}

/// The path that `arg` names when the working directory is `cwd`; see
/// `joined`.
pub fn join(cwd: &[u8], arg: &[u8]) -> (whole: Vec<u8>)
    ensures
        whole@ == joined(cwd@, arg@),
{
    let mut whole: Vec<u8> = Vec::new();
    if !(arg.len() > 0 && arg[0] == SEP) {
        push_all(&mut whole, cwd);
        whole.push(SEP);
    }
    push_all(&mut whole, arg);
    proof {
        assert(whole@ =~= joined(cwd@, arg@));
    }
    whole
}

/// The absolute path without `.` and `..` that `arg` names when the
/// working directory is `cwd`, as bytes.
pub fn absolute(cwd: &str, arg: &str) -> (out: Vec<u8>)
    ensures
        out@ == canonical(joined(cwd.spec_bytes(), arg.spec_bytes())),
{
    let whole = join(cwd.as_bytes(), arg.as_bytes());
    canonicalize_bytes(whole.as_slice())
}

} // verus!
